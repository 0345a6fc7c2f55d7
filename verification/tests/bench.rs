use scx_cohort::bench::{
    clamp_sample, parse_decimal, parse_opts, read_opts, round_payload, sample_slot, sample_stride,
    Flag, Opts, OptsError, MAX_SAMPLES,
};

#[test]
fn stride_subsamples_into_the_buffer() {
    assert_eq!(sample_stride(1), 1);
    assert_eq!(sample_stride(MAX_SAMPLES as u64), 1);
    assert_eq!(sample_stride(MAX_SAMPLES as u64 + 1), 2);
    // Worst case still fits: ceil(iters / stride) <= MAX_SAMPLES.
    for iters in [1, 12345, 3 * MAX_SAMPLES as u64 - 1] {
        let stride = sample_stride(iters);
        assert!(iters.div_ceil(stride) <= MAX_SAMPLES as u64);
    }
}

#[test]
fn the_buffer_holds_512ki_samples() {
    assert_eq!(MAX_SAMPLES, 512 * 1024);
    assert_eq!(sample_stride(0), 0);
    assert_eq!(sample_stride(u64::MAX), 1 << 45);
}

#[test]
fn sampling_skips_the_warmup_and_strides_evenly() {
    let (iters, warmup) = (2 * MAX_SAMPLES as u64 + 1, 3);
    let stride = sample_stride(iters);
    assert_eq!(stride, 3);
    let mut nsamples = 0;
    for i in 1..=(warmup + iters) {
        if let Some(slot) = sample_slot(i, warmup, stride, nsamples) {
            assert_eq!(slot as u64, nsamples);
            assert_eq!((i - warmup - 1) % stride, 0);
            nsamples += 1;
        }
    }
    assert_eq!(nsamples, iters.div_ceil(stride));
    assert_eq!(sample_slot(3, 3, 1, 0), None);
    assert_eq!(sample_slot(4, 3, 1, 0), Some(0));
    assert_eq!(sample_slot(4, 3, 1, MAX_SAMPLES as u64), None);
}

#[test]
fn overlong_samples_are_clamped() {
    assert_eq!(clamp_sample(17), 17);
    assert_eq!(clamp_sample(u32::MAX as u128), u32::MAX);
    assert_eq!(clamp_sample(1 << 40), u32::MAX);
}

#[test]
fn decimals_read_as_std_reads_them() {
    let texts = [
        "0", "7", "+7", "007", "18446744073709551615", "18446744073709551616", "", "+", "-1", "-0",
        " 1", "1 ", "1_0", "++1", "1+", "0x10", "\u{661}", "99999999999999999999999999",
    ];
    for text in texts {
        assert_eq!(parse_decimal(text), text.parse::<u64>().ok(), "{text:?}");
    }
}

fn args(list: &[&str]) -> Vec<String> {
    list.iter().map(|a| a.to_string()).collect()
}

#[test]
fn options_default_and_are_set_by_flags() {
    let defaults = Opts {
        pairs: 1,
        iters: 200000,
        warmup: 5000,
        payload: 4096,
        background: 0,
    };
    assert_eq!(parse_opts(&args(&[])), Ok(defaults));
    assert_eq!(
        parse_opts(&args(&["-p", "3", "-n", "10", "-w", "0", "-s", "65", "-b", "2", "-p", "4"])),
        Ok(Opts {
            pairs: 4,
            iters: 10,
            warmup: 0,
            payload: 128,
            background: 2
        })
    );
    // Before rounding.
    assert_eq!(read_opts(&args(&["-s", "65"])).unwrap().payload, 65);
    assert_eq!(round_payload(defaults).payload, 4096);
}

#[test]
fn bad_options_are_refused() {
    for flag in [["-p", "0"], ["-n", "0"], ["-s", "63"], ["-x", "1"]] {
        assert_eq!(parse_opts(&args(&flag)), Err(OptsError::Usage));
    }
    let needs = |flag| Err(OptsError::NeedsNumber { flag });
    assert_eq!(parse_opts(&args(&["-p"])), needs(Flag::Pairs));
    assert_eq!(parse_opts(&args(&["-n", "many"])), needs(Flag::Iters));
    assert_eq!(parse_opts(&args(&["-w", "-p"])), needs(Flag::Warmup));
    assert_eq!(parse_opts(&args(&["-s", ""])), needs(Flag::Payload));
    assert_eq!(parse_opts(&args(&["-p", "2", "-b"])), needs(Flag::Background));
    // Arguments are read in order: the first fault counts.
    assert_eq!(parse_opts(&args(&["-p", "x", "-y"])), needs(Flag::Pairs));
    assert_eq!(parse_opts(&args(&["-y", "-p", "x"])), Err(OptsError::Usage));
}
