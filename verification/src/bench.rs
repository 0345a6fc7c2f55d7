//! The ping-pong benchmark's bookkeeping: its options, and which round trips
//! are sampled.
use vstd::prelude::*;

verus! {

pub const CACHE_LINE: usize = 64;

/// 512Ki samples * 4 bytes = 2 MiB per pair; iterations beyond the cap are
/// subsampled evenly rather than truncated.
pub const MAX_SAMPLES: usize = 524288;

// ---- Sampling ----

/// `a / b`, rounded up.
pub open spec fn ceil_div(a: int, b: int) -> int {
    (a + b - 1) / b
}

/// Evenly subsample when the iteration count exceeds the sample buffer.
pub fn sample_stride(iters: u64) -> (stride: u64)
    ensures
        stride == ceil_div(iters as int, MAX_SAMPLES as int),
{
    let cap: u64 = MAX_SAMPLES as u64;
    let whole: u64 = iters / cap;
    if iters % cap == 0 {
        whole
    } else {
        whole + 1
    }
}

/// How many of the first `n` round trips are sampled, one in `stride`.
pub open spec fn sampled(stride: int, n: int) -> int
    decreases n,
{
    if n <= 0 {
        0
    } else if (n - 1) % stride == 0 {
        sampled(stride, n - 1) + 1
    } else {
        sampled(stride, n - 1)
    }
}

/// The slot in which the `i`th round trip, counted from 1, is sampled: not
/// while warming up, one in `stride` after that, as long as there is room.
pub open spec fn slot_of(i: int, warmup: int, stride: int, nsamples: int) -> Option<usize> {
    if i > warmup && (i - warmup - 1) % stride == 0 && nsamples < MAX_SAMPLES {
        Some(nsamples as usize)
    } else {
        None
    }
}

/// Where to put the sample of the `i`th round trip, if it is sampled.
pub fn sample_slot(i: u64, warmup: u64, stride: u64, nsamples: u64) -> (slot: Option<usize>)
    requires
        stride > 0,
    ensures
        slot == slot_of(i as int, warmup as int, stride as int, nsamples as int),
{
    if i > warmup && (i - warmup - 1) % stride == 0 && nsamples < MAX_SAMPLES as u64 {
        Some(nsamples as usize)
    } else {
        None
    }
}

/// A round trip's nanoseconds as a sample; overlong ones count as the most
/// that a sample holds.
pub fn clamp_sample(ns: u128) -> (sample: u32)
    ensures
        sample == (if ns <= u32::MAX {
            ns as int
        } else {
            u32::MAX as int
        }),
{
    if ns <= u32::MAX as u128 {
        ns as u32
    } else {
        u32::MAX
    }
}

// ---- Numbers ----

pub open spec fn is_digit(c: char) -> bool {
    '0' <= c && c <= '9'
}

/// The value of a string of digits.
pub open spec fn digits_value(s: Seq<char>) -> int
    decreases s.len(),
{
    if s.len() == 0 {
        0
    } else {
        digits_value(s.drop_last()) * 10 + (s.last() as int - '0' as int)
    }
}

pub open spec fn all_digits(s: Seq<char>) -> bool {
    forall|i: int| 0 <= i < s.len() ==> is_digit(#[trigger] s[i])
}

/// The digits of a number that may start with a plus sign.
pub open spec fn unsigned_part(s: Seq<char>) -> Seq<char> {
    if s.len() > 0 && s[0] == '+' {
        s.skip(1)
    } else {
        s
    }
}

/// The decimal number that the text spells, if it spells one that fits.
pub open spec fn decimal(s: Seq<char>) -> Option<u64> {
    let digits = unsigned_part(s);
    if digits.len() > 0 && all_digits(digits) && digits_value(digits) <= u64::MAX {
        Some(digits_value(digits) as u64)
    } else {
        None
    }
}

pub proof fn lemma_digits_monotone(s: Seq<char>, n: int)
    requires
        0 <= n <= s.len(),
        all_digits(s),
    ensures
        0 <= digits_value(s.take(n)) <= digits_value(s),
    decreases s.len(),
{
    if n < s.len() {
        let t = s.drop_last();
        assert(t.take(n) =~= s.take(n));
        assert(all_digits(t)) by {
            assert forall|i: int| 0 <= i < t.len() implies is_digit(#[trigger] t[i]) by {
                assert(is_digit(s[i]));
            }
        }
        lemma_digits_monotone(t, n);
        assert(is_digit(s[s.len() - 1]));
    } else {
        assert(s.take(n) =~= s);
        if n > 0 {
            let t = s.drop_last();
            assert(all_digits(t)) by {
                assert forall|i: int| 0 <= i < t.len() implies is_digit(#[trigger] t[i]) by {
                    assert(is_digit(s[i]));
                }
            }
            lemma_digits_monotone(t, 0);
            assert(is_digit(s[n - 1]));
            assert(t.take(0) =~= Seq::<char>::empty());
        }
    }
}

/// Reads a decimal number: an optional plus sign and then only digits.
pub fn parse_decimal(text: &str) -> (number: Option<u64>)
    ensures
        number == decimal(text@),
{
    let ghost s = text@;
    let ghost digits = unsigned_part(s);
    let ghost skip = s.len() - digits.len();
    let mut value: u64 = 0;
    let mut any = false;
    let mut first = true;
    for c in it: text.chars()
        invariant
            it.seq() == s,
            s == text@,
            digits == unsigned_part(s),
            skip == s.len() - digits.len(),
            first == (it.index() == 0),
            it.index() == 0 || skip <= it.index(),
            ({
                let n = if it.index() <= skip {
                    0
                } else {
                    it.index() - skip
                };
                &&& any == (n > 0)
                &&& value == digits_value(digits.take(n))
                &&& forall|j: int| 0 <= j < n ==> is_digit(#[trigger] digits[j])
            }),
    {
        let ghost i = it.index() as int;
        if first && c == '+' {
            first = false;
            assert(digits.take(0) =~= Seq::<char>::empty());
        } else {
            let ghost n = i - skip;
            assert(c == s[i]);
            assert(digits[n] == c);
            assert(digits.take(n + 1).drop_last() =~= digits.take(n));
            first = false;
            if c < '0' || c > '9' {
                assert(!is_digit(digits[n]));
                return None;
            }
            let d: u64 = (c as u32 - '0' as u32) as u64;
            proof {
                assert(digits_value(digits.take(n + 1)) == value * 10 + d);
                if all_digits(digits) {
                    lemma_digits_monotone(digits, n + 1);
                }
            }
            if value > (u64::MAX - d) / 10 {
                assert(value * 10 + d > u64::MAX);
                return None;
            }
            value = value * 10 + d;
            any = true;
        }
    }
    assert(digits.take(digits.len() as int) =~= digits);
    if any {
        Some(value)
    } else {
        None
    }
}

// ---- Options ----

#[derive(Debug, Clone, Copy, PartialEq, Eq, Structural)]
pub struct Opts {
    /// Communicating process pairs.
    pub pairs: usize,
    /// Measured round trips per pair.
    pub iters: u64,
    /// Warmup round trips per pair.
    pub warmup: u64,
    /// Message payload bytes, walked line by line.
    pub payload: usize,
    /// Background busy-loop processes to load the machine.
    pub background: usize,
}

#[derive(Debug, Clone, Copy, PartialEq, Eq, Structural)]
pub enum Flag {
    /// `-p`
    Pairs,
    /// `-n`
    Iters,
    /// `-w`
    Warmup,
    /// `-s`
    Payload,
    /// `-b`
    Background,
}

#[derive(Debug, Clone, Copy, PartialEq, Eq, Structural)]
pub enum OptsError {
    /// An unknown flag, or a value out of range.
    Usage,
    /// The flag needs a numeric argument.
    NeedsNumber { flag: Flag },
}

pub open spec fn default_opts() -> Opts {
    Opts { pairs: 1, iters: 200000, warmup: 5000, payload: 4096, background: 0 }
}

pub open spec fn flag_of(text: Seq<char>) -> Option<Flag> {
    if text == "-p"@ {
        Some(Flag::Pairs)
    } else if text == "-n"@ {
        Some(Flag::Iters)
    } else if text == "-w"@ {
        Some(Flag::Warmup)
    } else if text == "-s"@ {
        Some(Flag::Payload)
    } else if text == "-b"@ {
        Some(Flag::Background)
    } else {
        None
    }
}

/// The options with the flag's value set.
pub open spec fn with_flag(o: Opts, flag: Flag, value: u64) -> Opts {
    match flag {
        Flag::Pairs => Opts { pairs: value as usize, ..o },
        Flag::Iters => Opts { iters: value, ..o },
        Flag::Warmup => Opts { warmup: value, ..o },
        Flag::Payload => Opts { payload: value as usize, ..o },
        Flag::Background => Opts { background: value as usize, ..o },
    }
}

/// What the arguments from the `i`th on make of the options.
pub open spec fn flags_from(args: Seq<String>, i: int, o: Opts) -> Result<Opts, OptsError>
    decreases args.len() - i,
{
    if i >= args.len() {
        Ok(o)
    } else {
        match flag_of(args[i]@) {
            None => Err(OptsError::Usage),
            Some(flag) => if i + 1 >= args.len() {
                Err(OptsError::NeedsNumber { flag })
            } else {
                match decimal(args[i + 1]@) {
                    None => Err(OptsError::NeedsNumber { flag }),
                    Some(value) => flags_from(args, i + 2, with_flag(o, flag, value)),
                }
            },
        }
    }
}

/// There is a pair, a round trip to measure, and a line to walk.
pub open spec fn in_range(o: Opts) -> bool {
    o.pairs >= 1 && o.iters >= 1 && o.payload >= CACHE_LINE
}

/// What the arguments come to.
pub open spec fn opts_of(args: Seq<String>) -> Result<Opts, OptsError> {
    match flags_from(args, 0, default_opts()) {
        Err(e) => Err(e),
        Ok(o) => if in_range(o) {
            Ok(o)
        } else {
            Err(OptsError::Usage)
        },
    }
}

/// The options with the payload rounded up to whole cache lines.
pub open spec fn rounded(o: Opts) -> Opts {
    Opts { payload: (ceil_div(o.payload as int, CACHE_LINE as int) * CACHE_LINE) as usize, ..o }
}

fn read_flag(text: &String) -> (flag: Option<Flag>)
    ensures
        flag == flag_of(text@),
{
    if *text == "-p".to_owned() {
        Some(Flag::Pairs)
    } else if *text == "-n".to_owned() {
        Some(Flag::Iters)
    } else if *text == "-w".to_owned() {
        Some(Flag::Warmup)
    } else if *text == "-s".to_owned() {
        Some(Flag::Payload)
    } else if *text == "-b".to_owned() {
        Some(Flag::Background)
    } else {
        None
    }
}

fn set_flag(o: Opts, flag: Flag, value: u64) -> (set: Opts)
    ensures
        set == with_flag(o, flag, value),
{
    let mut set = o;
    match flag {
        Flag::Pairs => {
            set.pairs = value as usize;
        },
        Flag::Iters => {
            set.iters = value;
        },
        Flag::Warmup => {
            set.warmup = value;
        },
        Flag::Payload => {
            set.payload = value as usize;
        },
        Flag::Background => {
            set.background = value as usize;
        },
    }
    set
}

/// Reads the arguments, without the program's name.
pub fn read_opts(args: &Vec<String>) -> (read: Result<Opts, OptsError>)
    ensures
        read == opts_of(args@),
{
    let mut o = Opts { pairs: 1, iters: 200000, warmup: 5000, payload: 4096, background: 0 };
    let mut i: usize = 0;
    while i < args.len()
        invariant
            i <= args@.len(),
            flags_from(args@, 0, default_opts()) == flags_from(args@, i as int, o),
        decreases args@.len() - i,
    {
        let flag = match read_flag(&args[i]) {
            Some(flag) => flag,
            None => {
                return Err(OptsError::Usage);
            },
        };
        if i + 1 >= args.len() {
            return Err(OptsError::NeedsNumber { flag });
        }
        match parse_decimal(args[i + 1].as_str()) {
            Some(value) => {
                o = set_flag(o, flag, value);
            },
            None => {
                return Err(OptsError::NeedsNumber { flag });
            },
        }
        i = i + 2;
    }
    if o.pairs < 1 || o.iters < 1 || o.payload < CACHE_LINE {
        return Err(OptsError::Usage);
    }
    Ok(o)
}

/// Rounds the payload up to whole cache lines.
pub fn round_payload(o: Opts) -> (r: Opts)
    requires
        o.payload + (CACHE_LINE - 1) <= usize::MAX,
    ensures
        r == rounded(o),
{
    let mut r = o;
    let lines: usize = (o.payload + (CACHE_LINE - 1)) / CACHE_LINE;
    r.payload = lines * CACHE_LINE;
    r
}

/// Reads the arguments, without the program's name, and rounds the payload up
/// to whole cache lines.
pub fn parse_opts(args: &Vec<String>) -> (parsed: Result<Opts, OptsError>)
    requires
        opts_of(args@) matches Ok(o) ==> o.payload + (CACHE_LINE - 1) <= usize::MAX,
    ensures
        parsed == (match opts_of(args@) {
            Ok(o) => Ok(rounded(o)),
            Err(e) => Err(e),
        }),
{
    match read_opts(args) {
        Ok(o) => Ok(round_payload(o)),
        Err(e) => Err(e),
    }
}

// ---- Laws ----

/// A number is at most its rounded-up quotient times the divisor.
proof fn lemma_ceil(a: int, b: int)
    by (nonlinear_arith)
    requires
        a >= 0,
        b > 0,
    ensures
        ceil_div(a, b) * b >= a,
        (ceil_div(a, b) - 1) * b < a,
        ceil_div(a, b) >= 0,
{
}

/// One in `stride` of `n` are as many as the rounded-up quotient.
proof fn lemma_sampled(stride: int, n: int)
    requires
        stride > 0,
        n >= 0,
    ensures
        sampled(stride, n) == ceil_div(n, stride),
    decreases n,
{
    if n > 0 {
        lemma_sampled(stride, n - 1);
        lemma_ceil(n, stride);
        lemma_ceil(n - 1, stride);
        let q = (n - 1) / stride;
        assert(n - 1 == q * stride + (n - 1) % stride) by (nonlinear_arith)
            requires
                stride > 0,
                q == (n - 1) / stride,
        ;
        if (n - 1) % stride == 0 {
            assert((n - 1 + stride - 1) / stride == q) by (nonlinear_arith)
                requires
                    stride > 0,
                    n - 1 == q * stride,
            ;
            assert((n + stride - 1) / stride == q + 1) by (nonlinear_arith)
                requires
                    stride > 0,
                    n - 1 == q * stride,
            ;
        } else {
            let r = (n - 1) % stride;
            assert((n - 1 + stride - 1) / stride == q + 1) by (nonlinear_arith)
                requires
                    stride > 0,
                    0 < r < stride,
                    n - 1 == q * stride + r,
            ;
            assert((n + stride - 1) / stride == q + 1) by (nonlinear_arith)
                requires
                    stride > 0,
                    0 < r < stride,
                    n - 1 == q * stride + r,
            ;
        }
    } else {
        assert((stride - 1) / stride == 0) by (nonlinear_arith)
            requires
                stride > 0,
        ;
    }
}

/// Any number of round trips subsamples into the buffer, and at least one in
/// each buffer's worth is sampled.
pub proof fn law_samples_fit_the_buffer(iters: u64)
    requires
        iters >= 1,
    ensures
        ceil_div(iters as int, MAX_SAMPLES as int) >= 1,
        ceil_div(iters as int, ceil_div(iters as int, MAX_SAMPLES as int)) <= MAX_SAMPLES,
        sampled(ceil_div(iters as int, MAX_SAMPLES as int), iters as int) <= MAX_SAMPLES,
{
    let n = iters as int;
    let cap = MAX_SAMPLES as int;
    let stride = ceil_div(n, cap);
    lemma_ceil(n, cap);
    assert(stride >= 1) by (nonlinear_arith)
        requires
            stride * cap >= n,
            n >= 1,
            cap > 0,
    ;
    lemma_ceil(n, stride);
    let c = ceil_div(n, stride);
    assert(c <= cap) by (nonlinear_arith)
        requires
            (c - 1) * stride < n,
            stride * cap >= n,
            stride >= 1,
    ;
    lemma_sampled(stride, n);
}

/// Round trips are subsampled evenly rather than truncated: while measuring,
/// the buffer never runs out before a round trip that is to be sampled.
pub proof fn law_sampling_is_never_cut_short(iters: u64, k: int)
    requires
        0 <= k < iters,
        k % ceil_div(iters as int, MAX_SAMPLES as int) == 0,
    ensures
        sampled(ceil_div(iters as int, MAX_SAMPLES as int), k) < MAX_SAMPLES,
{
    law_samples_fit_the_buffer(iters);
    let stride = ceil_div(iters as int, MAX_SAMPLES as int);
    lemma_sampled_grows(stride, k + 1, iters as int);
}

proof fn lemma_sampled_grows(stride: int, m: int, n: int)
    requires
        m <= n,
    ensures
        sampled(stride, m) <= sampled(stride, n),
    decreases n - m,
{
    if m < n {
        lemma_sampled_grows(stride, m, n - 1);
    }
}

/// A rounded payload holds the asked-for bytes in whole cache lines.
pub proof fn law_payloads_are_whole_lines(o: Opts)
    requires
        o.payload + (CACHE_LINE - 1) <= usize::MAX,
    ensures
        rounded(o).payload % CACHE_LINE == 0,
        o.payload <= rounded(o).payload < o.payload + CACHE_LINE,
{
}

} // verus!
