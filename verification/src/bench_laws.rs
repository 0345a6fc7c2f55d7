//! What the benchmark's arguments and samples come to.
use vstd::prelude::*;

use crate::bench::{
    all_digits, ceil_div, decimal, default_opts, digits_value, flag_of, flags_from, is_digit,
    lemma_digits_monotone, opts_of, rounded, slot_of, unsigned_part, with_flag, Flag, Opts,
    OptsError, MAX_SAMPLES,
};

verus! {

// ---- Sampling ----

/// The stride is the least that lets the round trips fit in the buffer.
pub proof fn law_the_stride_is_the_least_that_fits(iters: u64)
    ensures
        ({
            let stride = ceil_div(iters as int, MAX_SAMPLES as int);
            &&& stride * 524288 >= iters
            &&& forall|s: int| #[trigger] (s * 524288) >= iters ==> s >= stride
        }),
{
}

/// While there is room, the first round trip behind the warmup is sampled, and
/// from then on one in each stride; each goes in the next free slot.
pub proof fn law_one_in_each_stride_is_sampled(i: int, warmup: int, stride: int, nsamples: int)
    requires
        stride > 0,
        0 <= nsamples <= u64::MAX,
    ensures
        slot_of(i, warmup, stride, nsamples) is Some <==> nsamples < 524288 && exists|k: int|
            0 <= k && i == warmup + 1 + #[trigger] (k * stride),
        slot_of(i, warmup, stride, nsamples) is Some ==> slot_of(
            i,
            warmup,
            stride,
            nsamples,
        )->0 == nsamples,
{
    let d = i - warmup - 1;
    if d >= 0 && d % stride == 0 {
        let k = d / stride;
        assert(d == k * stride && k >= 0) by (nonlinear_arith)
            requires
                d >= 0,
                d % stride == 0,
                stride > 0,
                k == d / stride,
        ;
    }
    if exists|k: int| 0 <= k && i == warmup + 1 + #[trigger] (k * stride) {
        let k = choose|k: int| 0 <= k && i == warmup + 1 + #[trigger] (k * stride);
        assert(d >= 0 && d % stride == 0) by (nonlinear_arith)
            requires
                d == k * stride,
                k >= 0,
                stride > 0,
        ;
    }
}

// ---- Numbers ----

/// The digit that a character stands for.
pub open spec fn digit(c: char) -> int {
    c as int - 48
}

/// One more digit makes ten times the number and the digit, as long as it
/// fits.
pub proof fn law_digits_count_tenfold(s: Seq<char>, c: char)
    requires
        decimal(s) is Some,
        '0' <= c <= '9',
    ensures
        decimal(s)->0 * 10 + digit(c) <= u64::MAX ==> decimal(s.push(c)) is Some && decimal(
            s.push(c),
        )->0 == decimal(s)->0 * 10 + digit(c),
        decimal(s)->0 * 10 + digit(c) > u64::MAX ==> decimal(s.push(c)) is None,
{
    let t = s.push(c);
    let digits = unsigned_part(s);
    assert(t[0] == s[0]);
    assert(unsigned_part(t) =~= digits.push(c));
    let more = digits.push(c);
    lemma_digits_monotone(digits, 0);
    assert(digits.take(0) =~= Seq::<char>::empty());
    assert(more.drop_last() =~= digits);
    assert(all_digits(more)) by {
        assert forall|i: int| 0 <= i < more.len() implies is_digit(#[trigger] more[i]) by {
            if i < digits.len() {
                assert(is_digit(digits[i]));
            }
        }
    }
}

/// A digit by itself is the number that it stands for; nothing, or a sign by
/// itself, is no number.
pub proof fn law_a_digit_is_a_number(c: char)
    ensures
        '0' <= c <= '9' ==> decimal(seq![c]) is Some && decimal(seq![c])->0 == digit(c),
        decimal(Seq::<char>::empty()) is None,
        decimal(seq!['+']) is None,
{
    let s = seq![c];
    assert(s.drop_last() =~= Seq::<char>::empty());
    assert(digits_value(Seq::<char>::empty()) == 0);
    if '0' <= c <= '9' {
        assert(unsigned_part(s) == s);
        assert(all_digits(s));
        assert(digits_value(s) == digit(c));
    }
    assert(unsigned_part(seq!['+']) =~= Seq::<char>::empty());
}

/// A plus sign in front of a number that has none changes nothing.
pub proof fn law_a_plus_sign_changes_nothing(s: Seq<char>)
    requires
        s.len() > 0 ==> s[0] != '+',
    ensures
        decimal(seq!['+'] + s) == decimal(s),
{
    assert(unsigned_part(seq!['+'] + s) =~= s);
}

/// Nothing but digits, and a plus sign in front, makes a number.
pub proof fn law_other_characters_make_no_number(s: Seq<char>, i: int)
    requires
        0 <= i < s.len(),
        s[i] < '0' || s[i] > '9',
        i > 0 || s[0] != '+',
    ensures
        decimal(s) is None,
{
    let digits = unsigned_part(s);
    let k = i - (s.len() - digits.len());
    assert(digits[k] == s[i]);
    assert(!is_digit(digits[k]));
}

// ---- Options ----

/// Reading on behind arguments that came to `p`.
proof fn lemma_read_on(args: Seq<String>, tail: Seq<String>, i: int, o: Opts)
    requires
        0 <= i <= args.len(),
    ensures
        flags_from(args, i, o) matches Ok(p) ==> flags_from(args + tail, i, o) == flags_from(
            args + tail,
            args.len() as int,
            p,
        ),
        (args.len() - i) % 2 == 0 && flags_from(args, i, o) is Err ==> flags_from(
            args + tail,
            i,
            o,
        ) == flags_from(args, i, o),
    decreases args.len() - i,
{
    let all = args + tail;
    if i < args.len() {
        assert(all[i] == args[i]);
        if i + 1 < args.len() {
            assert(all[i + 1] == args[i + 1]);
            if flag_of(args[i]@) is Some && decimal(args[i + 1]@) is Some {
                let next = with_flag(o, flag_of(args[i]@)->0, decimal(args[i + 1]@)->0);
                lemma_read_on(args, tail, i + 2, next);
            }
        }
    }
}

/// Without arguments the options are as built in.
pub proof fn law_no_arguments_no_change()
    ensures
        opts_of(Seq::<String>::empty()) == Ok::<Opts, OptsError>(
            Opts { pairs: 1, iters: 200000, warmup: 5000, payload: 4096, background: 0 },
        ),
{
}

/// What `opts` come to when they are checked: there must be a pair, a round
/// trip to measure, and a line to walk.
pub open spec fn checked(opts: Opts) -> Result<Opts, OptsError> {
    if opts.pairs >= 1 && opts.iters >= 1 && opts.payload >= 64 {
        Ok(opts)
    } else {
        Err(OptsError::Usage)
    }
}

/// A flag with a number behind it sets its option, and no other, over what
/// the arguments before came to.
pub proof fn law_a_flag_sets_its_option(
    args: Seq<String>,
    flag: String,
    number: String,
    o: Opts,
    v: u64,
)
    requires
        opts_of(args) == Ok::<Opts, OptsError>(o),
        decimal(number@) == Some(v),
        v <= usize::MAX,
    ensures
        ({
            let after = opts_of(args.push(flag).push(number));
            &&& flag@ == seq!['-', 'p'] ==> after == checked(Opts { pairs: v as usize, ..o })
            &&& flag@ == seq!['-', 'n'] ==> after == checked(Opts { iters: v, ..o })
            &&& flag@ == seq!['-', 'w'] ==> after == checked(Opts { warmup: v, ..o })
            &&& flag@ == seq!['-', 's'] ==> after == checked(Opts { payload: v as usize, ..o })
            &&& flag@ == seq!['-', 'b'] ==> after == checked(Opts { background: v as usize, ..o })
        }),
{
    let tail = seq![flag, number];
    let all = args + tail;
    let n = args.len() as int;
    assert(args.push(flag).push(number) =~= all);
    lemma_read_on(args, tail, 0, default_opts());
    assert(all[n] == flag && all[n + 1] == number);
    lemma_flag_texts(flag@);
    if flag_of(flag@) is Some {
        let next = with_flag(o, flag_of(flag@)->0, v);
        assert(flags_from(all, n + 2, next) == Ok::<Opts, OptsError>(next));
        assert(flags_from(all, n, o) == flags_from(all, n + 2, next));
    }
}

proof fn lemma_flag_texts(text: Seq<char>)
    ensures
        flag_of(text) == Some(Flag::Pairs) <==> text == seq!['-', 'p'],
        flag_of(text) == Some(Flag::Iters) <==> text == seq!['-', 'n'],
        flag_of(text) == Some(Flag::Warmup) <==> text == seq!['-', 'w'],
        flag_of(text) == Some(Flag::Payload) <==> text == seq!['-', 's'],
        flag_of(text) == Some(Flag::Background) <==> text == seq!['-', 'b'],
{
    reveal_strlit("-p");
    reveal_strlit("-n");
    reveal_strlit("-w");
    reveal_strlit("-s");
    reveal_strlit("-b");
    assert("-p"@ =~= seq!['-', 'p']);
    assert("-n"@ =~= seq!['-', 'n']);
    assert("-w"@ =~= seq!['-', 'w']);
    assert("-s"@ =~= seq!['-', 's']);
    assert("-b"@ =~= seq!['-', 'b']);
    assert("-p"@[1] == 'p');
    assert("-n"@[1] == 'n');
    assert("-w"@[1] == 'w');
    assert("-s"@[1] == 's');
    assert("-b"@[1] == 'b');
}

/// An argument that should be a flag and is none is refused, whatever follows.
pub proof fn law_unknown_flags_are_refused(
    args: Seq<String>,
    flag: String,
    tail: Seq<String>,
    o: Opts,
)
    requires
        opts_of(args) == Ok::<Opts, OptsError>(o),
        flag@ != seq!['-', 'p'],
        flag@ != seq!['-', 'n'],
        flag@ != seq!['-', 'w'],
        flag@ != seq!['-', 's'],
        flag@ != seq!['-', 'b'],
    ensures
        opts_of(args.push(flag) + tail) == Err::<Opts, OptsError>(OptsError::Usage),
{
    let rest = seq![flag] + tail;
    let all = args + rest;
    assert(args.push(flag) + tail =~= all);
    lemma_read_on(args, rest, 0, default_opts());
    assert(all[args.len() as int] == flag);
    lemma_flag_texts(flag@);
    assert(flag_of(flag@) is None) by {
        if flag_of(flag@) is Some {
            match flag_of(flag@)->0 {
                Flag::Pairs => {},
                Flag::Iters => {},
                Flag::Warmup => {},
                Flag::Payload => {},
                Flag::Background => {},
            }
        }
    }
}

/// A flag without a number behind it is told to need one.
pub proof fn law_flags_need_numbers(
    args: Seq<String>,
    flag: String,
    word: String,
    tail: Seq<String>,
    o: Opts,
)
    requires
        opts_of(args) == Ok::<Opts, OptsError>(o),
        flag_of(flag@) is Some,
        decimal(word@) is None,
    ensures
        ({
            let refused = Err::<Opts, OptsError>(
                OptsError::NeedsNumber { flag: flag_of(flag@)->0 },
            );
            &&& opts_of(args.push(flag)) == refused
            &&& opts_of(args.push(flag).push(word) + tail) == refused
        }),
{
    let n = args.len() as int;
    let alone = args + seq![flag];
    assert(args.push(flag) =~= alone);
    lemma_read_on(args, seq![flag], 0, default_opts());
    assert(alone[n] == flag);
    let rest = seq![flag, word] + tail;
    let all = args + rest;
    assert(args.push(flag).push(word) + tail =~= all);
    lemma_read_on(args, rest, 0, default_opts());
    assert(all[n] == flag && all[n + 1] == word);
}

/// Which texts are flags, and which flag each is.
pub proof fn law_flags_are_named_by_a_letter(text: Seq<char>)
    ensures
        flag_of(text) == Some(Flag::Pairs) <==> text == seq!['-', 'p'],
        flag_of(text) == Some(Flag::Iters) <==> text == seq!['-', 'n'],
        flag_of(text) == Some(Flag::Warmup) <==> text == seq!['-', 'w'],
        flag_of(text) == Some(Flag::Payload) <==> text == seq!['-', 's'],
        flag_of(text) == Some(Flag::Background) <==> text == seq!['-', 'b'],
{
    lemma_flag_texts(text);
}

/// Whatever is accepted has a pair, a round trip to measure, and a line to
/// walk.
pub proof fn law_accepted_options_are_in_range(args: Seq<String>)
    ensures
        opts_of(args) matches Ok(o) ==> o.pairs >= 1 && o.iters >= 1 && o.payload >= 64,
{
}

/// Rounding changes the payload alone: to the least number of whole cache
/// lines that holds it.
pub proof fn law_rounding_changes_the_payload_alone(o: Opts)
    requires
        o.payload + 63 <= usize::MAX,
    ensures
        rounded(o).pairs == o.pairs,
        rounded(o).iters == o.iters,
        rounded(o).warmup == o.warmup,
        rounded(o).background == o.background,
        rounded(o).payload % 64 == 0,
        o.payload <= rounded(o).payload < o.payload + 64,
{
}

} // verus!
