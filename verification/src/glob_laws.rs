//! Which patterns are small enough to compile.
use vstd::prelude::*;

use crate::glob::{compiles, read_char, read_text, Place, MAX_GLOB_DEPTH};

verus! {

/// The next character stands outside of classes, and not behind a backslash.
pub open spec fn plain(text: Seq<char>) -> bool {
    read_text(text).1 == Place::Outside
}

/// How many alternations are open at the end of the text.
pub open spec fn depth(text: Seq<char>) -> int {
    read_text(text).0
}

proof fn lemma_push(text: Seq<char>, c: char)
    ensures
        read_text(text.push(c)) == read_char(read_text(text).0, read_text(text).1, c),
{
    assert(text.push(c).drop_last() =~= text);
}

/// A pattern compiles exactly if it is short enough, and nests no deeper than
/// allowed at any place.
pub proof fn law_small_patterns_compile(pattern: Seq<char>)
    ensures
        compiles(pattern) <==> {
            &&& pattern.len() <= 32768
            &&& forall|n: int|
                0 <= n <= pattern.len() ==> depth(#[trigger] pattern.take(n)) <= 81
        },
{
    if compiles(pattern) {
        assert forall|n: int| 0 <= n <= pattern.len() implies depth(#[trigger] pattern.take(n))
            <= 81 by {
            assert(read_text(pattern.take(n)).0 <= MAX_GLOB_DEPTH);
        }
    }
}

/// An opening brace opens an alternation, and a closing one closes it; any
/// other character but a bracket and a backslash changes nothing.
pub proof fn law_braces_nest(text: Seq<char>, c: char)
    requires
        plain(text),
    ensures
        depth(Seq::<char>::empty()) == 0,
        plain(Seq::<char>::empty()),
        depth(text.push('{')) == depth(text) + 1,
        plain(text.push('{')),
        depth(text) > 0 ==> depth(text.push('}')) == depth(text) - 1,
        depth(text) == 0 ==> depth(text.push('}')) == 0,
        plain(text.push('}')),
        c != '{' && c != '}' && c != '[' && c != '\\' ==> plain(text.push(c)) && depth(
            text.push(c),
        ) == depth(text),
{
    lemma_push(text, '{');
    lemma_push(text, '}');
    lemma_push(text, c);
}

/// A brace behind a backslash does not count, nor does anything else there.
pub proof fn law_escapes_do_not_nest(text: Seq<char>, c: char)
    requires
        plain(text),
    ensures
        plain(text.push('\\').push(c)),
        depth(text.push('\\').push(c)) == depth(text),
        depth(text.push('\\')) == depth(text),
{
    lemma_push(text, '\\');
    lemma_push(text.push('\\'), c);
}

/// Within a class: behind the bracket that opened it, the sign that negates it
/// if there is one, and one more character.
pub open spec fn within_class(text: Seq<char>) -> bool {
    read_text(text).1 == Place::ClassRest
}

/// A class takes one character, which may be a bracket, behind the bracket or
/// the sign that negates it; braces in it do not count, and the next bracket
/// closes it.
pub proof fn law_classes_do_not_nest(text: Seq<char>, c: char, d: char)
    requires
        plain(text),
        c != '!' && c != '^',
    ensures
        within_class(text.push('[').push(c)),
        depth(text.push('[').push(c)) == depth(text),
        depth(text.push('[')) == depth(text),
        within_class(text.push('[').push('!').push(d)),
        within_class(text.push('[').push('^').push(d)),
        depth(text.push('[').push('!').push(d)) == depth(text),
        depth(text.push('[').push('^').push(d)) == depth(text),
{
    let open = text.push('[');
    lemma_push(text, '[');
    lemma_push(open, c);
    lemma_push(open, '!');
    lemma_push(open, '^');
    lemma_push(open.push('!'), d);
    lemma_push(open.push('^'), d);
}

/// Up to the bracket that closes it, a class goes on.
pub proof fn law_a_bracket_closes_a_class(text: Seq<char>, c: char)
    requires
        within_class(text),
    ensures
        c != ']' ==> within_class(text.push(c)),
        plain(text.push(']')),
        depth(text.push(c)) == depth(text),
        depth(text.push(']')) == depth(text),
{
    lemma_push(text, c);
    lemma_push(text, ']');
}

/// A pattern without braces compiles exactly if it is short enough.
pub proof fn law_patterns_without_braces_do_not_nest(pattern: Seq<char>)
    requires
        forall|i: int| 0 <= i < pattern.len() ==> #[trigger] pattern[i] != '{',
    ensures
        compiles(pattern) <==> pattern.len() <= 32768,
{
    assert forall|n: int| 0 <= n <= pattern.len() implies (#[trigger] read_text(
        pattern.take(n),
    )).0 <= 0 by {
        lemma_no_depth(pattern, n);
    }
}

proof fn lemma_no_depth(pattern: Seq<char>, n: int)
    requires
        0 <= n <= pattern.len(),
        forall|i: int| 0 <= i < pattern.len() ==> #[trigger] pattern[i] != '{',
    ensures
        read_text(pattern.take(n)).0 == 0,
    decreases n,
{
    if n > 0 {
        lemma_no_depth(pattern, n - 1);
        assert(pattern.take(n).drop_last() =~= pattern.take(n - 1));
        assert(pattern.take(n).last() == pattern[n - 1]);
    }
}

/// Whatever compiles also compiles when it is cut short.
pub proof fn law_shorter_patterns_compile(pattern: Seq<char>, n: int)
    requires
        compiles(pattern),
        0 <= n <= pattern.len(),
    ensures
        compiles(pattern.take(n)),
{
    let short = pattern.take(n);
    assert forall|m: int| 0 <= m <= short.len() implies (#[trigger] read_text(short.take(m))).0
        <= MAX_GLOB_DEPTH by {
        assert(short.take(m) =~= pattern.take(m));
        assert(read_text(pattern.take(m)).0 <= MAX_GLOB_DEPTH);
    }
}

} // verus!
