//! Glob patterns over cgroup paths, as the `globset` crate reads them.
use globset::Glob;
use vstd::prelude::*;

verus! {

/// The longest pattern that is read, in characters: the automaton of any
/// pattern of that length stays under the size limit of 10 MiB.
pub const MAX_GLOB_CHARS: usize = 32768;

/// How deep alternations (`{..}`) may nest: each takes up to three levels of
/// the 250 that the expression may have, and what stands around and within them
/// all up to five more.
pub const MAX_GLOB_DEPTH: usize = 81;

/// Where in a pattern a character stands.
#[derive(Debug, Clone, Copy, PartialEq, Eq, Structural)]
pub enum Place {
    Outside,
    /// Behind a backslash.
    Escaped,
    /// Behind the bracket that opens a class.
    ClassOpen,
    /// Behind the sign that negates a class.
    ClassNegated,
    /// Further on in a class, where a bracket closes it.
    ClassRest,
}

/// How many alternations are open, and where the next character stands, once
/// `c` is read. Braces count neither behind a backslash nor in a class.
pub open spec fn read_char(open: int, place: Place, c: char) -> (int, Place) {
    match place {
        Place::Outside => if c == '{' {
            (open + 1, Place::Outside)
        } else if c == '}' && open > 0 {
            (open - 1, Place::Outside)
        } else if c == '[' {
            (open, Place::ClassOpen)
        } else if c == '\\' {
            (open, Place::Escaped)
        } else {
            (open, Place::Outside)
        },
        Place::Escaped => (open, Place::Outside),
        Place::ClassOpen => if c == '!' || c == '^' {
            (open, Place::ClassNegated)
        } else {
            (open, Place::ClassRest)
        },
        Place::ClassNegated => (open, Place::ClassRest),
        Place::ClassRest => if c == ']' {
            (open, Place::Outside)
        } else {
            (open, Place::ClassRest)
        },
    }
}

/// How many alternations are open at the end of a text, and where the next
/// character would stand.
pub open spec fn read_text(text: Seq<char>) -> (int, Place)
    decreases text.len(),
{
    if text.len() == 0 {
        (0, Place::Outside)
    } else {
        let (open, place) = read_text(text.drop_last());
        read_char(open, place, text.last())
    }
}

/// Alternations nest no deeper than the limit.
pub open spec fn shallow(pattern: Seq<char>) -> bool {
    forall|n: int|
        0 <= n <= pattern.len() ==> (#[trigger] read_text(pattern.take(n))).0 <= MAX_GLOB_DEPTH
}

/// The pattern is small enough to compile. A matcher that outgrows its size or
/// nesting limit does not come about.
pub open spec fn compiles(pattern: Seq<char>) -> bool {
    pattern.len() <= MAX_GLOB_CHARS && shallow(pattern)
}

/// Whether the pattern is small enough to compile.
pub fn is_compilable(pattern: &str) -> (yes: bool)
    ensures
        yes == compiles(pattern@),
{
    let mut chars: usize = 0;
    let mut open: usize = 0;
    let mut place: Place = Place::Outside;
    let ghost whole = pattern@;
    assert(whole.take(0) =~= Seq::<char>::empty());
    for c in it: pattern.chars()
        invariant
            it.seq() == whole,
            chars == it.index(),
            chars <= MAX_GLOB_CHARS,
            read_text(whole.take(it.index() as int)) == (open as int, place),
            forall|n: int|
                0 <= n <= it.index() ==> (#[trigger] read_text(whole.take(n))).0 <= MAX_GLOB_DEPTH,
            whole == pattern@,
    {
        let ghost i = it.index() as int;
        let ghost next = whole.take(i + 1);
        proof {
            assert(next.drop_last() =~= whole.take(i));
            assert(next.last() == c);
            assert(read_text(whole.take(i)).0 <= MAX_GLOB_DEPTH);
        }
        if chars == MAX_GLOB_CHARS {
            return false;
        }
        chars = chars + 1;
        match place {
            Place::Outside => {
                if c == '{' {
                    open = open + 1;
                } else if c == '}' && open > 0 {
                    open = open - 1;
                } else if c == '[' {
                    place = Place::ClassOpen;
                } else if c == '\\' {
                    place = Place::Escaped;
                }
            },
            Place::Escaped => {
                place = Place::Outside;
            },
            Place::ClassOpen => {
                place = if c == '!' || c == '^' {
                    Place::ClassNegated
                } else {
                    Place::ClassRest
                };
            },
            Place::ClassNegated => {
                place = Place::ClassRest;
            },
            Place::ClassRest => {
                if c == ']' {
                    place = Place::Outside;
                }
            },
        }
        assert(read_text(next) == (open as int, place));
        if open > MAX_GLOB_DEPTH {
            return false;
        }
    }
    assert(whole.take(whole.len() as int) =~= whole);
    true
}

/// Why `globset` does not take the pattern for a glob, if it does not.
pub uninterp spec fn glob_error(pattern: Seq<char>) -> Option<Seq<char>>;

/// `globset::Glob::new`: reads the pattern with the crate's default options.
/// The claim is that whether it is a glob, and the text of the error if it is
/// not, depend on the pattern alone. Which patterns are globs is left unsaid.
/// Reading recurses with the nesting of alternations, so the pattern is
/// bounded.
#[verifier::external_body]
pub(crate) fn check_glob(pattern: &str) -> (checked: Result<(), String>)
    requires
        compiles(pattern@),
    ensures
        match checked {
            Ok(_) => glob_error(pattern@) is None,
            Err(reason) => glob_error(pattern@) == Some(reason@),
        },
{
    match Glob::new(pattern) {
        Ok(_) => Ok(()),
        Err(e) => Err(e.to_string()),
    }
}

/// Whether the path matches the pattern; nothing if the pattern is no glob.
pub uninterp spec fn glob_match(pattern: Seq<char>, path: Seq<char>) -> Option<bool>;

/// `globset::Glob::new`, then `Glob::compile_matcher` and
/// `GlobMatcher::is_match`. The claim is that the answer depends on the pattern
/// and the path alone, and that there is none exactly where `Glob::new` does not
/// take the pattern for a glob.
/// Which paths match is left unsaid: the crate's documentation of the syntax
/// takes pages. `compile_matcher` panics where the compiled pattern outgrows
/// its limits, so the pattern is bounded.
#[verifier::external_body]
pub(crate) fn match_glob(pattern: &str, path: &str) -> (matched: Option<bool>)
    requires
        compiles(pattern@),
    ensures
        matched == glob_match(pattern@, path@),
        matched is None <==> glob_error(pattern@) is Some,
{
    match Glob::new(pattern) {
        Ok(glob) => Some(glob.compile_matcher().is_match(path)),
        Err(_) => None,
    }
}

} // verus!
