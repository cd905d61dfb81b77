//! Patterns: templates of literal characters and wildcard positions.
//!
//! A template is a sequence of characters in which `'#'` marks a position
//! to be filled with a randomly drawn character; every other character is
//! a literal copied verbatim into each generated code.

use vstd::prelude::*;
use vstd::string::StrSliceExecFns;

verus! {

/// Pattern specification for referral code generation.
#[derive(Clone)]
pub enum Pattern {
    /// Generate a code of the specified length using all random characters.
    Length(usize),
    /// Generate a code following a custom pattern string, where `#` marks a
    /// random-fill position and every other character is a literal.
    ///
    /// For example, `"ABC###"` yields codes such as `"ABC123"`.
    Pattern(String),
}

/// The number of wildcard markers (`'#'`) in a template.
pub open spec fn count_markers(s: Seq<char>) -> nat
    decreases s.len(),
{
    if s.len() == 0 {
        0
    } else {
        (if s[0] == '#' {
            1nat
        } else {
            0nat
        }) + count_markers(s.drop_first())
    }
}

/// A template that is all markers has as many markers as characters.
proof fn lemma_count_markers_all(s: Seq<char>)
    requires
        forall|i: int| 0 <= i < s.len() ==> s[i] == '#',
    ensures
        count_markers(s) == s.len(),
    decreases s.len(),
{
    if s.len() > 0 {
        lemma_count_markers_all(s.drop_first());
    }
}

/// A template with a marker at some position has at least one marker.
pub proof fn lemma_count_markers_pos(s: Seq<char>, i: int)
    requires
        0 <= i < s.len(),
        s[i] == '#',
    ensures
        count_markers(s) > 0,
    decreases s.len(),
{
    if i > 0 {
        lemma_count_markers_pos(s.drop_first(), i - 1);
    }
}

impl Pattern {
    /// The template this pattern stands for: `Length(n)` is `n` markers,
    /// `Pattern(s)` is `s` itself.
    pub open spec fn template(&self) -> Seq<char> {
        match self {
            Pattern::Length(n) => Seq::new(*n as nat, |i: int| '#'),
            Pattern::Pattern(s) => s@,
        }
    }

    /// The number of wildcard positions of this pattern.
    pub open spec fn wildcards(&self) -> nat {
        count_markers(self.template())
    }

    /// Returns the number of positions that will be filled with random
    /// characters: `n` for `Length(n)`, the number of `#` characters for
    /// `Pattern(s)`.
    pub fn size(&self) -> (n: usize)
        ensures
            n == self.wildcards(),
    {
        match self {
            Pattern::Length(u) => {
                proof {
                    lemma_count_markers_all(self.template());
                }
                *u
            },
            Pattern::Pattern(s) => {
                let pat = s.as_str();
                let len = pat.unicode_len();
                let mut count: usize = 0;
                let mut i: usize = 0;
                proof {
                    assert(pat@.skip(0) =~= pat@);
                }
                while i < len
                    invariant
                        i <= len,
                        len == pat@.len(),
                        count <= i,
                        count_markers(pat@) == count + count_markers(pat@.skip(i as int)),
                    decreases len - i,
                {
                    let c = pat.get_char(i);
                    proof {
                        assert(pat@.skip(i as int).drop_first() =~= pat@.skip(i + 1));
                        assert(pat@.skip(i as int)[0] == pat@[i as int]);
                    }
                    if c == '#' {
                        count = count + 1;
                    }
                    i = i + 1;
                }
                proof {
                    assert(pat@.skip(len as int) =~= Seq::<char>::empty());
                }
                count
            },
        }
    }

    /// Returns the template string: `n` repetitions of `#` for `Length(n)`,
    /// the pattern string unchanged for `Pattern(s)`.
    pub fn pattern(&self) -> (t: String)
        ensures
            t@ == self.template(),
    {
        match self {
            Pattern::Length(size) => {
                let mut t = String::new();
                let mut i: usize = 0;
                while i < *size
                    invariant
                        i <= *size,
                        t@ =~= Seq::new(i as nat, |j: int| '#'),
                    decreases *size - i,
                {
                    push_char(&mut t, '#');
                    i = i + 1;
                }
                proof {
                    assert(t@ =~= self.template());
                }
                t
            },
            Pattern::Pattern(s) => s.clone(),
        }
    }
}

/// Relies on `String::push`: the string afterwards holds its old characters
/// followed by the pushed one.
#[verifier::external_body]
pub(crate) fn push_char(s: &mut String, c: char)
    ensures
        final(s)@ == old(s)@.push(c),
{
    s.push(c);
}

} // verus!
