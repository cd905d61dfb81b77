//! Character sets: pools of characters that wildcard positions are
//! sampled from.

use vstd::prelude::*;
use vstd::string::StrSliceExecFns;
use rand::RngExt;

verus! {

/// Character set used for generating referral codes.
///
/// Each variant defines the pool of characters available for random
/// selection at wildcard positions.
#[derive(Clone)]
pub enum Charset {
    /// Numeric characters only: 0-9 (10 characters).
    Numeric,
    /// Alphabetic characters only: a-z and A-Z (52 characters).
    Alphabetic,
    /// Alphanumeric characters: a-z, A-Z, and 0-9 (62 characters).
    Alphanumeric,
    /// Custom character set specified as a string.
    ///
    /// Characters are selected uniformly over the string's positions, so a
    /// character that occurs several times is drawn proportionally more
    /// often. Duplicates still count separately towards the cardinality.
    Custom(String),
}

impl Charset {
    /// The pool of characters this charset samples from, as a sequence.
    /// Sampling is uniform over positions of this sequence.
    pub open spec fn pool(&self) -> Seq<char> {
        match self {
            Charset::Numeric => "0123456789"@,
            Charset::Alphabetic => "abcdefghijklmnopqrstuvwxyzABCDEFGHIJKLMNOPQRSTUVWXYZ"@,
            Charset::Alphanumeric => "abcdefghijklmnopqrstuvwxyzABCDEFGHIJKLMNOPQRSTUVWXYZ0123456789"@,
            Charset::Custom(s) => s@,
        }
    }

    /// Returns the cardinality of this charset: the number of characters
    /// in its pool (for `Custom`, duplicates included).
    pub fn len(&self) -> (n: usize)
        ensures
            n == self.pool().len(),
    {
        match self {
            Charset::Numeric => {
                proof {
                    reveal_strlit("0123456789");
                }
                10
            },
            Charset::Alphabetic => {
                proof {
                    reveal_strlit("abcdefghijklmnopqrstuvwxyzABCDEFGHIJKLMNOPQRSTUVWXYZ");
                }
                52
            },
            Charset::Alphanumeric => {
                proof {
                    reveal_strlit(
                        "abcdefghijklmnopqrstuvwxyzABCDEFGHIJKLMNOPQRSTUVWXYZ0123456789",
                    );
                }
                62
            },
            Charset::Custom(s) => s.as_str().unicode_len(),
        }
    }

    /// Returns the character at the given position of this charset's pool.
    pub fn char_at(&self, i: usize) -> (c: char)
        requires
            i < self.pool().len(),
        ensures
            c == self.pool()[i as int],
    {
        match self {
            Charset::Numeric => "0123456789".get_char(i),
            Charset::Alphabetic => "abcdefghijklmnopqrstuvwxyzABCDEFGHIJKLMNOPQRSTUVWXYZ"
                .get_char(i),
            Charset::Alphanumeric => "abcdefghijklmnopqrstuvwxyzABCDEFGHIJKLMNOPQRSTUVWXYZ0123456789"
                .get_char(i),
            Charset::Custom(s) => s.as_str().get_char(i),
        }
    }

    /// Draws one character uniformly at random from this charset's pool.
    ///
    /// The pool must not be empty: there is nothing to draw from an empty
    /// custom charset.
    pub fn sample(&self) -> (c: char)
        requires
            self.pool().len() > 0,
        ensures
            self.pool().contains(c),
    {
        let n = self.len();
        let i = random_index(n);
        let c = self.char_at(i);
        assert(self.pool().contains(c)) by {
            assert(self.pool()[i as int] == c);
        }
        c
    }
}

/// Relies on `rand::rng` and `rand::RngExt::random_range`: the result of
/// sampling the range `0..bound` lies below `bound`. `random_range` panics
/// on an empty range, so `bound` must be positive. Nothing more is assumed
/// of the drawn value.
#[verifier::external_body]
fn random_index(bound: usize) -> (r: usize)
    requires
        bound > 0,
    ensures
        r < bound,
{
    rand::rng().random_range(0..bound)
}

} // verus!
