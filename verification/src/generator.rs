//! The feasibility-checked uniqueness-generation algorithm.
//!
//! A configuration bundles a pattern, a charset and a requested count.
//! Generation first decides feasibility — whether the charset's
//! cardinality raised to the number of wildcard positions reaches the
//! count — and only then draws codes, enforcing uniqueness by exact
//! string equality.

use vstd::prelude::*;
use vstd::arithmetic::power::{
    lemma0_pow, lemma_pow0, lemma_pow1, lemma_pow_adds, lemma_pow_positive, pow,
};
use vstd::arithmetic::div_mod::{
    lemma_fundamental_div_mod, lemma_mod_division_less_than_divisor, lemma_multiply_divide_lt,
};
use vstd::arithmetic::mul::{lemma_mul_inequality, lemma_mul_nonnegative, lemma_mul_upper_bound};
use vstd::set_lib::lemma_len_subset;
use vstd::string::StrSliceExecFns;
use crate::charset::Charset;
use crate::pattern::{count_markers, lemma_count_markers_pos, push_char, Pattern};

verus! {

/// Error type for referral code generation operations.
#[derive(Debug, PartialEq, Eq, Structural)]
pub enum ReferralCodeError {
    /// The combination of charset cardinality and pattern wildcard count
    /// does not provide enough combinations for the requested number of
    /// unique codes.
    NonFeasibleConfig,
}

/// Configuration for generating referral codes.
#[derive(Clone)]
pub struct Config {
    /// The pattern that defines the structure and length of generated codes.
    pub pattern: Pattern,
    /// The number of unique codes to generate.
    pub count: usize,
    /// The character set wildcard characters are drawn from.
    pub charset: Charset,
}

impl Default for Config {
    /// One code of eight alphanumeric characters.
    fn default() -> (c: Config)
        ensures
            c.pattern == Pattern::Length(8usize),
            c.count == 1,
            c.charset == Charset::Alphanumeric,
    {
        Config { pattern: Pattern::Length(8), count: 1, charset: Charset::Alphanumeric }
    }
}

/// Holds when `code` has the shape that `tmpl` prescribes over `pool`:
/// the same length, every literal position copied verbatim, and every
/// wildcard position holding a character of the pool.
pub open spec fn matches_template(code: Seq<char>, tmpl: Seq<char>, pool: Seq<char>) -> bool {
    &&& code.len() == tmpl.len()
    &&& forall|i: int|
        0 <= i < tmpl.len() ==> {
            if (#[trigger] tmpl[i]) == '#' {
                pool.contains(code[i])
            } else {
                code[i] == tmpl[i]
            }
        }
}

/// The feasibility predicate: the charset's cardinality raised to the
/// number of wildcard positions reaches the requested count.
pub open spec fn spec_feasible(config: Config) -> bool {
    pow(config.charset.pool().len() as int, config.pattern.wildcards()) >= config.count
}

/// A power of a non-negative base is non-negative.
proof fn lemma_pow_nonneg(b: int, e: nat)
    requires
        0 <= b,
    ensures
        0 <= pow(b, e),
    decreases e,
{
    if e > 0 {
        lemma_pow_adds(b, 1, (e - 1) as nat);
        lemma_pow1(b);
        lemma_pow_nonneg(b, (e - 1) as nat);
        lemma_mul_nonnegative(b, pow(b, (e - 1) as nat));
    } else {
        lemma_pow0(b);
    }
}

/// A power is monotone in its base.
proof fn lemma_pow_base_le(a: int, b: int, e: nat)
    requires
        0 <= a <= b,
    ensures
        pow(a, e) <= pow(b, e),
    decreases e,
{
    if e > 0 {
        lemma_pow_adds(a, 1, (e - 1) as nat);
        lemma_pow1(a);
        lemma_pow_adds(b, 1, (e - 1) as nat);
        lemma_pow1(b);
        lemma_pow_base_le(a, b, (e - 1) as nat);
        lemma_pow_nonneg(a, (e - 1) as nat);
        lemma_mul_upper_bound(a, b, pow(a, (e - 1) as nat), pow(b, (e - 1) as nat));
    } else {
        lemma_pow0(a);
        lemma_pow0(b);
    }
}

/// Decides whether `base ^ e >= count`, computed without ever wrapping
/// around, so that a huge power can never be mistaken for a small one
/// (nor the reverse).
fn capacity_reaches(base: usize, e: usize, count: usize) -> (b: bool)
    ensures
        b == (pow(base as int, e as nat) >= count),
{
    if count == 0 {
        proof {
            lemma_pow_nonneg(base as int, e as nat);
        }
        return true;
    }
    if e == 0 {
        proof {
            lemma_pow0(base as int);
        }
        return count <= 1;
    }
    if base == 0 {
        proof {
            lemma0_pow(e as nat);
        }
        return false;
    }
    if count == 1 {
        proof {
            lemma_pow_positive(base as int, e as nat);
        }
        return true;
    }
    let bb: u128 = base as u128;
    let cc: u128 = count as u128;
    let mut acc: u128 = 1;
    let mut i: usize = 0;
    proof {
        lemma_pow0(base as int);
    }
    while i < e
        invariant
            0 < base,
            0 < count,
            i < e,
            bb == base,
            cc == count,
            acc == pow(base as int, i as nat),
            acc < cc,
        decreases e - i,
    {
        proof {
            lemma_mul_upper_bound(acc as int, u64::MAX as int, bb as int, u64::MAX as int);
        }
        let next: u128 = acc * bb;
        proof {
            lemma_pow_adds(base as int, i as nat, 1);
            lemma_pow1(base as int);
        }
        if next >= cc {
            proof {
                lemma_pow_adds(base as int, (i + 1) as nat, (e - i - 1) as nat);
                lemma_pow_positive(base as int, (e - i - 1) as nat);
                lemma_mul_inequality(
                    1,
                    pow(base as int, (e - i - 1) as nat),
                    pow(base as int, (i + 1) as nat),
                );
            }
            return true;
        }
        if i + 1 == e {
            return false;
        }
        acc = next;
        i = i + 1;
    }
    proof {
        assert(false);
    }
    false
}

/// Decides feasibility of a configuration, exactly: whether
/// `cardinality ^ wildcards >= count`, computed without ever wrapping
/// around, so that a huge combinatorial space can never be mistaken for
/// a small one (nor the reverse).
pub fn is_feasible(config: &Config) -> (b: bool)
    ensures
        b == spec_feasible(*config),
{
    capacity_reaches(config.charset.len(), config.pattern.size(), config.count)
}

/// Generates a single referral code: every wildcard position of the
/// pattern's template is filled with a character drawn at random from the
/// charset, and every literal character is copied verbatim.
///
/// A pattern with wildcard positions needs a non-empty charset pool to
/// draw from.
pub fn generate_one(config: &Config) -> (code: String)
    requires
        config.pattern.wildcards() > 0 ==> config.charset.pool().len() > 0,
    ensures
        matches_template(code@, config.pattern.template(), config.charset.pool()),
{
    let tmpl: String = config.pattern.pattern();
    let pat = tmpl.as_str();
    let len = pat.unicode_len();
    let mut code = String::new();
    let mut i: usize = 0;
    while i < len
        invariant
            i <= len,
            len == pat@.len(),
            pat@ == config.pattern.template(),
            config.pattern.wildcards() > 0 ==> config.charset.pool().len() > 0,
            code@.len() == i,
            forall|j: int|
                0 <= j < i ==> {
                    if (#[trigger] pat@[j]) == '#' {
                        config.charset.pool().contains(code@[j])
                    } else {
                        code@[j] == pat@[j]
                    }
                },
        decreases len - i,
    {
        let c = pat.get_char(i);
        if c == '#' {
            proof {
                lemma_count_markers_pos(config.pattern.template(), i as int);
            }
            let r = config.charset.sample();
            push_char(&mut code, r);
        } else {
            push_char(&mut code, c);
        }
        i = i + 1;
    }
    code
}

/// The code obtained from the template by filling its wildcard positions
/// with pool characters chosen by the base-`pool.len()` digits of `index`:
/// the first wildcard takes the digit `index % pool.len()`, and the
/// remaining digits fill the rest of the template.
pub open spec fn fill(tmpl: Seq<char>, pool: Seq<char>, index: nat) -> Seq<char>
    decreases tmpl.len(),
{
    if tmpl.len() == 0 {
        Seq::empty()
    } else if tmpl[0] == '#' {
        seq![pool[(index % pool.len()) as int]] + fill(tmpl.drop_first(), pool, index / pool.len())
    } else {
        seq![tmpl[0]] + fill(tmpl.drop_first(), pool, index)
    }
}

/// A filled template has the shape the template prescribes.
proof fn lemma_fill_matches(tmpl: Seq<char>, pool: Seq<char>, index: nat)
    requires
        count_markers(tmpl) > 0 ==> pool.len() > 0,
    ensures
        matches_template(fill(tmpl, pool, index), tmpl, pool),
    decreases tmpl.len(),
{
    let code = fill(tmpl, pool, index);
    if tmpl.len() > 0 {
        let rest_tmpl = tmpl.drop_first();
        if tmpl[0] == '#' {
            let d = (index % pool.len()) as int;
            lemma_mod_division_less_than_divisor(index as int, pool.len() as int);
            lemma_fill_matches(rest_tmpl, pool, index / pool.len());
            let rest = fill(rest_tmpl, pool, index / pool.len());
            assert forall|i: int| 0 <= i < tmpl.len() implies {
                if (#[trigger] tmpl[i]) == '#' {
                    pool.contains(code[i])
                } else {
                    code[i] == tmpl[i]
                }
            } by {
                if i == 0 {
                    assert(code[0] == pool[d]);
                } else {
                    assert(rest_tmpl[i - 1] == tmpl[i]);
                    assert(code[i] == rest[i - 1]);
                }
            }
        } else {
            lemma_fill_matches(rest_tmpl, pool, index);
            let rest = fill(rest_tmpl, pool, index);
            assert forall|i: int| 0 <= i < tmpl.len() implies {
                if (#[trigger] tmpl[i]) == '#' {
                    pool.contains(code[i])
                } else {
                    code[i] == tmpl[i]
                }
            } by {
                if i > 0 {
                    assert(rest_tmpl[i - 1] == tmpl[i]);
                    assert(code[i] == rest[i - 1]);
                }
            }
        }
    }
}

/// Filling a template is injective in the index, as long as the pool has
/// no duplicate characters and the indices lie below the template's
/// combinatorial capacity. This is the mathematical heart of the
/// feasibility check: a template with capacity `c` really has `c`
/// distinct instances.
proof fn lemma_fill_injective(tmpl: Seq<char>, pool: Seq<char>, k1: nat, k2: nat)
    requires
        pool.no_duplicates(),
        k1 < pow(pool.len() as int, count_markers(tmpl)),
        k2 < pow(pool.len() as int, count_markers(tmpl)),
        fill(tmpl, pool, k1) == fill(tmpl, pool, k2),
    ensures
        k1 == k2,
    decreases tmpl.len(),
{
    let b = pool.len() as int;
    let cm = count_markers(tmpl);
    if tmpl.len() == 0 {
        lemma_pow0(b);
    } else {
        let rest_tmpl = tmpl.drop_first();
        let f1 = fill(tmpl, pool, k1);
        let f2 = fill(tmpl, pool, k2);
        if tmpl[0] == '#' {
            if b == 0 {
                lemma0_pow(cm);
            }
            let d1 = (k1 % pool.len()) as int;
            let d2 = (k2 % pool.len()) as int;
            lemma_mod_division_less_than_divisor(k1 as int, b);
            lemma_mod_division_less_than_divisor(k2 as int, b);
            let r1 = fill(rest_tmpl, pool, k1 / pool.len());
            let r2 = fill(rest_tmpl, pool, k2 / pool.len());
            assert(f1[0] == pool[d1]);
            assert(f2[0] == pool[d2]);
            if d1 != d2 {
                assert(pool[d1] != pool[d2]);
            }
            assert(r1 =~= f1.drop_first());
            assert(r2 =~= f2.drop_first());
            lemma_pow_adds(b, 1, (cm - 1) as nat);
            lemma_pow1(b);
            lemma_multiply_divide_lt(k1 as int, b, pow(b, (cm - 1) as nat));
            lemma_multiply_divide_lt(k2 as int, b, pow(b, (cm - 1) as nat));
            lemma_fill_injective(rest_tmpl, pool, k1 / pool.len(), k2 / pool.len());
            lemma_fundamental_div_mod(k1 as int, b);
            lemma_fundamental_div_mod(k2 as int, b);
        } else {
            let r1 = fill(rest_tmpl, pool, k1);
            let r2 = fill(rest_tmpl, pool, k2);
            assert(r1 =~= f1.drop_first());
            assert(r2 =~= f2.drop_first());
            lemma_fill_injective(rest_tmpl, pool, k1, k2);
        }
    }
}

/// Renders the pattern's template with its wildcard positions filled by
/// the base-`dpool.len()` digits of `index`, the deterministic
/// counterpart of `generate_one`. `dpool` holds the characters to draw
/// from; every one of them must belong to the charset's pool.
fn render_indexed(config: &Config, dpool: &Vec<char>, index: usize) -> (code: String)
    requires
        config.pattern.wildcards() > 0 ==> dpool@.len() > 0,
        forall|c: char| dpool@.contains(c) ==> config.charset.pool().contains(c),
    ensures
        code@ == fill(config.pattern.template(), dpool@, index as nat),
        matches_template(code@, config.pattern.template(), config.charset.pool()),
{
    let tmpl: String = config.pattern.pattern();
    let pat = tmpl.as_str();
    let len = pat.unicode_len();
    let mut code = String::new();
    let mut rem: usize = index;
    let mut i: usize = 0;
    proof {
        assert(pat@.skip(0) =~= pat@);
    }
    while i < len
        invariant
            i <= len,
            len == pat@.len(),
            pat@ == config.pattern.template(),
            config.pattern.wildcards() > 0 ==> dpool@.len() > 0,
            code@.len() == i,
            fill(pat@, dpool@, index as nat) == code@ + fill(
                pat@.skip(i as int),
                dpool@,
                rem as nat,
            ),
        decreases len - i,
    {
        let ghost pool = dpool@;
        let ghost sub = pat@.skip(i as int);
        let ghost pre = code@;
        proof {
            assert(sub[0] == pat@[i as int]);
            assert(sub.drop_first() =~= pat@.skip(i + 1));
        }
        let c = pat.get_char(i);
        if c == '#' {
            proof {
                lemma_count_markers_pos(pat@, i as int);
                lemma_mod_division_less_than_divisor(rem as int, pool.len() as int);
            }
            let b = dpool.len();
            let d = rem % b;
            let ch = dpool[d];
            push_char(&mut code, ch);
            rem = rem / b;
            proof {
                assert(pre + (seq![ch] + fill(sub.drop_first(), pool, rem as nat)) =~= pre.push(
                    ch,
                ) + fill(sub.drop_first(), pool, rem as nat));
            }
        } else {
            push_char(&mut code, c);
            proof {
                assert(pre + (seq![c] + fill(sub.drop_first(), pool, rem as nat)) =~= pre.push(c)
                    + fill(sub.drop_first(), pool, rem as nat));
            }
        }
        i = i + 1;
    }
    proof {
        assert(pat@.skip(len as int) =~= Seq::<char>::empty());
        assert(code@ + fill(pat@.skip(len as int), dpool@, rem as nat) =~= code@);
        lemma_fill_matches(pat@, dpool@, index as nat);
        lemma_matches_pool_superset(code@, pat@, dpool@, config.charset.pool());
    }
    code
}

/// Decides whether `c` occurs in `chars`.
fn contains_char(chars: &Vec<char>, c: char) -> (found: bool)
    ensures
        found == chars@.contains(c),
{
    let n = chars.len();
    let mut i: usize = 0;
    while i < n
        invariant
            i <= n,
            n == chars@.len(),
            forall|m: int| 0 <= m < i ==> chars@[m] != c,
        decreases n - i,
    {
        if chars[i] == c {
            return true;
        }
        i = i + 1;
    }
    proof {
        if chars@.contains(c) {
            let m = choose|m: int| 0 <= m < chars@.len() && chars@[m] == c;
            assert(chars@[m] != c);
        }
    }
    false
}

/// The charset's pool with duplicate occurrences removed: its distinct
/// characters, in order of first occurrence.
fn dedup_pool(charset: &Charset) -> (dv: Vec<char>)
    ensures
        dv@.no_duplicates(),
        forall|c: char| #[trigger] dv@.contains(c) <==> charset.pool().contains(c),
{
    let n = charset.len();
    let mut dv: Vec<char> = Vec::new();
    let mut i: usize = 0;
    while i < n
        invariant
            i <= n,
            n == charset.pool().len(),
            dv@.no_duplicates(),
            forall|c: char| #[trigger] dv@.contains(c) <==> (exists|j: int|
                0 <= j < i && charset.pool()[j] == c),
        decreases n - i,
    {
        let ch = charset.char_at(i);
        let ghost pre = dv@;
        let present = contains_char(&dv, ch);
        if !present {
            dv.push(ch);
        }
        proof {
            if !present {
                assert forall|a: int, b: int|
                    0 <= a < dv@.len() && 0 <= b < dv@.len() && a != b implies dv@[a]
                    != dv@[b] by {
                    if a < pre.len() && b < pre.len() {
                    } else if b == pre.len() {
                        if dv@[a] == ch {
                            assert(pre.contains(ch));
                        }
                    } else {
                        if dv@[b] == ch {
                            assert(pre.contains(ch));
                        }
                    }
                }
            }
            assert forall|c: char| #[trigger] dv@.contains(c) implies (exists|j: int|
                0 <= j < i + 1 && charset.pool()[j] == c) by {
                let m = choose|m: int| 0 <= m < dv@.len() && dv@[m] == c;
                if m < pre.len() {
                    assert(pre.contains(c));
                    assert(exists|j: int| 0 <= j < i && charset.pool()[j] == c);
                } else {
                    assert(c == ch);
                    assert(charset.pool()[i as int] == c);
                }
            }
            assert forall|c: char| (exists|j: int| 0 <= j < i + 1 && charset.pool()[j] == c)
                implies #[trigger] dv@.contains(c) by {
                let j = choose|j: int| 0 <= j < i + 1 && charset.pool()[j] == c;
                if j < i {
                    assert(pre.contains(c));
                    let m = choose|m: int| 0 <= m < pre.len() && pre[m] == c;
                    assert(dv@[m] == c);
                } else {
                    if present {
                        assert(pre.contains(ch));
                        let m = choose|m: int| 0 <= m < pre.len() && pre[m] == ch;
                        assert(dv@[m] == c);
                    } else {
                        assert(dv@[pre.len() as int] == c);
                    }
                }
            }
        }
        i = i + 1;
    }
    dv
}

/// A code matching a template over a pool also matches it over any pool
/// that holds every character of the first.
proof fn lemma_matches_pool_superset(
    code: Seq<char>,
    tmpl: Seq<char>,
    small: Seq<char>,
    large: Seq<char>,
)
    requires
        matches_template(code, tmpl, small),
        forall|c: char| small.contains(c) ==> large.contains(c),
    ensures
        matches_template(code, tmpl, large),
{
    assert forall|i: int| 0 <= i < tmpl.len() implies {
        if (#[trigger] tmpl[i]) == '#' {
            large.contains(code[i])
        } else {
            code[i] == tmpl[i]
        }
    } by {
        if tmpl[i] == '#' {
            assert(small.contains(code[i]));
        }
    }
}

/// Holds when some element of `codes` has exactly the characters `s`.
pub open spec fn holds_code(codes: Seq<String>, s: Seq<char>) -> bool {
    exists|m: int| 0 <= m < codes.len() && codes[m]@ == s
}

/// Holds when no two elements of `codes` have the same characters.
pub open spec fn distinct_views(codes: Seq<String>) -> bool {
    forall|i: int, j: int| 0 <= i < j < codes.len() ==> codes[i]@ != codes[j]@
}

/// Decides whether `code` is already present in `codes`, by exact string
/// equality.
fn contains_code(codes: &Vec<String>, code: &String) -> (found: bool)
    ensures
        found == holds_code(codes@, code@),
{
    let n = codes.len();
    let mut i: usize = 0;
    while i < n
        invariant
            i <= n,
            n == codes@.len(),
            forall|m: int| 0 <= m < i ==> codes@[m]@ != code@,
        decreases n - i,
    {
        if codes[i].eq(code) {
            return true;
        }
        i = i + 1;
    }
    false
}

/// A feasible configuration that asks for at least one code cannot pair
/// wildcard positions with an empty pool.
proof fn lemma_feasible_pool_nonempty(config: Config)
    requires
        spec_feasible(config),
        config.count > 0,
    ensures
        config.pattern.wildcards() > 0 ==> config.charset.pool().len() > 0,
{
    if config.pattern.wildcards() > 0 && config.charset.pool().len() == 0 {
        lemma0_pow(config.pattern.wildcards());
    }
}

/// Generates the requested number of unique referral codes.
///
/// A non-feasible configuration — one whose cardinality raised to the
/// number of wildcard positions falls short of the count — is rejected up
/// front, before any sampling. Otherwise codes are drawn at random and
/// collected under exact-string uniqueness; if random drawing stalls
/// (which has vanishing probability but no deterministic bound), the
/// remaining codes are completed deterministically by walking the
/// template's instances over the distinct characters of the pool, so
/// that the call always terminates.
///
/// On success the result holds exactly `count` pairwise-distinct codes,
/// each matching the pattern's template over the charset's pool. Success
/// occurs exactly when enough distinct codes exist: when `count` is at
/// most the number of distinct pool characters raised to the number of
/// wildcards. For a custom pool with repeated characters that distinct
/// capacity is smaller than the nominal one; a request that fits the
/// nominal capacity but exceeds the distinct one can never be met, and is
/// reported as non-feasible rather than looped on forever.
pub fn generate(config: &Config) -> (r: Result<Vec<String>, ReferralCodeError>)
    ensures
        !spec_feasible(*config) ==> r is Err,
        (r is Ok) <==> config.count <= pow(
            config.charset.pool().to_set().len() as int,
            config.pattern.wildcards(),
        ),
        match r {
            Ok(codes) => {
                &&& codes@.len() == config.count
                &&& distinct_views(codes@)
                &&& forall|i: int|
                    0 <= i < codes@.len() ==> matches_template(
                        #[trigger] codes@[i]@,
                        config.pattern.template(),
                        config.charset.pool(),
                    )
            },
            Err(e) => e == ReferralCodeError::NonFeasibleConfig,
        },
{
    let ghost poolv = config.charset.pool();
    if !is_feasible(config) {
        proof {
            poolv.lemma_cardinality_of_set();
            lemma_pow_base_le(
                poolv.to_set().len() as int,
                poolv.len() as int,
                config.pattern.wildcards(),
            );
        }
        return Err(ReferralCodeError::NonFeasibleConfig);
    }
    let count = config.count;
    let dpool = dedup_pool(&config.charset);
    let ghost dpoolv = dpool@;
    proof {
        assert(dpoolv.to_set() =~= poolv.to_set());
        dpoolv.unique_seq_to_set();
    }
    let dlen = dpool.len();
    let e = config.pattern.size();
    if !capacity_reaches(dlen, e, count) {
        return Err(ReferralCodeError::NonFeasibleConfig);
    }
    let mut codes: Vec<String> = Vec::new();
    // A generous budget of random draws; if collisions were ever to
    // exhaust it, the deterministic completion below still finishes.
    let budget: usize = if count < 1000000 {
        count * 64
    } else {
        count
    };
    let mut attempts: usize = 0;
    while attempts < budget && codes.len() < count
        invariant
            spec_feasible(*config),
            count == config.count,
            attempts <= budget,
            codes@.len() <= count,
            distinct_views(codes@),
            forall|i: int|
                0 <= i < codes@.len() ==> matches_template(
                    #[trigger] codes@[i]@,
                    config.pattern.template(),
                    config.charset.pool(),
                ),
        decreases budget - attempts,
    {
        proof {
            lemma_feasible_pool_nonempty(*config);
        }
        let candidate = generate_one(config);
        if !contains_code(&codes, &candidate) {
            codes.push(candidate);
        }
        attempts = attempts + 1;
    }
    let ghost tmplv = config.pattern.template();
    let mut k: usize = 0;
    while k < count && codes.len() < count
        invariant
            count == config.count,
            tmplv == config.pattern.template(),
            dpoolv == dpool@,
            dpoolv.no_duplicates(),
            forall|c: char| dpoolv.contains(c) ==> config.charset.pool().contains(c),
            count <= pow(dpoolv.len() as int, count_markers(tmplv)),
            k <= count,
            codes@.len() <= count,
            distinct_views(codes@),
            forall|i: int|
                0 <= i < codes@.len() ==> matches_template(
                    #[trigger] codes@[i]@,
                    config.pattern.template(),
                    config.charset.pool(),
                ),
            codes@.len() == count || (forall|j: int|
                0 <= j < k ==> holds_code(codes@, #[trigger] fill(tmplv, dpoolv, j as nat))),
        decreases count - k,
    {
        proof {
            if count_markers(tmplv) > 0 && dpoolv.len() == 0 {
                lemma0_pow(count_markers(tmplv));
            }
        }
        let candidate = render_indexed(config, &dpool, k);
        let ghost pre = codes@;
        let present = contains_code(&codes, &candidate);
        if !present {
            codes.push(candidate);
        }
        proof {
            assert forall|j: int|
                0 <= j < k + 1 implies holds_code(
                codes@,
                #[trigger] fill(tmplv, dpoolv, j as nat),
            ) by {
                if j == k {
                    if present {
                        let m = choose|m: int| 0 <= m < pre.len() && pre[m]@ == candidate@;
                        assert(codes@[m]@ == fill(tmplv, dpoolv, j as nat));
                    } else {
                        assert(codes@[pre.len() as int]@ == fill(tmplv, dpoolv, j as nat));
                    }
                } else {
                    assert(holds_code(pre, fill(tmplv, dpoolv, j as nat)));
                    let m = choose|m: int|
                        0 <= m < pre.len() && pre[m]@ == fill(tmplv, dpoolv, j as nat);
                    assert(codes@[m]@ == fill(tmplv, dpoolv, j as nat));
                }
            }
        }
        k = k + 1;
    }
    if codes.len() < count {
        proof {
            let fills = Seq::new(count as nat, |j: int| fill(tmplv, dpoolv, j as nat));
            assert forall|a: int, c: int|
                0 <= a < fills.len() && 0 <= c < fills.len() && a != c implies fills[a]
                != fills[c] by {
                if fills[a] == fills[c] {
                    lemma_fill_injective(tmplv, dpoolv, a as nat, c as nat);
                }
            }
            fills.unique_seq_to_set();
            let views = codes@.map_values(|s: String| s@);
            assert forall|a: int, c: int|
                0 <= a < views.len() && 0 <= c < views.len() && a != c implies views[a]
                != views[c] by {
                if a < c {
                    assert(codes@[a]@ != codes@[c]@);
                } else {
                    assert(codes@[c]@ != codes@[a]@);
                }
            }
            views.unique_seq_to_set();
            assert forall|x: Seq<char>| fills.to_set().contains(x) implies views.to_set().contains(
                x,
            ) by {
                let j = choose|j: int| 0 <= j < fills.len() && fills[j] == x;
                assert(holds_code(codes@, fill(tmplv, dpoolv, j as nat)));
                let m = choose|m: int| 0 <= m < codes@.len() && codes@[m]@ == fills[j];
                assert(views[m] == x);
            }
            broadcast use vstd::seq_lib::seq_to_set_is_finite;

            lemma_len_subset(fills.to_set(), views.to_set());
            assert(false);
        }
        return Err(ReferralCodeError::NonFeasibleConfig);
    }
    Ok(codes)
}

/// Length invariant: a code matching a fixed-length pattern's template
/// has exactly that length, whatever the pool.
pub proof fn lemma_fixed_length(code: Seq<char>, n: usize, pool: Seq<char>)
    requires
        matches_template(code, Pattern::Length(n).template(), pool),
    ensures
        code.len() == n,
{
}

/// Structural invariant: a code matching a template carries the
/// template's literal characters verbatim at every non-wildcard position.
pub proof fn lemma_template_literals(code: Seq<char>, tmpl: Seq<char>, pool: Seq<char>, i: int)
    requires
        matches_template(code, tmpl, pool),
        0 <= i < tmpl.len(),
        tmpl[i] != '#',
    ensures
        code[i] == tmpl[i],
{
}

/// Charset containment: a code matching a template draws every
/// wildcard-position character from the pool.
pub proof fn lemma_charset_containment(code: Seq<char>, tmpl: Seq<char>, pool: Seq<char>, i: int)
    requires
        matches_template(code, tmpl, pool),
        0 <= i < tmpl.len(),
        tmpl[i] == '#',
    ensures
        pool.contains(code[i]),
{
}

/// Feasibility decides the outcome: for a pool without duplicate
/// characters the distinct capacity equals the nominal one, so `generate`
/// succeeds exactly on the feasible configurations.
pub proof fn lemma_feasibility_decides(config: Config)
    requires
        config.charset.pool().no_duplicates(),
    ensures
        spec_feasible(config) <==> config.count <= pow(
            config.charset.pool().to_set().len() as int,
            config.pattern.wildcards(),
        ),
{
    config.charset.pool().unique_seq_to_set();
}

/// Zero-count boundary: a request for zero codes is feasible for every
/// pattern and charset — the distinct capacity reaches it too — so
/// `generate` always succeeds on it, with an empty result.
pub proof fn lemma_zero_count_feasible(config: Config)
    requires
        config.count == 0,
    ensures
        spec_feasible(config),
        config.count <= pow(
            config.charset.pool().to_set().len() as int,
            config.pattern.wildcards(),
        ),
{
    lemma_pow_nonneg(config.charset.pool().len() as int, config.pattern.wildcards());
    lemma_pow_nonneg(config.charset.pool().to_set().len() as int, config.pattern.wildcards());
}

} // verus!
