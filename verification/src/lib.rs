//! Generation of unique, pattern-constrained random identifier strings
//! (referral codes) from a configurable character set and template.

mod charset;
mod generator;
mod pattern;

pub use charset::Charset;
pub use generator::{
    distinct_views, fill, generate, generate_one, holds_code, is_feasible,
    lemma_charset_containment, lemma_feasibility_decides, lemma_fixed_length,
    lemma_template_literals, lemma_zero_count_feasible, matches_template, spec_feasible,
    Config, ReferralCodeError,
};
pub use pattern::Pattern;
