//! A template-placeholder lexer and substitution engine.
//!
//! The scanner splits a text string into literal runs and placeholder
//! regions delimited by one of several recognized bracket styles
//! (`{x}`, `{{x}}`, `${x}`, `{#x#}`, `{%x%}`), resolving ambiguity among
//! delimiters that share a leading character by a fixed priority order.
//! The substitution pipeline replaces placeholders with caller-computed
//! values and reconstructs unresolved placeholders verbatim, so that a
//! scan followed by reconstruction reproduces the input exactly.

mod catalog;
mod elements;
mod scan;
mod subst;

pub use catalog::Wrapper;
pub use catalog::prefix_of;
pub use catalog::suffix_of;
pub use elements::Element;
pub use elements::ElemModel;
pub use elements::Item;
pub use elements::Policy;
pub use elements::UnterminatedWrapper;
pub use elements::elem_chars;
pub use elements::reconstruction;
pub use elements::views_of;
pub use scan::lemma_scan_round_trip;
pub use scan::opening_at;
pub use scan::parse;
pub use scan::scan;
pub use scan::scan_elems;
pub use scan::scan_issue;
pub use subst::chain_choices;
pub use subst::lemma_empty_chain_substitution;
pub use subst::lemma_noop_substitution;
pub use subst::mapper_choices;
pub use subst::parse_with;
pub use subst::reconstruct;
pub use subst::rendered;
pub use subst::substitute;
pub use subst::substitute_chain;
