//! Generation of instruction-selection dispatch code from peephole rewrite
//! rules: a rule's left-hand side is expanded into a chain of decision
//! nodes, the chains of many rules are folded into one prefix tree, and the
//! tree is rendered as nested matching code with each rule's replacement
//! spliced in at the node that completes its match.
//!
//! - `parser`: the parsed form of a rule, as it is handed over.
//! - `cliftinstbuilder`: the canonical instruction model and the mapping
//!   to it.
//! - `lhspatternmatcher`: decision nodes, and the builder of the chain of
//!   one rule.
//! - `chain`: what the chain of a rule is, and what holds of chains.
//! - `mergedtree`: the prefix tree of many chains.
//! - `baseline_matcher`: the generator of the dispatch function's text.
//! - `pipeline`: the three stages in sequence, for one group of rules.
//! - `balance`: the braces of the generated text are balanced.
//! - `text`: decimal rendering and comparison of strings.
//! - `braces`: counting the braces of a text.
pub mod text;
pub mod braces;
pub mod parser;
pub mod cliftinstbuilder;
pub mod lhspatternmatcher;
pub mod chain;
pub mod baseline_matcher;
pub mod balance;
pub mod mergedtree;
pub mod pipeline;
