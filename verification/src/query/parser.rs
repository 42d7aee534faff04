use crate::analysis::tokenizer::{analyze, tokens};
use vstd::prelude::*;

verus! {

/// Turns a query into its terms, with the same analysis as documents get.
pub fn parse(query: &str) -> (terms: Vec<String>)
    ensures
        terms.deep_view() == tokens(query@),
{
    analyze(query)
}

} // verus!
