//! A verified core for embedding diagram definitions in documentation text.
//!
//! Documentation attached to a declaration arrives as an ordered sequence of
//! annotations. A scanner splits each text-bearing annotation into fence
//! markers and words, a classifier folds a state machine over the token
//! streams — a diagram block may span several annotations — and an assembler
//! reconstitutes the documentation with each diagram wrapped in container
//! markup and prefixed by a loader script for the rendering runtime.

use vstd::prelude::*;

pub mod assemble;
pub mod attrs;
pub mod demo;
pub mod scanner;
pub mod text;

use crate::text::str_eq;

verus! {

/// The name of the attribute that marks a declaration for this pipeline;
/// it may stand on a declaration only once.
pub const ATTR_NAME: &'static str = "aquamarine";

/// Scans a declaration's attribute paths for a repeated pipeline marker:
/// the index of the first offending attribute, where one stands.
pub fn check_input_attrs(paths: &Vec<String>) -> (r: Option<usize>)
    ensures
        match r {
            Option::Some(i) => i < paths@.len() && paths.deep_view()[i as int] == ATTR_NAME@
                && forall|j: int| 0 <= j < i ==> paths.deep_view()[j] != ATTR_NAME@,
            Option::None => forall|j: int|
                0 <= j < paths@.len() ==> paths.deep_view()[j] != ATTR_NAME@,
        },
{
    let n: usize = paths.len();
    let mut i: usize = 0;
    while i < n
        invariant
            i <= n,
            n == paths@.len(),
            forall|j: int| 0 <= j < i ==> paths.deep_view()[j] != ATTR_NAME@,
        decreases n - i,
    {
        proof {
            assert(paths.deep_view()[i as int] == paths@[i as int]@);
        }
        if str_eq(paths[i].as_str(), ATTR_NAME) {
            return Some(i);
        }
        i += 1;
    }
    None
}

} // verus!
