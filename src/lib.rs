//! Expansion of optional-chaining expressions such as `user.profile?.address?.city`
//! into nested `if let` checks that yield `Some(value)` or `None`.
//!
//! The chain operators are `?.` (unwrap an `Option`), `?Ok.` (go on with the
//! `Ok` of a `Result`) and `?Err.` (go on with its `Err`); a chain may end in a
//! bare `?`, `?Ok` or `?Err`. The expansion short-circuits to `None` at the
//! first unwrap that fails, and is `Some` of the last value otherwise.
use vstd::prelude::*;

pub mod token;
pub mod segment;
pub mod expand;
pub mod semantics;
pub mod laws;

use crate::token::{Token, views_of};
use crate::segment::{segments_of, operator_at, split_on_optional_variants, segment_views, lemma_segments_shape};
use crate::expand::{ExpandError, build, nested};

verus! {

/// Expands a chain expression into its nested `if let` form.
///
/// The empty input is refused with `EmptyInput`, and an input that starts with
/// an operator, with no base expression before it, with `MissingBase`. Every
/// other input expands to the nesting of its segments.
pub fn opt(input: Vec<Token>) -> (r: Result<Vec<Token>, ExpandError>)
    ensures
        input@.len() == 0 ==> r == Err::<Vec<Token>, ExpandError>(ExpandError::EmptyInput),
        input@.len() > 0 && operator_at(views_of(input@), 0) is Some
            ==> r == Err::<Vec<Token>, ExpandError>(ExpandError::MissingBase),
        input@.len() > 0 && operator_at(views_of(input@), 0) is None ==> r is Ok
            && views_of(r->Ok_0@) == nested(segments_of(views_of(input@)), 0),
{
    let segments = split_on_optional_variants(&input);
    proof {
        let ts = views_of(input@);
        crate::token::lemma_views_of(input@);
        lemma_segments_shape(ts);
        assert(segment_views(segments@) == segments_of(ts));
    }
    build(&segments)
}

} // verus!
