//! What the generated code computes when it runs, over an abstract program:
//! each access expression, evaluated with the placeholder bound to some value,
//! reaches a value, and each unwrap of a value either binds an inner value or
//! fails.
use vstd::prelude::*;
use crate::token::{Delimiter, Spacing, TokenView};
use crate::segment::{OptionalVariant, SegmentView};
use crate::expand::{word, placeholder_name, operand};

verus! {

/// The program that the generated code runs in. Values are named by integers.
pub struct World {
    /// The value that an expression reaches while the placeholder is bound to the first argument.
    pub access: spec_fn(int, Seq<TokenView>) -> int,
    /// The inner value that an unwrap binds, or `None` where the value does not match.
    pub unwrap: spec_fn(OptionalVariant, int) -> Option<int>,
}

/// The accesses evaluated, in order: the placeholder's value and the expression.
pub type Trace = Seq<(int, Seq<TokenView>)>;

/// The unwrap that a pattern constructor stands for.
pub open spec fn pattern_variant(t: TokenView) -> Option<OptionalVariant> {
    if t == word("Some"@) {
        Some(OptionalVariant::Nullable)
    } else if t == word("Ok"@) {
        Some(OptionalVariant::Success)
    } else if t == word("Err"@) {
        Some(OptionalVariant::Failure)
    } else {
        None
    }
}

/// `Some(x)`.
pub open spec fn is_some_form(e: Seq<TokenView>) -> bool {
    &&& e.len() == 2
    &&& e[0] == word("Some"@)
    &&& e[1] is Group
    &&& e[1]->Group_0 == Delimiter::Parenthesis
}

/// `if let P(____v) = s { b } else { None }`.
pub open spec fn is_if_let_form(e: Seq<TokenView>) -> bool {
    let n = e.len();
    &&& n >= 8
    &&& e[0] == word("if"@)
    &&& e[1] == word("let"@)
    &&& pattern_variant(e[2]) is Some
    &&& e[3] == TokenView::Group(Delimiter::Parenthesis, seq![word(placeholder_name())])
    &&& e[4] == TokenView::Punct('=', Spacing::Alone)
    &&& e[n - 3] is Group
    &&& e[n - 3]->Group_0 == Delimiter::Brace
    &&& e[n - 2] == word("else"@)
    &&& e[n - 1] == TokenView::Group(Delimiter::Brace, seq![word("None"@)])
}

/// Runs a generated expression with the placeholder bound to `bound`: its
/// result (`None` for absent) and the accesses it evaluates.
/// `Some(x)` evaluates `x`; `if let P(____v) = s { b } else { None }`
/// evaluates `s`, and runs `b` with the placeholder bound to what `P`
/// unwraps, or gives `None` where `P` does not match.
pub open spec fn run(e: Seq<TokenView>, w: World, bound: int) -> (Option<int>, Trace)
    decreases e,
{
    if is_some_form(e) {
        let x = e[1]->Group_1;
        (Some((w.access)(bound, x)), seq![(bound, x)])
    } else if is_if_let_form(e) {
        let s = e.subrange(5, e.len() - 3);
        let body = e[e.len() - 3];
        match (w.unwrap)(pattern_variant(e[2])->0, (w.access)(bound, s)) {
            Some(inner) => {
                let (r, t) = run(body->Group_1, w, inner);
                (r, seq![(bound, s)] + t)
            },
            None => (None, seq![(bound, s)]),
        }
    } else {
        (None, Seq::empty())
    }
}

/// Walking a chain's segments from segment `i`, with the placeholder bound to
/// `bound`: each segment's access is evaluated; the last one's value is the
/// result; after any other, its unwrap binds the value for the next segment,
/// and where it fails the walk stops with `None`.
pub open spec fn walk(segs: Seq<SegmentView>, w: World, i: int, bound: int) -> (Option<int>, Trace)
    decreases segs.len() - i,
{
    let s = operand(segs, i);
    let v = (w.access)(bound, s);
    if i + 1 >= segs.len() {
        (Some(v), seq![(bound, s)])
    } else {
        match (w.unwrap)(segs[i].variant, v) {
            Some(inner) => {
                let (r, t) = walk(segs, w, i + 1, inner);
                (r, seq![(bound, s)] + t)
            },
            None => (None, seq![(bound, s)]),
        }
    }
}

} // verus!
