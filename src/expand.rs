//! Building the nested `if let` expression for a chain from its segments.
use vstd::prelude::*;
use crate::token::{Delimiter, Spacing, Token, TokenView, views_of, lemma_views_of, lemma_views_of_add, copy_tokens};
use crate::segment::{OptionalSegment, OptionalVariant, SegmentView, segment_views, is_gate, is_last_segment};

verus! {

/// The name bound to each unwrapped value in the generated code.
pub open spec fn placeholder_name() -> Seq<char> {
    "____v"@
}

pub open spec fn word(name: Seq<char>) -> TokenView {
    TokenView::Ident(name)
}

/// `Some(body)`.
pub open spec fn some_of(body: Seq<TokenView>) -> Seq<TokenView> {
    seq![word("Some"@), TokenView::Group(Delimiter::Parenthesis, body)]
}

/// Whether the tokens end in a parenthesised group, as a call does.
pub open spec fn ends_with_call(ts: Seq<TokenView>) -> bool {
    ts.len() > 0 && ts.last() is Group && ts.last()->Group_0 == Delimiter::Parenthesis
}

/// The expression that segment `i` reaches: the base itself for the first
/// segment; for a later one the placeholder, then `.` and the segment's
/// tokens unless it has none.
pub open spec fn access(segs: Seq<SegmentView>, i: int) -> Seq<TokenView> {
    let ts = segs[i].tokens;
    if i == 0 {
        ts
    } else if ts.len() == 0 {
        seq![word(placeholder_name())]
    } else {
        seq![word(placeholder_name()), TokenView::Punct('.', Spacing::Alone)] + ts
    }
}

/// Whether the value that segment `i` reaches is taken by reference: a field
/// is, while a call's result and the bare placeholder are used as they are.
pub open spec fn borrows(segs: Seq<SegmentView>, i: int) -> bool {
    segs[i].tokens.len() > 0 && !ends_with_call(segs[i].tokens)
}

/// [`access`] with `&` in front where [`borrows`] holds.
pub open spec fn operand(segs: Seq<SegmentView>, i: int) -> Seq<TokenView> {
    if borrows(segs, i) {
        seq![TokenView::Punct('&', Spacing::Alone)] + access(segs, i)
    } else {
        access(segs, i)
    }
}

/// The constructor that an unwrap matches: `Some`, `Ok` or `Err`.
pub open spec fn pattern_name(v: OptionalVariant) -> Seq<char> {
    match v {
        OptionalVariant::Nullable => "Some"@,
        OptionalVariant::Success => "Ok"@,
        _ => "Err"@,
    }
}

/// `if let P(____v) = scrutinee { body } else { None }`, with `P` the
/// constructor that `v` matches.
pub open spec fn if_let_of(
    v: OptionalVariant,
    scrutinee: Seq<TokenView>,
    body: Seq<TokenView>,
) -> Seq<TokenView> {
    seq![
        word("if"@),
        word("let"@),
        word(pattern_name(v)),
        TokenView::Group(Delimiter::Parenthesis, seq![word(placeholder_name())]),
        TokenView::Punct('=', Spacing::Alone),
    ] + scrutinee + seq![
        TokenView::Group(Delimiter::Brace, body),
        word("else"@),
        TokenView::Group(Delimiter::Brace, seq![word("None"@)]),
    ]
}

/// The expression for the chain from segment `i` on: the last segment's value
/// in `Some`, reached through one `if let` for each earlier segment.
pub open spec fn nested(segs: Seq<SegmentView>, i: int) -> Seq<TokenView>
    decreases segs.len() - i,
{
    if i + 1 >= segs.len() {
        some_of(operand(segs, i))
    } else {
        if_let_of(segs[i].variant, operand(segs, i), nested(segs, i + 1))
    }
}

/// What the segmenter produces: at least one segment, an unwrap after every
/// segment but the last, and a last one that is `Plain` or empty and carrying
/// the trailing unwrap; or else the single empty `Root` segment of an empty
/// input.
pub open spec fn well_formed(segs: Seq<SegmentView>) -> bool {
    &&& segs.len() >= 1
    &&& forall|i: int| 0 <= i < segs.len() - 1 ==> is_gate(#[trigger] segs[i].variant)
    &&& is_last_segment(segs.last()) || (segs.len() == 1 && segs[0].variant is Root
        && segs[0].tokens.len() == 0)
}

/// Why a chain cannot be expanded.
#[derive(Clone, Copy, Debug, PartialEq, Eq, Structural)]
pub enum ExpandError {
    /// There were no tokens at all.
    EmptyInput,
    /// The chain starts with an operator, with no base expression before it.
    MissingBase,
}

/// The expansion of a chain's segments.
pub open spec fn expansion(segs: Seq<SegmentView>) -> Result<Seq<TokenView>, ExpandError> {
    if segs[0].variant is Root {
        Err(ExpandError::EmptyInput)
    } else if segs[0].tokens.len() == 0 {
        Err(ExpandError::MissingBase)
    } else {
        Ok(nested(segs, 0))
    }
}

/// The placeholder identifier.
fn placeholder() -> (r: Token)
    ensures
        r@ == word(placeholder_name()),
{
    Token::ident("____v")
}

/// Wraps `body` in `Some( )`.
pub fn some_wrapper(body: Vec<Token>) -> (r: Vec<Token>)
    ensures
        views_of(r@) == some_of(views_of(body@)),
{
    let mut r: Vec<Token> = Vec::new();
    r.push(Token::ident("Some"));
    r.push(Token::Group(Delimiter::Parenthesis, body));
    proof {
        lemma_views_of(r@);
        assert(views_of(r@) =~= some_of(views_of(body@)));
    }
    r
}

/// Whether the tokens end in a parenthesised group.
pub fn ends_with_fn_call(tokens: &Vec<Token>) -> (r: bool)
    ensures
        r == ends_with_call(views_of(tokens@)),
{
    proof {
        lemma_views_of(tokens@);
    }
    if tokens.len() == 0 {
        return false;
    }
    match &tokens[tokens.len() - 1] {
        Token::Group(d, _) => *d == Delimiter::Parenthesis,
        _ => false,
    }
}

/// `if let P(____v) = after_eq { body } else { None }`, with `P` the
/// constructor that `variant` matches.
pub fn if_let(variant: OptionalVariant, after_eq: Vec<Token>, body: Vec<Token>) -> (r: Vec<Token>)
    requires
        is_gate(variant),
    ensures
        views_of(r@) == if_let_of(variant, views_of(after_eq@), views_of(body@)),
{
    let name = match variant {
        OptionalVariant::Nullable => "Some",
        OptionalVariant::Success => "Ok",
        _ => "Err",
    };
    let mut bound: Vec<Token> = Vec::new();
    bound.push(placeholder());
    let ghost bound_seq = bound@;
    let mut r: Vec<Token> = Vec::new();
    r.push(Token::ident("if"));
    r.push(Token::ident("let"));
    r.push(Token::ident(name));
    r.push(Token::Group(Delimiter::Parenthesis, bound));
    r.push(Token::punct('=', Spacing::Alone));
    let ghost head = r@;
    let mut none: Vec<Token> = Vec::new();
    none.push(Token::ident("None"));
    let ghost none_seq = none@;
    let mut tail: Vec<Token> = Vec::new();
    tail.push(Token::Group(Delimiter::Brace, body));
    tail.push(Token::ident("else"));
    tail.push(Token::Group(Delimiter::Brace, none));
    let ghost tail_seq = tail@;
    let mut after_eq = after_eq;
    let ghost middle = after_eq@;
    r.append(&mut after_eq);
    r.append(&mut tail);
    proof {
        lemma_views_of(bound_seq);
        lemma_views_of(none_seq);
        assert(views_of(bound_seq) =~= seq![word(placeholder_name())]);
        assert(views_of(none_seq) =~= seq![word("None"@)]);
        lemma_views_of(head);
        lemma_views_of(tail_seq);
        assert(r@ == head + middle + tail_seq);
        lemma_views_of_add(head + middle, tail_seq);
        lemma_views_of_add(head, middle);
        assert(views_of(r@) =~= if_let_of(variant, views_of(middle), views_of(body@)));
    }
    r
}

/// The tokens of [`operand`] for segment `i`.
fn operand_tokens(segs: &Vec<OptionalSegment>, i: usize) -> (r: Vec<Token>)
    requires
        i < segs.len(),
    ensures
        views_of(r@) == operand(segment_views(segs@), i as int),
{
    let ghost sv = segment_views(segs@);
    let seg = &segs[i];
    assert(sv[i as int] == seg@);
    let mut r: Vec<Token> = Vec::new();
    if seg.tokens.len() > 0 && !ends_with_fn_call(&seg.tokens) {
        r.push(Token::punct('&', Spacing::Alone));
    }
    let ghost lead = r@;
    let mut rest: Vec<Token> = Vec::new();
    if i > 0 {
        rest.push(placeholder());
        if seg.tokens.len() > 0 {
            rest.push(Token::punct('.', Spacing::Alone));
        }
    }
    let ghost pre = rest@;
    let mut copied = copy_tokens(&seg.tokens);
    let ghost body = copied@;
    rest.append(&mut copied);
    let ghost rest_seq = rest@;
    r.append(&mut rest);
    proof {
        lemma_views_of(seg.tokens@);
        lemma_views_of(lead);
        lemma_views_of(pre);
        lemma_views_of_add(pre, body);
        lemma_views_of_add(lead, rest_seq);
        assert(rest_seq == pre + body);
        if seg.tokens.len() == 0 {
            assert(views_of(body) =~= Seq::<TokenView>::empty());
        }
        assert(views_of(rest_seq) =~= access(sv, i as int));
        assert(views_of(r@) =~= operand(sv, i as int));
    }
    r
}

/// Builds the expression for a chain's segments: one `if let` for each
/// segment but the last, innermost first, around the last value in `Some`.
/// An empty input and a chain with no base are refused.
pub fn build(segs: &Vec<OptionalSegment>) -> (r: Result<Vec<Token>, ExpandError>)
    requires
        well_formed(segment_views(segs@)),
    ensures
        match r {
            Ok(out) => expansion(segment_views(segs@)) == Ok::<Seq<TokenView>, ExpandError>(views_of(out@)),
            Err(e) => expansion(segment_views(segs@)) == Err::<Seq<TokenView>, ExpandError>(e),
        },
{
    let ghost sv = segment_views(segs@);
    assert(sv[0] == segs@[0]@);
    proof {
        lemma_views_of(segs@[0].tokens@);
    }
    if segs[0].variant == OptionalVariant::Root {
        return Err(ExpandError::EmptyInput);
    }
    if segs[0].tokens.len() == 0 {
        return Err(ExpandError::MissingBase);
    }
    let n = segs.len();
    let mut i: usize = n - 1;
    let mut result = some_wrapper(operand_tokens(segs, i));
    while i > 0
        invariant
            0 <= i < n,
            n == segs.len(),
            sv == segment_views(segs@),
            well_formed(sv),
            views_of(result@) == nested(sv, i as int),
        decreases i,
    {
        i = i - 1;
        assert(sv[i as int].variant == segs@[i as int].variant);
        result = if_let(segs[i].variant, operand_tokens(segs, i), result);
    }
    Ok(result)
}

} // verus!
