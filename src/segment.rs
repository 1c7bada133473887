//! Splitting a token sequence into access steps at the chain operators
//! `?.`, `?Ok.` and `?Err.`, and at a trailing `?`, `?Ok` or `?Err`.
use vstd::prelude::*;
use crate::token::{Spacing, Token, TokenView, views_of, lemma_views_of, lemma_views_of_push, text_is};

verus! {

/// How the value that a segment's access reaches is taken further.
#[derive(Clone, Copy, Debug, PartialEq, Eq, Structural)]
pub enum OptionalVariant {
    /// The single segment of an empty input.
    Root,
    /// `?.`: the value is an `Option`; go on with what `Some` holds. On the
    /// empty last segment, the chain ended in a bare `?`.
    Nullable,
    /// `?Ok.`: the value is a `Result`; go on with what `Ok` holds. On the
    /// empty last segment, the chain ended in a bare `?Ok`.
    Success,
    /// `?Err.`: the value is a `Result`; go on with what `Err` holds. On the
    /// empty last segment, the chain ended in a bare `?Err`.
    Failure,
    /// The last segment of a chain that ends in no operator, or in `?.`,
    /// `?Ok.` or `?Err.`: its value is the chain's result.
    Plain,
}

/// One access step: its tokens, and the unwrap that follows it; for the last
/// step, the trailing unwrap that ends the chain, if any.
#[derive(Debug, PartialEq, Eq)]
pub struct OptionalSegment {
    pub variant: OptionalVariant,
    pub tokens: Vec<Token>,
}

/// The mathematical value of an [`OptionalSegment`].
pub struct SegmentView {
    pub variant: OptionalVariant,
    pub tokens: Seq<TokenView>,
}

impl View for OptionalSegment {
    type V = SegmentView;

    open spec fn view(&self) -> SegmentView {
        SegmentView { variant: self.variant, tokens: views_of(self.tokens@) }
    }
}

/// The views of a sequence of segments.
pub open spec fn segment_views(ss: Seq<OptionalSegment>) -> Seq<SegmentView> {
    ss.map_values(|s: OptionalSegment| s@)
}

/// Whether the variant is one of the three unwrapping operators.
pub open spec fn is_gate(v: OptionalVariant) -> bool {
    v is Nullable || v is Success || v is Failure
}

pub open spec fn ok_word() -> Seq<char> {
    "Ok"@
}

pub open spec fn err_word() -> Seq<char> {
    "Err"@
}

/// A `?`, whatever its spacing.
pub open spec fn is_question(t: TokenView) -> bool {
    t is Punct && t->Punct_0 == '?'
}

/// The `.` that ends an operator: a `.` that is not joined to a following
/// punctuation (`?..` is a range, not an operator).
pub open spec fn is_separator(t: TokenView) -> bool {
    t == TokenView::Punct('.', Spacing::Alone)
}

/// The outcome name `Ok` or `Err` that may follow a `?`, with the unwrap it stands for.
pub open spec fn outcome_word(t: TokenView) -> Option<OptionalVariant> {
    if t == TokenView::Ident(ok_word()) {
        Some(OptionalVariant::Success)
    } else if t == TokenView::Ident(err_word()) {
        Some(OptionalVariant::Failure)
    } else {
        None
    }
}

/// The chain operator that starts at position `i` of `ts`, if any, with the
/// number of tokens it takes:
/// `?.` (a `?` joined to a separating `.`), `?Ok.` and `?Err.`,
/// and at the very end of the input a bare `?`, `?Ok` or `?Err`.
pub open spec fn operator_at(ts: Seq<TokenView>, i: int) -> Option<(OptionalVariant, nat)> {
    let n = ts.len();
    if !(0 <= i < n) || !is_question(ts[i]) {
        None
    } else if i + 1 == n {
        Some((OptionalVariant::Nullable, 1))
    } else if ts[i] == TokenView::Punct('?', Spacing::Joint) && is_separator(ts[i + 1]) {
        Some((OptionalVariant::Nullable, 2))
    } else if outcome_word(ts[i + 1]) is Some {
        if i + 2 == n {
            Some((outcome_word(ts[i + 1])->0, 2))
        } else if is_separator(ts[i + 2]) {
            Some((outcome_word(ts[i + 1])->0, 3))
        } else {
            None
        }
    } else {
        None
    }
}

/// The kind of the segment that an operator of `w` tokens at position `i`
/// opens: `Plain` after `?.`, `?Ok.` or `?Err.`; after a bare `?`, `?Ok` or
/// `?Err`, which ends the input, that unwrap.
pub open spec fn opened_kind(ts: Seq<TokenView>, i: int, v: OptionalVariant, w: nat) -> OptionalVariant {
    if is_separator(ts[i + w - 1]) {
        OptionalVariant::Plain
    } else {
        v
    }
}

/// Scanning `ts` from position `i`, with the tokens `cur` gathered for the
/// open segment, `kind` the kind it gets if the input ends there, and the
/// segments `done` already closed. Each operator closes the open segment with
/// its unwrap and opens an empty one of [`opened_kind`]; every other token
/// joins the open segment; the segment open at the end is closed with `kind`.
pub open spec fn scan(
    ts: Seq<TokenView>,
    i: int,
    cur: Seq<TokenView>,
    kind: OptionalVariant,
    done: Seq<SegmentView>,
) -> Seq<SegmentView>
    decreases ts.len() - i,
{
    if i >= ts.len() || i < 0 {
        done.push(SegmentView { variant: kind, tokens: cur })
    } else {
        match operator_at(ts, i) {
            // An operator takes at least one token, so the scan moves on.
            Some((v, w)) => if w > 0 {
                scan(
                    ts,
                    i + w,
                    Seq::empty(),
                    opened_kind(ts, i, v, w),
                    done.push(SegmentView { variant: v, tokens: cur }),
                )
            } else {
                done
            },
            None => scan(ts, i + 1, cur.push(ts[i]), kind, done),
        }
    }
}

/// The segments of a chain expression. The empty input is one empty `Root` segment.
pub open spec fn segments_of(ts: Seq<TokenView>) -> Seq<SegmentView> {
    if ts.len() == 0 {
        seq![SegmentView { variant: OptionalVariant::Root, tokens: Seq::empty() }]
    } else {
        scan(ts, 0, Seq::empty(), OptionalVariant::Plain, Seq::empty())
    }
}

/// A segment that can end a chain: a `Plain` one, or the empty segment after
/// a trailing bare unwrap, which carries that unwrap.
pub open spec fn is_last_segment(s: SegmentView) -> bool {
    s.variant is Plain || (is_gate(s.variant) && s.tokens.len() == 0)
}

/// An operator unwraps; one that does not end in a separating `.` is a bare
/// unwrap, which ends the input.
proof fn lemma_operator_facts(ts: Seq<TokenView>, i: int)
    requires
        operator_at(ts, i) is Some,
    ensures
        ({
            let (v, w) = operator_at(ts, i)->0;
            &&& is_gate(v)
            &&& 1 <= w
            &&& i + w <= ts.len()
            &&& !is_separator(ts[i + w - 1]) ==> i + w == ts.len()
        }),
{
}

/// What a scan adds to the segments already closed: at least one segment, an
/// unwrap after each but the last, a last one that can end a chain; and the
/// first segment it closes holds the tokens gathered so far, or more.
pub proof fn lemma_scan_shape(
    ts: Seq<TokenView>,
    i: int,
    cur: Seq<TokenView>,
    kind: OptionalVariant,
    done: Seq<SegmentView>,
)
    requires
        0 <= i <= ts.len(),
        forall|j: int| 0 <= j < done.len() ==> is_gate(#[trigger] done[j].variant),
        kind is Plain || (is_gate(kind) && cur.len() == 0 && i == ts.len()),
    ensures
        ({
            let r = scan(ts, i, cur, kind, done);
            &&& r.len() > done.len()
            &&& r.subrange(0, done.len() as int) == done
            &&& forall|j: int| 0 <= j < r.len() - 1 ==> is_gate(#[trigger] r[j].variant)
            &&& is_last_segment(r.last())
            &&& cur.len() > 0 ==> r[done.len() as int].tokens.len() > 0
        }),
    decreases ts.len() - i,
{
    let r = scan(ts, i, cur, kind, done);
    if i >= ts.len() {
        assert(r.subrange(0, done.len() as int) =~= done);
    } else {
        match operator_at(ts, i) {
            Some((v, w)) => {
                lemma_operator_facts(ts, i);
                let next = done.push(SegmentView { variant: v, tokens: cur });
                lemma_scan_shape(ts, i + w, Seq::empty(), opened_kind(ts, i, v, w), next);
                assert(r.subrange(0, next.len() as int)[done.len() as int] == next[done.len() as int]);
                assert(r.subrange(0, done.len() as int) =~= next.subrange(0, done.len() as int));
            },
            None => {
                lemma_scan_shape(ts, i + 1, cur.push(ts[i]), kind, done);
            },
        }
    }
}

/// The segments of every input are what the expression builder takes: an
/// unwrap after every segment but the last, and a last one that is `Plain`
/// or, after a trailing bare unwrap, empty and carrying that unwrap; or else
/// the single empty `Root` segment of an empty input. The first segment has no tokens exactly
/// where the input is empty or starts with an operator.
pub proof fn lemma_segments_shape(ts: Seq<TokenView>)
    ensures
        ({
            let r = segments_of(ts);
            &&& r.len() >= 1
            &&& forall|j: int| 0 <= j < r.len() - 1 ==> is_gate(#[trigger] r[j].variant)
            &&& (r[0].variant is Root) == (ts.len() == 0)
            &&& ts.len() == 0 ==> r.len() == 1 && r[0].tokens.len() == 0
            &&& ts.len() > 0 ==> is_last_segment(r.last())
            &&& (r[0].tokens.len() == 0) == (ts.len() == 0 || operator_at(ts, 0) is Some)
        }),
{
    if ts.len() > 0 {
        let e = Seq::<SegmentView>::empty();
        let plain = OptionalVariant::Plain;
        lemma_scan_shape(ts, 0, Seq::empty(), plain, e);
        let r = segments_of(ts);
        match operator_at(ts, 0) {
            Some((v, w)) => {
                lemma_operator_facts(ts, 0);
                let first = seq![SegmentView { variant: v, tokens: Seq::<TokenView>::empty() }];
                assert(e.push(SegmentView { variant: v, tokens: Seq::<TokenView>::empty() }) == first);
                lemma_scan_shape(ts, w as int, Seq::empty(), opened_kind(ts, 0, v, w), first);
                assert(r.subrange(0, 1)[0] == first[0]);
            },
            None => {
                lemma_scan_shape(ts, 1, seq![ts[0]], plain, e);
                assert(Seq::<TokenView>::empty().push(ts[0]) == seq![ts[0]]);
            },
        }
        if r.len() > 1 {
            assert(is_gate(r[0].variant));
        }
    }
}

/// Whether `t` is a `?`.
fn is_question_token(t: &Token) -> (r: bool)
    ensures
        r == is_question(t@),
{
    match t {
        Token::Punct(c, _) => *c == '?',
        _ => false,
    }
}

/// Whether `t` is a separating `.`.
fn is_separator_token(t: &Token) -> (r: bool)
    ensures
        r == is_separator(t@),
{
    match t {
        Token::Punct(c, sp) => *c == '.' && *sp == Spacing::Alone,
        _ => false,
    }
}

/// The unwrap that the identifier `Ok` or `Err` stands for after a `?`.
fn outcome_word_token(t: &Token) -> (r: Option<OptionalVariant>)
    ensures
        r == outcome_word(t@),
{
    proof {
        reveal_strlit("Ok");
        reveal_strlit("Err");
    }
    match t {
        Token::Ident(s) => {
            if text_is(s, "Ok") {
                assert("Ok"@ =~= ok_word());
                Some(OptionalVariant::Success)
            } else if text_is(s, "Err") {
                assert("Err"@ =~= err_word());
                assert(s@ != ok_word());
                Some(OptionalVariant::Failure)
            } else {
                assert("Ok"@ =~= ok_word());
                assert("Err"@ =~= err_word());
                None
            }
        },
        _ => None,
    }
}

/// The chain operator that starts at position `i` of `ts`, as [`operator_at`] gives it.
fn operator_at_token(ts: &Vec<Token>, i: usize) -> (r: Option<(OptionalVariant, usize)>)
    requires
        i < ts.len(),
    ensures
        match operator_at(views_of(ts@), i as int) {
            Some((v, w)) => r == Some((v, w as usize)),
            None => r is None,
        },
{
    proof {
        lemma_views_of(ts@);
    }
    let n = ts.len();
    if !is_question_token(&ts[i]) {
        None
    } else if i + 1 == n {
        Some((OptionalVariant::Nullable, 1))
    } else if ts[i].is_joint_punct('?') && is_separator_token(&ts[i + 1]) {
        Some((OptionalVariant::Nullable, 2))
    } else {
        match outcome_word_token(&ts[i + 1]) {
            Some(v) => {
                if i + 2 == n {
                    Some((v, 2))
                } else if is_separator_token(&ts[i + 2]) {
                    Some((v, 3))
                } else {
                    None
                }
            },
            None => None,
        }
    }
}

/// Splits a chain expression into its segments, each tagged with the unwrap
/// that follows it. The last one is `Plain`, unless the input ends in a bare
/// `?`, `?Ok` or `?Err`: then it is empty and carries that unwrap. Tokens that form no operator,
/// a `?` among them, stay in their segment in their order. The empty input
/// gives one empty `Root` segment.
pub fn split_on_optional_variants(input: &Vec<Token>) -> (r: Vec<OptionalSegment>)
    ensures
        segment_views(r@) == segments_of(views_of(input@)),
{
    let ghost ts = views_of(input@);
    proof {
        lemma_views_of(input@);
    }
    if input.len() == 0 {
        let r = vec![OptionalSegment { variant: OptionalVariant::Root, tokens: Vec::new() }];
        proof {
            assert(views_of(r@[0].tokens@) =~= Seq::<TokenView>::empty());
            assert(segment_views(r@) =~= segments_of(ts));
        }
        return r;
    }
    let mut result: Vec<OptionalSegment> = Vec::new();
    let mut current: Vec<Token> = Vec::new();
    let mut kind = OptionalVariant::Plain;
    let mut i: usize = 0;
    proof {
        assert(views_of(current@) =~= Seq::<TokenView>::empty());
        assert(segment_views(result@) =~= Seq::<SegmentView>::empty());
    }
    while i < input.len()
        invariant
            i <= input.len(),
            ts == views_of(input@),
            ts.len() == input@.len(),
            segments_of(ts) == scan(ts, i as int, views_of(current@), kind, segment_views(result@)),
        decreases input.len() - i,
    {
        let ghost done = segment_views(result@);
        let ghost cur = views_of(current@);
        let ghost old_kind = kind;
        match operator_at_token(input, i) {
            Some((v, w)) => {
                let bare = !is_separator_token(&input[i + w - 1]);
                kind = if bare { v } else { OptionalVariant::Plain };
                proof {
                    lemma_views_of(input@);
                }
                assert(kind == opened_kind(ts, i as int, v, w as nat));
                assert(scan(ts, i as int, cur, old_kind, done) == scan(
                    ts,
                    i + w,
                    Seq::empty(),
                    kind,
                    done.push(SegmentView { variant: v, tokens: cur }),
                ));
                let tokens = current;
                current = Vec::new();
                let ghost before = result@;
                result.push(OptionalSegment { variant: v, tokens });
                proof {
                    assert(segment_views(result@) =~= segment_views(before).push(result@.last()@));
                    assert(views_of(current@) =~= Seq::<TokenView>::empty());
                    assert(segment_views(result@) == done.push(SegmentView { variant: v, tokens: cur }));
                }
                i = i + w;
            },
            None => {
                let ghost before = current@;
                current.push(input[i].deep_copy());
                proof {
                    lemma_views_of_push(before, current@.last());
                    assert(current@ =~= before.push(current@.last()));
                    assert(scan(ts, i as int, cur, kind, done) == scan(ts, i + 1, cur.push(ts[i as int]), kind, done));
                    lemma_views_of(input@);
                    assert(views_of(current@) == cur.push(ts[i as int]));
                }
                i = i + 1;
            },
        }
    }
    let ghost before = result@;
    result.push(OptionalSegment { variant: kind, tokens: current });
    proof {
        assert(segment_views(result@) =~= segment_views(before).push(result@.last()@));
    }
    result
}

} // verus!
