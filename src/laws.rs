//! Laws of the expansion: how chains are split, and what the generated code
//! computes when it runs.
use vstd::prelude::*;
use crate::token::{Spacing, TokenView};
use crate::segment::{
    OptionalVariant, SegmentView, is_gate, is_question, operator_at, outcome_word, scan, opened_kind,
    segments_of, lemma_segments_shape,
};
use crate::expand::{
    access, ends_with_call, if_let_of, nested, operand, placeholder_name, some_of, well_formed, word,
};
use crate::semantics::{World, run, walk, is_some_form, is_if_let_form, pattern_variant};

verus! {

/// No `?` among the tokens.
pub open spec fn no_question(ts: Seq<TokenView>) -> bool {
    forall|j: int| 0 <= j < ts.len() ==> !is_question(#[trigger] ts[j])
}

/// The tokens of an operator: `?.`, `?Ok.` or `?Err.`.
pub open spec fn operator_tokens(v: OptionalVariant) -> Seq<TokenView> {
    match v {
        OptionalVariant::Nullable => seq![
            TokenView::Punct('?', Spacing::Joint),
            TokenView::Punct('.', Spacing::Alone),
        ],
        OptionalVariant::Success => seq![
            TokenView::Punct('?', Spacing::Alone),
            word("Ok"@),
            TokenView::Punct('.', Spacing::Alone),
        ],
        _ => seq![
            TokenView::Punct('?', Spacing::Alone),
            word("Err"@),
            TokenView::Punct('.', Spacing::Alone),
        ],
    }
}

/// The tokens of a trailing unwrap: `?`, `?Ok` or `?Err`.
pub open spec fn bare_tokens(v: OptionalVariant) -> Seq<TokenView> {
    match v {
        OptionalVariant::Nullable => seq![TokenView::Punct('?', Spacing::Alone)],
        OptionalVariant::Success => seq![TokenView::Punct('?', Spacing::Alone), word("Ok"@)],
        _ => seq![TokenView::Punct('?', Spacing::Alone), word("Err"@)],
    }
}

/// `base op1 f1 op2 f2 ...` for the steps `(op1, f1), (op2, f2), ...`.
pub open spec fn chain_tokens(base: Seq<TokenView>, steps: Seq<(OptionalVariant, Seq<TokenView>)>) -> Seq<TokenView>
    decreases steps.len(),
{
    if steps.len() == 0 {
        base
    } else {
        chain_tokens(base, steps.drop_last()) + operator_tokens(steps.last().0) + steps.last().1
    }
}

/// The tokens after the last operator of a chain.
pub open spec fn last_field(base: Seq<TokenView>, steps: Seq<(OptionalVariant, Seq<TokenView>)>) -> Seq<TokenView> {
    if steps.len() == 0 {
        base
    } else {
        steps.last().1
    }
}

/// The segments that the operators of a chain close: the base and each field
/// but the last, each with the operator after it.
pub open spec fn closed_segments(base: Seq<TokenView>, steps: Seq<(OptionalVariant, Seq<TokenView>)>) -> Seq<SegmentView>
    decreases steps.len(),
{
    if steps.len() == 0 {
        Seq::empty()
    } else {
        closed_segments(base, steps.drop_last()).push(
            SegmentView { variant: steps.last().0, tokens: last_field(base, steps.drop_last()) },
        )
    }
}

/// The segments of a chain: the closed ones, then the last field as `Plain`.
pub open spec fn chain_segments(base: Seq<TokenView>, steps: Seq<(OptionalVariant, Seq<TokenView>)>) -> Seq<SegmentView> {
    closed_segments(base, steps).push(SegmentView { variant: OptionalVariant::Plain, tokens: last_field(base, steps) })
}

/// Steps whose operators unwrap and whose fields hold no `?`.
pub open spec fn valid_steps(steps: Seq<(OptionalVariant, Seq<TokenView>)>) -> bool {
    forall|j: int| 0 <= j < steps.len() ==> is_gate(#[trigger] steps[j].0) && no_question(steps[j].1)
}

/// Tokens that hold no `?` join the open segment, one by one.
proof fn lemma_scan_plain(
    ts: Seq<TokenView>,
    i: int,
    j: int,
    cur: Seq<TokenView>,
    kind: OptionalVariant,
    done: Seq<SegmentView>,
)
    requires
        0 <= i <= j <= ts.len(),
        forall|k: int| i <= k < j ==> !is_question(#[trigger] ts[k]),
    ensures
        scan(ts, i, cur, kind, done) == scan(ts, j, cur + ts.subrange(i, j), kind, done),
    decreases j - i,
{
    if i < j {
        assert(operator_at(ts, i) is None);
        lemma_scan_plain(ts, i + 1, j, cur.push(ts[i]), kind, done);
        assert(cur.push(ts[i]) + ts.subrange(i + 1, j) =~= cur + ts.subrange(i, j));
    } else {
        assert(cur + ts.subrange(i, j) =~= cur);
    }
}

/// The tokens of an operator, wherever they stand, are that operator.
proof fn lemma_operator_found(ts: Seq<TokenView>, p: int, v: OptionalVariant)
    requires
        is_gate(v),
        0 <= p,
        p + operator_tokens(v).len() <= ts.len(),
        ts.subrange(p, p + operator_tokens(v).len()) == operator_tokens(v),
    ensures
        operator_at(ts, p) == Some((v, operator_tokens(v).len())),
{
    reveal_strlit("Ok");
    reveal_strlit("Err");
    let op = operator_tokens(v);
    assert(ts[p] == op[0]);
    assert(ts[p + 1] == op[1]);
    assert(is_question(ts[p]));
    assert("Ok"@ != "Err"@) by {
        assert("Ok"@.len() != "Err"@.len());
    }
    if v !is Nullable {
        assert(ts[p + 2] == op[2]);
        assert(!(ts[p + 1] is Punct));
        if v is Success {
            assert(outcome_word(ts[p + 1]) == Some(OptionalVariant::Success));
        } else {
            assert(outcome_word(ts[p + 1]) == Some(OptionalVariant::Failure));
        }
    }
}

/// A trailing unwrap at the end of the input is that unwrap.
proof fn lemma_bare_found(ts: Seq<TokenView>, p: int, v: OptionalVariant)
    requires
        is_gate(v),
        0 <= p,
        p + bare_tokens(v).len() == ts.len(),
        ts.subrange(p, ts.len() as int) == bare_tokens(v),
    ensures
        operator_at(ts, p) == Some((v, bare_tokens(v).len())),
{
    reveal_strlit("Ok");
    reveal_strlit("Err");
    let op = bare_tokens(v);
    assert(ts[p] == op[0]);
    assert(is_question(ts[p]));
    assert("Ok"@ != "Err"@) by {
        assert("Ok"@.len() != "Err"@.len());
    }
    if v !is Nullable {
        assert(ts[p + 1] == op[1]);
        assert(!(ts[p + 1] is Punct));
        if v is Success {
            assert(outcome_word(ts[p + 1]) == Some(OptionalVariant::Success));
        } else {
            assert(outcome_word(ts[p + 1]) == Some(OptionalVariant::Failure));
        }
    }
}

/// Scanning a chain, whatever follows it, reaches the end of the chain with
/// its last field open and the other segments closed.
proof fn lemma_scan_chain(
    base: Seq<TokenView>,
    steps: Seq<(OptionalVariant, Seq<TokenView>)>,
    rest: Seq<TokenView>,
)
    requires
        no_question(base),
        valid_steps(steps),
    ensures
        scan(chain_tokens(base, steps) + rest, 0, Seq::empty(), OptionalVariant::Plain, Seq::empty())
            == scan(
            chain_tokens(base, steps) + rest,
            chain_tokens(base, steps).len() as int,
            last_field(base, steps),
            OptionalVariant::Plain,
            closed_segments(base, steps),
        ),
    decreases steps.len(),
{
    let t = chain_tokens(base, steps) + rest;
    if steps.len() == 0 {
        lemma_scan_plain(t, 0, base.len() as int, Seq::empty(), OptionalVariant::Plain, Seq::empty());
        assert(Seq::<TokenView>::empty() + t.subrange(0, base.len() as int) =~= base);
    } else {
        let init = steps.drop_last();
        let (v, f) = steps.last();
        let p = chain_tokens(base, init);
        let op = operator_tokens(v);
        let rest2 = op + f + rest;
        assert(valid_steps(init)) by {
            assert forall|j: int| 0 <= j < init.len() implies is_gate(#[trigger] init[j].0) && no_question(init[j].1) by {
                assert(init[j] == steps[j]);
            }
        }
        assert(is_gate(v) && no_question(f)) by {
            assert(steps[steps.len() - 1] == steps.last());
        }
        assert(t =~= p + rest2);
        lemma_scan_chain(base, init, rest2);
        let at = p.len() as int;
        assert(t.subrange(at, at + op.len()) =~= op);
        lemma_operator_found(t, at, v);
        let closed = closed_segments(base, init).push(SegmentView { variant: v, tokens: last_field(base, init) });
        assert(t[at + op.len() - 1] == op[op.len() - 1]);
        assert(opened_kind(t, at, v, op.len()) is Plain);
        assert(scan(t, at, last_field(base, init), OptionalVariant::Plain, closed_segments(base, init)) == scan(
            t,
            at + op.len(),
            Seq::empty(),
            OptionalVariant::Plain,
            closed,
        ));
        let from = at + op.len();
        let to = from + f.len();
        assert forall|k: int| from <= k < to implies !is_question(#[trigger] t[k]) by {
            assert(t[k] == f[k - from]);
        }
        lemma_scan_plain(t, from, to, Seq::empty(), OptionalVariant::Plain, closed);
        assert(Seq::<TokenView>::empty() + t.subrange(from, to) =~= f);
        assert(to == chain_tokens(base, steps).len());
    }
}

/// A chain of a base followed by operators and fields, none of which holds a
/// `?` of its own, splits into the base and the fields, each tagged with the
/// operator that follows it, the last one `Plain`; and it has a base, so the
/// expansion does not refuse it.
pub proof fn law_chain_segments(base: Seq<TokenView>, steps: Seq<(OptionalVariant, Seq<TokenView>)>)
    requires
        base.len() > 0,
        no_question(base),
        valid_steps(steps),
    ensures
        segments_of(chain_tokens(base, steps)) == chain_segments(base, steps),
        operator_at(chain_tokens(base, steps), 0) is None,
{
    let t = chain_tokens(base, steps);
    lemma_scan_chain(base, steps, Seq::empty());
    assert(t + Seq::<TokenView>::empty() =~= t);
    lemma_chain_starts_with_base(base, steps);
}

/// A chain starts with its base.
proof fn lemma_chain_starts_with_base(base: Seq<TokenView>, steps: Seq<(OptionalVariant, Seq<TokenView>)>)
    requires
        base.len() > 0,
    ensures
        chain_tokens(base, steps).len() >= base.len(),
        chain_tokens(base, steps)[0] == base[0],
    decreases steps.len(),
{
    if steps.len() > 0 {
        lemma_chain_starts_with_base(base, steps.drop_last());
    }
}

/// Expansions that agree on every segment's tokens and on every kind but the
/// last one's are the same.
proof fn lemma_nested_ignores_last_kind(a: Seq<SegmentView>, b: Seq<SegmentView>, i: int)
    requires
        a.len() == b.len(),
        0 <= i < a.len(),
        forall|j: int| 0 <= j < a.len() ==> (#[trigger] a[j]).tokens == b[j].tokens,
        forall|j: int| 0 <= j < a.len() - 1 ==> (#[trigger] a[j]).variant == b[j].variant,
    ensures
        nested(a, i) == nested(b, i),
    decreases a.len() - i,
{
    assert(a[i].tokens == b[i].tokens);
    assert(operand(a, i) == operand(b, i));
    if i + 1 < a.len() {
        assert(a[i].variant == b[i].variant);
        lemma_nested_ignores_last_kind(a, b, i + 1);
    }
}

/// A chain that ends in a bare `?`, `?Ok` or `?Err` splits into the chain's
/// segments, its last field tagged with that unwrap, and an empty last
/// segment that carries the unwrap too. Apart from that last kind it splits
/// as the same chain ending in `?.`, `?Ok.` or `?Err.` with nothing after it,
/// and expands to the same code.
pub proof fn law_bare_end(base: Seq<TokenView>, steps: Seq<(OptionalVariant, Seq<TokenView>)>, v: OptionalVariant)
    requires
        base.len() > 0,
        no_question(base),
        valid_steps(steps),
        is_gate(v),
    ensures
        segments_of(chain_tokens(base, steps) + bare_tokens(v)) == closed_segments(base, steps).push(
            SegmentView { variant: v, tokens: last_field(base, steps) },
        ).push(SegmentView { variant: v, tokens: Seq::empty() }),
        segments_of(chain_tokens(base, steps) + bare_tokens(v)) == segments_of(
            chain_tokens(base, steps.push((v, Seq::empty()))),
        ).update(steps.len() as int + 1, SegmentView { variant: v, tokens: Seq::empty() }),
        nested(segments_of(chain_tokens(base, steps) + bare_tokens(v)), 0) == nested(
            segments_of(chain_tokens(base, steps.push((v, Seq::empty())))),
            0,
        ),
{
    reveal_strlit("Ok");
    reveal_strlit("Err");
    let c = chain_tokens(base, steps);
    let t = c + bare_tokens(v);
    let bare = bare_tokens(v);
    lemma_scan_chain(base, steps, bare);
    assert(t.subrange(c.len() as int, t.len() as int) =~= bare);
    lemma_bare_found(t, c.len() as int, v);
    assert(t[t.len() - 1] == bare[bare.len() - 1]);
    assert(opened_kind(t, c.len() as int, v, bare.len()) == v);
    let longer = steps.push((v, Seq::<TokenView>::empty()));
    assert(longer.drop_last() =~= steps);
    assert(valid_steps(longer)) by {
        assert forall|j: int| 0 <= j < longer.len() implies is_gate(#[trigger] longer[j].0) && no_question(longer[j].1) by {
            if j < steps.len() {
                assert(longer[j] == steps[j]);
            }
        }
    }
    law_chain_segments(base, longer);
    lemma_chain_starts_with_base(base, steps);
    let closed = closed_segments(base, steps).push(SegmentView { variant: v, tokens: last_field(base, steps) });
    assert(closed_segments(base, longer) == closed);
    assert(last_field(base, longer) == Seq::<TokenView>::empty());
    let plain = OptionalVariant::Plain;
    assert(segments_of(t) == scan(t, c.len() as int, last_field(base, steps), plain, closed_segments(base, steps)));
    assert(scan(t, c.len() as int, last_field(base, steps), plain, closed_segments(base, steps)) == scan(
        t,
        t.len() as int,
        Seq::empty(),
        v,
        closed,
    ));
    let a = segments_of(t);
    let b = segments_of(chain_tokens(base, longer));
    lemma_closed_segments(base, steps);
    assert(b == closed.push(SegmentView { variant: OptionalVariant::Plain, tokens: Seq::empty() }));
    assert(a =~= b.update(steps.len() as int + 1, SegmentView { variant: v, tokens: Seq::empty() }));
    lemma_nested_ignores_last_kind(a, b, 0);
}

/// The value that a traced access reaches.
pub open spec fn reached(w: World, step: (int, Seq<TokenView>)) -> int {
    (w.access)(step.0, step.1)
}

/// The generated expression for segments from `i` on runs as the walk over them.
proof fn lemma_run_nested(segs: Seq<SegmentView>, w: World, i: int, c: int)
    requires
        well_formed(segs),
        0 <= i < segs.len(),
    ensures
        run(nested(segs, i), w, c) == walk(segs, w, i, c),
    decreases segs.len() - i,
{
    reveal_strlit("Some");
    reveal_strlit("Ok");
    reveal_strlit("Err");
    let e = nested(segs, i);
    let s = operand(segs, i);
    if i + 1 >= segs.len() {
        assert(is_some_form(e));
        assert(e[1]->Group_1 == s);
        assert(run(e, w, c) == walk(segs, w, i, c));
    } else {
        let v = segs[i].variant;
        assert(is_gate(v));
        let inner = nested(segs, i + 1);
        assert(e == if_let_of(v, s, inner));
        assert(e.len() == s.len() + 8);
        assert(!is_some_form(e));
        assert(pattern_variant(e[2]) == Some(v)) by {
            assert("Some"@.len() != "Ok"@.len() && "Some"@.len() != "Err"@.len() && "Ok"@.len() != "Err"@.len());
        }
        assert(is_if_let_form(e));
        assert(e.subrange(5, e.len() - 3) =~= s);
        assert(e[e.len() - 3]->Group_1 == inner);
        assert forall|c2: int| run(inner, w, c2) == walk(segs, w, i + 1, c2) by {
            lemma_run_nested(segs, w, i + 1, c2);
        }
        assert(pattern_variant(e[2])->0 == v);
        match (w.unwrap)(v, (w.access)(c, s)) {
            Some(x) => {
                assert(run(inner, w, x) == walk(segs, w, i + 1, x));
            },
            None => {},
        }
    }
}

/// Running the expansion of any input with a base is walking its segments:
/// the generated code evaluates each segment's access in order, each with the
/// value that the previous unwrap bound, and stops with `None` at the first
/// unwrap that fails; otherwise its result is the last access's value.
pub proof fn law_expansion_runs_as_walk(ts: Seq<TokenView>, w: World, c: int)
    requires
        ts.len() > 0,
        operator_at(ts, 0) is None,
    ensures
        run(nested(segments_of(ts), 0), w, c) == walk(segments_of(ts), w, 0, c),
{
    lemma_segments_shape(ts);
    lemma_run_nested(segments_of(ts), w, 0, c);
}

/// A walk from segment `i` evaluates the accesses of a run of segments in
/// order, the first with the value it starts from. Each unwrap it passes binds
/// the value of the next access. It stops at the first unwrap that fails, with
/// `None`, and evaluates nothing after it; it is `Some` of the last segment's
/// value exactly when it reaches the last segment.
pub proof fn law_walk_short_circuits(segs: Seq<SegmentView>, w: World, i: int, c: int)
    requires
        0 <= i < segs.len(),
    ensures
        ({
            let (r, t) = walk(segs, w, i, c);
            &&& 1 <= t.len() <= segs.len() - i
            &&& t[0].0 == c
            &&& forall|j: int| 0 <= j < t.len() ==> #[trigger] t[j].1 == operand(segs, i + j)
            &&& forall|j: int| 0 <= j < t.len() - 1 ==>
                (w.unwrap)(segs[i + j].variant, reached(w, #[trigger] t[j])) == Some(t[j + 1].0)
            &&& t.len() < segs.len() - i ==> r is None
                && (w.unwrap)(segs[i + t.len() - 1].variant, reached(w, t.last())) is None
            &&& t.len() == segs.len() - i ==> r == Some(reached(w, t.last()))
        }),
    decreases segs.len() - i,
{
    let (r, t) = walk(segs, w, i, c);
    let s = operand(segs, i);
    if i + 1 < segs.len() {
        match (w.unwrap)(segs[i].variant, (w.access)(c, s)) {
            Some(inner) => {
                law_walk_short_circuits(segs, w, i + 1, inner);
                let (r2, t2) = walk(segs, w, i + 1, inner);
                assert(t == seq![(c, s)] + t2);
                assert forall|j: int| 0 <= j < t.len() implies #[trigger] t[j].1 == operand(segs, i + j) by {
                    if j > 0 {
                        assert(t[j] == t2[j - 1]);
                    }
                }
                assert forall|j: int| 0 <= j < t.len() - 1 implies
                    (w.unwrap)(segs[i + j].variant, reached(w, #[trigger] t[j])) == Some(t[j + 1].0) by {
                    if j > 0 {
                        assert(t[j] == t2[j - 1]);
                        assert(t[j + 1] == t2[j]);
                    } else {
                        assert(t[1] == t2[0]);
                    }
                }
                assert(t.last() == t2.last());
            },
            None => {},
        }
    }
}

/// The facts of a chain's closed segments: one for each step; the first holds
/// the base, each later one the field before its operator.
proof fn lemma_closed_segments(base: Seq<TokenView>, steps: Seq<(OptionalVariant, Seq<TokenView>)>)
    ensures
        closed_segments(base, steps).len() == steps.len(),
        forall|j: int| 0 <= j < steps.len() ==> (#[trigger] closed_segments(base, steps)[j]).variant == steps[j].0,
        forall|j: int| 0 < j < steps.len() ==> (#[trigger] closed_segments(base, steps)[j]).tokens == steps[j - 1].1,
        steps.len() > 0 ==> closed_segments(base, steps)[0].tokens == base,
    decreases steps.len(),
{
    if steps.len() > 0 {
        let init = steps.drop_last();
        lemma_closed_segments(base, init);
        assert forall|j: int| 0 <= j < init.len() implies init[j] == #[trigger] steps[j] by {}
    }
}

/// Runs the expansion of `base op1 f1 ... opN fN`: a chain whose base and
/// fields hold no `?`. The segment entered after step `j`'s operator is `fj`.
/// Each access is evaluated in order; each operator's unwrap that succeeds
/// binds the value of the next access; at the first one that fails the
/// result is `None` and no later access is evaluated; and the result is
/// `Some` of the last field's value exactly when every unwrap succeeded.
pub proof fn law_chain_short_circuits(
    base: Seq<TokenView>,
    steps: Seq<(OptionalVariant, Seq<TokenView>)>,
    w: World,
    c: int,
)
    requires
        base.len() > 0,
        no_question(base),
        valid_steps(steps),
    ensures
        operator_at(chain_tokens(base, steps), 0) is None,
        ({
            let segs = segments_of(chain_tokens(base, steps));
            let (r, t) = run(nested(segs, 0), w, c);
            &&& segs.len() == steps.len() + 1
            &&& 1 <= t.len() <= steps.len() + 1
            &&& t[0].0 == c
            &&& forall|j: int| 0 <= j < t.len() ==> #[trigger] t[j].1 == operand(segs, j)
            &&& forall|j: int| 0 <= j < t.len() - 1 ==>
                (w.unwrap)(steps[j].0, reached(w, #[trigger] t[j])) == Some(t[j + 1].0)
            &&& t.len() <= steps.len() ==> r is None
                && (w.unwrap)(steps[t.len() - 1].0, reached(w, t.last())) is None
            &&& t.len() == steps.len() + 1 ==> r == Some(reached(w, t.last()))
        }),
{
    law_chain_segments(base, steps);
    let ts = chain_tokens(base, steps);
    let segs = segments_of(ts);
    lemma_closed_segments(base, steps);
    law_expansion_runs_as_walk(ts, w, c);
    law_walk_short_circuits(segs, w, 0, c);
    assert forall|j: int| 0 <= j < steps.len() implies #[trigger] segs[j].variant == steps[j].0 by {
        assert(segs[j] == closed_segments(base, steps)[j]);
    }
}

/// The steps `?. f1 ?. f2 ... ?. fN`.
pub open spec fn nullable_steps(fields: Seq<Seq<TokenView>>) -> Seq<(OptionalVariant, Seq<TokenView>)> {
    Seq::new(fields.len(), |j: int| (OptionalVariant::Nullable, fields[j]))
}

/// `base ?. f1 ?. ... ?. fN`, with no `?` in the base or the fields, expands
/// to code whose result is `Some` of `fN`'s value exactly when every
/// intermediate value is present: each present value binds the next access,
/// the first absent one ends the run with `None`, and no access after it is
/// evaluated.
pub proof fn law_nullable_chain(base: Seq<TokenView>, fields: Seq<Seq<TokenView>>, w: World, c: int)
    requires
        base.len() > 0,
        no_question(base),
        forall|j: int| 0 <= j < fields.len() ==> no_question(#[trigger] fields[j]),
    ensures
        operator_at(chain_tokens(base, nullable_steps(fields)), 0) is None,
        ({
            let segs = segments_of(chain_tokens(base, nullable_steps(fields)));
            let (r, t) = run(nested(segs, 0), w, c);
            &&& 1 <= t.len() <= fields.len() + 1
            &&& t[0].0 == c
            &&& forall|j: int| 0 <= j < t.len() - 1 ==>
                (w.unwrap)(OptionalVariant::Nullable, reached(w, #[trigger] t[j])) == Some(t[j + 1].0)
            &&& t.len() <= fields.len() ==> r is None
                && (w.unwrap)(OptionalVariant::Nullable, reached(w, t.last())) is None
            &&& t.len() == fields.len() + 1 ==> r == Some(reached(w, t.last()))
        }),
{
    let steps = nullable_steps(fields);
    assert(valid_steps(steps)) by {
        assert forall|j: int| 0 <= j < steps.len() implies is_gate(#[trigger] steps[j].0) && no_question(steps[j].1) by {
            assert(steps[j].1 == fields[j]);
        }
    }
    law_chain_short_circuits(base, steps, w, c);
    let segs = segments_of(chain_tokens(base, steps));
    let (r, t) = run(nested(segs, 0), w, c);
    assert forall|j: int| 0 <= j < t.len() - 1 implies
        (w.unwrap)(OptionalVariant::Nullable, reached(w, #[trigger] t[j])) == Some(t[j + 1].0) by {
        assert(steps[j].0 == OptionalVariant::Nullable);
    }
    if t.len() <= fields.len() {
        assert(steps[t.len() - 1].0 == OptionalVariant::Nullable);
    }
}

/// A base with no operator at all expands to `Some` of its value: `Some(&base)`,
/// or `Some(base)` where it ends in a call; its run is always present.
pub proof fn law_plain_chain(base: Seq<TokenView>, w: World, c: int)
    requires
        base.len() > 0,
        no_question(base),
    ensures
        segments_of(base) == seq![SegmentView { variant: OptionalVariant::Plain, tokens: base }],
        ends_with_call(base) ==> nested(segments_of(base), 0) == some_of(base),
        !ends_with_call(base) ==> nested(segments_of(base), 0) == some_of(
            seq![TokenView::Punct('&', Spacing::Alone)] + base,
        ),
        run(nested(segments_of(base), 0), w, c).0 == Some((w.access)(c, operand(segments_of(base), 0))),
{
    let steps = Seq::<(OptionalVariant, Seq<TokenView>)>::empty();
    assert(valid_steps(steps));
    law_chain_segments(base, steps);
    assert(chain_tokens(base, steps) == base);
    assert(chain_segments(base, steps) =~= seq![SegmentView { variant: OptionalVariant::Plain, tokens: base }]);
    law_expansion_runs_as_walk(base, w, c);
}

/// `base ?. addr ?Ok. validated ?Err. reason`: the run is `Some` exactly when
/// the base's value is present, `addr`'s is an `Ok` and `validated`'s is an
/// `Err`, each access evaluated with what the unwrap before it bound; the
/// result is then `reason`'s value.
pub proof fn law_mixed_chain(
    base: Seq<TokenView>,
    addr: Seq<TokenView>,
    validated: Seq<TokenView>,
    reason: Seq<TokenView>,
    w: World,
    c: int,
)
    requires
        base.len() > 0,
        no_question(base),
        no_question(addr),
        no_question(validated),
        no_question(reason),
    ensures
        ({
            let steps = seq![
                (OptionalVariant::Nullable, addr),
                (OptionalVariant::Success, validated),
                (OptionalVariant::Failure, reason),
            ];
            let ts = chain_tokens(base, steps);
            let (r, t) = run(nested(segments_of(ts), 0), w, c);
            &&& operator_at(ts, 0) is None
            &&& t[0].0 == c
            &&& (r is Some) == ({
                &&& t.len() == 4
                &&& (w.unwrap)(OptionalVariant::Nullable, reached(w, t[0])) == Some(t[1].0)
                &&& (w.unwrap)(OptionalVariant::Success, reached(w, t[1])) == Some(t[2].0)
                &&& (w.unwrap)(OptionalVariant::Failure, reached(w, t[2])) == Some(t[3].0)
            })
            &&& r is Some ==> r == Some(reached(w, t[3]))
        }),
{
    let steps = seq![
        (OptionalVariant::Nullable, addr),
        (OptionalVariant::Success, validated),
        (OptionalVariant::Failure, reason),
    ];
    assert(valid_steps(steps));
    law_chain_short_circuits(base, steps, w, c);
    let (r, t) = run(nested(segments_of(chain_tokens(base, steps)), 0), w, c);
    if t.len() == 4 {
        assert((w.unwrap)(steps[0].0, reached(w, t[0])) == Some(t[1].0));
        assert((w.unwrap)(steps[1].0, reached(w, t[1])) == Some(t[2].0));
        assert((w.unwrap)(steps[2].0, reached(w, t[2])) == Some(t[3].0));
    }
}

/// `base ?. f1 ?.`, a trailing operator with no access after it, expands
/// without an access for the last segment: the placeholder alone stands in
/// `Some( )`. Where the placeholder evaluates to what it is bound to, the run
/// is `Some` of `f1`'s unwrapped value when the base's and `f1`'s values are
/// present, and `None` otherwise.
pub proof fn law_trailing_gate(base: Seq<TokenView>, f1: Seq<TokenView>, w: World, c: int)
    requires
        base.len() > 0,
        no_question(base),
        no_question(f1),
        forall|b: int| #[trigger] (w.access)(b, seq![word(placeholder_name())]) == b,
    ensures
        ({
            let steps = seq![(OptionalVariant::Nullable, f1), (OptionalVariant::Nullable, Seq::empty())];
            let ts = chain_tokens(base, steps);
            let segs = segments_of(ts);
            let (r, t) = run(nested(segs, 0), w, c);
            &&& operator_at(ts, 0) is None
            &&& segs.len() == 3
            &&& operand(segs, 2) == seq![word(placeholder_name())]
            &&& t[0].0 == c
            &&& (r is Some) == ({
                &&& t.len() == 3
                &&& (w.unwrap)(OptionalVariant::Nullable, reached(w, t[0])) == Some(t[1].0)
                &&& (w.unwrap)(OptionalVariant::Nullable, reached(w, t[1])) == Some(t[2].0)
            })
            &&& r is Some ==> r == (w.unwrap)(OptionalVariant::Nullable, reached(w, t[1]))
        }),
{
    let steps = seq![(OptionalVariant::Nullable, f1), (OptionalVariant::Nullable, Seq::<TokenView>::empty())];
    assert(valid_steps(steps));
    law_chain_short_circuits(base, steps, w, c);
    let segs = segments_of(chain_tokens(base, steps));
    lemma_closed_segments(base, steps);
    law_chain_segments(base, steps);
    assert(segs[2].tokens == last_field(base, steps));
    let (r, t) = run(nested(segs, 0), w, c);
    if t.len() == 3 {
        assert((w.unwrap)(steps[0].0, reached(w, t[0])) == Some(t[1].0));
        assert((w.unwrap)(steps[1].0, reached(w, t[1])) == Some(t[2].0));
        assert(reached(w, t[2]) == t[2].0);
    }
}

/// A segment whose access ends in a call is not taken by reference; a field
/// access is.
pub proof fn law_call_not_borrowed(segs: Seq<SegmentView>, i: int)
    requires
        0 <= i < segs.len(),
    ensures
        ends_with_call(segs[i].tokens) ==> operand(segs, i) == access(segs, i),
        segs[i].tokens.len() > 0 && !ends_with_call(segs[i].tokens) ==> operand(segs, i) == seq![
            TokenView::Punct('&', Spacing::Alone),
        ] + access(segs, i),
{
}

} // verus!
