//! The delta model: control triples with their diff/extra payloads, and the
//! meaning of applying a sequence of them to a base buffer.

use crate::wire::wrap_add;
use vstd::prelude::*;

verus! {

/// One step of reconstruction: copy `copy_len` bytes combined with the base,
/// insert `literal_len` literal bytes, then move the base cursor by
/// `seek_delta`.
#[derive(Clone, Copy, PartialEq, Eq, Structural, Debug)]
pub struct ControlTriple {
    pub copy_len: i64,
    pub literal_len: i64,
    pub seek_delta: i64,
}

pub open spec fn triple_wf(t: ControlTriple) -> bool {
    t.copy_len >= 0 && t.literal_len >= 0
}

pub open spec fn triples_wf(ts: Seq<ControlTriple>) -> bool {
    forall|i: int| 0 <= i < ts.len() ==> triple_wf(#[trigger] ts[i])
}

pub open spec fn sum_copy(ts: Seq<ControlTriple>) -> int
    decreases ts.len(),
{
    if ts.len() == 0 {
        0
    } else {
        ts[0].copy_len + sum_copy(ts.drop_first())
    }
}

pub open spec fn sum_literal(ts: Seq<ControlTriple>) -> int
    decreases ts.len(),
{
    if ts.len() == 0 {
        0
    } else {
        ts[0].literal_len + sum_literal(ts.drop_first())
    }
}

pub open spec fn sum_total(ts: Seq<ControlTriple>) -> int {
    sum_copy(ts) + sum_literal(ts)
}

/// The last triple, if any, covers at least one target byte.  A serialized
/// stream of this shape is refused after any truncation.
pub open spec fn progressive(ts: Seq<ControlTriple>) -> bool {
    ts.len() == 0 || ts[ts.len() - 1].copy_len + ts[ts.len() - 1].literal_len > 0
}

/// The bytes a copy region produces: each payload byte combined with the
/// base byte under the cursor by wraparound addition, or kept as is where
/// the cursor runs outside the base buffer.
pub open spec fn combine(base: Seq<u8>, oldpos: int, d: Seq<u8>) -> Seq<u8> {
    Seq::new(
        d.len(),
        |i: int|
            if 0 <= oldpos + i < base.len() {
                wrap_add(d[i], base[oldpos + i])
            } else {
                d[i]
            },
    )
}

/// The output of applying the triples in order to `base`, consuming `diff`
/// and `extra` from the front, with the base cursor starting at `oldpos`.
pub open spec fn apply_triples(
    base: Seq<u8>,
    ts: Seq<ControlTriple>,
    diff: Seq<u8>,
    extra: Seq<u8>,
    oldpos: int,
) -> Seq<u8>
    decreases ts.len(),
{
    if ts.len() == 0 {
        Seq::empty()
    } else {
        let t = ts[0];
        combine(base, oldpos, diff.take(t.copy_len as int)) + extra.take(t.literal_len as int)
            + apply_triples(
            base,
            ts.drop_first(),
            diff.skip(t.copy_len as int),
            extra.skip(t.literal_len as int),
            oldpos + t.copy_len + t.seek_delta,
        )
    }
}

/// Base-cursor position after all triples have been applied.
pub open spec fn end_oldpos(ts: Seq<ControlTriple>, oldpos: int) -> int
    decreases ts.len(),
{
    if ts.len() == 0 {
        oldpos
    } else {
        end_oldpos(ts.drop_first(), oldpos + ts[0].copy_len + ts[0].seek_delta)
    }
}

pub proof fn lemma_wf_drop_first(ts: Seq<ControlTriple>)
    requires
        triples_wf(ts),
        ts.len() > 0,
    ensures
        triples_wf(ts.drop_first()),
        progressive(ts) && ts.len() > 1 ==> progressive(ts.drop_first()),
{
    assert forall|i: int| 0 <= i < ts.drop_first().len() implies triple_wf(
        #[trigger] ts.drop_first()[i],
    ) by {
        assert(ts.drop_first()[i] == ts[i + 1]);
    }
    if ts.len() > 1 {
        assert(ts.drop_first()[ts.len() - 2] == ts[ts.len() - 1]);
    }
}

pub proof fn lemma_sums_nonneg(ts: Seq<ControlTriple>)
    requires
        triples_wf(ts),
    ensures
        sum_copy(ts) >= 0,
        sum_literal(ts) >= 0,
    decreases ts.len(),
{
    if ts.len() > 0 {
        assert(triple_wf(ts[0]));
        lemma_wf_drop_first(ts);
        lemma_sums_nonneg(ts.drop_first());
    }
}

/// Appending one triple with its payloads extends the reconstruction by the
/// bytes that triple produces at the current end cursor.
pub proof fn lemma_apply_push(
    base: Seq<u8>,
    ts: Seq<ControlTriple>,
    diff: Seq<u8>,
    extra: Seq<u8>,
    oldpos: int,
    t: ControlTriple,
    d2: Seq<u8>,
    e2: Seq<u8>,
)
    requires
        triples_wf(ts),
        triple_wf(t),
        diff.len() == sum_copy(ts),
        extra.len() == sum_literal(ts),
        d2.len() == t.copy_len,
        e2.len() == t.literal_len,
    ensures
        sum_copy(ts.push(t)) == sum_copy(ts) + t.copy_len,
        sum_literal(ts.push(t)) == sum_literal(ts) + t.literal_len,
        end_oldpos(ts.push(t), oldpos) == end_oldpos(ts, oldpos) + t.copy_len + t.seek_delta,
        apply_triples(base, ts.push(t), diff + d2, extra + e2, oldpos) == apply_triples(
            base,
            ts,
            diff,
            extra,
            oldpos,
        ) + combine(base, end_oldpos(ts, oldpos), d2) + e2,
    decreases ts.len(),
{
    let p = ts.push(t);
    if ts.len() == 0 {
        assert(p[0] == t);
        assert(p.drop_first() =~= Seq::<ControlTriple>::empty());
        assert((diff + d2).take(t.copy_len as int) =~= d2);
        assert((extra + e2).take(t.literal_len as int) =~= e2);
        assert(apply_triples(base, p, diff + d2, extra + e2, oldpos) == combine(base, oldpos, d2)
            + e2 + apply_triples(
            base,
            p.drop_first(),
            (diff + d2).skip(t.copy_len as int),
            (extra + e2).skip(t.literal_len as int),
            oldpos + t.copy_len + t.seek_delta,
        ));
        assert(apply_triples(base, ts, diff, extra, oldpos) =~= Seq::<u8>::empty());
        assert(apply_triples(base, p, diff + d2, extra + e2, oldpos) =~= apply_triples(
            base,
            ts,
            diff,
            extra,
            oldpos,
        ) + combine(base, end_oldpos(ts, oldpos), d2) + e2);
        assert(end_oldpos(p.drop_first(), oldpos + t.copy_len + t.seek_delta) == oldpos
            + t.copy_len + t.seek_delta);
        assert(sum_copy(p.drop_first()) == 0);
        assert(sum_literal(p.drop_first()) == 0);
        assert(sum_copy(p) == sum_copy(ts) + t.copy_len);
        assert(sum_literal(p) == sum_literal(ts) + t.literal_len);
    } else {
        let h = ts[0];
        let c0 = h.copy_len as int;
        let c1 = h.literal_len as int;
        assert(triple_wf(h));
        lemma_wf_drop_first(ts);
        lemma_sums_nonneg(ts.drop_first());
        assert(p[0] == h);
        assert(p.drop_first() =~= ts.drop_first().push(t));
        assert((diff + d2).take(c0) =~= diff.take(c0));
        assert((diff + d2).skip(c0) =~= diff.skip(c0) + d2);
        assert((extra + e2).take(c1) =~= extra.take(c1));
        assert((extra + e2).skip(c1) =~= extra.skip(c1) + e2);
        let op2 = oldpos + h.copy_len + h.seek_delta;
        lemma_apply_push(base, ts.drop_first(), diff.skip(c0), extra.skip(c1), op2, t, d2, e2);
        assert(end_oldpos(ts, oldpos) == end_oldpos(ts.drop_first(), op2));
        assert(end_oldpos(p, oldpos) == end_oldpos(ts.drop_first().push(t), op2));
        assert(apply_triples(base, p, diff + d2, extra + e2, oldpos) == combine(
            base,
            oldpos,
            diff.take(c0),
        ) + extra.take(c1) + apply_triples(
            base,
            ts.drop_first().push(t),
            diff.skip(c0) + d2,
            extra.skip(c1) + e2,
            op2,
        ));
        assert(apply_triples(base, ts, diff, extra, oldpos) == combine(base, oldpos, diff.take(c0))
            + extra.take(c1) + apply_triples(
            base,
            ts.drop_first(),
            diff.skip(c0),
            extra.skip(c1),
            op2,
        ));
        assert(apply_triples(base, p, diff + d2, extra + e2, oldpos) =~= apply_triples(
            base,
            ts,
            diff,
            extra,
            oldpos,
        ) + combine(base, end_oldpos(ts, oldpos), d2) + e2);
    }
}

} // verus!
