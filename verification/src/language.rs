use vstd::prelude::*;
use crate::model::GlobSeg;
use crate::semantics::{
    class_hit,
    seq_matches,
    seq_size,
    comps_matches,
    is_double_star_component,
    lemma_alt_smaller,
    lemma_first_smaller,
    lemma_alt_match_intro,
    lemma_alt_match_elim,
};

verus! {

/// Matching a concatenation: `a + b` matches `cs` exactly when `cs` splits into a part that
/// `a` matches followed by a part that `b` matches.
pub proof fn lemma_seq_concat(a: Seq<GlobSeg>, b: Seq<GlobSeg>, cs: Seq<char>)
    ensures
        seq_matches(a + b, cs) == exists|k: int|
            #![trigger cs.take(k)]
            0 <= k <= cs.len() && seq_matches(a, cs.take(k)) && seq_matches(b, cs.skip(k)),
    decreases seq_size(a), 1int,
{
    let c = a + b;
    if a.len() == 0 {
        assert(c =~= b);
        if seq_matches(c, cs) {
            assert(cs.take(0) =~= Seq::<char>::empty());
            assert(cs.skip(0) =~= cs);
            assert(seq_matches(a, cs.take(0)));
        }
        if exists|k: int| #![trigger cs.take(k)] 0 <= k <= cs.len() && seq_matches(a, cs.take(k)) && seq_matches(b, cs.skip(k)) {
            let k = choose|k: int| #![trigger cs.take(k)] 0 <= k <= cs.len() && seq_matches(a, cs.take(k)) && seq_matches(b, cs.skip(k));
            assert(cs.take(k).len() == 0);
            assert(cs.skip(k) =~= cs);
        }
    } else {
        let a1 = a.drop_first();
        lemma_first_smaller(a);
        assert(c[0] == a[0]);
        assert(c.drop_first() =~= a1 + b);
        match a[0] {
            GlobSeg::Literal(l) => {
                let n = l.len() as int;
                lemma_step_concat(a, b, cs, n);
            },
            GlobSeg::Question => {
                lemma_step_concat(a, b, cs, 1);
            },
            GlobSeg::Class(_, _) => {
                lemma_step_concat(a, b, cs, 1);
            },
            GlobSeg::Star => {
                if seq_matches(c, cs) {
                    let j = choose|j: int| #![trigger cs.skip(j)] 0 <= j <= cs.len() && seq_matches(a1 + b, cs.skip(j));
                    lemma_seq_concat(a1, b, cs.skip(j));
                    let t = cs.skip(j);
                    let k1 = choose|k: int| #![trigger t.take(k)] 0 <= k <= t.len() && seq_matches(a1, t.take(k)) && seq_matches(b, t.skip(k));
                    let k = j + k1;
                    assert(cs.take(k).skip(j) =~= t.take(k1));
                    assert(cs.skip(k) =~= t.skip(k1));
                    assert(seq_matches(a, cs.take(k)));
                }
                if exists|k: int| #![trigger cs.take(k)] 0 <= k <= cs.len() && seq_matches(a, cs.take(k)) && seq_matches(b, cs.skip(k)) {
                    let k = choose|k: int| #![trigger cs.take(k)] 0 <= k <= cs.len() && seq_matches(a, cs.take(k)) && seq_matches(b, cs.skip(k));
                    let w = cs.take(k);
                    let j = choose|j: int| #![trigger w.skip(j)] 0 <= j <= w.len() && seq_matches(a1, w.skip(j));
                    let t = cs.skip(j);
                    assert(w.skip(j) =~= t.take(k - j));
                    assert(t.skip(k - j) =~= cs.skip(k));
                    lemma_seq_concat(a1, b, t);
                    assert(t.take(k - j) == w.skip(j));
                    assert(seq_matches(a1 + b, cs.skip(j)));
                }
            },
            GlobSeg::Alt(bs) => {
                lemma_alt_smaller(a);
                if seq_matches(c, cs) {
                    let i = lemma_alt_match_elim(c, cs);
                    assert(c[0]->Alt_0 == bs);
                    assert(bs[i] + (a1 + b) =~= (bs[i] + a1) + b);
                    lemma_seq_concat(bs[i] + a1, b, cs);
                    let k = choose|k: int| #![trigger cs.take(k)] 0 <= k <= cs.len() && seq_matches(bs[i] + a1, cs.take(k)) && seq_matches(b, cs.skip(k));
                    lemma_alt_match_intro(a, cs.take(k), i);
                }
                if exists|k: int| #![trigger cs.take(k)] 0 <= k <= cs.len() && seq_matches(a, cs.take(k)) && seq_matches(b, cs.skip(k)) {
                    let k = choose|k: int| #![trigger cs.take(k)] 0 <= k <= cs.len() && seq_matches(a, cs.take(k)) && seq_matches(b, cs.skip(k));
                    let i = lemma_alt_match_elim(a, cs.take(k));
                    lemma_seq_concat(bs[i] + a1, b, cs);
                    assert(bs[i] + (a1 + b) =~= (bs[i] + a1) + b);
                    lemma_alt_match_intro(c, cs, i);
                }
            },
            _ => {},
        }
    }
}

/// The concatenation step for a first segment that reads exactly `n` characters and then
/// leaves the rest to the following segments.
proof fn lemma_step_concat(a: Seq<GlobSeg>, b: Seq<GlobSeg>, cs: Seq<char>, n: int)
    requires
        a.len() > 0,
        n >= 0,
        a[0] is Literal ==> n == a[0]->Literal_0.len(),
        a[0] is Question || a[0] is Class ==> n == 1,
        a[0] is Literal || a[0] is Question || a[0] is Class,
    ensures
        seq_matches(a + b, cs) == exists|k: int|
            #![trigger cs.take(k)]
            0 <= k <= cs.len() && seq_matches(a, cs.take(k)) && seq_matches(b, cs.skip(k)),
    decreases seq_size(a), 0int,
{
    let c = a + b;
    let a1 = a.drop_first();
    lemma_first_smaller(a);
    assert(c[0] == a[0]);
    assert(c.drop_first() =~= a1 + b);
    if seq_matches(c, cs) {
        assert(n <= cs.len());
        lemma_seq_concat(a1, b, cs.skip(n));
        let t = cs.skip(n);
        let k1 = choose|k: int| #![trigger t.take(k)] 0 <= k <= t.len() && seq_matches(a1, t.take(k)) && seq_matches(b, t.skip(k));
        let k = n + k1;
        let w = cs.take(k);
        assert(w.skip(n) =~= t.take(k1));
        assert(cs.skip(k) =~= t.skip(k1));
        assert(w.take(n) =~= cs.take(n));
        if n > 0 {
            assert(w[0] == cs[0]);
        }
        assert(seq_matches(a, w));
    }
    if exists|k: int| #![trigger cs.take(k)] 0 <= k <= cs.len() && seq_matches(a, cs.take(k)) && seq_matches(b, cs.skip(k)) {
        let k = choose|k: int| #![trigger cs.take(k)] 0 <= k <= cs.len() && seq_matches(a, cs.take(k)) && seq_matches(b, cs.skip(k));
        let w = cs.take(k);
        assert(n <= k);
        assert(w.take(n) =~= cs.take(n));
        if n > 0 {
            assert(w[0] == cs[0]);
        }
        let t = cs.skip(n);
        assert(w.skip(n) =~= t.take(k - n));
        assert(t.skip(k - n) =~= cs.skip(k));
        lemma_seq_concat(a1, b, t);
        assert(t.take(k - n) == w.skip(n));
        assert(seq_matches(a1 + b, cs.skip(n)));
    }
}


/// What one segment on its own matches: a literal exactly its text, `*` any text, `?` and a
/// class exactly one admitted character, an alternation what one of its branches matches,
/// and `/` or `**` inside a component nothing.
pub proof fn lemma_single_segment(x: GlobSeg, w: Seq<char>)
    ensures
        seq_matches(seq![x], w) == match x {
            GlobSeg::Literal(l) => w == l,
            GlobSeg::Star => true,
            GlobSeg::Question => w.len() == 1,
            GlobSeg::Class(negated, items) => w.len() == 1 && class_hit(negated, items, w[0]),
            GlobSeg::Alt(bs) => exists|i: int| 0 <= i < bs.len() && seq_matches(#[trigger] bs[i], w),
            GlobSeg::Slash => false,
            GlobSeg::DoubleStar => false,
        },
{
    let a = seq![x];
    let e = Seq::<GlobSeg>::empty();
    assert(a.drop_first() =~= e);
    assert(a[0] == x);
    assert forall|t: Seq<char>| #[trigger] seq_matches(e, t) == (t.len() == 0) by {}
    match x {
        GlobSeg::Literal(l) => {
            assert(seq_matches(e, w.skip(l.len() as int)) == (w.skip(l.len() as int).len() == 0));
            if seq_matches(a, w) {
                assert(seq_matches(a.drop_first(), w.skip(l.len() as int)));
                assert(w.skip(l.len() as int).len() == 0);
                assert(w =~= w.take(l.len() as int));
            }
            if w == l {
                assert(w.take(l.len() as int) =~= w);
                assert(w.skip(l.len() as int).len() == 0);
            }
            assert(seq_matches(a, w) == (w == l));
        },
        GlobSeg::Question => {
            assert(seq_matches(a, w) == (w.len() > 0 && seq_matches(a.drop_first(), w.skip(1))));
            if w.len() > 0 {
                assert(w.skip(1).len() == w.len() - 1);
                assert(seq_matches(e, w.skip(1)) == (w.skip(1).len() == 0));
            }
            assert(seq_matches(a, w) == (w.len() == 1));
        },
        GlobSeg::Class(negated, items) => {
            assert(seq_matches(a, w) == (w.len() > 0 && class_hit(negated, items, w[0]) && seq_matches(
                a.drop_first(),
                w.skip(1),
            )));
            if w.len() > 0 {
                assert(w.skip(1).len() == w.len() - 1);
                assert(seq_matches(e, w.skip(1)) == (w.skip(1).len() == 0));
            }
        },
        GlobSeg::Star => {
            assert(w.skip(w.len() as int).len() == 0);
            assert(seq_matches(e, w.skip(w.len() as int)));
            assert(seq_matches(a, w));
        },
        GlobSeg::Alt(bs) => {
            assert forall|i: int| 0 <= i < bs.len() implies #[trigger] (bs[i] + e) == bs[i] by {
                assert(bs[i] + e =~= bs[i]);
            }
            if seq_matches(a, w) {
                let i = lemma_alt_match_elim(a, w);
                assert(bs[i] + e == bs[i]);
            }
            if exists|i: int| 0 <= i < bs.len() && seq_matches(#[trigger] bs[i], w) {
                let i = choose|i: int| 0 <= i < bs.len() && seq_matches(#[trigger] bs[i], w);
                assert(bs[i] + e == bs[i]);
                lemma_alt_match_intro(a, w, i);
            }
        },
        _ => {},
    }
}

/// Matching components one after the other: `p1 + p2` matches the path components `q`
/// exactly when `q` cuts into a first block that `p1` matches and a rest that `p2` matches.
pub proof fn lemma_comps_concat_iff(p1: Seq<Seq<GlobSeg>>, p2: Seq<Seq<GlobSeg>>, q: Seq<Seq<char>>)
    ensures
        comps_matches(p1 + p2, q) == exists|k: int|
            #![trigger q.take(k)]
            0 <= k <= q.len() && comps_matches(p1, q.take(k)) && comps_matches(p2, q.skip(k)),
    decreases p1.len(),
{
    let c = p1 + p2;
    if p1.len() == 0 {
        assert(c =~= p2);
        if comps_matches(c, q) {
            assert(q.take(0) =~= Seq::<Seq<char>>::empty());
            assert(q.skip(0) =~= q);
            assert(comps_matches(p1, q.take(0)));
        }
        if exists|k: int| #![trigger q.take(k)] 0 <= k <= q.len() && comps_matches(p1, q.take(k)) && comps_matches(p2, q.skip(k)) {
            let k = choose|k: int| #![trigger q.take(k)] 0 <= k <= q.len() && comps_matches(p1, q.take(k)) && comps_matches(p2, q.skip(k));
            assert(q.take(k).len() == 0);
            assert(q.skip(k) =~= q);
        }
    } else {
        let r = p1.drop_first();
        assert(c[0] == p1[0]);
        assert(c.drop_first() =~= r + p2);
        if is_double_star_component(p1[0]) {
            if comps_matches(c, q) {
                let j = choose|j: int| #![trigger q.skip(j)] 0 <= j <= q.len() && comps_matches(r + p2, q.skip(j));
                let t = q.skip(j);
                lemma_comps_concat_iff(r, p2, t);
                let k1 = choose|k: int| #![trigger t.take(k)] 0 <= k <= t.len() && comps_matches(r, t.take(k)) && comps_matches(p2, t.skip(k));
                let k = j + k1;
                assert(q.take(k).skip(j) =~= t.take(k1));
                assert(q.skip(k) =~= t.skip(k1));
                assert(comps_matches(p1, q.take(k)));
            }
            if exists|k: int| #![trigger q.take(k)] 0 <= k <= q.len() && comps_matches(p1, q.take(k)) && comps_matches(p2, q.skip(k)) {
                let k = choose|k: int| #![trigger q.take(k)] 0 <= k <= q.len() && comps_matches(p1, q.take(k)) && comps_matches(p2, q.skip(k));
                let w = q.take(k);
                let j = choose|j: int| #![trigger w.skip(j)] 0 <= j <= w.len() && comps_matches(r, w.skip(j));
                let t = q.skip(j);
                assert(w.skip(j) =~= t.take(k - j));
                assert(t.skip(k - j) =~= q.skip(k));
                lemma_comps_concat_iff(r, p2, t);
                assert(t.take(k - j) == w.skip(j));
                assert(comps_matches(r + p2, q.skip(j)));
            }
        } else {
            if comps_matches(c, q) {
                let t = q.drop_first();
                lemma_comps_concat_iff(r, p2, t);
                let k1 = choose|k: int| #![trigger t.take(k)] 0 <= k <= t.len() && comps_matches(r, t.take(k)) && comps_matches(p2, t.skip(k));
                let k = 1 + k1;
                let w = q.take(k);
                assert(w[0] == q[0]);
                assert(w.drop_first() =~= t.take(k1));
                assert(q.skip(k) =~= t.skip(k1));
                assert(comps_matches(p1, w));
            }
            if exists|k: int| #![trigger q.take(k)] 0 <= k <= q.len() && comps_matches(p1, q.take(k)) && comps_matches(p2, q.skip(k)) {
                let k = choose|k: int| #![trigger q.take(k)] 0 <= k <= q.len() && comps_matches(p1, q.take(k)) && comps_matches(p2, q.skip(k));
                let w = q.take(k);
                assert(k >= 1);
                assert(w[0] == q[0]);
                let t = q.drop_first();
                assert(w.drop_first() =~= t.take(k - 1));
                assert(t.skip(k - 1) =~= q.skip(k));
                lemma_comps_concat_iff(r, p2, t);
                assert(t.take(k - 1) == w.drop_first());
                assert(comps_matches(r + p2, q.drop_first()));
            }
        }
    }
}

/// What one component on its own matches: `**` any run of path components, and any other
/// component exactly one path component that it matches.
pub proof fn lemma_single_component(comp: Seq<GlobSeg>, q: Seq<Seq<char>>)
    ensures
        comps_matches(seq![comp], q) == if is_double_star_component(comp) {
            true
        } else {
            q.len() == 1 && seq_matches(comp, q[0])
        },
{
    let p = seq![comp];
    let e = Seq::<Seq<GlobSeg>>::empty();
    assert(p.drop_first() =~= e);
    assert(p[0] == comp);
    assert forall|t: Seq<Seq<char>>| #[trigger] comps_matches(e, t) == (t.len() == 0) by {}
    if is_double_star_component(comp) {
        assert(q.skip(q.len() as int).len() == 0);
        assert(comps_matches(e, q.skip(q.len() as int)));
    } else {
        if comps_matches(p, q) {
            assert(comps_matches(p.drop_first(), q.drop_first()));
            assert(q.drop_first().len() == 0);
        }
        if q.len() == 1 && seq_matches(comp, q[0]) {
            assert(q.drop_first().len() == 0);
            assert(comps_matches(e, q.drop_first()));
        }
    }
}

} // verus!
