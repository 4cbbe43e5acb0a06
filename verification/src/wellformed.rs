use vstd::prelude::*;
use crate::model::GlobSeg;
use crate::semantics::{
    seq_size,
    seq_stuck,
    seq_matches,
    split_on,
    is_double_star_component,
    comps_stuck,
    lemma_first_smaller,
    lemma_alt_smaller,
};
use crate::grammar::{
    violation_at,
    violation_in_branches,
    chain_len,
    lemma_chain_len,
    normalize_from,
    normalize_branches,
};

verus! {

/// The rules at index `i`: a `**` is bounded on both sides by an end or a `/`, and a `/`
/// is not followed by another `/`.
pub open spec fn ok_at(s: Seq<GlobSeg>, i: int) -> bool {
    &&& s[i] is DoubleStar ==> (i == 0 || s[i - 1] == GlobSeg::Slash) && (i + 1 == s.len() || s[i + 1]
        == GlobSeg::Slash)
    &&& s[i] is Slash ==> !(i + 1 < s.len() && s[i + 1] == GlobSeg::Slash)
}

/// Every index of `s`, and of every alternation branch inside it, keeps the rules.
pub open spec fn well_formed(s: Seq<GlobSeg>) -> bool
    decreases s,
{
    forall|i: int|
        #![trigger s[i]]
        0 <= i < s.len() ==> ok_at(s, i) && (s[i] is Alt ==> forall|j: int|
            #![trigger s[i]->Alt_0[j]]
            0 <= j < s[i]->Alt_0.len() ==> well_formed(s[i]->Alt_0[j]))
}

/// No `**` is followed by `/` `**`, at any nesting level.
pub open spec fn chain_free(s: Seq<GlobSeg>) -> bool
    decreases s,
{
    forall|i: int|
        #![trigger s[i]]
        0 <= i < s.len() ==> !(s[i] is DoubleStar && i + 2 < s.len() && s[i + 1] == GlobSeg::Slash && s[i
            + 2] is DoubleStar) && (s[i] is Alt ==> forall|j: int|
            #![trigger s[i]->Alt_0[j]]
            0 <= j < s[i]->Alt_0.len() ==> chain_free(s[i]->Alt_0[j]))
}


/// The rules at index `k`, including every branch of an alternation there.
pub open spec fn wf_item(s: Seq<GlobSeg>, k: int) -> bool {
    ok_at(s, k) && (s[k] is Alt ==> forall|j: int|
        #![trigger s[k]->Alt_0[j]]
        0 <= j < s[k]->Alt_0.len() ==> well_formed(s[k]->Alt_0[j]))
}

/// `well_formed` holds exactly when every index keeps the rules.
pub proof fn lemma_well_formed_items(s: Seq<GlobSeg>)
    ensures
        well_formed(s) == (forall|k: int| 0 <= k < s.len() ==> #[trigger] wf_item(s, k)),
{
    if well_formed(s) {
        assert forall|k: int| 0 <= k < s.len() implies #[trigger] wf_item(s, k) by {
            assert(s[k] == s[k]);
        }
    }
    if forall|k: int| 0 <= k < s.len() ==> #[trigger] wf_item(s, k) {
        assert forall|k: int| #![trigger s[k]] 0 <= k < s.len() implies ok_at(s, k) && (s[k] is Alt
            ==> forall|j: int|
            #![trigger s[k]->Alt_0[j]]
            0 <= j < s[k]->Alt_0.len() ==> well_formed(s[k]->Alt_0[j])) by {
            assert(wf_item(s, k));
        }
    }
}

/// No rule is broken from index `i` on exactly when every index from `i` on keeps the rules.
pub proof fn lemma_violation_at(s: Seq<GlobSeg>, i: int)
    requires
        0 <= i <= s.len(),
    ensures
        (violation_at(s, i) is None) == (forall|k: int| i <= k < s.len() ==> #[trigger] wf_item(s, k)),
    decreases s, s.len() - i,
{
    if i < s.len() {
        lemma_violation_at(s, i + 1);
        if s[i] is Alt {
            let bs = s[i]->Alt_0;
            assert(decreases_to!(s => s[i]));
            lemma_violation_branches(bs, 0);
        }
        if violation_at(s, i) is None {
            assert forall|k: int| i <= k < s.len() implies #[trigger] wf_item(s, k) by {
                if k == i {
                }
            }
        }
        if forall|k: int| i <= k < s.len() ==> #[trigger] wf_item(s, k) {
            assert(wf_item(s, i));
            assert forall|k: int| i + 1 <= k < s.len() implies #[trigger] wf_item(s, k) by {
            }
        }
    }
}

/// No branch from index `j` on breaks a rule exactly when all of them are well formed.
pub proof fn lemma_violation_branches(bs: Seq<Seq<GlobSeg>>, j: int)
    requires
        0 <= j <= bs.len(),
    ensures
        (violation_in_branches(bs, j) is None) == (forall|k: int| j <= k < bs.len() ==> #[trigger] well_formed(bs[k])),
    decreases bs, bs.len() - j,
{
    if j < bs.len() {
        lemma_violation_at(bs[j], 0);
        lemma_well_formed_items(bs[j]);
        lemma_violation_branches(bs, j + 1);
        if forall|k: int| j <= k < bs.len() ==> #[trigger] well_formed(bs[k]) {
            assert(well_formed(bs[j]));
        }
    }
}

/// A sequence passes validation exactly when it is well formed.
pub proof fn lemma_valid_iff_well_formed(s: Seq<GlobSeg>)
    ensures
        (violation_at(s, 0) is None) == well_formed(s),
{
    lemma_violation_at(s, 0);
    lemma_well_formed_items(s);
}


/// What normalisation makes of one segment: an alternation gets normalised branches.
pub open spec fn nseg(x: GlobSeg) -> GlobSeg {
    match x {
        GlobSeg::Alt(bs) => GlobSeg::Alt(normalize_branches(bs, 0)),
        other => other,
    }
}

/// The index normalisation continues from after index `i`: past any `/` `**` pairs that
/// follow a `**`.
pub open spec fn next_index(s: Seq<GlobSeg>, i: int) -> int {
    if s[i] is DoubleStar {
        i + 1 + 2 * chain_len(s, i + 1)
    } else {
        i + 1
    }
}

/// One step of normalisation at index `i`.
pub proof fn lemma_norm_step(s: Seq<GlobSeg>, i: int)
    requires
        0 <= i < s.len(),
    ensures
        i < next_index(s, i) <= s.len(),
        normalize_from(s, i) == seq![nseg(s[i])] + normalize_from(s, next_index(s, i)),
{
    lemma_chain_len(s, i + 1);
}

/// The chain of `/` `**` pairs from `j` on, pair by pair.
pub proof fn lemma_chain_shape(s: Seq<GlobSeg>, j: int)
    requires
        0 <= j <= s.len(),
    ensures
        j + 2 * chain_len(s, j) <= s.len(),
        forall|m: int|
            0 <= m < chain_len(s, j) ==> s[j + 2 * m] == GlobSeg::Slash && #[trigger] s[j + 2 * m + 1]
                == GlobSeg::DoubleStar,
        !(j + 2 * chain_len(s, j) + 1 < s.len() && s[j + 2 * chain_len(s, j)] == GlobSeg::Slash && s[j + 2
            * chain_len(s, j) + 1] == GlobSeg::DoubleStar),
    decreases s.len() - j,
{
    lemma_chain_len(s, j);
    if j + 1 < s.len() && s[j] == GlobSeg::Slash && s[j + 1] == GlobSeg::DoubleStar {
        lemma_chain_shape(s, j + 2);
        assert forall|m: int| 0 <= m < chain_len(s, j) implies s[j + 2 * m] == GlobSeg::Slash && #[trigger] s[j
            + 2 * m + 1] == GlobSeg::DoubleStar by {
            if m > 0 {
                assert(s[(j + 2) + 2 * (m - 1) + 1] == GlobSeg::DoubleStar);
                assert((j + 2) + 2 * (m - 1) == j + 2 * m);
            }
        }
    }
}

/// The segment just before where normalisation continues after a `**` is itself a `**`.
pub proof fn lemma_before_next_is_double_star(s: Seq<GlobSeg>, i: int)
    requires
        0 <= i < s.len(),
        s[i] is DoubleStar,
    ensures
        s[next_index(s, i) - 1] is DoubleStar,
{
    lemma_chain_shape(s, i + 1);
    let c = chain_len(s, i + 1);
    if c > 0 {
        assert(s[(i + 1) + 2 * (c - 1) + 1] == GlobSeg::DoubleStar);
        assert((i + 1) + 2 * (c - 1) + 1 == next_index(s, i) - 1);
    }
}

/// Normalised branches, one by one.
pub proof fn lemma_norm_branches(bs: Seq<Seq<GlobSeg>>, j: int)
    requires
        0 <= j <= bs.len(),
    ensures
        normalize_branches(bs, j).len() == bs.len() - j,
        forall|k: int| 0 <= k < bs.len() - j ==> #[trigger] normalize_branches(bs, j)[k] == normalize_from(bs[j + k], 0),
    decreases bs.len() - j,
{
    if j < bs.len() {
        lemma_norm_branches(bs, j + 1);
        assert forall|k: int| 0 <= k < bs.len() - j implies #[trigger] normalize_branches(bs, j)[k] == normalize_from(bs[j + k], 0) by {
            if k > 0 {
                assert(normalize_branches(bs, j)[k] == normalize_branches(bs, j + 1)[k - 1]);
                assert(j + k == (j + 1) + (k - 1));
            }
        }
    }
}

/// Normalising a well-formed sequence, from any index, gives a well-formed sequence.
pub proof fn lemma_norm_well_formed(s: Seq<GlobSeg>, i: int)
    requires
        well_formed(s),
        0 <= i <= s.len(),
    ensures
        well_formed(normalize_from(s, i)),
    decreases s, s.len() - i,
{
    lemma_well_formed_items(s);
    if i == s.len() {
        let n = normalize_from(s, i);
        assert(n =~= Seq::<GlobSeg>::empty());
        lemma_well_formed_items(n);
    } else {
        lemma_norm_step(s, i);
        let j = next_index(s, i);
        lemma_norm_well_formed(s, j);
        let n = normalize_from(s, j);
        let x = nseg(s[i]);
        let c = seq![x] + n;
        lemma_well_formed_items(n);
        lemma_well_formed_items(c);
        assert(wf_item(s, i));
        if j < s.len() {
            lemma_norm_step(s, j);
            assert(n[0] == nseg(s[j]));
            assert(wf_item(s, j));
        } else {
            assert(n =~= Seq::<GlobSeg>::empty());
        }
        if s[i] is DoubleStar {
            lemma_before_next_is_double_star(s, i);
            assert(wf_item(s, j - 1));
        }
        if s[i] is Alt {
            let bs = s[i]->Alt_0;
            lemma_norm_branches(bs, 0);
            assert forall|k: int| 0 <= k < bs.len() implies well_formed(#[trigger] normalize_branches(bs, 0)[k]) by {
                assert(decreases_to!(s => s[i]));
                assert(bs[0 + k] == bs[k]);
                assert(well_formed(bs[k]));
                lemma_norm_well_formed(bs[k], 0);
            }
        }
        assert forall|k: int| 0 <= k < c.len() implies #[trigger] wf_item(c, k) by {
            if k == 0 {
            } else if k == 1 {
                assert(wf_item(n, 0));
                if n[0] is DoubleStar {
                    if s[i] is DoubleStar {
                        assert(wf_item(s, j - 1));
                    } else {
                        assert(j == i + 1);
                    }
                }
            } else {
                assert(wf_item(n, k - 1));
                assert(c[k] == n[k - 1]);
                assert(c[k - 1] == n[k - 2]);
                if k + 1 < c.len() {
                    assert(c[k + 1] == n[k]);
                }
            }
        }
    }
}


/// No `**` `/` `**` at index `k`, and every branch of an alternation there is chain free.
pub open spec fn cf_item(s: Seq<GlobSeg>, k: int) -> bool {
    !(s[k] is DoubleStar && k + 2 < s.len() && s[k + 1] == GlobSeg::Slash && s[k + 2] is DoubleStar) && (
    s[k] is Alt ==> forall|j: int|
        #![trigger s[k]->Alt_0[j]]
        0 <= j < s[k]->Alt_0.len() ==> chain_free(s[k]->Alt_0[j]))
}

/// `chain_free` holds exactly when every index satisfies `cf_item`.
pub proof fn lemma_chain_free_items(s: Seq<GlobSeg>)
    ensures
        chain_free(s) == (forall|k: int| 0 <= k < s.len() ==> #[trigger] cf_item(s, k)),
{
    if chain_free(s) {
        assert forall|k: int| 0 <= k < s.len() implies #[trigger] cf_item(s, k) by {
            assert(s[k] == s[k]);
        }
    }
    if forall|k: int| 0 <= k < s.len() ==> #[trigger] cf_item(s, k) {
        assert forall|k: int|
            #![trigger s[k]]
            0 <= k < s.len() implies !(s[k] is DoubleStar && k + 2 < s.len() && s[k + 1] == GlobSeg::Slash
            && s[k + 2] is DoubleStar) && (s[k] is Alt ==> forall|j: int|
            #![trigger s[k]->Alt_0[j]]
            0 <= j < s[k]->Alt_0.len() ==> chain_free(s[k]->Alt_0[j])) by {
            assert(cf_item(s, k));
        }
    }
}

/// Normalisation leaves no `**` followed by `/` `**`, at any level.
pub proof fn lemma_norm_chain_free(s: Seq<GlobSeg>, i: int)
    requires
        0 <= i <= s.len(),
    ensures
        chain_free(normalize_from(s, i)),
    decreases s, s.len() - i,
{
    if i == s.len() {
        let n = normalize_from(s, i);
        assert(n =~= Seq::<GlobSeg>::empty());
        lemma_chain_free_items(n);
    } else {
        lemma_norm_step(s, i);
        let j = next_index(s, i);
        lemma_norm_chain_free(s, j);
        let n = normalize_from(s, j);
        let x = nseg(s[i]);
        let c = seq![x] + n;
        lemma_chain_free_items(n);
        lemma_chain_free_items(c);
        if s[i] is Alt {
            let bs = s[i]->Alt_0;
            lemma_norm_branches(bs, 0);
            assert forall|k: int| 0 <= k < bs.len() implies chain_free(#[trigger] normalize_branches(bs, 0)[k]) by {
                assert(decreases_to!(s => s[i]));
                assert(bs[0 + k] == bs[k]);
                lemma_norm_chain_free(bs[k], 0);
            }
        }
        if s[i] is DoubleStar && j + 1 < s.len() {
            lemma_chain_shape(s, i + 1);
            lemma_norm_step(s, j);
            if s[j] == GlobSeg::Slash {
                lemma_norm_step(s, j + 1);
                assert(n[1] == nseg(s[j + 1]));
            }
        }
        assert forall|k: int| 0 <= k < c.len() implies #[trigger] cf_item(c, k) by {
            if k == 0 {
                if x is DoubleStar && 2 < c.len() && c[1] == GlobSeg::Slash {
                    assert(s[i] is DoubleStar);
                    assert(j < s.len());
                    lemma_norm_step(s, j);
                    assert(n[0] == nseg(s[j]));
                    assert(s[j] == GlobSeg::Slash);
                }
            } else {
                assert(cf_item(n, k - 1));
                assert(c[k] == n[k - 1]);
                if k + 2 < c.len() {
                    assert(c[k + 1] == n[k] && c[k + 2] == n[k + 1]);
                }
            }
        }
    }
}

/// Normalising a sequence with no `**` `/` `**` chains, at any level, changes nothing.
pub proof fn lemma_norm_fixed(s: Seq<GlobSeg>, i: int)
    requires
        chain_free(s),
        0 <= i <= s.len(),
    ensures
        normalize_from(s, i) == s.skip(i),
    decreases s, s.len() - i,
{
    lemma_chain_free_items(s);
    if i == s.len() {
        assert(s.skip(i) =~= Seq::<GlobSeg>::empty());
    } else {
        lemma_norm_step(s, i);
        assert(cf_item(s, i));
        if s[i] is DoubleStar {
            if i + 2 < s.len() {
                assert(!(s[i + 1] == GlobSeg::Slash && s[i + 2] == GlobSeg::DoubleStar));
            }
            assert(chain_len(s, i + 1) == 0);
        }
        lemma_norm_fixed(s, next_index(s, i));
        if s[i] is Alt {
            let bs = s[i]->Alt_0;
            lemma_norm_branches(bs, 0);
            assert forall|k: int| 0 <= k < bs.len() implies #[trigger] normalize_branches(bs, 0)[k] == bs[k] by {
                assert(decreases_to!(s => s[i]));
                assert(bs[0 + k] == bs[k]);
                lemma_norm_fixed(bs[k], 0);
                assert(bs[k].skip(0) =~= bs[k]);
            }
            assert(normalize_branches(bs, 0) =~= bs);
        }
        assert(nseg(s[i]) == s[i]);
        assert(s.skip(i) =~= seq![s[i]] + s.skip(i + 1));
    }
}


/// No `/` and no `**` anywhere in `s`, nested alternations included.
pub open spec fn flat(s: Seq<GlobSeg>) -> bool
    decreases s,
{
    forall|i: int|
        #![trigger s[i]]
        0 <= i < s.len() ==> !(s[i] is Slash) && !(s[i] is DoubleStar) && (s[i] is Alt ==> forall|j: int|
            #![trigger s[i]->Alt_0[j]]
            0 <= j < s[i]->Alt_0.len() ==> flat(s[i]->Alt_0[j]))
}

/// Every alternation in `s` (not nested in another) has only flat branches.
pub open spec fn alternations_flat(s: Seq<GlobSeg>) -> bool {
    forall|i: int|
        #![trigger s[i]]
        0 <= i < s.len() && s[i] is Alt ==> forall|j: int|
            #![trigger s[i]->Alt_0[j]]
            0 <= j < s[i]->Alt_0.len() ==> flat(s[i]->Alt_0[j])
}

/// Index `i` holds no `/` or `**`, and every branch of an alternation there is flat.
pub open spec fn flat_item(s: Seq<GlobSeg>, i: int) -> bool {
    !(s[i] is Slash) && !(s[i] is DoubleStar) && (s[i] is Alt ==> forall|j: int|
        #![trigger s[i]->Alt_0[j]]
        0 <= j < s[i]->Alt_0.len() ==> flat(s[i]->Alt_0[j]))
}

/// `flat` holds exactly when every index satisfies `flat_item`.
pub proof fn lemma_flat_items(s: Seq<GlobSeg>)
    ensures
        flat(s) == (forall|i: int| 0 <= i < s.len() ==> #[trigger] flat_item(s, i)),
{
    if flat(s) {
        assert forall|i: int| 0 <= i < s.len() implies #[trigger] flat_item(s, i) by {
            assert(s[i] == s[i]);
        }
    }
    if forall|i: int| 0 <= i < s.len() ==> #[trigger] flat_item(s, i) {
        assert forall|i: int|
            #![trigger s[i]]
            0 <= i < s.len() implies !(s[i] is Slash) && !(s[i] is DoubleStar) && (s[i] is Alt ==> forall|j: int|
            #![trigger s[i]->Alt_0[j]]
            0 <= j < s[i]->Alt_0.len() ==> flat(s[i]->Alt_0[j])) by {
            assert(flat_item(s, i));
        }
    }
}

/// Concatenating flat sequences gives a flat sequence.
pub proof fn lemma_flat_concat(a: Seq<GlobSeg>, b: Seq<GlobSeg>)
    requires
        flat(a),
        flat(b),
    ensures
        flat(a + b),
{
    lemma_flat_items(a);
    lemma_flat_items(b);
    lemma_flat_items(a + b);
    assert forall|i: int| 0 <= i < (a + b).len() implies #[trigger] flat_item(a + b, i) by {
        if i < a.len() {
            assert(flat_item(a, i));
            assert((a + b)[i] == a[i]);
        } else {
            assert(flat_item(b, i - a.len()));
            assert((a + b)[i] == b[i - a.len()]);
        }
    }
}

/// Matching a flat sequence never reaches a `/` or `**`.
pub proof fn lemma_flat_not_stuck(segs: Seq<GlobSeg>, cs: Seq<char>)
    requires
        flat(segs),
    ensures
        !seq_stuck(segs, cs),
    decreases seq_size(segs),
{
    if segs.len() > 0 {
        lemma_flat_items(segs);
        assert(flat_item(segs, 0));
        let rest = segs.drop_first();
        lemma_flat_items(rest);
        assert forall|i: int| 0 <= i < rest.len() implies #[trigger] flat_item(rest, i) by {
            assert(flat_item(segs, i + 1));
            assert(rest[i] == segs[i + 1]);
        }
        lemma_first_smaller(segs);
        match segs[0] {
            GlobSeg::Alt(bs) => {
                lemma_alt_smaller(segs);
                assert forall|i: int| #![trigger bs[i]] 0 <= i < bs.len() implies !seq_stuck(bs[i] + rest, cs) by {
                    lemma_flat_concat(bs[i], rest);
                    lemma_flat_not_stuck(bs[i] + rest, cs);
                }
            },
            GlobSeg::Star => {
                assert forall|k: int| #![trigger cs.skip(k)] 0 <= k <= cs.len() implies !seq_stuck(rest, cs.skip(k)) by {
                    lemma_flat_not_stuck(rest, cs.skip(k));
                }
            },
            GlobSeg::Literal(l) => {
                lemma_flat_not_stuck(rest, cs.skip(l.len() as int));
            },
            _ => {
                lemma_flat_not_stuck(rest, cs.skip(1));
            },
        }
    }
}


/// A pattern component that is flat or a lone `**`.
pub open spec fn piece_ok(c: Seq<GlobSeg>) -> bool {
    flat(c) || c == seq![GlobSeg::DoubleStar]
}

/// Dropping the last segment keeps well-formedness of the remaining indices.
proof fn lemma_drop_last_keeps(s: Seq<GlobSeg>)
    requires
        s.len() > 0,
        well_formed(s),
        alternations_flat(s),
    ensures
        well_formed(s.drop_last()),
        alternations_flat(s.drop_last()),
{
    let t = s.drop_last();
    lemma_well_formed_items(s);
    lemma_well_formed_items(t);
    assert forall|k: int| 0 <= k < t.len() implies #[trigger] wf_item(t, k) by {
        assert(wf_item(s, k));
        assert(t[k] == s[k]);
        if k > 0 {
            assert(t[k - 1] == s[k - 1]);
        }
        if k + 1 < t.len() {
            assert(t[k + 1] == s[k + 1]);
        }
    }
    assert forall|i: int| #![trigger t[i]] 0 <= i < t.len() && t[i] is Alt implies forall|j: int|
        #![trigger t[i]->Alt_0[j]]
        0 <= j < t[i]->Alt_0.len() ==> flat(t[i]->Alt_0[j]) by {
        assert(t[i] == s[i]);
    }
}

/// The components of a well-formed pattern whose alternations are flat are each flat or a
/// lone `**`.
pub proof fn lemma_pieces_ok(s: Seq<GlobSeg>)
    requires
        well_formed(s),
        alternations_flat(s),
    ensures
        forall|k: int| 0 <= k < split_on(s, GlobSeg::Slash).len() ==> piece_ok(#[trigger] split_on(s, GlobSeg::Slash)[k]),
        split_on(s, GlobSeg::Slash).last() == seq![GlobSeg::DoubleStar] ==> s.len() > 0 && s.last() is DoubleStar,
    decreases s.len(),
{
    let p = split_on(s, GlobSeg::Slash);
    crate::semantics::lemma_split_on_nonempty(s, GlobSeg::Slash);
    if s.len() == 0 {
        assert(p =~= seq![Seq::<GlobSeg>::empty()]);
        lemma_flat_items(p[0]);
    } else {
        let t = s.drop_last();
        let x = s.last();
        lemma_drop_last_keeps(s);
        lemma_pieces_ok(t);
        crate::semantics::lemma_split_on_nonempty(t, GlobSeg::Slash);
        let q = split_on(t, GlobSeg::Slash);
        lemma_well_formed_items(s);
        let n = s.len() - 1;
        assert(wf_item(s, n));
        assert(s[n] == x);
        if x == GlobSeg::Slash {
            assert(p == q.push(Seq::empty()));
            lemma_flat_items(Seq::<GlobSeg>::empty());
            assert forall|k: int| 0 <= k < p.len() implies piece_ok(#[trigger] p[k]) by {
                if k < q.len() {
                    assert(p[k] == q[k]);
                }
            }
        } else {
            let l = q.last();
            assert(p == q.update(q.len() - 1, l.push(x)));
            if x is DoubleStar {
                if n == 0 {
                    assert(t =~= Seq::<GlobSeg>::empty());
                    assert(q =~= seq![Seq::<GlobSeg>::empty()]);
                } else {
                    assert(s[n - 1] == GlobSeg::Slash);
                    assert(t.last() == s[n - 1]);
                    assert(q == split_on(t.drop_last(), GlobSeg::Slash).push(Seq::empty()));
                }
                assert(l =~= Seq::<GlobSeg>::empty());
                assert(l.push(x) =~= seq![GlobSeg::DoubleStar]);
            } else {
                if l == seq![GlobSeg::DoubleStar] {
                    assert(t.last() is DoubleStar);
                    assert(wf_item(s, n - 1));
                    assert(s[n - 1] == t.last());
                    assert(false);
                }
                assert(piece_ok(l));
                assert(flat(l));
                let one = seq![x];
                lemma_flat_items(one);
                assert(flat_item(one, 0)) by {
                    assert(one[0] == x);
                    assert(s[n] == x);
                }
                lemma_flat_concat(l, one);
                assert(l + one =~= l.push(x));
            }
            assert forall|k: int| 0 <= k < p.len() implies piece_ok(#[trigger] p[k]) by {
                if k < q.len() - 1 {
                    assert(p[k] == q[k]);
                }
            }
        }
    }
}

/// Component matching never gets stuck when every component is flat or a lone `**`.
pub proof fn lemma_comps_not_stuck(pat: Seq<Seq<GlobSeg>>, path: Seq<Seq<char>>)
    requires
        forall|k: int| 0 <= k < pat.len() ==> piece_ok(#[trigger] pat[k]),
    ensures
        !comps_stuck(pat, path),
    decreases pat.len(),
{
    if pat.len() > 0 {
        let rest = pat.drop_first();
        assert forall|k: int| 0 <= k < rest.len() implies piece_ok(#[trigger] rest[k]) by {
            assert(rest[k] == pat[k + 1]);
        }
        assert(piece_ok(pat[0]));
        if is_double_star_component(pat[0]) {
            assert forall|k: int| #![trigger path.skip(k)] 0 <= k <= path.len() implies !comps_stuck(rest, path.skip(k)) by {
                lemma_comps_not_stuck(rest, path.skip(k));
            }
        } else {
            assert(flat(pat[0]));
            if path.len() > 0 {
                lemma_flat_not_stuck(pat[0], path[0]);
                lemma_comps_not_stuck(rest, path.drop_first());
            }
        }
    }
}

} // verus!
