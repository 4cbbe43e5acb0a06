use vstd::prelude::*;
use crate::model::GlobSeg;
use crate::semantics::{
    split_on,
    is_double_star_component,
    comps_matches,
    glob_matches,
    lemma_split_on_nonempty,
    seq_size,
    seq_matches,
    lemma_first_smaller,
    lemma_alt_smaller,
    lemma_alt_match_intro,
    lemma_alt_match_elim,
};
use crate::grammar::{normalize_from, normalize_branches, chain_len};
use crate::readback::{
    prints_back,
    reads_back,
    canon_seg,
    canon_seq,
    lemma_canon_shape,
    lemma_canon_reads_back,
    lemma_canon_seg,
    lemma_canon_alt_text_of,
    lemma_canon_alt_source,
    lemma_seq_read,
    text_at,
};
use crate::render::render_seq;
use crate::laws::lemma_split_on_concat;
use crate::wellformed::{
    nseg,
    next_index,
    lemma_norm_step,
    lemma_norm_branches,
    well_formed,
    wf_item,
    lemma_well_formed_items,
    lemma_chain_shape,
    lemma_before_next_is_double_star,
};

verus! {

/// No `/` and no `**` at the top level of `a` (alternation branches are not looked into).
pub open spec fn clean(a: Seq<GlobSeg>) -> bool {
    forall|i: int| 0 <= i < a.len() ==> !(#[trigger] a[i] is Slash) && !(a[i] is DoubleStar)
}

/// `a` with every alternation's branches normalised.
pub open spec fn nmap(a: Seq<GlobSeg>) -> Seq<GlobSeg> {
    a.map_values(|x: GlobSeg| nseg(x))
}

/// A sequence with a `/` or `**` at its top level matches no text.
pub proof fn lemma_unclean_never_matches(segs: Seq<GlobSeg>, cs: Seq<char>)
    requires
        !clean(segs),
    ensures
        !seq_matches(segs, cs),
    decreases seq_size(segs),
{
    let k = choose|k: int| 0 <= k < segs.len() && !(!(#[trigger] segs[k] is Slash) && !(segs[k] is DoubleStar));
    if k > 0 {
        let rest = segs.drop_first();
        assert(rest[k - 1] == segs[k]);
        assert(!clean(rest));
        lemma_first_smaller(segs);
        match segs[0] {
            GlobSeg::Alt(bs) => {
                lemma_alt_smaller(segs);
                if seq_matches(segs, cs) {
                    let i = lemma_alt_match_elim(segs, cs);
                    let t = bs[i] + rest;
                    assert(t[bs[i].len() + k - 1] == segs[k]);
                    assert(!clean(t));
                    lemma_unclean_never_matches(t, cs);
                }
            },
            GlobSeg::Star => {
                assert forall|j: int| #![trigger cs.skip(j)] 0 <= j <= cs.len() implies !seq_matches(rest, cs.skip(j)) by {
                    lemma_unclean_never_matches(rest, cs.skip(j));
                }
            },
            GlobSeg::Literal(l) => {
                lemma_unclean_never_matches(rest, cs.skip(l.len() as int));
            },
            _ => {
                lemma_unclean_never_matches(rest, cs.skip(1));
            },
        }
    }
}

/// Where `a[i..]` is clean, normalising it only normalises its alternations.
pub proof fn lemma_norm_clean(a: Seq<GlobSeg>, i: int)
    requires
        0 <= i <= a.len(),
        clean(a.skip(i)),
    ensures
        normalize_from(a, i) == nmap(a.skip(i)),
    decreases a.len() - i,
{
    if i == a.len() {
        assert(nmap(a.skip(i)) =~= Seq::<GlobSeg>::empty());
    } else {
        lemma_norm_step(a, i);
        assert(a.skip(i)[0] == a[i]);
        assert(!(a[i] is DoubleStar));
        assert(next_index(a, i) == i + 1);
        assert forall|k: int| 0 <= k < a.skip(i + 1).len() implies !(#[trigger] a.skip(i + 1)[k] is Slash) && !(a.skip(i + 1)[k] is DoubleStar) by {
            assert(a.skip(i + 1)[k] == a.skip(i)[k + 1]);
        }
        lemma_norm_clean(a, i + 1);
        assert(nmap(a.skip(i)) =~= seq![nseg(a[i])] + nmap(a.skip(i + 1)));
    }
}

/// Where normalising `a[i..]` gives a clean sequence, `a[i..]` was clean.
pub proof fn lemma_clean_from_norm(a: Seq<GlobSeg>, i: int)
    requires
        0 <= i <= a.len(),
        clean(normalize_from(a, i)),
    ensures
        clean(a.skip(i)),
    decreases a.len() - i,
{
    if i < a.len() {
        lemma_norm_step(a, i);
        let n = normalize_from(a, i);
        assert(n[0] == nseg(a[i]));
        assert(!(a[i] is DoubleStar) && !(a[i] is Slash));
        assert(next_index(a, i) == i + 1);
        let n1 = normalize_from(a, i + 1);
        assert forall|k: int| 0 <= k < n1.len() implies !(#[trigger] n1[k] is Slash) && !(n1[k] is DoubleStar) by {
            assert(n1[k] == n[k + 1]);
        }
        lemma_clean_from_norm(a, i + 1);
        assert forall|k: int| 0 <= k < a.skip(i).len() implies !(#[trigger] a.skip(i)[k] is Slash) && !(a.skip(i)[k] is DoubleStar) by {
            if k > 0 {
                assert(a.skip(i)[k] == a.skip(i + 1)[k - 1]);
            }
        }
    }
}

/// Normalising the alternations of a sequence does not change what it matches.
pub proof fn lemma_nmap_matches(segs: Seq<GlobSeg>, cs: Seq<char>)
    ensures
        seq_matches(nmap(segs), cs) == seq_matches(segs, cs),
    decreases seq_size(segs),
{
    let m = nmap(segs);
    if segs.len() > 0 {
        let rest = segs.drop_first();
        lemma_first_smaller(segs);
        assert(m.drop_first() =~= nmap(rest));
        assert(m[0] == nseg(segs[0]));
        match segs[0] {
            GlobSeg::Alt(bs) => {
                lemma_alt_smaller(segs);
                let nb = normalize_branches(bs, 0);
                lemma_norm_branches(bs, 0);
                assert(m[0] == GlobSeg::Alt(nb));
                assert forall|i: int| 0 <= i < bs.len() implies seq_matches(#[trigger] nb[i] + nmap(rest), cs)
                    == seq_matches(bs[i] + rest, cs) by {
                    assert(bs[0 + i] == bs[i]);
                    assert(nb[i] == normalize_from(bs[i], 0));
                    if clean(bs[i]) {
                        assert(bs[i].skip(0) =~= bs[i]);
                        lemma_norm_clean(bs[i], 0);
                        assert(nb[i] + nmap(rest) =~= nmap(bs[i] + rest));
                        lemma_nmap_matches(bs[i] + rest, cs);
                    } else {
                        if clean(nb[i]) {
                            lemma_clean_from_norm(bs[i], 0);
                            assert(bs[i].skip(0) =~= bs[i]);
                        }
                        let k = choose|k: int| 0 <= k < bs[i].len() && !(!(#[trigger] bs[i][k] is Slash) && !(bs[i][k] is DoubleStar));
                        assert((bs[i] + rest)[k] == bs[i][k]);
                        lemma_unclean_never_matches(bs[i] + rest, cs);
                        let k2 = choose|k: int| 0 <= k < nb[i].len() && !(!(#[trigger] nb[i][k] is Slash) && !(nb[i][k] is DoubleStar));
                        assert((nb[i] + nmap(rest))[k2] == nb[i][k2]);
                        lemma_unclean_never_matches(nb[i] + nmap(rest), cs);
                    }
                }
                if seq_matches(segs, cs) {
                    let i = lemma_alt_match_elim(segs, cs);
                    lemma_alt_match_intro(m, cs, i);
                }
                if seq_matches(m, cs) {
                    let i = lemma_alt_match_elim(m, cs);
                    lemma_alt_match_intro(segs, cs, i);
                }
            },
            GlobSeg::Star => {
                assert forall|k: int| #![trigger cs.skip(k)] 0 <= k <= cs.len() implies seq_matches(nmap(rest), cs.skip(k))
                    == seq_matches(rest, cs.skip(k)) by {
                    lemma_nmap_matches(rest, cs.skip(k));
                }
            },
            GlobSeg::Literal(l) => {
                lemma_nmap_matches(rest, cs.skip(l.len() as int));
            },
            _ => {
                lemma_nmap_matches(rest, cs.skip(1));
            },
        }
    }
}


/// A sequence without `sep` is a single piece.
pub proof fn lemma_split_on_whole<A>(a: Seq<A>, sep: A)
    requires
        forall|i: int| 0 <= i < a.len() ==> #[trigger] a[i] != sep,
    ensures
        split_on(a, sep) == seq![a],
    decreases a.len(),
{
    if a.len() == 0 {
        assert(a =~= Seq::<A>::empty());
    } else {
        let a1 = a.drop_last();
        assert forall|i: int| 0 <= i < a1.len() implies #[trigger] a1[i] != sep by {
            assert(a1[i] == a[i]);
        }
        lemma_split_on_whole(a1, sep);
        assert(a.last() == a[a.len() - 1]);
        assert(a1.push(a.last()) =~= a);
        assert(split_on(a, sep) =~= seq![a]);
    }
}

/// A leading `**` component matches where the rest matches after skipping `k` path components.
pub proof fn lemma_ds_comps_intro(pat: Seq<Seq<GlobSeg>>, path: Seq<Seq<char>>, k: int)
    requires
        pat.len() > 0,
        is_double_star_component(pat[0]),
        0 <= k <= path.len(),
        comps_matches(pat.drop_first(), path.skip(k)),
    ensures
        comps_matches(pat, path),
{
}

/// Where a leading `**` component matches, the rest matches after skipping some `k` path components.
pub proof fn lemma_ds_comps_elim(pat: Seq<Seq<GlobSeg>>, path: Seq<Seq<char>>) -> (k: int)
    requires
        pat.len() > 0,
        is_double_star_component(pat[0]),
        comps_matches(pat, path),
    ensures
        0 <= k <= path.len(),
        comps_matches(pat.drop_first(), path.skip(k)),
{
    choose|k: int| #![trigger path.skip(k)] 0 <= k <= path.len() && comps_matches(pat.drop_first(), path.skip(k))
}

/// Two `**` components in a row match what one does.
pub proof fn lemma_double_double_star(r: Seq<Seq<GlobSeg>>, path: Seq<Seq<char>>)
    ensures
        comps_matches(seq![seq![GlobSeg::DoubleStar]] + (seq![seq![GlobSeg::DoubleStar]] + r), path)
            == comps_matches(seq![seq![GlobSeg::DoubleStar]] + r, path),
{
    let ds = seq![GlobSeg::DoubleStar];
    let one = seq![ds] + r;
    let two = seq![ds] + one;
    assert(two.drop_first() =~= one);
    assert(one.drop_first() =~= r);
    assert(is_double_star_component(two[0]));
    assert(is_double_star_component(one[0]));
    if comps_matches(two, path) {
        let k1 = lemma_ds_comps_elim(two, path);
        let k2 = lemma_ds_comps_elim(one, path.skip(k1));
        assert(path.skip(k1).skip(k2) =~= path.skip(k1 + k2));
        lemma_ds_comps_intro(one, path, k1 + k2);
    }
    if comps_matches(one, path) {
        assert(path.skip(0) =~= path);
        lemma_ds_comps_intro(two, path, 0);
    }
}

/// Whether index `i` starts a path component of `s`.
pub open spec fn piece_start(s: Seq<GlobSeg>, i: int) -> bool {
    0 <= i <= s.len() && (i == 0 || s[i - 1] == GlobSeg::Slash)
}

/// The first index at or after `i` holding a `/`, or the length of `s`.
pub open spec fn next_slash(s: Seq<GlobSeg>, i: int) -> int
    decreases s.len() - i,
{
    if i >= s.len() {
        s.len() as int
    } else if s[i] == GlobSeg::Slash {
        i
    } else {
        next_slash(s, i + 1)
    }
}

/// Where the next `/` from `i` is.
proof fn lemma_next_slash(s: Seq<GlobSeg>, i: int)
    requires
        0 <= i <= s.len(),
    ensures
        i <= next_slash(s, i) <= s.len(),
        next_slash(s, i) < s.len() ==> s[next_slash(s, i)] == GlobSeg::Slash,
        forall|k: int| i <= k < next_slash(s, i) ==> #[trigger] s[k] != GlobSeg::Slash,
    decreases s.len() - i,
{
    if i < s.len() && s[i] != GlobSeg::Slash {
        lemma_next_slash(s, i + 1);
    }
}

/// Normalising across segments that are not `**` only normalises their alternations.
proof fn lemma_norm_run(s: Seq<GlobSeg>, i: int, k: int)
    requires
        0 <= i <= k <= s.len(),
        forall|t: int| i <= t < k ==> !(#[trigger] s[t] is DoubleStar),
    ensures
        normalize_from(s, i) == nmap(s.subrange(i, k)) + normalize_from(s, k),
    decreases k - i,
{
    if i == k {
        assert(nmap(s.subrange(i, k)) =~= Seq::<GlobSeg>::empty());
        assert(Seq::<GlobSeg>::empty() + normalize_from(s, k) =~= normalize_from(s, k));
    } else {
        lemma_norm_step(s, i);
        assert(!(s[i] is DoubleStar));
        lemma_norm_run(s, i + 1, k);
        assert(nmap(s.subrange(i, k)) =~= seq![nseg(s[i])] + nmap(s.subrange(i + 1, k)));
        assert(seq![nseg(s[i])] + (nmap(s.subrange(i + 1, k)) + normalize_from(s, k)) =~= nmap(s.subrange(i, k)) + normalize_from(s, k));
    }
}


/// The components from a `**` at index `t` onward: the `**` alone, then the components
/// after the `/` that must follow it.
proof fn lemma_ds_piece(s: Seq<GlobSeg>, t: int)
    requires
        well_formed(s),
        0 <= t < s.len(),
        s[t] is DoubleStar,
    ensures
        t + 1 < s.len() ==> s[t + 1] == GlobSeg::Slash && split_on(s.skip(t), GlobSeg::Slash) == seq![
            seq![GlobSeg::DoubleStar],
        ] + split_on(s.skip(t + 2), GlobSeg::Slash),
        t + 1 == s.len() ==> split_on(s.skip(t), GlobSeg::Slash) == seq![seq![GlobSeg::DoubleStar]],
{
    lemma_well_formed_items(s);
    assert(wf_item(s, t));
    let ds = seq![GlobSeg::DoubleStar];
    assert(s[t] == GlobSeg::DoubleStar);
    lemma_split_on_whole(ds, GlobSeg::Slash);
    if t + 1 < s.len() {
        assert(s.skip(t) =~= ds + seq![GlobSeg::Slash] + s.skip(t + 2));
        lemma_split_on_concat(ds, GlobSeg::Slash, s.skip(t + 2));
    } else {
        assert(s.skip(t) =~= ds);
    }
}

/// A `**` followed by `/` `**` pairs matches what the last `**` of the run does.
proof fn lemma_chain_comps(s: Seq<GlobSeg>, u: int, q: Seq<Seq<char>>)
    requires
        well_formed(s),
        0 <= u < s.len(),
        s[u] is DoubleStar,
    ensures
        comps_matches(split_on(s.skip(u), GlobSeg::Slash), q) == comps_matches(
            split_on(s.skip(u + 2 * chain_len(s, u + 1)), GlobSeg::Slash),
            q,
        ),
    decreases s.len() - u,
{
    let c = chain_len(s, u + 1);
    if c > 0 {
        assert(u + 2 < s.len() && s[u + 1] == GlobSeg::Slash && s[u + 2] == GlobSeg::DoubleStar);
        assert(c == 1 + chain_len(s, u + 3));
        lemma_chain_comps(s, u + 2, q);
        assert(u + 2 + 2 * chain_len(s, u + 3) == u + 2 * c);
        lemma_ds_piece(s, u);
        lemma_ds_piece(s, u + 2);
        let ds = seq![GlobSeg::DoubleStar];
        let p2 = split_on(s.skip(u + 2), GlobSeg::Slash);
        let r = if u + 3 < s.len() {
            split_on(s.skip(u + 4), GlobSeg::Slash)
        } else {
            Seq::empty()
        };
        assert(p2 =~= seq![ds] + r);
        lemma_double_double_star(r, q);
    }
}

/// From a component start, normalising the rest of a well-formed pattern does not change
/// which path components it matches.
proof fn lemma_norm_comps(s: Seq<GlobSeg>, i: int, q: Seq<Seq<char>>)
    requires
        well_formed(s),
        piece_start(s, i),
    ensures
        comps_matches(split_on(normalize_from(s, i), GlobSeg::Slash), q) == comps_matches(
            split_on(s.skip(i), GlobSeg::Slash),
            q,
        ),
    decreases s.len() - i, 1int,
{
    if i < s.len() && s[i] is DoubleStar {
        lemma_norm_comps_double_star(s, i, q);
    } else {
        lemma_norm_comps_piece(s, i, q);
    }
}

/// The case of `lemma_norm_comps` where the component at `i` is a `**`.
#[verifier::spinoff_prover]
proof fn lemma_norm_comps_double_star(s: Seq<GlobSeg>, i: int, q: Seq<Seq<char>>)
    requires
        well_formed(s),
        piece_start(s, i),
        i < s.len(),
        s[i] is DoubleStar,
    ensures
        comps_matches(split_on(normalize_from(s, i), GlobSeg::Slash), q) == comps_matches(
            split_on(s.skip(i), GlobSeg::Slash),
            q,
        ),
    decreases s.len() - i, 0int,
{
    lemma_well_formed_items(s);
    let ds = seq![GlobSeg::DoubleStar];
    lemma_split_on_whole(ds, GlobSeg::Slash);
    lemma_chain_comps(s, i, q);
    lemma_norm_step(s, i);
    lemma_before_next_is_double_star(s, i);
    let j = next_index(s, i);
    let t = j - 1;
    assert(t == i + 2 * chain_len(s, i + 1));
    lemma_ds_piece(s, t);
    assert(nseg(s[i]) == GlobSeg::DoubleStar);
    if j < s.len() {
        lemma_norm_step(s, j);
        assert(next_index(s, j) == j + 1);
        let nr = normalize_from(s, j + 1);
        assert(normalize_from(s, i) =~= ds + seq![GlobSeg::Slash] + nr);
        lemma_split_on_concat(ds, GlobSeg::Slash, nr);
        let lhs = seq![ds] + split_on(nr, GlobSeg::Slash);
        let rhs = seq![ds] + split_on(s.skip(j + 1), GlobSeg::Slash);
        assert(lhs.drop_first() =~= split_on(nr, GlobSeg::Slash));
        assert(rhs.drop_first() =~= split_on(s.skip(j + 1), GlobSeg::Slash));
        assert forall|k: int| #![trigger q.skip(k)] 0 <= k <= q.len() implies comps_matches(lhs.drop_first(), q.skip(k))
            == comps_matches(rhs.drop_first(), q.skip(k)) by {
            lemma_norm_comps(s, j + 1, q.skip(k));
        }
        if comps_matches(lhs, q) {
            let k = lemma_ds_comps_elim(lhs, q);
            lemma_ds_comps_intro(rhs, q, k);
        }
        if comps_matches(rhs, q) {
            let k = lemma_ds_comps_elim(rhs, q);
            lemma_ds_comps_intro(lhs, q, k);
        }
    } else {
        assert(normalize_from(s, j) =~= Seq::<GlobSeg>::empty());
        assert(normalize_from(s, i) =~= ds);
    }
}

/// The case of `lemma_norm_comps` where the component at `i` is not a `**`.
#[verifier::spinoff_prover]
proof fn lemma_norm_comps_piece(s: Seq<GlobSeg>, i: int, q: Seq<Seq<char>>)
    requires
        well_formed(s),
        piece_start(s, i),
        !(i < s.len() && s[i] is DoubleStar),
    ensures
        comps_matches(split_on(normalize_from(s, i), GlobSeg::Slash), q) == comps_matches(
            split_on(s.skip(i), GlobSeg::Slash),
            q,
        ),
    decreases s.len() - i, 0int,
{
    lemma_well_formed_items(s);
    let ds = seq![GlobSeg::DoubleStar];
    lemma_split_on_whole(ds, GlobSeg::Slash);
    let e = next_slash(s, i);
    lemma_next_slash(s, i);
    let p0 = s.subrange(i, e);
    assert forall|k: int| i <= k < e implies !(#[trigger] s[k] is DoubleStar) by {
        if s[k] is DoubleStar {
            assert(wf_item(s, k));
            if k > i {
                assert(s[k - 1] != GlobSeg::Slash);
            }
        }
    }
    assert forall|k: int| 0 <= k < p0.len() implies !(#[trigger] p0[k] is Slash) && !(p0[k] is DoubleStar) by {
        assert(p0[k] == s[i + k]);
        assert(s[i + k] != GlobSeg::Slash);
    }
    lemma_norm_run(s, i, e);
    let np = nmap(p0);
    assert forall|k: int| 0 <= k < np.len() implies #[trigger] np[k] != GlobSeg::Slash by {
        assert(np[k] == nseg(p0[k]));
    }
    assert forall|k: int| 0 <= k < p0.len() implies #[trigger] p0[k] != GlobSeg::Slash by {
        assert(p0[k] == s[i + k]);
    }
    lemma_split_on_whole(np, GlobSeg::Slash);
    lemma_split_on_whole(p0, GlobSeg::Slash);
    assert(!is_double_star_component(p0)) by {
        if p0 == ds {
            assert(p0[0] == s[i]);
        }
    }
    assert(!is_double_star_component(np)) by {
        if np == ds {
            assert(np[0] == nseg(p0[0]));
        }
    }
    lemma_nmap_matches(p0, if q.len() > 0 { q[0] } else { Seq::empty() });
    if e < s.len() {
        lemma_norm_step(s, e);
        assert(next_index(s, e) == e + 1);
        let nr = normalize_from(s, e + 1);
        assert(normalize_from(s, i) =~= np + seq![GlobSeg::Slash] + nr);
        lemma_split_on_concat(np, GlobSeg::Slash, nr);
        assert(s.skip(i) =~= p0 + seq![GlobSeg::Slash] + s.skip(e + 1));
        lemma_split_on_concat(p0, GlobSeg::Slash, s.skip(e + 1));
        let lhs = seq![np] + split_on(nr, GlobSeg::Slash);
        let rhs = seq![p0] + split_on(s.skip(e + 1), GlobSeg::Slash);
        assert(lhs.drop_first() =~= split_on(nr, GlobSeg::Slash));
        assert(rhs.drop_first() =~= split_on(s.skip(e + 1), GlobSeg::Slash));
        if q.len() > 0 {
            lemma_norm_comps(s, e + 1, q.drop_first());
        }
    } else {
        assert(normalize_from(s, e) =~= Seq::<GlobSeg>::empty());
        assert(normalize_from(s, i) =~= np);
        assert(s.skip(i) =~= p0);
        let lhs = seq![np];
        let rhs = seq![p0];
        assert(lhs.drop_first() =~= Seq::<Seq<GlobSeg>>::empty());
        assert(rhs.drop_first() =~= Seq::<Seq<GlobSeg>>::empty());
    }
}

/// Collapsing `**/**` chains and normalising alternation branches does not change what a
/// well-formed pattern matches.
pub proof fn lemma_normalize_preserves_matching(s: Seq<GlobSeg>, path: Seq<char>)
    requires
        well_formed(s),
    ensures
        glob_matches(normalize_from(s, 0), path) == glob_matches(s, path),
{
    lemma_norm_comps(s, 0, split_on(path, '/'));
    assert(s.skip(0) =~= s);
}


/// Every alternation directly in `x` has branches that print back.
pub open spec fn alts_print_back(x: GlobSeg) -> bool {
    x is Alt ==> forall|j: int| 0 <= j < x->Alt_0.len() ==> prints_back(#[trigger] x->Alt_0[j])
}

/// `alts_print_back` holds of every segment of `g`.
pub open spec fn all_alts_print_back(g: Seq<GlobSeg>) -> bool {
    forall|i: int| 0 <= i < g.len() ==> alts_print_back(#[trigger] g[i])
}

/// A pattern that prints back has alternations whose branches print back.
pub proof fn lemma_prints_back_alts(g: Seq<GlobSeg>)
    requires
        prints_back(g),
    ensures
        all_alts_print_back(g),
{
    assert forall|i: int| 0 <= i < g.len() implies alts_print_back(#[trigger] g[i]) by {
        assert(g[i] == g[i]);
    }
}

/// Two patterns that read back and have the same text are the same.
pub proof fn lemma_reads_back_unique(t1: Seq<GlobSeg>, t2: Seq<GlobSeg>)
    requires
        reads_back(t1),
        reads_back(t2),
        render_seq(t1) == render_seq(t2),
    ensures
        t1 == t2,
{
    let cs = render_seq(t1);
    assert(cs.subrange(0, cs.len() as int) =~= cs);
    lemma_seq_read(cs, 0, false, Seq::empty(), Seq::empty(), t1);
    lemma_seq_read(cs, 0, false, Seq::empty(), Seq::empty(), t2);
    assert(Seq::<GlobSeg>::empty() + t1 =~= t1);
    assert(Seq::<GlobSeg>::empty() + t2 =~= t2);
}

/// The canonical form of a concatenation is the concatenation of the canonical forms.
proof fn lemma_canon_concat(a: Seq<GlobSeg>, b: Seq<GlobSeg>)
    ensures
        canon_seq(a + b) == canon_seq(a) + canon_seq(b),
{
    lemma_canon_shape(a);
    lemma_canon_shape(b);
    lemma_canon_shape(a + b);
    assert forall|i: int| 0 <= i < (a + b).len() implies canon_seq(a + b)[i] == (canon_seq(a) + canon_seq(b))[i] by {
        if i < a.len() {
            assert((a + b)[i] == a[i]);
        } else {
            assert((a + b)[i] == b[i - a.len()]);
        }
    }
    assert(canon_seq(a + b) =~= canon_seq(a) + canon_seq(b));
}

/// The canonical form of a sequence matches the same text as the sequence, when its
/// alternations' branches print back.
pub proof fn lemma_canon_matches(g: Seq<GlobSeg>, cs: Seq<char>)
    requires
        all_alts_print_back(g),
    ensures
        seq_matches(canon_seq(g), cs) == seq_matches(g, cs),
    decreases seq_size(g), 2int,
{
    if g.len() > 0 {
        if g[0] is Alt {
            lemma_canon_matches_alt(g, cs);
        } else {
            lemma_canon_shape(g);
            let m = canon_seq(g);
            let rest = g.drop_first();
            lemma_first_smaller(g);
            lemma_canon_shape(rest);
            assert(m.drop_first() =~= canon_seq(rest));
            assert(m[0] == canon_seg(g[0]));
            assert(m[0] == g[0]);
            assert(all_alts_print_back(rest)) by {
                assert forall|i: int| 0 <= i < rest.len() implies alts_print_back(#[trigger] rest[i]) by {
                    assert(rest[i] == g[i + 1]);
                }
            }
            match g[0] {
                GlobSeg::Star => {
                    assert forall|k: int| #![trigger cs.skip(k)] 0 <= k <= cs.len() implies seq_matches(
                        canon_seq(rest),
                        cs.skip(k),
                    ) == seq_matches(rest, cs.skip(k)) by {
                        lemma_canon_matches(rest, cs.skip(k));
                    }
                },
                GlobSeg::Literal(l) => {
                    lemma_canon_matches(rest, cs.skip(l.len() as int));
                },
                _ => {
                    lemma_canon_matches(rest, cs.skip(1));
                },
            }
        }
    } else {
        lemma_canon_shape(g);
    }
}

/// The case of `lemma_canon_matches` where the sequence starts with an alternation.
#[verifier::spinoff_prover]
proof fn lemma_canon_matches_alt(g: Seq<GlobSeg>, cs: Seq<char>)
    requires
        all_alts_print_back(g),
        g.len() > 0,
        g[0] is Alt,
    ensures
        seq_matches(canon_seq(g), cs) == seq_matches(g, cs),
    decreases seq_size(g), 1int,
{
    lemma_canon_shape(g);
    let m = canon_seq(g);
    let rest = g.drop_first();
    lemma_canon_shape(rest);
    assert(m.drop_first() =~= canon_seq(rest));
    assert(m[0] == canon_seg(g[0]));
    let bs = g[0]->Alt_0;
    let pk = m[0]->Alt_0;
    assert(seq_matches(m, cs) ==> seq_matches(g, cs)) by {
        if seq_matches(m, cs) {
            let k = lemma_alt_match_elim(m, cs);
            let i = lemma_canon_alt_source(bs, k);
            lemma_canon_matches_branch(g, cs, i);
            lemma_alt_match_intro(g, cs, i);
        }
    }
    assert(seq_matches(g, cs) ==> seq_matches(m, cs)) by {
        if seq_matches(g, cs) {
            let i = lemma_alt_match_elim(g, cs);
            lemma_canon_matches_branch(g, cs, i);
            let k = lemma_canon_alt_text_of(bs, i);
            let i2 = lemma_canon_alt_source(bs, k);
            lemma_canon_matches_branch(g, cs, i2);
            assert(pk[k] == canon_seq(bs[i2]));
            assert(reads_back(pk[k]));
            assert(reads_back(canon_seq(bs[i])));
            assert(render_seq(pk[k]) == render_seq(bs[i]));
            lemma_canon_shape(bs[i]);
            assert(render_seq(pk[k]) == render_seq(canon_seq(bs[i])));
            lemma_reads_back_unique(pk[k], canon_seq(bs[i]));
            lemma_alt_match_intro(m, cs, k);
        }
    }
}

/// Branch `i` of a leading alternation, followed by the rest, matches as its canonical form
/// followed by the canonical rest; and that canonical branch reads back.
#[verifier::spinoff_prover]
proof fn lemma_canon_matches_branch(g: Seq<GlobSeg>, cs: Seq<char>, i: int)
    requires
        all_alts_print_back(g),
        g.len() > 0,
        g[0] is Alt,
        0 <= i < g[0]->Alt_0.len(),
    ensures
        seq_matches(canon_seq(g[0]->Alt_0[i]) + canon_seq(g.drop_first()), cs) == seq_matches(
            g[0]->Alt_0[i] + g.drop_first(),
            cs,
        ),
        reads_back(canon_seq(g[0]->Alt_0[i])),
    decreases seq_size(g), 0int,
{
    let rest = g.drop_first();
    let b = g[0]->Alt_0[i];
    assert(alts_print_back(g[0]));
    assert(prints_back(b));
    lemma_prints_back_alts(b);
    assert forall|t: int| 0 <= t < rest.len() implies alts_print_back(#[trigger] rest[t]) by {
        assert(rest[t] == g[t + 1]);
    }
    assert forall|t: int| 0 <= t < (b + rest).len() implies alts_print_back(#[trigger] (b + rest)[t]) by {
        if t < b.len() {
            assert((b + rest)[t] == b[t]);
        } else {
            assert((b + rest)[t] == rest[t - b.len()]);
        }
    }
    lemma_alt_smaller(g);
    assert(seq_size(b + g.drop_first()) < seq_size(g));
    lemma_canon_matches(b + rest, cs);
    lemma_canon_concat(b, rest);
    lemma_canon_reads_back(b);
}


/// Cutting the canonical form at `/` gives the canonical forms of the pieces.
proof fn lemma_split_canon(g: Seq<GlobSeg>)
    ensures
        split_on(canon_seq(g), GlobSeg::Slash) == split_on(g, GlobSeg::Slash).map_values(
            |p: Seq<GlobSeg>| canon_seq(p),
        ),
    decreases g.len(),
{
    let c = canon_seq(g);
    if g.len() == 0 {
        assert(c =~= Seq::<GlobSeg>::empty());
        assert(canon_seq(Seq::<GlobSeg>::empty()) =~= Seq::<GlobSeg>::empty());
        assert(split_on(c, GlobSeg::Slash) =~= split_on(g, GlobSeg::Slash).map_values(
            |p: Seq<GlobSeg>| canon_seq(p),
        ));
    } else {
        lemma_split_canon(g.drop_last());
        lemma_split_on_nonempty(g.drop_last(), GlobSeg::Slash);
        let y = g.last();
        assert(c.drop_last() =~= canon_seq(g.drop_last()));
        assert(c.last() == canon_seg(y));
        assert((canon_seg(y) == GlobSeg::Slash) == (y == GlobSeg::Slash));
        let r = split_on(g.drop_last(), GlobSeg::Slash);
        let rm = r.map_values(|p: Seq<GlobSeg>| canon_seq(p));
        if y == GlobSeg::Slash {
            assert(canon_seq(Seq::<GlobSeg>::empty()) =~= Seq::<GlobSeg>::empty());
            assert(rm.push(Seq::empty()) =~= r.push(Seq::empty()).map_values(|p: Seq<GlobSeg>| canon_seq(p)));
        } else {
            let l = r.last();
            assert(l.push(y).drop_last() =~= l);
            assert(canon_seq(l.push(y)) == canon_seq(l).push(canon_seg(y)));
            assert(rm.update(rm.len() - 1, rm.last().push(canon_seg(y))) =~= r.update(
                r.len() - 1,
                r.last().push(y),
            ).map_values(|p: Seq<GlobSeg>| canon_seq(p)));
        }
    }
}

/// The pieces of a sequence cut at `/` keep `all_alts_print_back`.
proof fn lemma_split_alts(g: Seq<GlobSeg>)
    requires
        all_alts_print_back(g),
    ensures
        forall|i: int|
            0 <= i < split_on(g, GlobSeg::Slash).len() ==> all_alts_print_back(
                #[trigger] split_on(g, GlobSeg::Slash)[i],
            ),
    decreases g.len(),
{
    if g.len() > 0 {
        let g1 = g.drop_last();
        assert forall|t: int| 0 <= t < g1.len() implies alts_print_back(#[trigger] g1[t]) by {
            assert(g1[t] == g[t]);
        }
        lemma_split_alts(g1);
        lemma_split_on_nonempty(g1, GlobSeg::Slash);
        let r = split_on(g1, GlobSeg::Slash);
        let y = g.last();
        assert(alts_print_back(g[g.len() - 1]));
        if y != GlobSeg::Slash {
            let l = r.last();
            assert(all_alts_print_back(r[r.len() - 1]));
            assert forall|t: int| 0 <= t < l.push(y).len() implies alts_print_back(#[trigger] l.push(y)[t]) by {
                if t < l.len() {
                    assert(l.push(y)[t] == l[t]);
                }
            }
        }
    }
}

/// Matching components against their canonical forms gives the same answer.
proof fn lemma_canon_comps(p: Seq<Seq<GlobSeg>>, q: Seq<Seq<char>>)
    requires
        forall|i: int| 0 <= i < p.len() ==> all_alts_print_back(#[trigger] p[i]),
    ensures
        comps_matches(p.map_values(|c: Seq<GlobSeg>| canon_seq(c)), q) == comps_matches(p, q),
    decreases p.len(),
{
    let pm = p.map_values(|c: Seq<GlobSeg>| canon_seq(c));
    if p.len() > 0 {
        let p1 = p.drop_first();
        assert(pm.drop_first() =~= p1.map_values(|c: Seq<GlobSeg>| canon_seq(c)));
        assert forall|i: int| 0 <= i < p1.len() implies all_alts_print_back(#[trigger] p1[i]) by {
            assert(p1[i] == p[i + 1]);
        }
        let c0 = p[0];
        assert(pm[0] == canon_seq(c0));
        lemma_canon_shape(c0);
        let ds = seq![GlobSeg::DoubleStar];
        if c0 == ds {
            assert(canon_seq(c0)[0] == canon_seg(GlobSeg::DoubleStar));
            assert(canon_seq(c0) =~= ds);
        }
        if canon_seq(c0) == ds {
            assert(canon_seq(c0)[0] == canon_seg(c0[0]));
            assert(!(c0[0] is Alt));
            assert(c0 =~= ds);
        }
        if is_double_star_component(c0) {
            assert forall|k: int| #![trigger q.skip(k)] 0 <= k <= q.len() implies comps_matches(
                pm.drop_first(),
                q.skip(k),
            ) == comps_matches(p1, q.skip(k)) by {
                lemma_canon_comps(p1, q.skip(k));
            }
        } else if q.len() > 0 {
            lemma_canon_matches(c0, q[0]);
            lemma_canon_comps(p1, q.drop_first());
        }
    }
}

/// The canonical form of a pattern whose alternations' branches print back matches exactly
/// the paths the pattern matches.
pub proof fn lemma_canon_glob_matches(g: Seq<GlobSeg>, path: Seq<char>)
    requires
        all_alts_print_back(g),
    ensures
        glob_matches(canon_seq(g), path) == glob_matches(g, path),
{
    lemma_split_canon(g);
    lemma_split_alts(g);
    lemma_canon_comps(split_on(g, GlobSeg::Slash), split_on(path, '/'));
}

} // verus!
