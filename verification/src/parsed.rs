use vstd::prelude::*;
use crate::model::{GlobSeg, ClassItem};
use crate::grammar::{
    flush,
    parse_seq,
    parse_alt,
    class_items,
    parse_class,
    normalize_from,
    normalize_branches,
    lemma_parse_seq_bounds,
    parse_spec,
};
use crate::readback::{prints_back, seg_prints_back, class_reads_back};
use crate::grammar::{lemma_class_items_ranges, ranges_ok};
use crate::wellformed::{
    nseg,
    next_index,
    lemma_norm_step,
    lemma_norm_branches,
    well_formed,
    wf_item,
    lemma_well_formed_items,
    lemma_before_next_is_double_star,
};
use crate::grammar::{edges_ok, edge_item, lemma_edges_items};

verus! {

/// A class the parser reads is a class whose canonical text reads back.
proof fn lemma_parse_class_prints(cs: Seq<char>, start: int)
    requires
        0 <= start,
    ensures
        parse_class(cs, start) is Ok ==> parse_class(cs, start)->Ok_0.0 is Class && class_reads_back(
            parse_class(cs, start)->Ok_0.0->Class_0,
            parse_class(cs, start)->Ok_0.0->Class_1,
        ),
{
    let negated = start + 1 < cs.len() && (cs[start + 1] == '!' || cs[start + 1] == '^');
    let p = if negated { start + 2 } else { start + 1 };
    assert(ranges_ok(Seq::<ClassItem>::empty()));
    lemma_class_items_ranges(cs, start, p, true, Seq::empty());
}

/// Appending a segment keeps `prints_back` when the segment prints back, its branches do,
/// and it may follow the last segment.
proof fn lemma_prints_back_push(acc: Seq<GlobSeg>, x: GlobSeg)
    requires
        prints_back(acc),
        seg_prints_back(x),
        x is Alt ==> forall|j: int| 0 <= j < x->Alt_0.len() ==> prints_back(#[trigger] x->Alt_0[j]),
        acc.len() > 0 && acc.last() is Literal ==> !(x is Literal),
        acc.len() > 0 && acc.last() is Star ==> !(x is Star) && !(x is DoubleStar),
    ensures
        prints_back(acc.push(x)),
{
    let n = acc.push(x);
    assert forall|i: int| #![trigger n[i]] 0 <= i < n.len() implies {
        &&& seg_prints_back(n[i])
        &&& n[i] is Literal && i + 1 < n.len() ==> !(n[i + 1] is Literal)
        &&& n[i] is Star && i + 1 < n.len() ==> !(n[i + 1] is Star) && !(n[i + 1] is DoubleStar)
        &&& n[i] is Alt ==> forall|j: int|
            #![trigger n[i]->Alt_0[j]]
            0 <= j < n[i]->Alt_0.len() ==> prints_back(n[i]->Alt_0[j])
    } by {
        if i < acc.len() {
            assert(n[i] == acc[i]);
            assert(acc[i] == acc[i]);
            if i + 1 < acc.len() {
                assert(n[i + 1] == acc[i + 1]);
            }
            if i + 1 == acc.len() {
                assert(n[i + 1] == x);
                assert(acc.last() == acc[i]);
            }
        } else {
            assert(n[i] == x);
        }
    }
}

/// The state of the parser inside a sequence: what is emitted prints back, it never ends
/// with a literal, and a `*` just emitted (with nothing pending) is not followed by `*`.
pub open spec fn seq_state_ok(cs: Seq<char>, pos: int, lit: Seq<char>, acc: Seq<GlobSeg>) -> bool {
    &&& prints_back(acc)
    &&& acc.len() == 0 || !(acc.last() is Literal)
    &&& acc.len() > 0 && acc.last() is Star && lit.len() == 0 ==> !(0 <= pos < cs.len() && cs[pos] == '*')
}

/// Flushing the pending literal keeps `prints_back`.
proof fn lemma_flush_prints(acc: Seq<GlobSeg>, lit: Seq<char>)
    requires
        prints_back(acc),
        acc.len() == 0 || !(acc.last() is Literal),
    ensures
        prints_back(flush(acc, lit)),
        lit.len() > 0 ==> flush(acc, lit).last() is Literal,
        lit.len() == 0 ==> flush(acc, lit) == acc,
{
    if lit.len() > 0 {
        lemma_prints_back_push(acc, GlobSeg::Literal(lit));
    }
}

/// Every sequence the parser reads prints back.
#[verifier::spinoff_prover]
#[verifier::rlimit(40)]
pub proof fn lemma_seq_prints(cs: Seq<char>, pos: int, in_alt: bool, lit: Seq<char>, acc: Seq<GlobSeg>)
    requires
        0 <= pos <= cs.len(),
        seq_state_ok(cs, pos, lit, acc),
    ensures
        parse_seq(cs, pos, in_alt, lit, acc) is Ok ==> prints_back(parse_seq(cs, pos, in_alt, lit, acc)->Ok_0.0),
    decreases cs.len() - pos, 0int,
{
    lemma_flush_prints(acc, lit);
    let f = flush(acc, lit);
    if pos >= cs.len() || (in_alt && (cs[pos] == ',' || cs[pos] == '}')) {
    } else {
        let c = cs[pos];
        if c == ']' || c == '}' || c == ',' {
        } else if c == '\\' {
            if pos + 1 < cs.len() {
                lemma_seq_prints(cs, pos + 2, in_alt, lit.push(cs[pos + 1]), acc);
            }
        } else if c == '*' {
            if pos + 1 < cs.len() && cs[pos + 1] == '*' {
                lemma_prints_back_push(f, GlobSeg::DoubleStar);
                lemma_seq_prints(cs, pos + 2, in_alt, Seq::empty(), f.push(GlobSeg::DoubleStar));
            } else {
                lemma_prints_back_push(f, GlobSeg::Star);
                lemma_seq_prints(cs, pos + 1, in_alt, Seq::empty(), f.push(GlobSeg::Star));
            }
        } else if c == '?' {
            lemma_prints_back_push(f, GlobSeg::Question);
            lemma_seq_prints(cs, pos + 1, in_alt, Seq::empty(), f.push(GlobSeg::Question));
        } else if c == '/' {
            lemma_prints_back_push(f, GlobSeg::Slash);
            lemma_seq_prints(cs, pos + 1, in_alt, Seq::empty(), f.push(GlobSeg::Slash));
        } else if c == '[' {
            lemma_parse_class_prints(cs, pos);
            match parse_class(cs, pos) {
                Err(_) => {},
                Ok((class, end)) => {
                    if pos < end <= cs.len() {
                        lemma_prints_back_push(f, class);
                        lemma_seq_prints(cs, end, in_alt, Seq::empty(), f.push(class));
                    }
                },
            }
        } else if c == '{' {
            lemma_alt_prints(cs, pos + 1, Seq::empty());
            match parse_alt(cs, pos + 1, Seq::empty()) {
                Err(_) => {},
                Ok((bs, end)) => {
                    if pos < end <= cs.len() {
                        assert(branches_print_back(bs));
                        let j = choose|j: int| 0 <= j < bs.len() && #[trigger] bs[j].len() > 0;
                        assert(bs[j].len() > 0);
                        let x = GlobSeg::Alt(bs);
                        assert(x->Alt_0 == bs);
                        assert(x->Alt_0[j].len() > 0);
                        assert(seg_prints_back(x));
                        lemma_prints_back_push(f, x);
                        lemma_seq_prints(cs, end, in_alt, Seq::empty(), f.push(x));
                    }
                },
            }
        } else {
            lemma_seq_prints(cs, pos + 1, in_alt, lit.push(c), acc);
        }
    }
}

/// Every branch prints back and one of them is not empty.
pub open spec fn branches_print_back(bs: Seq<Seq<GlobSeg>>) -> bool {
    &&& forall|j: int| 0 <= j < bs.len() ==> prints_back(#[trigger] bs[j])
    &&& exists|j: int| 0 <= j < bs.len() && #[trigger] bs[j].len() > 0
}

/// Every alternation the parser reads has branches that print back, one of them non-empty.
#[verifier::spinoff_prover]
#[verifier::rlimit(40)]
pub proof fn lemma_alt_prints(cs: Seq<char>, pos: int, branches: Seq<Seq<GlobSeg>>)
    requires
        0 <= pos,
        forall|j: int| 0 <= j < branches.len() ==> prints_back(#[trigger] branches[j]),
    ensures
        parse_alt(cs, pos, branches) is Ok ==> branches_print_back(parse_alt(cs, pos, branches)->Ok_0.0),
    decreases cs.len() - pos, 1int,
{
    if 0 <= pos <= cs.len() {
        assert(prints_back(Seq::<GlobSeg>::empty()));
        lemma_seq_prints(cs, pos, true, Seq::empty(), Seq::empty());
        lemma_parse_seq_bounds(cs, pos, true, Seq::empty(), Seq::empty());
        match parse_seq(cs, pos, true, Seq::empty(), Seq::empty()) {
            Err(_) => {},
            Ok((b, end)) => {
                let bs = branches.push(b);
                assert forall|j: int| 0 <= j < bs.len() implies prints_back(#[trigger] bs[j]) by {
                    if j < branches.len() {
                        assert(bs[j] == branches[j]);
                    }
                }
                if end < pos || end > cs.len() {
                } else if end < cs.len() && cs[end] == ',' {
                    lemma_alt_prints(cs, end + 1, bs);
                    assert(parse_alt(cs, pos, branches) == parse_alt(cs, end + 1, bs));
                } else if end < cs.len() && cs[end] == '}' {
                    if !(forall|i: int| 0 <= i < bs.len() ==> #[trigger] bs[i].len() == 0) {
                        let j = choose|i: int| 0 <= i < bs.len() && !(#[trigger] bs[i].len() == 0);
                        assert(bs[j].len() > 0);
                        assert(branches_print_back(bs));
                        assert(parse_alt(cs, pos, branches) == Ok::<(Seq<Seq<GlobSeg>>, int), (int, Seq<char>)>(
                            (bs, end + 1),
                        ));
                    }
                }
            },
        }
    }
}

/// Normalising keeps `prints_back`; the normalised rest starts with the normalised segment.
#[verifier::spinoff_prover]
#[verifier::rlimit(40)]
pub proof fn lemma_norm_prints(s: Seq<GlobSeg>, i: int)
    requires
        prints_back(s),
        0 <= i <= s.len(),
    ensures
        prints_back(normalize_from(s, i)),
        i < s.len() ==> normalize_from(s, i).len() > 0 && normalize_from(s, i)[0] == nseg(s[i]),
    decreases s, s.len() - i,
{
    if i == s.len() {
        assert(normalize_from(s, i) =~= Seq::<GlobSeg>::empty());
    } else {
        lemma_norm_step(s, i);
        let j = next_index(s, i);
        lemma_norm_prints(s, j);
        let rest = normalize_from(s, j);
        let x = nseg(s[i]);
        assert(s[i] == s[i]);
        if j < s.len() && !(s[i] is DoubleStar) {
            assert(j == i + 1);
            assert(s[i + 1] == s[i + 1]);
            assert(rest[0] == nseg(s[i + 1]));
        }
        if s[i] is Alt {
            let bs = s[i]->Alt_0;
            let nb = normalize_branches(bs, 0);
            lemma_norm_branches(bs, 0);
            assert(x == GlobSeg::Alt(nb));
            assert forall|k: int| 0 <= k < nb.len() implies prints_back(#[trigger] nb[k]) && (bs[k].len() > 0
                ==> nb[k].len() > 0) by {
                assert(nb[k] == normalize_from(bs[0 + k], 0));
                assert(prints_back(bs[k]));
                assert(decreases_to!(s => s[i]));
                assert(decreases_to!(s[i] => bs));
                assert(decreases_to!(bs => bs[k]));
                lemma_norm_prints(bs[k], 0);
            }
            let k0 = choose|k: int| 0 <= k < bs.len() && #[trigger] bs[k].len() > 0;
            assert(nb[k0].len() > 0);
        }
        lemma_prints_back_cons(x, rest);
    }
}

/// Putting a segment in front keeps `prints_back` when the segment prints back, its
/// branches do, and the rest may follow it.
proof fn lemma_prints_back_cons(x: GlobSeg, rest: Seq<GlobSeg>)
    requires
        prints_back(rest),
        seg_prints_back(x),
        x is Alt ==> forall|j: int| 0 <= j < x->Alt_0.len() ==> prints_back(#[trigger] x->Alt_0[j]),
        x is Literal && rest.len() > 0 ==> !(rest[0] is Literal),
        x is Star && rest.len() > 0 ==> !(rest[0] is Star) && !(rest[0] is DoubleStar),
    ensures
        prints_back(seq![x] + rest),
{
    let n = seq![x] + rest;
    assert forall|i: int| #![trigger n[i]] 0 <= i < n.len() implies {
        &&& seg_prints_back(n[i])
        &&& n[i] is Literal && i + 1 < n.len() ==> !(n[i + 1] is Literal)
        &&& n[i] is Star && i + 1 < n.len() ==> !(n[i + 1] is Star) && !(n[i + 1] is DoubleStar)
        &&& n[i] is Alt ==> forall|j: int|
            #![trigger n[i]->Alt_0[j]]
            0 <= j < n[i]->Alt_0.len() ==> prints_back(n[i]->Alt_0[j])
    } by {
        if i == 0 {
            assert(n[0] == x);
            if rest.len() > 0 {
                assert(n[1] == rest[0]);
            }
        } else {
            assert(n[i] == rest[i - 1]);
            assert(rest[i - 1] == rest[i - 1]);
            if i + 1 < n.len() {
                assert(n[i + 1] == rest[i]);
            }
        }
    }
}

/// Every pattern that `parse` accepts prints back.
pub proof fn lemma_parsed_prints_back(pattern: Seq<char>)
    requires
        parse_spec(pattern) is Ok,
    ensures
        prints_back(parse_spec(pattern)->Ok_0),
{
    assert(prints_back(Seq::<GlobSeg>::empty()));
    lemma_seq_prints(pattern, 0, false, Seq::empty(), Seq::empty());
    lemma_norm_prints(parse_seq(pattern, 0, false, Seq::empty(), Seq::empty())->Ok_0.0, 0);
}


/// `edges_ok` of a sequence with `x` in front, from `edges_ok` of the rest and what `x`
/// itself needs.
proof fn lemma_edges_cons(x: GlobSeg, t: Seq<GlobSeg>, left_ok: bool, right_ok: bool)
    requires
        edges_ok(t, x == GlobSeg::Slash, right_ok),
        x is DoubleStar ==> left_ok && (t.len() == 0 ==> right_ok),
        x is Alt ==> forall|j: int|
            0 <= j < x->Alt_0.len() ==> edges_ok(
                #[trigger] x->Alt_0[j],
                left_ok,
                if t.len() == 0 { right_ok } else { t[0] == GlobSeg::Slash },
            ),
    ensures
        edges_ok(seq![x] + t, left_ok, right_ok),
{
    let n = seq![x] + t;
    lemma_edges_items(t, x == GlobSeg::Slash, right_ok);
    lemma_edges_items(n, left_ok, right_ok);
    assert forall|i: int| 0 <= i < n.len() implies #[trigger] edge_item(n, i, left_ok, right_ok) by {
        if i == 0 {
            assert(n[0] == x);
            if t.len() > 0 {
                assert(n[1] == t[0]);
            }
        } else {
            assert(edge_item(t, i - 1, x == GlobSeg::Slash, right_ok));
            assert(n[i] == t[i - 1]);
            if i == 1 {
                assert(n[0] == x);
            } else {
                assert(n[i - 1] == t[i - 2]);
            }
            if i + 1 < n.len() {
                assert(n[i + 1] == t[i]);
            }
        }
    }
}

/// Normalising keeps `edges_ok`: from index `i` on, a well-formed sequence normalises to a
/// sequence that keeps it, with the left end as `i` sees it.
pub proof fn lemma_norm_edges(s: Seq<GlobSeg>, i: int, left_ok: bool, right_ok: bool)
    requires
        well_formed(s),
        edges_ok(s, left_ok, right_ok),
        0 <= i <= s.len(),
    ensures
        edges_ok(normalize_from(s, i), if i == 0 { left_ok } else { s[i - 1] == GlobSeg::Slash }, right_ok),
    decreases s, s.len() - i,
{
    let lf = if i == 0 { left_ok } else { s[i - 1] == GlobSeg::Slash };
    if i == s.len() {
        assert(normalize_from(s, i) =~= Seq::<GlobSeg>::empty());
    } else {
        lemma_norm_step(s, i);
        lemma_well_formed_items(s);
        lemma_edges_items(s, left_ok, right_ok);
        assert(wf_item(s, i));
        assert(edge_item(s, i, left_ok, right_ok));
        let j = next_index(s, i);
        lemma_norm_edges(s, j, left_ok, right_ok);
        let t = normalize_from(s, j);
        let x = nseg(s[i]);
        if j < s.len() {
            lemma_norm_step(s, j);
            assert(t[0] == nseg(s[j]));
        }
        if s[i] is DoubleStar {
            lemma_before_next_is_double_star(s, i);
            assert(s[j - 1] is DoubleStar);
            if j == s.len() {
                assert(edge_item(s, j - 1, left_ok, right_ok));
            }
        } else {
            assert(j == i + 1);
            assert((x == GlobSeg::Slash) == (s[i] == GlobSeg::Slash));
        }
        if s[i] is Alt {
            let bs = s[i]->Alt_0;
            let nb = normalize_branches(bs, 0);
            lemma_norm_branches(bs, 0);
            assert(x == GlobSeg::Alt(nb));
            let rf = if i == s.len() - 1 { right_ok } else { s[i + 1] == GlobSeg::Slash };
            if i + 1 < s.len() {
                assert((t[0] == GlobSeg::Slash) == (s[i + 1] == GlobSeg::Slash));
            }
            assert forall|k: int| 0 <= k < nb.len() implies edges_ok(#[trigger] nb[k], lf, rf) by {
                assert(nb[k] == normalize_from(bs[0 + k], 0));
                assert(edges_ok(bs[k], lf, rf));
                assert(well_formed(bs[k]));
                assert(decreases_to!(s => s[i]));
                assert(decreases_to!(s[i] => bs));
                assert(decreases_to!(bs => bs[k]));
                lemma_norm_edges(bs[k], 0, lf, rf);
            }
        }
        lemma_edges_cons(x, t, lf, right_ok);
    }
}

} // verus!
