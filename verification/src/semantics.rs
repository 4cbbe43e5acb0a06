use vstd::prelude::*;
use crate::model::{GlobSeg, ClassItem};

verus! {

/// Number of nodes in a segment, counting nested alternation branches.
pub open spec fn seg_size(s: GlobSeg) -> nat
    decreases s, 0int,
{
    match s {
        GlobSeg::Alt(bs) => 1 + branches_size(bs),
        _ => 1,
    }
}

/// Number of nodes in a sequence of segments.
pub open spec fn seq_size(ss: Seq<GlobSeg>) -> nat
    decreases ss, 0int,
{
    if ss.len() == 0 {
        0
    } else {
        seg_size(ss[0]) + seq_size(ss.drop_first())
    }
}

/// Number of nodes in the branches of an alternation.
pub open spec fn branches_size(bs: Seq<Seq<GlobSeg>>) -> nat
    decreases bs, 0int,
{
    if bs.len() == 0 {
        0
    } else {
        seq_size(bs[0]) + branches_size(bs.drop_first())
    }
}

/// Sizes add up over concatenation.
pub proof fn lemma_seq_size_concat(a: Seq<GlobSeg>, b: Seq<GlobSeg>)
    ensures
        seq_size(a + b) == seq_size(a) + seq_size(b),
    decreases a.len(),
{
    if a.len() > 0 {
        lemma_seq_size_concat(a.drop_first(), b);
        assert((a + b).drop_first() =~= a.drop_first() + b);
    } else {
        assert(a + b =~= b);
    }
}

/// A branch is no larger than all branches together.
pub proof fn lemma_branch_size(bs: Seq<Seq<GlobSeg>>, i: int)
    requires
        0 <= i < bs.len(),
    ensures
        seq_size(bs[i]) <= branches_size(bs),
    decreases bs.len(),
{
    if i > 0 {
        lemma_branch_size(bs.drop_first(), i - 1);
    }
}

/// Dropping the first segment makes a sequence smaller.
pub proof fn lemma_first_smaller(segs: Seq<GlobSeg>)
    requires
        segs.len() > 0,
    ensures
        seq_size(segs.drop_first()) < seq_size(segs),
{
    assert(seg_size(segs[0]) >= 1);
}

/// Every branch of a leading alternation, followed by the rest, is smaller than the whole.
pub proof fn lemma_alt_smaller(segs: Seq<GlobSeg>)
    requires
        segs.len() > 0,
        segs[0] is Alt,
    ensures
        forall|i: int|
            0 <= i < segs[0]->Alt_0.len() ==> #[trigger] seq_size(segs[0]->Alt_0[i] + segs.drop_first())
                < seq_size(segs),
{
    let bs = segs[0]->Alt_0;
    assert(seg_size(segs[0]) == 1 + branches_size(bs));
    assert(seq_size(segs) == seg_size(segs[0]) + seq_size(segs.drop_first()));
    assert forall|i: int| 0 <= i < bs.len() implies #[trigger] seq_size(bs[i] + segs.drop_first())
        < seq_size(segs) by {
        lemma_seq_size_concat(bs[i], segs.drop_first());
        lemma_branch_size(bs, i);
    }
}

/// Whether a class item admits a character.
pub open spec fn item_hit(item: ClassItem, c: char) -> bool {
    match item {
        ClassItem::Char(ch) => ch == c,
        ClassItem::Range(a, b) => a <= c && c <= b,
    }
}

/// Whether a character class (negated or not) admits a character.
pub open spec fn class_hit(negated: bool, items: Seq<ClassItem>, c: char) -> bool {
    (exists|i: int| 0 <= i < items.len() && #[trigger] item_hit(items[i], c)) != negated
}

/// Whether a sequence of segments matches exactly the characters `cs` of one path component.
/// A `/` or `**` reached here matches nothing (see `seq_stuck`).
pub open spec fn seq_matches(segs: Seq<GlobSeg>, cs: Seq<char>) -> bool
    decreases seq_size(segs),
    via seq_matches_decreases
{
    if segs.len() == 0 {
        cs.len() == 0
    } else {
        let rest = segs.drop_first();
        match segs[0] {
            GlobSeg::Literal(l) => l.len() <= cs.len() && cs.take(l.len() as int) == l
                && seq_matches(rest, cs.skip(l.len() as int)),
            GlobSeg::Star => exists|k: int|
                #![trigger cs.skip(k)]
                0 <= k <= cs.len() && seq_matches(rest, cs.skip(k)),
            GlobSeg::Question => cs.len() > 0 && seq_matches(rest, cs.skip(1)),
            GlobSeg::Class(negated, items) => cs.len() > 0 && class_hit(negated, items, cs[0])
                && seq_matches(rest, cs.skip(1)),
            GlobSeg::Alt(bs) => exists|i: int|
                #![trigger bs[i]]
                0 <= i < bs.len() && seq_matches(bs[i] + rest, cs),
            GlobSeg::Slash => false,
            GlobSeg::DoubleStar => false,
        }
    }
}

#[via_fn]
proof fn seq_matches_decreases(segs: Seq<GlobSeg>, cs: Seq<char>) {
    if segs.len() > 0 {
        lemma_first_smaller(segs);
        if segs[0] is Alt {
            lemma_alt_smaller(segs);
        }
    }
}


/// Whether matching `segs` against `cs`, trying `*` lengths shortest first and alternation
/// branches in order and stopping at the first success, reaches a `/` or `**` inside a
/// component, where no match is defined.
pub open spec fn seq_stuck(segs: Seq<GlobSeg>, cs: Seq<char>) -> bool
    decreases seq_size(segs),
    via seq_stuck_decreases
{
    if segs.len() == 0 {
        false
    } else {
        let rest = segs.drop_first();
        match segs[0] {
            GlobSeg::Literal(l) => l.len() <= cs.len() && cs.take(l.len() as int) == l
                && seq_stuck(rest, cs.skip(l.len() as int)),
            GlobSeg::Star => exists|k: int|
                #![trigger cs.skip(k)]
                0 <= k <= cs.len() && (forall|j: int|
                    #![trigger cs.skip(j)]
                    0 <= j < k ==> !seq_matches(rest, cs.skip(j))) && seq_stuck(rest, cs.skip(k)),
            GlobSeg::Question => cs.len() > 0 && seq_stuck(rest, cs.skip(1)),
            GlobSeg::Class(negated, items) => cs.len() > 0 && class_hit(negated, items, cs[0])
                && seq_stuck(rest, cs.skip(1)),
            GlobSeg::Alt(bs) => exists|i: int|
                #![trigger bs[i]]
                0 <= i < bs.len() && (forall|j: int|
                    #![trigger bs[j]]
                    0 <= j < i ==> !seq_matches(bs[j] + rest, cs)) && seq_stuck(bs[i] + rest, cs),
            GlobSeg::Slash => true,
            GlobSeg::DoubleStar => true,
        }
    }
}

#[via_fn]
proof fn seq_stuck_decreases(segs: Seq<GlobSeg>, cs: Seq<char>) {
    if segs.len() > 0 {
        lemma_first_smaller(segs);
        if segs[0] is Alt {
            lemma_alt_smaller(segs);
        }
    }
}

/// Splits a sequence at every occurrence of `sep`; the result always has one piece more
/// than there are separators.
pub open spec fn split_on<A>(s: Seq<A>, sep: A) -> Seq<Seq<A>>
    decreases s.len(),
{
    if s.len() == 0 {
        seq![Seq::empty()]
    } else {
        let r = split_on(s.drop_last(), sep);
        if s.last() == sep {
            r.push(Seq::empty())
        } else {
            r.update(r.len() - 1, r.last().push(s.last()))
        }
    }
}

/// Splitting always gives at least one piece.
pub proof fn lemma_split_on_nonempty<A>(s: Seq<A>, sep: A)
    ensures
        split_on(s, sep).len() >= 1,
    decreases s.len(),
{
    if s.len() > 0 {
        lemma_split_on_nonempty(s.drop_last(), sep);
    }
}

/// Whether a pattern component stands for any number of whole path components.
pub open spec fn is_double_star_component(comp: Seq<GlobSeg>) -> bool {
    comp == seq![GlobSeg::DoubleStar]
}

/// Whether pattern components match path components.
pub open spec fn comps_matches(pat: Seq<Seq<GlobSeg>>, path: Seq<Seq<char>>) -> bool
    decreases pat.len(),
{
    if pat.len() == 0 {
        path.len() == 0
    } else if is_double_star_component(pat[0]) {
        exists|k: int|
            #![trigger path.skip(k)]
            0 <= k <= path.len() && comps_matches(pat.drop_first(), path.skip(k))
    } else {
        path.len() > 0 && seq_matches(pat[0], path[0]) && comps_matches(
            pat.drop_first(),
            path.drop_first(),
        )
    }
}

/// Whether matching components, trying `**` spans shortest first and stopping at the first
/// success, gets stuck inside some component (see `seq_stuck`).
pub open spec fn comps_stuck(pat: Seq<Seq<GlobSeg>>, path: Seq<Seq<char>>) -> bool
    decreases pat.len(),
{
    if pat.len() == 0 {
        false
    } else if is_double_star_component(pat[0]) {
        exists|k: int|
            #![trigger path.skip(k)]
            0 <= k <= path.len() && (forall|j: int|
                #![trigger path.skip(j)]
                0 <= j < k ==> !comps_matches(pat.drop_first(), path.skip(j)))
                && comps_stuck(pat.drop_first(), path.skip(k))
    } else {
        path.len() > 0 && (seq_stuck(pat[0], path[0]) || (seq_matches(pat[0], path[0])
            && comps_stuck(pat.drop_first(), path.drop_first())))
    }
}

/// Whether a pattern matches a path: both are cut at `/`, a component that is exactly `**`
/// stands for zero or more whole path components, and every other component must match
/// exactly one path component.
pub open spec fn glob_matches(pat: Seq<GlobSeg>, path: Seq<char>) -> bool {
    comps_matches(split_on(pat, GlobSeg::Slash), split_on(path, '/'))
}

/// Whether matching `pat` against `path` reaches a `/` or `**` nested inside an alternation
/// (or a `**` sharing a component with other segments), where matching is not defined.
pub open spec fn glob_stuck(pat: Seq<GlobSeg>, path: Seq<char>) -> bool {
    comps_stuck(split_on(pat, GlobSeg::Slash), split_on(path, '/'))
}

} // verus!

verus! {

/// A leading alternation matches where one of its branches, followed by the rest, does.
pub proof fn lemma_alt_match_intro(m: Seq<GlobSeg>, c: Seq<char>, i: int)
    requires
        m.len() > 0,
        m[0] is Alt,
        0 <= i < m[0]->Alt_0.len(),
        seq_matches(m[0]->Alt_0[i] + m.drop_first(), c),
    ensures
        seq_matches(m, c),
{
}

/// Where a leading alternation matches, some branch followed by the rest does.
pub proof fn lemma_alt_match_elim(m: Seq<GlobSeg>, c: Seq<char>) -> (i: int)
    requires
        m.len() > 0,
        m[0] is Alt,
        seq_matches(m, c),
    ensures
        0 <= i < m[0]->Alt_0.len(),
        seq_matches(m[0]->Alt_0[i] + m.drop_first(), c),
{
    choose|i: int| #![trigger m[0]->Alt_0[i]] 0 <= i < m[0]->Alt_0.len() && seq_matches(m[0]->Alt_0[i] + m.drop_first(), c)
}

} // verus!
