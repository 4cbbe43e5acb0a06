use vstd::prelude::*;
use crate::model::{
    Segment,
    CharClass,
    ClassItem,
    GlobSeg,
    refs_model,
    segs_model,
    branches_model,
    lemma_segs_model,
    lemma_branches_model,
};
use crate::semantics::{
    split_on,
    is_double_star_component,
    comps_matches,
    comps_stuck,
    glob_matches,
    glob_stuck,
    seq_size,
    item_hit,
    class_hit,
    seq_matches,
    seq_stuck,
    lemma_first_smaller,
    lemma_alt_smaller,
};

use crate::wellformed::{flat, flat_item, alternations_flat, lemma_flat_items};

verus! {

/// Whether `c` is admitted by `class`.
pub fn class_matches(class: &CharClass, c: char) -> (r: bool)
    ensures
        r == class_hit(class.negated, class.items@, c),
        r == ((exists|i: int|
            0 <= i < class.items@.len() && match #[trigger] class.items@[i] {
                ClassItem::Char(x) => x == c,
                ClassItem::Range(a, b) => a <= c && c <= b,
            }) != class.negated),
{
    proof {
        crate::laws::law_class_admits(class.negated, class.items@, c);
    }
    let mut hit = false;
    let mut i: usize = 0;
    while i < class.items.len()
        invariant
            i <= class.items@.len(),
            hit == (exists|j: int| 0 <= j < i && #[trigger] item_hit(class.items@[j], c)),
        decreases class.items@.len() - i,
    {
        let h = match class.items[i] {
            ClassItem::Char(ch) => ch == c,
            ClassItem::Range(a, b) => a <= c && c <= b,
        };
        if h {
            hit = true;
        }
        assert(h == item_hit(class.items@[i as int], c));
        i += 1;
    }
    hit != class.negated
}

/// Where no shorter span after a `*` matches and the span of length `k` gets stuck, the whole gets stuck.
proof fn lemma_star_stuck(m: Seq<GlobSeg>, c: Seq<char>, k: int)
    requires
        m.len() > 0,
        m[0] == GlobSeg::Star,
        0 <= k <= c.len(),
        forall|j: int| #![trigger c.skip(j)] 0 <= j < k ==> !seq_matches(m.drop_first(), c.skip(j)),
        seq_stuck(m.drop_first(), c.skip(k)),
    ensures
        seq_stuck(m, c),
{
}

/// Where no earlier branch matches and branch `i` gets stuck, the whole gets stuck.
proof fn lemma_alt_stuck(m: Seq<GlobSeg>, c: Seq<char>, i: int)
    requires
        m.len() > 0,
        m[0] is Alt,
        0 <= i < m[0]->Alt_0.len(),
        forall|j: int| #![trigger m[0]->Alt_0[j]] 0 <= j < i ==> !seq_matches(m[0]->Alt_0[j] + m.drop_first(), c),
        seq_stuck(m[0]->Alt_0[i] + m.drop_first(), c),
    ensures
        seq_stuck(m, c),
{
}

/// Appends references to every element of `src` to `dst`.
fn push_refs<'a>(dst: &mut Vec<&'a Segment>, src: &'a Vec<Segment>)
    ensures
        refs_model(final(dst)@) == refs_model(old(dst)@) + segs_model(src@),
{
    proof {
        lemma_segs_model(src@);
    }
    let ghost d0 = refs_model(dst@);
    let mut k: usize = 0;
    while k < src.len()
        invariant
            k <= src@.len(),
            segs_model(src@).len() == src@.len(),
            forall|j: int| 0 <= j < src@.len() ==> #[trigger] segs_model(src@)[j] == src@[j]@,
            refs_model(dst@) == d0 + segs_model(src@).take(k as int),
        decreases src@.len() - k,
    {
        let ghost before = dst@;
        dst.push(&src[k]);
        assert(dst@ == before.push(&src@[k as int]));
        assert(refs_model(dst@) =~= refs_model(before).push(src@[k as int]@));
        assert(segs_model(src@).take(k + 1) =~= segs_model(src@).take(k as int).push(src@[k as int]@));
        k += 1;
    }
    assert(segs_model(src@).take(k as int) =~= segs_model(src@));
}

/// Appends `src[from..]` to `dst`.
fn push_tail<'a>(dst: &mut Vec<&'a Segment>, src: &Vec<&'a Segment>, from: usize)
    requires
        from <= src@.len(),
    ensures
        refs_model(final(dst)@) == refs_model(old(dst)@) + refs_model(src@).skip(from as int),
{
    let ghost d0 = refs_model(dst@);
    let mut k: usize = from;
    while k < src.len()
        invariant
            from <= k <= src@.len(),
            refs_model(dst@) == d0 + refs_model(src@).subrange(from as int, k as int),
        decreases src@.len() - k,
    {
        let ghost before = dst@;
        dst.push(src[k]);
        assert(refs_model(dst@) =~= refs_model(before).push(src@[k as int]@));
        assert(refs_model(src@).subrange(from as int, k + 1) =~= refs_model(src@).subrange(from as int, k as int).push(src@[k as int]@));
        k += 1;
    }
    assert(refs_model(src@).subrange(from as int, k as int) =~= refs_model(src@).skip(from as int));
}

/// Whether the segments `segs[from..]` match exactly the characters `cs[at..]`.
pub fn match_seq<'a>(segs: &Vec<&'a Segment>, from: usize, cs: &Vec<char>, at: usize) -> (r: bool)
    requires
        from <= segs@.len(),
        at <= cs@.len(),
        !seq_stuck(refs_model(segs@).skip(from as int), cs@.skip(at as int)),
    ensures
        r == seq_matches(refs_model(segs@).skip(from as int), cs@.skip(at as int)),
    decreases seq_size(refs_model(segs@).skip(from as int)),
{
    let ghost m = refs_model(segs@).skip(from as int);
    let ghost c = cs@.skip(at as int);
    let cs_len = cs.len();
    if from == segs.len() {
        assert(m.len() == 0);
        return at == cs.len();
    }
    let ghost rest = m.drop_first();
    assert(m[0] == segs@[from as int]@);
    assert(rest =~= refs_model(segs@).skip(from + 1));
    proof {
        lemma_first_smaller(m);
    }
    match segs[from] {
        Segment::Literal(lit) => {
            let lc = crate::text::str_chars(lit.as_str());
            let n = lc.len();
            assert(m[0] == GlobSeg::Literal(lc@));
            if cs.len() - at < n {
                assert(c.len() < lc@.len());
                return false;
            }
            let mut k: usize = 0;
            while k < n
                invariant
                    k <= n,
                    n == lc@.len(),
                    at + n <= cs@.len(),
                    cs@.len() <= usize::MAX,
                    c == cs@.skip(at as int),
                    m == refs_model(segs@).skip(from as int),
                    m.len() > 0,
                    m[0] == GlobSeg::Literal(lc@),
                    forall|j: int| 0 <= j < k ==> cs@[at + j] == lc@[j],
                decreases n - k,
            {
                if cs[at + k] != lc[k] {
                    assert(c.take(n as int)[k as int] == cs@[at + k]);
                    assert(c.take(n as int) != lc@);
                    return false;
                }
                k += 1;
            }
            assert(c.take(n as int) =~= lc@);
            assert(c.skip(n as int) =~= cs@.skip(at + n));
            match_seq(segs, from + 1, cs, at + n)
        },
        Segment::Star => {
            let mut k: usize = at;
            loop
                invariant
                    at <= k <= cs@.len(),
                    from + 1 <= segs@.len(),
                    segs@.len() <= usize::MAX,
                    cs@.len() <= usize::MAX,
                    m == refs_model(segs@).skip(from as int),
                    c == cs@.skip(at as int),
                    m[0] == GlobSeg::Star,
                    seq_size(rest) < seq_size(m),
                    rest == m.drop_first(),
                    rest == refs_model(segs@).skip(from + 1),
                    !seq_stuck(m, c),
                    forall|j: int| #![trigger c.skip(j)] 0 <= j < k - at ==> !seq_matches(rest, c.skip(j)),
                decreases cs@.len() - k,
            {
                assert(c.skip(k - at) =~= cs@.skip(k as int));
                proof {
                    if seq_stuck(rest, cs@.skip(k as int)) {
                        lemma_star_stuck(m, c, k - at);
                    }
                }
                if match_seq(segs, from + 1, cs, k) {
                    return true;
                }
                if k == cs.len() {
                    assert(forall|j: int| #![trigger c.skip(j)] 0 <= j <= k - at ==> !seq_matches(rest, c.skip(j)));
                    return false;
                }
                k += 1;
            }
        },
        Segment::Question => {
            if at == cs.len() {
                return false;
            }
            assert(c.skip(1) =~= cs@.skip(at + 1));
            match_seq(segs, from + 1, cs, at + 1)
        },
        Segment::Class(class) => {
            if at == cs.len() {
                return false;
            }
            if !class_matches(class, cs[at]) {
                return false;
            }
            assert(c.skip(1) =~= cs@.skip(at + 1));
            match_seq(segs, from + 1, cs, at + 1)
        },
        Segment::Alt(branches) => {
            let ghost bsm = branches_model(branches@);
            proof {
                lemma_branches_model(branches@);
                lemma_alt_smaller(m);
            }
            assert(m[0] == GlobSeg::Alt(bsm));
            let mut i: usize = 0;
            while i < branches.len()
                invariant
                    i <= branches@.len(),
                    from + 1 <= segs@.len(),
                    segs@.len() <= usize::MAX,
                    at <= cs@.len(),
                    m == refs_model(segs@).skip(from as int),
                    c == cs@.skip(at as int),
                    m[0] == GlobSeg::Alt(bsm),
                    bsm == branches_model(branches@),
                    bsm.len() == branches@.len(),
                    forall|j: int| 0 <= j < branches@.len() ==> #[trigger] bsm[j] == segs_model(branches@[j]@),
                    forall|j: int| 0 <= j < bsm.len() ==> #[trigger] seq_size(bsm[j] + rest) < seq_size(m),
                    rest == m.drop_first(),
                    rest == refs_model(segs@).skip(from + 1),
                    !seq_stuck(m, c),
                    forall|j: int| #![trigger bsm[j]] 0 <= j < i ==> !seq_matches(bsm[j] + rest, c),
                decreases branches@.len() - i,
            {
                let branch = &branches[i];
                let mut combined: Vec<&Segment> = Vec::new();
                push_refs(&mut combined, branch);
                push_tail(&mut combined, segs, from + 1);
                assert(refs_model(combined@).skip(0) =~= bsm[i as int] + rest);
                proof {
                    if seq_stuck(bsm[i as int] + rest, c) {
                        lemma_alt_stuck(m, c, i as int);
                    }
                }
                if match_seq(&combined, 0, cs, at) {
                    return true;
                }
                i += 1;
            }
            false
        },
        Segment::Slash => {
            assert(seq_stuck(m, c));
            false
        },
        Segment::DoubleStar => {
            assert(seq_stuck(m, c));
            false
        },
    }
}


/// Whether `segs` matches exactly the characters of one path component.
pub fn match_component<'a>(segs: &Vec<&'a Segment>, text: &Vec<char>) -> (r: bool)
    requires
        !seq_stuck(refs_model(segs@), text@),
    ensures
        r == seq_matches(refs_model(segs@), text@),
{
    assert(refs_model(segs@).skip(0) =~= refs_model(segs@));
    assert(text@.skip(0) =~= text@);
    match_seq(segs, 0, text, 0)
}

/// A pattern piece between two `/`: segments that must match one path component, or a `**`
/// that stands for any number of whole components.
pub enum Component<'a> {
    One(Vec<&'a Segment>),
    DoubleStar,
}

/// The segments a component stands for.
pub open spec fn comp_model(c: Component) -> Seq<GlobSeg> {
    match c {
        Component::One(v) => refs_model(v@),
        Component::DoubleStar => seq![GlobSeg::DoubleStar],
    }
}

/// The segments each component stands for.
pub open spec fn comps_model(v: Seq<Component>) -> Seq<Seq<GlobSeg>> {
    v.map_values(|c: Component| comp_model(c))
}

/// A component is marked `**` exactly when it consists of a single `**`.
pub open spec fn comps_tagged(v: Seq<Component>) -> bool {
    forall|i: int| 0 <= i < v.len() ==> (#[trigger] v[i] is DoubleStar) == is_double_star_component(comp_model(v[i]))
}

/// The characters of each path component.
pub open spec fn texts_model(v: Seq<Vec<char>>) -> Seq<Seq<char>> {
    v.map_values(|t: Vec<char>| t@)
}

/// The component made of `segs[start..end]`.
pub fn to_component<'a>(segs: &'a Vec<Segment>, start: usize, end: usize) -> (c: Component<'a>)
    requires
        start <= end <= segs@.len(),
    ensures
        comp_model(c) == segs_model(segs@).subrange(start as int, end as int),
        (c is DoubleStar) == is_double_star_component(comp_model(c)),
{
    proof {
        lemma_segs_model(segs@);
    }
    if end - start == 1 && matches!(segs[start], Segment::DoubleStar) {
        assert(segs_model(segs@).subrange(start as int, end as int) =~= seq![GlobSeg::DoubleStar]);
        Component::DoubleStar
    } else {
        let mut v: Vec<&'a Segment> = Vec::new();
        let mut k: usize = start;
        while k < end
            invariant
                start <= k <= end,
                end <= segs@.len(),
                segs_model(segs@).len() == segs@.len(),
                forall|j: int| 0 <= j < segs@.len() ==> #[trigger] segs_model(segs@)[j] == segs@[j]@,
                refs_model(v@) == segs_model(segs@).subrange(start as int, k as int),
            decreases end - k,
        {
            let ghost before = v@;
            v.push(&segs[k]);
            assert(refs_model(v@) =~= refs_model(before).push(segs@[k as int]@));
            assert(segs_model(segs@).subrange(start as int, k + 1) =~= segs_model(segs@).subrange(
                start as int,
                k as int,
            ).push(segs@[k as int]@));
            k += 1;
        }
        proof {
            if is_double_star_component(refs_model(v@)) {
                assert(refs_model(v@).len() == 1);
                assert(refs_model(v@)[0] == GlobSeg::DoubleStar);
                assert(segs@[start as int]@ == GlobSeg::DoubleStar);
            }
        }
        Component::One(v)
    }
}

/// Cuts a pattern at its top-level `/` segments.
pub fn split_components<'a>(segs: &'a Vec<Segment>) -> (r: Vec<Component<'a>>)
    ensures
        comps_model(r@) == split_on(segs_model(segs@), GlobSeg::Slash),
        comps_tagged(r@),
{
    proof {
        lemma_segs_model(segs@);
    }
    let ghost m = segs_model(segs@);
    let mut comps: Vec<Component<'a>> = Vec::new();
    let mut start: usize = 0;
    let mut i: usize = 0;
    assert(m.take(0) =~= Seq::<GlobSeg>::empty());
    while i < segs.len()
        invariant
            start <= i <= segs@.len(),
            m == segs_model(segs@),
            m.len() == segs@.len(),
            forall|j: int| 0 <= j < segs@.len() ==> #[trigger] m[j] == segs@[j]@,
            split_on(m.take(i as int), GlobSeg::Slash) == comps_model(comps@).push(m.subrange(start as int, i as int)),
            comps_tagged(comps@),
        decreases segs@.len() - i,
    {
        let ghost before = comps@;
        assert(m.take(i + 1).drop_last() =~= m.take(i as int));
        assert(m.take(i + 1).last() == m[i as int]);
        if matches!(segs[i], Segment::Slash) {
            assert(m[i as int] == GlobSeg::Slash);
            let c = to_component(segs, start, i);
            comps.push(c);
            start = i + 1;
            assert(comps_model(comps@) =~= comps_model(before).push(comp_model(c)));
            assert(m.subrange(start as int, i + 1) =~= Seq::<GlobSeg>::empty());
        } else {
            assert(m[i as int] != GlobSeg::Slash);
            assert(m.subrange(start as int, i + 1) =~= m.subrange(start as int, i as int).push(m[i as int]));
            assert(comps_model(comps@).push(m.subrange(start as int, i + 1)) =~= comps_model(comps@).push(
                m.subrange(start as int, i as int),
            ).update(comps@.len() as int, m.subrange(start as int, i as int).push(m[i as int])));
        }
        i += 1;
    }
    let ghost before = comps@;
    let c = to_component(segs, start, segs.len());
    comps.push(c);
    assert(m.take(segs@.len() as int) =~= m);
    assert(comps_model(comps@) =~= comps_model(before).push(comp_model(c)));
    comps
}

/// Cuts a path at every `/`.
pub fn split_path(cs: &Vec<char>) -> (r: Vec<Vec<char>>)
    ensures
        texts_model(r@) == split_on(cs@, '/'),
{
    let mut parts: Vec<Vec<char>> = Vec::new();
    let mut cur: Vec<char> = Vec::new();
    let mut i: usize = 0;
    assert(cs@.take(0) =~= Seq::<char>::empty());
    while i < cs.len()
        invariant
            i <= cs@.len(),
            split_on(cs@.take(i as int), '/') == texts_model(parts@).push(cur@),
        decreases cs@.len() - i,
    {
        let ghost before = parts@;
        let ghost cur0 = cur@;
        assert(cs@.take(i + 1).drop_last() =~= cs@.take(i as int));
        assert(cs@.take(i + 1).last() == cs@[i as int]);
        if cs[i] == '/' {
            let done = cur;
            cur = Vec::new();
            parts.push(done);
            assert(texts_model(parts@) =~= texts_model(before).push(cur0));
        } else {
            cur.push(cs[i]);
            assert(texts_model(parts@).push(cur@) =~= texts_model(parts@).push(cur0).update(
                parts@.len() as int,
                cur0.push(cs@[i as int]),
            ));
        }
        i += 1;
    }
    let ghost before = parts@;
    let ghost cur0 = cur@;
    parts.push(cur);
    assert(cs@.take(cs@.len() as int) =~= cs@);
    assert(texts_model(parts@) =~= texts_model(before).push(cur0));
    parts
}

/// Whether the pattern components `pat[pf..]` match the path components `path[qf..]`.
pub fn match_components<'a>(pat: &Vec<Component<'a>>, pf: usize, path: &Vec<Vec<char>>, qf: usize) -> (r: bool)
    requires
        pf <= pat@.len(),
        qf <= path@.len(),
        comps_tagged(pat@),
        !comps_stuck(comps_model(pat@).skip(pf as int), texts_model(path@).skip(qf as int)),
    ensures
        r == comps_matches(comps_model(pat@).skip(pf as int), texts_model(path@).skip(qf as int)),
    decreases pat@.len() - pf,
{
    let ghost p = comps_model(pat@).skip(pf as int);
    let ghost q = texts_model(path@).skip(qf as int);
    let path_len = path.len();
    if pf == pat.len() {
        return qf == path.len();
    }
    let ghost rest = p.drop_first();
    assert(rest =~= comps_model(pat@).skip(pf + 1));
    assert(p[0] == comp_model(pat@[pf as int]));
    match &pat[pf] {
        Component::DoubleStar => {
            assert(is_double_star_component(p[0]));
            let mut k: usize = qf;
            loop
                invariant
                    qf <= k <= path@.len(),
                    pf + 1 <= pat@.len(),
                    pat@.len() <= usize::MAX,
                    path@.len() <= usize::MAX,
                    comps_tagged(pat@),
                    p == comps_model(pat@).skip(pf as int),
                    q == texts_model(path@).skip(qf as int),
                    p.len() > 0,
                    is_double_star_component(p[0]),
                    rest == p.drop_first(),
                    rest == comps_model(pat@).skip(pf + 1),
                    !comps_stuck(p, q),
                    forall|j: int| #![trigger q.skip(j)] 0 <= j < k - qf ==> !comps_matches(rest, q.skip(j)),
                decreases path@.len() - k,
            {
                assert(q.skip(k - qf) =~= texts_model(path@).skip(k as int));
                proof {
                    if comps_stuck(rest, q.skip(k - qf)) {
                        assert(comps_stuck(p, q));
                    }
                }
                if match_components(pat, pf + 1, path, k) {
                    return true;
                }
                if k == path.len() {
                    assert(forall|j: int| #![trigger q.skip(j)] 0 <= j <= k - qf ==> !comps_matches(rest, q.skip(j)));
                    return false;
                }
                k += 1;
            }
        },
        Component::One(segs) => {
            assert(!is_double_star_component(p[0]));
            if qf == path.len() {
                return false;
            }
            assert(q[0] == path@[qf as int]@);
            assert(q.drop_first() =~= texts_model(path@).skip(qf + 1));
            if !match_component(segs, &path[qf]) {
                return false;
            }
            match_components(pat, pf + 1, path, qf + 1)
        },
    }
}


/// Whether `segs` holds no `/` and no `**`, at any nesting level.
pub fn is_flat(segs: &Vec<Segment>) -> (r: bool)
    ensures
        r == flat(segs_model(segs@)),
    decreases segs, 1int,
{
    proof {
        lemma_segs_model(segs@);
        lemma_flat_items(segs_model(segs@));
    }
    let ghost m = segs_model(segs@);
    let mut i: usize = 0;
    while i < segs.len()
        invariant
            i <= segs@.len(),
            m == segs_model(segs@),
            m.len() == segs@.len(),
            forall|j: int| 0 <= j < segs@.len() ==> #[trigger] m[j] == segs@[j]@,
            forall|t: int| 0 <= t < i ==> #[trigger] flat_item(m, t),
        decreases segs@.len() - i,
    {
        match &segs[i] {
            Segment::Slash => {
                assert(!flat_item(m, i as int));
                return false;
            },
            Segment::DoubleStar => {
                assert(!flat_item(m, i as int));
                return false;
            },
            Segment::Alt(bs) => {
                proof {
                    assert(decreases_to!(segs => bs));
                }
                assert(m[i as int]->Alt_0 == branches_model(bs@));
                if !branches_flat(bs) {
                    assert(!flat_item(m, i as int));
                    return false;
                }
            },
            _ => {},
        }
        assert(flat_item(m, i as int));
        i += 1;
    }
    true
}

/// Whether every branch of an alternation is flat.
pub fn branches_flat(bs: &Vec<Vec<Segment>>) -> (r: bool)
    ensures
        r == (forall|j: int| 0 <= j < branches_model(bs@).len() ==> flat(#[trigger] branches_model(bs@)[j])),
    decreases bs, 0int,
{
    proof {
        lemma_branches_model(bs@);
    }
    let ghost bm = branches_model(bs@);
    let mut j: usize = 0;
    while j < bs.len()
        invariant
            j <= bs@.len(),
            bm == branches_model(bs@),
            bm.len() == bs@.len(),
            forall|k: int| 0 <= k < bs@.len() ==> #[trigger] bm[k] == segs_model(bs@[k]@),
            forall|k: int| 0 <= k < j ==> flat(#[trigger] bm[k]),
        decreases bs@.len() - j,
    {
        proof {
            assert(decreases_to!(bs => bs@[j as int]));
        }
        if !is_flat(&bs[j]) {
            assert(!flat(bm[j as int]));
            return false;
        }
        j += 1;
    }
    true
}

/// Whether every alternation at the top of `segs` has only flat branches.
pub fn alternations_are_flat(segs: &Vec<Segment>) -> (r: bool)
    ensures
        r == alternations_flat(segs_model(segs@)),
{
    proof {
        lemma_segs_model(segs@);
    }
    let ghost m = segs_model(segs@);
    let mut i: usize = 0;
    while i < segs.len()
        invariant
            i <= segs@.len(),
            m == segs_model(segs@),
            m.len() == segs@.len(),
            forall|j: int| 0 <= j < segs@.len() ==> #[trigger] m[j] == segs@[j]@,
            forall|t: int| #![trigger m[t]] 0 <= t < i && m[t] is Alt ==> forall|j: int|
                #![trigger m[t]->Alt_0[j]]
                0 <= j < m[t]->Alt_0.len() ==> flat(m[t]->Alt_0[j]),
        decreases segs@.len() - i,
    {
        match &segs[i] {
            Segment::Alt(bs) => {
                assert(m[i as int]->Alt_0 == branches_model(bs@));
                if !branches_flat(bs) {
                    return false;
                }
            },
            _ => {},
        }
        i += 1;
    }
    true
}

} // verus!
