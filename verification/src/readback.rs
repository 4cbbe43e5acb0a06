use vstd::prelude::*;
use crate::model::{GlobSeg, ClassItem};
use crate::render::{
    escape_literal,
    must_escape,
    render_class_spec,
    item_start,
    start_escaped,
    render_item_at,
    render_items_from,
    render_seg,
    render_seq,
    render_branches,
};
use crate::grammar::{parse_seq, class_items, parse_class};
use crate::canonical::{
    strictly_sorted,
    sorted_distinct,
    join,
    lemma_sorted_distinct_props,
    lemma_sorted_unique,
};
use crate::render::lemma_render_branches;
use crate::semantics::{seq_size, seg_size, branches_size, lemma_branch_size};
use crate::grammar::{flush, parse_alt, edges_ok, edge_item, lemma_edges_items, ranges_ok, item_ok};
use crate::wellformed::{well_formed, chain_free, ok_at};

verus! {

/// The escaped text of one character.
pub open spec fn escape_char(c: char) -> Seq<char> {
    if must_escape(c) {
        seq!['\\', c]
    } else {
        seq![c]
    }
}

/// Escaping works character by character.
pub proof fn lemma_escape_concat(a: Seq<char>, b: Seq<char>)
    ensures
        escape_literal(a + b) == escape_literal(a) + escape_literal(b),
    decreases b.len(),
{
    if b.len() == 0 {
        assert(a + b =~= a);
        assert(escape_literal(a) + escape_literal(b) =~= escape_literal(a));
    } else {
        lemma_escape_concat(a, b.drop_last());
        assert((a + b).drop_last() =~= a + b.drop_last());
        assert((a + b).last() == b.last());
        assert(escape_literal(a + b) =~= escape_literal(a) + escape_literal(b));
    }
}

/// Reading the escaped text of `x` just adds `x` to the pending literal.
pub proof fn lemma_parse_escaped(cs: Seq<char>, pos: int, in_alt: bool, lit: Seq<char>, acc: Seq<GlobSeg>, x: Seq<char>)
    requires
        0 <= pos,
        pos + escape_literal(x).len() <= cs.len(),
        cs.subrange(pos, pos + escape_literal(x).len()) == escape_literal(x),
    ensures
        parse_seq(cs, pos, in_alt, lit, acc) == parse_seq(cs, pos + escape_literal(x).len(), in_alt, lit + x, acc),
    decreases x.len(),
{
    if x.len() == 0 {
        assert(lit + x =~= lit);
    } else {
        let c = x[0];
        let x1 = x.drop_first();
        lemma_escape_concat(seq![c], x1);
        assert(seq![c] + x1 =~= x);
        assert(seq![c].drop_last() =~= Seq::<char>::empty());
        assert(escape_literal(Seq::<char>::empty()) =~= Seq::<char>::empty());
        assert(seq![c].last() == c);
        assert(escape_literal(seq![c]) =~= escape_char(c));
        let k = escape_char(c).len();
        assert(cs.subrange(pos, pos + escape_literal(x).len())[0] == cs[pos]);
        if must_escape(c) {
            assert(cs[pos] == '\\');
            assert(cs.subrange(pos, pos + escape_literal(x).len())[1] == cs[pos + 1]);
            assert(cs[pos + 1] == c);
        } else {
            assert(cs[pos] == c);
        }
        assert(cs.subrange(pos + k, pos + k + escape_literal(x1).len()) =~= escape_literal(x1)) by {
            assert forall|i: int| 0 <= i < escape_literal(x1).len() implies cs.subrange(pos + k, pos + k + escape_literal(x1).len())[i] == escape_literal(x1)[i] by {
                assert(cs.subrange(pos, pos + escape_literal(x).len())[k + i] == escape_literal(x)[k + i]);
            }
        }
        lemma_parse_escaped(cs, pos + k, in_alt, lit.push(c), acc, x1);
        assert(lit.push(c) + x1 =~= lit + x);
    }
}


/// A class that the parser can give: it has items, and each range is increasing and does
/// not end with `]`.
pub open spec fn class_reads_back(negated: bool, items: Seq<ClassItem>) -> bool {
    items.len() > 0 && ranges_ok(items)
}

/// A segment whose canonical text, on its own, is read back as that segment: a literal is
/// non-empty, a class reads back, and an alternation has a non-empty
/// branch and its branches' texts are already in strictly increasing order.
pub open spec fn seg_reads_back(x: GlobSeg) -> bool {
    match x {
        GlobSeg::Literal(l) => l.len() > 0,
        GlobSeg::Class(negated, items) => class_reads_back(negated, items),
        GlobSeg::Alt(bs) => strictly_sorted(render_branches(bs)) && exists|j: int|
            0 <= j < bs.len() && #[trigger] bs[j].len() > 0,
        _ => true,
    }
}

/// A pattern whose canonical text is read back as the same pattern: every segment reads
/// back, no literal directly follows a literal, no `*` is directly followed by `*` or `**`,
/// and the same holds inside every alternation branch.
pub open spec fn reads_back(g: Seq<GlobSeg>) -> bool
    decreases g,
{
    forall|i: int|
        #![trigger g[i]]
        0 <= i < g.len() ==> {
            &&& seg_reads_back(g[i])
            &&& g[i] is Literal && i + 1 < g.len() ==> !(g[i + 1] is Literal)
            &&& g[i] is Star && i + 1 < g.len() ==> !(g[i + 1] is Star) && !(g[i + 1] is DoubleStar)
            &&& g[i] is Alt ==> forall|j: int|
                #![trigger g[i]->Alt_0[j]]
                0 <= j < g[i]->Alt_0.len() ==> reads_back(g[i]->Alt_0[j])
        }
}

/// `t` stands in `cs` from `pos` on.
pub open spec fn text_at(cs: Seq<char>, pos: int, t: Seq<char>) -> bool {
    0 <= pos && pos + t.len() <= cs.len() && cs.subrange(pos, pos + t.len()) == t
}

/// Text standing at `pos` splits into its parts.
pub proof fn lemma_text_at(cs: Seq<char>, pos: int, a: Seq<char>, b: Seq<char>)
    requires
        text_at(cs, pos, a + b),
    ensures
        text_at(cs, pos, a),
        text_at(cs, pos + a.len(), b),
        forall|i: int| 0 <= i < a.len() ==> cs[pos + i] == #[trigger] a[i],
        forall|i: int| 0 <= i < b.len() ==> cs[pos + a.len() + i] == #[trigger] b[i],
{
    let t = a + b;
    assert forall|i: int| 0 <= i < a.len() implies cs[pos + i] == #[trigger] a[i] by {
        assert(cs.subrange(pos, pos + t.len())[i] == t[i]);
    }
    assert forall|i: int| 0 <= i < b.len() implies cs[pos + a.len() + i] == #[trigger] b[i] by {
        assert(cs.subrange(pos, pos + t.len())[a.len() + i] == t[a.len() + i]);
    }
    assert(cs.subrange(pos, pos + a.len()) =~= a);
    assert(cs.subrange(pos + a.len(), pos + a.len() + b.len()) =~= b);
}

/// `render_seq` read from the front.
pub proof fn lemma_render_seq_front(g: Seq<GlobSeg>)
    requires
        g.len() > 0,
    ensures
        render_seq(g) == render_seg(g[0]) + render_seq(g.drop_first()),
    decreases g.len(),
{
    if g.len() == 1 {
        assert(g.drop_last() =~= Seq::<GlobSeg>::empty());
        assert(g.drop_first() =~= Seq::<GlobSeg>::empty());
        assert(render_seq(g) =~= render_seg(g[0]) + render_seq(g.drop_first()));
    } else {
        lemma_render_seq_front(g.drop_last());
        assert(g.drop_last().drop_first() =~= g.drop_first().drop_last());
        assert(g.drop_first().last() == g.last());
        assert(render_seq(g) =~= render_seg(g[0]) + render_seq(g.drop_first()));
    }
}


/// Reading the items of a class from item `k` on, when their text and the closing `]` stand
/// at `pos`, gives back all the items and the position just after the `]`.
proof fn lemma_class_items_read(
    cs: Seq<char>,
    start: int,
    pos: int,
    negated: bool,
    items: Seq<ClassItem>,
    k: int,
)
    requires
        class_reads_back(negated, items),
        0 <= k <= items.len(),
        text_at(cs, pos, render_items_from(negated, items, k) + seq![']']),
    ensures
        class_items(cs, start, pos, k == 0, items.take(k)) == Ok::<(Seq<ClassItem>, int), (int, Seq<char>)>(
            (items, pos + render_items_from(negated, items, k).len() + 1),
        ),
    decreases items.len() - k,
{
    let n = items.len();
    if k == n {
        assert(render_items_from(negated, items, k) =~= Seq::<char>::empty());
        lemma_text_at(cs, pos, render_items_from(negated, items, k), seq![']']);
        assert(seq![']'][0] == ']');
        assert(cs[pos] == ']');
        assert(items.take(k) =~= items);
    } else {
        let it = items[k];
        let a = render_item_at(negated, items, k);
        let b = render_items_from(negated, items, k + 1) + seq![']'];
        assert(render_items_from(negated, items, k) + seq![']'] =~= a + b);
        lemma_text_at(cs, pos, a, b);
        assert(b.len() >= 1);
        if k + 1 < n {
            let a2 = render_item_at(negated, items, k + 1);
            assert(b =~= a2 + (render_items_from(negated, items, k + 2) + seq![']']));
            assert(b[0] == a2[0]);
            if k + 2 == n {
                assert(render_items_from(negated, items, k + 2) =~= Seq::<char>::empty());
                if a2.len() == 1 {
                    assert(b[1] == ']');
                }
            }
        } else {
            assert(render_items_from(negated, items, k + 1) =~= Seq::<char>::empty());
            assert(b =~= seq![']']);
        }
        let c = item_start(it);
        let esc = start_escaped(negated, items, k);
        let q = pos + if esc { 2int } else { 1int };
        if esc {
            assert(a[0] == '\\' && a[1] == c);
            assert(cs[pos] == a[0]);
            assert(cs[pos + 1] == a[1]);
        } else {
            assert(a[0] == c);
            assert(cs[pos] == a[0]);
            assert(c != '\\' && (c == ']' ==> k == 0));
        }
        assert(q == pos + a.len() - if it is Range { 2int } else { 0int });
        assert(items[k] == it);
        match it {
            ClassItem::Char(_) => {
                assert(q == pos + a.len());
                assert(cs[q] == b[0]);
                if b.len() > 1 {
                    assert(cs[q + 1] == b[1]);
                }
                assert(!(q + 1 < cs.len() && cs[q] == '-' && cs[q + 1] != ']'));
            },
            ClassItem::Range(x, y) => {
                assert(item_ok(items[k]));
                assert(a[a.len() - 2] == '-' && a[a.len() - 1] == y);
                assert(cs[q] == a[a.len() - 2]);
                assert(cs[q + 1] == a[a.len() - 1]);
                assert(x < y && y != ']');
            },
        }
        assert(class_items(cs, start, pos, k == 0, items.take(k)) == class_items(
            cs,
            start,
            pos + a.len(),
            false,
            items.take(k).push(it),
        ));
        assert(items.take(k).push(it) =~= items.take(k + 1));
        lemma_class_items_read(cs, start, pos + a.len(), negated, items, k + 1);
    }
}

/// A class that reads back, written at `pos`, is parsed as itself, ending just after its
/// `]`.
proof fn lemma_class_read(cs: Seq<char>, pos: int, negated: bool, items: Seq<ClassItem>)
    requires
        class_reads_back(negated, items),
        text_at(cs, pos, render_class_spec(negated, items)),
    ensures
        parse_class(cs, pos) == Ok::<(GlobSeg, int), (int, Seq<char>)>(
            (GlobSeg::Class(negated, items), pos + render_class_spec(negated, items).len()),
        ),
{
    let neg_t = if negated { seq!['!'] } else { Seq::<char>::empty() };
    let a = seq!['['] + neg_t;
    let b = render_items_from(negated, items, 0) + seq![']'];
    assert(render_class_spec(negated, items) =~= a + b);
    lemma_text_at(cs, pos, a, b);
    let a0 = render_item_at(negated, items, 0);
    assert(b =~= a0 + (render_items_from(negated, items, 1) + seq![']']));
    assert(b[0] == a0[0]);
    assert(a[0] == '[');
    assert(cs[pos + 0] == a[0]);
    assert(cs[pos] == '[');
    if negated {
        assert(a[1] == '!');
        assert(cs[pos + 1] == '!');
    } else {
        assert(cs[pos + 1] == b[0]);
        assert(cs[pos + 1] != '!' && cs[pos + 1] != '^');
    }
    assert(items.take(0) =~= Seq::<ClassItem>::empty());
    lemma_class_items_read(cs, pos, pos + a.len(), negated, items, 0);
}

/// Where a sequence may stop: at the end of the input, or inside an alternation before a
/// `,` or `}`.
pub open spec fn stops_at(cs: Seq<char>, e: int, in_alt: bool) -> bool {
    e == cs.len() || (in_alt && 0 <= e < cs.len() && (cs[e] == ',' || cs[e] == '}'))
}

/// What `reads_back` says of the first segment and of the rest.
pub proof fn lemma_reads_back_tail(g: Seq<GlobSeg>)
    requires
        reads_back(g),
        g.len() > 0,
    ensures
        reads_back(g.drop_first()),
        seg_reads_back(g[0]),
        g[0] is Literal && g.len() > 1 ==> !(g[1] is Literal),
        g[0] is Star && g.len() > 1 ==> !(g[1] is Star) && !(g[1] is DoubleStar),
        g[0] is Alt ==> forall|j: int|
            #![trigger g[0]->Alt_0[j]]
            0 <= j < g[0]->Alt_0.len() ==> reads_back(g[0]->Alt_0[j]),
{
    let r = g.drop_first();
    assert(g[0] == g[0]);
    assert forall|i: int| #![trigger r[i]] 0 <= i < r.len() implies {
        &&& seg_reads_back(r[i])
        &&& r[i] is Literal && i + 1 < r.len() ==> !(r[i + 1] is Literal)
        &&& r[i] is Star && i + 1 < r.len() ==> !(r[i + 1] is Star) && !(r[i + 1] is DoubleStar)
        &&& r[i] is Alt ==> forall|j: int|
            #![trigger r[i]->Alt_0[j]]
            0 <= j < r[i]->Alt_0.len() ==> reads_back(r[i]->Alt_0[j])
    } by {
        assert(r[i] == g[i + 1]);
        if i + 1 < r.len() {
            assert(r[i + 1] == g[i + 2]);
        }
    }
}

/// The canonical text of a segment that reads back is not empty, and it starts with `*`
/// exactly for `*` and `**`; it never starts with `,` or `}`.
pub proof fn lemma_seg_text_start(x: GlobSeg)
    requires
        seg_reads_back(x),
    ensures
        render_seg(x).len() > 0,
        (render_seg(x)[0] == '*') == (x is Star || x is DoubleStar),
        render_seg(x)[0] != ',' && render_seg(x)[0] != '}',
{
    match x {
        GlobSeg::Literal(l) => {
            let c = l[0];
            lemma_escape_concat(seq![c], l.drop_first());
            assert(seq![c] + l.drop_first() =~= l);
            assert(seq![c].drop_last() =~= Seq::<char>::empty());
            assert(escape_literal(Seq::<char>::empty()) =~= Seq::<char>::empty());
            assert(escape_literal(seq![c]) =~= escape_char(c));
            assert(render_seg(x) == escape_literal(l));
            assert(escape_literal(l)[0] == escape_char(c)[0]);
        },
        GlobSeg::Class(negated, items) => {
            assert(render_seg(x) == render_class_spec(negated, items));
        },
        GlobSeg::Alt(bs) => {
        },
        _ => {},
    }
}

/// `join` read from the front.
pub proof fn lemma_join_front(parts: Seq<Seq<char>>, sep: char)
    requires
        parts.len() > 0,
    ensures
        parts.len() == 1 ==> join(parts, sep) == parts[0],
        parts.len() > 1 ==> join(parts, sep) == parts[0] + seq![sep] + join(parts.drop_first(), sep),
    decreases parts.len(),
{
    if parts.len() > 2 {
        lemma_join_front(parts.drop_last(), sep);
        assert(parts.drop_last().drop_first() =~= parts.drop_first().drop_last());
        assert(parts.drop_first().last() == parts.last());
        assert(join(parts, sep) =~= parts[0] + seq![sep] + join(parts.drop_first(), sep));
    } else if parts.len() == 2 {
        assert(parts.drop_last().len() == 1);
        assert(parts.drop_first().len() == 1);
        assert(join(parts.drop_last(), sep) == parts.drop_last()[0]);
        assert(join(parts.drop_first(), sep) == parts.drop_first()[0]);
        assert(parts.drop_last()[0] == parts[0]);
        assert(parts.drop_first()[0] == parts.last());
        assert(join(parts, sep) =~= parts[0] + seq![sep] + join(parts.drop_first(), sep));
    }
}


/// The canonical text of an alternation whose branches are already in order is `{`, the
/// branches' texts joined with `,`, and `}`.
proof fn lemma_alt_text(bs: Seq<Seq<GlobSeg>>)
    requires
        strictly_sorted(render_branches(bs)),
    ensures
        render_seg(GlobSeg::Alt(bs)) == seq!['{'] + join(render_branches(bs), ',') + seq!['}'],
{
    let r = render_branches(bs);
    lemma_sorted_distinct_props(r);
    lemma_sorted_unique(sorted_distinct(r), r);
}

/// Reading the canonical text of a pattern that reads back, standing at `pos` and followed
/// by a place where the sequence stops, gives back what was pending followed by the
/// pattern, and stops just after the text. A pending literal must not be followed by
/// another literal.
pub proof fn lemma_seq_read(
    cs: Seq<char>,
    pos: int,
    in_alt: bool,
    lit: Seq<char>,
    acc: Seq<GlobSeg>,
    g: Seq<GlobSeg>,
)
    requires
        reads_back(g),
        text_at(cs, pos, render_seq(g)),
        stops_at(cs, pos + render_seq(g).len(), in_alt),
        lit.len() > 0 && g.len() > 0 ==> !(g[0] is Literal),
    ensures
        parse_seq(cs, pos, in_alt, lit, acc) == Ok::<(Seq<GlobSeg>, int), (int, Seq<char>)>(
            (flush(acc, lit) + g, pos + render_seq(g).len()),
        ),
    decreases seq_size(g), 0int, 0int,
{
    if g.len() == 0 {
        assert(render_seq(g) =~= Seq::<char>::empty());
        assert(flush(acc, lit) + g =~= flush(acc, lit));
    } else {
        let x = g[0];
        let r = g.drop_first();
        lemma_reads_back_tail(g);
        lemma_render_seq_front(g);
        let tx = render_seg(x);
        let tr = render_seq(r);
        lemma_text_at(cs, pos, tx, tr);
        lemma_seg_text_start(x);
        let e1 = pos + tx.len();
        let e = pos + render_seq(g).len();
        assert(e == e1 + tr.len());
        assert(cs[pos] == tx[0]);
        assert(seq_size(g) == seg_size(x) + seq_size(r));
        assert(flush(acc, lit).push(x) + r =~= flush(acc, lit) + g);
        if r.len() > 0 {
            lemma_render_seq_front(r);
            lemma_reads_back_tail(r);
            lemma_seg_text_start(r[0]);
            lemma_text_at(cs, e1, render_seg(r[0]), render_seq(r.drop_first()));
            assert(cs[e1] == render_seg(r[0])[0]);
        } else {
            assert(tr =~= Seq::<char>::empty());
        }
        match x {
            GlobSeg::Literal(l) => {
                assert(lit.len() == 0);
                lemma_parse_escaped(cs, pos, in_alt, lit, acc, l);
                assert(lit + l =~= l);
                lemma_seq_read(cs, e1, in_alt, l, acc, r);
                assert(flush(acc, lit) == acc);
                assert(flush(acc, l) == acc.push(x));
            },
            GlobSeg::Star => {
                assert(tx =~= seq!['*']);
                lemma_seq_read(cs, e1, in_alt, Seq::empty(), flush(acc, lit).push(x), r);
                assert(flush(flush(acc, lit).push(x), Seq::empty()) == flush(acc, lit).push(x));
            },
            GlobSeg::DoubleStar => {
                assert(tx =~= seq!['*', '*']);
                assert(cs[pos + 1] == tx[1]);
                lemma_seq_read(cs, e1, in_alt, Seq::empty(), flush(acc, lit).push(x), r);
                assert(flush(flush(acc, lit).push(x), Seq::empty()) == flush(acc, lit).push(x));
            },
            GlobSeg::Question => {
                assert(tx =~= seq!['?']);
                lemma_seq_read(cs, e1, in_alt, Seq::empty(), flush(acc, lit).push(x), r);
                assert(flush(flush(acc, lit).push(x), Seq::empty()) == flush(acc, lit).push(x));
            },
            GlobSeg::Slash => {
                assert(tx =~= seq!['/']);
                lemma_seq_read(cs, e1, in_alt, Seq::empty(), flush(acc, lit).push(x), r);
                assert(flush(flush(acc, lit).push(x), Seq::empty()) == flush(acc, lit).push(x));
            },
            GlobSeg::Class(negated, items) => {
                lemma_class_read(cs, pos, negated, items);
                lemma_seq_read(cs, e1, in_alt, Seq::empty(), flush(acc, lit).push(x), r);
                assert(flush(flush(acc, lit).push(x), Seq::empty()) == flush(acc, lit).push(x));
            },
            GlobSeg::Alt(bs) => {
                lemma_alt_text(bs);
                let inner = join(render_branches(bs), ',') + seq!['}'];
                assert(tx =~= seq!['{'] + inner);
                lemma_text_at(cs, pos, seq!['{'], inner);
                assert(render_branches(bs).skip(0) =~= render_branches(bs));
                assert(bs.take(0) =~= Seq::<Seq<GlobSeg>>::empty());
                lemma_render_branches(bs);
                lemma_alt_read(cs, pos + 1, bs, 0);
                lemma_seq_read(cs, e1, in_alt, Seq::empty(), flush(acc, lit).push(x), r);
                assert(flush(flush(acc, lit).push(x), Seq::empty()) == flush(acc, lit).push(x));
            },
        }
    }
}

/// Reading the branches of an alternation from branch `k` on, when their texts joined with
/// `,` and the closing `}` stand at `pos`, gives back all the branches and stops just after
/// the `}`.
proof fn lemma_alt_read(cs: Seq<char>, pos: int, bs: Seq<Seq<GlobSeg>>, k: int)
    requires
        forall|j: int| 0 <= j < bs.len() ==> reads_back(#[trigger] bs[j]),
        exists|j: int| 0 <= j < bs.len() && #[trigger] bs[j].len() > 0,
        0 <= k < bs.len(),
        text_at(cs, pos, join(render_branches(bs).skip(k), ',') + seq!['}']),
    ensures
        parse_alt(cs, pos, bs.take(k)) == Ok::<(Seq<Seq<GlobSeg>>, int), (int, Seq<char>)>(
            (bs, pos + join(render_branches(bs).skip(k), ',').len() + 1),
        ),
    decreases branches_size(bs), 1int, bs.len() - k,
{
    let n = bs.len();
    let rb = render_branches(bs);
    lemma_render_branches(bs);
    let sk = rb.skip(k);
    lemma_join_front(sk, ',');
    assert(sk[0] == render_seq(bs[k]));
    assert(sk.drop_first() =~= rb.skip(k + 1));
    let tail = if k + 1 < n {
        seq![','] + (join(rb.skip(k + 1), ',') + seq!['}'])
    } else {
        seq!['}']
    };
    assert(join(sk, ',') + seq!['}'] =~= render_seq(bs[k]) + tail);
    lemma_text_at(cs, pos, render_seq(bs[k]), tail);
    let e = pos + render_seq(bs[k]).len();
    assert(cs[e] == tail[0]);
    lemma_branch_size(bs, k);
    lemma_seq_read(cs, pos, true, Seq::empty(), Seq::empty(), bs[k]);
    assert(flush(Seq::<GlobSeg>::empty(), Seq::<char>::empty()) + bs[k] =~= bs[k]);
    assert(bs.take(k).push(bs[k]) =~= bs.take(k + 1));
    if k + 1 < n {
        lemma_text_at(cs, e, seq![','], join(rb.skip(k + 1), ',') + seq!['}']);
        lemma_alt_read(cs, e + 1, bs, k + 1);
    } else {
        assert(bs.take(k + 1) =~= bs);
        let j = choose|j: int| 0 <= j < bs.len() && #[trigger] bs[j].len() > 0;
        assert(bs.take(k + 1)[j].len() > 0);
    }
}


/// Like `seg_reads_back`, but an alternation's branches may come in any order and repeat.
pub open spec fn seg_prints_back(x: GlobSeg) -> bool {
    match x {
        GlobSeg::Alt(bs) => exists|j: int| 0 <= j < bs.len() && #[trigger] bs[j].len() > 0,
        _ => seg_reads_back(x),
    }
}

/// Like `reads_back`, but alternation branches may come in any order and repeat.
pub open spec fn prints_back(g: Seq<GlobSeg>) -> bool
    decreases g,
{
    forall|i: int|
        #![trigger g[i]]
        0 <= i < g.len() ==> {
            &&& seg_prints_back(g[i])
            &&& g[i] is Literal && i + 1 < g.len() ==> !(g[i + 1] is Literal)
            &&& g[i] is Star && i + 1 < g.len() ==> !(g[i + 1] is Star) && !(g[i + 1] is DoubleStar)
            &&& g[i] is Alt ==> forall|j: int|
                #![trigger g[i]->Alt_0[j]]
                0 <= j < g[i]->Alt_0.len() ==> prints_back(g[i]->Alt_0[j])
        }
}

/// The branch of `cb` whose text is `t`, if there is one.
pub open spec fn branch_with_text(cb: Seq<Seq<GlobSeg>>, t: Seq<char>) -> Seq<GlobSeg> {
    cb[choose|i: int| 0 <= i < cb.len() && render_seq(cb[i]) == t]
}

/// A segment with every alternation, at every level, reduced to one branch per distinct
/// text, in the order of those texts: the form in which its canonical text is read back.
pub open spec fn canon_seg(x: GlobSeg) -> GlobSeg
    decreases x, 2int,
{
    match x {
        GlobSeg::Alt(bs) => {
            let cb = canon_branches(bs);
            let texts = sorted_distinct(render_branches(cb));
            GlobSeg::Alt(Seq::new(texts.len(), |k: int| branch_with_text(cb, texts[k])))
        },
        _ => x,
    }
}

/// `canon_seg` applied to every segment.
pub open spec fn canon_seq(g: Seq<GlobSeg>) -> Seq<GlobSeg>
    decreases g, 1int,
{
    if g.len() == 0 {
        Seq::empty()
    } else {
        canon_seq(g.drop_last()).push(canon_seg(g.last()))
    }
}

/// `canon_seq` applied to every branch.
pub open spec fn canon_branches(bs: Seq<Seq<GlobSeg>>) -> Seq<Seq<GlobSeg>>
    decreases bs, 1int,
{
    if bs.len() == 0 {
        Seq::empty()
    } else {
        canon_branches(bs.drop_last()).push(canon_seq(bs.last()))
    }
}


/// A non-empty pattern whose segments print back has non-empty text.
proof fn lemma_text_nonempty(b: Seq<GlobSeg>)
    requires
        b.len() > 0,
        seg_prints_back(b[0]),
    ensures
        render_seq(b).len() > 0,
{
    lemma_render_seq_front(b);
    match b[0] {
        GlobSeg::Alt(bs) => {},
        _ => {
            lemma_seg_text_start(b[0]);
        },
    }
}

/// What `canon_seg` keeps and gives: the same text, the same kind of segment, and for an
/// alternation strictly ordered branch texts, each branch the canonical form of a given
/// branch, and a non-empty branch where there was one.
pub proof fn lemma_canon_seg(x: GlobSeg)
    ensures
        render_seg(canon_seg(x)) == render_seg(x),
        (canon_seg(x) is Alt) == (x is Alt),
        !(x is Alt) ==> canon_seg(x) == x,
        x is Alt ==> strictly_sorted(render_branches(canon_seg(x)->Alt_0)),
        x is Alt ==> forall|k: int|
            #![trigger canon_seg(x)->Alt_0[k]]
            0 <= k < canon_seg(x)->Alt_0.len() ==> exists|i: int|
                0 <= i < x->Alt_0.len() && canon_seg(x)->Alt_0[k] == canon_seq(#[trigger] x->Alt_0[i]),
        x is Alt && (forall|j: int| 0 <= j < x->Alt_0.len() ==> prints_back(#[trigger] x->Alt_0[j])) ==> forall|k: int|
            #![trigger canon_seg(x)->Alt_0[k]]
            0 <= k < canon_seg(x)->Alt_0.len() ==> reads_back(canon_seg(x)->Alt_0[k]),
        x is Alt && (forall|j: int| 0 <= j < x->Alt_0.len() ==> well_formed(#[trigger] x->Alt_0[j])) ==> forall|k: int|
            #![trigger canon_seg(x)->Alt_0[k]]
            0 <= k < canon_seg(x)->Alt_0.len() ==> well_formed(canon_seg(x)->Alt_0[k]),
        x is Alt && (forall|j: int| 0 <= j < x->Alt_0.len() ==> chain_free(#[trigger] x->Alt_0[j])) ==> forall|k: int|
            #![trigger canon_seg(x)->Alt_0[k]]
            0 <= k < canon_seg(x)->Alt_0.len() ==> chain_free(canon_seg(x)->Alt_0[k]),
        x is Alt && seg_prints_back(x) && (forall|j: int| 0 <= j < x->Alt_0.len() ==> prints_back(#[trigger] x->Alt_0[j]))
            ==> exists|k: int| 0 <= k < canon_seg(x)->Alt_0.len() && #[trigger] canon_seg(x)->Alt_0[k].len() > 0,
    decreases x, 2int,
{
    match x {
        GlobSeg::Alt(bs) => {
            lemma_canon_branches(bs);
            let cb = canon_branches(bs);
            let r = render_branches(cb);
            let texts = sorted_distinct(r);
            let picked = Seq::new(texts.len(), |k: int| branch_with_text(cb, texts[k]));
            assert(canon_seg(x) == GlobSeg::Alt(picked));
            lemma_render_branches(cb);
            lemma_render_branches(bs);
            lemma_sorted_distinct_props(r);
            assert forall|k: int| 0 <= k < picked.len() implies render_seq(#[trigger] picked[k]) == texts[k]
                && exists|i: int| 0 <= i < cb.len() && picked[k] == cb[i] by {
                assert(texts.contains(texts[k]));
                assert(r.contains(texts[k]));
                let i0 = choose|i: int| 0 <= i < r.len() && r[i] == texts[k];
                assert(render_seq(cb[i0]) == texts[k]);
                let i = choose|i: int| 0 <= i < cb.len() && render_seq(cb[i]) == texts[k];
                assert(picked[k] == cb[i]);
            }
            lemma_render_branches(picked);
            assert(render_branches(picked) =~= texts);
            lemma_sorted_distinct_props(texts);
            lemma_sorted_unique(sorted_distinct(texts), texts);
            assert(render_seg(canon_seg(x)) == render_seg(x));
            assert forall|i: int| 0 <= i < bs.len() implies #[trigger] cb[i] == canon_seq(bs[i]) && (prints_back(
                bs[i],
            ) ==> reads_back(cb[i])) && (well_formed(bs[i]) ==> well_formed(cb[i])) && (chain_free(bs[i])
                ==> chain_free(cb[i])) by {
                assert(decreases_to!(x => bs));
                assert(decreases_to!(bs => bs[i]));
                lemma_canon_seq(bs[i]);
            }
            assert forall|k: int| #![trigger picked[k]] 0 <= k < picked.len() implies exists|i: int|
                0 <= i < bs.len() && picked[k] == canon_seq(#[trigger] bs[i]) by {
                let i = choose|i: int| 0 <= i < cb.len() && picked[k] == cb[i];
                assert(cb[i] == canon_seq(bs[i]));
            }
            if seg_prints_back(x) && (forall|j: int| 0 <= j < bs.len() ==> prints_back(#[trigger] bs[j])) {
                let j = choose|j: int| 0 <= j < bs.len() && #[trigger] bs[j].len() > 0;
                assert(prints_back(bs[j]));
                assert(bs[j][0] == bs[j][0]);
                lemma_text_nonempty(bs[j]);
                assert(r[j] == render_seq(bs[j]));
                assert(r.contains(r[j]));
                assert(texts.contains(r[j]));
                let k = choose|k: int| 0 <= k < texts.len() && texts[k] == r[j];
                assert(render_seq(picked[k]).len() > 0);
                if picked[k].len() == 0 {
                    assert(render_seq(picked[k]) =~= Seq::<char>::empty());
                }
                assert(picked[k].len() > 0);
            }
        },
        _ => {},
    }
}

/// `canon_seq` keeps the length, works segment by segment and keeps the text; it turns a
/// pattern that prints back into one that reads back, and keeps validity and normal form.
pub proof fn lemma_canon_seq(g: Seq<GlobSeg>)
    ensures
        canon_seq(g).len() == g.len(),
        forall|i: int| 0 <= i < g.len() ==> #[trigger] canon_seq(g)[i] == canon_seg(g[i]),
        render_seq(canon_seq(g)) == render_seq(g),
        prints_back(g) ==> reads_back(canon_seq(g)),
        well_formed(g) ==> well_formed(canon_seq(g)),
        chain_free(g) ==> chain_free(canon_seq(g)),
    decreases g, 1int,
{
    if g.len() > 0 {
        lemma_canon_seq(g.drop_last());
        lemma_canon_seg(g.last());
        assert forall|i: int| 0 <= i < g.len() implies #[trigger] canon_seq(g)[i] == canon_seg(g[i]) by {
            if i < g.len() - 1 {
                assert(g.drop_last()[i] == g[i]);
            }
        }
        assert(canon_seq(g).drop_last() =~= canon_seq(g.drop_last()));
        let c = canon_seq(g);
        assert forall|i: int| 0 <= i < g.len() implies render_seg(#[trigger] c[i]) == render_seg(g[i])
            && (c[i] is Alt) == (g[i] is Alt) && (!(g[i] is Alt) ==> c[i] == g[i]) by {
            assert(decreases_to!(g => g[i]));
            lemma_canon_seg(g[i]);
        }
        if prints_back(g) {
            assert forall|i: int| #![trigger c[i]] 0 <= i < c.len() implies {
                &&& seg_reads_back(c[i])
                &&& c[i] is Literal && i + 1 < c.len() ==> !(c[i + 1] is Literal)
                &&& c[i] is Star && i + 1 < c.len() ==> !(c[i + 1] is Star) && !(c[i + 1] is DoubleStar)
                &&& c[i] is Alt ==> forall|j: int|
                    #![trigger c[i]->Alt_0[j]]
                    0 <= j < c[i]->Alt_0.len() ==> reads_back(c[i]->Alt_0[j])
            } by {
                assert(g[i] == g[i]);
                if i + 1 < c.len() {
                    assert(c[i + 1] == canon_seg(g[i + 1]));
                    assert(g[i + 1] == g[i + 1]);
                }
                assert(decreases_to!(g => g[i]));
                lemma_canon_seg(g[i]);
            }
        }
        if well_formed(g) {
            assert forall|i: int| #![trigger c[i]] 0 <= i < c.len() implies ok_at(c, i) && (c[i] is Alt ==> forall|j: int|
                #![trigger c[i]->Alt_0[j]]
                0 <= j < c[i]->Alt_0.len() ==> well_formed(c[i]->Alt_0[j])) by {
                assert(g[i] == g[i]);
                if i + 1 < c.len() {
                    assert(c[i + 1] == canon_seg(g[i + 1]));
                }
                if i > 0 {
                    assert(c[i - 1] == canon_seg(g[i - 1]));
                }
                assert(decreases_to!(g => g[i]));
                lemma_canon_seg(g[i]);
            }
        }
        if chain_free(g) {
            assert forall|i: int| #![trigger c[i]] 0 <= i < c.len() implies !(c[i] is DoubleStar && i + 2 < c.len()
                && c[i + 1] == GlobSeg::Slash && c[i + 2] is DoubleStar) && (c[i] is Alt ==> forall|j: int|
                #![trigger c[i]->Alt_0[j]]
                0 <= j < c[i]->Alt_0.len() ==> chain_free(c[i]->Alt_0[j])) by {
                assert(g[i] == g[i]);
                if i + 2 < c.len() {
                    assert(c[i + 1] == canon_seg(g[i + 1]));
                    assert(c[i + 2] == canon_seg(g[i + 2]));
                }
                assert(decreases_to!(g => g[i]));
                lemma_canon_seg(g[i]);
            }
        }
        lemma_render_seq_front_last(g);
    } else {
        assert(canon_seq(g) =~= Seq::<GlobSeg>::empty());
    }
}

/// `render_seq` of a non-empty sequence: the text of all but the last, then the last.
proof fn lemma_render_seq_front_last(g: Seq<GlobSeg>)
    requires
        g.len() > 0,
    ensures
        render_seq(g) == render_seq(g.drop_last()) + render_seg(g.last()),
{
}

/// `canon_branches` works branch by branch and keeps every branch's text.
proof fn lemma_canon_branches(bs: Seq<Seq<GlobSeg>>)
    ensures
        canon_branches(bs).len() == bs.len(),
        forall|i: int| 0 <= i < bs.len() ==> #[trigger] canon_branches(bs)[i] == canon_seq(bs[i]),
        render_branches(canon_branches(bs)) == render_branches(bs),
    decreases bs, 1int,
{
    if bs.len() > 0 {
        lemma_canon_branches(bs.drop_last());
        assert(decreases_to!(bs => bs.last()));
        lemma_canon_seq(bs.last());
        assert forall|i: int| 0 <= i < bs.len() implies #[trigger] canon_branches(bs)[i] == canon_seq(bs[i]) by {
            if i < bs.len() - 1 {
                assert(bs.drop_last()[i] == bs[i]);
            }
        }
        assert(canon_branches(bs).drop_last() =~= canon_branches(bs.drop_last()));
        assert(canon_branches(bs).last() == canon_seq(bs.last()));
    }
}


/// Branch `i` of an alternation has the text of branch `k` of its canonical form.
pub proof fn lemma_canon_alt_text_of(bs: Seq<Seq<GlobSeg>>, i: int) -> (k: int)
    requires
        0 <= i < bs.len(),
    ensures
        0 <= k < canon_seg(GlobSeg::Alt(bs))->Alt_0.len(),
        render_seq(canon_seg(GlobSeg::Alt(bs))->Alt_0[k]) == render_seq(bs[i]),
{
    lemma_canon_branches(bs);
    let cb = canon_branches(bs);
    let r = render_branches(cb);
    let texts = sorted_distinct(r);
    let picked = Seq::new(texts.len(), |k: int| branch_with_text(cb, texts[k]));
    assert(canon_seg(GlobSeg::Alt(bs)) == GlobSeg::Alt(picked));
    lemma_render_branches(cb);
    lemma_sorted_distinct_props(r);
    lemma_canon_seq(bs[i]);
    assert(r[i] == render_seq(bs[i]));
    assert(r.contains(r[i]));
    assert(texts.contains(r[i]));
    let k = choose|k: int| 0 <= k < texts.len() && texts[k] == r[i];
    assert(texts.contains(texts[k]));
    assert(r.contains(texts[k]));
    let i1 = choose|i: int| 0 <= i < cb.len() && render_seq(cb[i]) == texts[k];
    assert(render_seq(picked[k]) == texts[k]);
    k
}

/// Branch `k` of the canonical form of an alternation is the canonical form of branch `i`.
pub proof fn lemma_canon_alt_source(bs: Seq<Seq<GlobSeg>>, k: int) -> (i: int)
    requires
        0 <= k < canon_seg(GlobSeg::Alt(bs))->Alt_0.len(),
    ensures
        0 <= i < bs.len(),
        canon_seg(GlobSeg::Alt(bs))->Alt_0[k] == canon_seq(bs[i]),
{
    lemma_canon_branches(bs);
    let cb = canon_branches(bs);
    let r = render_branches(cb);
    let texts = sorted_distinct(r);
    let picked = Seq::new(texts.len(), |k: int| branch_with_text(cb, texts[k]));
    assert(canon_seg(GlobSeg::Alt(bs)) == GlobSeg::Alt(picked));
    lemma_render_branches(cb);
    lemma_sorted_distinct_props(r);
    assert(texts.contains(texts[k]));
    assert(r.contains(texts[k]));
    let i = choose|i: int| 0 <= i < cb.len() && render_seq(cb[i]) == texts[k];
    assert(picked[k] == cb[i]);
    i
}

/// `canon_seq` keeps the length, works segment by segment and keeps the text.
pub proof fn lemma_canon_shape(g: Seq<GlobSeg>)
    ensures
        canon_seq(g).len() == g.len(),
        forall|i: int| 0 <= i < g.len() ==> #[trigger] canon_seq(g)[i] == canon_seg(g[i]),
        render_seq(canon_seq(g)) == render_seq(g),
{
    lemma_canon_seq(g);
}

/// The canonical form of a pattern that prints back reads back.
pub proof fn lemma_canon_reads_back(g: Seq<GlobSeg>)
    requires
        prints_back(g),
    ensures
        reads_back(canon_seq(g)),
{
    lemma_canon_seq(g);
}


/// The canonical form keeps `edges_ok`: it changes no segment's kind and each canonical
/// branch is the canonical form of a given branch.
pub proof fn lemma_canon_edges(g: Seq<GlobSeg>, left_ok: bool, right_ok: bool)
    requires
        edges_ok(g, left_ok, right_ok),
    ensures
        edges_ok(canon_seq(g), left_ok, right_ok),
    decreases g,
{
    lemma_canon_shape(g);
    let c = canon_seq(g);
    lemma_edges_items(g, left_ok, right_ok);
    lemma_edges_items(c, left_ok, right_ok);
    assert forall|i: int| 0 <= i < c.len() implies #[trigger] edge_item(c, i, left_ok, right_ok) by {
        assert(edge_item(g, i, left_ok, right_ok));
        assert(c[i] == canon_seg(g[i]));
        if i > 0 {
            assert(c[i - 1] == canon_seg(g[i - 1]));
            assert((c[i - 1] == GlobSeg::Slash) == (g[i - 1] == GlobSeg::Slash));
        }
        if i + 1 < c.len() {
            assert(c[i + 1] == canon_seg(g[i + 1]));
            assert((c[i + 1] == GlobSeg::Slash) == (g[i + 1] == GlobSeg::Slash));
        }
        if g[i] is Alt {
            let bs = g[i]->Alt_0;
            let lm = if i == 0 { left_ok } else { g[i - 1] == GlobSeg::Slash };
            let rm = if i == g.len() - 1 { right_ok } else { g[i + 1] == GlobSeg::Slash };
            assert(g[i] == GlobSeg::Alt(bs));
            let pk = c[i]->Alt_0;
            assert forall|k: int| #![trigger pk[k]] 0 <= k < pk.len() implies edges_ok(pk[k], lm, rm) by {
                let i2 = lemma_canon_alt_source(bs, k);
                assert(edges_ok(bs[i2], lm, rm));
                assert(decreases_to!(g => g[i]));
                assert(decreases_to!(g[i] => bs));
                assert(decreases_to!(bs => bs[i2]));
                lemma_canon_edges(bs[i2], lm, rm);
            }
        }
    }
}

} // verus!
