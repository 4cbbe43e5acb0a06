use vstd::prelude::*;
use crate::model::{
    Segment,
    CharClass,
    ClassItem,
    GlobSeg,
    ParseError,
    segs_model,
    branches_model,
    lemma_segs_model,
    lemma_branches_model,
};
use crate::canonical::{
    lex_lt,
    strictly_sorted,
    same_elements,
    sorted_distinct,
    join,
    lemma_lex_irreflexive,
    lemma_lex_trichotomy,
    lemma_lex_transitive,
    lemma_sorted_distinct,
};

verus! {

/// Characters that a literal must escape with `\`.
pub open spec fn must_escape(c: char) -> bool {
    c == '/' || c == '*' || c == '?' || c == '[' || c == ']' || c == '{' || c == '}' || c == ',' || c == '\\'
}

/// A literal's text with `\` before every character that would otherwise be special.
pub open spec fn escape_literal(s: Seq<char>) -> Seq<char>
    decreases s.len(),
{
    if s.len() == 0 {
        Seq::empty()
    } else {
        escape_literal(s.drop_last()) + if must_escape(s.last()) {
            seq!['\\', s.last()]
        } else {
            seq![s.last()]
        }
    }
}

/// The first character written for a class item.
pub open spec fn item_start(item: ClassItem) -> char {
    match item {
        ClassItem::Char(c) => c,
        ClassItem::Range(a, _) => a,
    }
}

/// Whether the first character of item `k` of a class must be escaped: `\` always; `]`
/// except where a range opens the class (a leading `]` is read as a character there);
/// `!` or `^` first in a class that is not negated (it would read as negation); and `-`
/// right after a single character (it would read as a range), unless it is a single `-`
/// that ends the class.
pub open spec fn start_escaped(negated: bool, items: Seq<ClassItem>, k: int) -> bool {
    let c = item_start(items[k]);
    ||| c == '\\'
    ||| c == ']' && !(k == 0 && items[k] is Range)
    ||| k == 0 && !negated && (c == '!' || c == '^')
    ||| c == '-' && k > 0 && items[k - 1] is Char && !(items[k] is Char && k == items.len() - 1)
}

/// The text of item `k` of a class: its first character, escaped where needed, then for a
/// range `-` and its end.
pub open spec fn render_item_at(negated: bool, items: Seq<ClassItem>, k: int) -> Seq<char> {
    (if start_escaped(negated, items, k) {
        seq!['\\', item_start(items[k])]
    } else {
        seq![item_start(items[k])]
    }) + match items[k] {
        ClassItem::Char(_) => Seq::<char>::empty(),
        ClassItem::Range(_, b) => seq!['-', b],
    }
}

/// The texts of the items of a class from item `k` on.
pub open spec fn render_items_from(negated: bool, items: Seq<ClassItem>, k: int) -> Seq<char>
    decreases items.len() - k,
{
    if k < 0 || k >= items.len() {
        Seq::empty()
    } else {
        render_item_at(negated, items, k) + render_items_from(negated, items, k + 1)
    }
}

/// A character class written out: `[`, `!` when negated, its items, `]`.
pub open spec fn render_class_spec(negated: bool, items: Seq<ClassItem>) -> Seq<char> {
    seq!['['] + (if negated {
        seq!['!']
    } else {
        Seq::empty()
    }) + render_items_from(negated, items, 0) + seq![']']
}

/// The canonical text of one segment. An alternation is written with its branches' texts
/// sorted and without duplicates.
pub open spec fn render_seg(s: GlobSeg) -> Seq<char>
    decreases s, 0int,
{
    match s {
        GlobSeg::Literal(l) => escape_literal(l),
        GlobSeg::Star => seq!['*'],
        GlobSeg::DoubleStar => seq!['*', '*'],
        GlobSeg::Question => seq!['?'],
        GlobSeg::Slash => seq!['/'],
        GlobSeg::Class(negated, items) => render_class_spec(negated, items),
        GlobSeg::Alt(bs) => seq!['{'] + join(sorted_distinct(render_branches(bs)), ',') + seq!['}'],
    }
}

/// The canonical text of a sequence of segments.
pub open spec fn render_seq(ss: Seq<GlobSeg>) -> Seq<char>
    decreases ss, 0int,
{
    if ss.len() == 0 {
        Seq::empty()
    } else {
        render_seq(ss.drop_last()) + render_seg(ss.last())
    }
}

/// The canonical text of each branch.
pub open spec fn render_branches(bs: Seq<Seq<GlobSeg>>) -> Seq<Seq<char>>
    decreases bs, 0int,
{
    if bs.len() == 0 {
        Seq::empty()
    } else {
        render_branches(bs.drop_last()).push(render_seq(bs.last()))
    }
}

/// There is one text per branch, in the branches' order.
pub proof fn lemma_render_branches(bs: Seq<Seq<GlobSeg>>)
    ensures
        render_branches(bs).len() == bs.len(),
        forall|i: int| 0 <= i < bs.len() ==> #[trigger] render_branches(bs)[i] == render_seq(bs[i]),
    decreases bs.len(),
{
    if bs.len() > 0 {
        lemma_render_branches(bs.drop_last());
    }
}

/// The characters of each text.
pub open spec fn texts(v: Seq<Vec<char>>) -> Seq<Seq<char>> {
    v.map_values(|t: Vec<char>| t@)
}

/// Result of comparing two character sequences.
pub enum LexOrder {
    Less,
    Equal,
    Greater,
}

/// Compares `a` and `b` lexicographically.
pub fn lex_compare(a: &Vec<char>, b: &Vec<char>) -> (r: LexOrder)
    ensures
        (r is Less) == lex_lt(a@, b@),
        (r is Equal) == (a@ == b@),
        (r is Greater) == lex_lt(b@, a@),
{
    proof {
        lemma_lex_trichotomy(a@, b@);
        lemma_lex_irreflexive(a@);
    }
    let mut i: usize = 0;
    assert(a@.skip(0) =~= a@);
    assert(b@.skip(0) =~= b@);
    while i < a.len() && i < b.len()
        invariant
            i <= a@.len(),
            i <= b@.len(),
            a@.take(i as int) == b@.take(i as int),
            lex_lt(a@, b@) == lex_lt(a@.skip(i as int), b@.skip(i as int)),
            lex_lt(b@, a@) == lex_lt(b@.skip(i as int), a@.skip(i as int)),
        decreases a@.len() - i,
    {
        if a[i] != b[i] {
            if a[i] < b[i] {
                return LexOrder::Less;
            } else {
                return LexOrder::Greater;
            }
        }
        assert(a@.skip(i as int).drop_first() =~= a@.skip(i + 1));
        assert(b@.skip(i as int).drop_first() =~= b@.skip(i + 1));
        assert(a@.take(i + 1) =~= a@.take(i as int).push(a@[i as int]));
        assert(b@.take(i + 1) =~= b@.take(i as int).push(b@[i as int]));
        i += 1;
    }
    if i == a.len() && i == b.len() {
        assert(a@ =~= a@.take(i as int));
        assert(b@ =~= b@.take(i as int));
        LexOrder::Equal
    } else if i == a.len() {
        LexOrder::Less
    } else {
        LexOrder::Greater
    }
}

/// Adds `x` to a strictly increasing list unless it is already there.
pub fn insert_sorted(list: &mut Vec<Vec<char>>, x: Vec<char>)
    requires
        strictly_sorted(texts(old(list)@)),
    ensures
        strictly_sorted(texts(final(list)@)),
        forall|y: Seq<char>| #[trigger] texts(final(list)@).contains(y) <==> (texts(old(list)@).contains(y) || y == x@),
{
    let ghost l0 = texts(list@);
    let mut k: usize = 0;
    while k < list.len()
        invariant
            k <= list@.len(),
            l0 == texts(list@),
            strictly_sorted(l0),
            forall|i: int| 0 <= i < k ==> lex_lt(#[trigger] l0[i], x@),
        ensures
            k <= list@.len(),
            l0 == texts(list@),
            forall|i: int| 0 <= i < k ==> lex_lt(#[trigger] l0[i], x@),
            k < list@.len() ==> lex_lt(x@, l0[k as int]),
        decreases list@.len() - k,
    {
        match lex_compare(&list[k], &x) {
            LexOrder::Less => {},
            LexOrder::Equal => {
                assert(l0[k as int] == x@);
                assert forall|y: Seq<char>| #[trigger] l0.contains(y) <==> (l0.contains(y) || y == x@) by {
                    if y == x@ {
                        assert(l0.contains(l0[k as int]));
                    }
                }
                return;
            },
            LexOrder::Greater => {
                break;
            },
        }
        k += 1;
    }
    let ghost xv = x@;
    list.insert(k, x);
    let ghost l1 = texts(list@);
    assert(l1 =~= l0.insert(k as int, xv));
    assert forall|i: int, j: int| 0 <= i < j < l1.len() implies lex_lt(#[trigger] l1[i], #[trigger] l1[j]) by {
        if j < k {
        } else if j == k {
        } else if i < k {
            assert(lex_lt(l0[i], xv));
            if k < l0.len() {
                assert(lex_lt(xv, l0[k as int]));
                if j - 1 > k {
                    assert(lex_lt(l0[k as int], l0[j - 1]));
                    lemma_lex_transitive(xv, l0[k as int], l0[j - 1]);
                }
                lemma_lex_transitive(l0[i], xv, l0[j - 1]);
            }
        } else if i == k {
            assert(lex_lt(xv, l0[k as int]));
            if j - 1 > k {
                assert(lex_lt(l0[k as int], l0[j - 1]));
                lemma_lex_transitive(xv, l0[k as int], l0[j - 1]);
            }
        } else {
        }
    }
    assert forall|y: Seq<char>| #[trigger] l1.contains(y) <==> (l0.contains(y) || y == xv) by {
        if l1.contains(y) {
            let i = choose|i: int| 0 <= i < l1.len() && l1[i] == y;
            if i < k {
                assert(l0[i] == y);
            } else if i > k {
                assert(l0[i - 1] == y);
            }
        }
        if l0.contains(y) {
            let i = choose|i: int| 0 <= i < l0.len() && l0[i] == y;
            if i < k {
                assert(l1[i] == y);
            } else {
                assert(l1[i + 1] == y);
            }
        }
        if y == xv {
            assert(l1[k as int] == y);
        }
    }
}


/// Whether a literal character must be escaped with `\`.
pub fn needs_escape(c: char) -> (r: bool)
    ensures
        r == must_escape(c),
        r == (c == '/' || c == '*' || c == '?' || c == '[' || c == ']' || c == '{' || c == '}' || c == ','
            || c == '\\'),
{
    c == '/' || c == '*' || c == '?' || c == '[' || c == ']' || c == '{' || c == '}' || c == ',' || c == '\\'
}

/// Appends the characters of `s` to `out`.
fn append_chars(out: &mut Vec<char>, s: &Vec<char>)
    ensures
        final(out)@ == old(out)@ + s@,
{
    let ghost o0 = out@;
    let mut k: usize = 0;
    while k < s.len()
        invariant
            k <= s@.len(),
            out@ == o0 + s@.take(k as int),
        decreases s@.len() - k,
    {
        out.push(s[k]);
        k += 1;
        assert(out@ =~= o0 + s@.take(k as int));
    }
    assert(s@.take(k as int) =~= s@);
}

/// Appends the text of a character class to `out`.
pub fn render_class(c: &CharClass, out: &mut Vec<char>)
    ensures
        final(out)@ == old(out)@ + render_class_spec(c.negated, c.items@),
{
    let ghost o0 = out@;
    let ghost items = c.items@;
    let ghost neg = c.negated;
    out.push('[');
    if c.negated {
        out.push('!');
    }
    let ghost o1 = out@;
    let n = c.items.len();
    let mut k: usize = 0;
    assert(o1 + render_items_from(neg, items, 0) == o1 + render_items_from(neg, items, 0));
    while k < n
        invariant
            k <= n,
            n == items.len(),
            items == c.items@,
            neg == c.negated,
            out@ + render_items_from(neg, items, k as int) == o1 + render_items_from(neg, items, 0),
        decreases n - k,
    {
        let ghost before = out@;
        let item = c.items[k];
        let start = match item {
            ClassItem::Char(ch) => ch,
            ClassItem::Range(a, _) => a,
        };
        let prev_is_char = k > 0 && match c.items[k - 1] {
            ClassItem::Char(_) => true,
            ClassItem::Range(_, _) => false,
        };
        let lone_last_char = k + 1 == n && match item {
            ClassItem::Char(_) => true,
            ClassItem::Range(_, _) => false,
        };
        let opens_with_range = k == 0 && match item {
            ClassItem::Char(_) => false,
            ClassItem::Range(_, _) => true,
        };
        let escape = (start == ']' && !opens_with_range) || start == '\\' || (k == 0 && !c.negated && (start == '!' || start == '^'))
            || (start == '-' && prev_is_char && !lone_last_char);
        assert(escape == start_escaped(neg, items, k as int));
        if escape {
            out.push('\\');
        }
        out.push(start);
        match item {
            ClassItem::Char(_) => {},
            ClassItem::Range(_, b) => {
                out.push('-');
                out.push(b);
            },
        }
        assert(out@ =~= before + render_item_at(neg, items, k as int));
        assert(render_items_from(neg, items, k as int) == render_item_at(neg, items, k as int)
            + render_items_from(neg, items, k + 1));
        assert(out@ + render_items_from(neg, items, k + 1) =~= before + render_items_from(neg, items, k as int));
        k += 1;
    }
    assert(render_items_from(neg, items, k as int) =~= Seq::<char>::empty());
    assert(out@ =~= o1 + render_items_from(neg, items, 0));
    out.push(']');
    assert(out@ =~= o0 + render_class_spec(c.negated, c.items@));
}

/// Appends the canonical text of `segs` to `out`.
pub fn render_into(segs: &Vec<Segment>, out: &mut Vec<char>)
    ensures
        final(out)@ == old(out)@ + render_seq(segs_model(segs@)),
    decreases segs, 2int,
{
    proof {
        lemma_segs_model(segs@);
    }
    let ghost m = segs_model(segs@);
    let ghost o0 = out@;
    let mut i: usize = 0;
    assert(m.take(0) =~= Seq::<GlobSeg>::empty());
    while i < segs.len()
        invariant
            i <= segs@.len(),
            m == segs_model(segs@),
            m.len() == segs@.len(),
            forall|j: int| 0 <= j < segs@.len() ==> #[trigger] m[j] == segs@[j]@,
            out@ == o0 + render_seq(m.take(i as int)),
        decreases segs@.len() - i,
    {
        proof {
            assert(decreases_to!(segs => segs@[i as int]));
        }
        render_segment(&segs[i], out);
        assert(m.take(i + 1).drop_last() =~= m.take(i as int));
        assert(out@ =~= o0 + render_seq(m.take(i + 1)));
        i += 1;
    }
    assert(m.take(i as int) =~= m);
}

/// Appends the canonical text of one segment to `out`.
pub fn render_segment(seg: &Segment, out: &mut Vec<char>)
    ensures
        final(out)@ == old(out)@ + render_seg(seg@),
    decreases seg, 1int,
{
    let ghost o0 = out@;
    match seg {
        Segment::Literal(s) => {
            let lc = crate::text::str_chars(s.as_str());
            let mut k: usize = 0;
            assert(lc@.take(0) =~= Seq::<char>::empty());
            while k < lc.len()
                invariant
                    k <= lc@.len(),
                    out@ == o0 + escape_literal(lc@.take(k as int)),
                decreases lc@.len() - k,
            {
                let c = lc[k];
                if needs_escape(c) {
                    out.push('\\');
                }
                out.push(c);
                assert(lc@.take(k + 1).drop_last() =~= lc@.take(k as int));
                k += 1;
                assert(out@ =~= o0 + escape_literal(lc@.take(k as int)));
            }
            assert(lc@.take(k as int) =~= lc@);
        },
        Segment::Star => {
            out.push('*');
            assert(out@ =~= o0 + seq!['*']);
        },
        Segment::DoubleStar => {
            out.push('*');
            out.push('*');
            assert(out@ =~= o0 + seq!['*', '*']);
        },
        Segment::Question => {
            out.push('?');
            assert(out@ =~= o0 + seq!['?']);
        },
        Segment::Slash => {
            out.push('/');
            assert(out@ =~= o0 + seq!['/']);
        },
        Segment::Class(c) => {
            render_class(c, out);
        },
        Segment::Alt(bs) => {
            render_alt(bs, out);
        },
    }
}

/// Appends an alternation: `{`, the distinct branch texts in increasing order separated
/// by `,`, then `}`.
pub fn render_alt(bs: &Vec<Vec<Segment>>, out: &mut Vec<char>)
    ensures
        final(out)@ == old(out)@ + seq!['{'] + join(sorted_distinct(render_branches(branches_model(bs@))), ',')
            + seq!['}'],
    decreases bs, 0int,
{
    proof {
        lemma_branches_model(bs@);
        lemma_render_branches(branches_model(bs@));
    }
    let ghost bm = branches_model(bs@);
    let ghost rb = render_branches(bm);
    let mut parts: Vec<Vec<char>> = Vec::new();
    let mut j: usize = 0;
    while j < bs.len()
        invariant
            j <= bs@.len(),
            bm == branches_model(bs@),
            bm.len() == bs@.len(),
            rb == render_branches(bm),
            rb.len() == bm.len(),
            forall|k: int| 0 <= k < bs@.len() ==> #[trigger] bm[k] == segs_model(bs@[k]@),
            forall|k: int| 0 <= k < bm.len() ==> #[trigger] rb[k] == render_seq(bm[k]),
            strictly_sorted(texts(parts@)),
            same_elements(texts(parts@), rb.take(j as int)),
        decreases bs@.len() - j,
    {
        proof {
            assert(decreases_to!(bs => bs@[j as int]));
        }
        let mut r: Vec<char> = Vec::new();
        render_into(&bs[j], &mut r);
        assert(r@ =~= rb[j as int]);
        let ghost before = texts(parts@);
        insert_sorted(&mut parts, r);
        let ghost t0 = rb.take(j as int);
        let ghost t1 = rb.take(j + 1);
        assert(t1 =~= t0.push(rb[j as int]));
        assert forall|y: Seq<char>| texts(parts@).contains(y) <==> t1.contains(y) by {
            if t1.contains(y) {
                let i = choose|i: int| 0 <= i < t1.len() && t1[i] == y;
                if i < j {
                    assert(t0[i] == y);
                    assert(t0.contains(y));
                }
            }
            if t0.contains(y) {
                let i = choose|i: int| 0 <= i < t0.len() && t0[i] == y;
                assert(t1[i] == y);
            }
            if y == rb[j as int] {
                assert(t1[j as int] == y);
            }
        }
        j += 1;
    }
    assert(rb.take(j as int) =~= rb);
    proof {
        lemma_sorted_distinct(rb, texts(parts@));
    }
    let ghost o0 = out@;
    let ghost ps = texts(parts@);
    out.push('{');
    let ghost o1 = out@;
    let mut k: usize = 0;
    while k < parts.len()
        invariant
            k <= parts@.len(),
            ps == texts(parts@),
            ps.len() == parts@.len(),
            out@ == o1 + join(ps.take(k as int), ','),
        decreases parts@.len() - k,
    {
        let ghost before = out@;
        if k > 0 {
            out.push(',');
        }
        append_chars(out, &parts[k]);
        assert(ps.take(k + 1).drop_last() =~= ps.take(k as int));
        assert(ps.take(k + 1).last() == ps[k as int]);
        if k == 0 {
            assert(ps.take(1).len() == 1);
            assert(out@ =~= o1 + join(ps.take(k + 1), ','));
        } else {
            assert(out@ =~= o1 + join(ps.take(k + 1), ','));
        }
        k += 1;
    }
    out.push('}');
    assert(ps.take(k as int) =~= ps);
    assert(out@ =~= o0 + seq!['{'] + join(ps, ',') + seq!['}']);
}

/// A `String` holding the characters `cs`.
pub fn string_from_chars(cs: &Vec<char>) -> (s: String)
    ensures
        s@ == cs@,
{
    let mut s = String::new();
    let mut k: usize = 0;
    while k < cs.len()
        invariant
            k <= cs@.len(),
            s@ == cs@.take(k as int),
        decreases cs@.len() - k,
    {
        s.push(cs[k]);
        k += 1;
        assert(s@ =~= cs@.take(k as int));
    }
    assert(cs@.take(k as int) =~= cs@);
    s
}

/// The canonical text of a sequence of segments.
pub fn render(segs: &Vec<Segment>) -> (s: String)
    ensures
        s@ == render_seq(segs_model(segs@)),
{
    let mut out: Vec<char> = Vec::new();
    render_into(segs, &mut out);
    assert(out@ =~= render_seq(segs_model(segs@)));
    string_from_chars(&out)
}


/// Parses `pattern` and prints it back in canonical form.
pub fn pretty_print(pattern: &str) -> (r: Result<String, ParseError>)
    ensures
        match crate::grammar::parse_spec(pattern@) {
            Ok(g) => r matches Ok(s) && s@ == render_seq(g),
            Err((p, m)) => r matches Err(e) && e.position == p && e.message@ == m,
        },
{
    match crate::parser::parse(pattern) {
        Ok(g) => Ok(g.to_string()),
        Err(e) => Err(e),
    }
}

} // verus!
