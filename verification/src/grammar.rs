use vstd::prelude::*;
use crate::model::{GlobSeg, ClassItem};

verus! {

/// The message for a `\` at the very end of a pattern.
pub open spec fn msg_dangling_escape() -> Seq<char> {
    "dangling escape at end of pattern"@
}

/// The message for a `{` without its closing `}`.
pub open spec fn msg_unterminated_alt() -> Seq<char> {
    "unterminated '{' - missing closing '}'"@
}

/// The message for an alternation whose branches are all empty.
pub open spec fn msg_empty_alt() -> Seq<char> {
    "empty alternation '{}'"@
}

/// The message for a `[` without its closing `]`.
pub open spec fn msg_unterminated_class() -> Seq<char> {
    "unterminated '[' - missing closing ']'"@
}

/// The message for a `\` at the very end of a pattern, inside a class.
pub open spec fn msg_dangling_class_escape() -> Seq<char> {
    "dangling escape in character class"@
}

/// The message for a class without items.
pub open spec fn msg_empty_class() -> Seq<char> {
    "empty character class '[]'"@
}

/// The message for a range whose start is after its end.
pub open spec fn msg_invalid_range(start: char, end: char) -> Seq<char> {
    "invalid range '"@ + seq![start] + "-"@ + seq![end] + "': start is greater than end"@
}

/// The message for a character that cannot stand where it was found.
pub open spec fn msg_unexpected(c: char) -> Seq<char> {
    "unexpected '"@ + seq![c] + "'"@
}

/// The message for a `**` sharing a path component with other segments.
pub open spec fn msg_double_star_mixed() -> Seq<char> {
    "'**' must occupy a whole path component"@
}

/// The message for two adjacent `/`.
pub open spec fn msg_empty_component() -> Seq<char> {
    "empty path component ('//')"@
}

/// Appends the pending literal characters, if any, as one literal segment.
pub open spec fn flush(acc: Seq<GlobSeg>, lit: Seq<char>) -> Seq<GlobSeg> {
    if lit.len() == 0 {
        acc
    } else {
        acc.push(GlobSeg::Literal(lit))
    }
}

/// Parses a sequence of segments from `cs[pos..]`. `lit` holds literal characters read but
/// not yet emitted and `acc` the segments emitted so far. Inside an alternation the sequence
/// ends before a `,` or `}`; elsewhere it runs to the end of the input. A `]`, `}` or `,`
/// that does not close anything is unexpected. On success gives the
/// segments and the position where parsing stopped; on failure the position and message.
pub open spec fn parse_seq(
    cs: Seq<char>,
    pos: int,
    in_alt: bool,
    lit: Seq<char>,
    acc: Seq<GlobSeg>,
) -> Result<(Seq<GlobSeg>, int), (int, Seq<char>)>
    decreases cs.len() - pos, 0int,
{
    if pos >= cs.len() || (in_alt && (cs[pos] == ',' || cs[pos] == '}')) {
        Ok((flush(acc, lit), pos))
    } else {
        let c = cs[pos];
        if c == ']' || c == '}' || c == ',' {
            Err((pos, msg_unexpected(c)))
        } else if c == '\\' {
            if pos + 1 < cs.len() {
                parse_seq(cs, pos + 2, in_alt, lit.push(cs[pos + 1]), acc)
            } else {
                Err((pos + 1, msg_dangling_escape()))
            }
        } else if c == '*' {
            if pos + 1 < cs.len() && cs[pos + 1] == '*' {
                parse_seq(cs, pos + 2, in_alt, Seq::empty(), flush(acc, lit).push(GlobSeg::DoubleStar))
            } else {
                parse_seq(cs, pos + 1, in_alt, Seq::empty(), flush(acc, lit).push(GlobSeg::Star))
            }
        } else if c == '?' {
            parse_seq(cs, pos + 1, in_alt, Seq::empty(), flush(acc, lit).push(GlobSeg::Question))
        } else if c == '/' {
            parse_seq(cs, pos + 1, in_alt, Seq::empty(), flush(acc, lit).push(GlobSeg::Slash))
        } else if c == '[' {
            match parse_class(cs, pos) {
                Err(e) => Err(e),
                Ok((class, end)) => if pos < end <= cs.len() {
                    parse_seq(cs, end, in_alt, Seq::empty(), flush(acc, lit).push(class))
                } else {
                    Err((end, Seq::empty()))
                },
            }
        } else if c == '{' {
            match parse_alt(cs, pos + 1, Seq::empty()) {
                Err(e) => Err(e),
                Ok((bs, end)) => if pos < end <= cs.len() {
                    parse_seq(cs, end, in_alt, Seq::empty(), flush(acc, lit).push(GlobSeg::Alt(bs)))
                } else {
                    Err((end, Seq::empty()))
                },
            }
        } else {
            parse_seq(cs, pos + 1, in_alt, lit.push(c), acc)
        }
    }
}

/// Parses the branches of an alternation whose `{` is just before `pos`; `branches` holds
/// those already read. On success gives the branches and the position after the `}`.
pub open spec fn parse_alt(cs: Seq<char>, pos: int, branches: Seq<Seq<GlobSeg>>) -> Result<
    (Seq<Seq<GlobSeg>>, int),
    (int, Seq<char>),
>
    decreases cs.len() - pos, 1int,
{
    if pos > cs.len() {
        Err((pos, Seq::empty()))
    } else {
        match parse_seq(cs, pos, true, Seq::empty(), Seq::empty()) {
            Err(e) => Err(e),
            Ok((b, end)) => {
                let bs = branches.push(b);
                if end < pos || end > cs.len() {
                    Err((end, Seq::empty()))
                } else if end < cs.len() && cs[end] == ',' {
                    parse_alt(cs, end + 1, bs)
                } else if end < cs.len() && cs[end] == '}' {
                    if forall|i: int| 0 <= i < bs.len() ==> #[trigger] bs[i].len() == 0 {
                        Err((end + 1, msg_empty_alt()))
                    } else {
                        Ok((bs, end + 1))
                    }
                } else if end < cs.len() {
                    Err((end + 1, msg_unterminated_alt()))
                } else {
                    Err((end, msg_unterminated_alt()))
                }
            },
        }
    }
}

/// Parses the items of a character class from `pos`; `start` is the position of its `[`
/// and `first` says whether no item has been read yet (a `]` there is a literal). An
/// unterminated class and a backwards range are reported at the `[`.
pub open spec fn class_items(
    cs: Seq<char>,
    start: int,
    pos: int,
    first: bool,
    items: Seq<ClassItem>,
) -> Result<(Seq<ClassItem>, int), (int, Seq<char>)>
    decreases cs.len() - pos,
{
    if pos >= cs.len() {
        Err((start, msg_unterminated_class()))
    } else if cs[pos] == ']' && !first {
        Ok((items, pos + 1))
    } else if cs[pos] == '\\' && pos + 1 >= cs.len() {
        Err((pos + 1, msg_dangling_class_escape()))
    } else {
        let escaped = cs[pos] == '\\';
        let ch = if escaped { cs[pos + 1] } else { cs[pos] };
        let q = if escaped { pos + 2 } else { pos + 1 };
        if q + 1 < cs.len() && cs[q] == '-' && cs[q + 1] != ']' {
            let e = cs[q + 1];
            if e > ch {
                class_items(cs, start, q + 2, false, items.push(ClassItem::Range(ch, e)))
            } else if e == ch {
                class_items(cs, start, q + 2, false, items.push(ClassItem::Char(ch)))
            } else {
                Err((start, msg_invalid_range(ch, e)))
            }
        } else {
            class_items(cs, start, q, false, items.push(ClassItem::Char(ch)))
        }
    }
}

/// Parses a character class whose `[` is at `start`. On success gives the class segment
/// and the position after its `]`.
pub open spec fn parse_class(cs: Seq<char>, start: int) -> Result<(GlobSeg, int), (int, Seq<char>)> {
    let negated = start + 1 < cs.len() && (cs[start + 1] == '!' || cs[start + 1] == '^');
    let p = if negated { start + 2 } else { start + 1 };
    match class_items(cs, start, p, true, Seq::empty()) {
        Err(e) => Err(e),
        Ok((items, end)) => if items.len() == 0 {
            Err((start, msg_empty_class()))
        } else {
            Ok((GlobSeg::Class(negated, items), end))
        },
    }
}


/// The first rule broken at or after index `i` of `segs`, looking into alternation branches
/// in order: a `**` not bounded on both sides by the ends or a `/`, or two adjacent `/`.
pub open spec fn violation_at(segs: Seq<GlobSeg>, i: int) -> Option<Seq<char>>
    decreases segs, segs.len() - i,
{
    if i < 0 || i >= segs.len() {
        None
    } else {
        let here = match segs[i] {
            GlobSeg::DoubleStar => {
                let ok_before = i == 0 || segs[i - 1] == GlobSeg::Slash;
                let ok_after = i + 1 == segs.len() || segs[i + 1] == GlobSeg::Slash;
                if !ok_before || !ok_after {
                    Some(msg_double_star_mixed())
                } else {
                    None
                }
            },
            GlobSeg::Slash => if i + 1 < segs.len() && segs[i + 1] == GlobSeg::Slash {
                Some(msg_empty_component())
            } else {
                None
            },
            GlobSeg::Alt(bs) => violation_in_branches(bs, 0),
            _ => None,
        };
        if here is Some {
            here
        } else {
            violation_at(segs, i + 1)
        }
    }
}

/// The first rule broken in the branches `bs[j..]`, in order.
pub open spec fn violation_in_branches(bs: Seq<Seq<GlobSeg>>, j: int) -> Option<Seq<char>>
    decreases bs, bs.len() - j,
{
    if j < 0 || j >= bs.len() {
        None
    } else {
        match violation_at(bs[j], 0) {
            Some(m) => Some(m),
            None => violation_in_branches(bs, j + 1),
        }
    }
}

/// Number of consecutive `/` `**` pairs starting at index `j`.
pub open spec fn chain_len(segs: Seq<GlobSeg>, j: int) -> nat
    decreases segs.len() - j,
{
    if 0 <= j && j + 1 < segs.len() && segs[j] == GlobSeg::Slash && segs[j + 1] == GlobSeg::DoubleStar {
        1 + chain_len(segs, j + 2)
    } else {
        0
    }
}

/// A chain of `/` `**` pairs from `j` fits in the sequence.
pub proof fn lemma_chain_len(segs: Seq<GlobSeg>, j: int)
    requires
        0 <= j <= segs.len(),
    ensures
        j + 2 * chain_len(segs, j) <= segs.len(),
    decreases segs.len() - j,
{
    if j + 1 < segs.len() && segs[j] == GlobSeg::Slash && segs[j + 1] == GlobSeg::DoubleStar {
        lemma_chain_len(segs, j + 2);
    }
}

/// `segs[i..]` with every `**` followed directly by `/` `**` pairs reduced to one `**`, at
/// every nesting level.
pub open spec fn normalize_from(segs: Seq<GlobSeg>, i: int) -> Seq<GlobSeg>
    decreases segs, segs.len() - i,
    via normalize_from_decreases
{
    if i < 0 || i >= segs.len() {
        Seq::empty()
    } else {
        match segs[i] {
            GlobSeg::DoubleStar => seq![GlobSeg::DoubleStar] + normalize_from(
                segs,
                i + 1 + 2 * chain_len(segs, i + 1),
            ),
            GlobSeg::Alt(bs) => seq![GlobSeg::Alt(normalize_branches(bs, 0))] + normalize_from(
                segs,
                i + 1,
            ),
            other => seq![other] + normalize_from(segs, i + 1),
        }
    }
}

#[via_fn]
proof fn normalize_from_decreases(segs: Seq<GlobSeg>, i: int) {
    if 0 <= i < segs.len() {
        lemma_chain_len(segs, i + 1);
    }
}

/// Every branch of `bs[j..]` normalised.
pub open spec fn normalize_branches(bs: Seq<Seq<GlobSeg>>, j: int) -> Seq<Seq<GlobSeg>>
    decreases bs, bs.len() - j,
{
    if j < 0 || j >= bs.len() {
        Seq::empty()
    } else {
        seq![normalize_from(bs[j], 0)] + normalize_branches(bs, j + 1)
    }
}

/// A `**` at the start or end of `segs` may stand there only where `left_ok` or
/// `right_ok` says the surroundings begin or end a path component there; an alternation
/// passes on to its branches whether its own neighbours are `/` (or the surroundings' say
/// at an end). So a `**` that fills a branch still fills a whole path component.
pub open spec fn edges_ok(segs: Seq<GlobSeg>, left_ok: bool, right_ok: bool) -> bool
    decreases segs,
{
    forall|i: int|
        #![trigger segs[i]]
        0 <= i < segs.len() ==> {
            &&& segs[i] is DoubleStar && i == 0 ==> left_ok
            &&& segs[i] is DoubleStar && i == segs.len() - 1 ==> right_ok
            &&& segs[i] is Alt ==> forall|j: int|
                #![trigger segs[i]->Alt_0[j]]
                0 <= j < segs[i]->Alt_0.len() ==> edges_ok(
                    segs[i]->Alt_0[j],
                    if i == 0 { left_ok } else { segs[i - 1] == GlobSeg::Slash },
                    if i == segs.len() - 1 { right_ok } else { segs[i + 1] == GlobSeg::Slash },
                )
        }
}

/// The condition `edges_ok` sets at index `i`.
pub open spec fn edge_item(segs: Seq<GlobSeg>, i: int, left_ok: bool, right_ok: bool) -> bool {
    &&& segs[i] is DoubleStar && i == 0 ==> left_ok
    &&& segs[i] is DoubleStar && i == segs.len() - 1 ==> right_ok
    &&& segs[i] is Alt ==> forall|j: int|
        #![trigger segs[i]->Alt_0[j]]
        0 <= j < segs[i]->Alt_0.len() ==> edges_ok(
            segs[i]->Alt_0[j],
            if i == 0 { left_ok } else { segs[i - 1] == GlobSeg::Slash },
            if i == segs.len() - 1 { right_ok } else { segs[i + 1] == GlobSeg::Slash },
        )
}

/// `edges_ok` holds exactly when every index satisfies `edge_item`.
pub proof fn lemma_edges_items(segs: Seq<GlobSeg>, left_ok: bool, right_ok: bool)
    ensures
        edges_ok(segs, left_ok, right_ok) == (forall|i: int|
            0 <= i < segs.len() ==> #[trigger] edge_item(segs, i, left_ok, right_ok)),
{
    if edges_ok(segs, left_ok, right_ok) {
        assert forall|i: int| 0 <= i < segs.len() implies #[trigger] edge_item(segs, i, left_ok, right_ok) by {
            assert(segs[i] == segs[i]);
        }
    }
    if forall|i: int| 0 <= i < segs.len() ==> #[trigger] edge_item(segs, i, left_ok, right_ok) {
        assert forall|i: int| #![trigger segs[i]] 0 <= i < segs.len() implies {
            &&& segs[i] is DoubleStar && i == 0 ==> left_ok
            &&& segs[i] is DoubleStar && i == segs.len() - 1 ==> right_ok
            &&& segs[i] is Alt ==> forall|j: int|
                #![trigger segs[i]->Alt_0[j]]
                0 <= j < segs[i]->Alt_0.len() ==> edges_ok(
                    segs[i]->Alt_0[j],
                    if i == 0 { left_ok } else { segs[i - 1] == GlobSeg::Slash },
                    if i == segs.len() - 1 { right_ok } else { segs[i + 1] == GlobSeg::Slash },
                )
        } by {
            assert(edge_item(segs, i, left_ok, right_ok));
        }
    }
}

/// The first rule a parsed sequence breaks, if any: first those of `violation_at`, in
/// order; then a `**` that fills an alternation branch without filling a whole path
/// component (`edges_ok`).
pub open spec fn validation(segs: Seq<GlobSeg>) -> Option<Seq<char>> {
    match violation_at(segs, 0) {
        Some(m) => Some(m),
        None => if edges_ok(segs, true, true) {
            None
        } else {
            Some(msg_double_star_mixed())
        },
    }
}

/// What parsing a whole pattern gives: its normalised segments, or the position and message
/// of the first error.
pub open spec fn parse_spec(cs: Seq<char>) -> Result<Seq<GlobSeg>, (int, Seq<char>)> {
    match parse_seq(cs, 0, false, Seq::empty(), Seq::empty()) {
        Err(e) => Err(e),
        Ok((segs, end)) => if end < cs.len() {
            Err((end, msg_unexpected(cs[end])))
        } else {
            match validation(segs) {
                Some(m) => Err((0, m)),
                None => Ok(normalize_from(segs, 0)),
            }
        },
    }
}

} // verus!

verus! {

/// Where parsing a sequence stops and where it reports errors: a top-level sequence runs
/// to the end of the input, a sequence inside an alternation stops at the end or before a
/// `,` or `}`, and every position lies within the input.
pub proof fn lemma_parse_seq_bounds(cs: Seq<char>, pos: int, in_alt: bool, lit: Seq<char>, acc: Seq<GlobSeg>)
    requires
        0 <= pos <= cs.len(),
    ensures
        match parse_seq(cs, pos, in_alt, lit, acc) {
            Ok((_, end)) => pos <= end <= cs.len() && (!in_alt ==> end == cs.len()) && (end == cs.len() || (
            in_alt && (cs[end] == ',' || cs[end] == '}'))),
            Err((p, _)) => 0 <= p <= cs.len(),
        },
    decreases cs.len() - pos, 0int,
{
    if pos >= cs.len() || (in_alt && (cs[pos] == ',' || cs[pos] == '}')) {
    } else {
        let c = cs[pos];
        if c == '\\' {
            if pos + 1 < cs.len() {
                lemma_parse_seq_bounds(cs, pos + 2, in_alt, lit.push(cs[pos + 1]), acc);
            }
        } else if c == '*' {
            if pos + 1 < cs.len() && cs[pos + 1] == '*' {
                lemma_parse_seq_bounds(cs, pos + 2, in_alt, Seq::empty(), flush(acc, lit).push(GlobSeg::DoubleStar));
            } else {
                lemma_parse_seq_bounds(cs, pos + 1, in_alt, Seq::empty(), flush(acc, lit).push(GlobSeg::Star));
            }
        } else if c == '?' {
            lemma_parse_seq_bounds(cs, pos + 1, in_alt, Seq::empty(), flush(acc, lit).push(GlobSeg::Question));
        } else if c == '/' {
            lemma_parse_seq_bounds(cs, pos + 1, in_alt, Seq::empty(), flush(acc, lit).push(GlobSeg::Slash));
        } else if c == '[' {
            lemma_parse_class_bounds(cs, pos);
            match parse_class(cs, pos) {
                Err(_) => {},
                Ok((class, end)) => {
                    lemma_parse_seq_bounds(cs, end, in_alt, Seq::empty(), flush(acc, lit).push(class));
                },
            }
        } else if c == '{' {
            lemma_parse_alt_bounds(cs, pos + 1, Seq::empty());
            match parse_alt(cs, pos + 1, Seq::empty()) {
                Err(_) => {},
                Ok((bs, end)) => {
                    lemma_parse_seq_bounds(cs, end, in_alt, Seq::empty(), flush(acc, lit).push(GlobSeg::Alt(bs)));
                },
            }
        } else {
            lemma_parse_seq_bounds(cs, pos + 1, in_alt, lit.push(c), acc);
        }
    }
}

/// Where parsing alternation branches stops and reports errors: within the input.
pub proof fn lemma_parse_alt_bounds(cs: Seq<char>, pos: int, branches: Seq<Seq<GlobSeg>>)
    requires
        0 <= pos <= cs.len(),
    ensures
        match parse_alt(cs, pos, branches) {
            Ok((_, end)) => pos < end <= cs.len(),
            Err((p, _)) => 0 <= p <= cs.len(),
        },
    decreases cs.len() - pos, 1int,
{
    lemma_parse_seq_bounds(cs, pos, true, Seq::empty(), Seq::empty());
    match parse_seq(cs, pos, true, Seq::empty(), Seq::empty()) {
        Err(_) => {},
        Ok((b, end)) => {
            if end < cs.len() && cs[end] == ',' {
                lemma_parse_alt_bounds(cs, end + 1, branches.push(b));
            }
        },
    }
}

/// A character of `cs`, as a value of type `char`.
proof fn char_at(cs: Seq<char>, i: int) -> (c: char)
    ensures
        c == cs[i],
{
    cs[i]
}

/// Where parsing class items stops and reports errors: within the input, past the `[`.
pub proof fn lemma_class_items_bounds(cs: Seq<char>, start: int, pos: int, first: bool, items: Seq<ClassItem>)
    requires
        0 <= start < pos <= cs.len(),
    ensures
        match class_items(cs, start, pos, first, items) {
            Ok((_, end)) => pos < end <= cs.len(),
            Err((p, _)) => 0 <= p <= cs.len(),
        },
    decreases cs.len() - pos,
{
    if pos >= cs.len() {
    } else if cs[pos] == ']' && !first {
    } else if cs[pos] == '\\' && pos + 1 >= cs.len() {
    } else {
        let escaped = cs[pos] == '\\';
        let ch = if escaped { char_at(cs, pos + 1) } else { char_at(cs, pos) };
        let q = if escaped { pos + 2 } else { pos + 1 };
        if q + 1 < cs.len() && cs[q] == '-' && cs[q + 1] != ']' {
            let e = char_at(cs, q + 1);
            if e > ch {
                lemma_class_items_bounds(cs, start, q + 2, false, items.push(ClassItem::Range(ch, e)));
            } else if e == ch {
                lemma_class_items_bounds(cs, start, q + 2, false, items.push(ClassItem::Char(ch)));
            }
        } else {
            lemma_class_items_bounds(cs, start, q, false, items.push(ClassItem::Char(ch)));
        }
    }
}

/// Where parsing a class stops and reports errors: within the input, past the `[`.
pub proof fn lemma_parse_class_bounds(cs: Seq<char>, start: int)
    requires
        0 <= start < cs.len(),
    ensures
        match parse_class(cs, start) {
            Ok((_, end)) => start < end <= cs.len(),
            Err((p, _)) => 0 <= p <= cs.len(),
        },
{
    let negated = start + 1 < cs.len() && (cs[start + 1] == '!' || cs[start + 1] == '^');
    let p = if negated { start + 2 } else { start + 1 };
    lemma_class_items_bounds(cs, start, p, true, Seq::empty());
}

} // verus!

verus! {

/// A class item the parser can give: a range is increasing and does not end with `]`.
pub open spec fn item_ok(item: ClassItem) -> bool {
    match item {
        ClassItem::Char(_) => true,
        ClassItem::Range(a, b) => a < b && b != ']',
    }
}

/// Every item of `items` is one the parser can give.
pub open spec fn ranges_ok(items: Seq<ClassItem>) -> bool {
    forall|k: int| 0 <= k < items.len() ==> item_ok(#[trigger] items[k])
}

/// Adding an item the parser can give keeps `ranges_ok`.
proof fn lemma_ranges_push(items: Seq<ClassItem>, x: ClassItem)
    requires
        ranges_ok(items),
        item_ok(x),
    ensures
        ranges_ok(items.push(x)),
{
    let n = items.push(x);
    assert forall|k: int| 0 <= k < n.len() implies item_ok(#[trigger] n[k]) by {
        if k < items.len() {
            assert(n[k] == items[k]);
        } else {
            assert(n[k] == x);
        }
    }
}

/// The class items the parser reads have increasing ranges that do not end with `]`.
pub proof fn lemma_class_items_ranges(cs: Seq<char>, start: int, pos: int, first: bool, items: Seq<ClassItem>)
    requires
        0 <= pos,
        ranges_ok(items),
    ensures
        class_items(cs, start, pos, first, items) is Ok ==> ranges_ok(class_items(cs, start, pos, first, items)->Ok_0.0),
    decreases cs.len() - pos, 0int,
{
    if pos >= cs.len() {
    } else if cs[pos] == ']' && !first {
    } else if cs[pos] == '\\' && pos + 1 >= cs.len() {
    } else {
        let escaped = cs[pos] == '\\';
        let ch = if escaped { char_at(cs, pos + 1) } else { char_at(cs, pos) };
        let q = if escaped { pos + 2 } else { pos + 1 };
        if q + 1 < cs.len() && cs[q] == '-' && cs[q + 1] != ']' {
            let e = char_at(cs, q + 1);
            if e > ch {
                let it = ClassItem::Range(ch, e);
                assert(class_items(cs, start, pos, first, items) == class_items(cs, start, q + 2, false, items.push(it)));
                lemma_class_items_step(cs, start, q + 2, items, it);
            } else if e == ch {
                let it = ClassItem::Char(ch);
                assert(class_items(cs, start, pos, first, items) == class_items(cs, start, q + 2, false, items.push(it)));
                lemma_class_items_step(cs, start, q + 2, items, it);
            }
        } else {
            let it = ClassItem::Char(ch);
            assert(class_items(cs, start, pos, first, items) == class_items(cs, start, q, false, items.push(it)));
            lemma_class_items_step(cs, start, q, items, it);
        }
    }
}

/// One item more, then the rest of the class.
proof fn lemma_class_items_step(cs: Seq<char>, start: int, pos: int, items: Seq<ClassItem>, it: ClassItem)
    requires
        0 < pos <= cs.len(),
        ranges_ok(items),
        item_ok(it),
    ensures
        class_items(cs, start, pos, false, items.push(it)) is Ok ==> ranges_ok(
            class_items(cs, start, pos, false, items.push(it))->Ok_0.0,
        ),
    decreases cs.len() - pos, 1int,
{
    lemma_ranges_push(items, it);
    lemma_class_items_ranges(cs, start, pos, false, items.push(it));
}


/// Where reading class items ends: just after a `]`, at least one character after `pos`
/// and two when no item has been read yet; errors lie at or after the `[`.
proof fn lemma_class_items_shape(cs: Seq<char>, start: int, pos: int, first: bool, items: Seq<ClassItem>)
    requires
        0 <= start < pos,
    ensures
        match class_items(cs, start, pos, first, items) {
            Ok((_, end)) => 1 <= end <= cs.len() && cs[end - 1] == ']' && pos + 1 <= end && (first ==> pos + 2 <= end),
            Err((p, _)) => start <= p,
        },
    decreases cs.len() - pos,
{
    if pos >= cs.len() {
    } else if cs[pos] == ']' && !first {
    } else if cs[pos] == '\\' && pos + 1 >= cs.len() {
    } else {
        let escaped = cs[pos] == '\\';
        let ch = if escaped { char_at(cs, pos + 1) } else { char_at(cs, pos) };
        let q = if escaped { pos + 2 } else { pos + 1 };
        if q + 1 < cs.len() && cs[q] == '-' && cs[q + 1] != ']' {
            let e = char_at(cs, q + 1);
            if e > ch {
                lemma_class_items_shape(cs, start, q + 2, false, items.push(ClassItem::Range(ch, e)));
            } else if e == ch {
                lemma_class_items_shape(cs, start, q + 2, false, items.push(ClassItem::Char(ch)));
            }
        } else {
            lemma_class_items_shape(cs, start, q, false, items.push(ClassItem::Char(ch)));
        }
    }
}

/// The shape of a class the parser reads from a `[` at `start`: it has at least one item,
/// its ranges are increasing and do not end with `]`, it is negated exactly when `!` or `^`
/// follows the `[`, and it ends just after a `]` at least three characters on; an error
/// lies between the `[` and the end of the input.
pub proof fn law_class_shape(cs: Seq<char>, start: int)
    requires
        0 <= start < cs.len(),
    ensures
        match parse_class(cs, start) {
            Ok((seg, end)) => seg is Class && seg->Class_1.len() > 0 && ranges_ok(seg->Class_1)
                && seg->Class_0 == (start + 1 < cs.len() && (cs[start + 1] == '!' || cs[start + 1] == '^'))
                && start + 3 <= end <= cs.len() && cs[end - 1] == ']',
            Err((p, _)) => start <= p <= cs.len(),
        },
{
    let negated = start + 1 < cs.len() && (cs[start + 1] == '!' || cs[start + 1] == '^');
    let p = if negated { start + 2 } else { start + 1 };
    lemma_parse_class_bounds(cs, start);
    lemma_class_items_shape(cs, start, p, true, Seq::empty());
    assert(ranges_ok(Seq::<ClassItem>::empty()));
    lemma_class_items_ranges(cs, start, p, true, Seq::empty());
}


/// Class items read where no `]` follows never end well: reading fails, and where no `\`
/// or `-` follows either, it fails as an unterminated class at the `[`.
proof fn lemma_class_items_unclosed(cs: Seq<char>, start: int, pos: int, first: bool, items: Seq<ClassItem>)
    requires
        0 <= pos,
        forall|j: int| pos <= j < cs.len() ==> cs[j] != ']',
    ensures
        class_items(cs, start, pos, first, items) is Err,
        (forall|j: int| pos <= j < cs.len() ==> cs[j] != '\\' && cs[j] != '-') ==> class_items(
            cs,
            start,
            pos,
            first,
            items,
        ) == Err::<(Seq<ClassItem>, int), (int, Seq<char>)>((start, msg_unterminated_class())),
    decreases cs.len() - pos,
{
    if pos >= cs.len() {
    } else if cs[pos] == '\\' && pos + 1 >= cs.len() {
    } else {
        let escaped = cs[pos] == '\\';
        let ch = if escaped { char_at(cs, pos + 1) } else { char_at(cs, pos) };
        let q = if escaped { pos + 2 } else { pos + 1 };
        if q + 1 < cs.len() && cs[q] == '-' && cs[q + 1] != ']' {
            let e = char_at(cs, q + 1);
            if e > ch {
                lemma_class_items_unclosed(cs, start, q + 2, false, items.push(ClassItem::Range(ch, e)));
            } else if e == ch {
                lemma_class_items_unclosed(cs, start, q + 2, false, items.push(ClassItem::Char(ch)));
            }
        } else {
            lemma_class_items_unclosed(cs, start, q, false, items.push(ClassItem::Char(ch)));
        }
    }
}

/// A `[` with no `]` anywhere after it opens no class: parsing the class fails, and fails
/// as an unterminated class at the `[` where no `\` or `-` follows either.
pub proof fn lemma_parse_class_unclosed(cs: Seq<char>, start: int)
    requires
        0 <= start < cs.len(),
        forall|j: int| start < j < cs.len() ==> cs[j] != ']',
    ensures
        parse_class(cs, start) is Err,
        (forall|j: int| start < j < cs.len() ==> cs[j] != '\\' && cs[j] != '-')
            ==> parse_class(cs, start) == Err::<(GlobSeg, int), (int, Seq<char>)>((start, msg_unterminated_class())),
{
    let negated = start + 1 < cs.len() && (cs[start + 1] == '!' || cs[start + 1] == '^');
    let p = if negated { start + 2 } else { start + 1 };
    lemma_class_items_unclosed(cs, start, p, true, Seq::empty());
}

} // verus!
