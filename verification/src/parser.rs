use vstd::prelude::*;
use crate::model::{
    Segment,
    CharClass,
    ClassItem,
    GlobSeg,
    Glob,
    ParseError,
    segs_model,
    branches_model,
    lemma_segs_model,
    lemma_branches_model,
    copy_segment,
};
use crate::grammar::{
    flush,
    parse_seq,
    parse_alt,
    parse_class,
    class_items,
    msg_dangling_escape,
    msg_unterminated_alt,
    msg_empty_alt,
    msg_unterminated_class,
    msg_dangling_class_escape,
    msg_empty_class,
    msg_invalid_range,
    msg_unexpected,
    msg_double_star_mixed,
    msg_empty_component,
    violation_at,
    violation_in_branches,
    chain_len,
    normalize_from,
    normalize_branches,
    parse_spec,
    validation,
    edges_ok,
    edge_item,
    lemma_edges_items,
};

verus! {

/// The message for a backwards range `start-end` in a character class.
fn invalid_range_message(start: char, end: char) -> (m: String)
    ensures
        m@ == msg_invalid_range(start, end),
{
    let mut m = String::from_str("invalid range '");
    m.push(start);
    m.append("-");
    m.push(end);
    m.append("': start is greater than end");
    assert(m@ =~= msg_invalid_range(start, end));
    m
}

/// The message for a character that cannot stand where it was found.
fn unexpected_message(c: char) -> (m: String)
    ensures
        m@ == msg_unexpected(c),
{
    let mut m = String::from_str("unexpected '");
    m.push(c);
    m.append("'");
    assert(m@ =~= msg_unexpected(c));
    m
}

/// Moves the pending literal characters, if any, into `segs` as one literal segment.
fn flush_literal(segs: &mut Vec<Segment>, literal: &mut String)
    ensures
        segs_model(final(segs)@) == flush(segs_model(old(segs)@), old(literal)@),
        final(literal)@ == Seq::<char>::empty(),
{
    let ghost lit0 = literal@;
    let n = literal.as_str().unicode_len();
    assert(n == lit0.len());
    let mut taken = String::new();
    std::mem::swap(&mut taken, literal);
    assert(taken@ == lit0);
    if n > 0 {
        let ghost before = segs@;
        segs.push(Segment::Literal(taken));
        assert(segs@.drop_last() =~= before);
        assert(segs@.last()@ == GlobSeg::Literal(lit0));
    }
}

/// A cursor over the characters of a pattern.
struct Parser {
    chars: Vec<char>,
    pos: usize,
}

impl Parser {
    /// A cursor at the start of `s`.
    fn new(s: &str) -> (p: Parser)
        ensures
            p.chars@ == s@,
            p.pos == 0,
    {
        Parser { chars: crate::text::str_chars(s), pos: 0 }
    }

    /// The character at the cursor.
    fn peek(&self) -> (r: Option<char>)
        ensures
            r == (if self.pos < self.chars@.len() {
                Some(self.chars@[self.pos as int])
            } else {
                None::<char>
            }),
    {
        if self.pos < self.chars.len() {
            Some(self.chars[self.pos])
        } else {
            None
        }
    }

    /// The character just after the cursor.
    fn peek2(&self) -> (r: Option<char>)
        ensures
            r == (if self.pos + 1 < self.chars@.len() {
                Some(self.chars@[self.pos + 1])
            } else {
                None::<char>
            }),
    {
        if self.pos < self.chars.len() && self.pos + 1 < self.chars.len() {
            Some(self.chars[self.pos + 1])
        } else {
            None
        }
    }

    /// Takes the character at the cursor, if any, and moves past it.
    fn bump(&mut self) -> (r: Option<char>)
        ensures
            final(self).chars@ == old(self).chars@,
            old(self).pos < old(self).chars@.len() ==> r == Some(old(self).chars@[old(self).pos as int])
                && final(self).pos == old(self).pos + 1,
            old(self).pos >= old(self).chars@.len() ==> r == None::<char> && final(self).pos == old(
                self,
            ).pos,
    {
        if self.pos < self.chars.len() {
            let c = self.chars[self.pos];
            self.pos += 1;
            Some(c)
        } else {
            None
        }
    }

    /// An error at the cursor.
    fn err(&self, msg: String) -> (e: ParseError)
        ensures
            e.position == self.pos,
            e.message@ == msg@,
    {
        ParseError { position: self.pos, message: msg }
    }

    /// Parses segments up to the end of input or, inside an alternation, up to a `,` or `}`.
    fn parse_sequence(&mut self, in_alt: bool) -> (r: Result<Vec<Segment>, ParseError>)
        requires
            old(self).pos <= old(self).chars@.len(),
        ensures
            final(self).chars@ == old(self).chars@,
            old(self).pos <= final(self).pos <= final(self).chars@.len(),
            match r {
                Ok(segs) => parse_seq(old(self).chars@, old(self).pos as int, in_alt, Seq::empty(), Seq::empty())
                    == Ok::<(Seq<GlobSeg>, int), (int, Seq<char>)>((segs_model(segs@), final(self).pos as int)),
                Err(e) => parse_seq(old(self).chars@, old(self).pos as int, in_alt, Seq::empty(), Seq::empty())
                    == Err::<(Seq<GlobSeg>, int), (int, Seq<char>)>((e.position as int, e.message@)),
            },
        decreases old(self).chars@.len() - old(self).pos, 0int,
    {
        let ghost cs = self.chars@;
        let ghost pos0 = self.pos as int;
        let ghost goal = parse_seq(cs, pos0, in_alt, Seq::empty(), Seq::empty());
        let mut segs: Vec<Segment> = Vec::new();
        let mut literal = String::new();
        assert(segs_model(segs@) =~= Seq::<GlobSeg>::empty());
        loop
            invariant
                self.chars@ == cs,
                cs == old(self).chars@,
                pos0 == old(self).pos,
                pos0 <= self.pos <= cs.len(),
                goal == parse_seq(cs, pos0, in_alt, Seq::empty(), Seq::empty()),
                parse_seq(cs, self.pos as int, in_alt, literal@, segs_model(segs@)) == goal,
            ensures
                self.chars@ == cs,
                pos0 <= self.pos <= cs.len(),
                parse_seq(cs, self.pos as int, in_alt, literal@, segs_model(segs@)) == goal,
                self.pos >= cs.len() || (in_alt && (cs[self.pos as int] == ',' || cs[self.pos as int] == '}')),
            decreases cs.len() - self.pos,
        {
            let c = match self.peek() {
                None => break,
                Some(c) => c,
            };
            if in_alt && (c == ',' || c == '}') {
                break;
            }
            let ghost p = self.pos as int;
            let ghost lit0 = literal@;
            let ghost acc0 = segs_model(segs@);
            if c == ']' || c == '}' || c == ',' {
                return Err(self.err(unexpected_message(c)));
            } else if c == '\\' {
                self.bump();
                match self.bump() {
                    Some(esc) => {
                        literal.push(esc);
                        assert(parse_seq(cs, self.pos as int, in_alt, literal@, segs_model(segs@)) == parse_seq(cs, p, in_alt, lit0, acc0));
                    },
                    None => {
                        return Err(self.err(String::from_str("dangling escape at end of pattern")));
                    },
                }
            } else if c == '*' {
                flush_literal(&mut segs, &mut literal);
                self.bump();
                let ghost before = segs@;
                let double = match self.peek() {
                    Some(d) => d == '*',
                    None => false,
                };
                if double {
                    self.bump();
                    segs.push(Segment::DoubleStar);
                } else {
                    segs.push(Segment::Star);
                }
                assert(segs@.drop_last() =~= before);
                assert(segs_model(segs@) == flush(acc0, lit0).push(segs@.last()@));
                assert(parse_seq(cs, self.pos as int, in_alt, literal@, segs_model(segs@)) == parse_seq(cs, p, in_alt, lit0, acc0));
            } else if c == '?' {
                flush_literal(&mut segs, &mut literal);
                self.bump();
                let ghost before = segs@;
                segs.push(Segment::Question);
                assert(segs@.drop_last() =~= before);
                assert(segs_model(segs@) == flush(acc0, lit0).push(GlobSeg::Question));
                assert(self.pos == p + 1);
                assert(cs[p] == '?');
                assert(parse_seq(cs, self.pos as int, in_alt, literal@, segs_model(segs@)) == parse_seq(cs, p, in_alt, lit0, acc0));
            } else if c == '/' {
                flush_literal(&mut segs, &mut literal);
                self.bump();
                let ghost before = segs@;
                segs.push(Segment::Slash);
                assert(segs@.drop_last() =~= before);
                assert(parse_seq(cs, self.pos as int, in_alt, literal@, segs_model(segs@)) == parse_seq(cs, p, in_alt, lit0, acc0));
            } else if c == '[' {
                flush_literal(&mut segs, &mut literal);
                let class = match self.parse_class() {
                    Ok(class) => class,
                    Err(e) => {
                        return Err(e);
                    },
                };
                let ghost before = segs@;
                segs.push(Segment::Class(class));
                assert(segs@.drop_last() =~= before);
                assert(parse_seq(cs, self.pos as int, in_alt, literal@, segs_model(segs@)) == parse_seq(cs, p, in_alt, lit0, acc0));
            } else if c == '{' {
                flush_literal(&mut segs, &mut literal);
                self.bump();
                let branches = match self.parse_alt() {
                    Ok(bs) => bs,
                    Err(e) => {
                        return Err(e);
                    },
                };
                let ghost before = segs@;
                segs.push(Segment::Alt(branches));
                assert(segs@.drop_last() =~= before);
                assert(parse_seq(cs, self.pos as int, in_alt, literal@, segs_model(segs@)) == parse_seq(cs, p, in_alt, lit0, acc0));
            } else {
                self.bump();
                literal.push(c);
                assert(parse_seq(cs, self.pos as int, in_alt, literal@, segs_model(segs@)) == parse_seq(cs, p, in_alt, lit0, acc0));
            }
            assert(parse_seq(cs, self.pos as int, in_alt, literal@, segs_model(segs@)) == parse_seq(cs, p, in_alt, lit0, acc0));
        }
        flush_literal(&mut segs, &mut literal);
        Ok(segs)
    }

    /// Parses the branches of an alternation; the cursor is just after its `{`.
    fn parse_alt(&mut self) -> (r: Result<Vec<Vec<Segment>>, ParseError>)
        requires
            old(self).pos <= old(self).chars@.len(),
        ensures
            final(self).chars@ == old(self).chars@,
            old(self).pos <= final(self).pos <= final(self).chars@.len(),
            match r {
                Ok(bs) => parse_alt(old(self).chars@, old(self).pos as int, Seq::empty())
                    == Ok::<(Seq<Seq<GlobSeg>>, int), (int, Seq<char>)>((branches_model(bs@), final(self).pos as int))
                    && old(self).pos < final(self).pos,
                Err(e) => parse_alt(old(self).chars@, old(self).pos as int, Seq::empty())
                    == Err::<(Seq<Seq<GlobSeg>>, int), (int, Seq<char>)>((e.position as int, e.message@)),
            },
        decreases old(self).chars@.len() - old(self).pos, 1int,
    {
        let ghost cs = self.chars@;
        let ghost pos0 = self.pos as int;
        let ghost goal = parse_alt(cs, pos0, Seq::empty());
        let mut branches: Vec<Vec<Segment>> = Vec::new();
        assert(branches_model(branches@) =~= Seq::<Seq<GlobSeg>>::empty());
        loop
            invariant_except_break
                parse_alt(cs, self.pos as int, branches_model(branches@)) == goal,
            invariant
                self.chars@ == cs,
                cs == old(self).chars@,
                pos0 == old(self).pos,
                pos0 <= self.pos <= cs.len(),
                goal == parse_alt(cs, pos0, Seq::empty()),
            ensures
                self.chars@ == cs,
                pos0 < self.pos <= cs.len(),
                goal == (if forall|i: int|
                    0 <= i < branches_model(branches@).len() ==> #[trigger] branches_model(branches@)[i].len() == 0 {
                    Err::<(Seq<Seq<GlobSeg>>, int), (int, Seq<char>)>((self.pos as int, msg_empty_alt()))
                } else {
                    Ok((branches_model(branches@), self.pos as int))
                }),
            decreases cs.len() - self.pos,
        {
            let branch = match self.parse_sequence(true) {
                Ok(b) => b,
                Err(e) => {
                    return Err(e);
                },
            };
            let ghost before = branches@;
            branches.push(branch);
            assert(branches@.drop_last() =~= before);
            match self.bump() {
                Some(',') => {},
                Some('}') => {
                    break;
                },
                _ => {
                    return Err(self.err(String::from_str("unterminated '{' - missing closing '}'")));
                },
            }
        }
        proof {
            crate::model::lemma_branches_model(branches@);
        }
        let mut all_empty = true;
        let mut i: usize = 0;
        while i < branches.len()
            invariant
                i <= branches@.len(),
                branches_model(branches@).len() == branches@.len(),
                forall|j: int| 0 <= j < branches@.len() ==> #[trigger] branches_model(branches@)[j] == segs_model(branches@[j]@),
                all_empty == (forall|j: int| 0 <= j < i ==> #[trigger] branches_model(branches@)[j].len() == 0),
            decreases branches@.len() - i,
        {
            proof {
                crate::model::lemma_segs_model(branches@[i as int]@);
            }
            assert(branches_model(branches@)[i as int].len() == branches@[i as int]@.len());
            if branches[i].len() != 0 {
                all_empty = false;
            }
            i += 1;
        }
        if all_empty {
            return Err(self.err(String::from_str("empty alternation '{}'")));
        }
        Ok(branches)
    }

    /// Parses a character class; the cursor is at its `[`.
    fn parse_class(&mut self) -> (r: Result<CharClass, ParseError>)
        requires
            old(self).pos < old(self).chars@.len(),
        ensures
            final(self).chars@ == old(self).chars@,
            old(self).pos <= final(self).pos <= final(self).chars@.len(),
            match r {
                Ok(c) => parse_class(old(self).chars@, old(self).pos as int)
                    == Ok::<(GlobSeg, int), (int, Seq<char>)>((GlobSeg::Class(c.negated, c.items@), final(self).pos as int))
                    && old(self).pos < final(self).pos,
                Err(e) => parse_class(old(self).chars@, old(self).pos as int)
                    == Err::<(GlobSeg, int), (int, Seq<char>)>((e.position as int, e.message@)),
            },
    {
        let ghost cs = self.chars@;
        let start = self.pos;
        self.bump();
        let mut negated = false;
        match self.peek() {
            Some(c) => {
                if c == '!' || c == '^' {
                    negated = true;
                    self.bump();
                }
            },
            None => {},
        }
        let ghost p0 = self.pos as int;
        let ghost goal = class_items(cs, start as int, p0, true, Seq::empty());
        assert(negated == (start + 1 < cs.len() && (cs[start + 1] == '!' || cs[start + 1] == '^')));
        assert(p0 == (if negated { start + 2 } else { start + 1 }));
        let mut items: Vec<ClassItem> = Vec::new();
        let mut first = true;
        loop
            invariant_except_break
                class_items(cs, start as int, self.pos as int, first, items@) == goal,
            invariant
                self.chars@ == cs,
                cs == old(self).chars@,
                start == old(self).pos,
                start < self.pos <= cs.len(),
                goal == class_items(cs, start as int, p0, true, Seq::empty()),
                negated == (start + 1 < cs.len() && (cs[start + 1] == '!' || cs[start + 1] == '^')),
                p0 == (if negated { start + 2 } else { start + 1 }),
            ensures
                self.chars@ == cs,
                start < self.pos <= cs.len(),
                goal == Ok::<(Seq<ClassItem>, int), (int, Seq<char>)>((items@, self.pos as int)),
            decreases cs.len() - self.pos,
        {
            let c = match self.peek() {
                None => {
                    return Err(ParseError {
                        position: start,
                        message: String::from_str("unterminated '[' - missing closing ']'"),
                    });
                },
                Some(c) => c,
            };
            if c == ']' && !first {
                self.bump();
                break;
            }
            first = false;
            self.bump();
            let ch = if c == '\\' {
                match self.bump() {
                    Some(e) => e,
                    None => {
                        return Err(self.err(String::from_str("dangling escape in character class")));
                    },
                }
            } else {
                c
            };
            let dash = match self.peek() {
                Some(d) => d == '-',
                None => false,
            };
            let range_end_ok = match self.peek2() {
                Some(e) => e != ']',
                None => false,
            };
            if dash && range_end_ok {
                self.bump();
                let end_c = self.bump().unwrap();
                if end_c > ch {
                    items.push(ClassItem::Range(ch, end_c));
                } else if end_c == ch {
                    items.push(ClassItem::Char(ch));
                } else {
                    return Err(ParseError { position: start, message: invalid_range_message(ch, end_c) });
                }
            } else {
                items.push(ClassItem::Char(ch));
            }
        }
        if items.len() == 0 {
            return Err(ParseError { position: start, message: String::from_str("empty character class '[]'") });
        }
        Ok(CharClass { negated, items })
    }
}


/// Checks the rules a parsed pattern must follow: `**` fills a whole path component,
/// also where it fills an alternation branch, and no path component is empty.
pub fn validate(segs: &Vec<Segment>) -> (r: Result<(), ParseError>)
    ensures
        match r {
            Ok(()) => validation(segs_model(segs@)) is None,
            Err(e) => validation(segs_model(segs@)) == Some(e.message@) && e.position == 0,
        },
        (r is Ok) == (crate::wellformed::well_formed(segs_model(segs@)) && edges_ok(segs_model(segs@), true, true)),
{
    proof {
        crate::laws::law_validation_is_well_formedness(segs_model(segs@));
    }
    match check_rules(segs) {
        Ok(()) => {},
        Err(e) => {
            return Err(e);
        },
    }
    if !check_edges(segs, true, true) {
        return Err(ParseError {
            position: 0,
            message: String::from_str("'**' must occupy a whole path component"),
        });
    }
    Ok(())
}

/// Checks, in order, the rules each sequence and each alternation branch must follow on
/// its own: a `**` is bounded by `/` or the ends, and no `/` follows a `/`.
fn check_rules(segs: &Vec<Segment>) -> (r: Result<(), ParseError>)
    ensures
        match r {
            Ok(()) => violation_at(segs_model(segs@), 0) is None,
            Err(e) => violation_at(segs_model(segs@), 0) == Some(e.message@) && e.position == 0,
        },
    decreases segs, 1int,
{
    proof {
        lemma_segs_model(segs@);
    }
    let ghost m = segs_model(segs@);
    let mut i: usize = 0;
    while i < segs.len()
        invariant
            i <= segs@.len(),
            m == segs_model(segs@),
            m.len() == segs@.len(),
            forall|j: int| 0 <= j < segs@.len() ==> #[trigger] m[j] == segs@[j]@,
            violation_at(m, 0) == violation_at(m, i as int),
        decreases segs@.len() - i,
    {
        match &segs[i] {
            Segment::DoubleStar => {
                let ok_before = i == 0 || matches!(segs[i - 1], Segment::Slash);
                let ok_after = i + 1 == segs.len() || matches!(segs[i + 1], Segment::Slash);
                if !ok_before || !ok_after {
                    return Err(ParseError {
                        position: 0,
                        message: String::from_str("'**' must occupy a whole path component"),
                    });
                }
            },
            Segment::Slash => {
                if i + 1 < segs.len() && matches!(segs[i + 1], Segment::Slash) {
                    return Err(ParseError {
                        position: 0,
                        message: String::from_str("empty path component ('//')"),
                    });
                }
            },
            Segment::Alt(branches) => {
                proof {
                    assert(decreases_to!(segs => branches));
                }
                match validate_branches(branches) {
                    Ok(()) => {},
                    Err(e) => {
                        return Err(e);
                    },
                }
            },
            _ => {},
        }
        i += 1;
    }
    Ok(())
}

/// Checks every branch of an alternation, in order.
fn validate_branches(bs: &Vec<Vec<Segment>>) -> (r: Result<(), ParseError>)
    ensures
        match r {
            Ok(()) => violation_in_branches(branches_model(bs@), 0) is None,
            Err(e) => violation_in_branches(branches_model(bs@), 0) == Some(e.message@) && e.position == 0,
        },
    decreases bs, 0int,
{
    proof {
        lemma_branches_model(bs@);
    }
    let ghost bm = branches_model(bs@);
    let mut j: usize = 0;
    while j < bs.len()
        invariant
            j <= bs@.len(),
            bm == branches_model(bs@),
            bm.len() == bs@.len(),
            forall|k: int| 0 <= k < bs@.len() ==> #[trigger] bm[k] == segs_model(bs@[k]@),
            violation_in_branches(bm, 0) == violation_in_branches(bm, j as int),
        decreases bs@.len() - j,
    {
        proof {
            assert(decreases_to!(bs => bs@[j as int]));
        }
        match check_rules(&bs[j]) {
            Ok(()) => {},
            Err(e) => {
                return Err(e);
            },
        }
        j += 1;
    }
    Ok(())
}

/// Whether every `**` at an end of `segs`, or of an alternation branch inside it, stands
/// where its surroundings begin or end a path component (`left_ok`, `right_ok` say so for
/// the ends of `segs`).
pub fn check_edges(segs: &Vec<Segment>, left_ok: bool, right_ok: bool) -> (r: bool)
    ensures
        r == edges_ok(segs_model(segs@), left_ok, right_ok),
    decreases segs, 1int,
{
    proof {
        lemma_segs_model(segs@);
        lemma_edges_items(segs_model(segs@), left_ok, right_ok);
    }
    let ghost m = segs_model(segs@);
    let n = segs.len();
    let mut i: usize = 0;
    while i < n
        invariant
            i <= n,
            n == segs@.len(),
            m == segs_model(segs@),
            m.len() == n,
            forall|j: int| 0 <= j < n ==> #[trigger] m[j] == segs@[j]@,
            forall|t: int| 0 <= t < i ==> #[trigger] edge_item(m, t, left_ok, right_ok),
        decreases n - i,
    {
        let lm = if i == 0 { left_ok } else { matches!(segs[i - 1], Segment::Slash) };
        let rm = if i + 1 == n { right_ok } else { matches!(segs[i + 1], Segment::Slash) };
        assert(lm == (if i == 0 { left_ok } else { m[i - 1] == GlobSeg::Slash }));
        assert(rm == (if i == m.len() - 1 { right_ok } else { m[i + 1] == GlobSeg::Slash }));
        match &segs[i] {
            Segment::DoubleStar => {
                if (i == 0 && !left_ok) || (i + 1 == n && !right_ok) {
                    assert(!edge_item(m, i as int, left_ok, right_ok));
                    return false;
                }
            },
            Segment::Alt(bs) => {
                proof {
                    assert(decreases_to!(segs => bs));
                }
                assert(m[i as int]->Alt_0 == branches_model(bs@));
                if !check_edges_branches(bs, lm, rm) {
                    assert(!edge_item(m, i as int, left_ok, right_ok));
                    return false;
                }
            },
            _ => {},
        }
        assert(edge_item(m, i as int, left_ok, right_ok));
        i += 1;
    }
    true
}

/// Whether `check_edges` holds of every branch of an alternation, with the given surroundings.
fn check_edges_branches(bs: &Vec<Vec<Segment>>, left_ok: bool, right_ok: bool) -> (r: bool)
    ensures
        r == (forall|j: int|
            0 <= j < branches_model(bs@).len() ==> edges_ok(#[trigger] branches_model(bs@)[j], left_ok, right_ok)),
    decreases bs, 0int,
{
    proof {
        lemma_branches_model(bs@);
    }
    let ghost bm = branches_model(bs@);
    let mut j: usize = 0;
    while j < bs.len()
        invariant
            j <= bs@.len(),
            bm == branches_model(bs@),
            bm.len() == bs@.len(),
            forall|k: int| 0 <= k < bs@.len() ==> #[trigger] bm[k] == segs_model(bs@[k]@),
            forall|k: int| 0 <= k < j ==> edges_ok(#[trigger] bm[k], left_ok, right_ok),
        decreases bs@.len() - j,
    {
        proof {
            assert(decreases_to!(bs => bs@[j as int]));
        }
        if !check_edges(&bs[j], left_ok, right_ok) {
            assert(!edges_ok(bm[j as int], left_ok, right_ok));
            return false;
        }
        j += 1;
    }
    true
}

/// Collapses redundant `**` chains (`**/**` becomes `**`) at every nesting level.
pub fn normalize(segs: &Vec<Segment>) -> (r: Vec<Segment>)
    ensures
        segs_model(r@) == normalize_from(segs_model(segs@), 0),
    decreases segs, 1int,
{
    proof {
        lemma_segs_model(segs@);
    }
    let ghost m = segs_model(segs@);
    let mut out: Vec<Segment> = Vec::new();
    let mut i: usize = 0;
    while i < segs.len()
        invariant
            i <= segs@.len(),
            m == segs_model(segs@),
            m.len() == segs@.len(),
            forall|j: int| 0 <= j < segs@.len() ==> #[trigger] m[j] == segs@[j]@,
            segs_model(out@) + normalize_from(m, i as int) == normalize_from(m, 0),
        decreases segs@.len() - i,
    {
        let ghost i0 = i as int;
        let ghost before = out@;
        match &segs[i] {
            Segment::DoubleStar => {
                out.push(Segment::DoubleStar);
                i += 1;
                let ghost target = i + 2 * chain_len(m, i as int);
                while segs.len() - i > 1 && matches!(segs[i], Segment::Slash) && matches!(segs[i + 1], Segment::DoubleStar)
                    invariant
                        i0 < i <= segs@.len(),
                        m.len() == segs@.len(),
                        forall|j: int| 0 <= j < segs@.len() ==> #[trigger] m[j] == segs@[j]@,
                        target == i + 2 * chain_len(m, i as int),
                    decreases segs@.len() - i,
                {
                    i += 2;
                }
                assert(chain_len(m, i as int) == 0);
                assert(out@.drop_last() =~= before);
                assert(segs_model(out@) == segs_model(before).push(GlobSeg::DoubleStar));
                assert(segs_model(out@) + normalize_from(m, i as int) =~= segs_model(before) + normalize_from(m, i0));
            },
            Segment::Alt(branches) => {
                proof {
                    assert(decreases_to!(segs => branches));
                }
                let nb = normalize_branches_exec(branches);
                let ghost x = GlobSeg::Alt(normalize_branches(branches_model(branches@), 0));
                let seg = Segment::Alt(nb);
                assert(seg@ == x);
                assert(m[i0] == GlobSeg::Alt(branches_model(branches@)));
                assert(normalize_from(m, i0) == seq![x] + normalize_from(m, i0 + 1));
                out.push(seg);
                i += 1;
                assert(out@.drop_last() =~= before);
                assert(segs_model(out@) == segs_model(before).push(x));
                assert(segs_model(before).push(x) + normalize_from(m, i0 + 1) =~= segs_model(before) + (seq![x] + normalize_from(m, i0 + 1)));
            },
            other => {
                let c = copy_segment(other);
                assert(c@ == m[i0]);
                assert(!(m[i0] is DoubleStar) && !(m[i0] is Alt));
                assert(normalize_from(m, i0) == seq![m[i0]] + normalize_from(m, i0 + 1));
                out.push(c);
                i += 1;
                assert(out@.drop_last() =~= before);
                assert(segs_model(out@) == segs_model(before).push(m[i0]));
                assert(i == i0 + 1);
                assert(segs_model(before).push(m[i0]) + normalize_from(m, i0 + 1) =~= segs_model(before) + (seq![m[i0]] + normalize_from(m, i0 + 1)));
            },
        }
    }
    assert(normalize_from(m, i as int) =~= Seq::<GlobSeg>::empty());
    assert(segs_model(out@) + Seq::<GlobSeg>::empty() =~= segs_model(out@));
    out
}

/// Normalises every branch of an alternation.
fn normalize_branches_exec(bs: &Vec<Vec<Segment>>) -> (r: Vec<Vec<Segment>>)
    ensures
        branches_model(r@) == normalize_branches(branches_model(bs@), 0),
    decreases bs, 0int,
{
    proof {
        lemma_branches_model(bs@);
    }
    let ghost bm = branches_model(bs@);
    let mut out: Vec<Vec<Segment>> = Vec::new();
    let mut j: usize = 0;
    while j < bs.len()
        invariant
            j <= bs@.len(),
            bm == branches_model(bs@),
            bm.len() == bs@.len(),
            forall|k: int| 0 <= k < bs@.len() ==> #[trigger] bm[k] == segs_model(bs@[k]@),
            branches_model(out@) + normalize_branches(bm, j as int) == normalize_branches(bm, 0),
        decreases bs@.len() - j,
    {
        proof {
            assert(decreases_to!(bs => bs@[j as int]));
        }
        let ghost before = out@;
        let n = normalize(&bs[j]);
        out.push(n);
        j += 1;
        assert(out@.drop_last() =~= before);
        assert(branches_model(out@) + normalize_branches(bm, j as int) =~= branches_model(before)
            + normalize_branches(bm, j - 1));
    }
    assert(normalize_branches(bm, j as int) =~= Seq::<Seq<GlobSeg>>::empty());
    assert(branches_model(out@) + Seq::<Seq<GlobSeg>>::empty() =~= branches_model(out@));
    out
}

/// Parses, validates and normalises a glob pattern.
pub fn parse(pattern: &str) -> (r: Result<Glob, ParseError>)
    ensures
        match r {
            Ok(g) => parse_spec(pattern@) == Ok::<Seq<GlobSeg>, (int, Seq<char>)>(g@),
            Err(e) => parse_spec(pattern@) == Err::<Seq<GlobSeg>, (int, Seq<char>)>((e.position as int, e.message@)),
        },
{
    let mut p = Parser::new(pattern);
    let segs = match p.parse_sequence(false) {
        Ok(segs) => segs,
        Err(e) => {
            return Err(e);
        },
    };
    match p.peek() {
        Some(c) => {
            return Err(p.err(unexpected_message(c)));
        },
        None => {},
    }
    match validate(&segs) {
        Ok(()) => {},
        Err(e) => {
            return Err(e);
        },
    }
    Ok(Glob::from_segments(normalize(&segs)))
}

} // verus!
