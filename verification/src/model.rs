use vstd::prelude::*;
use crate::semantics::{glob_matches, glob_stuck};

verus! {

/// One element of a parsed pattern.
#[derive(Debug, PartialEq)]
pub enum Segment {
    Literal(String),
    Star,
    DoubleStar,
    Question,
    Slash,
    Class(CharClass),
    Alt(Vec<Vec<Segment>>),
}

/// A bracket expression such as `[a-z]` or `[!abc]`.
#[derive(Debug, PartialEq)]
pub struct CharClass {
    pub negated: bool,
    pub items: Vec<ClassItem>,
}

/// One member of a character class: a single character or an inclusive range.
#[derive(Debug, Clone, Copy, PartialEq, Eq, Structural)]
pub enum ClassItem {
    Char(char),
    Range(char, char),
}

/// The mathematical model of a [`Segment`].
pub enum GlobSeg {
    Literal(Seq<char>),
    Star,
    DoubleStar,
    Question,
    Slash,
    Class(bool, Seq<ClassItem>),
    Alt(Seq<Seq<GlobSeg>>),
}

/// Model of one segment.
pub open spec fn seg_model(s: Segment) -> GlobSeg
    decreases s, 0int,
{
    match s {
        Segment::Literal(l) => GlobSeg::Literal(l@),
        Segment::Star => GlobSeg::Star,
        Segment::DoubleStar => GlobSeg::DoubleStar,
        Segment::Question => GlobSeg::Question,
        Segment::Slash => GlobSeg::Slash,
        Segment::Class(c) => GlobSeg::Class(c.negated, c.items@),
        Segment::Alt(bs) => GlobSeg::Alt(branches_model(bs@)),
    }
}

/// Model of a sequence of segments, element by element.
pub open spec fn segs_model(ss: Seq<Segment>) -> Seq<GlobSeg>
    decreases ss, 0int,
{
    if ss.len() == 0 {
        Seq::empty()
    } else {
        segs_model(ss.drop_last()).push(seg_model(ss.last()))
    }
}

/// Model of the branches of an alternation.
pub open spec fn branches_model(bs: Seq<Vec<Segment>>) -> Seq<Seq<GlobSeg>>
    decreases bs, 0int,
{
    if bs.len() == 0 {
        Seq::empty()
    } else {
        branches_model(bs.drop_last()).push(segs_model(bs.last()@))
    }
}

impl View for Segment {
    type V = GlobSeg;

    open spec fn view(&self) -> GlobSeg {
        seg_model(*self)
    }
}

/// A pattern that has been parsed, validated and normalised.
#[derive(Debug, PartialEq)]
pub struct Glob(Vec<Segment>);

impl View for Glob {
    type V = Seq<GlobSeg>;

    closed spec fn view(&self) -> Seq<GlobSeg> {
        segs_model(self.0@)
    }
}

impl Glob {
    /// A pattern made of the given segments.
    pub(crate) fn from_segments(segs: Vec<Segment>) -> (g: Glob)
        ensures
            g@ == segs_model(segs@),
    {
        Glob(segs)
    }

    /// The segments of the pattern, in order.
    pub fn segments(&self) -> (r: &[Segment])
        ensures
            segs_model(r@) == self@,
    {
        self.0.as_slice()
    }

    /// The pattern written out in canonical form: literals escaped only where needed,
    /// alternation branches sorted and deduplicated.
    pub fn to_string(&self) -> (r: String)
        ensures
            r@ == crate::render::render_seq(self@),
    {
        crate::render::render(&self.0)
    }

    /// Whether `matches` has an answer for every path: the pattern keeps the rules that
    /// `validate` checks and no alternation in it holds a `/` or `**`.
    pub fn matching_defined(&self) -> (b: bool)
        ensures
            b == (crate::grammar::validation(self@) is None && crate::wellformed::alternations_flat(self@)),
            b ==> forall|path: Seq<char>| !glob_stuck(self@, path),
    {
        let valid = match crate::parser::validate(&self.0) {
            Ok(()) => true,
            Err(_) => false,
        };
        proof {
            crate::wellformed::lemma_valid_iff_well_formed(self@);
        }
        let b = valid && crate::matcher::alternations_are_flat(&self.0);
        if b {
            assert forall|path: Seq<char>| !glob_stuck(self@, path) by {
                crate::laws::law_matching_defined(self@, path);
            }
        }
        b
    }

    /// Reports whether `path` matches this pattern.
    ///
    /// Matching is component-by-component, split on `/`. `*` and character classes never
    /// cross a `/`; `**` matches zero or more whole components. There is no special-casing
    /// of leading dots. Matching is undefined (the computation has no answer) where it would
    /// reach a `/` or `**` nested inside an alternation; such inputs are excluded, and
    /// `matching_defined` tells a caller that none can arise for a pattern.
    pub fn matches(&self, path: &str) -> (r: bool)
        requires
            !glob_stuck(self@, path@),
        ensures
            r == glob_matches(self@, path@),
    {
        let comps = crate::matcher::split_components(&self.0);
        let cs = crate::text::str_chars(path);
        let parts = crate::matcher::split_path(&cs);
        assert(crate::matcher::comps_model(comps@).skip(0) =~= crate::matcher::comps_model(comps@));
        assert(crate::matcher::texts_model(parts@).skip(0) =~= crate::matcher::texts_model(parts@));
        crate::matcher::match_components(&comps, 0, &parts, 0)
    }
}

/// Why a pattern was rejected, with the zero-based character index it was rejected at.
#[derive(Debug, PartialEq)]
pub struct ParseError {
    pub position: usize,
    pub message: String,
}

impl ParseError {
    /// `column N: message`, with the one-based column `N`.
    pub fn to_string(&self) -> (r: String)
        ensures
            r@ == "column "@ + crate::text::decimal((self.position + 1) as nat) + ": "@ + self.message@,
    {
        let mut r = String::from_str("column ");
        crate::text::push_decimal(&mut r, self.position as u128 + 1);
        r.append(": ");
        r.append(self.message.as_str());
        r
    }
}

impl Clone for Segment {
    fn clone(&self) -> (r: Segment)
        ensures
            r@ == self@,
    {
        copy_segment(self)
    }
}

impl Clone for CharClass {
    fn clone(&self) -> (r: CharClass)
        ensures
            r.negated == self.negated,
            r.items@ == self.items@,
    {
        copy_class(self)
    }
}

impl Clone for ParseError {
    fn clone(&self) -> (r: ParseError)
        ensures
            r.position == self.position,
            r.message@ == self.message@,
    {
        ParseError { position: self.position, message: self.message.clone() }
    }
}

impl Clone for Glob {
    fn clone(&self) -> (r: Glob)
        ensures
            r@ == self@,
    {
        Glob(copy_segments(&self.0))
    }
}


/// A copy of a character class.
pub fn copy_class(c: &CharClass) -> (r: CharClass)
    ensures
        r.negated == c.negated,
        r.items@ == c.items@,
{
    let mut items: Vec<ClassItem> = Vec::new();
    let mut k: usize = 0;
    while k < c.items.len()
        invariant
            k <= c.items@.len(),
            items@ == c.items@.take(k as int),
        decreases c.items@.len() - k,
    {
        items.push(c.items[k]);
        k += 1;
        assert(items@ =~= c.items@.take(k as int));
    }
    assert(c.items@.take(k as int) =~= c.items@);
    CharClass { negated: c.negated, items }
}

/// A deep copy of a segment.
pub fn copy_segment(s: &Segment) -> (r: Segment)
    ensures
        r@ == s@,
    decreases s, 0int,
{
    match s {
        Segment::Literal(l) => Segment::Literal(l.clone()),
        Segment::Star => Segment::Star,
        Segment::DoubleStar => Segment::DoubleStar,
        Segment::Question => Segment::Question,
        Segment::Slash => Segment::Slash,
        Segment::Class(c) => Segment::Class(copy_class(c)),
        Segment::Alt(bs) => Segment::Alt(copy_branches(bs)),
    }
}

/// A deep copy of the branches of an alternation.
pub fn copy_branches(bs: &Vec<Vec<Segment>>) -> (r: Vec<Vec<Segment>>)
    ensures
        branches_model(r@) == branches_model(bs@),
    decreases bs, 0int,
{
    let mut out: Vec<Vec<Segment>> = Vec::new();
    let mut k: usize = 0;
    proof {
        lemma_branches_model(bs@);
    }
    while k < bs.len()
        invariant
            k <= bs@.len(),
            branches_model(bs@).len() == bs@.len(),
            forall|j: int| 0 <= j < bs@.len() ==> #[trigger] branches_model(bs@)[j] == segs_model(bs@[j]@),
            branches_model(out@) == branches_model(bs@).take(k as int),
        decreases bs@.len() - k,
    {
        let ghost before = out@;
        proof {
            assert(decreases_to!(bs => bs@[k as int]));
        }
        let b = copy_segments(&bs[k]);
        out.push(b);
        assert(out@.drop_last() =~= before);
        assert(branches_model(bs@).take(k + 1) =~= branches_model(bs@).take(k as int).push(
            branches_model(bs@)[k as int],
        ));
        k += 1;
    }
    assert(branches_model(bs@).take(k as int) =~= branches_model(bs@));
    out
}

/// A deep copy of a sequence of segments.
pub fn copy_segments(v: &Vec<Segment>) -> (r: Vec<Segment>)
    ensures
        segs_model(r@) == segs_model(v@),
    decreases v, 0int,
{
    let mut out: Vec<Segment> = Vec::new();
    let mut k: usize = 0;
    proof {
        lemma_segs_model(v@);
    }
    while k < v.len()
        invariant
            k <= v@.len(),
            segs_model(v@).len() == v@.len(),
            forall|j: int| 0 <= j < v@.len() ==> #[trigger] segs_model(v@)[j] == v@[j]@,
            segs_model(out@) == segs_model(v@).take(k as int),
        decreases v@.len() - k,
    {
        let ghost before = out@;
        let s = copy_segment(&v[k]);
        out.push(s);
        assert(out@.drop_last() =~= before);
        assert(segs_model(v@).take(k + 1) =~= segs_model(v@).take(k as int).push(segs_model(v@)[k as int]));
        k += 1;
    }
    assert(segs_model(v@).take(k as int) =~= segs_model(v@));
    out
}

/// The models of a sequence of references to segments.
pub open spec fn refs_model(v: Seq<&Segment>) -> Seq<GlobSeg> {
    v.map_values(|s: &Segment| s@)
}

/// The model of a sequence of segments, element by element.
pub proof fn lemma_segs_model(ss: Seq<Segment>)
    ensures
        segs_model(ss).len() == ss.len(),
        forall|i: int| 0 <= i < ss.len() ==> #[trigger] segs_model(ss)[i] == ss[i]@,
    decreases ss.len(),
{
    if ss.len() > 0 {
        lemma_segs_model(ss.drop_last());
    }
}

/// The model of alternation branches, branch by branch.
pub proof fn lemma_branches_model(bs: Seq<Vec<Segment>>)
    ensures
        branches_model(bs).len() == bs.len(),
        forall|i: int| 0 <= i < bs.len() ==> #[trigger] branches_model(bs)[i] == segs_model(bs[i]@),
    decreases bs.len(),
{
    if bs.len() > 0 {
        lemma_branches_model(bs.drop_last());
    }
}


} // verus!
