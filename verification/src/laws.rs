use vstd::prelude::*;
use crate::model::{GlobSeg, ClassItem};
use crate::semantics::{
    split_on,
    is_double_star_component,
    seq_matches,
    comps_matches,
    glob_matches,
};
use crate::canonical::{same_elements, lemma_sorted_distinct_props, lemma_sorted_distinct};
use crate::render::{render_seg, render_seq, render_branches, lemma_render_branches, escape_literal, must_escape};
use crate::grammar::flush;
use crate::grammar::{parse_alt, parse_class, class_items, lemma_parse_class_bounds, lemma_parse_class_unclosed, msg_unterminated_class};
use crate::wellformed::{nseg, lemma_norm_step};
use crate::grammar::{validation, edges_ok, parse_spec, parse_seq, violation_at, normalize_from, lemma_parse_seq_bounds};
use crate::wellformed::{
    well_formed,
    chain_free,
    lemma_valid_iff_well_formed,
    lemma_norm_well_formed,
    lemma_norm_chain_free,
    lemma_norm_fixed,
    alternations_flat,
    lemma_pieces_ok,
    lemma_comps_not_stuck,
};
use crate::semantics::glob_stuck;
use crate::parsed::{lemma_parsed_prints_back, lemma_norm_edges, lemma_seq_prints};
use crate::language::{lemma_seq_concat, lemma_single_segment, lemma_comps_concat_iff, lemma_single_component};
use crate::semantics::{class_hit, item_hit};
use crate::meaning::{
    lemma_normalize_preserves_matching,
    lemma_prints_back_alts,
    lemma_canon_glob_matches,
    lemma_ds_comps_intro,
    lemma_ds_comps_elim,
};
use crate::readback::{
    lemma_escape_concat,
    lemma_parse_escaped,
    lemma_seq_read,
    lemma_canon_seq,
    reads_back,
    prints_back,
    canon_seq,
    lemma_canon_edges,
};

verus! {

/// Cutting `a + [sep] + b` at `sep` gives the pieces of `a` followed by the pieces of `b`.
pub proof fn lemma_split_on_concat<A>(a: Seq<A>, sep: A, b: Seq<A>)
    ensures
        split_on(a + seq![sep] + b, sep) == split_on(a, sep) + split_on(b, sep),
    decreases b.len(),
{
    let s = a + seq![sep] + b;
    lemma_split_on_nonempty(a, sep);
    if b.len() == 0 {
        assert(s.drop_last() =~= a);
        assert(split_on(b, sep) =~= seq![Seq::<A>::empty()]);
        assert(split_on(a, sep).push(Seq::empty()) =~= split_on(a, sep) + split_on(b, sep));
    } else {
        let b1 = b.drop_last();
        lemma_split_on_concat(a, sep, b1);
        lemma_split_on_nonempty(b1, sep);
        assert(s.drop_last() =~= a + seq![sep] + b1);
        assert(s.last() == b.last());
        let l = split_on(a, sep);
        let r1 = split_on(b1, sep);
        if b.last() == sep {
            assert((l + r1).push(Seq::empty()) =~= l + r1.push(Seq::empty()));
        } else {
            assert((l + r1).update((l + r1).len() - 1, (l + r1).last().push(b.last())) =~= l + r1.update(
                r1.len() - 1,
                r1.last().push(b.last()),
            ));
        }
    }
}

use crate::semantics::{lemma_split_on_nonempty, lemma_alt_match_intro, lemma_alt_match_elim};

/// A pattern that is a single `**` matches every path.
pub proof fn law_double_star_matches_every_path(path: Seq<char>)
    ensures
        glob_matches(seq![GlobSeg::DoubleStar], path),
{
    let pat = seq![GlobSeg::DoubleStar];
    assert(pat.drop_last() =~= Seq::<GlobSeg>::empty());
    assert(split_on(Seq::<GlobSeg>::empty(), GlobSeg::Slash) == seq![Seq::<GlobSeg>::empty()]);
    assert(split_on(pat, GlobSeg::Slash) =~= seq![seq![GlobSeg::DoubleStar]]);
    let q = split_on(path, '/');
    let comps = split_on(pat, GlobSeg::Slash);
    assert(is_double_star_component(comps[0]));
    assert(comps.drop_first() =~= Seq::<Seq<GlobSeg>>::empty());
    assert(q.skip(q.len() as int) =~= Seq::<Seq<char>>::empty());
    assert(comps_matches(comps.drop_first(), q.skip(q.len() as int)));
}

/// A leading `**/` matches zero or more leading directories: whenever `rest` matches `tail`,
/// `**/rest` matches both `tail` and `dirs/tail`, for any `dirs`.
pub proof fn law_leading_double_star(rest: Seq<GlobSeg>, dirs: Seq<char>, tail: Seq<char>)
    requires
        glob_matches(rest, tail),
    ensures
        glob_matches(seq![GlobSeg::DoubleStar, GlobSeg::Slash] + rest, tail),
        glob_matches(seq![GlobSeg::DoubleStar, GlobSeg::Slash] + rest, dirs + seq!['/'] + tail),
{
    let head = seq![GlobSeg::DoubleStar];
    assert(seq![GlobSeg::DoubleStar, GlobSeg::Slash] + rest =~= head + seq![GlobSeg::Slash] + rest);
    lemma_split_on_concat(head, GlobSeg::Slash, rest);
    assert(head.drop_last() =~= Seq::<GlobSeg>::empty());
    assert(split_on(Seq::<GlobSeg>::empty(), GlobSeg::Slash) == seq![Seq::<GlobSeg>::empty()]);
    assert(split_on(head, GlobSeg::Slash) =~= seq![seq![GlobSeg::DoubleStar]]);
    let r = split_on(rest, GlobSeg::Slash);
    let comps = seq![seq![GlobSeg::DoubleStar]] + r;
    assert(is_double_star_component(comps[0]));
    assert(comps.drop_first() =~= r);
    let t = split_on(tail, '/');
    assert(t.skip(0) =~= t);
    assert(comps_matches(comps.drop_first(), t.skip(0)));
    lemma_split_on_concat(dirs, '/', tail);
    let d = split_on(dirs, '/');
    let p = d + t;
    assert(p.skip(d.len() as int) =~= t);
    assert(comps_matches(comps.drop_first(), p.skip(d.len() as int)));
}

/// Matching proceeds one component at a time and `*`, `?`, classes and alternations never
/// match across a `/`: when no pattern component is `**`, a matched path has exactly as
/// many components as the pattern, and each pattern component matches the path component
/// in the same place.
pub proof fn law_components_align(pat: Seq<GlobSeg>, path: Seq<char>)
    requires
        glob_matches(pat, path),
        forall|i: int|
            0 <= i < split_on(pat, GlobSeg::Slash).len() ==> !is_double_star_component(
                #[trigger] split_on(pat, GlobSeg::Slash)[i],
            ),
    ensures
        split_on(path, '/').len() == split_on(pat, GlobSeg::Slash).len(),
        forall|i: int|
            0 <= i < split_on(pat, GlobSeg::Slash).len() ==> seq_matches(
                #[trigger] split_on(pat, GlobSeg::Slash)[i],
                split_on(path, '/')[i],
            ),
{
    lemma_comps_align(split_on(pat, GlobSeg::Slash), split_on(path, '/'));
}

/// Components match one for one when none of them is `**`.
proof fn lemma_comps_align(pat: Seq<Seq<GlobSeg>>, path: Seq<Seq<char>>)
    requires
        comps_matches(pat, path),
        forall|i: int| 0 <= i < pat.len() ==> !is_double_star_component(#[trigger] pat[i]),
    ensures
        path.len() == pat.len(),
        forall|i: int| 0 <= i < pat.len() ==> seq_matches(#[trigger] pat[i], path[i]),
    decreases pat.len(),
{
    if pat.len() > 0 {
        assert(!is_double_star_component(pat[0]));
        let p1 = pat.drop_first();
        assert forall|i: int| 0 <= i < p1.len() implies !is_double_star_component(#[trigger] p1[i]) by {
            assert(p1[i] == pat[i + 1]);
        }
        lemma_comps_align(p1, path.drop_first());
        assert forall|i: int| 0 <= i < pat.len() implies seq_matches(#[trigger] pat[i], path[i]) by {
            if i > 0 {
                assert(pat[i] == p1[i - 1]);
                assert(path[i] == path.drop_first()[i - 1]);
            }
        }
    }
}

/// Which branches an alternation has matters, but not their order or repetition: two
/// alternations with the same branches match the same text, whatever follows them.
pub proof fn law_alternation_match_ignores_order(
    bs1: Seq<Seq<GlobSeg>>,
    bs2: Seq<Seq<GlobSeg>>,
    rest: Seq<GlobSeg>,
    text: Seq<char>,
)
    requires
        forall|b: Seq<GlobSeg>| bs1.contains(b) <==> bs2.contains(b),
    ensures
        seq_matches(seq![GlobSeg::Alt(bs1)] + rest, text) == seq_matches(seq![GlobSeg::Alt(bs2)] + rest, text),
{
    let s1 = seq![GlobSeg::Alt(bs1)] + rest;
    let s2 = seq![GlobSeg::Alt(bs2)] + rest;
    assert(s1.drop_first() =~= rest);
    assert(s2.drop_first() =~= rest);
    assert(s1[0] == GlobSeg::Alt(bs1));
    assert(s2[0] == GlobSeg::Alt(bs2));
    if seq_matches(s1, text) {
        let i = lemma_alt_match_elim(s1, text);
        assert(bs1.contains(bs1[i]));
        let j = choose|j: int| 0 <= j < bs2.len() && bs2[j] == bs1[i];
        lemma_alt_match_intro(s2, text, j);
    }
    if seq_matches(s2, text) {
        let i = lemma_alt_match_elim(s2, text);
        assert(bs2.contains(bs2[i]));
        let j = choose|j: int| 0 <= j < bs1.len() && bs1[j] == bs2[i];
        lemma_alt_match_intro(s1, text, j);
    }
}

/// The canonical form of an alternation depends only on the texts of its branches:
/// alternations whose branches print to the same texts, in any order and with any
/// repetition, print the same.
pub proof fn law_alternation_prints_canonically(bs1: Seq<Seq<GlobSeg>>, bs2: Seq<Seq<GlobSeg>>)
    requires
        same_elements(render_branches(bs1), render_branches(bs2)),
    ensures
        render_seg(GlobSeg::Alt(bs1)) == render_seg(GlobSeg::Alt(bs2)),
{
    let r1 = render_branches(bs1);
    let r2 = render_branches(bs2);
    lemma_sorted_distinct_props(r1);
    let z = crate::canonical::sorted_distinct(r1);
    assert(same_elements(z, r2));
    lemma_sorted_distinct(r2, z);
}

/// Alternations with the same branches, in any order and with any repetition, print the
/// same: `{b,a,a}` and `{a,b}` have one canonical form.
pub proof fn law_alternation_branch_order_irrelevant(bs1: Seq<Seq<GlobSeg>>, bs2: Seq<Seq<GlobSeg>>)
    requires
        forall|b: Seq<GlobSeg>| bs1.contains(b) <==> bs2.contains(b),
    ensures
        render_seg(GlobSeg::Alt(bs1)) == render_seg(GlobSeg::Alt(bs2)),
{
    lemma_render_branches(bs1);
    lemma_render_branches(bs2);
    let r1 = render_branches(bs1);
    let r2 = render_branches(bs2);
    assert forall|x: Seq<char>| r1.contains(x) <==> r2.contains(x) by {
        if r1.contains(x) {
            let i = choose|i: int| 0 <= i < r1.len() && r1[i] == x;
            assert(bs1.contains(bs1[i]));
            let j = choose|j: int| 0 <= j < bs2.len() && bs2[j] == bs1[i];
            assert(r2[j] == x);
        }
        if r2.contains(x) {
            let i = choose|i: int| 0 <= i < r2.len() && r2[i] == x;
            assert(bs2.contains(bs2[i]));
            let j = choose|j: int| 0 <= j < bs1.len() && bs1[j] == bs2[i];
            assert(r1[j] == x);
        }
    }
    law_alternation_prints_canonically(bs1, bs2);
}


/// Every pattern that parses is valid, at every nesting level (each `**` fills a whole path
/// component, also where it fills an alternation branch, and no path component is empty),
/// and is already in normal form: it holds no `**/**` chain, and normalising it again
/// changes nothing. It also has the shape `prints_back` describes, at every nesting level:
/// no empty literal and no two literals in a row, no `*` directly before `*` or `**`,
/// classes with at least one item and only increasing ranges, and alternations with a
/// non-empty branch.
pub proof fn law_parsed_patterns_are_valid_and_normal(pattern: Seq<char>)
    requires
        parse_spec(pattern) is Ok,
    ensures
        well_formed(parse_spec(pattern)->Ok_0),
        violation_at(parse_spec(pattern)->Ok_0, 0) is None,
        edges_ok(parse_spec(pattern)->Ok_0, true, true),
        prints_back(parse_spec(pattern)->Ok_0),
        chain_free(parse_spec(pattern)->Ok_0),
        normalize_from(parse_spec(pattern)->Ok_0, 0) == parse_spec(pattern)->Ok_0,
{
    let raw = parse_seq(pattern, 0, false, Seq::empty(), Seq::empty())->Ok_0.0;
    let g = parse_spec(pattern)->Ok_0;
    assert(violation_at(raw, 0) is None);
    assert(g == normalize_from(raw, 0));
    lemma_valid_iff_well_formed(raw);
    lemma_norm_well_formed(raw, 0);
    lemma_valid_iff_well_formed(g);
    lemma_norm_chain_free(raw, 0);
    lemma_norm_fixed(g, 0);
    assert(g.skip(0) =~= g);
    lemma_parsed_prints_back(pattern);
    assert(edges_ok(raw, true, true));
    lemma_norm_edges(raw, 0, true, true);
}


/// Matching is defined for every well-formed pattern whose alternations hold no `/` and no
/// `**`: it never reaches a `/` or `**` inside a component, whatever the path, so
/// `Glob::matches` accepts every path for such a pattern.
pub proof fn law_matching_defined(pat: Seq<GlobSeg>, path: Seq<char>)
    requires
        well_formed(pat),
        alternations_flat(pat),
    ensures
        !glob_stuck(pat, path),
{
    lemma_pieces_ok(pat);
    lemma_comps_not_stuck(split_on(pat, GlobSeg::Slash), split_on(path, '/'));
}


/// A rejected pattern is rejected at a position inside it, or just past its end when it
/// stops short: the zero-based position is at most the pattern's length.
pub proof fn law_error_position_within_pattern(pattern: Seq<char>)
    requires
        parse_spec(pattern) is Err,
    ensures
        0 <= parse_spec(pattern)->Err_0.0 <= pattern.len(),
{
    lemma_parse_seq_bounds(pattern, 0, false, Seq::empty(), Seq::empty());
}


/// Literal text is escaped where needed: printing any non-empty literal and parsing the
/// result gives back that one literal.
pub proof fn law_literal_round_trip(l: Seq<char>)
    requires
        l.len() > 0,
    ensures
        render_seq(seq![GlobSeg::Literal(l)]) == escape_literal(l),
        parse_spec(escape_literal(l)) == Ok::<Seq<GlobSeg>, (int, Seq<char>)>(seq![GlobSeg::Literal(l)]),
{
    let one = seq![GlobSeg::Literal(l)];
    assert(one.drop_last() =~= Seq::<GlobSeg>::empty());
    assert(render_seq(Seq::<GlobSeg>::empty()) =~= Seq::<char>::empty());
    assert(render_seg(one.last()) == escape_literal(l));
    assert(render_seq(one) =~= escape_literal(l));
    let cs = escape_literal(l);
    assert(cs.subrange(0, cs.len() as int) =~= cs);
    lemma_parse_escaped(cs, 0, false, Seq::empty(), Seq::empty(), l);
    assert(Seq::<char>::empty() + l =~= l);
    assert(flush(Seq::empty(), l) =~= one);
    assert(violation_at(one, 1) is None);
    assert(violation_at(one, 0) is None);
    assert(normalize_from(one, 1) =~= Seq::<GlobSeg>::empty());
    assert(normalize_from(one, 0) =~= one);
}

} // verus!

verus! {

/// Normalising a well-formed pattern (collapsing each `**/**` chain to one `**`, at every
/// nesting level) leaves the set of paths it matches unchanged.
pub proof fn law_normalization_preserves_matching(pat: Seq<GlobSeg>, path: Seq<char>)
    requires
        well_formed(pat),
    ensures
        glob_matches(normalize_from(pat, 0), path) == glob_matches(pat, path),
{
    lemma_normalize_preserves_matching(pat, path);
}

/// The pattern that `parse` returns matches exactly the paths that the pattern as written
/// (its syntax tree before normalisation) matches.
pub proof fn law_parse_keeps_meaning(pattern: Seq<char>, path: Seq<char>)
    requires
        parse_spec(pattern) is Ok,
    ensures
        glob_matches(parse_spec(pattern)->Ok_0, path) == glob_matches(
            parse_seq(pattern, 0, false, Seq::empty(), Seq::empty())->Ok_0.0,
            path,
        ),
{
    let raw = parse_seq(pattern, 0, false, Seq::empty(), Seq::empty())->Ok_0.0;
    assert(violation_at(raw, 0) is None);
    lemma_valid_iff_well_formed(raw);
    lemma_normalize_preserves_matching(raw, path);
}

} // verus!

verus! {

/// The canonical text of a valid, normal pattern that `reads_back` is parsed back as that
/// same pattern.
pub proof fn law_canonical_text_reads_back(g: Seq<GlobSeg>)
    requires
        well_formed(g),
        edges_ok(g, true, true),
        chain_free(g),
        reads_back(g),
    ensures
        parse_spec(render_seq(g)) == Ok::<Seq<GlobSeg>, (int, Seq<char>)>(g),
{
    let cs = render_seq(g);
    assert(cs.subrange(0, cs.len() as int) =~= cs);
    lemma_seq_read(cs, 0, false, Seq::empty(), Seq::empty(), g);
    assert(flush(Seq::<GlobSeg>::empty(), Seq::<char>::empty()) + g =~= g);
    lemma_valid_iff_well_formed(g);
    lemma_norm_fixed(g, 0);
    assert(g.skip(0) =~= g);
}

/// Printing is idempotent: for every pattern that parses, the printed text parses again,
/// and printing that gives the same text back.
pub proof fn law_pretty_print_is_idempotent(pattern: Seq<char>)
    requires
        parse_spec(pattern) is Ok,
    ensures
        parse_spec(render_seq(parse_spec(pattern)->Ok_0)) is Ok,
        render_seq(parse_spec(render_seq(parse_spec(pattern)->Ok_0))->Ok_0) == render_seq(
            parse_spec(pattern)->Ok_0,
        ),
{
    lemma_printed_parses_to_canon(pattern);
}

/// Printing keeps the meaning: for every pattern that parses, the printed text parses to a
/// pattern that matches exactly the paths the given pattern matches.
pub proof fn law_pretty_print_keeps_meaning(pattern: Seq<char>, path: Seq<char>)
    requires
        parse_spec(pattern) is Ok,
    ensures
        parse_spec(render_seq(parse_spec(pattern)->Ok_0)) is Ok,
        glob_matches(parse_spec(render_seq(parse_spec(pattern)->Ok_0))->Ok_0, path) == glob_matches(
            parse_spec(pattern)->Ok_0,
            path,
        ),
{
    let g = parse_spec(pattern)->Ok_0;
    lemma_printed_parses_to_canon(pattern);
    lemma_parsed_prints_back(pattern);
    lemma_prints_back_alts(g);
    lemma_canon_glob_matches(g, path);
}

/// The printed text of a parsed pattern parses to its canonical form, which has the same
/// text.
proof fn lemma_printed_parses_to_canon(pattern: Seq<char>)
    requires
        parse_spec(pattern) is Ok,
    ensures
        parse_spec(render_seq(parse_spec(pattern)->Ok_0)) == Ok::<Seq<GlobSeg>, (int, Seq<char>)>(
            canon_seq(parse_spec(pattern)->Ok_0),
        ),
        render_seq(canon_seq(parse_spec(pattern)->Ok_0)) == render_seq(parse_spec(pattern)->Ok_0),
{
    let g = parse_spec(pattern)->Ok_0;
    law_parsed_patterns_are_valid_and_normal(pattern);
    lemma_parsed_prints_back(pattern);
    lemma_canon_seq(g);
    lemma_canon_edges(g, true, true);
    law_canonical_text_reads_back(canon_seq(g));
}

} // verus!

verus! {

/// Components matched one after the other: when `p1` matches `q1` and `p2` matches `q2`,
/// `p1 + p2` matches `q1 + q2`.
proof fn lemma_comps_concat(p1: Seq<Seq<GlobSeg>>, q1: Seq<Seq<char>>, p2: Seq<Seq<GlobSeg>>, q2: Seq<Seq<char>>)
    requires
        comps_matches(p1, q1),
        comps_matches(p2, q2),
    ensures
        comps_matches(p1 + p2, q1 + q2),
    decreases p1.len(),
{
    if p1.len() == 0 {
        assert(p1 + p2 =~= p2);
        assert(q1 + q2 =~= q2);
    } else {
        let p = p1 + p2;
        let q = q1 + q2;
        assert(p[0] == p1[0]);
        assert(p.drop_first() =~= p1.drop_first() + p2);
        if is_double_star_component(p1[0]) {
            let k = lemma_ds_comps_elim(p1, q1);
            lemma_comps_concat(p1.drop_first(), q1.skip(k), p2, q2);
            assert(q.skip(k) =~= q1.skip(k) + q2);
            lemma_ds_comps_intro(p, q, k);
        } else {
            lemma_comps_concat(p1.drop_first(), q1.drop_first(), p2, q2);
            assert(q[0] == q1[0]);
            assert(q.drop_first() =~= q1.drop_first() + q2);
        }
    }
}

/// A `**` component between two parts of a pattern matches zero or more whole path
/// components: whenever `pre` matches `a` and `post` matches `b`, `pre/**/post` matches both
/// `a/b` and `a/dirs/b`, for any `dirs`.
pub proof fn law_inner_double_star(pre: Seq<GlobSeg>, post: Seq<GlobSeg>, a: Seq<char>, dirs: Seq<char>, b: Seq<char>)
    requires
        glob_matches(pre, a),
        glob_matches(post, b),
    ensures
        glob_matches(pre + seq![GlobSeg::Slash, GlobSeg::DoubleStar, GlobSeg::Slash] + post, a + seq!['/'] + b),
        glob_matches(
            pre + seq![GlobSeg::Slash, GlobSeg::DoubleStar, GlobSeg::Slash] + post,
            a + seq!['/'] + dirs + seq!['/'] + b,
        ),
{
    let head = seq![GlobSeg::DoubleStar];
    let tail = head + seq![GlobSeg::Slash] + post;
    let pat = pre + seq![GlobSeg::Slash, GlobSeg::DoubleStar, GlobSeg::Slash] + post;
    assert(pat =~= pre + seq![GlobSeg::Slash] + tail);
    lemma_split_on_concat(pre, GlobSeg::Slash, tail);
    lemma_split_on_concat(head, GlobSeg::Slash, post);
    assert(head.drop_last() =~= Seq::<GlobSeg>::empty());
    assert(split_on(Seq::<GlobSeg>::empty(), GlobSeg::Slash) == seq![Seq::<GlobSeg>::empty()]);
    assert(split_on(head, GlobSeg::Slash) =~= seq![seq![GlobSeg::DoubleStar]]);
    let sp = split_on(pre, GlobSeg::Slash);
    let so = split_on(post, GlobSeg::Slash);
    let ds = seq![seq![GlobSeg::DoubleStar]];
    let sa = split_on(a, '/');
    let sb = split_on(b, '/');
    let sd = split_on(dirs, '/');
    assert(is_double_star_component((ds + so)[0]));
    assert((ds + so).drop_first() =~= so);
    // a/b
    lemma_split_on_concat(a, '/', b);
    assert(sb.skip(0) =~= sb);
    lemma_ds_comps_intro(ds + so, sb, 0);
    lemma_comps_concat(sp, sa, ds + so, sb);
    // a/dirs/b
    let path = a + seq!['/'] + dirs + seq!['/'] + b;
    assert(path =~= a + seq!['/'] + (dirs + seq!['/'] + b));
    lemma_split_on_concat(a, '/', dirs + seq!['/'] + b);
    lemma_split_on_concat(dirs, '/', b);
    assert((sd + sb).skip(sd.len() as int) =~= sb);
    lemma_ds_comps_intro(ds + so, sd + sb, sd.len() as int);
    lemma_comps_concat(sp, sa, ds + so, sd + sb);
}

} // verus!

verus! {

/// Where the parser stops reading a sequence, and its shape: it stops at the end of the
/// input or, inside an alternation, before a `,` or `}`; no literal it gives is empty, and no
/// two of its literals stand next to each other.
pub proof fn law_sequence_shape(cs: Seq<char>, pos: int, in_alt: bool)
    requires
        0 <= pos <= cs.len(),
        parse_seq(cs, pos, in_alt, Seq::empty(), Seq::empty()) is Ok,
    ensures
        ({
            let (segs, end) = parse_seq(cs, pos, in_alt, Seq::empty(), Seq::empty())->Ok_0;
            &&& pos <= end <= cs.len()
            &&& end == cs.len() || (in_alt && (cs[end] == ',' || cs[end] == '}'))
            &&& forall|i: int| 0 <= i < segs.len() && #[trigger] segs[i] is Literal ==> segs[i]->Literal_0.len() > 0
            &&& forall|i: int|
                0 <= i < segs.len() - 1 && #[trigger] segs[i] is Literal ==> !(segs[i + 1] is Literal)
        }),
{
    lemma_parse_seq_bounds(cs, pos, in_alt, Seq::empty(), Seq::empty());
    assert(prints_back(Seq::<GlobSeg>::empty()));
    lemma_seq_prints(cs, pos, in_alt, Seq::empty(), Seq::empty());
    let segs = parse_seq(cs, pos, in_alt, Seq::empty(), Seq::empty())->Ok_0.0;
    assert forall|i: int| 0 <= i < segs.len() && #[trigger] segs[i] is Literal implies segs[i]->Literal_0.len() > 0 by {
        assert(segs[i] == segs[i]);
    }
    assert forall|i: int| 0 <= i < segs.len() - 1 && #[trigger] segs[i] is Literal implies !(segs[i + 1] is Literal) by {
        assert(segs[i] == segs[i]);
    }
}

} // verus!

verus! {

/// Matching within a path component reads a pattern as the concatenation of its segments'
/// languages: `a + b` matches a text exactly when the text splits into a part `a` matches
/// followed by a part `b` matches.
pub proof fn law_matching_is_concatenation(a: Seq<GlobSeg>, b: Seq<GlobSeg>, text: Seq<char>)
    ensures
        seq_matches(a + b, text) == exists|k: int|
            #![trigger text.take(k)]
            0 <= k <= text.len() && seq_matches(a, text.take(k)) && seq_matches(b, text.skip(k)),
{
    lemma_seq_concat(a, b, text);
}

/// The language of each segment: a literal matches exactly its text, `*` any text, `?`
/// exactly one character, a class one character it admits, an alternation what one of its
/// branches matches, and a `/` or `**` inside a component nothing.
pub proof fn law_segment_languages(x: GlobSeg, text: Seq<char>)
    ensures
        seq_matches(seq![x], text) == match x {
            GlobSeg::Literal(l) => text == l,
            GlobSeg::Star => true,
            GlobSeg::Question => text.len() == 1,
            GlobSeg::Class(negated, items) => text.len() == 1 && class_hit(negated, items, text[0]),
            GlobSeg::Alt(bs) => exists|i: int| 0 <= i < bs.len() && seq_matches(#[trigger] bs[i], text),
            GlobSeg::Slash => false,
            GlobSeg::DoubleStar => false,
        },
{
    lemma_single_segment(x, text);
}

/// Components match a path by cutting it into blocks: `p1 + p2` matches the path's
/// components exactly when they cut into a first block that `p1` matches and a rest that
/// `p2` matches; a `**` component matches any block, and any other component a block of
/// exactly one path component that it matches.
pub proof fn law_components_cut(p1: Seq<Seq<GlobSeg>>, p2: Seq<Seq<GlobSeg>>, path: Seq<Seq<char>>, comp: Seq<GlobSeg>)
    ensures
        comps_matches(p1 + p2, path) == exists|k: int|
            #![trigger path.take(k)]
            0 <= k <= path.len() && comps_matches(p1, path.take(k)) && comps_matches(p2, path.skip(k)),
        comps_matches(seq![comp], path) == if is_double_star_component(comp) {
            true
        } else {
            path.len() == 1 && seq_matches(comp, path[0])
        },
{
    lemma_comps_concat_iff(p1, p2, path);
    lemma_single_component(comp, path);
}

} // verus!

verus! {

/// A class admits a character exactly when one of its items does (a single character by
/// being that character, a range `a-b` by lying between `a` and `b`, both ends included),
/// the other way round when the class is negated; so a one-character text matches a class
/// segment exactly then.
pub proof fn law_class_admits(negated: bool, items: Seq<ClassItem>, c: char)
    ensures
        class_hit(negated, items, c) == ((exists|i: int|
            0 <= i < items.len() && match #[trigger] items[i] {
                ClassItem::Char(x) => x == c,
                ClassItem::Range(a, b) => a <= c && c <= b,
            }) != negated),
        seq_matches(seq![GlobSeg::Class(negated, items)], seq![c]) == class_hit(negated, items, c),
{
    lemma_single_segment(GlobSeg::Class(negated, items), seq![c]);
    if exists|i: int| 0 <= i < items.len() && match #[trigger] items[i] {
        ClassItem::Char(x) => x == c,
        ClassItem::Range(a, b) => a <= c && c <= b,
    } {
        let i = choose|i: int| 0 <= i < items.len() && match #[trigger] items[i] {
            ClassItem::Char(x) => x == c,
            ClassItem::Range(a, b) => a <= c && c <= b,
        };
        assert(item_hit(items[i], c));
    }
    if exists|i: int| 0 <= i < items.len() && #[trigger] item_hit(items[i], c) {
        let i = choose|i: int| 0 <= i < items.len() && #[trigger] item_hit(items[i], c);
        assert(match items[i] {
            ClassItem::Char(x) => x == c,
            ClassItem::Range(a, b) => a <= c && c <= b,
        });
    }
}

/// A range class admits both of its ends and everything between them, and nothing else:
/// `[a-b]` matches the one-character text `c` exactly when `a <= c <= b`.
pub proof fn law_range_inclusive(a: char, b: char, c: char)
    ensures
        seq_matches(seq![GlobSeg::Class(false, seq![ClassItem::Range(a, b)])], seq![c]) == (a <= c && c <= b),
{
    let items = seq![ClassItem::Range(a, b)];
    law_class_admits(false, items, c);
    if a <= c && c <= b {
        assert(match items[0] {
            ClassItem::Char(x) => x == c,
            ClassItem::Range(a, b) => a <= c && c <= b,
        });
    }
}

/// `validate` accepts exactly the well-formed sequences (every `**` bounded by `/` or an
/// end, no `//`, at every nesting level) whose `**` branches fill whole path components
/// (`edges_ok`), and nothing else.
pub proof fn law_validation_is_well_formedness(s: Seq<GlobSeg>)
    ensures
        (validation(s) is None) == (well_formed(s) && edges_ok(s, true, true)),
{
    lemma_valid_iff_well_formed(s);
}

} // verus!

verus! {

/// Printing escapes a literal character exactly where it must: the canonical text of the
/// one-character literal `c` is `c` itself when the text `c` alone reads back as that
/// literal, and `\c` otherwise. Longer literals are printed character by character.
pub proof fn law_escape_exactly_where_needed(c: char, l1: Seq<char>, l2: Seq<char>)
    ensures
        render_seq(seq![GlobSeg::Literal(seq![c])]) == if parse_spec(seq![c]) == Ok::<Seq<GlobSeg>, (int, Seq<char>)>(
            seq![GlobSeg::Literal(seq![c])],
        ) {
            seq![c]
        } else {
            seq!['\\', c]
        },
        escape_literal(l1 + l2) == escape_literal(l1) + escape_literal(l2),
{
    lemma_escape_concat(l1, l2);
    let l = seq![c];
    let one = seq![GlobSeg::Literal(l)];
    let e = Seq::<GlobSeg>::empty();
    assert(one.drop_last() =~= e);
    assert(render_seq(e) =~= Seq::<char>::empty());
    assert(l.drop_last() =~= Seq::<char>::empty());
    assert(escape_literal(Seq::<char>::empty()) =~= Seq::<char>::empty());
    assert(render_seq(one) == render_seg(GlobSeg::Literal(l)));
    assert(render_seq(one) =~= if must_escape(c) { seq!['\\', c] } else { seq![c] });
    let cs = seq![c];
    assert(cs[0] == c);
    if must_escape(c) {
        if c == '/' || c == '*' || c == '?' {
            let x = if c == '/' { GlobSeg::Slash } else if c == '*' { GlobSeg::Star } else { GlobSeg::Question };
            assert(parse_seq(cs, 1, false, Seq::empty(), e.push(x)) == Ok::<(Seq<GlobSeg>, int), (int, Seq<char>)>(
                (e.push(x), 1),
            ));
            assert(parse_seq(cs, 0, false, Seq::empty(), e) == parse_seq(cs, 1, false, Seq::empty(), e.push(x)));
            if parse_spec(cs) is Ok {
                let g = parse_spec(cs)->Ok_0;
                assert(g == normalize_from(e.push(x), 0));
                lemma_norm_step(e.push(x), 0);
                assert(g[0] == nseg(x));
                assert(!(g[0] is Literal));
            }
        } else if c == '{' {
            assert(parse_seq(cs, 1, true, Seq::empty(), e) == Ok::<(Seq<GlobSeg>, int), (int, Seq<char>)>((e, 1)));
            assert(parse_alt(cs, 1, Seq::empty()) is Err);
        } else if c == '[' {
            lemma_parse_class_bounds(cs, 0);
            assert(class_items(cs, 0, 1, true, Seq::empty()) is Err);
            assert(parse_class(cs, 0) is Err);
        }
        assert(parse_spec(cs) != Ok::<Seq<GlobSeg>, (int, Seq<char>)>(one));
    } else {
        assert(parse_seq(cs, 1, false, l, e) == Ok::<(Seq<GlobSeg>, int), (int, Seq<char>)>((one, 1)));
        assert(parse_seq(cs, 0, false, Seq::empty(), e) == parse_seq(cs, 1, false, Seq::<char>::empty().push(c), e));
        assert(Seq::<char>::empty().push(c) == l);
        lemma_valid_iff_well_formed(one);
        assert(well_formed(one));
        assert(edges_ok(one, true, true));
        lemma_norm_step(one, 0);
        assert(normalize_from(one, 1) =~= e);
        assert(normalize_from(one, 0) =~= one);
        assert(parse_spec(cs) == Ok::<Seq<GlobSeg>, (int, Seq<char>)>(one));
    }
}

} // verus!

verus! {

/// Every `[` the parser reads must be closed: wherever reading a sequence meets an
/// unescaped `[` with no `]` anywhere after it, parsing fails, with the unterminated-class
/// error at that `[` when no `\` or `-` follows it either. In particular a whole pattern
/// made of `[` and text without `]` is rejected.
pub proof fn law_unclosed_bracket_rejected(
    cs: Seq<char>,
    pos: int,
    in_alt: bool,
    lit: Seq<char>,
    acc: Seq<GlobSeg>,
    text: Seq<char>,
)
    requires
        0 <= pos < cs.len(),
        cs[pos] == '[',
        forall|j: int| pos < j < cs.len() ==> cs[j] != ']',
    ensures
        parse_seq(cs, pos, in_alt, lit, acc) is Err,
        (forall|j: int| pos < j < cs.len() ==> cs[j] != '\\' && cs[j] != '-') ==> parse_seq(cs, pos, in_alt, lit, acc)
            == Err::<(Seq<GlobSeg>, int), (int, Seq<char>)>((pos, msg_unterminated_class())),
        (forall|j: int| 0 <= j < text.len() ==> text[j] != ']') ==> parse_spec(seq!['['] + text) is Err,
{
    lemma_parse_class_unclosed(cs, pos);
    let t = seq!['['] + text;
    if forall|j: int| 0 <= j < text.len() ==> text[j] != ']' {
        assert(t[0] == '[');
        assert forall|j: int| 0 < j < t.len() implies t[j] != ']' by {
            assert(t[j] == text[j - 1]);
        }
        lemma_parse_class_unclosed(t, 0);
    }
}

} // verus!

verus! {

/// Reading alternation branches where no `}` follows never ends well.
proof fn lemma_alt_unclosed(cs: Seq<char>, pos: int, branches: Seq<Seq<GlobSeg>>)
    requires
        0 <= pos,
        forall|j: int| pos <= j < cs.len() ==> cs[j] != '}',
    ensures
        parse_alt(cs, pos, branches) is Err,
    decreases cs.len() - pos,
{
    if pos <= cs.len() {
        lemma_parse_seq_bounds(cs, pos, true, Seq::empty(), Seq::empty());
        match parse_seq(cs, pos, true, Seq::empty(), Seq::empty()) {
            Err(_) => {},
            Ok((b, end)) => {
                if end < cs.len() && cs[end] == ',' {
                    lemma_alt_unclosed(cs, end + 1, branches.push(b));
                }
            },
        }
    }
}

/// Every `{` the parser reads must be closed: wherever reading a sequence meets an
/// unescaped `{` with no `}` anywhere after it, parsing fails; in particular a whole
/// pattern made of `{` and text without `}` is rejected.
pub proof fn law_unclosed_brace_rejected(cs: Seq<char>, pos: int, in_alt: bool, lit: Seq<char>, acc: Seq<GlobSeg>, text: Seq<char>)
    requires
        0 <= pos < cs.len(),
        cs[pos] == '{',
        forall|j: int| pos < j < cs.len() ==> cs[j] != '}',
    ensures
        parse_seq(cs, pos, in_alt, lit, acc) is Err,
        (forall|j: int| 0 <= j < text.len() ==> text[j] != '}') ==> parse_spec(seq!['{'] + text) is Err,
{
    lemma_alt_unclosed(cs, pos + 1, Seq::empty());
    let t = seq!['{'] + text;
    if forall|j: int| 0 <= j < text.len() ==> text[j] != '}' {
        assert(t[0] == '{');
        assert forall|j: int| 1 <= j < t.len() implies t[j] != '}' by {
            assert(t[j] == text[j - 1]);
        }
        lemma_alt_unclosed(t, 1, Seq::empty());
    }
}

} // verus!
