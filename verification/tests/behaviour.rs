use globlint::{parse, pretty_print, CharClass, ClassItem, ParseError, Segment};
use globlint::parser::validate;

fn glob_matches(pattern: &str, path: &str) -> bool {
    parse(pattern).unwrap().matches(path)
}

fn error_of(pattern: &str) -> ParseError {
    parse(pattern).unwrap_err()
}

fn lit(s: &str) -> Segment {
    Segment::Literal(s.to_string())
}

// ---- errors: each message, with its position ----

#[test]
fn backwards_range_is_reported_at_its_bracket() {
    let e = error_of("[z-a]");
    assert_eq!(e.position, 0);
    assert_eq!(e.message, "invalid range 'z-a': start is greater than end");
    assert_eq!(e.to_string(), "column 1: invalid range 'z-a': start is greater than end");
    let later = error_of("ab[c-b]");
    assert_eq!(later.position, 2);
    assert_eq!(later.message, "invalid range 'c-b': start is greater than end");
}

#[test]
fn mixed_double_star_message() {
    let e = error_of("a**b");
    assert_eq!(e.position, 0);
    assert_eq!(e.to_string(), "column 1: '**' must occupy a whole path component");
    assert_eq!(error_of("x/**y").message, "'**' must occupy a whole path component");
    assert_eq!(error_of("{a,**b}").message, "'**' must occupy a whole path component");
}

#[test]
fn empty_component_message() {
    let e = error_of("a//b");
    assert_eq!(e.position, 0);
    assert_eq!(e.message, "empty path component ('//')");
    assert_eq!(error_of("{x,a//b}").message, "empty path component ('//')");
}

#[test]
fn dangling_escape_is_reported_past_the_end() {
    let e = error_of("ab\\");
    assert_eq!(e.position, 3);
    assert_eq!(e.message, "dangling escape at end of pattern");
    assert_eq!(e.to_string(), "column 4: dangling escape at end of pattern");
}

#[test]
fn unterminated_alternation_message() {
    let e = error_of("{a,b");
    assert_eq!(e.position, 4);
    assert_eq!(e.message, "unterminated '{' - missing closing '}'");
    assert_eq!(error_of("x{").position, 2);
}

#[test]
fn empty_alternation_message() {
    let e = error_of("{}");
    assert_eq!(e.position, 2);
    assert_eq!(e.message, "empty alternation '{}'");
    let e2 = error_of("a{,}");
    assert_eq!(e2.position, 4);
    assert_eq!(e2.message, "empty alternation '{}'");
}

#[test]
fn unterminated_class_is_reported_at_its_bracket() {
    let e = error_of("x[abc");
    assert_eq!(e.position, 1);
    assert_eq!(e.message, "unterminated '[' - missing closing ']'");
    assert_eq!(e.to_string(), "column 2: unterminated '[' - missing closing ']'");
    assert_eq!(error_of("[]").message, "unterminated '[' - missing closing ']'");
}

#[test]
fn dangling_escape_in_class_message() {
    let e = error_of("[\\");
    assert_eq!(e.position, 2);
    assert_eq!(e.message, "dangling escape in character class");
}

#[test]
fn error_positions_stay_within_the_pattern() {
    for p in ["[z-a]", "a**b", "a//b", "ab\\", "{a,b", "{}", "x[abc", "[\\", "{a,{b"] {
        let e = error_of(p);
        assert!(e.position <= p.chars().count(), "{}", p);
    }
}

#[test]
fn pretty_print_reports_the_parse_error() {
    assert_eq!(pretty_print("[z-a]").unwrap_err(), error_of("[z-a]"));
    assert_eq!(pretty_print("{a,b").unwrap_err(), error_of("{a,b"));
}

// ---- the parsed tree ----

#[test]
fn segments_of_a_simple_pattern() {
    let g = parse("src/*.rs").unwrap();
    assert_eq!(
        g.segments(),
        &[lit("src"), Segment::Slash, Segment::Star, lit(".rs")][..]
    );
}

#[test]
fn segments_of_classes_and_alternations() {
    let g = parse("[!a-cx]?{b,a}").unwrap();
    assert_eq!(
        g.segments(),
        &[
            Segment::Class(CharClass {
                negated: true,
                items: vec![ClassItem::Range('a', 'c'), ClassItem::Char('x')],
            }),
            Segment::Question,
            Segment::Alt(vec![vec![lit("b")], vec![lit("a")]]),
        ][..]
    );
}

#[test]
fn one_char_range_becomes_a_char() {
    let g = parse("[a-a]").unwrap();
    assert_eq!(
        g.segments(),
        &[Segment::Class(CharClass { negated: false, items: vec![ClassItem::Char('a')] })][..]
    );
}

#[test]
fn dash_before_closing_bracket_is_literal() {
    let g = parse("[a-]").unwrap();
    assert_eq!(
        g.segments(),
        &[Segment::Class(CharClass {
            negated: false,
            items: vec![ClassItem::Char('a'), ClassItem::Char('-')],
        })][..]
    );
}

#[test]
fn escapes_join_the_literal() {
    let g = parse("a\\*b").unwrap();
    assert_eq!(g.segments(), &[lit("a*b")][..]);
}

#[test]
fn stray_closers_are_unexpected() {
    assert_eq!(error_of("a}b"), ParseError { position: 1, message: "unexpected '}'".to_string() });
    assert_eq!(error_of("a,b"), ParseError { position: 1, message: "unexpected ','".to_string() });
    assert_eq!(error_of("ab]"), ParseError { position: 2, message: "unexpected ']'".to_string() });
    assert_eq!(error_of("{a]b}"), ParseError { position: 2, message: "unexpected ']'".to_string() });
    assert_eq!(error_of("a}").to_string(), "column 2: unexpected '}'");
    let g = parse("a\\}\\,b\\]").unwrap();
    assert_eq!(g.segments(), &[lit("a},b]")][..]);
    assert_eq!(pretty_print("a\\}\\,b\\]").unwrap(), "a\\}\\,b\\]");
}

#[test]
fn double_star_branch_must_fill_a_component() {
    assert_eq!(error_of("x{**,y}").message, "'**' must occupy a whole path component");
    assert_eq!(error_of("{y,**}x").message, "'**' must occupy a whole path component");
    assert_eq!(error_of("a/{b,{**,c}}d").message, "'**' must occupy a whole path component");
    assert!(parse("{**,y}").is_ok());
    assert!(parse("a/{**,y}/b").is_ok());
    assert!(parse("a/{x,{**,c}}").is_ok());
}

#[test]
fn matching_defined_tells_when_matches_has_an_answer() {
    assert!(parse("src/**/*.{rs,toml}").unwrap().matching_defined());
    assert!(parse("[a-c]?{x,y*}").unwrap().matching_defined());
    assert!(!parse("{a/b,c}").unwrap().matching_defined());
    assert!(!parse("{**,y}").unwrap().matching_defined());
}

#[test]
fn double_star_chain_is_collapsed_in_the_tree() {
    let g = parse("**/**/**").unwrap();
    assert_eq!(g.segments(), &[Segment::DoubleStar][..]);
    let nested = parse("{x/**/**,y}").unwrap();
    assert_eq!(
        nested.segments(),
        &[Segment::Alt(vec![vec![lit("x"), Segment::Slash, Segment::DoubleStar], vec![lit("y")]])][..]
    );
}

#[test]
fn empty_pattern() {
    let g = parse("").unwrap();
    assert!(g.segments().is_empty());
    assert_eq!(pretty_print("").unwrap(), "");
    assert!(g.matches(""));
    assert!(!g.matches("a"));
}

#[test]
fn parsed_patterns_are_normal() {
    for p in ["a/**/**/b", "**/**", "{**/**/c,d}/e", "src/**/*.rs"] {
        let g = parse(p).unwrap();
        let again = parse(&g.to_string()).unwrap();
        assert_eq!(g.to_string(), again.to_string(), "{}", p);
        assert!(!g.to_string().contains("**/**"), "{}", p);
    }
}

// ---- printing ----

#[test]
fn escapes_only_where_needed() {
    assert_eq!(pretty_print("\\a\\.b").unwrap(), "a.b");
    assert_eq!(pretty_print("a\\*b").unwrap(), "a\\*b");
    assert_eq!(pretty_print("\\?\\[\\{\\,\\\\").unwrap(), "\\?\\[\\{\\,\\\\");
}

#[test]
fn classes_print_canonically() {
    assert_eq!(pretty_print("[^a]").unwrap(), "[!a]");
    assert_eq!(pretty_print("[a-a]").unwrap(), "[a]");
    assert_eq!(pretty_print("[]]").unwrap(), "[\\]]");
    assert_eq!(pretty_print("[\\\\]").unwrap(), "[\\\\]");
    assert_eq!(pretty_print("[a-z0-9]").unwrap(), "[a-z0-9]");
}

#[test]
fn alternations_sort_at_every_level() {
    assert_eq!(pretty_print("{b,{d,c}}").unwrap(), "{b,{c,d}}");
    assert_eq!(pretty_print("{c,a,b,a,c}").unwrap(), "{a,b,c}");
    assert_eq!(pretty_print("{,a}").unwrap(), "{,a}");
}

#[test]
fn branches_with_the_same_text_are_merged() {
    assert_eq!(pretty_print("{a\\b,ab}").unwrap(), "{ab}");
    assert_eq!(pretty_print("{b,a}").unwrap(), pretty_print("{a,b,a}").unwrap());
}

#[test]
fn sort_is_by_character() {
    assert_eq!(pretty_print("{B,a,Z}").unwrap(), "{B,Z,a}");
    assert_eq!(pretty_print("{ab,a}").unwrap(), "{a,ab}");
    assert_eq!(pretty_print("{é,z}").unwrap(), "{z,é}");
}

#[test]
fn glob_to_string_is_the_canonical_form() {
    let g = parse("{b,a}/**/**/x").unwrap();
    assert_eq!(g.to_string(), "{a,b}/**/x");
    assert_eq!(g.to_string(), pretty_print("{b,a}/**/**/x").unwrap());
}

#[test]
fn clone_keeps_the_pattern() {
    let g = parse("{a,b}/[!x]*").unwrap();
    let c = g.clone();
    assert_eq!(c, g);
    assert_eq!(c.to_string(), g.to_string());
    let s = g.segments()[0].clone();
    assert_eq!(s, g.segments()[0]);
}

#[test]
fn error_to_string_counts_columns_from_one() {
    let e = ParseError { position: 41, message: "x".to_string() };
    assert_eq!(e.to_string(), "column 42: x");
    let e = ParseError { position: 9, message: String::new() };
    assert_eq!(e.to_string(), "column 10: ");
}

#[test]
fn literal_round_trip() {
    for l in ["abc", "a*b", "{x}", "a,b", "\\", "]", "a/b", "/"] {
        let printed = pretty_print(&escape_all(l)).unwrap();
        assert_eq!(parse(&printed).unwrap().segments(), &[lit(l)][..], "{}", l);
    }
}

fn escape_all(s: &str) -> String {
    let mut out = String::new();
    for c in s.chars() {
        out.push('\\');
        out.push(c);
    }
    out
}

// ---- matching ----

#[test]
fn lone_double_star_matches_every_path() {
    for path in ["", "a", "a/b/c", "/", ".hidden/x"] {
        assert!(glob_matches("**", path), "{}", path);
    }
}

#[test]
fn leading_double_star_matches_any_prefix() {
    assert!(glob_matches("**/x.rs", "x.rs"));
    assert!(glob_matches("**/x.rs", "a/x.rs"));
    assert!(glob_matches("**/x.rs", "a/b/c/x.rs"));
    assert!(!glob_matches("**/x.rs", "a/y.rs"));
}

#[test]
fn components_align_without_double_star() {
    assert!(glob_matches("a/*", "a/b"));
    assert!(!glob_matches("a/*", "a/b/c"));
    assert!(!glob_matches("a/*", "a"));
    assert!(!glob_matches("*", "a/b"));
    assert!(glob_matches("*/*", "a/b"));
}

#[test]
fn alternation_order_does_not_change_matching() {
    for path in ["a.x", "b.x", "c.x", "ab.x"] {
        assert_eq!(glob_matches("{a,b}.x", path), glob_matches("{b,a,a}.x", path), "{}", path);
    }
    assert!(glob_matches("{a,b}.x", "b.x"));
    assert!(!glob_matches("{a,b}.x", "c.x"));
}

#[test]
fn collapsing_double_star_keeps_matching() {
    for path in ["a/b", "a/x/b", "a/x/y/b", "a/b/c", "b"] {
        let long = glob_matches("a/**/**/b", path);
        let short = glob_matches("a/**/b", path);
        assert_eq!(long, short, "{}", path);
    }
    assert!(glob_matches("a/**/**/b", "a/b"));
    assert!(!glob_matches("a/**/**/b", "b"));
}

#[test]
fn class_ranges_and_negation() {
    assert!(glob_matches("[a-c]x", "bx"));
    assert!(!glob_matches("[a-c]x", "dx"));
    assert!(glob_matches("[!a-c]x", "dx"));
    assert!(!glob_matches("[!a-c]x", "ax"));
    assert!(!glob_matches("[a-c]", "/"));
}

#[test]
fn star_and_question_stay_in_one_component() {
    assert!(glob_matches("a*", "a"));
    assert!(glob_matches("a*", "abc"));
    assert!(!glob_matches("a*", "ab/c"));
    assert!(!glob_matches("a?c", "a/c"));
}

#[test]
fn alternation_with_wildcards() {
    assert!(glob_matches("{*.rs,lib*}", "lib.txt"));
    assert!(glob_matches("{*.rs,lib*}", "main.rs"));
    assert!(!glob_matches("{*.rs,lib*}", "main.txt"));
    assert!(glob_matches("x{,y}z", "xz"));
    assert!(glob_matches("x{,y}z", "xyz"));
}

#[test]
fn slash_pattern_matches_slash_path() {
    assert!(glob_matches("/", "/"));
    assert!(!glob_matches("/", ""));
    assert!(glob_matches("/a", "/a"));
    assert!(glob_matches("a/", "a/"));
}

#[test]
fn matching_is_by_character_not_byte() {
    assert!(glob_matches("?", "é"));
    assert!(glob_matches("[à-ü]", "é"));
}

// ---- printing and reading back ----

#[test]
fn canonical_text_reads_back_as_the_same_pattern() {
    for p in ["src/**/*.rs", "{a,b}.txt", "[!a-cx]?", "a\\*b/{c,d/e}", "[-a]", "[a-]", "x{,y}"] {
        let g = parse(p).unwrap();
        let again = parse(&g.to_string()).unwrap();
        assert_eq!(again, g, "{}", p);
    }
}

#[test]
fn pretty_print_is_idempotent() {
    for p in [
        "{b,a,a}.txt",
        "a/**/**/b",
        "{c,{b,a}}/*.{rs,toml}",
        "[^a-c]x",
        "\\a\\.b",
        "a\\}\\,b",
        "[]a]",
        "{z,é,ab,a}",
        "[\\\\-a]",
        "\\/\\/",
        "[\\!a]",
        "[a\\-z]",
    ] {
        let once = pretty_print(p).unwrap();
        let twice = pretty_print(&once).unwrap();
        assert_eq!(twice, once, "{}", p);
    }
}

#[test]
fn pretty_print_keeps_meaning() {
    let paths = ["!.txt", "-.txt", "a.txt", "b.txt", "c.txt", "x/a.txt", "a/b", "a/x/b", "lib.rs", "Cargo.toml", "", "d.txt"];
    for p in ["{b,a,a}.txt", "a/**/**/b", "*.{toml,rs}", "[!a-c].txt", "{b,{a,c}}.txt", "[\\!a].txt", "[a\\-c].txt"] {
        let parsed = parse(p).unwrap();
        let printed = parse(&pretty_print(p).unwrap()).unwrap();
        for path in paths {
            assert_eq!(printed.matches(path), parsed.matches(path), "{} on {}", p, path);
        }
    }
}

#[test]
fn escaped_slash_stays_escaped() {
    assert_eq!(pretty_print("a\\/b").unwrap(), "a\\/b");
    assert_eq!(parse("a\\/b").unwrap().segments(), &[lit("a/b")][..]);
    assert_eq!(pretty_print("\\/\\/").unwrap(), "\\/\\/");
    assert!(!glob_matches("a\\/b", "a/b"));
}

#[test]
fn class_items_are_escaped_where_needed() {
    assert_eq!(pretty_print("[\\!a]").unwrap(), "[\\!a]");
    assert_eq!(pretty_print("[\\^a]").unwrap(), "[\\^a]");
    assert_eq!(pretty_print("[!!a]").unwrap(), "[!!a]");
    assert_eq!(pretty_print("[a\\-z]").unwrap(), "[a\\-z]");
    assert_eq!(pretty_print("[a\\--z]").unwrap(), "[a\\--z]");
    assert_eq!(pretty_print("[a-c-x]").unwrap(), "[a-c-x]");
    assert_eq!(pretty_print("[\\\\-a]").unwrap(), "[\\\\-a]");
    assert_eq!(pretty_print("[\\]-a]").unwrap(), "[]-a]");
    assert_eq!(pretty_print("[x\\]-a]").unwrap(), "[x\\]-a]");
    assert_eq!(pretty_print("[a-]").unwrap(), "[a-]");
    assert_eq!(pretty_print("[-a]").unwrap(), "[-a]");
    assert!(glob_matches("[\\!a]", "!"));
    assert!(!glob_matches(&pretty_print("[\\!a]").unwrap(), "b"));
}

#[test]
fn class_and_error_clone_keep_their_fields() {
    let class = CharClass { negated: true, items: vec![ClassItem::Range('a', 'f'), ClassItem::Char('x')] };
    let copy = class.clone();
    assert_eq!(copy, class);
    let e = error_of("[z-a]");
    let e2 = e.clone();
    assert_eq!(e2.position, e.position);
    assert_eq!(e2.message, e.message);
}

#[test]
fn inner_double_star_spans_directories() {
    assert!(glob_matches("src/**/*.rs", "src/lib.rs"));
    assert!(glob_matches("src/**/*.rs", "src/a/lib.rs"));
    assert!(glob_matches("src/**/*.rs", "src/a/b/lib.rs"));
    assert!(glob_matches("{a,b}/**/[xy]", "b/k/l/y"));
    assert!(!glob_matches("{a,b}/**/[xy]", "c/k/y"));
}

#[test]
fn render_escapes_what_would_read_differently() {
    // a literal `/`, `*` and class items that would read as negation or a range
    assert_eq!(pretty_print("a\\/b.c\\*").unwrap(), "a\\/b.c\\*");
    let g = parse("[\\!a][a\\-z]").unwrap();
    assert_eq!(
        g.segments(),
        &[
            Segment::Class(CharClass { negated: false, items: vec![ClassItem::Char('!'), ClassItem::Char('a')] }),
            Segment::Class(CharClass {
                negated: false,
                items: vec![ClassItem::Char('a'), ClassItem::Char('-'), ClassItem::Char('z')],
            }),
        ][..]
    );
    assert_eq!(g.to_string(), "[\\!a][a\\-z]");
}

#[test]
fn validate_checks_double_star_in_branches() {
    let bad = vec![lit("x"), Segment::Alt(vec![vec![Segment::DoubleStar], vec![lit("y")]])];
    let e = validate(&bad).unwrap_err();
    assert_eq!(e.position, 0);
    assert_eq!(e.message, "'**' must occupy a whole path component");
    let good = vec![lit("x"), Segment::Slash, Segment::Alt(vec![vec![Segment::DoubleStar], vec![lit("y")]])];
    assert!(validate(&good).is_ok());
    let empty_component = vec![lit("a"), Segment::Slash, Segment::Slash, lit("b")];
    assert_eq!(validate(&empty_component).unwrap_err().message, "empty path component ('//')");
}

#[test]
fn matching_reads_patterns_as_languages() {
    // concatenation: `a*` then `b?` split the text between them
    assert!(glob_matches("a*b?", "axyzbq"));
    assert!(!glob_matches("a*b?", "axyzb"));
    // an alternation matches what one of its branches matches, followed by the rest
    assert!(glob_matches("{x,yy}*z", "yyqz"));
    assert!(!glob_matches("{x,yy}z", "yz"));
    // components: `**` takes any block, other components exactly one path component
    assert!(glob_matches("a/**/b/**", "a/b"));
    assert!(glob_matches("a/**/b/**", "a/x/b/y/z"));
    assert!(!glob_matches("a/*/b", "a/b"));
}

#[test]
fn class_shape_after_parse() {
    let g = parse("[]-a]x").unwrap();
    assert_eq!(
        g.segments(),
        &[Segment::Class(CharClass { negated: false, items: vec![ClassItem::Range(']', 'a')] }), lit("x")][..]
    );
    assert_eq!(g.to_string(), "[]-a]x");
    assert_eq!(error_of("ab[").position, 2);
}
