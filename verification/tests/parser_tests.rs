use nested_code_parser::MatchFunction;
use nested_code_parser::MatchMethod;
use nested_code_parser::NestedCodeParser;
use nested_code_parser::NestedSegment;
use nested_code_parser::SegmentIdentification;
use nested_code_parser::CONTENTS_NAME;
use nested_code_parser::ROOT_NAME;
use nested_code_parser::WHITESPACE_NAME;

const EXAMPLE_TEXT: &str = r#"
	if necessary {
		// Makes the program do the expected thing.
		let thing_result = do_the_thing();
		if thing_result.is_ok() {
			println!("Successful thinging complete! Exited with error code \"{}\".", get_code());
		}
	}
	if	 weirdly_spaced_bool {
		// This comment contains white-space, but is not split up despite it's white-space end-tag.
	}
	confusing footer?
	"#;

fn rule(name: &str, allow: bool, open: &str, close: &str) -> SegmentIdentification {
    SegmentIdentification::from_tags(name, allow, open, close).unwrap()
}

fn rule_with_escapes(
    name: &str,
    allow: bool,
    open: &str,
    open_escape: Option<&str>,
    close: &str,
    close_escape: Option<&str>,
) -> SegmentIdentification {
    SegmentIdentification::from_tags_with_escapes(
        name,
        allow,
        open,
        open_escape.unwrap_or(""),
        close,
        close_escape.unwrap_or(""),
    )
    .unwrap()
}

fn example_parser() -> NestedCodeParser {
    NestedCodeParser::new(vec![
        rule("comment", false, "//", "\n"),
        rule("scope", true, "{", "}"),
        rule("if-statement", true, "if ", " "),
        rule_with_escapes("string", false, "\"", None, "\"", Some("\\")),
        rule("print-statement", true, "println!(", ");"),
    ])
}

fn child<'a>(seg: &'a NestedSegment, index: usize) -> &'a NestedSegment {
    &seg.sub_segments()[index]
}

#[test]
fn test_nesting_structure() {
    let parser: NestedCodeParser = example_parser();
    let result: NestedSegment = parser.parse(EXAMPLE_TEXT).unwrap();
    println!("{:?}", result);

    assert_eq!(result.sub_segments().len(), 6);
    assert_eq!(child(&result, 0).name(), WHITESPACE_NAME);
    assert_eq!(child(&result, 1).name(), "if-statement");
    assert_eq!(child(&result, 2).name(), "scope");
    assert_eq!(child(child(&result, 2), 0).name(), WHITESPACE_NAME);
    assert_eq!(child(child(&result, 2), 1).name(), "comment");
    assert_eq!(child(child(&result, 2), 2).name(), CONTENTS_NAME);
    assert_eq!(child(child(&result, 2), 3).name(), "if-statement");
    assert_eq!(child(child(&result, 2), 4).name(), "scope");
    assert_eq!(child(child(child(&result, 2), 4), 0).name(), WHITESPACE_NAME);
    assert_eq!(child(child(child(&result, 2), 4), 1).name(), "print-statement");
    assert_eq!(child(child(child(child(&result, 2), 4), 1), 0).name(), "string");
    assert_eq!(child(&result, 3).name(), CONTENTS_NAME);
    assert_eq!(child(&result, 4).name(), "scope");
    assert_eq!(child(child(&result, 4), 0).name(), WHITESPACE_NAME);
    assert_eq!(child(child(&result, 4), 1).name(), "comment");
    assert_eq!(child(&result, 5).name(), CONTENTS_NAME);
    assert_eq!(
        result.flat().iter().map(|(_, code)| code.name()).collect::<Vec<&str>>(),
        vec![
            ROOT_NAME,
            WHITESPACE_NAME,
            "if-statement",
            CONTENTS_NAME,
            "scope",
            WHITESPACE_NAME,
            "comment",
            CONTENTS_NAME,
            CONTENTS_NAME,
            "if-statement",
            CONTENTS_NAME,
            "scope",
            WHITESPACE_NAME,
            "print-statement",
            "string",
            CONTENTS_NAME,
            CONTENTS_NAME,
            WHITESPACE_NAME,
            WHITESPACE_NAME,
            CONTENTS_NAME,
            "scope",
            WHITESPACE_NAME,
            "comment",
            CONTENTS_NAME,
            WHITESPACE_NAME,
            CONTENTS_NAME
        ]
    );
    assert_eq!(result.to_string(), EXAMPLE_TEXT);
}

#[test]
fn test_ignore_white_space_segments() {
    let parser: NestedCodeParser = example_parser().ignore_white_space_segments();
    let result: NestedSegment = parser.parse(EXAMPLE_TEXT).unwrap();
    println!("{:?}", result);

    assert_eq!(result.sub_segments().len(), 5);
    assert_eq!(child(&result, 0).name(), "if-statement");
    assert_eq!(child(&result, 1).name(), "scope");
    assert_eq!(child(child(&result, 1), 0).name(), "comment");
    assert_eq!(child(child(&result, 1), 1).name(), CONTENTS_NAME);
    assert_eq!(child(child(&result, 1), 2).name(), "if-statement");
    assert_eq!(child(child(&result, 1), 3).name(), "scope");
    assert_eq!(child(child(child(&result, 1), 3), 0).name(), "print-statement");
    assert_eq!(child(child(child(child(&result, 1), 3), 0), 0).name(), "string");
    assert_eq!(child(&result, 2).name(), CONTENTS_NAME);
    assert_eq!(child(&result, 3).name(), "scope");
    assert_eq!(child(child(&result, 3), 0).name(), "comment");
    assert_eq!(child(&result, 4).name(), CONTENTS_NAME);
    assert_eq!(
        result.flat().iter().map(|(_, code)| code.name()).collect::<Vec<&str>>(),
        vec![
            ROOT_NAME,
            "if-statement",
            CONTENTS_NAME,
            "scope",
            "comment",
            CONTENTS_NAME,
            CONTENTS_NAME,
            "if-statement",
            CONTENTS_NAME,
            "scope",
            "print-statement",
            "string",
            CONTENTS_NAME,
            CONTENTS_NAME,
            CONTENTS_NAME,
            "scope",
            "comment",
            CONTENTS_NAME,
            CONTENTS_NAME
        ]
    );
}

#[test]
fn test_double_escape() {
    let parser: NestedCodeParser = example_parser();
    assert_eq!(child(&parser.parse(r#"- "test" -"#).unwrap(), 1).to_string(), r#""test""#);
    assert_eq!(child(&parser.parse(r#"- "test\"" -"#).unwrap(), 1).to_string(), r#""test\"""#);
    assert_eq!(child(&parser.parse(r#"- "test\\" -"#).unwrap(), 1).to_string(), r#""test\\""#);
    assert_eq!(child(&parser.parse(r#"- "test\\\"" -"#).unwrap(), 1).to_string(), r#""test\\\"""#);
}

struct OpensOnSlashes;

impl MatchFunction for OpensOnSlashes {
    fn match_length(&self, text: &str, pos: usize) -> Option<usize> {
        let rest: String = text.chars().skip(pos).take(2).collect();
        if rest == "//" {
            Some(2)
        } else {
            None
        }
    }
}

struct ClosesOnNewline;

impl MatchFunction for ClosesOnNewline {
    fn match_length(&self, text: &str, pos: usize) -> Option<usize> {
        match text.chars().nth(pos) {
            Some('\n') => Some(1),
            _ => None,
        }
    }
}

#[test]
fn test_identification_types() {
    // exact text
    let parser: NestedCodeParser = NestedCodeParser::new(vec![rule("comment", false, "//", "\n")]);
    assert_eq!(child(&parser.parse("-- // test\n --").unwrap(), 1).to_string(), "// test\n");
    let parser: NestedCodeParser = NestedCodeParser::new(vec![rule_with_escapes(
        "comment",
        false,
        "//",
        Some("P"),
        "\n",
        Some("\\"),
    )]);
    assert_eq!(
        child(&parser.parse("-- P// // test\\\n \n --").unwrap(), 1).to_string(),
        "// test\\\n \n"
    );

    // caller-supplied recognizers
    let parser: NestedCodeParser = NestedCodeParser::new(vec![SegmentIdentification::new(
        "comment",
        false,
        MatchMethod::Predicate(Box::new(OpensOnSlashes)),
        MatchMethod::Predicate(Box::new(ClosesOnNewline)),
    )
    .unwrap()]);
    assert_eq!(child(&parser.parse("-- // test\n --").unwrap(), 1).to_string(), "// test\n");

    // cursor-anchored regular expression, the auto-closing token form
    let parser: NestedCodeParser =
        NestedCodeParser::new(vec![SegmentIdentification::token("comment", "^//.+\n").unwrap()]);
    assert_eq!(child(&parser.parse("-- // test\n --").unwrap(), 1).to_string(), "// test\n");

    // a missing leading caret is added for the token form
    let parser: NestedCodeParser =
        NestedCodeParser::new(vec![SegmentIdentification::token("comment", "//.+\n").unwrap()]);
    assert_eq!(child(&parser.parse("-- // test\n --").unwrap(), 1).to_string(), "// test\n");
}

#[test]
fn test_flatten_and_inflate() {
    let parser: NestedCodeParser = example_parser();
    let result: NestedSegment = parser.parse(EXAMPLE_TEXT).unwrap();
    println!("{:?}", result);

    let flat: Vec<(usize, NestedSegment)> = result.clone().to_flat();
    let validation: NestedSegment = NestedSegment::from_flat(flat).unwrap();
    assert_eq!(result, validation);
}

#[test]
fn test_priority_tie_break() {
    let first_wins: NestedCodeParser = NestedCodeParser::new(vec![
        rule("first", false, "ab", "X"),
        rule("second", false, "a", "Y"),
    ]);
    for _ in 0..3 {
        let result: NestedSegment = first_wins.parse("abcXrest").unwrap();
        assert_eq!(child(&result, 0).name(), "first");
        assert_eq!(child(&result, 0).to_string(), "abcX");
    }
    let second_wins: NestedCodeParser = NestedCodeParser::new(vec![
        rule("second", false, "a", "Y"),
        rule("first", false, "ab", "X"),
    ]);
    let result: NestedSegment = second_wins.parse("abcXrest").unwrap();
    assert_eq!(child(&result, 0).name(), "second");
}

#[test]
fn test_whitespace_insensitive_matching() {
    let exact: NestedCodeParser = NestedCodeParser::new(vec![rule("ifs", false, "if ", "end")]);
    let folded: NestedCodeParser =
        NestedCodeParser::new(vec![rule("ifs", false, "if ", "end")]).match_any_white_space();

    // the tag `if ` (one trailing space) takes `if\t  ` only when runs fold
    let spaced: &str = "if\t  middle end";
    let strictly: NestedSegment = exact.parse(spaced).unwrap();
    assert_eq!(strictly.sub_segments().len(), 1);
    assert_eq!(child(&strictly, 0).name(), "contents");
    let folded_result: NestedSegment = folded.parse(spaced).unwrap();
    assert_eq!(child(&folded_result, 0).name(), "ifs");
    assert_eq!(folded_result.to_string(), spaced);

    // both modes take the exact text itself
    let plain: &str = "if middle end";
    assert_eq!(child(&exact.parse(plain).unwrap(), 0).name(), "ifs");
    assert_eq!(child(&folded.parse(plain).unwrap(), 0).name(), "ifs");
}

#[test]
fn test_unterminated_strict_and_lenient() {
    let strict: NestedCodeParser =
        NestedCodeParser::new(vec![rule("scope", true, "{", "}")]).fail_on_unterminated();
    let error = strict.parse("{ unterminated").unwrap_err();
    assert_eq!(error.rule_name, "scope");
    assert_eq!(error.line, 1);
    assert_eq!(error.column, 1);

    let lenient: NestedCodeParser = NestedCodeParser::new(vec![rule("scope", true, "{", "}")]);
    let result: NestedSegment = lenient.parse("{ unterminated").unwrap();
    assert_eq!(child(&result, 0).name(), "scope");
    if let NestedSegment::Code(_, code) = child(&result, 0) {
        assert_eq!(code.close_tag, "");
    } else {
        panic!("expected a code segment");
    }
    assert_eq!(result.to_string(), "{ unterminated");

    let error_deeper = strict.parse("line one\n  { unterminated").unwrap_err();
    assert_eq!(error_deeper.line, 2);
    assert_eq!(error_deeper.column, 3);
}

#[test]
fn test_two_rule_example() {
    let parser: NestedCodeParser = NestedCodeParser::new(vec![
        rule("comment", false, "//", "\n"),
        rule("scope", true, "{", "}"),
    ]);
    let result: NestedSegment = parser.parse("if x { // c\n }").unwrap();
    assert_eq!(result.sub_segments().len(), 2);
    assert_eq!(child(&result, 0).name(), CONTENTS_NAME);
    assert_eq!(child(&result, 0).to_string(), "if x ");
    assert_eq!(child(&result, 1).name(), "scope");
    let scope = child(&result, 1);
    assert_eq!(scope.sub_segments().len(), 3);
    assert_eq!(child(scope, 0).name(), WHITESPACE_NAME);
    assert_eq!(child(scope, 1).name(), "comment");
    assert_eq!(child(scope, 1).to_string(), "// c\n");
    assert_eq!(child(scope, 2).to_string(), " ");
    assert_eq!(result.to_string(), "if x { // c\n }");
}

#[test]
fn test_configuration_errors() {
    assert!(MatchMethod::literal("", None).is_err());
    assert!(MatchMethod::regex("no-anchor").is_err());
    assert!(MatchMethod::regex("^(unclosed").is_err());
    let open = MatchMethod::literal("{", None).unwrap();
    let close = MatchMethod::literal("}", None).unwrap();
    assert!(SegmentIdentification::new("", true, open, close).is_err());
    assert!(SegmentIdentification::from_tags("scope", true, "", "}").is_err());
    assert!(SegmentIdentification::token("", "^a").is_err());

    // two rules under one name are a configuration error for the
    // checked constructor, while the permissive one layers them
    let duplicated = vec![rule("string", false, "\"", "\""), rule("string", false, "'", "'")];
    assert!(NestedCodeParser::new_checked(duplicated).is_err());
    let distinct = vec![rule("a", false, "x", "y"), rule("b", false, "u", "v")];
    assert!(NestedCodeParser::new_checked(distinct).is_ok());
}

#[test]
fn test_inner_parser_runs_once() {
    let parser: NestedCodeParser = NestedCodeParser::new(vec![rule("scope", true, "{", "}")]);
    let mut run = nested_code_parser::InnerNestedCodeParser::new(&parser, "a {b} c");
    let result: NestedSegment = run.parse().unwrap();
    assert_eq!(result.name(), ROOT_NAME);
    assert_eq!(result.to_string(), "a {b} c");
}

#[test]
fn test_navigation_over_parsed_tree() {
    let parser: NestedCodeParser = NestedCodeParser::new(vec![rule("scope", true, "{", "}")]);
    let result: NestedSegment = parser.parse("a{b}c{d}e").unwrap();
    let root_ref = nested_code_parser::NestedSegmentRef::new(&result, vec![]);
    let first = root_ref.child_by_index(0).unwrap();
    assert_eq!(first.get().unwrap().to_string(), "a");
    let second = first.next_sibling().unwrap();
    assert_eq!(second.get().unwrap().to_string(), "{b}");
    let third = second.next_sibling().unwrap();
    assert_eq!(third.get().unwrap().to_string(), "c");
    assert_eq!(third.previous_sibling().unwrap().get().unwrap().to_string(), "{b}");

    let mut walk = result.iter();
    let mut seen: Vec<String> = Vec::new();
    while let Some(node) = walk.next() {
        seen.push(node.to_string());
    }
    assert_eq!(seen, vec!["a{b}c{d}e", "a", "{b}", "b", "c", "{d}", "d", "e"]);
}

#[test]
fn test_nesting_structure_match_any_white_space() {
    let parser: NestedCodeParser = example_parser().match_any_white_space();
    let result: NestedSegment = parser.parse(EXAMPLE_TEXT).unwrap();
    println!("{:?}", result);

    let names: Vec<&str> = result.flat().iter().map(|(_, code)| code.name()).collect();
    assert_eq!(
        names,
        vec![
            ROOT_NAME,
            WHITESPACE_NAME,
            "if-statement",
            CONTENTS_NAME,
            "scope",
            WHITESPACE_NAME,
            "comment",
            CONTENTS_NAME,
            "if-statement",
            CONTENTS_NAME,
            "scope",
            WHITESPACE_NAME,
            "print-statement",
            "string",
            CONTENTS_NAME,
            CONTENTS_NAME,
            WHITESPACE_NAME,
            WHITESPACE_NAME,
            WHITESPACE_NAME,
            "if-statement",
            CONTENTS_NAME,
            "scope",
            WHITESPACE_NAME,
            "comment",
            CONTENTS_NAME,
            CONTENTS_NAME
        ]
    );
    // the second if-statement only matches here: its open tag folded
    // the tag's space with the text's tab-and-space run
    assert_eq!(result.sub_segments().len(), 7);
    assert_eq!(child(&result, 4).name(), "if-statement");
    if let NestedSegment::Code(_, code) = child(&result, 4) {
        assert_eq!(code.open_tag, "if\t ");
    } else {
        panic!("expected a code segment");
    }
    assert_eq!(result.to_string(), EXAMPLE_TEXT);
}
