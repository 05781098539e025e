use namegen::grammar::{parse, Grammar, GrammarError, Part, Rule};

fn ok(src: &str) -> Grammar {
    match parse(src) {
        Ok(g) => g,
        Err(e) => panic!("unexpected error: {}", e.render()),
    }
}

fn err(src: &str) -> GrammarError {
    match parse(src) {
        Ok(_) => panic!("expected an error for {:?}", src),
        Err(e) => e,
    }
}

fn rule<'a>(g: &'a Grammar, name: &str) -> &'a Rule {
    g.rules.iter().find(|r| r.name == name).expect("rule exists")
}

fn literal(p: &Part) -> &str {
    match p {
        Part::Literal(s) => s.as_str(),
        _ => panic!("not a literal"),
    }
}

#[test]
fn parses_plain_alternatives() {
    let g = ok("name = ka | ke | ki");
    assert_eq!(g.rules.len(), 1);
    let r = rule(&g, "name");
    assert_eq!(r.line, 1);
    assert_eq!(r.alternatives.len(), 3);
    assert_eq!(literal(&r.alternatives[0].parts[0]), "ka");
    assert_eq!(literal(&r.alternatives[1].parts[0]), "ke");
    assert_eq!(literal(&r.alternatives[2].parts[0]), "ki");
    assert!(r.alternatives.iter().all(|a| a.weight == 1 && a.parts.len() == 1));
}

#[test]
fn parses_references_with_positions() {
    let g = ok("name = <syllable><syllable> | <syllable>'<syllable>\n\nsyllable = ka|ke\n");
    assert_eq!(g.rules.len(), 2);
    let name = rule(&g, "name");
    let first = &name.alternatives[0].parts;
    assert_eq!(first.len(), 2);
    match &first[0] {
        Part::Reference { name, line, column } => {
            assert_eq!(name, "syllable");
            assert_eq!(*line, 1);
            assert_eq!(*column, 8);
        }
        _ => panic!("expected a reference"),
    }
    match &first[1] {
        Part::Reference { column, .. } => assert_eq!(*column, 18),
        _ => panic!("expected a reference"),
    }
    let second = &name.alternatives[1].parts;
    assert_eq!(second.len(), 3);
    assert_eq!(literal(&second[1]), "'");
    assert_eq!(rule(&g, "syllable").line, 3);
}

#[test]
fn reference_names_are_trimmed() {
    let g = ok("a = x< b >y\nb = z");
    let parts = &rule(&g, "a").alternatives[0].parts;
    assert_eq!(parts.len(), 3);
    assert_eq!(literal(&parts[0]), "x");
    match &parts[1] {
        Part::Reference { name, .. } => assert_eq!(name, "b"),
        _ => panic!("expected a reference"),
    }
    assert_eq!(literal(&parts[2]), "y");
}

#[test]
fn parses_weights() {
    let g = ok("size = small:5 | medium:3 | large | enormous:1");
    let ws: Vec<u32> = rule(&g, "size").alternatives.iter().map(|a| a.weight).collect();
    assert_eq!(ws, vec![5, 3, 1, 1]);
    assert_eq!(literal(&rule(&g, "size").alternatives[0].parts[0]), "small");
}

#[test]
fn weight_needs_text_before_the_colon_and_digits_after() {
    let g = ok("a = x:y | 12 | b:c:3 | 007:0042");
    let alts = &rule(&g, "a").alternatives;
    assert_eq!(literal(&alts[0].parts[0]), "x:y");
    assert_eq!(alts[0].weight, 1);
    assert_eq!(literal(&alts[1].parts[0]), "12");
    assert_eq!(alts[1].weight, 1);
    assert_eq!(literal(&alts[2].parts[0]), "b:c");
    assert_eq!(alts[2].weight, 3);
    assert_eq!(literal(&alts[3].parts[0]), "007");
    assert_eq!(alts[3].weight, 42);
}

#[test]
fn weight_only_alternative_is_empty() {
    let e = err("a = x | :5");
    assert_eq!((e.line, e.column), (1, 9));
    assert_eq!(e.message, "empty alternative - remove the extra '|' or add text");
}

#[test]
fn leading_dash_is_literal_even_before_a_dash() {
    let g = ok("a = [--a]");
    match &g.rules[0].alternatives[0].parts[0] {
        Part::CharClass(cs) => assert_eq!(cs, &vec!['-', '-', 'a']),
        _ => panic!("expected a class"),
    }
}

#[test]
fn render_caret_under_the_column_on_line_ten() {
    let e = err("#\n#\n#\n#\n#\n#\n#\n#\n#\nab");
    assert_eq!((e.line, e.column), (10, 1));
    assert_eq!(
        e.render(),
        "error: expected '=' after the rule name\n  --> 10:1\n  |\n10 | ab\n   | ^"
    );
    let e = err("#\n#\n#\n#\n#\n#\n#\n#\n#\na = x>");
    assert_eq!(e.render().lines().last().unwrap(), "   |      ^");
}

#[test]
fn colon_inside_an_open_reference_is_not_a_weight() {
    let e = err("a = <b:3");
    assert_eq!(e.message, "unterminated reference - missing closing '>'");
    assert_eq!(e.column, 5);
}

#[test]
fn weight_after_a_reference() {
    let g = ok("a = <b>:3\nb = x");
    let alt = &rule(&g, "a").alternatives[0];
    assert_eq!(alt.weight, 3);
    assert_eq!(alt.parts.len(), 1);
}

#[test]
fn parses_character_classes() {
    let g = ok("initial = [A-Z]\ndigit = [0-9]\nvowel = [aeiou]\ndash = [a-c-] | [-x]");
    match &rule(&g, "initial").alternatives[0].parts[0] {
        Part::CharClass(cs) => {
            assert_eq!(cs.len(), 26);
            assert_eq!(cs[0], 'A');
            assert_eq!(cs[25], 'Z');
        }
        _ => panic!("expected a class"),
    }
    match &rule(&g, "vowel").alternatives[0].parts[0] {
        Part::CharClass(cs) => assert_eq!(cs, &vec!['a', 'e', 'i', 'o', 'u']),
        _ => panic!("expected a class"),
    }
    match &rule(&g, "dash").alternatives[0].parts[0] {
        Part::CharClass(cs) => assert_eq!(cs, &vec!['a', 'b', 'c', '-']),
        _ => panic!("expected a class"),
    }
    match &rule(&g, "dash").alternatives[1].parts[0] {
        Part::CharClass(cs) => assert_eq!(cs, &vec!['-', 'x']),
        _ => panic!("expected a class"),
    }
}

#[test]
fn class_next_to_text() {
    let g = ok("a = x[yz]w");
    let parts = &rule(&g, "a").alternatives[0].parts;
    assert_eq!(parts.len(), 3);
    assert_eq!(literal(&parts[0]), "x");
    assert_eq!(literal(&parts[2]), "w");
}

#[test]
fn comments_blank_lines_and_crlf() {
    let g = ok("# names\r\n\r\n   \r\nname = a | b\r\n# end\r\n");
    assert_eq!(g.rules.len(), 1);
    let r = rule(&g, "name");
    assert_eq!(r.line, 4);
    assert_eq!(literal(&r.alternatives[1].parts[0]), "b");
}

#[test]
fn error_missing_equals() {
    let e = err("name = a\n  syllable ka\n");
    assert_eq!(e.line, 2);
    assert_eq!(e.column, 3);
    assert_eq!(e.message, "expected '=' after the rule name");
    assert_eq!(e.line_text, "  syllable ka");
}

#[test]
fn error_empty_rule_name() {
    let e = err("  = a");
    assert_eq!((e.line, e.column), (1, 3));
    assert_eq!(e.message, "rule name cannot be empty");
}

#[test]
fn error_invalid_rule_name() {
    let e = err("9lives = a");
    assert_eq!((e.line, e.column), (1, 1));
    assert_eq!(
        e.message,
        "invalid rule name '9lives' - use letters, digits and underscores, starting with a letter or underscore"
    );
}

#[test]
fn error_duplicate_rule() {
    let e = err("a = x\nb = y\n a = z");
    assert_eq!((e.line, e.column), (3, 2));
    assert_eq!(e.message, "rule 'a' is already defined on line 1");
    assert_eq!(e.line_text, " a = z");
}

#[test]
fn error_empty_alternative() {
    let e = err("a = x || y");
    assert_eq!((e.line, e.column), (1, 8));
    assert_eq!(e.message, "empty alternative - remove the extra '|' or add text");
    let e = err("a = x |");
    assert_eq!(e.column, 8);
    let e = err("a =");
    assert_eq!(e.column, 4);
}

#[test]
fn error_weight_too_large() {
    let e = err("a = x:4294967296");
    assert_eq!((e.line, e.column), (1, 7));
    assert_eq!(e.message, "alternative weight '4294967296' is too large");
    let g = ok("a = x:4294967295");
    assert_eq!(g.rules[0].alternatives[0].weight, 4294967295);
}

#[test]
fn error_weight_zero() {
    let e = err("a = x | y:0");
    assert_eq!((e.line, e.column), (1, 11));
    assert_eq!(e.message, "alternative weight must be at least 1");
}

#[test]
fn error_unterminated_reference() {
    let e = err("a = x<b");
    assert_eq!((e.line, e.column), (1, 6));
    assert_eq!(e.message, "unterminated reference - missing closing '>'");
}

#[test]
fn error_empty_reference() {
    let e = err("a = x< >");
    assert_eq!(e.column, 6);
    assert_eq!(e.message, "empty reference '<>' - name a rule between the brackets");
}

#[test]
fn error_invalid_reference_name() {
    let e = err("a = <b-c>");
    assert_eq!(e.column, 6);
    assert_eq!(e.message, "invalid rule name 'b-c' in reference");
}

#[test]
fn error_stray_closing_bracket() {
    let e = err("a = x>");
    assert_eq!(e.column, 6);
    assert_eq!(e.message, "unexpected '>' without matching '<'");
}

#[test]
fn columns_count_bytes() {
    let e = err("x = é>");
    assert_eq!(e.column, 7);
}

#[test]
fn error_unterminated_class() {
    let e = err("a = x[ab");
    assert_eq!(e.column, 6);
    assert_eq!(e.message, "unterminated character class - missing closing ']'");
}

#[test]
fn error_empty_class() {
    let e = err("a = []");
    assert_eq!(e.column, 5);
    assert_eq!(e.message, "empty character class '[]' - list at least one character");
}

#[test]
fn error_reversed_range() {
    let e = err("a = [abz-a]");
    assert_eq!(e.column, 8);
    assert_eq!(
        e.message,
        "invalid range 'z-a' in character class - the first character comes after the second"
    );
}

#[test]
fn error_no_rules() {
    let e = err("# only a comment\n\n");
    assert_eq!((e.line, e.column), (1, 1));
    assert_eq!(e.message, "grammar file has no rules");
    assert_eq!(e.line_text, "# only a comment");
    let e = err("");
    assert_eq!(e.line_text, "");
}

#[test]
fn error_undefined_rule_from_readme() {
    let src = "# fantasy names\nsyllable = ka | ke\nname = <sylable><syllable>\n";
    let e = err(src);
    assert_eq!((e.line, e.column), (3, 8));
    assert_eq!(e.message, "undefined rule 'sylable'");
    assert_eq!(e.line_text, "name = <sylable><syllable>");
    assert_eq!(
        e.render(),
        "error: undefined rule 'sylable'\n  --> 3:8\n  |\n3 | name = <sylable><syllable>\n  |        ^"
    );
}

#[test]
fn undefined_rule_is_reported_after_syntax_errors() {
    let e = err("a = <missing>\nb = x|");
    assert_eq!(e.line, 2);
    assert_eq!(e.message, "empty alternative - remove the extra '|' or add text");
}

#[test]
fn first_undefined_reference_in_file_order() {
    let e = err("a = <b> | <c>\nb = <d>");
    assert_eq!((e.line, e.column), (1, 11));
    assert_eq!(e.message, "undefined rule 'c'");
}

#[test]
fn parsed_grammar_is_well_formed() {
    // Every reference resolves and every weight is at least 1.
    let g = ok("name = <a>:2 | <b>\na = [x-z]\nb = q");
    let names: Vec<&str> = g.rules.iter().map(|r| r.name.as_str()).collect();
    for r in &g.rules {
        assert!(!r.alternatives.is_empty());
        for alt in &r.alternatives {
            assert!(alt.weight >= 1);
            for p in &alt.parts {
                match p {
                    Part::Reference { name, .. } => assert!(names.contains(&name.as_str())),
                    Part::CharClass(cs) => assert!(!cs.is_empty()),
                    Part::Literal(_) => {}
                }
            }
        }
    }
}

#[test]
fn render_caret_at_column_one() {
    let e = err("  = a");
    assert_eq!(e.render(), "error: rule name cannot be empty\n  --> 1:3\n  |\n1 |   = a\n  |   ^");
}

#[test]
fn one_rule_per_rule_line_and_one_alternative_per_segment() {
    let g = ok("# c\nfirst = a | b | c\n\n  second=x\nthird = <first>|<second>\n");
    let lines: Vec<usize> = g.rules.iter().map(|r| r.line).collect();
    assert_eq!(lines, vec![2, 4, 5]);
    let names: Vec<&str> = g.rules.iter().map(|r| r.name.as_str()).collect();
    assert_eq!(names, vec!["first", "second", "third"]);
    let counts: Vec<usize> = g.rules.iter().map(|r| r.alternatives.len()).collect();
    assert_eq!(counts, vec![3, 1, 2]);
}

#[test]
fn parts_alternate_and_references_point_at_their_bracket() {
    let line = "a = x<b>yy<b><b>[q]z";
    let g = ok(&format!("{line}\nb = w"));
    let parts = &g.rules[0].alternatives[0].parts;
    assert_eq!(parts.len(), 7);
    for w in parts.windows(2) {
        assert!(!(matches!(w[0], Part::Literal(_)) && matches!(w[1], Part::Literal(_))));
    }
    for p in parts {
        match p {
            Part::Literal(s) => assert!(!s.is_empty()),
            Part::Reference { name, line: l, column } => {
                assert_eq!(name, "b");
                assert_eq!(*l, 1);
                assert_eq!(line.as_bytes()[column - 1], b'<');
            }
            Part::CharClass(_) => {}
        }
    }
}

#[test]
fn writing_parts_back_gives_the_text() {
    let g = ok("a = ka<b>'<b>ri\nb = x");
    let written: String = g.rules[0].alternatives[0]
        .parts
        .iter()
        .map(|p| match p {
            Part::Literal(s) => s.clone(),
            Part::Reference { name, .. } => format!("<{name}>"),
            Part::CharClass(_) => unreachable!(),
        })
        .collect();
    assert_eq!(written, "ka<b>'<b>ri");
}
