use git_codeowners::rules::parse_rule;
use git_codeowners::{build_rules, Rule};

fn rule(pattern: &str, owners: &[&str]) -> Rule {
    Rule { pattern: pattern.to_string(), owners: owners.iter().map(|n| n.to_string()).collect() }
}

#[test]
fn comment_only_input_gives_no_rule() {
    assert!(build_rules("# nothing here\n\n").rules.is_empty());
    assert!(build_rules("").rules.is_empty());
    assert!(build_rules("\n\r\n   \n\t\n").rules.is_empty());
    assert!(build_rules("   # indented comment\n#another").rules.is_empty());
}

#[test]
fn rules_keep_the_order_of_their_lines() {
    let rules = build_rules("b @x\n\n# c\na @y @z\nb @w\n");
    assert_eq!(rules.rules, vec![rule("b", &["@x"]), rule("a", &["@y", "@z"]), rule("b", &["@w"])]);
}

#[test]
fn line_with_pattern_alone_gives_rule_without_owners() {
    let rules = build_rules("vendor/\n");
    assert_eq!(rules.rules, vec![rule("vendor/", &[])]);
}

#[test]
fn tokens_are_split_on_runs_of_white_space() {
    let rules = build_rules("  \t *.js \t  @js-owner\u{a0}\u{3000}second@example.com   \n");
    assert_eq!(rules.rules, vec![rule("*.js", &["@js-owner", "second@example.com"])]);
}

#[test]
fn any_line_ending_ends_a_line() {
    let unix = build_rules("a @x\nb @y\n");
    let dos = build_rules("a @x\r\nb @y\r\n");
    let old_mac = build_rules("a @x\rb @y\r");
    let unterminated = build_rules("a @x\nb @y");
    assert_eq!(unix.rules, vec![rule("a", &["@x"]), rule("b", &["@y"])]);
    assert_eq!(dos, unix);
    assert_eq!(old_mac, unix);
    assert_eq!(unterminated, unix);
}

#[test]
fn hash_after_the_pattern_is_an_ordinary_token() {
    let rules = build_rules("*.c @c-team # the compilers\n");
    assert_eq!(rules.rules, vec![rule("*.c", &["@c-team", "#", "the", "compilers"])]);
}

#[test]
fn pattern_with_hash_inside_is_no_comment() {
    let rules = build_rules("a#b @x\n");
    assert_eq!(rules.rules, vec![rule("a#b", &["@x"])]);
}

#[test]
fn one_line_is_read_as_rule_or_nothing() {
    let chars = |s: &str| s.chars().collect::<Vec<char>>();
    assert_eq!(parse_rule(&chars("")), None);
    assert_eq!(parse_rule(&chars("   ")), None);
    assert_eq!(parse_rule(&chars(" # docs @x")), None);
    assert_eq!(parse_rule(&chars("#")), None);
    assert_eq!(parse_rule(&chars("docs @x")), Some(rule("docs", &["@x"])));
    assert_eq!(parse_rule(&chars(" docs")), Some(rule("docs", &[])));
}

#[test]
fn no_pattern_is_empty_and_no_token_holds_white_space() {
    let text = "* @a\n\n  /x/  b c\t d\n# e\n\u{2028}f\u{2003}g\n";
    let rules = build_rules(text);
    assert_eq!(rules.len(), 3);
    for r in rules.rules.iter() {
        assert!(!r.pattern.is_empty());
        assert!(!r.pattern.starts_with('#'));
        assert!(!r.pattern.chars().any(char::is_whitespace));
        for o in r.owners.iter() {
            assert!(!o.is_empty());
            assert!(!o.chars().any(char::is_whitespace));
        }
    }
    assert_eq!(rules.rules[2], rule("f", &["g"]));
}

#[test]
fn reading_agrees_with_line_by_line_tokens() {
    let text = "# c\n*  @a @b\n\n docs/  \n/x @y\n";
    let mut expected = Vec::new();
    for line in text.lines() {
        let mut tokens = line.split_whitespace();
        match tokens.next() {
            None => {}
            Some(first) if first.starts_with('#') => {}
            Some(first) => {
                expected.push(Rule {
                    pattern: first.to_string(),
                    owners: tokens.map(|t| t.to_string()).collect(),
                });
            }
        }
    }
    assert_eq!(build_rules(text).rules, expected);
}
