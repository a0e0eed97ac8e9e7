use git_codeowners::chars::{chars_of, string_of};
use git_codeowners::invocation::{choose_action, Action};
use git_codeowners::locate::{get_codeowners_path, get_current_repo_root};
use git_codeowners::report::{check_owners, check_ownership, join_owners, owners_line, COLUMN};
use git_codeowners::text::{is_space_char, split_fields, trim, Delimiter};
use git_codeowners::{build_rules, Example, ResolutionResult};

fn chars(s: &str) -> Vec<char> {
    s.chars().collect()
}

fn strings(v: &[&str]) -> Vec<String> {
    v.iter().map(|s| s.to_string()).collect()
}

#[test]
fn white_space_is_what_the_standard_library_says() {
    for n in 0..=0x10ffffu32 {
        if let Some(c) = char::from_u32(n) {
            assert_eq!(is_space_char(c), c.is_whitespace(), "U+{:04X}", n);
        }
    }
}

#[test]
fn delimiters_are_told_apart() {
    assert!(Delimiter::Slash.test('/'));
    assert!(!Delimiter::Slash.test('\\'));
    assert!(!Delimiter::Slash.test(' '));
    assert!(Delimiter::Space.test(' '));
    assert!(Delimiter::Space.test('\t'));
    assert!(Delimiter::Space.test('\n'));
    assert!(!Delimiter::Space.test('/'));
    assert!(Delimiter::LineBreak.test('\n'));
    assert!(Delimiter::LineBreak.test('\r'));
    assert!(!Delimiter::LineBreak.test(' '));
    assert!(!Delimiter::LineBreak.test('\u{2028}'));
}

#[test]
fn fields_are_the_runs_between_delimiters() {
    let split = |s: &str, d: Delimiter| split_fields(&chars(s), d);
    assert_eq!(split("a/b/c", Delimiter::Slash), vec![chars("a"), chars("b"), chars("c")]);
    assert_eq!(split("/a//b/", Delimiter::Slash), vec![chars("a"), chars("b")]);
    assert_eq!(split("", Delimiter::Slash), Vec::<Vec<char>>::new());
    assert_eq!(split("///", Delimiter::Slash), Vec::<Vec<char>>::new());
    assert_eq!(split("abc", Delimiter::Slash), vec![chars("abc")]);
    assert_eq!(split("  x \t y", Delimiter::Space), vec![chars("x"), chars("y")]);
    assert_eq!(split("l1\r\nl2\n\nl3", Delimiter::LineBreak), vec![chars("l1"), chars("l2"), chars("l3")]);
    for s in ["", " a  b ", "a b\tc\u{a0}d", "   ", "x"] {
        let expected: Vec<Vec<char>> = s.split_whitespace().map(chars).collect();
        assert_eq!(split(s, Delimiter::Space), expected);
    }
}

#[test]
fn strings_and_characters_convert_both_ways() {
    assert_eq!(chars_of("héllo/*"), chars("héllo/*"));
    assert_eq!(chars_of(""), Vec::<char>::new());
    let v = chars("héllo wörld");
    assert_eq!(string_of(&v, 0, v.len()), "héllo wörld");
    assert_eq!(string_of(&v, 6, 11), "wörld");
    assert_eq!(string_of(&v, 3, 3), "");
}

#[test]
fn trimming_takes_white_space_off_both_ends() {
    assert_eq!(trim("  /home/me/repo\n"), "/home/me/repo");
    assert_eq!(trim("a b"), "a b");
    assert_eq!(trim("\t a b \r\n"), "a b");
    assert_eq!(trim(""), "");
    assert_eq!(trim(" \n\t "), "");
    assert_eq!(trim("x"), "x");
    for s in ["", " ", "  a", "a  ", " a b ", "\u{3000}é\u{a0}", "\n\n"] {
        assert_eq!(trim(s), s.trim());
    }
}

#[test]
fn first_existing_place_is_taken() {
    let at = |a, b, c| get_codeowners_path("r/CODEOWNERS", "r/docs/CODEOWNERS", "r/.github/CODEOWNERS", a, b, c);
    assert_eq!(at(true, true, true), Ok("r/CODEOWNERS".to_string()));
    assert_eq!(at(true, false, false), Ok("r/CODEOWNERS".to_string()));
    assert_eq!(at(false, true, true), Ok("r/docs/CODEOWNERS".to_string()));
    assert_eq!(at(false, true, false), Ok("r/docs/CODEOWNERS".to_string()));
    assert_eq!(at(false, false, true), Ok("r/.github/CODEOWNERS".to_string()));
}

#[test]
fn missing_file_names_the_places_looked_at() {
    let r = get_codeowners_path("r/CODEOWNERS", "r/docs/CODEOWNERS", "r/.github/CODEOWNERS", false, false, false);
    assert_eq!(
        r,
        Err("fatal: no CODEOWNERS file found. checked r/.github/CODEOWNERS, r/docs/CODEOWNERS, r/CODEOWNERS".to_string())
    );
}

#[test]
fn repository_root_is_the_trimmed_output_of_git() {
    assert_eq!(get_current_repo_root(true, "/home/me/repo\n", ""), Ok("/home/me/repo".to_string()));
    assert_eq!(get_current_repo_root(true, "", "ignored"), Ok(String::new()));
    assert_eq!(
        get_current_repo_root(false, "ignored", "fatal: not a git repository\n"),
        Err("fatal: not a git repository\n".to_string())
    );
}

#[test]
fn owners_are_joined_with_comma_and_space() {
    assert_eq!(join_owners(&strings(&[])), "");
    assert_eq!(join_owners(&strings(&["@a"])), "@a");
    assert_eq!(join_owners(&strings(&["@a", "@b"])), "@a, @b");
    assert_eq!(join_owners(&strings(&["@a", "", "@a"])), "@a, , @a");
}

#[test]
fn line_pads_the_path_to_the_column() {
    assert_eq!(COLUMN, 40);
    let unowned = owners_line("src/main.rs", &ResolutionResult::Unowned);
    assert_eq!(unowned, "src/main.rs                              (unowned)");
    assert_eq!(unowned, format!("{: <40} (unowned)", "src/main.rs"));
    let owned = ResolutionResult::OwnedBy(strings(&["@a", "b@example.com"]));
    assert_eq!(owners_line("x", &owned), format!("{: <40} {}", "x", "@a, b@example.com"));
    let long = "a/".repeat(30);
    assert_eq!(owners_line(&long, &owned), format!("{} @a, b@example.com", long));
    let exact = "b".repeat(40);
    assert_eq!(owners_line(&exact, &ResolutionResult::Unowned), format!("{} (unowned)", exact));
    let accents = "é".repeat(39);
    assert_eq!(owners_line(&accents, &ResolutionResult::Unowned), format!("{: <40} (unowned)", accents));
    assert_eq!(owners_line("", &ResolutionResult::Unowned), format!("{} (unowned)", " ".repeat(40)));
}

#[test]
fn one_path_is_looked_up_and_reported() {
    let rules = build_rules("*.rs @rust @core\nvendor/\n");
    assert_eq!(check_owners(&rules, "src/lib.rs"), (format!("{: <40} @rust, @core", "src/lib.rs"), true));
    assert_eq!(check_owners(&rules, "vendor/a.rs"), (format!("{: <40} (unowned)", "vendor/a.rs"), false));
    assert_eq!(check_owners(&rules, "README"), (format!("{: <40} (unowned)", "README"), false));
}

#[test]
fn run_fails_as_soon_as_one_path_has_no_owner() {
    let rules = build_rules("*.rs @rust\n");
    let all_owned = check_ownership(&rules, &strings(&["a.rs", "b/c.rs"]));
    assert_eq!(all_owned.lines, vec![format!("{: <40} @rust", "a.rs"), format!("{: <40} @rust", "b/c.rs")]);
    assert!(!all_owned.unowned_files_found);
    assert_eq!(all_owned.exit_code(), 0);
    let one_unowned = check_ownership(&rules, &strings(&["a.rs", "README", "c.rs"]));
    assert_eq!(one_unowned.lines.len(), 3);
    assert_eq!(one_unowned.lines[1], format!("{: <40} (unowned)", "README"));
    assert_eq!(one_unowned.lines[2], format!("{: <40} @rust", "c.rs"));
    assert!(one_unowned.unowned_files_found);
    assert_eq!(one_unowned.exit_code(), 1);
    let nothing = check_ownership(&rules, &Vec::new());
    assert!(nothing.lines.is_empty());
    assert_eq!(nothing.exit_code(), 0);
}

#[test]
fn example_keeps_title_and_command() {
    let e = Example::new("Show owners", "git ls-files | git codeowners");
    assert_eq!(e.title, "Show owners");
    assert_eq!(e.cmd, "git ls-files | git codeowners");
}

#[test]
fn run_takes_its_paths_from_the_right_place() {
    assert_eq!(choose_action(true, 0, false), Action::ShowHelp);
    assert_eq!(choose_action(true, 3, true), Action::ShowHelp);
    assert_eq!(choose_action(false, 0, true), Action::ShowHelp);
    assert_eq!(choose_action(false, 0, false), Action::ShowHelp);
    assert_eq!(choose_action(false, 2, true), Action::ReadStandardInput);
    assert_eq!(choose_action(false, 2, false), Action::UseArguments);
}
