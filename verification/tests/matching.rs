use git_codeowners::glob::{
    is_deep_segment, is_literal_segment, matches_segments, pattern_matches, segment_matches_exec,
};

fn chars(s: &str) -> Vec<char> {
    s.chars().collect()
}

fn segment(p: &str, s: &str) -> bool {
    segment_matches_exec(&chars(p), &chars(s))
}

#[test]
fn anchored_pattern_matches_from_the_root_only() {
    assert!(pattern_matches("/build", "build/out.txt"));
    assert!(!pattern_matches("/build", "src/build/out.txt"));
    assert!(pattern_matches("build/", "build/out.txt"));
    assert!(pattern_matches("build/", "src/build/out.txt"));
    assert!(pattern_matches("/build/", "build/out.txt"));
    assert!(!pattern_matches("/build/", "src/build/out.txt"));
    assert!(pattern_matches("/*.md", "README.md"));
    assert!(!pattern_matches("/*.md", "docs/README.md"));
}

#[test]
fn pattern_without_separator_matches_the_basename() {
    assert!(pattern_matches("*.md", "README.md"));
    assert!(pattern_matches("*.md", "docs/guide.md"));
    assert!(pattern_matches("*.go", "a/b/c.go"));
    assert!(!pattern_matches("*.md", "docs/guide.mdx"));
    assert!(!pattern_matches("*.md", "docs.md/guide.txt"));
}

#[test]
fn double_star_matches_any_number_of_segments() {
    assert!(pattern_matches("docs/**/*.md", "docs/a/b/c.md"));
    assert!(pattern_matches("docs/**/*.md", "docs/x.md"));
    assert!(!pattern_matches("docs/**/*.md", "docs/x.txt"));
    assert!(!pattern_matches("/docs/**/*.md", "src/docs/x.md"));
    assert!(pattern_matches("**/logs", "build/logs/today.txt"));
    assert!(pattern_matches("**/logs", "logs/today.txt"));
    assert!(pattern_matches("**/logs", "deeply/nested/logs"));
    assert!(pattern_matches("/a/**/z", "a/z"));
    assert!(pattern_matches("/a/**/z", "a/b/c/d/z"));
    assert!(!pattern_matches("/a/**/z", "a/b/c/d/y"));
    assert!(pattern_matches("/a/**", "a/b"));
    assert!(pattern_matches("**", "anything/at/all"));
    assert!(pattern_matches("/**/**/x", "x"));
}

#[test]
fn plain_name_matches_at_a_segment_boundary() {
    assert!(pattern_matches("docs", "docs"));
    assert!(pattern_matches("docs", "docs/readme.md"));
    assert!(pattern_matches("docs", "a/docs/readme.md"));
    assert!(!pattern_matches("docs", "docsx"));
    assert!(!pattern_matches("docs", "xdocs/readme.md"));
    assert!(!pattern_matches("docs", "docsx/readme.md"));
    assert!(pattern_matches("foo/bar", "foo/bar/baz.rs"));
    assert!(pattern_matches("foo/bar", "x/foo/bar"));
    assert!(!pattern_matches("foo/bar", "foo/x/bar"));
}

#[test]
fn directory_pattern_matches_what_lies_beneath() {
    assert!(pattern_matches("apps/", "apps/x.js"));
    assert!(pattern_matches("apps/", "foo/apps/deep/x.js"));
    assert!(!pattern_matches("apps/", "apps"));
    assert!(!pattern_matches("apps/", "foo/apps"));
    assert!(!pattern_matches("apps/", "appsx/x.js"));
    assert!(pattern_matches("/", "any/file"));
    assert!(pattern_matches("/", "file"));
    assert!(pattern_matches("doc*/", "docs/x"));
    assert!(pattern_matches("doc*/", "docs/x/y"));
}

#[test]
fn wildcard_at_the_end_stops_at_its_segment() {
    assert!(pattern_matches("docs/*", "docs/getting-started.md"));
    assert!(!pattern_matches("docs/*", "docs/build-app/troubleshooting.md"));
    assert!(pattern_matches("docs/*", "x/docs/a"));
    assert!(!pattern_matches("docs/*", "docs"));
    assert!(pattern_matches("*", "a"));
    assert!(pattern_matches("*", "a/b/c"));
    assert!(!pattern_matches("/*", "a/b"));
    assert!(!pattern_matches("lib?", "liba/x"));
    assert!(pattern_matches("lib?", "x/liba"));
}

#[test]
fn star_and_question_mark_stay_within_a_segment() {
    assert!(segment("*", ""));
    assert!(segment("*", "abc"));
    assert!(segment("a*c", "ac"));
    assert!(segment("a*c", "abbbc"));
    assert!(!segment("a*c", "abbb"));
    assert!(segment("a**c", "abc"));
    assert!(segment("*.*", "a.b.c"));
    assert!(!segment("*.*", "abc"));
    assert!(segment("?", "x"));
    assert!(!segment("?", ""));
    assert!(!segment("?", "xy"));
    assert!(segment("a?c*", "abcdef"));
    assert!(segment("", ""));
    assert!(!segment("", "a"));
    assert!(segment("*a*a*a*", "bananas"));
    assert!(!segment("*a*a*a*a*", "bananas"));
    assert!(pattern_matches("a?c", "abc"));
    assert!(!pattern_matches("/a?c", "a/c"));
    assert!(!pattern_matches("/a*c", "a/c"));
    assert!(!pattern_matches("/a*", "a/c"));
}

#[test]
fn matching_is_by_case() {
    assert!(pattern_matches("*.go", "x.go"));
    assert!(!pattern_matches("*.GO", "x.go"));
    assert!(!pattern_matches("Docs", "docs/a"));
    assert!(!pattern_matches("docs", "Docs/a"));
}

#[test]
fn other_characters_stand_for_themselves() {
    assert!(pattern_matches("[ab]", "[ab]"));
    assert!(!pattern_matches("[ab]", "a"));
    assert!(pattern_matches("a[", "a["));
    assert!(pattern_matches("x\\*", "x\\yz"));
    assert!(pattern_matches("é?", "éü"));
    assert!(!pattern_matches("é?", "é"));
    assert!(pattern_matches("?", "ü"));
}

#[test]
fn empty_segments_do_not_count() {
    assert!(pattern_matches("/build", "/build/out.txt"));
    assert!(pattern_matches("a//b", "a/b"));
    assert!(pattern_matches("a/b", "a//b"));
    assert!(pattern_matches("//a", "a"));
    assert!(!pattern_matches("*", ""));
    assert!(!pattern_matches("*", "/"));
    assert!(!pattern_matches("", ""));
    assert!(!pattern_matches("", "a"));
    assert!(pattern_matches("**", ""));
}

#[test]
fn kinds_of_segment_are_told_apart() {
    assert!(is_deep_segment(&chars("**")));
    assert!(!is_deep_segment(&chars("*")));
    assert!(!is_deep_segment(&chars("***")));
    assert!(!is_deep_segment(&chars("a*")));
    assert!(is_literal_segment(&chars("docs")));
    assert!(is_literal_segment(&chars("")));
    assert!(!is_literal_segment(&chars("do*s")));
    assert!(!is_literal_segment(&chars("doc?")));
}

#[test]
fn matching_takes_the_segments_of_the_path() {
    let ss = vec![chars("a"), chars("docs"), chars("x.md")];
    assert!(matches_segments(&chars("docs"), &ss));
    assert!(matches_segments(&chars("/a"), &ss));
    assert!(!matches_segments(&chars("/docs"), &ss));
    assert!(matches_segments(&chars("*.md"), &ss));
    assert!(!matches_segments(&chars(""), &ss));
    assert!(!matches_segments(&chars("docs"), &Vec::new()));
}

fn slow_segment(p: &[char], s: &[char]) -> bool {
    match p.split_first() {
        None => s.is_empty(),
        Some(('*', rest)) => slow_segment(rest, s) || (!s.is_empty() && slow_segment(p, &s[1..])),
        Some(('?', rest)) => !s.is_empty() && slow_segment(rest, &s[1..]),
        Some((c, rest)) => !s.is_empty() && s[0] == *c && slow_segment(rest, &s[1..]),
    }
}

fn slow_segments(ps: &[Vec<char>], ss: &[Vec<char>], exact: bool, beneath: bool) -> bool {
    match ps.split_first() {
        None => if ss.is_empty() { exact } else { beneath },
        Some((p, rest)) if p.as_slice() == ['*', '*'] => {
            slow_segments(rest, ss, exact, beneath)
                || (!ss.is_empty() && slow_segments(ps, &ss[1..], exact, beneath))
        }
        Some((p, rest)) => {
            !ss.is_empty() && slow_segment(p, &ss[0]) && slow_segments(rest, &ss[1..], exact, beneath)
        }
    }
}

fn slow_match(pattern: &str, path: &str) -> bool {
    if pattern.is_empty() {
        return false;
    }
    let ps: Vec<Vec<char>> = pattern.split('/').filter(|s| !s.is_empty()).map(chars).collect();
    let ss: Vec<Vec<char>> = path.split('/').filter(|s| !s.is_empty()).map(chars).collect();
    let directory = pattern.ends_with('/');
    let beneath = directory
        || ps.last().map_or(false, |p| !p.contains(&'*') && !p.contains(&'?'));
    if pattern.starts_with('/') {
        slow_segments(&ps, &ss, !directory, beneath)
    } else {
        (0..=ss.len()).any(|j| slow_segments(&ps, &ss[j..], !directory, beneath))
    }
}

fn words(alphabet: &[char], longest: usize) -> Vec<String> {
    let mut all = vec![String::new()];
    let mut last = vec![String::new()];
    for _ in 0..longest {
        let mut next = Vec::new();
        for w in &last {
            for c in alphabet {
                let mut longer = w.clone();
                longer.push(*c);
                next.push(longer);
            }
        }
        all.extend(next.iter().cloned());
        last = next;
    }
    all
}

#[test]
fn table_agrees_with_plain_recursion_on_all_short_inputs() {
    let patterns = words(&['a', '*', '?', '/'], 4);
    let paths = words(&['a', 'b', '/'], 4);
    let mut hits = 0;
    for pattern in &patterns {
        for path in &paths {
            let expected = slow_match(pattern, path);
            assert_eq!(pattern_matches(pattern, path), expected, "{:?} on {:?}", pattern, path);
            if expected {
                hits += 1;
            }
        }
    }
    assert!(hits > 1000);
}
