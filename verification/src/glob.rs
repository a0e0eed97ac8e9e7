//! Matching a path against a pattern.
//!
//! A pattern and a path are both read as sequences of segments, the runs of
//! characters between `/`. Within a segment `*` stands for any run of
//! characters and `?` for exactly one; a segment that is exactly `**` stands
//! for any number of whole segments, none included. Every other character
//! stands for itself, and letters match by case.

use vstd::prelude::*;
use crate::chars::chars_of;
use crate::text::{
    fields, is_piece_of, lemma_fields_are_pieces, lemma_fields_of_joined, split_fields, views,
    Delimiter,
};

verus! {

/// Whether the characters `p[i..]` of a pattern segment match the characters
/// `s[j..]` of a path segment.
pub open spec fn wild_from(p: Seq<char>, i: int, s: Seq<char>, j: int) -> bool
    decreases p.len() - i, s.len() - j,
{
    if i >= p.len() {
        j >= s.len()
    } else if p[i] == '*' {
        wild_from(p, i + 1, s, j) || (j < s.len() && wild_from(p, i, s, j + 1))
    } else if p[i] == '?' {
        j < s.len() && wild_from(p, i + 1, s, j + 1)
    } else {
        j < s.len() && s[j] == p[i] && wild_from(p, i + 1, s, j + 1)
    }
}

/// Whether the pattern segment `p` matches the path segment `s`.
pub open spec fn segment_matches(p: Seq<char>, s: Seq<char>) -> bool {
    wild_from(p, 0, s, 0)
}

/// Whether a pattern segment is `**`, which matches whole segments.
pub open spec fn is_deep(p: Seq<char>) -> bool {
    p.len() == 2 && p[0] == '*' && p[1] == '*'
}

/// Whether a pattern segment holds no wildcard.
pub open spec fn is_literal(p: Seq<char>) -> bool {
    forall|i: int| 0 <= i < p.len() ==> #[trigger] p[i] != '*' && p[i] != '?'
}

/// Whether the pattern segments `ps[i..]` match the path segments `ss[j..]`.
/// When the pattern is used up, `exact` says whether a path that is used up
/// too is matched, and `beneath` whether a path with segments left is.
pub open spec fn segments_from(
    ps: Seq<Seq<char>>,
    i: int,
    ss: Seq<Seq<char>>,
    j: int,
    exact: bool,
    beneath: bool,
) -> bool
    decreases ps.len() - i, ss.len() - j,
{
    if i >= ps.len() {
        if j >= ss.len() {
            exact
        } else {
            beneath
        }
    } else if is_deep(ps[i]) {
        segments_from(ps, i + 1, ss, j, exact, beneath) || (j < ss.len() && segments_from(
            ps,
            i,
            ss,
            j + 1,
            exact,
            beneath,
        ))
    } else {
        j < ss.len() && segment_matches(ps[i], ss[j]) && segments_from(
            ps,
            i + 1,
            ss,
            j + 1,
            exact,
            beneath,
        )
    }
}

/// Whether a pattern is tied to the root of the repository: it begins with `/`.
pub open spec fn is_anchored(pattern: Seq<char>) -> bool {
    pattern.len() > 0 && pattern[0] == '/'
}

/// Whether a pattern names a directory: it ends with `/`.
pub open spec fn is_directory(pattern: Seq<char>) -> bool {
    pattern.len() > 0 && pattern.last() == '/'
}

/// Whether a pattern also matches what lies beneath the entry it names: a
/// directory pattern does, and so does one whose last segment is a plain name.
pub open spec fn covers_beneath(pattern: Seq<char>) -> bool {
    let ps = fields(pattern, Delimiter::Slash);
    is_directory(pattern) || (ps.len() > 0 && is_literal(ps.last()))
}

/// Whether the pattern matches the path segments `ss[j..]`.
pub open spec fn matches_at(pattern: Seq<char>, ss: Seq<Seq<char>>, j: int) -> bool {
    segments_from(
        fields(pattern, Delimiter::Slash),
        0,
        ss,
        j,
        !is_directory(pattern),
        covers_beneath(pattern),
    )
}

/// Whether `pattern` matches `path`.
///
/// An anchored pattern is matched from the first segment of the path, any
/// other from any segment. A directory pattern matches the paths beneath the
/// directory and not an entry of that very name. The empty pattern matches
/// nothing. Empty segments, such as a leading `/` of the path leaves, do not
/// count.
pub open spec fn is_match(pattern: Seq<char>, path: Seq<char>) -> bool {
    let ss = fields(path, Delimiter::Slash);
    &&& pattern.len() > 0
    &&& if is_anchored(pattern) {
        matches_at(pattern, ss, 0)
    } else {
        exists|j: int| 0 <= j <= ss.len() && matches_at(pattern, ss, j)
    }
}

/// Tests whether a pattern segment is `**`.
pub fn is_deep_segment(p: &Vec<char>) -> (b: bool)
    ensures
        b == is_deep(p@),
{
    p.len() == 2 && p[0] == '*' && p[1] == '*'
}

/// Tests whether a pattern segment holds no wildcard.
pub fn is_literal_segment(p: &Vec<char>) -> (b: bool)
    ensures
        b == is_literal(p@),
{
    let mut i: usize = 0;
    while i < p.len()
        invariant
            i <= p@.len(),
            forall|k: int| 0 <= k < i ==> #[trigger] p@[k] != '*' && p@[k] != '?',
        decreases p@.len() - i,
    {
        if p[i] == '*' || p[i] == '?' {
            return false;
        }
        i += 1;
    }
    true
}

/// A vector of `n` times `value`.
fn filled(n: usize, value: bool) -> (row: Vec<bool>)
    ensures
        row@.len() == n,
        forall|k: int| 0 <= k < n ==> row@[k] == value,
{
    let mut row: Vec<bool> = Vec::new();
    while row.len() < n
        invariant
            row@.len() <= n,
            forall|k: int| 0 <= k < row@.len() ==> row@[k] == value,
        decreases n - row@.len(),
    {
        row.push(value);
    }
    row
}

/// Tests whether the pattern segment `p` matches the path segment `s`.
///
/// The table `row` holds, for the part `p[i..]` of the pattern, whether it
/// matches `s[j..]`, for each `j` below the length of `s`; `at_end` holds the
/// same for the empty rest of `s`.
pub fn segment_matches_exec(p: &Vec<char>, s: &Vec<char>) -> (b: bool)
    ensures
        b == segment_matches(p@, s@),
{
    let n = s.len();
    let mut row = filled(n, false);
    let mut at_end = true;
    let mut i: usize = p.len();
    while i > 0
        invariant
            i <= p@.len(),
            n == s@.len(),
            row@.len() == n,
            forall|t: int| 0 <= t < n ==> row@[t] == wild_from(p@, i as int, s@, t),
            at_end == wild_from(p@, i as int, s@, n as int),
        decreases i,
    {
        i -= 1;
        let c = p[i];
        let new_end = c == '*' && at_end;
        let mut old_next = at_end;
        let mut new_next = new_end;
        let mut k: usize = n;
        while k > 0
            invariant
                k <= n,
                i < p@.len(),
                c == p@[i as int],
                n == s@.len(),
                row@.len() == n,
                forall|t: int| 0 <= t < k ==> row@[t] == wild_from(p@, i + 1, s@, t),
                forall|t: int| k <= t < n ==> row@[t] == wild_from(p@, i as int, s@, t),
                old_next == wild_from(p@, i + 1, s@, k as int),
                new_next == wild_from(p@, i as int, s@, k as int),
            decreases k,
        {
            k -= 1;
            let old_here = row[k];
            let new_here = if c == '*' {
                old_here || new_next
            } else if c == '?' {
                old_next
            } else {
                s[k] == c && old_next
            };
            row.set(k, new_here);
            old_next = old_here;
            new_next = new_here;
        }
        at_end = new_end;
    }
    if n == 0 {
        at_end
    } else {
        row[0]
    }
}

/// Tests whether the pattern segments `ps` match the path segments `ss[j..]`,
/// for every `j` at once: the result holds the answer for each `j` below the
/// length of `ss`, and then the answer for the empty rest.
fn segments_table(ps: &Vec<Vec<char>>, ss: &Vec<Vec<char>>, exact: bool, beneath: bool) -> (out: (
    Vec<bool>,
    bool,
))
    ensures
        out.0@.len() == ss@.len(),
        forall|t: int|
            0 <= t < ss@.len() ==> out.0@[t] == segments_from(
                views(ps@),
                0,
                views(ss@),
                t,
                exact,
                beneath,
            ),
        out.1 == segments_from(views(ps@), 0, views(ss@), ss@.len() as int, exact, beneath),
{
    let n = ss.len();
    let ghost pv = views(ps@);
    let ghost sv = views(ss@);
    let mut row = filled(n, beneath);
    let mut at_end = exact;
    let mut i: usize = ps.len();
    while i > 0
        invariant
            i <= ps@.len(),
            n == ss@.len(),
            pv == views(ps@),
            sv == views(ss@),
            row@.len() == n,
            forall|t: int|
                0 <= t < n ==> row@[t] == segments_from(pv, i as int, sv, t, exact, beneath),
            at_end == segments_from(pv, i as int, sv, n as int, exact, beneath),
        decreases i,
    {
        i -= 1;
        let deep = is_deep_segment(&ps[i]);
        assert(pv[i as int] == ps@[i as int]@);
        let new_end = deep && at_end;
        let mut old_next = at_end;
        let mut new_next = new_end;
        let mut k: usize = n;
        while k > 0
            invariant
                k <= n,
                i < ps@.len(),
                deep == is_deep(pv[i as int]),
                pv[i as int] == ps@[i as int]@,
                n == ss@.len(),
                pv == views(ps@),
                sv == views(ss@),
                row@.len() == n,
                forall|t: int|
                    0 <= t < k ==> row@[t] == segments_from(pv, i + 1, sv, t, exact, beneath),
                forall|t: int|
                    k <= t < n ==> row@[t] == segments_from(pv, i as int, sv, t, exact, beneath),
                old_next == segments_from(pv, i + 1, sv, k as int, exact, beneath),
                new_next == segments_from(pv, i as int, sv, k as int, exact, beneath),
            decreases k,
        {
            k -= 1;
            let old_here = row[k];
            assert(sv[k as int] == ss@[k as int]@);
            let new_here = if deep {
                old_here || new_next
            } else {
                old_next && segment_matches_exec(&ps[i], &ss[k])
            };
            row.set(k, new_here);
            old_next = old_here;
            new_next = new_here;
        }
        at_end = new_end;
    }
    (row, at_end)
}

/// Tests whether `pattern` matches the path whose segments are `ss`.
pub fn matches_segments(pattern: &Vec<char>, ss: &Vec<Vec<char>>) -> (b: bool)
    ensures
        b == (pattern@.len() > 0 && if is_anchored(pattern@) {
            matches_at(pattern@, views(ss@), 0)
        } else {
            exists|j: int| 0 <= j <= ss@.len() && matches_at(pattern@, views(ss@), j)
        }),
{
    if pattern.len() == 0 {
        return false;
    }
    let anchored = pattern[0] == '/';
    let directory = pattern[pattern.len() - 1] == '/';
    let ps = split_fields(pattern, Delimiter::Slash);
    let beneath = directory || (ps.len() > 0 && is_literal_segment(&ps[ps.len() - 1]));
    let n = ss.len();
    let ghost sv = views(ss@);
    proof {
        assert(directory == is_directory(pattern@));
        assert(views(ps@).len() == ps@.len());
        assert(ps@.len() > 0 ==> views(ps@).last() == ps@[ps@.len() - 1]@);
        assert(beneath == covers_beneath(pattern@));
        assert(sv.len() == n);
    }
    let (row, at_end) = segments_table(&ps, ss, !directory, beneath);
    assert(at_end == matches_at(pattern@, sv, n as int));
    assert forall|t: int| 0 <= t < n implies row@[t] == matches_at(pattern@, sv, t) by {}
    if anchored {
        if n == 0 {
            at_end
        } else {
            row[0]
        }
    } else {
        let mut j: usize = 0;
        while j < n
            invariant
                j <= n,
                n == ss@.len(),
                sv == views(ss@),
                pattern@.len() > 0,
                !is_anchored(pattern@),
                row@.len() == n,
                forall|t: int| 0 <= t < n ==> row@[t] == matches_at(pattern@, sv, t),
                forall|t: int| 0 <= t < j ==> !matches_at(pattern@, sv, t),
            decreases n - j,
        {
            if row[j] {
                assert(0 <= j <= ss@.len() && matches_at(pattern@, sv, j as int));
                return true;
            }
            j += 1;
        }
        assert(at_end == (exists|t: int| 0 <= t <= ss@.len() && matches_at(pattern@, sv, t))) by {
            if at_end {
                assert(0 <= n <= ss@.len() && matches_at(pattern@, sv, n as int));
            }
        }
        at_end
    }
}

/// Tests whether `pattern` matches `path`.
pub fn pattern_matches(pattern: &str, path: &str) -> (b: bool)
    ensures
        b == is_match(pattern@, path@),
{
    let pattern_chars = chars_of(pattern);
    let path_chars = chars_of(path);
    let ss = split_fields(&path_chars, Delimiter::Slash);
    matches_segments(&pattern_chars, &ss)
}

proof fn lemma_literal_from(p: Seq<char>, i: int, s: Seq<char>, j: int)
    requires
        is_literal(p),
        0 <= i <= p.len(),
        0 <= j <= s.len(),
    ensures
        wild_from(p, i, s, j) <==> p.skip(i) == s.skip(j),
    decreases p.len() - i,
{
    if i >= p.len() {
        assert(p.skip(i).len() == 0);
        assert(j >= s.len() ==> s.skip(j) =~= p.skip(i));
        assert(j < s.len() ==> s.skip(j).len() > 0);
    } else if j >= s.len() {
        assert(s.skip(j).len() == 0);
        assert(p.skip(i).len() > 0);
    } else {
        lemma_literal_from(p, i + 1, s, j + 1);
        assert(p[i] != '*' && p[i] != '?');
        if p.skip(i) == s.skip(j) {
            assert(p[i] == p.skip(i)[0]);
            assert(s[j] == s.skip(j)[0]);
            assert(p.skip(i + 1) =~= p.skip(i).skip(1));
            assert(s.skip(j + 1) =~= s.skip(j).skip(1));
        }
        if p[i] == s[j] && p.skip(i + 1) == s.skip(j + 1) {
            assert(p.skip(i) =~= seq![p[i]] + p.skip(i + 1));
            assert(s.skip(j) =~= seq![s[j]] + s.skip(j + 1));
        }
    }
}

/// A segment without wildcards matches the segment that is equal to it, and
/// no other: a name does not match a longer name that begins with it.
pub proof fn lemma_literal_matches_itself_only(p: Seq<char>, s: Seq<char>)
    requires
        is_literal(p),
    ensures
        segment_matches(p, s) <==> p == s,
{
    lemma_literal_from(p, 0, s, 0);
    assert(p.skip(0) =~= p);
    assert(s.skip(0) =~= s);
}

proof fn lemma_star_from(s: Seq<char>, j: int)
    requires
        0 <= j <= s.len(),
    ensures
        wild_from(seq!['*'], 0, s, j),
    decreases s.len() - j,
{
    if j < s.len() {
        lemma_star_from(s, j + 1);
    } else {
        assert(wild_from(seq!['*'], 1, s, j));
    }
}

/// `*` alone matches every segment, the empty one too, and `?` alone matches
/// the segments of exactly one character.
pub proof fn lemma_wildcards_alone(s: Seq<char>)
    ensures
        segment_matches(seq!['*'], s),
        segment_matches(seq!['?'], s) <==> s.len() == 1,
{
    lemma_star_from(s, 0);
    assert(wild_from(seq!['?'], 1, s, 1) <==> 1 >= s.len());
}

proof fn lemma_segments_from_reach_beneath(
    ps: Seq<Seq<char>>,
    i: int,
    ss: Seq<Seq<char>>,
    more: Seq<Seq<char>>,
    j: int,
    exact: bool,
)
    requires
        0 <= i,
        0 <= j <= ss.len(),
        segments_from(ps, i, ss, j, exact, true),
    ensures
        segments_from(ps, i, ss + more, j, exact, true),
    decreases ps.len() - i, ss.len() - j,
{
    if i >= ps.len() {
    } else if is_deep(ps[i]) {
        if segments_from(ps, i + 1, ss, j, exact, true) {
            lemma_segments_from_reach_beneath(ps, i + 1, ss, more, j, exact);
        } else {
            lemma_segments_from_reach_beneath(ps, i, ss, more, j + 1, exact);
        }
    } else {
        assert((ss + more)[j] == ss[j]);
        lemma_segments_from_reach_beneath(ps, i + 1, ss, more, j + 1, exact);
    }
}

proof fn lemma_segments_from_behind(
    ps: Seq<Seq<char>>,
    i: int,
    above: Seq<Seq<char>>,
    ss: Seq<Seq<char>>,
    j: int,
    exact: bool,
    beneath: bool,
)
    requires
        0 <= i,
        0 <= j <= ss.len(),
    ensures
        segments_from(ps, i, above + ss, above.len() + j, exact, beneath) == segments_from(
            ps,
            i,
            ss,
            j,
            exact,
            beneath,
        ),
    decreases ps.len() - i, ss.len() - j,
{
    if i >= ps.len() {
    } else if is_deep(ps[i]) {
        lemma_segments_from_behind(ps, i + 1, above, ss, j, exact, beneath);
        if j < ss.len() {
            lemma_segments_from_behind(ps, i, above, ss, j + 1, exact, beneath);
        }
    } else if j < ss.len() {
        assert((above + ss)[above.len() + j] == ss[j]);
        lemma_segments_from_behind(ps, i + 1, above, ss, j + 1, exact, beneath);
    }
}

/// A pattern that names a directory, or ends in a plain name, matches every
/// path beneath a path that it matches.
pub proof fn lemma_match_reaches_beneath(pattern: Seq<char>, path: Seq<char>, more: Seq<char>)
    requires
        covers_beneath(pattern),
        is_match(pattern, path),
    ensures
        is_match(pattern, path + seq!['/'] + more),
{
    let ps = fields(pattern, Delimiter::Slash);
    let ss = fields(path, Delimiter::Slash);
    let extra = fields(more, Delimiter::Slash);
    lemma_fields_of_joined(path, '/', more, Delimiter::Slash);
    if is_anchored(pattern) {
        lemma_segments_from_reach_beneath(ps, 0, ss, extra, 0, !is_directory(pattern));
    } else {
        let j = choose|j: int| 0 <= j <= ss.len() && matches_at(pattern, ss, j);
        lemma_segments_from_reach_beneath(ps, 0, ss, extra, j, !is_directory(pattern));
        assert(0 <= j <= (ss + extra).len() && matches_at(pattern, ss + extra, j));
    }
}

/// A pattern that is not anchored matches at any depth: what it matches, it
/// also matches beneath any directory.
pub proof fn lemma_match_at_any_depth(pattern: Seq<char>, above: Seq<char>, path: Seq<char>)
    requires
        !is_anchored(pattern),
        is_match(pattern, path),
    ensures
        is_match(pattern, above + seq!['/'] + path),
{
    let ps = fields(pattern, Delimiter::Slash);
    let ss = fields(path, Delimiter::Slash);
    let up = fields(above, Delimiter::Slash);
    lemma_fields_of_joined(above, '/', path, Delimiter::Slash);
    let j = choose|j: int| 0 <= j <= ss.len() && matches_at(pattern, ss, j);
    lemma_segments_from_behind(
        ps,
        0,
        up,
        ss,
        j,
        !is_directory(pattern),
        covers_beneath(pattern),
    );
    let k = up.len() + j;
    assert(0 <= k <= (up + ss).len() && matches_at(pattern, up + ss, k));
}

/// An anchored pattern is matched from the first segment of the path and
/// nowhere else, and a directory pattern never matches a path that it uses
/// up: it matches only what lies beneath the directory.
pub proof fn lemma_anchor_and_directory(pattern: Seq<char>, path: Seq<char>)
    ensures
        is_anchored(pattern) ==> (is_match(pattern, path) <==> matches_at(
            pattern,
            fields(path, Delimiter::Slash),
            0,
        )),
        is_directory(pattern) ==> !matches_at(
            pattern,
            fields(path, Delimiter::Slash),
            fields(path, Delimiter::Slash).len() as int,
        ),
{
    let ps = fields(pattern, Delimiter::Slash);
    let ss = fields(path, Delimiter::Slash);
    if is_directory(pattern) {
        lemma_directory_needs_more(ps, 0, ss, covers_beneath(pattern));
    }
}

proof fn lemma_directory_needs_more(ps: Seq<Seq<char>>, i: int, ss: Seq<Seq<char>>, beneath: bool)
    requires
        0 <= i,
    ensures
        !segments_from(ps, i, ss, ss.len() as int, false, beneath),
    decreases ps.len() - i,
{
    if i < ps.len() && is_deep(ps[i]) {
        lemma_directory_needs_more(ps, i + 1, ss, beneath);
    }
}

/// A segment `**` matches any number of whole segments, none included: where
/// the rest of the pattern matches from segment `k` on, the pattern with `**`
/// before it matches from any segment up to `k`.
pub proof fn lemma_deep_spans_segments(
    ps: Seq<Seq<char>>,
    i: int,
    ss: Seq<Seq<char>>,
    j: int,
    k: int,
    exact: bool,
    beneath: bool,
)
    requires
        0 <= i < ps.len(),
        is_deep(ps[i]),
        0 <= j <= k <= ss.len(),
        segments_from(ps, i + 1, ss, k, exact, beneath),
    ensures
        segments_from(ps, i, ss, j, exact, beneath),
    decreases k - j,
{
    if j < k {
        lemma_deep_spans_segments(ps, i, ss, j + 1, k, exact, beneath);
    }
}

/// Whether a text holds no wildcard.
pub open spec fn is_plain(s: Seq<char>) -> bool {
    forall|i: int| 0 <= i < s.len() ==> #[trigger] s[i] != '*' && s[i] != '?'
}

/// The segments of a text without wildcards are without wildcards.
proof fn lemma_segments_of_plain_text(s: Seq<char>)
    requires
        is_plain(s),
    ensures
        forall|k: int|
            0 <= k < fields(s, Delimiter::Slash).len() ==> is_literal(
                #[trigger] fields(s, Delimiter::Slash)[k],
            ),
{
    lemma_fields_are_pieces(s, Delimiter::Slash);
    let segments = fields(s, Delimiter::Slash);
    assert forall|k: int| 0 <= k < segments.len() implies is_literal(#[trigger] segments[k]) by {
        assert(is_piece_of(segments[k], s));
        let (a, b) = choose|a: int, b: int|
            0 <= a < b <= s.len() && segments[k] == #[trigger] s.subrange(a, b);
        assert forall|i: int| 0 <= i < segments[k].len() implies #[trigger] segments[k][i] != '*'
            && segments[k][i] != '?' by {
            assert(segments[k][i] == s[a + i]);
        }
    }
}

/// Plain segments match themselves, one by one, and what follows them lies
/// beneath.
proof fn lemma_plain_segments_match_themselves(
    ps: Seq<Seq<char>>,
    more: Seq<Seq<char>>,
    i: int,
    exact: bool,
    beneath: bool,
)
    requires
        0 <= i <= ps.len(),
        forall|k: int| 0 <= k < ps.len() ==> is_literal(#[trigger] ps[k]),
    ensures
        segments_from(ps, i, ps + more, i, exact, beneath) == if more.len() == 0 {
            exact
        } else {
            beneath
        },
    decreases ps.len() - i,
{
    if i < ps.len() {
        assert(is_literal(ps[i]));
        assert(!is_deep(ps[i])) by {
            if is_deep(ps[i]) {
                assert(ps[i][0] == '*');
            }
        }
        assert((ps + more)[i] == ps[i]);
        lemma_literal_matches_itself_only(ps[i], ps[i]);
        lemma_plain_segments_match_themselves(ps, more, i + 1, exact, beneath);
    }
}

/// A path without wildcards, written as a pattern, matches itself.
pub proof fn lemma_plain_path_matches_itself(path: Seq<char>)
    requires
        is_plain(path),
        path.len() > 0,
        path.last() != '/',
    ensures
        is_match(path, path),
{
    let ps = fields(path, Delimiter::Slash);
    lemma_segments_of_plain_text(path);
    lemma_plain_segments_match_themselves(ps, Seq::empty(), 0, true, covers_beneath(path));
    assert(ps + Seq::<Seq<char>>::empty() =~= ps);
    assert(matches_at(path, ps, 0));
}

/// A directory pattern without wildcards matches every path that begins
/// with the segments of the directory and goes on beneath it.
pub proof fn lemma_directory_matches_what_is_beneath(dir: Seq<char>, rest: Seq<char>)
    requires
        is_plain(dir),
        fields(rest, Delimiter::Slash).len() > 0,
    ensures
        is_match(dir + seq!['/'], dir + seq!['/'] + rest),
{
    let pattern = dir + seq!['/'];
    let ds = fields(dir, Delimiter::Slash);
    let more = fields(rest, Delimiter::Slash);
    lemma_fields_of_joined(dir, '/', Seq::empty(), Delimiter::Slash);
    lemma_fields_of_joined(dir, '/', rest, Delimiter::Slash);
    assert(pattern + Seq::<char>::empty() =~= pattern);
    assert(fields(Seq::<char>::empty(), Delimiter::Slash) =~= Seq::<Seq<char>>::empty());
    assert(ds + Seq::<Seq<char>>::empty() =~= ds);
    assert(fields(pattern, Delimiter::Slash) == ds);
    assert(pattern.last() == '/');
    lemma_segments_of_plain_text(dir);
    lemma_plain_segments_match_themselves(ds, more, 0, false, true);
    assert(matches_at(pattern, ds + more, 0));
}

} // verus!
