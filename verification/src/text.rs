//! Cutting text into fields: lines of a file, tokens of a line, segments of a
//! path. All three are the maximal runs of characters between delimiters.

use vstd::prelude::*;
use crate::chars::{chars_of, string_of};

verus! {

/// Whether `c` is white space: the characters with the Unicode property
/// `White_Space`.
pub open spec fn is_space(c: char) -> bool {
    let n = c as u32;
    ||| 0x09 <= n <= 0x0d
    ||| n == 0x20
    ||| n == 0x85
    ||| n == 0xa0
    ||| n == 0x1680
    ||| 0x2000 <= n <= 0x200a
    ||| n == 0x2028
    ||| n == 0x2029
    ||| n == 0x202f
    ||| n == 0x205f
    ||| n == 0x3000
}

/// What separates the fields of a text.
#[derive(Clone, Copy, Debug)]
pub enum Delimiter {
    /// The path separator `/`.
    Slash,
    /// Any white space character.
    Space,
    /// A line feed or a carriage return.
    LineBreak,
}

impl Delimiter {
    /// Whether `c` is a delimiter of this kind.
    pub open spec fn holds(self, c: char) -> bool {
        match self {
            Delimiter::Slash => c == '/',
            Delimiter::Space => is_space(c),
            Delimiter::LineBreak => c == '\n' || c == '\r',
        }
    }

    /// Tests whether `c` is a delimiter of this kind.
    pub fn test(&self, c: char) -> (b: bool)
        ensures
            b == self.holds(c),
    {
        match self {
            Delimiter::Slash => c == '/',
            Delimiter::Space => is_space_char(c),
            Delimiter::LineBreak => c == '\n' || c == '\r',
        }
    }
}

/// Tests whether `c` is white space.
pub fn is_space_char(c: char) -> (b: bool)
    ensures
        b == is_space(c),
{
    let n: u32 = c as u32;
    (0x09 <= n && n <= 0x0d) || n == 0x20 || n == 0x85 || n == 0xa0 || n == 0x1680 || (0x2000 <= n
        && n <= 0x200a) || n == 0x2028 || n == 0x2029 || n == 0x202f || n == 0x205f || n == 0x3000
}

/// The field `s[start..end]`, unless it is empty.
pub open spec fn field(s: Seq<char>, start: int, end: int) -> Seq<Seq<char>> {
    if start < end {
        seq![s.subrange(start, end)]
    } else {
        Seq::empty()
    }
}

/// The fields of `s` that end at or after `i`, where the field that `s[i]`
/// would belong to began at `start`.
pub open spec fn fields_from(s: Seq<char>, d: Delimiter, start: int, i: int) -> Seq<Seq<char>>
    decreases s.len() - i,
{
    if i >= s.len() {
        field(s, start, i)
    } else if d.holds(s[i]) {
        field(s, start, i) + fields_from(s, d, i + 1, i + 1)
    } else {
        fields_from(s, d, start, i + 1)
    }
}

/// The fields of `s`: its maximal runs of characters that are no delimiters,
/// in order. No field is empty.
pub open spec fn fields(s: Seq<char>, d: Delimiter) -> Seq<Seq<char>> {
    fields_from(s, d, 0, 0)
}

/// The character sequences that the vectors of `v` hold.
pub open spec fn views(v: Seq<Vec<char>>) -> Seq<Seq<char>> {
    Seq::new(v.len(), |i: int| v[i]@)
}

/// Whether no character of `s` is a delimiter.
pub open spec fn free_of(s: Seq<char>, d: Delimiter) -> bool {
    forall|i: int| 0 <= i < s.len() ==> !d.holds(#[trigger] s[i])
}

proof fn lemma_fields_from_are_clean(s: Seq<char>, d: Delimiter, start: int, i: int)
    requires
        0 <= start <= i <= s.len(),
        free_of(s.subrange(start, i), d),
    ensures
        forall|k: int|
            0 <= k < fields_from(s, d, start, i).len() ==> {
                &&& (#[trigger] fields_from(s, d, start, i)[k]).len() > 0
                &&& free_of(fields_from(s, d, start, i)[k], d)
            },
    decreases s.len() - i,
{
    let all = fields_from(s, d, start, i);
    if i >= s.len() {
        assert forall|k: int| 0 <= k < all.len() implies {
            &&& (#[trigger] all[k]).len() > 0
            &&& free_of(all[k], d)
        } by {
            assert(all[k] == s.subrange(start, i));
        }
    } else if d.holds(s[i]) {
        assert(s.subrange(i + 1, i + 1) =~= Seq::<char>::empty());
        lemma_fields_from_are_clean(s, d, i + 1, i + 1);
        let head = field(s, start, i);
        let tail = fields_from(s, d, i + 1, i + 1);
        assert(all == head + tail);
        assert forall|k: int| 0 <= k < all.len() implies {
            &&& (#[trigger] all[k]).len() > 0
            &&& free_of(all[k], d)
        } by {
            if k < head.len() {
                assert(all[k] == s.subrange(start, i));
            } else {
                assert(all[k] == tail[k - head.len()]);
            }
        }
    } else {
        let next = s.subrange(start, i + 1);
        assert forall|j: int| 0 <= j < next.len() implies !d.holds(#[trigger] next[j]) by {
            if j < i - start {
                assert(next[j] == s.subrange(start, i)[j]);
            }
        }
        lemma_fields_from_are_clean(s, d, start, i + 1);
        assert(all == fields_from(s, d, start, i + 1));
    }
}

/// Every field of a text is non-empty and holds no delimiter.
pub proof fn lemma_fields_are_clean(s: Seq<char>, d: Delimiter)
    ensures
        forall|k: int|
            0 <= k < fields(s, d).len() ==> {
                &&& (#[trigger] fields(s, d)[k]).len() > 0
                &&& free_of(fields(s, d)[k], d)
            },
{
    assert(s.subrange(0, 0) =~= Seq::<char>::empty());
    lemma_fields_from_are_clean(s, d, 0, 0);
}

/// A text without delimiters is its own single field, and an empty text has
/// none.
pub proof fn lemma_fields_of_clean_text(s: Seq<char>, d: Delimiter)
    requires
        free_of(s, d),
    ensures
        fields(s, d) == field(s, 0, s.len() as int),
{
    lemma_fields_from_of_clean_text(s, d, 0);
}

proof fn lemma_fields_from_of_clean_text(s: Seq<char>, d: Delimiter, i: int)
    requires
        free_of(s, d),
        0 <= i <= s.len(),
    ensures
        fields_from(s, d, 0, i) == field(s, 0, s.len() as int),
    decreases s.len() - i,
{
    if i < s.len() {
        lemma_fields_from_of_clean_text(s, d, i + 1);
    }
}

/// In a text that begins with `before`, the fields found from a place behind
/// `before` are those found from that place in the rest alone.
proof fn lemma_fields_from_behind(
    before: Seq<char>,
    s: Seq<char>,
    d: Delimiter,
    start: int,
    i: int,
)
    requires
        0 <= start <= i <= s.len(),
    ensures
        fields_from(before + s, d, before.len() + start, before.len() + i) == fields_from(
            s,
            d,
            start,
            i,
        ),
    decreases s.len() - i,
{
    let u = before + s;
    let n = before.len() as int;
    assert(start < i ==> u.subrange(n + start, n + i) =~= s.subrange(start, i));
    if i < s.len() {
        assert(u[n + i] == s[i]);
        if d.holds(s[i]) {
            lemma_fields_from_behind(before, s, d, i + 1, i + 1);
        } else {
            lemma_fields_from_behind(before, s, d, start, i + 1);
        }
    }
}

proof fn lemma_fields_from_of_joined(
    a: Seq<char>,
    c: char,
    b: Seq<char>,
    d: Delimiter,
    start: int,
    i: int,
)
    requires
        d.holds(c),
        0 <= start <= i <= a.len(),
    ensures
        fields_from(a + seq![c] + b, d, start, i) == fields_from(a, d, start, i) + fields(b, d),
    decreases a.len() - i,
{
    let u = a + seq![c] + b;
    let n = a.len() as int;
    assert(start < i ==> u.subrange(start, i) =~= a.subrange(start, i));
    if i == n {
        assert(u[i] == c);
        lemma_fields_from_behind(a + seq![c], b, d, 0, 0);
    } else {
        assert(u[i] == a[i]);
        if d.holds(a[i]) {
            lemma_fields_from_of_joined(a, c, b, d, i + 1, i + 1);
            assert(field(a, start, i) + (fields_from(a, d, i + 1, i + 1) + fields(b, d)) =~= (field(
                a,
                start,
                i,
            ) + fields_from(a, d, i + 1, i + 1)) + fields(b, d));
        } else {
            lemma_fields_from_of_joined(a, c, b, d, start, i + 1);
        }
    }
}

/// The fields of two texts joined by a delimiter are the fields of the first
/// followed by the fields of the second.
pub proof fn lemma_fields_of_joined(a: Seq<char>, c: char, b: Seq<char>, d: Delimiter)
    requires
        d.holds(c),
    ensures
        fields(a + seq![c] + b, d) == fields(a, d) + fields(b, d),
{
    lemma_fields_from_of_joined(a, c, b, d, 0, 0);
}

/// Whether `piece` is a non-empty stretch of `s`.
pub open spec fn is_piece_of(piece: Seq<char>, s: Seq<char>) -> bool {
    exists|a: int, b: int| 0 <= a < b <= s.len() && piece == #[trigger] s.subrange(a, b)
}

proof fn lemma_fields_from_are_pieces(s: Seq<char>, d: Delimiter, start: int, i: int)
    requires
        0 <= start <= i <= s.len(),
    ensures
        forall|k: int|
            0 <= k < fields_from(s, d, start, i).len() ==> is_piece_of(
                #[trigger] fields_from(s, d, start, i)[k],
                s,
            ),
    decreases s.len() - i,
{
    let all = fields_from(s, d, start, i);
    if i >= s.len() {
        assert forall|k: int| 0 <= k < all.len() implies is_piece_of(#[trigger] all[k], s) by {
            assert(all[k] == s.subrange(start, i));
        }
    } else if d.holds(s[i]) {
        lemma_fields_from_are_pieces(s, d, i + 1, i + 1);
        let head = field(s, start, i);
        let tail = fields_from(s, d, i + 1, i + 1);
        assert(all == head + tail);
        assert forall|k: int| 0 <= k < all.len() implies is_piece_of(#[trigger] all[k], s) by {
            if k < head.len() {
                assert(all[k] == s.subrange(start, i));
            } else {
                assert(all[k] == tail[k - head.len()]);
            }
        }
    } else {
        lemma_fields_from_are_pieces(s, d, start, i + 1);
        assert(all == fields_from(s, d, start, i + 1));
    }
}

/// Every field of a text is a stretch of the text.
pub proof fn lemma_fields_are_pieces(s: Seq<char>, d: Delimiter)
    ensures
        forall|k: int|
            0 <= k < fields(s, d).len() ==> is_piece_of(#[trigger] fields(s, d)[k], s),
{
    lemma_fields_from_are_pieces(s, d, 0, 0);
}

/// Copies `s[start..end]`.
fn copy_range(s: &Vec<char>, start: usize, end: usize) -> (v: Vec<char>)
    requires
        start <= end <= s@.len(),
    ensures
        v@ == s@.subrange(start as int, end as int),
{
    let mut v: Vec<char> = Vec::new();
    let mut i: usize = start;
    while i < end
        invariant
            start <= i <= end <= s@.len(),
            v@ == s@.subrange(start as int, i as int),
        decreases end - i,
    {
        v.push(s[i]);
        i += 1;
        assert(s@.subrange(start as int, i as int) =~= s@.subrange(start as int, i - 1).push(
            s@[i - 1],
        ));
    }
    v
}

/// Cuts `s` into its fields.
pub fn split_fields(s: &Vec<char>, d: Delimiter) -> (out: Vec<Vec<char>>)
    ensures
        views(out@) == fields(s@, d),
{
    let mut out: Vec<Vec<char>> = Vec::new();
    let mut start: usize = 0;
    let mut i: usize = 0;
    assert(views(out@) =~= Seq::<Seq<char>>::empty());
    while i < s.len()
        invariant
            0 <= start <= i <= s@.len(),
            views(out@) + fields_from(s@, d, start as int, i as int) == fields(s@, d),
        decreases s@.len() - i,
    {
        if d.test(s[i]) {
            let ghost before = views(out@);
            if start < i {
                let piece = copy_range(s, start, i);
                out.push(piece);
                assert(views(out@) =~= before + field(s@, start as int, i as int));
            } else {
                assert(before + field(s@, start as int, i as int) =~= before);
            }
            assert(views(out@) + fields_from(s@, d, i + 1, i + 1) =~= before + (field(
                s@,
                start as int,
                i as int,
            ) + fields_from(s@, d, i + 1, i + 1)));
            start = i + 1;
        }
        i += 1;
    }
    let ghost before = views(out@);
    if start < i {
        let piece = copy_range(s, start, i);
        out.push(piece);
        assert(views(out@) =~= before + field(s@, start as int, i as int));
    } else {
        assert(before + field(s@, start as int, i as int) =~= before);
    }
    out
}

/// `s` without the white space at its start.
pub open spec fn trimmed_start(s: Seq<char>) -> Seq<char>
    decreases s.len(),
{
    if s.len() > 0 && is_space(s.first()) {
        trimmed_start(s.drop_first())
    } else {
        s
    }
}

/// `s` without the white space at its end.
pub open spec fn trimmed_end(s: Seq<char>) -> Seq<char>
    decreases s.len(),
{
    if s.len() > 0 && is_space(s.last()) {
        trimmed_end(s.drop_last())
    } else {
        s
    }
}

/// `s` without the white space at its start and at its end.
pub open spec fn trimmed(s: Seq<char>) -> Seq<char> {
    trimmed_end(trimmed_start(s))
}

/// Where `s[a..]` begins with `n` white space characters and then ends or
/// goes on otherwise, trimming its start leaves `s[a + n..]`.
proof fn lemma_trimmed_start(s: Seq<char>, a: int)
    requires
        0 <= a <= s.len(),
        forall|i: int| 0 <= i < a ==> is_space(#[trigger] s[i]),
        a == s.len() || !is_space(s[a]),
    ensures
        trimmed_start(s) == s.skip(a),
    decreases a,
{
    if a == 0 {
        assert(s.skip(0) =~= s);
    } else {
        let rest = s.drop_first();
        assert forall|i: int| 0 <= i < a - 1 implies is_space(#[trigger] rest[i]) by {
            assert(rest[i] == s[i + 1]);
        }
        lemma_trimmed_start(rest, a - 1);
        assert(rest.skip(a - 1) =~= s.skip(a));
    }
}

proof fn lemma_trimmed_end(s: Seq<char>, b: int)
    requires
        0 <= b <= s.len(),
        forall|i: int| b <= i < s.len() ==> is_space(#[trigger] s[i]),
        b == 0 || !is_space(s[b - 1]),
    ensures
        trimmed_end(s) == s.take(b),
    decreases s.len() - b,
{
    if b == s.len() {
        assert(s.take(b) =~= s);
    } else {
        let rest = s.drop_last();
        assert forall|i: int| b <= i < rest.len() implies is_space(#[trigger] rest[i]) by {
            assert(rest[i] == s[i]);
        }
        lemma_trimmed_end(rest, b);
        assert(rest.take(b) =~= s.take(b));
    }
}

/// Trimming changes nothing in a text that neither begins nor ends with
/// white space, and leaves nothing of one that is all white space.
pub proof fn lemma_trimmed_of_plain_and_blank(s: Seq<char>)
    ensures
        (s.len() == 0 || (!is_space(s.first()) && !is_space(s.last()))) ==> trimmed(s) == s,
        (forall|i: int| 0 <= i < s.len() ==> is_space(#[trigger] s[i])) ==> trimmed(s).len() == 0,
{
    if forall|i: int| 0 <= i < s.len() ==> is_space(#[trigger] s[i]) {
        lemma_trimmed_start(s, s.len() as int);
    }
}

/// Trims `s`: takes the white space off its start and its end.
pub fn trim(s: &str) -> (out: String)
    ensures
        out@ == trimmed(s@),
{
    let v = chars_of(s);
    let mut a: usize = 0;
    while a < v.len() && is_space_char(v[a])
        invariant
            a <= v@.len(),
            forall|i: int| 0 <= i < a ==> is_space(#[trigger] v@[i]),
        decreases v@.len() - a,
    {
        a += 1;
    }
    let mut b: usize = v.len();
    while b > a && is_space_char(v[b - 1])
        invariant
            a <= b <= v@.len(),
            forall|i: int| b <= i < v@.len() ==> is_space(#[trigger] v@[i]),
        decreases b,
    {
        b -= 1;
    }
    proof {
        lemma_trimmed_start(v@, a as int);
        let rest = v@.skip(a as int);
        assert forall|i: int| b - a <= i < rest.len() implies is_space(#[trigger] rest[i]) by {
            assert(rest[i] == v@[i + a]);
        }
        lemma_trimmed_end(rest, b - a);
        assert(rest.take(b - a) =~= v@.subrange(a as int, b as int));
    }
    string_of(&v, a, b)
}

} // verus!
