//! What is reported of each path that was asked about, and how the run ends.
//!
//! Each path gives one line: the path, filled with spaces up to a fixed
//! column, and then its owners, or a mark where it has none. The run fails as
//! soon as one path has no owner.

use vstd::prelude::*;
use vstd::string::StringExecFns;
use crate::chars::chars_of;
use crate::resolve::{resolve, resolved, ResolutionResult};
use crate::rules::{texts, RuleModel, RuleSet};

verus! {

/// The column at which the owners begin, where the path is short enough.
pub const COLUMN: usize = 40;

/// `path`, followed by as many spaces as it takes to reach `width`
/// characters.
pub open spec fn padded(path: Seq<char>, width: nat) -> Seq<char> {
    if path.len() >= width {
        path
    } else {
        path + Seq::new((width - path.len()) as nat, |i: int| ' ')
    }
}

/// The items, with `separator` between each two of them.
pub open spec fn joined(items: Seq<Seq<char>>, separator: Seq<char>) -> Seq<char>
    decreases items.len(),
{
    if items.len() == 0 {
        Seq::empty()
    } else if items.len() == 1 {
        items[0]
    } else {
        joined(items.drop_last(), separator) + separator + items.last()
    }
}

/// What is shown in place of the owners: their names with `, ` between them,
/// or the mark of a path without owner.
pub open spec fn owners_text(r: Option<Seq<Seq<char>>>) -> Seq<char> {
    match r {
        None => "(unowned)"@,
        Some(owners) => joined(owners, ", "@),
    }
}

/// The line that reports the owners of a path.
pub open spec fn report_line(path: Seq<char>, r: Option<Seq<Seq<char>>>) -> Seq<char> {
    padded(path, COLUMN as nat) + seq![' '] + owners_text(r)
}

/// Whether rule set `rules` leaves one of `paths` without owner.
pub open spec fn some_unowned(rules: Seq<RuleModel>, paths: Seq<String>) -> bool {
    exists|i: int| 0 <= i < paths.len() && resolved(rules, #[trigger] paths[i]@) is None
}

/// Joins the owners with `, `.
pub fn join_owners(owners: &Vec<String>) -> (out: String)
    ensures
        out@ == joined(texts(owners@), ", "@),
{
    let mut out = String::new();
    let mut i: usize = 0;
    let ghost all = texts(owners@);
    assert(all.take(0) =~= Seq::<Seq<char>>::empty());
    while i < owners.len()
        invariant
            i <= owners@.len(),
            all == texts(owners@),
            out@ == joined(all.take(i as int), ", "@),
        decreases owners@.len() - i,
    {
        if i > 0 {
            out.append(", ");
        }
        out.append(owners[i].as_str());
        proof {
            let next = all.take(i + 1);
            assert(next.drop_last() =~= all.take(i as int));
            assert(next.last() == owners@[i as int]@);
            if i == 0 {
                assert(out@ =~= next[0]);
            }
        }
        i += 1;
    }
    assert(all.take(i as int) =~= all);
    out
}

/// Writes the line that reports the owners of `path`.
pub fn owners_line(path: &str, r: &ResolutionResult) -> (line: String)
    ensures
        line@ == report_line(path@, r@),
{
    let mut line = String::from_str(path);
    let mut n: usize = chars_of(path).len();
    let ghost start = n;
    while n < COLUMN
        invariant
            start == path@.len(),
            start <= n,
            n <= COLUMN || n == start,
            line@ == path@ + Seq::new((n - start) as nat, |i: int| ' '),
        decreases COLUMN - n,
    {
        line.push(' ');
        n += 1;
        assert(line@ =~= path@ + Seq::new((n - start) as nat, |i: int| ' '));
    }
    assert(line@ =~= padded(path@, COLUMN as nat));
    line.push(' ');
    match r {
        ResolutionResult::Unowned => {
            line.append("(unowned)");
        },
        ResolutionResult::OwnedBy(owners) => {
            let names = join_owners(owners);
            line.append(names.as_str());
        },
    }
    assert(line@ =~= report_line(path@, r@));
    line
}

/// Looks up the owners of `path` and gives the line that reports them, and
/// whether the path has an owner.
pub fn check_owners(rules: &RuleSet, path: &str) -> (out: (String, bool))
    ensures
        out.0@ == report_line(path@, resolved(rules@, path@)),
        out.1 == resolved(rules@, path@).is_some(),
{
    let r = resolve(rules, path);
    let line = owners_line(path, &r);
    (line, r.is_owned())
}

/// What a run over some paths reports.
pub struct Report {
    /// One line for each path, in the order of the paths.
    pub lines: Vec<String>,
    /// Whether one of the paths has no owner.
    pub unowned_files_found: bool,
}

impl Report {
    /// The status that the run ends with: 0 where every path has an owner,
    /// 1 where one has none.
    pub fn exit_code(&self) -> (code: i32)
        ensures
            code == if self.unowned_files_found {
                1i32
            } else {
                0i32
            },
    {
        if self.unowned_files_found {
            1
        } else {
            0
        }
    }
}

/// Looks up the owners of each of `paths`, in order.
pub fn check_ownership(rules: &RuleSet, paths: &Vec<String>) -> (report: Report)
    ensures
        report.lines@.len() == paths@.len(),
        forall|i: int|
            0 <= i < paths@.len() ==> (#[trigger] report.lines@[i])@ == report_line(
                paths@[i]@,
                resolved(rules@, paths@[i]@),
            ),
        report.unowned_files_found == some_unowned(rules@, paths@),
{
    let mut lines: Vec<String> = Vec::new();
    let mut unowned_files_found = false;
    let mut k: usize = 0;
    while k < paths.len()
        invariant
            k <= paths@.len(),
            lines@.len() == k,
            forall|i: int|
                0 <= i < k ==> (#[trigger] lines@[i])@ == report_line(
                    paths@[i]@,
                    resolved(rules@, paths@[i]@),
                ),
            unowned_files_found == some_unowned(rules@, paths@.take(k as int)),
        decreases paths@.len() - k,
    {
        let (line, owned) = check_owners(rules, paths[k].as_str());
        lines.push(line);
        proof {
            let before = paths@.take(k as int);
            let after = paths@.take(k + 1);
            if some_unowned(rules@, before) {
                let i = choose|i: int|
                    0 <= i < before.len() && resolved(rules@, #[trigger] before[i]@) is None;
                assert(after[i] == before[i]);
            }
            if !owned {
                assert(resolved(rules@, after[k as int]@) is None);
            }
            if some_unowned(rules@, after) {
                let i = choose|i: int|
                    0 <= i < after.len() && resolved(rules@, #[trigger] after[i]@) is None;
                if i < k {
                    assert(before[i] == after[i]);
                }
            }
        }
        if !owned {
            unowned_files_found = true;
        }
        k += 1;
    }
    assert(paths@.take(k as int) =~= paths@);
    Report { lines, unowned_files_found }
}

} // verus!
