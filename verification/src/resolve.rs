//! Finding the owners of a path.
//!
//! Among the rules whose pattern matches the path, the one declared last
//! decides, whatever the other rules say and however specific they are. Its
//! owners own the path; if it names no owner, or if no rule matches, the path
//! is unowned.

use vstd::prelude::*;
use crate::chars::chars_of;
use crate::glob::{is_match, matches_segments};
use crate::rules::{
    lemma_parse_lines_come_from_lines, parse, parse_line, texts, Rule, RuleModel, RuleSet,
};
use crate::text::{fields, split_fields, Delimiter};

verus! {

/// The owners of a path, if it has any.
#[derive(Clone, Debug, PartialEq, Eq)]
pub enum ResolutionResult {
    /// No rule matches the path, or the last rule that does names no owner.
    Unowned,
    /// The owners that the last matching rule names, in its order. There is at
    /// least one.
    OwnedBy(Vec<String>),
}

impl View for ResolutionResult {
    type V = Option<Seq<Seq<char>>>;

    open spec fn view(&self) -> Option<Seq<Seq<char>>> {
        match self {
            ResolutionResult::Unowned => None,
            ResolutionResult::OwnedBy(owners) => Some(texts(owners@)),
        }
    }
}

impl ResolutionResult {
    /// Whether the path has an owner.
    pub fn is_owned(&self) -> (b: bool)
        ensures
            b == self@.is_some(),
    {
        match self {
            ResolutionResult::Unowned => false,
            ResolutionResult::OwnedBy(_) => true,
        }
    }
}

/// Whether rule `k` is the last of `rules` whose pattern matches `path`.
pub open spec fn is_last_match(rules: Seq<RuleModel>, path: Seq<char>, k: int) -> bool {
    &&& 0 <= k < rules.len()
    &&& is_match(rules[k].pattern, path)
    &&& forall|j: int| k < j < rules.len() ==> !is_match(#[trigger] rules[j].pattern, path)
}

/// Whether no rule of `rules` matches `path`.
pub open spec fn no_match(rules: Seq<RuleModel>, path: Seq<char>) -> bool {
    forall|j: int| 0 <= j < rules.len() ==> !is_match(#[trigger] rules[j].pattern, path)
}

/// What a deciding rule's owners make of a path: unowned if there are none.
pub open spec fn outcome(owners: Seq<Seq<char>>) -> Option<Seq<Seq<char>>> {
    if owners.len() == 0 {
        None
    } else {
        Some(owners)
    }
}

/// Whether `r` is what the rules say of the path: unowned where no rule
/// matches, and else what the owners of the last matching rule make of it.
pub open spec fn is_resolution(
    rules: Seq<RuleModel>,
    path: Seq<char>,
    r: Option<Seq<Seq<char>>>,
) -> bool {
    &&& no_match(rules, path) ==> r is None
    &&& forall|k: int| is_last_match(rules, path, k) ==> r == outcome(#[trigger] rules[k].owners)
}

/// The owners of `path` under `rules`, found from the last rule backwards.
pub open spec fn resolved(rules: Seq<RuleModel>, path: Seq<char>) -> Option<Seq<Seq<char>>>
    decreases rules.len(),
{
    if rules.len() == 0 {
        None
    } else if is_match(rules.last().pattern, path) {
        outcome(rules.last().owners)
    } else {
        resolved(rules.drop_last(), path)
    }
}

/// Either no rule matches a path or exactly one rule is the last that does.
pub proof fn lemma_last_match_exists_once(rules: Seq<RuleModel>, path: Seq<char>)
    ensures
        no_match(rules, path) <==> !exists|k: int| is_last_match(rules, path, k),
        forall|k: int, l: int|
            is_last_match(rules, path, k) && is_last_match(rules, path, l) ==> k == l,
    decreases rules.len(),
{
    if rules.len() > 0 {
        let init = rules.drop_last();
        let last = rules.len() - 1;
        lemma_last_match_exists_once(init, path);
        if is_match(rules[last].pattern, path) {
            assert(is_last_match(rules, path, last));
        } else if no_match(init, path) {
            assert forall|j: int| 0 <= j < rules.len() implies !is_match(
                #[trigger] rules[j].pattern,
                path,
            ) by {
                if j < last {
                    assert(init[j] == rules[j]);
                }
            }
        } else {
            let k = choose|k: int| is_last_match(init, path, k);
            assert(init[k] == rules[k]);
            assert forall|j: int| k < j < rules.len() implies !is_match(
                #[trigger] rules[j].pattern,
                path,
            ) by {
                if j < last {
                    assert(init[j] == rules[j]);
                }
            }
            assert(is_last_match(rules, path, k));
        }
    }
}

/// The owners found from the last rule backwards are those of the last rule
/// that matches, and no others are: of all the rules that match a path, the
/// one declared last decides alone.
pub proof fn lemma_resolved_is_the_resolution(rules: Seq<RuleModel>, path: Seq<char>)
    ensures
        is_resolution(rules, path, resolved(rules, path)),
        forall|r: Option<Seq<Seq<char>>>|
            is_resolution(rules, path, r) ==> r == resolved(rules, path),
    decreases rules.len(),
{
    lemma_last_match_exists_once(rules, path);
    if rules.len() > 0 {
        let init = rules.drop_last();
        let last = rules.len() - 1;
        lemma_resolved_is_the_resolution(init, path);
        lemma_last_match_exists_once(init, path);
        if is_match(rules[last].pattern, path) {
            assert(is_last_match(rules, path, last));
        } else {
            assert forall|k: int| is_last_match(rules, path, k) implies is_last_match(
                init,
                path,
                k,
            ) && init[k] == rules[k] by {
                assert(k < last);
                assert(init[k] == rules[k]);
                assert forall|j: int| k < j < init.len() implies !is_match(
                    #[trigger] init[j].pattern,
                    path,
                ) by {
                    assert(init[j] == rules[j]);
                }
            }
            if no_match(rules, path) {
                assert forall|j: int| 0 <= j < init.len() implies !is_match(
                    #[trigger] init[j].pattern,
                    path,
                ) by {
                    assert(init[j] == rules[j]);
                }
            }
        }
    }
    assert forall|r: Option<Seq<Seq<char>>>| is_resolution(rules, path, r) implies r == resolved(
        rules,
        path,
    ) by {
        if !no_match(rules, path) {
            let k = choose|k: int| is_last_match(rules, path, k);
            assert(r == outcome(rules[k].owners));
        }
    }
}

/// What the rules say of a path is one thing only: two answers that both meet
/// the description of the resolution are the same answer.
pub proof fn lemma_resolution_is_unique(
    rules: Seq<RuleModel>,
    path: Seq<char>,
    a: Option<Seq<Seq<char>>>,
    b: Option<Seq<Seq<char>>>,
)
    requires
        is_resolution(rules, path, a),
        is_resolution(rules, path, b),
    ensures
        a == b,
{
    lemma_resolved_is_the_resolution(rules, path);
}

/// Owners that are returned are never an empty list.
pub proof fn lemma_owned_means_owners(rules: Seq<RuleModel>, path: Seq<char>)
    ensures
        resolved(rules, path) matches Some(owners) ==> owners.len() > 0,
    decreases rules.len(),
{
    if rules.len() > 0 && !is_match(rules.last().pattern, path) {
        lemma_owned_means_owners(rules.drop_last(), path);
    }
}

/// Under an empty set of rules every path is unowned.
pub proof fn lemma_no_rules_no_owners(path: Seq<char>)
    ensures
        resolved(Seq::<RuleModel>::empty(), path) is None,
{
}

/// A later rule that matches overrides all that came before it: with it
/// appended, the path has its owners, or none if it names none.
pub proof fn lemma_later_rule_overrides(rules: Seq<RuleModel>, rule: RuleModel, path: Seq<char>)
    ensures
        is_match(rule.pattern, path) ==> resolved(rules.push(rule), path) == outcome(rule.owners),
        !is_match(rule.pattern, path) ==> resolved(rules.push(rule), path) == resolved(rules, path),
{
    assert(rules.push(rule).drop_last() =~= rules);
    assert(rules.push(rule).last() == rule);
}

/// Whether line `k` of `text` holds a pattern that matches `path`, followed
/// by the tokens `owners`, in that order.
pub open spec fn line_names(text: Seq<char>, k: int, path: Seq<char>, owners: Seq<Seq<char>>) -> bool {
    let lines = fields(text, Delimiter::LineBreak);
    let tokens = fields(lines[k], Delimiter::Space);
    &&& 0 <= k < lines.len()
    &&& tokens.len() > 0
    &&& is_match(tokens[0], path)
    &&& owners == tokens.skip(1)
}

/// The owners of a path under the rules of a file are the tokens that follow
/// the pattern on one line of that file, in their order there and with any
/// repetition, and that pattern matches the path.
pub proof fn lemma_owners_are_those_of_a_line(text: Seq<char>, path: Seq<char>)
    ensures
        resolved(parse(text), path) matches Some(owners) ==> exists|k: int|
            line_names(text, k, path, owners),
{
    let lines = fields(text, Delimiter::LineBreak);
    let rules = parse(text);
    lemma_resolved_is_the_resolution(rules, path);
    lemma_last_match_exists_once(rules, path);
    lemma_parse_lines_come_from_lines(lines);
    if let Some(owners) = resolved(rules, path) {
        let i = choose|i: int| is_last_match(rules, path, i);
        assert(resolved(rules, path) == outcome(rules[i].owners));
        let k = choose|k: int| 0 <= k < lines.len() && parse_line(lines[k]) == Some(rules[i]);
        assert(line_names(text, k, path, owners));
    }
}

/// Copies a list of owners.
fn copy_owners(owners: &Vec<String>) -> (out: Vec<String>)
    ensures
        texts(out@) == texts(owners@),
{
    let mut out: Vec<String> = Vec::new();
    let mut i: usize = 0;
    while i < owners.len()
        invariant
            i <= owners@.len(),
            out@.len() == i,
            forall|k: int| 0 <= k < i ==> out@[k]@ == owners@[k]@,
        decreases owners@.len() - i,
    {
        out.push(owners[i].clone());
        i += 1;
    }
    assert(texts(out@) =~= texts(owners@));
    out
}

/// What a rule that decides makes of a path.
fn decide(rule: &Rule) -> (r: ResolutionResult)
    ensures
        r@ == outcome(rule@.owners),
{
    if rule.owners.len() == 0 {
        ResolutionResult::Unowned
    } else {
        ResolutionResult::OwnedBy(copy_owners(&rule.owners))
    }
}

/// Finds the owners of `path`, a path relative to the root of the repository
/// with `/` between its segments.
///
/// The last rule whose pattern matches the path decides, and it alone: the
/// path is owned by its owners, in their order, and is unowned if it names
/// none. A path that no rule matches is unowned.
pub fn resolve(rules: &RuleSet, path: &str) -> (r: ResolutionResult)
    ensures
        is_resolution(rules@, path@, r@),
        r@ == resolved(rules@, path@),
        r matches ResolutionResult::OwnedBy(owners) ==> owners@.len() > 0,
{
    let path_chars = chars_of(path);
    let segments = split_fields(&path_chars, Delimiter::Slash);
    let mut k: usize = rules.rules.len();
    while k > 0
        invariant
            k <= rules.rules@.len(),
            path_chars@ == path@,
            crate::text::views(segments@) == fields(path@, Delimiter::Slash),
            forall|j: int| k <= j < rules@.len() ==> !is_match(#[trigger] rules@[j].pattern, path@),
        decreases k,
    {
        k -= 1;
        let rule = &rules.rules[k];
        let pattern = chars_of(rule.pattern.as_str());
        assert(rules@[k as int] == rule@);
        if matches_segments(&pattern, &segments) {
            assert(is_last_match(rules@, path@, k as int));
            let r = decide(rule);
            proof {
                lemma_resolved_is_the_resolution(rules@, path@);
                assert(r@ is Some ==> texts(r->OwnedBy_0@).len() > 0);
            }
            return r;
        }
    }
    proof {
        assert(no_match(rules@, path@));
        lemma_resolved_is_the_resolution(rules@, path@);
    }
    ResolutionResult::Unowned
}

} // verus!
