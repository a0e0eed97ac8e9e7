//! The rules of a CODEOWNERS file, read from its text.
//!
//! Every line that is neither blank nor a comment gives one rule: its first
//! token is the pattern, the tokens after it are the owners. The rules keep
//! the order of their lines, and the owners the order of their tokens.

use vstd::prelude::*;
use crate::chars::{chars_of, string_of};
use crate::text::{fields, free_of, lemma_fields_are_clean, split_fields, views, Delimiter};

verus! {

/// What a rule says: a pattern and the owners of the paths it matches.
pub struct RuleModel {
    pub pattern: Seq<char>,
    pub owners: Seq<Seq<char>>,
}

/// One rule: a pattern and the owners of the paths it matches. A rule without
/// owners says that the paths it matches have none.
#[derive(Clone, Debug, PartialEq, Eq)]
pub struct Rule {
    pub pattern: String,
    pub owners: Vec<String>,
}

/// The character sequences that the strings of `v` hold.
pub open spec fn texts(v: Seq<String>) -> Seq<Seq<char>> {
    Seq::new(v.len(), |i: int| v[i]@)
}

impl View for Rule {
    type V = RuleModel;

    open spec fn view(&self) -> RuleModel {
        RuleModel { pattern: self.pattern@, owners: texts(self.owners@) }
    }
}

/// The rules of a file, in the order of their lines.
#[derive(Clone, Debug, PartialEq, Eq)]
pub struct RuleSet {
    pub rules: Vec<Rule>,
}

impl View for RuleSet {
    type V = Seq<RuleModel>;

    open spec fn view(&self) -> Seq<RuleModel> {
        Seq::new(self.rules@.len(), |i: int| self.rules@[i]@)
    }
}

/// Whether a token is free of white space and not empty.
pub open spec fn is_token(s: Seq<char>) -> bool {
    s.len() > 0 && free_of(s, Delimiter::Space)
}

/// Whether a rule could have come from a line: its pattern is a token that
/// does not begin a comment, and each of its owners is a token.
pub open spec fn rule_is_well_formed(r: RuleModel) -> bool {
    &&& is_token(r.pattern)
    &&& r.pattern[0] != '#'
    &&& forall|i: int| 0 <= i < r.owners.len() ==> is_token(#[trigger] r.owners[i])
}

/// What one line gives: a rule, or nothing where the line is blank or a
/// comment.
pub open spec fn parse_line(line: Seq<char>) -> Option<RuleModel> {
    let tokens = fields(line, Delimiter::Space);
    if tokens.len() == 0 || tokens[0].first() == '#' {
        None
    } else {
        Some(RuleModel { pattern: tokens[0], owners: tokens.skip(1) })
    }
}

/// The rules that a sequence of lines gives, in the order of the lines.
pub open spec fn parse_lines(lines: Seq<Seq<char>>) -> Seq<RuleModel>
    decreases lines.len(),
{
    if lines.len() == 0 {
        Seq::empty()
    } else {
        let before = parse_lines(lines.drop_last());
        match parse_line(lines.last()) {
            Some(rule) => before.push(rule),
            None => before,
        }
    }
}

/// The rules that the text of a file gives. A line ends at a line feed or a
/// carriage return, whichever the file uses.
pub open spec fn parse(text: Seq<char>) -> Seq<RuleModel> {
    parse_lines(fields(text, Delimiter::LineBreak))
}

impl RuleSet {
    /// Whether every rule could have come from a line of a file.
    pub open spec fn wf(&self) -> bool {
        forall|i: int| 0 <= i < self@.len() ==> rule_is_well_formed(#[trigger] self@[i])
    }

    /// The number of rules.
    pub fn len(&self) -> (n: usize)
        ensures
            n == self@.len(),
    {
        self.rules.len()
    }

    /// Whether there is no rule.
    pub fn is_empty(&self) -> (b: bool)
        ensures
            b == (self@.len() == 0),
    {
        self.rules.len() == 0
    }
}

/// A rule that a line gives is well formed.
pub proof fn lemma_parse_line_is_well_formed(line: Seq<char>)
    ensures
        parse_line(line) matches Some(rule) ==> rule_is_well_formed(rule),
{
    lemma_fields_are_clean(line, Delimiter::Space);
    let tokens = fields(line, Delimiter::Space);
    if let Some(rule) = parse_line(line) {
        assert(is_token(tokens[0]));
        assert forall|i: int| 0 <= i < rule.owners.len() implies is_token(
            #[trigger] rule.owners[i],
        ) by {
            assert(rule.owners[i] == tokens[i + 1]);
        }
    }
}

/// Every rule that lines give is the rule of one of the lines, and is well
/// formed.
pub proof fn lemma_parse_lines_come_from_lines(lines: Seq<Seq<char>>)
    ensures
        forall|i: int|
            0 <= i < parse_lines(lines).len() ==> {
                &&& rule_is_well_formed(#[trigger] parse_lines(lines)[i])
                &&& exists|k: int|
                    0 <= k < lines.len() && parse_line(lines[k]) == Some(parse_lines(lines)[i])
            },
    decreases lines.len(),
{
    if lines.len() > 0 {
        let before = parse_lines(lines.drop_last());
        lemma_parse_lines_come_from_lines(lines.drop_last());
        lemma_parse_line_is_well_formed(lines.last());
        assert forall|i: int| 0 <= i < parse_lines(lines).len() implies {
            &&& rule_is_well_formed(#[trigger] parse_lines(lines)[i])
            &&& exists|k: int|
                0 <= k < lines.len() && parse_line(lines[k]) == Some(parse_lines(lines)[i])
        } by {
            if i < before.len() {
                assert(parse_lines(lines)[i] == before[i]);
                let k = choose|k: int|
                    0 <= k < lines.drop_last().len() && parse_line(lines.drop_last()[k]) == Some(
                        before[i],
                    );
                assert(lines.drop_last()[k] == lines[k]);
            } else {
                assert(parse_line(lines[lines.len() - 1]) == Some(parse_lines(lines)[i]));
            }
        }
    }
}

/// The rules of two runs of lines, one after the other, are the rules of the
/// first run followed by those of the second: rules keep the order of their
/// lines.
pub proof fn lemma_parse_lines_keeps_order(a: Seq<Seq<char>>, b: Seq<Seq<char>>)
    ensures
        parse_lines(a + b) == parse_lines(a) + parse_lines(b),
    decreases b.len(),
{
    if b.len() == 0 {
        assert(a + b =~= a);
        assert(parse_lines(a) + parse_lines(b) =~= parse_lines(a));
    } else {
        lemma_parse_lines_keeps_order(a, b.drop_last());
        assert((a + b).drop_last() =~= a + b.drop_last());
        assert((a + b).last() == b.last());
        match parse_line(b.last()) {
            Some(rule) => {
                assert((parse_lines(a) + parse_lines(b.drop_last())).push(rule) =~= parse_lines(a)
                    + parse_lines(b.drop_last()).push(rule));
            },
            None => {},
        }
    }
}

/// Lines that are all blank or comments give no rule, and only they.
pub proof fn lemma_no_rules_without_rule_lines(lines: Seq<Seq<char>>)
    ensures
        parse_lines(lines).len() == 0 <==> forall|k: int|
            0 <= k < lines.len() ==> parse_line(#[trigger] lines[k]) is None,
    decreases lines.len(),
{
    if lines.len() > 0 {
        lemma_no_rules_without_rule_lines(lines.drop_last());
        if parse_lines(lines).len() == 0 {
            assert forall|k: int| 0 <= k < lines.len() implies parse_line(
                #[trigger] lines[k],
            ) is None by {
                if k < lines.len() - 1 {
                    assert(lines.drop_last()[k] == lines[k]);
                }
            }
        }
        if forall|k: int| 0 <= k < lines.len() ==> parse_line(#[trigger] lines[k]) is None {
            assert(parse_line(lines[lines.len() - 1]) is None);
            assert forall|k: int| 0 <= k < lines.drop_last().len() implies parse_line(
                #[trigger] lines.drop_last()[k],
            ) is None by {
                assert(lines.drop_last()[k] == lines[k]);
            }
        }
    }
}

/// Reads one line: gives its rule, or nothing where the line is blank or a
/// comment.
pub fn parse_rule(line: &Vec<char>) -> (r: Option<Rule>)
    ensures
        r matches Some(rule) ==> parse_line(line@) == Some(rule@),
        r is None ==> parse_line(line@) is None,
{
    let tokens = split_fields(line, Delimiter::Space);
    proof {
        lemma_fields_are_clean(line@, Delimiter::Space);
        assert(views(tokens@).len() == tokens@.len());
    }
    if tokens.len() == 0 {
        return None;
    }
    assert(views(tokens@)[0] == tokens@[0]@);
    if tokens[0][0] == '#' {
        return None;
    }
    let pattern = string_of(&tokens[0], 0, tokens[0].len());
    assert(pattern@ =~= tokens@[0]@);
    let mut owners: Vec<String> = Vec::new();
    let mut i: usize = 1;
    while i < tokens.len()
        invariant
            1 <= i <= tokens@.len(),
            owners@.len() == i - 1,
            forall|k: int| 0 <= k < owners@.len() ==> owners@[k]@ == tokens@[k + 1]@,
        decreases tokens@.len() - i,
    {
        let owner = string_of(&tokens[i], 0, tokens[i].len());
        assert(owner@ =~= tokens@[i as int]@);
        owners.push(owner);
        i += 1;
    }
    assert(texts(owners@) =~= views(tokens@).skip(1));
    Some(Rule { pattern, owners })
}

/// Reads the rules from the text of a CODEOWNERS file. Every text is read:
/// blank lines and comments give nothing, every other line gives a rule.
pub fn build_rules(file_contents: &str) -> (rules: RuleSet)
    ensures
        rules@ == parse(file_contents@),
        rules.wf(),
{
    let text = chars_of(file_contents);
    let lines = split_fields(&text, Delimiter::LineBreak);
    let ghost all = views(lines@);
    let mut rules: Vec<Rule> = Vec::new();
    let mut k: usize = 0;
    assert(all.take(0) =~= Seq::<Seq<char>>::empty());
    while k < lines.len()
        invariant
            k <= lines@.len(),
            all == views(lines@),
            (RuleSet { rules })@ == parse_lines(all.take(k as int)),
        decreases lines@.len() - k,
    {
        let ghost before = (RuleSet { rules })@;
        assert(all.take(k + 1).drop_last() =~= all.take(k as int));
        assert(all.take(k + 1).last() == lines@[k as int]@);
        match parse_rule(&lines[k]) {
            Some(rule) => {
                rules.push(rule);
                assert((RuleSet { rules })@ =~= before.push(rule@));
            },
            None => {
                assert((RuleSet { rules })@ =~= before);
            },
        }
        k += 1;
    }
    assert(all.take(k as int) =~= all);
    let out = RuleSet { rules };
    proof {
        lemma_parse_lines_come_from_lines(all);
    }
    out
}

} // verus!
