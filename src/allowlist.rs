//! User exclusion rules: paths that are never reported nor deleted.

use vstd::prelude::*;
use vstd::string::*;
use crate::text::{is_prefix, lines_of, split_lines, starts_with, trim, trimmed, to_owned_text};

verus! {

/// A set of path-prefix rules. Read-only once built, so it can be shared
/// by reference between any number of scanning threads.
pub struct Allowlist {
    rules: Vec<String>,
}

/// Whether `rule` protects `path`: the path equals the rule, or begins with
/// the rule's characters. The comparison is on characters, not on path
/// components, so the rule `/a/Keep` also protects `/a/KeepExtra`.
pub open spec fn rule_protects(rule: Seq<char>, path: Seq<char>) -> bool {
    path == rule || is_prefix(rule, path)
}

/// Whether some rule of `rules` protects `path`.
pub open spec fn protected_by(rules: Seq<Seq<char>>, path: Seq<char>) -> bool {
    exists|i: int| 0 <= i < rules.len() && rule_protects(#[trigger] rules[i], path)
}

/// A trimmed configuration line that is kept as a rule: neither blank nor a comment.
pub open spec fn is_rule_line(t: Seq<char>) -> bool {
    t.len() > 0 && t[0] != '#'
}

/// The rules that the configuration lines `lines` define, in order.
pub open spec fn rules_from_lines(lines: Seq<Seq<char>>) -> Seq<Seq<char>>
    decreases lines.len(),
{
    if lines.len() == 0 {
        Seq::empty()
    } else {
        let prev = rules_from_lines(lines.drop_last());
        let t = trimmed(lines.last());
        if is_rule_line(t) {
            prev.push(t)
        } else {
            prev
        }
    }
}

impl View for Allowlist {
    type V = Seq<Seq<char>>;

    closed spec fn view(&self) -> Seq<Seq<char>> {
        self.rules.deep_view()
    }
}

impl Allowlist {
    /// An allowlist holding exactly `rules`, in order.
    pub fn new(rules: Vec<String>) -> (r: Allowlist)
        ensures
            r@ == rules.deep_view(),
    {
        Allowlist { rules }
    }

    /// The rules of a configuration file's text: one rule per line, trimmed;
    /// blank lines and lines starting with `#` are skipped.
    pub fn from_config_text(text: &str) -> (r: Allowlist)
        ensures
            r@ == rules_from_lines(lines_of(text@)),
    {
        let lines = split_lines(text);
        let ghost ls = lines.deep_view();
        let mut rules: Vec<String> = Vec::new();
        let mut i: usize = 0;
        while i < lines.len()
            invariant
                ls == lines.deep_view(),
                i <= lines.len(),
                rules.deep_view() == rules_from_lines(ls.subrange(0, i as int)),
            decreases lines.len() - i,
        {
            let t = trim(lines[i].as_str());
            let keep = t.unicode_len() > 0 && t.get_char(0) != '#';
            proof {
                let pre = ls.subrange(0, i as int + 1);
                assert(pre.drop_last() =~= ls.subrange(0, i as int));
                assert(pre.last() == lines[i as int]@);
            }
            if keep {
                let owned = to_owned_text(t);
                rules.push(owned);
                proof {
                    assert(rules.deep_view() =~= rules_from_lines(ls.subrange(0, i as int)).push(t@));
                }
            }
            i += 1;
        }
        assert(ls.subrange(0, lines.len() as int) =~= ls);
        Allowlist { rules }
    }

    /// Whether `path` is protected: it equals a rule, or starts with one.
    pub fn is_allowed(&self, path: &str) -> (r: bool)
        ensures
            r == protected_by(self@, path@),
    {
        let mut i: usize = 0;
        while i < self.rules.len()
            invariant
                i <= self.rules.len(),
                forall|j: int| 0 <= j < i ==> !rule_protects(#[trigger] self@[j], path@),
            decreases self.rules.len() - i,
        {
            let rule = self.rules[i].as_str();
            if starts_with(path, rule) {
                assert(rule_protects(self@[i as int], path@));
                return true;
            }
            proof {
                if path@ == rule@ {
                    assert(path@.subrange(0, rule@.len() as int) =~= path@);
                }
            }
            i += 1;
        }
        false
    }
}

/// A path is protected exactly when it equals some rule or begins with the
/// characters of some rule; on characters, not on path components.
pub proof fn lemma_protection_is_prefix_match(list: &Allowlist, path: Seq<char>)
    ensures
        protected_by(list@, path) <==> exists|i: int|
            0 <= i < list@.len() && (path == list@[i] || is_prefix(list@[i], path)),
{
}

/// No blank line and no comment line of a configuration becomes a rule.
pub proof fn lemma_config_rules_are_rule_lines(lines: Seq<Seq<char>>)
    ensures
        forall|i: int|
            0 <= i < rules_from_lines(lines).len() ==> is_rule_line(#[trigger] rules_from_lines(lines)[i]),
    decreases lines.len(),
{
    if lines.len() > 0 {
        lemma_config_rules_are_rule_lines(lines.drop_last());
        let prev = rules_from_lines(lines.drop_last());
        let all = rules_from_lines(lines);
        assert forall|i: int| 0 <= i < all.len() implies is_rule_line(#[trigger] all[i]) by {
            if i < prev.len() {
                assert(is_rule_line(prev[i]));
            }
        }
    }
}

/// Every rule protects the path it names and every path that extends it by
/// any characters, whether or not the extension starts at a `/`.
pub proof fn lemma_rule_protects_extensions(list: &Allowlist, i: int, rest: Seq<char>)
    requires
        0 <= i < list@.len(),
    ensures
        protected_by(list@, list@[i] + rest),
{
    let path = list@[i] + rest;
    assert(path.subrange(0, list@[i].len() as int) =~= list@[i]);
    assert(rule_protects(list@[i], path));
}

} // verus!
