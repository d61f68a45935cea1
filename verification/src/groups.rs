//! Ordered product-group rules: display names paired with regular
//! expressions, loaded from `NAME | REGEX` lines and resolved
//! first-match-first.

use vstd::prelude::*;

use crate::text::first_sep;
use crate::text::has_sep;
use crate::text::lines_of;
use crate::text::split_lines;
use crate::text::split_rule_line;

verus! {

/// Whether the regex engine accepts `pattern` as a valid pattern; this
/// depends on the pattern alone.
pub uninterp spec fn regex_accepts(pattern: Seq<char>) -> bool;

/// Whether `pattern` matches anywhere within `text` (an unanchored
/// search); this depends on the two strings alone.
pub uninterp spec fn regex_found(pattern: Seq<char>, text: Seq<char>) -> bool;

#[verifier::external_type_specification]
#[verifier::external_body]
pub struct ExRegex(regex::Regex);

#[verifier::external_type_specification]
#[verifier::external_body]
pub struct ExRegexError(regex::Error);

/// Relies on regex::Regex::new: compilation succeeds exactly when the
/// engine accepts the pattern, which depends on the pattern alone.
#[verifier::external_body]
fn compile_regex(pattern: &str) -> (r: Result<regex::Regex, regex::Error>)
    ensures
        r is Ok <==> regex_accepts(pattern@),
{
    regex::Regex::new(pattern)
}

/// One group rule: a display name and the pattern its regex was
/// compiled from.
pub struct GroupRule {
    name: String,
    pattern: String,
    regex: regex::Regex,
}

impl View for GroupRule {
    type V = (Seq<char>, Seq<char>);

    closed spec fn view(&self) -> (Seq<char>, Seq<char>) {
        (self.name@, self.pattern@)
    }
}

/// Relies on regex::Regex::is_match: an unanchored search whose outcome
/// depends on the pattern and the haystack alone. The `regex` field is
/// always the compiled form of the `pattern` field, since
/// `GroupRule::new` is the only constructor.
#[verifier::external_body]
fn rule_found(rule: &GroupRule, text: &str) -> (r: bool)
    ensures
        r == regex_found(rule@.1, text@),
{
    rule.regex.is_match(text)
}

impl GroupRule {
    /// Compiles `pattern` into a rule named `name`; fails exactly when
    /// the engine rejects the pattern.
    pub fn new(name: &str, pattern: &str) -> (r: Option<GroupRule>)
        ensures
            match r {
                Some(g) => regex_accepts(pattern@) && g@ == (name@, pattern@),
                None => !regex_accepts(pattern@),
            },
    {
        match compile_regex(pattern) {
            Ok(re) => Some(
                GroupRule {
                    name: String::from_str(name),
                    pattern: String::from_str(pattern),
                    regex: re,
                },
            ),
            Err(_) => None,
        }
    }
}

/// Error from loading group configuration.
#[derive(Debug)]
pub enum ConfigError {
    /// A rule line without the ` | ` delimiter: its one-based number and
    /// its content.
    BadLine { line_number: usize, line: String },
    /// A pattern the regex engine rejected.
    BadPattern { pattern: String },
}

/// The group name for `item`: the name of the first rule, in order,
/// whose pattern matches, if any.
pub open spec fn resolve_spec(
    rules: Seq<(Seq<char>, Seq<char>)>,
    item: Seq<char>,
) -> Option<Seq<char>>
    decreases rules.len(),
{
    if rules.len() == 0 {
        None
    } else if regex_found(rules[0].1, item) {
        Some(rules[0].0)
    } else {
        resolve_spec(rules.skip(1), item)
    }
}

/// The name a record is reported under: the first matching group's
/// name, or the item's own name when no rule matches.
pub open spec fn display_name(rules: Seq<(Seq<char>, Seq<char>)>, item: Seq<char>) -> Seq<
    char,
> {
    match resolve_spec(rules, item) {
        Some(g) => g,
        None => item,
    }
}

/// Rule order decides: when an earlier rule matches, no later rule can
/// override it, whatever the later patterns match.
pub proof fn lemma_resolve_first_match(
    rules: Seq<(Seq<char>, Seq<char>)>,
    item: Seq<char>,
    i: int,
)
    requires
        0 <= i < rules.len(),
        regex_found(rules[i].1, item),
        forall|j: int| 0 <= j < i ==> !regex_found((#[trigger] rules[j]).1, item),
    ensures
        resolve_spec(rules, item) == Some(rules[i].0),
    decreases i,
{
    if i == 0 {
    } else {
        assert(!regex_found(rules[0].1, item));
        assert(forall|j: int|
            0 <= j < rules.len() - 1 ==> rules.skip(1)[j] == rules[j + 1]);
        lemma_resolve_first_match(rules.skip(1), item, i - 1);
    }
}

/// A line item that no rule matches resolves to no group at all.
pub proof fn lemma_resolve_unmatched(rules: Seq<(Seq<char>, Seq<char>)>, item: Seq<char>)
    requires
        forall|j: int| 0 <= j < rules.len() ==> !regex_found((#[trigger] rules[j]).1, item),
    ensures
        resolve_spec(rules, item) is None,
    decreases rules.len(),
{
    if rules.len() > 0 {
        assert(forall|j: int|
            0 <= j < rules.len() - 1 ==> rules.skip(1)[j] == rules[j + 1]);
        lemma_resolve_unmatched(rules.skip(1), item);
    }
}

/// A line item that no rule matches is reported under its own name.
pub proof fn lemma_unmatched_keeps_name(rules: Seq<(Seq<char>, Seq<char>)>, item: Seq<char>)
    requires
        forall|j: int| 0 <= j < rules.len() ==> !regex_found((#[trigger] rules[j]).1, item),
    ensures
        display_name(rules, item) == item,
{
    lemma_resolve_unmatched(rules, item);
}

/// The name and pattern a well-formed rule line holds.
pub open spec fn line_rule(l: Seq<char>) -> (Seq<char>, Seq<char>) {
    (l.take(first_sep(l) as int), l.skip(first_sep(l) as int + 3))
}

/// A rule line is acceptable when it has the delimiter and the engine
/// accepts its pattern.
pub open spec fn line_ok(l: Seq<char>) -> bool {
    has_sep(l) && regex_accepts(line_rule(l).1)
}

/// The rules that a sequence of well-formed lines defines, in order.
pub open spec fn rules_of_lines(ls: Seq<Seq<char>>) -> Seq<(Seq<char>, Seq<char>)> {
    ls.map_values(|l: Seq<char>| line_rule(l))
}

/// Every line of the configuration text is acceptable.
pub open spec fn all_lines_ok(text: Seq<char>) -> bool {
    forall|i: int| 0 <= i < lines_of(text).len() ==> line_ok(#[trigger] lines_of(text)[i])
}

/// `e` describes exactly the first unacceptable line of the text.
pub open spec fn load_err_matches(text: Seq<char>, e: ConfigError) -> bool {
    exists|i: int|
        {
            &&& 0 <= i < lines_of(text).len()
            &&& (forall|j: int| 0 <= j < i ==> line_ok(#[trigger] lines_of(text)[j]))
            &&& !line_ok(#[trigger] lines_of(text)[i])
            &&& (match e {
                ConfigError::BadLine { line_number, line } => !has_sep(lines_of(text)[i])
                    && line_number == i + 1 && line@ == lines_of(text)[i],
                ConfigError::BadPattern { pattern } => has_sep(lines_of(text)[i])
                    && !regex_accepts(line_rule(lines_of(text)[i]).1) && pattern@ == line_rule(
                    lines_of(text)[i],
                ).1,
            })
        }
}

/// An ordered list of group rules; order decides which rule wins.
pub struct Groups {
    rules: Vec<GroupRule>,
}

impl View for Groups {
    type V = Seq<(Seq<char>, Seq<char>)>;

    closed spec fn view(&self) -> Seq<(Seq<char>, Seq<char>)> {
        self.rules@.map_values(|r: GroupRule| r@)
    }
}

impl Groups {
    /// A rule set that matches nothing.
    pub fn new() -> (r: Groups)
        ensures
            r@ == Seq::<(Seq<char>, Seq<char>)>::empty(),
    {
        let r = Groups { rules: Vec::new() };
        proof {
            assert(r@ =~= Seq::<(Seq<char>, Seq<char>)>::empty());
        }
        r
    }

    /// Appends one rule; fails, leaving the rules unchanged, exactly
    /// when the engine rejects the pattern.
    pub fn add_rule(&mut self, name: &str, pattern: &str) -> (r: Result<(), ConfigError>)
        ensures
            match r {
                Ok(()) => regex_accepts(pattern@) && final(self)@ == old(self)@.push(
                    (name@, pattern@),
                ),
                Err(e) => !regex_accepts(pattern@) && final(self)@ == old(self)@ && (match e {
                    ConfigError::BadPattern { pattern: p } => p@ == pattern@,
                    _ => false,
                }),
            },
    {
        match GroupRule::new(name, pattern) {
            Some(rule) => {
                let ghost prev = self.rules@;
                self.rules.push(rule);
                proof {
                    assert(self@ =~= prev.map_values(|r: GroupRule| r@).push(
                        (name@, pattern@),
                    ));
                }
                Ok(())
            },
            None => Err(ConfigError::BadPattern { pattern: String::from_str(pattern) }),
        }
    }

    /// Resolves a line-item name to the name of the first matching
    /// rule's group, if any rule matches.
    pub fn product_group(&self, line_item: &str) -> (r: Option<String>)
        ensures
            match r {
                Some(name) => resolve_spec(self@, line_item@) == Some(name@),
                None => resolve_spec(self@, line_item@) is None,
            },
    {
        let n = self.rules.len();
        let mut k: usize = 0;
        proof {
            assert(self@.skip(0) =~= self@);
        }
        while k < n
            invariant
                k <= n,
                n == self.rules.len(),
                resolve_spec(self@, line_item@) == resolve_spec(
                    self@.skip(k as int),
                    line_item@,
                ),
            decreases n - k,
        {
            let matched = rule_found(&self.rules[k], line_item);
            proof {
                assert(self@.skip(k as int)[0] == self@[k as int]);
                assert(self@[k as int] == self.rules@[k as int]@);
            }
            if matched {
                let name = self.rules[k].name.clone();
                proof {
                    assert(resolve_spec(self@.skip(k as int), line_item@) == Some(
                        self@[k as int].0,
                    ));
                }
                return Some(name);
            }
            proof {
                assert(self@.skip(k as int).skip(1) =~= self@.skip(k as int + 1));
            }
            k += 1;
        }
        proof {
            assert(self@.skip(n as int).len() == 0);
        }
        None
    }

    /// Moves all of `other`'s rules, in order, to the end of this rule
    /// set.
    pub fn append(&mut self, other: Groups)
        ensures
            final(self)@ == old(self)@ + other@,
    {
        let mut o = other;
        let ghost prev = self.rules@;
        let ghost ov = o.rules@;
        self.rules.append(&mut o.rules);
        proof {
            assert(self@ =~= prev.map_values(|r: GroupRule| r@) + ov.map_values(
                |r: GroupRule| r@,
            ));
        }
    }

    /// Loads a rule set from configuration text, one `NAME | REGEX`
    /// line at a time, in order; the first unacceptable line fails the
    /// whole load and no rule set is returned.
    pub fn from_text(text: &str) -> (r: Result<Groups, ConfigError>)
        ensures
            match r {
                Ok(g) => all_lines_ok(text@) && g@ == rules_of_lines(lines_of(text@)),
                Err(e) => load_err_matches(text@, e),
            },
    {
        let lines = split_lines(text);
        let ghost ls = lines_of(text@);
        let mut g = Groups::new();
        let n = lines.len();
        let mut idx: usize = 0;
        proof {
            assert(rules_of_lines(ls.take(0)) =~= Seq::<(Seq<char>, Seq<char>)>::empty());
        }
        while idx < n
            invariant
                idx <= n,
                n == lines@.len(),
                lines.deep_view() == ls,
                ls == lines_of(text@),
                forall|j: int| 0 <= j < idx ==> line_ok(#[trigger] ls[j]),
                g@ == rules_of_lines(ls.take(idx as int)),
            decreases n - idx,
        {
            let line = &lines[idx];
            proof {
                assert(line@ == ls[idx as int]);
            }
            match split_rule_line(line.as_str()) {
                None => {
                    return Err(
                        ConfigError::BadLine { line_number: idx + 1, line: line.clone() },
                    );
                },
                Some(parts) => {
                    let (name, pat) = parts;
                    match g.add_rule(name.as_str(), pat.as_str()) {
                        Err(e) => {
                            return Err(e);
                        },
                        Ok(()) => {
                            proof {
                                assert(ls.take(idx + 1).drop_last() =~= ls.take(idx as int));
                                assert(rules_of_lines(ls.take(idx + 1)) =~= rules_of_lines(
                                    ls.take(idx as int),
                                ).push(line_rule(ls[idx as int])));
                            }
                        },
                    }
                },
            }
            idx += 1;
        }
        proof {
            assert(ls.take(n as int) =~= ls);
        }
        Ok(g)
    }
}

} // verus!
