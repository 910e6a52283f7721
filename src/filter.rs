use vstd::prelude::*;

verus! {

#[verifier::external_type_specification]
#[verifier::external_body]
pub struct ExRegex(regex::Regex);

/// A regular expression compiled from its pattern with the default options.
/// Only `compile_regex` builds one, so its matches depend on the pattern alone.
pub struct CompiledPattern {
    re: regex::Regex,
}

impl CompiledPattern {
    /// The pattern text it was compiled from.
    pub closed spec fn view(&self) -> Seq<char> {
        regex_source(self.re)
    }
}

/// Whether `pattern` is accepted by the regular-expression compiler.
pub uninterp spec fn regex_compiles(pattern: Seq<char>) -> bool;

/// The pattern text that a compiled regular expression was built from.
pub uninterp spec fn regex_source(re: regex::Regex) -> Seq<char>;

/// Whether the regular expression `pattern`, compiled with the default
/// options, matches somewhere in `text`.
pub uninterp spec fn regex_match(pattern: Seq<char>, text: Seq<char>) -> bool;

/// Relies on regex::Regex::new: it compiles `pattern` with the default options
/// or reports that it cannot, and the compiled value keeps its pattern (what
/// `Regex::as_str` returns).
#[verifier::external_body]
fn compile_regex(pattern: &str) -> (r: Option<CompiledPattern>)
    ensures
        r is Some <==> regex_compiles(pattern@),
        r matches Some(c) ==> regex_source(c.re) == pattern@,
{
    regex::Regex::new(pattern).ok().map(|re| CompiledPattern { re })
}

/// Relies on regex::Regex::is_match: whether the pattern, compiled with the
/// default options, matches anywhere in `text`.
#[verifier::external_body]
fn regex_is_match(c: &CompiledPattern, text: &str) -> (r: bool)
    ensures
        r == regex_match(regex_source(c.re), text@),
{
    c.re.is_match(text)
}

/// A filter rule as written: a leading `!` negates the pattern that follows.
pub open spec fn rule_of(text: Seq<char>) -> (Seq<char>, bool) {
    if text.len() > 0 && text[0] == '!' {
        (text.drop_first(), true)
    } else {
        (text, false)
    }
}

/// Whether one rule (pattern, negated) accepts `text`.
pub open spec fn rule_accepts(rule: (Seq<char>, bool), text: Seq<char>) -> bool {
    regex_match(rule.0, text) != rule.1
}

/// Every rule accepts `text`; `if_empty` when there are no rules.
pub open spec fn accepts_all(rules: Seq<(Seq<char>, bool)>, text: Seq<char>, if_empty: bool) -> bool {
    if rules.len() == 0 {
        if_empty
    } else {
        forall|i: int| 0 <= i < rules.len() ==> rule_accepts(#[trigger] rules[i], text)
    }
}

/// Some rule accepts `text`; `if_empty` when there are no rules.
pub open spec fn accepts_any(rules: Seq<(Seq<char>, bool)>, text: Seq<char>, if_empty: bool) -> bool {
    if rules.len() == 0 {
        if_empty
    } else {
        exists|i: int| 0 <= i < rules.len() && rule_accepts(#[trigger] rules[i], text)
    }
}

/// Why a list of filter rules could not be compiled.
#[derive(Debug)]
pub enum FilterError {
    /// The rule text whose pattern does not compile.
    InvalidPattern(String),
}

/// An ordered list of compiled, possibly negated, path patterns.
pub struct RuleFilter {
    pub filters: Vec<(CompiledPattern, bool)>,
}

impl RuleFilter {
    pub open spec fn view(&self) -> Seq<(Seq<char>, bool)> {
        self.filters@.map_values(|f: (CompiledPattern, bool)| (f.0@, f.1))
    }

    /// Compiles each rule; fails on the first whose pattern does not compile.
    pub fn new(rules: &Vec<String>) -> (r: Result<RuleFilter, FilterError>)
        ensures
            r is Ok <==> forall|i: int| 0 <= i < rules@.len() ==> regex_compiles(
                #[trigger] rule_of(rules@[i]@).0,
            ),
            r matches Ok(f) ==> f@ == rules@.map_values(|s: String| rule_of(s@)),
            r matches Err(FilterError::InvalidPattern(p)) ==> exists|i: int|
                0 <= i < rules@.len() && p@ == rules@[i]@ && !regex_compiles(
                    #[trigger] rule_of(rules@[i]@).0,
                ),
    {
        let mut filters: Vec<(CompiledPattern, bool)> = Vec::new();
        let mut i: usize = 0;
        while i < rules.len()
            invariant
                i <= rules@.len(),
                filters@.len() == i,
                forall|j: int| 0 <= j < i ==> regex_compiles(#[trigger] rule_of(rules@[j]@).0),
                forall|j: int|
                    0 <= j < i ==> ((#[trigger] filters@[j]).0@, filters@[j].1) == rule_of(
                        rules@[j]@,
                    ),
            decreases rules@.len() - i,
        {
            let text = &rules[i];
            let negated = text.unicode_len() > 0 && text.as_str().get_char(0) == '!';
            let pattern = if negated {
                text.as_str().substring_char(1, text.unicode_len())
            } else {
                text.as_str()
            };
            proof {
                if negated {
                    assert(pattern@ =~= text@.drop_first());
                }
                assert(rule_of(rules@[i as int]@) == (pattern@, negated));
            }
            match compile_regex(pattern) {
                Some(re) => {
                    filters.push((re, negated));
                },
                None => {
                    assert(!regex_compiles(rule_of(rules@[i as int]@).0));
                    return Err(FilterError::InvalidPattern(text.clone()));
                },
            }
            i = i + 1;
        }
        let r = RuleFilter { filters };
        assert(r@ =~= rules@.map_values(|s: String| rule_of(s@)));
        Ok(r)
    }

    /// Whether some rule accepts `text` (`if_empty` when there are no rules).
    pub fn test_any(&self, text: &str, if_empty: bool) -> (r: bool)
        ensures
            r == accepts_any(self@, text@, if_empty),
    {
        if self.filters.len() == 0 {
            return if_empty;
        }
        let mut i: usize = 0;
        while i < self.filters.len()
            invariant
                i <= self.filters@.len(),
                forall|j: int| 0 <= j < i ==> !rule_accepts(#[trigger] self@[j], text@),
            decreases self.filters@.len() - i,
        {
            let (re, negated) = &self.filters[i];
            if regex_is_match(re, text) != *negated {
                assert(rule_accepts(self@[i as int], text@));
                return true;
            }
            i = i + 1;
        }
        false
    }

    /// Whether every rule accepts `text` (`if_empty` when there are no rules).
    pub fn test_all(&self, text: &str, if_empty: bool) -> (r: bool)
        ensures
            r == accepts_all(self@, text@, if_empty),
    {
        if self.filters.len() == 0 {
            return if_empty;
        }
        let mut i: usize = 0;
        while i < self.filters.len()
            invariant
                i <= self.filters@.len(),
                forall|j: int| 0 <= j < i ==> rule_accepts(#[trigger] self@[j], text@),
            decreases self.filters@.len() - i,
        {
            let (re, negated) = &self.filters[i];
            if regex_is_match(re, text) == *negated {
                assert(!rule_accepts(self@[i as int], text@));
                return false;
            }
            i = i + 1;
        }
        true
    }
}

} // verus!
