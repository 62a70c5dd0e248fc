//! The text format of rewrite-rule files.
//!
//! The first line is `FILTER_LIST="name1","name2",...` (or `FILTER_LIST=""`)
//! and names the rules to leave out. Every later line that is neither blank
//! nor a `#` comment defines one rule:
//! `"name"; "searcher" => "applier" [if condition]*`, with `<=>` in place of
//! `=>` for a rule that also applies from right to left.
use crate::text::{
    chars_of, find, find_in, has_char, is_first_at, lemma_trim_len, matches_at, occurs_at,
    starts_with, str_eq, string_of, trim, trim_bounds, trim_start,
};
use vstd::prelude::*;

verus! {

/// What can go wrong while reading a rule file.
#[derive(Debug, Clone, PartialEq, Eq)]
pub enum ParseError {
    /// The file could not be read.
    IoError(String),
    /// A rule line could not be parsed.
    LineError {
        /// The line number where the error occurred.
        line: usize,
        /// What went wrong.
        message: String,
    },
    /// The first line is not a well-formed `FILTER_LIST=`.
    InvalidFilterList(String),
    /// A rule definition is malformed.
    InvalidRule(String),
}

/// The set of rule names that a rule file excludes.
#[derive(Debug, Clone)]
pub struct FilterList {
    names: Vec<String>,
}

impl FilterList {
    /// The excluded names, in the order they were first listed.
    pub closed spec fn names_view(&self) -> Seq<Seq<char>> {
        self.names@.map_values(|s: String| s@)
    }

    /// The set of excluded names.
    pub open spec fn view(&self) -> Set<Seq<char>> {
        self.names_view().to_set()
    }

    /// No name is held twice.
    pub closed spec fn wf(&self) -> bool {
        self.names_view().no_duplicates()
    }

    /// An empty filter list.
    pub fn new() -> (r: FilterList)
        ensures
            r.wf(),
            r@ == Set::<Seq<char>>::empty(),
    {
        let r = FilterList { names: Vec::new() };
        assert(r.names_view() =~= Seq::<Seq<char>>::empty());
        assert(r@ =~= Set::<Seq<char>>::empty());
        r
    }

    /// Whether `name` is excluded.
    pub fn contains(&self, name: &str) -> (r: bool)
        ensures
            r == self@.contains(name@),
    {
        let mut i: usize = 0;
        while i < self.names.len()
            invariant
                i <= self.names@.len(),
                forall|j: int| 0 <= j < i ==> self.names@[j]@ != name@,
            decreases self.names@.len() - i,
        {
            if str_eq(self.names[i].as_str(), name) {
                assert(self.names_view()[i as int] == name@);
                return true;
            }
            i = i + 1;
        }
        proof {
            if self@.contains(name@) {
                let j = choose|j: int| 0 <= j < self.names_view().len() && self.names_view()[j] == name@;
                assert(self.names@[j]@ == name@);
            }
        }
        false
    }

    /// The number of excluded names.
    pub fn len(&self) -> (r: usize)
        requires
            self.wf(),
        ensures
            r == self@.len(),
    {
        proof {
            self.names_view().unique_seq_to_set();
        }
        self.names.len()
    }

    /// Whether no name is excluded.
    pub fn is_empty(&self) -> (r: bool)
        requires
            self.wf(),
        ensures
            r == (self@.len() == 0),
    {
        self.len() == 0
    }

    /// Adds `name` to the excluded names.
    pub fn insert(&mut self, name: String)
        requires
            old(self).wf(),
        ensures
            final(self).wf(),
            final(self)@ == old(self)@.insert(name@),
    {
        if !self.contains(name.as_str()) {
            let ghost old_names = self.names_view();
            let ghost nm = name@;
            self.names.push(name);
            proof {
                broadcast use vstd::seq_lib::group_seq_properties;

                assert(self.names_view() =~= old_names.push(nm));
                assert(self@ =~= old(self)@.insert(nm));
            }
        } else {
            assert(self@ =~= old(self)@.insert(name@));
        }
    }
}

/// The names listed after `FILTER_LIST=`: each name stands between double
/// quotes, holds no comma, and names are separated by commas and spaces only.
/// Empty names are allowed and ignored. `None` when the list is malformed.
pub open spec fn filter_names(s: Seq<char>) -> Option<Set<Seq<char>>>
    decreases s.len(),
{
    if s.len() == 0 {
        Some(Set::empty())
    } else if s[0] == ' ' || s[0] == ',' {
        filter_names(s.drop_first())
    } else if s[0] == '"' {
        let body = s.drop_first();
        match find(body, seq!['"']) {
            None => None,
            Some(q) => {
                let name = body.subrange(0, q);
                if has_char(name, ',') || q < 0 || q >= body.len() {
                    None
                } else {
                    match filter_names(body.subrange(q + 1, body.len() as int)) {
                        None => None,
                        Some(t) => Some(
                            if name.len() > 0 {
                                t.insert(name)
                            } else {
                                t
                            },
                        ),
                    }
                }
            },
        }
    } else {
        None
    }
}

/// The excluded names of a `FILTER_LIST=` line, or `None` when it is malformed.
pub open spec fn filter_list_of(line: Seq<char>) -> Option<Set<Seq<char>>> {
    let t = trim(line);
    let prefix = "FILTER_LIST="@;
    if starts_with(t, prefix) {
        filter_names(t.subrange(prefix.len() as int, t.len() as int))
    } else {
        None
    }
}

spec fn extend(acc: Set<Seq<char>>, rest: Option<Set<Seq<char>>>) -> Option<Set<Seq<char>>> {
    match rest {
        Some(t) => Some(acc.union(t)),
        None => None,
    }
}

proof fn lemma_find_char(s: Seq<char>, c: char)
    ensures
        find(s, seq![c]) is None <==> !has_char(s, c),
        find(s, seq![c]) matches Some(q) ==> 0 <= q < s.len() && s[q] == c,
{
    match find(s, seq![c]) {
        Some(q) => {
            assert(is_first_at(s, seq![c], q));
            assert(s.subrange(q, q + 1)[0] == s[q]);
        },
        None => {
            if has_char(s, c) {
                let i = choose|i: int| 0 <= i < s.len() && s[i] == c;
                assert(s.subrange(i, i + 1) =~= seq![c]);
                lemma_first_exists(s, seq![c], i);
            }
        },
    }
}

/// Where a pattern occurs at all, it has a first occurrence.
pub proof fn lemma_first_exists(s: Seq<char>, pat: Seq<char>, i: int)
    requires
        occurs_at(s, pat, i),
    ensures
        exists|k: int| is_first_at(s, pat, k),
    decreases i,
{
    if forall|j: int| 0 <= j < i ==> !occurs_at(s, pat, j) {
        assert(is_first_at(s, pat, i));
    } else {
        let j = choose|j: int| 0 <= j < i && occurs_at(s, pat, j);
        lemma_first_exists(s, pat, j);
    }
}

/// Reads the first line of a rule file: `FILTER_LIST=` followed by the
/// quoted names of the rules to exclude.
pub fn parse_filter_list(line: &str) -> (r: Result<FilterList, ParseError>)
    ensures
        r is Ok <==> filter_list_of(line@) is Some,
        r matches Ok(f) ==> f.wf() && filter_list_of(line@) == Some(f@),
        r matches Err(e) ==> e is InvalidFilterList,
{
    let v = chars_of(line);
    let (lo, hi) = trim_bounds(&v, 0, v.len());
    let prefix = chars_of("FILTER_LIST=");
    assert(v@.subrange(0, v@.len() as int) =~= line@);
    if !matches_at(&v, lo, hi, &prefix) {
        return Err(ParseError::InvalidFilterList(String::from_str("Expected FILTER_LIST= at the start of first line")));
    }
    let ghost t = v@.subrange(lo as int, hi as int);
    let start = lo + prefix.len();
    let ghost vals = v@.subrange(start as int, hi as int);
    assert(vals =~= t.subrange(prefix@.len() as int, t.len() as int));
    let quote = vec!['"'];
    let comma = vec![','];
    assert(quote@ =~= seq!['"']);
    assert(comma@ =~= seq![',']);
    let mut acc = FilterList::new();
    let mut i: usize = start;
    while i < hi
        invariant
            start <= i <= hi,
            hi <= v@.len(),
            acc.wf(),
            quote@ == seq!['"'],
            comma@ == seq![','],
            filter_names(vals) == extend(acc@, filter_names(v@.subrange(i as int, hi as int))),
            filter_list_of(line@) == filter_names(vals),
        decreases hi - i,
    {
        let ghost cur = v@.subrange(i as int, hi as int);
        let c = v[i];
        assert(cur[0] == c);
        if c == ' ' || c == ',' {
            assert(cur.drop_first() =~= v@.subrange(i + 1, hi as int));
            i = i + 1;
        } else if c == '"' {
            let ghost body = cur.drop_first();
            assert(body =~= v@.subrange(i + 1, hi as int));
            match find_in(&v, i + 1, hi, &quote) {
                None => {
                    return Err(ParseError::InvalidFilterList(String::from_str("Unclosed quoted string in FILTER_LIST")));
                },
                Some(q) => {
                    proof {
                        lemma_find_char(body, '"');
                    }
                    let ghost name = body.subrange(0, q - i - 1);
                    assert(name =~= v@.subrange(i + 1, q as int));
                    let has_comma = find_in(&v, i + 1, q, &comma).is_some();
                    proof {
                        lemma_find_char(name, ',');
                    }
                    if has_comma {
                        return Err(ParseError::InvalidFilterList(String::from_str("Unexpected comma inside quoted string")));
                    }
                    assert(body.subrange(q - i, body.len() as int) =~= v@.subrange(q + 1, hi as int));
                    let ghost old_acc = acc@;
                    if q > i + 1 {
                        let nm = string_of(&v, i + 1, q);
                        acc.insert(nm);
                    }
                    proof {
                        match filter_names(v@.subrange(q + 1, hi as int)) {
                            Some(tt) => {
                                if name.len() > 0 {
                                    assert(old_acc.union(tt.insert(name)) =~= acc@.union(tt));
                                } else {
                                    assert(old_acc.union(tt) =~= acc@.union(tt));
                                }
                            },
                            None => {},
                        }
                    }
                    i = q + 1;
                },
            }
        } else {
            return Err(ParseError::InvalidFilterList(String::from_str("Unexpected character outside quotes")));
        }
    }
    proof {
        assert(v@.subrange(i as int, hi as int) =~= Seq::<char>::empty());
        assert(acc@.union(Set::<Seq<char>>::empty()) =~= acc@);
    }
    Ok(acc)
}

/// One rewrite rule as written in a rule file.
#[derive(Debug, Clone, PartialEq, Eq)]
pub struct RuleDefinition {
    /// Name of the rule.
    pub name: String,
    /// Searcher pattern.
    pub searcher: String,
    /// `true` for `<=>`, `false` for `=>`.
    pub bidirectional: bool,
    /// Applier pattern.
    pub applier: String,
    /// The `if` conditions, kept as written.
    pub conditions: Vec<String>,
}

/// A rule as plain sequences: name, searcher, direction, applier, conditions.
pub type RuleModel = (Seq<char>, Seq<char>, bool, Seq<char>, Seq<Seq<char>>);

impl RuleDefinition {
    /// The rule as plain sequences.
    pub open spec fn view(&self) -> RuleModel {
        (
            self.name@,
            self.searcher@,
            self.bidirectional,
            self.applier@,
            self.conditions@.map_values(|c: String| c@),
        )
    }

    /// Whether the filter list excludes this rule.
    pub fn is_filtered(&self, filter_list: &FilterList) -> (r: bool)
        ensures
            r == filter_list@.contains(self.name@),
    {
        filter_list.contains(self.name.as_str())
    }
}

/// A quoted string at the start of `s` once trimmed: what stands between the
/// opening quote and the next quote, and what follows the closing quote.
pub open spec fn quoted(s: Seq<char>) -> Option<(Seq<char>, Seq<char>)> {
    let t = trim(s);
    if t.len() > 0 && t[0] == '"' {
        match find(t.drop_first(), seq!['"']) {
            Some(q) => Some((t.subrange(1, q + 1), t.subrange(q + 2, t.len() as int))),
            None => None,
        }
    } else {
        None
    }
}

/// A condition at the start of `s`: the text up to the next `if `, trimmed,
/// and the rest from that `if ` on; or all of a non-empty `s`, trimmed.
pub open spec fn condition_of(s: Seq<char>) -> Option<(Seq<char>, Seq<char>)> {
    match find(s, "if "@) {
        Some(pos) => Some((trim(s.subrange(0, pos)), s.subrange(pos, s.len() as int))),
        None => if s.len() > 0 {
            Some((trim(s), Seq::empty()))
        } else {
            None
        },
    }
}

/// The conditions of a rule: while the text starts with `if`, one condition
/// follows it.
pub open spec fn conditions_of(s: Seq<char>) -> Seq<Seq<char>>
    decreases s.len(),
    via conditions_of_decreases
{
    if starts_with(s, "if"@) && s.len() >= 2 {
        match condition_of(trim_start(s.subrange(2, s.len() as int))) {
            Some((c, rest)) => seq![c] + conditions_of(trim(rest)),
            None => Seq::empty(),
        }
    } else {
        Seq::empty()
    }
}

#[via_fn]
proof fn conditions_of_decreases(s: Seq<char>) {
    if starts_with(s, "if"@) && s.len() >= 2 {
        let r = trim_start(s.subrange(2, s.len() as int));
        lemma_trim_len(s.subrange(2, s.len() as int));
        match condition_of(r) {
            Some((c, rest)) => {
                lemma_trim_len(rest);
                match find(r, "if "@) {
                    Some(pos) => {
                        assert(is_first_at(r, "if "@, pos));
                    },
                    None => {},
                }
            },
            None => {},
        }
    }
}

/// A blank line or a `#` comment.
pub open spec fn is_skipped(s: Seq<char>) -> bool {
    trim(s).len() == 0 || trim(s)[0] == '#'
}

/// The direction marker at the start of `s` and what follows it, trimmed.
pub open spec fn direction_of(s: Seq<char>) -> Option<(bool, Seq<char>)> {
    if starts_with(s, "<=>"@) {
        Some((true, trim(s.subrange(3, s.len() as int))))
    } else if starts_with(s, "=>"@) {
        Some((false, trim(s.subrange(2, s.len() as int))))
    } else {
        None
    }
}

/// The rule that a line defines:
/// `"name"; "searcher" => "applier" [if condition]*`, `<=>` for both ways.
pub open spec fn rule_of(line: Seq<char>) -> Option<RuleModel> {
    let t = trim(line);
    if is_skipped(line) {
        None
    } else {
        match find(t, seq![';']) {
            None => None,
            Some(k) => match quoted(trim(t.subrange(0, k))) {
                None => None,
                Some((name, _)) => match quoted(trim(t.subrange(k + 1, t.len() as int))) {
                    None => None,
                    Some((searcher, r1)) => match direction_of(trim(r1)) {
                        None => None,
                        Some((bidirectional, r2)) => match quoted(r2) {
                            None => None,
                            Some((applier, r3)) => Some(
                                (name, searcher, bidirectional, applier, conditions_of(trim(r3))),
                            ),
                        },
                    },
                },
            },
        }
    }
}

/// The quoted string at the start of `v[lo..hi]` once trimmed: the bounds of
/// its content and the end of what follows the closing quote.
fn quoted_at(v: &Vec<char>, lo: usize, hi: usize) -> (r: Option<(usize, usize, usize)>)
    requires
        lo <= hi <= v@.len(),
    ensures
        r is Some <==> quoted(v@.subrange(lo as int, hi as int)) is Some,
        r matches Some(x) ==> lo <= x.0 <= x.1 && x.1 + 1 <= x.2 <= hi && quoted(
            v@.subrange(lo as int, hi as int),
        ) == Some((v@.subrange(x.0 as int, x.1 as int), v@.subrange(x.1 + 1, x.2 as int))),
{
    let (a, b) = trim_bounds(v, lo, hi);
    if a == b || v[a] != '"' {
        return None;
    }
    let ghost t = v@.subrange(a as int, b as int);
    assert(t.drop_first() =~= v@.subrange(a + 1, b as int));
    let quote = vec!['"'];
    assert(quote@ =~= seq!['"']);
    match find_in(v, a + 1, b, &quote) {
        None => None,
        Some(q) => {
            assert(is_first_at(t.drop_first(), seq!['"'], q - a - 1));
            assert(t.subrange(1, q - a) =~= v@.subrange(a + 1, q as int));
            assert(t.subrange(q - a + 1, t.len() as int) =~= v@.subrange(q + 1, b as int));
            Some((a + 1, q, b))
        },
    }
}

/// Reads a quoted string: the text between the first two double quotes of
/// `input` once trimmed, which must begin with a quote.
pub fn parse_quoted_string(input: &str, line_num: usize) -> (r: Result<String, ParseError>)
    ensures
        r is Ok <==> quoted(input@) is Some,
        r matches Ok(x) ==> quoted(input@) matches Some((c, _)) && x@ == c,
        r matches Err(e) ==> e matches ParseError::LineError { line, .. } && line == line_num,
{
    let v = chars_of(input);
    assert(v@.subrange(0, v@.len() as int) =~= input@);
    match quoted_at(&v, 0, v.len()) {
        Some((c0, c1, _)) => Ok(string_of(&v, c0, c1)),
        None => Err(
            ParseError::LineError {
                line: line_num,
                message: String::from_str("Expected a closed quoted string"),
            },
        ),
    }
}

/// Reads a quoted string as `parse_quoted_string` does and also returns what
/// follows its closing quote.
pub fn parse_next_quoted_string<'a>(input: &'a str, line_num: usize) -> (r: Result<
    (String, &'a str),
    ParseError,
>)
    ensures
        r is Ok <==> quoted(input@) is Some,
        r matches Ok(x) ==> quoted(input@) == Some((x.0@, x.1@)),
        r matches Err(e) ==> e matches ParseError::LineError { line, .. } && line == line_num,
{
    let v = chars_of(input);
    assert(v@.subrange(0, v@.len() as int) =~= input@);
    match quoted_at(&v, 0, v.len()) {
        Some((c0, c1, e)) => Ok((string_of(&v, c0, c1), input.substring_char(c1 + 1, e))),
        None => Err(
            ParseError::LineError {
                line: line_num,
                message: String::from_str("Expected a closed quoted string"),
            },
        ),
    }
}

/// The condition at the start of `v[lo..hi]`: the bounds of its trimmed text
/// and the start of the rest.
fn condition_at(v: &Vec<char>, lo: usize, hi: usize) -> (r: Option<(usize, usize, usize)>)
    requires
        lo <= hi <= v@.len(),
    ensures
        r is Some <==> condition_of(v@.subrange(lo as int, hi as int)) is Some,
        r matches Some(x) ==> lo <= x.0 <= x.1 <= hi && lo <= x.2 <= hi && condition_of(
            v@.subrange(lo as int, hi as int),
        ) == Some((v@.subrange(x.0 as int, x.1 as int), v@.subrange(x.2 as int, hi as int))),
{
    let pat = chars_of("if ");
    match find_in(v, lo, hi, &pat) {
        Some(pos) => {
            proof {
                assert(is_first_at(v@.subrange(lo as int, hi as int), pat@, pos - lo));
                assert(v@.subrange(lo as int, hi as int).subrange(0, pos - lo) =~= v@.subrange(
                    lo as int,
                    pos as int,
                ));
                assert(v@.subrange(lo as int, hi as int).subrange(pos - lo, hi - lo) =~= v@.subrange(
                    pos as int,
                    hi as int,
                ));
            }
            let (c0, c1) = trim_bounds(v, lo, pos);
            Some((c0, c1, pos))
        },
        None => {
            if lo == hi {
                None
            } else {
                let (c0, c1) = trim_bounds(v, lo, hi);
                assert(v@.subrange(hi as int, hi as int) =~= Seq::<char>::empty());
                Some((c0, c1, hi))
            }
        },
    }
}

/// Reads one condition: the text up to the next `if `, trimmed, together
/// with the rest from that `if ` on; or all of a non-empty input.
pub fn parse_condition_expression<'a>(input: &'a str) -> (r: Option<(String, &'a str)>)
    ensures
        r is Some <==> condition_of(input@) is Some,
        r matches Some(x) ==> condition_of(input@) == Some((x.0@, x.1@)),
{
    let v = chars_of(input);
    assert(v@.subrange(0, v@.len() as int) =~= input@);
    match condition_at(&v, 0, v.len()) {
        Some((c0, c1, rest)) => Some((string_of(&v, c0, c1), input.substring_char(rest, v.len()))),
        None => None,
    }
}

fn line_error(line_num: usize, message: &str) -> (e: ParseError)
    ensures
        e matches ParseError::LineError { line, message: m } && line == line_num && m@ == message@,
{
    ParseError::LineError { line: line_num, message: String::from_str(message) }
}

/// Whether a line is blank or a `#` comment, and so defines no rule.
pub fn is_skipped_line(line: &str) -> (r: bool)
    ensures
        r == is_skipped(line@),
{
    let v = chars_of(line);
    assert(v@.subrange(0, v@.len() as int) =~= line@);
    let (a, b) = trim_bounds(&v, 0, v.len());
    a == b || v[a] == '#'
}

/// Reads one rule line: `"name"; "searcher" => "applier" [if condition]*`,
/// with `<=>` for a rule that applies both ways. Every error names
/// `line_num`; a blank or comment line gives the error "Skipped (empty or
/// comment)".
pub fn parse_rule_line(line: &str, line_num: usize) -> (r: Result<RuleDefinition, ParseError>)
    ensures
        r is Ok <==> rule_of(line@) is Some,
        r matches Ok(d) ==> rule_of(line@) == Some(d@),
        r matches Err(e) ==> e matches ParseError::LineError { line, .. } && line == line_num,
        is_skipped(line@) ==> (r matches Err(ParseError::LineError { message, .. }) && message@
            == "Skipped (empty or comment)"@),
{
    let v = chars_of(line);
    assert(v@.subrange(0, v@.len() as int) =~= line@);
    let (a, b) = trim_bounds(&v, 0, v.len());
    let ghost t = v@.subrange(a as int, b as int);
    if a == b || v[a] == '#' {
        return Err(line_error(line_num, "Skipped (empty or comment)"));
    }
    let semi = vec![';'];
    assert(semi@ =~= seq![';']);
    let k = match find_in(&v, a, b, &semi) {
        Some(k) => k,
        None => {
            return Err(
                line_error(line_num, "Missing semicolon separator between rule name and definition"),
            );
        },
    };
    assert(is_first_at(t, seq![';'], k - a));
    assert(t.subrange(0, k - a) =~= v@.subrange(a as int, k as int));
    assert(t.subrange(k - a + 1, t.len() as int) =~= v@.subrange(k + 1, b as int));
    let (n0, n1) = trim_bounds(&v, a, k);
    let (r0, r1) = trim_bounds(&v, k + 1, b);
    let name = match quoted_at(&v, n0, n1) {
        Some((c0, c1, _)) => string_of(&v, c0, c1),
        None => {
            return Err(line_error(line_num, "Rule name must be a quoted string"));
        },
    };
    let (s0, s1, e1) = match quoted_at(&v, r0, r1) {
        Some(x) => x,
        None => {
            return Err(line_error(line_num, "Expected a closed quoted searcher pattern"));
        },
    };
    let searcher = string_of(&v, s0, s1);
    let (x0, x1) = trim_bounds(&v, s1 + 1, e1);
    let ghost d = v@.subrange(x0 as int, x1 as int);
    let both = chars_of("<=>");
    let one = chars_of("=>");
    proof {
        reveal_strlit("<=>");
        reveal_strlit("=>");
        reveal_strlit("if");
    }
    let bidirectional: bool;
    let y0: usize;
    let y1: usize;
    if matches_at(&v, x0, x1, &both) {
        assert(d.subrange(3, d.len() as int) =~= v@.subrange(x0 + 3, x1 as int));
        let (ap0, ap1) = trim_bounds(&v, x0 + 3, x1);
        bidirectional = true;
        y0 = ap0;
        y1 = ap1;
    } else if matches_at(&v, x0, x1, &one) {
        assert(d.subrange(2, d.len() as int) =~= v@.subrange(x0 + 2, x1 as int));
        let (ap0, ap1) = trim_bounds(&v, x0 + 2, x1);
        bidirectional = false;
        y0 = ap0;
        y1 = ap1;
    } else {
        return Err(line_error(line_num, "Expected => or <=> after searcher pattern"));
    }
    let (ap0, ap1, e2) = match quoted_at(&v, y0, y1) {
        Some(x) => x,
        None => {
            return Err(line_error(line_num, "Expected a closed quoted applier pattern"));
        },
    };
    let applier = string_of(&v, ap0, ap1);
    let (z0, z1) = trim_bounds(&v, ap1 + 1, e2);
    let ghost all = conditions_of(v@.subrange(z0 as int, z1 as int));
    let mut conditions: Vec<String> = Vec::new();
    let mut c0: usize = z0;
    let mut c1: usize = z1;
    let iff = chars_of("if");
    let mut go = matches_at(&v, c0, c1, &iff);
    while go
        invariant
            c0 <= c1 <= v@.len(),
            iff@ == "if"@,
            iff@.len() == 2,
            go == starts_with(v@.subrange(c0 as int, c1 as int), "if"@),
            all == conditions@.map_values(|c: String| c@) + conditions_of(
                v@.subrange(c0 as int, c1 as int),
            ),
        decreases c1 - c0,
    {
        let ghost cur = v@.subrange(c0 as int, c1 as int);
        assert(cur.subrange(2, cur.len() as int) =~= v@.subrange(c0 + 2, c1 as int));
        let (w0, _) = trim_bounds(&v, c0 + 2, c1);
        match condition_at(&v, w0, c1) {
            Some((d0, d1, rest)) => {
                let ghost before = conditions@.map_values(|c: String| c@);
                let cond = string_of(&v, d0, d1);
                conditions.push(cond);
                let (n0, n1) = trim_bounds(&v, rest, c1);
                proof {
                    assert(conditions@.map_values(|c: String| c@) =~= before.push(
                        v@.subrange(d0 as int, d1 as int),
                    ));
                    assert(all =~= conditions@.map_values(|c: String| c@) + conditions_of(
                        v@.subrange(n0 as int, n1 as int),
                    ));
                }
                c0 = n0;
                c1 = n1;
                go = matches_at(&v, c0, c1, &iff);
            },
            None => {
                assert(all =~= conditions@.map_values(|c: String| c@) + conditions_of(
                    v@.subrange(c1 as int, c1 as int),
                ));
                c0 = c1;
                go = false;
            },
        }
    }
    assert(all =~= conditions@.map_values(|c: String| c@));
    Ok(RuleDefinition { name, searcher, bidirectional, applier, conditions })
}

/// A line after the first that is neither skipped nor a well-formed rule.
pub open spec fn is_bad_line(line: Seq<char>) -> bool {
    !is_skipped(line) && rule_of(line) is None
}

/// The rules that `lines` define, in order, leaving out blank and comment
/// lines and the rules whose name `filter` holds.
pub open spec fn kept_rules(lines: Seq<Seq<char>>, filter: Set<Seq<char>>) -> Seq<RuleModel>
    decreases lines.len(),
{
    if lines.len() == 0 {
        Seq::empty()
    } else {
        let earlier = kept_rules(lines.drop_last(), filter);
        match rule_of(lines.last()) {
            Some(m) => if !is_skipped(lines.last()) && !filter.contains(m.0) {
                earlier.push(m)
            } else {
                earlier
            },
            None => earlier,
        }
    }
}

/// No two rules share a name.
pub open spec fn names_unique(rules: Seq<RuleModel>) -> bool {
    forall|i: int, j: int| 0 <= i < j < rules.len() ==> #[trigger] rules[i].0 != #[trigger] rules[j].0
}

/// The rules that a file of `lines` keeps, once its filter list is read.
pub open spec fn file_rules(lines: Seq<Seq<char>>) -> Option<Seq<RuleModel>> {
    match filter_list_of(lines[0]) {
        Some(f) => Some(kept_rules(lines.subrange(1, lines.len() as int), f)),
        None => None,
    }
}

/// Reads a whole rule file given as its lines: the filter list on the first
/// line, then one rule per line. Rules that the filter list names are left
/// out; blank and comment lines are ignored. The first malformed rule line
/// fails the whole file with its 1-based line number; after that, two kept
/// rules of one name fail it as an invalid rule.
pub fn parse_rule_lines(lines: &Vec<String>) -> (r: Result<(FilterList, Vec<RuleDefinition>), ParseError>)
    ensures
        r is Ok <==> lines@.len() > 0 && filter_list_of(lines@[0]@) is Some && (forall|j: int|
            1 <= j < lines@.len() ==> !is_bad_line(#[trigger] lines@[j]@)) && names_unique(
            file_rules(lines@.map_values(|l: String| l@))->0,
        ),
        r matches Ok(x) ==> x.0.wf() && filter_list_of(lines@[0]@) == Some(x.0@) && x.1@.map_values(
            |d: RuleDefinition| d@,
        ) == kept_rules(lines@.map_values(|l: String| l@).subrange(1, lines@.len() as int), x.0@),
        r matches Err(e) ==> (e is InvalidFilterList && (lines@.len() == 0 || filter_list_of(
            lines@[0]@,
        ) is None)) || (e matches ParseError::LineError { line, .. } && 2 <= line <= lines@.len()
            && is_bad_line(lines@[line - 1]@) && forall|j: int|
            1 <= j < line - 1 ==> !is_bad_line(#[trigger] lines@[j]@)) || (e is InvalidRule
            && lines@.len() > 0 && filter_list_of(lines@[0]@) is Some && (forall|j: int|
            1 <= j < lines@.len() ==> !is_bad_line(#[trigger] lines@[j]@)) && !names_unique(
            file_rules(lines@.map_values(|l: String| l@))->0,
        )),
{
    if lines.len() == 0 {
        return Err(ParseError::InvalidFilterList(String::from_str("File is empty, expected FILTER_LIST on first line")));
    }
    let filter = match parse_filter_list(lines[0].as_str()) {
        Ok(f) => f,
        Err(e) => {
            return Err(e);
        },
    };
    let ghost views = lines@.map_values(|l: String| l@);
    let mut rules: Vec<RuleDefinition> = Vec::new();
    let mut i: usize = 1;
    while i < lines.len()
        invariant
            1 <= i <= lines@.len(),
            views == lines@.map_values(|l: String| l@),
            filter.wf(),
            forall|j: int| 1 <= j < i ==> !is_bad_line(#[trigger] lines@[j]@),
            rules@.map_values(|d: RuleDefinition| d@) == kept_rules(views.subrange(1, i as int), filter@),
        decreases lines@.len() - i,
    {
        let ghost before = rules@.map_values(|d: RuleDefinition| d@);
        assert(views.subrange(1, i + 1).drop_last() =~= views.subrange(1, i as int));
        assert(views.subrange(1, i + 1).last() == lines@[i as int]@);
        if is_skipped_line(lines[i].as_str()) {
        } else {
            match parse_rule_line(lines[i].as_str(), i + 1) {
                Ok(rule) => {
                    if !rule.is_filtered(&filter) {
                        rules.push(rule);
                        assert(rules@.map_values(|d: RuleDefinition| d@) =~= before.push(rule@));
                    }
                },
                Err(e) => {
                    return Err(e);
                },
            }
        }
        i = i + 1;
    }
    assert(views.subrange(1, lines@.len() as int) == lines@.map_values(|l: String| l@).subrange(1, lines@.len() as int));
    assert(views[0] == lines@[0]@);
    let ghost models = rules@.map_values(|d: RuleDefinition| d@);
    assert(file_rules(views) == Some(models));
    let mut a: usize = 0;
    while a < rules.len()
        invariant
            a <= rules@.len(),
            models == rules@.map_values(|d: RuleDefinition| d@),
            file_rules(views) == Some(models),
            views == lines@.map_values(|l: String| l@),
            lines@.len() > 0 && filter_list_of(lines@[0]@) is Some,
            forall|j: int| 1 <= j < lines@.len() ==> !is_bad_line(#[trigger] lines@[j]@),

            forall|i: int, j: int| 0 <= i < j < rules@.len() && i < a ==> #[trigger] models[i].0 != #[trigger] models[j].0,
        decreases rules@.len() - a,
    {
        let mut b: usize = a + 1;
        while b < rules.len()
            invariant
                a < b <= rules@.len(),
                models == rules@.map_values(|d: RuleDefinition| d@),
                file_rules(views) == Some(models),
                views == lines@.map_values(|l: String| l@),
                lines@.len() > 0 && filter_list_of(lines@[0]@) is Some,
                forall|j: int| 1 <= j < lines@.len() ==> !is_bad_line(#[trigger] lines@[j]@),

                forall|i: int, j: int| 0 <= i < j < rules@.len() && i < a ==> #[trigger] models[i].0 != #[trigger] models[j].0,
                forall|j: int| a < j < b ==> models[a as int].0 != #[trigger] models[j].0,
            decreases rules@.len() - b,
        {
            if str_eq(rules[a].name.as_str(), rules[b].name.as_str()) {
                assert(models[a as int].0 == models[b as int].0);
                assert(!names_unique(models));
                let mut m = String::from_str("Duplicate rule name ");
                crate::text::push_str(&mut m, rules[a].name.as_str());
                return Err(ParseError::InvalidRule(m));
            }
            b = b + 1;
        }
        a = a + 1;
    }
    assert(names_unique(models));
    Ok((filter, rules))
}

} // verus!
