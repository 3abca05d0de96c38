//! Attribute predicates: what a selector asks of one attribute's value.
use crate::error::ParseError;
use crate::text::{chars_of, contains, ends_with, find_char, index_of_char, occurs_in, starts_with};
use vstd::prelude::*;
use vstd::string::StrSliceExecFns;

verus! {

/// What is asked of the value of an attribute.
#[derive(Debug, PartialEq, Eq, Clone)]
pub enum AttributeSpec {
    /// `[attribute]`: any value.
    Present,
    /// `[attribute="value"]`: exactly this value.
    Exact(String),
    /// `[attribute^="value"]`: a value that begins with this.
    Starts(String),
    /// `[attribute$="value"]`: a value that ends with this.
    Ends(String),
    /// `[attribute*="value"]`: a value that holds this somewhere.
    Contains(String),
}

/// The model of an [`AttributeSpec`].
pub ghost enum AttributeSpecView {
    Present,
    Exact(Seq<char>),
    Starts(Seq<char>),
    Ends(Seq<char>),
    Contains(Seq<char>),
}

impl View for AttributeSpec {
    type V = AttributeSpecView;

    open spec fn view(&self) -> AttributeSpecView {
        match self {
            AttributeSpec::Present => AttributeSpecView::Present,
            AttributeSpec::Exact(v) => AttributeSpecView::Exact(v@),
            AttributeSpec::Starts(v) => AttributeSpecView::Starts(v@),
            AttributeSpec::Ends(v) => AttributeSpecView::Ends(v@),
            AttributeSpec::Contains(v) => AttributeSpecView::Contains(v@),
        }
    }
}

impl AttributeSpecView {
    /// Whether an attribute with the value `value` satisfies the predicate.
    pub open spec fn accepts(self, value: Seq<char>) -> bool {
        match self {
            AttributeSpecView::Present => true,
            AttributeSpecView::Exact(v) => value == v,
            AttributeSpecView::Starts(v) => v.is_prefix_of(value),
            AttributeSpecView::Ends(v) => v.is_suffix_of(value),
            AttributeSpecView::Contains(v) => occurs_in(value, v),
        }
    }
}

/// The first position in `a..b` that holds no `"`, or `b`.
pub open spec fn quotes_start(s: Seq<char>, a: int, b: int) -> int
    decreases b - a,
{
    if a < b && s[a] == '"' {
        quotes_start(s, a + 1, b)
    } else {
        a
    }
}

/// The end of the piece of `a..b` that is left when the `"` at its end are dropped.
pub open spec fn quotes_end(s: Seq<char>, a: int, b: int) -> int
    decreases b - a,
{
    if a < b && s[b - 1] == '"' {
        quotes_end(s, a, b - 1)
    } else {
        b
    }
}

/// The piece `a..b` of `s` without the `"` at its two ends.
pub open spec fn unquoted(s: Seq<char>, a: int, b: int) -> Seq<char> {
    let start = quotes_start(s, a, b);
    s.subrange(start, quotes_end(s, start, b))
}

/// Whether `c` is one of the operator characters `^`, `$`, `*`.
pub open spec fn is_operator(c: char) -> bool {
    c == '^' || c == '$' || c == '*'
}

/// Decides [`is_operator`].
pub fn char_is_operator(c: char) -> (b: bool)
    ensures
        b == is_operator(c),
{
    c == '^' || c == '$' || c == '*'
}

/// Where the name ends in a clause whose first `=` stands at `eq`: before the operator
/// character, if one stands before the `=`, and before the `=` otherwise.
pub open spec fn name_end(clause: Seq<char>, eq: int) -> int {
    if eq > 0 && is_operator(clause[eq - 1]) {
        eq - 1
    } else {
        eq
    }
}

/// What an attribute clause asks, as the attribute's name and the predicate on its value.
///
/// A clause without `=` asks for the attribute's presence. Otherwise the character
/// before the first `=` chooses the operator: `^`, `$` and `*` are operators and do not
/// belong to the name, any other character is the end of the name and the value is asked
/// for exactly. The value is what stands between the first `=` and the next one (or the
/// end), without the quotes around it. A clause in which nothing is left as the name is
/// the error, and the error holds the clause.
pub open spec fn parse_clause(clause: Seq<char>) -> Result<(Seq<char>, AttributeSpecView), Seq<char>> {
    let eq = find_char(clause, '=', 0);
    if eq >= clause.len() {
        Ok((clause, AttributeSpecView::Present))
    } else if name_end(clause, eq) == 0 {
        Err(clause)
    } else {
        let name = clause.subrange(0, name_end(clause, eq));
        let value = unquoted(clause, eq + 1, find_char(clause, '=', eq + 1));
        let op = clause[eq - 1];
        if op == '^' {
            Ok((name, AttributeSpecView::Starts(value)))
        } else if op == '$' {
            Ok((name, AttributeSpecView::Ends(value)))
        } else if op == '*' {
            Ok((name, AttributeSpecView::Contains(value)))
        } else {
            Ok((name, AttributeSpecView::Exact(value)))
        }
    }
}

/// [`parse_clause`] with the views of an executable result in place of the result.
pub open spec fn is_parsed_clause(
    clause: Seq<char>,
    result: Result<(String, AttributeSpec), ParseError>,
) -> bool {
    match result {
        Ok((name, spec)) => parse_clause(clause) == Ok::<_, Seq<char>>((name@, spec@)),
        Err(e) => parse_clause(clause) == Err::<(Seq<char>, AttributeSpecView), _>(e@),
    }
}

impl AttributeSpec {
    /// Tests the value `other` of an attribute against the predicate.
    pub fn matches(&self, other: String) -> (b: bool)
        ensures
            b == self@.accepts(other@),
    {
        match self {
            AttributeSpec::Present => true,
            AttributeSpec::Exact(v) => other == *v,
            AttributeSpec::Starts(v) => starts_with(&chars_of(other.as_str()), &chars_of(v.as_str())),
            AttributeSpec::Ends(v) => ends_with(&chars_of(other.as_str()), &chars_of(v.as_str())),
            AttributeSpec::Contains(v) => contains(&chars_of(other.as_str()), &chars_of(v.as_str())),
        }
    }

    /// Reads an attribute clause, the text between `[` and `]`.
    pub fn parse(clause: &str) -> (result: Result<(String, AttributeSpec), ParseError>)
        ensures
            is_parsed_clause(clause@, result),
    {
        let chars = chars_of(clause);
        let n: usize = chars.len();
        let eq: usize = index_of_char(&chars, '=', 0);
        if eq >= n {
            return Ok((clause.to_owned(), AttributeSpec::Present));
        }
        let name_len: usize = if eq > 0 && char_is_operator(chars[eq - 1]) {
            eq - 1
        } else {
            eq
        };
        if name_len == 0 {
            return Err(ParseError { clause: clause.to_owned() });
        }
        let op = chars[eq - 1];
        let end: usize = index_of_char(&chars, '=', eq + 1);
        let mut lo: usize = eq + 1;
        while lo < end && chars[lo] == '"'
            invariant
                eq + 1 <= lo <= end <= n,
                n == chars@.len(),
                quotes_start(chars@, eq + 1, end as int) == quotes_start(chars@, lo as int, end as int),
            decreases end - lo,
        {
            lo = lo + 1;
        }
        let mut hi: usize = end;
        while lo < hi && chars[hi - 1] == '"'
            invariant
                lo <= hi <= end <= n,
                n == chars@.len(),
                quotes_end(chars@, lo as int, end as int) == quotes_end(chars@, lo as int, hi as int),
            decreases hi - lo,
        {
            hi = hi - 1;
        }
        let value = clause.substring_char(lo, hi).to_owned();
        let name = clause.substring_char(0, name_len).to_owned();
        if op == '^' {
            Ok((name, AttributeSpec::Starts(value)))
        } else if op == '$' {
            Ok((name, AttributeSpec::Ends(value)))
        } else if op == '*' {
            Ok((name, AttributeSpec::Contains(value)))
        } else {
            Ok((name, AttributeSpec::Exact(value)))
        }
    }
}

} // verus!
