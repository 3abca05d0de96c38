//! Selectors: a chain of compound matchers and direct-child markers.
use crate::error::ParseError;
use crate::matcher::{parse_matcher, Matcher, MatcherView};
use crate::text::{chars_of, pieces, split_whitespace, words};
use vstd::pervasive::unreached;
use vstd::prelude::*;
use vstd::string::StrSliceExecFns;

verus! {

/// A parsed selector: its matchers in the order of the selector's tokens. Two matchers
/// that follow each other stand for "descendant of", unless the direct-child marker
/// stands between them.
#[derive(Debug, PartialEq, Eq)]
pub struct Selector {
    pub matchers: Vec<Matcher>,
}

/// The models of a list of matchers.
pub open spec fn matchers_view(matchers: Seq<Matcher>) -> Seq<MatcherView> {
    matchers.map_values(|m: Matcher| m@)
}

impl View for Selector {
    type V = Seq<MatcherView>;

    open spec fn view(&self) -> Seq<MatcherView> {
        matchers_view(self.matchers@)
    }
}

/// What the tokens of a selector say, in order, or the error of the first token that
/// has one.
pub open spec fn parse_tokens(tokens: Seq<Seq<char>>) -> Result<Seq<MatcherView>, Seq<char>>
    decreases tokens.len(),
{
    if tokens.len() == 0 {
        Ok(Seq::empty())
    } else {
        match parse_tokens(tokens.drop_last()) {
            Ok(matchers) => match parse_matcher(tokens.last()) {
                Ok(m) => Ok(matchers.push(m)),
                Err(clause) => Err(clause),
            },
            Err(clause) => Err(clause),
        }
    }
}

/// What a selector says: the matchers of its whitespace-separated tokens.
pub open spec fn parse_selector(input: Seq<char>) -> Result<Seq<MatcherView>, Seq<char>> {
    parse_tokens(words(input))
}

/// [`parse_selector`] with the views of an executable result in place of the result.
pub open spec fn is_parsed_selector(input: Seq<char>, result: Result<Selector, ParseError>) -> bool {
    match result {
        Ok(s) => parse_selector(input) == Ok::<_, Seq<char>>(s@),
        Err(e) => parse_selector(input) == Err::<Seq<MatcherView>, _>(e@),
    }
}

/// Whether a chain of matchers has the shape of a selector: it holds a compound
/// matcher, and a direct-child marker stands neither first, nor last, nor behind
/// another marker.
pub open spec fn is_chain(matchers: Seq<MatcherView>) -> bool {
    &&& matchers.len() > 0
    &&& !matchers[0].direct_match
    &&& !matchers.last().direct_match
    &&& forall|k: int|
        0 < k < matchers.len() && (#[trigger] matchers[k]).direct_match ==> !matchers[k
            - 1].direct_match
}

/// An error in a token is the error of every list of tokens that begins with the tokens
/// up to it.
pub proof fn lemma_parse_tokens_error(tokens: Seq<Seq<char>>, k: int)
    requires
        0 <= k <= tokens.len(),
        parse_tokens(tokens.take(k)) is Err,
    ensures
        parse_tokens(tokens) == parse_tokens(tokens.take(k)),
    decreases tokens.len() - k,
{
    if k < tokens.len() {
        assert(tokens.take(k + 1).drop_last() =~= tokens.take(k));
        lemma_parse_tokens_error(tokens, k + 1);
    } else {
        assert(tokens.take(k) =~= tokens);
    }
}

impl Selector {
    /// The invariant of a selector: that of each of its matchers.
    pub open spec fn well_formed(&self) -> bool {
        forall|k: int| 0 <= k < self.matchers@.len() ==> (#[trigger] self.matchers@[k]).well_formed()
    }

    /// Reads a selector. Fails on the first attribute clause that has `=` and no name.
    pub fn parse(input: &str) -> (result: Result<Selector, ParseError>)
        ensures
            is_parsed_selector(input@, result),
            result matches Ok(s) ==> s.well_formed(),
    {
        let chars = chars_of(input);
        let ranges = split_whitespace(&chars);
        let ghost tokens = words(input@);
        let mut matchers: Vec<Matcher> = Vec::new();
        let mut k: usize = 0;
        assert(tokens.take(0) =~= Seq::empty());
        assert(matchers_view(matchers@) =~= Seq::empty());
        while k < ranges.len()
            invariant
                k <= ranges@.len(),
                chars@ == input@,
                tokens == words(input@),
                tokens == pieces(chars@, ranges@),
                crate::text::ranges_within(ranges@, chars@.len()),
                parse_tokens(tokens.take(k as int)) == Ok::<_, Seq<char>>(
                    matchers_view(matchers@),
                ),
                forall|j: int| 0 <= j < matchers@.len() ==> (#[trigger] matchers@[j]).well_formed(),
            decreases ranges@.len() - k,
        {
            let token = input.substring_char(ranges[k].0, ranges[k].1);
            assert(token@ == tokens[k as int]);
            assert(tokens.take(k + 1).drop_last() =~= tokens.take(k as int));
            assert(tokens.take(k + 1).last() == tokens[k as int]);
            match Matcher::parse(token) {
                Ok(m) => {
                    let ghost before = matchers_view(matchers@);
                    matchers.push(m);
                    assert(matchers_view(matchers@) =~= before.push(m@));
                },
                Err(e) => {
                    proof {
                        lemma_parse_tokens_error(tokens, k + 1);
                    }
                    return Err(e);
                },
            }
            k = k + 1;
        }
        assert(tokens.take(k as int) =~= tokens);
        Ok(Selector { matchers })
    }

    /// Whether the selector has the shape of a chain: see [`is_chain`]. The search is
    /// defined for every selector, and a chain is what a reader of CSS expects.
    pub fn is_chain(&self) -> (b: bool)
        ensures
            b == is_chain(self@),
    {
        let n: usize = self.matchers.len();
        assert(self@.len() == n);
        assert forall|j: int| 0 <= j < n implies (#[trigger] self@[j]).direct_match
            == self.matchers@[j].direct_match by {}
        if n == 0 || self.matchers[0].direct_match || self.matchers[n - 1].direct_match {
            return false;
        }
        let mut k: usize = 1;
        while k < n
            invariant
                1 <= k <= n,
                n == self.matchers@.len(),
                n == self@.len(),
                forall|j: int| 0 <= j < n ==> (#[trigger] self@[j]).direct_match
                    == self.matchers@[j].direct_match,
                forall|j: int|
                    0 < j < k && (#[trigger] self@[j]).direct_match ==> !self@[j - 1].direct_match,
            decreases n - k,
        {
            if self.matchers[k].direct_match && self.matchers[k - 1].direct_match {
                assert(self@[k as int].direct_match && self@[k - 1].direct_match);
                return false;
            }
            k = k + 1;
        }
        true
    }

    /// Reads a selector in which every attribute clause with `=` has a name.
    pub fn from(input: &str) -> (selector: Selector)
        requires
            parse_selector(input@) is Ok,
        ensures
            selector.well_formed(),
            parse_selector(input@) == Ok::<_, Seq<char>>(selector@),
    {
        match Selector::parse(input) {
            Ok(selector) => selector,
            Err(_) => unreached(),
        }
    }
}

} // verus!
