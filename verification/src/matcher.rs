//! Compound selectors: one whitespace-free token of a selector, and its test of an element.
use crate::attribute::{parse_clause, AttributeSpec, AttributeSpecView};
use crate::error::ParseError;
use crate::text::{
    chars_of, find_char, index_of_char, lemma_find_char_bounds, pieces, range_eq, ranges_within,
    split_whitespace, words,
};
use crate::tree::{attr_value, attributes_view, get_attr, text_view, Attribute, AttributeView};
use vstd::pervasive::unreached;
use vstd::prelude::*;
use vstd::string::StrSliceExecFns;

verus! {

/// One step of a selector: either the direct-child marker `>`, or the constraints that a
/// compound token such as `a.link#main[href]` puts on an element.
#[derive(Debug, PartialEq, Eq, Clone)]
pub struct Matcher {
    /// The acceptable tag names; none means any tag.
    pub tag: Vec<String>,
    /// The class tokens that the element must all have.
    pub class: Vec<String>,
    /// The id tokens that the element must all have.
    pub id: Vec<String>,
    /// The attribute predicates, by attribute name: no name stands twice.
    pub attribute: Vec<(String, AttributeSpec)>,
    /// Whether this is the direct-child marker; the other fields are then empty.
    pub direct_match: bool,
}

/// The model of a [`Matcher`].
pub ghost struct MatcherView {
    pub tag: Seq<Seq<char>>,
    pub class: Seq<Seq<char>>,
    pub id: Seq<Seq<char>>,
    pub attribute: Map<Seq<char>, AttributeSpecView>,
    pub direct_match: bool,
}

/// The texts of a list of strings.
pub open spec fn strings_view(v: Seq<String>) -> Seq<Seq<char>> {
    v.map_values(|s: String| s@)
}

/// The mapping that a list of entries stands for: of two entries with one name, the later
/// one counts.
pub open spec fn entries_map(entries: Seq<(String, AttributeSpec)>) -> Map<
    Seq<char>,
    AttributeSpecView,
>
    decreases entries.len(),
{
    if entries.len() == 0 {
        Map::empty()
    } else {
        entries_map(entries.drop_last()).insert(entries.last().0@, entries.last().1@)
    }
}

/// Whether no name stands twice in `entries`.
pub open spec fn distinct_names(entries: Seq<(String, AttributeSpec)>) -> bool {
    forall|i: int, j: int|
        0 <= i < j < entries.len() ==> (#[trigger] entries[i]).0@ != (#[trigger] entries[j]).0@
}

impl View for Matcher {
    type V = MatcherView;

    open spec fn view(&self) -> MatcherView {
        MatcherView {
            tag: strings_view(self.tag@),
            class: strings_view(self.class@),
            id: strings_view(self.id@),
            attribute: entries_map(self.attribute@),
            direct_match: self.direct_match,
        }
    }
}

/// Whether `c` ends a segment of a compound token that is no attribute clause.
pub open spec fn is_break(c: char) -> bool {
    c == '#' || c == '.' || c == '[' || c == ']'
}

/// The first position at or after `i` that holds one of `#`, `.`, `[`, `]`, or the length
/// of `s`.
pub open spec fn segment_end(s: Seq<char>, i: int) -> int
    decreases s.len() - i,
{
    if i < 0 || i >= s.len() || is_break(s[i]) {
        i
    } else {
        segment_end(s, i + 1)
    }
}

/// The segments of `s` that begin at or after `i`. An attribute clause begins at `[` and
/// runs up to the next `]`, or to the end of the token. Outside a clause a segment begins
/// at `#` or `.`, at the start of the token, or behind a `]`, and runs up to the next of
/// `#`, `.`, `[`, `]`. The `]` itself belongs to no segment.
pub open spec fn segments_from(s: Seq<char>, i: int) -> Seq<Seq<char>>
    decreases s.len() - i,
{
    if i < 0 || i >= s.len() {
        Seq::empty()
    } else if s[i] == ']' {
        segments_from(s, i + 1)
    } else {
        let end = if s[i] == '[' {
            find_char(s, ']', i + 1)
        } else {
            segment_end(s, i + 1)
        };
        proof {
            lemma_find_char_bounds(s, ']', i + 1);
            lemma_segment_end_bounds(s, i + 1);
        }
        seq![s.subrange(i, end)] + segments_from(s, end)
    }
}

/// The segments of the compound token `s`, in order. None of them is empty.
pub open spec fn segments(s: Seq<char>) -> Seq<Seq<char>> {
    segments_from(s, 0)
}

/// The end of a segment lies behind its start, holds one of `#`, `.`, `[`, `]` unless it
/// is the end of the token, and none of them stands before it.
pub proof fn lemma_segment_end_bounds(s: Seq<char>, i: int)
    requires
        0 <= i <= s.len(),
    ensures
        i <= segment_end(s, i) <= s.len(),
        segment_end(s, i) < s.len() ==> is_break(s[segment_end(s, i)]),
        forall|j: int| i <= j < segment_end(s, i) ==> !is_break(s[j]),
    decreases s.len() - i,
{
    if i < s.len() && !is_break(s[i]) {
        lemma_segment_end_bounds(s, i + 1);
    }
}

impl MatcherView {
    /// The matcher without any constraint.
    pub open spec fn unconstrained() -> MatcherView {
        MatcherView {
            tag: Seq::empty(),
            class: Seq::empty(),
            id: Seq::empty(),
            attribute: Map::empty(),
            direct_match: false,
        }
    }

    /// The direct-child marker.
    pub open spec fn marker() -> MatcherView {
        MatcherView { direct_match: true, ..MatcherView::unconstrained() }
    }

    /// The matcher with the predicate `spec` on the attribute `name`, in place of any
    /// earlier predicate on that attribute.
    pub open spec fn with_attribute(self, name: Seq<char>, spec: AttributeSpecView) -> MatcherView {
        MatcherView { attribute: self.attribute.insert(name, spec), ..self }
    }

    /// The matcher with the constraint of one more segment, by the segment's first
    /// character: `#` adds an id token, `.` a class token, `[` an attribute clause, and
    /// anything else makes the segment a tag name. The error is that of the clause.
    pub open spec fn with_segment(self, segment: Seq<char>) -> Result<MatcherView, Seq<char>> {
        let rest = segment.subrange(1, segment.len() as int);
        if segment[0] == '#' {
            Ok(MatcherView { id: self.id.push(rest), ..self })
        } else if segment[0] == '.' {
            Ok(MatcherView { class: self.class.push(rest), ..self })
        } else if segment[0] == '[' {
            match parse_clause(rest) {
                Ok((name, spec)) => Ok(self.with_attribute(name, spec)),
                Err(clause) => Err(clause),
            }
        } else {
            Ok(MatcherView { tag: self.tag.push(segment), ..self })
        }
    }

    /// The matcher with the constraints of `segments`, taken in order, or the first error.
    pub open spec fn with_segments(self, segments: Seq<Seq<char>>) -> Result<
        MatcherView,
        Seq<char>,
    >
        decreases segments.len(),
    {
        if segments.len() == 0 {
            Ok(self)
        } else {
            match self.with_segment(segments[0]) {
                Ok(next) => next.with_segments(segments.drop_first()),
                Err(clause) => Err(clause),
            }
        }
    }

    /// Whether an element may have the tag `name`.
    pub open spec fn tag_ok(self, name: Seq<char>) -> bool {
        self.tag.len() == 0 || self.tag.contains(name)
    }

    /// Whether the element has the attributes that the predicates ask for. A predicate on
    /// an attribute that the element does not have is satisfied.
    pub open spec fn attributes_ok(self, attrs: Seq<AttributeView>) -> bool {
        forall|name: Seq<char>| #[trigger]
            self.attribute.dom().contains(name) ==> value_ok(
                self.attribute[name],
                attr_value(attrs, name),
            )
    }

    /// Whether the matcher accepts an element with the tag `name` and the attributes
    /// `attrs`.
    pub open spec fn accepts(self, name: Seq<char>, attrs: Seq<AttributeView>) -> bool {
        &&& self.tag_ok(name)
        &&& tokens_ok(self.id, attr_value(attrs, "id"@))
        &&& tokens_ok(self.class, attr_value(attrs, "class"@))
        &&& self.attributes_ok(attrs)
    }
}

/// Whether the value of an attribute, if the element has the attribute, satisfies `spec`.
pub open spec fn value_ok(spec: AttributeSpecView, value: Option<Seq<char>>) -> bool {
    match value {
        Some(v) => spec.accepts(v),
        None => true,
    }
}

/// Whether every token of `required` is one of the words of the attribute's value. An
/// element without the attribute has no token.
pub open spec fn tokens_ok(required: Seq<Seq<char>>, value: Option<Seq<char>>) -> bool {
    match value {
        Some(v) => forall|k: int| 0 <= k < required.len() ==> words(v).contains(#[trigger] required[k]),
        None => required.len() == 0,
    }
}

/// What a token of a selector says: `>` alone is the direct-child marker, any other
/// token is a compound of its segments.
pub open spec fn parse_matcher(token: Seq<char>) -> Result<MatcherView, Seq<char>> {
    if token == seq!['>'] {
        Ok(MatcherView::marker())
    } else {
        MatcherView::unconstrained().with_segments(segments(token))
    }
}

/// [`parse_matcher`] with the views of an executable result in place of the result.
pub open spec fn is_parsed_matcher(token: Seq<char>, result: Result<Matcher, ParseError>) -> bool {
    match result {
        Ok(m) => parse_matcher(token) == Ok::<_, Seq<char>>(m@),
        Err(e) => parse_matcher(token) == Err::<MatcherView, _>(e@),
    }
}

/// What a list of entries without a repeated name stands for: the names are the
/// mapping's domain, and each entry gives its name's value.
pub proof fn lemma_entries_map(entries: Seq<(String, AttributeSpec)>)
    requires
        distinct_names(entries),
    ensures
        forall|name: Seq<char>|
            entries_map(entries).dom().contains(name) <==> exists|i: int|
                0 <= i < entries.len() && (#[trigger] entries[i]).0@ == name,
        forall|i: int|
            0 <= i < entries.len() ==> entries_map(entries).dom().contains(
                (#[trigger] entries[i]).0@,
            ) && entries_map(entries)[entries[i].0@] == entries[i].1@,
    decreases entries.len(),
{
    if entries.len() > 0 {
        let front = entries.drop_last();
        let last = entries.last();
        let n = entries.len() as int;
        lemma_entries_map(front);
        assert(entries_map(entries) == entries_map(front).insert(last.0@, last.1@));
        assert forall|i: int| 0 <= i < front.len() implies #[trigger] front[i] == entries[i] by {}
        assert forall|name: Seq<char>|
            entries_map(entries).dom().contains(name) <==> exists|i: int|
                0 <= i < entries.len() && (#[trigger] entries[i]).0@ == name by {
            if entries_map(entries).dom().contains(name) {
                if name == last.0@ {
                    assert(entries[n - 1].0@ == name);
                } else {
                    assert(entries_map(front).dom().contains(name));
                    let i = choose|i: int| 0 <= i < front.len() && (#[trigger] front[i]).0@ == name;
                    assert(front[i] == entries[i]);
                    assert(entries[i].0@ == name);
                }
            }
            if exists|i: int| 0 <= i < entries.len() && (#[trigger] entries[i]).0@ == name {
                let i = choose|i: int| 0 <= i < entries.len() && (#[trigger] entries[i]).0@ == name;
                if i < front.len() {
                    assert(front[i].0@ == name);
                    assert(entries_map(front).dom().contains(name));
                }
            }
        }
        assert forall|i: int| 0 <= i < entries.len() implies entries_map(entries).dom().contains(
            (#[trigger] entries[i]).0@,
        ) && entries_map(entries)[entries[i].0@] == entries[i].1@ by {
            if i < front.len() {
                assert(front[i] == entries[i]);
                assert(entries[i].0@ != entries[n - 1].0@);
                assert(entries_map(front).dom().contains(front[i].0@));
            }
        }
    }
}

impl Matcher {
    /// The invariant of a matcher: its attribute entries stand for a mapping.
    pub open spec fn well_formed(&self) -> bool {
        distinct_names(self.attribute@)
    }

    /// The matcher without any constraint.
    pub fn unconstrained() -> (m: Matcher)
        ensures
            m.well_formed(),
            m@ == MatcherView::unconstrained(),
    {
        let m = Matcher {
            tag: Vec::new(),
            class: Vec::new(),
            id: Vec::new(),
            attribute: Vec::new(),
            direct_match: false,
        };
        assert(m@.tag =~= Seq::empty());
        assert(m@.class =~= Seq::empty());
        assert(m@.id =~= Seq::empty());
        m
    }

    /// The direct-child marker.
    pub fn marker() -> (m: Matcher)
        ensures
            m.well_formed(),
            m@ == MatcherView::marker(),
    {
        let m = Matcher {
            tag: Vec::new(),
            class: Vec::new(),
            id: Vec::new(),
            attribute: Vec::new(),
            direct_match: true,
        };
        assert(m@.tag =~= Seq::empty());
        assert(m@.class =~= Seq::empty());
        assert(m@.id =~= Seq::empty());
        m
    }

    /// Puts the predicate `spec` on the attribute `name`, in place of any earlier
    /// predicate on that attribute.
    pub fn set_attribute(&mut self, name: String, spec: AttributeSpec)
        requires
            old(self).well_formed(),
        ensures
            final(self).well_formed(),
            final(self)@ == old(self)@.with_attribute(name@, spec@),
    {
        let ghost before = self.attribute@;
        let ghost name_view = name@;
        let ghost spec_view = spec@;
        let mut i: usize = 0;
        while i < self.attribute.len()
            invariant
                i <= self.attribute@.len(),
                self.attribute@ == before,
                *self == *old(self),
                distinct_names(before),
                name_view == name@,
                spec_view == spec@,
                forall|j: int| 0 <= j < i ==> (#[trigger] before[j]).0@ != name@,
            decreases self.attribute@.len() - i,
        {
            if self.attribute[i].0 == name {
                self.attribute.set(i, (name, spec));
                proof {
                    let after = self.attribute@;
                    assert(after[i as int].0@ == name_view);
                    assert(after[i as int].1@ == spec_view);
                    assert forall|a: int| 0 <= a < after.len() implies (#[trigger] after[a]).0@
                        == before[a].0@ by {}
                    assert forall|a: int, b: int| 0 <= a < b < after.len() implies (
                    #[trigger] after[a]).0@ != (#[trigger] after[b]).0@ by {
                        assert(before[a].0@ != before[b].0@);
                    }
                    lemma_entries_map(before);
                    lemma_entries_map(after);
                    let goal = entries_map(before).insert(name_view, spec_view);
                    assert forall|key: Seq<char>|
                        entries_map(after).dom().contains(key) <==> goal.dom().contains(key) by {
                        if entries_map(after).dom().contains(key) {
                            let a = choose|a: int|
                                0 <= a < after.len() && (#[trigger] after[a]).0@ == key;
                            assert(before[a].0@ == key);
                        }
                        if entries_map(before).dom().contains(key) {
                            let a = choose|a: int|
                                0 <= a < before.len() && (#[trigger] before[a]).0@ == key;
                            assert(after[a].0@ == key);
                        }
                    }
                    assert forall|key: Seq<char>|
                        entries_map(after).dom().contains(key) implies entries_map(after)[key]
                        == goal[key] by {
                        let a = choose|a: int|
                            0 <= a < after.len() && (#[trigger] after[a]).0@ == key;
                        if a != i {
                            assert(after[a] == before[a]);
                            assert(before[a].0@ != before[i as int].0@);
                        }
                    }
                    assert(entries_map(after) =~= goal);
                }
                return;
            }
            i = i + 1;
        }
        self.attribute.push((name, spec));
        proof {
            let after = self.attribute@;
            assert(after.drop_last() =~= before);
            assert(after.last().0@ == name_view);
            assert forall|a: int, b: int| 0 <= a < b < after.len() implies (
            #[trigger] after[a]).0@ != (#[trigger] after[b]).0@ by {
                assert(after[a] == before[a]);
                if b < before.len() {
                    assert(after[b] == before[b]);
                }
            }
        }
    }

    /// Reads an attribute clause, the text between `[` and `]`, and puts its predicate on
    /// the attribute that it names.
    pub fn add_data_attribute(&mut self, spec: String)
        requires
            old(self).well_formed(),
            parse_clause(spec@) is Ok,
        ensures
            final(self).well_formed(),
            final(self)@ == old(self)@.with_attribute(
                parse_clause(spec@)->Ok_0.0,
                parse_clause(spec@)->Ok_0.1,
            ),
    {
        match AttributeSpec::parse(spec.as_str()) {
            Ok((name, predicate)) => self.set_attribute(name, predicate),
            Err(_) => unreached(),
        }
    }

    /// Reads a token of a selector. Fails on the first attribute clause that has `=` and
    /// no name.
    pub fn parse(input: &str) -> (result: Result<Matcher, ParseError>)
        ensures
            is_parsed_matcher(input@, result),
            result matches Ok(m) ==> m.well_formed(),
    {
        let chars = chars_of(input);
        let n: usize = chars.len();
        if n == 1 && chars[0] == '>' {
            assert(input@ =~= seq!['>']);
            return Ok(Matcher::marker());
        }
        assert(input@ != seq!['>']) by {
            if input@ == seq!['>'] {
                assert(seq!['>'].len() == 1);
                assert(seq!['>'][0] == '>');
            }
        }
        let mut m = Matcher::unconstrained();
        let mut i: usize = 0;
        while i < n
            invariant
                i <= n,
                n == chars@.len(),
                chars@ == input@,
                m.well_formed(),
                m@.with_segments(segments_from(chars@, i as int)) == parse_matcher(input@),
            decreases n - i,
        {
            if chars[i] == ']' {
                i = i + 1;
            } else {
                let start: usize = i;
                let first = chars[start];
                i = i + 1;
                if first == '[' {
                    i = index_of_char(&chars, ']', i);
                } else {
                    while i < n && chars[i] != '#' && chars[i] != '.' && chars[i] != '[' && chars[i]
                        != ']'
                        invariant
                            start < i <= n,
                            n == chars@.len(),
                            segment_end(chars@, start + 1) == segment_end(chars@, i as int),
                        decreases n - i,
                    {
                        i = i + 1;
                    }
                }
                let ghost segment = chars@.subrange(start as int, i as int);
                let ghost rest = segments_from(chars@, i as int);
                let ghost before = m@;
                proof {
                    assert(segments_from(chars@, start as int) == seq![segment] + rest);
                    assert((seq![segment] + rest)[0] == segment);
                    assert((seq![segment] + rest).drop_first() =~= rest);
                    assert(segment.subrange(1, segment.len() as int) =~= chars@.subrange(
                        start + 1,
                        i as int,
                    ));
                    assert(segment[0] == chars@[start as int]);
                }
                if first == '#' {
                    m.id.push(input.substring_char(start + 1, i).to_owned());
                    assert(m@.id =~= before.id.push(segment.subrange(1, segment.len() as int)));
                } else if first == '.' {
                    m.class.push(input.substring_char(start + 1, i).to_owned());
                    assert(m@.class =~= before.class.push(
                        segment.subrange(1, segment.len() as int),
                    ));
                } else if first == '[' {
                    match AttributeSpec::parse(input.substring_char(start + 1, i)) {
                        Ok((name, spec)) => {
                            m.set_attribute(name, spec);
                        },
                        Err(e) => {
                            return Err(e);
                        },
                    }
                } else {
                    m.tag.push(input.substring_char(start, i).to_owned());
                    assert(m@.tag =~= before.tag.push(segment));
                }
            }
        }
        Ok(m)
    }

    /// Reads a token of a selector in which every attribute clause with `=` has a name.
    pub fn from(input: &str) -> (m: Matcher)
        requires
            parse_matcher(input@) is Ok,
        ensures
            m.well_formed(),
            parse_matcher(input@) == Ok::<_, Seq<char>>(m@),
    {
        match Matcher::parse(input) {
            Ok(m) => m,
            Err(_) => unreached(),
        }
    }

    /// Tests an element, given by its tag name and attributes, against the matcher.
    pub fn matches(&self, name: &str, attrs: &Vec<Attribute>) -> (b: bool)
        requires
            self.well_formed(),
        ensures
            b == self@.accepts(name@, attributes_view(attrs@)),
    {
        let tag_match = self.tag.len() == 0 || has_string(&self.tag, name);
        let id_match = has_tokens(&self.id, get_attr(attrs, "id"));
        let class_match = has_tokens(&self.class, get_attr(attrs, "class"));
        let mut attr_match = true;
        let mut i: usize = 0;
        while i < self.attribute.len() && attr_match
            invariant
                i <= self.attribute@.len(),
                attr_match == forall|j: int|
                    0 <= j < i ==> value_ok(
                        (#[trigger] self.attribute@[j]).1@,
                        attr_value(attributes_view(attrs@), self.attribute@[j].0@),
                    ),
            decreases self.attribute@.len() - i,
        {
            match get_attr(attrs, self.attribute[i].0.as_str()) {
                Some(value) => {
                    if !self.attribute[i].1.matches(value) {
                        attr_match = false;
                    }
                },
                None => {},
            }
            i = i + 1;
        }
        proof {
            lemma_entries_map(self.attribute@);
            let entries = self.attribute@;
            let views = attributes_view(attrs@);
            if attr_match {
                assert forall|key: Seq<char>| #[trigger]
                    self@.attribute.dom().contains(key) implies value_ok(
                    self@.attribute[key],
                    attr_value(views, key),
                ) by {
                    let j = choose|j: int| 0 <= j < entries.len() && (#[trigger] entries[j]).0@ == key;
                    assert(value_ok(entries[j].1@, attr_value(views, entries[j].0@)));
                }
            } else {
                let j = choose|j: int|
                    0 <= j < i && !value_ok(
                        (#[trigger] entries[j]).1@,
                        attr_value(views, entries[j].0@),
                    );
                assert(self@.attribute.dom().contains(entries[j].0@));
            }
        }
        tag_match && id_match && class_match && attr_match
    }
}

/// Whether `name` is one of `list`.
pub fn has_string(list: &Vec<String>, name: &str) -> (b: bool)
    ensures
        b == strings_view(list@).contains(name@),
{
    let key = name.to_owned();
    let mut i: usize = 0;
    while i < list.len()
        invariant
            i <= list@.len(),
            key@ == name@,
            forall|j: int| 0 <= j < i ==> strings_view(list@)[j] != name@,
        decreases list@.len() - i,
    {
        if list[i] == key {
            assert(strings_view(list@)[i as int] == name@);
            return true;
        }
        i = i + 1;
    }
    false
}

/// Whether every token of `required` is among the words of `value`.
pub fn has_tokens(required: &Vec<String>, value: Option<String>) -> (b: bool)
    ensures
        b == tokens_ok(strings_view(required@), text_view(value)),
{
    match value {
        None => required.len() == 0,
        Some(text) => {
            let chars = chars_of(text.as_str());
            let ranges = split_whitespace(&chars);
            let mut k: usize = 0;
            while k < required.len()
                invariant
                    k <= required@.len(),
                    chars@ == text@,
                    text_view(value) == Some(text@),
                    ranges_within(ranges@, chars@.len()),
                    pieces(chars@, ranges@) == words(chars@),
                    forall|j: int|
                        0 <= j < k ==> words(text@).contains(#[trigger] strings_view(required@)[j]),
                decreases required@.len() - k,
            {
                let token = chars_of(required[k].as_str());
                assert(token@ == strings_view(required@)[k as int]);
                let mut found = false;
                let mut w: usize = 0;
                while w < ranges.len() && !found
                    invariant
                        w <= ranges@.len(),
                        ranges_within(ranges@, chars@.len()),
                        pieces(chars@, ranges@).len() == ranges@.len(),
                        found ==> pieces(chars@, ranges@).contains(token@),
                        !found ==> forall|j: int| 0 <= j < w ==> pieces(chars@, ranges@)[j] != token@,
                    decreases ranges@.len() - w,
                {
                    if range_eq(&chars, ranges[w].0, ranges[w].1, &token) {
                        assert(pieces(chars@, ranges@)[w as int] == token@);
                        found = true;
                    }
                    w = w + 1;
                }
                if !found {
                    assert(!words(text@).contains(strings_view(required@)[k as int]));
                    return false;
                }
                k = k + 1;
            }
            true
        },
    }
}

} // verus!
