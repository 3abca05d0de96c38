//! Laws of selection: what holds of every document and every selector.
use crate::element::{is_selection, Element};
use crate::matcher::{
    is_break, lemma_segment_end_bounds, parse_matcher, segment_end, segments, segments_from, tokens_ok,
    MatcherView,
};
use crate::query::{
    accepted, descendants_from, forest, indices, node_accepted, run, selection, step, subtree,
};
use crate::selector::{is_chain, parse_selector, parse_tokens};
use crate::text::{is_whitespace, lemma_word_end_bounds, word_end, words, words_from};
use crate::tree::{is_tree, AttributeView, Document, NodeDataView, NodeView};
use vstd::prelude::*;

verus! {

/// Determinism: a document and a selector determine what a selection hands out. Any
/// two results of selecting with one selector below one node of one document are the
/// same elements in the same order.
pub proof fn law_selection_is_determined(
    doc: &Document,
    scope: usize,
    selector: Seq<char>,
    first: Seq<Element>,
    second: Seq<Element>,
)
    requires
        is_selection(doc, scope, selector, first),
        is_selection(doc, scope, selector, second),
    ensures
        first == second,
{
    assert(indices(first).len() == first.len());
    assert(indices(second).len() == second.len());
    assert forall|k: int| 0 <= k < first.len() implies first[k] == second[k] by {
        assert(indices(first)[k] == first[k].index());
        assert(indices(second)[k] == second[k].index());
        assert(first[k].is_element_of(doc));
        assert(second[k].is_element_of(doc));
        first[k].lemma_same_element(second[k]);
    }
    assert(first =~= second);
}

/// Whether `x` holds no whitespace and none of `#`, `.`, `[`, `]`.
pub open spec fn is_name(x: Seq<char>) -> bool {
    forall|i: int| 0 <= i < x.len() ==> !is_whitespace(#[trigger] x[i]) && !is_break(x[i])
}

/// Whether `x` can stand as a tag selector: it is a name, not empty, and not the marker
/// `>`.
pub open spec fn is_plain_name(x: Seq<char>) -> bool {
    &&& x.len() > 0
    &&& x != seq!['>']
    &&& is_name(x)
}

/// Whether the node `i` is an element with the tag `x`.
pub open spec fn node_has_tag(t: Seq<NodeView>, x: Seq<char>, i: usize) -> bool {
    i < t.len() && t[i as int].data is Element && t[i as int].data->Element_name == x
}

/// [`node_has_tag`] as a property of nodes.
pub open spec fn has_tag(t: Seq<NodeView>, x: Seq<char>) -> spec_fn(usize) -> bool {
    |i: usize| node_has_tag(t, x, i)
}

/// The matcher that asks for the tag `x` and nothing else.
pub open spec fn tag_matcher(x: Seq<char>) -> MatcherView {
    MatcherView { tag: seq![x], ..MatcherView::unconstrained() }
}

/// Two properties that agree on every entry of a sequence keep the same entries.
pub proof fn lemma_filter_agree<A>(s: Seq<A>, p: spec_fn(A) -> bool, q: spec_fn(A) -> bool)
    requires
        forall|i: int| 0 <= i < s.len() ==> p(#[trigger] s[i]) == q(s[i]),
    ensures
        s.filter(p) == s.filter(q),
    decreases s.len(),
{
    reveal(Seq::filter);
    if s.len() > 0 {
        let front = s.drop_last();
        assert forall|i: int| 0 <= i < front.len() implies p(#[trigger] front[i]) == q(front[i]) by {
            assert(front[i] == s[i]);
        }
        lemma_filter_agree(front, p, q);
        assert(s.last() == s[s.len() - 1]);
    }
}

/// The subtrees of two lists of roots, one list after the other, are the subtrees of
/// the joined list.
pub proof fn lemma_forest_add(t: Seq<NodeView>, a: Seq<usize>, b: Seq<usize>)
    ensures
        forest(t, a + b) == forest(t, a) + forest(t, b),
    decreases b.len(),
{
    if b.len() == 0 {
        assert(a + b =~= a);
        assert(forest(t, a) + forest(t, b) =~= forest(t, a));
    } else {
        assert((a + b).drop_last() =~= a + b.drop_last());
        assert((a + b).last() == b.last());
        lemma_forest_add(t, a, b.drop_last());
        assert(forest(t, a + b) =~= forest(t, a) + forest(t, b));
    }
}

/// The nodes below a node of a tree are the subtrees of its children from position
/// `k` on.
pub proof fn lemma_descendants_are_forest(t: Seq<NodeView>, i: usize, k: int)
    requires
        is_tree(t),
        i < t.len(),
        0 <= k <= t[i as int].children.len(),
    ensures
        descendants_from(t, i, k) == forest(
            t,
            t[i as int].children.subrange(k, t[i as int].children.len() as int),
        ),
    decreases t[i as int].children.len() - k,
{
    let children = t[i as int].children;
    let n = children.len() as int;
    if k < n {
        let child = children[k];
        assert(i < child < t.len());
        lemma_descendants_are_forest(t, i, k + 1);
        let one = seq![child];
        assert(one.drop_last() =~= Seq::<usize>::empty());
        assert(one.last() == child);
        assert(forest(t, Seq::<usize>::empty()) =~= Seq::<usize>::empty());
        assert(forest(t, one) =~= subtree(t, child));
        lemma_forest_add(t, one, children.subrange(k + 1, n));
        assert(one + children.subrange(k + 1, n) =~= children.subrange(k, n));
    } else {
        assert(children.subrange(k, n) =~= Seq::<usize>::empty());
    }
}

/// A plain name is one word, one segment, and reads as the matcher for its tag.
pub proof fn lemma_plain_name_parses(x: Seq<char>)
    requires
        is_plain_name(x),
    ensures
        parse_selector(x) == Ok::<_, Seq<char>>(seq![tag_matcher(x)]),
{
    let n = x.len() as int;
    lemma_one_token(x);
    assert forall|k: int| 1 <= k < n implies !is_break(#[trigger] x[k]) by {}
    lemma_segment_ends_at(x, 1, n);
    assert(segments_from(x, n) =~= Seq::<Seq<char>>::empty());
    assert(x.subrange(0, n) =~= x);
    assert(segments(x) =~= seq![x]);
    let start = MatcherView::unconstrained();
    assert(!is_break(x[0]));
    assert(start.tag.push(x) =~= seq![x]);
    assert(start.with_segment(x) == Ok::<_, Seq<char>>(tag_matcher(x)));
    assert(seq![x].drop_first() =~= Seq::<Seq<char>>::empty());
    assert(seq![x][0] == x);
    assert(tag_matcher(x).with_segments(Seq::<Seq<char>>::empty()) == Ok::<_, Seq<char>>(
        tag_matcher(x),
    ));
    assert(start.with_segments(seq![x]) == Ok::<_, Seq<char>>(tag_matcher(x)));
    assert(parse_matcher(x) == Ok::<_, Seq<char>>(tag_matcher(x)));
}

/// The matcher for a tag accepts the elements with that tag, whatever their attributes.
pub proof fn lemma_tag_matcher_accepts(x: Seq<char>, name: Seq<char>, attrs: Seq<AttributeView>)
    ensures
        tag_matcher(x).accepts(name, attrs) == (name == x),
{
    let m = tag_matcher(x);
    assert(m.tag[0] == x);
    if name == x {
        assert(m.tag.contains(name));
    }
}

/// A tag selector `x` selects exactly the elements with the tag `x`, in document
/// order: its selection is the list of all nodes of the document in document order,
/// with everything but those elements left out.
pub proof fn law_tag_selector(t: Seq<NodeView>, x: Seq<char>)
    requires
        is_tree(t),
        is_plain_name(x),
    ensures
        parse_selector(x) is Ok,
        selection(t, 0, parse_selector(x)->Ok_0) == subtree(t, 0).filter(has_tag(t, x)),
{
    lemma_plain_name_parses(x);
    let m = tag_matcher(x);
    let matchers = seq![m];
    let work = t[0].children;
    assert(matchers.drop_first() =~= Seq::<MatcherView>::empty());
    assert(run(t, Seq::<MatcherView>::empty(), step(t, m, work, false), false) == step(
        t,
        m,
        work,
        false,
    ));
    assert(selection(t, 0, matchers) == forest(t, work).filter(accepted(t, m)));
    lemma_descendants_are_forest(t, 0, 0);
    assert(work.subrange(0, work.len() as int) =~= work);
    let below = descendants_from(t, 0, 0);
    assert(forest(t, work) == below);
    assert forall|i: int| 0 <= i < below.len() implies accepted(t, m)(#[trigger] below[i])
        == has_tag(t, x)(below[i]) by {
        let node = below[i];
        if node < t.len() {
            match t[node as int].data {
                NodeDataView::Element { name, attrs } => {
                    lemma_tag_matcher_accepts(x, name, attrs);
                },
                _ => {},
            }
        }
    }
    lemma_filter_agree(below, accepted(t, m), has_tag(t, x));
    let root = seq![0usize];
    assert(subtree(t, 0) == root + below);
    assert(root.filter(has_tag(t, x)) =~= Seq::<usize>::empty()) by {
        reveal(Seq::filter);
        assert(root.drop_last() =~= Seq::<usize>::empty());
        assert(Seq::<usize>::empty().filter(has_tag(t, x)) =~= Seq::<usize>::empty());
        assert(!node_has_tag(t, x, 0));
    }
    Seq::filter_distributes_over_add(root, below, has_tag(t, x));
    assert(Seq::<usize>::empty() + below.filter(has_tag(t, x)) =~= below.filter(has_tag(t, x)));
}

/// Whether two matchers ask the same but for the order, and the repetition, of their
/// class tokens.
pub open spec fn same_but_class_order(a: MatcherView, b: MatcherView) -> bool {
    &&& a.tag == b.tag
    &&& a.id == b.id
    &&& a.attribute == b.attribute
    &&& a.direct_match == b.direct_match
    &&& a.class.to_set() == b.class.to_set()
}

/// Whether a list of tokens is satisfied depends on the tokens alone, not on their
/// order.
pub proof fn lemma_tokens_order(a: Seq<Seq<char>>, b: Seq<Seq<char>>, value: Option<Seq<char>>)
    requires
        a.to_set() == b.to_set(),
    ensures
        tokens_ok(a, value) == tokens_ok(b, value),
{
    if tokens_ok(a, value) {
        lemma_tokens_sub(a, b, value);
    }
    if tokens_ok(b, value) {
        lemma_tokens_sub(b, a, value);
    }
}

/// Tokens that are satisfied stay satisfied in any other order.
proof fn lemma_tokens_sub(a: Seq<Seq<char>>, b: Seq<Seq<char>>, value: Option<Seq<char>>)
    requires
        a.to_set() == b.to_set(),
        tokens_ok(a, value),
    ensures
        tokens_ok(b, value),
{
    match value {
        Some(v) => {
            assert forall|k: int| 0 <= k < b.len() implies words(v).contains(#[trigger] b[k]) by {
                assert(b.to_set().contains(b[k]));
                assert(a.to_set().contains(b[k]));
                let j = choose|j: int| 0 <= j < a.len() && a[j] == b[k];
                assert(words(v).contains(a[j]));
            }
        },
        None => {
            if b.len() > 0 {
                assert(b.to_set().contains(b[0]));
                assert(a.to_set().contains(b[0]));
            }
        },
    }
}

/// Class order independence, for one element: two matchers that differ in the order of
/// their class tokens alone accept the same elements.
pub proof fn law_class_order_matcher(
    a: MatcherView,
    b: MatcherView,
    name: Seq<char>,
    attrs: Seq<AttributeView>,
)
    requires
        same_but_class_order(a, b),
    ensures
        a.accepts(name, attrs) == b.accepts(name, attrs),
{
    lemma_tokens_order(a.class, b.class, crate::tree::attr_value(attrs, "class"@));
}

/// The compound token `tag.first.second`.
pub open spec fn with_two_classes(tag: Seq<char>, first: Seq<char>, second: Seq<char>) -> Seq<char> {
    tag + seq!['.'] + first + seq!['.'] + second
}

/// The matcher that asks for the tag `tag` and the class tokens `first` and `second`.
pub open spec fn two_class_matcher(tag: Seq<char>, first: Seq<char>, second: Seq<char>) -> MatcherView {
    MatcherView { tag: seq![tag], class: seq![first, second], ..MatcherView::unconstrained() }
}

/// A text without whitespace is one word, and is read as a selector of one matcher.
pub proof fn lemma_one_token(s: Seq<char>)
    requires
        s.len() > 0,
        forall|i: int| 0 <= i < s.len() ==> !is_whitespace(#[trigger] s[i]),
    ensures
        words(s) == seq![s],
        parse_selector(s) == match parse_matcher(s) {
            Ok(m) => Ok::<_, Seq<char>>(seq![m]),
            Err(clause) => Err(clause),
        },
{
    let n = s.len() as int;
    lemma_word_end_bounds(s, 1);
    assert(word_end(s, 1) == n);
    assert(words_from(s, n) =~= Seq::<Seq<char>>::empty());
    assert(s.subrange(0, n) =~= s);
    assert(words(s) =~= seq![s]);
    let tokens = seq![s];
    assert(tokens.drop_last() =~= Seq::<Seq<char>>::empty());
    assert(tokens.last() == s);
    assert(parse_tokens(Seq::<Seq<char>>::empty()) == Ok::<_, Seq<char>>(
        Seq::<MatcherView>::empty(),
    ));
    match parse_matcher(s) {
        Ok(m) => {
            assert(Seq::<MatcherView>::empty().push(m) =~= seq![m]);
        },
        Err(_) => {},
    }
}

/// The segment that begins at `i` ends at `j` if no segment ends in between and one
/// ends at `j`.
pub proof fn lemma_segment_ends_at(s: Seq<char>, i: int, j: int)
    requires
        0 <= i <= j <= s.len(),
        forall|k: int| i <= k < j ==> !is_break(#[trigger] s[k]),
        j < s.len() ==> is_break(s[j]),
    ensures
        segment_end(s, i) == j,
{
    lemma_segment_end_bounds(s, i);
    let e = segment_end(s, i);
    if e < j {
        assert(!is_break(s[e]));
    } else if e > j {
        assert(is_break(s[j]));
    }
}

/// The token `tag.first.second` is read as the matcher for that tag and those two
/// class tokens.
pub proof fn lemma_two_classes_parse(tag: Seq<char>, first: Seq<char>, second: Seq<char>)
    requires
        is_plain_name(tag),
        is_name(first),
        is_name(second),
    ensures
        parse_selector(with_two_classes(tag, first, second)) == Ok::<_, Seq<char>>(
            seq![two_class_matcher(tag, first, second)],
        ),
{
    let s = with_two_classes(tag, first, second);
    let a = tag.len() as int;
    let b = a + 1 + first.len();
    let n = b + 1 + second.len();
    assert(s.len() == n);
    assert forall|k: int| 0 <= k < a implies #[trigger] s[k] == tag[k] by {}
    assert(s[a] == '.');
    assert forall|k: int| a < k < b implies #[trigger] s[k] == first[k - a - 1] by {}
    assert(s[b] == '.');
    assert forall|k: int| b < k < n implies #[trigger] s[k] == second[k - b - 1] by {}
    assert forall|k: int| 0 <= k < n implies !is_whitespace(#[trigger] s[k]) by {
        if k < a {
            assert(s[k] == tag[k]);
        } else if a < k < b {
            assert(s[k] == first[k - a - 1]);
        } else if b < k {
            assert(s[k] == second[k - b - 1]);
        }
    }
    lemma_one_token(s);
    assert(s != seq!['>']) by {
        assert(s.len() >= 3);
        assert(seq!['>'].len() == 1);
    }
    assert forall|k: int| 1 <= k < a implies !is_break(#[trigger] s[k]) by {
        assert(s[k] == tag[k]);
    }
    lemma_segment_ends_at(s, 1, a);
    assert forall|k: int| a + 1 <= k < b implies !is_break(#[trigger] s[k]) by {
        assert(s[k] == first[k - a - 1]);
    }
    lemma_segment_ends_at(s, a + 1, b);
    assert forall|k: int| b + 1 <= k < n implies !is_break(#[trigger] s[k]) by {
        assert(s[k] == second[k - b - 1]);
    }
    lemma_segment_ends_at(s, b + 1, n);
    let one = s.subrange(0, a);
    let two = s.subrange(a, b);
    let three = s.subrange(b, n);
    assert(one =~= tag);
    assert(two =~= seq!['.'] + first);
    assert(three =~= seq!['.'] + second);
    assert(s[0] == tag[0]);
    assert(!is_break(s[0]));
    assert(segments_from(s, n) =~= Seq::<Seq<char>>::empty());
    assert(segments_from(s, b) =~= seq![three]);
    assert(segments_from(s, a) =~= seq![two, three]);
    assert(segments(s) =~= seq![one, two, three]);
    let m0 = MatcherView::unconstrained();
    let m1 = MatcherView { tag: seq![tag], ..m0 };
    let m2 = MatcherView { class: seq![first], ..m1 };
    let m3 = two_class_matcher(tag, first, second);
    assert(m0.tag.push(one) =~= seq![tag]);
    assert(m0.with_segment(one) == Ok::<_, Seq<char>>(m1));
    assert(two.subrange(1, two.len() as int) =~= first);
    assert(m1.class.push(first) =~= seq![first]);
    assert(m1.with_segment(two) == Ok::<_, Seq<char>>(m2));
    assert(three.subrange(1, three.len() as int) =~= second);
    assert(m2.class.push(second) =~= seq![first, second]);
    assert(m2.with_segment(three) == Ok::<_, Seq<char>>(m3));
    let all = seq![one, two, three];
    assert(all.drop_first() =~= seq![two, three]);
    assert(seq![two, three].drop_first() =~= seq![three]);
    assert(seq![three].drop_first() =~= Seq::<Seq<char>>::empty());
    assert(m3.with_segments(Seq::<Seq<char>>::empty()) == Ok::<_, Seq<char>>(m3));
    assert(m2.with_segments(seq![three]) == Ok::<_, Seq<char>>(m3));
    assert(m1.with_segments(seq![two, three]) == Ok::<_, Seq<char>>(m3));
    assert(m0.with_segments(all) == Ok::<_, Seq<char>>(m3));
    assert(parse_matcher(s) == Ok::<_, Seq<char>>(m3));
}

/// Class order independence of selectors: `tag.first.second` and `tag.second.first`
/// select the same nodes, in the same order, below any node of any tree.
pub proof fn law_class_order_of_selectors(
    t: Seq<NodeView>,
    scope: usize,
    tag: Seq<char>,
    first: Seq<char>,
    second: Seq<char>,
)
    requires
        is_plain_name(tag),
        is_name(first),
        is_name(second),
    ensures
        parse_selector(with_two_classes(tag, first, second)) is Ok,
        parse_selector(with_two_classes(tag, second, first)) is Ok,
        selection(t, scope, parse_selector(with_two_classes(tag, first, second))->Ok_0)
            == selection(t, scope, parse_selector(with_two_classes(tag, second, first))->Ok_0),
{
    lemma_two_classes_parse(tag, first, second);
    lemma_two_classes_parse(tag, second, first);
    let a = two_class_matcher(tag, first, second);
    let b = two_class_matcher(tag, second, first);
    assert(a.class.to_set() =~= b.class.to_set()) by {
        assert forall|c: Seq<char>| a.class.to_set().contains(c) <==> b.class.to_set().contains(
            c,
        ) by {
            assert(a.class[0] == first && a.class[1] == second);
            assert(b.class[0] == second && b.class[1] == first);
            if a.class.contains(c) {
                let k = choose|k: int| 0 <= k < a.class.len() && a.class[k] == c;
                assert(b.class[1 - k] == c);
            }
            if b.class.contains(c) {
                let k = choose|k: int| 0 <= k < b.class.len() && b.class[k] == c;
                assert(a.class[1 - k] == c);
            }
        }
    }
    assert(seq![a][0] == a);
    assert(seq![b][0] == b);
    law_class_order(t, seq![a], seq![b], t[scope as int].children, false);
}

/// Class order independence: two selectors that differ in the order of the class
/// tokens of their matchers alone select the same nodes, in the same order, from any
/// working set of any tree.
pub proof fn law_class_order(
    t: Seq<NodeView>,
    first: Seq<MatcherView>,
    second: Seq<MatcherView>,
    work: Seq<usize>,
    direct: bool,
)
    requires
        first.len() == second.len(),
        forall|k: int| 0 <= k < first.len() ==> same_but_class_order(#[trigger] first[k], second[k]),
    ensures
        run(t, first, work, direct) == run(t, second, work, direct),
    decreases first.len(),
{
    if first.len() > 0 {
        let a = first[0];
        let b = second[0];
        assert(same_but_class_order(a, b));
        assert forall|i: usize| #[trigger] node_accepted(t, a, i) == node_accepted(t, b, i) by {
            if i < t.len() {
                match t[i as int].data {
                    NodeDataView::Element { name, attrs } => {
                        law_class_order_matcher(a, b, name, attrs);
                    },
                    _ => {},
                }
            }
        }
        lemma_filter_agree(work, accepted(t, a), accepted(t, b));
        lemma_filter_agree(forest(t, work), accepted(t, a), accepted(t, b));
        assert(step(t, a, work, direct) == step(t, b, work, direct));
        let rest_first = first.drop_first();
        let rest_second = second.drop_first();
        assert forall|k: int| 0 <= k < rest_first.len() implies same_but_class_order(
            #[trigger] rest_first[k],
            rest_second[k],
        ) by {
            assert(rest_first[k] == first[k + 1]);
            assert(rest_second[k] == second[k + 1]);
        }
        law_class_order(t, rest_first, rest_second, step(t, a, work, direct), a.direct_match);
    }
}

/// What a selector that ends in a compound matcher selects are elements that this
/// last matcher accepts. This holds of every selector with the shape of a chain.
pub proof fn law_results_are_accepted(
    t: Seq<NodeView>,
    matchers: Seq<MatcherView>,
    work: Seq<usize>,
    direct: bool,
)
    requires
        is_chain(matchers),
    ensures
        forall|k: int|
            0 <= k < run(t, matchers, work, direct).len() ==> node_accepted(
                t,
                matchers.last(),
                #[trigger] run(t, matchers, work, direct)[k],
            ),
{
    lemma_last_step(t, matchers, work, direct);
}

/// What a selector that ends in a compound matcher selects passed that matcher.
proof fn lemma_last_step(t: Seq<NodeView>, matchers: Seq<MatcherView>, work: Seq<usize>, direct: bool)
    requires
        matchers.len() > 0,
        !matchers.last().direct_match,
    ensures
        forall|k: int|
            0 <= k < run(t, matchers, work, direct).len() ==> node_accepted(
                t,
                matchers.last(),
                #[trigger] run(t, matchers, work, direct)[k],
            ),
    decreases matchers.len(),
{
    let m = matchers[0];
    let next = step(t, m, work, direct);
    let rest = matchers.drop_first();
    assert(run(t, matchers, work, direct) == run(t, rest, next, m.direct_match));
    if matchers.len() == 1 {
        assert(matchers.last() == m);
        assert(rest.len() == 0);
        assert(run(t, rest, next, m.direct_match) == next);
        let keep = accepted(t, m);
        let from = if direct {
            work
        } else {
            forest(t, work)
        };
        assert(next == from.filter(keep));
        assert forall|k: int| 0 <= k < next.len() implies node_accepted(t, m, #[trigger] next[k]) by {
            from.lemma_filter_pred(keep, k);
        }
    } else {
        assert(rest.last() == matchers.last());
        lemma_last_step(t, rest, next, m.direct_match);
    }
}

} // verus!
