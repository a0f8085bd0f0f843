use crate::topic_tree_entry::{
    has_topic, is_ancestor_spec, lemma_ancestors_nest, lemma_below_has_ancestor, lemma_level_rest,
    lemma_no_ancestor_within_level, no_slash, seq_less, sum_messages, sum_topics, topic_under,
    wf_forest, wf_level, wf_node, TopicTreeEntry,
};
use crate::tree_builder::{messages_match, own_messages, TopicHistory};
use vstd::prelude::*;

verus! {

/// Two levels have the same shape: the same topics and labels in the same
/// order, the same own and aggregate counts, and children of the same shape.
pub open spec fn same_shape(a: Seq<TopicTreeEntry>, b: Seq<TopicTreeEntry>) -> bool
    decreases a,
{
    &&& a.len() == b.len()
    &&& forall|k: int|
        0 <= k < a.len() ==> {
            &&& (#[trigger] a[k]).topic@ == b[k].topic@
            &&& a[k].leaf@ == b[k].leaf@
            &&& a[k].messages == b[k].messages
            &&& a[k].topics_below == b[k].topics_below
            &&& a[k].messages_below == b[k].messages_below
            &&& same_shape(a[k].entries_below@, b[k].entries_below@)
        }
}

proof fn lemma_less_irreflexive(a: Seq<char>)
    ensures
        !seq_less(a, a),
    decreases a.len(),
{
    if a.len() > 0 {
        lemma_less_irreflexive(a.drop_first());
    }
}

proof fn lemma_less_transitive(a: Seq<char>, b: Seq<char>, c: Seq<char>)
    requires
        seq_less(a, b),
        seq_less(b, c),
    ensures
        seq_less(a, c),
    decreases a.len(),
{
    if a.len() > 0 && b.len() > 0 && c.len() > 0 && a[0] == b[0] && b[0] == c[0] {
        lemma_less_transitive(a.drop_first(), b.drop_first(), c.drop_first());
    }
}

/// The labels of a well-formed level increase strictly over the whole level.
proof fn lemma_sorted(parent: Option<Seq<char>>, s: Seq<TopicTreeEntry>, i: int, j: int)
    requires
        wf_level(parent, s, true),
        0 <= i < j < s.len(),
    ensures
        seq_less(s[i].leaf@, s[j].leaf@),
    decreases j - i,
{
    assert(s[j - 1].topic@ == topic_under(parent, s[j - 1].leaf@));
    if i < j - 1 {
        lemma_sorted(parent, s, i, j - 1);
        lemma_less_transitive(s[i].leaf@, s[j - 1].leaf@, s[j].leaf@);
    }
}

/// Below one parent, the topic tells the label.
proof fn lemma_topic_under_injective(parent: Option<Seq<char>>, x: Seq<char>, y: Seq<char>)
    requires
        topic_under(parent, x) == topic_under(parent, y),
    ensures
        x == y,
{
    if let Some(p) = parent {
        let t = topic_under(parent, x);
        assert(x =~= t.subrange(p.len() as int + 1, t.len() as int));
        assert(y =~= t.subrange(p.len() as int + 1, t.len() as int));
    }
}

/// No topic of a level is an ancestor of another topic of the same level.
proof fn lemma_level_topics_unrelated(
    parent: Option<Seq<char>>,
    x: Seq<char>,
    y: Seq<char>,
)
    requires
        no_slash(x),
        no_slash(y),
    ensures
        !is_ancestor_spec(topic_under(parent, x), topic_under(parent, y)),
{
    if is_ancestor_spec(topic_under(parent, x), topic_under(parent, y)) {
        lemma_no_ancestor_within_level(parent, y, topic_under(parent, x));
    }
}

/// Whether a node of the level itself (not below it) has topic `t`.
pub open spec fn level_has(s: Seq<TopicTreeEntry>, t: Seq<char>) -> bool {
    exists|j: int| 0 <= j < s.len() && (#[trigger] s[j]).topic@ == t
}

/// Distinct positions of a well-formed level hold distinct topics.
proof fn lemma_distinct_topics(parent: Option<Seq<char>>, s: Seq<TopicTreeEntry>, i: int, j: int)
    requires
        wf_level(parent, s, true),
        0 <= i < s.len(),
        0 <= j < s.len(),
        i != j,
    ensures
        s[i].topic@ != s[j].topic@,
{
    assert(s[i].topic@ == topic_under(parent, s[i].leaf@));
    assert(s[j].topic@ == topic_under(parent, s[j].leaf@));
    if s[i].topic@ == s[j].topic@ {
        lemma_topic_under_injective(parent, s[i].leaf@, s[j].leaf@);
        if i < j {
            lemma_sorted(parent, s, i, j);
        } else {
            lemma_sorted(parent, s, j, i);
        }
        lemma_less_irreflexive(s[i].leaf@);
    }
}

/// Two well-formed levels below one parent whose nodes have the same topics
/// hold them in the same order.
proof fn lemma_same_level(parent: Option<Seq<char>>, a: Seq<TopicTreeEntry>, b: Seq<TopicTreeEntry>)
    requires
        wf_level(parent, a, true),
        wf_level(parent, b, true),
        forall|k: int| 0 <= k < a.len() ==> level_has(b, (#[trigger] a[k]).topic@),
        forall|k: int| 0 <= k < b.len() ==> level_has(a, (#[trigger] b[k]).topic@),
    ensures
        a.len() == b.len(),
        forall|k: int| 0 <= k < a.len() ==> (#[trigger] a[k]).topic@ == b[k].topic@,
    decreases a.len(),
{
    if a.len() == 0 {
        if b.len() > 0 {
            assert(level_has(a, b[0].topic@));
        }
    } else if b.len() == 0 {
        assert(level_has(b, a[0].topic@));
    } else {
        assert(level_has(b, a[0].topic@));
        let j = choose|j: int| 0 <= j < b.len() && (#[trigger] b[j]).topic@ == a[0].topic@;
        assert(level_has(a, b[0].topic@));
        let i = choose|i: int| 0 <= i < a.len() && (#[trigger] a[i]).topic@ == b[0].topic@;
        assert(a[0].topic@ == topic_under(parent, a[0].leaf@));
        assert(b[0].topic@ == topic_under(parent, b[0].leaf@));
        assert(a[i].topic@ == topic_under(parent, a[i].leaf@));
        assert(b[j].topic@ == topic_under(parent, b[j].leaf@));
        lemma_topic_under_injective(parent, b[j].leaf@, a[0].leaf@);
        lemma_topic_under_injective(parent, a[i].leaf@, b[0].leaf@);
        if j > 0 {
            lemma_sorted(parent, b, 0, j);
            if i > 0 {
                lemma_sorted(parent, a, 0, i);
                lemma_less_transitive(a[0].leaf@, b[0].leaf@, a[0].leaf@);
                lemma_less_irreflexive(a[0].leaf@);
            } else {
                lemma_less_irreflexive(b[0].leaf@);
            }
        }
        assert(j == 0);
        let ra = a.drop_first();
        let rb = b.drop_first();
        lemma_level_rest(parent, a, true);
        lemma_level_rest(parent, b, true);
        assert forall|k: int| 0 <= k < ra.len() implies level_has(rb, (#[trigger] ra[k]).topic@) by {
            assert(ra[k] == a[k + 1]);
            assert(level_has(b, a[k + 1].topic@));
            let m = choose|m: int| 0 <= m < b.len() && (#[trigger] b[m]).topic@ == a[k + 1].topic@;
            lemma_distinct_topics(parent, a, 0, k + 1);
            assert(m != 0);
            assert(rb[m - 1] == b[m]);
        }
        assert forall|k: int| 0 <= k < rb.len() implies level_has(ra, (#[trigger] rb[k]).topic@) by {
            assert(rb[k] == b[k + 1]);
            assert(level_has(a, b[k + 1].topic@));
            let m = choose|m: int| 0 <= m < a.len() && (#[trigger] a[m]).topic@ == b[k + 1].topic@;
            lemma_distinct_topics(parent, b, 0, k + 1);
            assert(m != 0);
            assert(ra[m - 1] == a[m]);
        }
        lemma_same_level(parent, ra, rb);
        assert forall|k: int| 0 <= k < a.len() implies (#[trigger] a[k]).topic@ == b[k].topic@ by {
            if k > 0 {
                assert(ra[k - 1] == a[k]);
                assert(rb[k - 1] == b[k]);
            }
        }
    }
}

/// A topic of the form of a level's own topics that a well-formed level holds
/// stands at the level itself.
proof fn lemma_level_find(
    parent: Option<Seq<char>>,
    s: Seq<TopicTreeEntry>,
    x: Seq<char>,
)
    requires
        wf_level(parent, s, true),
        no_slash(x),
        has_topic(s, topic_under(parent, x)),
    ensures
        level_has(s, topic_under(parent, x)),
{
    reveal_with_fuel(has_topic, 2);
    let t = topic_under(parent, x);
    let j = choose|j: int|
        0 <= j < s.len() && ((#[trigger] s[j]).topic@ == t || has_topic(s[j].entries_below@, t));
    assert(s[j].topic@ == topic_under(parent, s[j].leaf@));
    assert(wf_node(s[j], true));
    if s[j].topic@ != t {
        lemma_below_has_ancestor(s[j].topic@, s[j].entries_below@, t, true);
        lemma_level_topics_unrelated(parent, s[j].leaf@, x);
    }
}

/// Below nodes at the same position of two levels with the same topics stand
/// the same topics.
proof fn lemma_children_topics(
    parent: Option<Seq<char>>,
    a: Seq<TopicTreeEntry>,
    b: Seq<TopicTreeEntry>,
    k: int,
    t: Seq<char>,
)
    requires
        wf_level(parent, a, true),
        wf_level(parent, b, true),
        forall|u: Seq<char>| #[trigger] has_topic(a, u) == has_topic(b, u),
        0 <= k < a.len(),
        k < b.len(),
        a[k].topic@ == b[k].topic@,
        has_topic(a[k].entries_below@, t),
    ensures
        has_topic(b[k].entries_below@, t),
{
    reveal_with_fuel(has_topic, 2);
    assert(a[k].topic@ == topic_under(parent, a[k].leaf@));
    assert(wf_node(a[k], true));
    assert(b[k].topic@ == topic_under(parent, b[k].leaf@));
    lemma_below_has_ancestor(a[k].topic@, a[k].entries_below@, t, true);
    assert(has_topic(a, t));
    assert(has_topic(b, t));
    let j = choose|j: int|
        0 <= j < b.len() && ((#[trigger] b[j]).topic@ == t || has_topic(b[j].entries_below@, t));
    assert(b[j].topic@ == topic_under(parent, b[j].leaf@));
    assert(wf_node(b[j], true));
    if b[j].topic@ == t {
        lemma_level_topics_unrelated(parent, b[k].leaf@, b[j].leaf@);
    } else if j != k {
        lemma_below_has_ancestor(b[j].topic@, b[j].entries_below@, t, true);
        lemma_distinct_topics(parent, b, j, k);
        let p = b[j].topic@;
        let q = b[k].topic@;
        if p.len() == q.len() {
            assert(p =~= t.subrange(0, p.len() as int));
            assert(q =~= t.subrange(0, q.len() as int));
        } else if p.len() < q.len() {
            lemma_ancestors_nest(p, q, t);
            lemma_level_topics_unrelated(parent, b[j].leaf@, b[k].leaf@);
        } else {
            lemma_ancestors_nest(q, p, t);
            lemma_level_topics_unrelated(parent, b[k].leaf@, b[j].leaf@);
        }
    }
}

proof fn lemma_same_shape_sums(a: Seq<TopicTreeEntry>, b: Seq<TopicTreeEntry>)
    requires
        same_shape(a, b),
    ensures
        sum_topics(a) == sum_topics(b),
        sum_messages(a) == sum_messages(b),
    decreases a.len(),
{
    if a.len() > 0 {
        assert(a[0].topics_below == b[0].topics_below);
        assert(a[0].messages == b[0].messages);
        let ra = a.drop_first();
        let rb = b.drop_first();
        assert forall|k: int| 0 <= k < ra.len() implies {
            &&& (#[trigger] ra[k]).topic@ == rb[k].topic@
            &&& ra[k].leaf@ == rb[k].leaf@
            &&& ra[k].messages == rb[k].messages
            &&& ra[k].topics_below == rb[k].topics_below
            &&& ra[k].messages_below == rb[k].messages_below
            &&& same_shape(ra[k].entries_below@, rb[k].entries_below@)
        } by {
            assert(ra[k] == a[k + 1]);
            assert(rb[k] == b[k + 1]);
        }
        lemma_same_shape_sums(ra, rb);
    }
}

/// Two well-formed levels below one parent that hold the same topics have the
/// same shape.
pub proof fn lemma_same_topics_same_shape(
    parent: Option<Seq<char>>,
    a: Seq<TopicTreeEntry>,
    b: Seq<TopicTreeEntry>,
    topics: Seq<TopicHistory>,
)
    requires
        wf_level(parent, a, true),
        wf_level(parent, b, true),
        forall|t: Seq<char>| #[trigger] has_topic(a, t) == has_topic(b, t),
        messages_match(a, topics),
        messages_match(b, topics),
    ensures
        same_shape(a, b),
    decreases a,
{
    assert forall|k: int| 0 <= k < a.len() implies level_has(b, (#[trigger] a[k]).topic@) by {
        reveal_with_fuel(has_topic, 2);
        assert(a[k].topic@ == topic_under(parent, a[k].leaf@));
        assert(wf_node(a[k], true));
        assert(has_topic(a, a[k].topic@));
        lemma_level_find(parent, b, a[k].leaf@);
    }
    assert forall|k: int| 0 <= k < b.len() implies level_has(a, (#[trigger] b[k]).topic@) by {
        reveal_with_fuel(has_topic, 2);
        assert(b[k].topic@ == topic_under(parent, b[k].leaf@));
        assert(wf_node(b[k], true));
        assert(has_topic(b, b[k].topic@));
        lemma_level_find(parent, a, b[k].leaf@);
    }
    lemma_same_level(parent, a, b);
    assert forall|k: int| 0 <= k < a.len() implies {
        &&& (#[trigger] a[k]).topic@ == b[k].topic@
        &&& a[k].leaf@ == b[k].leaf@
        &&& a[k].messages == b[k].messages
        &&& a[k].topics_below == b[k].topics_below
        &&& a[k].messages_below == b[k].messages_below
        &&& same_shape(a[k].entries_below@, b[k].entries_below@)
    } by {
        assert(a[k].messages == own_messages(topics, a[k].topic@));
        assert(b[k].messages == own_messages(topics, b[k].topic@));
        assert(a[k].topic@ == topic_under(parent, a[k].leaf@));
        assert(b[k].topic@ == topic_under(parent, b[k].leaf@));
        assert(wf_node(a[k], true));
        assert(wf_node(b[k], true));
        lemma_topic_under_injective(parent, a[k].leaf@, b[k].leaf@);
        assert forall|t: Seq<char>| #[trigger] has_topic(a[k].entries_below@, t) == has_topic(
            b[k].entries_below@,
            t,
        ) by {
            if has_topic(a[k].entries_below@, t) {
                lemma_children_topics(parent, a, b, k, t);
            }
            if has_topic(b[k].entries_below@, t) {
                lemma_children_topics(parent, b, a, k, t);
            }
        }
        assert(decreases_to!(a => a[k]));
        lemma_same_topics_same_shape(
            Some(a[k].topic@),
            a[k].entries_below@,
            b[k].entries_below@,
            topics,
        );
        lemma_same_shape_sums(a[k].entries_below@, b[k].entries_below@);
    }
}

/// Whether `r` is the topic tree of the history `topics`: a well-formed
/// forest with a node for each topic of the history and for each ancestor of
/// one, and for nothing else, each node with the messages of its exact topic.
pub open spec fn builds(topics: Seq<TopicHistory>, r: Seq<TopicTreeEntry>) -> bool {
    &&& wf_forest(r)
    &&& forall|t: Seq<char>|
        #[trigger] has_topic(r, t) <==> exists|i: int|
            0 <= i < topics.len() && (#[trigger] topics[i].topic@ == t || is_ancestor_spec(
                t,
                topics[i].topic@,
            ))
    &&& messages_match(r, topics)
}

/// Rebuilding the tree from an unchanged history gives the same tree: the
/// same topics in the same order with the same own and aggregate counts.
pub proof fn lemma_rebuild_same_shape(
    topics: Seq<TopicHistory>,
    a: Seq<TopicTreeEntry>,
    b: Seq<TopicTreeEntry>,
)
    requires
        builds(topics, a),
        builds(topics, b),
    ensures
        same_shape(a, b),
{
    assert forall|t: Seq<char>| #[trigger] has_topic(a, t) == has_topic(b, t) by {
        assert(has_topic(a, t) == has_topic(b, t));
    }
    lemma_same_topics_same_shape(None, a, b, topics);
}

} // verus!
