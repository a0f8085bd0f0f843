use crate::topic_tree_entry::{
    ancestors, has_topic, lemma_below_has_ancestor, lemma_level_rest, nodes_of, open_topics,
    topic_under, visible, visible_forcing, wf_forest, wf_level, wf_node, TopicTreeEntry,
};
use std::collections::HashSet;
use vstd::prelude::*;

verus! {

/// The visible sequence that resolving `target` works on: the open-set with
/// every ancestor of `target` opened for this resolution alone.
pub open spec fn resolution_view(
    opened: Set<String>,
    target: Seq<char>,
    entries: Seq<TopicTreeEntry>,
) -> Seq<TopicTreeEntry> {
    visible(open_topics(opened).union(ancestors(target)), entries)
}

/// The position of `topic` in the visible sequence of `entries`, where the
/// topics of `opened` and every ancestor of `topic` count as open; `None`
/// when no node has that topic. `opened` itself is left as it is.
pub fn get_index_of_topic(
    opened: &HashSet<String>,
    entries: &[TopicTreeEntry],
    topic: &String,
) -> (r: Option<usize>)
    ensures
        match r {
            Some(k) => {
                &&& k < resolution_view(opened@, topic@, entries@).len()
                &&& resolution_view(opened@, topic@, entries@)[k as int].topic@ == topic@
                &&& forall|j: int|
                    0 <= j < k ==> resolution_view(opened@, topic@, entries@)[j].topic@ != topic@
            },
            None => forall|j: int|
                0 <= j < resolution_view(opened@, topic@, entries@).len()
                    ==> resolution_view(opened@, topic@, entries@)[j].topic@ != topic@,
        },
{
    let shown = visible_forcing(opened, topic.as_str(), entries);
    let ghost view = resolution_view(opened@, topic@, entries@);
    proof {
        assert(nodes_of(shown@) == view);
        assert(nodes_of(shown@).len() == shown@.len());
    }
    let mut k: usize = 0;
    while k < shown.len()
        invariant
            k <= shown@.len(),
            view == nodes_of(shown@),
            view == resolution_view(opened@, topic@, entries@),
            view.len() == shown@.len(),
            forall|j: int| 0 <= j < k ==> view[j].topic@ != topic@,
        decreases shown@.len() - k,
    {
        proof {
            assert(view[k as int] == *shown@[k as int]);
        }
        if shown[k].topic == *topic {
            return Some(k);
        }
        k = k + 1;
    }
    None
}

/// The node that a path of child indices leads to from the level `entries`.
pub open spec fn node_at(entries: Seq<TopicTreeEntry>, path: Seq<usize>) -> Option<TopicTreeEntry>
    decreases path.len(),
{
    if path.len() == 0 || path[0] >= entries.len() {
        None
    } else if path.len() == 1 {
        Some(entries[path[0] as int])
    } else {
        node_at(entries[path[0] as int].entries_below@, path.drop_first())
    }
}

/// A path of child indices that leads to a node whose topic is `topic`;
/// `None` when no node has that topic.
pub fn get_identifier_of_topic(entries: &[TopicTreeEntry], topic: &String) -> (r: Option<Vec<usize>>)
    ensures
        match r {
            Some(path) => node_at(entries@, path@) is Some && node_at(entries@, path@)->0.topic@
                == topic@,
            None => !has_topic(entries@, topic@),
        },
    decreases entries@,
{
    let mut i: usize = 0;
    while i < entries.len()
        invariant
            i <= entries@.len(),
            forall|j: int|
                0 <= j < i ==> (#[trigger] entries@[j]).topic@ != topic@ && !has_topic(
                    entries@[j].entries_below@,
                    topic@,
                ),
        decreases entries@.len() - i,
    {
        let entry = &entries[i];
        if entry.topic == *topic {
            let path = vec![i];
            proof {
                assert(path@.len() == 1);
            }
            return Some(path);
        }
        proof {
            assert(decreases_to!(entries@ => entries@[i as int]));
        }
        match get_identifier_of_topic(entry.entries_below.as_slice(), topic) {
            Some(below) => {
                let mut path = vec![i];
                let mut rest = below;
                let ghost tail = rest@;
                path.append(&mut rest);
                proof {
                    assert(path@.drop_first() =~= tail);
                    assert(path@[0] == i);
                }
                return Some(path);
            },
            None => {},
        }
        i = i + 1;
    }
    proof {
        reveal_with_fuel(has_topic, 2);
        if has_topic(entries@, topic@) {
            let j = choose|j: int|
                0 <= j < entries@.len() && ((#[trigger] entries@[j]).topic@ == topic@ || has_topic(
                    entries@[j].entries_below@,
                    topic@,
                ));
            assert(entries@[j].topic@ != topic@);
        }
    }
    None
}

/// Every visible node stands in the forest it was taken from.
proof fn lemma_visible_within(open: Set<Seq<char>>, entries: Seq<TopicTreeEntry>)
    ensures
        forall|k: int|
            0 <= k < visible(open, entries).len() ==> has_topic(
                entries,
                (#[trigger] visible(open, entries)[k]).topic@,
            ),
    decreases entries,
{
    reveal_with_fuel(has_topic, 2);
    if entries.len() > 0 {
        let e = entries[0];
        let rest = entries.drop_first();
        let below = if open.contains(e.topic@) {
            visible(open, e.entries_below@)
        } else {
            Seq::empty()
        };
        let v = visible(open, entries);
        assert(v == seq![e].add(below).add(visible(open, rest)));
        if open.contains(e.topic@) {
            assert(decreases_to!(entries => entries[0]));
            lemma_visible_within(open, e.entries_below@);
        }
        lemma_visible_within(open, rest);
        assert forall|k: int| 0 <= k < v.len() implies has_topic(entries, (#[trigger] v[k]).topic@) by {
            let t = v[k].topic@;
            if k == 0 {
                assert(entries[0].topic@ == t);
            } else if k < 1 + below.len() {
                assert(v[k] == below[k - 1]);
                assert(has_topic(entries[0].entries_below@, t));
            } else {
                assert(v[k] == visible(open, rest)[k - 1 - below.len()]);
                assert(has_topic(rest, t));
                let j = choose|j: int|
                    0 <= j < rest.len() && ((#[trigger] rest[j]).topic@ == t || has_topic(
                        rest[j].entries_below@,
                        t,
                    ));
                assert(rest[j] == entries[j + 1]);
                assert(entries[j + 1].topic@ == t || has_topic(entries[j + 1].entries_below@, t));
            }
        }
    }
}

/// A topic of a well-formed level is visible once all its ancestors are open.
proof fn lemma_present_is_visible(
    parent: Option<Seq<char>>,
    open: Set<Seq<char>>,
    entries: Seq<TopicTreeEntry>,
    t: Seq<char>,
)
    requires
        wf_level(parent, entries, true),
        has_topic(entries, t),
        ancestors(t).subset_of(open),
    ensures
        exists|k: int|
            0 <= k < visible(open, entries).len() && (#[trigger] visible(open, entries)[k]).topic@
                == t,
    decreases entries,
{
    reveal_with_fuel(has_topic, 2);
    let e = entries[0];
    let rest = entries.drop_first();
    let below = if open.contains(e.topic@) {
        visible(open, e.entries_below@)
    } else {
        Seq::empty()
    };
    let v = visible(open, entries);
    assert(v == seq![e].add(below).add(visible(open, rest)));
    let j = choose|j: int|
        0 <= j < entries.len() && ((#[trigger] entries[j]).topic@ == t || has_topic(
            entries[j].entries_below@,
            t,
        ));
    if j == 0 {
        if e.topic@ == t {
            assert(v[0].topic@ == t);
        } else {
            assert(e.topic@ == topic_under(parent, e.leaf@));
            assert(wf_node(e, true));
            lemma_below_has_ancestor(e.topic@, e.entries_below@, t, true);
            assert(ancestors(t).contains(e.topic@));
            assert(decreases_to!(entries => entries[0]));
            lemma_present_is_visible(Some(e.topic@), open, e.entries_below@, t);
            let k = choose|k: int|
                0 <= k < below.len() && (#[trigger] below[k]).topic@ == t;
            assert(v[k + 1] == below[k]);
        }
    } else {
        lemma_level_rest(parent, entries, true);
        assert(rest[j - 1] == entries[j]);
        assert(has_topic(rest, t));
        lemma_present_is_visible(parent, open, rest, t);
        let k = choose|k: int|
            0 <= k < visible(open, rest).len() && (#[trigger] visible(open, rest)[k]).topic@ == t;
        assert(v[k + 1 + below.len()] == visible(open, rest)[k]);
    }
}

/// Resolving a topic in a well-formed forest finds it exactly when the forest
/// holds it, whichever of its ancestors the open-set leaves closed.
pub proof fn lemma_resolution_finds_topic(
    opened: Set<String>,
    entries: Seq<TopicTreeEntry>,
    t: Seq<char>,
)
    requires
        wf_forest(entries),
    ensures
        has_topic(entries, t) <==> exists|k: int|
            0 <= k < resolution_view(opened, t, entries).len() && (#[trigger] resolution_view(
                opened,
                t,
                entries,
            )[k]).topic@ == t,
{
    let open = open_topics(opened).union(ancestors(t));
    lemma_visible_within(open, entries);
    if has_topic(entries, t) {
        lemma_present_is_visible(None, open, entries, t);
    }
}

} // verus!
