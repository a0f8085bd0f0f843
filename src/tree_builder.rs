use crate::topic_tree_entry::{
    clip, has_topic, is_ancestor_spec, lemma_ancestors_present, lemma_sums_nonnegative, no_slash,
    seq_less, sum_messages, sum_topics, topic_under, wf_level, wf_node, TopicTreeEntry,
};
use crate::tree_shape::builds;
use vstd::prelude::*;

verus! {

/// What the history holds of one topic: its path, how many messages arrived
/// on it, and the payload of the most recent one.
pub struct TopicHistory {
    pub topic: String,
    pub messages: usize,
    pub last_payload: Option<Vec<u8>>,
}

/// The messages received on exactly the topic `t`: those of the last entry of
/// the history with that topic, or none.
pub open spec fn own_messages(topics: Seq<TopicHistory>, t: Seq<char>) -> int
    decreases topics.len(),
{
    if topics.len() == 0 {
        0
    } else if topics.last().topic@ == t {
        topics.last().messages as int
    } else {
        own_messages(topics.drop_last(), t)
    }
}

/// The latest payload received on exactly the topic `t`: that of the last
/// entry of the history with that topic, or none.
pub open spec fn own_payload(topics: Seq<TopicHistory>, t: Seq<char>) -> Option<Seq<u8>>
    decreases topics.len(),
{
    if topics.len() == 0 {
        None
    } else if topics.last().topic@ == t {
        payload_view(topics.last().last_payload)
    } else {
        own_payload(topics.drop_last(), t)
    }
}

/// The bytes of an optional payload.
pub open spec fn payload_view(p: Option<Vec<u8>>) -> Option<Seq<u8>> {
    match p {
        Some(v) => Some(v@),
        None => None,
    }
}

/// Whether every node of the levels has as its own messages and latest
/// payload those that the history holds for its exact topic.
pub open spec fn messages_match(entries: Seq<TopicTreeEntry>, topics: Seq<TopicHistory>) -> bool
    decreases entries,
{
    forall|i: int|
        0 <= i < entries.len() ==> {
            &&& (#[trigger] entries[i]).messages == own_messages(topics, entries[i].topic@)
            &&& payload_view(entries[i].last_payload) == own_payload(topics, entries[i].topic@)
            &&& messages_match(entries[i].entries_below@, topics)
        }
}

/// Whether each entry of a history has a payload exactly when it has messages.
pub open spec fn history_consistent(topics: Seq<TopicHistory>) -> bool {
    forall|i: int|
        0 <= i < topics.len() ==> ((#[trigger] topics[i]).last_payload is Some <==> topics[i].messages
            >= 1)
}

/// The own message count and latest payload of the topic `topic`.
fn own_entry(topics: &Vec<TopicHistory>, topic: &String) -> (r: (usize, Option<Vec<u8>>))
    requires
        history_consistent(topics@),
    ensures
        r.0 == own_messages(topics@, topic@),
        payload_view(r.1) == own_payload(topics@, topic@),
        r.1 is Some <==> r.0 >= 1,
{
    let mut k: usize = topics.len();
    proof {
        assert(topics@.subrange(0, k as int) =~= topics@);
    }
    while k > 0
        invariant
            k <= topics@.len(),
            own_messages(topics@, topic@) == own_messages(topics@.subrange(0, k as int), topic@),
            own_payload(topics@, topic@) == own_payload(topics@.subrange(0, k as int), topic@),
            history_consistent(topics@),
        decreases k,
    {
        let entry = &topics[k - 1];
        proof {
            let pre = topics@.subrange(0, k as int);
            assert(pre.last() == *entry);
            assert(pre.drop_last() =~= topics@.subrange(0, k - 1));
        }
        if entry.topic == *topic {
            let payload = match &entry.last_payload {
                Some(bytes) => {
                    let copy = bytes.clone();
                    proof {
                        assert(copy@ =~= bytes@);
                    }
                    Some(copy)
                },
                None => None,
            };
            return (entry.messages, payload);
        }
        k = k - 1;
    }
    (0, None)
}

/// The parent topic of the segment of `topic` that starts at `start`.
pub open spec fn parent_at(topic: Seq<char>, start: int) -> Option<Seq<char>> {
    if start == 0 {
        None
    } else {
        Some(topic.subrange(0, start - 1))
    }
}

/// Two different sequences are ordered one way or the other.
pub proof fn lemma_less_total(a: Seq<char>, b: Seq<char>)
    requires
        a != b,
        !seq_less(a, b),
    ensures
        seq_less(b, a),
    decreases a.len(),
{
    if a.len() == 0 {
        assert(b.len() == 0);
        assert(a =~= b);
    } else if b.len() > 0 && a[0] == b[0] {
        if a.drop_first() == b.drop_first() {
            assert(a =~= seq![a[0]] + a.drop_first());
            assert(b =~= seq![b[0]] + b.drop_first());
        }
        lemma_less_total(a.drop_first(), b.drop_first());
    }
}

/// Whether `a` comes strictly before `b` in code point order.
pub fn text_less(a: &str, b: &str) -> (r: bool)
    ensures
        r == seq_less(a@, b@),
{
    let la = a.unicode_len();
    let lb = b.unicode_len();
    let mut k: usize = 0;
    proof {
        assert(a@.skip(0) =~= a@);
        assert(b@.skip(0) =~= b@);
    }
    while k < la && k < lb
        invariant
            k <= la,
            k <= lb,
            la == a@.len(),
            lb == b@.len(),
            seq_less(a@, b@) == seq_less(a@.skip(k as int), b@.skip(k as int)),
        decreases la - k,
    {
        let ca = a.get_char(k);
        let cb = b.get_char(k);
        if ca != cb {
            return ca < cb;
        }
        proof {
            assert(a@.skip(k as int).drop_first() =~= a@.skip(k + 1));
            assert(b@.skip(k as int).drop_first() =~= b@.skip(k + 1));
        }
        k = k + 1;
    }
    k == la && k < lb
}

/// Adds the node for `topic` below the level whose parent ends just before
/// `start`, creating the nodes on the way that are missing, each without
/// messages of its own.
fn insert_topic(level: &mut Vec<TopicTreeEntry>, topic: &String, start: usize)
    requires
        start <= topic@.len(),
        start == 0 || topic@[start - 1] == '/',
        wf_level(parent_at(topic@, start as int), old(level)@, false),
    ensures
        wf_level(parent_at(topic@, start as int), final(level)@, false),
        has_topic(final(level)@, topic@),
        forall|t: Seq<char>| has_topic(old(level)@, t) ==> #[trigger] has_topic(final(level)@, t),
        forall|t: Seq<char>|
            #[trigger] has_topic(final(level)@, t) ==> has_topic(old(level)@, t) || t == topic@
                || is_ancestor_spec(t, topic@),
    decreases topic@.len() - start,
{
    let ghost parent = parent_at(topic@, start as int);
    let ghost old_level = level@;
    let text = topic.as_str();
    let len = text.unicode_len();
    let mut end: usize = start;
    while end < len && text.get_char(end) != '/'
        invariant
            start <= end <= len,
            len == topic@.len(),
            text@ == topic@,
            forall|j: int| start <= j < end ==> topic@[j] != '/',
        decreases len - end,
    {
        end = end + 1;
    }
    let leaf = text.substring_char(start, end).to_string();
    let node_topic = text.substring_char(0, end).to_string();
    proof {
        assert(leaf@ == topic@.subrange(start as int, end as int));
        assert(no_slash(leaf@));
        if start > 0 {
            assert(topic@.subrange(0, end as int) =~= topic@.subrange(0, start - 1) + seq!['/']
                + leaf@);
        } else {
            assert(topic@.subrange(0, end as int) =~= leaf@);
        }
        assert(node_topic@ == topic_under(parent, leaf@));
    }
    let mut i: usize = 0;
    while i < level.len() && text_less(level[i].leaf.as_str(), leaf.as_str())
        invariant
            i <= level@.len(),
            level@ == old_level,
            i > 0 ==> seq_less(level@[i - 1].leaf@, leaf@),
        decreases level@.len() - i,
    {
        i = i + 1;
    }
    let found = i < level.len() && level[i].leaf == leaf;
    let mut node = if found {
        level.remove(i)
    } else {
        TopicTreeEntry {
            topic: node_topic,
            leaf: leaf,
            messages: 0,
            last_payload: None,
            topics_below: 0,
            messages_below: 0,
            entries_below: Vec::new(),
        }
    };
    let ghost before = node;
    proof {
        assert(node.topic@ == topic@.subrange(0, end as int));
        assert(wf_node(node, false));
    }
    if end == len {
        proof {
            assert(topic@.subrange(0, end as int) =~= topic@);
        }
    } else {
        proof {
            assert(parent_at(topic@, end + 1) == Some(node.topic@));
        }
        insert_topic(&mut node.entries_below, topic, end + 1);
    }
    proof {
        if found {
            assert(before == old_level[i as int]);
        }
        assert(wf_node(node, false));
    }
    level.insert(i, node);
    proof {
        if found {
            assert(level@ =~= old_level.update(i as int, node));
        } else {
            assert(level@ =~= old_level.insert(i as int, node));
        }
        assert(node.leaf@ == leaf@);
        if found {
            lemma_update_keeps_level(parent, old_level, i as int, node);
        } else {
            if i < old_level.len() {
                lemma_less_total(old_level[i as int].leaf@, leaf@);
            }
            lemma_insert_keeps_level(parent, old_level, i as int, node);
        }
        if end < len {
            assert(has_topic(node.entries_below@, topic@));
            assert(topic@.subrange(0, end as int) =~= node.topic@);
            assert(is_ancestor_spec(node.topic@, topic@));
        } else {
            assert(node.topic@ =~= topic@);
        }
        if found {
            assert forall|t: Seq<char>| has_topic(before.entries_below@, t) implies has_topic(
                old_level,
                t,
            ) by {
                reveal_with_fuel(has_topic, 2);
                assert(old_level[i as int].topic@ == t || has_topic(
                    old_level[i as int].entries_below@,
                    t,
                ));
            }
        } else {
            assert forall|t: Seq<char>| !has_topic(before.entries_below@, t) by {
                reveal_with_fuel(has_topic, 2);
            }
        }
    }
}

/// Putting a well-formed node into its place in a level keeps the level well
/// formed and adds the node's topics to those of the level.
proof fn lemma_insert_keeps_level(
    parent: Option<Seq<char>>,
    s: Seq<TopicTreeEntry>,
    i: int,
    node: TopicTreeEntry,
)
    requires
        wf_level(parent, s, false),
        0 <= i <= s.len(),
        node.topic@ == topic_under(parent, node.leaf@),
        wf_node(node, false),
        i > 0 ==> seq_less(s[i - 1].leaf@, node.leaf@),
        i < s.len() ==> seq_less(node.leaf@, s[i].leaf@),
    ensures
        wf_level(parent, s.insert(i, node), false),
        forall|t: Seq<char>|
            (has_topic(s, t) || node.topic@ == t || has_topic(node.entries_below@, t))
                <==> #[trigger] has_topic(s.insert(i, node), t),
{
    let r = s.insert(i, node);
    assert forall|k: int| 0 <= k < r.len() implies {
        &&& #[trigger] r[k].topic@ == topic_under(parent, r[k].leaf@)
        &&& wf_node(r[k], false)
        &&& (k + 1 < r.len() ==> seq_less(r[k].leaf@, r[k + 1].leaf@))
    } by {
        if 0 <= k - 1 < s.len() {
            assert(s[k - 1].topic@ == topic_under(parent, s[k - 1].leaf@));
        }
        if 0 <= k < s.len() {
            assert(s[k].topic@ == topic_under(parent, s[k].leaf@));
        }
        if k < i {
            assert(r[k] == s[k]);
            if k + 1 < i {
                assert(r[k + 1] == s[k + 1]);
            }
        } else if k > i {
            assert(r[k] == s[k - 1]);
            if k + 1 < r.len() {
                assert(r[k + 1] == s[k]);
            }
        } else if k + 1 < r.len() {
            assert(r[k + 1] == s[k]);
        }
    }
    assert forall|t: Seq<char>|
        (has_topic(s, t) || node.topic@ == t || has_topic(node.entries_below@, t)) implies #[trigger] has_topic(r, t) by {
        reveal_with_fuel(has_topic, 2);
        assert(r[i] == node);
        if has_topic(s, t) {
            assert(exists|j: int|
                0 <= j < s.len() && ((#[trigger] s[j]).topic@ == t || has_topic(s[j].entries_below@, t)));
            let j = choose|j: int|
                0 <= j < s.len() && ((#[trigger] s[j]).topic@ == t || has_topic(s[j].entries_below@, t));
            if j < i {
                assert(r[j] == s[j]);
                assert(r[j].topic@ == t || has_topic(r[j].entries_below@, t));
                assert(has_topic(r, t));
            } else {
                assert(r[j + 1] == s[j]);
                assert(r[j + 1].topic@ == t || has_topic(r[j + 1].entries_below@, t));
                assert(has_topic(r, t));
            }
        } else {
            assert(r[i].topic@ == t || has_topic(r[i].entries_below@, t));
            assert(has_topic(r, t));
        }
    }
    lemma_inserted_topics(s, i, node);
}

/// A topic of a level with one node put in stands in the old level or at or below that node.
proof fn lemma_inserted_topics(s: Seq<TopicTreeEntry>, i: int, node: TopicTreeEntry)
    requires
        0 <= i <= s.len(),
    ensures
        forall|t: Seq<char>|
            #[trigger] has_topic(s.insert(i, node), t) ==> has_topic(s, t) || node.topic@ == t
                || has_topic(node.entries_below@, t),
{
    let r = s.insert(i, node);
    assert forall|t: Seq<char>| #[trigger] has_topic(r, t) implies (has_topic(s, t) || node.topic@
        == t || has_topic(node.entries_below@, t)) by {
        reveal_with_fuel(has_topic, 2);
        let j = choose|j: int|
            0 <= j < r.len() && ((#[trigger] r[j]).topic@ == t || has_topic(r[j].entries_below@, t));
        if j < i {
            assert(r[j] == s[j]);
            assert(s[j].topic@ == t || has_topic(s[j].entries_below@, t));
        } else if j > i {
            assert(r[j] == s[j - 1]);
            assert(s[j - 1].topic@ == t || has_topic(s[j - 1].entries_below@, t));
        }
    }
}

/// Replacing a node of a level by a well-formed node with the same topic and
/// at least its topics below keeps the level well formed and its topics.
proof fn lemma_update_keeps_level(
    parent: Option<Seq<char>>,
    s: Seq<TopicTreeEntry>,
    i: int,
    node: TopicTreeEntry,
)
    requires
        wf_level(parent, s, false),
        0 <= i < s.len(),
        node.topic@ == s[i].topic@,
        node.leaf@ == s[i].leaf@,
        wf_node(node, false),
        forall|t: Seq<char>| has_topic(s[i].entries_below@, t) ==> #[trigger] has_topic(node.entries_below@, t),
    ensures
        wf_level(parent, s.update(i, node), false),
        forall|t: Seq<char>|
            (has_topic(s, t) || node.topic@ == t || has_topic(node.entries_below@, t))
                <==> #[trigger] has_topic(s.update(i, node), t),
{
    let r = s.update(i, node);
    assert(s[i].topic@ == topic_under(parent, s[i].leaf@));
    assert(wf_node(s[i], false));
    assert forall|k: int| 0 <= k < r.len() implies {
        &&& #[trigger] r[k].topic@ == topic_under(parent, r[k].leaf@)
        &&& wf_node(r[k], false)
        &&& (k + 1 < r.len() ==> seq_less(r[k].leaf@, r[k + 1].leaf@))
    } by {
        if k + 1 < r.len() {
            assert(r[k + 1].leaf@ == s[k + 1].leaf@);
        }
    }
    assert forall|t: Seq<char>|
        (has_topic(s, t) || node.topic@ == t || has_topic(node.entries_below@, t)) implies #[trigger] has_topic(r, t) by {
        reveal_with_fuel(has_topic, 2);
        assert(r[i] == node);
        if has_topic(s, t) {
            assert(exists|j: int|
                0 <= j < s.len() && ((#[trigger] s[j]).topic@ == t || has_topic(s[j].entries_below@, t)));
            let j = choose|j: int|
                0 <= j < s.len() && ((#[trigger] s[j]).topic@ == t || has_topic(s[j].entries_below@, t));
            if j != i {
                assert(r[j] == s[j]);
                assert(r[j].topic@ == t || has_topic(r[j].entries_below@, t));
                assert(has_topic(r, t));
            } else {
                assert(r[i].topic@ == t || has_topic(r[i].entries_below@, t));
                assert(has_topic(r, t));
            }
        } else {
            assert(r[i].topic@ == t || has_topic(r[i].entries_below@, t));
            assert(has_topic(r, t));
        }
    }
}

/// The aggregates of a node with the children `children`.
fn totals(children: &Vec<TopicTreeEntry>) -> (r: (usize, usize))
    ensures
        r.0 == clip(sum_topics(children@)),
        r.1 == clip(sum_messages(children@)),
{
    let mut topics: usize = 0;
    let mut messages: usize = 0;
    let mut k: usize = children.len();
    proof {
        assert(children@.subrange(k as int, children@.len() as int).len() == 0);
    }
    while k > 0
        invariant
            k <= children@.len(),
            topics == clip(sum_topics(children@.subrange(k as int, children@.len() as int))),
            messages == clip(sum_messages(children@.subrange(k as int, children@.len() as int))),
        decreases k,
    {
        let c = &children[k - 1];
        proof {
            let tail = children@.subrange(k as int, children@.len() as int);
            let longer = children@.subrange(k - 1, children@.len() as int);
            assert(longer.drop_first() =~= tail);
            assert(longer[0] == *c);
            lemma_sums_nonnegative(tail);
        }
        topics = topics.saturating_add(c.topics_below).saturating_add(1);
        messages = messages.saturating_add(c.messages_below).saturating_add(c.messages);
        k = k - 1;
    }
    proof {
        assert(children@.subrange(0, children@.len() as int) =~= children@);
    }
    (topics, messages)
}

/// Two levels whose nodes have pairwise the same topics, and the same topics
/// below, hold the same topics.
proof fn lemma_same_topics(a: Seq<TopicTreeEntry>, b: Seq<TopicTreeEntry>)
    requires
        a.len() == b.len(),
        forall|k: int| 0 <= k < a.len() ==> #[trigger] a[k].topic@ == b[k].topic@,
        forall|k: int, t: Seq<char>|
            0 <= k < a.len() ==> #[trigger] has_topic(a[k].entries_below@, t) == has_topic(
                b[k].entries_below@,
                t,
            ),
    ensures
        forall|t: Seq<char>| #[trigger] has_topic(a, t) == has_topic(b, t),
{
    assert forall|t: Seq<char>| #[trigger] has_topic(a, t) == has_topic(b, t) by {
        reveal_with_fuel(has_topic, 2);
        if has_topic(a, t) {
            let j = choose|j: int|
                0 <= j < a.len() && ((#[trigger] a[j]).topic@ == t || has_topic(a[j].entries_below@, t));
            assert(b[j].topic@ == t || has_topic(b[j].entries_below@, t));
            assert(has_topic(b, t));
        }
        if has_topic(b, t) {
            let j = choose|j: int|
                0 <= j < b.len() && ((#[trigger] b[j]).topic@ == t || has_topic(b[j].entries_below@, t));
            assert(a[j].topic@ == t || has_topic(a[j].entries_below@, t));
            assert(has_topic(a, t));
        }
    }
}

/// The level with the aggregates of every node computed from its children.
fn with_counts(
    level: Vec<TopicTreeEntry>,
    topics: &Vec<TopicHistory>,
    Ghost(parent): Ghost<Option<Seq<char>>>,
) -> (r: Vec<TopicTreeEntry>)
    requires
        wf_level(parent, level@, false),
        history_consistent(topics@),
    ensures
        messages_match(r@, topics@),
        wf_level(parent, r@, true),
        r@.len() == level@.len(),
        forall|k: int|
            0 <= k < r@.len() ==> {
                &&& (#[trigger] r@[k]).topic@ == level@[k].topic@
                &&& r@[k].leaf@ == level@[k].leaf@
            },
        forall|t: Seq<char>| #[trigger] has_topic(r@, t) == has_topic(level@, t),
    decreases level@,
{
    let ghost orig = level@;
    let mut rest = level;
    let mut out: Vec<TopicTreeEntry> = Vec::new();
    while rest.len() > 0
        invariant
            out@.len() + rest@.len() == orig.len(),
            orig == level@,
            history_consistent(topics@),
            rest@ == orig.subrange(out@.len() as int, orig.len() as int),
            wf_level(parent, orig, false),
            forall|k: int|
                0 <= k < out@.len() ==> {
                    &&& (#[trigger] out@[k]).topic@ == orig[k].topic@
                    &&& out@[k].leaf@ == orig[k].leaf@
                    &&& out@[k].messages == own_messages(topics@, out@[k].topic@)
                    &&& payload_view(out@[k].last_payload) == own_payload(topics@, out@[k].topic@)
                    &&& messages_match(out@[k].entries_below@, topics@)
                    &&& wf_node(out@[k], true)
                },
            forall|k: int, t: Seq<char>|
                0 <= k < out@.len() ==> #[trigger] has_topic(out@[k].entries_below@, t) == has_topic(
                    orig[k].entries_below@,
                    t,
                ),
        decreases rest@.len(),
    {
        let ghost n = out@.len();
        let node = rest.remove(0);
        proof {
            assert(node == orig[n as int]);
            assert(node.topic@ == topic_under(parent, node.leaf@));
            assert(wf_node(node, false));
            assert(decreases_to!(orig => orig[n as int]));
            assert(decreases_to!(orig[n as int] => orig[n as int].entries_below));
            assert(decreases_to!(orig[n as int].entries_below => orig[n as int].entries_below@));
            assert(decreases_to!(orig => node.entries_below@));
        }
        let TopicTreeEntry { topic, leaf, entries_below, .. } = node;
        let (messages, last_payload) = own_entry(topics, &topic);
        let children = with_counts(entries_below, topics, Ghost(Some(topic@)));
        let (topics_below, messages_below) = totals(&children);
        let counted = TopicTreeEntry {
            topic,
            leaf,
            messages,
            last_payload,
            topics_below,
            messages_below,
            entries_below: children,
        };
        proof {
            assert(wf_node(counted, true));
        }
        out.push(counted);
        proof {
            assert(out@[n as int] == counted);
            assert(rest@ =~= orig.subrange(out@.len() as int, orig.len() as int));
        }
    }
    proof {
        assert forall|k: int| 0 <= k < out@.len() implies {
            &&& #[trigger] out@[k].topic@ == topic_under(parent, out@[k].leaf@)
            &&& wf_node(out@[k], true)
            &&& (k + 1 < out@.len() ==> seq_less(out@[k].leaf@, out@[k + 1].leaf@))
        } by {
            assert(orig[k].topic@ == topic_under(parent, orig[k].leaf@));
            if k + 1 < out@.len() {
                assert(out@[k + 1].leaf@ == orig[k + 1].leaf@);
            }
        }
        lemma_same_topics(out@, orig);
        assert forall|k: int| 0 <= k < out@.len() implies {
            &&& (#[trigger] out@[k]).messages == own_messages(topics@, out@[k].topic@)
            &&& payload_view(out@[k].last_payload) == own_payload(topics@, out@[k].topic@)
            &&& messages_match(out@[k].entries_below@, topics@)
        } by {}
    }
    out
}

/// The topic tree of a history snapshot: one node for each topic of the
/// history and for each path prefix of one, siblings ordered by label, each
/// node with its own messages and the aggregates of everything below it.
pub fn build_tree(topics: &Vec<TopicHistory>) -> (r: Vec<TopicTreeEntry>)
    requires
        history_consistent(topics@),
    ensures
        builds(topics@, r@),
{
    let mut forest: Vec<TopicTreeEntry> = Vec::new();
    let mut i: usize = 0;
    while i < topics.len()
        invariant
            i <= topics@.len(),
            wf_level(None, forest@, false),
            forall|j: int| 0 <= j < i ==> has_topic(forest@, (#[trigger] topics@[j]).topic@),
            forall|t: Seq<char>|
                #[trigger] has_topic(forest@, t) ==> exists|j: int|
                    0 <= j < i && (#[trigger] topics@[j].topic@ == t || is_ancestor_spec(
                        t,
                        topics@[j].topic@,
                    )),
        decreases topics@.len() - i,
    {
        let entry = &topics[i];
        proof {
            assert(parent_at(entry.topic@, 0) == None::<Seq<char>>);
        }
        insert_topic(&mut forest, &entry.topic, 0);
        proof {
            assert forall|t: Seq<char>| #[trigger] has_topic(forest@, t) implies exists|j: int|
                0 <= j < i + 1 && (#[trigger] topics@[j].topic@ == t || is_ancestor_spec(
                    t,
                    topics@[j].topic@,
                )) by {
                if t == topics@[i as int].topic@ || is_ancestor_spec(t, topics@[i as int].topic@) {
                } else {
                    let j = choose|j: int|
                        0 <= j < i && (#[trigger] topics@[j].topic@ == t || is_ancestor_spec(
                            t,
                            topics@[j].topic@,
                        ));
                }
            }
        }
        i = i + 1;
    }
    let r = with_counts(forest, topics, Ghost(None));
    proof {
        assert forall|t: Seq<char>| #[trigger] has_topic(r@, t) <==> exists|i: int|
            0 <= i < topics@.len() && (#[trigger] topics@[i].topic@ == t || is_ancestor_spec(
                t,
                topics@[i].topic@,
            )) by {
            if exists|i: int|
                0 <= i < topics@.len() && (#[trigger] topics@[i].topic@ == t || is_ancestor_spec(
                    t,
                    topics@[i].topic@,
                )) {
                let i = choose|i: int|
                    0 <= i < topics@.len() && (#[trigger] topics@[i].topic@ == t || is_ancestor_spec(
                        t,
                        topics@[i].topic@,
                    ));
                assert(has_topic(r@, topics@[i].topic@));
                if t != topics@[i].topic@ {
                    lemma_ancestors_present(None, r@, topics@[i].topic@, t, true);
                }
            }
        }
    }
    r
}

} // verus!
