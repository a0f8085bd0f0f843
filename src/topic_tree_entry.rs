use std::collections::HashSet;
use crate::format::{payload_as_utf8, utf8_lossy};
use vstd::prelude::*;

verus! {

/// One node of the topic tree: a topic path, its own messages and aggregates
/// over everything below it.
#[derive(Debug)]
pub struct TopicTreeEntry {
    pub topic: String,
    pub leaf: String,
    pub messages: usize,
    pub last_payload: Option<Vec<u8>>,
    pub topics_below: usize,
    pub messages_below: usize,
    pub entries_below: Vec<TopicTreeEntry>,
}

impl TopicTreeEntry {
    /// The label shown after the node's own label.
    pub fn meta(&self) -> (r: String)
        ensures
            r@ == meta_spec(*self),
    {
        broadcast use vstd::string::group_string_axioms;

        match &self.last_payload {
            Some(payload) => {
                let mut r = "= ".to_string();
                let text = payload_as_utf8(payload.as_slice());
                r.append(text.as_str());
                r
            },
            None => {
                let mut r = "(".to_string();
                let topics = decimal(self.topics_below);
                r.append(topics.as_str());
                r.append(" topics, ");
                let messages = decimal(self.messages_below);
                r.append(messages.as_str());
                r.append(" messages)");
                r
            },
        }
    }

    /// A small well-formed forest: `foo` with the children `bar` and `test`,
    /// and a second root `test`.
    pub fn examples() -> (r: Vec<TopicTreeEntry>)
        ensures
            wf_forest(r@),
            r@.len() == 2,
            r@[0].topic@ == "foo"@,
            r@[0].leaf@ == "foo"@,
            r@[0].messages == 0,
            r@[0].last_payload is None,
            r@[0].topics_below == 2,
            r@[0].messages_below == 2,
            r@[0].entries_below@.len() == 2,
            leaf_node_is(r@[0].entries_below@[0], "foo/bar"@, "bar"@, 1, seq![68u8]),
            leaf_node_is(r@[0].entries_below@[1], "foo/test"@, "test"@, 1, seq![66u8]),
            leaf_node_is(r@[1], "test"@, "test"@, 2, seq![67u8]),
    {
        broadcast use vstd::string::group_string_axioms;

        let payload_d = vec![68u8];
        let payload_b = vec![66u8];
        let payload_c = vec![67u8];
        proof {
            assert(payload_d@ =~= seq![68u8]);
            assert(payload_b@ =~= seq![66u8]);
            assert(payload_c@ =~= seq![67u8]);
        }
        let bar = TopicTreeEntry {
            topic: "foo/bar".to_string(),
            leaf: "bar".to_string(),
            messages: 1,
            last_payload: Some(payload_d),
            entries_below: Vec::new(),
            topics_below: 0,
            messages_below: 0,
        };
        let test = TopicTreeEntry {
            topic: "foo/test".to_string(),
            leaf: "test".to_string(),
            messages: 1,
            last_payload: Some(payload_b),
            entries_below: Vec::new(),
            topics_below: 0,
            messages_below: 0,
        };
        let foo = TopicTreeEntry {
            topic: "foo".to_string(),
            leaf: "foo".to_string(),
            messages: 0,
            last_payload: None,
            topics_below: 2,
            messages_below: 2,
            entries_below: vec![bar, test],
        };
        let root_test = TopicTreeEntry {
            topic: "test".to_string(),
            leaf: "test".to_string(),
            messages: 2,
            last_payload: Some(payload_c),
            topics_below: 0,
            messages_below: 0,
            entries_below: Vec::new(),
        };
        proof {
            reveal_strlit("foo");
            reveal_strlit("bar");
            reveal_strlit("test");
            reveal_strlit("foo/bar");
            reveal_strlit("foo/test");
            assert(no_slash("bar"@));
            assert(no_slash("test"@));
            assert(no_slash("foo"@));
            assert(wf_level(Some(bar.topic@), bar.entries_below@, true));
            assert(wf_level(Some(test.topic@), test.entries_below@, true));
            assert(wf_level(Some(root_test.topic@), root_test.entries_below@, true));
            assert(wf_node(bar, true));
            assert(wf_node(test, true));
            assert(wf_node(root_test, true));
            assert(foo.entries_below@[0].topic@ =~= topic_under(Some(foo.topic@), foo.entries_below@[0].leaf@));
            assert(foo.entries_below@[1].topic@ =~= topic_under(Some(foo.topic@), foo.entries_below@[1].leaf@));
            assert(seq_less("bar"@, "test"@));
            assert(seq_less("foo"@, "test"@));
            assert(sum_topics(foo.entries_below@.drop_first().drop_first()) == 0);
            assert(sum_messages(foo.entries_below@.drop_first().drop_first()) == 0);
            assert(wf_level(Some(foo.topic@), foo.entries_below@, true));
            assert(sum_topics(foo.entries_below@.drop_first()) == 1);
            assert(sum_messages(foo.entries_below@.drop_first()) == 1);
            assert(wf_node(foo, true));
            assert(wf_level(None, seq![foo, root_test], true));
        }
        vec![foo, root_test]
    }
}

/// Whether `n` is a node without children with the given topic, label,
/// message count and latest payload.
pub open spec fn leaf_node_is(
    n: TopicTreeEntry,
    topic: Seq<char>,
    leaf: Seq<char>,
    messages: usize,
    payload: Seq<u8>,
) -> bool {
    &&& n.topic@ == topic
    &&& n.leaf@ == leaf
    &&& n.messages == messages
    &&& (n.last_payload matches Some(p) && p@ == payload)
    &&& n.topics_below == 0
    &&& n.messages_below == 0
    &&& n.entries_below@.len() == 0
}

/// The decimal digits, in order of value.
pub const DIGITS: &'static str = "0123456789";

/// The decimal notation of `n`, without leading zeros.
pub open spec fn decimal_spec(n: nat) -> Seq<char>
    decreases n,
{
    if n < 10 {
        DIGITS@.subrange(n as int, n as int + 1)
    } else {
        decimal_spec(n / 10) + DIGITS@.subrange((n % 10) as int, (n % 10) as int + 1)
    }
}

/// The decimal notation of `n`.
pub fn decimal(n: usize) -> (r: String)
    ensures
        r@ == decimal_spec(n as nat),
    decreases n,
{
    proof {
        reveal_strlit("0123456789");
    }
    if n < 10 {
        DIGITS.substring_char(n, n + 1).to_string()
    } else {
        let mut r = decimal(n / 10);
        r.append(DIGITS.substring_char(n % 10, n % 10 + 1));
        r
    }
}

/// The label shown after a node's own label: its latest payload as text, or
/// for a node without messages of its own, how many topics and messages lie
/// below it.
pub open spec fn meta_spec(n: TopicTreeEntry) -> Seq<char> {
    match n.last_payload {
        Some(p) => "= "@ + utf8_lossy(p@),
        None => "("@ + decimal_spec(n.topics_below as nat) + " topics, "@ + decimal_spec(
            n.messages_below as nat,
        ) + " messages)"@,
    }
}

/// The largest value a count field can hold; larger totals stop there.
pub open spec fn clip(x: int) -> int {
    if x > usize::MAX {
        usize::MAX as int
    } else {
        x
    }
}

/// Whether a sequence of characters holds no topic delimiter.
pub open spec fn no_slash(s: Seq<char>) -> bool {
    forall|i: int| 0 <= i < s.len() ==> s[i] != '/'
}

/// The topic of a node with label `leaf` below the topic `parent`
/// (`None` for the root level).
pub open spec fn topic_under(parent: Option<Seq<char>>, leaf: Seq<char>) -> Seq<char> {
    match parent {
        Some(p) => p + seq!['/'] + leaf,
        None => leaf,
    }
}

/// Lexicographic order of character sequences, by code point.
pub open spec fn seq_less(a: Seq<char>, b: Seq<char>) -> bool
    decreases a.len(),
{
    if a.len() == 0 {
        b.len() > 0
    } else if b.len() == 0 {
        false
    } else if a[0] != b[0] {
        a[0] < b[0]
    } else {
        seq_less(a.drop_first(), b.drop_first())
    }
}

/// The number of nodes below and including each of `entries`, from the nodes' own counts.
pub open spec fn sum_topics(entries: Seq<TopicTreeEntry>) -> int
    decreases entries.len(),
{
    if entries.len() == 0 {
        0
    } else {
        1 + entries[0].topics_below + sum_topics(entries.drop_first())
    }
}

/// The messages on and below each of `entries`, from the nodes' own counts.
pub open spec fn sum_messages(entries: Seq<TopicTreeEntry>) -> int
    decreases entries.len(),
{
    if entries.len() == 0 {
        0
    } else {
        entries[0].messages + entries[0].messages_below + sum_messages(entries.drop_first())
    }
}

/// The direct messages of each node of a sequence, added up.
pub open spec fn direct_messages(nodes: Seq<TopicTreeEntry>) -> int
    decreases nodes.len(),
{
    if nodes.len() == 0 {
        0
    } else {
        nodes[0].messages + direct_messages(nodes.drop_first())
    }
}

/// A node is well formed when its label holds no delimiter, its payload is
/// present exactly when it has messages, its children form a well-formed level
/// below its topic, and, when `counted`, its aggregates match its children.
pub open spec fn wf_node(n: TopicTreeEntry, counted: bool) -> bool
    decreases n,
{
    &&& no_slash(n.leaf@)
    &&& counted ==> n.topics_below == clip(sum_topics(n.entries_below@))
    &&& counted ==> n.messages_below == clip(sum_messages(n.entries_below@))
    &&& (n.last_payload is Some <==> n.messages >= 1)
    &&& wf_level(Some(n.topic@), n.entries_below@, counted)
}

/// A level of siblings below `parent` is well formed when each node's topic is
/// its label under `parent`, each node is well formed, and the labels strictly
/// increase.
pub open spec fn wf_level(parent: Option<Seq<char>>, entries: Seq<TopicTreeEntry>, counted: bool) -> bool
    decreases entries,
{
    forall|i: int|
        0 <= i < entries.len() ==> {
            &&& #[trigger] entries[i].topic@ == topic_under(parent, entries[i].leaf@)
            &&& wf_node(entries[i], counted)
            &&& (i + 1 < entries.len() ==> seq_less(entries[i].leaf@, entries[i + 1].leaf@))
        }
}

/// A well-formed forest: a well-formed level at the root, with exact aggregates.
pub open spec fn wf_forest(entries: Seq<TopicTreeEntry>) -> bool {
    wf_level(None, entries, true)
}

/// Whether a node with topic `t` stands in `entries` or anywhere below them.
pub open spec fn has_topic(entries: Seq<TopicTreeEntry>, t: Seq<char>) -> bool
    decreases entries,
{
    exists|i: int|
        0 <= i < entries.len() && ((#[trigger] entries[i]).topic@ == t || has_topic(
            entries[i].entries_below@,
            t,
        ))
}

/// Every node below `n`, in tree order.
pub open spec fn descendants(n: TopicTreeEntry) -> Seq<TopicTreeEntry> {
    visible(Set::full(), n.entries_below@)
}

/// The aggregates of a level's nodes are never negative.
pub proof fn lemma_sums_nonnegative(entries: Seq<TopicTreeEntry>)
    ensures
        sum_topics(entries) >= 0,
        sum_messages(entries) >= 0,
    decreases entries.len(),
{
    if entries.len() > 0 {
        lemma_sums_nonnegative(entries.drop_first());
    }
}

proof fn lemma_direct_messages_add(a: Seq<TopicTreeEntry>, b: Seq<TopicTreeEntry>)
    ensures
        direct_messages(a + b) == direct_messages(a) + direct_messages(b),
    decreases a.len(),
{
    if a.len() > 0 {
        lemma_direct_messages_add(a.drop_first(), b);
        assert((a + b).drop_first() =~= a.drop_first() + b);
    }
}

proof fn lemma_level_counts(parent: Option<Seq<char>>, entries: Seq<TopicTreeEntry>)
    requires
        wf_level(parent, entries, true),
    ensures
        clip(sum_topics(entries)) == clip(visible(Set::full(), entries).len() as int),
        clip(sum_messages(entries)) == clip(direct_messages(visible(Set::full(), entries))),
    decreases entries,
{
    if entries.len() > 0 {
        let e = entries[0];
        let rest = entries.drop_first();
        let full = Set::<Seq<char>>::full();
        assert(e.topic@ == topic_under(parent, e.leaf@));
        assert(wf_node(e, true));
        assert(decreases_to!(entries => entries[0]));
        lemma_level_counts(Some(e.topic@), e.entries_below@);
        lemma_level_rest(parent, entries, true);
        lemma_level_counts(parent, rest);
        lemma_sums_nonnegative(rest);
        lemma_sums_nonnegative(e.entries_below@);
        let below = visible(full, e.entries_below@);
        let after = visible(full, rest);
        assert(full.contains(e.topic@));
        assert(visible(full, entries) == seq![e].add(below).add(after));
        lemma_direct_messages_add(seq![e].add(below), after);
        lemma_direct_messages_add(seq![e], below);
        assert(seq![e].drop_first() =~= Seq::<TopicTreeEntry>::empty());
        assert(direct_messages(Seq::<TopicTreeEntry>::empty()) == 0);
        assert(seq![e][0] == e);
        assert(direct_messages(seq![e]) == e.messages + direct_messages(seq![e].drop_first()));
    }
}

/// In a well-formed node, the topics below it count its descendants and the
/// messages below it add up their direct messages, both up to the largest
/// value a count can hold.
pub proof fn lemma_counts_are_descendants(n: TopicTreeEntry)
    requires
        wf_node(n, true),
    ensures
        n.topics_below == clip(descendants(n).len() as int),
        n.messages_below == clip(direct_messages(descendants(n))),
{
    lemma_level_counts(Some(n.topic@), n.entries_below@);
}

/// Whether `p` is the topic of a node above the topic `t`: a proper prefix of
/// `t` that a delimiter follows.
pub open spec fn is_ancestor_spec(p: Seq<char>, t: Seq<char>) -> bool {
    p.len() < t.len() && t.subrange(0, p.len() as int) == p && t[p.len() as int] == '/'
}

/// The topics of the nodes above the topic `t`.
pub open spec fn ancestors(t: Seq<char>) -> Set<Seq<char>> {
    Set::new(|p: Seq<char>| is_ancestor_spec(p, t))
}

/// Whether `p` is the topic of a node above the topic `t`.
pub fn is_ancestor(p: &str, t: &str) -> (r: bool)
    ensures
        r == is_ancestor_spec(p@, t@),
{
    let lp = p.unicode_len();
    let lt = t.unicode_len();
    if lp >= lt || t.get_char(lp) != '/' {
        return false;
    }
    let mut k: usize = 0;
    while k < lp
        invariant
            k <= lp < lt,
            lp == p@.len(),
            lt == t@.len(),
            forall|j: int| 0 <= j < k ==> p@[j] == t@[j],
        decreases lp - k,
    {
        if p.get_char(k) != t.get_char(k) {
            proof {
                assert(t@.subrange(0, lp as int)[k as int] != p@[k as int]);
            }
            return false;
        }
        k = k + 1;
    }
    proof {
        assert(t@.subrange(0, lp as int) =~= p@);
    }
    true
}

/// Every topic below a node of a well-formed tree has the node's topic as an ancestor.
pub(crate) proof fn lemma_below_has_ancestor(
    p: Seq<char>,
    entries: Seq<TopicTreeEntry>,
    t: Seq<char>,
    counted: bool,
)
    requires
        wf_level(Some(p), entries, counted),
        has_topic(entries, t),
    ensures
        is_ancestor_spec(p, t),
    decreases entries,
{
    reveal_with_fuel(has_topic, 2);
    let j = choose|j: int|
        0 <= j < entries.len() && ((#[trigger] entries[j]).topic@ == t || has_topic(
            entries[j].entries_below@,
            t,
        ));
    let e = entries[j];
    assert(e.topic@ == p + seq!['/'] + e.leaf@);
    assert(wf_node(e, counted));
    if e.topic@ == t {
        assert(t.subrange(0, p.len() as int) =~= p);
    } else {
        assert(decreases_to!(entries => entries[j]));
        lemma_below_has_ancestor(e.topic@, e.entries_below@, t, counted);
        assert(t.subrange(0, e.topic@.len() as int) == e.topic@);
        assert(t.subrange(0, p.len() as int) =~= t.subrange(0, e.topic@.len() as int).subrange(
            0,
            p.len() as int,
        ));
        assert(t.subrange(0, p.len() as int) =~= p);
        assert(t[p.len() as int] == t.subrange(0, e.topic@.len() as int)[p.len() as int]);
    }
}

/// Of two ancestors of one topic, the shorter is an ancestor of the longer.
pub(crate) proof fn lemma_ancestors_nest(p: Seq<char>, q: Seq<char>, t: Seq<char>)
    requires
        is_ancestor_spec(p, t),
        is_ancestor_spec(q, t),
        p.len() < q.len(),
    ensures
        is_ancestor_spec(p, q),
{
    assert(q.subrange(0, p.len() as int) =~= t.subrange(0, p.len() as int));
    assert(q[p.len() as int] == t.subrange(0, q.len() as int)[p.len() as int]);
}

/// Above the topic of a node of a well-formed level there is nothing that lies
/// below the level's parent.
pub(crate) proof fn lemma_no_ancestor_within_level(
    parent: Option<Seq<char>>,
    leaf: Seq<char>,
    p: Seq<char>,
)
    requires
        no_slash(leaf),
        is_ancestor_spec(p, topic_under(parent, leaf)),
    ensures
        parent matches Some(pp) && (p == pp || is_ancestor_spec(p, pp)),
{
    let t = topic_under(parent, leaf);
    match parent {
        Some(pp) => {
            assert(t[pp.len() as int] == '/');
            if p.len() > pp.len() {
                assert(t[p.len() as int] == leaf[p.len() - pp.len() - 1]);
            } else if p.len() == pp.len() {
                assert(p =~= t.subrange(0, pp.len() as int));
                assert(t.subrange(0, pp.len() as int) =~= pp);
            } else {
                assert(pp =~= t.subrange(0, pp.len() as int));
                lemma_ancestors_nest(p, pp, t);
            }
        },
        None => {
            assert(t[p.len() as int] == leaf[p.len() as int]);
        },
    }
}

/// In a well-formed level, every ancestor of a topic that it holds, up to the
/// level's parent, is held too.
pub(crate) proof fn lemma_ancestors_present(
    parent: Option<Seq<char>>,
    entries: Seq<TopicTreeEntry>,
    t: Seq<char>,
    p: Seq<char>,
    counted: bool,
)
    requires
        wf_level(parent, entries, counted),
        has_topic(entries, t),
        is_ancestor_spec(p, t),
        parent matches Some(pp) ==> is_ancestor_spec(pp, p),
    ensures
        has_topic(entries, p),
    decreases entries,
{
    reveal_with_fuel(has_topic, 2);
    let j = choose|j: int|
        0 <= j < entries.len() && ((#[trigger] entries[j]).topic@ == t || has_topic(
            entries[j].entries_below@,
            t,
        ));
    let e = entries[j];
    let q = e.topic@;
    assert(q == topic_under(parent, e.leaf@));
    assert(wf_node(e, counted));
    if q == t {
        lemma_no_ancestor_within_level(parent, e.leaf@, p);
    } else {
        lemma_below_has_ancestor(q, e.entries_below@, t, counted);
        if p == q {
            assert(entries[j].topic@ == p);
        } else if p.len() < q.len() {
            lemma_ancestors_nest(p, q, t);
            lemma_no_ancestor_within_level(parent, e.leaf@, p);
        } else {
            if p.len() == q.len() {
                assert(p =~= t.subrange(0, p.len() as int));
                assert(q =~= t.subrange(0, q.len() as int));
            }
            lemma_ancestors_nest(q, p, t);
            assert(decreases_to!(entries => entries[j]));
            lemma_ancestors_present(Some(q), e.entries_below@, t, p, counted);
            assert(has_topic(entries[j].entries_below@, p));
        }
    }
}

/// A level without its first node is still a well-formed level.
pub(crate) proof fn lemma_level_rest(parent: Option<Seq<char>>, entries: Seq<TopicTreeEntry>, counted: bool)
    requires
        wf_level(parent, entries, counted),
        entries.len() > 0,
    ensures
        wf_level(parent, entries.drop_first(), counted),
{
    let rest = entries.drop_first();
    assert forall|i: int| 0 <= i < rest.len() implies {
        &&& #[trigger] rest[i].topic@ == topic_under(parent, rest[i].leaf@)
        &&& wf_node(rest[i], counted)
        &&& (i + 1 < rest.len() ==> seq_less(rest[i].leaf@, rest[i + 1].leaf@))
    } by {
        assert(entries[i + 1].topic@ == topic_under(parent, entries[i + 1].leaf@));
    }
}

/// The topics of an open-set, as character sequences.
pub open spec fn open_topics(opened: Set<String>) -> Set<Seq<char>> {
    opened.map(|s: String| s@)
}

/// The flattened pre-order sequence of nodes that a tree view shows: every
/// node of `entries`, followed by its own visible children when its topic is open.
pub open spec fn visible(open: Set<Seq<char>>, entries: Seq<TopicTreeEntry>) -> Seq<TopicTreeEntry>
    decreases entries,
{
    if entries.len() == 0 {
        Seq::empty()
    } else {
        let e = entries[0];
        let below = if open.contains(e.topic@) {
            visible(open, e.entries_below@)
        } else {
            Seq::empty()
        };
        seq![e].add(below).add(visible(open, entries.drop_first()))
    }
}

/// With nothing open, exactly the root-level nodes are visible, in their order.
pub proof fn lemma_nothing_open_shows_roots(entries: Seq<TopicTreeEntry>)
    ensures
        visible(Set::empty(), entries) == entries,
    decreases entries.len(),
{
    if entries.len() > 0 {
        lemma_nothing_open_shows_roots(entries.drop_first());
        assert(seq![entries[0]].add(Seq::<TopicTreeEntry>::empty()).add(entries.drop_first())
            =~= entries);
    }
}

/// Every visible node is a root-level node, or its parent is visible at an
/// earlier position and open.
pub proof fn lemma_parent_shown_first(open: Set<Seq<char>>, entries: Seq<TopicTreeEntry>)
    ensures
        forall|k: int|
            0 <= k < visible(open, entries).len() ==> #[trigger] entries.contains(
                visible(open, entries)[k],
            ) || exists|i: int|
                0 <= i < k && visible(open, entries)[i].entries_below@.contains(
                    visible(open, entries)[k],
                ) && open.contains(visible(open, entries)[i].topic@),
    decreases entries,
{
    if entries.len() > 0 {
        let e = entries[0];
        let below = if open.contains(e.topic@) {
            visible(open, e.entries_below@)
        } else {
            Seq::empty()
        };
        let rest = visible(open, entries.drop_first());
        let v = visible(open, entries);
        assert(v == seq![e].add(below).add(rest));
        if open.contains(e.topic@) {
            assert(decreases_to!(entries => entries[0]));
            lemma_parent_shown_first(open, e.entries_below@);
        }
        lemma_parent_shown_first(open, entries.drop_first());
        assert forall|k: int| 0 <= k < v.len() implies #[trigger] entries.contains(v[k]) || exists|
            i: int,
        | 0 <= i < k && v[i].entries_below@.contains(v[k]) && open.contains(v[i].topic@) by {
            if k == 0 {
                assert(v[k] == entries[0]);
            } else if k < 1 + below.len() {
                let k2 = k - 1;
                assert(v[k] == below[k2]);
                if e.entries_below@.contains(below[k2]) {
                    assert(v[0] == e);
                } else {
                    let i2 = choose|i2: int|
                        0 <= i2 < k2 && below[i2].entries_below@.contains(below[k2]) && open.contains(
                            below[i2].topic@,
                        );
                    assert(v[i2 + 1] == below[i2]);
                }
            } else {
                let k3 = k - 1 - below.len();
                assert(v[k] == rest[k3]);
                if entries.drop_first().contains(rest[k3]) {
                    let j = choose|j: int| 0 <= j < entries.drop_first().len() && entries.drop_first()[j] == rest[k3];
                    assert(entries[j + 1] == v[k]);
                } else {
                    let i3 = choose|i3: int|
                        0 <= i3 < k3 && rest[i3].entries_below@.contains(rest[k3]) && open.contains(
                            rest[i3].topic@,
                        );
                    assert(v[i3 + 1 + below.len()] == rest[i3]);
                }
            }
        }
    }
}

/// The nodes that a sequence of references points to.
pub open spec fn nodes_of(refs: Seq<&TopicTreeEntry>) -> Seq<TopicTreeEntry> {
    refs.map_values(|e: &TopicTreeEntry| *e)
}

/// Relies on `HashSet::contains`: a `String` is found when the set holds one
/// with the same characters.
#[verifier::external_body]
fn is_open(opened: &HashSet<String>, topic: &String) -> (r: bool)
    ensures
        r == open_topics(opened@).contains(topic@),
{
    opened.contains(topic)
}

/// The visible sequence of `entries` when the topics of `opened` and the
/// ancestors of `target` are open.
pub(crate) fn visible_forcing<'a>(
    opened: &HashSet<String>,
    target: &str,
    entries: &'a [TopicTreeEntry],
) -> (r: Vec<&'a TopicTreeEntry>)
    ensures
        nodes_of(r@) == visible(open_topics(opened@).union(ancestors(target@)), entries@),
    decreases entries@,
{
    let ghost open = open_topics(opened@).union(ancestors(target@));
    let mut result: Vec<&'a TopicTreeEntry> = Vec::new();
    let mut i: usize = 0;
    proof {
        assert(entries@.subrange(0, entries@.len() as int) =~= entries@);
        assert(nodes_of(result@) =~= Seq::<TopicTreeEntry>::empty());
    }
    while i < entries.len()
        invariant
            i <= entries@.len(),
            open == open_topics(opened@).union(ancestors(target@)),
            visible(open, entries@) == nodes_of(result@).add(
                visible(open, entries@.subrange(i as int, entries@.len() as int)),
            ),
        decreases entries@.len() - i,
    {
        let entry = &entries[i];
        let ghost rest = entries@.subrange(i as int, entries@.len() as int);
        let ghost before = nodes_of(result@);
        proof {
            assert(rest[0] == *entry);
            assert(rest.drop_first() =~= entries@.subrange(i + 1, entries@.len() as int));
        }
        result.push(entry);
        proof {
            assert(nodes_of(result@) =~= before.push(*entry));
        }
        if is_open(opened, &entry.topic) || is_ancestor(entry.topic.as_str(), target) {
            proof {
                assert(decreases_to!(entries@ => entries@[i as int]));
            }
            let children = entry.entries_below.as_slice();
            let mut below = visible_forcing(opened, target, children);
            let ghost mid = nodes_of(result@);
            let ghost raw = result@;
            let ghost shown = below@;
            result.append(&mut below);
            proof {
                assert(result@ == raw.add(shown));
                assert(nodes_of(shown) == visible(open, entry.entries_below@));
            }
            proof {
                assert(nodes_of(result@) =~= mid.add(
                    visible(open, entry.entries_below@),
                ));
            }
        }
        proof {
            let shown_all = if open.contains(entry.topic@) {
                visible(open, entry.entries_below@)
            } else {
                Seq::empty()
            };
            assert(nodes_of(result@) =~= before.push(*entry).add(shown_all));
            assert(visible(open, rest) == seq![*entry].add(shown_all).add(
                visible(open, entries@.subrange(i + 1, entries@.len() as int)),
            ));
            assert(before.add(visible(open, rest)) =~= before.push(*entry).add(shown_all).add(
                visible(open, entries@.subrange(i + 1, entries@.len() as int)),
            ));
        }
        i = i + 1;
    }
    result
}

/// The visible sequence of `entries` for the open-set `opened`.
pub fn get_visible<'a>(opened: &HashSet<String>, entries: &'a [TopicTreeEntry]) -> (r: Vec<&'a TopicTreeEntry>)
    ensures
        nodes_of(r@) == visible(open_topics(opened@), entries@),
{
    let r = visible_forcing(opened, "", entries);
    proof {
        reveal_strlit("");
        assert(open_topics(opened@).union(ancestors(""@)) =~= open_topics(opened@));
    }
    r
}

} // verus!
