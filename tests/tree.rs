use mqttui::resolver::{get_identifier_of_topic, get_index_of_topic};
use mqttui::topic_tree_entry::{get_visible, TopicTreeEntry};
use mqttui::tree_builder::{build_tree, text_less, TopicHistory};
use std::collections::HashSet;

fn history(topic: &str, messages: usize, last: &[u8]) -> TopicHistory {
    TopicHistory {
        topic: topic.to_string(),
        messages,
        last_payload: Some(last.to_vec()),
    }
}

fn snapshot() -> Vec<TopicHistory> {
    vec![
        history("test", 2, b"C"),
        history("foo/test", 1, b"B"),
        history("foo/bar", 1, b"D"),
    ]
}

fn topics_of(entries: &[&TopicTreeEntry]) -> Vec<String> {
    entries.iter().map(|e| e.topic.clone()).collect()
}

fn all_open(entries: &[TopicTreeEntry], into: &mut HashSet<String>) {
    for e in entries {
        into.insert(e.topic.clone());
        all_open(&e.entries_below, into);
    }
}

#[test]
fn builds_the_example_forest() {
    let tree = build_tree(&snapshot());
    assert_eq!(tree.len(), 2);
    let foo = &tree[0];
    assert_eq!(foo.topic, "foo");
    assert_eq!(foo.leaf, "foo");
    assert_eq!(foo.messages, 0);
    assert!(foo.last_payload.is_none());
    assert_eq!(foo.topics_below, 2);
    assert_eq!(foo.messages_below, 2);
    assert_eq!(foo.entries_below[0].topic, "foo/bar");
    assert_eq!(foo.entries_below[0].leaf, "bar");
    assert_eq!(foo.entries_below[0].last_payload, Some(b"D".to_vec()));
    assert_eq!(foo.entries_below[1].topic, "foo/test");
    let test = &tree[1];
    assert_eq!(test.topic, "test");
    assert_eq!(test.messages, 2);
    assert_eq!(test.topics_below, 0);
}

#[test]
fn empty_history_gives_empty_forest() {
    assert!(build_tree(&Vec::new()).is_empty());
}

#[test]
fn topic_and_its_prefix_both_carry_messages() {
    let tree = build_tree(&vec![history("a/b", 3, b"x"), history("a", 2, b"y")]);
    assert_eq!(tree.len(), 1);
    assert_eq!(tree[0].messages, 2);
    assert_eq!(tree[0].topics_below, 1);
    assert_eq!(tree[0].messages_below, 3);
    assert_eq!(tree[0].entries_below[0].messages, 3);
}

#[test]
fn counts_cover_all_descendants() {
    let tree = build_tree(&vec![
        history("a/b/c", 1, b"1"),
        history("a/b/d", 4, b"2"),
        history("a/e", 2, b"3"),
    ]);
    assert_eq!(tree[0].topics_below, 4);
    assert_eq!(tree[0].messages_below, 7);
    assert_eq!(tree[0].entries_below[0].topic, "a/b");
    assert_eq!(tree[0].entries_below[0].topics_below, 2);
    assert_eq!(tree[0].entries_below[0].messages_below, 5);
}

#[test]
fn rebuilding_gives_the_same_tree() {
    let first = build_tree(&snapshot());
    let second = build_tree(&snapshot());
    let mut opened = HashSet::new();
    all_open(&first, &mut opened);
    let a = get_visible(&opened, &first);
    let b = get_visible(&opened, &second);
    assert_eq!(topics_of(&a), topics_of(&b));
    for (x, y) in a.iter().zip(b.iter()) {
        assert_eq!(x.topics_below, y.topics_below);
        assert_eq!(x.messages_below, y.messages_below);
    }
}

#[test]
fn sibling_order_does_not_depend_on_input_order() {
    let mut reversed = snapshot();
    reversed.reverse();
    let a = build_tree(&snapshot());
    let b = build_tree(&reversed);
    let mut opened = HashSet::new();
    all_open(&a, &mut opened);
    assert_eq!(
        topics_of(&get_visible(&opened, &a)),
        topics_of(&get_visible(&opened, &b))
    );
    assert_eq!(
        topics_of(&get_visible(&opened, &a)),
        ["foo", "foo/bar", "foo/test", "test"]
    );
}

#[test]
fn parent_comes_before_child() {
    let tree = build_tree(&vec![history("x/y/z", 1, b"1"), history("w", 1, b"2")]);
    let mut opened = HashSet::new();
    opened.insert("x".to_string());
    opened.insert("x/y".to_string());
    let shown = get_visible(&opened, &tree);
    assert_eq!(topics_of(&shown), ["w", "x", "x/y", "x/y/z"]);
}

#[test]
fn resolving_opens_ancestors_for_that_frame_only() {
    let tree = build_tree(&snapshot());
    let opened = HashSet::new();
    let index = get_index_of_topic(&opened, &tree, &"foo/test".to_string());
    assert_eq!(index, Some(2));
    assert!(opened.is_empty());
    assert_eq!(topics_of(&get_visible(&opened, &tree)), ["foo", "test"]);
}

#[test]
fn resolving_an_absent_topic_is_not_found() {
    let tree = build_tree(&snapshot());
    let mut opened = HashSet::new();
    opened.insert("foo".to_string());
    assert_eq!(get_index_of_topic(&opened, &tree, &"foo/gone".to_string()), None);
    assert_eq!(get_index_of_topic(&opened, &tree, &"test".to_string()), Some(3));
}

#[test]
fn identifier_is_path_of_child_indices() {
    let tree = build_tree(&snapshot());
    assert_eq!(get_identifier_of_topic(&tree, &"foo/test".to_string()), Some(vec![0, 1]));
    assert_eq!(get_identifier_of_topic(&tree, &"test".to_string()), Some(vec![1]));
    assert_eq!(get_identifier_of_topic(&tree, &"nope".to_string()), None);
}

#[test]
fn text_order_is_by_code_point() {
    assert!(text_less("bar", "test"));
    assert!(text_less("ab", "abc"));
    assert!(!text_less("abc", "abc"));
    assert!(!text_less("b", "a"));
}

#[test]
fn later_entry_for_same_topic_wins() {
    let tree = build_tree(&vec![history("a", 1, b"old"), history("a", 3, b"new")]);
    assert_eq!(tree.len(), 1);
    assert_eq!(tree[0].messages, 3);
    assert_eq!(tree[0].last_payload, Some(b"new".to_vec()));
}

#[test]
fn structural_node_has_no_own_messages() {
    let tree = build_tree(&vec![history("a/b/c", 5, b"p")]);
    assert_eq!(tree[0].messages, 0);
    assert!(tree[0].last_payload.is_none());
    assert_eq!(tree[0].entries_below[0].messages, 0);
    assert_eq!(tree[0].entries_below[0].entries_below[0].last_payload, Some(b"p".to_vec()));
    assert_eq!(tree[0].meta(), "(2 topics, 5 messages)");
}
