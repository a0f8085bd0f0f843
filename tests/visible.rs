use mqttui::topic_tree_entry::{decimal, get_visible, TopicTreeEntry};
use std::collections::HashSet;

#[test]
fn visible_topics_none_open_works() {
    let topics = TopicTreeEntry::examples();
    let opened = HashSet::new();
    let visible = get_visible(&opened, &topics);
    let visible = visible.iter().map(|o| o.topic.clone()).collect::<Vec<_>>();
    assert_eq!(visible, ["foo", "test"]);
}

#[test]
fn visible_topics_some_open_works() {
    let topics = TopicTreeEntry::examples();
    let mut opened = HashSet::new();
    opened.insert("foo".to_string());
    let visible = get_visible(&opened, &topics);
    let visible = visible.iter().map(|o| o.topic.clone()).collect::<Vec<_>>();
    assert_eq!(visible, ["foo", "foo/bar", "foo/test", "test"]);
}

#[test]
fn opening_a_leaf_changes_nothing() {
    let topics = TopicTreeEntry::examples();
    let mut opened = HashSet::new();
    opened.insert("test".to_string());
    opened.insert("foo/bar".to_string());
    let visible = get_visible(&opened, &topics);
    let visible = visible.iter().map(|o| o.topic.clone()).collect::<Vec<_>>();
    assert_eq!(visible, ["foo", "test"]);
}

#[test]
fn empty_forest_shows_nothing() {
    let topics: Vec<TopicTreeEntry> = Vec::new();
    let mut opened = HashSet::new();
    opened.insert("foo".to_string());
    assert!(get_visible(&opened, &topics).is_empty());
}

#[test]
fn examples_counts_match_children() {
    let topics = TopicTreeEntry::examples();
    assert_eq!(topics[0].topics_below, 2);
    assert_eq!(topics[0].messages_below, 2);
    assert_eq!(topics[0].entries_below[0].leaf, "bar");
    assert_eq!(topics[1].messages, 2);
}

#[test]
fn meta_of_branch_counts_what_lies_below() {
    let topics = TopicTreeEntry::examples();
    assert_eq!(topics[0].meta(), "(2 topics, 2 messages)");
}

#[test]
fn meta_of_topic_with_messages_shows_payload() {
    let topics = TopicTreeEntry::examples();
    assert_eq!(topics[0].entries_below[0].meta(), "= D");
    assert_eq!(topics[1].meta(), "= C");
}

#[test]
fn decimal_notation() {
    assert_eq!(decimal(0), "0");
    assert_eq!(decimal(7), "7");
    assert_eq!(decimal(1234), "1234");
    assert_eq!(decimal(usize::MAX), usize::MAX.to_string());
}
