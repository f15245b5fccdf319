use trigger_engine::matching::match_message;
use trigger_engine::store::ConfigStore;

const G: u64 = 1;

#[test]
fn case_insensitive_substring_match() {
    let mut st = ConfigStore::new();
    st.add_trigger_set(G, "give me".to_string(), "here you go".to_string()).unwrap();
    st.toggle_auto_reply(G, Some(true));
    let out = match_message(&st.get(G), "Give Me that");
    assert_eq!(out, vec!["here you go".to_string()]);
}

#[test]
fn apostrophes_are_stripped() {
    let mut st = ConfigStore::new();
    st.add_trigger_set(G, "cant".to_string(), "sure you can".to_string()).unwrap();
    st.toggle_auto_reply(G, Some(true));
    let out = match_message(&st.get(G), "I can't stop");
    assert_eq!(out, vec!["sure you can".to_string()]);
}

#[test]
fn disabled_guild_is_silent() {
    let mut st = ConfigStore::new();
    st.add_trigger_set(G, "give me".to_string(), "here you go".to_string()).unwrap();
    let out = match_message(&st.get(G), "give me everything");
    assert!(out.is_empty());
}

#[test]
fn one_record_replies_once_even_with_two_matching_triggers() {
    let mut st = ConfigStore::new();
    st.add_trigger_set(G, "give me".to_string(), "once".to_string()).unwrap();
    st.add_trigger(G, 0, "that".to_string()).unwrap();
    st.toggle_auto_reply(G, Some(true));
    let out = match_message(&st.get(G), "give me that");
    assert_eq!(out, vec!["once".to_string()]);
}

#[test]
fn distinct_records_reply_in_order() {
    let mut st = ConfigStore::new();
    st.add_trigger_set(G, "alpha".to_string(), "first".to_string()).unwrap();
    st.add_trigger_set(G, "beta".to_string(), "second".to_string()).unwrap();
    st.toggle_auto_reply(G, Some(true));
    let out = match_message(&st.get(G), "beta and alpha");
    assert_eq!(out, vec!["first".to_string(), "second".to_string()]);
}

#[test]
fn unmatched_message_earns_nothing() {
    let mut st = ConfigStore::new();
    st.add_trigger_set(G, "alpha".to_string(), "first".to_string()).unwrap();
    st.toggle_auto_reply(G, Some(true));
    let out = match_message(&st.get(G), "nothing of note");
    assert!(out.is_empty());
}

#[test]
fn admin_adds_set_then_message_earns_one_reply() {
    let mut st = ConfigStore::new();
    st.add_trigger_set(G, "huh".to_string(), "https://example.com/huh".to_string()).unwrap();
    st.toggle_auto_reply(G, Some(true));
    let out = match_message(&st.get(G), "heh? huh?");
    assert_eq!(out.len(), 1);
    assert_eq!(out[0], "https://example.com/huh");
}
