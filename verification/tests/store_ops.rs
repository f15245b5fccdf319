use trigger_engine::store::ConfigStore;
use trigger_engine::StoreError;

const G: u64 = 42;

#[test]
fn add_set_and_get() {
    let mut st = ConfigStore::new();
    let cfg = st.add_trigger_set(G, "huh".to_string(), "ok".to_string()).unwrap();
    assert_eq!(cfg.triggers.len(), 1);
    assert_eq!(cfg.triggers[0].matches, vec!["huh".to_string()]);
    assert_eq!(cfg.triggers[0].text, "ok");
    let got = st.get(G);
    assert_eq!(got.triggers.len(), 1);
    assert_eq!(got.triggers[0].text, "ok");
    assert!(!got.auto_reply);
    assert_eq!(got.reply_timeout, 5000);
}

#[test]
fn never_administered_guild_has_default() {
    let st = ConfigStore::new();
    let got = st.get(7);
    assert!(got.triggers.is_empty());
    assert!(!got.auto_reply);
    assert_eq!(got.reply_timeout, 5000);
}

#[test]
fn empty_trigger_rejected_at_creation() {
    let mut st = ConfigStore::new();
    assert!(matches!(
        st.add_trigger_set(G, String::new(), "x".to_string()),
        Err(StoreError::EmptyTrigger)
    ));
    assert!(st.get(G).triggers.is_empty());
    st.add_trigger_set(G, "a".to_string(), "x".to_string()).unwrap();
    assert!(matches!(
        st.add_trigger(G, 0, String::new()),
        Err(StoreError::EmptyTrigger)
    ));
    assert_eq!(st.get(G).triggers[0].matches.len(), 1);
}

#[test]
fn add_trigger_appends_and_checks_index() {
    let mut st = ConfigStore::new();
    st.add_trigger_set(G, "a".to_string(), "x".to_string()).unwrap();
    let cfg = st.add_trigger(G, 0, "b".to_string()).unwrap();
    assert_eq!(cfg.triggers[0].matches, vec!["a".to_string(), "b".to_string()]);
    assert!(matches!(
        st.add_trigger(G, 1, "c".to_string()),
        Err(StoreError::IndexOutOfRange)
    ));
    assert!(matches!(
        st.add_trigger(99, 0, "c".to_string()),
        Err(StoreError::IndexOutOfRange)
    ));
}

#[test]
fn remove_trigger_by_position() {
    let mut st = ConfigStore::new();
    st.add_trigger_set(G, "a".to_string(), "x".to_string()).unwrap();
    st.add_trigger(G, 0, "b".to_string()).unwrap();
    st.add_trigger(G, 0, "c".to_string()).unwrap();
    let cfg = st.remove_trigger(G, 0, 1).unwrap();
    assert_eq!(cfg.triggers[0].matches, vec!["a".to_string(), "c".to_string()]);
    assert!(matches!(st.remove_trigger(G, 0, 2), Err(StoreError::IndexOutOfRange)));
    assert!(matches!(st.remove_trigger(G, 1, 0), Err(StoreError::IndexOutOfRange)));
}

#[test]
fn remove_set_at_count_fails() {
    let mut st = ConfigStore::new();
    st.add_trigger_set(G, "a".to_string(), "x".to_string()).unwrap();
    st.add_trigger_set(G, "b".to_string(), "y".to_string()).unwrap();
    assert!(matches!(st.remove_trigger_set(G, 2), Err(StoreError::IndexOutOfRange)));
    assert_eq!(st.get(G).triggers.len(), 2);
}

#[test]
fn remove_set_shifts_later_sets_down() {
    let mut st = ConfigStore::new();
    st.add_trigger_set(G, "a".to_string(), "x".to_string()).unwrap();
    st.add_trigger_set(G, "b".to_string(), "y".to_string()).unwrap();
    st.add_trigger_set(G, "c".to_string(), "z".to_string()).unwrap();
    let cfg = st.remove_trigger_set(G, 1).unwrap();
    assert_eq!(cfg.triggers.len(), 2);
    assert_eq!(cfg.triggers[0].matches, vec!["a".to_string()]);
    assert_eq!(cfg.triggers[1].matches, vec!["c".to_string()]);
}

#[test]
fn set_response_text_replaces() {
    let mut st = ConfigStore::new();
    st.add_trigger_set(G, "a".to_string(), "x".to_string()).unwrap();
    let cfg = st.set_response_text(G, 0, "new".to_string()).unwrap();
    assert_eq!(cfg.triggers[0].text, "new");
    assert_eq!(cfg.triggers[0].matches, vec!["a".to_string()]);
    assert!(matches!(
        st.set_response_text(G, 1, "no".to_string()),
        Err(StoreError::IndexOutOfRange)
    ));
}

#[test]
fn toggle_auto_reply_flips_or_sets() {
    let mut st = ConfigStore::new();
    assert!(st.toggle_auto_reply(G, None));
    assert!(!st.toggle_auto_reply(G, None));
    assert!(st.toggle_auto_reply(G, Some(true)));
    assert!(st.get(G).auto_reply);
    assert!(!st.toggle_auto_reply(G, Some(false)));
    assert!(!st.get(G).auto_reply);
}

#[test]
fn set_timeout_updates_advisory_value() {
    let mut st = ConfigStore::new();
    let cfg = st.set_timeout(G, 1234);
    assert_eq!(cfg.reply_timeout, 1234);
    assert_eq!(st.get(G).reply_timeout, 1234);
}

#[test]
fn batched_adds_all_land() {
    let mut st = ConfigStore::new();
    st.add_trigger_set(G, "base".to_string(), "x".to_string()).unwrap();
    for t in ["a", "b", "c", "d", "e"] {
        st.add_trigger(G, 0, t.to_string()).unwrap();
    }
    let got = st.get(G);
    assert_eq!(
        got.triggers[0].matches,
        vec![
            "base".to_string(),
            "a".to_string(),
            "b".to_string(),
            "c".to_string(),
            "d".to_string(),
            "e".to_string()
        ]
    );
}

#[test]
fn guilds_are_independent() {
    let mut st = ConfigStore::new();
    st.add_trigger_set(1, "a".to_string(), "x".to_string()).unwrap();
    st.add_trigger_set(2, "b".to_string(), "y".to_string()).unwrap();
    st.remove_trigger_set(1, 0).unwrap();
    assert!(st.get(1).triggers.is_empty());
    assert_eq!(st.get(2).triggers.len(), 1);
}
