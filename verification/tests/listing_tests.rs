use trigger_engine::store::ConfigStore;

const G: u64 = 3;

#[test]
fn listing_shows_each_set_under_its_number() {
    let mut st = ConfigStore::new();
    st.add_trigger_set(G, "huh".to_string(), "ok".to_string()).unwrap();
    st.add_trigger(G, 0, "heh".to_string()).unwrap();
    st.add_trigger_set(G, "bye".to_string(), "later".to_string()).unwrap();
    let text = st.list_triggers(G);
    assert_eq!(
        text,
        "Set #0:\n  matches: [\"huh\",\"heh\"]\n  text: \"ok\"\nSet #1:\n  matches: [\"bye\"]\n  text: \"later\"\n"
    );
}

#[test]
fn listing_of_unadministered_guild_is_empty() {
    let st = ConfigStore::new();
    assert_eq!(st.list_triggers(G), "");
}

#[test]
fn listing_twice_without_mutation_is_identical() {
    let mut st = ConfigStore::new();
    st.add_trigger_set(G, "huh".to_string(), "ok".to_string()).unwrap();
    let a = st.list_triggers(G);
    let b = st.list_triggers(G);
    assert_eq!(a, b);
}
