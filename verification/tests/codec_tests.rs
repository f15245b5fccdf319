use trigger_engine::codec::{load_store, save_store, LoadError};
use trigger_engine::store::ConfigStore;

#[test]
fn empty_store_saves_as_empty_object() {
    let st = ConfigStore::new();
    assert_eq!(save_store(&st), "{}");
}

#[test]
fn snapshot_text_has_the_documented_shape() {
    let mut st = ConfigStore::new();
    st.add_trigger_set(5, "huh".to_string(), "ok".to_string()).unwrap();
    let text = save_store(&st);
    assert_eq!(
        text,
        "{\"5\":{\"triggers\":[{\"matches\":[\"huh\"],\"text\":\"ok\"}],\"timeout\":5000,\"autoReply\":false}}"
    );
}

#[test]
fn snapshot_text_is_valid_json() {
    let mut st = ConfigStore::new();
    st.add_trigger_set(5, "hu\"h".to_string(), "o\\k".to_string()).unwrap();
    st.set_timeout(5, 250);
    st.toggle_auto_reply(5, Some(true));
    let text = save_store(&st);
    let v: serde_json::Value = serde_json::from_str(&text).unwrap();
    let g = v.get("5").unwrap();
    assert_eq!(g.get("timeout").unwrap().as_u64(), Some(250));
    assert_eq!(g.get("autoReply").unwrap().as_bool(), Some(true));
    let rec = g.get("triggers").unwrap().get(0).unwrap();
    assert_eq!(
        rec.get("matches").unwrap().get(0).unwrap().as_str(),
        Some("hu\"h")
    );
    assert_eq!(rec.get("text").unwrap().as_str(), Some("o\\k"));
}

#[test]
fn load_of_empty_object_is_empty_store() {
    let st = load_store("{}").unwrap();
    assert!(st.get(1).triggers.is_empty());
    assert_eq!(save_store(&st), "{}");
}

#[test]
fn save_then_load_reproduces_the_store() {
    let mut st = ConfigStore::new();
    st.add_trigger_set(5, "huh".to_string(), "https://example.com/huh".to_string()).unwrap();
    st.add_trigger(5, 0, "heh".to_string()).unwrap();
    st.add_trigger_set(5, "a\"b".to_string(), "back\\slash".to_string()).unwrap();
    st.toggle_auto_reply(5, Some(true));
    st.set_timeout(5, 12345);
    st.add_trigger_set(18446744073709551615, "big".to_string(), "guild".to_string()).unwrap();
    let text = save_store(&st);
    let loaded = load_store(&text).unwrap();
    assert_eq!(save_store(&loaded), text);
    let g5 = loaded.get(5);
    assert_eq!(g5.triggers.len(), 2);
    assert_eq!(g5.triggers[0].matches, vec!["huh".to_string(), "heh".to_string()]);
    assert_eq!(g5.triggers[1].matches, vec!["a\"b".to_string()]);
    assert_eq!(g5.triggers[1].text, "back\\slash");
    assert!(g5.auto_reply);
    assert_eq!(g5.reply_timeout, 12345);
    let big = loaded.get(18446744073709551615);
    assert_eq!(big.triggers[0].text, "guild");
}

#[test]
fn mutate_save_reload_equals_memory() {
    let mut st = ConfigStore::new();
    st.add_trigger_set(9, "x".to_string(), "y".to_string()).unwrap();
    let first = save_store(&st);
    let mut reloaded = load_store(&first).unwrap();
    reloaded.set_response_text(9, 0, "z".to_string()).unwrap();
    st.set_response_text(9, 0, "z".to_string()).unwrap();
    assert_eq!(save_store(&reloaded), save_store(&st));
}

#[test]
fn malformed_texts_are_refused() {
    for bad in [
        "",
        "{",
        "}",
        "nonsense",
        "{}x",
        "{\"5\":}",
        "{\"5\":{\"triggers\":[],\"timeout\":5000,\"autoReply\":false}",
        "{\"a\":{\"triggers\":[],\"timeout\":5000,\"autoReply\":false}}",
        "{\"5\":{\"triggers\":[],\"timeout\":-2,\"autoReply\":false}}",
        "{\"5\":{\"triggers\":[],\"timeout\":5000,\"autoReply\":maybe}}",
        "{ \"5\":{\"triggers\":[],\"timeout\":5000,\"autoReply\":false}}",
    ] {
        assert!(
            matches!(load_store(bad), Err(LoadError::Malformed)),
            "text: {}",
            bad
        );
    }
}

#[test]
fn oversized_timeout_is_refused() {
    let text = "{\"5\":{\"triggers\":[],\"timeout\":18446744073709551616,\"autoReply\":false}}";
    assert!(matches!(load_store(text), Err(LoadError::Malformed)));
    let fits = "{\"5\":{\"triggers\":[],\"timeout\":18446744073709551615,\"autoReply\":false}}";
    let st = load_store(fits).unwrap();
    assert_eq!(st.get(5).reply_timeout, u64::MAX);
}

#[test]
fn repeated_guild_key_is_refused() {
    let text = "{\"5\":{\"triggers\":[],\"timeout\":5000,\"autoReply\":false},\"5\":{\"triggers\":[],\"timeout\":5000,\"autoReply\":false}}";
    assert!(matches!(load_store(text), Err(LoadError::Invalid)));
}

#[test]
fn empty_trigger_string_in_snapshot_is_refused() {
    let text = "{\"5\":{\"triggers\":[{\"matches\":[\"\"],\"text\":\"x\"}],\"timeout\":5000,\"autoReply\":false}}";
    assert!(matches!(load_store(text), Err(LoadError::Invalid)));
}
