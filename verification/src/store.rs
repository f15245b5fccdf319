//! The per-guild configuration store: trigger records grouped into guild
//! configurations, addressed by a 64-bit guild identifier. Every mutating
//! operation edits the store in place and reports exactly when an
//! index-addressed edit is out of bounds.

use vstd::prelude::*;

use crate::StoreError;

verus! {

broadcast use vstd::std_specs::vec::axiom_spec_len;

/// Advisory auto-delete timeout a guild starts with, in milliseconds.
pub const DEFAULT_REPLY_TIMEOUT_MS: u64 = 5000;

/// Mathematical model of one trigger record: the trigger strings and the
/// response text, as character sequences.
#[verifier::ext_equal]
pub ghost struct RecordModel {
    pub matches: Seq<Seq<char>>,
    pub text: Seq<char>,
}

/// Mathematical model of one guild's configuration.
#[verifier::ext_equal]
pub ghost struct ConfigModel {
    pub triggers: Seq<RecordModel>,
    pub auto_reply: bool,
    pub reply_timeout: u64,
}

/// Mathematical model of one store entry.
#[verifier::ext_equal]
pub ghost struct EntryModel {
    pub guild_id: u64,
    pub config: ConfigModel,
}

/// One administered rule: a set of equivalent trigger strings mapped to one
/// response text.
pub struct TriggerRecord {
    pub matches: Vec<String>,
    pub text: String,
}

/// A guild's configuration: its ordered trigger records and per-guild flags.
pub struct GuildConfig {
    pub triggers: Vec<TriggerRecord>,
    pub auto_reply: bool,
    pub reply_timeout: u64,
}

/// One guild's slot in the store.
pub struct GuildEntry {
    pub guild_id: u64,
    pub config: GuildConfig,
}

/// The whole configuration store: one entry per administered guild, keys
/// unique, insertion order kept.
pub struct ConfigStore {
    pub entries: Vec<GuildEntry>,
}

impl View for TriggerRecord {
    type V = RecordModel;

    open spec fn view(&self) -> RecordModel {
        RecordModel { matches: self.matches.deep_view(), text: self.text@ }
    }
}

/// The model of a sequence of records.
pub open spec fn records_model(s: Seq<TriggerRecord>) -> Seq<RecordModel> {
    s.map_values(|r: TriggerRecord| r@)
}

impl View for GuildConfig {
    type V = ConfigModel;

    open spec fn view(&self) -> ConfigModel {
        ConfigModel {
            triggers: records_model(self.triggers@),
            auto_reply: self.auto_reply,
            reply_timeout: self.reply_timeout,
        }
    }
}

impl View for GuildEntry {
    type V = EntryModel;

    open spec fn view(&self) -> EntryModel {
        EntryModel { guild_id: self.guild_id, config: self.config@ }
    }
}

/// The map a sequence of entries denotes; a later entry for the same key
/// would win, though well-formed stores never hold two entries for one key.
pub open spec fn map_of_entries(s: Seq<EntryModel>) -> Map<u64, ConfigModel>
    decreases s.len(),
{
    if s.len() == 0 {
        Map::empty()
    } else {
        map_of_entries(s.drop_last()).insert(s.last().guild_id, s.last().config)
    }
}

impl View for ConfigStore {
    type V = Map<u64, ConfigModel>;

    open spec fn view(&self) -> Map<u64, ConfigModel> {
        map_of_entries(self.entries_model())
    }
}

/// The configuration a guild starts with: no triggers, auto-reply off, the
/// policy timeout.
pub open spec fn default_config() -> ConfigModel {
    ConfigModel {
        triggers: Seq::empty(),
        auto_reply: false,
        reply_timeout: DEFAULT_REPLY_TIMEOUT_MS,
    }
}

/// The configuration the store answers for a guild: its entry if one exists,
/// the implicit default otherwise.
pub open spec fn spec_cfg(m: Map<u64, ConfigModel>, gid: u64) -> ConfigModel {
    if m.contains_key(gid) {
        m[gid]
    } else {
        default_config()
    }
}

/// Every trigger string of the record is non-empty.
pub open spec fn record_wf(r: RecordModel) -> bool {
    forall|i: int| 0 <= i < r.matches.len() ==> r.matches[i].len() > 0
}

/// Every record of the configuration is well formed.
pub open spec fn config_wf(c: ConfigModel) -> bool {
    forall|i: int| 0 <= i < c.triggers.len() ==> record_wf(#[trigger] c.triggers[i])
}

/// No two entries share a guild identifier.
pub open spec fn unique_keys(s: Seq<EntryModel>) -> bool {
    forall|i: int, j: int|
        0 <= i < j < s.len() ==> (#[trigger] s[i]).guild_id != (#[trigger] s[j]).guild_id
}

/// The model of a sequence of store entries.
pub open spec fn entries_model_of(s: Seq<GuildEntry>) -> Seq<EntryModel> {
    s.map_values(|e: GuildEntry| e@)
}

/// Well-formedness of a sequence of entry models: keys unique, every
/// configuration well formed.
pub open spec fn entries_wf(s: Seq<EntryModel>) -> bool {
    &&& unique_keys(s)
    &&& forall|i: int| 0 <= i < s.len() ==> config_wf((#[trigger] s[i]).config)
}

// Model-level edits; each mutating operation's contract is stated with one
// of these.

/// Appending a fresh record with a single trigger string.
pub open spec fn spec_added_set(c: ConfigModel, trigger: Seq<char>, text: Seq<char>) -> ConfigModel {
    ConfigModel { triggers: c.triggers.push(RecordModel { matches: seq![trigger], text }), ..c }
}

/// Appending one trigger string to the record at `k`.
pub open spec fn spec_added_trigger(c: ConfigModel, k: int, trigger: Seq<char>) -> ConfigModel {
    ConfigModel {
        triggers: c.triggers.update(
            k,
            RecordModel { matches: c.triggers[k].matches.push(trigger), ..c.triggers[k] },
        ),
        ..c
    }
}

/// Removing the trigger string at position `j` of the record at `k`.
pub open spec fn spec_removed_trigger(c: ConfigModel, k: int, j: int) -> ConfigModel {
    ConfigModel {
        triggers: c.triggers.update(
            k,
            RecordModel { matches: c.triggers[k].matches.remove(j), ..c.triggers[k] },
        ),
        ..c
    }
}

/// Removing the whole record at position `k`.
pub open spec fn spec_removed_set(c: ConfigModel, k: int) -> ConfigModel {
    ConfigModel { triggers: c.triggers.remove(k), ..c }
}

/// Replacing the response text of the record at `k`.
pub open spec fn spec_set_text(c: ConfigModel, k: int, text: Seq<char>) -> ConfigModel {
    ConfigModel {
        triggers: c.triggers.update(k, RecordModel { text, ..c.triggers[k] }),
        ..c
    }
}

/// Setting the auto-reply flag.
pub open spec fn spec_with_auto(c: ConfigModel, b: bool) -> ConfigModel {
    ConfigModel { auto_reply: b, ..c }
}

/// Setting the advisory timeout.
pub open spec fn spec_with_timeout(c: ConfigModel, ms: u64) -> ConfigModel {
    ConfigModel { reply_timeout: ms, ..c }
}

proof fn lemma_map_contains(s: Seq<EntryModel>, g: u64)
    ensures
        map_of_entries(s).contains_key(g) <==> (exists|i: int|
            0 <= i < s.len() && (#[trigger] s[i]).guild_id == g),
    decreases s.len(),
{
    if s.len() > 0 {
        lemma_map_contains(s.drop_last(), g);
        if s.last().guild_id == g {
            assert(s[s.len() - 1].guild_id == g);
        } else {
            if exists|i: int| 0 <= i < s.len() && (#[trigger] s[i]).guild_id == g {
                let i = choose|i: int| 0 <= i < s.len() && (#[trigger] s[i]).guild_id == g;
                assert(s.drop_last()[i] == s[i]);
            }
            if exists|i: int| 0 <= i < s.drop_last().len() && (#[trigger] s.drop_last()[i]).guild_id
                == g {
                let i = choose|i: int|
                    0 <= i < s.drop_last().len() && (#[trigger] s.drop_last()[i]).guild_id == g;
                assert(s[i].guild_id == g);
            }
        }
    }
}

proof fn lemma_map_lookup(s: Seq<EntryModel>, i: int)
    requires
        unique_keys(s),
        0 <= i < s.len(),
    ensures
        map_of_entries(s).contains_key(s[i].guild_id),
        map_of_entries(s)[s[i].guild_id] == s[i].config,
    decreases s.len(),
{
    if i == s.len() - 1 {
    } else {
        assert(unique_keys(s.drop_last())) by {
            assert(forall|a: int, b: int|
                0 <= a < b < s.drop_last().len() ==> s.drop_last()[a] == s[a] && s.drop_last()[b]
                    == s[b]);
        }
        assert(s.drop_last()[i] == s[i]);
        lemma_map_lookup(s.drop_last(), i);
        assert(s[i].guild_id != s.last().guild_id);
    }
}

proof fn lemma_map_update(s: Seq<EntryModel>, i: int, e: EntryModel)
    requires
        unique_keys(s),
        0 <= i < s.len(),
        e.guild_id == s[i].guild_id,
    ensures
        map_of_entries(s.update(i, e)) == map_of_entries(s).insert(e.guild_id, e.config),
    decreases s.len(),
{
    let s2 = s.update(i, e);
    if i == s.len() - 1 {
        assert(s2.drop_last() =~= s.drop_last());
        assert(s2.last() == e);
        assert(map_of_entries(s2) =~= map_of_entries(s).insert(e.guild_id, e.config));
    } else {
        assert(unique_keys(s.drop_last())) by {
            assert(forall|a: int, b: int|
                0 <= a < b < s.drop_last().len() ==> s.drop_last()[a] == s[a] && s.drop_last()[b]
                    == s[b]);
        }
        assert(s.drop_last()[i] == s[i]);
        lemma_map_update(s.drop_last(), i, e);
        assert(s2.drop_last() =~= s.drop_last().update(i, e));
        assert(s2.last() == s.last());
        assert(s.last().guild_id != e.guild_id);
        assert(map_of_entries(s2) =~= map_of_entries(s).insert(e.guild_id, e.config));
    }
}

/// Replacing the configuration of the entry at `i` updates the store map at
/// that entry's key and keeps the keys unique.
proof fn lemma_store_update(pre: Seq<EntryModel>, post: Seq<EntryModel>, i: int, c2: ConfigModel)
    requires
        unique_keys(pre),
        0 <= i < pre.len(),
        post == pre.update(i, EntryModel { guild_id: pre[i].guild_id, config: c2 }),
    ensures
        map_of_entries(post) == map_of_entries(pre).insert(pre[i].guild_id, c2),
        unique_keys(post),
{
    lemma_map_update(pre, i, EntryModel { guild_id: pre[i].guild_id, config: c2 });
}

proof fn lemma_map_push(s: Seq<EntryModel>, e: EntryModel)
    ensures
        map_of_entries(s.push(e)) == map_of_entries(s).insert(e.guild_id, e.config),
{
    assert(s.push(e).drop_last() =~= s);
    assert(s.push(e).last() == e);
}

/// A well-formed store answers a well-formed configuration for every guild.
pub proof fn lemma_spec_cfg_wf(s: Seq<EntryModel>, g: u64)
    requires
        unique_keys(s),
        forall|i: int| 0 <= i < s.len() ==> config_wf((#[trigger] s[i]).config),
    ensures
        config_wf(spec_cfg(map_of_entries(s), g)),
{
    lemma_map_contains(s, g);
    if map_of_entries(s).contains_key(g) {
        let i = choose|i: int| 0 <= i < s.len() && (#[trigger] s[i]).guild_id == g;
        lemma_map_lookup(s, i);
    }
}

fn clone_strings(v: &Vec<String>) -> (r: Vec<String>)
    ensures
        r@ == v@,
{
    let mut r: Vec<String> = Vec::new();
    let mut i: usize = 0;
    while i < v.len()
        invariant
            i <= v@.len(),
            r@ == v@.take(i as int),
        decreases v@.len() - i,
    {
        r.push(v[i].clone());
        i += 1;
        proof {
            assert(r@ =~= v@.take(i as int));
        }
    }
    proof {
        assert(v@.take(v@.len() as int) =~= v@);
    }
    r
}

impl Clone for TriggerRecord {
    fn clone(&self) -> (r: Self)
        ensures
            r@ == self@,
    {
        let r = TriggerRecord { matches: clone_strings(&self.matches), text: self.text.clone() };
        proof {
            assert(r@ =~~= self@);
        }
        r
    }
}

fn clone_records(v: &Vec<TriggerRecord>) -> (r: Vec<TriggerRecord>)
    ensures
        records_model(r@) == records_model(v@),
{
    let mut r: Vec<TriggerRecord> = Vec::new();
    let mut i: usize = 0;
    while i < v.len()
        invariant
            i <= v@.len(),
            r@.len() == i,
            forall|k: int| 0 <= k < i ==> (#[trigger] r@[k])@ == v@[k]@,
        decreases v@.len() - i,
    {
        r.push(v[i].clone());
        i += 1;
    }
    proof {
        assert(records_model(r@) =~= records_model(v@));
    }
    r
}

impl Clone for GuildConfig {
    fn clone(&self) -> (r: Self)
        ensures
            r@ == self@,
    {
        let r = GuildConfig {
            triggers: clone_records(&self.triggers),
            auto_reply: self.auto_reply,
            reply_timeout: self.reply_timeout,
        };
        proof {
            assert(r@ =~~= self@);
        }
        r
    }
}

impl ConfigStore {
    /// The entries as a sequence of models, in store order.
    pub open spec fn entries_model(&self) -> Seq<EntryModel> {
        entries_model_of(self.entries@)
    }

    /// Well-formedness: keys unique, every configuration well formed.
    pub open spec fn wf(&self) -> bool {
        entries_wf(self.entries_model())
    }

    /// An empty store: no guild has been administered.
    pub fn new() -> (r: Self)
        ensures
            r.wf(),
            r@ == Map::<u64, ConfigModel>::empty(),
    {
        let r = ConfigStore { entries: Vec::new() };
        proof {
            assert(r.entries_model() =~= Seq::<EntryModel>::empty());
        }
        r
    }

    /// The position of the guild's entry, if the guild has one.
    fn find_entry(&self, gid: u64) -> (r: Option<usize>)
        requires
            self.wf(),
        ensures
            match r {
                Some(i) => i < self.entries@.len() && self.entries_model()[i as int].guild_id
                    == gid,
                None => !self@.contains_key(gid),
            },
    {
        let n = self.entries.len();
        let mut i: usize = 0;
        while i < n
            invariant
                n == self.entries@.len(),
                i <= n,
                forall|k: int| 0 <= k < i ==> (#[trigger] self.entries_model()[k]).guild_id != gid,
            decreases n - i,
        {
            if self.entries[i].guild_id == gid {
                assert(self.entries_model()[i as int].guild_id == gid);
                return Some(i);
            }
            i += 1;
        }
        proof {
            lemma_map_contains(self.entries_model(), gid);
        }
        None
    }

    /// The guild's configuration, or the implicit default for a guild that
    /// was never administered; never fails.
    pub fn get(&self, gid: u64) -> (r: GuildConfig)
        requires
            self.wf(),
        ensures
            r@ == spec_cfg(self@, gid),
    {
        match self.find_entry(gid) {
            Some(i) => {
                proof {
                    lemma_map_lookup(self.entries_model(), i as int);
                }
                self.entries[i].config.clone()
            },
            None => {
                let r = GuildConfig {
                    triggers: Vec::new(),
                    auto_reply: false,
                    reply_timeout: DEFAULT_REPLY_TIMEOUT_MS,
                };
                proof {
                    assert(r@ =~~= default_config());
                }
                r
            },
        }
    }

    /// Materializes the guild's entry, creating the default configuration if
    /// the guild has none yet, and returns its position.
    fn ensure_guild(&mut self, gid: u64) -> (i: usize)
        requires
            old(self).wf(),
        ensures
            final(self).wf(),
            i < final(self).entries@.len(),
            final(self).entries_model()[i as int] == (EntryModel {
                guild_id: gid,
                config: spec_cfg(old(self)@, gid),
            }),
            final(self)@ == old(self)@.insert(gid, spec_cfg(old(self)@, gid)),
    {
        match self.find_entry(gid) {
            Some(i) => {
                proof {
                    lemma_map_lookup(self.entries_model(), i as int);
                    assert(self@ =~= old(self)@.insert(gid, spec_cfg(old(self)@, gid)));
                    assert(self.entries_model()[i as int] =~~= (EntryModel {
                        guild_id: gid,
                        config: spec_cfg(old(self)@, gid),
                    }));
                }
                i
            },
            None => {
                let i = self.entries.len();
                let cfg = GuildConfig {
                    triggers: Vec::new(),
                    auto_reply: false,
                    reply_timeout: DEFAULT_REPLY_TIMEOUT_MS,
                };
                self.entries.push(GuildEntry { guild_id: gid, config: cfg });
                proof {
                    let pre = old(self).entries_model();
                    let e = EntryModel { guild_id: gid, config: default_config() };
                    assert(self.entries_model() =~~= pre.push(e));
                    lemma_map_push(pre, e);
                    lemma_map_contains(pre, gid);
                    assert(unique_keys(self.entries_model())) by {
                        assert(forall|k: int|
                            0 <= k < pre.len() ==> #[trigger] self.entries_model()[k] == pre[k]);
                    }
                    assert(forall|k: int|
                        0 <= k < self.entries_model().len() ==> config_wf(
                            (#[trigger] self.entries_model()[k]).config,
                        ));
                }
                i
            },
        }
    }

    /// Flips the auto-reply flag, or sets it to the requested state; returns
    /// the resulting state.
    pub fn toggle_auto_reply(&mut self, gid: u64, new_state: Option<bool>) -> (r: bool)
        requires
            old(self).wf(),
        ensures
            final(self).wf(),
            r == (match new_state {
                Some(b) => b,
                None => !spec_cfg(old(self)@, gid).auto_reply,
            }),
            final(self)@ == old(self)@.insert(gid, spec_with_auto(spec_cfg(old(self)@, gid), r)),
    {
        let i = self.ensure_guild(gid);
        let ghost pre = self.entries_model();
        let ghost map_mid = self@;
        let ns = match new_state {
            Some(b) => b,
            None => !self.entries[i].config.auto_reply,
        };
        self.entries[i].config.auto_reply = ns;
        proof {
            let c2 = spec_with_auto(spec_cfg(old(self)@, gid), ns);
            assert(self.entries_model() =~~= pre.update(
                i as int,
                EntryModel { guild_id: gid, config: c2 },
            ));
            lemma_store_update(pre, self.entries_model(), i as int, c2);
            assert(self@ =~= old(self)@.insert(gid, c2));
            assert(forall|k: int|
                0 <= k < self.entries_model().len() ==> config_wf(
                    (#[trigger] self.entries_model()[k]).config,
                ));
        }
        ns
    }

    /// Updates the advisory reply timeout and returns the post-edit
    /// configuration; never fails.
    pub fn set_timeout(&mut self, gid: u64, millis: u64) -> (r: GuildConfig)
        requires
            old(self).wf(),
        ensures
            final(self).wf(),
            r@ == spec_with_timeout(spec_cfg(old(self)@, gid), millis),
            final(self)@ == old(self)@.insert(gid, spec_with_timeout(spec_cfg(old(self)@, gid), millis)),
    {
        let i = self.ensure_guild(gid);
        let ghost pre = self.entries_model();
        self.entries[i].config.reply_timeout = millis;
        proof {
            let c2 = spec_with_timeout(spec_cfg(old(self)@, gid), millis);
            assert(self.entries_model() =~~= pre.update(
                i as int,
                EntryModel { guild_id: gid, config: c2 },
            ));
            lemma_store_update(pre, self.entries_model(), i as int, c2);
            assert(self@ =~= old(self)@.insert(gid, c2));
            assert(forall|k: int|
                0 <= k < self.entries_model().len() ==> config_wf(
                    (#[trigger] self.entries_model()[k]).config,
                ));
        }
        self.entries[i].config.clone()
    }

    /// Appends a new trigger record holding one trigger string and the given
    /// response text; an empty trigger string is rejected and nothing
    /// changes.
    pub fn add_trigger_set(&mut self, gid: u64, trigger: String, text: String) -> (r: Result<
        GuildConfig,
        StoreError,
    >)
        requires
            old(self).wf(),
        ensures
            final(self).wf(),
            trigger@.len() == 0 ==> r is Err && r->Err_0 == StoreError::EmptyTrigger && final(self)@ == old(self)@ && final(self).entries_model() == old(self).entries_model(),
            trigger@.len() > 0 ==> r is Ok && (r->Ok_0)@ == spec_added_set(
                spec_cfg(old(self)@, gid),
                trigger@,
                text@,
            ) && final(self)@ == old(self)@.insert(
                gid,
                spec_added_set(spec_cfg(old(self)@, gid), trigger@, text@),
            ),
    {
        let ghost tg = trigger@;
        let ghost tx = text@;
        if trigger.as_str().is_empty() {
            return Err(StoreError::EmptyTrigger);
        }
        let i = self.ensure_guild(gid);
        let ghost pre = self.entries_model();
        let ghost c = spec_cfg(old(self)@, gid);
        let rec = TriggerRecord { matches: vec![trigger], text };
        proof {
            assert(rec@ =~~= (RecordModel { matches: seq![tg], text: tx }));
        }
        self.entries[i].config.triggers.push(rec);
        proof {
            let c2 = spec_added_set(c, tg, tx);
            assert(self.entries_model() =~~= pre.update(
                i as int,
                EntryModel { guild_id: gid, config: c2 },
            ));
            lemma_store_update(pre, self.entries_model(), i as int, c2);
            assert(self@ =~= old(self)@.insert(gid, c2));
            lemma_spec_cfg_wf(old(self).entries_model(), gid);
            assert(config_wf(c2)) by {
                assert(record_wf(RecordModel { matches: seq![tg], text: tx }));
                assert(forall|k: int|
                    0 <= k < c.triggers.len() ==> c2.triggers[k] == #[trigger] c.triggers[k]);
            }
            assert(self.entries_model()[i as int] == self.entries@.map_values(
                |e: GuildEntry| e@,
            )[i as int]);
            assert(self.entries_model()[i as int].config == c2);
            assert(self.entries@[i as int]@.config == c2);
            assert(forall|k: int|
                0 <= k < self.entries_model().len() ==> config_wf(
                    (#[trigger] self.entries_model()[k]).config,
                ));
        }
        Ok(self.entries[i].config.clone())
    }

    /// Appends one trigger string to the record at `set_index`; fails when
    /// the index is out of bounds or the trigger string is empty.
    pub fn add_trigger(&mut self, gid: u64, set_index: usize, trigger: String) -> (r: Result<
        GuildConfig,
        StoreError,
    >)
        requires
            old(self).wf(),
        ensures
            final(self).wf(),
            set_index >= spec_cfg(old(self)@, gid).triggers.len() ==> r is Err && r->Err_0
                == StoreError::IndexOutOfRange && final(self)@ == old(self)@.insert(
                gid,
                spec_cfg(old(self)@, gid),
            ),
            set_index < spec_cfg(old(self)@, gid).triggers.len() && trigger@.len() == 0 ==> r
                is Err && r->Err_0 == StoreError::EmptyTrigger && final(self)@ == old(self)@.insert(gid, spec_cfg(old(self)@, gid)),
            set_index < spec_cfg(old(self)@, gid).triggers.len() && trigger@.len() > 0 ==> r is Ok
                && (r->Ok_0)@ == spec_added_trigger(
                spec_cfg(old(self)@, gid),
                set_index as int,
                trigger@,
            ) && final(self)@ == old(self)@.insert(
                gid,
                spec_added_trigger(spec_cfg(old(self)@, gid), set_index as int, trigger@),
            ),
    {
        let ghost tg = trigger@;
        let i = self.ensure_guild(gid);
        let ghost pre = self.entries_model();
        let ghost c = spec_cfg(old(self)@, gid);
        let n = self.entries[i].config.triggers.len();
        proof {
            assert(n == c.triggers.len());
        }
        if set_index >= n {
            return Err(StoreError::IndexOutOfRange);
        }
        if trigger.as_str().is_empty() {
            return Err(StoreError::EmptyTrigger);
        }
        self.entries[i].config.triggers[set_index].matches.push(trigger);
        proof {
            let c2 = spec_added_trigger(c, set_index as int, tg);
            assert(self.entries_model() =~~= pre.update(
                i as int,
                EntryModel { guild_id: gid, config: c2 },
            ));
            lemma_store_update(pre, self.entries_model(), i as int, c2);
            assert(self@ =~= old(self)@.insert(gid, c2));
            lemma_spec_cfg_wf(old(self).entries_model(), gid);
            assert(config_wf(c2)) by {
                assert(record_wf(c2.triggers[set_index as int])) by {
                    let r0 = c.triggers[set_index as int];
                    assert(record_wf(r0));
                    assert(forall|k: int|
                        0 <= k < r0.matches.len() ==> c2.triggers[set_index as int].matches[k]
                            == #[trigger] r0.matches[k]);
                }
                assert(forall|k: int|
                    0 <= k < c.triggers.len() && k != set_index ==> c2.triggers[k]
                        == #[trigger] c.triggers[k]);
            }
            assert(self.entries_model()[i as int] == self.entries@.map_values(
                |e: GuildEntry| e@,
            )[i as int]);
            assert(self.entries_model()[i as int].config == c2);
            assert(self.entries@[i as int]@.config == c2);
            assert(forall|k: int|
                0 <= k < self.entries_model().len() ==> config_wf(
                    (#[trigger] self.entries_model()[k]).config,
                ));
        }
        Ok(self.entries[i].config.clone())
    }

    /// Removes the trigger string at `trigger_index` of the record at
    /// `set_index`; fails when either index is out of bounds.
    pub fn remove_trigger(&mut self, gid: u64, set_index: usize, trigger_index: usize) -> (r:
        Result<GuildConfig, StoreError>)
        requires
            old(self).wf(),
        ensures
            final(self).wf(),
            !(set_index < spec_cfg(old(self)@, gid).triggers.len() && trigger_index < spec_cfg(
                old(self)@,
                gid,
            ).triggers[set_index as int].matches.len()) ==> r is Err && r->Err_0
                == StoreError::IndexOutOfRange && final(self)@ == old(self)@.insert(
                gid,
                spec_cfg(old(self)@, gid),
            ),
            set_index < spec_cfg(old(self)@, gid).triggers.len() && trigger_index < spec_cfg(
                old(self)@,
                gid,
            ).triggers[set_index as int].matches.len() ==> r is Ok && (r->Ok_0)@
                == spec_removed_trigger(
                spec_cfg(old(self)@, gid),
                set_index as int,
                trigger_index as int,
            ) && final(self)@ == old(self)@.insert(
                gid,
                spec_removed_trigger(
                    spec_cfg(old(self)@, gid),
                    set_index as int,
                    trigger_index as int,
                ),
            ),
    {
        let i = self.ensure_guild(gid);
        let ghost pre = self.entries_model();
        let ghost c = spec_cfg(old(self)@, gid);
        let n = self.entries[i].config.triggers.len();
        proof {
            assert(n == c.triggers.len());
        }
        if set_index >= n {
            return Err(StoreError::IndexOutOfRange);
        }
        let m = self.entries[i].config.triggers[set_index].matches.len();
        proof {
            assert(m == c.triggers[set_index as int].matches.len());
        }
        if trigger_index >= m {
            return Err(StoreError::IndexOutOfRange);
        }
        self.entries[i].config.triggers[set_index].matches.remove(trigger_index);
        proof {
            let c2 = spec_removed_trigger(c, set_index as int, trigger_index as int);
            assert(self.entries_model() =~~= pre.update(
                i as int,
                EntryModel { guild_id: gid, config: c2 },
            ));
            lemma_store_update(pre, self.entries_model(), i as int, c2);
            assert(self@ =~= old(self)@.insert(gid, c2));
            lemma_spec_cfg_wf(old(self).entries_model(), gid);
            assert(config_wf(c2)) by {
                assert(record_wf(c2.triggers[set_index as int])) by {
                    let r0 = c.triggers[set_index as int];
                    assert(record_wf(r0));
                    assert(forall|k: int|
                        0 <= k < c2.triggers[set_index as int].matches.len()
                            ==> #[trigger] c2.triggers[set_index as int].matches[k] == (if k
                            < trigger_index {
                            r0.matches[k]
                        } else {
                            r0.matches[k + 1]
                        }));
                }
                assert(forall|k: int|
                    0 <= k < c.triggers.len() && k != set_index ==> c2.triggers[k]
                        == #[trigger] c.triggers[k]);
            }
            assert(self.entries_model()[i as int] == self.entries@.map_values(
                |e: GuildEntry| e@,
            )[i as int]);
            assert(self.entries_model()[i as int].config == c2);
            assert(self.entries@[i as int]@.config == c2);
            assert(forall|k: int|
                0 <= k < self.entries_model().len() ==> config_wf(
                    (#[trigger] self.entries_model()[k]).config,
                ));
        }
        Ok(self.entries[i].config.clone())
    }

    /// Removes the whole record at `set_index`; an index at or past the
    /// current count fails, it is never silently ignored.
    pub fn remove_trigger_set(&mut self, gid: u64, set_index: usize) -> (r: Result<
        GuildConfig,
        StoreError,
    >)
        requires
            old(self).wf(),
        ensures
            final(self).wf(),
            set_index >= spec_cfg(old(self)@, gid).triggers.len() ==> r is Err && r->Err_0
                == StoreError::IndexOutOfRange && final(self)@ == old(self)@.insert(
                gid,
                spec_cfg(old(self)@, gid),
            ),
            set_index < spec_cfg(old(self)@, gid).triggers.len() ==> r is Ok && (r->Ok_0)@
                == spec_removed_set(spec_cfg(old(self)@, gid), set_index as int) && final(self)@
                == old(self)@.insert(
                gid,
                spec_removed_set(spec_cfg(old(self)@, gid), set_index as int),
            ),
    {
        let i = self.ensure_guild(gid);
        let ghost pre = self.entries_model();
        let ghost c = spec_cfg(old(self)@, gid);
        let n = self.entries[i].config.triggers.len();
        proof {
            assert(n == c.triggers.len());
        }
        if set_index >= n {
            return Err(StoreError::IndexOutOfRange);
        }
        self.entries[i].config.triggers.remove(set_index);
        proof {
            let c2 = spec_removed_set(c, set_index as int);
            assert(self.entries_model() =~~= pre.update(
                i as int,
                EntryModel { guild_id: gid, config: c2 },
            ));
            lemma_store_update(pre, self.entries_model(), i as int, c2);
            assert(self@ =~= old(self)@.insert(gid, c2));
            lemma_spec_cfg_wf(old(self).entries_model(), gid);
            assert(config_wf(c2)) by {
                assert(forall|k: int|
                    0 <= k < c2.triggers.len() ==> #[trigger] c2.triggers[k] == (if k < set_index {
                        c.triggers[k]
                    } else {
                        c.triggers[k + 1]
                    }));
            }
            assert(self.entries_model()[i as int] == self.entries@.map_values(
                |e: GuildEntry| e@,
            )[i as int]);
            assert(self.entries_model()[i as int].config == c2);
            assert(self.entries@[i as int]@.config == c2);
            assert(forall|k: int|
                0 <= k < self.entries_model().len() ==> config_wf(
                    (#[trigger] self.entries_model()[k]).config,
                ));
        }
        Ok(self.entries[i].config.clone())
    }

    /// Replaces the response text of the record at `set_index`; fails when
    /// the index is out of bounds.
    pub fn set_response_text(&mut self, gid: u64, set_index: usize, text: String) -> (r: Result<
        GuildConfig,
        StoreError,
    >)
        requires
            old(self).wf(),
        ensures
            final(self).wf(),
            set_index >= spec_cfg(old(self)@, gid).triggers.len() ==> r is Err && r->Err_0
                == StoreError::IndexOutOfRange && final(self)@ == old(self)@.insert(
                gid,
                spec_cfg(old(self)@, gid),
            ),
            set_index < spec_cfg(old(self)@, gid).triggers.len() ==> r is Ok && (r->Ok_0)@
                == spec_set_text(spec_cfg(old(self)@, gid), set_index as int, text@) && final(self)@ == old(self)@.insert(
                gid,
                spec_set_text(spec_cfg(old(self)@, gid), set_index as int, text@),
            ),
    {
        let ghost tx = text@;
        let i = self.ensure_guild(gid);
        let ghost pre = self.entries_model();
        let ghost c = spec_cfg(old(self)@, gid);
        let n = self.entries[i].config.triggers.len();
        proof {
            assert(n == c.triggers.len());
        }
        if set_index >= n {
            return Err(StoreError::IndexOutOfRange);
        }
        self.entries[i].config.triggers[set_index].text = text;
        proof {
            let c2 = spec_set_text(c, set_index as int, tx);
            assert(self.entries_model() =~~= pre.update(
                i as int,
                EntryModel { guild_id: gid, config: c2 },
            ));
            lemma_store_update(pre, self.entries_model(), i as int, c2);
            assert(self@ =~= old(self)@.insert(gid, c2));
            lemma_spec_cfg_wf(old(self).entries_model(), gid);
            assert(config_wf(c2)) by {
                assert(record_wf(c2.triggers[set_index as int])) by {
                    assert(record_wf(c.triggers[set_index as int]));
                    assert(c2.triggers[set_index as int].matches == c.triggers[set_index as int].matches);
                }
                assert(forall|k: int|
                    0 <= k < c.triggers.len() && k != set_index ==> c2.triggers[k]
                        == #[trigger] c.triggers[k]);
            }
            assert(self.entries_model()[i as int] == self.entries@.map_values(
                |e: GuildEntry| e@,
            )[i as int]);
            assert(self.entries_model()[i as int].config == c2);
            assert(self.entries@[i as int]@.config == c2);
            assert(forall|k: int|
                0 <= k < self.entries_model().len() ==> config_wf(
                    (#[trigger] self.entries_model()[k]).config,
                ));
        }
        Ok(self.entries[i].config.clone())
    }
}


/// Applying a whole batch of trigger additions to the record at `k`, one
/// after the other, in the order they were serialized by the store's lock.
pub open spec fn apply_add_triggers(c: ConfigModel, k: int, ts: Seq<Seq<char>>) -> ConfigModel
    decreases ts.len(),
{
    if ts.len() == 0 {
        c
    } else {
        spec_added_trigger(apply_add_triggers(c, k, ts.drop_last()), k, ts.last())
    }
}

/// No lost updates: however many trigger additions against one record are
/// serialized by the lock, every one of them lands — the record ends with
/// exactly the old triggers followed by all the added ones, every other
/// record and both flags stay unchanged, and the record's position stays
/// valid throughout, so each addition succeeds.
pub proof fn lemma_adds_all_land(c: ConfigModel, k: int, ts: Seq<Seq<char>>)
    requires
        0 <= k < c.triggers.len(),
    ensures
        apply_add_triggers(c, k, ts).triggers.len() == c.triggers.len(),
        apply_add_triggers(c, k, ts).triggers[k].matches == c.triggers[k].matches + ts,
        apply_add_triggers(c, k, ts).triggers[k].text == c.triggers[k].text,
        forall|j: int|
            0 <= j < c.triggers.len() && j != k ==> apply_add_triggers(c, k, ts).triggers[j]
                == c.triggers[j],
        apply_add_triggers(c, k, ts).auto_reply == c.auto_reply,
        apply_add_triggers(c, k, ts).reply_timeout == c.reply_timeout,
    decreases ts.len(),
{
    if ts.len() == 0 {
        assert(c.triggers[k].matches + ts =~= c.triggers[k].matches);
    } else {
        lemma_adds_all_land(c, k, ts.drop_last());
        let mid = apply_add_triggers(c, k, ts.drop_last());
        assert(mid.triggers[k].matches.push(ts.last()) =~= c.triggers[k].matches + ts);
    }
}

/// Index stability: removing the record at position `k` shifts every record
/// past `k` down by one and leaves every record before `k` where it was.
pub proof fn lemma_remove_set_shifts(c: ConfigModel, k: int)
    requires
        0 <= k < c.triggers.len(),
    ensures
        spec_removed_set(c, k).triggers.len() == c.triggers.len() - 1,
        forall|i: int| 0 <= i < k ==> spec_removed_set(c, k).triggers[i] == c.triggers[i],
        forall|i: int|
            k <= i < c.triggers.len() - 1 ==> spec_removed_set(c, k).triggers[i] == c.triggers[
                i + 1
            ],
{
}

} // verus!
