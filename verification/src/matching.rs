//! The matching engine: a pure pass from a guild's configuration and an
//! inbound message to the sequence of response texts the message earns.
//!
//! A message is normalized (lower-cased, apostrophes removed) and then every
//! trigger record is tried in order; a record whose trigger strings contain
//! at least one substring of the normalized text contributes its response
//! text exactly once, whatever the number of its triggers that matched.

use vstd::prelude::*;

use crate::store::{ConfigModel, GuildConfig, RecordModel, TriggerRecord};
use crate::text::{chars_of, contains_seq, normalize_chars, spec_contains, spec_normalize};

verus! {

broadcast use vstd::std_specs::vec::axiom_spec_len;

/// Does any trigger string of the record occur in the normalized text?
pub open spec fn spec_record_matches(r: RecordModel, norm: Seq<char>) -> bool {
    exists|k: int| 0 <= k < r.matches.len() && spec_contains(norm, #[trigger] r.matches[k])
}

/// The response texts of the records that match, in record order, one per
/// matching record.
pub open spec fn spec_matched_texts(trs: Seq<RecordModel>, norm: Seq<char>) -> Seq<Seq<char>>
    decreases trs.len(),
{
    if trs.len() == 0 {
        Seq::empty()
    } else {
        let rest = spec_matched_texts(trs.drop_last(), norm);
        if spec_record_matches(trs.last(), norm) {
            rest.push(trs.last().text)
        } else {
            rest
        }
    }
}

/// How many records match.
pub open spec fn spec_match_count(trs: Seq<RecordModel>, norm: Seq<char>) -> nat
    decreases trs.len(),
{
    if trs.len() == 0 {
        0
    } else {
        spec_match_count(trs.drop_last(), norm) + (if spec_record_matches(trs.last(), norm) {
            1nat
        } else {
            0nat
        })
    }
}

/// What the engine answers for a configuration and a raw message: nothing at
/// all when auto-reply is off, otherwise one response text per matching
/// record, in record order.
pub open spec fn spec_responses(c: ConfigModel, msg: Seq<char>) -> Seq<Seq<char>> {
    if !c.auto_reply {
        Seq::empty()
    } else {
        spec_matched_texts(c.triggers, spec_normalize(msg))
    }
}

/// Does any trigger string of this record occur in `norm`?
fn record_matches(rec: &TriggerRecord, norm: &Vec<char>) -> (r: bool)
    ensures
        r == spec_record_matches(rec@, norm@),
{
    let mut j: usize = 0;
    let n = rec.matches.len();
    while j < n
        invariant
            n == rec.matches@.len(),
            j <= n,
            forall|k: int| 0 <= k < j ==> !spec_contains(norm@, (#[trigger] rec@.matches[k])),
        decreases n - j,
    {
        let pat = chars_of(rec.matches[j].as_str());
        proof {
            assert(rec@.matches[j as int] == rec.matches@[j as int]@);
        }
        if contains_seq(norm, &pat) {
            return true;
        }
        j += 1;
    }
    false
}

/// The matching pass. Produces the response texts the message earns, in the
/// order of their records; an empty result when auto-reply is off or nothing
/// matches.
pub fn match_message(cfg: &GuildConfig, msg: &str) -> (r: Vec<String>)
    ensures
        r.deep_view() == spec_responses(cfg@, msg@),
{
    let mut out: Vec<String> = Vec::new();
    if !cfg.auto_reply {
        proof {
            assert(out.deep_view() =~= spec_responses(cfg@, msg@));
        }
        return out;
    }
    let msg_chars = chars_of(msg);
    let norm = normalize_chars(&msg_chars);
    let n = cfg.triggers.len();
    let mut i: usize = 0;
    while i < n
        invariant
            cfg.auto_reply,
            n == cfg.triggers@.len(),
            i <= n,
            norm@ == spec_normalize(msg@),
            out.deep_view() == spec_matched_texts(cfg@.triggers.take(i as int), norm@),
        decreases n - i,
    {
        proof {
            assert(cfg@.triggers.take(i + 1).drop_last() =~= cfg@.triggers.take(i as int));
            assert(cfg@.triggers.take(i + 1).last() == cfg@.triggers[i as int]);
            assert(cfg@.triggers[i as int] == cfg.triggers@[i as int]@);
        }
        if record_matches(&cfg.triggers[i], &norm) {
            out.push(cfg.triggers[i].text.clone());
            proof {
                assert(out.deep_view() =~= spec_matched_texts(
                    cfg@.triggers.take(i + 1),
                    norm@,
                ));
            }
        } else {
            proof {
                assert(out.deep_view() =~= spec_matched_texts(
                    cfg@.triggers.take(i + 1),
                    norm@,
                ));
            }
        }
        i += 1;
    }
    proof {
        assert(cfg@.triggers.take(n as int) =~= cfg@.triggers);
    }
    out
}

/// When a guild's auto-reply flag is off, the engine produces no response,
/// whatever the message and the triggers.
pub proof fn lemma_disabled_guild_is_silent(c: ConfigModel, msg: Seq<char>)
    requires
        !c.auto_reply,
    ensures
        spec_responses(c, msg) == Seq::<Seq<char>>::empty(),
{
}

/// A record contributes exactly one response when it matches, none when it
/// does not: the number of responses equals the number of matching records,
/// however many trigger strings of one record occur in the message.
pub proof fn lemma_one_response_per_matching_record(trs: Seq<RecordModel>, norm: Seq<char>)
    ensures
        spec_matched_texts(trs, norm).len() == spec_match_count(trs, norm),
        spec_match_count(trs, norm) <= trs.len(),
    decreases trs.len(),
{
    if trs.len() > 0 {
        lemma_one_response_per_matching_record(trs.drop_last(), norm);
    }
}

} // verus!
