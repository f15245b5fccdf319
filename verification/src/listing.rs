//! The human-readable listing of a guild's trigger records: what an
//! administrator sees when asking for the current sets, one numbered block
//! per record.

use vstd::prelude::*;

use crate::codec::{emit_string, emit_strings, emit_u64, push_string, push_u64, string_of_chars};
use crate::store::{spec_cfg, ConfigModel, ConfigStore, GuildConfig, RecordModel};

verus! {

broadcast use vstd::std_specs::vec::axiom_spec_len;

/// `Set #`
pub open spec fn lit_set_open() -> Seq<char> {
    seq!['S', 'e', 't', ' ', '#']
}

/// `:` and a line break, then an indented `matches: [`
pub open spec fn lit_matches_label() -> Seq<char> {
    seq![':', '\n', ' ', ' ', 'm', 'a', 't', 'c', 'h', 'e', 's', ':', ' ', '[']
}

/// `]`, a line break, then an indented `text: `
pub open spec fn lit_text_label() -> Seq<char> {
    seq![']', '\n', ' ', ' ', 't', 'e', 'x', 't', ':', ' ']
}

/// One record's block in the listing, under its position `n`.
pub open spec fn render_record(n: nat, r: RecordModel) -> Seq<char> {
    lit_set_open() + emit_u64(n) + lit_matches_label() + emit_strings(r.matches)
        + lit_text_label() + emit_string(r.text) + seq!['\n']
}

/// The blocks of all records, in order, numbered from zero.
pub open spec fn render_records(trs: Seq<RecordModel>) -> Seq<char>
    decreases trs.len(),
{
    if trs.len() == 0 {
        Seq::empty()
    } else {
        render_records(trs.drop_last()) + render_record((trs.len() - 1) as nat, trs.last())
    }
}

/// What the listing of a configuration holds.
pub open spec fn spec_listing(c: ConfigModel) -> Seq<char> {
    render_records(c.triggers)
}

fn push_lit_set_open(out: &mut Vec<char>)
    ensures
        final(out)@ == old(out)@ + lit_set_open(),
{
    out.push('S');
    out.push('e');
    out.push('t');
    out.push(' ');
    out.push('#');
    proof {
        assert(final(out)@ =~= old(out)@ + lit_set_open());
    }
}

fn push_lit_matches_label(out: &mut Vec<char>)
    ensures
        final(out)@ == old(out)@ + lit_matches_label(),
{
    out.push(':');
    out.push('\n');
    out.push(' ');
    out.push(' ');
    out.push('m');
    out.push('a');
    out.push('t');
    out.push('c');
    out.push('h');
    out.push('e');
    out.push('s');
    out.push(':');
    out.push(' ');
    out.push('[');
    proof {
        assert(final(out)@ =~= old(out)@ + lit_matches_label());
    }
}

fn push_lit_text_label(out: &mut Vec<char>)
    ensures
        final(out)@ == old(out)@ + lit_text_label(),
{
    out.push(']');
    out.push('\n');
    out.push(' ');
    out.push(' ');
    out.push('t');
    out.push('e');
    out.push('x');
    out.push('t');
    out.push(':');
    out.push(' ');
    proof {
        assert(final(out)@ =~= old(out)@ + lit_text_label());
    }
}

/// The listing text for one configuration.
#[verifier::rlimit(50)]
pub fn render_config(cfg: &GuildConfig) -> (r: String)
    ensures
        r@ == spec_listing(cfg@),
{
    let mut out: Vec<char> = Vec::new();
    let n = cfg.triggers.len();
    let mut i: usize = 0;
    while i < n
        invariant
            n == cfg.triggers@.len(),
            i <= n,
            out@ == render_records(cfg@.triggers.take(i as int)),
        decreases n - i,
    {
        let ghost pre = out@;
        push_lit_set_open(&mut out);
        push_u64(&mut out, i as u64);
        push_lit_matches_label(&mut out);
        let ghost base = out@;
        let rec = &cfg.triggers[i];
        let m = rec.matches.len();
        let mut j: usize = 0;
        while j < m
            invariant
                m == rec.matches@.len(),
                j <= m,
                out@ == base + emit_strings(rec@.matches.take(j as int)),
            decreases m - j,
        {
            if j > 0 {
                out.push(',');
            }
            push_string(&mut out, rec.matches[j].as_str());
            j += 1;
            proof {
                assert(rec@.matches[j - 1] == rec.matches@[j - 1]@);
                assert(rec@.matches.take(j as int).drop_last() =~= rec@.matches.take(j - 1));
                assert(out@ =~= base + emit_strings(rec@.matches.take(j as int)));
            }
        }
        proof {
            assert(rec@.matches.take(m as int) =~= rec@.matches);
        }
        push_lit_text_label(&mut out);
        push_string(&mut out, rec.text.as_str());
        out.push('\n');
        i += 1;
        proof {
            assert(cfg@.triggers[i - 1] == cfg.triggers@[i - 1]@);
            assert(cfg@.triggers.take(i as int).drop_last() =~= cfg@.triggers.take(i - 1));
            assert(cfg@.triggers.take(i as int).last() == cfg@.triggers[i - 1]);
            assert(out@ =~= pre + render_record((i - 1) as nat, cfg@.triggers[i - 1]));
            assert(out@ =~= render_records(cfg@.triggers.take(i as int)));
        }
    }
    proof {
        assert(cfg@.triggers.take(n as int) =~= cfg@.triggers);
    }
    string_of_chars(&out)
}

impl ConfigStore {
    /// The listing for a guild: its records in order, or an empty text for a
    /// guild that was never administered; never fails.
    pub fn list_triggers(&self, gid: u64) -> (r: String)
        requires
            self.wf(),
        ensures
            r@ == spec_listing(spec_cfg(self@, gid)),
    {
        let cfg = self.get(gid);
        render_config(&cfg)
    }
}

/// Idempotence of listing: two listings taken from the same store state,
/// with no mutation between them, are identical texts.
pub proof fn lemma_list_idempotent(
    m: Map<u64, ConfigModel>,
    gid: u64,
    r1: Seq<char>,
    r2: Seq<char>,
)
    requires
        r1 == spec_listing(spec_cfg(m, gid)),
        r2 == spec_listing(spec_cfg(m, gid)),
    ensures
        r1 == r2,
{
}

} // verus!
