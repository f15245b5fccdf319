//! The durable text form of the configuration store: one JSON document, an
//! object mapping guild identifiers (as decimal strings) to objects of shape
//! `{"triggers":[{"matches":[..],"text":..}],"timeout":..,"autoReply":..}`,
//! written without extra whitespace. The emitter and the parser are both
//! verified against spec-level definitions of the format, and parsing what
//! was emitted provably gives back the same store.

use vstd::prelude::*;

use crate::store::{ConfigModel, ConfigStore, EntryModel, GuildConfig, GuildEntry, RecordModel, TriggerRecord};

verus! {

broadcast use vstd::std_specs::vec::axiom_spec_len;

// ---------------------------------------------------------------------------
// The format, spec level: emission.
// ---------------------------------------------------------------------------

/// `{"triggers":[`
pub open spec fn lit_cfg_open() -> Seq<char> {
    seq!['{', '"', 't', 'r', 'i', 'g', 'g', 'e', 'r', 's', '"', ':', '[']
}

/// `],"timeout":`
pub open spec fn lit_timeout_sep() -> Seq<char> {
    seq![']', ',', '"', 't', 'i', 'm', 'e', 'o', 'u', 't', '"', ':']
}

/// `,"autoReply":`
pub open spec fn lit_auto_sep() -> Seq<char> {
    seq![',', '"', 'a', 'u', 't', 'o', 'R', 'e', 'p', 'l', 'y', '"', ':']
}

/// `{"matches":[`
pub open spec fn lit_rec_open() -> Seq<char> {
    seq!['{', '"', 'm', 'a', 't', 'c', 'h', 'e', 's', '"', ':', '[']
}

/// `],"text":`
pub open spec fn lit_text_sep() -> Seq<char> {
    seq![']', ',', '"', 't', 'e', 'x', 't', '"', ':']
}

pub open spec fn lit_true() -> Seq<char> {
    seq!['t', 'r', 'u', 'e']
}

pub open spec fn lit_false() -> Seq<char> {
    seq!['f', 'a', 'l', 's', 'e']
}

pub open spec fn is_digit(c: char) -> bool {
    '0' <= c && c <= '9'
}

pub open spec fn digit_val(c: char) -> int {
    c as int - 48
}

pub open spec fn digit_char(d: nat) -> char {
    (48 + d) as char
}

/// The decimal digits of `n`, most significant first, no leading zero.
pub open spec fn emit_u64(n: nat) -> Seq<char>
    decreases n,
{
    if n < 10 {
        seq![digit_char(n)]
    } else {
        emit_u64(n / 10).push(digit_char(n % 10))
    }
}

/// How one character stands inside a quoted string: backslash and quote get
/// a backslash before them, every other character stands as itself.
pub open spec fn esc_char(c: char) -> Seq<char> {
    if c == '\\' || c == '"' {
        seq!['\\', c]
    } else {
        seq![c]
    }
}

pub open spec fn escape_str(s: Seq<char>) -> Seq<char>
    decreases s.len(),
{
    if s.len() == 0 {
        Seq::empty()
    } else {
        esc_char(s[0]) + escape_str(s.drop_first())
    }
}

/// A quoted, escaped string.
pub open spec fn emit_string(s: Seq<char>) -> Seq<char> {
    seq!['"'] + escape_str(s) + seq!['"']
}

pub open spec fn emit_bool(b: bool) -> Seq<char> {
    if b {
        lit_true()
    } else {
        lit_false()
    }
}

/// A comma-separated list of quoted strings.
pub open spec fn emit_strings(l: Seq<Seq<char>>) -> Seq<char>
    decreases l.len(),
{
    if l.len() == 0 {
        Seq::empty()
    } else if l.len() == 1 {
        emit_string(l[0])
    } else {
        emit_strings(l.drop_last()) + seq![','] + emit_string(l.last())
    }
}

/// One trigger record.
pub open spec fn emit_record(r: RecordModel) -> Seq<char> {
    lit_rec_open() + emit_strings(r.matches) + lit_text_sep() + emit_string(r.text) + seq!['}']
}

/// A comma-separated list of records.
pub open spec fn emit_records(l: Seq<RecordModel>) -> Seq<char>
    decreases l.len(),
{
    if l.len() == 0 {
        Seq::empty()
    } else if l.len() == 1 {
        emit_record(l[0])
    } else {
        emit_records(l.drop_last()) + seq![','] + emit_record(l.last())
    }
}

/// One guild's configuration object.
pub open spec fn emit_config(c: ConfigModel) -> Seq<char> {
    lit_cfg_open() + emit_records(c.triggers) + lit_timeout_sep() + emit_u64(
        c.reply_timeout as nat,
    ) + lit_auto_sep() + emit_bool(c.auto_reply) + seq!['}']
}

/// One store entry: the quoted guild identifier, a colon, the configuration.
pub open spec fn emit_entry(e: EntryModel) -> Seq<char> {
    seq!['"'] + emit_u64(e.guild_id as nat) + seq!['"', ':'] + emit_config(e.config)
}

/// A comma-separated list of entries.
pub open spec fn emit_entries(l: Seq<EntryModel>) -> Seq<char>
    decreases l.len(),
{
    if l.len() == 0 {
        Seq::empty()
    } else if l.len() == 1 {
        emit_entry(l[0])
    } else {
        emit_entries(l.drop_last()) + seq![','] + emit_entry(l.last())
    }
}

/// The whole document.
pub open spec fn emit_store(l: Seq<EntryModel>) -> Seq<char> {
    seq!['{'] + emit_entries(l) + seq!['}']
}

// ---------------------------------------------------------------------------
// The format, spec level: parsing. Each parser takes a position and answers
// the parsed value and the position after it, or nothing when the text does
// not fit the format there.
// ---------------------------------------------------------------------------

/// The literal `lit` stands at position `i`.
pub open spec fn expect(s: Seq<char>, i: int, lit: Seq<char>) -> Option<int> {
    if 0 <= i && i + lit.len() <= s.len() && s.subrange(i, i + lit.len()) == lit {
        Some(i + lit.len())
    } else {
        None
    }
}

/// The inside of a quoted string, from just after the opening quote to a
/// closing quote, undoing the escapes.
pub open spec fn parse_str_body(s: Seq<char>, i: int) -> Option<(Seq<char>, int)>
    decreases s.len() - i,
{
    if i < 0 || i >= s.len() {
        None
    } else if s[i] == '"' {
        Some((Seq::empty(), i + 1))
    } else if s[i] == '\\' {
        if i + 1 < s.len() && (s[i + 1] == '\\' || s[i + 1] == '"') {
            match parse_str_body(s, i + 2) {
                Some(p) => Some((seq![s[i + 1]] + p.0, p.1)),
                None => None,
            }
        } else {
            None
        }
    } else {
        match parse_str_body(s, i + 1) {
            Some(p) => Some((seq![s[i]] + p.0, p.1)),
            None => None,
        }
    }
}

/// A quoted string.
pub open spec fn parse_string(s: Seq<char>, i: int) -> Option<(Seq<char>, int)> {
    if 0 <= i < s.len() && s[i] == '"' {
        parse_str_body(s, i + 1)
    } else {
        None
    }
}

/// A run of decimal digits, folded onto `acc`; stops at the first character
/// that is no digit.
pub open spec fn parse_digits(s: Seq<char>, i: int, acc: nat) -> (nat, int)
    decreases s.len() - i,
{
    if 0 <= i < s.len() && is_digit(s[i]) {
        parse_digits(s, i + 1, acc * 10 + (digit_val(s[i]) as nat))
    } else {
        (acc, i)
    }
}

/// A decimal number: at least one digit. The value is unbounded here; the
/// callers refuse one that does not fit the field it is for.
pub open spec fn parse_number(s: Seq<char>, i: int) -> Option<(nat, int)> {
    if 0 <= i < s.len() && is_digit(s[i]) {
        Some(parse_digits(s, i, 0))
    } else {
        None
    }
}

pub open spec fn parse_bool(s: Seq<char>, i: int) -> Option<(bool, int)> {
    match expect(s, i, lit_true()) {
        Some(j) => Some((true, j)),
        None => match expect(s, i, lit_false()) {
            Some(j) => Some((false, j)),
            None => None,
        },
    }
}

/// A comma-separated list of quoted strings; empty when no string starts
/// here.
pub open spec fn parse_strings(s: Seq<char>, i: int) -> Option<(Seq<Seq<char>>, int)>
    decreases s.len() - i,
{
    if i < 0 || i >= s.len() {
        None
    } else if s[i] != '"' {
        Some((Seq::empty(), i))
    } else {
        match parse_string(s, i) {
            Some(p) => {
                if p.1 + 1 < s.len() && s[p.1] == ',' && s[p.1 + 1] == '"' && i < p.1 + 1 {
                    match parse_strings(s, p.1 + 1) {
                        Some(q) => Some((seq![p.0] + q.0, q.1)),
                        None => None,
                    }
                } else {
                    Some((seq![p.0], p.1))
                }
            },
            None => None,
        }
    }
}

/// One trigger record object.
pub open spec fn parse_record(s: Seq<char>, i: int) -> Option<(RecordModel, int)> {
    match expect(s, i, lit_rec_open()) {
        Some(j0) => match parse_strings(s, j0) {
            Some(p) => match expect(s, p.1, lit_text_sep()) {
                Some(j2) => match parse_string(s, j2) {
                    Some(q) => match expect(s, q.1, seq!['}']) {
                        Some(j4) => Some((RecordModel { matches: p.0, text: q.0 }, j4)),
                        None => None,
                    },
                    None => None,
                },
                None => None,
            },
            None => None,
        },
        None => None,
    }
}

/// A comma-separated list of records; empty when no record starts here.
pub open spec fn parse_records(s: Seq<char>, i: int) -> Option<(Seq<RecordModel>, int)>
    decreases s.len() - i,
{
    if i < 0 || i >= s.len() {
        None
    } else if s[i] != '{' {
        Some((Seq::empty(), i))
    } else {
        match parse_record(s, i) {
            Some(p) => {
                if p.1 + 1 < s.len() && s[p.1] == ',' && s[p.1 + 1] == '{' && i < p.1 + 1 {
                    match parse_records(s, p.1 + 1) {
                        Some(q) => Some((seq![p.0] + q.0, q.1)),
                        None => None,
                    }
                } else {
                    Some((seq![p.0], p.1))
                }
            },
            None => None,
        }
    }
}

/// One guild configuration object.
pub open spec fn parse_config(s: Seq<char>, i: int) -> Option<(ConfigModel, int)> {
    match expect(s, i, lit_cfg_open()) {
        Some(j0) => match parse_records(s, j0) {
            Some(p) => match expect(s, p.1, lit_timeout_sep()) {
                Some(j2) => match parse_number(s, j2) {
                    Some(q) => {
                        if q.0 <= u64::MAX {
                            match expect(s, q.1, lit_auto_sep()) {
                                Some(j4) => match parse_bool(s, j4) {
                                    Some(b) => match expect(s, b.1, seq!['}']) {
                                        Some(j6) => Some(
                                            (
                                                ConfigModel {
                                                    triggers: p.0,
                                                    auto_reply: b.0,
                                                    reply_timeout: q.0 as u64,
                                                },
                                                j6,
                                            ),
                                        ),
                                        None => None,
                                    },
                                    None => None,
                                },
                                None => None,
                            }
                        } else {
                            None
                        }
                    },
                    None => None,
                },
                None => None,
            },
            None => None,
        },
        None => None,
    }
}

/// One store entry: quoted guild identifier, colon, configuration.
pub open spec fn parse_entry(s: Seq<char>, i: int) -> Option<(EntryModel, int)> {
    if 0 <= i < s.len() && s[i] == '"' {
        match parse_number(s, i + 1) {
            Some(p) => {
                if p.0 <= u64::MAX {
                    match expect(s, p.1, seq!['"', ':']) {
                        Some(j2) => match parse_config(s, j2) {
                            Some(q) => Some(
                                (EntryModel { guild_id: p.0 as u64, config: q.0 }, q.1),
                            ),
                            None => None,
                        },
                        None => None,
                    }
                } else {
                    None
                }
            },
            None => None,
        }
    } else {
        None
    }
}

/// A comma-separated list of entries; empty when no entry starts here.
pub open spec fn parse_entries(s: Seq<char>, i: int) -> Option<(Seq<EntryModel>, int)>
    decreases s.len() - i,
{
    if i < 0 || i >= s.len() {
        None
    } else if s[i] != '"' {
        Some((Seq::empty(), i))
    } else {
        match parse_entry(s, i) {
            Some(p) => {
                if p.1 + 1 < s.len() && s[p.1] == ',' && s[p.1 + 1] == '"' && i < p.1 + 1 {
                    match parse_entries(s, p.1 + 1) {
                        Some(q) => Some((seq![p.0] + q.0, q.1)),
                        None => None,
                    }
                } else {
                    Some((seq![p.0], p.1))
                }
            },
            None => None,
        }
    }
}

/// The whole document: the entries between the outer braces, with nothing
/// after them.
pub open spec fn parse_store(s: Seq<char>) -> Option<Seq<EntryModel>> {
    match expect(s, 0, seq!['{']) {
        Some(j) => {
            if j < s.len() && s[j] == '}' {
                if j + 1 == s.len() {
                    Some(Seq::empty())
                } else {
                    None
                }
            } else {
                match parse_entries(s, j) {
                    Some(p) => match expect(s, p.1, seq!['}']) {
                        Some(e) => {
                            if e == s.len() {
                                Some(p.0)
                            } else {
                                None
                            }
                        },
                        None => None,
                    },
                    None => None,
                }
            }
        },
        None => None,
    }
}

// ---------------------------------------------------------------------------
// Emission, exec level.
// ---------------------------------------------------------------------------

proof fn lemma_escape_singleton(c: char)
    ensures
        escape_str(seq![c]) == esc_char(c),
{
    assert(seq![c].drop_first() =~= Seq::<char>::empty());
    assert(escape_str(Seq::<char>::empty()) =~= Seq::<char>::empty());
    assert(escape_str(seq![c]) =~= esc_char(c));
}

proof fn lemma_escape_append(a: Seq<char>, b: Seq<char>)
    ensures
        escape_str(a + b) == escape_str(a) + escape_str(b),
    decreases a.len(),
{
    if a.len() == 0 {
        assert(a + b =~= b);
        assert(escape_str(a) + escape_str(b) =~= escape_str(b));
    } else {
        assert((a + b).drop_first() =~= a.drop_first() + b);
        lemma_escape_append(a.drop_first(), b);
        assert(esc_char((a + b)[0]) + (escape_str(a.drop_first()) + escape_str(b)) =~= (esc_char(
            a[0],
        ) + escape_str(a.drop_first())) + escape_str(b));
    }
}

fn push_digit(out: &mut Vec<char>, d: u64)
    requires
        d < 10,
    ensures
        final(out)@ == old(out)@.push(digit_char(d as nat)),
{
    let c = ((48 + d as u8)) as char;
    out.push(c);
}

/// The decimal digits of `n`, appended to `out`.
pub(crate) fn push_u64(out: &mut Vec<char>, n: u64)
    ensures
        final(out)@ == old(out)@ + emit_u64(n as nat),
    decreases n,
{
    if n < 10 {
        push_digit(out, n);
        proof {
            assert(final(out)@ =~= old(out)@ + emit_u64(n as nat));
        }
    } else {
        push_u64(out, n / 10);
        push_digit(out, n % 10);
        proof {
            assert(final(out)@ =~= old(out)@ + emit_u64(n as nat));
        }
    }
}

/// A quoted, escaped string, appended to `out`.
pub(crate) fn push_string(out: &mut Vec<char>, s: &str)
    ensures
        final(out)@ == old(out)@ + emit_string(s@),
{
    let cs = crate::text::chars_of(s);
    out.push('"');
    let n = cs.len();
    let mut i: usize = 0;
    while i < n
        invariant
            n == cs@.len(),
            cs@ == s@,
            i <= n,
            out@ == old(out)@ + seq!['"'] + escape_str(s@.take(i as int)),
        decreases n - i,
    {
        let c = cs[i];
        if c == '\\' || c == '"' {
            out.push('\\');
        }
        out.push(c);
        i += 1;
        proof {
            assert(s@.take(i as int) =~= s@.take(i - 1) + seq![s@[i - 1]]);
            lemma_escape_append(s@.take(i - 1), seq![s@[i - 1]]);
            lemma_escape_singleton(s@[i - 1]);
            assert(out@ =~= old(out)@ + seq!['"'] + escape_str(s@.take(i as int)));
        }
    }
    out.push('"');
    proof {
        assert(s@.take(n as int) =~= s@);
        assert(final(out)@ =~= old(out)@ + emit_string(s@));
    }
}

fn push_bool(out: &mut Vec<char>, b: bool)
    ensures
        final(out)@ == old(out)@ + emit_bool(b),
{
    if b {
        out.push('t');
        out.push('r');
        out.push('u');
        out.push('e');
    } else {
        out.push('f');
        out.push('a');
        out.push('l');
        out.push('s');
        out.push('e');
    }
    proof {
        assert(final(out)@ =~= old(out)@ + emit_bool(b));
    }
}

/// One record, appended to `out`.
#[verifier::rlimit(50)]
fn push_record(out: &mut Vec<char>, r: &TriggerRecord)
    ensures
        final(out)@ == old(out)@ + emit_record(r@),
{
    out.push('{');
    out.push('"');
    out.push('m');
    out.push('a');
    out.push('t');
    out.push('c');
    out.push('h');
    out.push('e');
    out.push('s');
    out.push('"');
    out.push(':');
    out.push('[');
    proof {
        assert(out@ =~= old(out)@ + lit_rec_open());
    }
    let ghost base = out@;
    let n = r.matches.len();
    let mut i: usize = 0;
    while i < n
        invariant
            n == r.matches@.len(),
            i <= n,
            out@ == base + emit_strings(r@.matches.take(i as int)),
        decreases n - i,
    {
        if i > 0 {
            out.push(',');
        }
        push_string(out, r.matches[i].as_str());
        i += 1;
        proof {
            assert(r@.matches[i - 1] == r.matches@[i - 1]@);
            assert(r@.matches.take(i as int).drop_last() =~= r@.matches.take(i - 1));
            assert(out@ =~= base + emit_strings(r@.matches.take(i as int)));
        }
    }
    proof {
        assert(r@.matches.take(n as int) =~= r@.matches);
    }
    out.push(']');
    out.push(',');
    out.push('"');
    out.push('t');
    out.push('e');
    out.push('x');
    out.push('t');
    out.push('"');
    out.push(':');
    proof {
        assert(out@ =~= base + emit_strings(r@.matches) + lit_text_sep());
    }
    push_string(out, r.text.as_str());
    out.push('}');
    proof {
        assert(final(out)@ =~= old(out)@ + emit_record(r@));
    }
}

fn push_lit_cfg_open(out: &mut Vec<char>)
    ensures
        final(out)@ == old(out)@ + lit_cfg_open(),
{
    out.push('{');
    out.push('"');
    out.push('t');
    out.push('r');
    out.push('i');
    out.push('g');
    out.push('g');
    out.push('e');
    out.push('r');
    out.push('s');
    out.push('"');
    out.push(':');
    out.push('[');
    proof {
        assert(final(out)@ =~= old(out)@ + lit_cfg_open());
    }
}

fn push_lit_timeout_sep(out: &mut Vec<char>)
    ensures
        final(out)@ == old(out)@ + lit_timeout_sep(),
{
    out.push(']');
    out.push(',');
    out.push('"');
    out.push('t');
    out.push('i');
    out.push('m');
    out.push('e');
    out.push('o');
    out.push('u');
    out.push('t');
    out.push('"');
    out.push(':');
    proof {
        assert(final(out)@ =~= old(out)@ + lit_timeout_sep());
    }
}

fn push_lit_auto_sep(out: &mut Vec<char>)
    ensures
        final(out)@ == old(out)@ + lit_auto_sep(),
{
    out.push(',');
    out.push('"');
    out.push('a');
    out.push('u');
    out.push('t');
    out.push('o');
    out.push('R');
    out.push('e');
    out.push('p');
    out.push('l');
    out.push('y');
    out.push('"');
    out.push(':');
    proof {
        assert(final(out)@ =~= old(out)@ + lit_auto_sep());
    }
}

/// One configuration object, appended to `out`.
#[verifier::rlimit(50)]
fn push_config(out: &mut Vec<char>, c: &GuildConfig)
    ensures
        final(out)@ == old(out)@ + emit_config(c@),
{
    push_lit_cfg_open(out);
    let ghost base = out@;
    let n = c.triggers.len();
    let mut i: usize = 0;
    while i < n
        invariant
            n == c.triggers@.len(),
            i <= n,
            out@ == base + emit_records(c@.triggers.take(i as int)),
        decreases n - i,
    {
        if i > 0 {
            out.push(',');
        }
        push_record(out, &c.triggers[i]);
        i += 1;
        proof {
            assert(c@.triggers[i - 1] == c.triggers@[i - 1]@);
            assert(c@.triggers.take(i as int).drop_last() =~= c@.triggers.take(i - 1));
            assert(out@ =~= base + emit_records(c@.triggers.take(i as int)));
        }
    }
    proof {
        assert(c@.triggers.take(n as int) =~= c@.triggers);
    }
    push_lit_timeout_sep(out);
    proof {
        assert(out@ =~= base + emit_records(c@.triggers) + lit_timeout_sep());
    }
    push_u64(out, c.reply_timeout);
    push_lit_auto_sep(out);
    proof {
        assert(out@ =~= base + emit_records(c@.triggers) + lit_timeout_sep() + emit_u64(
            c.reply_timeout as nat,
        ) + lit_auto_sep());
    }
    push_bool(out, c.auto_reply);
    out.push('}');
    proof {
        assert(final(out)@ =~= old(out)@ + emit_config(c@));
    }
}

/// The whole document for the store, as the characters of one line of text.
#[verifier::rlimit(50)]
pub fn emit_store_chars(st: &ConfigStore) -> (r: Vec<char>)
    ensures
        r@ == emit_store(st.entries_model()),
{
    let mut out: Vec<char> = Vec::new();
    out.push('{');
    let ghost base = out@;
    let n = st.entries.len();
    let mut i: usize = 0;
    while i < n
        invariant
            n == st.entries@.len(),
            i <= n,
            out@ == base + emit_entries(st.entries_model().take(i as int)),
        decreases n - i,
    {
        if i > 0 {
            out.push(',');
        }
        let e = &st.entries[i];
        out.push('"');
        push_u64(&mut out, e.guild_id);
        out.push('"');
        out.push(':');
        push_config(&mut out, &e.config);
        i += 1;
        proof {
            assert(st.entries_model()[i - 1] == st.entries@[i - 1]@);
            assert(st.entries_model().take(i as int).drop_last() =~= st.entries_model().take(
                i - 1,
            ));
            assert(st.entries_model().take(i as int).last() == st.entries_model()[i - 1]);
            assert(out@ =~= base + emit_entries(st.entries_model().take(i as int)));
        }
    }
    proof {
        assert(st.entries_model().take(n as int) =~= st.entries_model());
    }
    out.push('}');
    proof {
        assert(out@ =~= emit_store(st.entries_model()));
    }
    out
}

/// The snapshot text for the store: the full document, ready to be written
/// to durable storage by the caller.
pub fn save_store(st: &ConfigStore) -> (r: String)
    ensures
        r@ == emit_store(st.entries_model()),
{
    let cs = emit_store_chars(st);
    string_of_chars(&cs)
}

// ---------------------------------------------------------------------------
// Parsing, exec level: each function mirrors its spec parser exactly.
// ---------------------------------------------------------------------------

/// A run of decimal digits folds onto a value at least as large as the
/// accumulator it started from.
proof fn lemma_parse_digits_lower(s: Seq<char>, i: int, acc: nat)
    ensures
        parse_digits(s, i, acc).0 >= acc,
    decreases s.len() - i,
{
    if 0 <= i < s.len() && is_digit(s[i]) {
        lemma_parse_digits_lower(s, i + 1, acc * 10 + (digit_val(s[i]) as nat));
    }
}

/// A parsed string body ends past where it started.
proof fn lemma_parse_str_body_advances(s: Seq<char>, i: int)
    ensures
        parse_str_body(s, i) matches Some(p) ==> i < p.1 <= s.len(),
    decreases s.len() - i,
{
    if 0 <= i < s.len() {
        if s[i] == '"' {
        } else if s[i] == '\\' {
            if i + 1 < s.len() && (s[i + 1] == '\\' || s[i + 1] == '"') {
                lemma_parse_str_body_advances(s, i + 2);
            }
        } else {
            lemma_parse_str_body_advances(s, i + 1);
        }
    }
}

fn exec_is_digit(c: char) -> (r: bool)
    ensures
        r == is_digit(c),
{
    '0' <= c && c <= '9'
}

/// Does the literal stand at position `i`? Answers the position after it.
fn expect_chars(s: &Vec<char>, i: usize, lit: &Vec<char>) -> (r: Option<usize>)
    requires
        i <= s@.len(),
    ensures
        r is None ==> expect(s@, i as int, lit@) is None,
        r matches Some(j) ==> expect(s@, i as int, lit@) == Some(j as int) && i <= j <= s@.len(),
{
    let n = s.len();
    let m = lit.len();
    if m > n - i {
        return None;
    }
    let mut k: usize = 0;
    while k < m
        invariant
            n == s@.len(),
            m == lit@.len(),
            i + m <= n,
            k <= m,
            forall|t: int| 0 <= t < k ==> s@[i + t] == lit@[t],
        decreases m - k,
    {
        if s[i + k] != lit[k] {
            proof {
                assert(s@.subrange(i as int, i + lit@.len())[k as int] != lit@[k as int]);
            }
            return None;
        }
        k += 1;
    }
    proof {
        assert(s@.subrange(i as int, i + lit@.len()) =~= lit@);
    }
    Some(i + m)
}

fn lit_cfg_open_chars() -> (r: Vec<char>)
    ensures
        r@ == lit_cfg_open(),
{
    let r = vec!['{', '"', 't', 'r', 'i', 'g', 'g', 'e', 'r', 's', '"', ':', '['];
    proof {
        assert(r@ =~= lit_cfg_open());
    }
    r
}

fn lit_timeout_sep_chars() -> (r: Vec<char>)
    ensures
        r@ == lit_timeout_sep(),
{
    let r = vec![']', ',', '"', 't', 'i', 'm', 'e', 'o', 'u', 't', '"', ':'];
    proof {
        assert(r@ =~= lit_timeout_sep());
    }
    r
}

fn lit_auto_sep_chars() -> (r: Vec<char>)
    ensures
        r@ == lit_auto_sep(),
{
    let r = vec![',', '"', 'a', 'u', 't', 'o', 'R', 'e', 'p', 'l', 'y', '"', ':'];
    proof {
        assert(r@ =~= lit_auto_sep());
    }
    r
}

fn lit_rec_open_chars() -> (r: Vec<char>)
    ensures
        r@ == lit_rec_open(),
{
    let r = vec!['{', '"', 'm', 'a', 't', 'c', 'h', 'e', 's', '"', ':', '['];
    proof {
        assert(r@ =~= lit_rec_open());
    }
    r
}

fn lit_text_sep_chars() -> (r: Vec<char>)
    ensures
        r@ == lit_text_sep(),
{
    let r = vec![']', ',', '"', 't', 'e', 'x', 't', '"', ':'];
    proof {
        assert(r@ =~= lit_text_sep());
    }
    r
}

fn p_str_body(s: &Vec<char>, i: usize) -> (r: Option<(Vec<char>, usize)>)
    requires
        i <= s@.len(),
    ensures
        r is None ==> parse_str_body(s@, i as int) is None,
        r matches Some(p) ==> parse_str_body(s@, i as int) == Some((p.0@, p.1 as int)) && p.1
            <= s@.len(),
    decreases s@.len() - i,
{
    if i >= s.len() {
        return None;
    }
    let c = s[i];
    if c == '"' {
        let v: Vec<char> = Vec::new();
        proof {
            assert(v@ =~= Seq::<char>::empty());
        }
        Some((v, i + 1))
    } else if c == '\\' {
        if i + 1 < s.len() && (s[i + 1] == '\\' || s[i + 1] == '"') {
            match p_str_body(s, i + 2) {
                Some(p) => {
                    let (mut v, j) = p;
                    let ghost inner = v@;
                    v.insert(0, s[i + 1]);
                    proof {
                        assert(v@ =~= seq![s@[i + 1]] + inner);
                    }
                    Some((v, j))
                },
                None => None,
            }
        } else {
            None
        }
    } else {
        match p_str_body(s, i + 1) {
            Some(p) => {
                let (mut v, j) = p;
                let ghost inner = v@;
                v.insert(0, c);
                proof {
                    assert(v@ =~= seq![s@[i as int]] + inner);
                }
                Some((v, j))
            },
            None => None,
        }
    }
}

/// Relies on `String::push`: appends exactly the one character.
#[verifier::external_body]
fn push_char(s: &mut String, c: char)
    ensures
        final(s)@ == old(s)@.push(c),
{
    s.push(c);
}

pub(crate) fn string_of_chars(cs: &Vec<char>) -> (r: String)
    ensures
        r@ == cs@,
{
    let mut r = String::new();
    let n = cs.len();
    let mut i: usize = 0;
    while i < n
        invariant
            n == cs@.len(),
            i <= n,
            r@ == cs@.take(i as int),
        decreases n - i,
    {
        push_char(&mut r, cs[i]);
        i += 1;
        proof {
            assert(r@ =~= cs@.take(i as int));
        }
    }
    proof {
        assert(cs@.take(n as int) =~= cs@);
    }
    r
}

fn p_string(s: &Vec<char>, i: usize) -> (r: Option<(String, usize)>)
    requires
        i <= s@.len(),
    ensures
        r is None ==> parse_string(s@, i as int) is None,
        r matches Some(p) ==> parse_string(s@, i as int) == Some((p.0@, p.1 as int)) && i < p.1
            <= s@.len(),
{
    if i < s.len() && s[i] == '"' {
        match p_str_body(s, i + 1) {
            Some(p) => {
                proof {
                    lemma_parse_str_body_advances(s@, i + 1);
                }
                Some((string_of_chars(&p.0), p.1))
            },
            None => None,
        }
    } else {
        None
    }
}

fn p_number(s: &Vec<char>, i: usize) -> (r: Option<(u64, usize)>)
    requires
        i <= s@.len(),
    ensures
        r is None ==> (match parse_number(s@, i as int) {
            Some(p) => p.0 > u64::MAX,
            None => true,
        }),
        r matches Some(p) ==> parse_number(s@, i as int) == Some((p.0 as nat, p.1 as int)) && i
            < p.1 <= s@.len(),
{
    if !(i < s.len() && exec_is_digit(s[i])) {
        return None;
    }
    let n = s.len();
    let mut j: usize = i;
    let mut acc: u64 = 0;
    while j < n && exec_is_digit(s[j])
        invariant
            n == s@.len(),
            i <= j <= n,
            i < j || acc == 0,
            parse_digits(s@, i as int, 0) == parse_digits(s@, j as int, acc as nat),
        decreases n - j,
    {
        let d = (s[j] as u32 - 48) as u64;
        proof {
            assert(d == digit_val(s@[j as int]));
        }
        if acc > 1844674407370955161u64 || (acc == 1844674407370955161u64 && d > 5) {
            proof {
                assert((acc as nat) * 10 + (digit_val(s@[j as int]) as nat) > u64::MAX);
                lemma_parse_digits_lower(s@, j + 1, (acc as nat) * 10 + (digit_val(
                    s@[j as int],
                ) as nat));
            }
            return None;
        }
        proof {
            assert((acc as nat) * 10 + (d as nat) <= u64::MAX);
        }
        acc = acc * 10 + d;
        j += 1;
    }
    Some((acc, j))
}

fn p_bool(s: &Vec<char>, i: usize) -> (r: Option<(bool, usize)>)
    requires
        i <= s@.len(),
    ensures
        r is None ==> parse_bool(s@, i as int) is None,
        r matches Some(p) ==> parse_bool(s@, i as int) == Some((p.0, p.1 as int)) && p.1
            <= s@.len(),
{
    let t = vec!['t', 'r', 'u', 'e'];
    proof {
        assert(t@ =~= lit_true());
    }
    match expect_chars(s, i, &t) {
        Some(j) => Some((true, j)),
        None => {
            let f = vec!['f', 'a', 'l', 's', 'e'];
            proof {
                assert(f@ =~= lit_false());
            }
            match expect_chars(s, i, &f) {
                Some(j) => Some((false, j)),
                None => None,
            }
        },
    }
}

fn p_strings(s: &Vec<char>, i: usize) -> (r: Option<(Vec<String>, usize)>)
    requires
        i <= s@.len(),
    ensures
        r is None ==> parse_strings(s@, i as int) is None,
        r matches Some(p) ==> parse_strings(s@, i as int) == Some((p.0.deep_view(), p.1 as int))
            && i <= p.1 <= s@.len(),
    decreases s@.len() - i,
{
    if i >= s.len() {
        return None;
    }
    if s[i] != '"' {
        let v: Vec<String> = Vec::new();
        proof {
            assert(v.deep_view() =~= Seq::<Seq<char>>::empty());
        }
        return Some((v, i));
    }
    match p_string(s, i) {
        Some(p) => {
            let (v, j) = p;
            if j < s.len() && s[j] == ',' && j + 1 < s.len() && s[j + 1] == '"' {
                match p_strings(s, j + 1) {
                    Some(q) => {
                        let (mut l, k) = q;
                        let ghost rest = l.deep_view();
                        l.insert(0, v);
                        proof {
                            assert(l.deep_view() =~= seq![v@] + rest);
                        }
                        Some((l, k))
                    },
                    None => None,
                }
            } else {
                let l = vec![v];
                proof {
                    assert(l.deep_view() =~= seq![l@[0]@]);
                }
                Some((l, j))
            }
        },
        None => None,
    }
}

fn p_record(s: &Vec<char>, i: usize) -> (r: Option<(TriggerRecord, usize)>)
    requires
        i <= s@.len(),
    ensures
        r is None ==> parse_record(s@, i as int) is None,
        r matches Some(p) ==> parse_record(s@, i as int) == Some((p.0@, p.1 as int)) && i <= p.1
            <= s@.len(),
{
    let open = lit_rec_open_chars();
    let j0 = match expect_chars(s, i, &open) {
        Some(j) => j,
        None => {
            return None;
        },
    };
    let (ms, j1) = match p_strings(s, j0) {
        Some(p) => p,
        None => {
            return None;
        },
    };
    let sep = lit_text_sep_chars();
    let j2 = match expect_chars(s, j1, &sep) {
        Some(j) => j,
        None => {
            return None;
        },
    };
    let (tx, j3) = match p_string(s, j2) {
        Some(p) => p,
        None => {
            return None;
        },
    };
    let close = vec!['}'];
    proof {
        assert(close@ =~= seq!['}']);
    }
    let j4 = match expect_chars(s, j3, &close) {
        Some(j) => j,
        None => {
            return None;
        },
    };
    let rec = TriggerRecord { matches: ms, text: tx };
    proof {
        assert(rec@ =~~= (parse_record(s@, i as int)->0).0);
    }
    Some((rec, j4))
}

fn p_records(s: &Vec<char>, i: usize) -> (r: Option<(Vec<TriggerRecord>, usize)>)
    requires
        i <= s@.len(),
    ensures
        r is None ==> parse_records(s@, i as int) is None,
        r matches Some(p) ==> parse_records(s@, i as int) == Some(
            (crate::store::records_model(p.0@), p.1 as int),
        ) && i <= p.1 <= s@.len(),
    decreases s@.len() - i,
{
    if i >= s.len() {
        return None;
    }
    if s[i] != '{' {
        let v: Vec<TriggerRecord> = Vec::new();
        proof {
            assert(crate::store::records_model(v@) =~= Seq::<RecordModel>::empty());
        }
        return Some((v, i));
    }
    match p_record(s, i) {
        Some(p) => {
            let (v, j) = p;
            if j < s.len() && s[j] == ',' && j + 1 < s.len() && s[j + 1] == '{' {
                if j + 1 <= i {
                    return None;
                }
                match p_records(s, j + 1) {
                    Some(q) => {
                        let (mut l, k) = q;
                        let ghost rest = crate::store::records_model(l@);
                        let ghost vm = v@;
                        l.insert(0, v);
                        proof {
                            assert(crate::store::records_model(l@) =~= seq![vm] + rest);
                        }
                        Some((l, k))
                    },
                    None => None,
                }
            } else {
                let ghost vm = v@;
                let l = vec![v];
                proof {
                    assert(crate::store::records_model(l@) =~= seq![vm]);
                }
                Some((l, j))
            }
        },
        None => None,
    }
}

fn p_config(s: &Vec<char>, i: usize) -> (r: Option<(GuildConfig, usize)>)
    requires
        i <= s@.len(),
    ensures
        r is None ==> parse_config(s@, i as int) is None,
        r matches Some(p) ==> parse_config(s@, i as int) == Some((p.0@, p.1 as int)) && i <= p.1
            <= s@.len(),
{
    let open = lit_cfg_open_chars();
    let j0 = match expect_chars(s, i, &open) {
        Some(j) => j,
        None => {
            return None;
        },
    };
    let (trs, j1) = match p_records(s, j0) {
        Some(p) => p,
        None => {
            return None;
        },
    };
    let sep1 = lit_timeout_sep_chars();
    let j2 = match expect_chars(s, j1, &sep1) {
        Some(j) => j,
        None => {
            return None;
        },
    };
    let (t, j3) = match p_number(s, j2) {
        Some(p) => p,
        None => {
            return None;
        },
    };
    let sep2 = lit_auto_sep_chars();
    let j4 = match expect_chars(s, j3, &sep2) {
        Some(j) => j,
        None => {
            return None;
        },
    };
    let (b, j5) = match p_bool(s, j4) {
        Some(p) => p,
        None => {
            return None;
        },
    };
    let close = vec!['}'];
    proof {
        assert(close@ =~= seq!['}']);
    }
    let j6 = match expect_chars(s, j5, &close) {
        Some(j) => j,
        None => {
            return None;
        },
    };
    let cfg = GuildConfig { triggers: trs, auto_reply: b, reply_timeout: t };
    proof {
        assert(cfg@ =~~= (parse_config(s@, i as int)->0).0);
    }
    Some((cfg, j6))
}

fn p_entry(s: &Vec<char>, i: usize) -> (r: Option<(GuildEntry, usize)>)
    requires
        i <= s@.len(),
    ensures
        r is None ==> parse_entry(s@, i as int) is None,
        r matches Some(p) ==> parse_entry(s@, i as int) == Some((p.0@, p.1 as int)) && i <= p.1
            <= s@.len(),
{
    if !(i < s.len() && s[i] == '"') {
        return None;
    }
    let (g, j) = match p_number(s, i + 1) {
        Some(p) => p,
        None => {
            return None;
        },
    };
    let sep = vec!['"', ':'];
    proof {
        assert(sep@ =~= seq!['"', ':']);
    }
    let j2 = match expect_chars(s, j, &sep) {
        Some(j2) => j2,
        None => {
            return None;
        },
    };
    let (c, j3) = match p_config(s, j2) {
        Some(p) => p,
        None => {
            return None;
        },
    };
    let entry = GuildEntry { guild_id: g, config: c };
    proof {
        assert(entry@ =~~= (parse_entry(s@, i as int)->0).0);
    }
    Some((entry, j3))
}

fn p_entries(s: &Vec<char>, i: usize) -> (r: Option<(Vec<GuildEntry>, usize)>)
    requires
        i <= s@.len(),
    ensures
        r is None ==> parse_entries(s@, i as int) is None,
        r matches Some(p) ==> parse_entries(s@, i as int) == Some(
            (crate::store::entries_model_of(p.0@), p.1 as int),
        ) && i <= p.1 <= s@.len(),
    decreases s@.len() - i,
{
    if i >= s.len() {
        return None;
    }
    if s[i] != '"' {
        let v: Vec<GuildEntry> = Vec::new();
        proof {
            assert(crate::store::entries_model_of(v@) =~= Seq::<EntryModel>::empty());
        }
        return Some((v, i));
    }
    match p_entry(s, i) {
        Some(p) => {
            let (v, j) = p;
            if j < s.len() && s[j] == ',' && j + 1 < s.len() && s[j + 1] == '"' {
                if j + 1 <= i {
                    return None;
                }
                match p_entries(s, j + 1) {
                    Some(q) => {
                        let (mut l, k) = q;
                        let ghost rest = crate::store::entries_model_of(l@);
                        let ghost vm = v@;
                        l.insert(0, v);
                        proof {
                            assert(crate::store::entries_model_of(l@) =~= seq![vm] + rest);
                        }
                        Some((l, k))
                    },
                    None => None,
                }
            } else {
                let ghost vm = v@;
                let l = vec![v];
                proof {
                    assert(crate::store::entries_model_of(l@) =~= seq![vm]);
                }
                Some((l, j))
            }
        },
        None => None,
    }
}

/// Why a snapshot text was refused at load.
#[derive(Clone, Copy, PartialEq, Eq, Structural, Debug)]
pub enum LoadError {
    /// The text does not fit the documented shape.
    Malformed,
    /// The text fits the shape but holds what no store may hold: a repeated
    /// guild identifier or an empty trigger string.
    Invalid,
}

fn record_ok(rec: &TriggerRecord) -> (r: bool)
    ensures
        r == crate::store::record_wf(rec@),
{
    let w = rec.matches.len();
    let mut u: usize = 0;
    while u < w
        invariant
            w == rec.matches@.len(),
            u <= w,
            forall|a: int| 0 <= a < u ==> (#[trigger] rec@.matches[a]).len() > 0,
        decreases w - u,
    {
        if rec.matches[u].as_str().is_empty() {
            proof {
                assert(rec@.matches[u as int].len() == 0);
            }
            return false;
        }
        proof {
            assert(rec@.matches[u as int] == rec.matches@[u as int]@);
        }
        u += 1;
    }
    true
}

fn config_ok(cfg: &GuildConfig) -> (r: bool)
    ensures
        r == crate::store::config_wf(cfg@),
{
    let m = cfg.triggers.len();
    let mut t: usize = 0;
    while t < m
        invariant
            m == cfg.triggers@.len(),
            t <= m,
            forall|a: int| 0 <= a < t ==> crate::store::record_wf(#[trigger] cfg@.triggers[a]),
        decreases m - t,
    {
        proof {
            assert(cfg@.triggers[t as int] == cfg.triggers@[t as int]@);
        }
        if !record_ok(&cfg.triggers[t]) {
            return false;
        }
        t += 1;
    }
    true
}

fn check_store_wf(entries: &Vec<GuildEntry>) -> (r: bool)
    ensures
        r == crate::store::entries_wf(crate::store::entries_model_of(entries@)),
{
    let ghost em = crate::store::entries_model_of(entries@);
    let n = entries.len();
    let mut i: usize = 0;
    while i < n
        invariant
            n == entries@.len(),
            em == crate::store::entries_model_of(entries@),
            i <= n,
            forall|a: int, b: int|
                0 <= a < b < i ==> (#[trigger] em[a]).guild_id != (#[trigger] em[b]).guild_id,
            forall|a: int| 0 <= a < i ==> crate::store::config_wf((#[trigger] em[a]).config),
        decreases n - i,
    {
        proof {
            assert(em[i as int] == entries@[i as int]@);
        }
        let mut b: usize = 0;
        while b < i
            invariant
                n == entries@.len(),
                em == crate::store::entries_model_of(entries@),
                i < n,
                b <= i,
                forall|a: int, c: int|
                    0 <= a < c < i ==> (#[trigger] em[a]).guild_id != (#[trigger] em[c]).guild_id,
                forall|a: int| 0 <= a < i ==> crate::store::config_wf((#[trigger] em[a]).config),
                forall|a: int| 0 <= a < b ==> (#[trigger] em[a]).guild_id != em[i as int].guild_id,
            decreases i - b,
        {
            if entries[b].guild_id == entries[i].guild_id {
                proof {
                    assert(em[b as int].guild_id == em[i as int].guild_id);
                    assert(!crate::store::unique_keys(em));
                }
                return false;
            }
            proof {
                assert(em[b as int] == entries@[b as int]@);
            }
            b += 1;
        }
        if !config_ok(&entries[i].config) {
            proof {
                assert(!crate::store::config_wf(em[i as int].config));
            }
            return false;
        }
        i += 1;
    }
    proof {
        assert(crate::store::unique_keys(em));
    }
    true
}

/// Reads a snapshot text back into a store. Exactly the texts of the
/// documented shape are accepted; a shape-level fault answers `Malformed`,
/// a well-shaped text whose content no store may hold answers `Invalid`.
pub fn load_store(s: &str) -> (r: Result<ConfigStore, LoadError>)
    ensures
        (match parse_store(s@) {
            Some(entries) => {
                if crate::store::entries_wf(entries) {
                    r is Ok && r->Ok_0.wf() && r->Ok_0.entries_model() == entries
                } else {
                    r is Err && r->Err_0 == LoadError::Invalid
                }
            },
            None => r is Err && r->Err_0 == LoadError::Malformed,
        }),
{
    let cs = crate::text::chars_of(s);
    let open = vec!['{'];
    proof {
        assert(open@ =~= seq!['{']);
    }
    let j = match expect_chars(&cs, 0, &open) {
        Some(j) => j,
        None => {
            return Err(LoadError::Malformed);
        },
    };
    if j < cs.len() && cs[j] == '}' {
        if j + 1 == cs.len() {
            let st = ConfigStore { entries: Vec::new() };
            proof {
                assert(st.entries_model() =~= Seq::<EntryModel>::empty());
            }
            return Ok(st);
        } else {
            return Err(LoadError::Malformed);
        }
    }
    let (l, k) = match p_entries(&cs, j) {
        Some(p) => p,
        None => {
            return Err(LoadError::Malformed);
        },
    };
    let close = vec!['}'];
    proof {
        assert(close@ =~= seq!['}']);
    }
    let e = match expect_chars(&cs, k, &close) {
        Some(e) => e,
        None => {
            return Err(LoadError::Malformed);
        },
    };
    if e != cs.len() {
        return Err(LoadError::Malformed);
    }
    if !check_store_wf(&l) {
        return Err(LoadError::Invalid);
    }
    let st = ConfigStore { entries: l };
    Ok(st)
}

// ---------------------------------------------------------------------------
// Round trip: parsing an emitted document gives back exactly the entries it
// was emitted from.
// ---------------------------------------------------------------------------

pub open spec fn pow10(e: nat) -> nat
    decreases e,
{
    if e == 0 {
        1
    } else {
        10 * pow10((e - 1) as nat)
    }
}

pub open spec fn all_digits(d: Seq<char>) -> bool {
    forall|k: int| 0 <= k < d.len() ==> is_digit(#[trigger] d[k])
}

/// The numeric value of a digit run, most significant first.
pub open spec fn digits_val(d: Seq<char>) -> nat
    decreases d.len(),
{
    if d.len() == 0 {
        0
    } else {
        digits_val(d.drop_last()) * 10 + (digit_val(d.last()) as nat)
    }
}

/// A part of a placed sequence is itself placed, at its offset.
proof fn lemma_subrange_at(s: Seq<char>, i: int, whole: Seq<char>, off: int, part: Seq<char>)
    requires
        0 <= i,
        i + whole.len() <= s.len(),
        s.subrange(i, i + whole.len()) == whole,
        0 <= off,
        off + part.len() <= whole.len(),
        whole.subrange(off, off + part.len()) == part,
    ensures
        s.subrange(i + off, i + off + part.len()) == part,
{
    assert forall|k: int| 0 <= k < part.len() implies s.subrange(
        i + off,
        i + off + part.len(),
    )[k] == part[k] by {
        assert(s.subrange(i, i + whole.len())[off + k] == whole[off + k]);
        assert(whole.subrange(off, off + part.len())[k] == part[k]);
    }
    assert(s.subrange(i + off, i + off + part.len()) =~= part);
}

/// One character of a placed sequence stands at its offset.
proof fn lemma_char_at(s: Seq<char>, i: int, whole: Seq<char>, off: int)
    requires
        0 <= i,
        i + whole.len() <= s.len(),
        s.subrange(i, i + whole.len()) == whole,
        0 <= off < whole.len(),
    ensures
        s[i + off] == whole[off],
{
    assert(s.subrange(i, i + whole.len())[off] == whole[off]);
}

proof fn lemma_expect_at(s: Seq<char>, i: int, lit: Seq<char>)
    requires
        0 <= i,
        i + lit.len() <= s.len(),
        s.subrange(i, i + lit.len()) == lit,
    ensures
        expect(s, i, lit) == Some(i + lit.len()),
{
}

/// What the digits of `n` are: at least one of them, all digits, and their
/// value `n`.
proof fn lemma_emit_u64_props(n: nat)
    ensures
        emit_u64(n).len() >= 1,
        all_digits(emit_u64(n)),
        digits_val(emit_u64(n)) == n,
    decreases n,
{
    if n < 10 {
        let e = emit_u64(n);
        assert(e =~= seq![digit_char(n)]);
        assert(e.len() == 1);
        assert(e.drop_last() =~= Seq::<char>::empty());
        assert(digits_val(e.drop_last()) == 0);
        assert(e.last() == digit_char(n));
        assert(digit_char(n) as int == 48 + n);
        assert(digit_val(digit_char(n)) == n as int);
        assert(is_digit(digit_char(n)));
        assert(digits_val(e) == 0 * 10 + (digit_val(digit_char(n)) as nat));
    } else {
        lemma_emit_u64_props(n / 10);
        let e = emit_u64(n);
        assert(e == emit_u64(n / 10).push(digit_char((n % 10) as nat)));
        assert(e.drop_last() =~= emit_u64(n / 10));
        assert(e.last() == digit_char((n % 10) as nat));
        assert(is_digit(digit_char((n % 10) as nat)));
        assert(all_digits(e)) by {
            assert(forall|k: int|
                0 <= k < e.len() - 1 ==> e[k] == #[trigger] emit_u64(n / 10)[k]);
        }
        assert(digits_val(e) == (n / 10) * 10 + (n % 10));
    }
}

/// The value of a digit run, split at its first digit.
proof fn lemma_digits_val_first(d: Seq<char>)
    requires
        d.len() > 0,
    ensures
        digits_val(d) == (digit_val(d[0]) as nat) * pow10((d.len() - 1) as nat) + digits_val(
            d.drop_first(),
        ),
    decreases d.len(),
{
    if d.len() == 1 {
        assert(d.drop_last() =~= Seq::<char>::empty());
        assert(d.drop_first() =~= Seq::<char>::empty());
        assert(d.last() == d[0]);
        assert((digit_val(d[0]) as nat) * 1 == digit_val(d[0]) as nat) by (nonlinear_arith);
    } else {
        let dl = d.drop_last();
        lemma_digits_val_first(dl);
        let v0 = digit_val(d[0]) as nat;
        let p = pow10((d.len() - 2) as nat);
        let x = digits_val(dl.drop_first());
        let last = digit_val(d.last()) as nat;
        assert(dl[0] == d[0]);
        assert(digits_val(d) == (v0 * p + x) * 10 + last);
        assert((v0 * p + x) * 10 == v0 * p * 10 + x * 10) by (nonlinear_arith);
        assert(v0 * p * 10 == v0 * (10 * p)) by (nonlinear_arith);
        assert(pow10((d.len() - 1) as nat) == 10 * p);
        assert(d.drop_first().drop_last() =~= dl.drop_first());
        assert(d.drop_first().last() == d.last());
        assert(digits_val(d.drop_first()) == x * 10 + last);
    }
}

/// Folding a placed digit run onto an accumulator.
proof fn lemma_parse_digits_prefix(s: Seq<char>, i: int, d: Seq<char>, acc: nat)
    requires
        0 <= i,
        i + d.len() <= s.len(),
        s.subrange(i, i + d.len()) == d,
        all_digits(d),
        i + d.len() == s.len() || !is_digit(s[i + d.len()]),
    ensures
        parse_digits(s, i, acc) == (acc * pow10(d.len()) + digits_val(d), i + d.len()),
    decreases d.len(),
{
    if d.len() == 0 {
        assert(acc * 1 == acc) by (nonlinear_arith);
    } else {
        lemma_char_at(s, i, d, 0);
        assert(is_digit(s[i]));
        let v0 = digit_val(d[0]) as nat;
        let acc2 = acc * 10 + v0;
        let d2 = d.drop_first();
        assert(s.subrange(i + 1, i + 1 + d2.len()) =~= d2) by {
            assert(forall|k: int|
                0 <= k < d2.len() ==> s.subrange(i + 1, i + 1 + d2.len())[k] == s[i + 1 + k]
                    && s.subrange(i, i + d.len())[1 + k] == s[i + 1 + k] && #[trigger] d2[k] == d[
                    1 + k
                ]);
        }
        lemma_parse_digits_prefix(s, i + 1, d2, acc2);
        lemma_digits_val_first(d);
        let p2 = pow10(d2.len());
        assert(parse_digits(s, i, acc) == parse_digits(s, i + 1, acc2));
        assert((acc * 10 + v0) * p2 == acc * (10 * p2) + v0 * p2) by (nonlinear_arith);
        assert(pow10(d.len()) == 10 * p2);
        assert(digits_val(d) == v0 * p2 + digits_val(d2));
    }
}

/// A placed emitted number parses to that number, when no digit follows it.
proof fn lemma_parse_number_emit(s: Seq<char>, i: int, n: nat)
    requires
        0 <= i,
        i + emit_u64(n).len() <= s.len(),
        s.subrange(i, i + emit_u64(n).len()) == emit_u64(n),
        i + emit_u64(n).len() == s.len() || !is_digit(s[i + emit_u64(n).len()]),
    ensures
        parse_number(s, i) == Some((n, i + emit_u64(n).len())),
{
    lemma_emit_u64_props(n);
    lemma_char_at(s, i, emit_u64(n), 0);
    assert(is_digit(s[i]));
    lemma_parse_digits_prefix(s, i, emit_u64(n), 0);
    assert(0 * pow10(emit_u64(n).len()) == 0) by (nonlinear_arith);
}

/// A placed escaped string body, followed by its closing quote, parses back
/// to the string.
proof fn lemma_parse_str_body_emit(s: Seq<char>, i: int, v: Seq<char>)
    requires
        0 <= i,
        i + escape_str(v).len() + 1 <= s.len(),
        s.subrange(i, i + escape_str(v).len()) == escape_str(v),
        s[i + escape_str(v).len()] == '"',
    ensures
        parse_str_body(s, i) == Some((v, i + escape_str(v).len() + 1)),
    decreases v.len(),
{
    if v.len() == 0 {
        assert(escape_str(v).len() == 0);
    } else {
        let c = v[0];
        let e = escape_str(v);
        let v2 = v.drop_first();
        assert(e == esc_char(c) + escape_str(v2));
        let k = esc_char(c).len() as int;
        assert(escape_str(v2).len() == e.len() - k);
        assert(s.subrange(i + k, i + k + escape_str(v2).len()) =~= escape_str(v2)) by {
            assert(forall|t: int|
                0 <= t < escape_str(v2).len() ==> s.subrange(
                    i + k,
                    i + k + escape_str(v2).len(),
                )[t] == s[i + k + t] && s.subrange(i, i + e.len())[k + t] == s[i + k + t]
                    && e[k + t] == #[trigger] escape_str(v2)[t]);
        }
        lemma_parse_str_body_emit(s, i + k, v2);
        if c == '\\' || c == '"' {
            lemma_char_at(s, i, e, 0);
            lemma_char_at(s, i, e, 1);
            assert(s[i] == '\\');
            assert(s[i + 1] == c);
            assert(parse_str_body(s, i) == Some((seq![c] + v2, i + e.len() + 1)));
            assert(seq![c] + v2 =~= v);
        } else {
            lemma_char_at(s, i, e, 0);
            assert(s[i] == c);
            assert(parse_str_body(s, i) == Some((seq![c] + v2, i + e.len() + 1)));
            assert(seq![c] + v2 =~= v);
        }
    }
}

/// A placed emitted string parses back to the string.
proof fn lemma_parse_string_emit(s: Seq<char>, i: int, v: Seq<char>)
    requires
        0 <= i,
        i + emit_string(v).len() <= s.len(),
        s.subrange(i, i + emit_string(v).len()) == emit_string(v),
    ensures
        parse_string(s, i) == Some((v, i + emit_string(v).len())),
        emit_string(v).len() >= 2,
        emit_string(v)[0] == '"',
{
    let e = emit_string(v);
    assert(e[0] == '"');
    lemma_char_at(s, i, e, 0);
    assert(s.subrange(i + 1, i + 1 + escape_str(v).len()) =~= escape_str(v)) by {
        assert(forall|t: int|
            0 <= t < escape_str(v).len() ==> s.subrange(i + 1, i + 1 + escape_str(v).len())[t]
                == s[i + 1 + t] && s.subrange(i, i + e.len())[1 + t] == s[i + 1 + t] && e[1 + t]
                == #[trigger] escape_str(v)[t]);
    }
    lemma_char_at(s, i, e, e.len() - 1);
    assert(s[i + 1 + escape_str(v).len()] == '"');
    lemma_parse_str_body_emit(s, i + 1, v);
}

/// A placed emitted boolean parses back to the boolean.
proof fn lemma_parse_bool_emit(s: Seq<char>, i: int, b: bool)
    requires
        0 <= i,
        i + emit_bool(b).len() <= s.len(),
        s.subrange(i, i + emit_bool(b).len()) == emit_bool(b),
    ensures
        parse_bool(s, i) == Some((b, i + emit_bool(b).len())),
{
    if b {
        lemma_expect_at(s, i, lit_true());
    } else {
        lemma_expect_at(s, i, lit_false());
        assert(expect(s, i, lit_true()) is None) by {
            lemma_char_at(s, i, lit_false(), 0);
            if i + lit_true().len() <= s.len() {
                if s.subrange(i, i + lit_true().len()) == lit_true() {
                    assert(s.subrange(i, i + lit_true().len())[0] == 't');
                }
            }
        }
    }
}


/// The emitted list of strings, split at its first element.
proof fn lemma_emit_strings_first(l: Seq<Seq<char>>)
    requires
        l.len() > 0,
    ensures
        l.len() == 1 ==> emit_strings(l) == emit_string(l[0]),
        l.len() > 1 ==> emit_strings(l) == emit_string(l[0]) + seq![','] + emit_strings(
            l.drop_first(),
        ),
    decreases l.len(),
{
    if l.len() == 1 {
    } else if l.len() == 2 {
        assert(l.drop_last() =~= seq![l[0]]);
        assert(l.drop_first() =~= seq![l[1]]);
        assert(emit_strings(seq![l[0]]) == emit_string(l[0]));
        assert(emit_strings(seq![l[1]]) == emit_string(l[1]));
        assert(l.last() == l[1]);
    } else {
        lemma_emit_strings_first(l.drop_last());
        assert(l.drop_last()[0] == l[0]);
        assert(l.drop_last().drop_first() =~= l.drop_first().drop_last());
        assert(l.drop_first().last() == l.last());
        assert(l.drop_first().len() > 1);
        assert(emit_strings(l) == emit_strings(l.drop_last()) + seq![','] + emit_string(l.last()));
        assert(emit_strings(l.drop_first()) == emit_strings(l.drop_first().drop_last()) + seq![',']
            + emit_string(l.drop_first().last()));
        assert(emit_strings(l) =~= emit_string(l[0]) + seq![','] + emit_strings(l.drop_first()));
    }
}

proof fn lemma_emit_strings_starts(l: Seq<Seq<char>>)
    requires
        l.len() > 0,
    ensures
        emit_strings(l).len() >= 2,
        emit_strings(l)[0] == '"',
{
    lemma_emit_strings_first(l);
    assert(emit_string(l[0])[0] == '"');
}

/// A placed emitted list of strings, followed by `]`, parses back to the
/// list.
proof fn lemma_parse_strings_emit(s: Seq<char>, i: int, l: Seq<Seq<char>>)
    requires
        0 <= i,
        i + emit_strings(l).len() < s.len(),
        s.subrange(i, i + emit_strings(l).len()) == emit_strings(l),
        s[i + emit_strings(l).len()] == ']',
    ensures
        parse_strings(s, i) == Some((l, i + emit_strings(l).len())),
    decreases l.len(),
{
    let e = emit_strings(l);
    if l.len() == 0 {
        assert(s[i] == ']');
    } else {
        lemma_emit_strings_first(l);
        lemma_emit_strings_starts(l);
        let e0 = emit_string(l[0]);
        if l.len() == 1 {
            lemma_parse_string_emit(s, i, l[0]);
            let j = i + e0.len();
            assert(s[j] == ']');
            assert(seq![l[0]] =~= l);
        } else {
            let rest = emit_strings(l.drop_first());
            assert(e == e0 + seq![','] + rest);
            assert(e.subrange(0, e0.len() as int) =~= e0);
            lemma_subrange_at(s, i, e, 0, e0);
            lemma_parse_string_emit(s, i, l[0]);
            let j = i + e0.len();
            lemma_char_at(s, i, e, e0.len() as int);
            assert(s[j] == ',');
            lemma_emit_strings_starts(l.drop_first());
            lemma_char_at(s, i, e, e0.len() as int + 1);
            assert(s[j + 1] == '"');
            assert(e.subrange(e0.len() as int + 1, e.len() as int) =~= rest);
            lemma_subrange_at(s, i, e, e0.len() as int + 1, rest);
            lemma_parse_strings_emit(s, j + 1, l.drop_first());
            assert(seq![l[0]] + l.drop_first() =~= l);
        }
    }
}

/// A placed emitted record parses back to the record.
#[verifier::rlimit(100)]
proof fn lemma_parse_record_emit(s: Seq<char>, i: int, r: RecordModel)
    requires
        0 <= i,
        i + emit_record(r).len() <= s.len(),
        s.subrange(i, i + emit_record(r).len()) == emit_record(r),
    ensures
        parse_record(s, i) == Some((r, i + emit_record(r).len())),
        emit_record(r).len() >= 2,
        emit_record(r)[0] == '{',
{
    let e = emit_record(r);
    let o1 = lit_rec_open().len() as int;
    let es = emit_strings(r.matches);
    let o2 = o1 + es.len();
    let o3 = o2 + lit_text_sep().len();
    let st = emit_string(r.text);
    let o4 = o3 + st.len();
    assert(e.len() == o4 + 1);
    assert(e.subrange(0, o1) =~= lit_rec_open());
    assert(e.subrange(o1, o2) =~= es);
    assert(e.subrange(o2, o3) =~= lit_text_sep());
    assert(e.subrange(o3, o4) =~= st);
    assert(e.subrange(o4, o4 + 1) =~= seq!['}']);
    lemma_subrange_at(s, i, e, 0, lit_rec_open());
    lemma_expect_at(s, i, lit_rec_open());
    lemma_subrange_at(s, i, e, o1, es);
    lemma_char_at(s, i, e, o2);
    assert(s[i + o2] == ']');
    lemma_parse_strings_emit(s, i + o1, r.matches);
    lemma_subrange_at(s, i, e, o2, lit_text_sep());
    lemma_expect_at(s, i + o2, lit_text_sep());
    lemma_subrange_at(s, i, e, o3, st);
    lemma_parse_string_emit(s, i + o3, r.text);
    lemma_subrange_at(s, i, e, o4, seq!['}']);
    lemma_expect_at(s, i + o4, seq!['}']);
    assert((RecordModel { matches: r.matches, text: r.text }) =~~= r);
}

/// The emitted list of records, split at its first element.
proof fn lemma_emit_records_first(l: Seq<RecordModel>)
    requires
        l.len() > 0,
    ensures
        l.len() == 1 ==> emit_records(l) == emit_record(l[0]),
        l.len() > 1 ==> emit_records(l) == emit_record(l[0]) + seq![','] + emit_records(
            l.drop_first(),
        ),
    decreases l.len(),
{
    if l.len() == 1 {
    } else if l.len() == 2 {
        assert(l.drop_last() =~= seq![l[0]]);
        assert(l.drop_first() =~= seq![l[1]]);
        assert(emit_records(seq![l[0]]) == emit_record(l[0]));
        assert(emit_records(seq![l[1]]) == emit_record(l[1]));
        assert(l.last() == l[1]);
    } else {
        lemma_emit_records_first(l.drop_last());
        assert(l.drop_last()[0] == l[0]);
        assert(l.drop_last().drop_first() =~= l.drop_first().drop_last());
        assert(l.drop_first().last() == l.last());
        assert(l.drop_first().len() > 1);
        assert(emit_records(l) == emit_records(l.drop_last()) + seq![','] + emit_record(l.last()));
        assert(emit_records(l.drop_first()) == emit_records(l.drop_first().drop_last()) + seq![',']
            + emit_record(l.drop_first().last()));
        assert(emit_records(l) =~= emit_record(l[0]) + seq![','] + emit_records(l.drop_first()));
    }
}

proof fn lemma_emit_records_starts(l: Seq<RecordModel>)
    requires
        l.len() > 0,
    ensures
        emit_records(l).len() >= 2,
        emit_records(l)[0] == '{',
{
    lemma_emit_records_first(l);
    assert(emit_record(l[0])[0] == '{');
    assert(emit_record(l[0]).len() >= 2);
}

/// A placed emitted list of records, followed by `]`, parses back to the
/// list.
proof fn lemma_parse_records_emit(s: Seq<char>, i: int, l: Seq<RecordModel>)
    requires
        0 <= i,
        i + emit_records(l).len() < s.len(),
        s.subrange(i, i + emit_records(l).len()) == emit_records(l),
        s[i + emit_records(l).len()] == ']',
    ensures
        parse_records(s, i) == Some((l, i + emit_records(l).len())),
    decreases l.len(),
{
    let e = emit_records(l);
    if l.len() == 0 {
        assert(s[i] == ']');
    } else {
        lemma_emit_records_first(l);
        let e0 = emit_record(l[0]);
        if l.len() == 1 {
            lemma_parse_record_emit(s, i, l[0]);
            let j = i + e0.len();
            assert(s[j] == ']');
            assert(seq![l[0]] =~= l);
        } else {
            let rest = emit_records(l.drop_first());
            assert(e == e0 + seq![','] + rest);
            assert(e.subrange(0, e0.len() as int) =~= e0);
            lemma_subrange_at(s, i, e, 0, e0);
            lemma_parse_record_emit(s, i, l[0]);
            let j = i + e0.len();
            lemma_char_at(s, i, e, e0.len() as int);
            assert(s[j] == ',');
            lemma_emit_records_starts(l.drop_first());
            lemma_char_at(s, i, e, e0.len() as int + 1);
            assert(s[j + 1] == '{');
            assert(e.subrange(e0.len() as int + 1, e.len() as int) =~= rest);
            lemma_subrange_at(s, i, e, e0.len() as int + 1, rest);
            lemma_parse_records_emit(s, j + 1, l.drop_first());
            assert(seq![l[0]] + l.drop_first() =~= l);
        }
    }
}

/// A placed emitted configuration parses back to the configuration.
#[verifier::rlimit(100)]
proof fn lemma_parse_config_emit(s: Seq<char>, i: int, c: ConfigModel)
    requires
        0 <= i,
        i + emit_config(c).len() <= s.len(),
        s.subrange(i, i + emit_config(c).len()) == emit_config(c),
    ensures
        parse_config(s, i) == Some((c, i + emit_config(c).len())),
{
    let e = emit_config(c);
    let o1 = lit_cfg_open().len() as int;
    let er = emit_records(c.triggers);
    let o2 = o1 + er.len();
    let o3 = o2 + lit_timeout_sep().len();
    let en = emit_u64(c.reply_timeout as nat);
    let o4 = o3 + en.len();
    let o5 = o4 + lit_auto_sep().len();
    let eb = emit_bool(c.auto_reply);
    let o6 = o5 + eb.len();
    assert(e.len() == o6 + 1);
    assert(e.subrange(0, o1) =~= lit_cfg_open());
    assert(e.subrange(o1, o2) =~= er);
    assert(e.subrange(o2, o3) =~= lit_timeout_sep());
    assert(e.subrange(o3, o4) =~= en);
    assert(e.subrange(o4, o5) =~= lit_auto_sep());
    assert(e.subrange(o5, o6) =~= eb);
    assert(e.subrange(o6, o6 + 1) =~= seq!['}']);
    lemma_subrange_at(s, i, e, 0, lit_cfg_open());
    lemma_expect_at(s, i, lit_cfg_open());
    lemma_subrange_at(s, i, e, o1, er);
    lemma_char_at(s, i, e, o2);
    assert(s[i + o2] == ']');
    lemma_parse_records_emit(s, i + o1, c.triggers);
    lemma_subrange_at(s, i, e, o2, lit_timeout_sep());
    lemma_expect_at(s, i + o2, lit_timeout_sep());
    lemma_subrange_at(s, i, e, o3, en);
    lemma_char_at(s, i, e, o4);
    assert(s[i + o4] == ',');
    assert(!is_digit(','));
    lemma_parse_number_emit(s, i + o3, c.reply_timeout as nat);
    lemma_subrange_at(s, i, e, o4, lit_auto_sep());
    lemma_expect_at(s, i + o4, lit_auto_sep());
    lemma_subrange_at(s, i, e, o5, eb);
    lemma_parse_bool_emit(s, i + o5, c.auto_reply);
    lemma_subrange_at(s, i, e, o6, seq!['}']);
    lemma_expect_at(s, i + o6, seq!['}']);
    assert((ConfigModel {
        triggers: c.triggers,
        auto_reply: c.auto_reply,
        reply_timeout: ((c.reply_timeout as nat) as u64),
    }) =~~= c);
}

/// A placed emitted entry parses back to the entry.
#[verifier::rlimit(100)]
proof fn lemma_parse_entry_emit(s: Seq<char>, i: int, en: EntryModel)
    requires
        0 <= i,
        i + emit_entry(en).len() <= s.len(),
        s.subrange(i, i + emit_entry(en).len()) == emit_entry(en),
    ensures
        parse_entry(s, i) == Some((en, i + emit_entry(en).len())),
        emit_entry(en).len() >= 2,
        emit_entry(en)[0] == '"',
{
    let e = emit_entry(en);
    let eg = emit_u64(en.guild_id as nat);
    let o1 = 1 + eg.len() as int;
    let o2 = o1 + 2;
    let ec = emit_config(en.config);
    let o3 = o2 + ec.len();
    assert(e.len() == o3);
    assert(e.subrange(0, 1) =~= seq!['"']);
    assert(e.subrange(1, o1) =~= eg);
    assert(e.subrange(o1, o2) =~= seq!['"', ':']);
    assert(e.subrange(o2, o3) =~= ec);
    lemma_char_at(s, i, e, 0);
    assert(s[i] == '"');
    lemma_subrange_at(s, i, e, 1, eg);
    lemma_char_at(s, i, e, o1);
    assert(s[i + o1] == '"');
    assert(!is_digit('"'));
    lemma_parse_number_emit(s, i + 1, en.guild_id as nat);
    lemma_subrange_at(s, i, e, o1, seq!['"', ':']);
    lemma_expect_at(s, i + o1, seq!['"', ':']);
    lemma_subrange_at(s, i, e, o2, ec);
    lemma_parse_config_emit(s, i + o2, en.config);
    assert((EntryModel { guild_id: ((en.guild_id as nat) as u64), config: en.config }) =~~= en);
}

/// The emitted list of entries, split at its first element.
proof fn lemma_emit_entries_first(l: Seq<EntryModel>)
    requires
        l.len() > 0,
    ensures
        l.len() == 1 ==> emit_entries(l) == emit_entry(l[0]),
        l.len() > 1 ==> emit_entries(l) == emit_entry(l[0]) + seq![','] + emit_entries(
            l.drop_first(),
        ),
    decreases l.len(),
{
    if l.len() == 1 {
    } else if l.len() == 2 {
        assert(l.drop_last() =~= seq![l[0]]);
        assert(l.drop_first() =~= seq![l[1]]);
        assert(emit_entries(seq![l[0]]) == emit_entry(l[0]));
        assert(emit_entries(seq![l[1]]) == emit_entry(l[1]));
        assert(l.last() == l[1]);
    } else {
        lemma_emit_entries_first(l.drop_last());
        assert(l.drop_last()[0] == l[0]);
        assert(l.drop_last().drop_first() =~= l.drop_first().drop_last());
        assert(l.drop_first().last() == l.last());
        assert(l.drop_first().len() > 1);
        assert(emit_entries(l) == emit_entries(l.drop_last()) + seq![','] + emit_entry(l.last()));
        assert(emit_entries(l.drop_first()) == emit_entries(l.drop_first().drop_last()) + seq![',']
            + emit_entry(l.drop_first().last()));
        assert(emit_entries(l) =~= emit_entry(l[0]) + seq![','] + emit_entries(l.drop_first()));
    }
}

proof fn lemma_emit_entries_starts(l: Seq<EntryModel>)
    requires
        l.len() > 0,
    ensures
        emit_entries(l).len() >= 2,
        emit_entries(l)[0] == '"',
{
    lemma_emit_entries_first(l);
    assert(emit_entry(l[0])[0] == '"');
    assert(emit_entry(l[0]).len() >= 2);
}

/// A placed emitted list of entries, followed by `}`, parses back to the
/// list.
proof fn lemma_parse_entries_emit(s: Seq<char>, i: int, l: Seq<EntryModel>)
    requires
        0 <= i,
        i + emit_entries(l).len() < s.len(),
        s.subrange(i, i + emit_entries(l).len()) == emit_entries(l),
        s[i + emit_entries(l).len()] == '}',
        l.len() > 0,
    ensures
        parse_entries(s, i) == Some((l, i + emit_entries(l).len())),
    decreases l.len(),
{
    let e = emit_entries(l);
    lemma_emit_entries_first(l);
    let e0 = emit_entry(l[0]);
    if l.len() == 1 {
        lemma_parse_entry_emit(s, i, l[0]);
        let j = i + e0.len();
        assert(s[j] == '}');
        assert(seq![l[0]] =~= l);
    } else {
        let rest = emit_entries(l.drop_first());
        assert(e == e0 + seq![','] + rest);
        assert(e.subrange(0, e0.len() as int) =~= e0);
        lemma_subrange_at(s, i, e, 0, e0);
        lemma_parse_entry_emit(s, i, l[0]);
        let j = i + e0.len();
        lemma_char_at(s, i, e, e0.len() as int);
        assert(s[j] == ',');
        lemma_emit_entries_starts(l.drop_first());
        lemma_char_at(s, i, e, e0.len() as int + 1);
        assert(s[j + 1] == '"');
        assert(e.subrange(e0.len() as int + 1, e.len() as int) =~= rest);
        lemma_subrange_at(s, i, e, e0.len() as int + 1, rest);
        lemma_parse_entries_emit(s, j + 1, l.drop_first());
        assert(seq![l[0]] + l.drop_first() =~= l);
    }
}

/// Round trip: the document emitted for any sequence of entries parses back
/// to exactly those entries. Together with the contracts of `save_store` and
/// `load_store`, saving a well-formed store and loading the text gives back
/// an equal store.
pub proof fn lemma_store_roundtrip(l: Seq<EntryModel>)
    ensures
        parse_store(emit_store(l)) == Some(l),
{
    let s = emit_store(l);
    let el = emit_entries(l);
    let n = el.len() as int;
    assert(s.len() == 2 + el.len());
    assert(s.subrange(0, 1) =~= seq!['{']);
    lemma_expect_at(s, 0, seq!['{']);
    if l.len() == 0 {
        assert(el =~= Seq::<char>::empty());
        assert(s =~= seq!['{', '}']);
        assert(s[1] == '}');
    } else {
        lemma_emit_entries_starts(l);
        assert(s.subrange(1, 1 + n) =~= el);
        assert(s[1] == el[0]);
        assert(s[1] == '"');
        assert(s[1 + n] == '}');
        lemma_parse_entries_emit(s, 1, l);
        assert(s.subrange(1 + n, 2 + n) =~= seq!['}']);
        lemma_expect_at(s, 1 + n, seq!['}']);
    }
}


} // verus!
