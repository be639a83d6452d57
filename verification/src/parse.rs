//! Reads a rendered issue form back into the few values the aggregation uses.
//!
//! GitHub renders every form field as an `### <label>` heading followed by its
//! value, `_No response_` for an optional field left empty; the form gives each
//! field a label identical to its id, so a heading is the id the bot looks for.
//! Anyone can type into an issue: a value outside its field's shape is dropped,
//! never repaired, and a report that names no title is no report.

use vstd::prelude::*;
use crate::form::{
    identity_key, identity_parts, key_of, parse_identity_chars, SessionOutcome, FIELD_FACTOR_COMMON,
    FIELD_FACTOR_MAX, FIELD_FACTOR_MIN, FIELD_GAME_IDENTITY, FIELD_GAME_NAME, FIELD_LAUNCH_ARGUMENT,
    FIELD_SESSION_OUTCOME,
};
use crate::form::lemma_words_read_back;
use crate::launch_flags::{clean_launch_chars, is_switch};
use crate::speed::SpeedKey;
use crate::text::{chars_of, seq_eq, slice_chars, string_of, trim, trim_chars};

verus! {

/// What GitHub writes for an optional field left empty.
pub const NO_RESPONSE: &'static str = "_No response_";

/// What opens a field in a rendered form: a line that starts `### `.
pub open spec fn heading_mark() -> Seq<char> {
    seq!['\n', '#', '#', '#', ' ']
}

/// What ends a field's label: an empty line.
pub open spec fn blank_line() -> Seq<char> {
    seq!['\n', '\n']
}

/// The text with every `\r\n` made `\n`.
pub open spec fn crlf_to_lf(s: Seq<char>) -> Seq<char>
    decreases s.len(),
{
    if s.len() == 0 {
        Seq::empty()
    } else if s.len() >= 2 && s[0] == '\r' && s[1] == '\n' {
        seq!['\n'] + crlf_to_lf(s.skip(2))
    } else {
        seq![s[0]] + crlf_to_lf(s.drop_first())
    }
}

/// The index of the first occurrence of `p` in `s`.
pub open spec fn find_seq(s: Seq<char>, p: Seq<char>) -> Option<int>
    decreases s.len(),
{
    if p.len() > s.len() {
        None
    } else if s.take(p.len() as int) == p {
        Some(0)
    } else if s.len() == 0 {
        None
    } else {
        match find_seq(s.drop_first(), p) {
            Some(i) => Some(i + 1),
            None => None,
        }
    }
}

pub proof fn lemma_find_seq(s: Seq<char>, p: Seq<char>)
    ensures
        match find_seq(s, p) {
            Some(i) => 0 <= i && i + p.len() <= s.len() && s.subrange(i, i + p.len()) == p,
            None => true,
        },
    decreases s.len(),
{
    if p.len() <= s.len() && s.take(p.len() as int) != p && s.len() > 0 {
        lemma_find_seq(s.drop_first(), p);
        match find_seq(s.drop_first(), p) {
            Some(i) => {
                assert(s.subrange(i + 1, i + 1 + p.len()) == s.drop_first().subrange(i, i + p.len()));
            },
            None => {},
        }
    } else if p.len() <= s.len() {
        assert(s.subrange(0, p.len() as int) == s.take(p.len() as int));
    }
}

/// The pieces of `s` between the heading marks, as `str::split` cuts them.
pub open spec fn split_on_headings(s: Seq<char>) -> Seq<Seq<char>>
    decreases s.len(),
{
    match find_seq(s, heading_mark()) {
        None => seq![s],
        Some(i) => {
            proof {
                lemma_find_seq(s, heading_mark());
            }
            seq![s.take(i)] + split_on_headings(s.skip(i + 5))
        },
    }
}

/// One field: its label and its value, both trimmed; `_No response_` is an
/// empty value.
pub open spec fn section(chunk: Seq<char>) -> (Seq<char>, Seq<char>) {
    let (label, value) = match find_seq(chunk, blank_line()) {
        Some(i) => (chunk.take(i), chunk.skip(i + 2)),
        None => (chunk, Seq::<char>::empty()),
    };
    let value = trim(value);
    (trim(label), if value == NO_RESPONSE@ { Seq::<char>::empty() } else { value })
}

/// Every field of a rendered form, in order.
pub open spec fn sections_of(body: Seq<char>) -> Seq<(Seq<char>, Seq<char>)> {
    split_on_headings(seq!['\n'] + crlf_to_lf(body)).drop_first().map_values(
        |c: Seq<char>| section(c),
    )
}

/// The value of the first field labelled `id`.
pub open spec fn field(secs: Seq<(Seq<char>, Seq<char>)>, id: Seq<char>) -> Option<Seq<char>>
    decreases secs.len(),
{
    if secs.len() == 0 {
        None
    } else if secs[0].0 == id {
        Some(secs[0].1)
    } else {
        field(secs.drop_first(), id)
    }
}

fn crlf_chars(s: &Vec<char>) -> (r: Vec<char>)
    ensures
        r@ == crlf_to_lf(s@),
{
    let n = s.len();
    let mut out: Vec<char> = Vec::new();
    let mut i: usize = 0;
    assert(s@.skip(0) == s@);
    while i < n
        invariant
            n == s.len(),
            i <= n,
            out@ + crlf_to_lf(s@.skip(i as int)) == crlf_to_lf(s@),
        decreases n - i,
    {
        let t = Ghost(s@.skip(i as int));
        if s[i] == '\r' && i + 1 < n && s[i + 1] == '\n' {
            assert(t@.skip(2) == s@.skip(i + 2));
            out.push('\n');
            i += 2;
        } else {
            assert(t@.drop_first() == s@.skip(i + 1));
            out.push(s[i]);
            i += 1;
        }
    }
    out
}

fn matches_at(s: &Vec<char>, p: &Vec<char>, at: usize) -> (r: bool)
    requires
        at + p.len() <= s.len(),
    ensures
        r == (s@.subrange(at as int, at + p.len()) == p@),
{
    let mut k: usize = 0;
    while k < p.len()
        invariant
            k <= p.len(),
            at + p.len() <= s.len(),
            forall|m: int| 0 <= m < k ==> s@[at + m] == p@[m],
        decreases p.len() - k,
    {
        if s[at + k] != p[k] {
            assert(s@.subrange(at as int, at + p.len())[k as int] != p@[k as int]);
            return false;
        }
        k += 1;
    }
    assert(s@.subrange(at as int, at + p.len()) == p@);
    true
}

/// Where `p` next occurs in `s` at or after `from`.
fn find_from(s: &Vec<char>, p: &Vec<char>, from: usize) -> (r: Option<usize>)
    requires
        from <= s.len(),
        p.len() > 0,
    ensures
        match r {
            Some(i) => find_seq(s@.skip(from as int), p@) == Some(i - from) && from <= i,
            None => find_seq(s@.skip(from as int), p@) is None,
        },
{
    let n = s.len();
    let mut k: usize = from;
    proof {
        lemma_find_seq(s@.skip(from as int), p@);
    }
    while p.len() <= n - k
        invariant
            from <= k <= n,
            n == s.len(),
            p.len() > 0,
            match find_seq(s@.skip(from as int), p@) {
                Some(i) => find_seq(s@.skip(k as int), p@) == Some(i - (k - from)) && i >= k - from,
                None => find_seq(s@.skip(k as int), p@) is None,
            },
        decreases n - k,
    {
        let t = Ghost(s@.skip(k as int));
        assert(t@.take(p.len() as int) == s@.subrange(k as int, k + p.len()));
        if matches_at(s, p, k) {
            return Some(k);
        }
        assert(t@.drop_first() == s@.skip(k + 1));
        proof {
            lemma_find_seq(t@.drop_first(), p@);
        }
        k += 1;
    }
    None
}

/// The fields of a rendered form as (label, value) characters.
fn split_sections(body: &Vec<char>) -> (r: Vec<(Vec<char>, Vec<char>)>)
    ensures
        r@.len() == sections_of(body@).len(),
        forall|k: int|
            0 <= k < r@.len() ==> (#[trigger] r@[k].0@, r@[k].1@) == sections_of(body@)[k],
{
    let normalized = crlf_chars(body);
    let mut padded: Vec<char> = Vec::new();
    padded.push('\n');
    crate::text::append_chars(&mut padded, &normalized);
    let s = padded;
    let n = s.len();
    let mark = vec!['\n', '#', '#', '#', ' '];
    assert(mark@ == heading_mark());
    let ghost whole = s@;
    let ghost mut pieces: Seq<Seq<char>> = Seq::empty();
    let mut started = false;
    let mut out: Vec<(Vec<char>, Vec<char>)> = Vec::new();
    let mut pos: usize = 0;
    assert(s@.skip(0) == s@);
    loop
        invariant_except_break
            pieces + split_on_headings(s@.skip(pos as int)) == split_on_headings(whole),
            started == (pieces.len() > 0),
        invariant
            n == s.len(),
            s@ == whole,
            whole == seq!['\n'] + crlf_to_lf(body@),
            mark@ == heading_mark(),
            pos <= n,
            out@.len() == if pieces.len() == 0 { 0 } else { pieces.len() - 1 },
            forall|k: int| 0 <= k < out@.len() ==> (#[trigger] out@[k].0@, out@[k].1@) == section(pieces[k + 1]),
        ensures
            pieces == split_on_headings(whole),
        decreases n - pos,
    {
        let t = Ghost(s@.skip(pos as int));
        proof {
            lemma_find_seq(t@, heading_mark());
        }
        match find_from(&s, &mark, pos) {
            Some(i) => {
                let piece = slice_chars(&s, pos, i);
                assert(piece@ == t@.take(i - pos));
                assert(t@.skip(i - pos + 5) == s@.skip(i + 5));
                if started {
                    let sec = section_chars(&piece);
                    out.push(sec);
                }
                proof {
                    pieces = pieces.push(piece@);
                }
                started = true;
                pos = i + 5;
            },
            None => {
                let piece = slice_chars(&s, pos, n);
                assert(piece@ == t@);
                if started {
                    let sec = section_chars(&piece);
                    out.push(sec);
                }
                proof {
                    pieces = pieces.push(piece@);
                    assert(pieces == split_on_headings(whole));
                }
                break;
            },
        }
    }
    proof {
        let sp = split_on_headings(whole);
        assert(sp.len() >= 1);
        assert forall|k: int| 0 <= k < out@.len() implies (#[trigger] out@[k].0@, out@[k].1@) == sections_of(body@)[k] by {
            assert(sp.drop_first()[k] == sp[k + 1]);
        }
    }
    out
}

/// One field's label and value from the text between two headings.
fn section_chars(chunk: &Vec<char>) -> (r: (Vec<char>, Vec<char>))
    ensures
        (r.0@, r.1@) == section(chunk@),
{
    let blank = vec!['\n', '\n'];
    assert(blank@ == blank_line());
    proof {
        lemma_find_seq(chunk@, blank_line());
    }
    assert(chunk@.skip(0) == chunk@);
    let (label, value) = match find_from(chunk, &blank, 0) {
        Some(i) => (slice_chars(chunk, 0, i), slice_chars(chunk, i + 2, chunk.len())),
        None => (slice_chars(chunk, 0, chunk.len()), Vec::new()),
    };
    let label = trim_chars(&label);
    let value = trim_chars(&value);
    let none = chars_of(NO_RESPONSE);
    if seq_eq(&value, &none) {
        (label, Vec::new())
    } else {
        (label, value)
    }
}

/// The value of the first field labelled `id`.
fn get(sections: &Vec<(Vec<char>, Vec<char>)>, id: &str, Ghost(secs): Ghost<Seq<(Seq<char>, Seq<char>)>>) -> (r: Option<Vec<char>>)
    requires
        sections@.len() == secs.len(),
        forall|k: int| 0 <= k < secs.len() ==> (#[trigger] sections@[k].0@, sections@[k].1@) == secs[k],
    ensures
        match r {
            Some(v) => field(secs, id@) == Some(v@),
            None => field(secs, id@) is None,
        },
{
    let idc = chars_of(id);
    let mut k: usize = 0;
    assert(secs.skip(0) == secs);
    while k < sections.len()
        invariant
            k <= sections@.len() == secs.len(),
            idc@ == id@,
            forall|m: int| 0 <= m < secs.len() ==> (#[trigger] sections@[m].0@, sections@[m].1@) == secs[m],
            field(secs, id@) == field(secs.skip(k as int), id@),
        decreases sections@.len() - k,
    {
        assert(secs.skip(k as int)[0] == secs[k as int]);
        assert(secs.skip(k as int).drop_first() == secs.skip(k + 1));
        if seq_eq(&sections[k].0, &idc) {
            let v = slice_chars(&sections[k].1, 0, sections[k].1.len());
            assert(v@ == sections@[k as int].1@);
            return Some(v);
        }
        k += 1;
    }
    None
}

/// What the bot reads from one report, before its speed factors are read as
/// numbers: the factor fields are handed over as the text a reporter wrote.
#[derive(Debug, Clone)]
pub struct ReportFields {
    /// How the form names the title (`steam:42`, `exe:Game.exe`).
    pub identity: String,
    pub store: String,
    pub store_id: String,
    pub exe: String,
    pub game_name: String,
    pub factor_min: Option<String>,
    pub factor_common: Option<String>,
    pub factor_max: Option<String>,
    pub outcome: SessionOutcome,
    /// A proposed launch option, kept only when it is a single switch.
    pub launch_argument: Option<String>,
}

/// The contents of a [`ReportFields`].
pub struct FieldsView {
    pub identity: Seq<char>,
    pub store: Seq<char>,
    pub store_id: Seq<char>,
    pub exe: Seq<char>,
    pub game_name: Seq<char>,
    pub factor_min: Option<Seq<char>>,
    pub factor_common: Option<Seq<char>>,
    pub factor_max: Option<Seq<char>>,
    pub outcome: SessionOutcome,
    pub launch_argument: Option<Seq<char>>,
}

pub open spec fn opt_view(o: Option<String>) -> Option<Seq<char>> {
    match o {
        Some(s) => Some(s@),
        None => None,
    }
}

impl View for ReportFields {
    type V = FieldsView;

    open spec fn view(&self) -> FieldsView {
        FieldsView {
            identity: self.identity@,
            store: self.store@,
            store_id: self.store_id@,
            exe: self.exe@,
            game_name: self.game_name@,
            factor_min: opt_view(self.factor_min),
            factor_common: opt_view(self.factor_common),
            factor_max: opt_view(self.factor_max),
            outcome: self.outcome,
            launch_argument: opt_view(self.launch_argument),
        }
    }
}

/// A proposed launch option as the report keeps it: trimmed when it is a
/// switch, dropped otherwise.
pub open spec fn kept_launch_argument(v: Option<Seq<char>>) -> Option<Seq<char>> {
    match v {
        Some(raw) => if is_switch(trim(raw)) { Some(trim(raw)) } else { None },
        None => None,
    }
}

/// What a rendered report says: nothing unless its identity field names a
/// title the form could have written; every other field degrades to a
/// conservative default (an empty name, a run that was not clean, no launch
/// option).
pub open spec fn read_report(body: Seq<char>) -> Option<FieldsView> {
    let secs = sections_of(body);
    match field(secs, FIELD_GAME_IDENTITY@) {
        None => None,
        Some(raw) => match identity_parts(raw) {
            None => None,
            Some((store, store_id, exe)) => match key_of(store, store_id, exe) {
                Err(_) => None,
                Ok(identity) => Some(FieldsView {
                    identity,
                    store,
                    store_id,
                    exe,
                    game_name: match field(secs, FIELD_GAME_NAME@) {
                        Some(v) => v,
                        None => Seq::empty(),
                    },
                    factor_min: field(secs, FIELD_FACTOR_MIN@),
                    factor_common: field(secs, FIELD_FACTOR_COMMON@),
                    factor_max: field(secs, FIELD_FACTOR_MAX@),
                    outcome: SessionOutcome::read(
                        match field(secs, FIELD_SESSION_OUTCOME@) {
                            Some(v) => v,
                            None => Seq::empty(),
                        },
                    ),
                    launch_argument: kept_launch_argument(field(secs, FIELD_LAUNCH_ARGUMENT@)),
                }),
            },
        },
    }
}

fn opt_string(v: Option<Vec<char>>) -> (r: Option<String>)
    ensures
        opt_view(r) == match v {
            Some(c) => Some(c@),
            None => None::<Seq<char>>,
        },
{
    match v {
        Some(c) => Some(string_of(&c)),
        None => None,
    }
}

/// `None` only when the report names no title the form could have written;
/// any other field degrades to a conservative default, so one malformed value
/// never discards the rest of the evidence.
pub fn parse_issue_body(body: &str) -> (r: Option<ReportFields>)
    ensures
        match r {
            Some(f) => read_report(body@) == Some(f@),
            None => read_report(body@) is None,
        },
{
    let chars = chars_of(body);
    let sections = split_sections(&chars);
    let ghost secs = sections_of(body@);
    let raw = match get(&sections, FIELD_GAME_IDENTITY, Ghost(secs)) {
        Some(raw) => raw,
        None => {
            return None;
        },
    };
    let (store, store_id, exe) = match parse_identity_chars(&raw) {
        Some(parts) => parts,
        None => {
            return None;
        },
    };
    let identity = match identity_key(store.as_str(), store_id.as_str(), exe.as_str()) {
        Ok(k) => k,
        Err(_) => {
            return None;
        },
    };
    let game_name = match get(&sections, FIELD_GAME_NAME, Ghost(secs)) {
        Some(v) => string_of(&v),
        None => String::new(),
    };
    let outcome_text = match get(&sections, FIELD_SESSION_OUTCOME, Ghost(secs)) {
        Some(v) => string_of(&v),
        None => String::new(),
    };
    let outcome = SessionOutcome::parse(outcome_text.as_str());
    let launch_argument = match get(&sections, FIELD_LAUNCH_ARGUMENT, Ghost(secs)) {
        Some(v) => clean_launch_chars(&v),
        None => None,
    };
    let factor_min = opt_string(get(&sections, FIELD_FACTOR_MIN, Ghost(secs)));
    let factor_common = opt_string(get(&sections, FIELD_FACTOR_COMMON, Ghost(secs)));
    let factor_max = opt_string(get(&sections, FIELD_FACTOR_MAX, Ghost(secs)));
    let f = ReportFields {
        identity,
        store,
        store_id,
        exe,
        game_name,
        factor_min,
        factor_common,
        factor_max,
        outcome,
        launch_argument,
    };
    assert(f@ == read_report(body@)->Some_0);
    Some(f)
}

/// What a read report holds, field by field: a run counts as clean only when
/// its outcome field says `clean_unload`; a launch option is kept only as the
/// switch its field holds, trimmed; the name is the name field, else empty;
/// the factor fields are handed over as written.
pub proof fn lemma_report_fields(body: Seq<char>)
    requires
        read_report(body) is Some,
    ensures
        ({
            let v = read_report(body)->Some_0;
            let secs = sections_of(body);
            &&& (v.outcome == SessionOutcome::CleanUnload <==> field(secs, FIELD_SESSION_OUTCOME@) == Some(
                "clean_unload"@,
            ))
            &&& v.launch_argument == match field(secs, FIELD_LAUNCH_ARGUMENT@) {
                Some(raw) => if is_switch(trim(raw)) {
                    Some(trim(raw))
                } else {
                    None
                },
                None => None,
            }
            &&& v.game_name == match field(secs, FIELD_GAME_NAME@) {
                Some(n) => n,
                None => Seq::<char>::empty(),
            }
            &&& v.factor_min == field(secs, FIELD_FACTOR_MIN@)
            &&& v.factor_common == field(secs, FIELD_FACTOR_COMMON@)
            &&& v.factor_max == field(secs, FIELD_FACTOR_MAX@)
        }),
{
    let secs = sections_of(body);
    let w = match field(secs, FIELD_SESSION_OUTCOME@) {
        Some(x) => x,
        None => Seq::<char>::empty(),
    };
    lemma_words_read_back(
        crate::form::StatusSeen::Unknown,
        crate::form::AudioPolicySeen::NoPolicy,
        SessionOutcome::CleanUnload,
        crate::form::DurationBucket::UnderFiveMin,
        w,
    );
    reveal_strlit("clean_unload");
}

/// What the aggregation uses of one report, its speed factors read as
/// numbers and held as order keys ([`crate::speed`]).
#[derive(Debug, Clone)]
pub struct Report {
    pub identity: String,
    pub store: String,
    pub store_id: String,
    pub exe: String,
    pub game_name: String,
    pub factor_min: SpeedKey,
    pub factor_common: SpeedKey,
    pub factor_max: SpeedKey,
    pub outcome: SessionOutcome,
    pub launch_argument: Option<String>,
}

impl ReportFields {
    /// The report these fields make once its factors are read.
    pub fn with_factors(self, factor_min: SpeedKey, factor_common: SpeedKey, factor_max: SpeedKey) -> (r: Report)
        ensures
            r.identity@ == self.identity@,
            r.store@ == self.store@,
            r.store_id@ == self.store_id@,
            r.exe@ == self.exe@,
            r.game_name@ == self.game_name@,
            r.factor_min == factor_min,
            r.factor_common == factor_common,
            r.factor_max == factor_max,
            r.outcome == self.outcome,
            opt_view(r.launch_argument) == opt_view(self.launch_argument),
    {
        Report {
            identity: self.identity,
            store: self.store,
            store_id: self.store_id,
            exe: self.exe,
            game_name: self.game_name,
            factor_min,
            factor_common,
            factor_max,
            outcome: self.outcome,
            launch_argument: self.launch_argument,
        }
    }
}

} // verus!
