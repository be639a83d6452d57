//! The community report's form: the ids of its fields, the words each field
//! may hold, and how a title's identity is written in it. The app writes a
//! report with these, and the aggregation bot reads one back with the same.

use vstd::prelude::*;
use crate::ids::{is_valid_exe, is_valid_id, valid_exe_chars, valid_id_chars, is_id_char};
use crate::store_kind::{Store, lemma_store_spelling_roundtrip};
use crate::text::{
    append_str, chars_of, find_char, lemma_find_char, lemma_find_char_at, position_of, same_text,
    seq_eq, slice_chars, string_of,
};

verus! {

pub const FIELD_GAME_IDENTITY: &'static str = "game_identity";
pub const FIELD_GAME_NAME: &'static str = "game_name";
pub const FIELD_APP_VERSION: &'static str = "app_version";
pub const FIELD_STATUS_SEEN: &'static str = "status_seen";
pub const FIELD_FACTOR_MIN: &'static str = "factor_min";
pub const FIELD_FACTOR_COMMON: &'static str = "factor_common";
pub const FIELD_FACTOR_MAX: &'static str = "factor_max";
pub const FIELD_CODEC_EVENTS: &'static str = "codec_events";
pub const FIELD_CUTSCENE_SPEED: &'static str = "cutscene_speed_applied";
pub const FIELD_AUDIO_POLICY: &'static str = "audio_policy";
pub const FIELD_SESSION_OUTCOME: &'static str = "session_outcome";
pub const FIELD_DURATION: &'static str = "duration_bucket";
pub const FIELD_LAUNCH_ARGUMENT: &'static str = "launch_argument";
pub const FIELD_NOTES: &'static str = "notes";
pub const FIELD_DIAGNOSTIC: &'static str = "diagnostic_tail";

#[derive(Debug, Clone, Copy, PartialEq, Eq, Structural)]
pub enum StatusSeen {
    Verified,
    Partial,
    Blocked,
    Unknown,
}

impl StatusSeen {
    /// The word the form writes for a status.
    pub open spec fn word(self) -> Seq<char> {
        match self {
            StatusSeen::Verified => "VERIFIED"@,
            StatusSeen::Partial => "PARTIAL"@,
            StatusSeen::Blocked => "BLOCKED"@,
            StatusSeen::Unknown => "UNKNOWN"@,
        }
    }

    /// The status a word names; anything unrecognised is `Unknown`.
    pub open spec fn read(s: Seq<char>) -> StatusSeen {
        if s == "VERIFIED"@ {
            StatusSeen::Verified
        } else if s == "PARTIAL"@ {
            StatusSeen::Partial
        } else if s == "BLOCKED"@ {
            StatusSeen::Blocked
        } else {
            StatusSeen::Unknown
        }
    }

    pub fn as_str(self) -> (s: &'static str)
        ensures
            s@ == self.word(),
    {
        match self {
            StatusSeen::Verified => "VERIFIED",
            StatusSeen::Partial => "PARTIAL",
            StatusSeen::Blocked => "BLOCKED",
            StatusSeen::Unknown => "UNKNOWN",
        }
    }

    /// The inverse of [`Self::as_str`]. Anything unrecognised is `Unknown`,
    /// never a guess at VERIFIED.
    pub fn parse(s: &str) -> (r: StatusSeen)
        ensures
            r == StatusSeen::read(s@),
    {
        if same_text(s, "VERIFIED") {
            StatusSeen::Verified
        } else if same_text(s, "PARTIAL") {
            StatusSeen::Partial
        } else if same_text(s, "BLOCKED") {
            StatusSeen::Blocked
        } else {
            StatusSeen::Unknown
        }
    }
}

#[derive(Debug, Clone, Copy, PartialEq, Eq, Structural)]
pub enum AudioPolicySeen {
    NoPolicy,
    Mute,
    Duck,
}

impl AudioPolicySeen {
    pub open spec fn word(self) -> Seq<char> {
        match self {
            AudioPolicySeen::NoPolicy => "none"@,
            AudioPolicySeen::Mute => "mute"@,
            AudioPolicySeen::Duck => "duck"@,
        }
    }

    /// The policy a word names; anything unrecognised is `None`.
    pub open spec fn read(s: Seq<char>) -> AudioPolicySeen {
        if s == "mute"@ {
            AudioPolicySeen::Mute
        } else if s == "duck"@ {
            AudioPolicySeen::Duck
        } else {
            AudioPolicySeen::NoPolicy
        }
    }

    pub fn as_str(self) -> (s: &'static str)
        ensures
            s@ == self.word(),
    {
        match self {
            AudioPolicySeen::NoPolicy => "none",
            AudioPolicySeen::Mute => "mute",
            AudioPolicySeen::Duck => "duck",
        }
    }

    pub fn parse(s: &str) -> (r: AudioPolicySeen)
        ensures
            r == AudioPolicySeen::read(s@),
    {
        if same_text(s, "mute") {
            AudioPolicySeen::Mute
        } else if same_text(s, "duck") {
            AudioPolicySeen::Duck
        } else {
            AudioPolicySeen::NoPolicy
        }
    }
}

#[derive(Debug, Clone, Copy, PartialEq, Eq, Structural)]
pub enum SessionOutcome {
    CleanUnload,
    CrashOrKill,
}

impl SessionOutcome {
    pub open spec fn word(self) -> Seq<char> {
        match self {
            SessionOutcome::CleanUnload => "clean_unload"@,
            SessionOutcome::CrashOrKill => "crash_or_kill"@,
        }
    }

    /// The outcome a word names; only `clean_unload` is a clean run.
    pub open spec fn read(s: Seq<char>) -> SessionOutcome {
        if s == "clean_unload"@ {
            SessionOutcome::CleanUnload
        } else {
            SessionOutcome::CrashOrKill
        }
    }

    pub fn as_str(self) -> (s: &'static str)
        ensures
            s@ == self.word(),
    {
        match self {
            SessionOutcome::CleanUnload => "clean_unload",
            SessionOutcome::CrashOrKill => "crash_or_kill",
        }
    }

    /// Ambiguous or unrecognised input is never counted as a clean run.
    pub fn parse(s: &str) -> (r: SessionOutcome)
        ensures
            r == SessionOutcome::read(s@),
    {
        if same_text(s, "clean_unload") {
            SessionOutcome::CleanUnload
        } else {
            SessionOutcome::CrashOrKill
        }
    }
}

/// Coarse duration so a report never carries a precise, fingerprintable
/// second count.
#[derive(Debug, Clone, Copy, PartialEq, Eq, Structural)]
pub enum DurationBucket {
    UnderFiveMin,
    FiveToFifteenMin,
    FifteenToSixtyMin,
    OverSixtyMin,
}

impl DurationBucket {
    pub open spec fn word(self) -> Seq<char> {
        match self {
            DurationBucket::UnderFiveMin => "under_5m"@,
            DurationBucket::FiveToFifteenMin => "5_15m"@,
            DurationBucket::FifteenToSixtyMin => "15_60m"@,
            DurationBucket::OverSixtyMin => "over_60m"@,
        }
    }

    /// The bucket a word names; anything unrecognised is the 15–60 minute
    /// bucket.
    pub open spec fn read(s: Seq<char>) -> DurationBucket {
        if s == "under_5m"@ {
            DurationBucket::UnderFiveMin
        } else if s == "5_15m"@ {
            DurationBucket::FiveToFifteenMin
        } else if s == "over_60m"@ {
            DurationBucket::OverSixtyMin
        } else {
            DurationBucket::FifteenToSixtyMin
        }
    }

    /// The bucket a number of seconds falls in: under 300, under 900, under
    /// 3600, or more.
    pub open spec fn of_secs(secs: u64) -> DurationBucket {
        if secs < 300 {
            DurationBucket::UnderFiveMin
        } else if secs < 900 {
            DurationBucket::FiveToFifteenMin
        } else if secs < 3600 {
            DurationBucket::FifteenToSixtyMin
        } else {
            DurationBucket::OverSixtyMin
        }
    }

    pub fn as_str(self) -> (s: &'static str)
        ensures
            s@ == self.word(),
    {
        match self {
            DurationBucket::UnderFiveMin => "under_5m",
            DurationBucket::FiveToFifteenMin => "5_15m",
            DurationBucket::FifteenToSixtyMin => "15_60m",
            DurationBucket::OverSixtyMin => "over_60m",
        }
    }

    /// From a raw duration, for callers that only have seconds on hand.
    pub fn from_secs(secs: u64) -> (r: DurationBucket)
        ensures
            r == DurationBucket::of_secs(secs),
    {
        if secs <= 299 {
            DurationBucket::UnderFiveMin
        } else if secs <= 899 {
            DurationBucket::FiveToFifteenMin
        } else if secs <= 3599 {
            DurationBucket::FifteenToSixtyMin
        } else {
            DurationBucket::OverSixtyMin
        }
    }

    pub fn parse(s: &str) -> (r: DurationBucket)
        ensures
            r == DurationBucket::read(s@),
    {
        if same_text(s, "under_5m") {
            DurationBucket::UnderFiveMin
        } else if same_text(s, "5_15m") {
            DurationBucket::FiveToFifteenMin
        } else if same_text(s, "over_60m") {
            DurationBucket::OverSixtyMin
        } else {
            DurationBucket::FifteenToSixtyMin
        }
    }
}

/// Every word a field holds is read back as itself, and an unrecognised
/// word is never read as VERIFIED or as a clean run.
pub proof fn lemma_words_read_back(
    s: StatusSeen,
    a: AudioPolicySeen,
    o: SessionOutcome,
    d: DurationBucket,
    w: Seq<char>,
)
    ensures
        StatusSeen::read(s.word()) == s,
        AudioPolicySeen::read(a.word()) == a,
        SessionOutcome::read(o.word()) == o,
        DurationBucket::read(d.word()) == d,
        StatusSeen::read(w) == StatusSeen::Verified ==> w == StatusSeen::Verified.word(),
        SessionOutcome::read(w) == SessionOutcome::CleanUnload ==> w == SessionOutcome::CleanUnload.word(),
{
    reveal_strlit("VERIFIED");
    reveal_strlit("PARTIAL");
    reveal_strlit("BLOCKED");
    reveal_strlit("UNKNOWN");
    reveal_strlit("none");
    reveal_strlit("mute");
    reveal_strlit("duck");
    reveal_strlit("clean_unload");
    reveal_strlit("crash_or_kill");
    reveal_strlit("under_5m");
    reveal_strlit("5_15m");
    reveal_strlit("15_60m");
    reveal_strlit("over_60m");
    assert("VERIFIED"@.len() != "PARTIAL"@.len() && "VERIFIED"@.len() != "BLOCKED"@.len());
    assert("UNKNOWN"@.len() != "VERIFIED"@.len());
    assert("PARTIAL"@[0] != "BLOCKED"@[0]);
    assert("UNKNOWN"@[0] != "PARTIAL"@[0] && "UNKNOWN"@[0] != "BLOCKED"@[0]);
    assert("mute"@[0] != "duck"@[0] && "none"@[0] != "mute"@[0] && "none"@[0] != "duck"@[0]);
    assert("clean_unload"@.len() != "crash_or_kill"@.len());
    assert("under_5m"@.len() != "5_15m"@.len() && "under_5m"@[0] != "over_60m"@[0]);
    assert("5_15m"@.len() != "over_60m"@.len());
    assert("15_60m"@.len() != "under_5m"@.len() && "15_60m"@.len() != "5_15m"@.len());
    assert("15_60m"@.len() != "over_60m"@.len());
}

#[derive(Debug, Clone, Copy, PartialEq, Eq, Structural)]
pub enum IdentityError {
    /// Neither a store identity nor an executable name.
    NoIdentity,
    /// A store or a value outside the shapes [`crate::ids`] allows.
    Malformed,
}

/// The executable rung of a title's identity: `exe:<name>`.
pub open spec fn exe_key(exe: Seq<char>) -> Result<Seq<char>, IdentityError> {
    if exe.len() == 0 {
        Err(IdentityError::NoIdentity)
    } else if !is_valid_exe(exe) {
        Err(IdentityError::Malformed)
    } else {
        Ok("exe"@.push(':') + exe)
    }
}

/// How a report names a title: `<store>:<id>` for a portable store's valid
/// id, else `exe:<name>` for a valid executable name.
pub open spec fn key_of(store: Seq<char>, store_id: Seq<char>, exe: Seq<char>) -> Result<Seq<char>, IdentityError> {
    if store.len() > 0 && store_id.len() > 0 {
        match Store::spelled_by(store) {
            None => Err(IdentityError::Malformed),
            Some(st) => if st != Store::Local {
                if is_valid_id(store_id) {
                    Ok(st.spelling().push(':') + store_id)
                } else {
                    Err(IdentityError::Malformed)
                }
            } else {
                exe_key(exe)
            },
        }
    } else {
        exe_key(exe)
    }
}

/// What a written identity names: `(store, id, "")` or `("", "", exe)`.
pub open spec fn identity_parts(raw: Seq<char>) -> Option<(Seq<char>, Seq<char>, Seq<char>)> {
    match find_char(raw, ':') {
        None => None,
        Some(i) => {
            let kind = raw.take(i);
            let rest = raw.skip(i + 1);
            if kind == "exe"@ {
                if is_valid_exe(rest) {
                    Some((Seq::empty(), Seq::empty(), rest))
                } else {
                    None
                }
            } else {
                match Store::spelled_by(kind) {
                    Some(st) => if st != Store::Local && is_valid_id(rest) {
                        Some((st.spelling(), rest, Seq::empty()))
                    } else {
                        None
                    },
                    None => None,
                }
            }
        },
    }
}

fn exe_rung(exe: &str) -> (r: Result<String, IdentityError>)
    ensures
        match r {
            Ok(k) => exe_key(exe@) == Ok::<Seq<char>, IdentityError>(k@),
            Err(e) => exe_key(exe@) == Err::<Seq<char>, IdentityError>(e),
        },
{
    let v = chars_of(exe);
    if v.len() == 0 {
        return Err(IdentityError::NoIdentity);
    }
    if !valid_exe_chars(&v) {
        return Err(IdentityError::Malformed);
    }
    let mut out: Vec<char> = Vec::new();
    append_str(&mut out, "exe");
    out.push(':');
    crate::text::append_chars(&mut out, &v);
    Ok(string_of(&out))
}

/// How a report names a title: a store's id that names it on every machine
/// (`steam:1091500`), else its executable's file name (`exe:Game.exe`). A
/// store id that names the title on one machine only is not used.
pub fn identity_key(store: &str, store_id: &str, exe: &str) -> (r: Result<String, IdentityError>)
    ensures
        match r {
            Ok(k) => key_of(store@, store_id@, exe@) == Ok::<Seq<char>, IdentityError>(k@),
            Err(e) => key_of(store@, store_id@, exe@) == Err::<Seq<char>, IdentityError>(e),
        },
{
    let store_chars = chars_of(store);
    let id_chars = chars_of(store_id);
    if store_chars.len() > 0 && id_chars.len() > 0 {
        let st = match Store::parse(store) {
            Some(st) => st,
            None => {
                return Err(IdentityError::Malformed);
            },
        };
        if st.is_portable() {
            if !valid_id_chars(&id_chars) {
                return Err(IdentityError::Malformed);
            }
            let mut out: Vec<char> = Vec::new();
            append_str(&mut out, st.as_str());
            out.push(':');
            crate::text::append_chars(&mut out, &id_chars);
            return Ok(string_of(&out));
        }
    }
    exe_rung(exe)
}

/// The inverse of [`identity_key`]: `(store, store id, "")` or
/// `("", "", executable)`. Anything [`identity_key`] would not have written
/// is `None`.
pub fn parse_identity(raw: &str) -> (r: Option<(String, String, String)>)
    ensures
        match r {
            Some((a, b, c)) => identity_parts(raw@) == Some((a@, b@, c@)),
            None => identity_parts(raw@) is None,
        },
{
    let v = chars_of(raw);
    parse_identity_chars(&v)
}

pub fn parse_identity_chars(v: &Vec<char>) -> (r: Option<(String, String, String)>)
    ensures
        match r {
            Some((a, b, c)) => identity_parts(v@) == Some((a@, b@, c@)),
            None => identity_parts(v@) is None,
        },
{
    proof {
        lemma_find_char(v@, ':');
    }
    let i = match position_of(v, ':') {
        Some(i) => i,
        None => {
            return None;
        },
    };
    let kind = slice_chars(v, 0, i);
    let rest = slice_chars(v, i + 1, v.len());
    assert(kind@ == v@.take(i as int));
    assert(rest@ == v@.skip(i + 1));
    let exe_word = chars_of("exe");
    if seq_eq(&kind, &exe_word) {
        if valid_exe_chars(&rest) {
            return Some((String::new(), String::new(), string_of(&rest)));
        }
        return None;
    }
    let kind_text = string_of(&kind);
    let st = match Store::parse(kind_text.as_str()) {
        Some(st) => st,
        None => {
            return None;
        },
    };
    if st.is_portable() && valid_id_chars(&rest) {
        let name = chars_of(st.as_str());
        Some((string_of(&name), string_of(&rest), String::new()))
    } else {
        None
    }
}

/// A valid id holds no `:`.
proof fn lemma_id_shape(s: Seq<char>)
    requires
        is_valid_id(s),
    ensures
        forall|k: int| 0 <= k < s.len() ==> #[trigger] s[k] != ':',
{
    assert forall|k: int| 0 <= k < s.len() implies #[trigger] s[k] != ':' by {
        assert(is_id_char(s[k]));
    }
}

proof fn lemma_spelling_shape(st: Store)
    ensures
        forall|k: int| 0 <= k < st.spelling().len() ==> #[trigger] st.spelling()[k] != ':',
        st.spelling() != "exe"@,
        st.spelling().len() > 0,
{
    reveal_strlit("steam");
    reveal_strlit("epic");
    reveal_strlit("gog");
    reveal_strlit("gdk");
    reveal_strlit("local");
    reveal_strlit("exe");
    assert("steam"@.len() != "exe"@.len() && "epic"@.len() != "exe"@.len() && "local"@.len() != "exe"@.len());
    assert("gog"@[0] != "exe"@[0] && "gdk"@[0] != "exe"@[0]);
}

/// What a key says, read back from `prefix:rest`.
proof fn lemma_split_key(prefix: Seq<char>, rest: Seq<char>)
    requires
        forall|k: int| 0 <= k < prefix.len() ==> #[trigger] prefix[k] != ':',
    ensures
        find_char(prefix.push(':') + rest, ':') == Some(prefix.len() as int),
        (prefix.push(':') + rest).take(prefix.len() as int) == prefix,
        (prefix.push(':') + rest).skip(prefix.len() as int + 1) == rest,
{
    let s = prefix.push(':') + rest;
    assert forall|k: int| 0 <= k < prefix.len() implies s[k] != ':' by {
        assert(s[k] == prefix[k]);
    }
    lemma_find_char_at(s, ':', prefix.len() as int);
    assert(s.take(prefix.len() as int) == prefix);
    assert(s.skip(prefix.len() as int + 1) == rest);
}

/// Reading a key back undoes writing it: an identity written from a store id
/// reads back as that store and id, one written from an executable name reads
/// back as that name, exactly as written.
pub proof fn lemma_identity_roundtrip(store: Seq<char>, store_id: Seq<char>, exe: Seq<char>)
    requires
        key_of(store, store_id, exe) is Ok,
    ensures
        ({
            let key = key_of(store, store_id, exe)->Ok_0;
            if store.len() > 0 && store_id.len() > 0 && Store::spelled_by(store) is Some
                && Store::spelled_by(store)->Some_0 != Store::Local {
                identity_parts(key) == Some((store, store_id, Seq::<char>::empty()))
            } else {
                identity_parts(key) == Some((Seq::<char>::empty(), Seq::<char>::empty(), exe))
            }
        }),
{
    reveal_strlit("exe");
    if store.len() > 0 && store_id.len() > 0 && Store::spelled_by(store) is Some
        && Store::spelled_by(store)->Some_0 != Store::Local {
        let st = Store::spelled_by(store)->Some_0;
        lemma_store_spelling_roundtrip(st, store);
        lemma_spelling_shape(st);
        lemma_id_shape(store_id);
        lemma_split_key(st.spelling(), store_id);
    } else {
        let e = "exe"@;
        assert(forall|k: int| 0 <= k < e.len() ==> #[trigger] e[k] != ':');
        lemma_split_key(e, exe);
    }
}

/// The stores whose ids name a title on every machine.
pub open spec fn portable_store(store: Seq<char>) -> bool {
    store == "steam"@ || store == "epic"@ || store == "gog"@ || store == "gdk"@
}

/// What a key is: a portable store's name, `:` and a valid id of that store,
/// whenever both are given; else `exe:` and a valid executable name. A store
/// id a `local` store gives is never used, and without an executable name
/// there is no key.
pub proof fn lemma_what_a_key_is(store: Seq<char>, store_id: Seq<char>, exe: Seq<char>)
    ensures
        portable_store(store) && is_valid_id(store_id) ==> key_of(store, store_id, exe) == Ok::<Seq<char>, IdentityError>(
            store + ":"@ + store_id,
        ),
        portable_store(store) && store_id.len() > 0 && !is_valid_id(store_id) ==> key_of(store, store_id, exe)
            == Err::<Seq<char>, IdentityError>(IdentityError::Malformed),
        !(portable_store(store) && store_id.len() > 0) && (store.len() == 0 || store_id.len() == 0 || store
            == "local"@) ==> {
            &&& is_valid_exe(exe) ==> key_of(store, store_id, exe) == Ok::<Seq<char>, IdentityError>(
                "exe:"@ + exe,
            )
            &&& exe.len() == 0 ==> key_of(store, store_id, exe) == Err::<Seq<char>, IdentityError>(
                IdentityError::NoIdentity,
            )
            &&& exe.len() > 0 && !is_valid_exe(exe) ==> key_of(store, store_id, exe) == Err::<
                Seq<char>,
                IdentityError,
            >(IdentityError::Malformed)
        },
        key_of(store, store_id, exe) is Ok ==> {
            let k = key_of(store, store_id, exe)->Ok_0;
            ||| portable_store(store) && is_valid_id(store_id) && k == store + ":"@ + store_id
            ||| is_valid_exe(exe) && k == "exe:"@ + exe
        },
{
    reveal_strlit(":");
    reveal_strlit("exe");
    reveal_strlit("exe:");
    reveal_strlit("local");
    reveal_strlit("steam");
    reveal_strlit("epic");
    reveal_strlit("gog");
    reveal_strlit("gdk");
    assert("exe"@.push(':') =~= "exe:"@);
    if store.len() > 0 && store_id.len() > 0 {
        match Store::spelled_by(store) {
            Some(st) => {
                lemma_store_spelling_roundtrip(st, store);
                assert(st.spelling().push(':') + store_id =~= store + ":"@ + store_id);
            },
            None => {},
        }
    }
    assert forall|x: Seq<char>| #![auto] "exe"@.push(':') + x =~= "exe:"@ + x by {}
}

/// What is read back is only what could have been written: a text that reads
/// as an identity is exactly the key that identity is written as.
pub proof fn lemma_read_back_is_writable(raw: Seq<char>)
    requires
        identity_parts(raw) is Some,
    ensures
        ({
            let (a, b, c) = identity_parts(raw)->Some_0;
            key_of(a, b, c) == Ok::<Seq<char>, IdentityError>(raw)
        }),
{
    reveal_strlit("exe");
    let (a, b, c) = identity_parts(raw)->Some_0;
    let i = find_char(raw, ':')->Some_0;
    lemma_find_char(raw, ':');
    let rest = raw.skip(i + 1);
    assert(raw == raw.take(i).push(':') + rest);
    if raw.take(i) == "exe"@ {
        assert(a.len() == 0 && c == rest);
        assert(key_of(a, b, c) == exe_key(rest));
        assert("exe"@.push(':') + rest == raw);
    } else {
        let st = Store::spelled_by(raw.take(i))->Some_0;
        lemma_store_spelling_roundtrip(st, raw.take(i));
        lemma_spelling_shape(st);
        assert(a == st.spelling() && b == rest && a == raw.take(i));
        assert(a.len() > 0 && b.len() > 0);
        assert(Store::spelled_by(a) == Some(st));
        assert(key_of(a, b, c) == Ok::<Seq<char>, IdentityError>(a.push(':') + b));
    }
}

} // verus!
