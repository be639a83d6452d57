//! The shape of one session's compatibility report as the app fills it in,
//! the field ids the form gives it, and the redaction pass every free-text
//! field goes through before it leaves the machine.

use vstd::prelude::*;
use crate::speed::SpeedKey;
use crate::text::{append_chars, append_str, chars_of, string_of, take_at_most, trim, trim_chars};

pub use crate::form::{AudioPolicySeen, DurationBucket, SessionOutcome, StatusSeen};
pub use crate::form::{
    FIELD_APP_VERSION, FIELD_AUDIO_POLICY, FIELD_CODEC_EVENTS, FIELD_CUTSCENE_SPEED,
    FIELD_DIAGNOSTIC, FIELD_DURATION, FIELD_FACTOR_COMMON, FIELD_FACTOR_MAX, FIELD_FACTOR_MIN,
    FIELD_GAME_IDENTITY, FIELD_GAME_NAME, FIELD_NOTES, FIELD_SESSION_OUTCOME, FIELD_STATUS_SEEN,
};

verus! {

pub const MAX_NOTES_CHARS: usize = 500;
pub const MAX_DIAGNOSTIC_CHARS: usize = 2000;

/// What replaces a user-profile path segment.
pub const REDACTED: &'static str = "<redacted-path>";

/// A single session's compatibility evidence. No pid, no path, no username,
/// no machine id. Speed factors are held as their order keys
/// ([`crate::speed`]).
#[derive(Debug, Clone)]
pub struct SessionReport {
    pub store: String,
    pub store_id: String,
    /// Exe file NAME only (the weak identity rung) — never a path.
    pub exe: String,
    pub game_name: String,
    pub app_version: String,
    pub status_seen: StatusSeen,
    pub factor_min: SpeedKey,
    pub factor_common: SpeedKey,
    pub factor_max: SpeedKey,
    pub codec_events: u32,
    pub cutscene_speed_applied: Option<SpeedKey>,
    pub audio_policy: AudioPolicySeen,
    pub outcome: SessionOutcome,
    pub duration: DurationBucket,
    pub notes: Option<String>,
    pub diagnostic_tail: Option<String>,
}

impl SessionReport {
    /// The grouping key: `store:id` when both are given, else `exe:name`.
    pub open spec fn key(self) -> Seq<char> {
        if self.store@.len() > 0 && self.store_id@.len() > 0 {
            self.store@.push(':') + self.store_id@
        } else {
            "exe"@.push(':') + self.exe@
        }
    }

    /// The grouping key: `"steam:1091500"` / `"exe:Foo.exe"`. Never
    /// validated here: the parser already refused anything malformed before
    /// a report exists.
    pub fn identity_key(&self) -> (r: String)
        ensures
            r@ == self.key(),
    {
        let store = chars_of(self.store.as_str());
        let id = chars_of(self.store_id.as_str());
        let mut out: Vec<char> = Vec::new();
        if store.len() > 0 && id.len() > 0 {
            append_chars(&mut out, &store);
            out.push(':');
            append_chars(&mut out, &id);
        } else {
            append_str(&mut out, "exe");
            out.push(':');
            append_str(&mut out, self.exe.as_str());
        }
        string_of(&out)
    }
}

pub open spec fn is_sep(c: char) -> bool {
    c == '/' || c == '\\'
}

pub open spec fn ascii_lower(c: char) -> char {
    if 'A' <= c && c <= 'Z' {
        ((c as u8) + 32u8) as char
    } else {
        c
    }
}

/// `w` stands at `at` in `s`, ASCII letters compared without case.
pub open spec fn starts_with_ci(s: Seq<char>, at: int, w: Seq<char>) -> bool {
    &&& 0 <= at
    &&& at + w.len() <= s.len()
    &&& forall|k: int| 0 <= k < w.len() ==> ascii_lower(#[trigger] s[at + k]) == w[k]
}

pub open spec fn users_word() -> Seq<char> {
    seq!['u', 's', 'e', 'r', 's']
}

pub open spec fn home_word() -> Seq<char> {
    seq!['h', 'o', 'm', 'e']
}

/// Where a profile directory word (`users`, `home`) that starts a path
/// segment at `i` ends.
pub open spec fn profile_word_end(s: Seq<char>, i: int) -> Option<int> {
    if i == 0 || is_sep(s[i - 1]) {
        if starts_with_ci(s, i, users_word()) {
            Some(i + 5)
        } else if starts_with_ci(s, i, home_word()) {
            Some(i + 4)
        } else {
            None
        }
    } else {
        None
    }
}

/// The first separator at or after `j`, or the end of the text.
pub open spec fn next_sep(s: Seq<char>, j: int) -> int
    decreases s.len() - j,
{
    if j >= s.len() || is_sep(s[j]) {
        j
    } else {
        next_sep(s, j + 1)
    }
}

pub proof fn lemma_next_sep(s: Seq<char>, j: int)
    ensures
        next_sep(s, j) >= j,
        j <= s.len() ==> next_sep(s, j) <= s.len(),
        forall|k: int| j <= k < next_sep(s, j) ==> !is_sep(#[trigger] s[k]),
    decreases s.len() - j,
{
    if !(j >= s.len() || is_sep(s[j])) {
        lemma_next_sep(s, j + 1);
    }
}

/// Where the redaction that starts at `i` ends: a profile directory word
/// followed by a separator hides the next segment, up to the separator after
/// it (or the end of the text).
pub open spec fn redaction_end(s: Seq<char>, i: int) -> Option<int> {
    match profile_word_end(s, i) {
        Some(a) => if a < s.len() && is_sep(s[a]) {
            Some(next_sep(s, a + 1))
        } else {
            None
        },
        None => None,
    }
}

/// `s[i..]` with every user-profile segment redacted.
pub open spec fn scrubbed_from(s: Seq<char>, i: int) -> Seq<char>
    decreases s.len() - i,
{
    if i < 0 || i >= s.len() {
        Seq::empty()
    } else {
        match redaction_end(s, i) {
            Some(j) => {
                proof {
                    lemma_next_sep(s, profile_word_end(s, i)->Some_0 + 1);
                }
                REDACTED@ + scrubbed_from(s, j)
            },
            None => seq![s[i]] + scrubbed_from(s, i + 1),
        }
    }
}

/// The text with every user-profile path segment redacted.
pub open spec fn scrubbed(s: Seq<char>) -> Seq<char> {
    scrubbed_from(s, 0)
}

fn sep(c: char) -> (r: bool)
    ensures
        r == is_sep(c),
{
    c == '/' || c == '\\'
}

fn lower(c: char) -> (r: char)
    ensures
        r == ascii_lower(c),
{
    if 'A' <= c && c <= 'Z' {
        ((c as u8) + 32u8) as char
    } else {
        c
    }
}

fn starts_with_word(chars: &Vec<char>, at: usize, word: &Vec<char>) -> (r: bool)
    ensures
        r == starts_with_ci(chars@, at as int, word@),
{
    if word.len() > chars.len() || at > chars.len() - word.len() {
        return false;
    }
    let mut k: usize = 0;
    while k < word.len()
        invariant
            k <= word.len(),
            at + word.len() <= chars.len(),
            forall|m: int| 0 <= m < k ==> ascii_lower(#[trigger] chars@[at + m]) == word@[m],
        decreases word.len() - k,
    {
        if lower(chars[at + k]) != word[k] {
            return false;
        }
        k += 1;
    }
    true
}

/// Redact anything that looks like a Windows or Linux user-profile path
/// segment, over characters already gathered.
pub fn scrub_chars(chars: &Vec<char>) -> (r: Vec<char>)
    ensures
        r@ == scrubbed(chars@),
{
    let n = chars.len();
    let users = vec!['u', 's', 'e', 'r', 's'];
    let home = vec!['h', 'o', 'm', 'e'];
    assert(users@ == users_word());
    assert(home@ == home_word());
    let redacted = chars_of(REDACTED);
    let mut out: Vec<char> = Vec::new();
    let mut i: usize = 0;
    while i < n
        invariant
            n == chars.len(),
            i <= n,
            users@ == users_word(),
            home@ == home_word(),
            redacted@ == REDACTED@,
            out@ + scrubbed_from(chars@, i as int) == scrubbed(chars@),
        decreases n - i,
    {
        let boundary_before = i == 0 || sep(chars[i - 1]);
        let hit: Option<usize> = if boundary_before {
            if starts_with_word(chars, i, &users) {
                Some(i + 5)
            } else if starts_with_word(chars, i, &home) {
                Some(i + 4)
            } else {
                None
            }
        } else {
            None
        };
        assert(match hit {
            Some(a) => profile_word_end(chars@, i as int) == Some(a as int),
            None => profile_word_end(chars@, i as int) is None,
        });
        if let Some(after_word) = hit {
            if after_word < n && sep(chars[after_word]) {
                let mut j = after_word + 1;
                while j < n && !sep(chars[j])
                    invariant
                        after_word < j <= n == chars.len(),
                        next_sep(chars@, after_word + 1) == next_sep(chars@, j as int),
                    decreases n - j,
                {
                    j += 1;
                }
                assert(redaction_end(chars@, i as int) == Some(j as int));
                append_chars(&mut out, &redacted);
                assert(out@ + scrubbed_from(chars@, j as int) == scrubbed(chars@));
                i = j;
                continue;
            }
        }
        assert(redaction_end(chars@, i as int) is None);
        out.push(chars[i]);
        i += 1;
    }
    out
}

/// Redact anything that looks like a Windows or Linux user-profile path
/// segment (`…\Users\<name>\…`, `/home/<name>/…`).
pub fn scrub(text: &str) -> (r: String)
    ensures
        r@ == scrubbed(text@),
{
    let chars = chars_of(text);
    let out = scrub_chars(&chars);
    string_of(&out)
}

/// A free-text field as a report carries it: trimmed, scrubbed, at most
/// `max` characters, nothing when empty.
pub open spec fn cleaned_text(raw: Seq<char>, max: int) -> Option<Seq<char>> {
    let s = take_at_most(scrubbed(trim(raw)), max);
    if s.len() == 0 {
        None
    } else {
        Some(s)
    }
}

fn clean_text(raw: &str, max: usize) -> (r: Option<String>)
    ensures
        match r {
            Some(s) => cleaned_text(raw@, max as int) == Some(s@),
            None => cleaned_text(raw@, max as int) is None,
        },
{
    let chars = chars_of(raw);
    let t = trim_chars(&chars);
    let s = scrub_chars(&t);
    let mut kept: Vec<char> = Vec::new();
    let mut k: usize = 0;
    while k < s.len() && k < max
        invariant
            k <= s.len(),
            k <= max,
            kept@ == s@.take(k as int),
        decreases s.len() - k,
    {
        kept.push(s[k]);
        assert(s@.take(k + 1) == s@.take(k as int).push(s@[k as int]));
        k += 1;
    }
    assert(kept@ == take_at_most(s@, max as int));
    if kept.len() == 0 {
        None
    } else {
        Some(string_of(&kept))
    }
}

pub fn clean_notes(raw: &str) -> (r: Option<String>)
    ensures
        match r {
            Some(s) => cleaned_text(raw@, MAX_NOTES_CHARS as int) == Some(s@),
            None => cleaned_text(raw@, MAX_NOTES_CHARS as int) is None,
        },
{
    clean_text(raw, MAX_NOTES_CHARS)
}

pub fn clean_diagnostic_tail(raw: &str) -> (r: Option<String>)
    ensures
        match r {
            Some(s) => cleaned_text(raw@, MAX_DIAGNOSTIC_CHARS as int) == Some(s@),
            None => cleaned_text(raw@, MAX_DIAGNOSTIC_CHARS as int) is None,
        },
{
    clean_text(raw, MAX_DIAGNOSTIC_CHARS)
}

/// A profile directory word stands at `p`, followed by a separator (whatever
/// precedes it).
pub open spec fn word_then_sep(t: Seq<char>, p: int) -> bool {
    ||| starts_with_ci(t, p, users_word()) && p + 5 < t.len() && is_sep(t[p + 5])
    ||| starts_with_ci(t, p, home_word()) && p + 4 < t.len() && is_sep(t[p + 4])
}

/// Position `p` of `t` opens a path segment; `start` says whether the start
/// of `t` does.
pub open spec fn opens_segment(t: Seq<char>, p: int, start: bool) -> bool {
    if p == 0 {
        start
    } else {
        is_sep(t[p - 1])
    }
}

/// No position of `t` that opens a segment holds a profile directory word
/// followed by a separator.
pub open spec fn nothing_to_redact(t: Seq<char>, start: bool) -> bool {
    forall|p: int| 0 <= p < t.len() && opens_segment(t, p, start) ==> !#[trigger] word_then_sep(t, p)
}

proof fn lemma_redaction_end_is_word_then_sep(t: Seq<char>, p: int)
    requires
        0 <= p < t.len(),
    ensures
        redaction_end(t, p) is Some <==> opens_segment(t, p, true) && word_then_sep(t, p),
{
    if starts_with_ci(t, p, users_word()) {
        assert(ascii_lower(t[p + 0]) == 'u');
        assert(!starts_with_ci(t, p, home_word()) || ascii_lower(t[p + 0]) == 'h');
    }
}

/// How long the profile directory word at `p` is.
pub open spec fn word_len(t: Seq<char>, p: int) -> int {
    if starts_with_ci(t, p, users_word()) { 5 } else { 4 }
}

/// A profile directory word holds no separator, and a separator follows it.
proof fn lemma_word_letters(t: Seq<char>, p: int)
    requires
        word_then_sep(t, p),
    ensures
        0 <= p,
        p + word_len(t, p) < t.len(),
        is_sep(t[p + word_len(t, p)]),
        forall|m: int| 0 <= m < word_len(t, p) ==> !is_sep(#[trigger] t[p + m]),
{
    let w = if starts_with_ci(t, p, users_word()) { users_word() } else { home_word() };
    assert forall|m: int| 0 <= m < word_len(t, p) implies !is_sep(#[trigger] t[p + m]) by {
        assert(ascii_lower(t[p + m]) == w[m]);
        if m == 0 {} else if m == 1 {} else if m == 2 {} else if m == 3 {} else {}
    }
}

/// `b[k]` stands at `i + k` in `a`.
pub open spec fn agrees_at(a: Seq<char>, i: int, b: Seq<char>, k: int) -> bool {
    i + k < a.len() && a[i + k] == b[k]
}

/// A profile directory word followed by a separator at the start of `t` is
/// read wherever the same characters stand.
proof fn lemma_word_transfer(t: Seq<char>, t2: Seq<char>, p2: int, n: int)
    requires
        word_then_sep(t, 0),
        0 <= p2,
        n == word_len(t, 0),
        forall|k: int| 0 <= k <= n ==> #[trigger] agrees_at(t2, p2, t, k),
    ensures
        word_then_sep(t2, p2),
{
    lemma_word_letters(t, 0);
    assert(agrees_at(t2, p2, t, n));
    let w = if starts_with_ci(t, 0, users_word()) { users_word() } else { home_word() };
    assert(t2[p2 + n] == t[n]);
    assert forall|k: int| 0 <= k < w.len() implies ascii_lower(#[trigger] t2[p2 + k]) == w[k] by {
        assert(agrees_at(t2, p2, t, k));
        assert(ascii_lower(t[0 + k]) == w[k]);
    }
    assert(starts_with_ci(t2, p2, w));
}

/// What follows `x` in `x + u` is read at the same place in `u`.
proof fn lemma_word_shift(x: Seq<char>, u: Seq<char>, p: int)
    requires
        x.len() <= p,
    ensures
        word_then_sep(x + u, p) == word_then_sep(u, p - x.len()),
{
    let v = x + u;
    let q = p - x.len();
    assert forall|k: int| 0 <= k && p + k < v.len() implies #[trigger] v[p + k] == u[q + k] by {}
    if starts_with_ci(v, p, users_word()) {
        assert forall|k: int| 0 <= k < 5 implies ascii_lower(#[trigger] u[q + k]) == users_word()[k] by {
            assert(v[p + k] == u[q + k]);
        }
    }
    if starts_with_ci(u, q, users_word()) {
        assert forall|k: int| 0 <= k < 5 implies ascii_lower(#[trigger] v[p + k]) == users_word()[k] by {
            assert(v[p + k] == u[q + k]);
        }
    }
    if starts_with_ci(v, p, home_word()) {
        assert forall|k: int| 0 <= k < 4 implies ascii_lower(#[trigger] u[q + k]) == home_word()[k] by {
            assert(v[p + k] == u[q + k]);
        }
    }
    if starts_with_ci(u, q, home_word()) {
        assert forall|k: int| 0 <= k < 4 implies ascii_lower(#[trigger] v[p + k]) == home_word()[k] by {
            assert(v[p + k] == u[q + k]);
        }
    }
    if q + 5 < u.len() {
        assert(v[p + 5] == u[q + 5]);
    }
    if q + 4 < u.len() {
        assert(v[p + 4] == u[q + 4]);
    }
}

/// The start of a text is read as a segment only where the text it follows
/// ends with a separator.
pub open spec fn starts_segment(s: Seq<char>, i: int) -> bool {
    i == 0 || is_sep(s[i - 1])
}

/// Up to its first separator, what scrubbing leaves of `s[i..]` is the text
/// as it was, unless `s[i]` opens a segment.
pub open spec fn kept_until_sep(s: Seq<char>, i: int) -> bool {
    !starts_segment(s, i) ==> forall|k: int|
        0 <= k < scrubbed_from(s, i).len() && (forall|m: int| 0 <= m < k ==> !is_sep(#[trigger] scrubbed_from(s, i)[m]))
            ==> #[trigger] agrees_at(s, i, scrubbed_from(s, i), k)
}

/// What scrubbing leaves of `s[i..]` has nothing left to redact.
pub open spec fn clean_from(s: Seq<char>, i: int) -> bool {
    nothing_to_redact(scrubbed_from(s, i), starts_segment(s, i))
}

/// The step where a segment is redacted.
proof fn lemma_clean_after_redaction(s: Seq<char>, i: int, j: int)
    requires
        0 <= i < s.len(),
        redaction_end(s, i) == Some(j),
        i < j <= s.len(),
        clean_from(s, j),
    ensures
        clean_from(s, i),
        kept_until_sep(s, i),
{
    lemma_redaction_end_is_word_then_sep(s, i);
    assert(starts_segment(s, i));
    let u = scrubbed_from(s, i);
    let w = scrubbed_from(s, j);
    let r = REDACTED@;
    reveal_strlit("<redacted-path>");
    assert(u == r + w);
    assert forall|p: int| 0 <= p < u.len() && opens_segment(u, p, starts_segment(s, i))
        implies !#[trigger] word_then_sep(u, p) by {
        if p >= r.len() {
            lemma_word_shift(r, w, p);
            if p == r.len() {
                assert(u[p - 1] == r[r.len() - 1]);
            } else {
                assert(u[p - 1] == w[p - 1 - r.len()]);
                assert(opens_segment(w, p - r.len(), starts_segment(s, j)));
            }
        } else if p == 0 {
            assert(u[0] == '<');
        } else {
            assert(u[p - 1] == r[p - 1]);
        }
    }
}

/// The step where a character is kept.
proof fn lemma_clean_after_char(s: Seq<char>, i: int)
    requires
        0 <= i < s.len(),
        redaction_end(s, i) is None,
        clean_from(s, i + 1),
        kept_until_sep(s, i + 1),
    ensures
        clean_from(s, i),
        kept_until_sep(s, i),
{
    lemma_redaction_end_is_word_then_sep(s, i);
    let u = scrubbed_from(s, i);
    let w = scrubbed_from(s, i + 1);
    let c = seq![s[i]];
    assert(u == c + w);
    assert(u[0] == s[i]);
    assert forall|k: int|
        0 <= k < u.len() && (forall|m: int| 0 <= m < k ==> !is_sep(#[trigger] u[m])) && !starts_segment(s, i)
            implies #[trigger] agrees_at(s, i, u, k) by {
        if k > 0 {
            assert(!is_sep(u[0]));
            assert(!starts_segment(s, i + 1));
            assert forall|m: int| 0 <= m < k - 1 implies !is_sep(#[trigger] w[m]) by {
                assert(w[m] == u[m + 1]);
                assert(!is_sep(u[m + 1]));
            }
            assert(agrees_at(s, i + 1, w, k - 1));
            assert(u[k] == w[k - 1]);
        }
    }
    assert forall|p: int| 0 <= p < u.len() && opens_segment(u, p, starts_segment(s, i))
        implies !#[trigger] word_then_sep(u, p) by {
        if p >= 1 {
            lemma_word_shift(c, w, p);
            if p > 1 {
                assert(u[p - 1] == w[p - 2]);
            }
            assert(opens_segment(w, p - 1, starts_segment(s, i + 1)));
        } else if word_then_sep(u, 0) {
            lemma_clean_word_at_start(s, i);
        }
    }
}

/// A word read at the start of what scrubbing leaves of `s[i..]`, when `s[i]`
/// is kept, is read in `s` itself.
proof fn lemma_clean_word_at_start(s: Seq<char>, i: int)
    requires
        0 <= i < s.len(),
        redaction_end(s, i) is None,
        kept_until_sep(s, i + 1),
        word_then_sep(scrubbed_from(s, i), 0),
    ensures
        !starts_segment(s, i),
{
    lemma_redaction_end_is_word_then_sep(s, i);
    let u = scrubbed_from(s, i);
    let w = scrubbed_from(s, i + 1);
    assert(u == seq![s[i]] + w);
    lemma_word_letters(u, 0);
    let len = word_len(u, 0);
    assert(!is_sep(u[0int + 0int]));
    assert(u[0] == s[i]);
    assert(!starts_segment(s, i + 1));
    assert forall|k: int| 0 <= k <= len implies #[trigger] agrees_at(s, i, u, k) by {
        if k > 0 {
            assert forall|m: int| 0 <= m < k - 1 implies !is_sep(#[trigger] w[m]) by {
                assert(w[m] == u[m + 1]);
                assert(!is_sep(u[0int + (m + 1)]));
            }
            assert(agrees_at(s, i + 1, w, k - 1));
            assert(u[k] == w[k - 1]);
        }
    }
    lemma_word_transfer(u, s, i, len);
}

/// What scrubbing leaves of `s[i..]`: nothing left to redact, and up to its
/// first separator, the text as it was (unless `s[i]` opens a segment).
proof fn lemma_scrubbed_from_is_clean(s: Seq<char>, i: int)
    requires
        0 <= i <= s.len(),
    ensures
        clean_from(s, i),
        kept_until_sep(s, i),
    decreases s.len() - i,
{
    if i < s.len() {
        match redaction_end(s, i) {
            Some(j) => {
                lemma_next_sep(s, profile_word_end(s, i)->Some_0 + 1);
                lemma_scrubbed_from_is_clean(s, j);
                lemma_clean_after_redaction(s, i, j);
            },
            None => {
                lemma_scrubbed_from_is_clean(s, i + 1);
                lemma_clean_after_char(s, i);
            },
        }
    } else {
        assert(scrubbed_from(s, i).len() == 0);
    }
}

/// A text with nothing left to redact is left exactly as it is.
proof fn lemma_scrub_clean_from(t: Seq<char>, i: int)
    requires
        0 <= i <= t.len(),
        forall|p: int| 0 <= p < t.len() ==> #[trigger] redaction_end(t, p) is None,
    ensures
        scrubbed_from(t, i) == t.skip(i),
    decreases t.len() - i,
{
    if i < t.len() {
        lemma_scrub_clean_from(t, i + 1);
        assert(redaction_end(t, i) is None);
        assert(seq![t[i]] + t.skip(i + 1) == t.skip(i));
    } else {
        assert(t.skip(i) == Seq::<char>::empty());
    }
}

/// Scrubbing twice changes nothing: what scrubbing leaves holds no
/// user-profile segment left to redact, that is, no `users` or `home` (in any
/// ASCII case) that opens a path segment and is followed by a separator.
pub proof fn lemma_scrub_is_idempotent(s: Seq<char>)
    ensures
        nothing_to_redact(scrubbed(s), true),
        forall|p: int| 0 <= p < scrubbed(s).len() ==> #[trigger] redaction_end(scrubbed(s), p) is None,
        scrubbed(scrubbed(s)) == scrubbed(s),
{
    let t = scrubbed(s);
    lemma_scrubbed_from_is_clean(s, 0);
    assert forall|p: int| 0 <= p < t.len() implies #[trigger] redaction_end(t, p) is None by {
        lemma_redaction_end_is_word_then_sep(t, p);
    }
    lemma_scrub_clean_from(t, 0);
    assert(t.skip(0) == t);
}

/// A word read in the first `n` characters of a text is read in the text.
proof fn lemma_word_in_prefix(full: Seq<char>, n: int, p: int)
    requires
        0 <= n <= full.len(),
        word_then_sep(full.take(n), p),
    ensures
        word_then_sep(full, p),
{
    let t = full.take(n);
    lemma_word_letters(t, p);
    assert forall|k: int| 0 <= k && p + k < t.len() implies #[trigger] t[p + k] == full[p + k] by {}
    if starts_with_ci(t, p, users_word()) {
        assert forall|k: int| 0 <= k < 5 implies ascii_lower(#[trigger] full[p + k]) == users_word()[k] by {
            assert(t[p + k] == full[p + k]);
        }
        assert(t[p + 5] == full[p + 5]);
    } else {
        assert forall|k: int| 0 <= k < 4 implies ascii_lower(#[trigger] full[p + k]) == home_word()[k] by {
            assert(t[p + k] == full[p + k]);
        }
        assert(t[p + 4] == full[p + 4]);
    }
}

/// A free-text field as a report carries it is already scrubbed, and holds
/// one to `max` characters.
pub proof fn lemma_cleaned_text_is_scrubbed(raw: Seq<char>, max: int)
    requires
        0 <= max,
        cleaned_text(raw, max) is Some,
    ensures
        ({
            let t = cleaned_text(raw, max)->Some_0;
            &&& 1 <= t.len() <= max
            &&& scrubbed(t) == t
        }),
{
    let full = scrubbed(trim(raw));
    let t = cleaned_text(raw, max)->Some_0;
    lemma_scrub_is_idempotent(trim(raw));
    let n: int = if full.len() <= max { full.len() as int } else { max };
    assert(t == full.take(n));
    assert forall|p: int| 0 <= p < t.len() implies #[trigger] redaction_end(t, p) is None by {
        lemma_redaction_end_is_word_then_sep(t, p);
        if redaction_end(t, p) is Some {
            lemma_word_in_prefix(full, n, p);
            if p > 0 {
                assert(t[p - 1] == full[p - 1]);
            }
            lemma_redaction_end_is_word_then_sep(full, p);
        }
    }
    lemma_scrub_clean_from(t, 0);
    assert(t.skip(0) == t);
}

/// Text that holds no path separator is left exactly as it is.
pub proof fn lemma_scrub_leaves_prose(s: Seq<char>)
    requires
        forall|k: int| 0 <= k < s.len() ==> !is_sep(#[trigger] s[k]),
    ensures
        scrubbed(s) == s,
{
    assert forall|p: int| 0 <= p < s.len() implies #[trigger] redaction_end(s, p) is None by {
        if p > 0 {
            assert(!is_sep(s[p - 1]));
        }
    }
    lemma_scrub_clean_from(s, 0);
    assert(s.skip(0) == s);
}

} // verus!
