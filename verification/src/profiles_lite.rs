//! A minimal reader over the catalogue the database signs. The bot only
//! needs a conservative yes/no answer to two questions, and answering them
//! simply is easier to keep correct:
//!   - is this identity blocked (by status or the anti-cheat flag), through
//!     EITHER its store id OR its exe name? If either says yes, skip it.
//!   - is it already VERIFIED through either rung? If yes, leave it alone.
//!
//! Being more conservative than the app's full matching is the safe
//! direction for a bot that can only ever propose, never decide.

use vstd::prelude::*;
use crate::report::ascii_lower;
use crate::speed::{max_key, SpeedKey, ONE_SPEED};
use crate::text::{chars_of, decimal, same_text, string_of};

verus! {

/// One catalogue entry, as far as the bot reads it. The speed is held as its
/// order key ([`crate::speed`]).
#[derive(Debug, Clone)]
pub struct Profile {
    pub exe_name: String,
    pub steam_appid: u64,
    pub epic_catalog_item_id: String,
    pub gog_product_id: u64,
    pub gdk_package_id: String,
    pub status: String,
    pub max_recommended_speed: SpeedKey,
    pub anti_cheat_detected: bool,
    /// The launch option the signed entry carries, if any.
    pub launch_argument: Option<String>,
}

/// The value of a run of decimal digits.
pub open spec fn digits_value(d: Seq<char>) -> nat
    decreases d.len(),
{
    if d.len() == 0 {
        0
    } else {
        digits_value(d.drop_last()) * 10 + ((d.last() as nat) - 48) as nat
    }
}

pub open spec fn all_digits(d: Seq<char>) -> bool {
    forall|i: int| 0 <= i < d.len() ==> '0' <= #[trigger] d[i] && d[i] <= '9'
}

/// A store id read as an unsigned 64-bit number, as `str::parse::<u64>`
/// reads it: an optional `+`, then one or more decimal digits, no more than
/// `u64::MAX`.
pub open spec fn parse_u64(s: Seq<char>) -> Option<u64> {
    let digits = if s.len() > 0 && s[0] == '+' { s.drop_first() } else { s };
    if digits.len() == 0 || !all_digits(digits) || digits_value(digits) > u64::MAX {
        None
    } else {
        Some(digits_value(digits) as u64)
    }
}

/// Two names equal when ASCII letters are compared without case.
pub open spec fn eq_ignore_ascii_case(a: Seq<char>, b: Seq<char>) -> bool {
    a.len() == b.len() && forall|i: int| 0 <= i < a.len() ==> ascii_lower(#[trigger] a[i]) == ascii_lower(b[i])
}

proof fn lemma_digits_prefix(d: Seq<char>, k: int)
    requires
        0 <= k <= d.len(),
        all_digits(d),
    ensures
        digits_value(d.take(k)) <= digits_value(d),
    decreases d.len() - k,
{
    if k < d.len() {
        lemma_digits_prefix(d, k + 1);
        assert(d.take(k + 1).drop_last() == d.take(k));
    } else {
        assert(d.take(k) == d);
    }
}

fn read_u64(s: &Vec<char>) -> (r: Option<u64>)
    ensures
        r == parse_u64(s@),
{
    let start: usize = if s.len() > 0 && s[0] == '+' { 1 } else { 0 };
    let ghost digits = if s@.len() > 0 && s@[0] == '+' { s@.drop_first() } else { s@ };
    assert(digits == s@.skip(start as int));
    if start >= s.len() {
        return None;
    }
    let mut value: u64 = 0;
    let mut i: usize = start;
    assert(digits.take(0) == Seq::<char>::empty());
    while i < s.len()
        invariant
            start <= i <= s.len(),
            digits == s@.skip(start as int),
            digits == (if s@.len() > 0 && s@[0] == '+' { s@.drop_first() } else { s@ }),
            value == digits_value(digits.take(i - start)),
            all_digits(digits.take(i - start)),
        decreases s.len() - i,
    {
        let c = s[i];
        assert(digits.len() == s.len() - start);
        if !('0' <= c && c <= '9') {
            assert(digits[i - start] == c);
            assert(!('0' <= digits[i - start] && digits[i - start] <= '9'));
            assert(!all_digits(digits));
            return None;
        }
        let d = (c as u32 - 48) as u64;
        assert(digits.take(i - start + 1).drop_last() == digits.take(i - start));
        assert(digits.take(i - start + 1).last() == c);
        let next = match value.checked_mul(10) {
            Some(m) => m.checked_add(d),
            None => None,
        };
        match next {
            Some(v) => {
                value = v;
            },
            None => {
                proof {
                    let p = digits.take(i - start + 1);
                    assert(digits_value(p) == digits_value(p.drop_last()) * 10 + ((p.last() as nat) - 48) as nat);
                    assert(((c as nat) - 48) as nat == d);
                    assert(digits_value(p) == value * 10 + d);
                    assert(value * 10 + d > u64::MAX);
                    if all_digits(digits) {
                        lemma_digits_prefix(digits, i - start + 1);
                    }
                }
                return None;
            },
        }
        i += 1;
    }
    assert(digits.take(i - start) == digits);
    Some(value)
}


fn eq_ci(a: &Vec<char>, b: &Vec<char>) -> (r: bool)
    ensures
        r == eq_ignore_ascii_case(a@, b@),
{
    if a.len() != b.len() {
        return false;
    }
    let mut i: usize = 0;
    while i < a.len()
        invariant
            i <= a.len() == b.len(),
            forall|k: int| 0 <= k < i ==> ascii_lower(#[trigger] a@[k]) == ascii_lower(b@[k]),
        decreases a.len() - i,
    {
        let x = if 'A' <= a[i] && a[i] <= 'Z' { ((a[i] as u8) + 32u8) as char } else { a[i] };
        let y = if 'A' <= b[i] && b[i] <= 'Z' { ((b[i] as u8) + 32u8) as char } else { b[i] };
        if x != y {
            return false;
        }
        i += 1;
    }
    true
}

/// The three ways a title is named in a lookup.
pub struct Query {
    pub store: Seq<char>,
    pub store_id: Seq<char>,
    pub exe: Seq<char>,
}

impl Profile {
    /// Blocked by status or by the anti-cheat flag.
    pub open spec fn blocked(self) -> bool {
        self.anti_cheat_detected || self.status@ == "BLOCKED"@
    }

    /// The entry names the title: by executable (ASCII case ignored), or by
    /// the store id its store keeps (a number for Steam and GOG, a string for
    /// Epic and the Microsoft Store).
    pub open spec fn names(self, q: Query) -> bool {
        if q.exe.len() > 0 && eq_ignore_ascii_case(self.exe_name@, q.exe) {
            true
        } else if q.store.len() == 0 || q.store_id.len() == 0 {
            false
        } else if q.store == "steam"@ {
            parse_u64(q.store_id) == Some(self.steam_appid)
        } else if q.store == "epic"@ {
            self.epic_catalog_item_id@ == q.store_id
        } else if q.store == "gog"@ {
            parse_u64(q.store_id) == Some(self.gog_product_id)
        } else if q.store == "gdk"@ {
            self.gdk_package_id@ == q.store_id
        } else {
            false
        }
    }

    fn is_blocked(&self) -> (r: bool)
        ensures
            r == self.blocked(),
    {
        self.anti_cheat_detected || same_text(self.status.as_str(), "BLOCKED")
    }

    fn matches(&self, store: &Vec<char>, store_id: &Vec<char>, exe: &Vec<char>) -> (r: bool)
        ensures
            r == self.names(Query { store: store@, store_id: store_id@, exe: exe@ }),
    {
        if exe.len() > 0 {
            let name = chars_of(self.exe_name.as_str());
            if eq_ci(&name, exe) {
                return true;
            }
        }
        if store.len() == 0 || store_id.len() == 0 {
            return false;
        }
        let store_text = string_of(store);
        let id_text = string_of(store_id);
        if same_text(store_text.as_str(), "steam") {
            match read_u64(store_id) {
                Some(id) => id == self.steam_appid,
                None => false,
            }
        } else if same_text(store_text.as_str(), "epic") {
            same_text(self.epic_catalog_item_id.as_str(), id_text.as_str())
        } else if same_text(store_text.as_str(), "gog") {
            match read_u64(store_id) {
                Some(id) => id == self.gog_product_id,
                None => false,
            }
        } else if same_text(store_text.as_str(), "gdk") {
            same_text(self.gdk_package_id.as_str(), id_text.as_str())
        } else {
            false
        }
    }
}

/// The catalogue: its entries in order.
#[derive(Debug, Clone)]
pub struct Db {
    profiles: Vec<Profile>,
}

/// What the catalogue says of one title.
pub struct Lookup {
    pub blocked: bool,
    pub verified: bool,
    /// The highest ceiling any matching, unblocked profile already grants;
    /// the key of `1.0` when there is none or none higher.
    pub existing_ceiling: SpeedKey,
    /// The launch option the first matching, unblocked profile that carries
    /// one carries today.
    pub signed_launch_argument: Option<String>,
}

/// The contents of a [`Lookup`].
pub struct LookupView {
    pub blocked: bool,
    pub verified: bool,
    pub existing_ceiling: SpeedKey,
    pub signed_launch_argument: Option<Seq<char>>,
}

impl View for Lookup {
    type V = LookupView;

    open spec fn view(&self) -> LookupView {
        LookupView {
            blocked: self.blocked,
            verified: self.verified,
            existing_ceiling: self.existing_ceiling,
            signed_launch_argument: match self.signed_launch_argument {
                Some(a) => Some(a@),
                None => None,
            },
        }
    }
}

/// Some entry names the title and is blocked.
pub open spec fn any_blocked(ps: Seq<Profile>, q: Query) -> bool {
    exists|i: int| 0 <= i < ps.len() && #[trigger] ps[i].names(q) && ps[i].blocked()
}

/// Some entry names the title, is VERIFIED and is not blocked.
pub open spec fn any_verified(ps: Seq<Profile>, q: Query) -> bool {
    exists|i: int|
        0 <= i < ps.len() && #[trigger] ps[i].names(q) && ps[i].status@ == "VERIFIED"@ && !ps[i].blocked()
}

/// The highest speed an unblocked entry naming the title grants, and never
/// below `1.0`.
pub open spec fn ceiling_of(ps: Seq<Profile>, q: Query) -> SpeedKey
    decreases ps.len(),
{
    if ps.len() == 0 {
        ONE_SPEED
    } else {
        let c = ceiling_of(ps.drop_last(), q);
        let p = ps.last();
        if p.names(q) && !p.blocked() {
            max_key(c, p.max_recommended_speed)
        } else {
            c
        }
    }
}

/// The launch option of the first unblocked entry naming the title that
/// carries one.
pub open spec fn first_signed(ps: Seq<Profile>, q: Query) -> Option<Seq<char>>
    decreases ps.len(),
{
    if ps.len() == 0 {
        None
    } else if ps[0].names(q) && !ps[0].blocked() && ps[0].launch_argument is Some {
        Some(ps[0].launch_argument->Some_0@)
    } else {
        first_signed(ps.drop_first(), q)
    }
}

/// What the catalogue says of the title a query names.
pub open spec fn lookup_of(ps: Seq<Profile>, q: Query) -> LookupView {
    LookupView {
        blocked: any_blocked(ps, q),
        verified: any_verified(ps, q),
        existing_ceiling: ceiling_of(ps, q),
        signed_launch_argument: first_signed(ps, q),
    }
}

/// A name with every ASCII capital letter made small.
pub open spec fn lowered(s: Seq<char>) -> Seq<char> {
    s.map_values(|c: char| ascii_lower(c))
}

proof fn lemma_decimal_digits(n: nat)
    ensures
        decimal(n).len() > 0,
        all_digits(decimal(n)),
        digits_value(decimal(n)) == n,
        decimal(n)[0] != '+',
    decreases n,
{
    assert((crate::text::digit_char(n % 10) as nat) == n % 10 + 48);
    if n < 10 {
        assert(decimal(n).drop_last() == Seq::<char>::empty());
        assert(decimal(n).last() == crate::text::digit_char(n % 10));
        assert(n % 10 == n);
        assert(digits_value(decimal(n)) == digits_value(decimal(n).drop_last()) * 10 + ((decimal(n).last() as nat) - 48) as nat);
    } else {
        lemma_decimal_digits(n / 10);
        let d = decimal(n);
        assert(d.last() == crate::text::digit_char(n % 10));
        assert(digits_value(d) == digits_value(d.drop_last()) * 10 + ((d.last() as nat) - 48) as nat);
        assert(d.drop_last() == decimal(n / 10));
        assert(n == (n / 10) * 10 + n % 10) by (nonlinear_arith);
        assert forall|i: int| 0 <= i < d.len() implies '0' <= #[trigger] d[i] && d[i] <= '9' by {
            if i < d.len() - 1 {
                assert(d[i] == decimal(n / 10)[i]);
            }
        }
        assert(d[0] == decimal(n / 10)[0]);
    }
}

/// How an entry names a title: by its executable's name, ASCII case aside;
/// by the decimal spelling of its Steam or GOG number; by its Epic or
/// Microsoft Store id as written. A store the catalogue does not know names
/// nothing but through the executable.
pub proof fn lemma_how_an_entry_names(p: Profile, q: Query)
    ensures
        q.exe.len() > 0 && lowered(p.exe_name@) == lowered(q.exe) ==> p.names(q),
        q.store == "steam"@ && q.store_id == decimal(p.steam_appid as nat) ==> p.names(q),
        q.store == "gog"@ && q.store_id == decimal(p.gog_product_id as nat) ==> p.names(q),
        q.store == "epic"@ && q.store_id.len() > 0 && q.store_id == p.epic_catalog_item_id@ ==> p.names(q),
        q.store == "gdk"@ && q.store_id.len() > 0 && q.store_id == p.gdk_package_id@ ==> p.names(q),
        q.store != "steam"@ && q.store != "gog"@ && q.store != "epic"@ && q.store != "gdk"@ && p.names(q)
            ==> q.exe.len() > 0 && lowered(p.exe_name@) == lowered(q.exe),
{
    reveal_strlit("steam");
    reveal_strlit("gog");
    reveal_strlit("epic");
    reveal_strlit("gdk");
    let a = lowered(p.exe_name@);
    let b = lowered(q.exe);
    assert("steam"@.len() != "gog"@.len() && "steam"@.len() != "gdk"@.len() && "steam"@.len() != "epic"@.len());
    assert("epic"@.len() != "gog"@.len() && "epic"@.len() != "gdk"@.len());
    assert("gog"@[1] != "gdk"@[1]);
    if q.exe.len() > 0 && a == b {
        assert forall|i: int| 0 <= i < p.exe_name@.len() implies ascii_lower(#[trigger] p.exe_name@[i]) == ascii_lower(q.exe[i]) by {
            assert(a.len() == p.exe_name@.len() && b.len() == q.exe.len());
            assert(a[i] == b[i]);
            assert(a[i] == ascii_lower(p.exe_name@[i]));
            assert(b[i] == ascii_lower(q.exe[i]));
        }
        assert(eq_ignore_ascii_case(p.exe_name@, q.exe));
    }
    if eq_ignore_ascii_case(p.exe_name@, q.exe) {
        assert(a =~= b);
    }
    lemma_decimal_digits(p.steam_appid as nat);
    lemma_decimal_digits(p.gog_product_id as nat);
}

/// An entry that names a title and is neither flagged for anti-cheat nor
/// BLOCKED.
pub open spec fn grants(p: Profile, q: Query) -> bool {
    p.names(q) && !p.anti_cheat_detected && p.status@ != "BLOCKED"@
}

proof fn lemma_ceiling(ps: Seq<Profile>, q: Query)
    ensures
        ceiling_of(ps, q) >= ONE_SPEED,
        forall|i: int| 0 <= i < ps.len() && grants(#[trigger] ps[i], q) ==> ps[i].max_recommended_speed <= ceiling_of(ps, q),
        ceiling_of(ps, q) == ONE_SPEED || exists|i: int|
            0 <= i < ps.len() && grants(#[trigger] ps[i], q) && ps[i].max_recommended_speed == ceiling_of(ps, q),
    decreases ps.len(),
{
    if ps.len() > 0 {
        let front = ps.drop_last();
        lemma_ceiling(front, q);
        assert forall|i: int| 0 <= i < ps.len() && grants(#[trigger] ps[i], q) implies ps[i].max_recommended_speed
            <= ceiling_of(ps, q) by {
            if i < front.len() {
                assert(front[i] == ps[i]);
            }
        }
        if ceiling_of(ps, q) != ONE_SPEED && ceiling_of(ps, q) == ceiling_of(front, q) {
            let i = choose|i: int| 0 <= i < front.len() && grants(#[trigger] front[i], q) && front[i].max_recommended_speed
                == ceiling_of(front, q);
            assert(ps[i] == front[i]);
        }
        if ceiling_of(ps, q) != ceiling_of(front, q) {
            assert(grants(ps[ps.len() - 1], q));
        }
    }
}

proof fn lemma_first_signed(ps: Seq<Profile>, q: Query)
    ensures
        match first_signed(ps, q) {
            Some(a) => exists|i: int|
                0 <= i < ps.len() && grants(#[trigger] ps[i], q) && ps[i].launch_argument is Some
                    && ps[i].launch_argument->Some_0@ == a && forall|k: int|
                    0 <= k < i && grants(#[trigger] ps[k], q) ==> ps[k].launch_argument is None,
            None => forall|i: int| 0 <= i < ps.len() && grants(#[trigger] ps[i], q) ==> ps[i].launch_argument is None,
        },
    decreases ps.len(),
{
    if ps.len() > 0 {
        let rest = ps.drop_first();
        lemma_first_signed(rest, q);
        assert forall|k: int| 0 <= k < rest.len() implies #[trigger] rest[k] == ps[k + 1] by {}
        if grants(ps[0], q) && ps[0].launch_argument is Some {
            assert(grants(ps[0], q));
        } else {
            match first_signed(rest, q) {
                Some(a) => {
                    let i = choose|i: int|
                        0 <= i < rest.len() && grants(#[trigger] rest[i], q) && rest[i].launch_argument is Some
                            && rest[i].launch_argument->Some_0@ == a && forall|k: int|
                            0 <= k < i && grants(#[trigger] rest[k], q) ==> rest[k].launch_argument is None;
                    assert(grants(ps[i + 1], q));
                    assert forall|k: int| 0 <= k < i + 1 && grants(#[trigger] ps[k], q) implies ps[k].launch_argument is None by {
                        if k > 0 {
                            assert(ps[k] == rest[k - 1]);
                        }
                    }
                },
                None => {
                    assert forall|i: int| 0 <= i < ps.len() && grants(#[trigger] ps[i], q) implies ps[i].launch_argument is None by {
                        if i > 0 {
                            assert(ps[i] == rest[i - 1]);
                        }
                    }
                },
            }
        }
    }
}

/// What the catalogue answers about a title, in terms of the entries that
/// name it: blocked when one of them is BLOCKED or flagged for anti-cheat;
/// verified when one of them is VERIFIED and neither; the ceiling the highest
/// speed such an unblocked entry grants, never below `1.0`, and `1.0` or one
/// of those speeds; the signed option that of the first unblocked entry that
/// carries one.
pub proof fn lemma_lookup_answers(ps: Seq<Profile>, q: Query)
    ensures
        ({
            let lk = lookup_of(ps, q);
            &&& lk.blocked <==> exists|i: int|
                0 <= i < ps.len() && (#[trigger] ps[i]).names(q) && (ps[i].anti_cheat_detected || ps[i].status@
                    == "BLOCKED"@)
            &&& lk.verified <==> exists|i: int|
                0 <= i < ps.len() && (#[trigger] ps[i]).names(q) && ps[i].status@ == "VERIFIED"@
                    && !ps[i].anti_cheat_detected
            &&& lk.existing_ceiling >= ONE_SPEED
            &&& forall|i: int| 0 <= i < ps.len() && grants(#[trigger] ps[i], q) ==> ps[i].max_recommended_speed
                <= lk.existing_ceiling
            &&& lk.existing_ceiling == ONE_SPEED || exists|i: int|
                0 <= i < ps.len() && grants(#[trigger] ps[i], q) && ps[i].max_recommended_speed == lk.existing_ceiling
            &&& match lk.signed_launch_argument {
                Some(a) => exists|i: int|
                    0 <= i < ps.len() && grants(#[trigger] ps[i], q) && ps[i].launch_argument is Some
                        && ps[i].launch_argument->Some_0@ == a && forall|k: int|
                        0 <= k < i && grants(#[trigger] ps[k], q) ==> ps[k].launch_argument is None,
                None => forall|i: int| 0 <= i < ps.len() && grants(#[trigger] ps[i], q) ==> ps[i].launch_argument is None,
            }
        }),
{
    reveal_strlit("VERIFIED");
    reveal_strlit("BLOCKED");
    assert("VERIFIED"@ != "BLOCKED"@) by {
        assert("VERIFIED"@.len() != "BLOCKED"@.len());
    }
    lemma_ceiling(ps, q);
    lemma_first_signed(ps, q);
}

impl Db {
    /// The catalogue's entries, in order.
    pub closed spec fn entries(&self) -> Seq<Profile> {
        self.profiles@
    }

    /// A catalogue of the given entries.
    pub fn new(profiles: Vec<Profile>) -> (r: Db)
        ensures
            r.entries() == profiles@,
    {
        Db { profiles }
    }

    /// What the catalogue says of a title named by store, store id and
    /// executable.
    pub fn lookup(&self, store: &str, store_id: &str, exe: &str) -> (r: Lookup)
        ensures
            r@ == lookup_of(self.entries(), Query { store: store@, store_id: store_id@, exe: exe@ }),
    {
        let sc = chars_of(store);
        let ic = chars_of(store_id);
        let ec = chars_of(exe);
        let ghost q = Query { store: store@, store_id: store_id@, exe: exe@ };
        let ghost ps = self.profiles@;
        let mut blocked = false;
        let mut verified = false;
        let mut ceiling: SpeedKey = ONE_SPEED;
        let mut signed: Option<String> = None;
        let mut i: usize = 0;
        assert(ps.take(0) == Seq::<Profile>::empty());
        assert(ps.skip(0) == ps);
        while i < self.profiles.len()
            invariant
                i <= ps.len(),
                ps == self.profiles@,
                sc@ == q.store,
                ic@ == q.store_id,
                ec@ == q.exe,
                blocked == any_blocked(ps.take(i as int), q),
                verified == any_verified(ps.take(i as int), q),
                ceiling == ceiling_of(ps.take(i as int), q),
                match signed {
                    Some(a) => first_signed(ps, q) == Some(a@),
                    None => first_signed(ps, q) == first_signed(ps.skip(i as int), q),
                },
            decreases ps.len() - i,
        {
            let p = &self.profiles[i];
            let named = p.matches(&sc, &ic, &ec);
            let b = p.is_blocked();
            let v = same_text(p.status.as_str(), "VERIFIED");
            let ghost pre = ps.take(i as int);
            assert(ps.take(i + 1) == pre.push(ps[i as int]));
            assert(ps.take(i + 1).drop_last() == pre);
            proof {
                assert forall|k: int| 0 <= k < pre.len() implies pre[k] == #[trigger] ps.take(i + 1)[k] by {}
                if named && b {
                    assert(ps.take(i + 1)[i as int].names(q));
                }
                if named && v && !b {
                    assert(ps.take(i + 1)[i as int].names(q));
                }
                if any_blocked(ps.take(i + 1), q) && !any_blocked(pre, q) {
                    let w = choose|w: int| 0 <= w < ps.take(i + 1).len() && #[trigger] ps.take(i + 1)[w].names(q) && ps.take(i + 1)[w].blocked();
                    assert(w == i);
                }
                if any_verified(ps.take(i + 1), q) && !any_verified(pre, q) {
                    let w = choose|w: int| 0 <= w < ps.take(i + 1).len() && #[trigger] ps.take(i + 1)[w].names(q) && ps.take(i + 1)[w].status@ == "VERIFIED"@ && !ps.take(i + 1)[w].blocked();
                    assert(w == i);
                }
                if any_blocked(pre, q) {
                    let w = choose|w: int| 0 <= w < pre.len() && #[trigger] pre[w].names(q) && pre[w].blocked();
                    assert(ps.take(i + 1)[w].names(q));
                }
                if any_verified(pre, q) {
                    let w = choose|w: int| 0 <= w < pre.len() && #[trigger] pre[w].names(q) && pre[w].status@ == "VERIFIED"@ && !pre[w].blocked();
                    assert(ps.take(i + 1)[w].names(q));
                }
                assert(ps.skip(i as int)[0] == ps[i as int]);
                assert(ps.skip(i as int).drop_first() == ps.skip(i + 1));
            }
            if named && b {
                blocked = true;
            }
            if named && v && !b {
                verified = true;
            }
            if named && !b {
                if p.max_recommended_speed > ceiling {
                    ceiling = p.max_recommended_speed;
                }
                if signed.is_none() {
                    match &p.launch_argument {
                        Some(a) => {
                            signed = Some(a.clone());
                        },
                        None => {},
                    }
                }
            }
            i += 1;
        }
        assert(ps.take(ps.len() as int) == ps);
        proof {
            if signed is None {
                assert(ps.skip(ps.len() as int) == Seq::<Profile>::empty());
            }
        }
        Lookup { blocked, verified, existing_ceiling: ceiling, signed_launch_argument: signed }
    }
}

impl Default for Db {
    /// The empty catalogue.
    fn default() -> (r: Db)
        ensures
            r.entries() == Seq::<Profile>::empty(),
    {
        Db { profiles: Vec::new() }
    }
}

} // verus!
