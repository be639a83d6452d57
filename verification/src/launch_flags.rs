//! The one shape a launch option may take to skip a title's startup logos or
//! intros: a SWITCH — a name, at most a number. It can carry neither a second
//! argument, a redirection or a shell command, nor what a game itself reads as
//! a command or a place: a console line (`+quit`), a value naming a command, a
//! file, a path or an address (`-ExecCmds=quit`, `-log=../x`,
//! `-connect=1.2.3.4:27015`). The same rule holds for every title: no list of
//! titles or engines exists here. What no shape can know — a switch whose
//! name alone does harm in one game — is left to human review.

use vstd::prelude::*;
use crate::ids::is_ascii_alnum;
use crate::text::{chars_of, find_char, lemma_find_char, lemma_find_char_at, position_of, slice_chars, string_of, trim, trim_chars, lemma_trim_idempotent};

verus! {

/// Longest accepted argument, whole.
pub const MAX_LEN: usize = 64;

pub open spec fn is_ascii_alpha(c: char) -> bool {
    ('A' <= c && c <= 'Z') || ('a' <= c && c <= 'z')
}

pub open spec fn is_ascii_digit(c: char) -> bool {
    '0' <= c && c <= '9'
}

/// A character a switch's name may hold.
pub open spec fn is_name_char(c: char) -> bool {
    is_ascii_alnum(c) || c == '_' || c == '-'
}

/// What follows the one or two leading dashes.
pub open spec fn switch_body(arg: Seq<char>) -> Seq<char> {
    let rest = arg.drop_first();
    if rest.len() > 0 && rest[0] == '-' {
        rest.drop_first()
    } else {
        rest
    }
}

/// The switch's name: its body up to the first `=`.
pub open spec fn switch_name(body: Seq<char>) -> Seq<char> {
    match find_char(body, '=') {
        Some(i) => body.take(i),
        None => body,
    }
}

/// The switch's value, when it has one: what follows the first `=`.
pub open spec fn switch_value(body: Seq<char>) -> Option<Seq<char>> {
    match find_char(body, '=') {
        Some(i) => Some(body.skip(i + 1)),
        None => None,
    }
}

/// One or two dashes, a name that starts with an ASCII letter and holds only
/// ASCII letters, digits, `_` and `-`, at most `=` followed by one or more
/// ASCII digits; [`MAX_LEN`] characters at most, whole.
pub open spec fn is_switch(arg: Seq<char>) -> bool {
    &&& arg.len() > 0
    &&& arg[0] == '-'
    &&& arg.len() <= MAX_LEN
    &&& {
        let name = switch_name(switch_body(arg));
        &&& name.len() > 0
        &&& is_ascii_alpha(name[0])
        &&& forall|i: int| 0 <= i < name.len() ==> is_name_char(#[trigger] name[i])
    }
    &&& match switch_value(switch_body(arg)) {
        Some(v) => v.len() > 0 && forall|i: int| 0 <= i < v.len() ==> is_ascii_digit(#[trigger] v[i]),
        None => true,
    }
}

fn all_name_chars(v: &Vec<char>) -> (r: bool)
    ensures
        r == forall|i: int| 0 <= i < v@.len() ==> is_name_char(#[trigger] v@[i]),
{
    let mut i: usize = 0;
    while i < v.len()
        invariant
            i <= v.len(),
            forall|k: int| 0 <= k < i ==> is_name_char(#[trigger] v@[k]),
        decreases v.len() - i,
    {
        let c = v[i];
        let ok = ('0' <= c && c <= '9') || ('A' <= c && c <= 'Z') || ('a' <= c && c <= 'z')
            || c == '_' || c == '-';
        if !ok {
            return false;
        }
        i += 1;
    }
    true
}

fn all_digits(v: &Vec<char>) -> (r: bool)
    ensures
        r == forall|i: int| 0 <= i < v@.len() ==> is_ascii_digit(#[trigger] v@[i]),
{
    let mut i: usize = 0;
    while i < v.len()
        invariant
            i <= v.len(),
            forall|k: int| 0 <= k < i ==> is_ascii_digit(#[trigger] v@[k]),
        decreases v.len() - i,
    {
        if !('0' <= v[i] && v[i] <= '9') {
            return false;
        }
        i += 1;
    }
    true
}

/// A launch argument is safe to append to a game's own launch only as a
/// switch: one or two dashes, a name that starts with a letter and holds only
/// letters, digits, `_` and `-`, and at most `=` followed by digits. This is
/// the ONE rule, applied to every profile's flag identically — never a
/// per-title decision.
pub fn is_safe_launch_arg(arg: &str) -> (r: bool)
    ensures
        r == is_switch(arg@),
{
    let v = chars_of(arg);
    switch_chars(&v)
}

fn switch_chars(v: &Vec<char>) -> (r: bool)
    ensures
        r == is_switch(v@),
{
    if v.len() == 0 || v[0] != '-' {
        return false;
    }
    let start: usize = if v.len() > 1 && v[1] == '-' { 2 } else { 1 };
    let body = slice_chars(v, start, v.len());
    assert(body@ == switch_body(v@));
    proof {
        lemma_find_char(body@, '=');
    }
    let (name, value) = match position_of(&body, '=') {
        Some(i) => (slice_chars(&body, 0, i), Some(slice_chars(&body, i + 1, body.len()))),
        None => (slice_chars(&body, 0, body.len()), None),
    };
    proof {
        assert(body@.subrange(0, body@.len() as int) == body@);
    }
    assert(name@ == switch_name(body@));
    if v.len() > MAX_LEN || name.len() == 0 {
        return false;
    }
    let c = name[0];
    if !(('A' <= c && c <= 'Z') || ('a' <= c && c <= 'z')) {
        return false;
    }
    if !all_name_chars(&name) {
        return false;
    }
    match value {
        Some(val) => {
            assert(switch_value(body@) == Some(val@));
            val.len() > 0 && all_digits(&val)
        },
        None => true,
    }
}

/// A proposed launch option, surrounding whitespace dropped, when it is a
/// switch; anything else is dropped whole, never repaired into one.
pub fn clean_launch_argument(raw: &str) -> (r: Option<String>)
    ensures
        match r {
            Some(s) => is_switch(trim(raw@)) && s@ == trim(raw@),
            None => !is_switch(trim(raw@)),
        },
{
    let v = chars_of(raw);
    clean_launch_chars(&v)
}

/// The same rule over characters already gathered.
pub fn clean_launch_chars(v: &Vec<char>) -> (r: Option<String>)
    ensures
        match r {
            Some(s) => is_switch(trim(v@)) && s@ == trim(v@),
            None => !is_switch(trim(v@)),
        },
{
    let t = trim_chars(v);
    if switch_chars(&t) {
        Some(string_of(&t))
    } else {
        None
    }
}

/// A switch holds nothing a shell or a game could read as more than a switch:
/// only a leading dash, ASCII letters and digits, `_`, `-` and at most one `=`.
pub proof fn lemma_switch_is_inert(arg: Seq<char>)
    requires
        is_switch(arg),
    ensures
        arg[0] == '-',
        forall|i: int| 0 <= i < arg.len() ==> is_name_char(#[trigger] arg[i]) || arg[i] == '=',
        forall|i: int, j: int| 0 <= i < j < arg.len() && arg[i] == '=' ==> arg[j] != '=',
{
    let body = switch_body(arg);
    let off: int = arg.len() - body.len();
    assert(off == 1 || off == 2);
    assert(off == 2 ==> arg[1] == arg.drop_first()[0]);
    assert forall|k: int| 0 <= k < body.len() implies body[k] == arg[k + off] by {}
    lemma_find_char(body, '=');
    match find_char(body, '=') {
        Some(e) => {
            let name = body.take(e);
            let val = body.skip(e + 1);
            assert forall|i: int| 0 <= i < arg.len() implies is_name_char(#[trigger] arg[i]) || arg[i] == '=' by {
                if i >= off {
                    let k = i - off;
                    if k < e {
                        assert(name[k] == body[k]);
                        assert(is_name_char(name[k]));
                    } else if k > e {
                        assert(val[k - e - 1] == body[k]);
                        assert(is_ascii_digit(val[k - e - 1]));
                    }
                }
            }
            assert forall|i: int, j: int| 0 <= i < j < arg.len() && arg[i] == '=' implies arg[j] != '=' by {
                if i >= off && j >= off {
                    let ki = i - off;
                    let kj = j - off;
                    if ki < e {
                        assert(name[ki] == body[ki]);
                    }
                    assert(ki >= e);
                    assert(kj > e);
                    assert(val[kj - e - 1] == body[kj]);
                }
            }
        },
        None => {
            assert forall|i: int| 0 <= i < arg.len() implies is_name_char(#[trigger] arg[i]) || arg[i] == '=' by {
                if i >= off {
                    assert(body[i - off] == arg[i]);
                    assert(is_name_char(body[i - off]));
                }
            }
            assert forall|i: int| 0 <= i < arg.len() implies arg[i] != '=' by {
                if i >= off {
                    assert(body[i - off] == arg[i]);
                }
            }
        },
    }
}

/// `arg` reads as one or two dashes (`arg[..d]`), a name that starts with an
/// ASCII letter and holds only ASCII letters, digits, `_` and `-`
/// (`arg[d..n]`), then nothing, or `=` and one or more ASCII digits.
pub open spec fn switch_split(arg: Seq<char>, d: int, n: int) -> bool {
    &&& d == 1 || d == 2
    &&& d < n <= arg.len()
    &&& forall|k: int| 0 <= k < d ==> #[trigger] arg[k] == '-'
    &&& is_ascii_alpha(arg[d])
    &&& forall|k: int| d <= k < n ==> is_name_char(#[trigger] arg[k])
    &&& n == arg.len() || {
        &&& arg[n] == '='
        &&& n + 1 < arg.len()
        &&& forall|k: int| n < k < arg.len() ==> is_ascii_digit(#[trigger] arg[k])
    }
}

/// The switch rule as one pattern, `--?[A-Za-z][A-Za-z0-9_-]*(=[0-9]+)?`, whole,
/// at most [`MAX_LEN`] characters.
pub proof fn lemma_switch_is_the_pattern(arg: Seq<char>)
    ensures
        is_switch(arg) <==> arg.len() <= MAX_LEN && exists|d: int, n: int| #[trigger] switch_split(arg, d, n),
{
    if is_switch(arg) {
        let body = switch_body(arg);
        let d: int = arg.len() - body.len();
        assert(d == 1 || d == 2);
        assert forall|k: int| 0 <= k < body.len() implies #[trigger] body[k] == arg[k + d] by {}
        assert(d == 2 ==> arg[1] == arg.drop_first()[0]);
        lemma_find_char(body, '=');
        let name = switch_name(body);
        let n = d + name.len();
        assert(name[0] == body[0]);
        assert forall|k: int| d <= k < n implies is_name_char(#[trigger] arg[k]) by {
            assert(name[k - d] == body[k - d]);
        }
        match find_char(body, '=') {
            Some(e) => {
                let val = body.skip(e + 1);
                assert(val.len() > 0);
                assert forall|k: int| n < k < arg.len() implies is_ascii_digit(#[trigger] arg[k]) by {
                    assert(val[k - n - 1] == body[k - d]);
                }
            },
            None => {},
        }
        assert(switch_split(arg, d, n));
    }
    if arg.len() <= MAX_LEN && exists|d: int, n: int| #[trigger] switch_split(arg, d, n) {
        let (d, n) = choose|d: int, n: int| #[trigger] switch_split(arg, d, n);
        let body = switch_body(arg);
        assert(arg[0] == '-');
        if d == 1 {
            assert(arg.drop_first()[0] == arg[1]);
            assert(body == arg.skip(1));
        } else {
            assert(arg.drop_first()[0] == arg[1]);
            assert(body == arg.skip(2));
        }
        assert forall|k: int| 0 <= k < body.len() implies #[trigger] body[k] == arg[k + d] by {}
        let e = n - d;
        assert forall|k: int| 0 <= k < e implies #[trigger] body[k] != '=' by {
            assert(is_name_char(arg[k + d]));
        }
        if n < arg.len() {
            assert(body[e] == '=');
            lemma_find_char_at(body, '=', e);
            let val = body.skip(e + 1);
            assert forall|k: int| 0 <= k < val.len() implies is_ascii_digit(#[trigger] val[k]) by {
                assert(val[k] == arg[k + n + 1]);
            }
        } else {
            assert(body.len() == e);
            lemma_find_char(body, '=');
        }
        let name = switch_name(body);
        assert(name.len() == e);
        assert forall|k: int| 0 <= k < name.len() implies is_name_char(#[trigger] name[k]) by {
            assert(name[k] == arg[k + d]);
        }
        assert(name[0] == arg[d]);
    }
}

/// A cleaned launch option is cleaned to itself: cleaning twice changes
/// nothing.
pub proof fn lemma_clean_is_idempotent(raw: Seq<char>)
    requires
        is_switch(trim(raw)),
    ensures
        trim(trim(raw)) == trim(raw),
        is_switch(trim(trim(raw))),
{
    lemma_trim_idempotent(raw);
}

} // verus!
