//! The shape of a title's identity where it travels as text — in a link, in a
//! report — and the one encoding it travels in. Anything outside these shapes
//! is refused, never repaired.

use vstd::prelude::*;
use vstd::utf8::*;
use crate::text::{chars_of, control, is_control, string_of};

verus! {

/// Longest store id accepted (ASCII).
pub const MAX_ID_LEN: usize = 64;
/// Longest executable file name accepted, in UTF-8 bytes.
pub const MAX_EXE_LEN: usize = 128;

pub open spec fn is_ascii_alnum(c: char) -> bool {
    ('0' <= c && c <= '9') || ('A' <= c && c <= 'Z') || ('a' <= c && c <= 'z')
}

pub open spec fn is_id_char(c: char) -> bool {
    is_ascii_alnum(c) || c == '-' || c == '_' || c == '.'
}

/// A store's own id: letters, digits, `-`, `_` and `.`, at most
/// [`MAX_ID_LEN`] of them.
pub open spec fn is_valid_id(s: Seq<char>) -> bool {
    &&& 0 < s.len() <= MAX_ID_LEN
    &&& forall|i: int| 0 <= i < s.len() ==> is_id_char(#[trigger] s[i])
}

/// A character a file name may not hold.
pub open spec fn is_forbidden_in_name(c: char) -> bool {
    is_control(c) || c == '/' || c == '\\' || c == ':' || c == '*' || c == '?' || c == '"'
        || c == '<' || c == '>' || c == '|'
}

/// A file NAME: no separators, no reserved characters, no control
/// characters, not `.` or `..`, at most [`MAX_EXE_LEN`] bytes of UTF-8.
pub open spec fn is_valid_exe(s: Seq<char>) -> bool {
    &&& s.len() > 0
    &&& encode_utf8(s).len() <= MAX_EXE_LEN
    &&& s != seq!['.']
    &&& s != seq!['.', '.']
    &&& forall|i: int| 0 <= i < s.len() ==> !is_forbidden_in_name(#[trigger] s[i])
}

/// A valid executable name is a file name and never a path: it holds no
/// separator, no drive colon, no wildcard, quote, redirection or pipe, no
/// control character, is not `.` or `..`, and is at most [`MAX_EXE_LEN`]
/// bytes. A valid store id holds only ASCII letters, digits, `-`, `_` and
/// `.`, so nothing that could close a field or hide a second value.
pub proof fn lemma_valid_names_are_inert(exe: Seq<char>, id: Seq<char>)
    ensures
        is_valid_exe(exe) ==> {
            &&& 0 < exe.len()
            &&& encode_utf8(exe).len() <= MAX_EXE_LEN
            &&& exe != seq!['.'] && exe != seq!['.', '.']
            &&& forall|i: int| 0 <= i < exe.len() ==> {
                let c = #[trigger] exe[i];
                &&& c != '/' && c != '\\' && c != ':' && c != '*' && c != '?' && c != '"'
                &&& c != '<' && c != '>' && c != '|'
                &&& c > '\u{1f}' && !('\u{7f}' <= c && c <= '\u{9f}')
            }
        },
        is_valid_id(id) ==> {
            &&& 0 < id.len() <= MAX_ID_LEN
            &&& forall|i: int| 0 <= i < id.len() ==> {
                let c = #[trigger] id[i];
                ||| ('0' <= c && c <= '9') || ('A' <= c && c <= 'Z') || ('a' <= c && c <= 'z')
                ||| c == '-' || c == '_' || c == '.'
            }
        },
{
    if is_valid_exe(exe) {
        assert forall|i: int| 0 <= i < exe.len() implies {
            let c = #[trigger] exe[i];
            &&& c != '/' && c != '\\' && c != ':' && c != '*' && c != '?' && c != '"'
            &&& c != '<' && c != '>' && c != '|'
            &&& c > '\u{1f}' && !('\u{7f}' <= c && c <= '\u{9f}')
        } by {
            assert(!is_forbidden_in_name(exe[i]));
        }
    }
    if is_valid_id(id) {
        assert forall|i: int| 0 <= i < id.len() implies {
            let c = #[trigger] id[i];
            ||| ('0' <= c && c <= '9') || ('A' <= c && c <= 'Z') || ('a' <= c && c <= 'z')
            ||| c == '-' || c == '_' || c == '.'
        } by {
            assert(is_id_char(id[i]));
        }
    }
}

fn id_char(c: char) -> (r: bool)
    ensures
        r == is_id_char(c),
{
    ('0' <= c && c <= '9') || ('A' <= c && c <= 'Z') || ('a' <= c && c <= 'z') || c == '-'
        || c == '_' || c == '.'
}

/// A store's own id: letters, digits, `-`, `_` and `.`, nothing that could
/// close a field, start a path or hide a second value.
pub fn valid_id(s: &str) -> (r: bool)
    ensures
        r == is_valid_id(s@),
{
    let v = chars_of(s);
    valid_id_chars(&v)
}

pub fn valid_id_chars(v: &Vec<char>) -> (r: bool)
    ensures
        r == is_valid_id(v@),
{
    if v.len() == 0 || v.len() > MAX_ID_LEN {
        return false;
    }
    let mut i: usize = 0;
    while i < v.len()
        invariant
            i <= v.len(),
            forall|k: int| 0 <= k < i ==> is_id_char(#[trigger] v@[k]),
        decreases v.len() - i,
    {
        if !id_char(v[i]) {
            return false;
        }
        i += 1;
    }
    true
}

fn forbidden_in_name(c: char) -> (r: bool)
    ensures
        r == is_forbidden_in_name(c),
{
    control(c) || c == '/' || c == '\\' || c == ':' || c == '*' || c == '?' || c == '"' || c == '<'
        || c == '>' || c == '|'
}

/// The number of UTF-8 bytes a character takes.
pub open spec fn utf8_width(c: char) -> nat {
    if (c as u32) <= 0x7f {
        1
    } else if (c as u32) <= 0x7ff {
        2
    } else if (c as u32) <= 0xffff {
        3
    } else {
        4
    }
}

proof fn lemma_encode_utf8_push(s: Seq<char>, c: char)
    ensures
        encode_utf8(s.push(c)).len() == encode_utf8(s).len() + utf8_width(c),
    decreases s.len(),
{
    if s.len() == 0 {
        assert(s.push(c).drop_first() == Seq::<char>::empty());
        assert(encode_utf8(Seq::<char>::empty()) == Seq::<u8>::empty());
    } else {
        assert(s.push(c).drop_first() == s.drop_first().push(c));
        lemma_encode_utf8_push(s.drop_first(), c);
    }
}

fn width(c: char) -> (r: usize)
    ensures
        r == utf8_width(c),
{
    let u = c as u32;
    if u <= 0x7f {
        1
    } else if u <= 0x7ff {
        2
    } else if u <= 0xffff {
        3
    } else {
        4
    }
}

/// A file NAME: no separators, no reserved characters, no control bytes.
pub fn valid_exe(s: &str) -> (r: bool)
    ensures
        r == is_valid_exe(s@),
{
    let v = chars_of(s);
    valid_exe_chars(&v)
}

pub fn valid_exe_chars(v: &Vec<char>) -> (r: bool)
    ensures
        r == is_valid_exe(v@),
{
    if v.len() == 0 {
        return false;
    }
    let mut bytes: usize = 0;
    let mut i: usize = 0;
    assert(v@.take(0) == Seq::<char>::empty());
    assert(encode_utf8(Seq::<char>::empty()) == Seq::<u8>::empty());
    while i < v.len()
        invariant
            i <= v.len(),
            bytes == encode_utf8(v@.take(i as int)).len(),
            bytes <= MAX_EXE_LEN,
            forall|k: int| 0 <= k < i ==> !is_forbidden_in_name(#[trigger] v@[k]),
        decreases v.len() - i,
    {
        let c = v[i];
        proof {
            assert(v@.take(i + 1) == v@.take(i as int).push(c));
            lemma_encode_utf8_push(v@.take(i as int), c);
        }
        bytes = bytes + width(c);
        if bytes > MAX_EXE_LEN {
            proof {
                lemma_encode_prefix_len(v@, i + 1);
            }
            return false;
        }
        if forbidden_in_name(c) {
            return false;
        }
        i += 1;
    }
    assert(v@.take(v.len() as int) == v@);
    if v.len() == 1 && v[0] == '.' {
        assert(v@ == seq!['.']);
        return false;
    }
    if v.len() == 2 && v[0] == '.' && v[1] == '.' {
        assert(v@ == seq!['.', '.']);
        return false;
    }
    true
}

/// A prefix never encodes to more bytes than the whole.
proof fn lemma_encode_prefix_len(s: Seq<char>, n: int)
    requires
        0 <= n <= s.len(),
    ensures
        encode_utf8(s.take(n)).len() <= encode_utf8(s).len(),
    decreases s.len() - n,
{
    if n < s.len() {
        lemma_encode_prefix_len(s, n + 1);
        assert(s.take(n + 1) == s.take(n).push(s[n]));
        lemma_encode_utf8_push(s.take(n), s[n]);
    } else {
        assert(s.take(n) == s);
    }
}

/// The characters RFC 3986 leaves unreserved.
pub open spec fn is_unreserved_byte(b: u8) -> bool {
    (48 <= b <= 57) || (65 <= b <= 90) || (97 <= b <= 122) || b == 45 || b == 46 || b == 95
        || b == 126
}

fn is_unreserved(b: u8) -> (r: bool)
    ensures
        r == is_unreserved_byte(b),
{
    (48 <= b && b <= 57) || (65 <= b && b <= 90) || (97 <= b && b <= 122) || b == 45 || b == 46
        || b == 95 || b == 126
}

/// An upper-case hexadecimal digit.
pub open spec fn hex_digit(n: u8) -> char {
    if n < 10 {
        (48 + n) as char
    } else {
        (55 + n) as char
    }
}

/// One byte as it travels: itself when unreserved, `%XX` otherwise.
pub open spec fn encode_byte(b: u8) -> Seq<char> {
    if is_unreserved_byte(b) {
        seq![b as char]
    } else {
        seq!['%', hex_digit(b / 16), hex_digit(b % 16)]
    }
}

/// The percent-encoding of a byte string.
pub open spec fn percent_encoded(bytes: Seq<u8>) -> Seq<char>
    decreases bytes.len(),
{
    if bytes.len() == 0 {
        Seq::empty()
    } else {
        percent_encoded(bytes.drop_last()) + encode_byte(bytes.last())
    }
}

/// A character a link carries as it is.
pub open spec fn is_unreserved_char(c: char) -> bool {
    is_ascii_alnum(c) || c == '-' || c == '.' || c == '_' || c == '~'
}

/// What travels holds only unreserved characters and `%`: nothing in it can
/// end a query value, start another or leave the link.
pub proof fn lemma_percent_encoded_travels(bytes: Seq<u8>)
    ensures
        forall|k: int| 0 <= k < percent_encoded(bytes).len() ==> is_unreserved_char(
            #[trigger] percent_encoded(bytes)[k],
        ) || percent_encoded(bytes)[k] == '%',
    decreases bytes.len(),
{
    if bytes.len() > 0 {
        lemma_percent_encoded_travels(bytes.drop_last());
        let before = percent_encoded(bytes.drop_last());
        let b = bytes.last();
        let e = encode_byte(b);
        assert forall|k: int| 0 <= k < e.len() implies is_unreserved_char(#[trigger] e[k]) || e[k] == '%' by {
            if is_unreserved_byte(b) {
                assert(e[k] == b as char);
            } else if k == 1 {
                assert(b / 16 < 16);
            } else if k == 2 {
                assert(b % 16 < 16);
            }
        }
        assert forall|k: int| 0 <= k < percent_encoded(bytes).len() implies is_unreserved_char(
            #[trigger] percent_encoded(bytes)[k],
        ) || percent_encoded(bytes)[k] == '%' by {
            if k < before.len() {
                assert(percent_encoded(bytes)[k] == before[k]);
            } else {
                assert(percent_encoded(bytes)[k] == e[k - before.len()]);
            }
        }
    }
}

/// The value of an upper-case hexadecimal digit.
pub open spec fn hex_value(c: char) -> int {
    if c <= '9' {
        (c as int) - 48
    } else {
        (c as int) - 55
    }
}

/// Percent-decoding: `%XX` stands for the byte `XX`; any other character for
/// the byte of its code.
pub open spec fn percent_decoded(t: Seq<char>) -> Seq<u8>
    decreases t.len(),
{
    if t.len() == 0 {
        Seq::empty()
    } else if t[0] == '%' && t.len() >= 3 {
        seq![(hex_value(t[1]) * 16 + hex_value(t[2])) as u8] + percent_decoded(t.skip(3))
    } else {
        seq![t[0] as u8] + percent_decoded(t.drop_first())
    }
}

proof fn lemma_encoded_front(bytes: Seq<u8>)
    requires
        bytes.len() > 0,
    ensures
        percent_encoded(bytes) == encode_byte(bytes[0]) + percent_encoded(bytes.drop_first()),
    decreases bytes.len(),
{
    if bytes.len() == 1 {
        assert(bytes.drop_last() == Seq::<u8>::empty());
        assert(bytes.drop_first() == Seq::<u8>::empty());
        assert(percent_encoded(bytes.drop_last()) == Seq::<char>::empty());
        assert(bytes.last() == bytes[0]);
        assert(percent_encoded(bytes) == Seq::<char>::empty() + encode_byte(bytes[0]));
        assert(Seq::<char>::empty() + encode_byte(bytes[0]) == encode_byte(bytes[0]));
        assert(percent_encoded(bytes.drop_first()) == Seq::<char>::empty());
    } else {
        lemma_encoded_front(bytes.drop_last());
        assert(bytes.drop_last().drop_first() == bytes.drop_first().drop_last());
        assert(bytes.drop_first().last() == bytes.last());
        assert(bytes.drop_last()[0] == bytes[0]);
    }
}

proof fn lemma_hex_value(n: u8)
    requires
        n < 16,
    ensures
        hex_value(hex_digit(n)) == n,
{
}

/// Percent-decoding gives back the bytes that were encoded.
pub proof fn lemma_percent_decoding_undoes_encoding(bytes: Seq<u8>)
    ensures
        percent_decoded(percent_encoded(bytes)) == bytes,
    decreases bytes.len(),
{
    if bytes.len() == 0 {
        assert(percent_encoded(bytes) == Seq::<char>::empty());
    } else {
        let b = bytes[0];
        let rest = bytes.drop_first();
        lemma_encoded_front(bytes);
        lemma_percent_decoding_undoes_encoding(rest);
        let e = encode_byte(b);
        let r = percent_encoded(rest);
        let t = e + r;
        if is_unreserved_byte(b) {
            assert(t[0] == b as char);
            assert(t.drop_first() == r);
            assert((b as char) as u8 == b);
        } else {
            lemma_hex_value(b / 16);
            lemma_hex_value(b % 16);
            assert(t[0] == '%' && t[1] == hex_digit(b / 16) && t[2] == hex_digit(b % 16));
            assert(t.skip(3) == r);
            assert((b / 16) * 16 + b % 16 == b);
        }
        assert(bytes == seq![b] + rest);
    }
}

/// The encoding is the bytes themselves, read as characters, exactly when
/// every byte is unreserved.
pub proof fn lemma_percent_encoding_is_identity_iff_unreserved(bytes: Seq<u8>)
    ensures
        percent_encoded(bytes) == bytes.map_values(|b: u8| b as char) <==> forall|i: int|
            0 <= i < bytes.len() ==> is_unreserved_byte(#[trigger] bytes[i]),
    decreases bytes.len(),
{
    lemma_encoded_len(bytes);
    if percent_encoded(bytes) =~= bytes.map_values(|b: u8| b as char) {
        assert(percent_encoded(bytes).len() == bytes.len());
        assert forall|i: int| 0 <= i < bytes.len() implies is_unreserved_byte(#[trigger] bytes[i]) by {
            if !is_unreserved_byte(bytes[i]) {
                assert(exists|j: int| 0 <= j < bytes.len() && !is_unreserved_byte(#[trigger] bytes[j]));
            }
        }
    }
    if bytes.len() > 0 {
        let front = bytes.drop_last();
        lemma_percent_encoding_is_identity_iff_unreserved(front);
        let b = bytes.last();
        assert(bytes.map_values(|b: u8| b as char) == front.map_values(|b: u8| b as char).push(b as char));
        if forall|i: int| 0 <= i < bytes.len() ==> is_unreserved_byte(#[trigger] bytes[i]) {
            assert forall|i: int| 0 <= i < front.len() implies is_unreserved_byte(#[trigger] front[i]) by {
                assert(front[i] == bytes[i]);
            }
            assert(is_unreserved_byte(bytes[bytes.len() - 1]));
        }
    }
}

proof fn lemma_utf8_len(s: Seq<char>)
    ensures
        encode_utf8(s).len() >= s.len(),
    decreases s.len(),
{
    if s.len() > 0 {
        lemma_utf8_len(s.drop_first());
    }
}

/// A first byte of a wider encoding is never unreserved.
proof fn lemma_wide_lead_is_reserved(v: u32)
    requires
        !has_width_1_encoding(v),
        is_scalar(v),
    ensures
        !is_unreserved_byte(encode_scalar(v)[0]),
{
    if has_width_2_encoding(v) {
        assert(0xC0u8 | ((v >> 6) & 0x1F) as u8 >= 0xC0) by (bit_vector);
    } else if has_width_3_encoding(v) {
        assert(0xE0u8 | ((v >> 12) & 0x0F) as u8 >= 0xE0) by (bit_vector);
    } else {
        assert(0xF0u8 | ((v >> 18) & 0x7) as u8 >= 0xF0) by (bit_vector);
    }
}

/// Text whose UTF-8 bytes are all unreserved is those bytes, read as
/// characters.
proof fn lemma_unreserved_text(s: Seq<char>)
    requires
        forall|i: int| 0 <= i < encode_utf8(s).len() ==> is_unreserved_byte(#[trigger] encode_utf8(s)[i]),
    ensures
        encode_utf8(s).map_values(|b: u8| b as char) == s,
    decreases s.len(),
{
    if s.len() > 0 {
        let v = s[0] as u32;
        let rest = s.drop_first();
        let e = encode_scalar(v);
        let bytes = encode_utf8(s);
        assert(bytes == e + encode_utf8(rest));
        char_is_scalar(s[0]);
        char_u32_cast(s[0], v);
        assert(e.len() >= 1);
        assert(bytes[0] == e[0]);
        if !has_width_1_encoding(v) {
            lemma_wide_lead_is_reserved(v);
        }
        assert(has_width_1_encoding(v));
        assert(e == seq![(v & 0x7F) as u8]);
        assert(v <= 0x7F ==> (v & 0x7F) as u8 == v) by (bit_vector);
        assert forall|i: int| 0 <= i < encode_utf8(rest).len() implies is_unreserved_byte(
            #[trigger] encode_utf8(rest)[i],
        ) by {
            assert(encode_utf8(rest)[i] == bytes[i + 1]);
        }
        lemma_unreserved_text(rest);
        let b = v as u8;
        assert(b as u32 == v);
        char_u32_cast(s[0], b as u32);
        assert((b as char) == s[0]);
        assert(bytes.map_values(|b: u8| b as char) =~= s) by {
            assert forall|i: int| 0 <= i < s.len() implies bytes.map_values(|b: u8| b as char)[i] == s[i] by {
                if i > 0 {
                    assert(bytes[i] == encode_utf8(rest)[i - 1]);
                    assert(encode_utf8(rest).map_values(|b: u8| b as char)[i - 1] == rest[i - 1]);
                }
            }
        }
    } else {
        assert(encode_utf8(s) == Seq::<u8>::empty());
    }
}

/// Text travels as itself exactly when every byte of its UTF-8 encoding is
/// unreserved.
pub proof fn lemma_text_travels_as_itself_iff_unreserved(s: Seq<char>)
    ensures
        percent_encoded(encode_utf8(s)) == s <==> forall|i: int|
            0 <= i < encode_utf8(s).len() ==> is_unreserved_byte(#[trigger] encode_utf8(s)[i]),
{
    let bytes = encode_utf8(s);
    lemma_utf8_len(s);
    lemma_encoded_len(bytes);
    lemma_percent_encoding_is_identity_iff_unreserved(bytes);
    if forall|i: int| 0 <= i < bytes.len() ==> is_unreserved_byte(#[trigger] bytes[i]) {
        lemma_unreserved_text(s);
    }
    if percent_encoded(bytes) =~= s {
        assert forall|i: int| 0 <= i < bytes.len() implies is_unreserved_byte(#[trigger] bytes[i]) by {
            if !is_unreserved_byte(bytes[i]) {
                assert(exists|j: int| 0 <= j < bytes.len() && !is_unreserved_byte(#[trigger] bytes[j]));
            }
        }
    }
}

/// The encoding is at least as long as the bytes, and longer when a byte is
/// reserved.
proof fn lemma_encoded_len(bytes: Seq<u8>)
    ensures
        percent_encoded(bytes).len() >= bytes.len(),
        (exists|i: int| 0 <= i < bytes.len() && !is_unreserved_byte(#[trigger] bytes[i])) ==> percent_encoded(
            bytes,
        ).len() > bytes.len(),
    decreases bytes.len(),
{
    if bytes.len() > 0 {
        let front = bytes.drop_last();
        lemma_encoded_len(front);
        if exists|i: int| 0 <= i < bytes.len() && !is_unreserved_byte(#[trigger] bytes[i]) {
            let i = choose|i: int| 0 <= i < bytes.len() && !is_unreserved_byte(#[trigger] bytes[i]);
            if i < front.len() {
                assert(front[i] == bytes[i]);
            }
        }
    }
}

fn hex(n: u8) -> (c: char)
    requires
        n < 16,
    ensures
        c == hex_digit(n),
{
    if n < 10 {
        (48 + n) as char
    } else {
        (55 + n) as char
    }
}

/// RFC 3986 percent-encoding of everything but the unreserved set, over the
/// string's UTF-8 bytes.
pub fn percent_encode(s: &str) -> (r: String)
    ensures
        r@ == percent_encoded(encode_utf8(s@)),
{
    let bytes = s.as_bytes();
    let mut out: Vec<char> = Vec::new();
    let mut i: usize = 0;
    assert(bytes@.take(0) == Seq::<u8>::empty());
    while i < bytes.len()
        invariant
            i <= bytes@.len(),
            bytes@ == encode_utf8(s@),
            out@ == percent_encoded(bytes@.take(i as int)),
        decreases bytes@.len() - i,
    {
        let b = bytes[i];
        assert(bytes@.take(i + 1).drop_last() == bytes@.take(i as int));
        if is_unreserved(b) {
            out.push(b as char);
        } else {
            out.push('%');
            out.push(hex(b / 16));
            out.push(hex(b % 16));
        }
        i += 1;
    }
    assert(bytes@.take(bytes@.len() as int) == bytes@);
    string_of(&out)
}

} // verus!
