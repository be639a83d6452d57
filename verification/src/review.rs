//! How the pull request a maintainer reviews shows what reporters wrote.
//! Anyone can open an issue, and the maintainer reads this text before signing
//! anything: every value a reporter could have written is shown inert.

use vstd::prelude::*;
use crate::aggregate::LaunchArgumentProposal;
use crate::text::{
    append_chars, append_str, chars_of, control, is_control, is_whitespace, lemma_trim_of_trimmed,
    lemma_trim_shape,
    push_decimal, decimal, string_of, take_at_most, trim, trim_chars,
};

verus! {

/// Longest reporter text the pull request shows.
pub const MAX_SHOWN: usize = 64;

/// Invisible characters that reorder or hide text on screen.
pub open spec fn is_format_char(c: char) -> bool {
    ||| c == '\u{ad}'
    ||| c == '\u{61c}'
    ||| c == '\u{180e}'
    ||| ('\u{200b}' <= c && c <= '\u{200f}')
    ||| ('\u{202a}' <= c && c <= '\u{202e}')
    ||| ('\u{2060}' <= c && c <= '\u{2064}')
    ||| ('\u{2066}' <= c && c <= '\u{206f}')
    ||| c == '\u{feff}'
}

/// Invisible characters that reorder or hide text on screen.
pub fn is_format(c: char) -> (r: bool)
    ensures
        r == is_format_char(c),
{
    c == '\u{ad}' || c == '\u{61c}' || c == '\u{180e}' || ('\u{200b}' <= c && c <= '\u{200f}')
        || ('\u{202a}' <= c && c <= '\u{202e}') || ('\u{2060}' <= c && c <= '\u{2064}')
        || ('\u{2066}' <= c && c <= '\u{206f}') || c == '\u{feff}'
}

/// A character the pull request may show: not a backtick, not a control
/// character, not an invisible format character.
pub open spec fn is_shown(c: char) -> bool {
    c != '`' && !is_control(c) && !is_format_char(c)
}

/// The characters of `s` that may be shown, in order.
pub open spec fn shown_chars(s: Seq<char>) -> Seq<char>
    decreases s.len(),
{
    if s.len() == 0 {
        Seq::empty()
    } else if is_shown(s.last()) {
        shown_chars(s.drop_last()).push(s.last())
    } else {
        shown_chars(s.drop_last())
    }
}

/// What a code span shows of a reporter's text: the characters that may be
/// shown, at most [`MAX_SHOWN`] of them, trimmed; `(unnamed)` when nothing
/// is left.
pub open spec fn span_content(text: Seq<char>) -> Seq<char> {
    let clean = trim(take_at_most(shown_chars(text), MAX_SHOWN as int));
    if clean.len() == 0 {
        "(unnamed)"@
    } else {
        clean
    }
}

/// A reporter's text as a code span.
pub open spec fn inert_text(text: Seq<char>) -> Seq<char> {
    seq!['`'] + span_content(text) + seq!['`']
}

fn inert_chars(text: &Vec<char>) -> (r: Vec<char>)
    ensures
        r@ == inert_text(text@),
{
    let mut kept: Vec<char> = Vec::new();
    let mut i: usize = 0;
    assert(text@.take(0) == Seq::<char>::empty());
    while i < text.len()
        invariant
            i <= text.len(),
            kept@ == shown_chars(text@.take(i as int)),
        decreases text.len() - i,
    {
        let c = text[i];
        assert(text@.take(i + 1).drop_last() == text@.take(i as int));
        if c != '`' && !control(c) && !is_format(c) {
            kept.push(c);
        }
        i += 1;
    }
    assert(text@.take(text.len() as int) == text@);
    let mut bounded: Vec<char> = Vec::new();
    let mut k: usize = 0;
    while k < kept.len() && k < MAX_SHOWN
        invariant
            k <= kept.len(),
            k <= MAX_SHOWN,
            bounded@ == kept@.take(k as int),
        decreases kept.len() - k,
    {
        bounded.push(kept[k]);
        assert(kept@.take(k + 1) == kept@.take(k as int).push(kept@[k as int]));
        k += 1;
    }
    assert(bounded@ == take_at_most(kept@, MAX_SHOWN as int));
    let clean = trim_chars(&bounded);
    let mut out: Vec<char> = Vec::new();
    out.push('`');
    if clean.len() == 0 {
        append_str(&mut out, "(unnamed)");
    } else {
        append_chars(&mut out, &clean);
    }
    out.push('`');
    out
}

/// A reporter's text as the pull request shows it: inside a code span, so
/// GitHub renders it literally — never a link, an image, a mention or markup —
/// with what could close the span or disguise the text (backticks, line
/// breaks, bidirectional and invisible format characters) taken out, and
/// bounded.
pub fn inert(text: &str) -> (r: String)
    ensures
        r@ == inert_text(text@),
{
    let v = chars_of(text);
    let out = inert_chars(&v);
    string_of(&out)
}

proof fn lemma_shown_chars(s: Seq<char>)
    ensures
        shown_chars(s).len() <= s.len(),
        forall|k: int| 0 <= k < shown_chars(s).len() ==> is_shown(#[trigger] shown_chars(s)[k]),
    decreases s.len(),
{
    if s.len() > 0 {
        lemma_shown_chars(s.drop_last());
    }
}

/// Whatever a reporter wrote, the span holds between its two backticks one to
/// [`MAX_SHOWN`] characters, none of them a backtick, a control character or
/// an invisible format character, and no surrounding whitespace: nothing can
/// close the span, break the line or turn the text around.
pub proof fn lemma_inert_is_inert(text: Seq<char>)
    ensures
        inert_text(text).len() >= 3,
        inert_text(text)[0] == '`',
        inert_text(text).last() == '`',
        span_content(text) == inert_text(text).subrange(1, inert_text(text).len() - 1),
        0 < span_content(text).len() <= MAX_SHOWN,
        forall|k: int| 0 <= k < span_content(text).len() ==> is_shown(#[trigger] span_content(text)[k]),
        !is_whitespace(span_content(text)[0]),
        !is_whitespace(span_content(text).last()),
{
    let bounded = take_at_most(shown_chars(text), MAX_SHOWN as int);
    lemma_shown_chars(text);
    lemma_trim_shape(bounded);
    let clean = trim(bounded);
    let (a, b) = choose|a: int, b: int| 0 <= a <= b <= bounded.len() && clean == bounded.subrange(a, b);
    assert forall|k: int| 0 <= k < clean.len() implies is_shown(#[trigger] clean[k]) by {
        assert(clean[k] == bounded[a + k]);
        assert(bounded[a + k] == shown_chars(text)[a + k]);
    }
    reveal_strlit("(unnamed)");
    let c = span_content(text);
    let t = inert_text(text);
    assert(c == t.subrange(1, t.len() - 1));
}

proof fn lemma_shown_is_filter(s: Seq<char>)
    ensures
        shown_chars(s) == s.filter(|c: char| c != '`' && !is_control(c) && !is_format_char(c)),
    decreases s.len(),
{
    reveal(Seq::filter);
    if s.len() > 0 {
        lemma_shown_is_filter(s.drop_last());
    }
}

/// The span keeps every character of the text that is not a backtick, a
/// control character or an invisible format character, in order, and only
/// those: the first [`MAX_SHOWN`] of them, trimmed, or `(unnamed)` when that
/// leaves nothing. So a text of at most [`MAX_SHOWN`] such characters, with
/// no surrounding whitespace, is shown as exactly those characters.
pub proof fn lemma_span_keeps_shown_characters(text: Seq<char>)
    ensures
        ({
            let kept = text.filter(|c: char| c != '`' && !is_control(c) && !is_format_char(c));
            let bounded = if kept.len() <= MAX_SHOWN { kept } else { kept.take(MAX_SHOWN as int) };
            &&& span_content(text) == if trim(bounded).len() == 0 {
                "(unnamed)"@
            } else {
                trim(bounded)
            }
            &&& 0 < kept.len() <= MAX_SHOWN && !is_whitespace(kept[0]) && !is_whitespace(kept.last())
                ==> span_content(text) == kept
        }),
{
    let kept = text.filter(|c: char| c != '`' && !is_control(c) && !is_format_char(c));
    lemma_shown_is_filter(text);
    if 0 < kept.len() <= MAX_SHOWN && !is_whitespace(kept[0]) && !is_whitespace(kept.last()) {
        lemma_trim_of_trimmed(kept);
    }
}

/// One launch-option proposal as the pull request lists it: every value a
/// reporter could have written is shown inert.
pub open spec fn launch_line(p: crate::aggregate::LaunchView) -> Seq<char> {
    "- "@ + inert_text(p.game_name) + " ("@ + inert_text(p.identity) + ") — "@ + decimal(p.reporter_count)
        + " reporters propose "@ + inert_text(p.launch_argument) + "; signed today: "@ + match p.signed {
        Some(s) => inert_text(s),
        None => "none"@,
    } + "\n"@
}

/// One launch-option proposal as the pull request lists it: every value a
/// reporter could have written is shown [`inert`].
pub fn launch_arg_line(p: &LaunchArgumentProposal) -> (r: String)
    ensures
        r@ == launch_line(p@),
{
    let mut out: Vec<char> = Vec::new();
    append_str(&mut out, "- ");
    append_chars(&mut out, &inert_chars(&chars_of(p.game_name.as_str())));
    append_str(&mut out, " (");
    append_chars(&mut out, &inert_chars(&chars_of(p.identity.as_str())));
    append_str(&mut out, ") — ");
    push_decimal(&mut out, p.reporter_count);
    append_str(&mut out, " reporters propose ");
    append_chars(&mut out, &inert_chars(&chars_of(p.launch_argument.as_str())));
    append_str(&mut out, "; signed today: ");
    match &p.signed {
        Some(s) => append_chars(&mut out, &inert_chars(&chars_of(s.as_str()))),
        None => append_str(&mut out, "none"),
    }
    append_str(&mut out, "\n");
    string_of(&out)
}

} // verus!
