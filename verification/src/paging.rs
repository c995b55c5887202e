//! Formatting of DAPNET texts: normalisation, callsigns, prefixes and limits.

use crate::text;
use crate::text::{
    chars_of, count_leading, in_callsign, is_control, trim, trim_bounds, upper_text, CharClass,
};
use vstd::prelude::*;

verus! {

/// A trimmed value, or the fallback where nothing is left of it.
pub open spec fn or_fallback(value: Seq<char>, fallback: Seq<char>) -> Seq<char> {
    if text::trimmed(value).len() == 0 {
        fallback
    } else {
        text::trimmed(value)
    }
}

/// The version as the core expects it: with a `v` before it, `v1.0` where none is set.
pub open spec fn version_text(version: Seq<char>) -> Seq<char> {
    let t = text::trimmed(version);
    if t.len() == 0 {
        "v1.0"@
    } else if t[0] == 'v' || t[0] == 'V' {
        t
    } else {
        "v"@ + t
    }
}

/// The callsign and the text, or the text alone where there is no callsign.
pub open spec fn plain_message(callsign: Seq<char>, text: Seq<char>) -> Seq<char> {
    if text::trimmed(callsign).len() == 0 {
        text::trimmed(text)
    } else {
        text::trimmed(callsign) + " - "@ + text::trimmed(text)
    }
}

/// The prefix and the text, or the one that is not empty.
pub open spec fn with_prefix(prefix: Seq<char>, text: Seq<char>) -> Seq<char> {
    if text::trimmed(prefix).len() == 0 {
        text::trimmed(text)
    } else if text::trimmed(text).len() == 0 {
        text::trimmed(prefix)
    } else {
        text::trimmed(prefix) + " "@ + text::trimmed(text)
    }
}

/// At most the first `max` characters.
pub open spec fn truncated(text: Seq<char>, max: nat) -> Seq<char> {
    if text.len() > max {
        text.take(max as int)
    } else {
        text
    }
}

/// Characters that a message text keeps: tabs, and whatever is no control character.
pub open spec fn is_kept(c: char) -> bool {
    !text::is_control_char(c) || c == '\t'
}

/// The characters of `s` that a message text keeps.
pub open spec fn kept_chars(s: Seq<char>) -> Seq<char>
    decreases s.len(),
{
    if s.len() == 0 {
        Seq::empty()
    } else if is_kept(s.last()) {
        kept_chars(s.drop_last()).push(s.last())
    } else {
        kept_chars(s.drop_last())
    }
}

/// A message text without control characters and without white space around it.
pub open spec fn normalized(text: Seq<char>) -> Seq<char> {
    text::trimmed(kept_chars(text))
}

/// Three to twelve letters, digits, dashes and slashes, with a letter and a digit among them.
pub open spec fn is_callsign(s: Seq<char>) -> bool {
    &&& 3 <= s.len() <= 12
    &&& exists|i: int| 0 <= i < s.len() && text::is_ascii_letter_char(#[trigger] s[i])
    &&& exists|i: int| 0 <= i < s.len() && text::is_ascii_digit_char(#[trigger] s[i])
    &&& forall|i: int| 0 <= i < s.len() ==> text::is_callsign_char(#[trigger] s[i])
}

/// The callsign that a word holds, in capitals.
pub open spec fn callsign_in_word(word: Seq<char>) -> Option<Seq<char>> {
    let cleaned = text::trim_both(word, CharClass::NotCallsign);
    if is_callsign(cleaned) {
        Some(text::ascii_upper(cleaned))
    } else {
        None
    }
}

/// The callsign of the first word that holds one.
pub open spec fn first_callsign(words: Seq<Seq<char>>) -> Option<Seq<char>>
    decreases words.len(),
{
    if words.len() == 0 {
        None
    } else {
        match callsign_in_word(words[0]) {
            Some(c) => Some(c),
            None => first_callsign(words.drop_first()),
        }
    }
}

/// The first callsign in a text.
pub open spec fn callsign_in(text: Seq<char>) -> Option<Seq<char>> {
    first_callsign(text::words(text))
}

/// The trimmed value, or the fallback where nothing is left of it.
pub fn non_empty_or(value: &str, fallback: &str) -> (r: String)
    ensures
        r@ == or_fallback(value@, fallback@),
{
    let t = trim(value);
    if t.is_empty() {
        fallback.to_owned()
    } else {
        t.to_owned()
    }
}

/// The version with a `v` before it.
pub fn dapnet_version(version: &str) -> (r: String)
    ensures
        r@ == version_text(version@),
{
    let t = trim(version);
    if t.is_empty() {
        "v1.0".to_owned()
    } else {
        let first = t.get_char(0);
        if first == 'v' || first == 'V' {
            t.to_owned()
        } else {
            "v".to_owned().concat(t)
        }
    }
}

/// The callsign and the text, as one line of plain text.
pub fn format_plain_message(callsign: &str, text: &str) -> (r: String)
    ensures
        r@ == plain_message(callsign@, text@),
{
    let callsign = trim(callsign);
    let text = trim(text);
    if callsign.is_empty() {
        text.to_owned()
    } else {
        callsign.to_owned().concat(" - ").concat(text)
    }
}

/// The text behind its prefix.
pub fn prefixed_text(prefix: &str, text: &str) -> (r: String)
    ensures
        r@ == with_prefix(prefix@, text@),
{
    let prefix = trim(prefix);
    let text = trim(text);
    if prefix.is_empty() {
        text.to_owned()
    } else if text.is_empty() {
        prefix.to_owned()
    } else {
        prefix.to_owned().concat(" ").concat(text)
    }
}

/// At most the first `max` characters of the text, and whether it had more.
pub fn truncate_chars(text: &str, max: usize) -> (r: (String, bool))
    ensures
        r.0@ == truncated(text@, max as nat),
        r.1 == (text@.len() > max),
{
    let n = text.unicode_len();
    if n > max {
        assert(text@.subrange(0, max as int) =~= text@.take(max as int));
        (text.substring_char(0, max).to_owned(), true)
    } else {
        (text.to_owned(), false)
    }
}

/// How many characters of a line a log shows.
pub const LOG_LINE_MAX_CHARS: usize = 160;

/// The part of a line that a log shows.
pub fn sanitize_log_line(line: &str) -> (r: String)
    ensures
        r@ == truncated(line@, LOG_LINE_MAX_CHARS as nat),
{
    truncate_chars(line, LOG_LINE_MAX_CHARS).0
}

/// The text without control characters, tabs excepted, and without white space around it.
pub fn normalize_text(text: &str) -> (r: String)
    ensures
        r@ == normalized(text@),
{
    let mut kept = String::new();
    for c in it: text.chars()
        invariant
            it.seq() == text@,
            kept@ == kept_chars(text@.take(it.index())),
    {
        assert(text@.take(it.index() + 1).drop_last() =~= text@.take(it.index()));
        if !is_control(c) || c == '\t' {
            kept.push(c);
        }
    }
    assert(text@.take(text@.len() as int) =~= text@);
    trim(kept.as_str()).to_owned()
}

/// Whether the characters of `v` from `lo` up to `hi` are a callsign.
fn check_callsign(v: &Vec<char>, lo: usize, hi: usize) -> (b: bool)
    requires
        lo <= hi <= v@.len(),
    ensures
        b == is_callsign(v@.subrange(lo as int, hi as int)),
{
    let ghost s = v@.subrange(lo as int, hi as int);
    if hi - lo < 3 || hi - lo > 12 {
        return false;
    }
    let mut letter = false;
    let mut digit = false;
    let mut i: usize = lo;
    while i < hi
        invariant
            lo <= i <= hi <= v@.len(),
            s == v@.subrange(lo as int, hi as int),
            letter <==> exists|j: int|
                0 <= j < i - lo && text::is_ascii_letter_char(#[trigger] s[j]),
            digit <==> exists|j: int|
                0 <= j < i - lo && text::is_ascii_digit_char(#[trigger] s[j]),
            forall|j: int| 0 <= j < i - lo ==> text::is_callsign_char(#[trigger] s[j]),
        decreases hi - i,
    {
        let c = v[i];
        assert(s[i - lo] == c);
        if !in_callsign(c) {
            return false;
        }
        if ('a' <= c && c <= 'z') || ('A' <= c && c <= 'Z') {
            letter = true;
        }
        if '0' <= c && c <= '9' {
            digit = true;
        }
        i += 1;
    }
    letter && digit
}

/// The first callsign in a text, in capitals.
pub fn extract_callsign(text: &str) -> (r: Option<String>)
    ensures
        match r {
            Some(c) => callsign_in(text@) == Some(c@),
            None => callsign_in(text@) is None,
        },
{
    let v = chars_of(text);
    let hi: usize = v.len();
    let mut i: usize = 0;
    assert(v@.skip(0) =~= v@);
    loop
        invariant
            i <= hi,
            hi == v@.len(),
            v@ == text@,
            callsign_in(text@) == callsign_in(v@.skip(i as int)),
        decreases hi - i,
    {
        let ghost rest = v@.skip(i as int);
        let start: usize = i + count_leading(&v, i, hi, CharClass::Whitespace);
        let ghost t = text::trim_start(rest, CharClass::Whitespace);
        assert(v@.subrange(i as int, hi as int) =~= rest);
        assert(t =~= v@.skip(start as int));
        if start == hi {
            return None;
        }
        let n: usize = count_leading(&v, start, hi, CharClass::Word);
        assert(v@.subrange(start as int, hi as int) =~= t);
        proof {
            text::lemma_leading(rest, CharClass::Whitespace);
            text::lemma_leading(t, CharClass::Word);
            assert(t.take(n as int) =~= v@.subrange(start as int, start + n));
            assert(t.skip(n as int) =~= v@.skip(start + n));
            assert(text::words(rest).drop_first() =~= text::words(t.skip(n as int)));
        }
        let r = trim_bounds(&v, start, start + n, CharClass::NotCallsign);
        if check_callsign(&v, r.0, r.1) {
            return Some(upper_text(&v, r.0, r.1));
        }
        i = start + n;
    }
}

proof fn lemma_kept_chars(s: Seq<char>)
    ensures
        forall|i: int| 0 <= i < kept_chars(s).len() ==> is_kept(#[trigger] kept_chars(s)[i]),
    decreases s.len(),
{
    if s.len() > 0 {
        lemma_kept_chars(s.drop_last());
        let k = kept_chars(s.drop_last());
        assert forall|i: int| 0 <= i < kept_chars(s).len() implies is_kept(
            #[trigger] kept_chars(s)[i],
        ) by {
            if i < k.len() {
                assert(kept_chars(s)[i] == k[i]);
            }
        }
    }
}

proof fn lemma_kept_all(s: Seq<char>)
    requires
        forall|i: int| 0 <= i < s.len() ==> is_kept(#[trigger] s[i]),
    ensures
        kept_chars(s) == s,
    decreases s.len(),
{
    if s.len() > 0 {
        lemma_kept_all(s.drop_last());
        assert(s.drop_last().push(s.last()) =~= s);
    }
}

/// A normalized text holds no control character but tabs, and neither begins nor ends in white
/// space.
pub proof fn law_normalized_clean(s: Seq<char>)
    ensures
        forall|i: int|
            0 <= i < normalized(s).len() ==> (!text::is_control_char(#[trigger] normalized(s)[i])
                || normalized(s)[i] == '\t'),
        normalized(s).len() > 0 ==> !text::is_whitespace_char(normalized(s)[0])
            && !text::is_whitespace_char(normalized(s).last()),
{
    let k = kept_chars(s);
    lemma_kept_chars(s);
    text::lemma_trim_both(k, CharClass::Whitespace);
    let lo = text::leading(k, CharClass::Whitespace) as int;
    assert forall|i: int| 0 <= i < normalized(s).len() implies (!text::is_control_char(
        #[trigger] normalized(s)[i],
    ) || normalized(s)[i] == '\t') by {
        assert(normalized(s)[i] == k[lo + i]);
        assert(is_kept(k[lo + i]));
    }
}

/// Normalizing a text twice is normalizing it once.
pub proof fn law_normalize_idempotent(s: Seq<char>)
    ensures
        normalized(normalized(s)) == normalized(s),
{
    law_normalized_clean(s);
    let n = normalized(s);
    assert forall|i: int| 0 <= i < n.len() implies is_kept(#[trigger] n[i]) by {}
    lemma_kept_all(n);
    text::law_trim_idempotent(kept_chars(s), CharClass::Whitespace);
}

/// A version that was formatted begins with a `v` and is not changed by formatting it again.
pub proof fn law_version(version: Seq<char>)
    ensures
        version_text(version).len() > 0,
        version_text(version)[0] == 'v' || version_text(version)[0] == 'V',
        version_text(version_text(version)) == version_text(version),
{
    let t = text::trimmed(version);
    let r = version_text(version);
    text::lemma_trim_both(version, CharClass::Whitespace);
    reveal_strlit("v1.0");
    reveal_strlit("v");
    if t.len() > 0 {
        assert(r.last() == t.last());
    }
    text::lemma_trim_none(r, CharClass::Whitespace);
}

/// A truncated text is a beginning of the text: its first `max` characters, or all of the text
/// where that is no longer.
pub proof fn law_truncated(s: Seq<char>, max: nat)
    ensures
        truncated(s, max).len() == if s.len() > max {
            max
        } else {
            s.len()
        },
        truncated(s, max) == s.take(truncated(s, max).len() as int),
        s.len() <= max ==> truncated(s, max) == s,
{
    assert(s.take(s.len() as int) =~= s);
}

proof fn lemma_first_callsign(ws: Seq<Seq<char>>)
    ensures
        first_callsign(ws) matches Some(c) ==> exists|i: int|
            0 <= i < ws.len() && callsign_in_word(#[trigger] ws[i]) == Some(c),
    decreases ws.len(),
{
    if ws.len() > 0 && callsign_in_word(ws[0]) is None {
        lemma_first_callsign(ws.drop_first());
        if let Some(c) = first_callsign(ws) {
            let i = choose|i: int|
                0 <= i < ws.drop_first().len() && callsign_in_word(#[trigger] ws.drop_first()[i])
                    == Some(c);
            assert(callsign_in_word(ws[i + 1]) == Some(c));
        }
    }
}

/// The callsign found in a text is a callsign without small letters, and it is the callsign that
/// is found in itself.
pub proof fn law_callsign(s: Seq<char>)
    ensures
        callsign_in(s) matches Some(c) ==> {
            &&& is_callsign(c)
            &&& forall|i: int| 0 <= i < c.len() ==> !('a' <= #[trigger] c[i] <= 'z')
            &&& callsign_in(c) == Some(c)
        },
{
    lemma_first_callsign(text::words(s));
    if let Some(c) = callsign_in(s) {
        let ws = text::words(s);
        let k = choose|k: int| 0 <= k < ws.len() && callsign_in_word(#[trigger] ws[k]) == Some(c);
        let cleaned = text::trim_both(ws[k], CharClass::NotCallsign);
        assert(c == text::ascii_upper(cleaned));
        let a = choose|i: int|
            0 <= i < cleaned.len() && text::is_ascii_letter_char(#[trigger] cleaned[i]);
        let d = choose|i: int|
            0 <= i < cleaned.len() && text::is_ascii_digit_char(#[trigger] cleaned[i]);
        assert(text::is_ascii_letter_char(c[a]));
        assert(text::is_ascii_digit_char(c[d]));
        assert forall|i: int| 0 <= i < c.len() implies text::is_callsign_char(#[trigger] c[i])
            && !('a' <= c[i] <= 'z') by {
            assert(text::is_callsign_char(cleaned[i]));
        }
        assert(is_callsign(c));
        // `c` is one word, none of which is trimmed off.
        assert(text::is_callsign_char(c[0]) && text::is_callsign_char(c.last()));
        text::lemma_trim_none(c, CharClass::Whitespace);
        assert forall|j: int| 0 <= j < c.len() implies CharClass::Word.has(#[trigger] c[j]) by {
            assert(text::is_callsign_char(c[j]));
        }
        text::lemma_leading_is(c, CharClass::Word, c.len() as int);
        text::lemma_trim_none(c, CharClass::NotCallsign);
        assert(c.take(c.len() as int) =~= c);
        assert(text::words(c)[0] == c);
        assert(text::ascii_upper(c) =~= c);
        assert(callsign_in_word(c) == Some(c));
    }
}

proof fn lemma_is_kept(c: char)
    ensures
        is_kept(c) <==> c == '\t' || (' ' <= c && !('\u{7f}' <= c <= '\u{9f}')),
{
}

/// The characters that a message text keeps are all of its characters but the control characters,
/// from which tabs are excepted.
proof fn lemma_kept_is_filtered(s: Seq<char>)
    ensures
        kept_chars(s) == s.filter(
            |c: char| c == '\t' || (' ' <= c && !('\u{7f}' <= c <= '\u{9f}')),
        ),
    decreases s.len(),
{
    reveal(Seq::filter);
    if s.len() > 0 {
        lemma_is_kept(s.last());
        lemma_kept_is_filtered(s.drop_last());
    }
}

/// From a message text nothing is lost but control characters, from which tabs are excepted, and
/// then the white space around it.
pub proof fn law_normalized(s: Seq<char>)
    ensures
        text::is_core(
            s.filter(|c: char| c == '\t' || (' ' <= c && !('\u{7f}' <= c <= '\u{9f}'))),
            normalized(s),
        ),
{
    lemma_kept_is_filtered(s);
    text::law_trimmed(kept_chars(s), normalized(s));
}

/// A message text without control characters but tabs, and without white space around it, stays
/// as it is.
pub proof fn law_normalize_keeps(s: Seq<char>)
    requires
        forall|i: int|
            0 <= i < s.len() ==> #[trigger] s[i] == '\t' || (' ' <= s[i] && !('\u{7f}' <= s[i]
                <= '\u{9f}')),
        s.len() > 0 ==> !text::is_whitespace_char(s[0]) && !text::is_whitespace_char(s.last()),
    ensures
        normalized(s) == s,
{
    assert forall|i: int| 0 <= i < s.len() implies is_kept(#[trigger] s[i]) by {
        lemma_is_kept(s[i]);
    }
    lemma_kept_all(s);
    text::lemma_trim_none(s, CharClass::Whitespace);
}

/// A version that begins with a `v`, small or capital, is kept as it is, and any other gets a
/// small one before it. White space around it does not matter.
pub proof fn law_version_kept(version: Seq<char>, core: Seq<char>)
    requires
        text::is_core(version, core),
    ensures
        core.len() == 0 ==> version_text(version) == seq!['v', '1', '.', '0'],
        core.len() > 0 && (core[0] == 'v' || core[0] == 'V') ==> version_text(version) == core,
        core.len() > 0 && core[0] != 'v' && core[0] != 'V' ==> version_text(version) == seq!['v']
            + core,
{
    text::law_trimmed(version, core);
    reveal_strlit("v1.0");
    reveal_strlit("v");
    assert("v1.0"@ =~= seq!['v', '1', '.', '0']);
    assert("v"@ =~= seq!['v']);
}

/// A value is kept without the white space around it, and the fallback is taken only where nothing
/// is left.
pub proof fn law_fallback(value: Seq<char>, core: Seq<char>, fallback: Seq<char>)
    requires
        text::is_core(value, core),
    ensures
        or_fallback(value, fallback) == if core.len() == 0 {
            fallback
        } else {
            core
        },
{
    text::law_trimmed(value, core);
}

/// Two texts that are put together both come whole, without the white space around them: a
/// callsign before a message behind a dash, and a prefix before a text behind a space. What is
/// empty leaves nothing behind but the callsign's dash.
pub proof fn law_put_together(first: Seq<char>, a: Seq<char>, second: Seq<char>, b: Seq<char>)
    requires
        text::is_core(first, a),
        text::is_core(second, b),
    ensures
        plain_message(first, second) == if a.len() == 0 {
            b
        } else {
            a + seq![' ', '-', ' '] + b
        },
        with_prefix(first, second) == if a.len() == 0 {
            b
        } else if b.len() == 0 {
            a
        } else {
            a + seq![' '] + b
        },
{
    text::law_trimmed(first, a);
    text::law_trimmed(second, b);
    reveal_strlit(" - ");
    reveal_strlit(" ");
    assert(" - "@ =~= seq![' ', '-', ' ']);
    assert(" "@ =~= seq![' ']);
}

/// A letter, a digit, a dash or a slash.
pub open spec fn may_stand_in_callsign(c: char) -> bool {
    'a' <= c <= 'z' || 'A' <= c <= 'Z' || '0' <= c <= '9' || c == '-' || c == '/'
}

/// Whether a callsign stands in a text from `lo` up to `hi`: three to twelve letters, digits,
/// dashes and slashes, a letter and a digit among them, in a word from `left` up to `right` that
/// holds nothing else of the kind around them.
pub open spec fn callsign_at(s: Seq<char>, left: int, lo: int, hi: int, right: int) -> bool {
    &&& 0 <= left <= lo && lo + 3 <= hi <= lo + 12 && hi <= right <= s.len()
    &&& left == 0 || text::is_whitespace_char(s[left - 1])
    &&& right == s.len() || text::is_whitespace_char(s[right])
    &&& forall|i: int|
        left <= i < lo || hi <= i < right ==> !text::is_whitespace_char(#[trigger] s[i])
            && !may_stand_in_callsign(s[i])
    &&& forall|i: int| lo <= i < hi ==> may_stand_in_callsign(#[trigger] s[i])
    &&& exists|i: int|
        lo <= i < hi && ('a' <= #[trigger] s[i] <= 'z' || 'A' <= s[i] <= 'Z')
    &&& exists|i: int| lo <= i < hi && '0' <= #[trigger] s[i] <= '9'
}

/// The callsign of a word.
proof fn lemma_word_callsign(w: Seq<char>, lo: int, hi: int)
    requires
        callsign_at(w, 0, lo, hi, w.len() as int),
    ensures
        callsign_in_word(w) == Some(text::ascii_upper(w.subrange(lo, hi))),
        text::words(w) == seq![w],
{
    let class = CharClass::NotCallsign;
    let c = w.subrange(lo, hi);
    assert forall|j: int| 0 <= j < lo implies class.has(#[trigger] w[j]) by {
        assert(!may_stand_in_callsign(w[j]));
    }
    assert(may_stand_in_callsign(w[lo]));
    text::lemma_leading_is(w, class, lo);
    let u = text::trim_start(w, class);
    let n = w.len() - hi;
    assert forall|j: int| u.len() - n <= j < u.len() implies class.has(#[trigger] u[j]) by {
        assert(u[j] == w[lo + j]);
        assert(!may_stand_in_callsign(w[lo + j]));
    }
    assert(may_stand_in_callsign(w[hi - 1]));
    assert(u[u.len() - n - 1] == w[hi - 1]);
    text::lemma_trailing_is(u, class, n);
    assert(text::trim_both(w, class) =~= c);
    let a = choose|i: int| lo <= i < hi && ('a' <= #[trigger] w[i] <= 'z' || 'A' <= w[i] <= 'Z');
    let d = choose|i: int| lo <= i < hi && '0' <= #[trigger] w[i] <= '9';
    assert(text::is_ascii_letter_char(c[a - lo]));
    assert(text::is_ascii_digit_char(c[d - lo]));
    assert forall|i: int| 0 <= i < c.len() implies text::is_callsign_char(#[trigger] c[i]) by {
        assert(may_stand_in_callsign(w[lo + i]));
    }
    assert forall|i: int| 0 <= i < w.len() implies !text::is_whitespace_char(#[trigger] w[i]) by {
        if lo <= i < hi {
            assert(may_stand_in_callsign(w[i]));
        }
    }
    text::law_one_word(w);
}

proof fn lemma_first_apart(a: Seq<Seq<char>>, b: Seq<Seq<char>>)
    ensures
        first_callsign(a + b) == if first_callsign(a) is Some {
            first_callsign(a)
        } else {
            first_callsign(b)
        },
    decreases a.len(),
{
    if a.len() == 0 {
        assert(a + b =~= b);
    } else {
        assert((a + b)[0] == a[0]);
        assert((a + b).drop_first() =~= a.drop_first() + b);
        lemma_first_apart(a.drop_first(), b);
    }
}

/// A callsign that stands in a text is found, in capitals, unless one is found in what stands
/// before its word.
pub proof fn law_callsign_found(s: Seq<char>, left: int, lo: int, hi: int, right: int)
    requires
        callsign_at(s, left, lo, hi, right),
    ensures
        callsign_in(s) == if callsign_in(s.take(left)) is Some {
            callsign_in(s.take(left))
        } else {
            Some(text::ascii_upper(s.subrange(lo, hi)))
        },
{
    let before = s.take(left);
    let w = s.subrange(left, right);
    let after = s.skip(right);
    assert(callsign_at(w, 0, lo - left, hi - left, w.len() as int)) by {
        let a = choose|i: int|
            lo <= i < hi && ('a' <= #[trigger] s[i] <= 'z' || 'A' <= s[i] <= 'Z');
        let d = choose|i: int| lo <= i < hi && '0' <= #[trigger] s[i] <= '9';
        assert(w[a - left] == s[a]);
        assert(w[d - left] == s[d]);
        assert forall|i: int|
            0 <= i < lo - left || hi - left <= i < w.len() implies !text::is_whitespace_char(
            #[trigger] w[i],
        ) && !may_stand_in_callsign(w[i]) by {
            assert(w[i] == s[left + i]);
        }
        assert forall|i: int| lo - left <= i < hi - left implies may_stand_in_callsign(
            #[trigger] w[i],
        ) by {
            assert(w[i] == s[left + i]);
        }
    }
    lemma_word_callsign(w, lo - left, hi - left);
    assert(w.subrange(lo - left, hi - left) =~= s.subrange(lo, hi));
    let rest = w + after;
    assert(s =~= before + rest);
    text::law_words_apart(w, after);
    text::law_words_apart(before, rest);
    lemma_first_apart(text::words(before), text::words(rest));
    lemma_first_apart(seq![w], text::words(after));
    assert(seq![w].drop_first() =~= Seq::empty());
    assert(first_callsign(seq![w]) == callsign_in_word(w));
}

/// A callsign that is found stands in the text.
pub proof fn law_callsign_stands(s: Seq<char>)
    ensures
        callsign_in(s) matches Some(c) ==> exists|left: int, lo: int, hi: int, right: int|
            #[trigger] callsign_at(s, left, lo, hi, right) && c == text::ascii_upper(
                s.subrange(lo, hi),
            ),
    decreases s.len(),
{
    let white = CharClass::Whitespace;
    let class = CharClass::NotCallsign;
    let t = text::trim_start(s, white);
    let k = text::leading(s, white) as int;
    text::lemma_leading(s, white);
    if t.len() > 0 {
        text::lemma_leading(t, CharClass::Word);
        let n = text::leading(t, CharClass::Word) as int;
        let w = t.take(n);
        let rest = t.skip(n);
        assert(t[0] == s[k]);
        assert(text::words(s)[0] == w);
        assert(text::words(s).drop_first() =~= text::words(rest));
        if let Some(c) = callsign_in(s) {
            if callsign_in_word(w) is Some {
                let cleaned = text::trim_both(w, class);
                let a = text::leading(w, class) as int;
                text::lemma_leading(w, class);
                let u = text::trim_start(w, class);
                text::lemma_trailing(u, class);
                text::lemma_trim_both(w, class);
                let lo = k + a;
                let hi = lo + cleaned.len();
                assert(s.subrange(lo, hi) =~= cleaned);
                let x = choose|i: int|
                    0 <= i < cleaned.len() && text::is_ascii_letter_char(#[trigger] cleaned[i]);
                let d = choose|i: int|
                    0 <= i < cleaned.len() && text::is_ascii_digit_char(#[trigger] cleaned[i]);
                assert(s[lo + x] == cleaned[x] && s[lo + d] == cleaned[d]);
                assert forall|i: int| lo <= i < hi implies may_stand_in_callsign(
                    #[trigger] s[i],
                ) by {
                    assert(text::is_callsign_char(cleaned[i - lo]));
                }
                assert forall|i: int| k <= i < lo || hi <= i < k + n implies
                    !text::is_whitespace_char(#[trigger] s[i]) && !may_stand_in_callsign(s[i]) by {
                    assert(s[i] == t[i - k]);
                    assert(CharClass::Word.has(t[i - k]));
                    assert(s[i] == w[i - k]);
                    if i < lo {
                        assert(class.has(w[i - k]));
                    } else {
                        assert(s[i] == u[i - lo]);
                        assert(class.has(u[i - lo]));
                    }
                }
                if k > 0 {
                    assert(white.has(s[k - 1]));
                }
                if k + n < s.len() {
                    assert(s[k + n] == t[n]);
                }
                assert(callsign_at(s, k, lo, hi, k + n));
            } else {
                law_callsign_stands(rest);
                let (left, lo, hi, right) = choose|left: int, lo: int, hi: int, right: int|
                    #[trigger] callsign_at(rest, left, lo, hi, right) && c == text::ascii_upper(
                        rest.subrange(lo, hi),
                    );
                let o = k + n;
                assert(forall|i: int| 0 <= i < rest.len() ==> #[trigger] rest[i] == s[o + i]);
                assert(s.subrange(o + lo, o + hi) =~= rest.subrange(lo, hi));
                assert(rest[0] == t[n]);
                assert(left > 0) by {
                    if left == 0 {
                        if lo == 0 {
                            assert(may_stand_in_callsign(rest[0]));
                        } else {
                            assert(!text::is_whitespace_char(rest[0]));
                        }
                    }
                }
                assert(rest[left - 1] == s[o + left - 1]);
                if right < rest.len() {
                    assert(rest[right] == s[o + right]);
                }
                let x = choose|i: int|
                    lo <= i < hi && ('a' <= #[trigger] rest[i] <= 'z' || 'A' <= rest[i] <= 'Z');
                let d = choose|i: int| lo <= i < hi && '0' <= #[trigger] rest[i] <= '9';
                assert(s[o + x] == rest[x] && s[o + d] == rest[d]);
                assert forall|i: int| o + lo <= i < o + hi implies may_stand_in_callsign(
                    #[trigger] s[i],
                ) by {
                    assert(s[i] == rest[i - o]);
                }
                assert forall|i: int|
                    o + left <= i < o + lo || o + hi <= i < o + right implies
                    !text::is_whitespace_char(#[trigger] s[i]) && !may_stand_in_callsign(s[i]) by {
                    assert(s[i] == rest[i - o]);
                }
                assert(callsign_at(s, o + left, o + lo, o + hi, o + right));
            }
        }
    }
}

} // verus!
