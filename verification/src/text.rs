//! Text as sequences of characters: character classes, trimming, splitting, byte
//! offsets and letter case.

use vstd::prelude::*;
use vstd::utf8::*;

verus! {

/// A set of characters that text is trimmed of or split at.
#[derive(Clone, Copy, PartialEq, Eq, Structural)]
pub enum CharClass {
    /// Unicode white space.
    Whitespace,
    /// Everything that is no white space.
    Word,
    /// Everything that cannot stand in a callsign.
    NotCallsign,
    /// Carriage return and line feed.
    LineEnding,
}

/// Characters with the Unicode property `White_Space`.
pub open spec fn is_whitespace_char(c: char) -> bool {
    let n = c as u32;
    ||| 0x9 <= n <= 0xd
    ||| n == 0x20
    ||| n == 0x85
    ||| n == 0xa0
    ||| n == 0x1680
    ||| 0x2000 <= n <= 0x200a
    ||| n == 0x2028
    ||| n == 0x2029
    ||| n == 0x202f
    ||| n == 0x205f
    ||| n == 0x3000
}

/// Characters of the Unicode general category `Cc`.
pub open spec fn is_control_char(c: char) -> bool {
    let n = c as u32;
    n <= 0x1f || 0x7f <= n <= 0x9f
}

pub open spec fn is_ascii_digit_char(c: char) -> bool {
    '0' <= c <= '9'
}

pub open spec fn is_ascii_letter_char(c: char) -> bool {
    'a' <= c <= 'z' || 'A' <= c <= 'Z'
}

/// ASCII letters and digits, `-` and `/`.
pub open spec fn is_callsign_char(c: char) -> bool {
    is_ascii_letter_char(c) || is_ascii_digit_char(c) || c == '-' || c == '/'
}

impl CharClass {
    pub open spec fn has(self, c: char) -> bool {
        match self {
            CharClass::Whitespace => is_whitespace_char(c),
            CharClass::Word => !is_whitespace_char(c),
            CharClass::NotCallsign => !is_callsign_char(c),
            CharClass::LineEnding => c == '\r' || c == '\n',
        }
    }

    pub fn contains(self, c: char) -> (b: bool)
        ensures
            b == self.has(c),
    {
        match self {
            CharClass::Whitespace => is_whitespace(c),
            CharClass::Word => !is_whitespace(c),
            CharClass::NotCallsign => !in_callsign(c),
            CharClass::LineEnding => c == '\r' || c == '\n',
        }
    }
}

pub fn is_whitespace(c: char) -> (b: bool)
    ensures
        b == is_whitespace_char(c),
{
    let n: u32 = c as u32;
    (0x9 <= n && n <= 0xd) || n == 0x20 || n == 0x85 || n == 0xa0 || n == 0x1680 || (0x2000 <= n
        && n <= 0x200a) || n == 0x2028 || n == 0x2029 || n == 0x202f || n == 0x205f || n == 0x3000
}

pub fn is_control(c: char) -> (b: bool)
    ensures
        b == is_control_char(c),
{
    let n: u32 = c as u32;
    n <= 0x1f || (0x7f <= n && n <= 0x9f)
}

pub fn in_callsign(c: char) -> (b: bool)
    ensures
        b == is_callsign_char(c),
{
    ('a' <= c && c <= 'z') || ('A' <= c && c <= 'Z') || ('0' <= c && c <= '9') || c == '-' || c
        == '/'
}

/// The characters of a string.
pub(crate) fn chars_of(s: &str) -> (v: Vec<char>)
    ensures
        v@ == s@,
{
    let mut v: Vec<char> = Vec::new();
    for c in it: s.chars()
        invariant
            it.seq() == s@,
            v@ == s@.take(it.index()),
    {
        v.push(c);
    }
    v
}

/// The string made of the characters of `v` from `lo` up to `hi`.
pub(crate) fn slice_text(v: &Vec<char>, lo: usize, hi: usize) -> (s: String)
    requires
        lo <= hi <= v@.len(),
    ensures
        s@ == v@.subrange(lo as int, hi as int),
{
    let mut s = String::new();
    let mut i: usize = lo;
    while i < hi
        invariant
            lo <= i <= hi <= v@.len(),
            s@ == v@.subrange(lo as int, i as int),
        decreases hi - i,
    {
        s.push(v[i]);
        i += 1;
    }
    s
}

/// How many characters at the front of `s` are in the class.
pub open spec fn leading(s: Seq<char>, class: CharClass) -> nat
    decreases s.len(),
{
    if s.len() > 0 && class.has(s[0]) {
        1 + leading(s.drop_first(), class)
    } else {
        0
    }
}

/// How many characters at the back of `s` are in the class.
pub open spec fn trailing(s: Seq<char>, class: CharClass) -> nat
    decreases s.len(),
{
    if s.len() > 0 && class.has(s.last()) {
        1 + trailing(s.drop_last(), class)
    } else {
        0
    }
}

/// `s` without the characters of the class at its front.
pub open spec fn trim_start(s: Seq<char>, class: CharClass) -> Seq<char> {
    s.skip(leading(s, class) as int)
}

/// `s` without the characters of the class at its back.
pub open spec fn trim_end(s: Seq<char>, class: CharClass) -> Seq<char> {
    s.take(s.len() - trailing(s, class))
}

/// `s` without the characters of the class at both ends.
pub open spec fn trim_both(s: Seq<char>, class: CharClass) -> Seq<char> {
    trim_end(trim_start(s, class), class)
}

/// `s` without the white space around it.
pub open spec fn trimmed(s: Seq<char>) -> Seq<char> {
    trim_both(s, CharClass::Whitespace)
}

/// The leading characters are in the class, and the one behind them is not.
pub proof fn lemma_leading(s: Seq<char>, class: CharClass)
    ensures
        leading(s, class) <= s.len(),
        forall|j: int| 0 <= j < leading(s, class) ==> class.has(#[trigger] s[j]),
        leading(s, class) < s.len() ==> !class.has(s[leading(s, class) as int]),
    decreases s.len(),
{
    if s.len() > 0 && class.has(s[0]) {
        lemma_leading(s.drop_first(), class);
        assert forall|j: int| 0 <= j < leading(s, class) implies class.has(#[trigger] s[j]) by {
            if j > 0 {
                assert(s[j] == s.drop_first()[j - 1]);
            }
        }
    }
}

/// A run of characters of the class that ends where the class does is all that leads.
pub proof fn lemma_leading_is(s: Seq<char>, class: CharClass, n: int)
    requires
        0 <= n <= s.len(),
        forall|j: int| 0 <= j < n ==> class.has(#[trigger] s[j]),
        n < s.len() ==> !class.has(s[n]),
    ensures
        leading(s, class) == n,
{
    lemma_leading(s, class);
    if leading(s, class) < n {
        assert(class.has(s[leading(s, class) as int]));
    } else if n < leading(s, class) {
        assert(class.has(s[n]));
    }
}

/// The trailing characters are in the class, and the one before them is not.
pub proof fn lemma_trailing(s: Seq<char>, class: CharClass)
    ensures
        trailing(s, class) <= s.len(),
        forall|j: int| s.len() - trailing(s, class) <= j < s.len() ==> class.has(#[trigger] s[j]),
        trailing(s, class) < s.len() ==> !class.has(s[s.len() - trailing(s, class) - 1]),
    decreases s.len(),
{
    if s.len() > 0 && class.has(s.last()) {
        lemma_trailing(s.drop_last(), class);
        assert forall|j: int|
            s.len() - trailing(s, class) <= j < s.len() implies class.has(#[trigger] s[j]) by {
            if j < s.len() - 1 {
                assert(s[j] == s.drop_last()[j]);
            }
        }
    }
}

/// A run of characters of the class at the back that starts where the class does is all that
/// trails.
pub proof fn lemma_trailing_is(s: Seq<char>, class: CharClass, n: int)
    requires
        0 <= n <= s.len(),
        forall|j: int| s.len() - n <= j < s.len() ==> class.has(#[trigger] s[j]),
        n < s.len() ==> !class.has(s[s.len() - n - 1]),
    ensures
        trailing(s, class) == n,
{
    lemma_trailing(s, class);
    if trailing(s, class) < n {
        assert(class.has(s[s.len() - trailing(s, class) - 1]));
    } else if n < trailing(s, class) {
        assert(class.has(s[s.len() - n - 1]));
    }
}

/// Text that does not begin or end in the class is not changed by trimming.
pub proof fn lemma_trim_none(s: Seq<char>, class: CharClass)
    requires
        s.len() > 0 ==> !class.has(s[0]) && !class.has(s.last()),
    ensures
        trim_both(s, class) == s,
        trim_start(s, class) == s,
        trim_end(s, class) == s,
{
    lemma_leading_is(s, class, 0);
    lemma_trailing_is(s, class, 0);
    assert(s.skip(0) =~= s);
    assert(s.take(s.len() as int) =~= s);
}

/// What trimming leaves is a part of the text that neither begins nor ends in the class.
pub proof fn lemma_trim_both(s: Seq<char>, class: CharClass)
    ensures
        ({
            let t = trim_both(s, class);
            let lo = leading(s, class) as int;
            &&& lo + t.len() <= s.len()
            &&& t == s.subrange(lo, lo + t.len())
            &&& t.len() > 0 ==> !class.has(t[0]) && !class.has(t.last())
        }),
{
    lemma_leading(s, class);
    let u = trim_start(s, class);
    lemma_trailing(u, class);
    let t = trim_both(s, class);
    let lo = leading(s, class) as int;
    assert(t =~= s.subrange(lo, lo + t.len()));
}

/// Trimming twice is trimming once.
pub proof fn law_trim_idempotent(s: Seq<char>, class: CharClass)
    ensures
        trim_both(trim_both(s, class), class) == trim_both(s, class),
{
    lemma_trim_both(s, class);
    lemma_trim_none(trim_both(s, class), class);
}

/// How many of the characters of `v` from `lo` up to `hi` lead in the class.
pub(crate) fn count_leading(v: &Vec<char>, lo: usize, hi: usize, class: CharClass) -> (n: usize)
    requires
        lo <= hi <= v@.len(),
    ensures
        n == leading(v@.subrange(lo as int, hi as int), class),
        n <= hi - lo,
{
    let mut i: usize = lo;
    let ghost s = v@.subrange(lo as int, hi as int);
    while i < hi && class.contains(v[i])
        invariant
            lo <= i <= hi <= v@.len(),
            s == v@.subrange(lo as int, hi as int),
            forall|j: int| 0 <= j < i - lo ==> class.has(#[trigger] s[j]),
        decreases hi - i,
    {
        i += 1;
    }
    proof {
        lemma_leading_is(s, class, i - lo);
    }
    i - lo
}

/// How many of the characters of `v` from `lo` up to `hi` trail in the class.
fn count_trailing(v: &Vec<char>, lo: usize, hi: usize, class: CharClass) -> (n: usize)
    requires
        lo <= hi <= v@.len(),
    ensures
        n == trailing(v@.subrange(lo as int, hi as int), class),
        n <= hi - lo,
{
    let mut i: usize = hi;
    let ghost s = v@.subrange(lo as int, hi as int);
    while lo < i && class.contains(v[i - 1])
        invariant
            lo <= i <= hi <= v@.len(),
            s == v@.subrange(lo as int, hi as int),
            forall|j: int| i - lo <= j < s.len() ==> class.has(#[trigger] s[j]),
        decreases i,
    {
        i -= 1;
    }
    proof {
        lemma_trailing_is(s, class, hi - i);
    }
    hi - i
}

/// Where the trimmed part of `v` from `lo` up to `hi` begins and ends.
pub(crate) fn trim_bounds(v: &Vec<char>, lo: usize, hi: usize, class: CharClass) -> (r: (
    usize,
    usize,
))
    requires
        lo <= hi <= v@.len(),
    ensures
        lo <= r.0 <= r.1 <= hi,
        v@.subrange(r.0 as int, r.1 as int) == trim_both(
            v@.subrange(lo as int, hi as int),
            class,
        ),
{
    let a: usize = lo + count_leading(v, lo, hi, class);
    let b: usize = hi - count_trailing(v, a, hi, class);
    proof {
        let s = v@.subrange(lo as int, hi as int);
        assert(trim_start(s, class) =~= v@.subrange(a as int, hi as int));
        assert(trim_both(s, class) =~= v@.subrange(a as int, b as int));
    }
    (a, b)
}

/// The text without the white space around it.
pub fn trim<'a>(s: &'a str) -> (t: &'a str)
    ensures
        t@ == trimmed(s@),
{
    let v = chars_of(s);
    let r = trim_bounds(&v, 0, v.len(), CharClass::Whitespace);
    assert(v@.subrange(0, v@.len() as int) =~= s@);
    s.substring_char(r.0, r.1)
}

/// The text without the white space before it.
pub(crate) fn trim_white_start<'a>(s: &'a str) -> (t: &'a str)
    ensures
        t@ == trim_start(s@, CharClass::Whitespace),
{
    let v = chars_of(s);
    let n: usize = count_leading(&v, 0, v.len(), CharClass::Whitespace);
    assert(v@.subrange(0, v@.len() as int) =~= s@);
    assert(s@.subrange(n as int, s@.len() as int) =~= s@.skip(n as int));
    s.substring_char(n, v.len())
}

/// The text without the carriage returns and line feeds behind it.
pub(crate) fn trim_line_end<'a>(s: &'a str) -> (t: &'a str)
    ensures
        t@ == trim_end(s@, CharClass::LineEnding),
{
    let v = chars_of(s);
    let n: usize = count_trailing(&v, 0, v.len(), CharClass::LineEnding);
    assert(v@.subrange(0, v@.len() as int) =~= s@);
    assert(s@.subrange(0, s@.len() - n) =~= s@.take(s@.len() - n));
    s.substring_char(0, v.len() - n)
}

/// The character before which `offset` bytes of UTF-8 lie, if that is between two characters.
pub open spec fn char_at_byte(s: Seq<char>, offset: int) -> Option<int>
    decreases s.len(),
{
    if offset == 0 {
        Some(0)
    } else if offset < 0 || s.len() == 0 {
        None
    } else {
        match char_at_byte(s.drop_first(), offset - encode_scalar(s[0] as u32).len()) {
            Some(i) => Some(i + 1),
            None => None,
        }
    }
}

/// The text between two byte offsets, if both lie between characters.
pub open spec fn byte_slice(s: Seq<char>, from: int, to: int) -> Option<Seq<char>> {
    match (char_at_byte(s, from), char_at_byte(s, to)) {
        (Some(a), Some(b)) => if a <= b {
            Some(s.subrange(a, b))
        } else {
            None
        },
        _ => None,
    }
}

/// The text behind a byte offset, if that lies between characters.
pub open spec fn byte_tail(s: Seq<char>, from: int) -> Option<Seq<char>> {
    match char_at_byte(s, from) {
        Some(a) => Some(s.skip(a)),
        None => None,
    }
}

/// A byte offset falls between two characters exactly where the UTF-8 encoding of the characters
/// before it has that many bytes.
pub proof fn law_byte_offset(s: Seq<char>, offset: int, i: int)
    requires
        0 <= i <= s.len(),
    ensures
        char_at_byte(s, offset) == Some(i) <==> encode_utf8(s.take(i)).len() == offset,
        char_at_byte(s, offset) matches Some(j) ==> 0 <= j <= s.len(),
    decreases s.len(),
{
    assert(s.take(0) =~= Seq::empty());
    assert(encode_utf8(s.take(0)).len() == 0);
    if s.len() > 0 {
        let width = encode_scalar(s[0] as u32).len();
        if i > 0 {
            assert(s.take(i)[0] == s[0]);
            assert(s.take(i).drop_first() =~= s.drop_first().take(i - 1));
            law_byte_offset(s.drop_first(), offset - width, i - 1);
        } else {
            law_byte_offset(s.drop_first(), offset - width, 0);
        }
    }
}

fn utf8_width(c: char) -> (n: usize)
    ensures
        n == encode_scalar(c as u32).len(),
        1 <= n <= 4,
{
    let n: u32 = c as u32;
    if n <= 0x7f {
        1
    } else if n <= 0x7ff {
        2
    } else if n <= 0xffff {
        3
    } else {
        4
    }
}

/// The character of `v` before which `offset` bytes of UTF-8 lie.
pub(crate) fn index_at_byte(v: &Vec<char>, offset: usize) -> (r: Option<usize>)
    ensures
        match r {
            Some(i) => char_at_byte(v@, offset as int) == Some(i as int) && i <= v@.len(),
            None => char_at_byte(v@, offset as int) is None,
        },
{
    let mut left: usize = offset;
    let mut i: usize = 0;
    assert(v@.skip(0) =~= v@);
    while left > 0
        invariant
            i <= v@.len(),
            match char_at_byte(v@.skip(i as int), left as int) {
                Some(j) => char_at_byte(v@, offset as int) == Some(i + j),
                None => char_at_byte(v@, offset as int) is None,
            },
        decreases left,
    {
        if i == v.len() {
            return None;
        }
        let width = utf8_width(v[i]);
        assert(v@.skip(i as int).drop_first() =~= v@.skip(i + 1));
        if width > left {
            assert(char_at_byte(v@.skip(i + 1), left - width) is None);
            return None;
        }
        left -= width;
        i += 1;
    }
    Some(i)
}

/// Where `c` first occurs in `s`; the length of `s` where it does not.
pub open spec fn find_char(s: Seq<char>, c: char) -> nat
    decreases s.len(),
{
    if s.len() == 0 || s[0] == c {
        0
    } else {
        1 + find_char(s.drop_first(), c)
    }
}

/// `c` stands at the place found, and nowhere before it.
pub proof fn lemma_find_char(s: Seq<char>, c: char)
    ensures
        find_char(s, c) <= s.len(),
        find_char(s, c) < s.len() ==> s[find_char(s, c) as int] == c,
        forall|j: int| 0 <= j < find_char(s, c) ==> #[trigger] s[j] != c,
    decreases s.len(),
{
    if s.len() > 0 && s[0] != c {
        lemma_find_char(s.drop_first(), c);
        assert forall|j: int| 0 <= j < find_char(s, c) implies #[trigger] s[j] != c by {
            if j > 0 {
                assert(s[j] == s.drop_first()[j - 1]);
            }
        }
    }
}

/// The first place at which `c` stands is the one that is found.
pub proof fn lemma_find_char_is(s: Seq<char>, c: char, n: int)
    requires
        0 <= n <= s.len(),
        n < s.len() ==> s[n] == c,
        forall|j: int| 0 <= j < n ==> #[trigger] s[j] != c,
    ensures
        find_char(s, c) == n,
{
    lemma_find_char(s, c);
    if find_char(s, c) < n {
        assert(s[find_char(s, c) as int] != c);
    } else if n < find_char(s, c) {
        assert(s[n] != c);
    }
}

/// Where `c` first occurs in `v` between `lo` and `hi`; `hi` where it does not.
pub(crate) fn position(v: &Vec<char>, lo: usize, hi: usize, c: char) -> (p: usize)
    requires
        lo <= hi <= v@.len(),
    ensures
        lo <= p <= hi,
        p - lo == find_char(v@.subrange(lo as int, hi as int), c),
        p < hi ==> v@[p as int] == c,
{
    let ghost s = v@.subrange(lo as int, hi as int);
    let mut i: usize = lo;
    while i < hi && v[i] != c
        invariant
            lo <= i <= hi <= v@.len(),
            s == v@.subrange(lo as int, hi as int),
            forall|j: int| 0 <= j < i - lo ==> #[trigger] s[j] != c,
        decreases hi - i,
    {
        i += 1;
    }
    proof {
        lemma_find_char_is(s, c, i - lo);
    }
    i
}

/// `s` split at `sep` into at most `n` fields, the last of which keeps the separators in it.
pub open spec fn split_fields(s: Seq<char>, sep: char, n: nat) -> Seq<Seq<char>>
    decreases n,
{
    let i = find_char(s, sep) as int;
    if n <= 1 || i == s.len() {
        seq![s]
    } else {
        seq![s.take(i)] + split_fields(s.skip(i + 1), sep, (n - 1) as nat)
    }
}

/// Where the fields of `v` from `lo` to its end lie.
pub(crate) fn field_bounds(v: &Vec<char>, lo: usize, sep: char, n: usize) -> (r: Vec<
    (usize, usize),
>)
    requires
        lo <= v@.len(),
    ensures
        r@.len() == split_fields(v@.skip(lo as int), sep, n as nat).len(),
        forall|k: int|
            0 <= k < r@.len() ==> {
                &&& lo <= #[trigger] r@[k].0 <= r@[k].1 <= v@.len()
                &&& v@.subrange(r@[k].0 as int, r@[k].1 as int) == split_fields(
                    v@.skip(lo as int),
                    sep,
                    n as nat,
                )[k]
            },
{
    let ghost whole = split_fields(v@.skip(lo as int), sep, n as nat);
    let mut r: Vec<(usize, usize)> = Vec::new();
    let mut start: usize = lo;
    let mut left: usize = n;
    let hi: usize = v.len();
    assert(whole =~= Seq::<Seq<char>>::empty() + split_fields(v@.skip(lo as int), sep, n as nat));
    loop
        invariant_except_break
            lo <= start <= hi,
            hi == v@.len(),
            whole.len() == r@.len() + split_fields(v@.skip(start as int), sep, left as nat).len(),
            forall|k: int|
                r@.len() <= k < whole.len() ==> #[trigger] whole[k] == split_fields(
                    v@.skip(start as int),
                    sep,
                    left as nat,
                )[k - r@.len()],
            forall|k: int|
                0 <= k < r@.len() ==> {
                    &&& lo <= #[trigger] r@[k].0 <= r@[k].1 <= v@.len()
                    &&& v@.subrange(r@[k].0 as int, r@[k].1 as int) == whole[k]
                },
        ensures
            r@.len() == whole.len(),
            forall|k: int|
                0 <= k < r@.len() ==> {
                    &&& lo <= #[trigger] r@[k].0 <= r@[k].1 <= v@.len()
                    &&& v@.subrange(r@[k].0 as int, r@[k].1 as int) == whole[k]
                },
        decreases left,
    {
        let ghost rest = v@.skip(start as int);
        let ghost fields = split_fields(rest, sep, left as nat);
        let i = position(v, start, hi, sep);
        assert(v@.subrange(start as int, hi as int) =~= rest);
        if left <= 1 || i == hi {
            assert(fields.len() == 1);
            assert(whole[r@.len() as int] == fields[0]);
            r.push((start, hi));
            break;
        }
        proof {
            let n0 = r@.len() as int;
            assert(rest.take(i - start) =~= v@.subrange(start as int, i as int));
            assert(rest.skip(i - start + 1) =~= v@.skip(i + 1));
            let tail = split_fields(v@.skip(i + 1), sep, (left - 1) as nat);
            assert(fields == seq![rest.take(i - start)] + tail);
            assert(whole[n0] == fields[0]);
            assert forall|k: int| n0 + 1 <= k < whole.len() implies #[trigger] whole[k] == tail[k
                - (n0 + 1)] by {
                assert(fields[k - n0] == tail[k - n0 - 1]);
            }
        }
        r.push((start, i));
        start = i + 1;
        left -= 1;
    }
    r
}

/// The runs of characters between white space.
pub open spec fn words(s: Seq<char>) -> Seq<Seq<char>>
    decreases s.len(),
    via words_decreases
{
    let t = trim_start(s, CharClass::Whitespace);
    let n = leading(t, CharClass::Word) as int;
    if t.len() == 0 {
        Seq::empty()
    } else {
        seq![t.take(n)] + words(t.skip(n))
    }
}

#[via_fn]
proof fn words_decreases(s: Seq<char>) {
    let t = trim_start(s, CharClass::Whitespace);
    lemma_leading(s, CharClass::Whitespace);
    lemma_leading(t, CharClass::Word);
}

/// A character, as a capital where it is an ASCII letter.
pub open spec fn upper_char(c: char) -> char {
    if 'a' <= c <= 'z' {
        (c as nat - 32) as char
    } else {
        c
    }
}

/// A character, as a small letter where it is an ASCII letter.
pub open spec fn lower_char(c: char) -> char {
    if 'A' <= c <= 'Z' {
        (c as nat + 32) as char
    } else {
        c
    }
}

pub open spec fn ascii_upper(s: Seq<char>) -> Seq<char> {
    Seq::new(s.len(), |i: int| upper_char(s[i]))
}

pub open spec fn ascii_lower(s: Seq<char>) -> Seq<char> {
    Seq::new(s.len(), |i: int| lower_char(s[i]))
}

/// The characters of `v` from `lo` up to `hi`, ASCII letters as capitals.
pub(crate) fn upper_text(v: &Vec<char>, lo: usize, hi: usize) -> (s: String)
    requires
        lo <= hi <= v@.len(),
    ensures
        s@ == ascii_upper(v@.subrange(lo as int, hi as int)),
{
    let mut s = String::new();
    let mut i: usize = lo;
    while i < hi
        invariant
            lo <= i <= hi <= v@.len(),
            s@ == ascii_upper(v@.subrange(lo as int, i as int)),
        decreases hi - i,
    {
        let c = v[i];
        s.push(if 'a' <= c && c <= 'z' {
            (c as u8 - 32) as char
        } else {
            c
        });
        i += 1;
        assert(s@ =~= ascii_upper(v@.subrange(lo as int, i as int)));
    }
    s
}

/// The text, ASCII letters as small letters.
pub(crate) fn lower_text(text: &str) -> (s: String)
    ensures
        s@ == ascii_lower(text@),
{
    let v = chars_of(text);
    let mut s = String::new();
    let mut i: usize = 0;
    while i < v.len()
        invariant
            i <= v@.len(),
            v@ == text@,
            s@ == ascii_lower(v@.take(i as int)),
        decreases v.len() - i,
    {
        let c = v[i];
        s.push(if 'A' <= c && c <= 'Z' {
            (c as u8 + 32) as char
        } else {
            c
        });
        i += 1;
        assert(s@ =~= ascii_lower(v@.take(i as int)));
    }
    assert(v@.take(i as int) =~= text@);
    s
}

/// Whether `core` is what is left of a text between the white space before and behind it.
pub open spec fn is_core(s: Seq<char>, core: Seq<char>) -> bool {
    exists|lo: int| #[trigger] is_core_at(s, core, lo)
}

/// Whether `core` stands in a text at a place with nothing but white space before and behind it.
pub open spec fn is_core_at(s: Seq<char>, core: Seq<char>, lo: int) -> bool {
    &&& 0 <= lo <= lo + core.len() <= s.len()
    &&& s.subrange(lo, lo + core.len()) == core
    &&& forall|j: int|
        0 <= j < lo || lo + core.len() <= j < s.len() ==> is_whitespace_char(#[trigger] s[j])
    &&& core.len() > 0 ==> !is_whitespace_char(core[0]) && !is_whitespace_char(core.last())
}

/// Trimming takes off all the white space around a text, and nothing else.
pub proof fn law_trimmed(s: Seq<char>, core: Seq<char>)
    ensures
        trimmed(s) == core <==> is_core(s, core),
{
    let white = CharClass::Whitespace;
    let t = trimmed(s);
    let lo = leading(s, white) as int;
    lemma_leading(s, white);
    let u = trim_start(s, white);
    lemma_trailing(u, white);
    lemma_trim_both(s, white);
    assert forall|j: int| 0 <= j < lo || lo + t.len() <= j < s.len() implies is_whitespace_char(
        #[trigger] s[j],
    ) by {
        if j >= lo {
            assert(s[j] == u[j - lo]);
            assert(white.has(u[j - lo]));
        } else {
            assert(white.has(s[j]));
        }
    }
    assert(is_core_at(s, t, lo));
    if is_core(s, core) {
        let k = choose|k: int| is_core_at(s, core, k);
        if t.len() > 0 {
            assert(t[0] == s[lo] && t.last() == s[lo + t.len() - 1]);
        }
        if core.len() > 0 {
            assert(core[0] == s[k] && core.last() == s[k + core.len() - 1]);
            assert(t.len() > 0) by {
                assert(!is_whitespace_char(s[k]));
            }
            assert(k == lo);
            assert(core.len() == t.len());
        } else if t.len() > 0 {
            assert(is_whitespace_char(s[lo]));
        }
        assert(core =~= t);
    }
}

/// Only the case of ASCII letters is changed, and nothing else.
pub proof fn law_letter_case(s: Seq<char>, i: int)
    requires
        0 <= i < s.len(),
    ensures
        ascii_upper(s).len() == s.len(),
        ascii_lower(s).len() == s.len(),
        ascii_upper(s)[i] == if 'a' <= s[i] <= 'z' {
            "ABCDEFGHIJKLMNOPQRSTUVWXYZ"@[s[i] as int - 'a' as int]
        } else {
            s[i]
        },
        ascii_lower(s)[i] == if 'A' <= s[i] <= 'Z' {
            "abcdefghijklmnopqrstuvwxyz"@[s[i] as int - 'A' as int]
        } else {
            s[i]
        },
{
    reveal_strlit("ABCDEFGHIJKLMNOPQRSTUVWXYZ");
    reveal_strlit("abcdefghijklmnopqrstuvwxyz");
}

/// The words of two texts that white space keeps apart are the words of the one, then those of the
/// other.
pub proof fn law_words_apart(a: Seq<char>, b: Seq<char>)
    requires
        a.len() == 0 || b.len() == 0 || is_whitespace_char(a.last()) || is_whitespace_char(b[0]),
    ensures
        words(a + b) == words(a) + words(b),
    decreases a.len(),
{
    let white = CharClass::Whitespace;
    let s = a + b;
    let t = trim_start(a, white);
    lemma_leading(a, white);
    let lead = leading(a, white) as int;
    if t.len() == 0 {
        lemma_leading(b, white);
        let n = leading(b, white) as int;
        assert forall|j: int| 0 <= j < a.len() + n implies white.has(#[trigger] s[j]) by {
            if j < a.len() {
                assert(s[j] == a[j]);
            } else {
                assert(s[j] == b[j - a.len()]);
            }
        }
        lemma_leading_is(s, white, a.len() + n);
        assert(trim_start(s, white) =~= trim_start(b, white));
        assert(words(a) =~= Seq::empty());
        assert(words(s) =~= words(a) + words(b));
    } else {
        assert forall|j: int| 0 <= j < lead implies white.has(#[trigger] s[j]) by {
            assert(s[j] == a[j]);
        }
        assert(s[lead] == a[lead]);
        lemma_leading_is(s, white, lead);
        let u = trim_start(s, white);
        assert(u =~= t + b);
        lemma_leading(t, CharClass::Word);
        let n = leading(t, CharClass::Word) as int;
        assert forall|j: int| 0 <= j < n implies CharClass::Word.has(#[trigger] u[j]) by {
            assert(u[j] == t[j]);
        }
        assert(t.last() == a.last());
        assert(n < u.len() ==> !CharClass::Word.has(u[n])) by {
            if n < t.len() {
                assert(u[n] == t[n]);
            } else if n < u.len() {
                assert(CharClass::Word.has(t[n - 1]));
                assert(u[n] == b[0]);
            }
        }
        lemma_leading_is(u, CharClass::Word, n);
        assert(t[0] == a[lead]);
        assert(n > 0);
        let rest = t.skip(n);
        if rest.len() > 0 {
            assert(rest.last() == t.last());
        }
        law_words_apart(rest, b);
        assert(u.take(n) =~= t.take(n));
        assert(u.skip(n) =~= rest + b);
        assert(words(s) =~= words(a) + words(b));
    }
}

/// A text without white space is one word, and white space holds none.
pub proof fn law_one_word(s: Seq<char>)
    ensures
        (s.len() > 0 && forall|i: int| 0 <= i < s.len() ==> !is_whitespace_char(#[trigger] s[i]))
            ==> words(s) == seq![s],
        (forall|i: int| 0 <= i < s.len() ==> is_whitespace_char(#[trigger] s[i])) ==> words(s)
            == Seq::<Seq<char>>::empty(),
{
    let white = CharClass::Whitespace;
    if forall|i: int| 0 <= i < s.len() ==> is_whitespace_char(#[trigger] s[i]) {
        assert forall|j: int| 0 <= j < s.len() implies white.has(#[trigger] s[j]) by {
            assert(is_whitespace_char(s[j]));
        }
        lemma_leading_is(s, white, s.len() as int);
        assert(words(s) =~= Seq::empty());
    }
    if s.len() > 0 && forall|i: int| 0 <= i < s.len() ==> !is_whitespace_char(#[trigger] s[i]) {
        assert(!is_whitespace_char(s[0]));
        lemma_leading_is(s, white, 0);
        assert(trim_start(s, white) =~= s);
        assert forall|j: int| 0 <= j < s.len() implies CharClass::Word.has(#[trigger] s[j]) by {
            assert(!is_whitespace_char(s[j]));
        }
        lemma_leading_is(s, CharClass::Word, s.len() as int);
        assert(s.take(s.len() as int) =~= s);
        let none = s.skip(s.len() as int);
        assert(none =~= Seq::empty());
        lemma_leading(none, white);
        assert(words(none) =~= Seq::empty());
        assert(words(s) =~= seq![s]);
    }
}

} // verus!
