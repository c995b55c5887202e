//! Messages of the RWTH core feed.
//!
//! A message line is `#<id> <type>:<speed>:<ric>:<function>:<text>`, with the id and the RIC in
//! hexadecimal and the other numbers in decimal.

use crate::number;
use crate::number::{decimal_text, lower_hex_text, read_unsigned, upper_hex_text};
use crate::outside;
use crate::outside::{md5_compute, utc_now_rfc3339};
use crate::paging;
use crate::paging::{extract_callsign, normalize_text};
use crate::text;
use crate::text::{chars_of, field_bounds, index_at_byte, slice_text};
use vstd::prelude::*;
use vstd::utf8::*;

verus! {

/// A paging message, as it is forwarded.
#[derive(Debug, Clone)]
pub struct DapnetMessage {
    pub id: String,
    pub callsign: String,
    pub recipient: String,
    pub text: String,
    pub timestamp: String,
    pub priority: Option<u8>,
    pub msg_type: u8,
    pub speed: Option<u8>,
    pub ric: Option<u32>,
    pub function: Option<u8>,
}

/// What a message holds.
pub struct MessageView {
    pub id: Seq<char>,
    pub callsign: Seq<char>,
    pub recipient: Seq<char>,
    pub text: Seq<char>,
    pub timestamp: Seq<char>,
    pub priority: Option<u8>,
    pub msg_type: u8,
    pub speed: Option<u8>,
    pub ric: Option<u32>,
    pub function: Option<u8>,
}

impl View for DapnetMessage {
    type V = MessageView;

    open spec fn view(&self) -> MessageView {
        MessageView {
            id: self.id@,
            callsign: self.callsign@,
            recipient: self.recipient@,
            text: self.text@,
            timestamp: self.timestamp@,
            priority: self.priority,
            msg_type: self.msg_type,
            speed: self.speed,
            ric: self.ric,
            function: self.function,
        }
    }
}

/// The fields of a message line.
#[derive(Debug, Clone)]
pub struct RwthFields {
    /// The id that the line is numbered with.
    pub msg_id: u8,
    /// All of the line behind the id.
    pub body: String,
    pub msg_type: u8,
    pub speed: Option<u8>,
    pub ric: Option<u32>,
    pub function: Option<u8>,
    pub text: String,
    pub recipient: String,
    pub callsign: String,
}

/// What the fields of a message line hold.
pub struct FieldsView {
    pub msg_id: u8,
    pub body: Seq<char>,
    pub msg_type: u8,
    pub speed: Option<u8>,
    pub ric: Option<u32>,
    pub function: Option<u8>,
    pub text: Seq<char>,
    pub recipient: Seq<char>,
    pub callsign: Seq<char>,
}

impl View for RwthFields {
    type V = FieldsView;

    open spec fn view(&self) -> FieldsView {
        FieldsView {
            msg_id: self.msg_id,
            body: self.body@,
            msg_type: self.msg_type,
            speed: self.speed,
            ric: self.ric,
            function: self.function,
            text: self.text@,
            recipient: self.recipient@,
            callsign: self.callsign@,
        }
    }
}

/// A number of at most 255 in the given radix.
pub open spec fn byte_field(s: Seq<char>, radix: nat) -> Option<u8> {
    match number::parse_unsigned(s, radix, 0xff) {
        Some(n) => Some(n as u8),
        None => None,
    }
}

/// A hexadecimal number of at most 32 bits.
pub open spec fn ric_field(s: Seq<char>) -> Option<u32> {
    match number::parse_unsigned(s, 16, 0xffff_ffff) {
        Some(n) => Some(n as u32),
        None => None,
    }
}

/// The id of a message line: its second and third byte, in hexadecimal.
pub open spec fn line_id(line: Seq<char>) -> Option<u8> {
    match text::byte_slice(line, 1, 3) {
        Some(id) => byte_field(id, 16),
        None => None,
    }
}

/// Whom a message is for: the RIC with its function, as far as they could be read.
pub open spec fn recipient_text(ric: Option<u32>, function: Option<u8>, raw: Seq<char>) -> Seq<
    char,
> {
    match (ric, function) {
        (Some(r), Some(f)) => "RIC "@ + number::decimal(r as nat) + " / func "@ + number::decimal(
            f as nat,
        ),
        (Some(r), None) => "RIC "@ + number::decimal(r as nat),
        _ => raw,
    }
}

/// The callsign that a message names, or its recipient where it names none.
pub open spec fn message_callsign(text: Seq<char>, recipient: Seq<char>) -> Seq<char> {
    match paging::callsign_in(text) {
        Some(c) => c,
        None => recipient,
    }
}

/// The fields of a message line, or why it has none.
pub open spec fn fields_of(line: Seq<char>) -> Result<FieldsView, Seq<char>> {
    match (line_id(line), text::byte_tail(line, 4)) {
        (None, _) => Err("invalid message id"@),
        (Some(_), None) => Err("message line too short"@),
        (Some(msg_id), Some(body)) => {
            let parts = text::split_fields(body, ':', 5);
            if parts.len() != 5 {
                Err("expected five colon-separated fields"@)
            } else if byte_field(parts[0], 10) is None {
                Err("invalid message type '"@ + parts[0] + "'"@)
            } else if paging::normalized(parts[4]).len() == 0 {
                Err("empty message text"@)
            } else {
                let ric = ric_field(parts[2]);
                let function = byte_field(parts[3], 10);
                let text = paging::normalized(parts[4]);
                let recipient = recipient_text(ric, function, parts[2]);
                Ok(
                    FieldsView {
                        msg_id,
                        body,
                        msg_type: byte_field(parts[0], 10)->0,
                        speed: byte_field(parts[1], 10),
                        ric,
                        function,
                        text,
                        recipient,
                        callsign: message_callsign(text, recipient),
                    },
                )
            }
        },
    }
}

/// The hash of a text: its MD5 digest in hexadecimal.
pub open spec fn stable_hash(input: Seq<char>) -> Seq<char> {
    number::lower_hex(outside::md5_digest(encode_utf8(input)))
}

/// The name under which a message is remembered: its line's id, and the hash of all behind it.
pub open spec fn message_id(msg_id: u8, body_hash: Seq<char>) -> Seq<char> {
    "rwth:"@ + number::upper_hex_byte(msg_id) + ":"@ + body_hash
}

/// The message that fields make, given the hash of their body and the time of arrival.
pub open spec fn message_of(
    fields: FieldsView,
    body_hash: Seq<char>,
    timestamp: Seq<char>,
) -> MessageView {
    MessageView {
        id: message_id(fields.msg_id, body_hash),
        callsign: fields.callsign,
        recipient: fields.recipient,
        text: fields.text,
        timestamp,
        priority: None,
        msg_type: fields.msg_type,
        speed: fields.speed,
        ric: fields.ric,
        function: fields.function,
    }
}

/// The message of a line that arrives at a given time, or why there is none.
pub open spec fn message_at(line: Seq<char>, timestamp: Seq<char>) -> Result<
    MessageView,
    Seq<char>,
> {
    match fields_of(line) {
        Ok(f) => Ok(message_of(f, stable_hash(f.body), timestamp)),
        Err(e) => Err(e),
    }
}

/// The id of a message line.
pub fn rwth_line_id(line: &str) -> (id: Option<u8>)
    ensures
        id == line_id(line@),
{
    let v = chars_of(line);
    match (index_at_byte(&v, 1), index_at_byte(&v, 3)) {
        (Some(a), Some(b)) => {
            if a > b {
                return None;
            }
            match read_unsigned(&v, a, b, 16, 0xff) {
                Some(n) => Some(n as u8),
                None => None,
            }
        },
        _ => None,
    }
}

/// A decimal number of at most 255 in `v`.
fn read_byte(v: &Vec<char>, bounds: (usize, usize)) -> (r: Option<u8>)
    requires
        bounds.0 <= bounds.1 <= v@.len(),
    ensures
        r == byte_field(v@.subrange(bounds.0 as int, bounds.1 as int), 10),
{
    match read_unsigned(v, bounds.0, bounds.1, 10, 0xff) {
        Some(n) => Some(n as u8),
        None => None,
    }
}

fn format_recipient(ric: Option<u32>, function: Option<u8>, raw: String) -> (r: String)
    ensures
        r@ == recipient_text(ric, function, raw@),
{
    match (ric, function) {
        (Some(ric), Some(function)) => "RIC ".to_owned().concat(
            decimal_text(ric as u64).as_str(),
        ).concat(" / func ").concat(decimal_text(function as u64).as_str()),
        (Some(ric), None) => "RIC ".to_owned().concat(decimal_text(ric as u64).as_str()),
        _ => raw,
    }
}

/// The fields of a message line, or why it has none.
pub fn parse_rwth_fields(line: &str) -> (r: Result<RwthFields, String>)
    ensures
        match r {
            Ok(f) => fields_of(line@) == Ok::<FieldsView, Seq<char>>(f@),
            Err(e) => fields_of(line@) == Err::<FieldsView, Seq<char>>(e@),
        },
{
    let msg_id: u8 = match rwth_line_id(line) {
        Some(id) => id,
        None => {
            return Err("invalid message id".to_owned());
        },
    };
    let v = chars_of(line);
    let start: usize = match index_at_byte(&v, 4) {
        Some(i) => i,
        None => {
            return Err("message line too short".to_owned());
        },
    };
    let body = slice_text(&v, start, v.len());
    assert(body@ =~= line@.skip(start as int));
    let bounds = field_bounds(&v, start, ':', 5);
    let ghost parts = text::split_fields(body@, ':', 5);
    if bounds.len() != 5 {
        return Err("expected five colon-separated fields".to_owned());
    }
    assert(v@.subrange(bounds@[0].0 as int, bounds@[0].1 as int) == parts[0]);
    assert(v@.subrange(bounds@[1].0 as int, bounds@[1].1 as int) == parts[1]);
    assert(v@.subrange(bounds@[2].0 as int, bounds@[2].1 as int) == parts[2]);
    assert(v@.subrange(bounds@[3].0 as int, bounds@[3].1 as int) == parts[3]);
    assert(v@.subrange(bounds@[4].0 as int, bounds@[4].1 as int) == parts[4]);
    let msg_type: u8 = match read_byte(&v, bounds[0]) {
        Some(t) => t,
        None => {
            return Err(
                "invalid message type '".to_owned().concat(
                    slice_text(&v, bounds[0].0, bounds[0].1).as_str(),
                ).concat("'"),
            );
        },
    };
    let speed = read_byte(&v, bounds[1]);
    let ric: Option<u32> = read_unsigned(&v, bounds[2].0, bounds[2].1, 16, 0xffff_ffff);
    let function = read_byte(&v, bounds[3]);
    let text = normalize_text(slice_text(&v, bounds[4].0, bounds[4].1).as_str());
    if text.as_str().is_empty() {
        return Err("empty message text".to_owned());
    }
    let recipient = format_recipient(ric, function, slice_text(&v, bounds[2].0, bounds[2].1));
    let callsign = match extract_callsign(text.as_str()) {
        Some(c) => c,
        None => recipient.clone(),
    };
    Ok(RwthFields { msg_id, body, msg_type, speed, ric, function, text, recipient, callsign })
}

/// The message that fields make, given the hash of their body and the time of arrival.
pub fn rwth_message(fields: RwthFields, body_hash: &str, timestamp: String) -> (m: DapnetMessage)
    ensures
        m@ == message_of(fields@, body_hash@, timestamp@),
{
    let id = "rwth:".to_owned().concat(upper_hex_text(fields.msg_id).as_str()).concat(":").concat(
        body_hash,
    );
    DapnetMessage {
        id,
        callsign: fields.callsign,
        recipient: fields.recipient,
        text: fields.text,
        timestamp,
        priority: None,
        msg_type: fields.msg_type,
        speed: fields.speed,
        ric: fields.ric,
        function: fields.function,
    }
}

/// The MD5 digest of a text, in hexadecimal.
pub fn stable_hash_hex(input: &str) -> (r: String)
    ensures
        r@ == stable_hash(input@),
{
    let digest = md5_compute(input.as_bytes());
    lower_hex_text(digest.as_slice())
}

/// The message of a line that arrives now, or why there is none.
pub fn parse_rwth_message(line: &str) -> (r: Result<DapnetMessage, String>)
    ensures
        match r {
            Ok(m) => message_at(line@, m.timestamp@) == Ok::<MessageView, Seq<char>>(m@)
                && outside::ends_in_utc(m.timestamp@),
            Err(e) => fields_of(line@) == Err::<FieldsView, Seq<char>>(e@),
        },
{
    match parse_rwth_fields(line) {
        Ok(fields) => {
            let body_hash = stable_hash_hex(fields.body.as_str());
            Ok(rwth_message(fields, body_hash.as_str(), utc_now_rfc3339()))
        },
        Err(e) => Err(e),
    }
}

/// A message line has the same message, and so the same id, whenever it arrives: only the time of
/// arrival differs.
pub proof fn law_same_line_same_id(line: Seq<char>, now: Seq<char>, later: Seq<char>)
    ensures
        message_at(line, now) is Ok <==> message_at(line, later) is Ok,
        message_at(line, now) matches Ok(m) ==> message_at(line, later) == Ok::<
            MessageView,
            Seq<char>,
        >(MessageView { timestamp: later, ..m }),
        message_at(line, now) matches Err(e) ==> message_at(line, later) == Err::<
            MessageView,
            Seq<char>,
        >(e),
{
}

/// The text of a message is not empty, holds no control character but tabs, and neither begins
/// nor ends in white space.
pub proof fn law_message_text(line: Seq<char>, now: Seq<char>)
    ensures
        message_at(line, now) matches Ok(m) ==> {
            &&& m.text.len() > 0
            &&& forall|i: int|
                0 <= i < m.text.len() ==> (!text::is_control_char(#[trigger] m.text[i])
                    || m.text[i] == '\t')
            &&& !text::is_whitespace_char(m.text[0])
            &&& !text::is_whitespace_char(m.text.last())
        },
{
    if let Ok(m) = message_at(line, now) {
        let body = text::byte_tail(line, 4)->0;
        let parts = text::split_fields(body, ':', 5);
        assert(m.text == paging::normalized(parts[4]));
        paging::law_normalized_clean(parts[4]);
    }
}

/// The line of a message with the given id, type, speed, RIC, function and text.
pub open spec fn message_line(
    id: u8,
    msg_type: Seq<char>,
    speed: Seq<char>,
    ric: Seq<char>,
    function: Seq<char>,
    text: Seq<char>,
) -> Seq<char> {
    seq!['#'] + number::upper_hex_byte(id) + seq![' '] + (msg_type + seq![':'] + speed + seq![':']
        + ric + seq![':'] + function + seq![':'] + text)
}

/// Splitting off a front without the separator.
proof fn lemma_split_front(front: Seq<char>, rest: Seq<char>, sep: char, n: nat)
    requires
        !front.contains(sep),
        n >= 2,
    ensures
        text::split_fields(front + seq![sep] + rest, sep, n) == seq![front] + text::split_fields(
            rest,
            sep,
            (n - 1) as nat,
        ),
{
    let s = front + seq![sep] + rest;
    let k = front.len() as int;
    assert forall|j: int| 0 <= j < k implies #[trigger] s[j] != sep by {
        assert(front.contains(front[j]));
    }
    assert(s[k] == sep);
    text::lemma_find_char_is(s, sep, k);
    assert(s.take(k) =~= front);
    assert(s.skip(k + 1) =~= rest);
}

/// The text of a message line is all that stands behind its fourth colon, colons of its own
/// included, and each field before it is read from its own place.
pub proof fn law_message_line(
    id: u8,
    msg_type: Seq<char>,
    speed: Seq<char>,
    ric: Seq<char>,
    function: Seq<char>,
    txt: Seq<char>,
)
    requires
        !msg_type.contains(':'),
        !speed.contains(':'),
        !ric.contains(':'),
        !function.contains(':'),
    ensures
        ({
            let line = message_line(id, msg_type, speed, ric, function, txt);
            &&& line_id(line) == Some(id)
            &&& byte_field(msg_type, 10) is Some && paging::normalized(txt).len() > 0
                <==> fields_of(line) is Ok
            &&& fields_of(line) matches Ok(f) ==> {
                &&& f.msg_id == id
                &&& byte_field(msg_type, 10) == Some(f.msg_type)
                &&& f.speed == byte_field(speed, 10)
                &&& f.ric == ric_field(ric)
                &&& f.function == byte_field(function, 10)
                &&& f.text == paging::normalized(txt)
                &&& f.recipient == recipient_text(f.ric, f.function, ric)
                &&& f.callsign == message_callsign(f.text, f.recipient)
            }
        }),
{
    let line = message_line(id, msg_type, speed, ric, function, txt);
    let body = msg_type + seq![':'] + speed + seq![':'] + ric + seq![':'] + function + seq![':']
        + txt;
    let hex = number::upper_hex_byte(id);
    number::law_hex_byte_read(id);
    // The first four characters take one byte each.
    assert(line[0] == '#' && line[1] == hex[0] && line[2] == hex[1] && line[3] == ' ');
    let l1 = line.drop_first();
    let l2 = l1.drop_first();
    let l3 = l2.drop_first();
    let l4 = l3.drop_first();
    assert(l1[0] == hex[0] && l2[0] == hex[1] && l3[0] == ' ');
    assert(encode_scalar(line[0] as u32).len() == 1);
    assert(encode_scalar(l1[0] as u32).len() == 1);
    assert(encode_scalar(l2[0] as u32).len() == 1);
    assert(encode_scalar(l3[0] as u32).len() == 1);
    assert(text::char_at_byte(l4, 0) == Some(0int));
    assert(text::char_at_byte(l3, 0) == Some(0int));
    assert(text::char_at_byte(l3, 1) == Some(1int));
    assert(text::char_at_byte(l2, 1) == Some(1int));
    assert(text::char_at_byte(l2, 2) == Some(2int));
    assert(text::char_at_byte(l1, 0) == Some(0int));
    assert(text::char_at_byte(l1, 2) == Some(2int));
    assert(text::char_at_byte(l1, 3) == Some(3int));
    assert(text::char_at_byte(line, 1) == Some(1int));
    assert(text::char_at_byte(line, 3) == Some(3int));
    assert(text::char_at_byte(line, 4) == Some(4int));
    assert(line.subrange(1, 3) =~= hex);
    assert(line.skip(4) =~= body);
    // The fields are split off one by one.
    let r3 = function + seq![':'] + txt;
    let r2 = ric + seq![':'] + r3;
    let r1 = speed + seq![':'] + r2;
    assert(body =~= msg_type + seq![':'] + r1);
    lemma_split_front(msg_type, r1, ':', 5);
    lemma_split_front(speed, r2, ':', 4);
    lemma_split_front(ric, r3, ':', 3);
    lemma_split_front(function, txt, ':', 2);
    let parts = text::split_fields(body, ':', 5);
    assert(parts =~= seq![msg_type, speed, ric, function, txt]);
}

/// How many bytes the first characters of a line take.
proof fn lemma_widths(line: Seq<char>)
    ensures
        text::char_at_byte(line, 1) == if line.len() >= 1 && line[0] <= '\u{7f}' {
            Some(1int)
        } else {
            None
        },
        line.len() >= 2 && line[0] <= '\u{7f}' && line[1] > '\u{7f}' ==> text::char_at_byte(line, 3)
            is None || text::char_at_byte(line, 3) == Some(2int),
        line.len() >= 2 && line[0] <= '\u{7f}' && line[1] <= '\u{7f}' ==> text::char_at_byte(
            line,
            3,
        ) == if line.len() >= 3 && line[2] <= '\u{7f}' {
            Some(3int)
        } else {
            None
        },
        line.len() == 1 ==> text::char_at_byte(line, 3) is None || line[0] > '\u{7f}',
        line.len() >= 3 && line[0] <= '\u{7f}' && line[1] <= '\u{7f}' && line[2] <= '\u{7f}'
            ==> text::char_at_byte(line, 4) == if line.len() >= 4 && line[3] <= '\u{7f}' {
            Some(4int)
        } else {
            None
        },
{
    reveal_with_fuel(text::char_at_byte, 6);
    if line.len() > 0 {
        let l1 = line.drop_first();
        lemma_width(line[0]);
        if l1.len() > 0 {
            let l2 = l1.drop_first();
            assert(l1[0] == line[1]);
            lemma_width(l1[0]);
            if l2.len() > 0 {
                let l3 = l2.drop_first();
                assert(l2[0] == line[2]);
                lemma_width(l2[0]);
                if l3.len() > 0 {
                    assert(l3[0] == line[3]);
                    lemma_width(l3[0]);
                }
            }
        }
    }
}

/// ASCII characters take one byte, all others more.
proof fn lemma_width(c: char)
    ensures
        c <= '\u{7f}' ==> encode_scalar(c as u32).len() == 1,
        c > '\u{7f}' ==> 2 <= encode_scalar(c as u32).len() <= 4,
{
}

/// A message line has an id exactly where its second and third characters, behind an ASCII
/// character, are a hexadecimal number.
pub proof fn law_line_id(line: Seq<char>, id: u8)
    ensures
        line_id(line) == Some(id) <==> line.len() >= 3 && line[0] <= '\u{7f}'
            && number::spells_signed(line.subrange(1, 3), id as nat, 16),
{
    lemma_widths(line);
    if line.len() >= 3 {
        let s = line.subrange(1, 3);
        number::law_number_read(s, id as nat, 16, 0xff);
        if number::spells_signed(s, id as nat, 16) {
            number::lemma_spelled_in_ascii(s, id as nat, 16);
            assert(s[0] == line[1] && s[1] == line[2]);
        }
    }
    if line.len() >= 2 {
        let t = line.subrange(1, 2);
        assert(t[0] == line[1]);
        number::law_number_read(t, id as nat, 16, 0xff);
        if number::spells_signed(t, id as nat, 16) {
            number::lemma_spelled_in_ascii(t, id as nat, 16);
        }
    }
    if line_id(line) == Some(id) {
        assert(text::byte_slice(line, 1, 3) is Some);
    }
}

/// Where a line has an id, its body begins behind the character that follows, which must be an
/// ASCII character.
proof fn lemma_body(line: Seq<char>)
    requires
        line_id(line) is Some,
    ensures
        line.len() >= 3,
        text::byte_tail(line, 4) == if line.len() >= 4 && line[3] <= '\u{7f}' {
            Some(line.skip(4))
        } else {
            None
        },
{
    let id = line_id(line)->0;
    law_line_id(line, id);
    let s = line.subrange(1, 3);
    number::lemma_spelled_in_ascii(s, id as nat, 16);
    assert(s[0] == line[1] && s[1] == line[2]);
    lemma_widths(line);
}

/// A line is refused where it has no id, where nothing or no ASCII character follows the id, and
/// where fewer than four colons follow that.
pub proof fn law_line_refused(line: Seq<char>)
    ensures
        line_id(line) is None ==> fields_of(line) == Err::<FieldsView, Seq<char>>(
            "invalid message id"@,
        ),
        line_id(line) is Some && (line.len() < 4 || line[3] > '\u{7f}') ==> fields_of(line)
            == Err::<FieldsView, Seq<char>>("message line too short"@),
        line_id(line) is Some && line.len() >= 4 && line[3] <= '\u{7f}' && (forall|
            i: int,
            j: int,
            k: int,
            l: int,
        |
            4 <= i < j < k < l < line.len() ==> !(#[trigger] line[i] == ':' && #[trigger] line[j]
                == ':' && #[trigger] line[k] == ':' && #[trigger] line[l] == ':')) ==> fields_of(
            line,
        ) == Err::<FieldsView, Seq<char>>("expected five colon-separated fields"@),
{
    if line_id(line) is Some {
        lemma_body(line);
        if line.len() >= 4 && line[3] <= '\u{7f}' {
            let s0 = line.skip(4);
            let p0 = text::find_char(s0, ':') as int;
            text::lemma_find_char(s0, ':');
            reveal_with_fuel(text::split_fields, 6);
            if p0 < s0.len() {
                let s1 = s0.skip(p0 + 1);
                let p1 = text::find_char(s1, ':') as int;
                text::lemma_find_char(s1, ':');
                let i1 = 4 + p0;
                assert(line[i1] == ':');
                if p1 < s1.len() {
                    let s2 = s1.skip(p1 + 1);
                    let p2 = text::find_char(s2, ':') as int;
                    text::lemma_find_char(s2, ':');
                    let i2 = i1 + 1 + p1;
                    assert(line[i2] == s1[p1]);
                    if p2 < s2.len() {
                        let s3 = s2.skip(p2 + 1);
                        let p3 = text::find_char(s3, ':') as int;
                        text::lemma_find_char(s3, ':');
                        let i3 = i2 + 1 + p2;
                        assert(line[i3] == s2[p2]);
                        if p3 < s3.len() {
                            let i4 = i3 + 1 + p3;
                            assert(line[i4] == s3[p3]);
                        }
                    }
                }
            }
        }
    }
}

/// A line with an id and four colons is read field by field. The type, the speed and the function
/// are decimal numbers of at most a byte and the RIC is a hexadecimal number of at most 32 bits,
/// whatever digits they are made of. The line is refused only where its type is no such number or
/// nothing is left of its text, which is all that stands behind the fourth colon.
pub proof fn law_fields_read(
    line: Seq<char>,
    msg_type: Seq<char>,
    speed: Seq<char>,
    ric: Seq<char>,
    function: Seq<char>,
    txt: Seq<char>,
)
    requires
        line_id(line) is Some,
        line.len() >= 4,
        line[3] <= '\u{7f}',
        line.skip(4) == msg_type + seq![':'] + speed + seq![':'] + ric + seq![':'] + function
            + seq![':'] + txt,
        !msg_type.contains(':'),
        !speed.contains(':'),
        !ric.contains(':'),
        !function.contains(':'),
    ensures
        (forall|t: u8| !number::spells_signed(msg_type, t as nat, 10)) ==> fields_of(line) == Err::<
            FieldsView,
            Seq<char>,
        >("invalid message type '"@ + msg_type + "'"@),
        forall|t: u8| #[trigger]
            number::spells_signed(msg_type, t as nat, 10) ==> match fields_of(line) {
                Ok(f) => paging::normalized(txt).len() > 0 && f.msg_type == t,
                Err(e) => paging::normalized(txt).len() == 0 && e == "empty message text"@,
            },
        fields_of(line) matches Ok(f) ==> {
            &&& line_id(line) == Some(f.msg_id)
            &&& f.body == line.skip(4)
            &&& forall|n: u8| f.speed == Some(n) <==> #[trigger] number::spells_signed(
                speed,
                n as nat,
                10,
            )
            &&& forall|n: u32| f.ric == Some(n) <==> #[trigger] number::spells_signed(
                ric,
                n as nat,
                16,
            )
            &&& forall|n: u8| f.function == Some(n) <==> #[trigger] number::spells_signed(
                function,
                n as nat,
                10,
            )
            &&& f.text == paging::normalized(txt)
            &&& f.recipient == recipient_text(f.ric, f.function, ric)
            &&& f.callsign == message_callsign(f.text, f.recipient)
        },
{
    let body = line.skip(4);
    lemma_body(line);
    let r3 = function + seq![':'] + txt;
    let r2 = ric + seq![':'] + r3;
    let r1 = speed + seq![':'] + r2;
    assert(body =~= msg_type + seq![':'] + r1);
    lemma_split_front(msg_type, r1, ':', 5);
    lemma_split_front(speed, r2, ':', 4);
    lemma_split_front(ric, r3, ':', 3);
    lemma_split_front(function, txt, ':', 2);
    let parts = text::split_fields(body, ':', 5);
    assert(parts =~= seq![msg_type, speed, ric, function, txt]);
    lemma_byte_field(msg_type);
    lemma_byte_field(speed);
    lemma_byte_field(function);
    assert forall|n: u32|
        ric_field(ric) == Some(n) <==> #[trigger] number::spells_signed(ric, n as nat, 16) by {
        number::law_number_read(ric, n as nat, 16, 0xffff_ffff);
        if let Some(m) = number::parse_unsigned(ric, 16, 0xffff_ffff) {
            number::law_number_read(ric, m, 16, 0xffff_ffff);
        }
    }
    if let Some(t) = byte_field(msg_type, 10) {
        assert(number::spells_signed(msg_type, t as nat, 10));
    }
}

proof fn lemma_byte_field(s: Seq<char>)
    ensures
        forall|n: u8|
            byte_field(s, 10) == Some(n) <==> #[trigger] number::spells_signed(s, n as nat, 10),
{
    assert forall|n: u8|
        byte_field(s, 10) == Some(n) <==> #[trigger] number::spells_signed(s, n as nat, 10) by {
        number::law_number_read(s, n as nat, 10, 0xff);
        if let Some(m) = number::parse_unsigned(s, 10, 0xff) {
            number::law_number_read(s, m, 10, 0xff);
        }
    }
}

/// A recipient is named by its RIC in decimal, with its function behind it where there is one, and
/// by the field as it came where that is no RIC.
pub proof fn law_recipient(ric: u32, function: u8, raw: Seq<char>, any: Option<u8>)
    ensures
        recipient_text(Some(ric), Some(function), raw) == seq!['R', 'I', 'C', ' ']
            + number::decimal(ric as nat) + seq![' ', '/', ' ', 'f', 'u', 'n', 'c', ' ']
            + number::decimal(function as nat),
        recipient_text(Some(ric), None, raw) == seq!['R', 'I', 'C', ' '] + number::decimal(
            ric as nat,
        ),
        recipient_text(None, any, raw) == raw,
{
    reveal_strlit("RIC ");
    reveal_strlit(" / func ");
    assert("RIC "@ =~= seq!['R', 'I', 'C', ' ']);
    assert(" / func "@ =~= seq![' ', '/', ' ', 'f', 'u', 'n', 'c', ' ']);
}

/// A message goes under the callsign that its text names first, and under its recipient where it
/// names none.
pub proof fn law_callsign_or_recipient(txt: Seq<char>, recipient: Seq<char>)
    ensures
        paging::callsign_in(txt) matches Some(c) ==> message_callsign(txt, recipient) == c,
        paging::callsign_in(txt) is None ==> message_callsign(txt, recipient) == recipient,
{
}

/// A message holds what the fields of its line hold, and the time of its arrival. Its id names the
/// line's id in hexadecimal, then the hash of all of the body.
pub proof fn law_message_fields(line: Seq<char>, now: Seq<char>)
    ensures
        message_at(line, now) is Ok <==> fields_of(line) is Ok,
        fields_of(line) matches Err(e) ==> message_at(line, now) == Err::<
            MessageView,
            Seq<char>,
        >(e),
        message_at(line, now) matches Ok(m) ==> fields_of(line) matches Ok(f) && {
            &&& m.callsign == f.callsign
            &&& m.recipient == f.recipient
            &&& m.text == f.text
            &&& m.timestamp == now
            &&& m.priority is None
            &&& m.msg_type == f.msg_type
            &&& m.speed == f.speed
            &&& m.ric == f.ric
            &&& m.function == f.function
            &&& m.id == seq!['r', 'w', 't', 'h', ':'] + seq![
                "0123456789ABCDEF"@[(f.msg_id / 16) as int],
                "0123456789ABCDEF"@[(f.msg_id % 16) as int],
            ] + seq![':'] + stable_hash(f.body)
        },
{
    if let Ok(f) = fields_of(line) {
        number::law_hex_byte_written(f.msg_id);
        reveal_strlit("rwth:");
        reveal_strlit(":");
        assert("rwth:"@ =~= seq!['r', 'w', 't', 'h', ':']);
        assert(":"@ =~= seq![':']);
    }
}

/// The hash of a text is the MD5 digest of all of its bytes, two hexadecimal digits for each byte
/// of the digest.
pub proof fn law_hash_written(input: Seq<char>, i: int)
    requires
        0 <= i < outside::md5_digest(encode_utf8(input)).len(),
    ensures
        ({
            let digest = outside::md5_digest(encode_utf8(input));
            let hash = stable_hash(input);
            &&& hash.len() == 2 * digest.len()
            &&& hash[2 * i] == "0123456789abcdef"@[(digest[i] / 16) as int]
            &&& hash[2 * i + 1] == "0123456789abcdef"@[(digest[i] % 16) as int]
        }),
{
    number::law_hex_written(outside::md5_digest(encode_utf8(input)), i);
}

} // verus!
