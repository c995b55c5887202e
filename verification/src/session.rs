//! The connection to the RWTH core: login, and what each line of the feed is answered.

use crate::config::CfgDapnet;
use crate::message;
use crate::message::{parse_rwth_message, rwth_line_id, DapnetMessage, MessageView};
use crate::number;
use crate::number::{decimal_text, upper_hex_text};
use crate::outside;
use crate::paging;
use crate::paging::{dapnet_version, non_empty_or, sanitize_log_line};
use crate::text;
use crate::text::{lower_text, trim, trim_line_end, CharClass};
use vstd::prelude::*;
use vstd::utf8::*;

verus! {

/// What came of a read from the core.
#[derive(Debug, Clone)]
pub enum ReadEvent {
    /// The core closed the connection.
    Closed,
    /// A line, with whatever ended it.
    Line(String),
    /// Nothing came within the time that a read may take.
    Idle,
    /// The read failed, for this reason.
    Failed(String),
}

/// What is to be done after a read.
#[derive(Debug, Clone)]
pub enum ReadStep {
    /// Read again.
    Again,
    /// Handle this line, then read again.
    Handle(String),
    /// Give the connection up, for this reason.
    Stop(String),
}

/// What a read step holds.
pub enum ReadStepView {
    Again,
    Handle(Seq<char>),
    Stop(Seq<char>),
}

impl View for ReadStep {
    type V = ReadStepView;

    open spec fn view(&self) -> ReadStepView {
        match self {
            ReadStep::Again => ReadStepView::Again,
            ReadStep::Handle(line) => ReadStepView::Handle(line@),
            ReadStep::Stop(reason) => ReadStepView::Stop(reason@),
        }
    }
}

/// What is to be done about a line of the feed.
#[derive(Debug, Clone)]
pub enum LineAction {
    /// Nothing.
    Ignore,
    /// Nothing: the core reported an error.
    CoreError,
    /// Nothing: the core gave this schedule.
    Schedule(String),
    /// Send this reply.
    Reply(String),
    /// Send this reply; the line could not be used, for this reason.
    Refuse { reply: String, reason: String },
    /// Give the connection up, for this reason.
    Reject(String),
    /// Send this reply, then deliver the message.
    Deliver { reply: String, message: DapnetMessage },
}

/// What a line action holds.
pub enum LineActionView {
    Ignore,
    CoreError,
    Schedule(Seq<char>),
    Reply(Seq<char>),
    Refuse { reply: Seq<char>, reason: Seq<char> },
    Reject(Seq<char>),
    Deliver { reply: Seq<char>, message: MessageView },
}

impl View for LineAction {
    type V = LineActionView;

    open spec fn view(&self) -> LineActionView {
        match self {
            LineAction::Ignore => LineActionView::Ignore,
            LineAction::CoreError => LineActionView::CoreError,
            LineAction::Schedule(s) => LineActionView::Schedule(s@),
            LineAction::Reply(r) => LineActionView::Reply(r@),
            LineAction::Refuse { reply, reason } => LineActionView::Refuse {
                reply: reply@,
                reason: reason@,
            },
            LineAction::Reject(e) => LineActionView::Reject(e@),
            LineAction::Deliver { reply, message } => LineActionView::Deliver {
                reply: reply@,
                message: message@,
            },
        }
    }
}

impl LineAction {
    /// The time of arrival of the message that is to be delivered; empty where there is none.
    pub open spec fn timestamp(&self) -> Seq<char> {
        match self {
            LineAction::Deliver { message, .. } => message.timestamp@,
            _ => Seq::empty(),
        }
    }
}

/// The address of the core, or which setting is missing.
pub open spec fn core_address_of(cfg: &CfgDapnet) -> Result<Seq<char>, Seq<char>> {
    let host = text::trimmed(cfg.rwth_core_host@);
    if host.len() == 0 {
        Err("RWTH core host is empty"@)
    } else if text::trimmed(cfg.rwth_core_callsign@).len() == 0 {
        Err("RWTH core callsign is empty"@)
    } else if text::trimmed(cfg.rwth_core_authkey@).len() == 0 {
        Err("RWTH core authkey is empty"@)
    } else {
        Ok(host + ":"@ + number::decimal(cfg.rwth_core_port as nat))
    }
}

/// The line that logs a transmitter in: device, version, callsign and key, in brackets.
pub open spec fn login_of(cfg: &CfgDapnet) -> Seq<char> {
    "["@ + paging::or_fallback(cfg.rwth_core_device@, "FlowStation"@) + " "@ + paging::version_text(
        cfg.rwth_core_version@,
    ) + " "@ + text::ascii_lower(text::trimmed(cfg.rwth_core_callsign@)) + " "@ + text::trimmed(
        cfg.rwth_core_authkey@,
    ) + "]\r\n"@
}

/// What is to be done after a read: lines are handled without what ends them, and empty ones not
/// at all.
pub open spec fn read_step_of(event: &ReadEvent) -> ReadStepView {
    match event {
        ReadEvent::Closed => ReadStepView::Stop("RWTH core closed connection"@),
        ReadEvent::Idle => ReadStepView::Again,
        ReadEvent::Failed(reason) => ReadStepView::Stop("read failed: "@ + reason@),
        ReadEvent::Line(line) => {
            let t = text::trim_end(line@, CharClass::LineEnding);
            if t.len() == 0 {
                ReadStepView::Again
            } else {
                ReadStepView::Handle(t)
            }
        },
    }
}

/// Whether a line begins with a character.
pub open spec fn begins(line: Seq<char>, c: char) -> bool {
    line.len() > 0 && line[0] == c
}

/// The acknowledgement of a message: the next id in hexadecimal, and the verdict.
pub open spec fn ack(msg_id: u8, verdict: Seq<char>) -> Seq<char> {
    "#"@ + number::upper_hex_byte(msg_id.wrapping_add(1)) + verdict
}

/// What is to be done about a message line that arrives at a given time.
pub open spec fn message_action(line: Seq<char>, timestamp: Seq<char>) -> LineActionView {
    match message::line_id(line) {
        None => LineActionView::Refuse {
            reply: "-\r\n"@,
            reason: "malformed RWTH core message without valid id"@,
        },
        Some(id) => match message::message_at(line, timestamp) {
            Ok(m) => LineActionView::Deliver { reply: ack(id, " +\r\n"@), message: m },
            Err(e) => LineActionView::Refuse {
                reply: ack(id, " -\r\n"@),
                reason: "malformed RWTH core message: "@ + e,
            },
        },
    }
}

/// What is to be done about a line of the feed that arrives at a given time.
pub open spec fn line_action(line: Seq<char>, timestamp: Seq<char>) -> LineActionView {
    if begins(line, '+') {
        LineActionView::Ignore
    } else if begins(line, '-') {
        LineActionView::CoreError
    } else if begins(line, '2') {
        LineActionView::Reply(line + ":0000\r\n+\r\n"@)
    } else if begins(line, '3') {
        LineActionView::Reply("+\r\n"@)
    } else if begins(line, '4') && begins(line.skip(1), ':') {
        LineActionView::Schedule(line.skip(2))
    } else if begins(line, '7') {
        LineActionView::Reject(
            "login rejected by RWTH core: "@ + paging::truncated(
                line,
                paging::LOG_LINE_MAX_CHARS as nat,
            ),
        )
    } else if begins(line, '#') {
        message_action(line, timestamp)
    } else {
        LineActionView::Refuse {
            reply: "-\r\n"@,
            reason: "unknown RWTH core message type '"@ + paging::truncated(
                line,
                paging::LOG_LINE_MAX_CHARS as nat,
            ) + "'"@,
        }
    }
}

/// The address of the core, or which setting is missing.
pub fn core_address(cfg: &CfgDapnet) -> (r: Result<String, String>)
    ensures
        match r {
            Ok(a) => core_address_of(cfg) == Ok::<Seq<char>, Seq<char>>(a@),
            Err(e) => core_address_of(cfg) == Err::<Seq<char>, Seq<char>>(e@),
        },
{
    let host = trim(cfg.rwth_core_host.as_str());
    if host.is_empty() {
        return Err("RWTH core host is empty".to_owned());
    }
    if trim(cfg.rwth_core_callsign.as_str()).is_empty() {
        return Err("RWTH core callsign is empty".to_owned());
    }
    if trim(cfg.rwth_core_authkey.as_str()).is_empty() {
        return Err("RWTH core authkey is empty".to_owned());
    }
    Ok(host.to_owned().concat(":").concat(decimal_text(cfg.rwth_core_port as u64).as_str()))
}

/// The line that logs a transmitter in.
pub fn login_line(cfg: &CfgDapnet) -> (r: String)
    ensures
        r@ == login_of(cfg),
{
    let device = non_empty_or(cfg.rwth_core_device.as_str(), "FlowStation");
    let version = dapnet_version(cfg.rwth_core_version.as_str());
    let callsign = lower_text(trim(cfg.rwth_core_callsign.as_str()));
    let authkey = trim(cfg.rwth_core_authkey.as_str());
    "[".to_owned().concat(device.as_str()).concat(" ").concat(version.as_str()).concat(" ").concat(
        callsign.as_str(),
    ).concat(" ").concat(authkey).concat("]\r\n")
}

/// What is to be done after a read.
pub fn read_step(event: &ReadEvent) -> (step: ReadStep)
    ensures
        step@ == read_step_of(event),
{
    match event {
        ReadEvent::Closed => ReadStep::Stop("RWTH core closed connection".to_owned()),
        ReadEvent::Idle => ReadStep::Again,
        ReadEvent::Failed(reason) => ReadStep::Stop(
            "read failed: ".to_owned().concat(reason.as_str()),
        ),
        ReadEvent::Line(line) => {
            let t = trim_line_end(line.as_str());
            if t.is_empty() {
                ReadStep::Again
            } else {
                ReadStep::Handle(t.to_owned())
            }
        },
    }
}

fn ack_text(msg_id: u8, verdict: &str) -> (r: String)
    ensures
        r@ == ack(msg_id, verdict@),
{
    "#".to_owned().concat(upper_hex_text(msg_id.wrapping_add(1)).as_str()).concat(verdict)
}

/// What is to be done about a message line that arrives now: a line that can be read is
/// acknowledged and its message delivered, any other is refused.
pub fn handle_rwth_message(line: &str) -> (action: LineAction)
    ensures
        action@ == message_action(line@, action.timestamp()),
        action is Deliver ==> outside::ends_in_utc(action.timestamp()),
{
    let msg_id: u8 = match rwth_line_id(line) {
        Some(id) => id,
        None => {
            return LineAction::Refuse {
                reply: "-\r\n".to_owned(),
                reason: "malformed RWTH core message without valid id".to_owned(),
            };
        },
    };
    match parse_rwth_message(line) {
        Ok(message) => LineAction::Deliver { reply: ack_text(msg_id, " +\r\n"), message },
        Err(err) => LineAction::Refuse {
            reply: ack_text(msg_id, " -\r\n"),
            reason: "malformed RWTH core message: ".to_owned().concat(err.as_str()),
        },
    }
}

/// What is to be done about a line of the feed that arrives now. A line that begins with `2` is
/// what the core greets with, so from then on the connection is logged in.
pub fn handle_rwth_line(line: &str, logged_in: &mut bool) -> (action: LineAction)
    ensures
        action@ == line_action(line@, action.timestamp()),
        action is Deliver ==> outside::ends_in_utc(action.timestamp()),
        *final(logged_in) == (*old(logged_in) || begins(line@, '2')),
{
    let first: Option<char> = if line.is_empty() {
        None
    } else {
        Some(line.get_char(0))
    };
    match first {
        Some('+') => LineAction::Ignore,
        Some('-') => LineAction::CoreError,
        Some('2') => {
            *logged_in = true;
            LineAction::Reply(line.to_owned().concat(":0000\r\n+\r\n"))
        },
        Some('3') => LineAction::Reply("+\r\n".to_owned()),
        Some('7') => LineAction::Reject(
            "login rejected by RWTH core: ".to_owned().concat(sanitize_log_line(line).as_str()),
        ),
        Some('#') => handle_rwth_message(line),
        _ => {
            let n = line.unicode_len();
            if n >= 2 && line.get_char(0) == '4' && line.get_char(1) == ':' {
                assert(line@.subrange(2, line@.len() as int) =~= line@.skip(2));
                return LineAction::Schedule(line.substring_char(2, n).to_owned());
            }
            LineAction::Refuse {
                reply: "-\r\n".to_owned(),
                reason: "unknown RWTH core message type '".to_owned().concat(
                    sanitize_log_line(line).as_str(),
                ).concat("'"),
            }
        },
    }
}

/// A message line is always answered: with the next id and a plus where its message is delivered,
/// with the next id and a minus where it has an id but no message, with a minus alone where it has
/// no id.
pub proof fn law_message_answered(line: Seq<char>, now: Seq<char>)
    requires
        begins(line, '#'),
    ensures
        match message::line_id(line) {
            None => line_action(line, now) matches LineActionView::Refuse { reply, .. } && reply
                == "-\r\n"@,
            Some(id) => if message::fields_of(line) is Ok {
                line_action(line, now) matches LineActionView::Deliver { reply, message } && reply
                    == ack(id, " +\r\n"@) && message::message_at(line, now) == Ok::<
                    MessageView,
                    Seq<char>,
                >(message)
            } else {
                line_action(line, now) matches LineActionView::Refuse { reply, .. } && reply == ack(
                    id,
                    " -\r\n"@,
                )
            },
        },
{
}

/// The id in an acknowledgement is the one that follows the id of the message.
pub proof fn law_ack_id(id: u8, verdict: Seq<char>)
    ensures
        message::line_id(ack(id, verdict)) == Some(id.wrapping_add(1)),
{
    let line = ack(id, verdict);
    let next = id.wrapping_add(1);
    let hex = number::upper_hex_byte(next);
    number::law_hex_byte_read(next);
    reveal_strlit("#");
    assert(line[0] == '#' && line[1] == hex[0] && line[2] == hex[1]);
    let l1 = line.drop_first();
    let l2 = l1.drop_first();
    let l3 = l2.drop_first();
    assert(l1[0] == hex[0] && l2[0] == hex[1]);
    assert(encode_scalar(line[0] as u32).len() == 1);
    assert(encode_scalar(l1[0] as u32).len() == 1);
    assert(encode_scalar(l2[0] as u32).len() == 1);
    assert(text::char_at_byte(l3, 0) == Some(0int));
    assert(text::char_at_byte(l2, 1) == Some(1int));
    assert(text::char_at_byte(l1, 0) == Some(0int));
    assert(text::char_at_byte(l1, 2) == Some(2int));
    assert(text::char_at_byte(line, 1) == Some(1int));
    assert(text::char_at_byte(line, 3) == Some(3int));
    assert(line.subrange(1, 3) =~= hex);
}

/// Of all lines only a rejected login ends the connection, and only a message line delivers
/// anything.
pub proof fn law_line_kinds(line: Seq<char>, now: Seq<char>)
    ensures
        line_action(line, now) is Reject <==> begins(line, '7'),
        line_action(line, now) is Deliver ==> begins(line, '#'),
{
}

/// A line is handled without carriage returns or line feeds at its end, and is not empty.
pub proof fn law_handled_line(event: ReadEvent)
    ensures
        read_step_of(&event) matches ReadStepView::Handle(line) ==> line.len() > 0 && line.last()
            != '\r' && line.last() != '\n',
{
    if let ReadEvent::Line(line) = event {
        text::lemma_trailing(line@, CharClass::LineEnding);
    }
}

/// The login line gives the settings back: behind the opening bracket the device up to the first
/// space, the version up to the second, the callsign in small letters up to the third, and the
/// whole key, whatever its length, up to the closing bracket and the line end. Only the white space
/// around them is left out, `FlowStation` stands for a device that is not set, and a version gets a
/// `v` where it has none.
pub proof fn law_login_read_back(
    cfg: CfgDapnet,
    device: Seq<char>,
    version: Seq<char>,
    callsign: Seq<char>,
    key: Seq<char>,
)
    requires
        text::is_core(cfg.rwth_core_device@, device),
        text::is_core(cfg.rwth_core_version@, version),
        text::is_core(cfg.rwth_core_callsign@, callsign),
        text::is_core(cfg.rwth_core_authkey@, key),
    ensures
        ({
            let line = login_of(&cfg);
            let d = if device.len() == 0 {
                "FlowStation"@
            } else {
                device
            };
            let v = if version.len() == 0 {
                seq!['v', '1', '.', '0']
            } else if version[0] == 'v' || version[0] == 'V' {
                version
            } else {
                seq!['v'] + version
            };
            let first = 1 + d.len() as int;
            let second = first + 1 + v.len();
            let third = second + 1 + callsign.len();
            &&& line.len() == third + 1 + key.len() + 3
            &&& line[0] == '['
            &&& line.subrange(1, first) == d
            &&& line[first] == ' '
            &&& line.subrange(first + 1, second) == v
            &&& line[second] == ' '
            &&& line.subrange(second + 1, third) == text::ascii_lower(callsign)
            &&& line[third] == ' '
            &&& line.subrange(third + 1, third + 1 + key.len()) == key
            &&& line.skip(third + 1 + key.len()) == seq![']', '\r', '\n']
            &&& !device.contains(' ') && !version.contains(' ') && !callsign.contains(' ')
                ==> forall|i: int|
                0 <= i < third && i != first && i != second ==> #[trigger] line[i] != ' '
        }),
{
    let line = login_of(&cfg);
    paging::law_fallback(cfg.rwth_core_device@, device, "FlowStation"@);
    paging::law_version_kept(cfg.rwth_core_version@, version);
    text::law_trimmed(cfg.rwth_core_callsign@, callsign);
    text::law_trimmed(cfg.rwth_core_authkey@, key);
    reveal_strlit("FlowStation");
    reveal_strlit("[");
    reveal_strlit(" ");
    reveal_strlit("]\r\n");
    let d = paging::or_fallback(cfg.rwth_core_device@, "FlowStation"@);
    let v = paging::version_text(cfg.rwth_core_version@);
    let c = text::ascii_lower(callsign);
    let first = 1 + d.len() as int;
    let second = first + 1 + v.len();
    let third = second + 1 + callsign.len();
    let end = third + 1 + key.len();
    assert(line.subrange(1, first) =~= d);
    assert(line.subrange(first + 1, second) =~= v);
    assert(line.subrange(second + 1, third) =~= c);
    assert(line.subrange(third + 1, end) =~= key);
    assert(line.skip(end) =~= seq![']', '\r', '\n']);
    if !device.contains(' ') && !version.contains(' ') && !callsign.contains(' ') {
        assert forall|i: int| 0 <= i < third && i != first && i != second implies #[trigger] line[i]
            != ' ' by {
            if 0 < i < first {
                assert(line[i] == d[i - 1]);
                if device.len() > 0 {
                    assert(device.contains(device[i - 1]));
                }
            } else if first < i < second {
                assert(line[i] == v[i - first - 1]);
                if version.len() > 0 {
                    if version[0] == 'v' || version[0] == 'V' {
                        assert(version.contains(version[i - first - 1]));
                    } else if i > first + 1 {
                        assert(version.contains(version[i - first - 2]));
                    }
                }
            } else if second < i {
                let k = i - second - 1;
                assert(line[i] == c[k]);
                assert(callsign.contains(callsign[k]));
                lemma_lower_space(callsign[k]);
            }
        }
    }
}

/// No other character becomes a space in small letters.
proof fn lemma_lower_space(c: char)
    requires
        c != ' ',
    ensures
        text::lower_char(c) != ' ',
{
}

/// The address is the host and the port in decimal. It is missing exactly where the host, the
/// callsign or the key is not set, and the first of them that is not is named.
pub proof fn law_core_address(
    cfg: CfgDapnet,
    host: Seq<char>,
    callsign: Seq<char>,
    key: Seq<char>,
)
    requires
        text::is_core(cfg.rwth_core_host@, host),
        text::is_core(cfg.rwth_core_callsign@, callsign),
        text::is_core(cfg.rwth_core_authkey@, key),
    ensures
        match core_address_of(&cfg) {
            Ok(a) => host.len() > 0 && callsign.len() > 0 && key.len() > 0 && a == host + seq![':']
                + number::decimal(cfg.rwth_core_port as nat),
            Err(e) => if host.len() == 0 {
                e == "RWTH core host is empty"@
            } else if callsign.len() == 0 {
                e == "RWTH core callsign is empty"@
            } else {
                key.len() == 0 && e == "RWTH core authkey is empty"@
            },
        },
{
    text::law_trimmed(cfg.rwth_core_host@, host);
    text::law_trimmed(cfg.rwth_core_callsign@, callsign);
    text::law_trimmed(cfg.rwth_core_authkey@, key);
    reveal_strlit(":");
    assert(":"@ =~= seq![':']);
}

/// A line that was read is handled as it is before its line end, and not at all where nothing
/// stands there. A read that brought nothing is made again, and one that failed gives the
/// connection up with its reason.
pub proof fn law_read_step(line: String, front: Seq<char>, end: Seq<char>, reason: String)
    requires
        line@ == front + end,
        front.len() > 0 ==> front.last() != '\r' && front.last() != '\n',
        forall|i: int| 0 <= i < end.len() ==> #[trigger] end[i] == '\r' || end[i] == '\n',
    ensures
        read_step_of(&ReadEvent::Line(line)) == if front.len() == 0 {
            ReadStepView::Again
        } else {
            ReadStepView::Handle(front)
        },
        read_step_of(&ReadEvent::Idle) == ReadStepView::Again,
        read_step_of(&ReadEvent::Closed) == ReadStepView::Stop("RWTH core closed connection"@),
        read_step_of(&ReadEvent::Failed(reason)) == ReadStepView::Stop("read failed: "@ + reason@),
{
    let class = CharClass::LineEnding;
    let s = line@;
    let n = end.len() as int;
    assert forall|j: int| s.len() - n <= j < s.len() implies class.has(#[trigger] s[j]) by {
        assert(s[j] == end[j - front.len()]);
    }
    if front.len() > 0 {
        assert(s[s.len() - n - 1] == front.last());
    }
    text::lemma_trailing_is(s, class, n);
    assert(text::trim_end(s, class) =~= front);
}

/// What each line is answered is decided by its first character: nothing to a plus or a minus, the
/// line itself with an empty time behind it and a plus to a greeting, a plus to a `3`, nothing to a
/// schedule, and a minus to whatever is not known. A `7` ends the connection. Of a line that is
/// reported, no more than 160 characters are.
pub proof fn law_line_answered(first: char, rest: Seq<char>, now: Seq<char>)
    ensures
        ({
            let line = seq![first] + rest;
            let action = line_action(line, now);
            let shown = if line.len() > 160 {
                line.take(160)
            } else {
                line
            };
            match first {
                '+' => action == LineActionView::Ignore,
                '-' => action == LineActionView::CoreError,
                '2' => action == LineActionView::Reply(
                    line + seq![':', '0', '0', '0', '0', '\r', '\n', '+', '\r', '\n'],
                ),
                '3' => action == LineActionView::Reply(seq!['+', '\r', '\n']),
                '7' => action == LineActionView::Reject("login rejected by RWTH core: "@ + shown),
                '#' => action == message_action(line, now),
                _ => if first == '4' && rest.len() > 0 && rest[0] == ':' {
                    action == LineActionView::Schedule(rest.skip(1))
                } else {
                    action == (LineActionView::Refuse {
                        reply: seq!['-', '\r', '\n'],
                        reason: "unknown RWTH core message type '"@ + shown + "'"@,
                    })
                },
            }
        }),
        line_action(Seq::empty(), now) matches LineActionView::Refuse { reply, .. } && reply
            == seq!['-', '\r', '\n'],
        forall|c: char| #[trigger] begins(seq![first] + rest, c) <==> c == first,
        forall|c: char| !#[trigger] begins(Seq::empty(), c),
{
    let line = seq![first] + rest;
    reveal_strlit(":0000\r\n+\r\n");
    reveal_strlit("+\r\n");
    reveal_strlit("-\r\n");
    assert(":0000\r\n+\r\n"@ =~= seq![':', '0', '0', '0', '0', '\r', '\n', '+', '\r', '\n']);
    assert("+\r\n"@ =~= seq!['+', '\r', '\n']);
    assert("-\r\n"@ =~= seq!['-', '\r', '\n']);
    assert(line.skip(1) =~= rest);
    if rest.len() > 0 {
        assert(line.skip(2) =~= rest.skip(1));
    }
}

/// An acknowledgement is the id that follows the message's in two hexadecimal digits, 00 following
/// FF, and the verdict behind it.
pub proof fn law_ack_written(id: u8, verdict: Seq<char>)
    ensures
        ({
            let next = (id + 1) % 256;
            ack(id, verdict) == seq![
                '#',
                "0123456789ABCDEF"@[next / 16],
                "0123456789ABCDEF"@[next % 16],
            ] + verdict
        }),
{
    let next = id.wrapping_add(1);
    number::law_hex_byte_written(next);
    reveal_strlit("#");
    assert(next as int == (id + 1) % 256);
    let digits = "0123456789ABCDEF"@;
    assert(ack(id, verdict) =~= seq![
        '#',
        digits[(next / 16) as int],
        digits[(next % 16) as int],
    ] + verdict);
}

/// A message line is delivered exactly where its message can be read, with a plus behind the next
/// id, and refused with a minus and the reason where it cannot.
pub proof fn law_message_verdict(line: Seq<char>, now: Seq<char>)
    ensures
        message::line_id(line) is None ==> message_action(line, now) == (LineActionView::Refuse {
            reply: seq!['-', '\r', '\n'],
            reason: "malformed RWTH core message without valid id"@,
        }),
        message::line_id(line) matches Some(id) ==> match message::message_at(line, now) {
            Ok(m) => message_action(line, now) == (LineActionView::Deliver {
                reply: ack(id, seq![' ', '+', '\r', '\n']),
                message: m,
            }),
            Err(e) => message_action(line, now) == (LineActionView::Refuse {
                reply: ack(id, seq![' ', '-', '\r', '\n']),
                reason: "malformed RWTH core message: "@ + e,
            }),
        },
{
    reveal_strlit("-\r\n");
    reveal_strlit(" +\r\n");
    reveal_strlit(" -\r\n");
    assert("-\r\n"@ =~= seq!['-', '\r', '\n']);
    assert(" +\r\n"@ =~= seq![' ', '+', '\r', '\n']);
    assert(" -\r\n"@ =~= seq![' ', '-', '\r', '\n']);
}

} // verus!
