//! The `[dapnet]` section as it is read: line by line, and setting by setting.

use crate::config;
use crate::config::DapnetRuntimeOverride;
use crate::dashboard;
use crate::lines;
use crate::number;
use crate::rewrite_laws;
use crate::text;
use crate::text::CharClass;
use vstd::prelude::*;

verus! {

/// Whether no text among the settings holds a line feed.
pub open spec fn on_one_line(ov: &DapnetRuntimeOverride) -> bool {
    &&& !ov.api_url@.contains('\n')
    &&& !ov.username@.contains('\n')
    &&& !ov.password@.contains('\n')
    &&& !ov.callout_text_prefix@.contains('\n')
    &&& !ov.telegram_prefix@.contains('\n')
    &&& !ov.rwth_core_host@.contains('\n')
    &&& !ov.rwth_core_device@.contains('\n')
    &&& !ov.rwth_core_version@.contains('\n')
    &&& !ov.rwth_core_callsign@.contains('\n')
    &&& !ov.rwth_core_authkey@.contains('\n')
}

/// A value in the configuration.
pub enum SettingValue {
    Flag(bool),
    Number(nat),
    Text(Seq<char>),
}

/// The value that a text stands for: a boolean, a number in decimal or a quoted text.
pub open spec fn value_of(s: Seq<char>) -> Option<SettingValue> {
    if s == "true"@ {
        Some(SettingValue::Flag(true))
    } else if s == "false"@ {
        Some(SettingValue::Flag(false))
    } else if s.len() > 0 && s[0] == '"' {
        match dashboard::unquoted(s.skip(1)) {
            Some((v, rest)) => if rest.len() == 0 {
                Some(SettingValue::Text(v))
            } else {
                None
            },
            None => None,
        }
    } else {
        match number::parse_unsigned(s, 10, u64::MAX as nat) {
            Some(n) => if s == number::decimal(n) {
                Some(SettingValue::Number(n))
            } else {
                None
            },
            None => None,
        }
    }
}

/// Whether a text can be a key without quotation marks.
pub open spec fn is_bare_key(key: Seq<char>) -> bool {
    &&& key.len() > 0
    &&& forall|i: int|
        0 <= i < key.len() ==> text::is_ascii_letter_char(#[trigger] key[i])
            || text::is_ascii_digit_char(key[i]) || key[i] == '_' || key[i] == '-'
}

/// The key and the value that a line gives it, around the first equals sign.
pub open spec fn entry_of(line: Seq<char>) -> Option<(Seq<char>, SettingValue)> {
    let i = text::find_char(line, '=') as int;
    if i == line.len() || !is_bare_key(text::trimmed(line.take(i))) {
        None
    } else {
        match value_of(text::trimmed(line.skip(i + 1))) {
            Some(v) => Some((text::trimmed(line.take(i)), v)),
            None => None,
        }
    }
}

/// The values that lines give to keys. Blank lines give none; nothing is read where a line is
/// neither blank nor an entry, or where a key occurs twice.
pub open spec fn table_of(ls: Seq<Seq<char>>) -> Option<Map<Seq<char>, SettingValue>>
    decreases ls.len(),
{
    if ls.len() == 0 {
        Some(Map::empty())
    } else {
        match table_of(ls.drop_last()) {
            Some(m) => if text::trimmed(ls.last()).len() == 0 {
                Some(m)
            } else {
                match entry_of(ls.last()) {
                    Some((key, v)) => if m.contains_key(key) {
                        None
                    } else {
                        Some(m.insert(key, v))
                    },
                    None => None,
                }
            },
            None => None,
        }
    }
}

/// The values that a `[dapnet]` section gives to keys.
pub open spec fn section_table(section: Seq<char>) -> Option<Map<Seq<char>, SettingValue>> {
    let ls = lines::text_lines(section);
    if ls.len() > 0 && ls[0] == "[dapnet]"@ {
        table_of(ls.drop_first())
    } else {
        None
    }
}

/// The settings by their keys, with all limits applied.
pub open spec fn settings(ov: &DapnetRuntimeOverride) -> Map<Seq<char>, SettingValue> {
    map![
        "enabled"@ => SettingValue::Flag(ov.enabled),
        "api_url"@ => SettingValue::Text(ov.api_url@),
        "username"@ => SettingValue::Text(ov.username@),
        "password"@ => SettingValue::Text(ov.password@),
        "poll_interval_secs"@ => SettingValue::Number(
            if ov.poll_interval_secs == 0 {
                1
            } else {
                ov.poll_interval_secs as nat
            },
        ),
        "forward_sds"@ => SettingValue::Flag(ov.forward_sds),
        "forward_callout"@ => SettingValue::Flag(ov.forward_callout),
        "forward_telegram"@ => SettingValue::Flag(ov.forward_telegram),
        "sds_source_issi"@ => SettingValue::Number(ov.sds_source_issi as nat),
        "sds_dest_issi"@ => SettingValue::Number(ov.sds_dest_issi as nat),
        "sds_dest_is_group"@ => SettingValue::Flag(ov.sds_dest_is_group),
        "callout_source_issi"@ => SettingValue::Number(ov.callout_source_issi as nat),
        "callout_dest_issi"@ => SettingValue::Number(ov.callout_dest_issi as nat),
        "callout_incident_base"@ => SettingValue::Number(
            if ov.callout_incident_base < 1 {
                1
            } else if ov.callout_incident_base > 256 {
                256
            } else {
                ov.callout_incident_base as nat
            },
        ),
        "callout_text_prefix"@ => SettingValue::Text(ov.callout_text_prefix@),
        "telegram_prefix"@ => SettingValue::Text(ov.telegram_prefix@),
        "rwth_core_enabled"@ => SettingValue::Flag(ov.rwth_core_enabled),
        "rwth_core_host"@ => SettingValue::Text(ov.rwth_core_host@),
        "rwth_core_port"@ => SettingValue::Number(ov.rwth_core_port as nat),
        "rwth_core_device"@ => SettingValue::Text(ov.rwth_core_device@),
        "rwth_core_version"@ => SettingValue::Text(ov.rwth_core_version@),
        "rwth_core_callsign"@ => SettingValue::Text(ov.rwth_core_callsign@),
        "rwth_core_authkey"@ => SettingValue::Text(ov.rwth_core_authkey@),
        "rwth_messages_limit"@ => SettingValue::Number(
            if ov.rwth_messages_limit == 0 {
                1
            } else {
                ov.rwth_messages_limit as nat
            },
        ),
    ]
}

/// Whether a value can stand in TOML as it is: a number of at most 63 bits, and a text without
/// control characters but tabs.
pub open spec fn is_toml_value(v: SettingValue) -> bool {
    match v {
        SettingValue::Flag(_) => true,
        SettingValue::Number(n) => n <= i64::MAX,
        SettingValue::Text(s) => has_no_control(s),
    }
}

/// Whether a text holds no character that TOML refuses inside of quotation marks: none of the
/// ASCII control characters but the tab.
pub open spec fn has_no_control(s: Seq<char>) -> bool {
    forall|i: int|
        0 <= i < s.len() ==> (' ' <= #[trigger] s[i] && s[i] != '\u{7f}') || s[i] == '\t'
}

/// Whether TOML can hold all the settings as they are.
pub open spec fn fits_toml(ov: &DapnetRuntimeOverride) -> bool {
    &&& has_no_control(ov.api_url@)
    &&& has_no_control(ov.username@)
    &&& has_no_control(ov.password@)
    &&& has_no_control(ov.callout_text_prefix@)
    &&& has_no_control(ov.telegram_prefix@)
    &&& has_no_control(ov.rwth_core_host@)
    &&& has_no_control(ov.rwth_core_device@)
    &&& has_no_control(ov.rwth_core_version@)
    &&& has_no_control(ov.rwth_core_callsign@)
    &&& has_no_control(ov.rwth_core_authkey@)
    &&& ov.poll_interval_secs <= i64::MAX
    &&& ov.rwth_messages_limit <= i64::MAX
}

/// A line that comes back as itself and begins no section.
#[verifier::opaque]
spec fn is_plain(line: Seq<char>) -> bool {
    &&& !line.contains('\n')
    &&& lines::without_cr(line) == line
    &&& !dashboard::is_section_start(line)
}

/// A key: small letters and underscores, beginning with a letter.
#[verifier::opaque]
spec fn is_key(key: Seq<char>) -> bool {
    &&& key.len() > 0
    &&& 'a' <= key[0] <= 'z'
    &&& forall|i: int| 0 <= i < key.len() ==> 'a' <= #[trigger] key[i] <= 'z' || key[i] == '_'
}

proof fn lemma_entry(key: Seq<char>, value: Seq<char>)
    requires
        is_key(key),
        !value.contains('\n'),
        value.len() > 0,
        value.last() != '\r',
    ensures
        is_plain(dashboard::entry(key, value)),
        dashboard::entry(key, value).len() > 0,
{
    reveal(is_plain);
    reveal(is_key);
    let e = dashboard::entry(key, value);
    reveal_strlit(" = ");
    assert(e[0] == key[0]);
    text::lemma_leading_is(e, CharClass::Whitespace, 0);
    assert(e.skip(0) =~= e);
    assert(e.last() == value.last());
    if e.contains('\n') {
        let k = choose|k: int| 0 <= k < e.len() && e[k] == '\n';
        if k < key.len() {
            assert(e[k] == key[k]);
        } else if k >= key.len() + 3 {
            assert(value[k - key.len() - 3] == '\n');
        }
    }
}

proof fn lemma_bool_entry(key: Seq<char>, b: bool)
    requires
        is_key(key),
    ensures
        is_plain(dashboard::entry(key, dashboard::bool_text(b))),
{
    reveal_strlit("true");
    reveal_strlit("false");
    lemma_entry(key, dashboard::bool_text(b));
}

proof fn lemma_number_entry(key: Seq<char>, n: nat)
    requires
        is_key(key),
    ensures
        is_plain(dashboard::entry(key, number::decimal(n))),
        dashboard::entry(key, number::decimal(n)).len() > 0,
{
    number::law_decimal_read(n, n);
    let d = number::decimal(n);
    assert('0' <= d[d.len() - 1] <= '9');
    lemma_entry(key, d);
}

proof fn lemma_escaped(s: Seq<char>)
    requires
        !s.contains('\n'),
    ensures
        !dashboard::escaped(s).contains('\n'),
    decreases s.len(),
{
    if s.len() > 0 {
        let d = s.drop_first();
        if d.contains('\n') {
            let k = choose|k: int| 0 <= k < d.len() && d[k] == '\n';
            assert(s[k + 1] == '\n');
        }
        lemma_escaped(d);
        let e = dashboard::escaped(s);
        let c = dashboard::escaped_char(s[0]);
        assert(s.contains(s[0]));
        if e.contains('\n') {
            let k = choose|k: int| 0 <= k < e.len() && e[k] == '\n';
            if k >= c.len() {
                assert(dashboard::escaped(d)[k - c.len()] == '\n');
            }
        }
    }
}

proof fn lemma_quoted_entry(key: Seq<char>, s: Seq<char>)
    requires
        is_key(key),
        !s.contains('\n'),
    ensures
        is_plain(dashboard::entry(key, dashboard::quoted(s))),
{
    lemma_escaped(s);
    let q = dashboard::quoted(s);
    if q.contains('\n') {
        let k = choose|k: int| 0 <= k < q.len() && q[k] == '\n';
        assert(dashboard::escaped(s)[k - 1] == '\n');
    }
    lemma_entry(key, q);
}

/// What ends a line does not decide whether it begins a section.
proof fn lemma_content(line: Seq<char>)
    ensures
        dashboard::is_section_start(line) ==> dashboard::is_section_start(lines::content(line)),
{
    let c = lines::content(line);
    let white = CharClass::Whitespace;
    if dashboard::is_section_start(line) {
        text::lemma_leading(line, white);
        let n = text::leading(line, white) as int;
        let t = text::trim_start(line, white);
        let k = choose|k: int| 0 <= k < t.len() && t[k] == ']';
        assert(line[n] == '[' && line[n + k] == ']');
        assert(k > 0);
        assert(n + k < c.len()) by {
            assert(line.last() == '\n' || c == line);
            if c.len() < line.len() {
                assert(line[line.len() - 1] == '\n');
                assert(c.len() == line.len() - 2 ==> line[line.len() - 2] == '\r');
            }
        }
        assert(forall|j: int| 0 <= j < c.len() ==> #[trigger] c[j] == line[j]);
        assert forall|j: int| 0 <= j < n implies white.has(#[trigger] c[j]) by {
            assert(c[j] == line[j]);
        }
        text::lemma_leading_is(c, white, n);
        let u = text::trim_start(c, white);
        assert(u[0] == '[' && u[k] == ']');
    }
}

/// What tells the keys of the section apart: their length, and two of their characters.
#[verifier::opaque]
spec fn mark(key: Seq<char>) -> (nat, char, char) {
    (key.len(), key[0], key[key.len() - 4])
}

/// The keys of the section.
proof fn lemma_keys()
    ensures
        is_key("enabled"@),
        mark("enabled"@) == (7nat, 'e', 'b'),
        is_key("api_url"@),
        mark("api_url"@) == (7nat, 'a', '_'),
        is_key("username"@),
        mark("username"@) == (8nat, 'u', 'n'),
        is_key("password"@),
        mark("password"@) == (8nat, 'p', 'w'),
        is_key("poll_interval_secs"@),
        mark("poll_interval_secs"@) == (18nat, 'p', 's'),
        is_key("forward_sds"@),
        mark("forward_sds"@) == (11nat, 'f', '_'),
        is_key("forward_callout"@),
        mark("forward_callout"@) == (15nat, 'f', 'l'),
        is_key("forward_telegram"@),
        mark("forward_telegram"@) == (16nat, 'f', 'g'),
        is_key("sds_source_issi"@),
        mark("sds_source_issi"@) == (15nat, 's', 'i'),
        is_key("sds_dest_issi"@),
        mark("sds_dest_issi"@) == (13nat, 's', 'i'),
        is_key("sds_dest_is_group"@),
        mark("sds_dest_is_group"@) == (17nat, 's', 'r'),
        is_key("callout_source_issi"@),
        mark("callout_source_issi"@) == (19nat, 'c', 'i'),
        is_key("callout_dest_issi"@),
        mark("callout_dest_issi"@) == (17nat, 'c', 'i'),
        is_key("callout_incident_base"@),
        mark("callout_incident_base"@) == (21nat, 'c', 'b'),
        is_key("callout_text_prefix"@),
        mark("callout_text_prefix"@) == (19nat, 'c', 'e'),
        is_key("telegram_prefix"@),
        mark("telegram_prefix"@) == (15nat, 't', 'e'),
        is_key("rwth_core_enabled"@),
        mark("rwth_core_enabled"@) == (17nat, 'r', 'b'),
        is_key("rwth_core_host"@),
        mark("rwth_core_host"@) == (14nat, 'r', 'h'),
        is_key("rwth_core_port"@),
        mark("rwth_core_port"@) == (14nat, 'r', 'p'),
        is_key("rwth_core_device"@),
        mark("rwth_core_device"@) == (16nat, 'r', 'v'),
        is_key("rwth_core_version"@),
        mark("rwth_core_version"@) == (17nat, 'r', 's'),
        is_key("rwth_core_callsign"@),
        mark("rwth_core_callsign"@) == (18nat, 'r', 's'),
        is_key("rwth_core_authkey"@),
        mark("rwth_core_authkey"@) == (17nat, 'r', 'h'),
        is_key("rwth_messages_limit"@),
        mark("rwth_messages_limit"@) == (19nat, 'r', 'i'),
{
    reveal(is_key);
    reveal(mark);
    assert(is_key("enabled"@) && mark("enabled"@) == (7nat, 'e', 'b')) by {
        reveal_strlit("enabled");
    }
    assert(is_key("api_url"@) && mark("api_url"@) == (7nat, 'a', '_')) by {
        reveal_strlit("api_url");
    }
    assert(is_key("username"@) && mark("username"@) == (8nat, 'u', 'n')) by {
        reveal_strlit("username");
    }
    assert(is_key("password"@) && mark("password"@) == (8nat, 'p', 'w')) by {
        reveal_strlit("password");
    }
    assert(is_key("poll_interval_secs"@) && mark("poll_interval_secs"@) == (18nat, 'p', 's')) by {
        reveal_strlit("poll_interval_secs");
    }
    assert(is_key("forward_sds"@) && mark("forward_sds"@) == (11nat, 'f', '_')) by {
        reveal_strlit("forward_sds");
    }
    assert(is_key("forward_callout"@) && mark("forward_callout"@) == (15nat, 'f', 'l')) by {
        reveal_strlit("forward_callout");
    }
    assert(is_key("forward_telegram"@) && mark("forward_telegram"@) == (16nat, 'f', 'g')) by {
        reveal_strlit("forward_telegram");
    }
    assert(is_key("sds_source_issi"@) && mark("sds_source_issi"@) == (15nat, 's', 'i')) by {
        reveal_strlit("sds_source_issi");
    }
    assert(is_key("sds_dest_issi"@) && mark("sds_dest_issi"@) == (13nat, 's', 'i')) by {
        reveal_strlit("sds_dest_issi");
    }
    assert(is_key("sds_dest_is_group"@) && mark("sds_dest_is_group"@) == (17nat, 's', 'r')) by {
        reveal_strlit("sds_dest_is_group");
    }
    assert(is_key("callout_source_issi"@) && mark("callout_source_issi"@) == (19nat, 'c', 'i')) by {
        reveal_strlit("callout_source_issi");
    }
    assert(is_key("callout_dest_issi"@) && mark("callout_dest_issi"@) == (17nat, 'c', 'i')) by {
        reveal_strlit("callout_dest_issi");
    }
    assert(is_key("callout_incident_base"@) && mark("callout_incident_base"@) == (
        21nat,
        'c',
        'b',
    )) by {
        reveal_strlit("callout_incident_base");
    }
    assert(is_key("callout_text_prefix"@) && mark("callout_text_prefix"@) == (19nat, 'c', 'e')) by {
        reveal_strlit("callout_text_prefix");
    }
    assert(is_key("telegram_prefix"@) && mark("telegram_prefix"@) == (15nat, 't', 'e')) by {
        reveal_strlit("telegram_prefix");
    }
    assert(is_key("rwth_core_enabled"@) && mark("rwth_core_enabled"@) == (17nat, 'r', 'b')) by {
        reveal_strlit("rwth_core_enabled");
    }
    assert(is_key("rwth_core_host"@) && mark("rwth_core_host"@) == (14nat, 'r', 'h')) by {
        reveal_strlit("rwth_core_host");
    }
    assert(is_key("rwth_core_port"@) && mark("rwth_core_port"@) == (14nat, 'r', 'p')) by {
        reveal_strlit("rwth_core_port");
    }
    assert(is_key("rwth_core_device"@) && mark("rwth_core_device"@) == (16nat, 'r', 'v')) by {
        reveal_strlit("rwth_core_device");
    }
    assert(is_key("rwth_core_version"@) && mark("rwth_core_version"@) == (17nat, 'r', 's')) by {
        reveal_strlit("rwth_core_version");
    }
    assert(is_key("rwth_core_callsign"@) && mark("rwth_core_callsign"@) == (18nat, 'r', 's')) by {
        reveal_strlit("rwth_core_callsign");
    }
    assert(is_key("rwth_core_authkey"@) && mark("rwth_core_authkey"@) == (17nat, 'r', 'h')) by {
        reveal_strlit("rwth_core_authkey");
    }
    assert(is_key("rwth_messages_limit"@) && mark("rwth_messages_limit"@) == (19nat, 'r', 'i')) by {
        reveal_strlit("rwth_messages_limit");
    }
}

/// Settings whose texts are on one line each make a section that is read as one, with one line
/// for the header and for each key, and five empty ones between them.
#[verifier::rlimit(40)]
pub proof fn law_section_lines(ov: DapnetRuntimeOverride)
    requires
        on_one_line(&ov),
    ensures
        rewrite_laws::reads_as_one(dashboard::section_text(&ov)),
        lines::text_lines(dashboard::section_text(&ov)) == dashboard::section_lines(&ov),
        lines::text_lines(dashboard::section_text(&ov)).len() == 30,
{
    let ls = dashboard::section_lines(&ov);
    let head = "[dapnet]"@;
    assert(!head.contains('\n') && lines::without_cr(head) == head) by {
        reveal_strlit("[dapnet]");
    }
    assert(is_plain(Seq::<char>::empty())) by {
        text::lemma_leading(Seq::<char>::empty(), CharClass::Whitespace);
        reveal(is_plain);
    }
    lemma_keys();
    lemma_bool_entry("enabled"@, ov.enabled);
    lemma_quoted_entry("api_url"@, ov.api_url@);
    lemma_quoted_entry("username"@, ov.username@);
    lemma_quoted_entry("password"@, ov.password@);
    lemma_number_entry(
        "poll_interval_secs"@,
        dashboard::at_least_one(ov.poll_interval_secs as nat),
    );
    lemma_bool_entry("forward_sds"@, ov.forward_sds);
    lemma_bool_entry("forward_callout"@, ov.forward_callout);
    lemma_bool_entry("forward_telegram"@, ov.forward_telegram);
    lemma_number_entry("sds_source_issi"@, ov.sds_source_issi as nat);
    lemma_number_entry("sds_dest_issi"@, ov.sds_dest_issi as nat);
    lemma_bool_entry("sds_dest_is_group"@, ov.sds_dest_is_group);
    lemma_number_entry("callout_source_issi"@, ov.callout_source_issi as nat);
    lemma_number_entry("callout_dest_issi"@, ov.callout_dest_issi as nat);
    lemma_number_entry(
        "callout_incident_base"@,
        config::clamped_incident(ov.callout_incident_base) as nat,
    );
    lemma_quoted_entry("callout_text_prefix"@, ov.callout_text_prefix@);
    lemma_quoted_entry("telegram_prefix"@, ov.telegram_prefix@);
    lemma_bool_entry("rwth_core_enabled"@, ov.rwth_core_enabled);
    lemma_quoted_entry("rwth_core_host"@, ov.rwth_core_host@);
    lemma_number_entry("rwth_core_port"@, ov.rwth_core_port as nat);
    lemma_quoted_entry("rwth_core_device"@, ov.rwth_core_device@);
    lemma_quoted_entry("rwth_core_version"@, ov.rwth_core_version@);
    lemma_quoted_entry("rwth_core_callsign"@, ov.rwth_core_callsign@);
    lemma_quoted_entry("rwth_core_authkey"@, ov.rwth_core_authkey@);
    lemma_number_entry(
        "rwth_messages_limit"@,
        dashboard::at_least_one(ov.rwth_messages_limit as nat),
    );
    assert forall|i: int| 1 <= i < ls.len() implies is_plain(#[trigger] ls[i]) by {
        assert(ls.len() == 30);
    }
    reveal(is_plain);
    lines::lemma_joined_lines(ls);
    let s = dashboard::section_text(&ov);
    let raw = lines::raw_lines(s);
    assert forall|i: int| 1 <= i < raw.len() implies !dashboard::is_section_start(
        #[trigger] raw[i],
    ) by {
        assert(lines::text_lines(s)[i] == ls[i]);
        lemma_content(raw[i]);
    }
}

/// A line with a key and a value gives the key that value.
proof fn lemma_entry_read(
    ls: Seq<Seq<char>>,
    m: Map<Seq<char>, SettingValue>,
    key: Seq<char>,
    value: Seq<char>,
)
    requires
        table_of(ls) == Some(m),
        is_key(key),
        !m.contains_key(key),
        value.len() > 0,
        !text::is_whitespace_char(value[0]),
        !text::is_whitespace_char(value.last()),
        value_of(value) is Some,
    ensures
        table_of(ls.push(dashboard::entry(key, value))) == Some(
            m.insert(key, value_of(value)->0),
        ),
{
    let line = dashboard::entry(key, value);
    let white = CharClass::Whitespace;
    reveal(is_key);
    reveal_strlit(" = ");
    let k = key.len() as int;
    let left = key.push(' ');
    let right = seq![' '] + value;
    assert forall|j: int| 0 <= j < k + 1 implies #[trigger] line[j] != '=' by {
        if j < k {
            assert(line[j] == key[j]);
        }
    }
    assert(line[k + 1] == '=');
    text::lemma_find_char_is(line, '=', k + 1);
    assert(line.take(k + 1) =~= left);
    assert(line.skip(k + 2) =~= right);
    // The key is what is left of its side without the space.
    assert(left[0] == key[0]);
    text::lemma_leading_is(left, white, 0);
    assert(text::trim_start(left, white) =~= left);
    assert(left[k - 1] == key[k - 1]);
    text::lemma_trailing_is(left, white, 1);
    assert(text::trimmed(left) =~= key);
    // The value is what is left of its side without the space.
    assert(right[1] == value[0]);
    text::lemma_leading_is(right, white, 1);
    assert(text::trim_start(right, white) =~= value);
    text::lemma_trailing_is(value, white, 0);
    assert(text::trimmed(right) =~= value);
    assert(is_bare_key(key));
    assert(entry_of(line) == Some((key, value_of(value)->0)));
    // The line is not blank.
    text::lemma_leading_is(line, white, 0);
    text::lemma_trim_both(line, white);
    assert(text::trim_start(line, white) =~= line);
    assert(line.last() == value.last());
    text::lemma_trailing_is(line, white, 0);
    let all = ls.push(line);
    assert(all.drop_last() =~= ls);
}

/// A table of so many keys that lines give.
#[verifier::opaque]
spec fn reads(ls: Seq<Seq<char>>, m: Map<Seq<char>, SettingValue>, n: nat) -> bool {
    &&& table_of(ls) == Some(m)
    &&& m.dom().finite()
    &&& m.dom().len() == n
}

/// A line with a boolean.
proof fn lemma_flag_read(
    ls: Seq<Seq<char>>,
    m: Map<Seq<char>, SettingValue>,
    n: nat,
    key: Seq<char>,
    b: bool,
)
    requires
        reads(ls, m, n),
        is_key(key),
        !m.contains_key(key),
    ensures
        reads(
            ls.push(dashboard::entry(key, dashboard::bool_text(b))),
            m.insert(key, SettingValue::Flag(b)),
            n + 1,
        ),
{
    reveal(reads);
    reveal_strlit("true");
    reveal_strlit("false");
    let value = dashboard::bool_text(b);
    assert(value_of(value) == Some(SettingValue::Flag(b))) by {
        assert("true"@.len() != "false"@.len());
    }
    lemma_entry_read(ls, m, key, value);
}

/// A line with a number.
proof fn lemma_number_read(
    ls: Seq<Seq<char>>,
    m: Map<Seq<char>, SettingValue>,
    n: nat,
    key: Seq<char>,
    v: nat,
)
    requires
        reads(ls, m, n),
        is_key(key),
        !m.contains_key(key),
        v <= u64::MAX,
    ensures
        reads(
            ls.push(dashboard::entry(key, number::decimal(v))),
            m.insert(key, SettingValue::Number(v)),
            n + 1,
        ),
{
    reveal(reads);
    reveal_strlit("true");
    reveal_strlit("false");
    let value = number::decimal(v);
    number::law_decimal_read(v, u64::MAX as nat);
    assert(value.len() > 0);
    assert('0' <= value[0] <= '9');
    assert('0' <= value[value.len() - 1] <= '9');
    assert("true"@[0] == 't' && "false"@[0] == 'f');
    lemma_entry_read(ls, m, key, value);
}

/// A line with a quoted text.
proof fn lemma_text_read(
    ls: Seq<Seq<char>>,
    m: Map<Seq<char>, SettingValue>,
    n: nat,
    key: Seq<char>,
    s: Seq<char>,
)
    requires
        reads(ls, m, n),
        is_key(key),
        !m.contains_key(key),
    ensures
        reads(
            ls.push(dashboard::entry(key, dashboard::quoted(s))),
            m.insert(key, SettingValue::Text(s)),
            n + 1,
        ),
{
    reveal(reads);
    reveal_strlit("true");
    reveal_strlit("false");
    let value = dashboard::quoted(s);
    let none = Seq::<char>::empty();
    dashboard::law_quoted_read_back(s, none);
    assert(value.skip(1) =~= dashboard::escaped(s) + seq!['"'] + none);
    assert(value[0] == '"' && value.last() == '"');
    assert("true"@[0] == 't' && "false"@[0] == 'f');
    lemma_entry_read(ls, m, key, value);
}

/// A blank line.
proof fn lemma_blank_read(ls: Seq<Seq<char>>, m: Map<Seq<char>, SettingValue>, n: nat)
    requires
        reads(ls, m, n),
    ensures
        reads(ls.push(Seq::empty()), m, n),
{
    reveal(reads);
    let all = ls.push(Seq::empty());
    assert(all.drop_last() =~= ls);
    text::lemma_trim_both(Seq::<char>::empty(), CharClass::Whitespace);
}

/// The lines behind the header give every key its setting.
#[verifier::rlimit(60)]
proof fn lemma_settings_read(ov: DapnetRuntimeOverride)
    ensures
        table_of(dashboard::section_lines(&ov).drop_first()) == Some(settings(&ov)),
        settings(&ov).dom().finite(),
        settings(&ov).dom().len() == 24,
{
    lemma_keys();
    let l0 = Seq::<Seq<char>>::empty();
    let m0 = Map::<Seq<char>, SettingValue>::empty();
    assert(reads(l0, m0, 0)) by {
        reveal(reads);
    }
    lemma_flag_read(l0, m0, 0, "enabled"@, ov.enabled);
    let l1 = l0.push(dashboard::entry("enabled"@, dashboard::bool_text(ov.enabled)));
    let m1 = m0.insert("enabled"@, SettingValue::Flag(ov.enabled));
    lemma_text_read(l1, m1, 1, "api_url"@, ov.api_url@);
    let l2 = l1.push(dashboard::entry("api_url"@, dashboard::quoted(ov.api_url@)));
    let m2 = m1.insert("api_url"@, SettingValue::Text(ov.api_url@));
    lemma_text_read(l2, m2, 2, "username"@, ov.username@);
    let l3 = l2.push(dashboard::entry("username"@, dashboard::quoted(ov.username@)));
    let m3 = m2.insert("username"@, SettingValue::Text(ov.username@));
    lemma_text_read(l3, m3, 3, "password"@, ov.password@);
    let l4 = l3.push(dashboard::entry("password"@, dashboard::quoted(ov.password@)));
    let m4 = m3.insert("password"@, SettingValue::Text(ov.password@));
    lemma_number_read(
        l4,
        m4,
        4,
        "poll_interval_secs"@,
        dashboard::at_least_one(ov.poll_interval_secs as nat),
    );
    let l5 = l4.push(
        dashboard::entry(
            "poll_interval_secs"@,
            number::decimal(dashboard::at_least_one(ov.poll_interval_secs as nat)),
        ),
    );
    let m5 = m4.insert(
        "poll_interval_secs"@,
        SettingValue::Number(dashboard::at_least_one(ov.poll_interval_secs as nat)),
    );
    lemma_blank_read(l5, m5, 5);
    let l6 = l5.push(Seq::empty());
    lemma_flag_read(l6, m5, 5, "forward_sds"@, ov.forward_sds);
    let l7 = l6.push(dashboard::entry("forward_sds"@, dashboard::bool_text(ov.forward_sds)));
    let m6 = m5.insert("forward_sds"@, SettingValue::Flag(ov.forward_sds));
    lemma_flag_read(l7, m6, 6, "forward_callout"@, ov.forward_callout);
    let l8 = l7.push(
        dashboard::entry("forward_callout"@, dashboard::bool_text(ov.forward_callout)),
    );
    let m7 = m6.insert("forward_callout"@, SettingValue::Flag(ov.forward_callout));
    lemma_flag_read(l8, m7, 7, "forward_telegram"@, ov.forward_telegram);
    let l9 = l8.push(
        dashboard::entry("forward_telegram"@, dashboard::bool_text(ov.forward_telegram)),
    );
    let m8 = m7.insert("forward_telegram"@, SettingValue::Flag(ov.forward_telegram));
    lemma_blank_read(l9, m8, 8);
    let l10 = l9.push(Seq::empty());
    lemma_number_read(l10, m8, 8, "sds_source_issi"@, ov.sds_source_issi as nat);
    let l11 = l10.push(
        dashboard::entry("sds_source_issi"@, number::decimal(ov.sds_source_issi as nat)),
    );
    let m9 = m8.insert("sds_source_issi"@, SettingValue::Number(ov.sds_source_issi as nat));
    lemma_number_read(l11, m9, 9, "sds_dest_issi"@, ov.sds_dest_issi as nat);
    let l12 = l11.push(
        dashboard::entry("sds_dest_issi"@, number::decimal(ov.sds_dest_issi as nat)),
    );
    let m10 = m9.insert("sds_dest_issi"@, SettingValue::Number(ov.sds_dest_issi as nat));
    lemma_flag_read(l12, m10, 10, "sds_dest_is_group"@, ov.sds_dest_is_group);
    let l13 = l12.push(
        dashboard::entry("sds_dest_is_group"@, dashboard::bool_text(ov.sds_dest_is_group)),
    );
    let m11 = m10.insert("sds_dest_is_group"@, SettingValue::Flag(ov.sds_dest_is_group));
    lemma_blank_read(l13, m11, 11);
    let l14 = l13.push(Seq::empty());
    lemma_number_read(l14, m11, 11, "callout_source_issi"@, ov.callout_source_issi as nat);
    let l15 = l14.push(
        dashboard::entry("callout_source_issi"@, number::decimal(ov.callout_source_issi as nat)),
    );
    let m12 = m11.insert(
        "callout_source_issi"@,
        SettingValue::Number(ov.callout_source_issi as nat),
    );
    lemma_number_read(l15, m12, 12, "callout_dest_issi"@, ov.callout_dest_issi as nat);
    let l16 = l15.push(
        dashboard::entry("callout_dest_issi"@, number::decimal(ov.callout_dest_issi as nat)),
    );
    let m13 = m12.insert("callout_dest_issi"@, SettingValue::Number(ov.callout_dest_issi as nat));
    lemma_number_read(
        l16,
        m13,
        13,
        "callout_incident_base"@,
        config::clamped_incident(ov.callout_incident_base) as nat,
    );
    let l17 = l16.push(
        dashboard::entry(
            "callout_incident_base"@,
            number::decimal(config::clamped_incident(ov.callout_incident_base) as nat),
        ),
    );
    let m14 = m13.insert(
        "callout_incident_base"@,
        SettingValue::Number(config::clamped_incident(ov.callout_incident_base) as nat),
    );
    lemma_text_read(l17, m14, 14, "callout_text_prefix"@, ov.callout_text_prefix@);
    let l18 = l17.push(
        dashboard::entry("callout_text_prefix"@, dashboard::quoted(ov.callout_text_prefix@)),
    );
    let m15 = m14.insert("callout_text_prefix"@, SettingValue::Text(ov.callout_text_prefix@));
    lemma_blank_read(l18, m15, 15);
    let l19 = l18.push(Seq::empty());
    lemma_text_read(l19, m15, 15, "telegram_prefix"@, ov.telegram_prefix@);
    let l20 = l19.push(
        dashboard::entry("telegram_prefix"@, dashboard::quoted(ov.telegram_prefix@)),
    );
    let m16 = m15.insert("telegram_prefix"@, SettingValue::Text(ov.telegram_prefix@));
    lemma_blank_read(l20, m16, 16);
    let l21 = l20.push(Seq::empty());
    lemma_flag_read(l21, m16, 16, "rwth_core_enabled"@, ov.rwth_core_enabled);
    let l22 = l21.push(
        dashboard::entry("rwth_core_enabled"@, dashboard::bool_text(ov.rwth_core_enabled)),
    );
    let m17 = m16.insert("rwth_core_enabled"@, SettingValue::Flag(ov.rwth_core_enabled));
    lemma_text_read(l22, m17, 17, "rwth_core_host"@, ov.rwth_core_host@);
    let l23 = l22.push(dashboard::entry("rwth_core_host"@, dashboard::quoted(ov.rwth_core_host@)));
    let m18 = m17.insert("rwth_core_host"@, SettingValue::Text(ov.rwth_core_host@));
    lemma_number_read(l23, m18, 18, "rwth_core_port"@, ov.rwth_core_port as nat);
    let l24 = l23.push(
        dashboard::entry("rwth_core_port"@, number::decimal(ov.rwth_core_port as nat)),
    );
    let m19 = m18.insert("rwth_core_port"@, SettingValue::Number(ov.rwth_core_port as nat));
    lemma_text_read(l24, m19, 19, "rwth_core_device"@, ov.rwth_core_device@);
    let l25 = l24.push(
        dashboard::entry("rwth_core_device"@, dashboard::quoted(ov.rwth_core_device@)),
    );
    let m20 = m19.insert("rwth_core_device"@, SettingValue::Text(ov.rwth_core_device@));
    lemma_text_read(l25, m20, 20, "rwth_core_version"@, ov.rwth_core_version@);
    let l26 = l25.push(
        dashboard::entry("rwth_core_version"@, dashboard::quoted(ov.rwth_core_version@)),
    );
    let m21 = m20.insert("rwth_core_version"@, SettingValue::Text(ov.rwth_core_version@));
    lemma_text_read(l26, m21, 21, "rwth_core_callsign"@, ov.rwth_core_callsign@);
    let l27 = l26.push(
        dashboard::entry("rwth_core_callsign"@, dashboard::quoted(ov.rwth_core_callsign@)),
    );
    let m22 = m21.insert("rwth_core_callsign"@, SettingValue::Text(ov.rwth_core_callsign@));
    lemma_text_read(l27, m22, 22, "rwth_core_authkey"@, ov.rwth_core_authkey@);
    let l28 = l27.push(
        dashboard::entry("rwth_core_authkey"@, dashboard::quoted(ov.rwth_core_authkey@)),
    );
    let m23 = m22.insert("rwth_core_authkey"@, SettingValue::Text(ov.rwth_core_authkey@));
    lemma_number_read(
        l28,
        m23,
        23,
        "rwth_messages_limit"@,
        dashboard::at_least_one(ov.rwth_messages_limit as nat),
    );
    let l29 = l28.push(
        dashboard::entry(
            "rwth_messages_limit"@,
            number::decimal(dashboard::at_least_one(ov.rwth_messages_limit as nat)),
        ),
    );
    let m24 = m23.insert(
        "rwth_messages_limit"@,
        SettingValue::Number(dashboard::at_least_one(ov.rwth_messages_limit as nat)),
    );
    assert(l29 =~= dashboard::section_lines(&ov).drop_first());
    assert(m24 =~= settings(&ov));
    reveal(reads);
}

/// A line feed behind the section changes none of its lines.
proof fn lemma_ended_section(ov: DapnetRuntimeOverride)
    requires
        lines::text_lines(dashboard::section_text(&ov)) == dashboard::section_lines(&ov),
    ensures
        lines::text_lines(dashboard::section_text(&ov).push('\n')) == dashboard::section_lines(&ov),
{
    let s = dashboard::section_text(&ov);
    let ls = dashboard::section_lines(&ov);
    let n = dashboard::at_least_one(ov.rwth_messages_limit as nat);
    let digits = number::decimal(n);
    number::law_decimal_read(n, n);
    assert(digits.len() > 0);
    assert('0' <= digits[digits.len() - 1] <= '9');
    assert(ls.last() == dashboard::entry("rwth_messages_limit"@, digits));
    assert(ls.last().last() == digits[digits.len() - 1]);
    lines::lemma_joined_last(ls);
    lines::lemma_close_last(s);
    lines::lemma_raw_lines(s);
    let raw = lines::raw_lines(s);
    let last = raw.last();
    let k = raw.len() - 1;
    assert(lines::is_line(raw[k], k + 1 < raw.len() || false));
    assert(lines::text_lines(s)[k] == ls[k]);
    assert(lines::content(last) == last);
    assert(last.push('\n').drop_last() =~= last);
    let ended = lines::text_lines(s.push('\n'));
    assert forall|i: int| 0 <= i < ls.len() implies ended[i] == ls[i] by {
        assert(lines::text_lines(s)[i] == ls[i]);
    }
    assert(ended =~= ls);
}

/// The section gives every key its setting, with or without a line feed behind it.
proof fn lemma_section_tables(ov: DapnetRuntimeOverride)
    requires
        lines::text_lines(dashboard::section_text(&ov)) == dashboard::section_lines(&ov),
    ensures
        section_table(dashboard::section_text(&ov)) == Some(settings(&ov)),
        section_table(dashboard::section_text(&ov).push('\n')) == Some(settings(&ov)),
        settings(&ov).dom().len() == 24,
{
    lemma_ended_section(ov);
    lemma_settings_read(ov);
}

/// A table of values that can stand in TOML.
#[verifier::opaque]
spec fn is_toml_table(m: Map<Seq<char>, SettingValue>) -> bool {
    forall|key: Seq<char>| #[trigger] m.contains_key(key) ==> is_toml_value(m[key])
}

proof fn lemma_toml_insert(m: Map<Seq<char>, SettingValue>, key: Seq<char>, v: SettingValue)
    requires
        is_toml_table(m),
        is_toml_value(v),
    ensures
        is_toml_table(m.insert(key, v)),
{
    reveal(is_toml_table);
    let n = m.insert(key, v);
    assert forall|k: Seq<char>| #[trigger] n.contains_key(k) implies is_toml_value(n[k]) by {
        if k != key {
            assert(m.contains_key(k));
        }
    }
}

/// Settings that TOML can hold are values that can stand in TOML.
proof fn lemma_toml_settings(ov: DapnetRuntimeOverride)
    requires
        fits_toml(&ov),
    ensures
        forall|key: Seq<char>| #[trigger]
            settings(&ov).contains_key(key) ==> is_toml_value(settings(&ov)[key]),
{
    let m0 = Map::<Seq<char>, SettingValue>::empty();
    assert(is_toml_table(m0)) by {
        reveal(is_toml_table);
    }
    lemma_toml_insert(m0, "enabled"@, SettingValue::Flag(ov.enabled));
    let m1 = m0.insert("enabled"@, SettingValue::Flag(ov.enabled));
    lemma_toml_insert(m1, "api_url"@, SettingValue::Text(ov.api_url@));
    let m2 = m1.insert("api_url"@, SettingValue::Text(ov.api_url@));
    lemma_toml_insert(m2, "username"@, SettingValue::Text(ov.username@));
    let m3 = m2.insert("username"@, SettingValue::Text(ov.username@));
    lemma_toml_insert(m3, "password"@, SettingValue::Text(ov.password@));
    let m4 = m3.insert("password"@, SettingValue::Text(ov.password@));
    lemma_toml_insert(
        m4,
        "poll_interval_secs"@,
        SettingValue::Number(dashboard::at_least_one(ov.poll_interval_secs as nat)),
    );
    let m5 = m4.insert(
        "poll_interval_secs"@,
        SettingValue::Number(dashboard::at_least_one(ov.poll_interval_secs as nat)),
    );
    lemma_toml_insert(m5, "forward_sds"@, SettingValue::Flag(ov.forward_sds));
    let m6 = m5.insert("forward_sds"@, SettingValue::Flag(ov.forward_sds));
    lemma_toml_insert(m6, "forward_callout"@, SettingValue::Flag(ov.forward_callout));
    let m7 = m6.insert("forward_callout"@, SettingValue::Flag(ov.forward_callout));
    lemma_toml_insert(m7, "forward_telegram"@, SettingValue::Flag(ov.forward_telegram));
    let m8 = m7.insert("forward_telegram"@, SettingValue::Flag(ov.forward_telegram));
    lemma_toml_insert(m8, "sds_source_issi"@, SettingValue::Number(ov.sds_source_issi as nat));
    let m9 = m8.insert("sds_source_issi"@, SettingValue::Number(ov.sds_source_issi as nat));
    lemma_toml_insert(m9, "sds_dest_issi"@, SettingValue::Number(ov.sds_dest_issi as nat));
    let m10 = m9.insert("sds_dest_issi"@, SettingValue::Number(ov.sds_dest_issi as nat));
    lemma_toml_insert(m10, "sds_dest_is_group"@, SettingValue::Flag(ov.sds_dest_is_group));
    let m11 = m10.insert("sds_dest_is_group"@, SettingValue::Flag(ov.sds_dest_is_group));
    lemma_toml_insert(
        m11,
        "callout_source_issi"@,
        SettingValue::Number(ov.callout_source_issi as nat),
    );
    let m12 = m11.insert(
        "callout_source_issi"@,
        SettingValue::Number(ov.callout_source_issi as nat),
    );
    lemma_toml_insert(m12, "callout_dest_issi"@, SettingValue::Number(ov.callout_dest_issi as nat));
    let m13 = m12.insert("callout_dest_issi"@, SettingValue::Number(ov.callout_dest_issi as nat));
    lemma_toml_insert(
        m13,
        "callout_incident_base"@,
        SettingValue::Number(config::clamped_incident(ov.callout_incident_base) as nat),
    );
    let m14 = m13.insert(
        "callout_incident_base"@,
        SettingValue::Number(config::clamped_incident(ov.callout_incident_base) as nat),
    );
    lemma_toml_insert(m14, "callout_text_prefix"@, SettingValue::Text(ov.callout_text_prefix@));
    let m15 = m14.insert("callout_text_prefix"@, SettingValue::Text(ov.callout_text_prefix@));
    lemma_toml_insert(m15, "telegram_prefix"@, SettingValue::Text(ov.telegram_prefix@));
    let m16 = m15.insert("telegram_prefix"@, SettingValue::Text(ov.telegram_prefix@));
    lemma_toml_insert(m16, "rwth_core_enabled"@, SettingValue::Flag(ov.rwth_core_enabled));
    let m17 = m16.insert("rwth_core_enabled"@, SettingValue::Flag(ov.rwth_core_enabled));
    lemma_toml_insert(m17, "rwth_core_host"@, SettingValue::Text(ov.rwth_core_host@));
    let m18 = m17.insert("rwth_core_host"@, SettingValue::Text(ov.rwth_core_host@));
    lemma_toml_insert(m18, "rwth_core_port"@, SettingValue::Number(ov.rwth_core_port as nat));
    let m19 = m18.insert("rwth_core_port"@, SettingValue::Number(ov.rwth_core_port as nat));
    lemma_toml_insert(m19, "rwth_core_device"@, SettingValue::Text(ov.rwth_core_device@));
    let m20 = m19.insert("rwth_core_device"@, SettingValue::Text(ov.rwth_core_device@));
    lemma_toml_insert(m20, "rwth_core_version"@, SettingValue::Text(ov.rwth_core_version@));
    let m21 = m20.insert("rwth_core_version"@, SettingValue::Text(ov.rwth_core_version@));
    lemma_toml_insert(m21, "rwth_core_callsign"@, SettingValue::Text(ov.rwth_core_callsign@));
    let m22 = m21.insert("rwth_core_callsign"@, SettingValue::Text(ov.rwth_core_callsign@));
    lemma_toml_insert(m22, "rwth_core_authkey"@, SettingValue::Text(ov.rwth_core_authkey@));
    let m23 = m22.insert("rwth_core_authkey"@, SettingValue::Text(ov.rwth_core_authkey@));
    lemma_toml_insert(
        m23,
        "rwth_messages_limit"@,
        SettingValue::Number(dashboard::at_least_one(ov.rwth_messages_limit as nat)),
    );
    let m24 = m23.insert(
        "rwth_messages_limit"@,
        SettingValue::Number(dashboard::at_least_one(ov.rwth_messages_limit as nat)),
    );
    assert(m24 =~= settings(&ov));
    reveal(is_toml_table);
}

/// Every `[dapnet]` section of a configuration to which settings were written gives each of its 24
/// keys the setting of that name: texts as they were, and numbers with their limits applied. It
/// holds nothing that TOML refuses, unless a setting does.
pub proof fn law_settings_read_back(original: Seq<char>, ov: DapnetRuntimeOverride)
    requires
        on_one_line(&ov),
    ensures
        ({
            let after = dashboard::rewritten(original, dashboard::section_text(&ov));
            let sections = rewrite_laws::section_texts(lines::raw_lines(after));
            &&& sections.len() > 0
            &&& forall|i: int|
                0 <= i < sections.len() ==> section_table(#[trigger] sections[i]) == Some(
                    settings(&ov),
                )
        }),
        settings(&ov).dom().len() == 24,
        fits_toml(&ov) ==> forall|key: Seq<char>| #[trigger]
            settings(&ov).contains_key(key) ==> is_toml_value(settings(&ov)[key]),
{
    law_section_lines(ov);
    rewrite_laws::law_section_read_back(original, ov);
    lemma_section_tables(ov);
    if fits_toml(&ov) {
        lemma_toml_settings(ov);
    }
}

/// Whether a line that gives a key a value stands in a text from `k` on, behind another line.
pub open spec fn stands_at(s: Seq<char>, line: Seq<char>, k: int) -> bool {
    &&& 1 <= k <= k + line.len() <= s.len()
    &&& s[k - 1] == '\n'
    &&& s.subrange(k, k + line.len()) == line
    &&& k + line.len() == s.len() || s[k + line.len()] == '\n'
}

/// Whether a line that gives a key a value stands in a text.
pub open spec fn stands_in(s: Seq<char>, key: Seq<char>, value: Seq<char>) -> bool {
    let line = key + seq![' ', '=', ' '] + value;
    exists|k: int| #[trigger] stands_at(s, line, k)
}

/// Pieces that are joined stand behind the first one, between line feeds.
proof fn lemma_stands(pieces: Seq<Seq<char>>, i: int)
    requires
        1 <= i < pieces.len(),
    ensures
        exists|k: int| #[trigger] stands_at(lines::joined(pieces), pieces[i], k),
    decreases pieces.len(),
{
    let front = pieces.drop_last();
    let s = lines::joined(pieces);
    let t = lines::joined(front);
    if i == pieces.len() - 1 {
        let k = t.len() + 1;
        assert(s.subrange(k as int, s.len() as int) =~= pieces[i]);
        assert(stands_at(s, pieces[i], k as int));
    } else {
        lemma_stands(front, i);
        let k = choose|k: int| #[trigger] stands_at(t, front[i], k);
        let e = k + pieces[i].len();
        assert(s.subrange(k, e) =~= t.subrange(k, e));
        assert(s[e] == if e == t.len() {
            '\n'
        } else {
            t[e]
        });
        assert(stands_at(s, pieces[i], k));
    }
}

/// Whatever the settings hold, the section begins with its header, and a line for each of them
/// stands in it: texts quoted and whole, numbers with their limits applied, and booleans.
#[verifier::rlimit(60)]
pub proof fn law_section_holds(ov: DapnetRuntimeOverride)
    ensures
        ({
            let s = dashboard::section_text(&ov);
            &&& s.len() > 9
            &&& s.take(9) == seq!['[', 'd', 'a', 'p', 'n', 'e', 't', ']', '\n']
            &&& stands_in(
                s,
                "enabled"@,
                if ov.enabled {
                    "true"@
                } else {
                    "false"@
                },
            )
            &&& stands_in(s, "api_url"@, seq!['"'] + dashboard::escaped(ov.api_url@) + seq!['"'])
            &&& stands_in(s, "username"@, seq!['"'] + dashboard::escaped(ov.username@) + seq!['"'])
            &&& stands_in(s, "password"@, seq!['"'] + dashboard::escaped(ov.password@) + seq!['"'])
            &&& stands_in(
                s,
                "poll_interval_secs"@,
                number::decimal(
                    if ov.poll_interval_secs == 0 {
                        1
                    } else {
                        ov.poll_interval_secs as nat
                    },
                ),
            )
            &&& stands_in(
                s,
                "forward_sds"@,
                if ov.forward_sds {
                    "true"@
                } else {
                    "false"@
                },
            )
            &&& stands_in(
                s,
                "forward_callout"@,
                if ov.forward_callout {
                    "true"@
                } else {
                    "false"@
                },
            )
            &&& stands_in(
                s,
                "forward_telegram"@,
                if ov.forward_telegram {
                    "true"@
                } else {
                    "false"@
                },
            )
            &&& stands_in(s, "sds_source_issi"@, number::decimal(ov.sds_source_issi as nat))
            &&& stands_in(s, "sds_dest_issi"@, number::decimal(ov.sds_dest_issi as nat))
            &&& stands_in(
                s,
                "sds_dest_is_group"@,
                if ov.sds_dest_is_group {
                    "true"@
                } else {
                    "false"@
                },
            )
            &&& stands_in(s, "callout_source_issi"@, number::decimal(ov.callout_source_issi as nat))
            &&& stands_in(s, "callout_dest_issi"@, number::decimal(ov.callout_dest_issi as nat))
            &&& stands_in(
                s,
                "callout_incident_base"@,
                number::decimal(
                    if ov.callout_incident_base < 1 {
                        1
                    } else if ov.callout_incident_base > 256 {
                        256
                    } else {
                        ov.callout_incident_base as nat
                    },
                ),
            )
            &&& stands_in(
                s,
                "callout_text_prefix"@,
                seq!['"'] + dashboard::escaped(ov.callout_text_prefix@) + seq!['"'],
            )
            &&& stands_in(
                s,
                "telegram_prefix"@,
                seq!['"'] + dashboard::escaped(ov.telegram_prefix@) + seq!['"'],
            )
            &&& stands_in(
                s,
                "rwth_core_enabled"@,
                if ov.rwth_core_enabled {
                    "true"@
                } else {
                    "false"@
                },
            )
            &&& stands_in(
                s,
                "rwth_core_host"@,
                seq!['"'] + dashboard::escaped(ov.rwth_core_host@) + seq!['"'],
            )
            &&& stands_in(s, "rwth_core_port"@, number::decimal(ov.rwth_core_port as nat))
            &&& stands_in(
                s,
                "rwth_core_device"@,
                seq!['"'] + dashboard::escaped(ov.rwth_core_device@) + seq!['"'],
            )
            &&& stands_in(
                s,
                "rwth_core_version"@,
                seq!['"'] + dashboard::escaped(ov.rwth_core_version@) + seq!['"'],
            )
            &&& stands_in(
                s,
                "rwth_core_callsign"@,
                seq!['"'] + dashboard::escaped(ov.rwth_core_callsign@) + seq!['"'],
            )
            &&& stands_in(
                s,
                "rwth_core_authkey"@,
                seq!['"'] + dashboard::escaped(ov.rwth_core_authkey@) + seq!['"'],
            )
            &&& stands_in(
                s,
                "rwth_messages_limit"@,
                number::decimal(
                    if ov.rwth_messages_limit == 0 {
                        1
                    } else {
                        ov.rwth_messages_limit as nat
                    },
                ),
            )
        }),
{
    let ls = dashboard::section_lines(&ov);
    let s = dashboard::section_text(&ov);
    reveal_strlit(" = ");
    assert(" = "@ =~= seq![' ', '=', ' ']);
    assert(s.len() > 9 && s.take(9) == seq!['[', 'd', 'a', 'p', 'n', 'e', 't', ']', '\n']) by {
        reveal_strlit("[dapnet]");
        lines::lemma_joined_front(ls);
        let tail = ls.drop_first();
        lines::lemma_joined_front(tail);
        assert(s.take(9) =~= seq!['[', 'd', 'a', 'p', 'n', 'e', 't', ']', '\n']);
    }
    lemma_stands(ls, 1);
    lemma_stands(ls, 2);
    lemma_stands(ls, 3);
    lemma_stands(ls, 4);
    lemma_stands(ls, 5);
    lemma_stands(ls, 7);
    lemma_stands(ls, 8);
    lemma_stands(ls, 9);
    lemma_stands(ls, 11);
    lemma_stands(ls, 12);
    lemma_stands(ls, 13);
    lemma_stands(ls, 15);
    lemma_stands(ls, 16);
    lemma_stands(ls, 17);
    lemma_stands(ls, 18);
    lemma_stands(ls, 20);
    lemma_stands(ls, 22);
    lemma_stands(ls, 23);
    lemma_stands(ls, 24);
    lemma_stands(ls, 25);
    lemma_stands(ls, 26);
    lemma_stands(ls, 27);
    lemma_stands(ls, 28);
    lemma_stands(ls, 29);
}

} // verus!
