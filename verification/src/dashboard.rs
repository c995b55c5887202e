//! DAPNET settings on the dashboard: secrets are masked before they are shown, and the settings
//! are written to the `[dapnet]` section of the configuration file, which keeps all else.

use crate::config;
use crate::config::{clamp_incident, DapnetRuntimeOverride};
use crate::lines;
use crate::lines::{has_content, join_lines, raw_lines_of};
use crate::number;
use crate::number::decimal_text;
use crate::text;
use crate::text::{chars_of, position, slice_text, trim, trim_white_start, CharClass};
use vstd::prelude::*;

verus! {

/// The longest secret of which nothing is shown.
pub const HIDDEN_SECRET_MAX_CHARS: usize = 10;

/// A secret as it is shown: its first and its last four characters, or as many dots as it has
/// characters where it is short.
pub open spec fn masked(secret: Seq<char>) -> Seq<char> {
    let t = text::trimmed(secret);
    if t.len() <= HIDDEN_SECRET_MAX_CHARS {
        Seq::new(t.len(), |i: int| '\u{2022}')
    } else {
        t.take(4) + seq!['\u{2026}'] + t.skip(t.len() - 4)
    }
}

/// A character inside of a quoted value.
pub open spec fn escaped_char(c: char) -> Seq<char> {
    if c == '\\' || c == '"' {
        seq!['\\', c]
    } else {
        seq![c]
    }
}

/// A text inside of a quoted value: with a backslash before every backslash and quotation mark.
pub open spec fn escaped(s: Seq<char>) -> Seq<char>
    decreases s.len(),
{
    if s.len() == 0 {
        Seq::empty()
    } else {
        escaped_char(s[0]) + escaped(s.drop_first())
    }
}

/// A quoted value.
pub open spec fn quoted(s: Seq<char>) -> Seq<char> {
    seq!['"'] + escaped(s) + seq!['"']
}

pub open spec fn bool_text(b: bool) -> Seq<char> {
    if b {
        "true"@
    } else {
        "false"@
    }
}

/// A key and its value.
pub open spec fn entry(key: Seq<char>, value: Seq<char>) -> Seq<char> {
    key + " = "@ + value
}

/// A number, or one where it is zero.
pub open spec fn at_least_one(n: nat) -> nat {
    if n < 1 {
        1
    } else {
        n
    }
}

/// The `[dapnet]` section, as lines.
pub open spec fn section_lines(ov: &DapnetRuntimeOverride) -> Seq<Seq<char>> {
    seq![
        "[dapnet]"@,
        entry("enabled"@, bool_text(ov.enabled)),
        entry("api_url"@, quoted(ov.api_url@)),
        entry("username"@, quoted(ov.username@)),
        entry("password"@, quoted(ov.password@)),
        entry("poll_interval_secs"@, number::decimal(at_least_one(ov.poll_interval_secs as nat))),
        Seq::<char>::empty(),
        entry("forward_sds"@, bool_text(ov.forward_sds)),
        entry("forward_callout"@, bool_text(ov.forward_callout)),
        entry("forward_telegram"@, bool_text(ov.forward_telegram)),
        Seq::<char>::empty(),
        entry("sds_source_issi"@, number::decimal(ov.sds_source_issi as nat)),
        entry("sds_dest_issi"@, number::decimal(ov.sds_dest_issi as nat)),
        entry("sds_dest_is_group"@, bool_text(ov.sds_dest_is_group)),
        Seq::<char>::empty(),
        entry("callout_source_issi"@, number::decimal(ov.callout_source_issi as nat)),
        entry("callout_dest_issi"@, number::decimal(ov.callout_dest_issi as nat)),
        entry(
            "callout_incident_base"@,
            number::decimal(config::clamped_incident(ov.callout_incident_base) as nat),
        ),
        entry("callout_text_prefix"@, quoted(ov.callout_text_prefix@)),
        Seq::<char>::empty(),
        entry("telegram_prefix"@, quoted(ov.telegram_prefix@)),
        Seq::<char>::empty(),
        entry("rwth_core_enabled"@, bool_text(ov.rwth_core_enabled)),
        entry("rwth_core_host"@, quoted(ov.rwth_core_host@)),
        entry("rwth_core_port"@, number::decimal(ov.rwth_core_port as nat)),
        entry("rwth_core_device"@, quoted(ov.rwth_core_device@)),
        entry("rwth_core_version"@, quoted(ov.rwth_core_version@)),
        entry("rwth_core_callsign"@, quoted(ov.rwth_core_callsign@)),
        entry("rwth_core_authkey"@, quoted(ov.rwth_core_authkey@)),
        entry("rwth_messages_limit"@, number::decimal(at_least_one(ov.rwth_messages_limit as nat))),
    ]
}

/// The `[dapnet]` section, as text without a line feed at its end.
pub open spec fn section_text(ov: &DapnetRuntimeOverride) -> Seq<char> {
    lines::joined(section_lines(ov))
}

/// Whether a text begins with another.
pub open spec fn has_prefix(s: Seq<char>, prefix: Seq<char>) -> bool {
    prefix.len() <= s.len() && s.take(prefix.len() as int) == prefix
}

/// Whether a line begins the `[dapnet]` section.
pub open spec fn is_dapnet_header(line: Seq<char>) -> bool {
    has_prefix(text::trim_start(line, CharClass::Whitespace), "[dapnet]"@)
}

/// Whether a line begins a section, and so ends the one before it.
pub open spec fn is_section_start(line: Seq<char>) -> bool {
    let t = text::trim_start(line, CharClass::Whitespace);
    t.len() > 0 && t[0] == '[' && t.contains(']')
}

/// What is left of the lines behind the section that they begin in.
pub open spec fn after_section(ls: Seq<Seq<char>>) -> Seq<Seq<char>>
    decreases ls.len(),
{
    if ls.len() == 0 || is_section_start(ls[0]) {
        ls
    } else {
        after_section(ls.drop_first())
    }
}

/// The text of lines with every `[dapnet]` section replaced. A line feed ends the new section,
/// unless nothing follows it and the text did not end in one.
pub open spec fn replaced_text(ls: Seq<Seq<char>>, section: Seq<char>, ended: bool) -> Seq<char>
    decreases ls.len(),
    via replaced_text_decreases
{
    if ls.len() == 0 {
        Seq::empty()
    } else if is_dapnet_header(ls[0]) {
        let rest = after_section(ls.drop_first());
        section + lines::line_end(rest.len() > 0 || ended) + replaced_text(rest, section, ended)
    } else {
        ls[0] + replaced_text(ls.drop_first(), section, ended)
    }
}

#[via_fn]
proof fn replaced_text_decreases(ls: Seq<Seq<char>>, section: Seq<char>, ended: bool) {
    if ls.len() > 0 {
        lemma_after_section(ls.drop_first());
    }
}

/// Whether there is a `[dapnet]` section among the lines.
pub open spec fn has_dapnet(ls: Seq<Seq<char>>) -> bool {
    exists|i: int| 0 <= i < ls.len() && is_dapnet_header(#[trigger] ls[i])
}

/// What stands between a text and the section that is added behind it: the end of its last line
/// where that lacks one, and an empty line where the last one is not empty.
pub open spec fn gap(original: Seq<char>) -> Seq<char> {
    let ls = lines::raw_lines(original);
    lines::line_end(original.len() > 0 && !lines::ends_in_newline(original)) + lines::line_end(
        ls.len() > 0 && lines::content(ls.last()).len() > 0,
    )
}

/// The configuration with its `[dapnet]` sections replaced, or one added where it has none. All
/// else stays as it is, and so does whether the text ends in a line feed.
pub open spec fn rewritten(original: Seq<char>, section: Seq<char>) -> Seq<char> {
    let ls = lines::raw_lines(original);
    let ended = lines::ends_in_newline(original);
    if has_dapnet(ls) {
        replaced_text(ls, section, ended)
    } else {
        original + gap(original) + section + lines::line_end(ended)
    }
}

/// What is behind a section is the end of the lines, and begins with another section if it is not
/// empty.
pub proof fn lemma_after_section(ls: Seq<Seq<char>>)
    ensures
        after_section(ls).len() <= ls.len(),
        after_section(ls) == ls.skip(ls.len() - after_section(ls).len()),
        after_section(ls).len() > 0 ==> is_section_start(after_section(ls)[0]),
        forall|i: int|
            0 <= i < ls.len() - after_section(ls).len() ==> !is_section_start(#[trigger] ls[i]),
    decreases ls.len(),
{
    if ls.len() == 0 || is_section_start(ls[0]) {
        assert(ls.skip(0) =~= ls);
    } else {
        let d = ls.drop_first();
        lemma_after_section(d);
        let n = after_section(ls).len();
        assert(d.skip(d.len() - n) =~= ls.skip(ls.len() - n));
        assert forall|i: int| 0 <= i < ls.len() - n implies !is_section_start(#[trigger] ls[i]) by {
            if i > 0 {
                assert(ls[i] == d[i - 1]);
            }
        }
    }
}

/// A line that begins the `[dapnet]` section begins a section.
pub proof fn lemma_dapnet_header(line: Seq<char>)
    ensures
        is_dapnet_header(line) ==> is_section_start(line),
{
    let t = text::trim_start(line, CharClass::Whitespace);
    reveal_strlit("[dapnet]");
    if is_dapnet_header(line) {
        assert(t.take(8)[0] == t[0]);
        assert(t.take(8)[7] == t[7]);
        assert(t.contains(t[7]));
    }
}

/// A secret as it may be shown. An empty one stays empty.
pub fn mask_secret(secret: &str) -> (r: String)
    ensures
        r@ == masked(secret@),
{
    let secret = trim(secret);
    let v = chars_of(secret);
    let n: usize = v.len();
    if n <= HIDDEN_SECRET_MAX_CHARS {
        let mut r = String::new();
        let mut i: usize = 0;
        while i < n
            invariant
                i <= n,
                r@ == Seq::new(i as nat, |k: int| '\u{2022}'),
            decreases n - i,
        {
            r.push('\u{2022}');
            i += 1;
        }
        return r;
    }
    let mut r = slice_text(&v, 0, 4);
    r.push('\u{2026}');
    r.append(slice_text(&v, n - 4, n).as_str());
    assert(r@ =~= v@.take(4) + seq!['\u{2026}'] + v@.skip(n - 4));
    r
}

/// The text as it stands inside of a quoted value.
pub fn toml_escape(s: &str) -> (r: String)
    ensures
        r@ == escaped(s@),
{
    let v = chars_of(s);
    let mut r = String::new();
    let mut i: usize = 0;
    assert(v@.skip(0) =~= s@);
    assert(r@ + escaped(s@) =~= escaped(s@));
    while i < v.len()
        invariant
            i <= v@.len(),
            r@ + escaped(v@.skip(i as int)) == escaped(s@),
        decreases v.len() - i,
    {
        let ghost before = r@;
        let c = v[i];
        assert(v@.skip(i as int).drop_first() =~= v@.skip(i + 1));
        if c == '\\' || c == '"' {
            r.push('\\');
        }
        r.push(c);
        assert(r@ =~= before + escaped_char(c));
        assert(r@ + escaped(v@.skip(i + 1)) =~= before + (escaped_char(c) + escaped(
            v@.skip(i + 1),
        )));
        i += 1;
    }
    assert(v@.skip(i as int) =~= Seq::empty());
    assert(r@ + Seq::<char>::empty() =~= r@);
    r
}

fn entry_text(key: &str, value: &str) -> (r: String)
    ensures
        r@ == entry(key@, value@),
{
    key.to_owned().concat(" = ").concat(value)
}

fn bool_entry(key: &str, b: bool) -> (r: String)
    ensures
        r@ == entry(key@, bool_text(b)),
{
    if b {
        entry_text(key, "true")
    } else {
        entry_text(key, "false")
    }
}

fn number_entry(key: &str, n: u64) -> (r: String)
    ensures
        r@ == entry(key@, number::decimal(n as nat)),
{
    entry_text(key, decimal_text(n).as_str())
}

fn quoted_entry(key: &str, value: &str) -> (r: String)
    ensures
        r@ == entry(key@, quoted(value@)),
{
    let mut q = String::new();
    q.push('"');
    q.append(toml_escape(value).as_str());
    q.push('"');
    assert(q@ =~= quoted(value@));
    entry_text(key, q.as_str())
}

/// The `[dapnet]` section that holds the settings.
#[verifier::rlimit(40)]
pub fn dapnet_section(ov: &DapnetRuntimeOverride) -> (r: String)
    ensures
        r@ == section_text(ov),
{
    let poll: u64 = if ov.poll_interval_secs < 1 {
        1
    } else {
        ov.poll_interval_secs
    };
    let limit: usize = if ov.rwth_messages_limit < 1 {
        1
    } else {
        ov.rwth_messages_limit
    };
    let mut ls: Vec<String> = Vec::new();
    ls.push("[dapnet]".to_owned());
    ls.push(bool_entry("enabled", ov.enabled));
    ls.push(quoted_entry("api_url", ov.api_url.as_str()));
    ls.push(quoted_entry("username", ov.username.as_str()));
    ls.push(quoted_entry("password", ov.password.as_str()));
    ls.push(number_entry("poll_interval_secs", poll));
    ls.push(String::new());
    ls.push(bool_entry("forward_sds", ov.forward_sds));
    ls.push(bool_entry("forward_callout", ov.forward_callout));
    ls.push(bool_entry("forward_telegram", ov.forward_telegram));
    ls.push(String::new());
    ls.push(number_entry("sds_source_issi", ov.sds_source_issi as u64));
    ls.push(number_entry("sds_dest_issi", ov.sds_dest_issi as u64));
    ls.push(bool_entry("sds_dest_is_group", ov.sds_dest_is_group));
    ls.push(String::new());
    ls.push(number_entry("callout_source_issi", ov.callout_source_issi as u64));
    ls.push(number_entry("callout_dest_issi", ov.callout_dest_issi as u64));
    ls.push(
        number_entry("callout_incident_base", clamp_incident(ov.callout_incident_base) as u64),
    );
    ls.push(quoted_entry("callout_text_prefix", ov.callout_text_prefix.as_str()));
    ls.push(String::new());
    ls.push(quoted_entry("telegram_prefix", ov.telegram_prefix.as_str()));
    ls.push(String::new());
    ls.push(bool_entry("rwth_core_enabled", ov.rwth_core_enabled));
    ls.push(quoted_entry("rwth_core_host", ov.rwth_core_host.as_str()));
    ls.push(number_entry("rwth_core_port", ov.rwth_core_port as u64));
    ls.push(quoted_entry("rwth_core_device", ov.rwth_core_device.as_str()));
    ls.push(quoted_entry("rwth_core_version", ov.rwth_core_version.as_str()));
    ls.push(quoted_entry("rwth_core_callsign", ov.rwth_core_callsign.as_str()));
    ls.push(quoted_entry("rwth_core_authkey", ov.rwth_core_authkey.as_str()));
    ls.push(number_entry("rwth_messages_limit", limit as u64));
    assert(ls.deep_view() =~= section_lines(ov));
    join_lines(&ls)
}

/// Whether a line begins the `[dapnet]` section.
fn check_dapnet_header(line: &str) -> (b: bool)
    ensures
        b == is_dapnet_header(line@),
{
    let v = chars_of(trim_white_start(line));
    let b = v.len() >= 8 && v[0] == '[' && v[1] == 'd' && v[2] == 'a' && v[3] == 'p' && v[4] == 'n'
        && v[5] == 'e' && v[6] == 't' && v[7] == ']';
    proof {
        reveal_strlit("[dapnet]");
        let t = text::trim_start(line@, CharClass::Whitespace);
        if b {
            assert(t.take(8) =~= "[dapnet]"@);
        } else if is_dapnet_header(line@) {
            assert(t.take(8)[0] == t[0] && t.take(8)[1] == t[1] && t.take(8)[2] == t[2] && t.take(
                8,
            )[3] == t[3] && t.take(8)[4] == t[4] && t.take(8)[5] == t[5] && t.take(8)[6] == t[6]
                && t.take(8)[7] == t[7]);
        }
    }
    b
}

/// Whether a line begins a section.
fn check_section_start(line: &str) -> (b: bool)
    ensures
        b == is_section_start(line@),
{
    let v = chars_of(trim_white_start(line));
    if v.len() == 0 || v[0] != '[' {
        return false;
    }
    let n: usize = v.len();
    let p = position(&v, 0, n, ']');
    proof {
        assert(v@.subrange(0, n as int) =~= v@);
        text::lemma_find_char(v@, ']');
    }
    p < n
}

/// The configuration with its `[dapnet]` section replaced by the settings, or added where it has
/// none. All else is kept as it is, line ends included.
pub fn rewrite_dapnet_section(original: &str, ov: &DapnetRuntimeOverride) -> (r: String)
    ensures
        r@ == rewritten(original@, section_text(ov)),
{
    let section = dapnet_section(ov);
    let ls = raw_lines_of(original);
    let n = original.unicode_len();
    let ended = n > 0 && original.get_char(n - 1) == '\n';
    let ghost all = ls.deep_view();
    let mut out = String::new();
    let mut i: usize = 0;
    let mut replaced = false;
    assert(all.skip(0) =~= all);
    assert(out@ + replaced_text(all, section@, ended) =~= replaced_text(all, section@, ended));
    while i < ls.len()
        invariant
            i <= ls@.len(),
            all == ls.deep_view(),
            replaced == exists|j: int| 0 <= j < i && is_dapnet_header(#[trigger] all[j]),
            out@ + replaced_text(all.skip(i as int), section@, ended) == replaced_text(
                all,
                section@,
                ended,
            ),
        decreases ls.len() - i,
    {
        let ghost rest = all.skip(i as int);
        let ghost before = out@;
        let ghost first = i as int;
        assert(rest[0] == all[i as int] && all[i as int] == ls@[i as int]@);
        assert(rest.drop_first() =~= all.skip(i + 1));
        if check_dapnet_header(ls[i].as_str()) {
            out.append(section.as_str());
            replaced = true;
            i += 1;
            while i < ls.len() && !check_section_start(ls[i].as_str())
                invariant
                    first + 1 <= i <= ls@.len(),
                    all == ls.deep_view(),
                    after_section(all.skip(first + 1)) == after_section(all.skip(i as int)),
                decreases ls.len() - i,
            {
                assert(all.skip(i as int).drop_first() =~= all.skip(i + 1));
                i += 1;
            }
            if i < ls.len() || ended {
                out.push('\n');
            }
            proof {
                assert(after_section(all.skip(i as int)) == all.skip(i as int));
                assert(out@ =~= before + section@ + lines::line_end(i < ls.len() || ended));
                assert(out@ + replaced_text(all.skip(i as int), section@, ended) =~= before
                    + replaced_text(rest, section@, ended));
                assert(is_dapnet_header(all[first]));
            }
        } else {
            out.append(ls[i].as_str());
            assert(out@ + replaced_text(all.skip(i + 1), section@, ended) =~= before
                + replaced_text(rest, section@, ended));
            i += 1;
        }
    }
    assert(all.skip(i as int) =~= Seq::empty());
    if replaced {
        assert(out@ + Seq::<char>::empty() =~= out@);
        return out;
    }
    let mut r = original.to_owned();
    if n > 0 && !ended {
        r.push('\n');
    }
    if ls.len() > 0 && has_content(ls[ls.len() - 1].as_str()) {
        r.push('\n');
    }
    r.append(section.as_str());
    if ended {
        r.push('\n');
    }
    assert(r@ =~= rewritten(original@, section@));
    r
}

/// The name of the copy that is made of a configuration file before it is written.
pub fn backup_path(config_path: &str) -> (r: String)
    ensures
        r@ == config_path@ + ".dapnet.bak"@,
{
    config_path.to_owned().concat(".dapnet.bak")
}

/// A masked secret tells of a short one only how long it is, and of a long one only its first and
/// its last four characters: secrets that agree in that are shown alike.
pub proof fn law_mask_hides(a: Seq<char>, b: Seq<char>)
    requires
        ({
            let s = text::trimmed(a);
            let t = text::trimmed(b);
            ||| s.len() == t.len() <= HIDDEN_SECRET_MAX_CHARS
            ||| s.len() > HIDDEN_SECRET_MAX_CHARS && t.len() > HIDDEN_SECRET_MAX_CHARS && s.take(4)
                == t.take(4) && s.skip(s.len() - 4) == t.skip(t.len() - 4)
        }),
    ensures
        masked(a) == masked(b),
{
    assert(masked(a) =~= masked(b));
}

/// A masked secret is empty where the secret is, and never longer than it.
pub proof fn law_mask_length(a: Seq<char>)
    ensures
        masked(a).len() == 0 <==> text::trimmed(a).len() == 0,
        masked(a).len() <= text::trimmed(a).len(),
{
}

/// What a quoted value holds, read from behind its opening quotation mark, and what is behind its
/// closing one.
pub open spec fn unquoted(s: Seq<char>) -> Option<(Seq<char>, Seq<char>)>
    decreases s.len(),
{
    if s.len() == 0 {
        None
    } else if s[0] == '"' {
        Some((Seq::empty(), s.skip(1)))
    } else if s[0] == '\\' {
        if s.len() >= 2 && (s[1] == '\\' || s[1] == '"') {
            match unquoted(s.skip(2)) {
                Some((v, rest)) => Some((seq![s[1]] + v, rest)),
                None => None,
            }
        } else {
            None
        }
    } else {
        match unquoted(s.skip(1)) {
            Some((v, rest)) => Some((seq![s[0]] + v, rest)),
            None => None,
        }
    }
}

/// A value that is quoted is read back as it was, whatever characters it holds and whatever
/// follows it.
pub proof fn law_quoted_read_back(s: Seq<char>, rest: Seq<char>)
    ensures
        unquoted(escaped(s) + seq!['"'] + rest) == Some((s, rest)),
    decreases s.len(),
{
    let q = escaped(s) + seq!['"'] + rest;
    if s.len() == 0 {
        assert(q.skip(1) =~= rest);
        assert(s =~= Seq::empty());
    } else {
        let d = s.drop_first();
        let n = escaped_char(s[0]).len() as int;
        law_quoted_read_back(d, rest);
        assert(q.skip(n) =~= escaped(d) + seq!['"'] + rest);
        assert(seq![s[0]] + d =~= s);
    }
}

/// Of a secret of at most ten characters nothing but dots is shown, one for each character. Of a
/// longer one its first four and its last four characters are, and nothing between them. White
/// space around it does not matter.
pub proof fn law_mask_shows(secret: Seq<char>, core: Seq<char>)
    requires
        text::is_core(secret, core),
    ensures
        core.len() <= 10 ==> masked(secret).len() == core.len() && forall|i: int|
            0 <= i < core.len() ==> #[trigger] masked(secret)[i] == '\u{2022}',
        core.len() > 10 ==> masked(secret) == seq![
            core[0],
            core[1],
            core[2],
            core[3],
            '\u{2026}',
            core[core.len() - 4],
            core[core.len() - 3],
            core[core.len() - 2],
            core[core.len() - 1],
        ],
{
    text::law_trimmed(secret, core);
    if core.len() > 10 {
        assert(masked(secret) =~= seq![
            core[0],
            core[1],
            core[2],
            core[3],
            '\u{2026}',
            core[core.len() - 4],
            core[core.len() - 3],
            core[core.len() - 2],
            core[core.len() - 1],
        ]);
    }
}

} // verus!
