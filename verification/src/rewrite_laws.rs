//! What writing the `[dapnet]` section keeps, and what is read back afterwards.

use crate::config::DapnetRuntimeOverride;
use crate::dashboard;
use crate::lines;
use crate::number;
use crate::text;
use crate::text::CharClass;
use vstd::prelude::*;

verus! {

/// The texts before, between and behind the `[dapnet]` sections of lines. There is one more of
/// them than there are sections, and each may be empty.
pub open spec fn outside_parts(ls: Seq<Seq<char>>) -> Seq<Seq<char>>
    decreases ls.len(),
    via outside_parts_decreases
{
    if ls.len() == 0 {
        seq![Seq::empty()]
    } else if dashboard::is_dapnet_header(ls[0]) {
        seq![Seq::empty()] + outside_parts(dashboard::after_section(ls.drop_first()))
    } else {
        let parts = outside_parts(ls.drop_first());
        seq![ls[0] + parts[0]] + parts.drop_first()
    }
}

#[via_fn]
proof fn outside_parts_decreases(ls: Seq<Seq<char>>) {
    if ls.len() > 0 {
        dashboard::lemma_after_section(ls.drop_first());
    }
}

/// The texts of the `[dapnet]` sections among lines, each with its header.
pub open spec fn section_texts(ls: Seq<Seq<char>>) -> Seq<Seq<char>>
    decreases ls.len(),
    via section_texts_decreases
{
    if ls.len() == 0 {
        Seq::empty()
    } else if dashboard::is_dapnet_header(ls[0]) {
        let rest = dashboard::after_section(ls.drop_first());
        seq![ls.take(ls.len() - rest.len()).flatten()] + section_texts(rest)
    } else {
        section_texts(ls.drop_first())
    }
}

#[via_fn]
proof fn section_texts_decreases(ls: Seq<Seq<char>>) {
    if ls.len() > 0 {
        dashboard::lemma_after_section(ls.drop_first());
    }
}

/// Parts and sections by turns, beginning and ending with a part.
pub open spec fn woven(parts: Seq<Seq<char>>, sections: Seq<Seq<char>>) -> Seq<char>
    decreases sections.len(),
{
    if sections.len() == 0 {
        parts[0]
    } else {
        parts[0] + sections[0] + woven(parts.drop_first(), sections.drop_first())
    }
}

/// A section several times, each time with a line feed behind it but perhaps the last.
pub open spec fn copies(section: Seq<char>, n: nat, ended: bool) -> Seq<Seq<char>> {
    Seq::new(n, |i: int| section + lines::line_end(i + 1 < n || ended))
}

/// Whether a section is read as one: none of its lines but the first begins a section.
pub open spec fn reads_as_one(section: Seq<char>) -> bool {
    let ls = lines::raw_lines(section);
    forall|i: int| 1 <= i < ls.len() ==> !dashboard::is_section_start(#[trigger] ls[i])
}

/// Weaving from a section on.
proof fn lemma_woven_section(parts: Seq<Seq<char>>, s: Seq<char>, sections: Seq<Seq<char>>)
    ensures
        woven(seq![Seq::<char>::empty()] + parts, seq![s] + sections) == s + woven(parts, sections),
{
    let all_parts = seq![Seq::<char>::empty()] + parts;
    let all_sections = seq![s] + sections;
    assert(all_parts.drop_first() =~= parts);
    assert(all_sections.drop_first() =~= sections);
    assert(Seq::<char>::empty() + s =~= s);
}

/// Weaving from a line on that belongs to no section.
proof fn lemma_woven_line(l: Seq<char>, parts: Seq<Seq<char>>, sections: Seq<Seq<char>>)
    requires
        parts.len() > 0,
    ensures
        woven(seq![l + parts[0]] + parts.drop_first(), sections) == l + woven(parts, sections),
{
    let all_parts = seq![l + parts[0]] + parts.drop_first();
    assert(all_parts.drop_first() =~= parts.drop_first());
    if sections.len() > 0 {
        let tail = woven(parts.drop_first(), sections.drop_first());
        assert(l + parts[0] + sections[0] + tail =~= l + (parts[0] + sections[0] + tail));
    }
}

/// There is a section where there is a header, and one more part than there are sections.
proof fn lemma_part_count(ls: Seq<Seq<char>>)
    requires
        forall|i: int| 0 <= i < ls.len() ==> (#[trigger] ls[i]).len() > 0,
    ensures
        outside_parts(ls).len() == section_texts(ls).len() + 1,
        section_texts(ls).len() > 0 <==> dashboard::has_dapnet(ls),
        ls.len() > 0 <==> section_texts(ls).len() > 0 || outside_parts(ls).last().len() > 0,
    decreases ls.len(),
{
    if ls.len() > 0 {
        let d = ls.drop_first();
        if dashboard::is_dapnet_header(ls[0]) {
            dashboard::lemma_after_section(d);
            let rest = dashboard::after_section(d);
            assert forall|i: int| 0 <= i < rest.len() implies (#[trigger] rest[i]).len() > 0 by {
                assert(rest[i] == ls[ls.len() - rest.len() + i]);
            }
            lemma_part_count(rest);
        } else {
            assert forall|i: int| 0 <= i < d.len() implies (#[trigger] d[i]).len() > 0 by {
                assert(d[i] == ls[i + 1]);
            }
            lemma_part_count(d);
            if dashboard::has_dapnet(d) {
                let i = choose|i: int|
                    0 <= i < d.len() && dashboard::is_dapnet_header(#[trigger] d[i]);
                assert(ls[i + 1] == d[i]);
            }
            if dashboard::has_dapnet(ls) {
                let i = choose|i: int|
                    0 <= i < ls.len() && dashboard::is_dapnet_header(#[trigger] ls[i]);
                assert(d[i - 1] == ls[i]);
            }
        }
    }
}

/// Lines are their parts and sections by turns.
proof fn lemma_woven_lines(ls: Seq<Seq<char>>)
    ensures
        ls.flatten() == woven(outside_parts(ls), section_texts(ls)),
    decreases ls.len(),
{
    if ls.len() > 0 {
        let d = ls.drop_first();
        if dashboard::is_dapnet_header(ls[0]) {
            dashboard::lemma_after_section(d);
            let rest = dashboard::after_section(d);
            let k = ls.len() - rest.len();
            assert(rest =~= ls.skip(k));
            assert(ls.take(k) + rest =~= ls);
            lemma_flatten_concat(ls.take(k), rest);
            lemma_woven_lines(rest);
            lemma_woven_section(outside_parts(rest), ls.take(k).flatten(), section_texts(rest));
        } else {
            lemma_parts(d);
            lemma_woven_lines(d);
            lemma_woven_line(ls[0], outside_parts(d), section_texts(d));
        }
    }
}

/// Lines with their sections replaced are their parts and the new sections by turns.
proof fn lemma_woven_replaced(ls: Seq<Seq<char>>, section: Seq<char>, ended: bool)
    requires
        forall|i: int| 0 <= i < ls.len() ==> (#[trigger] ls[i]).len() > 0,
    ensures
        dashboard::replaced_text(ls, section, ended) == woven(
            outside_parts(ls),
            copies(
                section,
                section_texts(ls).len(),
                outside_parts(ls).last().len() > 0 || ended,
            ),
        ),
    decreases ls.len(),
{
    let parts = outside_parts(ls);
    let n = section_texts(ls).len();
    let e = parts.last().len() > 0 || ended;
    lemma_part_count(ls);
    if ls.len() > 0 {
        let d = ls.drop_first();
        if dashboard::is_dapnet_header(ls[0]) {
            dashboard::lemma_after_section(d);
            let rest = dashboard::after_section(d);
            assert forall|i: int| 0 <= i < rest.len() implies (#[trigger] rest[i]).len() > 0 by {
                assert(rest[i] == ls[ls.len() - rest.len() + i]);
            }
            lemma_part_count(rest);
            lemma_woven_replaced(rest, section, ended);
            let s = section + lines::line_end(rest.len() > 0 || ended);
            let later = copies(section, (n - 1) as nat, e);
            assert(parts.last() == outside_parts(rest).last());
            lemma_woven_section(outside_parts(rest), s, later);
            assert(copies(section, n, e) =~= seq![s] + later);
        } else {
            assert forall|i: int| 0 <= i < d.len() implies (#[trigger] d[i]).len() > 0 by {
                assert(d[i] == ls[i + 1]);
            }
            lemma_part_count(d);
            lemma_woven_replaced(d, section, ended);
            let inner = outside_parts(d);
            let later = copies(section, n, inner.last().len() > 0 || ended);
            lemma_woven_line(ls[0], inner, later);
            if n > 0 {
                assert(parts.last() == inner.last());
            }
            assert(later =~= copies(section, n, e));
        }
    }
}

proof fn lemma_flatten_concat(a: Seq<Seq<char>>, b: Seq<Seq<char>>)
    ensures
        (a + b).flatten() == a.flatten() + b.flatten(),
    decreases a.len(),
{
    if a.len() == 0 {
        assert(a + b =~= b);
        assert((a + b).flatten() =~= a.flatten() + b.flatten());
    } else {
        lemma_flatten_concat(a.drop_first(), b);
        assert((a + b).drop_first() =~= a.drop_first() + b);
        assert((a + b).flatten() =~= a.flatten() + b.flatten());
    }
}

proof fn lemma_lines_not_empty(ls: Seq<Seq<char>>, ended: bool)
    requires
        lines::are_lines(ls, ended),
    ensures
        forall|i: int| 0 <= i < ls.len() ==> (#[trigger] ls[i]).len() > 0,
{
    assert forall|i: int| 0 <= i < ls.len() implies (#[trigger] ls[i]).len() > 0 by {
        assert(lines::is_line(ls[i], i + 1 < ls.len() || ended));
    }
}

/// Writing the settings changes nothing outside of the `[dapnet]` sections. Whatever the
/// configuration and the settings hold, every text before, between and behind the sections comes
/// out character by character as it was, line ends included, and every section is replaced. Where
/// there is no section, the whole text comes out as it was, before the new section and the gap to
/// it.
pub proof fn law_outside_untouched(original: Seq<char>, ov: DapnetRuntimeOverride)
    ensures
        ({
            let section = dashboard::section_text(&ov);
            let ls = lines::raw_lines(original);
            let parts = outside_parts(ls);
            let n = section_texts(ls).len();
            let ended = lines::ends_in_newline(original);
            &&& parts.len() == n + 1
            &&& original == woven(parts, section_texts(ls))
            &&& dashboard::rewritten(original, section) == if n > 0 {
                woven(parts, copies(section, n, parts.last().len() > 0 || ended))
            } else {
                original + dashboard::gap(original) + section + lines::line_end(ended)
            }
        }),
{
    let ls = lines::raw_lines(original);
    let ended = lines::ends_in_newline(original);
    lines::lemma_raw_lines(original);
    lemma_lines_not_empty(ls, ended);
    lemma_part_count(ls);
    lemma_woven_lines(ls);
    lemma_woven_replaced(ls, dashboard::section_text(&ov), ended);
}

/// A line feed behind a line does not decide whether it begins a section.
proof fn lemma_line_end(l: Seq<char>)
    ensures
        dashboard::is_dapnet_header(l.push('\n')) == dashboard::is_dapnet_header(l),
        dashboard::is_section_start(l.push('\n')) == dashboard::is_section_start(l),
{
    let m = l.push('\n');
    let white = CharClass::Whitespace;
    text::lemma_leading(l, white);
    let n = text::leading(l, white) as int;
    let t = text::trim_start(l, white);
    let u = text::trim_start(m, white);
    assert forall|j: int| 0 <= j < n implies white.has(#[trigger] m[j]) by {
        assert(m[j] == l[j]);
    }
    reveal_strlit("[dapnet]");
    let head = "[dapnet]"@;
    if n == l.len() {
        text::lemma_leading_is(m, white, n + 1);
    } else {
        text::lemma_leading_is(m, white, n);
        assert(u =~= t.push('\n'));
        if t.contains(']') {
            let k = choose|k: int| 0 <= k < t.len() && t[k] == ']';
            assert(u[k] == ']');
        }
        if u.contains(']') {
            let k = choose|k: int| 0 <= k < u.len() && u[k] == ']';
            assert(t[k] == ']');
        }
        if dashboard::has_prefix(t, head) {
            assert(u.take(8) =~= t.take(8));
        }
        if dashboard::has_prefix(u, head) {
            assert(u.take(8)[7] == u[7]);
            assert(u.take(8) =~= t.take(8));
        }
    }
}

/// A section as it is written: it begins with its header and does not end in a line feed.
spec fn is_section(section: Seq<char>) -> bool {
    &&& section.len() > 0
    &&& section.last() != '\n'
    &&& dashboard::is_dapnet_header(lines::raw_lines(section)[0])
    &&& reads_as_one(section)
}

proof fn lemma_after_concat(l: Seq<Seq<char>>, x: Seq<Seq<char>>)
    requires
        forall|i: int| 0 <= i < l.len() ==> !dashboard::is_section_start(#[trigger] l[i]),
        x.len() > 0 ==> dashboard::is_section_start(x[0]),
    ensures
        dashboard::after_section(l + x) == x,
    decreases l.len(),
{
    if l.len() == 0 {
        assert(l + x =~= x);
    } else {
        assert((l + x)[0] == l[0]);
        assert((l + x).drop_first() =~= l.drop_first() + x);
        lemma_after_concat(l.drop_first(), x);
    }
}

/// The lines of a section with or without a line feed behind it.
proof fn lemma_section_lines(a: Seq<char>, ended: bool)
    requires
        is_section(a),
    ensures
        ({
            let la = lines::raw_lines(a + lines::line_end(ended));
            &&& la.len() > 0
            &&& la.flatten() == a + lines::line_end(ended)
            &&& dashboard::is_dapnet_header(la[0])
            &&& forall|i: int| 1 <= i < la.len() ==> !dashboard::is_section_start(#[trigger] la[i])
        }),
{
    let ls = lines::raw_lines(a);
    let t = a + lines::line_end(ended);
    lines::lemma_raw_lines(a);
    lines::lemma_raw_lines(t);
    if ended {
        assert(t =~= a.push('\n'));
        lines::lemma_close_last(a);
        lemma_line_end(ls.last());
        let la = lines::raw_lines(t);
        assert forall|i: int| 0 <= i < la.len() implies dashboard::is_dapnet_header(
            #[trigger] la[i],
        ) == dashboard::is_dapnet_header(ls[i]) && dashboard::is_section_start(la[i])
            == dashboard::is_section_start(ls[i]) by {
            if i < ls.len() - 1 {
                assert(la[i] == ls[i]);
            }
        }
    } else {
        assert(t =~= a);
    }
}

/// What a section is read as, before lines that begin another or are at their end.
proof fn lemma_section_step(
    a: Seq<char>,
    ended: bool,
    x: Seq<Seq<char>>,
    b: Seq<char>,
    closed: bool,
)
    requires
        is_section(a),
        x.len() > 0 ==> dashboard::is_section_start(x[0]),
    ensures
        ({
            let t = a + lines::line_end(ended);
            let f = lines::raw_lines(t) + x;
            &&& dashboard::replaced_text(f, b, closed) == b + lines::line_end(x.len() > 0 || closed)
                + dashboard::replaced_text(x, b, closed)
            &&& outside_parts(f) == seq![Seq::<char>::empty()] + outside_parts(x)
            &&& section_texts(f) == seq![t] + section_texts(x)
            &&& dashboard::has_dapnet(f)
            &&& dashboard::is_section_start(f[0])
        }),
{
    let t = a + lines::line_end(ended);
    let la = lines::raw_lines(t);
    let f = la + x;
    let l = la.drop_first();
    lemma_section_lines(a, ended);
    assert(f[0] == la[0]);
    assert(f.drop_first() =~= l + x);
    assert forall|i: int| 0 <= i < l.len() implies !dashboard::is_section_start(
        #[trigger] l[i],
    ) by {
        assert(l[i] == la[i + 1]);
    }
    lemma_after_concat(l, x);
    assert(f.take(f.len() - x.len()) =~= la);
    dashboard::lemma_dapnet_header(f[0]);
}

/// What lines outside of the section are read as, before other lines.
proof fn lemma_outside_step(front: Seq<Seq<char>>, x: Seq<Seq<char>>, b: Seq<char>, closed: bool)
    requires
        !dashboard::has_dapnet(front),
    ensures
        ({
            let f = front + x;
            let parts = outside_parts(x);
            &&& dashboard::replaced_text(f, b, closed) == front.flatten()
                + dashboard::replaced_text(x, b, closed)
            &&& parts.len() > 0
            &&& outside_parts(f) == seq![front.flatten() + parts[0]] + parts.drop_first()
            &&& section_texts(f) == section_texts(x)
            &&& dashboard::has_dapnet(f) == dashboard::has_dapnet(x)
        }),
    decreases front.len(),
{
    let f = front + x;
    let parts = outside_parts(x);
    lemma_parts(x);
    if front.len() == 0 {
        assert(f =~= x);
        assert(front.flatten() =~= Seq::empty());
        assert(front.flatten() + parts[0] =~= parts[0]);
        assert(outside_parts(f) =~= seq![front.flatten() + parts[0]] + parts.drop_first());
        assert(dashboard::replaced_text(f, b, closed) =~= front.flatten()
            + dashboard::replaced_text(x, b, closed));
    } else {
        let l = front[0];
        let d = front.drop_first();
        assert(!dashboard::is_dapnet_header(l));
        if dashboard::has_dapnet(d) {
            let i = choose|i: int| 0 <= i < d.len() && dashboard::is_dapnet_header(#[trigger] d[i]);
            assert(front[i + 1] == d[i]);
        }
        lemma_outside_step(d, x, b, closed);
        assert(f[0] == l);
        assert(f.drop_first() =~= d + x);
        let inner = outside_parts(d + x);
        assert(inner.drop_first() =~= parts.drop_first());
        assert(l + (d.flatten() + parts[0]) =~= front.flatten() + parts[0]);
        assert(outside_parts(f) =~= seq![front.flatten() + parts[0]] + parts.drop_first());
        assert(dashboard::replaced_text(f, b, closed) =~= front.flatten()
            + dashboard::replaced_text(x, b, closed));
        if dashboard::has_dapnet(x) {
            let i = choose|i: int| 0 <= i < x.len() && dashboard::is_dapnet_header(#[trigger] x[i]);
            assert(f[front.len() + i] == x[i]);
        }
        if dashboard::has_dapnet(f) {
            let i = choose|i: int| 0 <= i < f.len() && dashboard::is_dapnet_header(#[trigger] f[i]);
            assert((d + x)[i - 1] == f[i]);
        }
    }
}

proof fn lemma_parts(ls: Seq<Seq<char>>)
    ensures
        outside_parts(ls).len() > 0,
{
}

/// What is read back from lines whose sections were replaced by `a`: they are the same to `b`, and
/// their parts are the same.
spec fn same_but_sections(ls: Seq<Seq<char>>, a: Seq<char>, b: Seq<char>, closed: bool) -> bool {
    let t = dashboard::replaced_text(ls, a, closed);
    let f = lines::raw_lines(t);
    &&& t.len() > 0 <==> ls.len() > 0
    &&& f.len() > 0 <==> ls.len() > 0
    &&& ls.len() > 0 ==> lines::ends_in_newline(t) == closed
    &&& ls.len() > 0 && dashboard::is_section_start(ls[0]) ==> dashboard::is_section_start(f[0])
    &&& dashboard::replaced_text(f, b, closed) == dashboard::replaced_text(ls, b, closed)
    &&& dashboard::has_dapnet(f) == dashboard::has_dapnet(ls)
    &&& outside_parts(f) == outside_parts(ls)
    &&& section_texts(f) == copies(
        a,
        section_texts(ls).len(),
        outside_parts(ls).last().len() > 0 || closed,
    )
}

/// Lines that begin with a section.
proof fn lemma_replaced_section(ls: Seq<Seq<char>>, a: Seq<char>, b: Seq<char>, closed: bool)
    requires
        is_section(a),
        ls.len() > 0,
        dashboard::is_dapnet_header(ls[0]),
        same_but_sections(dashboard::after_section(ls.drop_first()), a, b, closed),
        lines::are_lines(dashboard::after_section(ls.drop_first()), closed),
    ensures
        same_but_sections(ls, a, b, closed),
{
    let rest = dashboard::after_section(ls.drop_first());
    let n = section_texts(ls).len();
    let e = outside_parts(ls).last().len() > 0 || closed;
    dashboard::lemma_after_section(ls.drop_first());
    lemma_lines_not_empty(rest, closed);
    lemma_part_count(rest);
    let u = dashboard::replaced_text(rest, a, closed);
    let x = lines::raw_lines(u);
    let ended = rest.len() > 0 || closed;
    let front = a + lines::line_end(ended);
    let t = dashboard::replaced_text(ls, a, closed);
    let f = lines::raw_lines(t);
    assert(t == front + u);
    if ended {
        lines::lemma_lines_concat(front, u);
    } else {
        assert(u =~= Seq::empty());
        assert(t =~= front);
        assert(x =~= Seq::empty());
        assert(f =~= lines::raw_lines(front) + x);
    }
    lemma_section_step(a, ended, x, b, closed);
    let inner = outside_parts(rest);
    assert(outside_parts(ls).last() == inner.last());
    assert(section_texts(f) =~= copies(a, n, e));
    if u.len() > 0 {
        assert(t.last() == u.last());
    }
}

/// Lines that begin outside of a section.
proof fn lemma_replaced_line(ls: Seq<Seq<char>>, a: Seq<char>, b: Seq<char>, closed: bool)
    requires
        ls.len() > 0,
        !dashboard::is_dapnet_header(ls[0]),
        same_but_sections(ls.drop_first(), a, b, closed),
        lines::are_lines(ls, closed),
    ensures
        same_but_sections(ls, a, b, closed),
{
    let l = ls[0];
    let d = ls.drop_first();
    let n = section_texts(ls).len();
    let e = outside_parts(ls).last().len() > 0 || closed;
    lemma_lines_not_empty(ls, closed);
    assert forall|i: int| 0 <= i < d.len() implies (#[trigger] d[i]).len() > 0 by {
        assert(d[i] == ls[i + 1]);
    }
    lemma_part_count(d);
    let u = dashboard::replaced_text(d, a, closed);
    let x = lines::raw_lines(u);
    let t = dashboard::replaced_text(ls, a, closed);
    let f = lines::raw_lines(t);
    let front = seq![l];
    assert(t == l + u);
    assert(lines::is_line(l, 0 + 1 < ls.len() || closed));
    lines::lemma_one_line(l);
    if d.len() > 0 || closed {
        lines::lemma_lines_concat(l, u);
    } else {
        assert(u =~= Seq::empty());
        assert(t =~= l);
        assert(x =~= Seq::empty());
        assert(f =~= front + x);
    }
    assert(ls =~= front + d);
    assert(!dashboard::has_dapnet(front)) by {
        if dashboard::has_dapnet(front) {
            let i = choose|i: int|
                0 <= i < front.len() && dashboard::is_dapnet_header(#[trigger] front[i]);
            assert(front[i] == l);
        }
    }
    lemma_outside_step(front, x, b, closed);
    lemma_outside_step(front, d, b, closed);
    assert(f[0] == l);
    if n > 0 {
        assert(outside_parts(ls).last() == outside_parts(d).last());
    }
    assert(section_texts(f) =~= copies(a, n, e));
    if u.len() > 0 {
        assert(t.last() == u.last());
    }
}

/// What is read back from lines whose sections were replaced.
proof fn lemma_replaced(ls: Seq<Seq<char>>, a: Seq<char>, b: Seq<char>, closed: bool)
    requires
        is_section(a),
        lines::are_lines(ls, closed),
    ensures
        same_but_sections(ls, a, b, closed),
    decreases ls.len(),
{
    if ls.len() == 0 {
        let f = lines::raw_lines(dashboard::replaced_text(ls, a, closed));
        assert(f =~= ls);
        assert(section_texts(f) =~= copies(a, 0, closed));
    } else {
        let d = ls.drop_first();
        let header = dashboard::is_dapnet_header(ls[0]);
        let rest = if header {
            dashboard::after_section(d)
        } else {
            d
        };
        dashboard::lemma_after_section(d);
        let k = ls.len() - rest.len();
        assert(rest =~= ls.skip(k));
        assert forall|i: int| 0 <= i < rest.len() implies lines::is_line(
            #[trigger] rest[i],
            i + 1 < rest.len() || closed,
        ) by {
            assert(rest[i] == ls[k + i]);
        }
        lemma_replaced(rest, a, b, closed);
        if header {
            lemma_replaced_section(ls, a, b, closed);
        } else {
            lemma_replaced_line(ls, a, b, closed);
        }
    }
}

/// What is read back from a text to which a section was added.
proof fn lemma_added(original: Seq<char>, a: Seq<char>, b: Seq<char>)
    requires
        is_section(a),
        !dashboard::has_dapnet(lines::raw_lines(original)),
    ensures
        ({
            let ended = lines::ends_in_newline(original);
            let front = original + dashboard::gap(original);
            let t = dashboard::rewritten(original, a);
            let f = lines::raw_lines(t);
            &&& lines::ends_in_newline(t) == ended
            &&& dashboard::has_dapnet(f)
            &&& dashboard::replaced_text(f, b, ended) == front + b + lines::line_end(ended)
            &&& outside_parts(f) == seq![front, Seq::<char>::empty()]
            &&& section_texts(f) == seq![a + lines::line_end(ended)]
        }),
{
    let ended = lines::ends_in_newline(original);
    let front = original + dashboard::gap(original);
    let back = a + lines::line_end(ended);
    let t = dashboard::rewritten(original, a);
    let us = lines::raw_lines(front);
    let none = Seq::<Seq<char>>::empty();
    lemma_gap(original);
    assert(t =~= front + back);
    lines::lemma_lines_concat(front, back);
    lines::lemma_raw_lines(front);
    let x = lines::raw_lines(back);
    assert(x =~= x + none);
    lemma_section_step(a, ended, none, b, ended);
    lemma_outside_step(us, x, b, ended);
    let f = lines::raw_lines(t);
    assert(t.last() == back.last());
    assert(outside_parts(none) =~= seq![Seq::<char>::empty()]);
    assert(section_texts(none) =~= none);
    assert(dashboard::replaced_text(none, b, ended) =~= Seq::empty());
    assert(front + Seq::<char>::empty() =~= front);
    assert(outside_parts(f) =~= seq![front, Seq::<char>::empty()]);
    assert(section_texts(f) =~= seq![back]);
    assert(dashboard::replaced_text(f, b, ended) =~= front + b + lines::line_end(ended));
}

/// The gap ends the last line, and neither it nor that adds a header.
proof fn lemma_gap(original: Seq<char>)
    requires
        !dashboard::has_dapnet(lines::raw_lines(original)),
    ensures
        ({
            let front = original + dashboard::gap(original);
            &&& front.len() == 0 || lines::ends_in_newline(front)
            &&& !dashboard::has_dapnet(lines::raw_lines(front))
        }),
{
    let ls = lines::raw_lines(original);
    let ended = lines::ends_in_newline(original);
    let first = original + lines::line_end(original.len() > 0 && !ended);
    let second = lines::line_end(ls.len() > 0 && lines::content(ls.last()).len() > 0);
    let front = original + dashboard::gap(original);
    assert(front =~= first + second);
    lines::lemma_raw_lines(original);
    let fs = lines::raw_lines(first);
    assert(!dashboard::has_dapnet(fs)) by {
        if original.len() > 0 && !ended {
            assert(first =~= original.push('\n'));
            lines::lemma_close_last(original);
            lemma_line_end(ls.last());
            if dashboard::has_dapnet(fs) {
                let i = choose|i: int|
                    0 <= i < fs.len() && dashboard::is_dapnet_header(#[trigger] fs[i]);
                assert(dashboard::is_dapnet_header(ls[i]));
            }
        } else {
            assert(first =~= original);
        }
    }
    lines::lemma_lines_concat(first, second);
    let empty_line = seq!['\n'];
    lines::lemma_one_line(empty_line);
    lemma_line_end(Seq::empty());
    assert(Seq::<char>::empty().push('\n') =~= empty_line);
    text::lemma_leading(Seq::<char>::empty(), CharClass::Whitespace);
    assert(!dashboard::is_section_start(empty_line));
    dashboard::lemma_dapnet_header(empty_line);
    assert(lines::raw_lines(Seq::<char>::empty()) =~= Seq::empty());
    let us = lines::raw_lines(front);
    if dashboard::has_dapnet(us) {
        let i = choose|i: int| 0 <= i < us.len() && dashboard::is_dapnet_header(#[trigger] us[i]);
        if i < fs.len() {
            assert(fs[i] == us[i]);
        } else {
            assert(us[i] == empty_line);
        }
    }
}

/// The section that holds settings begins with its header, and ends in a digit.
proof fn lemma_settings_section(ov: DapnetRuntimeOverride)
    requires
        reads_as_one(dashboard::section_text(&ov)),
    ensures
        is_section(dashboard::section_text(&ov)),
{
    let ls = dashboard::section_lines(&ov);
    let s = dashboard::section_text(&ov);
    let head = "[dapnet]"@;
    let front = head.push('\n');
    reveal_strlit("[dapnet]");
    lines::lemma_joined_front(ls);
    assert(front.drop_last() =~= head);
    assert(!head.contains('\n'));
    lines::lemma_one_line(front);
    lines::lemma_lines_concat(front, lines::joined(ls.drop_first()));
    assert(lines::raw_lines(s)[0] == front);
    text::lemma_trim_none(head, CharClass::Whitespace);
    assert(head.take(8) =~= head);
    lemma_line_end(head);
    let n = dashboard::at_least_one(ov.rwth_messages_limit as nat);
    let digits = number::decimal(n);
    number::law_decimal_read(n, n);
    let last = ls.last();
    assert(last == dashboard::entry("rwth_messages_limit"@, digits));
    assert(digits.len() > 0);
    assert('0' <= digits[digits.len() - 1] <= '9');
    assert(last.last() == digits[digits.len() - 1]);
    lines::lemma_joined_last(ls);
}

/// The settings that are written last are the ones that count: writing `first` before `second`
/// leaves no trace, whatever the configuration holds. Only settings of which a text holds a line
/// that begins a section do.
pub proof fn law_last_write_wins(
    original: Seq<char>,
    first: DapnetRuntimeOverride,
    second: DapnetRuntimeOverride,
)
    requires
        reads_as_one(dashboard::section_text(&first)),
    ensures
        dashboard::rewritten(
            dashboard::rewritten(original, dashboard::section_text(&first)),
            dashboard::section_text(&second),
        ) == dashboard::rewritten(original, dashboard::section_text(&second)),
{
    let a = dashboard::section_text(&first);
    let b = dashboard::section_text(&second);
    let ls = lines::raw_lines(original);
    lemma_settings_section(first);
    lines::lemma_raw_lines(original);
    if dashboard::has_dapnet(ls) {
        lemma_replaced(ls, a, b, lines::ends_in_newline(original));
    } else {
        lemma_added(original, a, b);
    }
}

/// After the settings were written, what is read back outside of the `[dapnet]` sections is
/// character by character what it was, part by part. Where the section is added, all of it comes
/// before the section, with the gap behind it.
pub proof fn law_outside_read_back(original: Seq<char>, ov: DapnetRuntimeOverride)
    requires
        reads_as_one(dashboard::section_text(&ov)),
    ensures
        ({
            let ls = lines::raw_lines(original);
            let after = dashboard::rewritten(original, dashboard::section_text(&ov));
            &&& outside_parts(lines::raw_lines(after)) == if dashboard::has_dapnet(ls) {
                outside_parts(ls)
            } else {
                seq![original + dashboard::gap(original), Seq::empty()]
            }
            &&& lines::ends_in_newline(after) == lines::ends_in_newline(original)
        }),
{
    let a = dashboard::section_text(&ov);
    let ls = lines::raw_lines(original);
    lemma_settings_section(ov);
    lines::lemma_raw_lines(original);
    if dashboard::has_dapnet(ls) {
        lemma_replaced(ls, a, a, lines::ends_in_newline(original));
    } else {
        lemma_added(original, a, a);
    }
}

/// After the settings were written, the configuration has a `[dapnet]` section, and each that it
/// has is exactly what was written, up to the line feed behind it. No section is added where there
/// was one. Only settings of which a text holds a line that begins a section are not read back
/// like this.
pub proof fn law_section_read_back(original: Seq<char>, ov: DapnetRuntimeOverride)
    requires
        reads_as_one(dashboard::section_text(&ov)),
    ensures
        ({
            let section = dashboard::section_text(&ov);
            let before = section_texts(lines::raw_lines(original));
            let after = section_texts(
                lines::raw_lines(dashboard::rewritten(original, section)),
            );
            &&& after.len() == if before.len() == 0 {
                1
            } else {
                before.len()
            }
            &&& forall|i: int|
                0 <= i < after.len() ==> #[trigger] after[i] == section || after[i]
                    == section.push('\n')
        }),
{
    let a = dashboard::section_text(&ov);
    let ls = lines::raw_lines(original);
    let ended = lines::ends_in_newline(original);
    lemma_settings_section(ov);
    lines::lemma_raw_lines(original);
    lemma_lines_not_empty(ls, ended);
    lemma_part_count(ls);
    if dashboard::has_dapnet(ls) {
        lemma_replaced(ls, a, a, ended);
    } else {
        lemma_added(original, a, a);
    }
    assert(a + lines::line_end(false) =~= a);
    assert(a + lines::line_end(true) =~= a.push('\n'));
}

/// Whether nothing but white space stands between a place and the beginning of a line at `i`.
pub open spec fn opens_from(s: Seq<char>, i: int, j: int) -> bool {
    &&& 0 <= i <= j <= s.len()
    &&& i == 0 || s[i - 1] == '\n'
    &&& forall|k: int| i <= k < j ==> text::is_whitespace_char(#[trigger] s[k])
}

/// Whether nothing but white space stands between a place and the beginning of its line.
pub open spec fn opens_line(s: Seq<char>, j: int) -> bool {
    exists|i: int| #[trigger] opens_from(s, i, j)
}

/// Whether a `[dapnet]` header stands at a place: these eight characters, first on their line.
pub open spec fn header_at(s: Seq<char>, j: int) -> bool {
    &&& opens_line(s, j)
    &&& j + 8 <= s.len()
    &&& s.subrange(j, j + 8) == seq!['[', 'd', 'a', 'p', 'n', 'e', 't', ']']
}

/// Whether a table header stands between two places: an opening bracket, first on its line, and a
/// closing bracket anywhere behind it on the same line.
pub open spec fn table_at(s: Seq<char>, j: int, m: int) -> bool {
    &&& opens_line(s, j)
    &&& j < m < s.len()
    &&& s[j] == '['
    &&& s[m] == ']'
    &&& forall|k: int| j < k < m ==> #[trigger] s[k] != '\n'
}

/// What opens a line that holds no line feed before its end stands behind all its white space.
proof fn lemma_opens(l: Seq<char>, ended: bool, j: int)
    requires
        lines::is_line(l, ended),
        0 <= j < l.len(),
        !text::is_whitespace_char(l[j]),
    ensures
        opens_line(l, j) <==> text::leading(l, CharClass::Whitespace) == j,
{
    let white = CharClass::Whitespace;
    text::lemma_leading(l, white);
    if opens_line(l, j) {
        let i = choose|i: int| #[trigger] opens_from(l, i, j);
        if i > 0 {
            assert(l.drop_last()[i - 1] == '\n');
            assert(l.drop_last().contains('\n'));
        }
        assert forall|k: int| 0 <= k < j implies white.has(#[trigger] l[k]) by {}
        text::lemma_leading_is(l, white, j);
    }
    if text::leading(l, white) == j {
        assert forall|k: int| 0 <= k < j implies text::is_whitespace_char(#[trigger] l[k]) by {
            assert(white.has(l[k]));
        }
        assert(opens_from(l, 0, j));
    }
}

/// The headers of a line.
proof fn lemma_line_headers(l: Seq<char>, ended: bool)
    requires
        lines::is_line(l, ended),
    ensures
        dashboard::is_dapnet_header(l) <==> exists|j: int| #[trigger] header_at(l, j),
        dashboard::is_section_start(l) <==> exists|j: int, m: int| #[trigger] table_at(l, j, m),
{
    let white = CharClass::Whitespace;
    let n = text::leading(l, white) as int;
    let t = text::trim_start(l, white);
    let head = seq!['[', 'd', 'a', 'p', 'n', 'e', 't', ']'];
    text::lemma_leading(l, white);
    reveal_strlit("[dapnet]");
    assert("[dapnet]"@ =~= head);
    if dashboard::is_dapnet_header(l) {
        assert(l.subrange(n, n + 8) =~= t.take(8));
        assert(l.subrange(n, n + 8)[0] == l[n]);
        lemma_opens(l, ended, n);
        assert(header_at(l, n));
    }
    if exists|j: int| #[trigger] header_at(l, j) {
        let j = choose|j: int| #[trigger] header_at(l, j);
        assert(l.subrange(j, j + 8)[0] == l[j]);
        lemma_opens(l, ended, j);
        assert(t.take(8) =~= l.subrange(j, j + 8));
    }
    if dashboard::is_section_start(l) {
        let k = choose|k: int| 0 <= k < t.len() && t[k] == ']';
        assert(l[n] == '[' && l[n + k] == ']');
        lemma_opens(l, ended, n);
        assert forall|i: int| n < i < n + k implies #[trigger] l[i] != '\n' by {
            assert(l.drop_last()[i] == l[i]);
        }
        assert(table_at(l, n, n + k));
    }
    if exists|j: int, m: int| #[trigger] table_at(l, j, m) {
        let (j, m) = choose|j: int, m: int| #[trigger] table_at(l, j, m);
        lemma_opens(l, ended, j);
        assert(t[0] == l[j] && t[m - j] == l[m]);
    }
}

/// What opens a line opens it whatever lines stand before.
proof fn lemma_opens_behind(l: Seq<char>, t: Seq<char>, j: int)
    requires
        l.len() > 0,
        l.last() == '\n',
        0 <= j <= t.len(),
    ensures
        opens_line(l + t, l.len() + j) <==> opens_line(t, j),
{
    let s = l + t;
    let n = l.len() as int;
    if opens_line(t, j) {
        let i = choose|i: int| #[trigger] opens_from(t, i, j);
        assert forall|k: int| n + i <= k < n + j implies text::is_whitespace_char(
            #[trigger] s[k],
        ) by {
            assert(s[k] == t[k - n]);
        }
        assert(s[n + i - 1] == if i == 0 {
            l.last()
        } else {
            t[i - 1]
        });
        assert(opens_from(s, n + i, n + j));
    }
    let b = n + j;
    if opens_line(s, b) {
        let i = choose|i: int| #[trigger] opens_from(s, i, b);
        let i2 = if i < n {
            0
        } else {
            i - n
        };
        assert forall|k: int| i2 <= k < j implies text::is_whitespace_char(#[trigger] t[k]) by {
            assert(t[k] == s[n + k]);
        }
        if i2 > 0 {
            assert(t[i2 - 1] == s[i - 1]);
        }
        assert(opens_from(t, i2, j));
    }
}

/// What opens the first line opens it whatever stands behind.
proof fn lemma_opens_before(l: Seq<char>, t: Seq<char>, j: int)
    requires
        0 <= j < l.len(),
    ensures
        opens_line(l + t, j) <==> opens_line(l, j),
{
    let s = l + t;
    if opens_line(l, j) {
        let i = choose|i: int| #[trigger] opens_from(l, i, j);
        assert forall|k: int| i <= k < j implies text::is_whitespace_char(#[trigger] s[k]) by {
            assert(s[k] == l[k]);
        }
        if i > 0 {
            assert(s[i - 1] == l[i - 1]);
        }
        assert(opens_from(s, i, j));
    }
    if opens_line(s, j) {
        let i = choose|i: int| #[trigger] opens_from(s, i, j);
        assert forall|k: int| i <= k < j implies text::is_whitespace_char(#[trigger] l[k]) by {
            assert(s[k] == l[k]);
        }
        if i > 0 {
            assert(s[i - 1] == l[i - 1]);
        }
        assert(opens_from(l, i, j));
    }
}

/// The headers of a line and what stands behind it.
proof fn lemma_headers_apart(l: Seq<char>, t: Seq<char>)
    requires
        l.len() > 0,
        l.last() == '\n',
    ensures
        forall|j: int| #[trigger] header_at(l, j) ==> header_at(l + t, j),
        forall|j: int| #[trigger] header_at(t, j) ==> header_at(l + t, l.len() + j),
        forall|j: int| #[trigger]
            header_at(l + t, j) ==> header_at(l, j) || header_at(t, j - l.len()),
        forall|j: int, m: int| #[trigger] table_at(l, j, m) ==> table_at(l + t, j, m),
        forall|j: int, m: int| #[trigger]
            table_at(t, j, m) ==> table_at(l + t, l.len() + j, l.len() + m),
        forall|j: int, m: int| #[trigger]
            table_at(l + t, j, m) ==> table_at(l, j, m) || table_at(t, j - l.len(), m - l.len()),
{
    let s = l + t;
    let n = l.len() as int;
    let head = seq!['[', 'd', 'a', 'p', 'n', 'e', 't', ']'];
    assert forall|j: int| #[trigger] header_at(l, j) implies header_at(s, j) by {
        lemma_opens_before(l, t, j);
        assert(s.subrange(j, j + 8) =~= l.subrange(j, j + 8));
    }
    assert forall|j: int| #[trigger] header_at(t, j) implies header_at(s, n + j) by {
        lemma_opens_behind(l, t, j);
        assert(s.subrange(n + j, n + j + 8) =~= t.subrange(j, j + 8));
    }
    assert forall|j: int| #[trigger] header_at(s, j) implies header_at(l, j) || header_at(
        t,
        j - n,
    ) by {
        if j < n {
            lemma_opens_before(l, t, j);
            if j + 8 > n {
                assert(s.subrange(j, j + 8)[n - 1 - j] == '\n');
                assert(head[n - 1 - j] != '\n');
            }
            assert(l.subrange(j, j + 8) =~= s.subrange(j, j + 8));
        } else {
            lemma_opens_behind(l, t, j - n);
            assert(t.subrange(j - n, j - n + 8) =~= s.subrange(j, j + 8));
        }
    }
    assert forall|j: int, m: int| #[trigger] table_at(l, j, m) implies table_at(s, j, m) by {
        lemma_opens_before(l, t, j);
        assert forall|k: int| j < k < m implies #[trigger] s[k] != '\n' by {
            assert(s[k] == l[k]);
        }
    }
    assert forall|j: int, m: int| #[trigger] table_at(t, j, m) implies table_at(
        s,
        n + j,
        n + m,
    ) by {
        lemma_opens_behind(l, t, j);
        assert forall|k: int| n + j < k < n + m implies #[trigger] s[k] != '\n' by {
            assert(s[k] == t[k - n]);
        }
    }
    assert forall|j: int, m: int| #[trigger] table_at(s, j, m) implies table_at(l, j, m)
        || table_at(t, j - n, m - n) by {
        if j < n {
            lemma_opens_before(l, t, j);
            assert(s[j] == l[j]);
            assert(s[n - 1] == '\n');
            assert(m < n);
            assert forall|k: int| j < k < m implies #[trigger] l[k] != '\n' by {
                assert(s[k] == l[k]);
            }
        } else {
            lemma_opens_behind(l, t, j - n);
            assert forall|k: int| j - n < k < m - n implies #[trigger] t[k] != '\n' by {
                assert(t[k] == s[k + n]);
            }
        }
    }
}

/// The first line of a text, and the rest of it.
proof fn lemma_first_line(s: Seq<char>)
    requires
        s.len() > 0,
    ensures
        ({
            let ls = lines::raw_lines(s);
            let l = ls[0];
            let t = s.skip(l.len() as int);
            &&& ls.len() > 0
            &&& 0 < l.len() <= s.len()
            &&& s == l + t
            &&& lines::is_line(l, l.last() == '\n')
            &&& t.len() > 0 ==> l.last() == '\n'
            &&& lines::raw_lines(t) == ls.drop_first()
        }),
{
    let ls = lines::raw_lines(s);
    lines::lemma_raw_lines(s);
    text::lemma_find_char(s, '\n');
    let i = text::find_char(s, '\n') as int;
    let l = ls[0];
    let t = s.skip(l.len() as int);
    assert(lines::is_line(ls[0], 0 + 1 < ls.len() || lines::ends_in_newline(s)));
    assert(s =~= l + t);
    assert(lines::raw_lines(Seq::<char>::empty()) =~= Seq::empty());
    if i == s.len() {
        assert(t =~= Seq::empty());
        assert(ls.drop_first() =~= Seq::empty());
    } else {
        assert(ls.drop_first() =~= lines::raw_lines(s.skip(i + 1)));
    }
}

/// The headers of a text are those of its lines.
proof fn lemma_text_headers(s: Seq<char>)
    ensures
        dashboard::has_dapnet(lines::raw_lines(s)) <==> exists|j: int| #[trigger] header_at(s, j),
        (exists|i: int|
            0 <= i < lines::raw_lines(s).len() && dashboard::is_section_start(
                #[trigger] lines::raw_lines(s)[i],
            )) <==> exists|j: int, m: int| #[trigger] table_at(s, j, m),
    decreases s.len(),
{
    let ls = lines::raw_lines(s);
    if s.len() > 0 {
        lemma_first_line(s);
        let l = ls[0];
        let t = s.skip(l.len() as int);
        let d = ls.drop_first();
        lemma_text_headers(t);
        lemma_line_headers(l, l.last() == '\n');
        if t.len() > 0 {
            lemma_headers_apart(l, t);
            if exists|j: int| #[trigger] header_at(s, j) {
                let j = choose|j: int| #[trigger] header_at(s, j);
                if header_at(l, j) {
                    assert(dashboard::is_dapnet_header(ls[0]));
                } else {
                    assert(header_at(t, j - l.len()));
                    let i = choose|i: int|
                        0 <= i < d.len() && dashboard::is_dapnet_header(#[trigger] d[i]);
                    assert(ls[i + 1] == d[i]);
                }
            }
            if exists|j: int, m: int| #[trigger] table_at(s, j, m) {
                let (j, m) = choose|j: int, m: int| #[trigger] table_at(s, j, m);
                if table_at(l, j, m) {
                    assert(dashboard::is_section_start(ls[0]));
                } else {
                    assert(table_at(t, j - l.len(), m - l.len()));
                    let i = choose|i: int|
                        0 <= i < d.len() && dashboard::is_section_start(#[trigger] d[i]);
                    assert(ls[i + 1] == d[i]);
                }
            }
        } else {
            assert(s =~= l);
            assert(d =~= Seq::empty());
        }
        if dashboard::has_dapnet(ls) {
            let i = choose|i: int|
                0 <= i < ls.len() && dashboard::is_dapnet_header(#[trigger] ls[i]);
            if i == 0 {
                let j = choose|j: int| #[trigger] header_at(l, j);
                assert(header_at(s, j));
            } else {
                assert(d[i - 1] == ls[i]);
                let j = choose|j: int| #[trigger] header_at(t, j);
                assert(header_at(s, l.len() + j));
            }
        }
        if exists|i: int| 0 <= i < ls.len() && dashboard::is_section_start(#[trigger] ls[i]) {
            let i = choose|i: int|
                0 <= i < ls.len() && dashboard::is_section_start(#[trigger] ls[i]);
            if i == 0 {
                let (j, m) = choose|j: int, m: int| #[trigger] table_at(l, j, m);
                assert(table_at(s, j, m));
            } else {
                assert(d[i - 1] == ls[i]);
                let (j, m) = choose|j: int, m: int| #[trigger] table_at(t, j, m);
                assert(table_at(s, l.len() + j, l.len() + m));
            }
        }
    } else {
        assert(ls =~= Seq::empty());
        if exists|j: int| #[trigger] header_at(s, j) {
            let j = choose|j: int| #[trigger] header_at(s, j);
            let i = choose|i: int| #[trigger] opens_from(s, i, j);
            assert(false);
        }
        if exists|j: int, m: int| #[trigger] table_at(s, j, m) {
            let (j, m) = choose|j: int, m: int| #[trigger] table_at(s, j, m);
            let i = choose|i: int| #[trigger] opens_from(s, i, j);
            assert(false);
        }
    }
}

/// A text whose first line has a header, and the others none.
proof fn lemma_old_section(old_section: Seq<char>, w: int)
    requires
        header_at(old_section, w),
        !old_section.take(w).contains('\n'),
        forall|j: int, m: int| #[trigger] table_at(old_section, j, m) ==> j == w,
    ensures
        ({
            let ls = lines::raw_lines(old_section);
            &&& ls.len() > 0
            &&& dashboard::is_dapnet_header(ls[0])
            &&& forall|i: int| 1 <= i < ls.len() ==> !dashboard::is_section_start(#[trigger] ls[i])
        }),
{
    let s = old_section;
    let ls = lines::raw_lines(s);
    let i0 = choose|i: int| #[trigger] opens_from(s, i, w);
    lemma_first_line(s);
    let l = ls[0];
    let t = s.skip(l.len() as int);
    let d = ls.drop_first();
    assert(w < l.len()) by {
        if w >= l.len() {
            assert(s.take(w)[l.len() - 1] == '\n');
        }
    }
    lemma_line_headers(l, l.last() == '\n');
    if t.len() > 0 {
        lemma_headers_apart(l, t);
        assert(!header_at(t, w - l.len())) by {
            if header_at(t, w - l.len()) {
                let b = w - l.len();
                let i = choose|i: int| #[trigger] opens_from(t, i, b);
                assert(false);
            }
        }
        assert(header_at(l, w));
        lemma_text_headers(t);
        assert forall|i: int| 1 <= i < ls.len() implies !dashboard::is_section_start(
            #[trigger] ls[i],
        ) by {
            if dashboard::is_section_start(ls[i]) {
                assert(d[i - 1] == ls[i]);
                let (j, m) = choose|j: int, m: int| #[trigger] table_at(t, j, m);
                assert(table_at(s, l.len() + j, l.len() + m));
                let i2 = choose|i2: int| #[trigger] opens_from(t, i2, j);
                assert(false);
            }
        }
    } else {
        assert(s =~= l);
        assert(d =~= Seq::empty());
    }
}

/// A text that begins with a table header.
proof fn lemma_table_first(rest: Seq<char>, j: int, m: int)
    requires
        table_at(rest, j, m),
        !rest.take(j).contains('\n'),
    ensures
        lines::raw_lines(rest).len() > 0,
        dashboard::is_section_start(lines::raw_lines(rest)[0]),
{
    lemma_first_line(rest);
    let i0 = choose|i: int| #[trigger] opens_from(rest, i, j);
    let l = lines::raw_lines(rest)[0];
    let t = rest.skip(l.len() as int);
    assert(j < l.len()) by {
        if j >= l.len() {
            assert(rest.take(j)[l.len() - 1] == '\n');
        }
    }
    lemma_line_headers(l, l.last() == '\n');
    if t.len() > 0 {
        lemma_headers_apart(l, t);
        if table_at(t, j - l.len(), m - l.len()) {
            let b = j - l.len();
            let i = choose|i: int| #[trigger] opens_from(t, i, b);
            assert(false);
        }
        assert(table_at(l, j, m));
    } else {
        assert(rest =~= l);
    }
}

/// What becomes of a section and the lines around it.
proof fn lemma_section_between(
    front: Seq<char>,
    old_section: Seq<char>,
    rest: Seq<char>,
    w: int,
    j: int,
    m: int,
    section: Seq<char>,
)
    requires
        front.len() == 0 || front.last() == '\n',
        forall|k: int| !#[trigger] header_at(front, k),
        header_at(old_section, w),
        !old_section.take(w).contains('\n'),
        forall|a: int, b: int| #[trigger] table_at(old_section, a, b) ==> a == w,
        rest.len() > 0 ==> old_section.last() == '\n' && table_at(rest, j, m) && !rest.take(
            j,
        ).contains('\n'),
    ensures
        ({
            let ended = lines::ends_in_newline(
                if rest.len() > 0 {
                    rest
                } else {
                    old_section
                },
            );
            dashboard::rewritten(front + old_section + rest, section) == front + (section
                + lines::line_end(rest.len() > 0 || ended) + dashboard::replaced_text(
                lines::raw_lines(rest),
                section,
                ended,
            ))
        }),
{
    let original = front + old_section + rest;
    let ended = lines::ends_in_newline(original);
    let fl = lines::raw_lines(front);
    let sl = lines::raw_lines(old_section);
    let rl = lines::raw_lines(rest);
    let x = sl + rl;
    let d = sl.drop_first();
    assert(lines::raw_lines(Seq::<char>::empty()) =~= Seq::empty());
    let i0 = choose|i: int| #[trigger] opens_from(old_section, i, w);
    if rest.len() > 0 {
        lines::lemma_lines_concat(old_section, rest);
        lemma_table_first(rest, j, m);
        assert(original.last() == rest.last());
    } else {
        assert(rest =~= Seq::empty());
        assert(old_section + rest =~= old_section);
        assert(x =~= sl);
        assert(original.last() == old_section.last());
    }
    lines::lemma_lines_concat(front, old_section + rest);
    assert(original =~= front + (old_section + rest));
    lemma_text_headers(front);
    lemma_old_section(old_section, w);
    lines::lemma_raw_lines(front);
    lemma_outside_step(fl, x, section, ended);
    assert(x[0] == sl[0]);
    assert(x.drop_first() =~= d + rl);
    assert forall|i: int| 0 <= i < d.len() implies !dashboard::is_section_start(
        #[trigger] d[i],
    ) by {
        assert(d[i] == sl[i + 1]);
    }
    lemma_after_concat(d, rl);
    assert(dashboard::has_dapnet(x));
}

/// What becomes of the lines behind a section.
proof fn lemma_rest(rest: Seq<char>, section: Seq<char>)
    ensures
        dashboard::replaced_text(
            lines::raw_lines(rest),
            section,
            lines::ends_in_newline(rest),
        ) == if exists|k: int| #[trigger] header_at(rest, k) {
            dashboard::rewritten(rest, section)
        } else {
            rest
        },
{
    let rl = lines::raw_lines(rest);
    let ended = lines::ends_in_newline(rest);
    lemma_text_headers(rest);
    lines::lemma_raw_lines(rest);
    if !dashboard::has_dapnet(rl) {
        let none = Seq::<Seq<char>>::empty();
        assert(rl + none =~= rl);
        lemma_outside_step(rl, none, section, ended);
        assert(dashboard::replaced_text(none, section, ended) =~= Seq::empty());
        assert(rest + Seq::<char>::empty() =~= rest);
    }
}

proof fn lemma_section_replaced(
    front: Seq<char>,
    old_section: Seq<char>,
    rest: Seq<char>,
    w: int,
    j: int,
    m: int,
    section: Seq<char>,
)
    requires
        front.len() == 0 || front.last() == '\n',
        forall|k: int| !#[trigger] header_at(front, k),
        header_at(old_section, w),
        !old_section.take(w).contains('\n'),
        forall|a: int, b: int| #[trigger] table_at(old_section, a, b) ==> a == w,
        rest.len() > 0 ==> old_section.last() == '\n' && table_at(rest, j, m) && !rest.take(
            j,
        ).contains('\n'),
    ensures
        ({
            let result = dashboard::rewritten(front + old_section + rest, section);
            if rest.len() == 0 {
                result == front + section + if old_section.last() == '\n' {
                    seq!['\n']
                } else {
                    Seq::empty()
                }
            } else if exists|k: int| #[trigger] header_at(rest, k) {
                result == front + section + seq!['\n'] + dashboard::rewritten(rest, section)
            } else {
                result == front + section + seq!['\n'] + rest
            }
        }),
{
    lemma_section_between(front, old_section, rest, w, j, m, section);
    let result = dashboard::rewritten(front + old_section + rest, section);
    let i0 = choose|i: int| #[trigger] opens_from(old_section, i, w);
    if rest.len() == 0 {
        assert(lines::raw_lines(rest) =~= Seq::empty());
        let end = lines::line_end(lines::ends_in_newline(old_section));
        assert(result =~= front + section + end);
    } else {
        lemma_rest(rest, section);
        let tail = dashboard::replaced_text(
            lines::raw_lines(rest),
            section,
            lines::ends_in_newline(rest),
        );
        assert(result =~= front + section + seq!['\n'] + tail);
    }
}

/// A section goes from its header up to the next table header, whatever characters that has, or to
/// the end of the text, and all of it is replaced. What stands before it stays, and so does the
/// rest from that table header on, up to the next `[dapnet]` section, which is replaced in turn.
pub proof fn law_section_replaced(
    front: Seq<char>,
    old_section: Seq<char>,
    rest: Seq<char>,
    w: int,
    j: int,
    m: int,
    ov: DapnetRuntimeOverride,
)
    requires
        front.len() == 0 || front.last() == '\n',
        forall|k: int| !#[trigger] header_at(front, k),
        header_at(old_section, w),
        !old_section.take(w).contains('\n'),
        forall|a: int, b: int| #[trigger] table_at(old_section, a, b) ==> a == w,
        rest.len() > 0 ==> old_section.last() == '\n' && table_at(rest, j, m) && !rest.take(
            j,
        ).contains('\n'),
    ensures
        ({
            let section = dashboard::section_text(&ov);
            let result = dashboard::rewritten(front + old_section + rest, section);
            if rest.len() == 0 {
                result == front + section + if old_section.last() == '\n' {
                    seq!['\n']
                } else {
                    Seq::empty()
                }
            } else if exists|k: int| #[trigger] header_at(rest, k) {
                result == front + section + seq!['\n'] + dashboard::rewritten(rest, section)
            } else {
                result == front + section + seq!['\n'] + rest
            }
        }),
{
    lemma_section_replaced(front, old_section, rest, w, j, m, dashboard::section_text(&ov));
}

/// Whether a text ends in an empty line.
pub open spec fn ends_in_empty_line(s: Seq<char>) -> bool {
    let n = s.len() as int;
    ||| n >= 1 && s[n - 1] == '\n' && (n == 1 || s[n - 2] == '\n')
    ||| n >= 2 && s[n - 1] == '\n' && s[n - 2] == '\r' && (n == 2 || s[n - 3] == '\n')
}

proof fn lemma_last_line(s: Seq<char>)
    requires
        s.len() > 0,
    ensures
        ({
            let last = lines::raw_lines(s).last();
            let n = s.len() - last.len();
            &&& lines::raw_lines(s).len() > 0
            &&& lines::is_line(last, lines::ends_in_newline(s))
            &&& 0 <= n
            &&& s == s.take(n) + last
            &&& n > 0 ==> s[n - 1] == '\n'
        }),
{
    let ls = lines::raw_lines(s);
    lines::lemma_raw_lines(s);
    let k = ls.len() - 1;
    let last = ls[k];
    assert(lines::is_line(ls[k], k + 1 < ls.len() || lines::ends_in_newline(s)));
    let front = ls.drop_last();
    assert(ls =~= front + seq![last]);
    lemma_flatten_concat(front, seq![last]);
    seq![last].lemma_flatten_one_element();
    assert(s =~= front.flatten() + last);
    let n = s.len() - last.len();
    assert(s.take(n) =~= front.flatten());
    if front.len() > 0 {
        let f = front.drop_last();
        let p = front.last();
        assert(front =~= f + seq![p]);
        lemma_flatten_concat(f, seq![p]);
        seq![p].lemma_flatten_one_element();
        assert(p == ls[k - 1]);
        assert(lines::is_line(ls[k - 1], k - 1 + 1 < ls.len() || lines::ends_in_newline(s)));
        assert(front.flatten().last() == p.last());
        assert(s[n - 1] == front.flatten()[n - 1]);
    } else {
        assert(front.flatten() =~= Seq::empty());
    }
}

proof fn lemma_section_added(original: Seq<char>, section: Seq<char>)
    requires
        forall|k: int| !#[trigger] header_at(original, k),
    ensures
        ({
            let ended = original.len() > 0 && original.last() == '\n';
            let between = if original.len() == 0 || ends_in_empty_line(original) {
                Seq::empty()
            } else if ended {
                seq!['\n']
            } else {
                seq!['\n', '\n']
            };
            dashboard::rewritten(original, section) == original + between + section + if ended {
                seq!['\n']
            } else {
                Seq::empty()
            }
        }),
{
    lemma_text_headers(original);
    let gap = dashboard::gap(original);
    let ls = lines::raw_lines(original);
    lines::lemma_raw_lines(original);
    let ended = lines::ends_in_newline(original);
    if original.len() > 0 {
        lemma_last_line(original);
        let last = ls.last();
        let c = lines::content(last);
        let n = original.len() as int;
        let k = last.len() as int;
        assert(forall|i: int| 0 <= i < k ==> #[trigger] last[i] == original[n - k + i]);
        assert forall|i: int| 0 <= i < k - 1 implies #[trigger] last[i] != '\n' by {
            assert(last.drop_last()[i] == last[i]);
            assert(last.drop_last().contains(last.drop_last()[i]));
        }
        if ended {
            assert(original[n - 1] == last[k - 1]);
            if k >= 2 {
                assert(original[n - 2] == last[k - 2]);
            }
            if k >= 3 {
                assert(original[n - 3] == last[k - 3]);
            }
            assert(c.len() == 0 <==> ends_in_empty_line(original));
        } else {
            assert(c == last);
            assert(gap =~= seq!['\n', '\n']);
        }
    }
}

/// Where there is no `[dapnet]` header, the section comes behind the whole text as it was. An empty
/// line is put between them unless the text is empty or ends in one, and the result ends in a line
/// feed where the text did.
pub proof fn law_section_added(original: Seq<char>, ov: DapnetRuntimeOverride)
    requires
        forall|k: int| !#[trigger] header_at(original, k),
    ensures
        ({
            let section = dashboard::section_text(&ov);
            let ended = original.len() > 0 && original.last() == '\n';
            let between = if original.len() == 0 || ends_in_empty_line(original) {
                Seq::empty()
            } else if ended {
                seq!['\n']
            } else {
                seq!['\n', '\n']
            };
            dashboard::rewritten(original, section) == original + between + section + if ended {
                seq!['\n']
            } else {
                Seq::empty()
            }
        }),
{
    lemma_section_added(original, dashboard::section_text(&ov));
}

} // verus!
