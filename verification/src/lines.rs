//! Text as lines: taken apart and put together.

use crate::text;
use crate::text::{chars_of, position, slice_text};
use vstd::prelude::*;

verus! {

/// Whether a text ends in a line feed.
pub open spec fn ends_in_newline(s: Seq<char>) -> bool {
    s.len() > 0 && s.last() == '\n'
}

/// A line feed, or nothing.
pub open spec fn line_end(ended: bool) -> Seq<char> {
    if ended {
        seq!['\n']
    } else {
        Seq::empty()
    }
}

/// The lines of a text, each with what ends it. All but the last end in a line feed.
pub open spec fn raw_lines(s: Seq<char>) -> Seq<Seq<char>>
    decreases s.len(),
    via raw_lines_decreases
{
    let i = text::find_char(s, '\n') as int;
    if s.len() == 0 {
        Seq::empty()
    } else if i == s.len() {
        seq![s]
    } else {
        seq![s.take(i + 1)] + raw_lines(s.skip(i + 1))
    }
}

#[via_fn]
proof fn raw_lines_decreases(s: Seq<char>) {
    text::lemma_find_char(s, '\n');
}

/// A text without a carriage return at its end.
pub open spec fn without_cr(s: Seq<char>) -> Seq<char> {
    if s.len() > 0 && s.last() == '\r' {
        s.drop_last()
    } else {
        s
    }
}

/// A line without what ends it: a line feed, with or without a carriage return before it.
pub open spec fn content(line: Seq<char>) -> Seq<char> {
    if ends_in_newline(line) {
        without_cr(line.drop_last())
    } else {
        line
    }
}

/// The lines of a text, without what ends them.
pub open spec fn text_lines(s: Seq<char>) -> Seq<Seq<char>> {
    raw_lines(s).map_values(|line: Seq<char>| content(line))
}

/// The pieces one after the other, with line feeds between them.
pub open spec fn joined(pieces: Seq<Seq<char>>) -> Seq<char>
    decreases pieces.len(),
{
    if pieces.len() == 0 {
        Seq::empty()
    } else if pieces.len() == 1 {
        pieces[0]
    } else {
        joined(pieces.drop_last()) + seq!['\n'] + pieces.last()
    }
}

/// The lines of a text, each with what ends it.
pub(crate) fn raw_lines_of(s: &str) -> (r: Vec<String>)
    ensures
        r.deep_view() == raw_lines(s@),
{
    let v = chars_of(s);
    let hi: usize = v.len();
    let mut r: Vec<String> = Vec::new();
    let mut start: usize = 0;
    assert(v@.skip(0) =~= s@);
    assert(r.deep_view() + raw_lines(s@) =~= raw_lines(s@));
    while start < hi
        invariant
            start <= hi,
            hi == v@.len(),
            v@ == s@,
            r.deep_view() + raw_lines(v@.skip(start as int)) == raw_lines(s@),
        decreases hi - start,
    {
        let ghost rest = v@.skip(start as int);
        let ghost before = r.deep_view();
        assert(v@.subrange(start as int, hi as int) =~= rest);
        let i = position(&v, start, hi, '\n');
        let end: usize = if i < hi {
            i + 1
        } else {
            hi
        };
        r.push(slice_text(&v, start, end));
        proof {
            let line = v@.subrange(start as int, end as int);
            assert(r.deep_view() =~= before.push(line));
            assert(rest.take(end - start) =~= line);
            assert(rest.skip(end - start) =~= v@.skip(end as int));
            assert(raw_lines(rest) =~= seq![line] + raw_lines(v@.skip(end as int)));
            assert(r.deep_view() + raw_lines(v@.skip(end as int)) =~= before + raw_lines(rest));
        }
        start = end;
    }
    assert(v@.skip(start as int) =~= Seq::empty());
    assert(r.deep_view() =~= raw_lines(s@));
    r
}

/// Whether a line holds more than what ends it.
pub(crate) fn has_content(line: &str) -> (b: bool)
    ensures
        b == (content(line@).len() > 0),
{
    let n = line.unicode_len();
    if n == 0 {
        return false;
    }
    if line.get_char(n - 1) != '\n' {
        return true;
    }
    n > 2 || (n == 2 && line.get_char(0) != '\r')
}

/// The pieces one after the other, with line feeds between them.
pub(crate) fn join_lines(pieces: &Vec<String>) -> (r: String)
    ensures
        r@ == joined(pieces.deep_view()),
{
    let mut r = String::new();
    let ghost all = pieces.deep_view();
    let mut i: usize = 0;
    while i < pieces.len()
        invariant
            i <= pieces@.len(),
            all == pieces.deep_view(),
            r@ == joined(all.take(i as int)),
        decreases pieces.len() - i,
    {
        proof {
            assert(all.take(i + 1).drop_last() =~= all.take(i as int));
            assert(all.take(i + 1).last() == pieces@[i as int]@);
            assert(all.take(1)[0] == all[0]);
        }
        if i > 0 {
            r.push('\n');
        }
        r.append(pieces[i].as_str());
        assert(r@ =~= joined(all.take(i + 1)));
        i += 1;
    }
    assert(all.take(i as int) =~= all);
    r
}

/// Lines before a line feed are not changed by what is behind it.
pub proof fn lemma_lines_concat(front: Seq<char>, rest: Seq<char>)
    requires
        front.len() == 0 || ends_in_newline(front),
    ensures
        raw_lines(front + rest) == raw_lines(front) + raw_lines(rest),
    decreases front.len(),
{
    let s = front + rest;
    if front.len() == 0 {
        assert(s =~= rest);
        assert(raw_lines(s) =~= raw_lines(front) + raw_lines(rest));
    } else {
        text::lemma_find_char(front, '\n');
        let i = text::find_char(front, '\n') as int;
        if i == front.len() {
            assert(front[front.len() - 1] != '\n');
        }
        assert forall|j: int| 0 <= j < i implies #[trigger] s[j] != '\n' by {
            assert(s[j] == front[j]);
        }
        assert(s[i] == front[i]);
        text::lemma_find_char_is(s, '\n', i);
        let tail = front.skip(i + 1);
        if tail.len() > 0 {
            assert(tail.last() == front.last());
        }
        lemma_lines_concat(tail, rest);
        assert(s.take(i + 1) =~= front.take(i + 1));
        assert(s.skip(i + 1) =~= tail + rest);
        assert(raw_lines(s) =~= raw_lines(front) + raw_lines(rest));
    }
}

/// A text that holds no line feed, or one at its end, is one line.
pub proof fn lemma_one_line(s: Seq<char>)
    requires
        s.len() > 0,
        !s.drop_last().contains('\n'),
    ensures
        raw_lines(s) == seq![s],
{
    let n = s.len() - 1;
    assert forall|j: int| 0 <= j < n implies #[trigger] s[j] != '\n' by {
        assert(s.drop_last().contains(s.drop_last()[j]));
    }
    if s[n] == '\n' {
        text::lemma_find_char_is(s, '\n', n);
        assert(s.take(n + 1) =~= s);
        assert(s.skip(n + 1) =~= Seq::empty());
        assert(raw_lines(Seq::<char>::empty()) =~= Seq::empty());
        assert(raw_lines(s) =~= seq![s]);
    } else {
        text::lemma_find_char_is(s, '\n', n + 1);
    }
}

/// Lines are what a text consists of. None is empty, line feeds stand only at their ends, and only
/// the last one may lack it.
pub proof fn lemma_raw_lines(s: Seq<char>)
    ensures
        raw_lines(s).flatten() == s,
        raw_lines(s).len() > 0 <==> s.len() > 0,
        are_lines(raw_lines(s), ends_in_newline(s)),
    decreases s.len(),
{
    let ls = raw_lines(s);
    if s.len() == 0 {
        assert(ls.flatten() =~= s);
    } else {
        text::lemma_find_char(s, '\n');
        let i = text::find_char(s, '\n') as int;
        let t = if i == s.len() {
            Seq::empty()
        } else {
            s.skip(i + 1)
        };
        lemma_raw_lines(t);
        let rest = raw_lines(t);
        assert(raw_lines(Seq::<char>::empty()) =~= Seq::empty());
        assert(ls =~= seq![ls[0]] + rest);
        assert(ls.drop_first() =~= rest);
        assert(ls[0] + t =~= s);
        if t.len() > 0 {
            assert(t.last() == s.last());
        }
        assert forall|k: int| 0 <= k < ls.len() implies is_line(
            #[trigger] ls[k],
            k + 1 < ls.len() || ends_in_newline(s),
        ) by {
            if k > 0 {
                assert(ls[k] == rest[k - 1]);
            } else {
                assert forall|j: int| 0 <= j < ls[0].len() - 1 implies ls[0].drop_last()[j]
                    != '\n' by {
                    assert(ls[0][j] == s[j]);
                }
            }
        }
    }
}

/// A line, with or without a line feed at its end.
pub open spec fn is_line(line: Seq<char>, ended: bool) -> bool {
    &&& line.len() > 0
    &&& !line.drop_last().contains('\n')
    &&& line.last() == '\n' <==> ended
}

/// Lines of which only the last may lack its line feed.
pub open spec fn are_lines(ls: Seq<Seq<char>>, ended: bool) -> bool {
    forall|i: int| 0 <= i < ls.len() ==> is_line(#[trigger] ls[i], i + 1 < ls.len() || ended)
}

/// A line feed behind a text that lacks one goes to its last line.
pub proof fn lemma_close_last(s: Seq<char>)
    requires
        s.len() > 0,
        s.last() != '\n',
    ensures
        raw_lines(s).len() > 0,
        raw_lines(s.push('\n')) == raw_lines(s).drop_last().push(raw_lines(s).last().push('\n')),
    decreases s.len(),
{
    text::lemma_find_char(s, '\n');
    let i = text::find_char(s, '\n') as int;
    let c = s.push('\n');
    let ls = raw_lines(s);
    if i == s.len() {
        assert(c.drop_last() =~= s);
        lemma_one_line(c);
        assert(ls.drop_last().push(ls.last().push('\n')) =~= seq![c]);
    } else {
        let t = s.skip(i + 1);
        assert(t.last() == s.last());
        lemma_close_last(t);
        assert forall|j: int| 0 <= j < i implies #[trigger] c[j] != '\n' by {
            assert(c[j] == s[j]);
        }
        text::lemma_find_char_is(c, '\n', i);
        assert(c.take(i + 1) =~= s.take(i + 1));
        assert(c.skip(i + 1) =~= t.push('\n'));
        assert(ls.last() == raw_lines(t).last());
        assert(ls.drop_last() =~= seq![s.take(i + 1)] + raw_lines(t).drop_last());
        assert(raw_lines(c) =~= ls.drop_last().push(ls.last().push('\n')));
    }
}

/// Joining from the front.
pub proof fn lemma_joined_front(pieces: Seq<Seq<char>>)
    requires
        pieces.len() >= 2,
    ensures
        joined(pieces) == pieces[0].push('\n') + joined(pieces.drop_first()),
    decreases pieces.len(),
{
    let tail = pieces.drop_first();
    if pieces.len() == 2 {
        assert(joined(pieces.drop_last()) == pieces[0]);
        assert(joined(tail) == pieces.last());
        assert(joined(pieces) =~= pieces[0].push('\n') + joined(tail));
    } else {
        lemma_joined_front(pieces.drop_last());
        assert(pieces.drop_last().drop_first() =~= tail.drop_last());
        assert(tail.last() == pieces.last());
        assert(joined(pieces) =~= pieces[0].push('\n') + joined(tail));
    }
}

/// A text ends as its last piece does.
pub proof fn lemma_joined_last(pieces: Seq<Seq<char>>)
    requires
        pieces.len() > 0,
        pieces.last().len() > 0,
    ensures
        joined(pieces).len() > 0,
        joined(pieces).last() == pieces.last().last(),
{
    if pieces.len() >= 2 {
        let j = joined(pieces);
        assert(j[j.len() - 1] == pieces.last()[pieces.last().len() - 1]);
    }
}

/// Pieces without line ends, when joined, are read back as the same lines.
pub proof fn lemma_joined_lines(pieces: Seq<Seq<char>>)
    requires
        pieces.len() > 0,
        pieces.last().len() > 0,
        forall|i: int|
            0 <= i < pieces.len() ==> !(#[trigger] pieces[i]).contains('\n') && without_cr(
                pieces[i],
            ) == pieces[i],
    ensures
        text_lines(joined(pieces)) == pieces,
    decreases pieces.len(),
{
    let p = pieces[0];
    if pieces.len() == 1 {
        assert(!p.drop_last().contains('\n')) by {
            if p.drop_last().contains('\n') {
                let k = choose|k: int| 0 <= k < p.len() - 1 && p.drop_last()[k] == '\n';
                assert(p[k] == '\n');
            }
        }
        lemma_one_line(p);
        assert(p.contains(p.last()));
        assert(text_lines(p) =~= pieces);
    } else {
        let tail = pieces.drop_first();
        let front = p.push('\n');
        assert forall|i: int| 0 <= i < tail.len() implies !(#[trigger] tail[i]).contains('\n')
            && without_cr(tail[i]) == tail[i] by {
            assert(tail[i] == pieces[i + 1]);
        }
        lemma_joined_lines(tail);
        lemma_joined_front(pieces);
        assert(front.drop_last() =~= p);
        lemma_one_line(front);
        lemma_lines_concat(front, joined(tail));
        assert(content(front) == p);
        assert(raw_lines(joined(pieces)) =~= seq![front] + raw_lines(joined(tail)));
        assert forall|i: int| 0 <= i < pieces.len() implies text_lines(joined(pieces))[i]
            == pieces[i] by {
            if i > 0 {
                assert(text_lines(joined(tail))[i - 1] == tail[i - 1]);
            }
        }
        assert(text_lines(joined(tail)).len() == tail.len());
        assert(text_lines(joined(pieces)) =~= pieces);
    }
}

} // verus!
