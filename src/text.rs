//! Lines of text: splitting a message into lines and joining lines back.

use vstd::prelude::*;

verus! {

/// The character views of a sequence of strings.
pub open spec fn views(v: Seq<String>) -> Seq<Seq<char>> {
    v.map_values(|s: String| s@)
}

/// A line with one trailing carriage return removed, if it has one.
pub open spec fn strip_cr(line: Seq<char>) -> Seq<char> {
    if line.len() > 0 && line.last() == '\r' {
        line.drop_last()
    } else {
        line
    }
}

/// The characters after the last line feed of `s` (all of `s` when it has none).
pub open spec fn last_piece(s: Seq<char>) -> Seq<char>
    decreases s.len(),
{
    if s.len() == 0 {
        Seq::empty()
    } else if s.last() == '\n' {
        Seq::empty()
    } else {
        last_piece(s.drop_last()).push(s.last())
    }
}

/// The pieces of `s` that a line feed ends, in order, without their line feeds.
pub open spec fn done_pieces(s: Seq<char>) -> Seq<Seq<char>>
    decreases s.len(),
{
    if s.len() == 0 {
        Seq::empty()
    } else if s.last() == '\n' {
        done_pieces(s.drop_last()).push(last_piece(s.drop_last()))
    } else {
        done_pieces(s.drop_last())
    }
}

/// The lines of a text: split at each line feed, a carriage return just before
/// a line feed dropped, and no empty line after a final line feed.
pub open spec fn lines_of(s: Seq<char>) -> Seq<Seq<char>> {
    let ended = done_pieces(s).map_values(|p: Seq<char>| strip_cr(p));
    if last_piece(s).len() > 0 {
        ended.push(last_piece(s))
    } else {
        ended
    }
}

/// Splits a text into its lines (see `lines_of`).
pub fn split_lines(text: &str) -> (r: Vec<String>)
    ensures
        views(r@) == lines_of(text@),
{
    let n = text.unicode_len();
    let mut lines: Vec<String> = Vec::new();
    let mut start: usize = 0;
    let mut i: usize = 0;
    while i < n
        invariant
            n == text@.len(),
            start <= i <= n,
            last_piece(text@.take(i as int)) == text@.subrange(start as int, i as int),
            views(lines@) == done_pieces(text@.take(i as int)).map_values(
                |p: Seq<char>| strip_cr(p),
            ),
        decreases n - i,
    {
        let c = text.get_char(i);
        assert(text@.take(i + 1).drop_last() == text@.take(i as int));
        if c == '\n' {
            let mut end = i;
            if start < i && text.get_char(i - 1) == '\r' {
                end = i - 1;
            }
            let line = text.substring_char(start, end).to_owned();
            let ghost before = lines@;
            assert(strip_cr(text@.subrange(start as int, i as int)) == line@);
            lines.push(line);
            assert(views(lines@) == views(before).push(line@));
            start = i + 1;
            assert(views(lines@) == done_pieces(text@.take(i + 1)).map_values(
                |p: Seq<char>| strip_cr(p),
            ));
        } else {
            assert(last_piece(text@.take(i + 1)) == text@.subrange(start as int, i + 1));
        }
        i = i + 1;
    }
    assert(text@.take(n as int) == text@);
    if start < n {
        let line = text.substring_char(start, n).to_owned();
        lines.push(line);
        assert(views(lines@) == lines_of(text@));
    }
    lines
}

/// A text with one leading and one trailing backtick removed, where present.
pub open spec fn unticked(s: Seq<char>) -> Seq<char> {
    let a = if s.len() > 0 && s[0] == '`' {
        s.skip(1)
    } else {
        s
    };
    if a.len() > 0 && a.last() == '`' {
        a.drop_last()
    } else {
        a
    }
}

/// Removes one layer of backtick delimiters (see `unticked`).
pub fn strip_ticks(s: &str) -> (r: String)
    ensures
        r@ == unticked(s@),
{
    let n = s.unicode_len();
    let mut from: usize = 0;
    let mut to: usize = n;
    if n > 0 && s.get_char(0) == '`' {
        from = 1;
    }
    if to > from && s.get_char(to - 1) == '`' {
        to = to - 1;
    }
    s.substring_char(from, to).to_owned()
}

/// Lines joined with a line feed between each two of them.
pub open spec fn join_lines(ls: Seq<Seq<char>>) -> Seq<char>
    decreases ls.len(),
{
    if ls.len() == 0 {
        Seq::empty()
    } else if ls.len() == 1 {
        ls[0]
    } else {
        join_lines(ls.drop_last()) + seq!['\n'] + ls.last()
    }
}

/// Joins `lines[from..to]` with a line feed between each two of them.
pub fn join_range(lines: &Vec<String>, from: usize, to: usize) -> (r: String)
    requires
        from <= to <= lines@.len(),
    ensures
        r@ == join_lines(views(lines@).subrange(from as int, to as int)),
{
    let ghost ls = views(lines@).subrange(from as int, to as int);
    let mut joined = String::new();
    let mut i: usize = from;
    while i < to
        invariant
            from <= i <= to <= lines@.len(),
            ls == views(lines@).subrange(from as int, to as int),
            joined@ == join_lines(ls.take(i - from)),
        decreases to - i,
    {
        let ghost before = joined@;
        proof {
            reveal_strlit("\n");
        }
        if i > from {
            joined.append("\n");
        }
        joined.append(lines[i].as_str());
        assert(ls.take(i - from + 1).drop_last() == ls.take(i - from));
        if i > from {
            assert(joined@ == before + seq!['\n'] + ls[i - from]);
        } else {
            assert(joined@ == before + ls[i - from]);
        }
        i = i + 1;
    }
    assert(ls.take(to - from) == ls);
    joined
}

/// Whether `s` holds a line feed.
pub open spec fn has_newline(s: Seq<char>) -> bool {
    exists|i: int| 0 <= i < s.len() && s[i] == '\n'
}

/// Joining two non-empty runs of lines is joining each, with a line feed between.
pub proof fn lemma_join_append(a: Seq<Seq<char>>, b: Seq<Seq<char>>)
    requires
        a.len() > 0,
        b.len() > 0,
    ensures
        join_lines(a + b) == join_lines(a) + seq!['\n'] + join_lines(b),
    decreases b.len(),
{
    assert((a + b).drop_last() == a + b.drop_last());
    if b.len() > 1 {
        lemma_join_append(a, b.drop_last());
        assert(join_lines(a + b) == join_lines(a) + seq!['\n'] + join_lines(b.drop_last())
            + seq!['\n'] + b.last());
    } else {
        assert(a + b.drop_last() == a);
    }
}

/// A text without line feeds is one unfinished piece.
pub proof fn lemma_pieces_no_newline(x: Seq<char>)
    requires
        !has_newline(x),
    ensures
        done_pieces(x) == Seq::<Seq<char>>::empty(),
        last_piece(x) == x,
    decreases x.len(),
{
    if x.len() > 0 {
        assert(!has_newline(x.drop_last())) by {
            if has_newline(x.drop_last()) {
                let i = choose|i: int| 0 <= i < x.drop_last().len() && x.drop_last()[i] == '\n';
                assert(x[i] == '\n');
            }
        }
        assert(x[x.len() - 1] != '\n');
        lemma_pieces_no_newline(x.drop_last());
        assert(x.drop_last().push(x.last()) == x);
    }
}

/// A line feed followed by text without line feeds ends the pieces of what
/// came before it and starts a last piece that is that text.
pub proof fn lemma_pieces_after_newline(s: Seq<char>, x: Seq<char>)
    requires
        !has_newline(x),
    ensures
        done_pieces(s + seq!['\n'] + x) == done_pieces(s).push(last_piece(s)),
        last_piece(s + seq!['\n'] + x) == x,
    decreases x.len(),
{
    if x.len() == 0 {
        assert(s + seq!['\n'] + x == s.push('\n'));
        assert(s.push('\n').drop_last() == s);
    } else {
        assert(!has_newline(x.drop_last())) by {
            if has_newline(x.drop_last()) {
                let i = choose|i: int| 0 <= i < x.drop_last().len() && x.drop_last()[i] == '\n';
                assert(x[i] == '\n');
            }
        }
        assert(x[x.len() - 1] != '\n');
        lemma_pieces_after_newline(s, x.drop_last());
        assert((s + seq!['\n'] + x).drop_last() == s + seq!['\n'] + x.drop_last());
        assert(x.drop_last().push(x.last()) == x);
    }
}

/// Splitting joined lines that hold no line feed gives the lines back.
pub proof fn lemma_pieces_of_join(ls: Seq<Seq<char>>)
    requires
        ls.len() > 0,
        forall|i: int| 0 <= i < ls.len() ==> !has_newline(#[trigger] ls[i]),
    ensures
        done_pieces(join_lines(ls)) == ls.drop_last(),
        last_piece(join_lines(ls)) == ls.last(),
    decreases ls.len(),
{
    if ls.len() == 1 {
        lemma_pieces_no_newline(ls[0]);
        assert(ls.drop_last() == Seq::<Seq<char>>::empty());
    } else {
        let d = ls.drop_last();
        assert(!has_newline(ls[ls.len() - 1]));
        lemma_pieces_of_join(d);
        lemma_pieces_after_newline(join_lines(d), ls.last());
        assert(d.drop_last().push(d.last()) == d);
    }
}

} // verus!
