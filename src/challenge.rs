//! Challenge records: fenced text blocks, submissions, and the record that
//! holds a challenge's definition and its accepted submissions.

use vstd::prelude::*;

use crate::text::{
    done_pieces, has_newline, join_lines, lemma_join_append, lemma_pieces_of_join,
    lines_of, strip_cr, unticked, views,
};

verus! {

/// The three backticks that open and close a fenced block.
pub open spec fn fence() -> Seq<char> {
    seq!['`', '`', '`']
}

/// Whether a line opens a fenced block: it starts with the fence.
pub open spec fn is_fence_open(line: Seq<char>) -> bool {
    line.len() >= 3 && line.take(3) == fence()
}

/// Whether a line closes a fenced block: it is exactly the fence.
pub open spec fn is_fence_close(line: Seq<char>) -> bool {
    line == fence()
}

/// The language tag of an opening fence line: what follows the fence, if anything.
pub open spec fn lang_of(line: Seq<char>) -> Option<Seq<char>> {
    if line.len() > 3 {
        Some(line.skip(3))
    } else {
        None
    }
}

/// Index of the first line at or after `i` that opens a block, or `ls.len()`.
pub open spec fn next_open(ls: Seq<Seq<char>>, i: int) -> int
    decreases ls.len() - i,
{
    if i < 0 || i >= ls.len() {
        ls.len() as int
    } else if is_fence_open(ls[i]) {
        i
    } else {
        next_open(ls, i + 1)
    }
}

/// Index of the first line at or after `i` that closes a block, or `ls.len()`.
pub open spec fn next_close(ls: Seq<Seq<char>>, i: int) -> int
    decreases ls.len() - i,
{
    if i < 0 || i >= ls.len() {
        ls.len() as int
    } else if is_fence_close(ls[i]) {
        i
    } else {
        next_close(ls, i + 1)
    }
}

/// Why no fenced block could be read.
#[derive(Clone, Copy, Debug, PartialEq, Eq, Structural)]
pub enum BlockError {
    /// No line opens a block before the end of input.
    NoBlock,
    /// A block was opened and the input ended before it closed.
    Unterminated,
}

/// The view of an optional string.
pub open spec fn opt_view(o: Option<String>) -> Option<Seq<char>> {
    match o {
        Some(s) => Some(s@),
        None => None,
    }
}

/// The block read from line `p` on: its language tag and lines, or the error,
/// with the position where reading stopped.
pub open spec fn block_at(ls: Seq<Seq<char>>, p: int) -> (
    Result<(Option<Seq<char>>, Seq<Seq<char>>), BlockError>,
    int,
) {
    let o = next_open(ls, p);
    if o >= ls.len() {
        (Err(BlockError::NoBlock), ls.len() as int)
    } else {
        let c = next_close(ls, o + 1);
        if c >= ls.len() {
            (Err(BlockError::Unterminated), ls.len() as int)
        } else {
            (Ok((lang_of(ls[o]), ls.subrange(o + 1, c))), c + 1)
        }
    }
}

/// A value read from a sequence of lines, starting at a cursor that the read
/// moves forward.
pub trait FromLines: Sized {
    type Error;

    fn from_lines(lines: &Vec<String>, pos: &mut usize) -> (r: Result<Self, Self::Error>)
        requires
            *old(pos) <= lines@.len(),
        ensures
            *old(pos) <= *final(pos) <= lines@.len(),
    ;
}

/// One fenced code block: an optional language tag and its lines.
pub struct TextBlock {
    pub lang: Option<String>,
    pub content: Vec<String>,
}

impl View for TextBlock {
    type V = (Option<Seq<char>>, Seq<Seq<char>>);

    open spec fn view(&self) -> Self::V {
        (opt_view(self.lang), views(self.content@))
    }
}

/// Whether a line opens a fenced block.
pub(crate) fn opens_block(line: &str) -> (r: bool)
    ensures
        r == is_fence_open(line@),
{
    if line.unicode_len() < 3 {
        return false;
    }
    let r = line.get_char(0) == '`' && line.get_char(1) == '`' && line.get_char(2) == '`';
    assert(r == (line@.take(3) == fence())) by {
        if r {
            assert(line@.take(3) =~= fence());
        }
    }
    r
}

/// Whether a line closes a fenced block.
fn closes_block(line: &str) -> (r: bool)
    ensures
        r == is_fence_close(line@),
{
    if line.unicode_len() != 3 {
        return false;
    }
    let r = line.get_char(0) == '`' && line.get_char(1) == '`' && line.get_char(2) == '`';
    assert(r == (line@ == fence())) by {
        if r {
            assert(line@ =~= fence());
        }
    }
    r
}

impl FromLines for TextBlock {
    type Error = BlockError;

    /// Skips lines up to one that opens a block, then takes every line up to
    /// the one that closes it; the cursor ends past the closing line.
    fn from_lines(lines: &Vec<String>, pos: &mut usize) -> (r: Result<Self, Self::Error>)
        ensures
            ({
                let (res, end) = block_at(views(lines@), *old(pos) as int);
                &&& *final(pos) == end
                &&& match res {
                    Ok(b) => r matches Ok(t) && t@ == b,
                    Err(e) => r == Err::<TextBlock, BlockError>(e),
                }
            }),
    {
        let ghost ls = views(lines@);
        let n = lines.len();
        let mut i = *pos;
        while i < n && !opens_block(lines[i].as_str())
            invariant
                ls == views(lines@),
                n == lines@.len(),
                *old(pos) <= i <= n,
                next_open(ls, *old(pos) as int) == next_open(ls, i as int),
            decreases n - i,
        {
            i = i + 1;
        }
        if i >= n {
            *pos = n;
            return Err(BlockError::NoBlock);
        }
        let open = i;
        let head = lines[open].as_str();
        let lang = if head.unicode_len() > 3 {
            Some(head.substring_char(3, head.unicode_len()).to_owned())
        } else {
            None
        };
        let mut content: Vec<String> = Vec::new();
        i = i + 1;
        while i < n && !closes_block(lines[i].as_str())
            invariant
                ls == views(lines@),
                n == lines@.len(),
                open < i <= n,
                next_close(ls, open + 1) == next_close(ls, i as int),
                views(content@) == ls.subrange(open + 1, i as int),
            decreases n - i,
        {
            let ghost before = content@;
            content.push(lines[i].clone());
            assert(views(content@) == views(before).push(ls[i as int]));
            assert(views(content@) == ls.subrange(open + 1, i + 1));
            i = i + 1;
        }
        if i >= n {
            *pos = n;
            return Err(BlockError::Unterminated);
        }
        *pos = i + 1;
        Ok(TextBlock { lang, content })
    }
}

/// The fenced markdown form of a block with language tag `lang` and lines `ls`:
/// the opening fence with the tag, each line, and the closing fence, each on
/// a line of its own.
pub open spec fn markdown(lang: Option<Seq<char>>, ls: Seq<Seq<char>>) -> Seq<char> {
    let tag = match lang {
        Some(l) => l,
        None => Seq::empty(),
    };
    if ls.len() == 0 {
        fence() + tag + seq!['\n'] + fence()
    } else {
        fence() + tag + seq!['\n'] + join_lines(ls) + seq!['\n'] + fence()
    }
}

/// Whether a line ends with a carriage return.
pub open spec fn ends_with_cr(line: Seq<char>) -> bool {
    line.len() > 0 && line.last() == '\r'
}

/// Whether the fenced markdown form carries a block unchanged: no line holds
/// a line feed, is a bare fence or ends with a carriage return, and a tag is
/// not empty and holds no line feed nor ends with a carriage return.
pub open spec fn carried_by_markdown(lang: Option<Seq<char>>, ls: Seq<Seq<char>>) -> bool {
    &&& forall|i: int|
        0 <= i < ls.len() ==> {
            &&& !has_newline(#[trigger] ls[i])
            &&& !is_fence_close(ls[i])
            &&& !ends_with_cr(ls[i])
        }
    &&& match lang {
        Some(l) => l.len() > 0 && !has_newline(l) && !ends_with_cr(l),
        None => true,
    }
}

/// The first closing line at or after `i` is `k` when none comes before it.
proof fn lemma_next_close_at(ls: Seq<Seq<char>>, i: int, k: int)
    requires
        0 <= i <= k < ls.len(),
        is_fence_close(ls[k]),
        forall|j: int| i <= j < k ==> !is_fence_close(#[trigger] ls[j]),
    ensures
        next_close(ls, i) == k,
    decreases k - i,
{
    if i < k {
        lemma_next_close_at(ls, i + 1, k);
    }
}

/// Rendering a block as fenced markdown, splitting that text into lines and
/// reading a block from them gives back the same language tag and lines, and
/// reads every line, whenever the markdown form can carry the block.
pub proof fn lemma_markdown_round_trip(lang: Option<Seq<char>>, ls: Seq<Seq<char>>)
    requires
        carried_by_markdown(lang, ls),
    ensures
        block_at(lines_of(markdown(lang, ls)), 0) == (
            Ok::<(Option<Seq<char>>, Seq<Seq<char>>), BlockError>((lang, ls)),
            ls.len() as int + 2,
        ),
{
    let tag = match lang {
        Some(l) => l,
        None => Seq::empty(),
    };
    let head = fence() + tag;
    let all = seq![head] + ls + seq![fence()];
    assert(join_lines(seq![head]) == head);
    assert(join_lines(seq![fence()]) == fence());
    if ls.len() == 0 {
        assert(all == seq![head] + seq![fence()]);
        lemma_join_append(seq![head], seq![fence()]);
    } else {
        lemma_join_append(seq![head], ls);
        lemma_join_append(seq![head] + ls, seq![fence()]);
    }
    assert(markdown(lang, ls) == join_lines(all));
    assert forall|i: int| 0 <= i < all.len() implies !has_newline(#[trigger] all[i]) by {
        if i == 0 {
            if has_newline(head) {
                let j = choose|j: int| 0 <= j < head.len() && head[j] == '\n';
                assert(tag[j - 3] == '\n');
            }
        } else if i <= ls.len() {
            assert(all[i] == ls[i - 1]);
        } else {
            assert(all[i] == fence());
        }
    }
    lemma_pieces_of_join(all);
    let text = join_lines(all);
    assert(all.drop_last() == seq![head] + ls);
    assert(done_pieces(text).map_values(|p: Seq<char>| strip_cr(p)) == seq![head] + ls) by {
        assert forall|i: int| 0 <= i < ls.len() + 1 implies #[trigger] strip_cr(
            all.drop_last()[i],
        ) == all.drop_last()[i] by {
            if i == 0 {
                if let Some(l) = lang {
                    assert(head.last() == l.last());
                }
            } else {
                assert(all.drop_last()[i] == ls[i - 1]);
            }
        }
    }
    assert(lines_of(text) == all);
    assert(head.take(3) == fence());
    assert(next_open(all, 0) == 0);
    assert(head.skip(3) == tag);
    assert forall|j: int| 1 <= j < ls.len() + 1 implies !is_fence_close(#[trigger] all[j]) by {
        assert(all[j] == ls[j - 1]);
    }
    lemma_next_close_at(all, 1, ls.len() as int + 1);
    assert(all.subrange(1, ls.len() as int + 1) == ls);
}

impl TextBlock {
    pub fn new(lang: Option<String>, content: Vec<String>) -> (r: Self)
        ensures
            r.lang == lang,
            r.content == content,
    {
        Self { lang, content }
    }

    /// The block as a fenced markdown code block.
    pub fn as_markdown(&self) -> (r: String)
        ensures
            r@ == markdown(self@.0, self@.1),
    {
        proof {
            reveal_strlit("```");
            reveal_strlit("\n");
        }
        let mut block = "```".to_owned();
        assert(block@ == fence());
        match &self.lang {
            Some(l) => block.append(l.as_str()),
            None => {},
        }
        block.append("\n");
        let n = self.content.len();
        if n > 0 {
            let body = crate::text::join_range(&self.content, 0, n);
            assert(views(self.content@).subrange(0, n as int) == self@.1);
            block.append(body.as_str());
            block.append("\n");
        }
        block.append("```");
        assert(block@ == markdown(self@.0, self@.1));
        block
    }

    pub fn len(&self) -> (r: usize)
        ensures
            r == self.content@.len(),
    {
        self.content.len()
    }

    pub fn is_empty(&self) -> (r: bool)
        ensures
            r == (self.content@.len() == 0),
    {
        self.content.is_empty()
    }
}

/// A participant's accepted keystroke sequence and its score.
pub struct Submission {
    pub author: String,
    pub score: usize,
    pub keys: String,
}

/// `s` with `x` placed after the last element whose score is at most `x`'s
/// (the place that keeps a sorted sequence sorted and equal scores in arrival order).
pub open spec fn insert_by_score(s: Seq<Submission>, x: Submission) -> Seq<Submission>
    decreases s.len(),
{
    if s.len() == 0 {
        seq![x]
    } else if s.last().score <= x.score {
        s.push(x)
    } else {
        insert_by_score(s.drop_last(), x).push(s.last())
    }
}

/// The stable sort of submissions by ascending score: equal scores keep their order.
pub open spec fn sort_by_score(s: Seq<Submission>) -> Seq<Submission>
    decreases s.len(),
{
    if s.len() == 0 {
        s
    } else {
        insert_by_score(sort_by_score(s.drop_last()), s.last())
    }
}

/// Whether scores never decrease along `s`.
pub open spec fn sorted_by_score(s: Seq<Submission>) -> bool {
    forall|i: int, j: int| 0 <= i < j < s.len() ==> s[i].score <= s[j].score
}

proof fn lemma_insert_by_score(s: Seq<Submission>, x: Submission)
    requires
        sorted_by_score(s),
    ensures
        sorted_by_score(insert_by_score(s, x)),
        insert_by_score(s, x).to_multiset() == s.to_multiset().insert(x),
        insert_by_score(s, x).len() == s.len() + 1,
        forall|i: int|
            0 <= i < insert_by_score(s, x).len() ==> #[trigger] insert_by_score(s, x)[i].score
                <= x.score || insert_by_score(s, x)[i].score <= s.last().score,
    decreases s.len(),
{
    broadcast use vstd::seq_lib::group_to_multiset_ensures;

    if s.len() > 0 && s.last().score > x.score {
        let d = s.drop_last();
        assert(sorted_by_score(d));
        lemma_insert_by_score(d, x);
        assert(s.drop_last().push(s.last()) == s);
        let t = insert_by_score(d, x);
        assert forall|i: int| 0 <= i < t.len() implies #[trigger] t[i].score <= s.last().score by {
            if t[i].score > x.score {
                assert(t[i].score <= d.last().score);
                assert(d.last() == s[s.len() - 2]);
            }
        }
    }
}

/// The stable sort by score is sorted and holds the same submissions.
pub proof fn lemma_sort_by_score(s: Seq<Submission>)
    ensures
        sorted_by_score(sort_by_score(s)),
        sort_by_score(s).to_multiset() == s.to_multiset(),
        sort_by_score(s).len() == s.len(),
    decreases s.len(),
{
    broadcast use vstd::seq_lib::group_to_multiset_ensures;

    if s.len() > 0 {
        lemma_sort_by_score(s.drop_last());
        lemma_insert_by_score(sort_by_score(s.drop_last()), s.last());
        assert(s.drop_last().push(s.last()) == s);
    }
}

/// Why a challenge record could not be read, written or changed.
#[derive(Clone, Copy, Debug, PartialEq, Eq, Structural)]
pub enum StoreError {
    /// No record has this identity.
    NotFound,
    /// The stored record could not be read back.
    Corrupt,
    /// The store could not be read or written.
    IoError,
    /// No submission has this rank.
    IndexError,
}

/// The characters that an identity may hold: ASCII letters and digits, `-` and `_`.
pub open spec fn is_id_char(c: char) -> bool {
    ('0' <= c && c <= '9') || ('a' <= c && c <= 'z') || ('A' <= c && c <= 'Z') || c == '-'
        || c == '_'
}

/// Whether a text can be a record's identity: not empty, and safe as a file name.
pub open spec fn is_valid_id(s: Seq<char>) -> bool {
    s.len() > 0 && forall|i: int| 0 <= i < s.len() ==> is_id_char(#[trigger] s[i])
}

/// The path of the file that holds the record with identity `id`.
pub open spec fn record_path(id: Seq<char>) -> Seq<char> {
    seq!['c', 'h', 'a', 'l', 'l', 'e', 'n', 'g', 'e', 's', '/'] + id + seq!['.', 'c', 'h', 'a', 'l']
}

/// Whether `a` comes strictly before `b` in character order, comparing from index `i`.
pub open spec fn text_before_from(a: Seq<char>, b: Seq<char>, i: int) -> bool
    decreases a.len() - i,
{
    if i < 0 || i >= a.len() {
        0 <= i < b.len()
    } else if i >= b.len() {
        false
    } else if a[i] != b[i] {
        a[i] < b[i]
    } else {
        text_before_from(a, b, i + 1)
    }
}

/// Whether `a` comes strictly before `b` in character order.
pub open spec fn text_before(a: Seq<char>, b: Seq<char>) -> bool {
    text_before_from(a, b, 0)
}

proof fn lemma_text_before_transitive(a: Seq<char>, b: Seq<char>, c: Seq<char>, i: int)
    requires
        0 <= i,
        i <= a.len() && i <= b.len() && i <= c.len(),
        text_before_from(a, b, i),
        text_before_from(b, c, i),
    ensures
        text_before_from(a, c, i),
    decreases a.len() - i,
{
    if i < a.len() && i < b.len() && i < c.len() && a[i] == b[i] && b[i] == c[i] {
        lemma_text_before_transitive(a, b, c, i + 1);
    }
}

proof fn lemma_text_before_irreflexive(a: Seq<char>, i: int)
    requires
        0 <= i <= a.len(),
    ensures
        !text_before_from(a, a, i),
    decreases a.len() - i,
{
    if i < a.len() {
        lemma_text_before_irreflexive(a, i + 1);
    }
}

/// Whether `a` comes strictly before `b` in character order.
fn id_before(a: &str, b: &str) -> (r: bool)
    ensures
        r == text_before(a@, b@),
{
    let na = a.unicode_len();
    let nb = b.unicode_len();
    let mut i: usize = 0;
    while i < na && i < nb && a.get_char(i) == b.get_char(i)
        invariant
            na == a@.len(),
            nb == b@.len(),
            i <= na && i <= nb,
            text_before(a@, b@) == text_before_from(a@, b@, i as int),
        decreases na - i,
    {
        i = i + 1;
    }
    if i >= na {
        i < nb
    } else if i >= nb {
        false
    } else {
        a.get_char(i) < b.get_char(i)
    }
}

/// A challenge: its identity, its definition, and the submissions accepted for it.
pub struct Challenge {
    pub id: String,
    pub title: String,
    pub description: Option<String>,
    pub timestamp: i64,
    pub input: TextBlock,
    pub output: TextBlock,
    pub scores: Vec<Submission>,
}

/// Whether record `a` is more recent than `b`: created later, or at the same
/// time with an identity that comes first.
pub open spec fn more_recent(a: Challenge, b: Challenge) -> bool {
    a.timestamp > b.timestamp || (a.timestamp == b.timestamp && text_before(a.id@, b.id@))
}

proof fn lemma_more_recent_order(a: Challenge, b: Challenge, c: Challenge)
    ensures
        more_recent(a, b) && more_recent(b, c) ==> more_recent(a, c),
        !more_recent(a, a),
{
    if more_recent(a, b) && more_recent(b, c) && a.timestamp == c.timestamp {
        lemma_text_before_transitive(a.id@, b.id@, c.id@, 0);
    }
    lemma_text_before_irreflexive(a.id@, 0);
}

/// Whether the record in `entries` at `i` was read, and no read record is more recent.
pub open spec fn is_most_recent_at(entries: Seq<Result<Challenge, StoreError>>, i: int) -> bool {
    &&& 0 <= i < entries.len()
    &&& entries[i] is Ok
    &&& forall|j: int|
        0 <= j < entries.len() && #[trigger] entries[j] is Ok ==> !more_recent(
            entries[j]->Ok_0,
            entries[i]->Ok_0,
        )
}

impl Challenge {
    pub const DIR: &'static str = "challenges";

    /// A new challenge with no submissions.
    pub fn new(
        title: String,
        description: Option<String>,
        input: TextBlock,
        output: TextBlock,
        id: String,
        timestamp: i64,
    ) -> (r: Self)
        ensures
            r.title == title,
            r.description == description,
            r.input == input,
            r.output == output,
            r.id == id,
            r.timestamp == timestamp,
            r.scores@.len() == 0,
    {
        Challenge { title, description, id, timestamp, input, output, scores: Vec::new() }
    }

    /// Records a submission and hands its score back.
    pub fn add_submission(&mut self, author: String, keys: String, score: usize) -> (r: usize)
        ensures
            r == score,
            final(self).scores@ == old(self).scores@.push(
                Submission { author, score, keys },
            ),
            final(self).id == old(self).id,
            final(self).title == old(self).title,
            final(self).description == old(self).description,
            final(self).timestamp == old(self).timestamp,
            final(self).input == old(self).input,
            final(self).output == old(self).output,
    {
        let sub = Submission { score, author, keys };
        self.scores.push(sub);
        score
    }

    /// Orders the submissions by ascending score, best first; equal scores
    /// keep the order in which they arrived.
    pub fn sort_by_score(&mut self)
        ensures
            final(self).scores@ == sort_by_score(old(self).scores@),
            sorted_by_score(final(self).scores@),
            final(self).scores@.len() == old(self).scores@.len(),
            final(self).scores@.to_multiset() == old(self).scores@.to_multiset(),
            final(self).id == old(self).id,
            final(self).title == old(self).title,
            final(self).description == old(self).description,
            final(self).timestamp == old(self).timestamp,
            final(self).input == old(self).input,
            final(self).output == old(self).output,
    {
        let ghost orig = self.scores@;
        let n = self.scores.len();
        let mut i: usize = 0;
        while i < n
            invariant
                n == orig.len(),
                i <= n,
                self.scores@.len() == n,
                self.scores@.take(i as int) == sort_by_score(orig.take(i as int)),
                self.scores@.skip(i as int) == orig.skip(i as int),
                self.id == old(self).id,
                self.title == old(self).title,
                self.description == old(self).description,
                self.timestamp == old(self).timestamp,
                self.input == old(self).input,
                self.output == old(self).output,
            decreases n - i,
        {
            let ghost pre = self.scores@.take(i as int);
            let ghost rest = self.scores@.skip(i as int + 1);
            assert(rest == self.scores@.skip(i as int).skip(1));
            assert(self.scores@[i as int] == orig[i as int]) by {
                assert(self.scores@.skip(i as int)[0] == orig.skip(i as int)[0]);
            }
            assert(orig.take(i + 1).drop_last() == orig.take(i as int));
            let x = self.scores.remove(i);
            assert(self.scores@ == pre + rest);
            let mut j: usize = i;
            assert(pre.take(j as int) == pre);
            assert(pre.skip(j as int) == Seq::<Submission>::empty());
            assert(rest == orig.skip(i + 1)) by {
                assert(orig.skip(i as int).skip(1) == orig.skip(i + 1));
            }
            while j > 0 && self.scores[j - 1].score > x.score
                invariant
                    j <= i,
                    i < n,
                    self.scores@ == pre + rest,
                    pre.len() == i,
                    rest == orig.skip(i + 1),
                    insert_by_score(pre, x) == insert_by_score(pre.take(j as int), x) + pre.skip(
                        j as int,
                    ),
                decreases j,
            {
                assert(pre.take(j as int).drop_last() == pre.take(j - 1));
                assert(pre.skip(j - 1) == seq![pre[j - 1]] + pre.skip(j as int));
                j = j - 1;
            }
            assert(insert_by_score(pre.take(j as int), x) == pre.take(j as int).push(x));
            self.scores.insert(j, x);
            assert(self.scores@ == insert_by_score(pre, x) + rest);
            assert(insert_by_score(pre, x).len() == i + 1) by {
                lemma_sort_by_score(orig.take(i as int));
                lemma_insert_by_score(pre, x);
            }
            assert(self.scores@.take(i + 1) == sort_by_score(orig.take(i + 1)));
            assert(self.scores@.skip(i + 1) == orig.skip(i + 1));
            i = i + 1;
        }
        assert(self.scores@ == self.scores@.take(n as int));
        assert(orig.take(n as int) == orig);
        proof {
            lemma_sort_by_score(orig);
        }
    }

    /// Removes the submission of the given rank, counted from 1 for the best
    /// score, after ordering the submissions by score. A rank of 0 or past the
    /// last submission fails with `IndexError` and changes nothing.
    pub fn remove_submission(&mut self, rank: usize) -> (r: Result<Submission, StoreError>)
        ensures
            rank == 0 || rank > old(self).scores@.len() ==> {
                &&& r == Err::<Submission, StoreError>(StoreError::IndexError)
                &&& *final(self) == *old(self)
            },
            1 <= rank <= old(self).scores@.len() ==> {
                &&& r == Ok::<Submission, StoreError>(sort_by_score(old(self).scores@)[rank - 1])
                &&& final(self).scores@ == sort_by_score(old(self).scores@).remove(rank - 1)
                &&& final(self).id == old(self).id
                &&& final(self).title == old(self).title
                &&& final(self).description == old(self).description
                &&& final(self).timestamp == old(self).timestamp
                &&& final(self).input == old(self).input
                &&& final(self).output == old(self).output
            },
    {
        if rank == 0 || rank > self.scores.len() {
            return Err(StoreError::IndexError);
        }
        proof {
            lemma_sort_by_score(self.scores@);
        }
        self.sort_by_score();
        Ok(self.scores.remove(rank - 1))
    }

    /// The path of the file that holds the record with identity `id`.
    pub fn filename(id: &str) -> (r: String)
        ensures
            r@ == record_path(id@),
    {
        proof {
            reveal_strlit("challenges");
            reveal_strlit("/");
            reveal_strlit(".chal");
        }
        let mut path = Self::DIR.to_owned();
        path.append("/");
        path.append(id);
        path.append(".chal");
        path
    }

    /// The identity that a caller typed, with one layer of backticks removed;
    /// `NotFound` when what remains cannot be an identity.
    pub fn resolve_id(raw: &str) -> (r: Result<String, StoreError>)
        ensures
            is_valid_id(unticked(raw@)) ==> (r matches Ok(id) && id@ == unticked(raw@)),
            !is_valid_id(unticked(raw@)) ==> r == Err::<String, StoreError>(StoreError::NotFound),
    {
        let id = crate::text::strip_ticks(raw);
        let n = id.as_str().unicode_len();
        if n == 0 {
            return Err(StoreError::NotFound);
        }
        let mut i: usize = 0;
        while i < n
            invariant
                n == id@.len(),
                id@ == unticked(raw@),
                i <= n,
                forall|k: int| 0 <= k < i ==> is_id_char(#[trigger] id@[k]),
            decreases n - i,
        {
            let c = id.as_str().get_char(i);
            let ok = ('0' <= c && c <= '9') || ('a' <= c && c <= 'z') || ('A' <= c && c <= 'Z')
                || c == '-' || c == '_';
            if !ok {
                assert(!is_id_char(id@[i as int]));
                return Err(StoreError::NotFound);
            }
            i = i + 1;
        }
        Ok(id)
    }

    /// The most recent of the records that were read: the latest creation time,
    /// and of equal times the identity that comes first. `None` when no entry
    /// holds a record.
    pub fn last(entries: Vec<Result<Challenge, StoreError>>) -> (r: Option<Challenge>)
        ensures
            r is None <==> forall|i: int| 0 <= i < entries@.len() ==> #[trigger] entries@[i] is Err,
            r matches Some(c) ==> exists|i: int|
                is_most_recent_at(entries@, i) && #[trigger] entries@[i] == Ok::<
                    Challenge,
                    StoreError,
                >(c),
    {
        let mut entries = entries;
        let ghost all = entries@;
        let n = entries.len();
        let mut best: Option<usize> = None;
        let mut i: usize = 0;
        while i < n
            invariant
                entries@ == all,
                n == all.len(),
                i <= n,
                best is None ==> forall|k: int| 0 <= k < i ==> #[trigger] all[k] is Err,
                best matches Some(b) ==> {
                    &&& b < i
                    &&& all[b as int] is Ok
                    &&& forall|k: int|
                        0 <= k < i && #[trigger] all[k] is Ok ==> !more_recent(
                            all[k]->Ok_0,
                            all[b as int]->Ok_0,
                        )
                },
            decreases n - i,
        {
            if let Ok(c) = &entries[i] {
                let newer = match best {
                    None => true,
                    Some(b) => match &entries[b] {
                        Ok(d) => c.timestamp > d.timestamp || (c.timestamp == d.timestamp
                            && id_before(c.id.as_str(), d.id.as_str())),
                        Err(_) => false,
                    },
                };
                if newer {
                    proof {
                        if let Some(b) = best {
                            assert forall|k: int|
                                0 <= k < i + 1 && #[trigger] all[k] is Ok implies !more_recent(
                                all[k]->Ok_0,
                                all[i as int]->Ok_0,
                            ) by {
                                lemma_more_recent_order(
                                    all[k]->Ok_0,
                                    all[i as int]->Ok_0,
                                    all[b as int]->Ok_0,
                                );
                            }
                        } else {
                            lemma_more_recent_order(all[i as int]->Ok_0, all[i as int]->Ok_0, all[i as int]->Ok_0);
                        }
                    }
                    best = Some(i);
                }
            }
            i = i + 1;
        }
        match best {
            None => None,
            Some(b) => {
                assert(is_most_recent_at(all, b as int));
                match entries.remove(b) {
                    Ok(c) => Some(c),
                    Err(_) => None,
                }
            },
        }
    }
}

} // verus!
