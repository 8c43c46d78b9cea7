//! Registering a challenge: reading its definition from a chat message and
//! deriving its identity.

use sha1::{Digest, Sha1};
use vstd::prelude::*;
use vstd::utf8::encode_utf8;

use crate::challenge::{
    block_at, is_id_char, is_valid_id, next_open, opens_block, opt_view, BlockError, Challenge,
    FromLines, TextBlock,
};
use crate::text::{join_lines, lines_of, split_lines, views};

verus! {

/// Why a challenge definition could not be read.
#[derive(Clone, Copy, Debug, PartialEq, Eq, Structural)]
pub enum ParseError {
    /// No non-empty line after the command line, or it is not a `# ` heading.
    MissingTitle,
    /// No block follows the title.
    MissingInput,
    /// No block follows the input block.
    MissingOutput,
    /// A block is opened and never closed.
    UnterminatedBlock,
}

/// Index of the first non-empty line at or after `i`, or `ls.len()`.
pub open spec fn next_filled(ls: Seq<Seq<char>>, i: int) -> int
    decreases ls.len() - i,
{
    if i < 0 || i >= ls.len() {
        ls.len() as int
    } else if ls[i].len() > 0 {
        i
    } else {
        next_filled(ls, i + 1)
    }
}

/// One past the last non-empty line before `j`, or 0.
pub open spec fn filled_end(ls: Seq<Seq<char>>, j: int) -> int
    decreases j,
{
    if j <= 0 || j > ls.len() {
        0
    } else if ls[j - 1].len() > 0 {
        j
    } else {
        filled_end(ls, j - 1)
    }
}

/// The title that a heading line gives: what follows `# `.
pub open spec fn title_of(line: Seq<char>) -> Option<Seq<char>> {
    if line.len() >= 2 && line[0] == '#' && line[1] == ' ' {
        Some(line.skip(2))
    } else {
        None
    }
}

/// The description that lines `ls[from..to]` give: those lines without the
/// empty lines around them, joined; `None` when every line is empty.
pub open spec fn description_of(ls: Seq<Seq<char>>, from: int, to: int) -> Option<Seq<char>> {
    let a = next_filled(ls.subrange(0, to), from);
    if a >= to {
        None
    } else {
        Some(join_lines(ls.subrange(a, filled_end(ls, to))))
    }
}

/// Block models as the block reader gives them.
pub type BlockModel = (Option<Seq<char>>, Seq<Seq<char>>);

/// What a challenge definition made of lines `ls` gives: title, description,
/// input block and output block. The first line names the command and is skipped.
pub open spec fn definition_of(ls: Seq<Seq<char>>) -> Result<
    (Seq<char>, Option<Seq<char>>, BlockModel, BlockModel),
    ParseError,
> {
    let t = next_filled(ls, 1);
    if t >= ls.len() || title_of(ls[t]) is None {
        Err(ParseError::MissingTitle)
    } else {
        let d = next_open(ls, t + 1);
        let (first, after) = block_at(ls, d);
        match first {
            Err(BlockError::NoBlock) => Err(ParseError::MissingInput),
            Err(BlockError::Unterminated) => Err(ParseError::UnterminatedBlock),
            Ok(input) => match block_at(ls, after).0 {
                Err(BlockError::NoBlock) => Err(ParseError::MissingOutput),
                Err(BlockError::Unterminated) => Err(ParseError::UnterminatedBlock),
                Ok(output) => Ok(
                    (title_of(ls[t])->0, description_of(ls, t + 1, d), input, output),
                ),
            },
        }
    }
}

proof fn lemma_next_filled_prefix(ls: Seq<Seq<char>>, to: int, i: int)
    requires
        0 <= i <= to <= ls.len(),
        next_filled(ls, i) >= to,
    ensures
        next_filled(ls.subrange(0, to), i) == to,
    decreases to - i,
{
    if i < to {
        lemma_next_filled_prefix(ls, to, i + 1);
    }
}

proof fn lemma_next_filled_prefix_hit(ls: Seq<Seq<char>>, to: int, i: int)
    requires
        0 <= i <= to <= ls.len(),
        next_filled(ls, i) < to,
    ensures
        next_filled(ls.subrange(0, to), i) == next_filled(ls, i),
    decreases to - i,
{
    lemma_next_filled_bounds(ls, i);
    assert(ls.subrange(0, to)[i] == ls[i]);
    if ls[i].len() == 0 {
        lemma_next_filled_prefix_hit(ls, to, i + 1);
    }
}

proof fn lemma_next_filled_bounds(ls: Seq<Seq<char>>, i: int)
    requires
        0 <= i,
    ensures
        i <= next_filled(ls, i) <= ls.len() || (i > ls.len() && next_filled(ls, i) == ls.len()),
        next_filled(ls, i) < ls.len() ==> ls[next_filled(ls, i)].len() > 0,
    decreases ls.len() - i,
{
    if i < ls.len() && ls[i].len() == 0 {
        lemma_next_filled_bounds(ls, i + 1);
    }
}

/// The description between the title and the first block (see `description_of`).
fn read_description(lines: &Vec<String>, from: usize, to: usize) -> (r: Option<String>)
    requires
        from <= to <= lines@.len(),
    ensures
        opt_view(r) == description_of(views(lines@), from as int, to as int),
{
    let ghost ls = views(lines@);
    let mut a = from;
    while a < to && lines[a].as_str().unicode_len() == 0
        invariant
            ls == views(lines@),
            from <= a <= to <= lines@.len(),
            next_filled(ls, from as int) == next_filled(ls, a as int),
        decreases to - a,
    {
        a = a + 1;
    }
    if a >= to {
        proof {
            lemma_next_filled_bounds(ls, to as int);
            lemma_next_filled_prefix(ls, to as int, from as int);
        }
        return None;
    }
    proof {
        lemma_next_filled_prefix_hit(ls, to as int, from as int);
    }
    let mut b = to;
    while b > a && lines[b - 1].as_str().unicode_len() == 0
        invariant
            ls == views(lines@),
            a < to <= lines@.len(),
            a < b <= to,
            ls[a as int].len() > 0,
            filled_end(ls, to as int) == filled_end(ls, b as int),
        decreases b,
    {
        b = b - 1;
    }
    assert(b > a);
    assert(filled_end(ls, b as int) == b);
    assert(next_filled(ls, a as int) == a);
    Some(crate::text::join_range(lines, a, b))
}

/// Reads a challenge definition from lines: the first line (the command) is
/// skipped, the first non-empty line after it must be a `# ` heading that gives
/// the title, the lines up to the first block give the description, and two
/// fenced blocks follow: the input, then the output.
pub fn parse_lines(lines: &Vec<String>) -> (r: Result<
    (String, Option<String>, TextBlock, TextBlock),
    ParseError,
>)
    ensures
        match definition_of(views(lines@)) {
            Ok((title, description, input, output)) => r matches Ok((t, d, i, o)) && t@ == title
                && opt_view(d) == description && i@ == input && o@ == output,
            Err(e) => r == Err::<(String, Option<String>, TextBlock, TextBlock), ParseError>(e),
        },
{
    let ghost ls = views(lines@);
    let n = lines.len();
    let mut t: usize = 1;
    while t < n && lines[t].as_str().unicode_len() == 0
        invariant
            ls == views(lines@),
            n == lines@.len(),
            1 <= t,
            t <= n || n == 0,
            next_filled(ls, 1) == next_filled(ls, t as int),
        decreases n - t,
    {
        t = t + 1;
    }
    if t >= n {
        return Err(ParseError::MissingTitle);
    }
    let head = lines[t].as_str();
    let hn = head.unicode_len();
    if hn < 2 || head.get_char(0) != '#' || head.get_char(1) != ' ' {
        return Err(ParseError::MissingTitle);
    }
    let title = head.substring_char(2, hn).to_owned();
    let mut pos = t + 1;
    let mut d = pos;
    while d < n && !opens_block(lines[d].as_str())
        invariant
            ls == views(lines@),
            n == lines@.len(),
            t + 1 <= d <= n,
            next_open(ls, t + 1) == next_open(ls, d as int),
        decreases n - d,
    {
        d = d + 1;
    }
    let description = read_description(lines, t + 1, d);
    pos = d;
    let input = match TextBlock::from_lines(lines, &mut pos) {
        Ok(b) => b,
        Err(BlockError::NoBlock) => return Err(ParseError::MissingInput),
        Err(BlockError::Unterminated) => return Err(ParseError::UnterminatedBlock),
    };
    let output = match TextBlock::from_lines(lines, &mut pos) {
        Ok(b) => b,
        Err(BlockError::NoBlock) => return Err(ParseError::MissingOutput),
        Err(BlockError::Unterminated) => return Err(ParseError::UnterminatedBlock),
    };
    Ok((title, description, input, output))
}

/// Reads a challenge definition from a message's text (see `parse_lines`).
pub fn extract_content(text: &str) -> (r: Result<
    (String, Option<String>, TextBlock, TextBlock),
    ParseError,
>)
    ensures
        match definition_of(lines_of(text@)) {
            Ok((title, description, input, output)) => r matches Ok((t, d, i, o)) && t@ == title
                && opt_view(d) == description && i@ == input && o@ == output,
            Err(e) => r == Err::<(String, Option<String>, TextBlock, TextBlock), ParseError>(e),
        },
{
    let lines = split_lines(text);
    parse_lines(&lines)
}

/// The SHA-1 digest of a byte string.
pub uninterp spec fn sha1_of(data: Seq<u8>) -> Seq<u8>;

/// Relies on `sha1::Sha1` through `digest::Digest` (`new`, `update`,
/// `finalize`): the SHA-1 digest of `data`, whose output size is 20 bytes.
#[verifier::external_body]
fn sha1_digest(data: &Vec<u8>) -> (r: Vec<u8>)
    ensures
        r@ == sha1_of(data@),
        r@.len() == 20,
{
    let mut hasher = Sha1::new();
    hasher.update(data);
    hasher.finalize().to_vec()
}

/// The lower-case hexadecimal digits.
pub open spec fn hex_digits() -> Seq<char> {
    seq!['0', '1', '2', '3', '4', '5', '6', '7', '8', '9', 'a', 'b', 'c', 'd', 'e', 'f']
}

/// Two lower-case hexadecimal digits for each byte.
pub open spec fn hex_of(bytes: Seq<u8>) -> Seq<char>
    decreases bytes.len(),
{
    if bytes.len() == 0 {
        Seq::empty()
    } else {
        hex_of(bytes.drop_last()) + seq![
            hex_digits()[bytes.last() as int / 16],
            hex_digits()[bytes.last() as int % 16],
        ]
    }
}

/// The identity that a digest gives: its first three bytes in hexadecimal.
pub open spec fn id_of_digest(digest: Seq<u8>) -> Seq<char> {
    hex_of(digest.take(3))
}

/// The identity of a challenge registered by `author` at the time written
/// `stamp` under `title`: from the digest of the three texts' UTF-8 bytes in turn.
pub open spec fn id_for(author: Seq<char>, stamp: Seq<char>, title: Seq<char>) -> Seq<char> {
    id_of_digest(sha1_of(encode_utf8(author) + encode_utf8(stamp) + encode_utf8(title)))
}

/// The identity that a digest gives: its first three bytes as six
/// lower-case hexadecimal digits.
pub fn challenge_id(digest: &Vec<u8>) -> (r: String)
    requires
        digest@.len() >= 3,
    ensures
        r@ == id_of_digest(digest@),
        r@.len() == 6,
        is_valid_id(r@),
{
    let digits = "0123456789abcdef";
    proof {
        reveal_strlit("0123456789abcdef");
    }
    assert(digits@ == hex_digits());
    assert forall|k: int| 0 <= k < 16 implies is_id_char(#[trigger] hex_digits()[k]) by {
        assert(hex_digits()[k] == digits@[k]);
    }
    let mut id = String::new();
    let mut i: usize = 0;
    while i < 3
        invariant
            digest@.len() >= 3,
            digits@ == hex_digits(),
            i <= 3,
            id@ == hex_of(digest@.take(i as int)),
            id@.len() == 2 * i,
            forall|k: int| 0 <= k < 16 ==> is_id_char(#[trigger] hex_digits()[k]),
            forall|j: int| 0 <= j < id@.len() ==> is_id_char(#[trigger] id@[j]),
        decreases 3 - i,
    {
        let b = digest[i];
        let hi = (b / 16) as usize;
        let lo = (b % 16) as usize;
        id.append(digits.substring_char(hi, hi + 1));
        id.append(digits.substring_char(lo, lo + 1));
        assert(digest@.take(i + 1).drop_last() == digest@.take(i as int));
        assert(id@ == hex_of(digest@.take(i + 1)));
        i = i + 1;
    }
    id
}

/// Registers a challenge from the text of `author`'s message sent at `timestamp`
/// (written `stamp`): the definition is read from the text and the identity
/// derived from the author, the stamp and the title.
pub fn register(text: &str, author: &str, stamp: &str, timestamp: i64) -> (r: Result<
    Challenge,
    ParseError,
>)
    ensures
        match definition_of(lines_of(text@)) {
            Ok((title, description, input, output)) => r matches Ok(c) && c.title@ == title
                && opt_view(c.description) == description && c.input@ == input && c.output@
                == output && c.id@ == id_for(author@, stamp@, title) && c.timestamp == timestamp
                && c.scores@.len() == 0 && c.id@.len() == 6 && is_valid_id(c.id@),
            Err(e) => r == Err::<Challenge, ParseError>(e),
        },
{
    let (title, description, input, output) = match extract_content(text) {
        Ok(parts) => parts,
        Err(e) => return Err(e),
    };
    let mut data = author.as_bytes_vec();
    let mut more = stamp.as_bytes_vec();
    data.append(&mut more);
    let mut last = title.as_str().as_bytes_vec();
    data.append(&mut last);
    let digest = sha1_digest(&data);
    let id = challenge_id(&digest);
    Ok(Challenge::new(title, description, input, output, id, timestamp))
}

} // verus!
