//! The text form of a board: a size on a line of its own, then as many
//! lines of tiles as the size says. `#` starts a comment that runs to the
//! end of its line, and lines that hold nothing but blanks are passed over.

use vstd::prelude::*;
use vstd::string::StringSliceAdditionalSpecFns;
use crate::board::{once_each, tally, Tile};

verus! {

/// What is wrong with a text that should hold a board.
#[derive(Debug, Copy, Clone, PartialEq, Eq)]
pub enum ParseError {
    /// No line of the text holds anything but comments and blanks.
    Empty,
    /// The first line is not one number of 1 or more.
    BadSize,
    /// There are not exactly as many lines of tiles as the size says.
    LineCount,
    /// Something in a line of tiles is not a number of at most 255.
    BadTile,
    /// A line of tiles does not hold exactly as many tiles as the size says.
    ColumnCount,
    /// A tile occurs twice, or is not smaller than the number of tiles.
    BadTiles,
}

impl ParseError {
    /// A sentence that says what went wrong.
    pub fn description(&self) -> (text: &'static str)
        ensures
            text@ == match *self {
                ParseError::Empty => "file doesn't contain board"@,
                ParseError::BadSize => "error parsing line count"@,
                ParseError::LineCount => "error parsing line count: wrong number of lines"@,
                ParseError::BadTile => "error parsing tile"@,
                ParseError::ColumnCount => "error parsing line: wrong number of columns"@,
                ParseError::BadTiles => "error parsing teals"@,
            },
    {
        match *self {
            ParseError::Empty => "file doesn't contain board",
            ParseError::BadSize => "error parsing line count",
            ParseError::LineCount => "error parsing line count: wrong number of lines",
            ParseError::BadTile => "error parsing tile",
            ParseError::ColumnCount => "error parsing line: wrong number of columns",
            ParseError::BadTiles => "error parsing teals",
        }
    }
}

/// The byte that ends a line.
pub const NEWLINE: u8 = 10;

/// The byte that starts a comment.
pub const HASH: u8 = 35;

/// The byte `+`, which may stand before the digits of a number.
pub const PLUS: u8 = 43;

/// The value from which on `read_number` tells numbers apart no more.
pub const NUMBER_CAP: u128 = 0x1_0000_0000_0000_0000_0000;

/// Whether the byte is a blank: a space, a tab, a line feed, a vertical
/// tab, a form feed or a carriage return.
pub open spec fn is_space(b: u8) -> bool {
    b == 32 || 9 <= b <= 13
}

/// Whether the byte is a decimal digit.
pub open spec fn is_digit(b: u8) -> bool {
    48 <= b <= 57
}

/// The number of bytes of `s` that stand before the first `stop`; all of
/// them when there is none.
pub open spec fn before(s: Seq<u8>, stop: u8) -> int
    decreases s.len(),
{
    if s.len() == 0 || s[0] == stop {
        0
    } else {
        1 + before(s.skip(1), stop)
    }
}

/// The number of bytes of `s` that stand before the first blank.
pub open spec fn word_len(s: Seq<u8>) -> int
    decreases s.len(),
{
    if s.len() == 0 || is_space(s[0]) {
        0
    } else {
        1 + word_len(s.skip(1))
    }
}

/// Whether the line holds nothing but blanks.
pub open spec fn is_blank(line: Seq<u8>) -> bool {
    forall|i: int| 0 <= i < line.len() ==> is_space(#[trigger] line[i])
}

/// The line without its comment.
pub open spec fn uncommented(line: Seq<u8>) -> Seq<u8> {
    line.take(before(line, HASH))
}

/// The lines of the text, each without its comment, leaving out those
/// that then hold nothing but blanks.
pub open spec fn kept_lines(text: Seq<u8>) -> Seq<Seq<u8>>
    decreases text.len(),
{
    if text.len() == 0 {
        Seq::empty()
    } else {
        let end = before(text, NEWLINE);
        let line = uncommented(text.take(end));
        let rest = if 0 <= end < text.len() {
            kept_lines(text.skip(end + 1))
        } else {
            Seq::empty()
        };
        if is_blank(line) {
            rest
        } else {
            seq![line] + rest
        }
    }
}

/// The words of the line: its longest runs of bytes that are not blanks.
pub open spec fn tokens(line: Seq<u8>) -> Seq<Seq<u8>>
    decreases line.len(),
{
    if line.len() == 0 {
        Seq::empty()
    } else if is_space(line[0]) {
        tokens(line.skip(1))
    } else {
        let n = word_len(line);
        if 0 < n <= line.len() {
            seq![line.take(n)] + tokens(line.skip(n))
        } else {
            Seq::empty()
        }
    }
}

/// The value of a sequence of decimal digits.
pub open spec fn digits_value(digits: Seq<u8>) -> nat
    decreases digits.len(),
{
    if digits.len() == 0 {
        0
    } else {
        digits_value(digits.drop_last()) * 10 + (digits.last() - 48) as nat
    }
}

/// The digits of a word: the word itself, or what follows its `+`.
pub open spec fn digits_of(word: Seq<u8>) -> Seq<u8> {
    if word.len() > 0 && word[0] == PLUS {
        word.skip(1)
    } else {
        word
    }
}

/// The number that the word spells: one or more decimal digits, with or
/// without a `+` before them.
pub open spec fn number(word: Seq<u8>) -> Option<nat> {
    let digits = digits_of(word);
    if digits.len() > 0 && forall|i: int| 0 <= i < digits.len() ==> is_digit(#[trigger] digits[i]) {
        Some(digits_value(digits))
    } else {
        None
    }
}

/// The tiles that the words spell, or `None` when one of them is not a
/// number of at most 255.
pub open spec fn tiles_of(words: Seq<Seq<u8>>) -> Option<Seq<Tile>>
    decreases words.len(),
{
    if words.len() == 0 {
        Some(Seq::empty())
    } else {
        match (tiles_of(words.drop_last()), number(words.last())) {
            (Some(tiles), Some(v)) => if v <= 255 {
                Some(tiles.push(v as Tile))
            } else {
                None
            },
            _ => None,
        }
    }
}

/// The rows that the lines spell; the first line that is not a row of
/// `side` tiles decides the error.
pub open spec fn rows_of(lines: Seq<Seq<u8>>, side: nat) -> Result<Seq<Seq<Tile>>, ParseError>
    decreases lines.len(),
{
    if lines.len() == 0 {
        Ok(Seq::empty())
    } else {
        match rows_of(lines.drop_last(), side) {
            Err(e) => Err(e),
            Ok(rows) => match tiles_of(tokens(lines.last())) {
                None => Err(ParseError::BadTile),
                Some(row) => if row.len() == side {
                    Ok(rows.push(row))
                } else {
                    Err(ParseError::ColumnCount)
                },
            },
        }
    }
}

/// The rows one after the other.
pub open spec fn joined(rows: Seq<Seq<Tile>>) -> Seq<Tile>
    decreases rows.len(),
{
    if rows.len() == 0 {
        Seq::empty()
    } else {
        joined(rows.drop_last()) + rows.last()
    }
}

/// What becomes of the rows once all lines are read: they stand when no
/// tile occurs twice and each is smaller than their number.
pub open spec fn after_rows(rows: Result<Seq<Seq<Tile>>, ParseError>) -> Result<
    Seq<Seq<Tile>>,
    ParseError,
> {
    match rows {
        Err(e) => Err(e),
        Ok(rows) => if once_each(joined(rows)) {
            Ok(rows)
        } else {
            Err(ParseError::BadTiles)
        },
    }
}

/// What the text spells: the rows of a board, or what is wrong with it.
pub open spec fn parsed(text: Seq<u8>) -> Result<Seq<Seq<Tile>>, ParseError> {
    let lines = kept_lines(text);
    if lines.len() == 0 {
        Err(ParseError::Empty)
    } else {
        let head = tokens(lines[0]);
        if head.len() != 1 || number(head[0]) is None || number(head[0]) == Some(0nat) {
            Err(ParseError::BadSize)
        } else {
            let side = number(head[0]).unwrap();
            if lines.len() != side + 1 {
                Err(ParseError::LineCount)
            } else {
                after_rows(rows_of(lines.skip(1), side))
            }
        }
    }
}

/// The contents of each of the vectors.
pub open spec fn views(rows: Seq<Vec<u8>>) -> Seq<Seq<u8>> {
    rows.map_values(|row: Vec<u8>| row@)
}

/// Where the first `stop` of `s` stands is told by what stands before it.
pub proof fn lemma_before(s: Seq<u8>, stop: u8, at: int)
    requires
        0 <= at <= s.len(),
        forall|i: int| 0 <= i < at ==> s[i] != stop,
        at < s.len() ==> s[at] == stop,
    ensures
        before(s, stop) == at,
    decreases at,
{
    if at > 0 {
        lemma_before(s.skip(1), stop, at - 1);
    }
}

/// Where the first word of `s` ends is told by what stands before it.
pub proof fn lemma_word_len(s: Seq<u8>, at: int)
    requires
        0 <= at <= s.len(),
        forall|i: int| 0 <= i < at ==> !is_space(s[i]),
        at < s.len() ==> is_space(s[at]),
    ensures
        word_len(s) == at,
    decreases at,
{
    if at > 0 {
        lemma_word_len(s.skip(1), at - 1);
    }
}

/// Whether the byte is a blank.
pub fn space(b: u8) -> (r: bool)
    ensures
        r == is_space(b),
{
    b == 32 || (9 <= b && b <= 13)
}

/// The bytes of `text` from `from` up to `to`.
fn copy_range(text: &[u8], from: usize, to: usize) -> (r: Vec<u8>)
    requires
        from <= to <= text@.len(),
    ensures
        r@ == text@.subrange(from as int, to as int),
{
    let mut r: Vec<u8> = Vec::with_capacity(to - from);
    let mut i = from;
    while i < to
        invariant
            from <= i <= to <= text@.len(),
            r@ == text@.subrange(from as int, i as int),
        decreases to - i,
    {
        r.push(text[i]);
        i += 1;
    }
    r
}

/// The place of the first `stop` at or after `from` and before `to`, or
/// `to` when there is none.
fn find(text: &[u8], from: usize, to: usize, stop: u8) -> (at: usize)
    requires
        from <= to <= text@.len(),
    ensures
        from <= at <= to,
        at - from == before(text@.subrange(from as int, to as int), stop),
{
    let mut at = from;
    while at < to && text[at] != stop
        invariant
            from <= at <= to <= text@.len(),
            forall|i: int| from <= i < at ==> text@[i] != stop,
        decreases to - at,
    {
        at += 1;
    }
    proof {
        lemma_before(text@.subrange(from as int, to as int), stop, at - from);
    }
    at
}

/// Whether the bytes from `from` up to `to` are all blanks.
fn blank(text: &[u8], from: usize, to: usize) -> (r: bool)
    requires
        from <= to <= text@.len(),
    ensures
        r == is_blank(text@.subrange(from as int, to as int)),
{
    let ghost part = text@.subrange(from as int, to as int);
    let mut i = from;
    while i < to
        invariant
            from <= i <= to <= text@.len(),
            part == text@.subrange(from as int, to as int),
            forall|k: int| 0 <= k < i - from ==> is_space(#[trigger] part[k]),
        decreases to - i,
    {
        if !space(text[i]) {
            assert(!is_space(part[i - from]));
            return false;
        }
        i += 1;
    }
    true
}

/// The lines of the text, each without its comment, leaving out those
/// that then hold nothing but blanks.
pub fn remove_comments(text: &[u8]) -> (lines: Vec<Vec<u8>>)
    ensures
        views(lines@) == kept_lines(text@),
{
    let mut lines: Vec<Vec<u8>> = Vec::new();
    let len = text.len();
    let mut pos: usize = 0;
    assert(text@.skip(0) =~= text@);
    while pos < len
        invariant
            pos <= len,
            len == text@.len(),
            kept_lines(text@) == views(lines@) + kept_lines(text@.skip(pos as int)),
        decreases len - pos,
    {
        let ghost rest = text@.skip(pos as int);
        let end = find(text, pos, len, NEWLINE);
        let cut = find(text, pos, end, HASH);
        let empty = blank(text, pos, cut);
        proof {
            assert(text@.subrange(pos as int, end as int) =~= rest.take(end - pos));
            assert(text@.subrange(pos as int, cut as int) =~= uncommented(rest.take(end - pos)));
            if end < len {
                assert(rest.skip(end - pos + 1) =~= text@.skip(end + 1));
            }
        }
        if !empty {
            let line = copy_range(text, pos, cut);
            lines.push(line);
        }
        if end < len {
            pos = end + 1;
        } else {
            pos = len;
        }
    }
    lines
}

/// The words of the line: its longest runs of bytes that are not blanks.
pub fn split_words(line: &[u8]) -> (words: Vec<Vec<u8>>)
    ensures
        views(words@) == tokens(line@),
{
    let mut words: Vec<Vec<u8>> = Vec::new();
    let len = line.len();
    let mut pos: usize = 0;
    assert(line@.skip(0) =~= line@);
    while pos < len
        invariant
            pos <= len,
            len == line@.len(),
            tokens(line@) == views(words@) + tokens(line@.skip(pos as int)),
        decreases len - pos,
    {
        let ghost rest = line@.skip(pos as int);
        if space(line[pos]) {
            assert(rest.skip(1) =~= line@.skip(pos + 1));
            pos += 1;
        } else {
            let mut end = pos + 1;
            while end < len && !space(line[end])
                invariant
                    pos < end <= len,
                    len == line@.len(),
                    forall|i: int| pos <= i < end ==> !is_space(line@[i]),
                decreases len - end,
            {
                end += 1;
            }
            let word = copy_range(line, pos, end);
            proof {
                lemma_word_len(rest, end - pos);
                assert(line@.subrange(pos as int, end as int) =~= rest.take(end - pos));
                assert(rest.skip(end - pos) =~= line@.skip(end as int));
            }
            words.push(word);
            pos = end;
        }
    }
    words
}

/// The number that the word spells, if it spells one; a number of
/// `NUMBER_CAP` or more is given as `NUMBER_CAP`.
pub fn read_number(word: &[u8]) -> (r: Option<u128>)
    ensures
        match number(word@) {
            None => r is None,
            Some(v) => r == Some(
                if v < NUMBER_CAP {
                    v as u128
                } else {
                    NUMBER_CAP
                },
            ),
        },
{
    let len = word.len();
    let start: usize = if len > 0 && word[0] == PLUS {
        1
    } else {
        0
    };
    let ghost digits = digits_of(word@);
    if start == len {
        return None;
    }
    let mut value: u128 = 0;
    let mut i = start;
    while i < len
        invariant
            start <= i <= len,
            len == word@.len(),
            start <= 1,
            digits == word@.skip(start as int),
            digits == digits_of(word@),
            forall|k: int| 0 <= k < i - start ==> is_digit(#[trigger] digits[k]),
            value <= NUMBER_CAP,
            value == if digits_value(digits.take(i - start)) < NUMBER_CAP {
                digits_value(digits.take(i - start))
            } else {
                NUMBER_CAP as nat
            },
        decreases len - i,
    {
        let b = word[i];
        if b < 48 || b > 57 {
            assert(!is_digit(digits[i - start]));
            return None;
        }
        proof {
            let k = i - start;
            assert(digits.take(k + 1).drop_last() =~= digits.take(k));
        }
        if value < NUMBER_CAP {
            value = value * 10 + (b - 48) as u128;
            if value > NUMBER_CAP {
                value = NUMBER_CAP;
            }
        }
        i += 1;
    }
    proof {
        assert(digits.take(len - start) =~= digits);
    }
    Some(value)
}

/// The tiles that the words of the line spell, or `None` when one of the
/// words is not a number of at most 255.
pub fn read_row(line: &[u8]) -> (r: Option<Vec<Tile>>)
    ensures
        match r {
            Some(row) => tiles_of(tokens(line@)) == Some(row@),
            None => tiles_of(tokens(line@)) is None,
        },
{
    let words = split_words(line);
    let ghost all = views(words@);
    let mut row: Vec<Tile> = Vec::with_capacity(words.len());
    let mut k: usize = 0;
    while k < words.len()
        invariant
            k <= words@.len(),
            all == views(words@),
            all == tokens(line@),
            tiles_of(all.take(k as int)) == Some(row@),
        decreases words@.len() - k,
    {
        proof {
            assert(all.take(k + 1).drop_last() =~= all.take(k as int));
        }
        let tile = match read_number(words[k].as_slice()) {
            Some(v) => v,
            None => {
                proof {
                    lemma_tiles_of_fails(all, k + 1);
                }
                return None;
            },
        };
        if tile > 255 {
            proof {
                lemma_tiles_of_fails(all, k + 1);
            }
            return None;
        }
        row.push(tile as Tile);
        k += 1;
    }
    proof {
        assert(all.take(words@.len() as int) =~= all);
    }
    Some(row)
}

/// When the first words spell no tiles, neither do all of them.
pub proof fn lemma_tiles_of_fails(words: Seq<Seq<u8>>, k: int)
    requires
        0 <= k <= words.len(),
        tiles_of(words.take(k)) is None,
    ensures
        tiles_of(words) is None,
    decreases words.len() - k,
{
    if k < words.len() {
        assert(words.take(k + 1).drop_last() =~= words.take(k));
        lemma_tiles_of_fails(words, k + 1);
    } else {
        assert(words.take(k) =~= words);
    }
}

/// When the first lines spell no rows, all of them fail in the same way.
pub proof fn lemma_rows_of_fails(lines: Seq<Seq<u8>>, side: nat, k: int)
    requires
        0 <= k <= lines.len(),
        rows_of(lines.take(k), side) is Err,
    ensures
        rows_of(lines, side) == rows_of(lines.take(k), side),
    decreases lines.len() - k,
{
    if k < lines.len() {
        assert(lines.take(k + 1).drop_last() =~= lines.take(k));
        lemma_rows_of_fails(lines, side, k + 1);
    } else {
        assert(lines.take(k) =~= lines);
    }
}

/// The rows one after the other.
pub fn flatten(rows: &Vec<Vec<Tile>>) -> (tiles: Vec<Tile>)
    ensures
        tiles@ == joined(views(rows@)),
{
    let ghost all = views(rows@);
    let mut tiles: Vec<Tile> = Vec::new();
    let mut r: usize = 0;
    while r < rows.len()
        invariant
            r <= rows@.len(),
            all == views(rows@),
            tiles@ == joined(all.take(r as int)),
        decreases rows@.len() - r,
    {
        let row = &rows[r];
        let ghost had = tiles@;
        let mut c: usize = 0;
        while c < row.len()
            invariant
                c <= row@.len(),
                tiles@ == had + row@.take(c as int),
            decreases row@.len() - c,
        {
            tiles.push(row[c]);
            c += 1;
        }
        proof {
            assert(all.take(r + 1).drop_last() =~= all.take(r as int));
        }
        r += 1;
    }
    proof {
        assert(all.take(rows@.len() as int) =~= all);
    }
    tiles
}

/// Whether, over all rows, no tile occurs twice and each is smaller than
/// their number.
pub fn is_teals_valid(board: &Vec<Vec<Tile>>) -> (r: bool)
    ensures
        r == once_each(joined(views(board@))),
{
    let flatted = flatten(board);
    tally(flatted.as_slice()).is_some()
}

/// Reads the rows of a board from its text form.
pub fn parse_file(content: &str) -> (r: Result<Vec<Vec<Tile>>, ParseError>)
    ensures
        match r {
            Ok(rows) => parsed(content.spec_bytes()) == Ok::<Seq<Seq<Tile>>, ParseError>(
                views(rows@),
            ),
            Err(e) => parsed(content.spec_bytes()) == Err::<Seq<Seq<Tile>>, ParseError>(e),
        },
{
    parse_bytes(content.as_bytes())
}

/// Reads the rows of a board from the bytes of its text form.
pub fn parse_bytes(text: &[u8]) -> (r: Result<Vec<Vec<Tile>>, ParseError>)
    ensures
        match r {
            Ok(rows) => parsed(text@) == Ok::<Seq<Seq<Tile>>, ParseError>(views(rows@)),
            Err(e) => parsed(text@) == Err::<Seq<Seq<Tile>>, ParseError>(e),
        },
{
    let str_board = remove_comments(text);
    let ghost lines = views(str_board@);
    if str_board.len() == 0 {
        return Err(ParseError::Empty);
    }
    let head = split_words(str_board[0].as_slice());
    if head.len() != 1 {
        return Err(ParseError::BadSize);
    }
    let line_count: u128 = match read_number(head[0].as_slice()) {
        Some(n) => n,
        None => {
            return Err(ParseError::BadSize);
        },
    };
    if line_count == 0 {
        return Err(ParseError::BadSize);
    }
    let ghost side = number(head@[0]@).unwrap();
    if line_count >= NUMBER_CAP || str_board.len() as u128 != line_count + 1 {
        return Err(ParseError::LineCount);
    }
    let ghost body = lines.skip(1);
    let mut board: Vec<Vec<Tile>> = Vec::new();
    let mut k: usize = 1;
    assert(views(board@) =~= Seq::<Seq<Tile>>::empty());
    while k < str_board.len()
        invariant
            1 <= k <= str_board@.len(),
            lines == views(str_board@),
            body == lines.skip(1),
            side == line_count,
            str_board@.len() == side + 1,
            parsed(text@) == after_rows(rows_of(body, side)),
            rows_of(body.take(k - 1), side) == Ok::<Seq<Seq<Tile>>, ParseError>(views(board@)),
        decreases str_board@.len() - k,
    {
        let ghost had = views(board@);
        proof {
            assert(body.take(k as int).drop_last() =~= body.take(k - 1));
        }
        let row = match read_row(str_board[k].as_slice()) {
            Some(row) => row,
            None => {
                proof {
                    lemma_rows_of_fails(body, side, k as int);
                }
                return Err(ParseError::BadTile);
            },
        };
        if row.len() as u128 != line_count {
            proof {
                lemma_rows_of_fails(body, side, k as int);
            }
            return Err(ParseError::ColumnCount);
        }
        board.push(row);
        proof {
            assert(views(board@) =~= had.push(row@));
        }
        k += 1;
    }
    proof {
        assert(body.take(str_board@.len() - 1) =~= body);
    }
    if is_teals_valid(&board) {
        Ok(board)
    } else {
        Err(ParseError::BadTiles)
    }
}

} // verus!
