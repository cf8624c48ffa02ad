//! The game state, and reading the referee's lines into it.
use vstd::prelude::*;
use crate::grid::{is_rect, rows_cover_width, view_grid, width};
use crate::text::{
    after_first_space, chars_of, decimal, digits_value, is_digit, is_ws, lemma_decimal,
    lemma_words_append_word, lemma_words_push_ws, unsigned_digits, parse_usize, parses_usize, split_words, trim_colons, trim_end,
    trim_end_chars, usize_value, words,
};

verus! {

pub struct GameState {
    pub player_num: u8,
    pub my_chars: [char; 2],
    pub opp_chars: [char; 2],
    pub rows: usize,
    pub cols: usize,
    pub grid: Vec<Vec<char>>,
    pub piece: Vec<Vec<char>>,
    pub piece_rows: usize,
    pub piece_cols: usize,
    pub turn: u32,
}

impl GameState {
    /// The board has `rows` rows of `cols` cells each.
    pub open spec fn board_ok(&self) -> bool {
        is_rect(view_grid(self.grid@), self.rows as int, self.cols as int)
    }

    /// The piece has `piece_rows` rows; every row is at least as wide as the
    /// first, and the first is at least `piece_cols` wide. (Rows wider than
    /// `piece_cols` are read only as far as `piece_cols` when the piece is
    /// put down, and in full when its legality is checked.)
    pub open spec fn piece_ok(&self) -> bool {
        &&& self.shape().len() == self.piece_rows
        &&& rows_cover_width(self.shape())
        &&& (self.piece_rows > 0 ==> self.piece_cols <= width(self.shape()))
    }

    /// What every turn the reader hands out satisfies: the board is as
    /// above, the piece has `piece_rows` rows (of any widths), and the board
    /// is small enough for its distances to fit in a `u32`.
    pub open spec fn turn_read(&self) -> bool {
        &&& self.board_ok()
        &&& self.shape().len() == self.piece_rows
        &&& self.rows * self.cols + 2 <= u32::MAX
    }

    /// The board and piece are as above, and the board is small enough for
    /// its distances to fit in a `u32`.
    pub open spec fn well_formed(&self) -> bool {
        &&& self.board_ok()
        &&& self.piece_ok()
        &&& self.rows * self.cols + 2 <= u32::MAX
    }

    pub open spec fn board(&self) -> Seq<Seq<char>> {
        view_grid(self.grid@)
    }

    pub open spec fn shape(&self) -> Seq<Seq<char>> {
        view_grid(self.piece@)
    }
}

/// The player number a `$$$ exec` line names: 1 when its third word is
/// `p1`, and 2 otherwise.
pub open spec fn player_of(line: Seq<char>) -> u8 {
    let w = words(line);
    if w.len() >= 3 && w[2] == seq!['p', '1'] {
        1
    } else {
        2
    }
}

pub fn parse_player_number(line: &str) -> (n: u8)
    ensures
        n == player_of(line@),
{
    let chars = chars_of(line);
    player_in(&chars)
}

/// `player_of` over a line given as its characters.
pub fn player_in(chars: &Vec<char>) -> (n: u8)
    ensures
        n == player_of(chars@),
{
    let ghost line = chars@;
    let parts = split_words(chars);
    if parts.len() >= 3 && parts[2].len() == 2 && parts[2][0] == 'p' && parts[2][1] == '1' {
        assert(view_grid(parts@)[2] =~= seq!['p', '1']);
        1
    } else {
        proof {
            if words(line).len() >= 3 && words(line)[2] == seq!['p', '1'] {
                assert(view_grid(parts@)[2] == parts@[2]@);
            }
        }
        2
    }
}

/// A size line such as `Anfield 20 15:` or `Piece 4 2:`: its second word
/// reads as a `usize`, and so does its third once trailing ':' are dropped.
pub open spec fn is_size_line(line: Seq<char>) -> bool {
    let w = words(line);
    w.len() >= 3 && parses_usize(w[1]) && parses_usize(trim_colons(w[2]))
}

/// The (columns, rows) a size line gives.
pub open spec fn size_of(line: Seq<char>) -> (usize, usize) {
    let w = words(line);
    (usize_value(w[1]).unwrap(), usize_value(trim_colons(w[2])).unwrap())
}

/// The line `{head} {c} {r}:` as `format!` prints it, such as
/// `Anfield 20 15:` or `Piece 4 2:`.
pub open spec fn printed_size_line(head: Seq<char>, c: nat, r: nat) -> Seq<char> {
    head + seq![' '] + decimal(c) + seq![' '] + decimal(r) + seq![':']
}

/// A run of decimal digits is not white space.
proof fn lemma_digits_not_ws(d: Seq<char>)
    requires
        forall|i: int| 0 <= i < d.len() ==> is_digit(#[trigger] d[i]),
    ensures
        forall|i: int| 0 <= i < d.len() ==> !is_ws(#[trigger] d[i]),
{
    assert forall|i: int| 0 <= i < d.len() implies !is_ws(#[trigger] d[i]) by {
        assert(is_digit(d[i]));
        assert(48 <= d[i] as u32 <= 57);
    }
}

/// A size line printed from two numbers reads back as those numbers: for
/// any first word (`Anfield`, `Piece`), `{head} {c} {r}:` is a size line and
/// its size is `(c, r)`.
pub proof fn lemma_size_line_round_trip(head: Seq<char>, c: usize, r: usize)
    requires
        head.len() > 0,
        forall|i: int| 0 <= i < head.len() ==> !is_ws(#[trigger] head[i]),
    ensures
        is_size_line(printed_size_line(head, c as nat, r as nat)),
        size_of(printed_size_line(head, c as nat, r as nat)) == (c, r),
{
    let dc = decimal(c as nat);
    let dr = decimal(r as nat);
    lemma_decimal(c as nat);
    lemma_decimal(r as nat);
    lemma_digits_not_ws(dc);
    lemma_digits_not_ws(dr);
    let drc = dr.push(':');
    assert forall|i: int| 0 <= i < drc.len() implies !is_ws(#[trigger] drc[i]) by {
        if i < dr.len() {
            assert(drc[i] == dr[i]);
        }
    }
    let empty = Seq::<char>::empty();
    lemma_words_append_word(empty, head);
    assert(empty + head =~= head);
    assert(words(empty) =~= Seq::<Seq<char>>::empty());
    let s1 = head.push(' ');
    lemma_words_push_ws(head, ' ');
    lemma_words_append_word(s1, dc);
    let s2 = s1 + dc;
    let s3 = s2.push(' ');
    lemma_words_push_ws(s2, ' ');
    lemma_words_append_word(s3, drc);
    let line = printed_size_line(head, c as nat, r as nat);
    assert(line =~= s3 + drc);
    let w = words(line);
    assert(w =~= seq![head, dc, drc]);
    // The second word is `c`.
    assert(unsigned_digits(dc) == dc) by {
        assert(is_digit(dc[0]));
    }
    // The third word, without its colon, is `r`.
    assert(drc.drop_last() =~= dr);
    assert(trim_colons(drc) == trim_colons(dr));
    assert(dr.last() != ':') by {
        assert(is_digit(dr[dr.len() - 1]));
    }
    assert(trim_colons(dr) == dr);
    assert(unsigned_digits(dr) == dr) by {
        assert(is_digit(dr[0]));
    }
    assert(digits_value(dc) == c);
    assert(digits_value(dr) == r);
}

fn drop_colons(v: &Vec<char>) -> (t: Vec<char>)
    ensures
        t@ == trim_colons(v@),
{
    let mut n = v.len();
    assert(v@.take(n as int) =~= v@);
    while n > 0 && v[n - 1] == ':'
        invariant
            n <= v@.len(),
            trim_colons(v@.take(n as int)) == trim_colons(v@),
        decreases n,
    {
        assert(v@.take(n as int).drop_last() =~= v@.take(n - 1));
        n -= 1;
    }
    let mut t: Vec<char> = Vec::new();
    let mut i: usize = 0;
    while i < n
        invariant
            i <= n <= v@.len(),
            t@ == v@.take(i as int),
        decreases n - i,
    {
        t.push(v[i]);
        assert(t@ =~= v@.take(i + 1));
        i += 1;
    }
    proof {
        let k = v@.take(n as int);
        if n > 0 {
            assert(k.last() == v@[n - 1]);
        }
    }
    t
}

/// Reads a size line; `None` when it is not one.
pub fn try_parse_size(line: &str) -> (res: Option<(usize, usize)>)
    ensures
        res == if is_size_line(line@) {
            Some(size_of(line@))
        } else {
            None::<(usize, usize)>
        },
{
    let chars = chars_of(line);
    size_in(&chars)
}

/// `try_parse_size` over a line given as its characters.
pub fn size_in(chars: &Vec<char>) -> (res: Option<(usize, usize)>)
    ensures
        res == if is_size_line(chars@) {
            Some(size_of(chars@))
        } else {
            None::<(usize, usize)>
        },
{
    let ghost line = chars@;
    let parts = split_words(chars);
    assert(view_grid(parts@) == words(line));
    if parts.len() < 3 {
        return None;
    }
    assert(parts@[1]@ == words(line)[1]);
    assert(parts@[2]@ == words(line)[2]);
    let cols = parse_usize(&parts[1]);
    let rows_text = drop_colons(&parts[2]);
    let rows = parse_usize(&rows_text);
    match (cols, rows) {
        (Some(c), Some(r)) => Some((c, r)),
        _ => None,
    }
}

pub fn parse_anfield_header(line: &str) -> (size: (usize, usize))
    requires
        is_size_line(line@),
    ensures
        size == size_of(line@),
{
    match try_parse_size(line) {
        Some(size) => size,
        None => (0, 0),
    }
}

pub fn parse_piece_header(line: &str) -> (size: (usize, usize))
    requires
        is_size_line(line@),
    ensures
        size == size_of(line@),
{
    match try_parse_size(line) {
        Some(size) => size,
        None => (0, 0),
    }
}

/// A board row as the referee prints it (`012 ..@..`): what follows the
/// first space, without trailing white space, cut to `cols` cells and
/// padded with '.' up to `cols`.
pub open spec fn grid_row(line: Seq<char>, cols: int) -> Seq<char> {
    let t = trim_end(after_first_space(line));
    let k = if t.len() < cols {
        t.len() as int
    } else {
        cols
    };
    t.take(k) + Seq::new((cols - k) as nat, |i: int| '.')
}

pub fn parse_grid_row(line: &str, cols: usize) -> (row: Vec<char>)
    ensures
        row@ == grid_row(line@, cols as int),
        row@.len() == cols,
{
    let chars = chars_of(line);
    let mut start: usize = 0;
    assert(chars@.skip(0) =~= chars@);
    while start < chars.len() && chars[start] != ' '
        invariant
            start <= chars@.len(),
            after_first_space(chars@.skip(start as int)) == after_first_space(line@),
            chars@ == line@,
        decreases chars@.len() - start,
    {
        assert(chars@.skip(start as int).drop_first() =~= chars@.skip(start + 1));
        start += 1;
    }
    let mut content: Vec<char> = Vec::new();
    if start < chars.len() {
        assert(chars@.skip(start as int).drop_first() =~= chars@.skip(start + 1));
        let mut i = start + 1;
        while i < chars.len()
            invariant
                start + 1 <= i <= chars@.len(),
                content@ == chars@.subrange(start + 1, i as int),
            decreases chars@.len() - i,
        {
            content.push(chars[i]);
            assert(content@ =~= chars@.subrange(start + 1, i + 1));
            i += 1;
        }
        assert(content@ =~= chars@.skip(start + 1));
    } else {
        assert(chars@.skip(start as int) =~= Seq::<char>::empty());
        assert(content@ =~= after_first_space(line@));
    }
    let t = trim_end_chars(&content);
    let ghost trimmed = trim_end(after_first_space(line@));
    let mut row: Vec<char> = Vec::new();
    while row.len() < cols && row.len() < t
        invariant
            row@.len() <= cols,
            row@.len() <= t,
            t <= content@.len(),
            content@.take(t as int) == trimmed,
            row@ == trimmed.take(row@.len() as int),
        decreases t - row@.len(),
    {
        let ch = content[row.len()];
        row.push(ch);
        assert(row@ =~= trimmed.take(row@.len() as int));
    }
    let ghost kept = row@.len();
    while row.len() < cols
        invariant
            kept <= row@.len() <= cols,
            row@.subrange(0, kept as int) == trimmed.take(kept as int),
            forall|i: int| kept <= i < row@.len() ==> row@[i] == '.',
        decreases cols - row@.len(),
    {
        row.push('.');
    }
    assert(row@ =~= grid_row(line@, cols as int));
    row
}

pub fn parse_piece_row(line: &str) -> (row: Vec<char>)
    ensures
        row@ == trim_end(line@),
{
    let chars = chars_of(line);
    let t = trim_end_chars(&chars);
    let mut row: Vec<char> = Vec::new();
    let mut i: usize = 0;
    while i < t
        invariant
            i <= t <= chars@.len(),
            row@ == chars@.take(i as int),
        decreases t - i,
    {
        row.push(chars[i]);
        assert(row@ =~= chars@.take(i + 1));
        i += 1;
    }
    row
}

} // verus!
