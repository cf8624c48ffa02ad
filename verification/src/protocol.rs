//! The referee's line protocol: which line is which, and when a turn's
//! board and piece are complete. The caller reads the lines and answers.
use vstd::prelude::*;
use crate::grid::{is_rect, view_grid};
use crate::parser::{
    grid_row, is_size_line, parse_grid_row, parse_piece_row, player_in, player_of, size_in,
    size_of, GameState,
};
use crate::text::{begins_with, chars_of, contains_run, holds_run, starts_with, trim, trim_end, trimmed};

verus! {

#[derive(Clone, Copy)]
pub enum Phase {
    /// Before the first game line: `$$$ exec` lines and blank lines.
    Preamble,
    /// Looking for the `Anfield` line that opens a turn.
    SeekBoard,
    /// The next line is the column ruler above the board.
    ColumnHeader,
    /// Reading the board's rows.
    BoardRows,
    /// Looking for the `Piece` line.
    SeekPiece,
    /// Reading the piece's rows.
    PieceRows,
}

/// What the caller does next.
pub enum Action {
    /// Read another line.
    ReadMore,
    /// A turn is complete: choose a move for this state and print it.
    Ready(GameState),
    /// The input has ended where no turn was under way: stop.
    Stop,
    /// A size line does not make sense, or the board's cell count does not
    /// leave room for two more values in a `u32` (the distances of the
    /// territory search).
    Malformed,
}

pub struct Reader {
    pub phase: Phase,
    pub player_num: u8,
    pub seen_exec: bool,
    pub turn: u32,
    pub rows: usize,
    pub cols: usize,
    pub grid: Vec<Vec<char>>,
    pub piece_rows: usize,
    pub piece_cols: usize,
    pub piece: Vec<Vec<char>>,
}

/// A `$$$ exec` line, once trimmed: it starts with `$$$` and holds `exec`.
pub open spec fn is_exec_line(t: Seq<char>) -> bool {
    starts_with(t, seq!['$', '$', '$']) && contains_run(t, seq!['e', 'x', 'e', 'c'])
}

pub open spec fn is_board_line(t: Seq<char>) -> bool {
    starts_with(t, seq!['A', 'n', 'f', 'i', 'e', 'l', 'd'])
}

pub open spec fn is_piece_line(t: Seq<char>) -> bool {
    starts_with(t, seq!['P', 'i', 'e', 'c', 'e'])
}

/// My two characters: player 1 plays `@`/`a`, player 2 `$`/`s`.
pub open spec fn my_side(player: u8) -> Seq<char> {
    if player == 1 {
        seq!['@', 'a']
    } else {
        seq!['$', 's']
    }
}

/// The opponent's two characters.
pub open spec fn their_side(player: u8) -> Seq<char> {
    if player == 1 {
        seq!['$', 's']
    } else {
        seq!['@', 'a']
    }
}

pub open spec fn next_turn(turn: u32) -> u32 {
    if turn == u32::MAX {
        0
    } else {
        (turn + 1) as u32
    }
}

/// The board and piece of a completed turn make a state that can be
/// answered: the board is `rows` by `cols` and small enough for its
/// distances to fit in a `u32`, and the piece has `piece_rows` rows. The
/// piece's rows may have any widths.
pub open spec fn turn_ok(r: Reader, piece: Seq<Seq<char>>) -> bool {
    &&& is_rect(view_grid(r.grid@), r.rows as int, r.cols as int)
    &&& piece.len() == r.piece_rows
    &&& r.rows * r.cols + 2 <= u32::MAX
}

/// A turn read into `r`, with piece rows `piece`, is handed out: the caller
/// gets the turn's state and the reader waits for the next turn.
pub open spec fn after_turn(r: Reader, piece: Seq<Seq<char>>, new: Reader, act: Action) -> bool {
    if turn_ok(r, piece) {
        &&& act matches Action::Ready(st) && r.turn_state_ok(st) && view_grid(st.piece@) == piece
            && st.turn_read()
        &&& new.phase is SeekBoard
        &&& new.player_num == r.player_num
        &&& new.seen_exec == r.seen_exec
        &&& new.turn == next_turn(r.turn)
        &&& new.grid@.len() == 0
        &&& new.piece@.len() == 0
    } else {
        act is Malformed
    }
}

/// The reader, looking for the `Anfield` line, is given trimmed line `t`.
pub open spec fn after_seek_board(old: Reader, t: Seq<char>, new: Reader, act: Action) -> bool {
    if !is_board_line(t) {
        act is ReadMore && new == old
    } else if !is_size_line(t) {
        act is Malformed
    } else {
        &&& act is ReadMore
        &&& new.phase is ColumnHeader
        &&& new.same_game(old)
        &&& new.cols == size_of(t).0
        &&& new.rows == size_of(t).1
        &&& new.grid@.len() == 0
    }
}

/// The reader, looking for the `Piece` line, is given trimmed line `t`.
pub open spec fn after_seek_piece(old: Reader, t: Seq<char>, new: Reader, act: Action) -> bool {
    if !is_piece_line(t) {
        act is ReadMore && new == old
    } else if !is_size_line(t) {
        act is Malformed
    } else {
        let sized = Reader { piece_cols: size_of(t).0, piece_rows: size_of(t).1, ..old };
        if size_of(t).1 == 0 {
            after_turn(sized, Seq::empty(), new, act)
        } else {
            &&& act is ReadMore
            &&& new.phase is PieceRows
            &&& new.same_game(old)
            &&& new.rows == old.rows
            &&& new.cols == old.cols
            &&& new.grid == old.grid
            &&& new.piece_cols == size_of(t).0
            &&& new.piece_rows == size_of(t).1
            &&& new.piece@.len() == 0
        }
    }
}

/// One line read in the reader's current phase.
pub open spec fn after_line(old: Reader, line: Seq<char>, new: Reader, act: Action) -> bool {
    let t = trim(line);
    match old.phase {
        Phase::Preamble => if is_exec_line(t) {
            &&& act is ReadMore
            &&& new == Reader {
                player_num: if old.seen_exec {
                    old.player_num
                } else {
                    player_of(t)
                },
                seen_exec: true,
                ..old
            }
        } else if t.len() == 0 {
            act is ReadMore && new == old
        } else {
            after_seek_board(
                Reader { phase: Phase::SeekBoard, turn: next_turn(old.turn), ..old },
                t,
                new,
                act,
            )
        },
        Phase::SeekBoard => after_seek_board(old, t, new, act),
        Phase::ColumnHeader => {
            &&& act is ReadMore
            &&& new == Reader {
                phase: if old.rows == 0 {
                    Phase::SeekPiece
                } else {
                    Phase::BoardRows
                },
                ..old
            }
        },
        Phase::BoardRows => {
            let g = view_grid(old.grid@).push(grid_row(line, old.cols as int));
            &&& act is ReadMore
            &&& view_grid(new.grid@) == g
            &&& new == Reader {
                phase: if g.len() == old.rows {
                    Phase::SeekPiece
                } else {
                    Phase::BoardRows
                },
                grid: new.grid,
                ..old
            }
        },
        Phase::SeekPiece => after_seek_piece(old, t, new, act),
        Phase::PieceRows => {
            let piece = view_grid(old.piece@).push(trim_end(line));
            if piece.len() == old.piece_rows {
                after_turn(old, piece, new, act)
            } else {
                &&& act is ReadMore
                &&& view_grid(new.piece@) == piece
                &&& new == Reader { piece: new.piece, ..old }
            }
        },
    }
}

/// The input has ended: mid-turn the reader goes on as if given an empty
/// line; otherwise the caller stops.
pub open spec fn after_end(old: Reader, new: Reader, act: Action) -> bool {
    if old.phase is Preamble || old.phase is SeekBoard || old.phase is SeekPiece {
        act is Stop && new == old
    } else {
        after_line(old, Seq::empty(), new, act)
    }
}

impl Reader {
    pub open spec fn inv(&self) -> bool {
        &&& is_rect(view_grid(self.grid@), self.grid@.len() as int, self.cols as int)
        &&& self.grid@.len() <= self.rows
        &&& (self.phase is ColumnHeader ==> self.grid@.len() == 0)
        &&& (self.phase is BoardRows ==> self.grid@.len() < self.rows)
        &&& (self.phase is SeekPiece || self.phase is PieceRows) ==> self.grid@.len() == self.rows
        &&& (self.phase is PieceRows ==> self.piece@.len() < self.piece_rows)
    }

    /// Everything but the turn's board and piece stays as it was.
    pub open spec fn same_game(&self, other: Reader) -> bool {
        &&& self.player_num == other.player_num
        &&& self.seen_exec == other.seen_exec
        &&& self.turn == other.turn
    }

    /// The state of a turn whose board and piece are both read.
    pub open spec fn turn_state_ok(&self, st: GameState) -> bool {
        &&& st.player_num == self.player_num
        &&& st.my_chars@ == my_side(self.player_num)
        &&& st.opp_chars@ == their_side(self.player_num)
        &&& st.rows == self.rows
        &&& st.cols == self.cols
        &&& view_grid(st.grid@) == view_grid(self.grid@)
        &&& st.piece_rows == self.piece_rows
        &&& st.piece_cols == self.piece_cols
        &&& st.turn == self.turn
    }

    pub fn new() -> (r: Reader)
        ensures
            r.inv(),
            r.phase is Preamble,
            r.player_num == 2,
            !r.seen_exec,
            r.turn == 0,
            r.grid@.len() == 0,
            r.piece@.len() == 0,
    {
        Reader {
            phase: Phase::Preamble,
            player_num: 2,
            seen_exec: false,
            turn: 0,
            rows: 0,
            cols: 0,
            grid: Vec::new(),
            piece_rows: 0,
            piece_cols: 0,
            piece: Vec::new(),
        }
    }

    fn finish_turn(&mut self) -> (act: Action)
        requires
            is_rect(view_grid(old(self).grid@), old(self).grid@.len() as int, old(self).cols as int),
            old(self).grid@.len() == old(self).rows,
        ensures
            after_turn(*old(self), view_grid(old(self).piece@), *final(self), act),
            final(self).inv() || act is Malformed,
    {
        let ok = self.piece.len() == self.piece_rows;
        let size_fits = match self.rows.checked_mul(self.cols) {
            Some(n) => n <= 0xffff_fffdusize,
            None => false,
        };
        if !ok || !size_fits {
            return Action::Malformed;
        }
        let mut grid: Vec<Vec<char>> = Vec::new();
        let mut piece_rows: Vec<Vec<char>> = Vec::new();
        std::mem::swap(&mut grid, &mut self.grid);
        std::mem::swap(&mut piece_rows, &mut self.piece);
        let (my_chars, opp_chars) = if self.player_num == 1 {
            (['@', 'a'], ['$', 's'])
        } else {
            (['$', 's'], ['@', 'a'])
        };
        let state = GameState {
            player_num: self.player_num,
            my_chars,
            opp_chars,
            rows: self.rows,
            cols: self.cols,
            grid,
            piece: piece_rows,
            piece_rows: self.piece_rows,
            piece_cols: self.piece_cols,
            turn: self.turn,
        };
        assert(state.my_chars@ =~= my_side(self.player_num));
        assert(state.opp_chars@ =~= their_side(self.player_num));
        self.phase = Phase::SeekBoard;
        self.turn = if self.turn == u32::MAX {
            0
        } else {
            self.turn + 1
        };
        assert(view_grid(self.grid@) =~= Seq::<Seq<char>>::empty());
        Action::Ready(state)
    }

    fn seek_board(&mut self, t: &Vec<char>) -> (act: Action)
        requires
            old(self).inv(),
            old(self).phase is SeekBoard,
        ensures
            after_seek_board(*old(self), t@, *final(self), act),
            final(self).inv(),
    {
        if !begins_with(t, &['A', 'n', 'f', 'i', 'e', 'l', 'd']) {
            return Action::ReadMore;
        }
        match size_in(t) {
            None => Action::Malformed,
            Some((cols, rows)) => {
                self.cols = cols;
                self.rows = rows;
                self.grid = Vec::new();
                self.phase = Phase::ColumnHeader;
                assert(view_grid(self.grid@) =~= Seq::<Seq<char>>::empty());
                Action::ReadMore
            },
        }
    }

    fn seek_piece(&mut self, t: &Vec<char>) -> (act: Action)
        requires
            old(self).inv(),
            old(self).phase is SeekPiece,
        ensures
            after_seek_piece(*old(self), t@, *final(self), act),
            final(self).inv() || act is Malformed,
    {
        if !begins_with(t, &['P', 'i', 'e', 'c', 'e']) {
            return Action::ReadMore;
        }
        match size_in(t) {
            None => Action::Malformed,
            Some((cols, rows)) => {
                self.piece_cols = cols;
                self.piece_rows = rows;
                self.piece = Vec::new();
                assert(view_grid(self.piece@) =~= Seq::<Seq<char>>::empty());
                if rows == 0 {
                    self.finish_turn()
                } else {
                    self.phase = Phase::PieceRows;
                    Action::ReadMore
                }
            },
        }
    }

    /// Takes one line, as read (its line break may still be on it).
    pub fn feed(&mut self, line: &str) -> (act: Action)
        requires
            old(self).inv(),
        ensures
            after_line(*old(self), line@, *final(self), act),
            final(self).inv() || act is Malformed,
    {
        let chars = chars_of(line);
        let t = trimmed(&chars);
        let phase = self.phase;
        match phase {
            Phase::Preamble => {
                if begins_with(&t, &['$', '$', '$']) && holds_run(&t, &['e', 'x', 'e', 'c']) {
                    if !self.seen_exec {
                        self.player_num = player_in(&t);
                    }
                    self.seen_exec = true;
                    Action::ReadMore
                } else if t.len() == 0 {
                    Action::ReadMore
                } else {
                    self.phase = Phase::SeekBoard;
                    self.turn = if self.turn == u32::MAX {
                        0
                    } else {
                        self.turn + 1
                    };
                    self.seek_board(&t)
                }
            },
            Phase::SeekBoard => self.seek_board(&t),
            Phase::ColumnHeader => {
                self.phase = if self.rows == 0 {
                    Phase::SeekPiece
                } else {
                    Phase::BoardRows
                };
                Action::ReadMore
            },
            Phase::BoardRows => {
                let row = parse_grid_row(line, self.cols);
                let ghost before = view_grid(self.grid@);
                self.grid.push(row);
                assert(view_grid(self.grid@) =~= before.push(grid_row(line@, self.cols as int)));
                if self.grid.len() == self.rows {
                    self.phase = Phase::SeekPiece;
                }
                Action::ReadMore
            },
            Phase::SeekPiece => self.seek_piece(&t),
            Phase::PieceRows => {
                let row = parse_piece_row(line);
                let ghost before = view_grid(self.piece@);
                self.piece.push(row);
                assert(view_grid(self.piece@) =~= before.push(trim_end(line@)));
                if self.piece.len() == self.piece_rows {
                    self.finish_turn()
                } else {
                    Action::ReadMore
                }
            },
        }
    }

    /// The input has ended.
    pub fn end_of_input(&mut self) -> (act: Action)
        requires
            old(self).inv(),
        ensures
            after_end(*old(self), *final(self), act),
            final(self).inv() || act is Malformed,
    {
        let phase = self.phase;
        match phase {
            Phase::Preamble | Phase::SeekBoard | Phase::SeekPiece => Action::Stop,
            _ => {
                proof {
                    reveal_strlit("");
                    assert(""@ =~= Seq::<char>::empty());
                }
                self.feed("")
            },
        }
    }
}

} // verus!
