//! Tic-tac-toe, as a game the engine can search.

use vstd::prelude::*;

use vstd::string::StringSliceAdditionalSpecFns;

use crate::game::{GameImpl, MovePolicyIndex, Player};

verus! {

broadcast use vstd::array::group_array_axioms;

/// A cell of the board, numbered row by row from 0 to 8.
#[derive(Clone, Copy, Debug, PartialEq, Eq, Structural)]
pub struct Cell(pub usize);

impl MovePolicyIndex for Cell {
    open spec fn spec_policy_index(&self) -> nat {
        self.0 as nat
    }

    fn policy_index(&self) -> (r: usize) {
        self.0
    }
}

/// A tic-tac-toe position: each cell empty (0), the first player's (1) or
/// the second player's (2).
#[derive(Clone, Copy, Debug)]
pub struct TicTacToe {
    cells: [u8; 9],
    first_to_move: bool,
}

/// The mark of the side to move.
pub open spec fn mark_of(first: bool) -> u8 {
    if first {
        1
    } else {
        2
    }
}

pub open spec fn line_won(c: Seq<u8>, a: int, b: int, d: int) -> bool {
    c[a] != 0 && c[a] == c[b] && c[a] == c[d]
}

/// The mark that fills a line, or 0 if none does.
pub open spec fn winner(c: Seq<u8>) -> u8 {
    if line_won(c, 0, 1, 2) {
        c[0]
    } else if line_won(c, 3, 4, 5) {
        c[3]
    } else if line_won(c, 6, 7, 8) {
        c[6]
    } else if line_won(c, 0, 3, 6) {
        c[0]
    } else if line_won(c, 1, 4, 7) {
        c[1]
    } else if line_won(c, 2, 5, 8) {
        c[2]
    } else if line_won(c, 0, 4, 8) {
        c[0]
    } else if line_won(c, 2, 4, 6) {
        c[2]
    } else {
        0
    }
}

pub open spec fn board_full(c: Seq<u8>) -> bool {
    forall|i: int| 0 <= i < 9 ==> #[trigger] c[i] != 0
}

/// The result of a board: a completed line wins, a full board is a draw.
pub open spec fn board_outcome(c: Seq<u8>) -> Option<Player> {
    let w = winner(c);
    if w == 1 {
        Some(Player::First)
    } else if w != 0 {
        Some(Player::Second)
    } else if board_full(c) {
        Some(Player::Neither)
    } else {
        None
    }
}

/// The empty cells among the first `n`, in order.
pub open spec fn empty_upto(c: Seq<u8>, n: int) -> Seq<Cell>
    decreases n,
{
    if n <= 0 {
        seq![]
    } else if c[n - 1] == 0 {
        empty_upto(c, n - 1).push(Cell((n - 1) as usize))
    } else {
        empty_upto(c, n - 1)
    }
}

/// Feature `i` for each of the first `n` cells that holds mark `m`.
pub open spec fn own_upto(c: Seq<u8>, m: u8, n: int) -> Seq<usize>
    decreases n,
{
    if n <= 0 {
        seq![]
    } else if c[n - 1] == m {
        own_upto(c, m, n - 1).push((n - 1) as usize)
    } else {
        own_upto(c, m, n - 1)
    }
}

/// Feature `9 + i` for each of the first `n` cells that holds the other
/// mark.
pub open spec fn other_upto(c: Seq<u8>, m: u8, n: int) -> Seq<usize>
    decreases n,
{
    if n <= 0 {
        seq![]
    } else if c[n - 1] != 0 && c[n - 1] != m {
        other_upto(c, m, n - 1).push((9 + n - 1) as usize)
    } else {
        other_upto(c, m, n - 1)
    }
}

/// With no empty cell among the first `n`, those cells are all marked.
proof fn lemma_no_empty_cell(c: Seq<u8>, n: int)
    requires
        0 <= n <= 9,
        empty_upto(c, n).len() == 0,
    ensures
        forall|i: int| 0 <= i < n ==> #[trigger] c[i] != 0,
    decreases n,
{
    if n > 0 {
        if c[n - 1] == 0 {
            assert(empty_upto(c, n).len() > 0);
        }
        lemma_no_empty_cell(c, n - 1);
    }
}

/// The text of cell `i`: its column `a` to `c`, then its row `1` to `3`.
pub open spec fn cell_text(i: nat) -> Seq<u8> {
    seq![(97 + i % 3) as u8, (49 + i / 3) as u8]
}

/// The cell that a move's text names, if it names one.
pub open spec fn parse_move_spec(b: Seq<u8>) -> Option<Cell> {
    if b.len() == 2 && 97 <= b[0] <= 99 && 49 <= b[1] <= 51 {
        Some(Cell(((b[1] - 49) * 3 + (b[0] - 97)) as usize))
    } else {
        None
    }
}

/// The text of a move.
pub fn format_move(mv: &Cell) -> (r: Vec<u8>)
    requires
        mv.0 < 9,
    ensures
        r@ == cell_text(mv.0 as nat),
{
    let r = vec![(97 + mv.0 % 3) as u8, (49 + mv.0 / 3) as u8];
    assert(r@ =~= cell_text(mv.0 as nat));
    r
}

/// Reads a move such as `b2`.
pub fn parse_move(text: &str) -> (r: Option<Cell>)
    ensures
        r == parse_move_spec(text.spec_bytes()),
{
    let b = text.as_bytes();
    if b.len() == 2 && 97 <= b[0] && b[0] <= 99 && 49 <= b[1] && b[1] <= 51 {
        Some(Cell(((b[1] - 49) as usize) * 3 + ((b[0] - 97) as usize)))
    } else {
        None
    }
}

/// The digit of a cell's mark: `0` empty, `1` first player, `2` second.
pub open spec fn mark_digit(m: u8) -> u8 {
    (48 + m) as u8
}

/// The text of a position: the nine cells as digits, row by row from `a1`,
/// a space, and `x` or `o` for the side to move.
pub open spec fn fen_spec(c: Seq<u8>, first: bool) -> Seq<u8> {
    Seq::new(9, |i: int| mark_digit(c[i])) + seq![32u8, if first { 120u8 } else { 111u8 }]
}

/// What a position's text denotes: nine digits `0`, `1` or `2`, then
/// optionally a space and `x` or `o`; without them the first player moves
/// when the marks are even in number.
pub open spec fn parse_fen_spec(b: Seq<u8>) -> Option<(Seq<u8>, bool)> {
    let digits_ok = b.len() >= 9 && forall|i: int| 0 <= i < 9 ==> 48 <= #[trigger] b[i] <= 50;
    let cells = Seq::new(9, |i: int| (b[i] - 48) as u8);
    if !digits_ok {
        None
    } else if b.len() == 9 {
        Some((cells, marks_count(cells, 9) % 2 == 0))
    } else if b.len() == 11 && b[9] == 32 && (b[10] == 120 || b[10] == 111) {
        Some((cells, b[10] == 120))
    } else {
        None
    }
}

/// The marked cells among the first `n`.
pub open spec fn marks_count(c: Seq<u8>, n: int) -> int
    decreases n,
{
    if n <= 0 {
        0
    } else {
        marks_count(c, n - 1) + if c[n - 1] != 0 { 1int } else { 0int }
    }
}

/// The rows of the board, top row first, each cell `X`, `O` or `.`, each
/// row ending in a line feed.
pub open spec fn render_spec(c: Seq<u8>) -> Seq<u8> {
    Seq::new(12, |k: int| if k % 4 == 3 { 10u8 } else { cell_glyph(c[(2 - k / 4) * 3 + k % 4]) })
}

pub open spec fn cell_glyph(m: u8) -> u8 {
    if m == 1 {
        88
    } else if m == 2 {
        79
    } else {
        46
    }
}

impl TicTacToe {
    /// The text of this position.
    pub fn fen(&self) -> (r: Vec<u8>)
        requires
            forall|i: int| 0 <= i < 9 ==> #[trigger] self.spec_cells()[i] <= 2,
        ensures
            r@ == fen_spec(self.spec_cells(), self.spec_first_to_move()),
    {
        let mut r: Vec<u8> = Vec::new();
        let mut i: usize = 0;
        while i < 9
            invariant
                i <= 9,
                forall|k: int| 0 <= k < 9 ==> #[trigger] self.spec_cells()[k] <= 2,
                r@ =~= Seq::new(i as nat, |k: int| mark_digit(self.cells@[k])),
            decreases 9 - i,
        {
            assert(self.cells@[i as int] == self.spec_cells()[i as int]);
            r.push(48 + self.cells[i]);
            i = i + 1;
        }
        r.push(32);
        r.push(if self.first_to_move { 120 } else { 111 });
        assert(r@ =~= fen_spec(self.spec_cells(), self.spec_first_to_move()));
        r
    }

    /// Reads a position from its text.
    pub fn parse_fen(text: &str) -> (r: Option<TicTacToe>)
        ensures
            match parse_fen_spec(text.spec_bytes()) {
                Some((c, first)) => r is Some && r->0.spec_cells() == c && r->0.spec_first_to_move() == first,
                None => r is None,
            },
    {
        let b = text.as_bytes();
        if b.len() < 9 {
            return None;
        }
        let mut cells: [u8; 9] = [0; 9];
        let mut marks: usize = 0;
        let mut i: usize = 0;
        while i < 9
            invariant
                i <= 9,
                b@ == text.spec_bytes(),
                b@.len() >= 9,
                forall|k: int| 0 <= k < i ==> 48 <= #[trigger] b@[k] <= 50,
                forall|k: int| 0 <= k < i ==> #[trigger] cells@[k] == (b@[k] - 48) as u8,
                marks == marks_count(Seq::new(9, |k: int| (b@[k] - 48) as u8), i as int),
                marks <= i,
            decreases 9 - i,
        {
            let d = b[i];
            if d < 48 || d > 50 {
                return None;
            }
            cells[i] = d - 48;
            if d != 48 {
                marks = marks + 1;
            }
            i = i + 1;
        }
        assert(cells@ =~= Seq::new(9, |k: int| (b@[k] - 48) as u8));
        if b.len() == 9 {
            Some(TicTacToe { cells, first_to_move: marks % 2 == 0 })
        } else if b.len() == 11 && b[9] == 32 && (b[10] == 120 || b[10] == 111) {
            Some(TicTacToe { cells, first_to_move: b[10] == 120 })
        } else {
            None
        }
    }

    /// A drawing of the board, top row first.
    pub fn render(&self) -> (r: Vec<u8>)
        ensures
            r@ == render_spec(self.spec_cells()),
    {
        let mut r: Vec<u8> = Vec::new();
        let mut k: usize = 0;
        while k < 12
            invariant
                k <= 12,
                r@ =~= Seq::new(k as nat, |j: int| if j % 4 == 3 { 10u8 } else { cell_glyph(self.cells@[(2 - j / 4) * 3 + j % 4]) }),
            decreases 12 - k,
        {
            if k % 4 == 3 {
                r.push(10);
            } else {
                let m = self.cells[(2 - k / 4) * 3 + k % 4];
                r.push(if m == 1 { 88 } else if m == 2 { 79 } else { 46 });
            }
            k = k + 1;
        }
        assert(r@ =~= render_spec(self.spec_cells()));
        r
    }

    pub closed spec fn spec_cells(&self) -> Seq<u8> {
        self.cells@
    }

    pub closed spec fn spec_first_to_move(&self) -> bool {
        self.first_to_move
    }

    /// A position from its cells and the side to move.
    pub fn from_cells(cells: [u8; 9], first_to_move: bool) -> (r: Self)
        ensures
            r.spec_cells() == cells@,
            r.spec_first_to_move() == first_to_move,
    {
        TicTacToe { cells, first_to_move }
    }

    /// The mark in cell `i`.
    pub fn cell(&self, i: usize) -> (r: u8)
        requires
            i < 9,
        ensures
            r == self.spec_cells()[i as int],
    {
        self.cells[i]
    }

    fn line(&self, a: usize, b: usize, d: usize) -> (r: bool)
        requires
            a < 9 && b < 9 && d < 9,
        ensures
            r == line_won(self.cells@, a as int, b as int, d as int),
    {
        self.cells[a] != 0 && self.cells[a] == self.cells[b] && self.cells[a] == self.cells[d]
    }
}

impl GameImpl for TicTacToe {
    type Move = Cell;

    closed spec fn spec_policy_dim() -> nat {
        9
    }

    closed spec fn spec_feature_dim() -> nat {
        18
    }

    closed spec fn spec_to_move(&self) -> Player {
        if self.spec_first_to_move() {
            Player::First
        } else {
            Player::Second
        }
    }

    closed spec fn spec_outcome(&self) -> Option<Player> {
        board_outcome(self.spec_cells())
    }

    closed spec fn spec_after(&self, mv: Cell) -> Self {
        TicTacToe {
            cells: if mv.0 < 9 {
                vstd::array::spec_array_update(self.cells, mv.0 as int, mark_of(self.first_to_move))
            } else {
                self.cells
            },
            first_to_move: !self.first_to_move,
        }
    }

    closed spec fn spec_legal_moves(&self) -> Seq<Cell> {
        if board_outcome(self.spec_cells()) is Some {
            seq![]
        } else {
            empty_upto(self.spec_cells(), 9)
        }
    }

    closed spec fn spec_features(&self) -> Seq<usize> {
        let m = mark_of(self.spec_first_to_move());
        own_upto(self.spec_cells(), m, 9) + other_upto(self.spec_cells(), m, 9)
    }

    fn start() -> Self {
        TicTacToe { cells: [0; 9], first_to_move: true }
    }

    fn policy_dim() -> (r: usize) {
        9
    }

    fn feature_dim() -> (r: usize) {
        18
    }

    fn to_move(&self) -> (r: Player) {
        if self.first_to_move {
            Player::First
        } else {
            Player::Second
        }
    }

    fn outcome(&self) -> (r: Option<Player>) {
        let w = if self.line(0, 1, 2) {
            self.cells[0]
        } else if self.line(3, 4, 5) {
            self.cells[3]
        } else if self.line(6, 7, 8) {
            self.cells[6]
        } else if self.line(0, 3, 6) {
            self.cells[0]
        } else if self.line(1, 4, 7) {
            self.cells[1]
        } else if self.line(2, 5, 8) {
            self.cells[2]
        } else if self.line(0, 4, 8) {
            self.cells[0]
        } else if self.line(2, 4, 6) {
            self.cells[2]
        } else {
            0
        };
        assert(w == winner(self.cells@));
        assert(self.spec_outcome() == board_outcome(self.cells@));
        if w == 1 {
            return Some(Player::First);
        } else if w != 0 {
            return Some(Player::Second);
        }
        let mut i: usize = 0;
        while i < 9
            invariant
                i <= 9,
                winner(self.cells@) == 0,
                forall|k: int| 0 <= k < i ==> #[trigger] self.cells@[k] != 0,
            decreases 9 - i,
        {
            if self.cells[i] == 0 {
                assert(self.cells@[i as int] == 0);
                assert(!board_full(self.cells@));
                return None;
            }
            i = i + 1;
        }
        assert(board_full(self.cells@));
        Some(Player::Neither)
    }

    fn make_move(&mut self, mv: Cell) {
        let mark: u8 = if self.first_to_move {
            1
        } else {
            2
        };
        let ghost before = self.cells;
        if mv.0 < 9 {
            self.cells[mv.0] = mark;
        }
        self.first_to_move = !self.first_to_move;
        proof {
            if mv.0 < 9 {
                assert(self.cells =~= vstd::array::spec_array_update(before, mv.0 as int, mark));
            }
        }
    }

    fn legal_moves(&self) -> (r: Vec<Cell>) {
        let mut out: Vec<Cell> = Vec::new();
        if self.outcome().is_some() {
            return out;
        }
        let mut i: usize = 0;
        while i < 9
            invariant
                i <= 9,
                out@ == empty_upto(self.cells@, i as int),
                forall|k: int| 0 <= k < out@.len() ==> (#[trigger] out@[k]).0 < i,
                forall|a: int, b: int| 0 <= a < b < out@.len() ==> (#[trigger] out@[a]).0 < (#[trigger] out@[b]).0,
            decreases 9 - i,
        {
            if self.cells[i] == 0 {
                out.push(Cell(i));
            }
            i = i + 1;
        }
        proof {
            if out@.len() == 0 {
                lemma_no_empty_cell(self.cells@, 9);
            }
        }
        out
    }

    fn feature_indices(&self) -> (r: Vec<usize>) {
        let m: u8 = if self.first_to_move {
            1
        } else {
            2
        };
        let mut out: Vec<usize> = Vec::new();
        let mut i: usize = 0;
        while i < 9
            invariant
                i <= 9,
                m == mark_of(self.first_to_move),
                out@ == own_upto(self.cells@, m, i as int),
                forall|k: int| 0 <= k < out@.len() ==> (#[trigger] out@[k]) < i,
                forall|a: int, b: int| 0 <= a < b < out@.len() ==> (#[trigger] out@[a]) < (#[trigger] out@[b]),
            decreases 9 - i,
        {
            if self.cells[i] == m {
                out.push(i);
            }
            i = i + 1;
        }
        let ghost own = out@;
        let mut j: usize = 0;
        while j < 9
            invariant
                j <= 9,
                m == mark_of(self.first_to_move),
                own == own_upto(self.cells@, m, 9),
                forall|k: int| 0 <= k < own.len() ==> (#[trigger] own[k]) < 9,
                out@ == own + other_upto(self.cells@, m, j as int),
                forall|k: int| 0 <= k < out@.len() ==> (#[trigger] out@[k]) < 9 + j,
                forall|a: int, b: int| 0 <= a < b < out@.len() ==> (#[trigger] out@[a]) < (#[trigger] out@[b]),
            decreases 9 - j,
        {
            if self.cells[j] != 0 && self.cells[j] != m {
                let ghost before = out@;
                out.push(9 + j);
                assert(own + other_upto(self.cells@, m, j + 1) =~= before.push((9 + j) as usize));
                assert forall|k: int| 0 <= k < before.len() implies before[k] < 9 + j by {}
            }
            j = j + 1;
        }
        assert forall|a: int, b: int| 0 <= a < out@.len() && 0 <= b < out@.len() && a != b implies out@[a] != out@[b] by {
            if a < b {
                assert(out@[a] < out@[b]);
            } else {
                assert(out@[b] < out@[a]);
            }
        }
        out
    }

    fn same_move(a: &Cell, b: &Cell) -> (r: bool) {
        a.0 == b.0
    }
}

} // verus!
