//! The position model: an 8x8 occupancy grid, legality filtering on top
//! of geometric move generation, move execution, and game status.

use vstd::prelude::*;
use crate::moves::{available_moves, lemma_candidate_aligned, spec_candidate};
use crate::pieces::{empty_occ, Color, ColorPiece, Piece};
use crate::square::{lemma_square_at, lemma_square_eq, Square};

verus! {

broadcast use vstd::seq_lib::lemma_seq_contains_after_push;

/// A move: the square a piece leaves and the square it goes to.
pub type Move = (Square, Square);

/// Whether the game is still running or one side has taken the other's
/// king.
#[derive(Clone, Copy, Debug, PartialEq, Eq, Structural)]
pub enum GameStatus {
    InPlay,
    Finished(Color),
}

/// The back rank index of a side: 0 for White, 7 for Black.
pub open spec fn back_rank(c: Color) -> int {
    match c {
        Color::White => 0,
        Color::Black => 7,
    }
}

/// The pawn rank index of a side: 1 for White, 6 for Black.
pub open spec fn pawn_rank(c: Color) -> int {
    match c {
        Color::White => 1,
        Color::Black => 6,
    }
}

/// The occupant of the standard starting position at file index `i` and
/// rank index `j`.
pub open spec fn start_occ(i: int, j: int) -> ColorPiece {
    if j == 1 {
        (Color::White, Piece::Pawn)
    } else if j == 6 {
        (Color::Black, Piece::Pawn)
    } else if j == 0 || j == 7 {
        let c = if j == 0 {
            Color::White
        } else {
            Color::Black
        };
        if i == 0 || i == 7 {
            (c, Piece::Rook)
        } else if i == 1 || i == 6 {
            (c, Piece::Knight)
        } else if i == 2 || i == 5 {
            (c, Piece::Bishop)
        } else if i == 3 {
            (c, Piece::Queen)
        } else {
            (c, Piece::King)
        }
    } else {
        empty_occ()
    }
}

/// The 8x8 grid of occupants, indexed by file index then rank index.
/// A board is a plain value: copying it copies the whole grid.
#[derive(Clone, Copy, Debug)]
pub struct Board {
    pub squares: [[ColorPiece; 8]; 8],
}

impl Board {
    /// The occupant at file index `i` and rank index `j`.
    pub open spec fn spec_at(self, i: int, j: int) -> ColorPiece {
        self.squares[i]@[j]
    }

    /// The occupant on a square.
    pub open spec fn spec_get(self, s: Square) -> ColorPiece {
        self.spec_at(s.fidx(), s.ridx())
    }

    /// Whether side `c` still has its king on the board.
    pub open spec fn spec_has_king(self, c: Color) -> bool {
        exists|i: int, j: int|
            0 <= i < 8 && 0 <= j < 8 && self.spec_at(i, j) == (c, Piece::King)
    }

    /// The occupant grid after moving the occupant of `from` to `to`:
    /// `to` takes the old occupant of `from`, `from` becomes empty, and
    /// every other square keeps its occupant. When `from` and `to`
    /// coincide the square keeps its occupant.
    pub open spec fn spec_moved_at(self, from: Square, to: Square, i: int, j: int) -> ColorPiece {
        if i == to.fidx() && j == to.ridx() {
            self.spec_get(from)
        } else if i == from.fidx() && j == from.ridx() {
            empty_occ()
        } else {
            self.spec_at(i, j)
        }
    }

    /// Returns the occupant of a square.
    pub fn get(&self, square: &Square) -> (r: ColorPiece)
        requires
            square.wf(),
        ensures
            r == self.spec_get(*square),
    {
        let (i, j) = square.indexes();
        self.squares[i][j]
    }

    /// Puts `piece` on `square`, replacing what was there.
    pub fn set(&mut self, square: Square, piece: ColorPiece)
        requires
            square.wf(),
        ensures
            forall|i: int, j: int|
                0 <= i < 8 && 0 <= j < 8 ==> final(self).spec_at(i, j) == (if i == square.fidx()
                    && j == square.ridx() {
                    piece
                } else {
                    old(self).spec_at(i, j)
                }),
    {
        let (i, j) = square.indexes();
        let mut row = self.squares[i];
        row[j] = piece;
        self.squares[i] = row;
    }

    /// Returns the board after moving the occupant of `from` onto `to`,
    /// leaving `from` empty. No legality check is made here; callers
    /// must only hand in moves that passed the legality filter.
    pub fn exec_move(&self, from: &Square, to: &Square) -> (r: Board)
        requires
            from.wf(),
            to.wf(),
        ensures
            forall|i: int, j: int|
                0 <= i < 8 && 0 <= j < 8 ==> r.spec_at(i, j) == self.spec_moved_at(
                    *from,
                    *to,
                    i,
                    j,
                ),
    {
        let mut new_state = *self;
        let from_piece = self.get(from);
        new_state.set(*from, (Color::White, Piece::Empty));
        new_state.set(*to, from_piece);
        new_state
    }

    /// Builds the standard starting position.
    pub fn new() -> (r: Board)
        ensures
            forall|i: int, j: int|
                0 <= i < 8 && 0 <= j < 8 ==> #[trigger] r.spec_at(i, j) == start_occ(i, j),
    {
        let mut board = Board {
            squares: [[(Color::White, Piece::Empty); 8]; 8],
        };
        board.add_bishops(&Color::Black);
        board.add_pawns(&Color::Black);
        board.add_king(&Color::Black);
        board.add_knights(&Color::Black);
        board.add_queen(&Color::Black);
        board.add_rooks(&Color::Black);
        board.add_bishops(&Color::White);
        board.add_pawns(&Color::White);
        board.add_king(&Color::White);
        board.add_knights(&Color::White);
        board.add_queen(&Color::White);
        board.add_rooks(&Color::White);
        board
    }

    /// Puts the two bishops of a side on their starting squares.
    pub fn add_bishops(&mut self, color: &Color)
        ensures
            forall|i: int, j: int|
                0 <= i < 8 && 0 <= j < 8 ==> final(self).spec_at(i, j) == (if j == back_rank(
                    *color,
                ) && (i == 2 || i == 5) {
                    (*color, Piece::Bishop)
                } else {
                    old(self).spec_at(i, j)
                }),
    {
        match *color {
            Color::Black => {
                self.set(Square::new('c', 8), (Color::Black, Piece::Bishop));
                self.set(Square::new('f', 8), (Color::Black, Piece::Bishop));
            },
            Color::White => {
                self.set(Square::new('c', 1), (Color::White, Piece::Bishop));
                self.set(Square::new('f', 1), (Color::White, Piece::Bishop));
            },
        }
    }

    /// Puts the king of a side on its starting square.
    pub fn add_king(&mut self, color: &Color)
        ensures
            forall|i: int, j: int|
                0 <= i < 8 && 0 <= j < 8 ==> final(self).spec_at(i, j) == (if j == back_rank(
                    *color,
                ) && i == 4 {
                    (*color, Piece::King)
                } else {
                    old(self).spec_at(i, j)
                }),
    {
        match *color {
            Color::Black => {
                self.set(Square::new('e', 8), (Color::Black, Piece::King));
            },
            Color::White => {
                self.set(Square::new('e', 1), (Color::White, Piece::King));
            },
        }
    }

    /// Puts the two knights of a side on their starting squares.
    pub fn add_knights(&mut self, color: &Color)
        ensures
            forall|i: int, j: int|
                0 <= i < 8 && 0 <= j < 8 ==> final(self).spec_at(i, j) == (if j == back_rank(
                    *color,
                ) && (i == 1 || i == 6) {
                    (*color, Piece::Knight)
                } else {
                    old(self).spec_at(i, j)
                }),
    {
        match *color {
            Color::Black => {
                self.set(Square::new('b', 8), (Color::Black, Piece::Knight));
                self.set(Square::new('g', 8), (Color::Black, Piece::Knight));
            },
            Color::White => {
                self.set(Square::new('b', 1), (Color::White, Piece::Knight));
                self.set(Square::new('g', 1), (Color::White, Piece::Knight));
            },
        }
    }

    /// Fills the pawn rank of a side.
    pub fn add_pawns(&mut self, color: &Color)
        ensures
            forall|i: int, j: int|
                0 <= i < 8 && 0 <= j < 8 ==> final(self).spec_at(i, j) == (if j == pawn_rank(
                    *color,
                ) {
                    (*color, Piece::Pawn)
                } else {
                    old(self).spec_at(i, j)
                }),
    {
        let j: usize = match *color {
            Color::Black => 6,
            Color::White => 1,
        };
        let c = *color;
        let mut fi: usize = 0;
        while fi < 8
            invariant
                j == pawn_rank(c),
                fi <= 8,
                forall|i2: int, j2: int|
                    0 <= i2 < 8 && 0 <= j2 < 8 ==> self.spec_at(i2, j2) == (if j2 == pawn_rank(c)
                        && i2 < fi {
                        (c, Piece::Pawn)
                    } else {
                        old(self).spec_at(i2, j2)
                    }),
            decreases 8 - fi,
        {
            let sq = Square::from_indexes(fi, j);
            self.set(sq, (c, Piece::Pawn));
            fi = fi + 1;
        }
    }

    /// Puts the queen of a side on its starting square.
    pub fn add_queen(&mut self, color: &Color)
        ensures
            forall|i: int, j: int|
                0 <= i < 8 && 0 <= j < 8 ==> final(self).spec_at(i, j) == (if j == back_rank(
                    *color,
                ) && i == 3 {
                    (*color, Piece::Queen)
                } else {
                    old(self).spec_at(i, j)
                }),
    {
        match *color {
            Color::Black => {
                self.set(Square::new('d', 8), (Color::Black, Piece::Queen));
            },
            Color::White => {
                self.set(Square::new('d', 1), (Color::White, Piece::Queen));
            },
        }
    }

    /// Puts the two rooks of a side on their starting squares.
    pub fn add_rooks(&mut self, color: &Color)
        ensures
            forall|i: int, j: int|
                0 <= i < 8 && 0 <= j < 8 ==> final(self).spec_at(i, j) == (if j == back_rank(
                    *color,
                ) && (i == 0 || i == 7) {
                    (*color, Piece::Rook)
                } else {
                    old(self).spec_at(i, j)
                }),
    {
        match *color {
            Color::Black => {
                self.set(Square::new('a', 8), (Color::Black, Piece::Rook));
                self.set(Square::new('h', 8), (Color::Black, Piece::Rook));
            },
            Color::White => {
                self.set(Square::new('a', 1), (Color::White, Piece::Rook));
                self.set(Square::new('h', 1), (Color::White, Piece::Rook));
            },
        }
    }
}

impl Board {
    /// The material of side `c` in column `i`, over rank indexes below
    /// `j`.
    pub open spec fn col_material(self, c: Color, i: int, j: int) -> int
        decreases j,
    {
        if j <= 0 {
            0
        } else {
            self.col_material(c, i, j - 1) + (if self.spec_at(i, j - 1).0 == c {
                self.spec_at(i, j - 1).1.spec_value() as int
            } else {
                0
            })
        }
    }

    /// The material of side `c` over the columns below `i`.
    pub open spec fn material_upto(self, c: Color, i: int) -> int
        decreases i,
    {
        if i <= 0 {
            0
        } else {
            self.material_upto(c, i - 1) + self.col_material(c, i - 1, 8)
        }
    }

    /// The total material of side `c`: the sum of the values of its
    /// pieces on the board.
    pub open spec fn spec_material(self, c: Color) -> int {
        self.material_upto(c, 8)
    }

    /// The status of the position: in play while both kings stand, else
    /// won by the side whose king remains.
    pub open spec fn spec_status(self) -> GameStatus {
        if self.spec_has_king(Color::White) && self.spec_has_king(Color::Black) {
            GameStatus::InPlay
        } else if self.spec_has_king(Color::White) {
            GameStatus::Finished(Color::White)
        } else {
            GameStatus::Finished(Color::Black)
        }
    }

    /// The score pair (White total, Black total): the decisive pair 100
    /// against 0 once the game is finished, otherwise the material sums.
    pub open spec fn spec_score(self) -> (int, int) {
        match self.spec_status() {
            GameStatus::InPlay => (self.spec_material(Color::White), self.spec_material(
                Color::Black,
            )),
            GameStatus::Finished(Color::White) => (100, 0),
            GameStatus::Finished(Color::Black) => (0, 100),
        }
    }

    /// Classifies the position by scanning every square for kings. A
    /// board with no king at all is a corrupted model and is excluded
    /// by the precondition.
    pub fn status(&self) -> (r: GameStatus)
        requires
            self.spec_has_king(Color::White) || self.spec_has_king(Color::Black),
        ensures
            r == self.spec_status(),
    {
        let mut wk = false;
        let mut bk = false;
        let mut i: usize = 0;
        while i < 8
            invariant
                i <= 8,
                wk <==> (exists|a: int, b2: int|
                    0 <= a < i && 0 <= b2 < 8 && self.spec_at(a, b2) == (Color::White, Piece::King)),
                bk <==> (exists|a: int, b2: int|
                    0 <= a < i && 0 <= b2 < 8 && self.spec_at(a, b2) == (Color::Black, Piece::King)),
            decreases 8 - i,
        {
            let mut j: usize = 0;
            while j < 8
                invariant
                    i < 8,
                    j <= 8,
                    wk <==> ((exists|a: int, b2: int|
                        0 <= a < i && 0 <= b2 < 8 && self.spec_at(a, b2) == (
                            Color::White,
                            Piece::King,
                        )) || (exists|b2: int|
                        0 <= b2 < j && self.spec_at(i as int, b2) == (Color::White, Piece::King))),
                    bk <==> ((exists|a: int, b2: int|
                        0 <= a < i && 0 <= b2 < 8 && self.spec_at(a, b2) == (
                            Color::Black,
                            Piece::King,
                        )) || (exists|b2: int|
                        0 <= b2 < j && self.spec_at(i as int, b2) == (Color::Black, Piece::King))),
                decreases 8 - j,
            {
                let occ = self.squares[i][j];
                if occ.1 == Piece::King {
                    match occ.0 {
                        Color::White => {
                            wk = true;
                        },
                        Color::Black => {
                            bk = true;
                        },
                    }
                }
                proof {
                    lemma_scan_step(*self, i as int, j as int, Color::White);
                    lemma_scan_step(*self, i as int, j as int, Color::Black);
                }
                j = j + 1;
            }
            proof {
                lemma_scan_col_done(*self, i as int, Color::White);
                lemma_scan_col_done(*self, i as int, Color::Black);
            }
            i = i + 1;
        }
        if wk && bk {
            GameStatus::InPlay
        } else if wk {
            GameStatus::Finished(Color::White)
        } else {
            GameStatus::Finished(Color::Black)
        }
    }

    /// Returns the score pair (White total, Black total).
    pub fn score(&self) -> (r: (u32, u32))
        requires
            self.spec_has_king(Color::White) || self.spec_has_king(Color::Black),
        ensures
            r.0 == self.spec_score().0,
            r.1 == self.spec_score().1,
    {
        match self.status() {
            GameStatus::Finished(c) => {
                match c {
                    Color::Black => (0, 100),
                    Color::White => (100, 0),
                }
            },
            GameStatus::InPlay => {
                let mut w: u32 = 0;
                let mut b: u32 = 0;
                let mut i: usize = 0;
                while i < 8
                    invariant
                        i <= 8,
                        w == self.material_upto(Color::White, i as int),
                        b == self.material_upto(Color::Black, i as int),
                        w <= 72 * i,
                        b <= 72 * i,
                    decreases 8 - i,
                {
                    let mut j: usize = 0;
                    while j < 8
                        invariant
                            i < 8,
                            j <= 8,
                            w == self.material_upto(Color::White, i as int) + self.col_material(
                                Color::White,
                                i as int,
                                j as int,
                            ),
                            b == self.material_upto(Color::Black, i as int) + self.col_material(
                                Color::Black,
                                i as int,
                                j as int,
                            ),
                            w <= 72 * i + 9 * j,
                            b <= 72 * i + 9 * j,
                        decreases 8 - j,
                    {
                        let occ = self.squares[i][j];
                        let v = occ.1.value();
                        match occ.0 {
                            Color::White => {
                                w = w + v as u32;
                            },
                            Color::Black => {
                                b = b + v as u32;
                            },
                        }
                        j = j + 1;
                    }
                    i = i + 1;
                }
                (w, b)
            },
        }
    }

    /// Whether every square strictly between `from` and `to` is empty.
    pub open spec fn spec_clear_between(self, from: Square, to: Square) -> bool {
        forall|k: int|
            0 <= k < from.spec_between(to).len() ==> (#[trigger] self.spec_get(
                from.spec_between(to)[k],
            )).1 == Piece::Empty
    }

    /// The legality filter on a geometric candidate move: no capture of
    /// one's own piece, pawns capture only diagonally and advance only
    /// onto empty squares, and every piece but the knight is blocked by
    /// any occupant strictly between origin and destination.
    pub open spec fn spec_is_legal(self, from: Square, to: Square) -> bool {
        let fo = self.spec_get(from);
        let t = self.spec_get(to);
        &&& !(fo.0 == t.0 && t.1 != Piece::Empty)
        &&& (fo.1 == Piece::Pawn ==> !(from.file == to.file && t.1 != Piece::Empty) && !(
        from.file != to.file && t.1 == Piece::Empty))
        &&& (fo.1 == Piece::Knight || self.spec_clear_between(from, to))
    }

    /// A legal move of side `c`: a geometric candidate of one of its
    /// occupants that passes the legality filter.
    pub open spec fn spec_legal_move(self, c: Color, m: Move) -> bool {
        &&& m.0.wf()
        &&& m.1.wf()
        &&& self.spec_get(m.0).0 == c
        &&& spec_candidate(m.0, self.spec_get(m.0), m.1)
        &&& self.spec_is_legal(m.0, m.1)
    }

    /// Applies the legality filter to one candidate move. For any piece
    /// but the knight the two squares must be aligned, as every
    /// candidate of those pieces is.
    pub fn is_legal(&self, from: &Square, to: &Square) -> (r: bool)
        requires
            from.wf(),
            to.wf(),
            self.spec_get(*from).1 == Piece::Knight || from.aligned(*to),
        ensures
            r == self.spec_is_legal(*from, *to),
    {
        let (from_color, from_piece) = self.get(from);
        let (to_color, to_piece) = self.get(to);
        if from_color == to_color && to_piece != Piece::Empty {
            return false;
        }
        if from_piece == Piece::Pawn {
            if from.file == to.file && to_piece != Piece::Empty {
                return false;
            }
            if from.file != to.file && to_piece == Piece::Empty {
                return false;
            }
        }
        if from_piece != Piece::Knight {
            proof {
                crate::square::lemma_between_all_wf(*from, *to);
            }
            let in_between = from.in_between(to);
            let mut k: usize = 0;
            while k < in_between.len()
                invariant
                    from.wf(),
                    to.wf(),
                    self.spec_get(*from).1 != Piece::Knight,
                    self.spec_is_legal(*from, *to) == self.spec_clear_between(*from, *to),
                    in_between@ == from.spec_between(*to),
                    forall|k2: int| 0 <= k2 < in_between@.len() ==> (#[trigger] in_between@[k2]).wf(),
                    k <= in_between@.len(),
                    forall|k2: int|
                        0 <= k2 < k ==> (#[trigger] self.spec_get(in_between@[k2])).1
                            == Piece::Empty,
                decreases in_between@.len() - k,
            {
                let sq = in_between[k];
                let occ = self.get(&sq);
                if occ.1 != Piece::Empty {
                    proof {
                        assert(from.spec_between(*to)[k as int] == sq);
                        assert((self.spec_get(from.spec_between(*to)[k as int])).1
                            != Piece::Empty);
                        assert(!self.spec_clear_between(*from, *to));
                    }
                    return false;
                }
                k = k + 1;
            }
        }
        true
    }

    /// Every legal move of side `c`: for each square whose occupant is
    /// of that side, the geometric candidates that pass the legality
    /// filter. The order of the result is unspecified.
    pub fn legal_moves(&self, color: Color) -> (r: Vec<Move>)
        ensures
            forall|m: Move| #[trigger] r@.contains(m) <==> self.spec_legal_move(color, m),
            r@.no_duplicates(),
    {
        let mut out: Vec<Move> = Vec::new();
        let mut i: usize = 0;
        while i < 8
            invariant
                i <= 8,
                out@.no_duplicates(),
                forall|m: Move|
                    #[trigger] out@.contains(m) <==> self.spec_legal_move(color, m) && m.0.fidx()
                        < i,
            decreases 8 - i,
        {
            let mut j: usize = 0;
            while j < 8
                invariant
                    i < 8,
                    j <= 8,
                    out@.no_duplicates(),
                    forall|m: Move|
                        #[trigger] out@.contains(m) <==> self.spec_legal_move(color, m) && (
                        m.0.fidx() < i || (m.0.fidx() == i && m.0.ridx() < j)),
                decreases 8 - j,
            {
                let sq = Square::from_indexes(i, j);
                let occ = self.squares[i][j];
                if occ.0 == color {
                    let cands = available_moves(&sq, &occ);
                    let mut k: usize = 0;
                    while k < cands.len()
                        invariant
                            i < 8,
                            j < 8,
                            sq == crate::square::square_at(i as int, j as int),
                            sq.wf(),
                            sq.fidx() == i,
                            sq.ridx() == j,
                            occ == self.spec_get(sq),
                            occ.0 == color,
                            k <= cands@.len(),
                            out@.no_duplicates(),
                            cands@.no_duplicates(),
                            forall|d: Square|
                                #[trigger] cands@.contains(d) <==> spec_candidate(sq, occ, d),
                            forall|m: Move|
                                #[trigger] out@.contains(m) <==> self.spec_legal_move(color, m)
                                    && (m.0.fidx() < i || (m.0.fidx() == i && m.0.ridx() < j) || (
                                m.0 == sq && (exists|k2: int|
                                    0 <= k2 < k && cands@[k2] == m.1))),
                        decreases cands@.len() - k,
                    {
                        let d = cands[k];
                        proof {
                            assert(cands@.contains(cands@[k as int]));
                            if occ.1 != Piece::Knight {
                                lemma_candidate_aligned(sq, occ, d);
                            }
                        }
                        if self.is_legal(&sq, &d) {
                            let ghost pre_push = out@;
                            out.push((sq, d));
                            proof {
                                if pre_push.contains((sq, d)) {
                                    let k2 = choose|k2: int|
                                        0 <= k2 < k && cands@[k2] == (sq, d).1;
                                    assert(cands@[k2] == cands@[k as int]);
                                }
                                crate::moves::lemma_no_dup_push(pre_push, (sq, d));
                            }
                        }
                        proof {
                            assert forall|m: Move|
                                self.spec_legal_move(color, m) && m.0 == sq && (exists|k2: int|
                                    0 <= k2 < k + 1 && cands@[k2] == m.1) && !(exists|k2: int|
                                    0 <= k2 < k && cands@[k2] == m.1) implies m.1 == cands@[
                                k as int] by {
                                let k2 = choose|k2: int| 0 <= k2 < k + 1 && cands@[k2] == m.1;
                                assert(k2 == k);
                            }
                        }
                        k = k + 1;
                    }
                    proof {
                        assert forall|m: Move|
                            self.spec_legal_move(color, m) && (m.0.fidx() == i && m.0.ridx()
                                == j) implies m.0 == sq by {
                            lemma_square_eq(m.0, sq);
                        }
                        assert forall|m: Move|
                            self.spec_legal_move(color, m) && m.0 == sq implies cands@.contains(
                            m.1) by {}
                    }
                } else {
                    proof {
                        assert forall|m: Move|
                            self.spec_legal_move(color, m) && (m.0.fidx() == i && m.0.ridx()
                                == j) implies false by {
                            lemma_square_eq(m.0, sq);
                        }
                    }
                }
                j = j + 1;
            }
            i = i + 1;
        }
        out
    }
}

/// The material of one column is between 0 and 9 per scanned rank.
proof fn lemma_col_material_bounds(b: Board, c: Color, i: int, j: int)
    requires
        0 <= j <= 8,
    ensures
        0 <= b.col_material(c, i, j) <= 9 * j,
    decreases j,
{
    if j > 0 {
        lemma_col_material_bounds(b, c, i, j - 1);
    }
}

/// The material of a side is between 0 and 72 per scanned column, so
/// at most 576 over the whole board.
pub proof fn lemma_material_bounds(b: Board, c: Color)
    ensures
        0 <= b.spec_material(c) <= 576,
{
    lemma_material_upto_bounds(b, c, 8);
}

/// The material over the first `i` columns is between 0 and 72 each.
proof fn lemma_material_upto_bounds(b: Board, c: Color, i: int)
    requires
        0 <= i <= 8,
    ensures
        0 <= b.material_upto(c, i) <= 72 * i,
    decreases i,
{
    if i > 0 {
        lemma_material_upto_bounds(b, c, i - 1);
        lemma_col_material_bounds(b, c, i - 1, 8);
    }
}

/// One scanned cell extends the scanned region of the king search by
/// one square.
proof fn lemma_scan_step(b: Board, i: int, j: int, c: Color)
    requires
        0 <= i < 8,
        0 <= j < 8,
    ensures
        ((exists|b2: int| 0 <= b2 < j + 1 && b.spec_at(i, b2) == (c, Piece::King)) <==> ((exists|
            b2: int|
            0 <= b2 < j && b.spec_at(i, b2) == (c, Piece::King)) || b.spec_at(i, j) == (
        c,
        Piece::King,
        ))),
{
    if exists|b2: int| 0 <= b2 < j + 1 && b.spec_at(i, b2) == (c, Piece::King) {
        let b2 = choose|b2: int| 0 <= b2 < j + 1 && b.spec_at(i, b2) == (c, Piece::King);
        if b2 < j {
            assert(exists|b3: int| 0 <= b3 < j && b.spec_at(i, b3) == (c, Piece::King));
        }
    }
}

/// A fully scanned column folds into the scanned-columns region of the
/// king search.
proof fn lemma_scan_col_done(b: Board, i: int, c: Color)
    requires
        0 <= i < 8,
    ensures
        ((exists|a: int, b2: int| 0 <= a < i + 1 && 0 <= b2 < 8 && b.spec_at(a, b2) == (
            c,
            Piece::King,
        )) <==> ((exists|a: int, b2: int|
            0 <= a < i && 0 <= b2 < 8 && b.spec_at(a, b2) == (c, Piece::King)) || (exists|b2: int|
            0 <= b2 < 8 && b.spec_at(i, b2) == (c, Piece::King)))),
{
    if exists|a: int, b2: int| 0 <= a < i + 1 && 0 <= b2 < 8 && b.spec_at(a, b2) == (
        c,
        Piece::King,
    ) {
        let (a, b2) = choose|a: int, b2: int|
            0 <= a < i + 1 && 0 <= b2 < 8 && b.spec_at(a, b2) == (c, Piece::King);
        if a < i {
            assert(exists|a3: int, b3: int|
                0 <= a3 < i && 0 <= b3 < 8 && b.spec_at(a3, b3) == (c, Piece::King));
        } else {
            assert(exists|b3: int| 0 <= b3 < 8 && b.spec_at(i, b3) == (c, Piece::King));
        }
    }
}

/// Executing a move on a position where both kings stand leaves at
/// least one king on the board.
pub proof fn lemma_move_keeps_a_king(b: Board, nb: Board, from: Square, to: Square)
    requires
        from.wf(),
        to.wf(),
        b.spec_has_king(Color::White),
        b.spec_has_king(Color::Black),
        forall|i: int, j: int|
            0 <= i < 8 && 0 <= j < 8 ==> nb.spec_at(i, j) == b.spec_moved_at(from, to, i, j),
    ensures
        nb.spec_has_king(Color::White) || nb.spec_has_king(Color::Black),
{
    let (wi, wj) = choose|wi: int, wj: int|
        0 <= wi < 8 && 0 <= wj < 8 && b.spec_at(wi, wj) == (Color::White, Piece::King);
    let (bi, bj) = choose|bi: int, bj: int|
        0 <= bi < 8 && 0 <= bj < 8 && b.spec_at(bi, bj) == (Color::Black, Piece::King);
    let ti = to.fidx();
    let tj = to.ridx();
    let fi = from.fidx();
    let fj = from.ridx();
    if wi == ti && wj == tj {
        if bi == fi && bj == fj {
            assert(nb.spec_at(ti, tj) == (Color::Black, Piece::King));
        } else {
            assert(nb.spec_at(bi, bj) == (Color::Black, Piece::King));
        }
    } else if wi == fi && wj == fj {
        assert(nb.spec_at(ti, tj) == (Color::White, Piece::King));
    } else {
        assert(nb.spec_at(wi, wj) == (Color::White, Piece::King));
    }
}

/// Moving a piece onto a canonically empty square and then moving it
/// back restores the original occupancy of every square.
pub proof fn lemma_exec_move_round_trip(b: Board, b1: Board, b2: Board, from: Square, to: Square)
    requires
        from.wf(),
        to.wf(),
        b.spec_get(to) == empty_occ(),
        forall|i: int, j: int|
            0 <= i < 8 && 0 <= j < 8 ==> b1.spec_at(i, j) == b.spec_moved_at(from, to, i, j),
        forall|i: int, j: int|
            0 <= i < 8 && 0 <= j < 8 ==> b2.spec_at(i, j) == b1.spec_moved_at(to, from, i, j),
    ensures
        forall|i: int, j: int| 0 <= i < 8 && 0 <= j < 8 ==> b2.spec_at(i, j) == b.spec_at(i, j),
{
}

} // verus!
