//! Board geometry: squares, neighbor queries, and the open interval of
//! squares strictly between two aligned squares.

use vstd::prelude::*;

verus! {

/// Absolute value of a mathematical integer.
pub open spec fn iabs(x: int) -> int {
    if x < 0 {
        -x
    } else {
        x
    }
}

/// Sign of a mathematical integer: -1, 0 or 1.
pub open spec fn isgn(x: int) -> int {
    if x > 0 {
        1
    } else if x < 0 {
        -1
    } else {
        0
    }
}

/// The larger of two mathematical integers.
pub open spec fn imax(x: int, y: int) -> int {
    if x < y {
        y
    } else {
        x
    }
}

/// The file index (0 to 7) of a file letter, or 8 for any other character.
pub open spec fn spec_file_index(c: char) -> int {
    if c == 'a' {
        0
    } else if c == 'b' {
        1
    } else if c == 'c' {
        2
    } else if c == 'd' {
        3
    } else if c == 'e' {
        4
    } else if c == 'f' {
        5
    } else if c == 'g' {
        6
    } else if c == 'h' {
        7
    } else {
        8
    }
}

/// The file letter of a file index from 0 to 7.
pub open spec fn spec_file_of(i: int) -> char {
    if i == 0 {
        'a'
    } else if i == 1 {
        'b'
    } else if i == 2 {
        'c'
    } else if i == 3 {
        'd'
    } else if i == 4 {
        'e'
    } else if i == 5 {
        'f'
    } else if i == 6 {
        'g'
    } else {
        'h'
    }
}

/// The digit character of a rank from 1 to 8.
pub open spec fn rank_digit(r: u8) -> char {
    if r == 1 {
        '1'
    } else if r == 2 {
        '2'
    } else if r == 3 {
        '3'
    } else if r == 4 {
        '4'
    } else if r == 5 {
        '5'
    } else if r == 6 {
        '6'
    } else if r == 7 {
        '7'
    } else {
        '8'
    }
}

/// A board coordinate: a file in 'a' to 'h' and a rank in 1 to 8.
#[derive(Clone, Copy, Debug, Hash, PartialEq, Eq, Structural)]
pub struct Square {
    pub file: char,
    pub rank: u8,
}

/// The square with file index `i` and rank index `j` (both 0 to 7).
pub open spec fn square_at(i: int, j: int) -> Square {
    Square { file: spec_file_of(i), rank: (j + 1) as u8 }
}

/// For indexes in range, `square_at` yields a well-formed square whose
/// indexes are the given ones.
pub proof fn lemma_square_at(i: int, j: int)
    requires
        0 <= i < 8,
        0 <= j < 8,
    ensures
        square_at(i, j).wf(),
        square_at(i, j).fidx() == i,
        square_at(i, j).ridx() == j,
{
}

/// Two well-formed squares with the same indexes are the same square.
pub proof fn lemma_square_eq(a: Square, b: Square)
    requires
        a.wf(),
        b.wf(),
        a.fidx() == b.fidx(),
        a.ridx() == b.ridx(),
    ensures
        a == b,
{
}

impl Square {
    /// The file index, 0 for 'a' through 7 for 'h'.
    pub open spec fn fidx(self) -> int {
        spec_file_index(self.file)
    }

    /// The rank index, 0 for rank 1 through 7 for rank 8.
    pub open spec fn ridx(self) -> int {
        self.rank - 1
    }

    /// A square is well formed when its file and rank are on the board.
    pub open spec fn wf(self) -> bool {
        spec_file_index(self.file) < 8 && 1 <= self.rank <= 8
    }

    /// The square offset by the given index deltas, if it stays on the
    /// board.
    pub open spec fn spec_neighboor(self, di: int, dj: int) -> Option<Square> {
        if 0 <= self.fidx() + di < 8 && 0 <= self.ridx() + dj < 8 {
            Some(square_at(self.fidx() + di, self.ridx() + dj))
        } else {
            None
        }
    }

    /// Whether the two squares lie on a common file, rank or diagonal.
    pub open spec fn aligned(self, other: Square) -> bool {
        let di = other.fidx() - self.fidx();
        let dj = other.ridx() - self.ridx();
        di == 0 || dj == 0 || iabs(di) == iabs(dj)
    }

    /// The number of king steps from `self` to `other` along their
    /// common line.
    pub open spec fn spec_gap(self, other: Square) -> int {
        imax(
            iabs(other.fidx() - self.fidx()),
            iabs(other.ridx() - self.ridx()),
        )
    }

    /// The open interval of squares strictly between `self` and `other`,
    /// walking from `self` towards `other`.
    pub open spec fn spec_between(self, other: Square) -> Seq<Square> {
        let dx = isgn(other.fidx() - self.fidx());
        let dy = isgn(other.ridx() - self.ridx());
        let g = self.spec_gap(other);
        if g <= 1 {
            Seq::empty()
        } else {
            Seq::new((g - 1) as nat, |k: int| (square_at(
                self.fidx() + (k + 1) * dx,
                self.ridx() + (k + 1) * dy,
            )))
        }
    }

    /// Builds the square with the given file letter and rank number.
    pub fn new(file: char, rank: u8) -> (r: Self)
        requires
            spec_file_index(file) < 8,
            1 <= rank <= 8,
        ensures
            r == (Square { file, rank }),
            r.wf(),
    {
        Square { file, rank }
    }

    /// Builds the square with the given file and rank indexes.
    pub fn from_indexes(i: usize, j: usize) -> (r: Self)
        requires
            i < 8,
            j < 8,
        ensures
            r == square_at(i as int, j as int),
            r.wf(),
            r.fidx() == i,
            r.ridx() == j,
    {
        proof {
            lemma_square_at(i as int, j as int);
        }
        let file: char = if i == 0 {
            'a'
        } else if i == 1 {
            'b'
        } else if i == 2 {
            'c'
        } else if i == 3 {
            'd'
        } else if i == 4 {
            'e'
        } else if i == 5 {
            'f'
        } else if i == 6 {
            'g'
        } else {
            'h'
        };
        Square { file, rank: (j + 1) as u8 }
    }

    /// Returns the file and rank indexes of the square.
    pub fn indexes(&self) -> (r: (usize, usize))
        requires
            self.wf(),
        ensures
            r.0 == self.fidx(),
            r.1 == self.ridx(),
    {
        let i: usize = if self.file == 'a' {
            0
        } else if self.file == 'b' {
            1
        } else if self.file == 'c' {
            2
        } else if self.file == 'd' {
            3
        } else if self.file == 'e' {
            4
        } else if self.file == 'f' {
            5
        } else if self.file == 'g' {
            6
        } else {
            7
        };
        (i, (self.rank - 1) as usize)
    }

    /// The square offset by the given deltas, or `None` when the offset
    /// leaves the board. Every square returned is on the board.
    pub fn neighboor(&self, i_delta: isize, j_delta: isize) -> (r: Option<Square>)
        requires
            self.wf(),
        ensures
            r == self.spec_neighboor(i_delta as int, j_delta as int),
            r matches Some(s) ==> s.wf(),
    {
        proof {
            if 0 <= self.fidx() + i_delta < 8 && 0 <= self.ridx() + j_delta < 8 {
                lemma_square_at(self.fidx() + i_delta, self.ridx() + j_delta);
            }
        }
        if i_delta < -7 || i_delta > 7 || j_delta < -7 || j_delta > 7 {
            return None;
        }
        let (i, j) = self.indexes();
        let ni: isize = i as isize + i_delta;
        let nj: isize = j as isize + j_delta;
        if 0 <= ni && ni <= 7 && 0 <= nj && nj <= 7 {
            Some(Square::from_indexes(ni as usize, nj as usize))
        } else {
            None
        }
    }

    /// One square towards the 'a' file.
    pub fn left(&self) -> (r: Option<Square>)
        requires
            self.wf(),
        ensures
            r == self.spec_neighboor(-1, 0),
            r matches Some(s) ==> s.wf(),
    {
        self.neighboor(-1, 0)
    }

    /// One square towards the 'h' file.
    pub fn right(&self) -> (r: Option<Square>)
        requires
            self.wf(),
        ensures
            r == self.spec_neighboor(1, 0),
            r matches Some(s) ==> s.wf(),
    {
        self.neighboor(1, 0)
    }

    /// One square towards rank 8.
    pub fn up(&self) -> (r: Option<Square>)
        requires
            self.wf(),
        ensures
            r == self.spec_neighboor(0, 1),
            r matches Some(s) ==> s.wf(),
    {
        self.neighboor(0, 1)
    }

    /// One square towards rank 1.
    pub fn down(&self) -> (r: Option<Square>)
        requires
            self.wf(),
        ensures
            r == self.spec_neighboor(0, -1),
            r matches Some(s) ==> s.wf(),
    {
        self.neighboor(0, -1)
    }

    /// One square diagonally, towards the 'a' file and rank 8.
    pub fn up_left(&self) -> (r: Option<Square>)
        requires
            self.wf(),
        ensures
            r == self.spec_neighboor(-1, 1),
            r matches Some(s) ==> s.wf(),
    {
        self.neighboor(-1, 1)
    }

    /// One square diagonally, towards the 'h' file and rank 8.
    pub fn up_right(&self) -> (r: Option<Square>)
        requires
            self.wf(),
        ensures
            r == self.spec_neighboor(1, 1),
            r matches Some(s) ==> s.wf(),
    {
        self.neighboor(1, 1)
    }

    /// One square diagonally, towards the 'a' file and rank 1.
    pub fn down_left(&self) -> (r: Option<Square>)
        requires
            self.wf(),
        ensures
            r == self.spec_neighboor(-1, -1),
            r matches Some(s) ==> s.wf(),
    {
        self.neighboor(-1, -1)
    }

    /// One square diagonally, towards the 'h' file and rank 1.
    pub fn down_right(&self) -> (r: Option<Square>)
        requires
            self.wf(),
        ensures
            r == self.spec_neighboor(1, -1),
            r matches Some(s) ==> s.wf(),
    {
        self.neighboor(1, -1)
    }

    /// The coordinate as text: the file letter followed by the rank
    /// digit. Relies on std's `format!` macro: formatting a char and a
    /// one-digit number concatenates exactly those two characters.
    #[verifier::external_body]
    pub fn to_text(&self) -> (r: String)
        requires
            self.wf(),
        ensures
            r@ == seq![self.file, rank_digit(self.rank)],
    {
        format!("{}{}", self.file, self.rank)
    }

    /// The squares strictly between `self` and `other`, in order from
    /// `self` towards `other`. The two squares must share a file, rank
    /// or diagonal; for adjacent or equal squares the result is empty.
    pub fn in_between(&self, other: &Square) -> (r: Vec<Square>)
        requires
            self.wf(),
            other.wf(),
            self.aligned(*other),
        ensures
            r@ == self.spec_between(*other),
    {
        let (si0, sj0) = self.indexes();
        let (oi, oj) = other.indexes();
        let di: isize = oi as isize - si0 as isize;
        let dj: isize = oj as isize - sj0 as isize;
        let adi: isize = if di < 0 {
            -di
        } else {
            di
        };
        let adj: isize = if dj < 0 {
            -dj
        } else {
            dj
        };
        let gap: isize = if adi < adj {
            adj
        } else {
            adi
        };
        let idir: isize = if di > 0 {
            1
        } else if di < 0 {
            -1
        } else {
            0
        };
        let jdir: isize = if dj > 0 {
            1
        } else if dj < 0 {
            -1
        } else {
            0
        };
        let ghost dx = isgn(other.fidx() - self.fidx());
        let ghost dy = isgn(other.ridx() - self.ridx());
        let mut r: Vec<Square> = Vec::new();
        if gap <= 1 {
            proof {
                assert(r@ =~= self.spec_between(*other));
            }
            return r;
        }
        let mut ci: isize = si0 as isize + idir;
        let mut cj: isize = sj0 as isize + jdir;
        let mut k: isize = 1;
        proof {
            assert(r@ =~= self.spec_between(*other).take(0));
        }
        while k < gap
            invariant
                self.wf(),
                other.wf(),
                self.aligned(*other),
                1 <= k <= gap,
                gap == self.spec_gap(*other),
                2 <= gap,
                idir == dx,
                jdir == dy,
                dx == isgn(other.fidx() - self.fidx()),
                dy == isgn(other.ridx() - self.ridx()),
                ci == self.fidx() + k * dx,
                cj == self.ridx() + k * dy,
                r@ == self.spec_between(*other).take(k - 1),
            decreases gap - k,
    {
            proof {
                lemma_between_step(*self, *other, k as int);
            }
            r.push(Square::from_indexes(ci as usize, cj as usize));
            proof {
                let s = self.spec_between(*other);
                assert(r@ =~= s.take(k as int));
                lemma_mul_step(k as int, dx);
                lemma_mul_step(k as int, dy);
            }
            ci = ci + idir;
            cj = cj + jdir;
            k = k + 1;
        }
        proof {
            assert(r@ =~= self.spec_between(*other));
        }
        r
    }
}

/// Distributes a product over an increment of its left factor.
pub proof fn lemma_mul_step(k: int, d: int)
    ensures
        (k + 1) * d == k * d + d,
{
    assert((k + 1) * d == k * d + d) by (nonlinear_arith);
}

/// A product with a factor in {-1, 0, 1} collapses to a copy, a
/// negation or zero.
pub proof fn lemma_mul_cases(k: int, d: int)
    requires
        d == -1 || d == 0 || d == 1,
    ensures
        d == 0 ==> k * d == 0,
        d == 1 ==> k * d == k,
        d == -1 ==> k * d == -k,
{
    assert(d == 0 ==> k * d == 0) by (nonlinear_arith);
    assert(d == 1 ==> k * d == k) by (nonlinear_arith);
    assert(d == -1 ==> k * d == -k) by (nonlinear_arith);
}

/// For an aligned pair, the gap times the sign of each coordinate delta
/// gives back that delta.
pub proof fn lemma_gap_times_sign(a: Square, b: Square)
    requires
        a.aligned(b),
    ensures
        a.spec_gap(b) * isgn(b.fidx() - a.fidx()) == b.fidx() - a.fidx(),
        a.spec_gap(b) * isgn(b.ridx() - a.ridx()) == b.ridx() - a.ridx(),
{
    let g = a.spec_gap(b);
    lemma_mul_cases(g, isgn(b.fidx() - a.fidx()));
    lemma_mul_cases(g, isgn(b.ridx() - a.ridx()));
}

/// For an aligned pair at distance `gap`, the `k`-th step from the start
/// towards the end stays strictly inside the board and is the `k - 1`-th
/// square of the open interval.
proof fn lemma_between_step(a: Square, b: Square, k: int)
    requires
        a.wf(),
        b.wf(),
        a.aligned(b),
        1 <= k < a.spec_gap(b),
    ensures
        0 <= a.fidx() + k * isgn(b.fidx() - a.fidx()) < 8,
        0 <= a.ridx() + k * isgn(b.ridx() - a.ridx()) < 8,
        a.spec_between(b)[k - 1] == square_at(
            a.fidx() + k * isgn(b.fidx() - a.fidx()),
            a.ridx() + k * isgn(b.ridx() - a.ridx()),
        ),
{
    lemma_gap_times_sign(a, b);
    lemma_mul_cases(k, isgn(b.fidx() - a.fidx()));
    lemma_mul_cases(k, isgn(b.ridx() - a.ridx()));
}

/// Every square of the open interval between two aligned squares is on
/// the board.
pub proof fn lemma_between_all_wf(a: Square, b: Square)
    requires
        a.wf(),
        b.wf(),
        a.aligned(b),
    ensures
        forall|k: int| 0 <= k < a.spec_between(b).len() ==> (#[trigger] a.spec_between(b)[k]).wf(),
{
    assert forall|k: int|
        0 <= k < a.spec_between(b).len() implies (#[trigger] a.spec_between(b)[k]).wf() by {
        lemma_between_step(a, b, k + 1);
        lemma_square_at(
            a.fidx() + (k + 1) * isgn(b.fidx() - a.fidx()),
            a.ridx() + (k + 1) * isgn(b.ridx() - a.ridx()),
        );
    }
}

/// The open interval between two aligned squares read from the far end
/// is the same interval in reverse order.
pub proof fn lemma_in_between_symmetry(a: Square, b: Square)
    requires
        a.wf(),
        b.wf(),
        a.aligned(b),
    ensures
        a.spec_between(b) == b.spec_between(a).reverse(),
{
    let g = a.spec_gap(b);
    assert(b.spec_gap(a) == g);
    assert(b.aligned(a));
    if g <= 1 {
        assert(a.spec_between(b) =~= b.spec_between(a).reverse());
    } else {
        let s1 = a.spec_between(b);
        let s2 = b.spec_between(a);
        assert(s1.len() == g - 1);
        assert(s2.reverse().len() == g - 1);
        assert forall|k: int| 0 <= k < g - 1 implies s1[k] == s2.reverse()[k] by {
            lemma_between_step(a, b, k + 1);
            lemma_between_step(b, a, g - 1 - k);
            lemma_gap_times_sign(a, b);
            assert(isgn(a.fidx() - b.fidx()) == -isgn(b.fidx() - a.fidx()));
            assert(isgn(a.ridx() - b.ridx()) == -isgn(b.ridx() - a.ridx()));
            lemma_mul_cases(k + 1, isgn(b.fidx() - a.fidx()));
            lemma_mul_cases(k + 1, isgn(b.ridx() - a.ridx()));
            lemma_mul_cases(g - 1 - (g - 2 - k), isgn(a.fidx() - b.fidx()));
            lemma_mul_cases(g - 1 - (g - 2 - k), isgn(a.ridx() - b.ridx()));
            assert(s2.reverse()[k] == s2[g - 2 - k]);
        }
        assert(s1 =~= s2.reverse());
    }
}

} // verus!
