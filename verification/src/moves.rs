//! Geometric move generation: the destinations a piece could reach from
//! a square, ignoring every other occupant of the board.

use vstd::prelude::*;
use crate::pieces::{Color, ColorPiece, Piece};
use crate::square::{
    iabs, imax, isgn, lemma_mul_cases, lemma_mul_step, lemma_square_at, lemma_square_eq, Square,
};

verus! {

broadcast use vstd::seq_lib::lemma_seq_contains_after_push;

/// Whether `d` lies on the ray from `s` in direction `(dx, dy)`, at
/// least one step away, with `dx` and `dy` in {-1, 0, 1}.
pub open spec fn ray_pred(s: Square, dx: int, dy: int, d: Square) -> bool {
    let di = d.fidx() - s.fidx();
    let dj = d.ridx() - s.ridx();
    let t = s.spec_gap(d);
    d.wf() && t >= 1 && di == t * dx && dj == t * dy
}

/// The geometric destinations of an occupant: where the piece kind could
/// go from `s` on an empty board. Occupancy, blocking and capture rules
/// are not considered here. A pawn's two diagonal one-step advances are
/// offered as candidates; the legality filter later demands an enemy
/// occupant there.
pub open spec fn spec_candidate(s: Square, occ: ColorPiece, d: Square) -> bool {
    let di = d.fidx() - s.fidx();
    let dj = d.ridx() - s.ridx();
    d.wf() && match occ.1 {
        Piece::Empty => false,
        Piece::Bishop => di != 0 && iabs(di) == iabs(dj),
        Piece::Rook => (di != 0 || dj != 0) && (di == 0 || dj == 0),
        Piece::Queen => (di != 0 && iabs(di) == iabs(dj)) || ((di != 0 || dj != 0) && (di == 0
            || dj == 0)),
        Piece::Knight => (iabs(di) == 1 && iabs(dj) == 2) || (iabs(di) == 2 && iabs(dj) == 1),
        Piece::King => imax(iabs(di), iabs(dj)) == 1,
        Piece::Pawn => match occ.0 {
            Color::White => (dj == 1 && -1 <= di <= 1) || (dj == 2 && di == 0 && s.rank == 2),
            Color::Black => (dj == -1 && -1 <= di <= 1) || (dj == -2 && di == 0 && s.rank == 7),
        },
    }
}

/// Every candidate of a piece other than the knight shares a file, rank
/// or diagonal with its origin.
pub proof fn lemma_candidate_aligned(s: Square, occ: ColorPiece, d: Square)
    requires
        spec_candidate(s, occ, d),
        occ.1 != Piece::Knight,
    ensures
        s.aligned(d),
{
}

/// Appending a fresh element keeps a sequence duplicate-free.
pub(crate) proof fn lemma_no_dup_push<A>(s: Seq<A>, x: A)
    requires
        s.no_duplicates(),
        !s.contains(x),
    ensures
        s.push(x).no_duplicates(),
{
    assert forall|i: int, j: int|
        0 <= i < s.push(x).len() && 0 <= j < s.push(x).len() && i != j implies s.push(x)[i]
        != s.push(x)[j] by {
        if i < s.len() && j < s.len() {
        } else if i == s.len() {
            if s.push(x)[j] == x {
                assert(s[j] == x);
                assert(s.contains(x));
            }
        } else {
            if s.push(x)[i] == x {
                assert(s[i] == x);
                assert(s.contains(x));
            }
        }
    }
}

/// A square on a ray fixes the direction of that ray: the two deltas
/// of the ray are the signs of the square's coordinate deltas.
proof fn lemma_ray_dir_determined(s: Square, dx: int, dy: int, d: Square)
    requires
        -1 <= dx <= 1,
        -1 <= dy <= 1,
        ray_pred(s, dx, dy, d),
    ensures
        dx == isgn(d.fidx() - s.fidx()),
        dy == isgn(d.ridx() - s.ridx()),
{
    let t = s.spec_gap(d);
    lemma_mul_cases(t, dx);
    lemma_mul_cases(t, dy);
}

/// Appends every square of the ray from `s` in direction `(dx, dy)`.
fn push_ray(s: &Square, dx: isize, dy: isize, out: &mut Vec<Square>)
    requires
        s.wf(),
        -1 <= dx <= 1,
        -1 <= dy <= 1,
        !(dx == 0 && dy == 0),
        old(out)@.no_duplicates(),
        forall|d: Square|
            #[trigger] old(out)@.contains(d) ==> !ray_pred(*s, dx as int, dy as int, d),
    ensures
        forall|d: Square|
            #[trigger] final(out)@.contains(d) <==> old(out)@.contains(d) || ray_pred(
                *s,
                dx as int,
                dy as int,
                d,
            ),
        final(out)@.no_duplicates(),
{
    let ghost base = out@;
    let (i0, j0) = s.indexes();
    let mut ci: isize = i0 as isize;
    let mut cj: isize = j0 as isize;
    let mut t: usize = 0;
    while t < 7
        invariant
            s.wf(),
            -1 <= dx <= 1,
            -1 <= dy <= 1,
            !(dx == 0 && dy == 0),
            t <= 7,
            ci == s.fidx() + t * (dx as int),
            cj == s.ridx() + t * (dy as int),
            base.no_duplicates(),
            out@.no_duplicates(),
            forall|d: Square| #[trigger] base.contains(d) ==> !ray_pred(*s, dx as int, dy as int, d),
            forall|d: Square|
                #[trigger] out@.contains(d) <==> base.contains(d) || (ray_pred(
                    *s,
                    dx as int,
                    dy as int,
                    d,
                ) && s.spec_gap(d) <= t),
        decreases 7 - t,
    {
        proof {
            lemma_mul_step(t as int, dx as int);
            lemma_mul_step(t as int, dy as int);
            lemma_mul_cases(t as int, dx as int);
            lemma_mul_cases(t as int, dy as int);
        }
        ci = ci + dx;
        cj = cj + dy;
        t = t + 1;
        if 0 <= ci && ci <= 7 && 0 <= cj && cj <= 7 {
            let sq = Square::from_indexes(ci as usize, cj as usize);
            let ghost pre_push = out@;
            out.push(sq);
            proof {
                lemma_mul_cases(t as int, dx as int);
                lemma_mul_cases(t as int, dy as int);
                assert(ray_pred(*s, dx as int, dy as int, sq) && s.spec_gap(sq) == t);
                assert(!pre_push.contains(sq));
                lemma_no_dup_push(pre_push, sq);
                assert forall|d: Square|
                    ray_pred(*s, dx as int, dy as int, d) && s.spec_gap(d) == t implies d
                    == sq by {
                    lemma_square_eq(d, sq);
                }
            }
        } else {
            proof {
                lemma_mul_cases(t as int, dx as int);
                lemma_mul_cases(t as int, dy as int);
                assert forall|d: Square|
                    ray_pred(*s, dx as int, dy as int, d) implies s.spec_gap(d) != t by {}
            }
        }
    }
}

/// Appends the square offset from `s` by `(dx, dy)`, when it is on the
/// board.
fn push_step(s: &Square, dx: isize, dy: isize, out: &mut Vec<Square>)
    requires
        s.wf(),
        -7 <= dx <= 7,
        -7 <= dy <= 7,
        old(out)@.no_duplicates(),
        forall|d: Square|
            #[trigger] old(out)@.contains(d) ==> !(d.fidx() == s.fidx() + dx && d.ridx()
                == s.ridx() + dy),
    ensures
        forall|d: Square|
            #[trigger] final(out)@.contains(d) <==> old(out)@.contains(d) || (d.wf() && d.fidx()
                == s.fidx() + dx && d.ridx() == s.ridx() + dy),
        final(out)@.no_duplicates(),
{
    match s.neighboor(dx, dy) {
        Some(n) => {
            let ghost pre_push = out@;
            out.push(n);
            proof {
                lemma_square_at(s.fidx() + dx, s.ridx() + dy);
                assert forall|d: Square|
                    d.wf() && d.fidx() == s.fidx() + dx && d.ridx() == s.ridx() + dy implies d
                    == n by {
                    lemma_square_eq(d, n);
                }
                assert(!pre_push.contains(n));
                lemma_no_dup_push(pre_push, n);
            }
        },
        None => (),
    }
}

/// The four diagonal rays together are exactly the bishop pattern.
proof fn lemma_diag_union(s: Square, d: Square)
    ensures
        (ray_pred(s, -1, 1, d) || ray_pred(s, 1, 1, d) || ray_pred(s, -1, -1, d) || ray_pred(
            s,
            1,
            -1,
            d,
        )) <==> (d.wf() && d.fidx() - s.fidx() != 0 && iabs(d.fidx() - s.fidx()) == iabs(
            d.ridx() - s.ridx(),
        )),
{
    let t = s.spec_gap(d);
    lemma_mul_cases(t, 1);
    lemma_mul_cases(t, -1);
}

/// The four straight rays together are exactly the rook pattern.
proof fn lemma_straight_union(s: Square, d: Square)
    ensures
        (ray_pred(s, -1, 0, d) || ray_pred(s, 1, 0, d) || ray_pred(s, 0, 1, d) || ray_pred(
            s,
            0,
            -1,
            d,
        )) <==> (d.wf() && (d.fidx() != s.fidx() || d.ridx() != s.ridx()) && (d.fidx() == s.fidx()
            || d.ridx() == s.ridx())),
{
    let t = s.spec_gap(d);
    lemma_mul_cases(t, 1);
    lemma_mul_cases(t, -1);
    lemma_mul_cases(t, 0);
}

/// The squares a bishop could reach from `s` on an empty board.
fn diagonal_moves(s: &Square, out: &mut Vec<Square>)
    requires
        s.wf(),
        old(out)@.no_duplicates(),
        forall|d: Square|
            #[trigger] old(out)@.contains(d) ==> !spec_candidate(
                *s,
                (Color::White, Piece::Bishop),
                d,
            ),
    ensures
        forall|d: Square|
            #[trigger] final(out)@.contains(d) <==> old(out)@.contains(d) || spec_candidate(
                *s,
                (Color::White, Piece::Bishop),
                d,
            ),
        final(out)@.no_duplicates(),
{
    proof {
        assert forall|d: Square| #[trigger] out@.contains(d) implies !ray_pred(*s, -1, 1, d) by {
            lemma_diag_union(*s, d);
        }
    }
    push_ray(s, -1, 1, out);
    proof {
        assert forall|d: Square| #[trigger] out@.contains(d) implies !ray_pred(*s, 1, 1, d) by {
            lemma_diag_union(*s, d);
            if ray_pred(*s, 1, 1, d) {
                lemma_ray_dir_determined(*s, 1, 1, d);
                if ray_pred(*s, -1, 1, d) {
                    lemma_ray_dir_determined(*s, -1, 1, d);
                }
            }
        }
    }
    push_ray(s, 1, 1, out);
    proof {
        assert forall|d: Square| #[trigger] out@.contains(d) implies !ray_pred(*s, -1, -1, d) by {
            lemma_diag_union(*s, d);
            if ray_pred(*s, -1, -1, d) {
                lemma_ray_dir_determined(*s, -1, -1, d);
                if ray_pred(*s, -1, 1, d) {
                    lemma_ray_dir_determined(*s, -1, 1, d);
                }
                if ray_pred(*s, 1, 1, d) {
                    lemma_ray_dir_determined(*s, 1, 1, d);
                }
            }
        }
    }
    push_ray(s, -1, -1, out);
    proof {
        assert forall|d: Square| #[trigger] out@.contains(d) implies !ray_pred(*s, 1, -1, d) by {
            lemma_diag_union(*s, d);
            if ray_pred(*s, 1, -1, d) {
                lemma_ray_dir_determined(*s, 1, -1, d);
                if ray_pred(*s, -1, 1, d) {
                    lemma_ray_dir_determined(*s, -1, 1, d);
                }
                if ray_pred(*s, 1, 1, d) {
                    lemma_ray_dir_determined(*s, 1, 1, d);
                }
                if ray_pred(*s, -1, -1, d) {
                    lemma_ray_dir_determined(*s, -1, -1, d);
                }
            }
        }
    }
    push_ray(s, 1, -1, out);
    proof {
        assert forall|d: Square| true implies (#[trigger] spec_candidate(
            *s,
            (Color::White, Piece::Bishop),
            d,
        ) <==> (ray_pred(*s, -1, 1, d) || ray_pred(*s, 1, 1, d) || ray_pred(*s, -1, -1, d)
            || ray_pred(*s, 1, -1, d))) by {
            lemma_diag_union(*s, d);
        }
    }
}

/// The squares a rook could reach from `s` on an empty board.
fn straight_moves(s: &Square, out: &mut Vec<Square>)
    requires
        s.wf(),
        old(out)@.no_duplicates(),
        forall|d: Square|
            #[trigger] old(out)@.contains(d) ==> !spec_candidate(
                *s,
                (Color::White, Piece::Rook),
                d,
            ),
    ensures
        forall|d: Square|
            #[trigger] final(out)@.contains(d) <==> old(out)@.contains(d) || spec_candidate(
                *s,
                (Color::White, Piece::Rook),
                d,
            ),
        final(out)@.no_duplicates(),
{
    proof {
        assert forall|d: Square| #[trigger] out@.contains(d) implies !ray_pred(*s, -1, 0, d) by {
            lemma_straight_union(*s, d);
        }
    }
    push_ray(s, -1, 0, out);
    proof {
        assert forall|d: Square| #[trigger] out@.contains(d) implies !ray_pred(*s, 1, 0, d) by {
            lemma_straight_union(*s, d);
            if ray_pred(*s, 1, 0, d) {
                lemma_ray_dir_determined(*s, 1, 0, d);
                if ray_pred(*s, -1, 0, d) {
                    lemma_ray_dir_determined(*s, -1, 0, d);
                }
            }
        }
    }
    push_ray(s, 1, 0, out);
    proof {
        assert forall|d: Square| #[trigger] out@.contains(d) implies !ray_pred(*s, 0, 1, d) by {
            lemma_straight_union(*s, d);
            if ray_pred(*s, 0, 1, d) {
                lemma_ray_dir_determined(*s, 0, 1, d);
                if ray_pred(*s, -1, 0, d) {
                    lemma_ray_dir_determined(*s, -1, 0, d);
                }
                if ray_pred(*s, 1, 0, d) {
                    lemma_ray_dir_determined(*s, 1, 0, d);
                }
            }
        }
    }
    push_ray(s, 0, 1, out);
    proof {
        assert forall|d: Square| #[trigger] out@.contains(d) implies !ray_pred(*s, 0, -1, d) by {
            lemma_straight_union(*s, d);
            if ray_pred(*s, 0, -1, d) {
                lemma_ray_dir_determined(*s, 0, -1, d);
                if ray_pred(*s, -1, 0, d) {
                    lemma_ray_dir_determined(*s, -1, 0, d);
                }
                if ray_pred(*s, 1, 0, d) {
                    lemma_ray_dir_determined(*s, 1, 0, d);
                }
                if ray_pred(*s, 0, 1, d) {
                    lemma_ray_dir_determined(*s, 0, 1, d);
                }
            }
        }
    }
    push_ray(s, 0, -1, out);
    proof {
        assert forall|d: Square| true implies (#[trigger] spec_candidate(
            *s,
            (Color::White, Piece::Rook),
            d,
        ) <==> (ray_pred(*s, -1, 0, d) || ray_pred(*s, 1, 0, d) || ray_pred(*s, 0, 1, d)
            || ray_pred(*s, 0, -1, d))) by {
            lemma_straight_union(*s, d);
        }
    }
}

/// The geometric destinations of `piece` standing on `square`, ignoring
/// all other occupants. The order of the result is unspecified.
pub fn available_moves(square: &Square, piece: &ColorPiece) -> (r: Vec<Square>)
    requires
        square.wf(),
    ensures
        forall|d: Square| #[trigger] r@.contains(d) <==> spec_candidate(*square, *piece, d),
        r@.no_duplicates(),
{
    let mut out: Vec<Square> = Vec::new();
    match piece.1 {
        Piece::Empty => (),
        Piece::Bishop => diagonal_moves(square, &mut out),
        Piece::Rook => straight_moves(square, &mut out),
        Piece::Queen => {
            straight_moves(square, &mut out);
            proof {
                assert forall|d: Square| #[trigger] out@.contains(d) implies !spec_candidate(
                    *square,
                    (Color::White, Piece::Bishop),
                    d,
                ) by {}
            }
            diagonal_moves(square, &mut out);
        },
        Piece::King => {
            push_step(square, -1, 0, &mut out);
            push_step(square, 1, 0, &mut out);
            push_step(square, 0, 1, &mut out);
            push_step(square, 0, -1, &mut out);
            push_step(square, -1, 1, &mut out);
            push_step(square, 1, 1, &mut out);
            push_step(square, -1, -1, &mut out);
            push_step(square, 1, -1, &mut out);
        },
        Piece::Knight => {
            push_step(square, 2, 1, &mut out);
            push_step(square, 2, -1, &mut out);
            push_step(square, -2, 1, &mut out);
            push_step(square, -2, -1, &mut out);
            push_step(square, 1, 2, &mut out);
            push_step(square, 1, -2, &mut out);
            push_step(square, -1, 2, &mut out);
            push_step(square, -1, -2, &mut out);
        },
        Piece::Pawn => {
            match piece.0 {
                Color::Black => {
                    push_step(square, 0, -1, &mut out);
                    push_step(square, -1, -1, &mut out);
                    push_step(square, 1, -1, &mut out);
                    if square.rank == 7 {
                        push_step(square, 0, -2, &mut out);
                    }
                },
                Color::White => {
                    push_step(square, 0, 1, &mut out);
                    push_step(square, -1, 1, &mut out);
                    push_step(square, 1, 1, &mut out);
                    if square.rank == 2 {
                        push_step(square, 0, 2, &mut out);
                    }
                },
            }
        },
    }
    out
}

} // verus!
