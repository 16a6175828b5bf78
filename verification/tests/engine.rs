use chess_sampler::board::{Board, GameStatus};
use chess_sampler::moves::available_moves;
use chess_sampler::pieces::{Color, Piece};
use chess_sampler::square::Square;

fn sq(file: char, rank: u8) -> Square {
    Square::new(file, rank)
}

fn contains_square(v: &[Square], s: Square) -> bool {
    v.iter().any(|x| *x == s)
}

#[test]
fn piece_values() {
    assert_eq!(Piece::Empty.value(), 0);
    assert_eq!(Piece::King.value(), 0);
    assert_eq!(Piece::Pawn.value(), 1);
    assert_eq!(Piece::Bishop.value(), 3);
    assert_eq!(Piece::Knight.value(), 3);
    assert_eq!(Piece::Rook.value(), 5);
    assert_eq!(Piece::Queen.value(), 9);
}

#[test]
fn color_other_flips() {
    assert_eq!(Color::White.other(), Color::Black);
    assert_eq!(Color::Black.other(), Color::White);
}

#[test]
fn square_indexes_round_trip() {
    for i in 0..8usize {
        for j in 0..8usize {
            let s = Square::from_indexes(i, j);
            assert_eq!(s.indexes(), (i, j));
        }
    }
    assert_eq!(sq('e', 4).indexes(), (4, 3));
}

#[test]
fn neighboor_stays_on_board() {
    let a1 = sq('a', 1);
    assert_eq!(a1.left(), None);
    assert_eq!(a1.down(), None);
    assert_eq!(a1.down_left(), None);
    assert_eq!(a1.up(), Some(sq('a', 2)));
    assert_eq!(a1.right(), Some(sq('b', 1)));
    let h8 = sq('h', 8);
    assert_eq!(h8.right(), None);
    assert_eq!(h8.up(), None);
    assert_eq!(h8.up_right(), None);
    assert_eq!(h8.down_left(), Some(sq('g', 7)));
    assert_eq!(sq('d', 5).neighboor(0, 0), Some(sq('d', 5)));
    assert_eq!(sq('d', 5).neighboor(3, -2), Some(sq('g', 3)));
    assert_eq!(sq('d', 5).neighboor(5, 0), None);
}

#[test]
fn square_text_is_file_then_rank() {
    assert_eq!(sq('e', 4).to_text(), "e4");
    assert_eq!(sq('a', 1).to_text(), "a1");
    assert_eq!(sq('h', 8).to_text(), "h8");
}

#[test]
fn in_between_on_a_file() {
    let v = sq('e', 2).in_between(&sq('e', 6));
    assert_eq!(v, vec![sq('e', 3), sq('e', 4), sq('e', 5)]);
}

#[test]
fn in_between_on_a_diagonal() {
    let v = sq('a', 1).in_between(&sq('d', 4));
    assert_eq!(v, vec![sq('b', 2), sq('c', 3)]);
}

#[test]
fn in_between_adjacent_is_empty() {
    assert_eq!(sq('e', 4).in_between(&sq('e', 5)), vec![]);
    assert_eq!(sq('e', 4).in_between(&sq('f', 5)), vec![]);
    assert_eq!(sq('e', 4).in_between(&sq('e', 4)), vec![]);
}

#[test]
fn in_between_symmetry_reversed() {
    let fwd = sq('b', 2).in_between(&sq('g', 7));
    let mut bwd = sq('g', 7).in_between(&sq('b', 2));
    bwd.reverse();
    assert_eq!(fwd, bwd);
}

#[test]
fn king_moves_at_e4() {
    let v = available_moves(&sq('e', 4), &(Color::White, Piece::King));
    assert_eq!(v.len(), 8);
    for s in [
        sq('d', 3),
        sq('d', 4),
        sq('d', 5),
        sq('e', 3),
        sq('e', 5),
        sq('f', 3),
        sq('f', 4),
        sq('f', 5),
    ] {
        assert!(contains_square(&v, s));
    }
}

#[test]
fn knight_moves_at_a1() {
    let v = available_moves(&sq('a', 1), &(Color::Black, Piece::Knight));
    assert_eq!(v.len(), 2);
    assert!(contains_square(&v, sq('b', 3)));
    assert!(contains_square(&v, sq('c', 2)));
}

#[test]
fn empty_occupant_has_no_moves() {
    let v = available_moves(&sq('d', 4), &(Color::White, Piece::Empty));
    assert!(v.is_empty());
}

#[test]
fn rook_moves_at_a1() {
    let v = available_moves(&sq('a', 1), &(Color::White, Piece::Rook));
    assert_eq!(v.len(), 14);
    assert!(contains_square(&v, sq('a', 8)));
    assert!(contains_square(&v, sq('h', 1)));
    assert!(!contains_square(&v, sq('b', 2)));
}

#[test]
fn queen_moves_are_rook_and_bishop_moves() {
    let q = available_moves(&sq('d', 4), &(Color::White, Piece::Queen));
    let r = available_moves(&sq('d', 4), &(Color::White, Piece::Rook));
    let b = available_moves(&sq('d', 4), &(Color::White, Piece::Bishop));
    assert_eq!(q.len(), r.len() + b.len());
    for s in r.iter().chain(b.iter()) {
        assert!(contains_square(&q, *s));
    }
}

#[test]
fn pawn_moves_include_diagonals_and_double_step() {
    let v = available_moves(&sq('e', 2), &(Color::White, Piece::Pawn));
    assert_eq!(v.len(), 4);
    assert!(contains_square(&v, sq('e', 3)));
    assert!(contains_square(&v, sq('e', 4)));
    assert!(contains_square(&v, sq('d', 3)));
    assert!(contains_square(&v, sq('f', 3)));
    let v3 = available_moves(&sq('e', 3), &(Color::White, Piece::Pawn));
    assert_eq!(v3.len(), 3);
    let b = available_moves(&sq('d', 7), &(Color::Black, Piece::Pawn));
    assert_eq!(b.len(), 4);
    assert!(contains_square(&b, sq('d', 5)));
    assert!(contains_square(&b, sq('d', 6)));
}

#[test]
fn starting_position_has_twenty_white_moves() {
    let board = Board::new();
    let moves = board.legal_moves(Color::White);
    assert_eq!(moves.len(), 20);
    for (from, to) in moves.iter() {
        let (fc, fp) = board.get(from);
        assert_eq!(fc, Color::White);
        assert_ne!(fp, Piece::Empty);
        let (tc, tp) = board.get(to);
        assert!(!(tc == Color::White && tp != Piece::Empty));
    }
}

#[test]
fn starting_position_has_twenty_black_moves() {
    let board = Board::new();
    assert_eq!(board.legal_moves(Color::Black).len(), 20);
}

#[test]
fn pawn_cannot_capture_straight_ahead() {
    let mut board = Board::new();
    board.set(sq('e', 3), (Color::Black, Piece::Pawn));
    assert!(!board.is_legal(&sq('e', 2), &sq('e', 3)));
    assert!(board.is_legal(&sq('d', 2), &sq('e', 3)));
    assert!(!board.is_legal(&sq('d', 2), &sq('c', 3)));
}

#[test]
fn sliding_pieces_are_blocked() {
    let board = Board::new();
    assert!(!board.is_legal(&sq('a', 1), &sq('a', 4)));
    assert!(!board.is_legal(&sq('c', 1), &sq('e', 3)));
    assert!(board.is_legal(&sq('b', 1), &sq('c', 3)));
}

#[test]
fn exec_move_round_trip_restores_occupancy() {
    let board = Board::new();
    let from = sq('e', 2);
    let to = sq('e', 4);
    let there = board.exec_move(&from, &to);
    assert_eq!(there.get(&to), (Color::White, Piece::Pawn));
    assert_eq!(there.get(&from), (Color::White, Piece::Empty));
    let back = there.exec_move(&to, &from);
    for i in 0..8usize {
        for j in 0..8usize {
            let s = Square::from_indexes(i, j);
            assert_eq!(back.get(&s), board.get(&s));
        }
    }
}

#[test]
fn status_and_score_of_starting_position() {
    let board = Board::new();
    assert_eq!(board.status(), GameStatus::InPlay);
    assert_eq!(board.score(), (39, 39));
}

#[test]
fn removing_the_black_king_finishes_the_game() {
    let mut board = Board::new();
    board.set(sq('e', 8), (Color::White, Piece::Empty));
    assert_eq!(board.status(), GameStatus::Finished(Color::White));
    assert_eq!(board.score(), (100, 0));
}

#[test]
fn removing_the_white_king_finishes_the_game() {
    let mut board = Board::new();
    board.set(sq('e', 1), (Color::White, Piece::Empty));
    assert_eq!(board.status(), GameStatus::Finished(Color::Black));
    assert_eq!(board.score(), (0, 100));
}
