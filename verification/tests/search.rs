use chess_sampler::board::{Board, Move};
use chess_sampler::pieces::{Color, Piece};
use chess_sampler::square::Square;
use chess_sampler::tree::{expand_root_child, next_move, select_move, GameTreeNode};

fn sq(file: char, rank: u8) -> Square {
    Square::new(file, rank)
}

fn contains_move(v: &[Move], m: Move) -> bool {
    v.iter().any(|x| *x == m)
}

#[test]
fn unexpanded_node_has_size_one() {
    let board = Board::new();
    let node = GameTreeNode::new(board, Color::White, 64);
    assert_eq!(node.size(), 1);
}

#[test]
fn one_level_expansion_counts_the_realized_children() {
    let board = Board::new();
    let mut node = GameTreeNode::new(board, Color::White, 3);
    node.exec_random_moves(2);
    assert_eq!(node.children.len(), 3);
    assert!(node.children.iter().all(|c| c.sub.is_some()));
    assert_eq!(node.size(), 3);
}

#[test]
fn sampled_children_are_a_shuffle_of_the_legal_moves() {
    let board = Board::new();
    let node = GameTreeNode::new(board, Color::White, 64);
    let legal = board.legal_moves(Color::White);
    assert_eq!(node.children.len(), legal.len());
    for c in node.children.iter() {
        assert!(contains_move(&legal, c.mv));
    }
    for m in legal.iter() {
        assert_eq!(node.children.iter().filter(|c| c.mv == *m).count(), 1);
    }
}

#[test]
fn budget_caps_the_sampled_children() {
    let board = Board::new();
    let node = GameTreeNode::new(board, Color::White, 5);
    assert_eq!(node.children.len(), 5);
    let none = GameTreeNode::new(board, Color::White, 0);
    assert_eq!(none.children.len(), 0);
}

#[test]
fn leaf_average_is_the_material_differential() {
    let mut board = Board::new();
    board.set(sq('a', 8), (Color::White, Piece::Empty));
    let node = GameTreeNode::new(board, Color::White, 8);
    assert_eq!(node.avg_score(Color::White), (5, 1));
    assert_eq!(node.avg_score(Color::Black), (-5, 1));
}

#[test]
fn balanced_opening_expansion_scores_zero() {
    let board = Board::new();
    let mut node = GameTreeNode::new(board, Color::White, 1);
    node.exec_random_moves(2);
    assert_eq!(node.avg_score(Color::White), (0, 2));
    assert_eq!(node.avg_score(Color::Black), (0, 2));
    assert_eq!(node.size(), 1);
}

#[test]
fn expanded_tree_scores_are_antisymmetric_in_the_side() {
    let mut board = kings_only_board();
    board.set(sq('a', 1), (Color::White, Piece::Rook));
    let mut node = GameTreeNode::new(board, Color::White, 2);
    node.exec_random_moves(3);
    let white = node.avg_score(Color::White);
    let black = node.avg_score(Color::Black);
    assert_eq!(black.0, -white.0);
    assert_eq!(black.1, white.1);
}

#[test]
fn finished_position_is_not_expanded() {
    let mut board = Board::new();
    board.set(sq('e', 8), (Color::White, Piece::Empty));
    let mut node = GameTreeNode::new(board, Color::Black, 8);
    node.exec_random_moves(5);
    assert!(node.children.iter().all(|c| c.sub.is_none()));
    assert_eq!(node.size(), 1);
}

#[test]
fn select_move_is_none_without_realized_children() {
    let board = Board::new();
    let node = GameTreeNode::new(board, Color::White, 8);
    assert_eq!(select_move(&node, Color::White), None);
}

#[test]
fn select_move_prefers_the_better_average() {
    let board = Board::new();
    let mut node = GameTreeNode::new(board, Color::White, 2);
    node.exec_random_moves(2);
    let picked = select_move(&node, Color::White).unwrap();
    assert!(node.children.iter().any(|c| c.mv == picked));
}

fn kings_only_board() -> Board {
    let mut board = Board::new();
    for i in 0..8usize {
        for j in 0..8usize {
            let s = Square::from_indexes(i, j);
            let (_, p) = board.get(&s);
            if p != Piece::King {
                board.set(s, (Color::White, Piece::Empty));
            }
        }
    }
    board
}

#[test]
fn root_fan_out_pieces_compose() {
    let board = kings_only_board();
    let mut tree = GameTreeNode::new(board, Color::White, 4);
    let n = tree.children.len();
    assert!(n >= 1);
    for idx in 0..n {
        let mv = tree.children[idx].mv;
        let node = expand_root_child(&board, mv, Color::White, tree.budget, 5);
        tree.install_child(idx, node);
    }
    assert!(tree.children.iter().all(|c| c.sub.is_some()));
    let picked = select_move(&tree, Color::White).unwrap();
    assert!(tree.children.iter().any(|c| c.mv == picked));
}

#[test]
fn next_move_returns_a_legal_move() {
    let board = kings_only_board();
    let legal = board.legal_moves(Color::White);
    let m = next_move(&board, Color::White).unwrap();
    assert!(contains_move(&legal, m));
}

#[test]
fn next_move_is_none_when_the_game_is_decided() {
    let mut board = Board::new();
    board.set(sq('e', 1), (Color::White, Piece::Empty));
    assert_eq!(next_move(&board, Color::Black), None);
    assert_eq!(next_move(&board, Color::White), None);
}
