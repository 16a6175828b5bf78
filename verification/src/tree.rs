//! The randomized, depth-bounded search tree: sampled children, one
//! expansion pass, and exact average scoring over the realized tree.

use vstd::prelude::*;
use vstd::arithmetic::mul::lemma_mul_inequality;
use rand::seq::SliceRandom;
use crate::board::{lemma_move_keeps_a_king, Board, GameStatus, Move};
use crate::pieces::Color;
use crate::square::lemma_mul_step;

verus! {

broadcast use vstd::seq_lib::group_to_multiset_ensures;

/// The largest number of tree nodes the scoring routines accept; the
/// expansion budgets used here stay far below it.
pub const MAX_TREE_NODES: u64 = 0x4000_0000;

/// One sampled child of a node: a legal move and, once the expansion
/// has realized it, the subtree that move leads to.
pub struct Child {
    pub mv: Move,
    pub sub: Option<GameTreeNode>,
}

/// One sampled position of the search tree: the board at this node,
/// the side to move, the branching budget, and the sampled children.
/// A node owns its children outright; the tree is a strict out-tree.
pub struct GameTreeNode {
    pub board: Board,
    pub turn: Color,
    pub budget: usize,
    pub children: Vec<Child>,
}

/// The material difference seen by side `c`: its score minus the
/// opponent's, with the decisive 100 to 0 pair once a king is gone.
pub open spec fn spec_diff(b: Board, c: Color) -> int {
    match c {
        Color::Black => b.spec_score().1 - b.spec_score().0,
        Color::White => b.spec_score().0 - b.spec_score().1,
    }
}

/// An upper bound on the number of nodes a tree can reach when each
/// child starts with half its parent's budget: with budget 0 a node
/// stays a leaf, else it has at most `b` children.
pub open spec fn spec_cap(b: nat) -> nat
    decreases b,
{
    if b == 0 {
        1
    } else {
        1 + b * spec_cap(b / 2)
    }
}

impl GameTreeNode {
    /// Well-formedness of a node: its board still holds a king, it has
    /// no more children than its budget, every child key is a legal
    /// move of the side to move, and every realized child is itself a
    /// well-formed node for the position after that move, with the
    /// opposite side to move and half the budget.
    pub open spec fn wf(self) -> bool
        decreases self,
    {
        &&& (self.board.spec_has_king(Color::White) || self.board.spec_has_king(Color::Black))
        &&& self.children@.len() <= self.budget
        &&& forall|k: int|
            0 <= k < self.children@.len() ==> self.board.spec_legal_move(
                self.turn,
                (#[trigger] self.children@[k]).mv,
            )
        &&& forall|k: int|
            0 <= k < self.children@.len() ==> ((#[trigger] self.children@[k]).sub matches Some(c)
                ==> {
                &&& c.budget == self.budget / 2
                &&& c.turn == self.turn.spec_other()
                &&& (forall|i: int, j: int|
                    0 <= i < 8 && 0 <= j < 8 ==> c.board.spec_at(i, j)
                        == self.board.spec_moved_at(
                        self.children@[k].mv.0,
                        self.children@[k].mv.1,
                        i,
                        j,
                    ))
                &&& c.wf()
            })
    }

    /// The number of nodes of the realized tree rooted here, this node
    /// included.
    pub open spec fn cnt(self) -> nat
        decreases self,
    {
        1 + cnt_children(self.children@)
    }

    /// The sum of the per-node differential for side `c` over every
    /// node of the realized tree rooted here. The average score of the
    /// node is this total divided by `cnt`: a flat average that weighs
    /// every realized node equally, however deep it sits. This
    /// aggregation is a deliberate choice. It is not minimax, and it
    /// is also not the nested rule that averages each child's own
    /// average with the parent's differential: that rule discounts a
    /// node by the product of the branching factors on its path, and
    /// its exact fractions have denominators that multiply across
    /// siblings and outgrow every machine integer on trees of this
    /// breadth, so it cannot be carried exactly here.
    pub open spec fn total(self, c: Color) -> int
        decreases self,
    {
        spec_diff(self.board, c) + total_children(self.children@, c)
    }

    /// The reported search volume: 1 for a node with no realized
    /// child, otherwise the sum of the volumes of the realized
    /// children.
    pub open spec fn spec_size(self) -> nat
        decreases self,
    {
        if !has_realized(self.children@) {
            1
        } else {
            size_children(self.children@)
        }
    }

    /// The node has been expanded for `depth` further plies: unless
    /// the game is decided here or `depth` is 0, every sampled child
    /// is realized and is in turn expanded for one ply fewer.
    pub open spec fn expanded_to(self, depth: nat) -> bool
        decreases self,
    {
        (self.board.spec_status() is InPlay && depth >= 1) ==> (forall|k: int|
            0 <= k < self.children@.len() ==> ((#[trigger] self.children@[k]).sub matches Some(c)
                && c.expanded_to((depth - 1) as nat)))
    }
}

/// Whether any child of the sequence has been realized.
pub open spec fn has_realized(s: Seq<Child>) -> bool {
    exists|k: int| 0 <= k < s.len() && (#[trigger] s[k]).sub is Some
}

/// The node count of one child: that of its subtree, or 0 while it is
/// unrealized.
pub open spec fn cnt_child(c: Child) -> nat
    decreases c,
{
    match c.sub {
        Some(n) => n.cnt(),
        None => 0,
    }
}

/// The node count over a sequence of children.
pub open spec fn cnt_children(s: Seq<Child>) -> nat
    decreases s,
{
    if s.len() == 0 {
        0
    } else {
        cnt_child(s[0]) + cnt_children(s.drop_first())
    }
}

/// The differential total of one child for side `c`.
pub open spec fn total_child(ch: Child, c: Color) -> int
    decreases ch,
{
    match ch.sub {
        Some(n) => n.total(c),
        None => 0,
    }
}

/// The differential total over a sequence of children.
pub open spec fn total_children(s: Seq<Child>, c: Color) -> int
    decreases s,
{
    if s.len() == 0 {
        0
    } else {
        total_child(s[0], c) + total_children(s.drop_first(), c)
    }
}

/// The search volume of one child.
pub open spec fn size_child(ch: Child) -> nat
    decreases ch,
{
    match ch.sub {
        Some(n) => n.spec_size(),
        None => 0,
    }
}

/// The search volume over a sequence of children.
pub open spec fn size_children(s: Seq<Child>) -> nat
    decreases s,
{
    if s.len() == 0 {
        0
    } else {
        size_child(s[0]) + size_children(s.drop_first())
    }
}

/// Appending a child adds its count to the count of the sequence.
proof fn lemma_cnt_children_push(s: Seq<Child>, c: Child)
    ensures
        cnt_children(s.push(c)) == cnt_children(s) + cnt_child(c),
    decreases s.len(),
{
    if s.len() == 0 {
        assert(s.push(c).drop_first() =~= s);
        assert(s.push(c)[0] == c);
    } else {
        assert(s.push(c)[0] == s[0]);
        assert(s.push(c).drop_first() =~= s.drop_first().push(c));
        lemma_cnt_children_push(s.drop_first(), c);
    }
}

/// Appending a child adds its total to the total of the sequence.
proof fn lemma_total_children_push(s: Seq<Child>, c: Child, color: Color)
    ensures
        total_children(s.push(c), color) == total_children(s, color) + total_child(c, color),
    decreases s.len(),
{
    if s.len() == 0 {
        assert(s.push(c).drop_first() =~= s);
        assert(s.push(c)[0] == c);
    } else {
        assert(s.push(c)[0] == s[0]);
        assert(s.push(c).drop_first() =~= s.drop_first().push(c));
        lemma_total_children_push(s.drop_first(), c, color);
    }
}

/// Appending a child adds its volume to the volume of the sequence.
proof fn lemma_size_children_push(s: Seq<Child>, c: Child)
    ensures
        size_children(s.push(c)) == size_children(s) + size_child(c),
    decreases s.len(),
{
    if s.len() == 0 {
        assert(s.push(c).drop_first() =~= s);
        assert(s.push(c)[0] == c);
    } else {
        assert(s.push(c)[0] == s[0]);
        assert(s.push(c).drop_first() =~= s.drop_first().push(c));
        lemma_size_children_push(s.drop_first(), c);
    }
}

/// A sequence of unrealized children counts no nodes and no total.
proof fn lemma_children_none(s: Seq<Child>, color: Color)
    requires
        forall|k: int| 0 <= k < s.len() ==> (#[trigger] s[k]).sub is None,
    ensures
        cnt_children(s) == 0,
        total_children(s, color) == 0,
    decreases s.len(),
{
    if s.len() > 0 {
        assert(s[0].sub is None);
        assert(cnt_child(s[0]) == 0);
        assert(total_child(s[0], color) == 0);
        assert forall|k: int|
            0 <= k < s.drop_first().len() implies (#[trigger] s.drop_first()[k]).sub is None by {
            assert(s.drop_first()[k] == s[k + 1]);
        }
        lemma_children_none(s.drop_first(), color);
        assert(cnt_children(s) == cnt_child(s[0]) + cnt_children(s.drop_first()));
        assert(total_children(s, color) == total_child(s[0], color) + total_children(
            s.drop_first(),
            color,
        ));
    }
}

/// The count of a prefix never exceeds the count of the sequence.
proof fn lemma_cnt_children_take_le(s: Seq<Child>, k: int)
    requires
        0 <= k <= s.len(),
    ensures
        cnt_children(s.take(k)) <= cnt_children(s),
    decreases s.len() - k,
{
    if k == s.len() {
        assert(s.take(k) =~= s);
    } else {
        assert(s.take(k + 1) =~= s.take(k).push(s[k]));
        lemma_cnt_children_push(s.take(k), s[k]);
        lemma_cnt_children_take_le(s, k + 1);
    }
}

/// The count of one child never exceeds the count of its sequence.
proof fn lemma_cnt_child_le(s: Seq<Child>, k: int)
    requires
        0 <= k < s.len(),
    ensures
        cnt_child(s[k]) <= cnt_children(s),
    decreases k,
{
    if k == 0 {
        assert(s.len() > 0);
    } else {
        assert(s.drop_first()[k - 1] == s[k]);
        lemma_cnt_child_le(s.drop_first(), k - 1);
    }
}

/// The per-node differential is at most the decisive score in absolute
/// value.
proof fn lemma_diff_bound(b: Board, c: Color)
    ensures
        -576 <= spec_diff(b, c) <= 576,
{
    crate::board::lemma_material_bounds(b, Color::White);
    crate::board::lemma_material_bounds(b, Color::Black);
}

/// The total of a well-formed tree is bounded by the decisive score
/// times its node count.
proof fn lemma_total_bound(n: GameTreeNode, c: Color)
    requires
        n.wf(),
    ensures
        -576 * (n.cnt() as int) <= n.total(c) <= 576 * (n.cnt() as int),
    decreases n,
{
    lemma_diff_bound(n.board, c);
    lemma_total_children_bound(n.children@, c);
    assert(cnt_children(n.children@) <= n.cnt());
}

/// The total over a sequence of well-formed children is bounded by the
/// decisive score times their node count.
proof fn lemma_total_children_bound(s: Seq<Child>, c: Color)
    requires
        forall|k: int|
            0 <= k < s.len() ==> ((#[trigger] s[k]).sub matches Some(n) ==> n.wf()),
    ensures
        -576 * (cnt_children(s) as int) <= total_children(s, c) <= 576 * (cnt_children(s) as int),
    decreases s,
{
    if s.len() > 0 {
        assert(s[0].sub matches Some(n) ==> n.wf());
        match s[0].sub {
            Some(n) => {
                lemma_total_bound(n, c);
            },
            None => {
                assert(cnt_child(s[0]) == 0);
                assert(total_child(s[0], c) == 0);
            },
        }
        assert forall|k: int|
            0 <= k < s.drop_first().len() implies ((#[trigger] s.drop_first()[k]).sub matches Some(
            n,
        ) ==> n.wf()) by {
            assert(s.drop_first()[k] == s[k + 1]);
        }
        lemma_total_children_bound(s.drop_first(), c);
        assert(cnt_children(s) == cnt_child(s[0]) + cnt_children(s.drop_first()));
        assert(total_children(s, c) == total_child(s[0], c) + total_children(s.drop_first(), c));
        assert(-576 * (cnt_child(s[0]) as int) <= total_child(s[0], c) <= 576 * (cnt_child(
            s[0],
        ) as int));
    }
}

/// The search volume of a well-formed tree never exceeds its node
/// count.
proof fn lemma_size_le_cnt(n: GameTreeNode)
    ensures
        n.spec_size() <= n.cnt(),
        n.cnt() >= 1,
    decreases n,
{
    lemma_size_children_le_cnt(n.children@);
}

/// The volume over a sequence of children never exceeds their count,
/// except that a sequence with no realized child has volume 0 and the
/// node itself reports 1.
proof fn lemma_size_children_le_cnt(s: Seq<Child>)
    ensures
        size_children(s) <= cnt_children(s),
    decreases s,
{
    if s.len() > 0 {
        match s[0].sub {
            Some(n) => {
                lemma_size_le_cnt(n);
            },
            None => {
                assert(size_child(s[0]) == 0);
            },
        }
        lemma_size_children_le_cnt(s.drop_first());
        assert(cnt_children(s) == cnt_child(s[0]) + cnt_children(s.drop_first()));
        assert(size_children(s) == size_child(s[0]) + size_children(s.drop_first()));
        assert(size_child(s[0]) <= cnt_child(s[0]));
    }
}

/// Relabeling the sides negates the score: the total differential of
/// any realized tree for Black is exactly the negation of its total
/// for White, and the node counts agree, so the average flips sign.
pub proof fn lemma_avg_score_antisymmetric(n: GameTreeNode)
    ensures
        n.total(Color::Black) == -n.total(Color::White),
    decreases n,
{
    assert(spec_diff(n.board, Color::Black) == -spec_diff(n.board, Color::White));
    lemma_total_children_antisymmetric(n.children@);
}

/// The summed differential over a sequence of children for Black is
/// the negation of the sum for White.
proof fn lemma_total_children_antisymmetric(s: Seq<Child>)
    ensures
        total_children(s, Color::Black) == -total_children(s, Color::White),
    decreases s,
{
    if s.len() > 0 {
        match s[0].sub {
            Some(n) => {
                lemma_avg_score_antisymmetric(n);
            },
            None => {
                assert(total_child(s[0], Color::Black) == 0);
                assert(total_child(s[0], Color::White) == 0);
            },
        }
        lemma_total_children_antisymmetric(s.drop_first());
        assert(total_children(s, Color::Black) == total_child(s[0], Color::Black)
            + total_children(s.drop_first(), Color::Black));
        assert(total_children(s, Color::White) == total_child(s[0], Color::White)
            + total_children(s.drop_first(), Color::White));
        assert(total_child(s[0], Color::Black) == -total_child(s[0], Color::White));
    }
}

/// A node none of whose children has been realized reports a search
/// volume of exactly one: itself.
pub proof fn lemma_unexpanded_size_is_one(n: GameTreeNode)
    requires
        forall|k: int| 0 <= k < n.children@.len() ==> (#[trigger] n.children@[k]).sub is None,
    ensures
        n.spec_size() == 1,
{
    if has_realized(n.children@) {
        let k = choose|k: int|
            0 <= k < n.children@.len() && (#[trigger] n.children@[k]).sub is Some;
    }
}

/// After one full level of expansion whose realized children are all
/// still unexpanded, the search volume is exactly the number of
/// children.
pub proof fn lemma_one_level_size(n: GameTreeNode)
    requires
        n.children@.len() >= 1,
        forall|k: int|
            0 <= k < n.children@.len() ==> ((#[trigger] n.children@[k]).sub matches Some(c) && (
            forall|k2: int| 0 <= k2 < c.children@.len() ==> (#[trigger] c.children@[k2]).sub is None)),
    ensures
        n.spec_size() == n.children@.len(),
{
    assert(n.children@[0].sub is Some);
    assert(has_realized(n.children@));
    lemma_size_children_all_leaf(n.children@);
}

/// A sequence of realized children that are all leaves has one unit
/// of volume per child.
proof fn lemma_size_children_all_leaf(s: Seq<Child>)
    requires
        forall|k: int|
            0 <= k < s.len() ==> ((#[trigger] s[k]).sub matches Some(c) && (forall|k2: int|
                0 <= k2 < c.children@.len() ==> (#[trigger] c.children@[k2]).sub is None)),
    ensures
        size_children(s) == s.len(),
    decreases s,
{
    if s.len() > 0 {
        assert(s[0].sub is Some);
        match s[0].sub {
            Some(c) => {
                lemma_unexpanded_size_is_one(c);
            },
            None => {},
        }
        assert forall|k: int|
            0 <= k < s.drop_first().len() implies ((#[trigger] s.drop_first()[k]).sub
            matches Some(c) && (forall|k2: int|
                0 <= k2 < c.children@.len() ==> (#[trigger] c.children@[k2]).sub is None)) by {
            assert(s.drop_first()[k] == s[k + 1]);
        }
        lemma_size_children_all_leaf(s.drop_first());
        assert(size_children(s) == size_child(s[0]) + size_children(s.drop_first()));
    }
}

/// A node with no realized child scores its own differential, and the
/// differential for Black is exactly the negation of the differential
/// for White: relabeling the side swaps the sign of a leaf's average.
pub proof fn lemma_leaf_avg_score_antisymmetric(n: GameTreeNode)
    requires
        forall|k: int| 0 <= k < n.children@.len() ==> (#[trigger] n.children@[k]).sub is None,
    ensures
        n.cnt() == 1,
        n.total(Color::Black) == -n.total(Color::White),
        n.total(Color::White) == spec_diff(n.board, Color::White),
{
    lemma_children_none(n.children@, Color::Black);
    lemma_children_none(n.children@, Color::White);
}

/// Relies on rand's slice shuffle (`SliceRandom::shuffle` with the
/// thread-local generator): it reorders the elements of the slice in
/// place and neither adds, drops nor changes any element, so the
/// result holds exactly the old elements as a multiset.
#[verifier::external_body]
fn shuffle_moves(v: &mut Vec<Move>)
    ensures
        final(v)@.to_multiset() == old(v)@.to_multiset(),
        final(v)@.len() == old(v)@.len(),
{
    v.as_mut_slice().shuffle(&mut rand::thread_rng());
}

impl GameTreeNode {
    /// Builds an unexpanded node: computes the legal moves of `turn`
    /// on `board`, shuffles them uniformly at random, and keeps the
    /// first `budget` of them as unrealized children.
    pub fn new(board: Board, turn: Color, budget: usize) -> (r: GameTreeNode)
        requires
            board.spec_has_king(Color::White) || board.spec_has_king(Color::Black),
        ensures
            r.board == board,
            r.turn == turn,
            r.budget == budget,
            r.wf(),
            r.cnt() == 1,
            forall|k: int| 0 <= k < r.children@.len() ==> (#[trigger] r.children@[k]).sub is None,
            r.children@.len() <= budget,
            (r.children@.len() == 0 <==> (budget == 0 || !(exists|m: Move|
                board.spec_legal_move(turn, m)))),
            forall|k1: int, k2: int|
                0 <= k1 < r.children@.len() && 0 <= k2 < r.children@.len() && k1 != k2 ==> (
                #[trigger] r.children@[k1]).mv != (#[trigger] r.children@[k2]).mv,
            (r.children@.len() < budget ==> (forall|m: Move|
                #[trigger] board.spec_legal_move(turn, m) ==> (exists|k2: int|
                    0 <= k2 < r.children@.len() && (#[trigger] r.children@[k2]).mv == m))),
    {
        let mut moves = board.legal_moves(turn);
        let ghost all_moves = moves@;
        shuffle_moves(&mut moves);
        let ghost shuffled = moves@;
        proof {
            assert forall|m: Move| shuffled.contains(m) <==> all_moves.contains(m) by {
                all_moves.to_multiset_ensures();
                shuffled.to_multiset_ensures();
                assert(all_moves.to_multiset().count(m) == shuffled.to_multiset().count(m));
            }
            if all_moves.len() > 0 {
                assert(all_moves.contains(all_moves[0]));
            }
            if shuffled.len() > 0 {
                assert(shuffled.contains(shuffled[0]));
            }
        }
        moves.truncate(budget);
        let ghost kept = moves@;
        let mut children: Vec<Child> = Vec::new();
        let mut k: usize = 0;
        while k < moves.len()
            invariant
                moves@ == kept,
                k <= kept.len(),
                children@.len() == k,
                forall|k2: int|
                    0 <= k2 < k ==> (#[trigger] children@[k2]).mv == kept[k2]
                        && children@[k2].sub is None,
            decreases moves@.len() - k,
        {
            let ch = Child { mv: moves[k], sub: None };
            children.push(ch);
            k = k + 1;
        }
        let r = GameTreeNode { board, turn, budget, children };
        proof {
            assert forall|k2: int|
                0 <= k2 < r.children@.len() implies r.board.spec_legal_move(
                r.turn,
                (#[trigger] r.children@[k2]).mv,
            ) by {
                assert(kept[k2] == shuffled[k2]);
                assert(shuffled.contains(shuffled[k2]));
            }
            lemma_children_none(r.children@, Color::White);
            assert(r.cnt() == 1);
            all_moves.lemma_multiset_has_no_duplicates();
            shuffled.lemma_multiset_has_no_duplicates_conv();
            assert forall|k1: int, k2: int|
                0 <= k1 < r.children@.len() && 0 <= k2 < r.children@.len() && k1
                    != k2 implies (#[trigger] r.children@[k1]).mv != (
            #[trigger] r.children@[k2]).mv by {
                assert(kept[k1] == shuffled[k1]);
                assert(kept[k2] == shuffled[k2]);
            }
            if budget > 0 {
                if exists|m: Move| board.spec_legal_move(turn, m) {
                    let m = choose|m: Move| board.spec_legal_move(turn, m);
                    assert(all_moves.contains(m));
                    assert(all_moves.len() > 0);
                    assert(kept.len() >= 1);
                } else {
                    assert(all_moves.len() == 0);
                    assert(kept.len() == 0);
                }
            }
            if r.children@.len() < budget {
                assert(kept == shuffled);
                assert forall|m: Move|
                    #[trigger] board.spec_legal_move(turn, m) implies (exists|k2: int|
                    0 <= k2 < r.children@.len() && (#[trigger] r.children@[k2]).mv == m) by {
                    assert(all_moves.contains(m));
                    assert(shuffled.contains(m));
                    let idx = choose|idx: int| 0 <= idx < shuffled.len() && shuffled[idx] == m;
                    assert(r.children@[idx].mv == kept[idx]);
                }
            }
        }
        r
    }

    /// Expands an unexpanded node in place: unless the game is already
    /// decided here or `depth` is 0, every sampled child is realized
    /// as a node for the position after its move, with the opposite
    /// side to move and half the budget, and is in turn expanded for
    /// `depth - 1`.
    pub fn exec_random_moves(&mut self, depth: usize)
        requires
            old(self).wf(),
            forall|k: int|
                0 <= k < old(self).children@.len() ==> (#[trigger] old(self).children@[k]).sub is None,
        ensures
            final(self).board == old(self).board,
            final(self).turn == old(self).turn,
            final(self).budget == old(self).budget,
            final(self).children@.len() == old(self).children@.len(),
            forall|k: int|
                0 <= k < old(self).children@.len() ==> (#[trigger] final(self).children@[k]).mv == old(self).children@[k].mv,
            final(self).wf(),
            final(self).cnt() <= spec_cap(old(self).budget as nat),
            final(self).expanded_to(depth as nat),
            (old(self).board.spec_status() is InPlay && depth >= 1) ==> (forall|k: int|
                0 <= k < old(self).children@.len() ==> (#[trigger] final(self).children@[k]).sub is Some),
            !(old(self).board.spec_status() is InPlay && depth >= 1) ==> *final(self) == *old(self),
        decreases depth,
    {
        proof {
            lemma_cap_at_least_one(old(self).budget as nat);
            lemma_children_none(old(self).children@, Color::White);
            assert(old(self).cnt() == 1);
        }
        if depth == 0 {
            proof {
                assert(self.expanded_to(0));
            }
            return;
        }
        let st = self.board.status();
        if let GameStatus::Finished(_) = st {
            proof {
                assert(!(self.board.spec_status() is InPlay));
                assert(self.expanded_to(depth as nat));
            }
            return;
        }
        let runs = self.budget / 2;
        let color = self.turn.other();
        let n = self.children.len();
        let mut new_children: Vec<Child> = Vec::new();
        let mut k: usize = 0;
        while k < n
            invariant
                *self == *old(self),
                old(self).wf(),
                old(self).board.spec_status() is InPlay,
                forall|k2: int|
                    0 <= k2 < old(self).children@.len() ==> (#[trigger] old(self).children@[k2]).sub is None,
                depth >= 1,
                runs == old(self).budget / 2,
                color == old(self).turn.spec_other(),
                n == old(self).children@.len(),
                k <= n,
                new_children@.len() == k,
                forall|k2: int|
                    0 <= k2 < k ==> (#[trigger] new_children@[k2]).mv == old(self).children@[k2].mv,
                forall|k2: int| 0 <= k2 < k ==> (#[trigger] new_children@[k2]).sub is Some,
                forall|k2: int|
                    0 <= k2 < k ==> ((#[trigger] new_children@[k2]).sub matches Some(c) ==> {
                        &&& c.budget == old(self).budget / 2
                        &&& c.turn == old(self).turn.spec_other()
                        &&& (forall|i: int, j: int|
                            0 <= i < 8 && 0 <= j < 8 ==> c.board.spec_at(i, j) == old(self).board.spec_moved_at(
                                new_children@[k2].mv.0,
                                new_children@[k2].mv.1,
                                i,
                                j,
                            ))
                        &&& c.wf()
                        &&& c.expanded_to((depth - 1) as nat)
                    }),
                cnt_children(new_children@) <= k * (spec_cap(runs as nat) as int),
            decreases n - k,
        {
            let mv = self.children[k].mv;
            proof {
                assert(old(self).board.spec_legal_move(old(self).turn, mv));
            }
            let nb = self.board.exec_move(&mv.0, &mv.1);
            proof {
                lemma_move_keeps_a_king(old(self).board, nb, mv.0, mv.1);
            }
            let mut node = GameTreeNode::new(nb, color, runs);
            node.exec_random_moves(depth - 1);
            let ghost prev = new_children@;
            let ghost pushed = Child { mv, sub: Some(node) };
            new_children.push(Child { mv, sub: Some(node) });
            proof {
                lemma_cnt_children_push(prev, pushed);
                lemma_mul_step(k as int, spec_cap(runs as nat) as int);
            }
            k = k + 1;
        }
        self.children = new_children;
        proof {
            lemma_mul_inequality(
                n as int,
                old(self).budget as int,
                spec_cap(runs as nat) as int,
            );
            if old(self).budget == 0 {
                assert(n == 0);
                assert(cnt_children(new_children@) == 0);
            }
            assert(self.cnt() <= spec_cap(old(self).budget as nat));
            assert forall|k2: int|
                0 <= k2 < self.children@.len() implies ((#[trigger] self.children@[k2]).sub
                matches Some(c) && c.expanded_to((depth - 1) as nat)) by {}
            assert(self.expanded_to(depth as nat));
        }
    }

    /// Installs a realized subtree as the child at `idx`. The node
    /// handed in must belong to that child's move — the board after
    /// the move, the opposite side, half the budget — exactly as
    /// `expand_root_child` returns it; well-formedness is preserved
    /// and the tree's node count grows by the subtree's.
    pub fn install_child(&mut self, idx: usize, node: GameTreeNode)
        requires
            old(self).wf(),
            idx < old(self).children@.len(),
            node.wf(),
            node.turn == old(self).turn.spec_other(),
            node.budget == old(self).budget / 2,
            forall|i: int, j: int|
                0 <= i < 8 && 0 <= j < 8 ==> node.board.spec_at(i, j) == old(
                    self,
                ).board.spec_moved_at(
                    old(self).children@[idx as int].mv.0,
                    old(self).children@[idx as int].mv.1,
                    i,
                    j,
                ),
        ensures
            final(self).wf(),
            final(self).board == old(self).board,
            final(self).turn == old(self).turn,
            final(self).budget == old(self).budget,
            final(self).children@.len() == old(self).children@.len(),
            forall|k: int|
                0 <= k < old(self).children@.len() ==> (#[trigger] final(self).children@[k]).mv
                    == old(self).children@[k].mv,
            forall|k: int|
                0 <= k < old(self).children@.len() && k != idx ==> (#[trigger] final(self).children@[k]).sub == old(self).children@[k].sub,
            final(self).children@[idx as int].sub == Some(node),
            final(self).cnt() + cnt_child(old(self).children@[idx as int]) == old(self).cnt()
                + node.cnt(),
    {
        let mv = self.children[idx].mv;
        self.children[idx] = Child { mv, sub: Some(node) };
        proof {
            let ghost newc = Child { mv, sub: Some(node) };
            assert(self.children@ == old(self).children@.update(idx as int, newc));
            lemma_cnt_children_update(old(self).children@, idx as int, newc);
            assert forall|k: int|
                0 <= k < self.children@.len() implies self.board.spec_legal_move(
                self.turn,
                (#[trigger] self.children@[k]).mv,
            ) by {
                if k != idx {
                    assert(self.children@[k] == old(self).children@[k]);
                }
            }
            assert forall|k: int|
                0 <= k < self.children@.len() implies ((#[trigger] self.children@[k]).sub
                matches Some(c) ==> {
                &&& c.budget == self.budget / 2
                &&& c.turn == self.turn.spec_other()
                &&& (forall|i: int, j: int|
                    0 <= i < 8 && 0 <= j < 8 ==> c.board.spec_at(i, j)
                        == self.board.spec_moved_at(
                        self.children@[k].mv.0,
                        self.children@[k].mv.1,
                        i,
                        j,
                    ))
                &&& c.wf()
            }) by {
                if k != idx {
                    assert(self.children@[k] == old(self).children@[k]);
                }
            }
            assert(self.wf());
        }
    }
}

/// The node cap is at least 1 for every budget.
proof fn lemma_cap_at_least_one(b: nat)
    ensures
        spec_cap(b) >= 1,
{
}

/// Replacing one child swaps its count in the count of the sequence.
proof fn lemma_cnt_children_update(s: Seq<Child>, i: int, c: Child)
    requires
        0 <= i < s.len(),
    ensures
        cnt_children(s.update(i, c)) + cnt_child(s[i]) == cnt_children(s) + cnt_child(c),
    decreases s.len(),
{
    if i == 0 {
        assert(s.update(0, c)[0] == c);
        assert(s.update(0, c).drop_first() =~= s.drop_first());
    } else {
        assert(s.update(i, c)[0] == s[0]);
        assert(s.update(i, c).drop_first() =~= s.drop_first().update(i - 1, c));
        lemma_cnt_children_update(s.drop_first(), i - 1, c);
        assert(s.drop_first()[i - 1] == s[i]);
    }
}

/// One unit of the root fan-out: realizes the subtree behind one
/// sampled move of `board`, for the opposite side with half the
/// parent's budget, expanded for `depth - 1` further plies. Each such
/// unit is independent, so a host may run them on separate workers and
/// hand the results to `install_child`.
pub fn expand_root_child(
    board: &Board,
    mv: Move,
    turn: Color,
    budget: usize,
    depth: usize,
) -> (r: GameTreeNode)
    requires
        board.spec_status() is InPlay,
        board.spec_legal_move(turn, mv),
        depth >= 1,
    ensures
        r.wf(),
        r.turn == turn.spec_other(),
        r.budget == budget / 2,
        forall|i: int, j: int|
            0 <= i < 8 && 0 <= j < 8 ==> r.board.spec_at(i, j) == board.spec_moved_at(
                mv.0,
                mv.1,
                i,
                j,
            ),
        r.cnt() <= spec_cap((budget / 2) as nat),
        r.expanded_to((depth - 1) as nat),
{
    let nb = board.exec_move(&mv.0, &mv.1);
    proof {
        lemma_move_keeps_a_king(*board, nb, mv.0, mv.1);
    }
    let mut node = GameTreeNode::new(nb, turn.other(), budget / 2);
    node.exec_random_moves(depth - 1);
    node
}

/// Appending a child realizes the sequence exactly when the sequence
/// already was realized or the new child is.
proof fn lemma_has_realized_push(s: Seq<Child>, c: Child)
    ensures
        has_realized(s.push(c)) <==> (has_realized(s) || c.sub is Some),
{
    if has_realized(s.push(c)) {
        let k = choose|k: int| 0 <= k < s.push(c).len() && (#[trigger] s.push(c)[k]).sub is Some;
        if k < s.len() {
            assert((s[k]).sub is Some);
        } else {
            assert(s.push(c)[s.len() as int] == c);
        }
    }
    if has_realized(s) {
        let k = choose|k: int| 0 <= k < s.len() && (#[trigger] s[k]).sub is Some;
        assert((s.push(c)[k]).sub is Some);
    }
    if c.sub is Some {
        assert((s.push(c)[s.len() as int]).sub is Some);
    }
}

/// The average of `a` is at most the average of `b` for `color`, the
/// two averages compared as exact fractions by cross-multiplication.
pub open spec fn avg_le(a: GameTreeNode, b: GameTreeNode, color: Color) -> bool {
    a.total(color) * (b.cnt() as int) <= b.total(color) * (a.cnt() as int)
}

/// The average of `a` is strictly below the average of `b` for
/// `color`.
pub open spec fn avg_lt(a: GameTreeNode, b: GameTreeNode, color: Color) -> bool {
    a.total(color) * (b.cnt() as int) < b.total(color) * (a.cnt() as int)
}

/// The child at index `k` carries move `m`, is realized, scores at
/// least as well as every realized child, and strictly better than
/// every realized child before it: it is the first child with the best
/// average.
pub open spec fn selected_at(tree: GameTreeNode, turn: Color, k: int, m: Move) -> bool {
    &&& 0 <= k < tree.children@.len()
    &&& tree.children@[k].sub is Some
    &&& tree.children@[k].mv == m
    &&& forall|j: int|
        0 <= j < tree.children@.len() && (#[trigger] tree.children@[j]).sub is Some ==> avg_le(
            tree.children@[j].sub->Some_0,
            tree.children@[k].sub->Some_0,
            turn,
        )
    &&& forall|j: int|
        0 <= j < k && (#[trigger] tree.children@[j]).sub is Some ==> avg_lt(
            tree.children@[j].sub->Some_0,
            tree.children@[k].sub->Some_0,
            turn,
        )
}

/// Ordering of exact fractions with positive denominators carries over
/// a strict step: if a <= b and b < c as fractions, then a < c.
proof fn lemma_avg_lt_trans(ta: int, ca: int, tb: int, cb: int, tc: int, cc: int)
    requires
        ca >= 1,
        cb >= 1,
        cc >= 1,
        ta * cb <= tb * ca,
        tb * cc < tc * cb,
    ensures
        ta * cc < tc * ca,
    {
    assert((ta * cb) * cc <= (tb * ca) * cc) by (nonlinear_arith)
        requires
            cc >= 1,
            ta * cb <= tb * ca,
    ;
    assert((tb * cc) * ca < (tc * cb) * ca) by (nonlinear_arith)
        requires
            ca >= 1,
            tb * cc < tc * cb,
    ;
    assert((ta * cc) * cb < (tc * ca) * cb) by (nonlinear_arith)
        requires
            (ta * cb) * cc <= (tb * ca) * cc,
            (tb * cc) * ca < (tc * cb) * ca,
    ;
    assert(ta * cc < tc * ca) by (nonlinear_arith)
        requires
            cb >= 1,
            (ta * cc) * cb < (tc * ca) * cb,
    ;
}

impl GameTreeNode {
    /// The average score of this node for `color`, as an exact
    /// fraction: the summed differential over the realized tree,
    /// paired with the number of its nodes — the flat, equal-weight
    /// average over the node and all its realized descendants (see
    /// `total` for why the nested average-of-averages is not used). A
    /// node with no realized child reports its own differential over
    /// a count of one.
    pub fn avg_score(&self, color: Color) -> (r: (i64, u64))
        requires
            self.wf(),
            self.cnt() <= MAX_TREE_NODES as nat,
        ensures
            r.0 == self.total(color),
            r.1 == self.cnt(),
            r.1 >= 1,
        decreases self.cnt(),
    {
        let (w, b) = self.board.score();
        let diff: i64 = match color {
            Color::Black => b as i64 - w as i64,
            Color::White => w as i64 - b as i64,
        };
        proof {
            lemma_diff_bound(self.board, color);
        }
        let mut sum: i64 = diff;
        let mut count: u64 = 1;
        let mut k: usize = 0;
        while k < self.children.len()
            invariant
                self.wf(),
                self.cnt() <= MAX_TREE_NODES as nat,
                k <= self.children@.len(),
                count == 1 + cnt_children(self.children@.take(k as int)),
                sum == spec_diff(self.board, color) + total_children(
                    self.children@.take(k as int),
                    color,
                ),
                count <= self.cnt(),
                -576 * (count as int) <= sum <= 576 * (count as int),
            decreases self.children@.len() - k,
        {
            let ghost pre = self.children@.take(k as int);
            proof {
                assert(self.children@.take(k as int + 1) =~= pre.push(self.children@[k as int]));
                lemma_cnt_children_push(pre, self.children@[k as int]);
                lemma_total_children_push(pre, self.children@[k as int], color);
                lemma_cnt_children_take_le(self.children@, k as int + 1);
                lemma_diff_bound(self.board, color);
            }
            let ch = &self.children[k];
            match &ch.sub {
                Some(node) => {
                    proof {
                        lemma_cnt_child_le(self.children@, k as int);
                        lemma_total_bound(*node, color);
                    }
                    let (s2, c2) = node.avg_score(color);
                    sum = sum + s2;
                    count = count + c2;
                },
                None => {},
            }
            k = k + 1;
        }
        proof {
            assert(self.children@.take(self.children@.len() as int) =~= self.children@);
        }
        (sum, count)
    }

    /// The search volume of the realized tree: 1 for a node with no
    /// realized child, else the summed volume of the realized
    /// children.
    pub fn size(&self) -> (r: usize)
        requires
            self.wf(),
            self.cnt() <= MAX_TREE_NODES as nat,
        ensures
            r == self.spec_size(),
        decreases self.cnt(),
    {
        let mut total: u64 = 0;
        let mut any: bool = false;
        let mut k: usize = 0;
        while k < self.children.len()
            invariant
                self.wf(),
                self.cnt() <= MAX_TREE_NODES as nat,
                k <= self.children@.len(),
                any <==> has_realized(self.children@.take(k as int)),
                total == size_children(self.children@.take(k as int)),
                total <= cnt_children(self.children@.take(k as int)),
            decreases self.children@.len() - k,
        {
            let ghost pre = self.children@.take(k as int);
            proof {
                assert(self.children@.take(k as int + 1) =~= pre.push(self.children@[k as int]));
                lemma_cnt_children_push(pre, self.children@[k as int]);
                lemma_size_children_push(pre, self.children@[k as int]);
                lemma_has_realized_push(pre, self.children@[k as int]);
                lemma_cnt_children_take_le(self.children@, k as int + 1);
            }
            let ch = &self.children[k];
            match &ch.sub {
                Some(node) => {
                    proof {
                        lemma_cnt_child_le(self.children@, k as int);
                        lemma_size_le_cnt(*node);
                    }
                    let s2 = node.size();
                    total = total + s2 as u64;
                    any = true;
                },
                None => {},
            }
            k = k + 1;
        }
        proof {
            assert(self.children@.take(self.children@.len() as int) =~= self.children@);
        }
        if !any {
            1
        } else {
            total as usize
        }
    }
}

/// Picks the root child with the strictly greatest average score for
/// `turn`; among ties the earliest realized child wins. Returns no
/// move exactly when no child has been realized.
pub fn select_move(tree: &GameTreeNode, turn: Color) -> (r: Option<Move>)
    requires
        tree.wf(),
        tree.cnt() <= MAX_TREE_NODES as nat,
    ensures
        r is None <==> !has_realized(tree.children@),
        r matches Some(m) ==> exists|k: int| selected_at(*tree, turn, k, m),
{
    let mut best: Option<(Move, i64, u64)> = None;
    let ghost mut bi: int = 0;
    let mut k: usize = 0;
    while k < tree.children.len()
        invariant
            tree.wf(),
            tree.cnt() <= MAX_TREE_NODES as nat,
            k <= tree.children@.len(),
            best is None <==> !has_realized(tree.children@.take(k as int)),
            best matches Some(t) ==> {
                &&& 0 <= bi < k
                &&& tree.children@[bi].sub is Some
                &&& tree.children@[bi].mv == t.0
                &&& t.1 == tree.children@[bi].sub->Some_0.total(turn)
                &&& t.2 == tree.children@[bi].sub->Some_0.cnt()
                &&& t.2 >= 1
                &&& -576 * (t.2 as int) <= t.1 <= 576 * (t.2 as int)
                &&& t.2 <= MAX_TREE_NODES
                &&& (forall|j: int|
                    0 <= j < k && (#[trigger] tree.children@[j]).sub is Some ==> avg_le(
                        tree.children@[j].sub->Some_0,
                        tree.children@[bi].sub->Some_0,
                        turn,
                    ))
                &&& (forall|j: int|
                    0 <= j < bi && (#[trigger] tree.children@[j]).sub is Some ==> avg_lt(
                        tree.children@[j].sub->Some_0,
                        tree.children@[bi].sub->Some_0,
                        turn,
                    ))
            },
        decreases tree.children@.len() - k,
    {
        let ghost pre = tree.children@.take(k as int);
        proof {
            assert(tree.children@.take(k as int + 1) =~= pre.push(tree.children@[k as int]));
            lemma_has_realized_push(pre, tree.children@[k as int]);
        }
        let ch = &tree.children[k];
        match &ch.sub {
            Some(node) => {
                proof {
                    lemma_cnt_child_le(tree.children@, k as int);
                    lemma_total_bound(*node, turn);
                }
                let (s2, c2) = node.avg_score(turn);
                match best {
                    None => {
                        best = Some((ch.mv, s2, c2));
                        proof {
                            bi = k as int;
                            assert forall|j: int|
                                0 <= j < k implies !((#[trigger] tree.children@[j]).sub
                                is Some) by {
                                assert(pre[j] == tree.children@[j]);
                            }
                        }
                    },
                    Some((bm, bs, bc)) => {
                        proof {
                            assert(c2 as int <= 0x4000_0000);
                            assert(bc as int <= 0x4000_0000);
                            assert(-0x90_0000_0000 <= s2 as int <= 0x90_0000_0000);
                            assert(-0x90_0000_0000 <= bs as int <= 0x90_0000_0000);
                            assert(-0x24_0000_0000_0000_0000 <= (s2 as int) * (bc as int)
                                <= 0x24_0000_0000_0000_0000) by (nonlinear_arith)
                                requires
                                    -0x90_0000_0000 <= s2 as int <= 0x90_0000_0000,
                                    0 <= bc as int <= 0x4000_0000,
                            ;
                            assert(-0x24_0000_0000_0000_0000 <= (bs as int) * (c2 as int)
                                <= 0x24_0000_0000_0000_0000) by (nonlinear_arith)
                                requires
                                    -0x90_0000_0000 <= bs as int <= 0x90_0000_0000,
                                    0 <= c2 as int <= 0x4000_0000,
                            ;
                        }
                        if (s2 as i128) * (bc as i128) > (bs as i128) * (c2 as i128) {
                            proof {
                                let ghost obi = bi;
                                assert forall|j: int|
                                    0 <= j < k && (#[trigger] tree.children@[j]).sub
                                        is Some implies avg_lt(
                                    tree.children@[j].sub->Some_0,
                                    *node,
                                    turn,
                                ) by {
                                    let a = tree.children@[j].sub->Some_0;
                                    let bnode = tree.children@[obi].sub->Some_0;
                                    assert(a.cnt() >= 1);
                                    assert(bnode.cnt() >= 1);
                                    assert(node.cnt() >= 1);
                                    assert(avg_le(a, bnode, turn));
                                    lemma_avg_lt_trans(
                                        a.total(turn),
                                        a.cnt() as int,
                                        bnode.total(turn),
                                        bnode.cnt() as int,
                                        node.total(turn),
                                        node.cnt() as int,
                                    );
                                }
                                bi = k as int;
                            }
                            best = Some((ch.mv, s2, c2));
                        } else {
                            best = Some((bm, bs, bc));
                        }
                    },
                }
            },
            None => {},
        }
        k = k + 1;
    }
    proof {
        assert(tree.children@.take(tree.children@.len() as int) =~= tree.children@);
    }
    let res: Option<Move> = match best {
        Some((m, _s, _c)) => Some(m),
        None => None,
    };
    proof {
        if res is Some {
            assert(selected_at(*tree, turn, bi, res->Some_0));
        }
    }
    res
}

/// Recommends a move for `turn` on `board`: builds a root node with a
/// branching budget of 64, expands it to depth 5, and returns the root
/// move with the strictly greatest average score, the earliest seen
/// winning ties. Returns no move exactly when the game is already
/// decided or `turn` has no legal move; any returned move is legal.
pub fn next_move(board: &Board, turn: Color) -> (r: Option<Move>)
    requires
        board.spec_has_king(Color::White) || board.spec_has_king(Color::Black),
    ensures
        r matches Some(m) ==> board.spec_legal_move(turn, m),
        r is None <==> (board.spec_status() is Finished || !(exists|m: Move|
            board.spec_legal_move(turn, m))),
{
    let mut tree = GameTreeNode::new(*board, turn, 64);
    tree.exec_random_moves(5);
    proof {
        assert(spec_cap(0) == 1);
        assert(spec_cap(1) == 2);
        assert(spec_cap(2) == 5);
        assert(spec_cap(4) == 21);
        assert(spec_cap(8) == 169);
        assert(spec_cap(16) == 2705);
        assert(spec_cap(32) == 86561);
        assert(spec_cap(64) == 5539905);
    }
    let r = select_move(&tree, turn);
    proof {
        if board.spec_status() is Finished || !(exists|m: Move|
            board.spec_legal_move(turn, m)) {
            if tree.children@.len() > 0 {
                assert(tree.children@[0].sub is None);
                if has_realized(tree.children@) {
                    let k = choose|k: int|
                        0 <= k < tree.children@.len() && (#[trigger] tree.children@[k]).sub
                            is Some;
                }
            }
        } else {
            assert(tree.children@.len() > 0);
            assert(tree.children@[0].sub is Some);
            assert(has_realized(tree.children@));
        }
        if r is Some {
            let m = r->Some_0;
            let k = choose|k: int| selected_at(tree, turn, k, m);
            assert(tree.board.spec_legal_move(tree.turn, tree.children@[k].mv));
        }
    }
    r
}

} // verus!
