//! The rules capability: what the search needs to know about a game.

use vstd::prelude::*;

verus! {

/// A player, or nobody (a drawn result, or no side to move).
#[derive(Clone, Copy, Debug, PartialEq, Eq, Structural)]
pub enum Player {
    Neither,
    First,
    Second,
}

impl Player {
    /// The other side; nobody stays nobody.
    pub fn opposite(self) -> (r: Player)
        ensures
            r == match self {
                Player::Neither => Player::Neither,
                Player::First => Player::Second,
                Player::Second => Player::First,
            },
    {
        match self {
            Player::Neither => Player::Neither,
            Player::First => Player::Second,
            Player::Second => Player::First,
        }
    }
}

/// Allows the extraction of the index of a move in a policy distribution.
pub trait MovePolicyIndex: Sized {
    /// The slot of this move in the policy vector.
    spec fn spec_policy_index(&self) -> nat;

    /// The index of the move in the policy distribution.
    fn policy_index(&self) -> (r: usize)
        ensures
            r == self.spec_policy_index(),
    ;
}

/// The rules of a deterministic two-player game of perfect information.
///
/// Each operation is pure: its result depends on its arguments alone, as the
/// spec functions that the contracts name say.
pub trait GameImpl: Sized + Copy {
    /// The associated move type.
    type Move: Copy + MovePolicyIndex;

    /// The length of the policy vector.
    spec fn spec_policy_dim() -> nat;

    /// The number of feature planes' cells: the length of one input row.
    spec fn spec_feature_dim() -> nat;

    /// The side to move.
    spec fn spec_to_move(&self) -> Player;

    /// The result, or `None` while the game goes on.
    spec fn spec_outcome(&self) -> Option<Player>;

    /// The position after `mv` is played.
    spec fn spec_after(&self, mv: Self::Move) -> Self;

    /// The legal moves, in generation order.
    spec fn spec_legal_moves(&self) -> Seq<Self::Move>;

    /// The indices of the input features that are 1 for this position, from
    /// the point of view of the side to move.
    spec fn spec_features(&self) -> Seq<usize>;

    /// The starting position.
    fn start() -> Self;

    /// The length of the policy vector.
    fn policy_dim() -> (r: usize)
        ensures
            r == Self::spec_policy_dim(),
    ;

    /// The length of one input row.
    fn feature_dim() -> (r: usize)
        ensures
            r == Self::spec_feature_dim(),
    ;

    /// Which player is to move.
    fn to_move(&self) -> (r: Player)
        ensures
            r == self.spec_to_move(),
    ;

    /// The outcome of the game.
    fn outcome(&self) -> (r: Option<Player>)
        ensures
            r == self.spec_outcome(),
    ;

    /// Make a move.
    fn make_move(&mut self, mv: Self::Move)
        ensures
            *final(self) == old(self).spec_after(mv),
    ;

    /// The legal moves; each has a slot of its own in the policy vector. A
    /// game that is not over has at least one.
    fn legal_moves(&self) -> (r: Vec<Self::Move>)
        ensures
            r@ == self.spec_legal_moves(),
            self.spec_outcome() is None ==> r@.len() > 0,
            forall|i: int| 0 <= i < r@.len() ==> (#[trigger] r@[i]).spec_policy_index() < Self::spec_policy_dim(),
            forall|i: int, j: int|
                0 <= i < r@.len() && 0 <= j < r@.len() && i != j ==> (#[trigger] r@[i]).spec_policy_index()
                    != (#[trigger] r@[j]).spec_policy_index(),
    ;

    /// The indices of the features that are 1, each once, each within one row.
    fn feature_indices(&self) -> (r: Vec<usize>)
        ensures
            r@ == self.spec_features(),
            r@.no_duplicates(),
            forall|i: int| 0 <= i < r@.len() ==> (#[trigger] r@[i]) < Self::spec_feature_dim(),
    ;

    /// Whether two moves are the same move.
    fn same_move(a: &Self::Move, b: &Self::Move) -> (r: bool)
        ensures
            r == (*a == *b),
    ;
}

/// The shape of the network input for `batch_size` positions.
pub fn tensor_dims<G: GameImpl>(batch_size: usize) -> (r: Vec<usize>)
    ensures
        r@ == seq![batch_size, G::spec_feature_dim() as usize],
{
    let d = G::feature_dim();
    let r = vec![batch_size, d];
    assert(r@ =~= seq![batch_size, G::spec_feature_dim() as usize]);
    r
}

/// Whether `mv` is one of the legal moves of `pos`.
pub open spec fn is_legal<G: GameImpl>(pos: G, mv: G::Move) -> bool {
    pos.spec_legal_moves().contains(mv)
}

/// Whether `mv` is a legal move in `pos`.
pub fn move_is_legal<G: GameImpl>(pos: &G, mv: &G::Move) -> (r: bool)
    ensures
        r == is_legal(*pos, *mv),
{
    let moves = pos.legal_moves();
    let mut i: usize = 0;
    while i < moves.len()
        invariant
            moves@ == pos.spec_legal_moves(),
            i <= moves@.len(),
            forall|j: int| 0 <= j < i ==> moves@[j] != *mv,
        decreases moves@.len() - i,
    {
        if G::same_move(&moves[i], mv) {
            return true;
        }
        i = i + 1;
    }
    false
}

} // verus!
