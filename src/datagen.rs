//! Self-play records and the rows of training data made from them.

use vstd::prelude::*;

use rand::Rng;

use crate::game::{GameImpl, Player};

verus! {

#[verifier::external_type_specification]
#[verifier::external_body]
pub struct ExThreadRng(rand::rngs::ThreadRng);

/// Relies on `rand::Rng::gen_range` (rand 0.8): a value drawn from `0..n`,
/// which must not be empty.
#[verifier::external_body]
fn random_below(rng: &mut rand::rngs::ThreadRng, n: usize) -> (r: usize)
    requires
        n > 0,
    ensures
        r < n,
{
    rng.gen_range(0..n)
}

/// The position reached from `root` by playing `moves` in order.
pub open spec fn replay<G: GameImpl>(root: G, moves: Seq<G::Move>) -> G
    decreases moves.len(),
{
    if moves.len() == 0 {
        root
    } else {
        replay(root, moves.drop_last()).spec_after(moves.last())
    }
}

/// Plays `moves` from `root`.
pub fn replay_moves<G: GameImpl>(root: &G, moves: &Vec<G::Move>) -> (r: G)
    ensures
        r == replay(*root, moves@),
{
    let mut pos = *root;
    let mut i: usize = 0;
    while i < moves.len()
        invariant
            i <= moves@.len(),
            pos == replay(*root, moves@.subrange(0, i as int)),
        decreases moves@.len() - i,
    {
        assert(moves@.subrange(0, i + 1).drop_last() =~= moves@.subrange(0, i as int));
        pos.make_move(moves[i]);
        i = i + 1;
    }
    assert(moves@.subrange(0, moves@.len() as int) =~= moves@);
    pos
}

/// Each of `moves` is legal where it is played, from `root` on.
pub open spec fn legal_line<G: GameImpl>(root: G, moves: Seq<G::Move>) -> bool {
    forall|j: int|
        0 <= j < moves.len() ==> replay(root, moves.subrange(0, j)).spec_legal_moves().contains(
            #[trigger] moves[j],
        )
}

/// Plays a random opening from `start`: eight or nine plies, each a move
/// drawn uniformly from the legal ones. A ply with no legal move is skipped.
pub fn random_opening<G: GameImpl>(start: &G, rng: &mut rand::rngs::ThreadRng) -> (r: G)
    ensures
        exists|moves: Seq<G::Move>|
            {
                &&& moves.len() <= 9
                &&& (moves.len() >= 8 || replay(*start, moves).spec_legal_moves().len() == 0)
                &&& legal_line(*start, moves)
                &&& r == replay(*start, moves)
            },
{
    let plies = 8 + random_below(rng, 2);
    let mut pos = *start;
    let ghost mut played: Seq<G::Move> = seq![];
    let mut i: usize = 0;
    while i < plies
        invariant
            i <= plies,
            plies <= 9,
            played.len() <= i,
            played.len() >= i || pos.spec_legal_moves().len() == 0,
            legal_line(*start, played),
            pos == replay(*start, played),
        decreases plies - i,
    {
        let moves = pos.legal_moves();
        if moves.len() > 0 {
            assert(played.len() >= i);
            let k = random_below(rng, moves.len());
            let mv = moves[k];
            proof {
                let next = played.push(mv);
                assert(next.drop_last() =~= played);
                assert forall|j: int| 0 <= j < next.len() implies replay(*start, next.subrange(0, j)).spec_legal_moves().contains(
                    #[trigger] next[j],
                ) by {
                    if j < played.len() {
                        assert(next.subrange(0, j) =~= played.subrange(0, j));
                        assert(next[j] == played[j]);
                    } else {
                        assert(next.subrange(0, j) =~= played);
                        assert(moves@[k as int] == mv);
                    }
                }
                played = next;
            }
            pos.make_move(mv);
        }
        i = i + 1;
    }
    assert(played.len() >= 8 || replay(*start, played).spec_legal_moves().len() == 0);
    pos
}

/// A game of self-play: where it started, each move with the root visit
/// distribution of the search that chose it, and the result.
pub struct GameRecord<G: GameImpl> {
    root: G,
    moves: Vec<G::Move>,
    dists: Vec<Vec<u64>>,
    position: G,
    outcome: Option<Player>,
}

impl<G: GameImpl> GameRecord<G> {
    pub closed spec fn spec_root(&self) -> G {
        self.root
    }

    pub closed spec fn spec_moves(&self) -> Seq<G::Move> {
        self.moves@
    }

    pub closed spec fn spec_dists(&self) -> Seq<Seq<u64>> {
        self.dists@.map_values(|d: Vec<u64>| d@)
    }

    /// The position after the recorded moves.
    pub closed spec fn spec_position(&self) -> G {
        self.position
    }

    pub closed spec fn spec_outcome(&self) -> Option<Player> {
        self.outcome
    }

    /// The record's invariant: the current position is the replay of the
    /// moves, and each move has its distribution.
    pub closed spec fn wf(&self) -> bool {
        &&& self.position == replay(self.root, self.moves@)
        &&& self.dists@.len() == self.moves@.len()
        &&& forall|i: int| 0 <= i < self.dists@.len() ==> (#[trigger] self.dists@[i])@.len() == G::spec_policy_dim()
    }

    /// An empty record of a game starting at `root`.
    pub fn new(root: &G) -> (r: Self)
        ensures
            r.wf(),
            r.spec_root() == *root,
            r.spec_moves().len() == 0,
            r.spec_position() == *root,
            r.spec_outcome() is None,
    {
        Self { root: *root, moves: Vec::new(), dists: Vec::new(), position: *root, outcome: None }
    }

    /// The position after the recorded moves.
    pub fn position(&self) -> (r: G)
        ensures
            r == self.spec_position(),
    {
        self.position
    }

    /// The starting position.
    pub fn root(&self) -> (r: G)
        ensures
            r == self.spec_root(),
    {
        self.root
    }

    /// The recorded result.
    pub fn outcome(&self) -> (r: Option<Player>)
        ensures
            r == self.spec_outcome(),
    {
        self.outcome
    }

    /// The number of recorded moves.
    pub fn len(&self) -> (r: usize)
        ensures
            r == self.spec_moves().len(),
    {
        self.moves.len()
    }

    /// Plays `mv`, chosen by a search with root visit distribution `dist`.
    pub fn play(&mut self, mv: G::Move, dist: Vec<u64>)
        requires
            old(self).wf(),
            dist@.len() == G::spec_policy_dim(),
        ensures
            final(self).wf(),
            final(self).spec_root() == old(self).spec_root(),
            final(self).spec_moves() == old(self).spec_moves().push(mv),
            final(self).spec_dists() == old(self).spec_dists().push(dist@),
            final(self).spec_position() == old(self).spec_position().spec_after(mv),
            final(self).spec_outcome() == old(self).spec_outcome(),
    {
        let ghost d = dist@;
        self.position.make_move(mv);
        self.moves.push(mv);
        self.dists.push(dist);
        assert(self.moves@.drop_last() =~= old(self).moves@);
        assert(self.dists@.map_values(|d: Vec<u64>| d@) =~= old(self).dists@.map_values(|d: Vec<u64>| d@).push(d));
    }

    /// Records the result of the current position; returns whether the game
    /// is over there.
    pub fn finish(&mut self) -> (r: bool)
        requires
            old(self).wf(),
        ensures
            final(self).wf(),
            r == (old(self).spec_position().spec_outcome() is Some),
            final(self).spec_outcome() == old(self).spec_position().spec_outcome(),
            final(self).spec_root() == old(self).spec_root(),
            final(self).spec_moves() == old(self).spec_moves(),
            final(self).spec_dists() == old(self).spec_dists(),
            final(self).spec_position() == old(self).spec_position(),
    {
        self.outcome = self.position.outcome();
        self.outcome.is_some()
    }

    /// Every recorded visit distribution has one entry per policy slot.
    pub proof fn lemma_dist_lengths(&self)
        requires
            self.wf(),
        ensures
            forall|i: int| 0 <= i < self.spec_dists().len() ==> (#[trigger] self.spec_dists()[i]).len() == G::spec_policy_dim(),
    {
        assert forall|i: int| 0 <= i < self.spec_dists().len() implies (#[trigger] self.spec_dists()[i]).len() == G::spec_policy_dim() by {
            assert(self.dists@[i]@.len() == G::spec_policy_dim());
        }
    }

    /// Replaying the recorded moves from the starting position gives the
    /// current position; for a finished game, the final one.
    pub proof fn lemma_replay_is_position(&self)
        requires
            self.wf(),
        ensures
            replay(self.spec_root(), self.spec_moves()) == self.spec_position(),
    {
    }

    /// The training rows of the game, one per recorded move: the feature
    /// bits of the position where it was played, the visit distribution of
    /// its search, and the value target for the side to move there.
    pub fn rows(&self) -> (r: Vec<TrainingRow>)
        requires
            self.wf(),
            self.spec_outcome() is Some,
        ensures
            r@.len() == self.spec_moves().len(),
            forall|i: int|
                0 <= i < r@.len() ==> {
                    let pos = replay(self.spec_root(), self.spec_moves().subrange(0, i));
                    &&& (#[trigger] r@[i]).positions@ == csv_digits(bits_of(pos.spec_features(), G::spec_feature_dim()))
                    &&& r@[i].policy@ == csv_counts(self.spec_dists()[i])
                    &&& r@[i].value@ == value_target(self.spec_outcome()->0, pos.spec_to_move())
                },
    {
        let outcome = match self.outcome {
            Some(o) => o,
            None => Player::Neither,
        };
        let mut out: Vec<TrainingRow> = Vec::new();
        let mut board = self.root;
        let mut i: usize = 0;
        while i < self.moves.len()
            invariant
                self.wf(),
                outcome == self.spec_outcome()->0,
                i <= self.moves@.len(),
                out@.len() == i,
                board == replay(self.root, self.moves@.subrange(0, i as int)),
                forall|k: int|
                    0 <= k < i ==> {
                        let pos = replay(self.spec_root(), self.spec_moves().subrange(0, k));
                        &&& (#[trigger] out@[k]).positions@ == csv_digits(bits_of(pos.spec_features(), G::spec_feature_dim()))
                        &&& out@[k].policy@ == csv_counts(self.spec_dists()[k])
                        &&& out@[k].value@ == value_target(self.spec_outcome()->0, pos.spec_to_move())
                    },
            decreases self.moves@.len() - i,
        {
            let bits = feature_bits(&board);
            let positions = csv_bits(&bits);
            let policy = csv_counts_of(&self.dists[i]);
            let value = value_target_of(outcome, board.to_move());
            out.push(TrainingRow { positions, policy, value });
            assert(self.moves@.subrange(0, i + 1).drop_last() =~= self.moves@.subrange(0, i as int));
            board.make_move(self.moves[i]);
            i = i + 1;
        }
        out
    }
}

/// One ply of training data, as the bytes of three CSV lines (without their
/// line ends).
pub struct TrainingRow {
    /// The feature bits of the position.
    pub positions: Vec<u8>,
    /// The root visit distribution of the search, each count with three
    /// decimals.
    pub policy: Vec<u8>,
    /// The result for the side to move: `1.0`, `0.0` or `0.5`.
    pub value: Vec<u8>,
}

/// The indicator vector of `features` over `0..dim`.
pub open spec fn bits_of(features: Seq<usize>, dim: nat) -> Seq<u8> {
    Seq::new(dim, |i: int| if features.contains(i as usize) { 1u8 } else { 0u8 })
}

pub open spec fn bit_sum(s: Seq<u8>) -> int
    decreases s.len(),
{
    if s.len() == 0 {
        0
    } else {
        bit_sum(s.drop_last()) + s.last()
    }
}

proof fn lemma_bit_sum_update(s: Seq<u8>, i: int, v: u8)
    requires
        0 <= i < s.len(),
    ensures
        bit_sum(s.update(i, v)) == bit_sum(s) - s[i] + v,
    decreases s.len(),
{
    let u = s.update(i, v);
    if i == s.len() - 1 {
        assert(u.drop_last() =~= s.drop_last());
    } else {
        lemma_bit_sum_update(s.drop_last(), i, v);
        assert(u.drop_last() =~= s.drop_last().update(i, v));
    }
}

proof fn lemma_bit_sum_zeros(n: nat)
    ensures
        bit_sum(Seq::new(n, |i: int| 0u8)) == 0,
    decreases n,
{
    if n > 0 {
        lemma_bit_sum_zeros((n - 1) as nat);
        assert(Seq::new(n, |i: int| 0u8).drop_last() =~= Seq::new((n - 1) as nat, |i: int| 0u8));
    }
}

/// The feature bits of `pos`: one per input cell, 1 where the position's
/// feature map marks it.
pub fn feature_bits<G: GameImpl>(pos: &G) -> (r: Vec<u8>)
    ensures
        r@ == bits_of(pos.spec_features(), G::spec_feature_dim()),
        bit_sum(r@) == pos.spec_features().len(),
{
    let dim = G::feature_dim();
    let features = pos.feature_indices();
    let mut bits: Vec<u8> = Vec::new();
    let mut z: usize = 0;
    while z < dim
        invariant
            z <= dim,
            bits@ == Seq::new(z as nat, |i: int| 0u8),
        decreases dim - z,
    {
        bits.push(0);
        z = z + 1;
        assert(bits@ =~= Seq::new(z as nat, |i: int| 0u8));
    }
    proof {
        lemma_bit_sum_zeros(dim as nat);
    }
    let mut k: usize = 0;
    while k < features.len()
        invariant
            dim == G::spec_feature_dim(),
            features@ == pos.spec_features(),
            features@.no_duplicates(),
            forall|i: int| 0 <= i < features@.len() ==> (#[trigger] features@[i]) < G::spec_feature_dim(),
            k <= features@.len(),
            bits@.len() == dim,
            bit_sum(bits@) == k,
            forall|i: int|
                0 <= i < dim ==> #[trigger] bits@[i] == (if features@.subrange(0, k as int).contains(
                    i as usize,
                ) {
                    1u8
                } else {
                    0u8
                }),
        decreases features@.len() - k,
    {
        let f = features[k];
        assert(!features@.subrange(0, k as int).contains(f));
        assert(bits@[f as int] == 0);
        proof {
            lemma_bit_sum_update(bits@, f as int, 1u8);
        }
        let ghost old_bits = bits@;
        bits.set(f, 1);
        assert forall|i: int| 0 <= i < dim implies #[trigger] bits@[i] == (if features@.subrange(
            0,
            k + 1,
        ).contains(i as usize) {
            1u8
        } else {
            0u8
        }) by {
            let pre = features@.subrange(0, k as int);
            let post = features@.subrange(0, k + 1);
            assert(post[k as int] == f);
            assert(old_bits[i] == (if pre.contains(i as usize) { 1u8 } else { 0u8 }));
            if post.contains(i as usize) {
                let j = choose|j: int| 0 <= j < post.len() && #[trigger] post[j] == i as usize;
                if j < k {
                    assert(pre[j] == i as usize);
                }
            }
            if pre.contains(i as usize) {
                let j = choose|j: int| 0 <= j < pre.len() && #[trigger] pre[j] == i as usize;
                assert(post[j] == i as usize);
            }
        }
        k = k + 1;
    }
    assert(features@.subrange(0, features@.len() as int) =~= features@);
    assert(bits@ =~= bits_of(pos.spec_features(), G::spec_feature_dim()));
    bits
}

/// The decimal digits of `n`.
pub open spec fn decimal(n: nat) -> Seq<u8>
    decreases n,
{
    if n < 10 {
        seq![(48 + n) as u8]
    } else {
        decimal(n / 10).push((48 + n % 10) as u8)
    }
}

/// Appends the decimal digits of `n` to `out`.
pub fn push_decimal(out: &mut Vec<u8>, n: u64)
    ensures
        final(out)@ == old(out)@ + decimal(n as nat),
    decreases n,
{
    if n >= 10 {
        push_decimal(out, n / 10);
    }
    out.push((48 + n % 10) as u8);
    assert(out@ =~= old(out)@ + decimal(n as nat));
}

/// Comma-separated items: `item(0),item(1),...`.
pub open spec fn csv_join(items: Seq<Seq<u8>>) -> Seq<u8>
    decreases items.len(),
{
    if items.len() == 0 {
        seq![]
    } else if items.len() == 1 {
        items[0]
    } else {
        csv_join(items.drop_last()) + seq![44u8] + items.last()
    }
}

/// A row of bits as `0` and `1` digits.
pub open spec fn csv_digits(bits: Seq<u8>) -> Seq<u8> {
    csv_join(bits.map_values(|b: u8| seq![(48 + b) as u8]))
}

/// A row of counts, each with three decimals (`12.000`).
pub open spec fn csv_counts(counts: Seq<u64>) -> Seq<u8> {
    csv_join(counts.map_values(|c: u64| decimal(c as nat) + seq![46u8, 48u8, 48u8, 48u8]))
}

/// The value target for the side `to_move`: `1.0` if it won, `0.0` if it
/// lost, `0.5` for a draw.
pub open spec fn value_target(outcome: Player, to_move: Player) -> Seq<u8> {
    if outcome == Player::Neither {
        seq![48u8, 46u8, 53u8]
    } else if outcome == to_move {
        seq![49u8, 46u8, 48u8]
    } else {
        seq![48u8, 46u8, 48u8]
    }
}

/// The value target for the side `to_move`.
pub fn value_target_of(outcome: Player, to_move: Player) -> (r: Vec<u8>)
    ensures
        r@ == value_target(outcome, to_move),
{
    let r = match (outcome, to_move) {
        (Player::Neither, _) => vec![48u8, 46u8, 53u8],
        (Player::First, Player::First) => vec![49u8, 46u8, 48u8],
        (Player::Second, Player::Second) => vec![49u8, 46u8, 48u8],
        _ => vec![48u8, 46u8, 48u8],
    };
    assert(r@ =~= value_target(outcome, to_move));
    r
}

proof fn lemma_csv_join_push(items: Seq<Seq<u8>>, x: Seq<u8>)
    ensures
        csv_join(items.push(x)) == if items.len() == 0 {
            x
        } else {
            csv_join(items) + seq![44u8] + x
        },
{
    assert(items.push(x).drop_last() =~= items);
}

/// Renders bits as a CSV line.
pub fn csv_bits(bits: &Vec<u8>) -> (r: Vec<u8>)
    requires
        forall|i: int| 0 <= i < bits@.len() ==> #[trigger] bits@[i] <= 1,
    ensures
        r@ == csv_digits(bits@),
{
    let mut out: Vec<u8> = Vec::new();
    let mut i: usize = 0;
    while i < bits.len()
        invariant
            i <= bits@.len(),
            forall|k: int| 0 <= k < bits@.len() ==> #[trigger] bits@[k] <= 1,
            out@ == csv_digits(bits@.subrange(0, i as int)),
        decreases bits@.len() - i,
    {
        let ghost items = bits@.subrange(0, i as int).map_values(|b: u8| seq![(48 + b) as u8]);
        proof {
            lemma_csv_join_push(items, seq![(48 + bits@[i as int]) as u8]);
            assert(bits@.subrange(0, i + 1).map_values(|b: u8| seq![(48 + b) as u8]) =~= items.push(
                seq![(48 + bits@[i as int]) as u8],
            ));
        }
        if i > 0 {
            out.push(44);
        }
        out.push(48 + bits[i]);
        assert(out@ =~= csv_digits(bits@.subrange(0, i + 1)));
        i = i + 1;
    }
    assert(bits@.subrange(0, bits@.len() as int) =~= bits@);
    out
}

/// Renders counts as a CSV line, each with three decimals.
pub fn csv_counts_of(counts: &Vec<u64>) -> (r: Vec<u8>)
    ensures
        r@ == csv_counts(counts@),
{
    let mut out: Vec<u8> = Vec::new();
    let mut i: usize = 0;
    while i < counts.len()
        invariant
            i <= counts@.len(),
            out@ == csv_counts(counts@.subrange(0, i as int)),
        decreases counts@.len() - i,
    {
        let ghost item = decimal(counts@[i as int] as nat) + seq![46u8, 48u8, 48u8, 48u8];
        let ghost items = counts@.subrange(0, i as int).map_values(
            |c: u64| decimal(c as nat) + seq![46u8, 48u8, 48u8, 48u8],
        );
        proof {
            lemma_csv_join_push(items, item);
            assert(counts@.subrange(0, i + 1).map_values(
                |c: u64| decimal(c as nat) + seq![46u8, 48u8, 48u8, 48u8],
            ) =~= items.push(item));
        }
        let ghost before = out@;
        if i > 0 {
            out.push(44);
        }
        let ghost mid = out@;
        push_decimal(&mut out, counts[i]);
        out.push(46);
        out.push(48);
        out.push(48);
        out.push(48);
        assert(out@ =~= mid + item);
        assert(out@ =~= csv_counts(counts@.subrange(0, i + 1)));
        i = i + 1;
    }
    assert(counts@.subrange(0, counts@.len() as int) =~= counts@);
    out
}

} // verus!
