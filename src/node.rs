//! Search-tree nodes and their outgoing edges.
//!
//! Values and probabilities are fixed-point integers: a value of `VALUE_ONE`
//! is a certain win for the player who just moved, and a prior of `PRIOR_ONE`
//! is probability one.

use vstd::prelude::*;

use crate::arena::{Handle, NULL_RAW};
use crate::game::{GameImpl, MovePolicyIndex, Player};

verus! {

broadcast use crate::arena::Handle::lemma_raw;

/// Fixed-point one for values (win probabilities).
pub const VALUE_ONE: u64 = 1_000_000;

/// Fixed-point one for edge priors.
pub const PRIOR_ONE: u64 = 1_000_000_000;

/// The largest unnormalised policy weight: a weight is `exp(logit - m)`,
/// scaled by this, for an `m` no smaller than any logit.
pub const WEIGHT_MAX: u64 = 10_000_000_000;

/// A move out of a node, with its prior probability.
#[derive(Clone, Copy, Debug)]
pub struct Edge<M> {
    pov_move: M,
    probability: u64,
}

impl<M: Copy> Edge<M> {
    pub closed spec fn spec_move(self) -> M {
        self.pov_move
    }

    /// The prior, in units of `1 / PRIOR_ONE`.
    pub closed spec fn spec_probability(self) -> int {
        self.probability as int
    }

    /// The move this edge stands for, from the point of view of the player
    /// making it.
    pub fn get_move(self) -> (r: M)
        ensures
            r == self.spec_move(),
    {
        self.pov_move
    }

    /// The prior, in units of `1 / PRIOR_ONE`.
    pub fn probability(self) -> (r: u64)
        ensures
            r == self.spec_probability(),
    {
        self.probability
    }
}

/// Whether a node's game result is known.
#[derive(Clone, Copy, Debug, PartialEq, Eq, Structural)]
pub enum Terminal {
    /// Not decided yet.
    Unknown,
    /// The game goes on here.
    NonTerminal,
    /// The game is over here.
    Terminal,
}

/// A point of the game-result lattice.
#[derive(Clone, Copy, Debug, PartialEq, Eq, Structural)]
pub enum GameResult {
    Ongoing,
    Draw,
    FirstPlayerWin,
    SecondPlayerWin,
}

pub open spec fn result_of(p: Player) -> GameResult {
    match p {
        Player::Neither => GameResult::Draw,
        Player::First => GameResult::FirstPlayerWin,
        Player::Second => GameResult::SecondPlayerWin,
    }
}

/// The weight that the network's policy gives each of `moves`.
pub open spec fn move_weights<M: MovePolicyIndex>(moves: Seq<M>, policy: Seq<u64>) -> Seq<int> {
    moves.map_values(|m: M| policy[m.spec_policy_index() as int] as int)
}

pub open spec fn seq_sum(s: Seq<int>) -> int
    decreases s.len(),
{
    if s.len() == 0 {
        0
    } else {
        seq_sum(s.drop_last()) + s.last()
    }
}

/// The weights that are normalised: the policy's own, or all ones where the
/// policy gives every legal move weight zero.
pub open spec fn effective_weights(w: Seq<int>) -> Seq<int> {
    if seq_sum(w) == 0 {
        Seq::new(w.len(), |i: int| 1int)
    } else {
        w
    }
}

/// The prior of move `i`: its share of the total weight, rounded down.
pub open spec fn prior_at(w: Seq<int>, i: int) -> int {
    let e = effective_weights(w);
    e[i] * PRIOR_ONE / seq_sum(e)
}

proof fn lemma_elem_le_sum(s: Seq<int>, i: int)
    requires
        0 <= i < s.len(),
        forall|k: int| 0 <= k < s.len() ==> #[trigger] s[k] >= 0,
    ensures
        0 <= s[i] <= seq_sum(s),
        seq_sum(s) >= 0,
    decreases s.len(),
{
    let d = s.drop_last();
    assert(seq_sum(s) == seq_sum(d) + s.last());
    assert forall|k: int| 0 <= k < d.len() implies #[trigger] d[k] >= 0 by {
        assert(d[k] == s[k]);
    }
    if d.len() == 0 {
        assert(seq_sum(d) == 0);
    } else if i < s.len() - 1 {
        lemma_elem_le_sum(d, i);
    } else {
        lemma_elem_le_sum(d, 0);
    }
}

pub proof fn lemma_sum_ones(n: nat)
    ensures
        seq_sum(Seq::new(n, |i: int| 1int)) == n,
    decreases n,
{
    if n > 0 {
        lemma_sum_ones((n - 1) as nat);
        assert(Seq::new(n, |i: int| 1int).drop_last() =~= Seq::new((n - 1) as nat, |i: int| 1int));
    }
}

/// The nodes met by following sibling links from slot `k`: the walk stops at
/// a null or out-of-range handle, or at a link that does not lead forward.
/// (The null handle's raw value lies past the end of any tree.)
pub open spec fn chain<G: GameImpl>(t: Seq<Node<G>>, k: int) -> Seq<int>
    decreases t.len() - k,
{
    if 0 <= k < t.len() {
        let s = t[k].spec_sibling();
        if k < s.spec_raw() < t.len() {
            seq![k] + chain(t, s.spec_raw())
        } else {
            seq![k]
        }
    } else {
        seq![]
    }
}

/// Every sibling link leads forward to a node of the tree, and every child
/// link to a node of the tree or nowhere.
pub open spec fn links_ascend<G: GameImpl>(t: Seq<Node<G>>) -> bool {
    &&& t.len() < NULL_RAW
    &&& forall|i: int|
        0 <= i < t.len() ==> {
            let s = (#[trigger] t[i]).spec_sibling();
            let c = t[i].spec_child();
            &&& (s.spec_is_null() || (i < s.spec_raw() < t.len()))
            &&& (c.spec_is_null() || c.spec_raw() < t.len())
        }
}

/// The children of `n` as the sibling walk from its first child finds them.
pub open spec fn walk_children<G: GameImpl>(t: Seq<Node<G>>, n: Node<G>) -> Seq<int> {
    chain(t, n.spec_child().spec_raw())
}

/// `c[j]` is the first of the most visited nodes of `c`.
pub open spec fn first_most_visited<G: GameImpl>(t: Seq<Node<G>>, c: Seq<int>, j: int) -> bool {
    &&& 0 <= j < c.len()
    &&& forall|i: int| 0 <= i < c.len() ==> t[#[trigger] c[i]].spec_visits() <= t[c[j]].spec_visits()
    &&& forall|i: int| 0 <= i < j ==> t[#[trigger] c[i]].spec_visits() < t[c[j]].spec_visits()
}

/// The policy slot of the move that produced child `k` of `n`.
pub open spec fn slot_of<G: GameImpl>(t: Seq<Node<G>>, n: Node<G>, k: int) -> int {
    n.spec_edges()->0[t[k].spec_edge_index()].spec_move().spec_policy_index() as int
}

/// The visits of the child of `n` whose move has policy slot `s`; zero if
/// there is none.
pub open spec fn slot_visits<G: GameImpl>(t: Seq<Node<G>>, n: Node<G>, s: int) -> int {
    let c = walk_children(t, n);
    if exists|j: int| 0 <= j < c.len() && slot_of(t, n, #[trigger] c[j]) == s {
        let j = choose|j: int| 0 <= j < c.len() && slot_of(t, n, #[trigger] c[j]) == s;
        t[c[j]].spec_visits()
    } else {
        0
    }
}

/// The walked children of `n` point to edges of `n`.
pub open spec fn children_have_edges<G: GameImpl>(t: Seq<Node<G>>, n: Node<G>) -> bool {
    let c = walk_children(t, n);
    &&& n.spec_edges() is Some
    &&& forall|j: int|
        0 <= j < c.len() ==> 0 <= t[#[trigger] c[j]].spec_edge_index() < n.spec_edges()->0.len()
}

pub proof fn lemma_chain_facts<G: GameImpl>(t: Seq<Node<G>>, k: int)
    requires
        links_ascend(t),
    ensures
        forall|j: int| 0 <= j < chain(t, k).len() ==> 0 <= #[trigger] chain(t, k)[j] < t.len(),
        (0 <= k < t.len()) ==> chain(t, k).len() > 0 && chain(t, k)[0] == k,
        !(0 <= k < t.len()) ==> chain(t, k).len() == 0,
        (0 <= k < t.len()) ==> chain(t, k).drop_first() == chain(t, t[k].spec_sibling().spec_raw()),
    decreases t.len() - k,
{
    if 0 <= k < t.len() {
        let s = t[k].spec_sibling();
        if k < s.spec_raw() < t.len() {
            lemma_chain_facts(t, s.spec_raw());
            assert(chain(t, k).drop_first() =~= chain(t, s.spec_raw()));
        } else {
            assert(chain(t, k).drop_first() =~= seq![]);
            assert(chain(t, s.spec_raw()) =~= seq![]);
        }
    }
}

/// The priors that expansion gives moves of weights `w`.
pub open spec fn priors_of(w: Seq<int>) -> Seq<int> {
    Seq::new(w.len(), |i: int| prior_at(w, i))
}

/// Each weight's share of `t`, in units of `1 / PRIOR_ONE`, rounded down.
pub open spec fn floor_shares(e: Seq<int>, t: int) -> Seq<int> {
    Seq::new(e.len(), |i: int| e[i] * PRIOR_ONE / t)
}

proof fn lemma_prior_prefix(e: Seq<int>, t: int, k: int)
    requires
        t > 0,
        0 <= k <= e.len(),
        forall|i: int| 0 <= i < e.len() ==> #[trigger] e[i] >= 0,
    ensures
        ({
            let p = floor_shares(e, t);
            let ps = seq_sum(p.subrange(0, k));
            let es = seq_sum(e.subrange(0, k));
            &&& ps * t <= es * PRIOR_ONE
            &&& ps * t >= es * PRIOR_ONE - k * (t - 1)
        }),
    decreases k,
{
    let p = floor_shares(e, t);
    if k == 0 {
        assert(p.subrange(0, 0).len() == 0);
        assert(e.subrange(0, 0).len() == 0);
        assert(seq_sum(p.subrange(0, 0)) == 0);
        assert(seq_sum(e.subrange(0, 0)) == 0);
    } else {
        lemma_prior_prefix(e, t, k - 1);
        let ps0 = seq_sum(p.subrange(0, k - 1));
        let es0 = seq_sum(e.subrange(0, k - 1));
        assert(p.subrange(0, k).drop_last() =~= p.subrange(0, k - 1));
        assert(e.subrange(0, k).drop_last() =~= e.subrange(0, k - 1));
        assert(seq_sum(p.subrange(0, k)) == ps0 + p[k - 1]);
        assert(seq_sum(e.subrange(0, k)) == es0 + e[k - 1]);
        let a = e[k - 1] * PRIOR_ONE;
        let q = p[k - 1];
        assert(q == a / t);
        assert(q * t <= a && a <= q * t + t - 1) by (nonlinear_arith)
            requires
                q == a / t,
                t > 0,
        ;
        assert((ps0 + q) * t <= (es0 + e[k - 1]) * PRIOR_ONE && (ps0 + q) * t >= (es0 + e[k - 1])
            * PRIOR_ONE - k * (t - 1)) by (nonlinear_arith)
            requires
                ps0 * t <= es0 * PRIOR_ONE,
                ps0 * t >= es0 * PRIOR_ONE - (k - 1) * (t - 1),
                q * t <= a,
                a <= q * t + t - 1,
                a == e[k - 1] * PRIOR_ONE,
        ;
    }
}

/// After expansion the priors of a node's edges sum to one, short of it by
/// rounding only: by less than one unit (`1 / PRIOR_ONE`) per edge.
pub proof fn lemma_priors_sum_to_one(w: Seq<int>)
    requires
        w.len() > 0,
        forall|i: int| 0 <= i < w.len() ==> #[trigger] w[i] >= 0,
    ensures
        seq_sum(priors_of(w)) <= PRIOR_ONE,
        seq_sum(priors_of(w)) > PRIOR_ONE - w.len(),
{
    let e = effective_weights(w);
    let t = seq_sum(e);
    assert forall|i: int| 0 <= i < e.len() implies #[trigger] e[i] >= 0 by {}
    if seq_sum(w) == 0 {
        lemma_sum_ones(w.len());
    } else {
        lemma_elem_le_sum(w, 0);
    }
    assert(t > 0);
    lemma_prior_prefix(e, t, e.len() as int);
    let p = floor_shares(e, t);
    assert(p.subrange(0, e.len() as int) =~= p);
    assert(e.subrange(0, e.len() as int) =~= e);
    assert(p =~= priors_of(w));
    let ps = seq_sum(p);
    let n = w.len() as int;
    assert(ps <= PRIOR_ONE && ps > PRIOR_ONE - n) by (nonlinear_arith)
        requires
            ps * t <= t * PRIOR_ONE,
            ps * t >= t * PRIOR_ONE - n * (t - 1),
            t > 0,
            n > 0,
    ;
}

/// A node of the search tree.
#[derive(Debug)]
pub struct Node<G: GameImpl> {
    /// Accumulated value, from the perspective of the player who just moved
    /// into this position, in units of `1 / VALUE_ONE`.
    wl: u64,
    /// The outgoing edges; `None` until the node is expanded.
    edges: Option<Vec<Edge<G::Move>>>,
    /// The parent node; null for the root.
    parent: Handle,
    /// The first instantiated child; null if there is none.
    child: Handle,
    /// The next instantiated child of the same parent; null if last.
    sibling: Handle,
    /// Number of completed visits to this node.
    visits: u32,
    /// Index of this node's edge in the parent's edge list.
    index: usize,
    /// Whether this node ends the game.
    terminal_type: Terminal,
    /// Best possible outcome for this node.
    upper_bound: GameResult,
    /// Worst possible outcome for this node.
    lower_bound: GameResult,
}

impl<G: GameImpl> Node<G> {
    pub closed spec fn spec_wl(&self) -> int {
        self.wl as int
    }

    pub closed spec fn spec_visits(&self) -> int {
        self.visits as int
    }

    pub closed spec fn spec_parent(&self) -> Handle {
        self.parent
    }

    pub closed spec fn spec_child(&self) -> Handle {
        self.child
    }

    pub closed spec fn spec_sibling(&self) -> Handle {
        self.sibling
    }

    pub closed spec fn spec_edge_index(&self) -> int {
        self.index as int
    }

    pub closed spec fn spec_edges(&self) -> Option<Seq<Edge<G::Move>>> {
        match self.edges {
            Some(e) => Some(e@),
            None => None,
        }
    }

    pub closed spec fn spec_terminal(&self) -> Terminal {
        self.terminal_type
    }

    pub closed spec fn spec_bounds(&self) -> (GameResult, GameResult) {
        (self.upper_bound, self.lower_bound)
    }

    /// Everything but the statistics is the same in `self` and `o`.
    pub open spec fn same_links(&self, o: &Self) -> bool {
        &&& self.spec_parent() == o.spec_parent()
        &&& self.spec_child() == o.spec_child()
        &&& self.spec_sibling() == o.spec_sibling()
        &&& self.spec_edge_index() == o.spec_edge_index()
        &&& self.spec_edges() == o.spec_edges()
        &&& self.spec_terminal() == o.spec_terminal()
    }

    /// The prior of each edge, in edge order.
    pub open spec fn spec_priors(&self) -> Seq<int> {
        self.spec_edges()->0.map_values(|e: Edge<G::Move>| e.spec_probability())
    }

    /// Creates an unexpanded, unvisited node.
    pub fn new(parent: Handle, edge_index: usize) -> (r: Self)
        ensures
            r.spec_wl() == 0,
            r.spec_visits() == 0,
            r.spec_parent() == parent,
            r.spec_child().spec_is_null(),
            r.spec_sibling().spec_is_null(),
            r.spec_edge_index() == edge_index,
            r.spec_edges() is None,
            r.spec_terminal() == Terminal::Unknown,
            r.spec_bounds() == (GameResult::Ongoing, GameResult::Ongoing),
    {
        Self {
            wl: 0,
            edges: None,
            parent,
            child: Handle::null(),
            sibling: Handle::null(),
            visits: 0,
            index: edge_index,
            terminal_type: Terminal::Unknown,
            upper_bound: GameResult::Ongoing,
            lower_bound: GameResult::Ongoing,
        }
    }

    /// Returns the number of visits to this node.
    pub fn visits(&self) -> (r: u32)
        ensures
            r == self.spec_visits(),
    {
        self.visits
    }

    /// Returns the accumulated value.
    pub fn wl(&self) -> (r: u64)
        ensures
            r == self.spec_wl(),
    {
        self.wl
    }

    /// Returns the mean value of the visits, in units of `1 / VALUE_ONE`.
    pub fn winrate(&self) -> (r: u64)
        requires
            self.spec_visits() > 0,
        ensures
            r == self.spec_wl() / self.spec_visits(),
    {
        self.wl / self.visits as u64
    }

    /// Adds a visit worth `value`.
    pub fn add_visit(&mut self, value: u64)
        requires
            value <= VALUE_ONE,
            old(self).spec_visits() < u32::MAX,
            old(self).spec_wl() <= old(self).spec_visits() * VALUE_ONE,
        ensures
            final(self).spec_wl() == old(self).spec_wl() + value,
            final(self).spec_visits() == old(self).spec_visits() + 1,
            final(self).same_links(old(self)),
            final(self).spec_bounds() == old(self).spec_bounds(),
    {
        assert(self.wl + value <= (self.visits + 1) * VALUE_ONE) by (nonlinear_arith)
            requires
                self.wl <= self.visits * VALUE_ONE,
                value <= VALUE_ONE,
        ;
        assert((self.visits + 1) * VALUE_ONE <= u32::MAX * VALUE_ONE) by (nonlinear_arith)
            requires
                self.visits < u32::MAX,
        ;
        self.wl = self.wl + value;
        self.visits = self.visits + 1;
    }

    /// Returns the edges of this node, if it has been expanded.
    pub fn edges(&self) -> (r: Option<&Vec<Edge<G::Move>>>)
        ensures
            match r {
                Some(e) => self.spec_edges() == Some(e@),
                None => self.spec_edges() is None,
            },
    {
        match &self.edges {
            Some(e) => Some(e),
            None => None,
        }
    }

    /// Returns the first child of this node.
    pub fn first_child(&self) -> (r: Handle)
        ensures
            r == self.spec_child(),
    {
        self.child
    }

    /// Links `h` as the first child of this node.
    pub fn set_first_child(&mut self, h: Handle)
        ensures
            final(self).spec_child() == h,
            final(self).spec_wl() == old(self).spec_wl(),
            final(self).spec_visits() == old(self).spec_visits(),
            final(self).spec_parent() == old(self).spec_parent(),
            final(self).spec_sibling() == old(self).spec_sibling(),
            final(self).spec_edge_index() == old(self).spec_edge_index(),
            final(self).spec_edges() == old(self).spec_edges(),
            final(self).spec_terminal() == old(self).spec_terminal(),
            final(self).spec_bounds() == old(self).spec_bounds(),
    {
        self.child = h;
    }

    /// Returns the index of this node in the parent's edge list.
    pub fn edge_index(&self) -> (r: usize)
        ensures
            r == self.spec_edge_index(),
    {
        self.index
    }

    /// Returns the next sibling of this node.
    pub fn sibling(&self) -> (r: Handle)
        ensures
            r == self.spec_sibling(),
    {
        self.sibling
    }

    /// Links `h` as the next sibling of this node.
    pub fn set_sibling(&mut self, h: Handle)
        ensures
            final(self).spec_sibling() == h,
            final(self).spec_wl() == old(self).spec_wl(),
            final(self).spec_visits() == old(self).spec_visits(),
            final(self).spec_parent() == old(self).spec_parent(),
            final(self).spec_child() == old(self).spec_child(),
            final(self).spec_edge_index() == old(self).spec_edge_index(),
            final(self).spec_edges() == old(self).spec_edges(),
            final(self).spec_terminal() == old(self).spec_terminal(),
            final(self).spec_bounds() == old(self).spec_bounds(),
    {
        self.sibling = h;
    }

    /// Returns the parent handle; null for the root.
    pub fn parent(&self) -> (r: Handle)
        ensures
            r == self.spec_parent(),
    {
        self.parent
    }

    /// Returns the parent of the node, or `None` for the root.
    pub fn non_null_parent(&self, _tree: &[Self]) -> (r: Option<Handle>)
        ensures
            self.spec_parent().spec_is_null() ==> r is None,
            !self.spec_parent().spec_is_null() ==> r == Some(self.spec_parent()),
    {
        if self.parent.is_null() {
            None
        } else {
            Some(self.parent)
        }
    }

    /// Whether this node is terminal.
    pub fn is_terminal(&self) -> (r: bool)
        ensures
            r == (self.spec_terminal() == Terminal::Terminal),
    {
        match self.terminal_type {
            Terminal::Terminal => true,
            _ => false,
        }
    }

    /// Whether the game result here is still undecided.
    pub fn is_undecided(&self) -> (r: bool)
        ensures
            r == (self.spec_terminal() == Terminal::Unknown),
    {
        match self.terminal_type {
            Terminal::Unknown => true,
            _ => false,
        }
    }

    /// Records whether `pos`, the position of this node, ends the game.
    pub fn check_game_over(&mut self, pos: &G)
        ensures
            pos.spec_outcome() is Some ==> final(self).spec_terminal() == Terminal::Terminal
                && final(self).spec_bounds() == (
                result_of(pos.spec_outcome()->0),
                result_of(pos.spec_outcome()->0),
            ),
            pos.spec_outcome() is None ==> final(self).spec_terminal() == Terminal::NonTerminal
                && final(self).spec_bounds() == old(self).spec_bounds(),
            final(self).spec_wl() == old(self).spec_wl(),
            final(self).spec_visits() == old(self).spec_visits(),
            final(self).spec_parent() == old(self).spec_parent(),
            final(self).spec_child() == old(self).spec_child(),
            final(self).spec_sibling() == old(self).spec_sibling(),
            final(self).spec_edge_index() == old(self).spec_edge_index(),
            final(self).spec_edges() == old(self).spec_edges(),
    {
        match pos.outcome() {
            Some(p) => self.set_result(p),
            None => {
                self.terminal_type = Terminal::NonTerminal;
            },
        }
    }

    /// Expands this node at position `pos`: one edge per legal move, in
    /// generation order, whose prior is the move's share of the policy
    /// weight. Marks the node terminal if the game is over at `pos`.
    pub fn expand(&mut self, pos: &G, policy: &Vec<u64>)
        requires
            policy@.len() == G::spec_policy_dim(),
            forall|i: int| 0 <= i < policy@.len() ==> #[trigger] policy@[i] <= WEIGHT_MAX,
        ensures
            final(self).spec_edges() is Some,
            final(self).spec_edges()->0.len() == pos.spec_legal_moves().len(),
            pos.spec_outcome() is None ==> final(self).spec_edges()->0.len() > 0,
            forall|i: int|
                0 <= i < pos.spec_legal_moves().len() ==> (#[trigger] final(self).spec_edges()->0[i]).spec_move()
                    == pos.spec_legal_moves()[i] && final(self).spec_edges()->0[i].spec_probability()
                    == prior_at(move_weights(pos.spec_legal_moves(), policy@), i),
            forall|i: int|
                0 <= i < final(self).spec_edges()->0.len() ==> {
                    &&& (#[trigger] final(self).spec_edges()->0[i]).spec_probability() <= PRIOR_ONE
                    &&& final(self).spec_edges()->0[i].spec_move().spec_policy_index() < G::spec_policy_dim()
                },
            forall|a: int, b: int|
                0 <= a < final(self).spec_edges()->0.len() && 0 <= b < final(self).spec_edges()->0.len() && a
                    != b ==> (#[trigger] final(self).spec_edges()->0[a]).spec_move().spec_policy_index() != (
                #[trigger] final(self).spec_edges()->0[b]).spec_move().spec_policy_index(),
            pos.spec_outcome() is Some ==> final(self).spec_terminal() == Terminal::Terminal
                && final(self).spec_bounds() == (
                result_of(pos.spec_outcome()->0),
                result_of(pos.spec_outcome()->0),
            ),
            pos.spec_outcome() is None ==> final(self).spec_terminal() == old(self).spec_terminal()
                && final(self).spec_bounds() == old(self).spec_bounds(),
            final(self).spec_wl() == old(self).spec_wl(),
            final(self).spec_visits() == old(self).spec_visits(),
            final(self).spec_parent() == old(self).spec_parent(),
            final(self).spec_child() == old(self).spec_child(),
            final(self).spec_sibling() == old(self).spec_sibling(),
            final(self).spec_edge_index() == old(self).spec_edge_index(),
    {
        let moves = pos.legal_moves();
        let ghost w = move_weights(moves@, policy@);
        let n = moves.len();
        let mut total: u128 = 0;
        let mut k: usize = 0;
        while k < n
            invariant
                n == moves@.len(),
                moves@ == pos.spec_legal_moves(),
                w == move_weights(moves@, policy@),
                policy@.len() == G::spec_policy_dim(),
                forall|i: int| 0 <= i < policy@.len() ==> #[trigger] policy@[i] <= WEIGHT_MAX,
                forall|i: int| 0 <= i < moves@.len() ==> (#[trigger] moves@[i]).spec_policy_index() < G::spec_policy_dim(),
                k <= n,
                total == seq_sum(w.subrange(0, k as int)),
                total <= k * WEIGHT_MAX,
            decreases n - k,
        {
            let slot = moves[k].policy_index();
            assert(w.subrange(0, k + 1).drop_last() =~= w.subrange(0, k as int));
            total = total + policy[slot] as u128;
            k = k + 1;
        }
        assert(w.subrange(0, n as int) =~= w);
        let uniform = total == 0;
        let etotal: u128 = if uniform {
            n as u128
        } else {
            total
        };
        proof {
            lemma_sum_ones(n as nat);
        }
        let mut edges: Vec<Edge<G::Move>> = Vec::new();
        let mut i: usize = 0;
        while i < n
            invariant
                n == moves@.len(),
                moves@ == pos.spec_legal_moves(),
                w == move_weights(moves@, policy@),
                w.len() == n,
                policy@.len() == G::spec_policy_dim(),
                forall|j: int| 0 <= j < policy@.len() ==> #[trigger] policy@[j] <= WEIGHT_MAX,
                forall|j: int| 0 <= j < moves@.len() ==> (#[trigger] moves@[j]).spec_policy_index() < G::spec_policy_dim(),
                etotal == seq_sum(effective_weights(w)),
                uniform == (seq_sum(w) == 0),
                n > 0 ==> etotal >= 1,
                i <= n,
                edges@.len() == i,
                forall|j: int|
                    0 <= j < i ==> (#[trigger] edges@[j]).spec_move() == moves@[j]
                        && edges@[j].spec_probability() == prior_at(w, j)
                        && edges@[j].spec_probability() <= PRIOR_ONE,
                forall|a: int, b: int|
                    0 <= a < moves@.len() && 0 <= b < moves@.len() && a != b ==> (#[trigger] moves@[a]).spec_policy_index()
                        != (#[trigger] moves@[b]).spec_policy_index(),
            decreases n - i,
        {
            let weight: u128 = if uniform {
                1
            } else {
                policy[moves[i].policy_index()] as u128
            };
            assert(weight == effective_weights(w)[i as int]);
            proof {
                if !uniform {
                    assert forall|k: int| 0 <= k < w.len() implies #[trigger] w[k] >= 0 by {}
                    lemma_elem_le_sum(w, i as int);
                }
            }
            assert(weight <= etotal);
            assert(((weight as int) * (PRIOR_ONE as int)) / (etotal as int) <= PRIOR_ONE) by (nonlinear_arith)
                requires
                    weight <= etotal,
                    etotal >= 1,
                    weight >= 0,
            ;
            assert((weight as int) * (PRIOR_ONE as int) <= (WEIGHT_MAX as int) * (PRIOR_ONE as int)) by (nonlinear_arith)
                requires
                    weight <= WEIGHT_MAX,
            ;
            assert(((weight as int) * (PRIOR_ONE as int)) / (etotal as int) <= (weight as int) * (PRIOR_ONE as int)) by (nonlinear_arith)
                requires
                    etotal >= 1,
                    weight >= 0,
            ;
            let prob = (weight * PRIOR_ONE as u128 / etotal) as u64;
            edges.push(Edge { pov_move: moves[i], probability: prob });
            i = i + 1;
        }
        self.edges = Some(edges);
        assert forall|a: int, b: int|
            0 <= a < edges@.len() && 0 <= b < edges@.len() && a != b implies (#[trigger] edges@[a]).spec_move().spec_policy_index()
            != (#[trigger] edges@[b]).spec_move().spec_policy_index() by {
            assert(edges@[a].spec_move() == moves@[a]);
            assert(edges@[b].spec_move() == moves@[b]);
        }
        if let Some(p) = pos.outcome() {
            self.set_result(p);
        }
    }

    /// Returns the move of the most visited child; the first in sibling
    /// order wins a tie. `None` if no child has been instantiated.
    pub fn best_move(&self, tree: &[Self]) -> (r: Option<G::Move>)
        requires
            links_ascend(tree@),
            children_have_edges(tree@, *self),
        ensures
            r is None <==> walk_children(tree@, *self).len() == 0,
            r is Some ==> exists|j: int|
                first_most_visited(tree@, walk_children(tree@, *self), j) && r == Some(
                    self.spec_edges()->0[tree@[walk_children(tree@, *self)[j]].spec_edge_index()].spec_move(),
                ),
    {
        let ghost c = walk_children(tree@, *self);
        let edges = match &self.edges {
            Some(e) => e,
            None => {
                return None;
            },
        };
        let mut best: Option<G::Move> = None;
        let mut best_visits: u32 = 0;
        let ghost mut best_j: int = 0;
        let mut cur = self.child;
        let ghost mut j: int = 0;
        proof {
            lemma_chain_facts(tree@, cur.spec_raw());
        }
        while !cur.is_null() && cur.index() < tree.len()
            invariant
                links_ascend(tree@),
                children_have_edges(tree@, *self),
                c == walk_children(tree@, *self),
                self.spec_edges() == Some(edges@),
                0 <= j <= c.len(),
                chain(tree@, cur.spec_raw()) == c.subrange(j, c.len() as int),
                forall|i: int| 0 <= i < c.len() ==> 0 <= #[trigger] c[i] < tree@.len(),
                best is None <==> j == 0,
                best is Some ==> {
                    &&& 0 <= best_j < j
                    &&& best_visits == tree@[c[best_j]].spec_visits()
                    &&& forall|i: int| 0 <= i < j ==> tree@[#[trigger] c[i]].spec_visits() <= best_visits
                    &&& forall|i: int| 0 <= i < best_j ==> tree@[#[trigger] c[i]].spec_visits() < best_visits
                    &&& best == Some(edges@[tree@[c[best_j]].spec_edge_index()].spec_move())
                },
            decreases c.len() - j,
        {
            proof {
                lemma_chain_facts(tree@, cur.spec_raw());
                assert(c.subrange(j, c.len() as int)[0] == c[j]);
            }
            let k = cur.index();
            let node = &tree[k];
            if best.is_none() || node.visits > best_visits {
                best = Some(edges[node.index].pov_move);
                best_visits = node.visits;
                proof {
                    best_j = j;
                }
            }
            cur = node.sibling;
            proof {
                lemma_chain_facts(tree@, cur.spec_raw());
                assert(c.subrange(j + 1, c.len() as int) =~= c.subrange(j, c.len() as int).drop_first());
                j = j + 1;
            }
        }
        proof {
            lemma_chain_facts(tree@, cur.spec_raw());
            if best is Some {
                assert(first_most_visited(tree@, c, best_j));
            }
        }
        best
    }

    /// The visit count of each policy slot: the visits of the child reached
    /// by the move of that slot, or zero where no child exists.
    pub fn dist(&self, tree: &[Self]) -> (r: Vec<u64>)
        requires
            links_ascend(tree@),
            children_have_edges(tree@, *self),
            forall|j: int| 0 <= j < walk_children(tree@, *self).len() ==> slot_of(tree@, *self, #[trigger] walk_children(tree@, *self)[j]) < G::spec_policy_dim(),
            forall|a: int, b: int|
                0 <= a < walk_children(tree@, *self).len() && 0 <= b < walk_children(tree@, *self).len() && a != b
                    ==> slot_of(tree@, *self, #[trigger] walk_children(tree@, *self)[a]) != slot_of(tree@, *self, #[trigger] walk_children(tree@, *self)[b]),
        ensures
            r@.len() == G::spec_policy_dim(),
            forall|s: int| 0 <= s < r@.len() ==> r@[s] == slot_visits(tree@, *self, s),
    {
        let ghost c = walk_children(tree@, *self);
        let dim = G::policy_dim();
        let mut out: Vec<u64> = Vec::new();
        let mut z: usize = 0;
        while z < dim
            invariant
                z <= dim,
                out@.len() == z,
                forall|s: int| 0 <= s < z ==> out@[s] == 0,
            decreases dim - z,
        {
            out.push(0);
            z = z + 1;
        }
        let edges = match &self.edges {
            Some(e) => e,
            None => {
                return out;
            },
        };
        let mut cur = self.child;
        let ghost mut j: int = 0;
        proof {
            lemma_chain_facts(tree@, cur.spec_raw());
        }
        while !cur.is_null() && cur.index() < tree.len()
            invariant
                links_ascend(tree@),
                children_have_edges(tree@, *self),
                c == walk_children(tree@, *self),
                self.spec_edges() == Some(edges@),
                out@.len() == dim,
                dim == G::spec_policy_dim(),
                0 <= j <= c.len(),
                chain(tree@, cur.spec_raw()) == c.subrange(j, c.len() as int),
                forall|i: int| 0 <= i < c.len() ==> 0 <= #[trigger] c[i] < tree@.len(),
                forall|a: int| 0 <= a < c.len() ==> slot_of(tree@, *self, #[trigger] c[a]) < G::spec_policy_dim(),
                forall|a: int, b: int|
                    0 <= a < c.len() && 0 <= b < c.len() && a != b ==> slot_of(tree@, *self, #[trigger] c[a])
                        != slot_of(tree@, *self, #[trigger] c[b]),
                forall|s: int|
                    0 <= s < dim ==> #[trigger] out@[s] == (if exists|a: int| 0 <= a < j && slot_of(tree@, *self, #[trigger] c[a]) == s {
                        tree@[c[choose|a: int| 0 <= a < j && slot_of(tree@, *self, #[trigger] c[a]) == s]].spec_visits()
                    } else {
                        0
                    }),
            decreases c.len() - j,
        {
            proof {
                lemma_chain_facts(tree@, cur.spec_raw());
                assert(c.subrange(j, c.len() as int)[0] == c[j]);
            }
            let k = cur.index();
            let node = &tree[k];
            let slot = edges[node.index].pov_move.policy_index();
            let ghost old_out = out@;
            out.set(slot, node.visits as u64);
            proof {
                assert forall|s: int| 0 <= s < dim implies #[trigger] out@[s] == (if exists|a: int| 0 <= a < j + 1 && slot_of(tree@, *self, #[trigger] c[a]) == s {
                    tree@[c[choose|a: int| 0 <= a < j + 1 && slot_of(tree@, *self, #[trigger] c[a]) == s]].spec_visits()
                } else {
                    0
                }) by {
                    if s == slot {
                        assert(slot_of(tree@, *self, c[j]) == s);
                        let a = choose|a: int| 0 <= a < j + 1 && slot_of(tree@, *self, #[trigger] c[a]) == s;
                        assert(a == j);
                    } else {
                        if exists|a: int| 0 <= a < j + 1 && slot_of(tree@, *self, #[trigger] c[a]) == s {
                            let a = choose|a: int| 0 <= a < j + 1 && slot_of(tree@, *self, #[trigger] c[a]) == s;
                            assert(a != j);
                            assert(exists|a: int| 0 <= a < j && slot_of(tree@, *self, #[trigger] c[a]) == s);
                            let b = choose|a: int| 0 <= a < j && slot_of(tree@, *self, #[trigger] c[a]) == s;
                            assert(a == b);
                        }
                    }
                }
            }
            cur = node.sibling;
            proof {
                lemma_chain_facts(tree@, cur.spec_raw());
                assert(c.subrange(j + 1, c.len() as int) =~= c.subrange(j, c.len() as int).drop_first());
                j = j + 1;
            }
        }
        proof {
            lemma_chain_facts(tree@, cur.spec_raw());
        }
        out
    }

    fn set_result(&mut self, p: Player)
        ensures
            final(self).spec_terminal() == Terminal::Terminal,
            final(self).spec_bounds() == (result_of(p), result_of(p)),
            final(self).spec_wl() == old(self).spec_wl(),
            final(self).spec_visits() == old(self).spec_visits(),
            final(self).spec_parent() == old(self).spec_parent(),
            final(self).spec_child() == old(self).spec_child(),
            final(self).spec_sibling() == old(self).spec_sibling(),
            final(self).spec_edge_index() == old(self).spec_edge_index(),
            final(self).spec_edges() == old(self).spec_edges(),
    {
        let game_result = match p {
            Player::Neither => GameResult::Draw,
            Player::First => GameResult::FirstPlayerWin,
            Player::Second => GameResult::SecondPlayerWin,
        };
        self.terminal_type = Terminal::Terminal;
        self.upper_bound = game_result;
        self.lower_bound = game_result;
    }
}

} // verus!
