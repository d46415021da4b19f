//! Monte Carlo tree search over an arena of nodes. A node is named by its
//! index; each node records its parent's index, which is always smaller than
//! its own, and the indices of its children, which are always larger.
use super::choose_index;
use crate::game::{lemma_legal_moves, lemma_move_progress, progress, reaches, Board, Player};
use rand::rngs::SmallRng;
use vstd::prelude::*;

verus! {

/// A node stops counting once its visits reach this bound, which keeps every
/// win-rate comparison inside 128-bit arithmetic.
pub const VISIT_LIMIT: u64 = 4611686018427387904;

/// What a node holds that never changes: its position, and the side whose
/// move produced it.
#[derive(Clone, Copy)]
pub struct Node {
    pub board: Board,
    pub parent_player: Player,
}

/// The outcome counts of a node; `wins` and `loses` are taken from the
/// point of view of the node's `parent_player`.
#[derive(Clone, Copy)]
pub struct Stats {
    pub visits: u64,
    pub wins: u64,
    pub loses: u64,
}

/// `0.5 + (wins - loses) / (2 * visits)`, and `0.5` for a node never visited,
/// as the fraction `rate_num / rate_den`.
pub open spec fn rate_num(s: Stats) -> int {
    if s.visits == 0 {
        1
    } else {
        s.visits + s.wins - s.loses
    }
}

pub open spec fn rate_den(s: Stats) -> int {
    if s.visits == 0 {
        2
    } else {
        2 * s.visits
    }
}

/// `a` has a strictly higher win rate than `b`.
pub open spec fn rate_above(a: Stats, b: Stats) -> bool {
    rate_num(a) * rate_den(b) > rate_num(b) * rate_den(a)
}

/// The counts after one more visit that ended with `winner`.
pub open spec fn tallied(a: Stats, b: Stats, pp: Player, winner: Option<Player>) -> bool {
    &&& b.visits == a.visits + 1
    &&& b.wins == a.wins + if winner == Some(pp) {
        1int
    } else {
        0
    }
    &&& b.loses == a.loses + if winner is Some && winner != Some(pp) {
        1int
    } else {
        0
    }
}

/// Every node on the chain of parents from `from` can count one more visit.
pub open spec fn chain_below(parents: Seq<Option<usize>>, stats: Seq<Stats>, from: int) -> bool
    decreases from,
{
    if 0 <= from < parents.len() {
        stats[from].visits < VISIT_LIMIT && match parents[from] {
            Some(p) => if p < from {
                chain_below(parents, stats, p as int)
            } else {
                true
            },
            None => true,
        }
    } else {
        true
    }
}

/// The visits of those nodes of `ch` whose parent link points at `p`.
pub open spec fn linked_visits(
    ch: Seq<usize>,
    parents: Seq<Option<usize>>,
    stats: Seq<Stats>,
    p: int,
) -> int
    decreases ch.len(),
{
    if ch.len() == 0 {
        0
    } else {
        linked_visits(ch.drop_last(), parents, stats, p) + if parents[ch.last() as int] == Some(
            p as usize,
        ) {
            stats[ch.last() as int].visits as int
        } else {
            0
        }
    }
}

/// The visits of all the nodes of `ch`.
pub open spec fn child_visits(ch: Seq<usize>, stats: Seq<Stats>) -> int
    decreases ch.len(),
{
    if ch.len() == 0 {
        0
    } else {
        child_visits(ch.drop_last(), stats) + stats[ch.last() as int].visits as int
    }
}

proof fn lemma_linked_all(ch: Seq<usize>, parents: Seq<Option<usize>>, stats: Seq<Stats>, p: int)
    requires
        forall|k: int| 0 <= k < ch.len() ==> parents[#[trigger] ch[k] as int] == Some(p as usize),
    ensures
        linked_visits(ch, parents, stats, p) == child_visits(ch, stats),
    decreases ch.len(),
{
    if ch.len() > 0 {
        let d = ch.drop_last();
        assert forall|k: int| 0 <= k < d.len() implies parents[#[trigger] d[k] as int] == Some(p as usize) by {
            assert(d[k] == ch[k]);
        }
        lemma_linked_all(d, parents, stats, p);
        assert(ch.last() == ch[ch.len() - 1]);
    }
}

proof fn lemma_linked_frame(
    ch: Seq<usize>,
    p1: Seq<Option<usize>>,
    s1: Seq<Stats>,
    p2: Seq<Option<usize>>,
    s2: Seq<Stats>,
    q: int,
)
    requires
        forall|k: int|
            0 <= k < ch.len() ==> p1[#[trigger] ch[k] as int] == p2[ch[k] as int] && s1[ch[k] as int].visits
                == s2[ch[k] as int].visits,
    ensures
        linked_visits(ch, p1, s1, q) == linked_visits(ch, p2, s2, q),
    decreases ch.len(),
{
    if ch.len() > 0 {
        let d = ch.drop_last();
        assert forall|k: int| 0 <= k < d.len() implies p1[#[trigger] d[k] as int] == p2[d[k] as int]
            && s1[d[k] as int].visits == s2[d[k] as int].visits by {
            assert(d[k] == ch[k]);
        }
        lemma_linked_frame(d, p1, s1, p2, s2, q);
        assert(ch.last() == ch[ch.len() - 1]);
    }
}

proof fn lemma_linked_bump(ch: Seq<usize>, parents: Seq<Option<usize>>, s1: Seq<Stats>, s2: Seq<Stats>, q: int, x: int)
    requires
        forall|k1: int, k2: int| 0 <= k1 < k2 < ch.len() ==> #[trigger] ch[k1] < #[trigger] ch[k2],
        forall|k: int| 0 <= k < ch.len() ==> #[trigger] ch[k] < s1.len(),
        0 <= x < s1.len(),
        x <= usize::MAX,
        s2.len() == s1.len(),
        forall|y: int| 0 <= y < s1.len() && y != x ==> #[trigger] s1[y].visits == s2[y].visits,
        s2[x].visits == s1[x].visits + 1,
    ensures
        linked_visits(ch, parents, s2, q) == linked_visits(ch, parents, s1, q) + if ch.contains(x as usize)
            && parents[x] == Some(q as usize) {
            1int
        } else {
            0
        },
    decreases ch.len(),
{
    if ch.len() > 0 {
        let d = ch.drop_last();
        assert forall|k1: int, k2: int| 0 <= k1 < k2 < d.len() implies #[trigger] d[k1] < #[trigger] d[k2] by {
            assert(d[k1] == ch[k1] && d[k2] == ch[k2]);
        }
        assert forall|k: int| 0 <= k < d.len() implies #[trigger] d[k] < s1.len() by {
            assert(d[k] == ch[k]);
        }
        lemma_linked_bump(d, parents, s1, s2, q, x);
        let l = ch.len() - 1;
        assert(ch.last() == ch[l]);
        if ch[l] == x {
            assert(!d.contains(x as usize)) by {
                if d.contains(x as usize) {
                    let k = choose|k: int| 0 <= k < d.len() && d[k] == x as usize;
                    assert(ch[k] < ch[l]);
                }
            }
            assert(ch.contains(x as usize));
        } else {
            assert(ch.contains(x as usize) == d.contains(x as usize)) by {
                if ch.contains(x as usize) {
                    let k = choose|k: int| 0 <= k < ch.len() && ch[k] == x as usize;
                    assert(k != l);
                    assert(d[k] == ch[k]);
                }
                if d.contains(x as usize) {
                    let k = choose|k: int| 0 <= k < d.len() && d[k] == x as usize;
                    assert(ch[k] == x as usize);
                }
            }
        }
    }
}

proof fn lemma_linked_detach(ch: Seq<usize>, p1: Seq<Option<usize>>, p2: Seq<Option<usize>>, st: Seq<Stats>, q: int)
    requires
        forall|k: int| 0 <= k < ch.len() ==> p2[#[trigger] ch[k] as int] == p1[ch[k] as int] || p2[ch[k] as int] is None,
    ensures
        linked_visits(ch, p2, st, q) <= linked_visits(ch, p1, st, q),
    decreases ch.len(),
{
    if ch.len() > 0 {
        let d = ch.drop_last();
        assert forall|k: int| 0 <= k < d.len() implies p2[#[trigger] d[k] as int] == p1[d[k] as int] || p2[d[k] as int] is None by {
            assert(d[k] == ch[k]);
        }
        lemma_linked_detach(d, p1, p2, st, q);
        assert(ch.last() == ch[ch.len() - 1]);
    }
}

proof fn lemma_linked_unvisited(ch: Seq<usize>, parents: Seq<Option<usize>>, st: Seq<Stats>, q: int)
    requires
        forall|k: int| 0 <= k < ch.len() ==> st[#[trigger] ch[k] as int].visits == 0,
    ensures
        linked_visits(ch, parents, st, q) == 0,
    decreases ch.len(),
{
    if ch.len() > 0 {
        let d = ch.drop_last();
        assert forall|k: int| 0 <= k < d.len() implies st[#[trigger] d[k] as int].visits == 0 by {
            assert(d[k] == ch[k]);
        }
        lemma_linked_unvisited(d, parents, st, q);
        assert(ch.last() == ch[ch.len() - 1]);
    }
}

/// `j` lies on the chain of parents that starts at `from`.
pub open spec fn on_chain(parents: Seq<Option<usize>>, from: int, j: int) -> bool
    decreases from,
{
    if 0 <= from < parents.len() {
        from == j || (parents[from] matches Some(p) && p < from && on_chain(parents, p as int, j))
    } else {
        false
    }
}

proof fn lemma_on_chain_below(parents: Seq<Option<usize>>, from: int, j: int)
    requires
        on_chain(parents, from, j),
    ensures
        j <= from,
    decreases from,
{
    if from != j {
        let p = parents[from]->0;
        lemma_on_chain_below(parents, p as int, j);
    }
}

proof fn lemma_on_chain_trans(parents: Seq<Option<usize>>, a: int, b: int, c: int)
    requires
        on_chain(parents, a, b),
        on_chain(parents, b, c),
    ensures
        on_chain(parents, a, c),
    decreases a,
{
    if a != b {
        let p = parents[a]->0;
        lemma_on_chain_trans(parents, p as int, b, c);
    }
}

/// A board reached by one move is fixed by the board and the move.
proof fn lemma_successor_unique(b: Board, x: Board, y: Board, m: int)
    requires
        b.is_successor(x, m),
        b.is_successor(y, m),
    ensures
        x == y,
{
    assert forall|t: int| 0 <= t < 14 implies x.holes[t] == y.holes[t] by {
        assert(x.counts()[t] == y.counts()[t]);
    }
    assert(x.holes =~= y.holes);
}

/// Strict order of win rates is transitive through a rate no higher.
proof fn lemma_rate_trans(a: Stats, b: Stats, c: Stats)
    requires
        !rate_above(a, b),
        rate_above(c, b),
    ensures
        !rate_above(a, c),
        rate_above(c, a),
{
    let (an, ad, bn, bd, cn, cd) = (rate_num(a), rate_den(a), rate_num(b), rate_den(b), rate_num(c), rate_den(c));
    assert(ad > 0 && bd > 0 && cd > 0);
    assert(cn * ad > an * cd) by (nonlinear_arith)
        requires
            an * bd <= bn * ad,
            cn * bd > bn * cd,
            ad > 0,
            bd > 0,
            cd > 0,
    {
        assert(an * bd * cd <= bn * ad * cd);
        assert(cn * bd * ad > bn * cd * ad);
        assert(an * cd * bd < cn * ad * bd);
    }
}

/// Whether `a` has a strictly higher win rate than `b`.
pub fn rate_greater(a: Stats, b: Stats) -> (r: bool)
    requires
        a.wins + a.loses <= a.visits <= VISIT_LIMIT,
        b.wins + b.loses <= b.visits <= VISIT_LIMIT,
    ensures
        r == rate_above(a, b),
{
    let an: u64 = if a.visits == 0 { 1 } else { a.visits + a.wins - a.loses };
    let ad: u64 = if a.visits == 0 { 2 } else { 2 * a.visits };
    let bn: u64 = if b.visits == 0 { 1 } else { b.visits + b.wins - b.loses };
    let bd: u64 = if b.visits == 0 { 2 } else { 2 * b.visits };
    assert((an as int) * (bd as int) <= 9223372036854775808 * 9223372036854775808) by (nonlinear_arith)
        requires
            an <= 9223372036854775808int,
            bd <= 9223372036854775808int,
    ;
    assert((bn as int) * (ad as int) <= 9223372036854775808 * 9223372036854775808) by (nonlinear_arith)
        requires
            bn <= 9223372036854775808int,
            ad <= 9223372036854775808int,
    ;
    (an as u128) * (bd as u128) > (bn as u128) * (ad as u128)
}

proof fn lemma_on_chain_frame(p1: Seq<Option<usize>>, p2: Seq<Option<usize>>, from: int, j: int)
    requires
        0 <= from < p1.len(),
        from < p2.len(),
        forall|x: int| 0 <= x <= from ==> #[trigger] p1[x] == p2[x],
    ensures
        on_chain(p1, from, j) == on_chain(p2, from, j),
    decreases from,
{
    if let Some(p) = p1[from] {
        if p < from {
            lemma_on_chain_frame(p1, p2, p as int, j);
        }
    }
}

proof fn lemma_on_chain_detach(p1: Seq<Option<usize>>, p2: Seq<Option<usize>>, from: int, x: int)
    requires
        p1.len() == p2.len(),
        0 <= x < p1.len(),
        forall|y: int| 0 <= y < p1.len() && y != x ==> #[trigger] p1[y] == p2[y],
        on_chain(p2, from, x),
    ensures
        on_chain(p1, from, x),
    decreases from,
{
    if from != x {
        let p = p2[from]->0;
        lemma_on_chain_detach(p1, p2, p as int, x);
    }
}

pub struct MctsPolicy {
    nodes: Vec<Node>,
    parents: Vec<Option<usize>>,
    children: Vec<Vec<usize>>,
    stats: Vec<Stats>,
    root: usize,
    rng: SmallRng,
}

impl MctsPolicy {
    pub closed spec fn spec_nodes(&self) -> Seq<Node> {
        self.nodes@
    }

    pub closed spec fn spec_parents(&self) -> Seq<Option<usize>> {
        self.parents@
    }

    pub closed spec fn spec_children(&self) -> Seq<Seq<usize>> {
        self.children@.map_values(|v: Vec<usize>| v@)
    }

    pub closed spec fn spec_stats(&self) -> Seq<Stats> {
        self.stats@
    }

    pub closed spec fn spec_root(&self) -> int {
        self.root as int
    }

    /// Child `k` of node `i` is the board after the `k`-th legal move of
    /// node `i`, played by the side to move there.
    pub open spec fn child_ok(&self, i: int, k: int) -> bool {
        let n = self.spec_nodes()[i];
        let c = self.spec_children()[i][k];
        &&& i < c < self.spec_nodes().len()
        &&& n.board.is_successor(self.spec_nodes()[c as int].board, n.board.legal_moves()[k].0 as int)
        &&& self.spec_nodes()[c as int].parent_player == n.board.player
    }

    /// Node `i` has no children, or one for each legal move of its board, in
    /// increasing places; its counts are in bounds; its parent, if any, lies
    /// before it and lists it as a child.
    pub open spec fn shape_ok(&self, i: int) -> bool {
        let n = self.spec_nodes()[i];
        let s = self.spec_stats()[i];
        &&& s.wins + s.loses <= s.visits
        &&& s.visits <= VISIT_LIMIT
        &&& n.board.wf()
        &&& (self.spec_parents()[i] matches Some(p) ==> p < i && self.spec_children()[p as int].contains(
            i as usize,
        ))
        &&& forall|k1: int, k2: int|
            0 <= k1 < k2 < self.spec_children()[i].len() ==> #[trigger] self.spec_children()[i][k1]
                < #[trigger] self.spec_children()[i][k2]
        &&& (self.spec_children()[i].len() == 0 || (self.spec_children()[i].len()
            == n.board.legal_moves().len() && forall|k: int|
            0 <= k < self.spec_children()[i].len() ==> #[trigger] self.child_ok(i, k)))
    }

    /// No node has fewer visits than the children that link back to it.
    pub open spec fn sum_ok(&self, i: int) -> bool {
        self.spec_stats()[i].visits >= linked_visits(
            self.spec_children()[i],
            self.spec_parents(),
            self.spec_stats(),
            i,
        )
    }

    pub open spec fn node_ok(&self, i: int) -> bool {
        self.shape_ok(i) && self.sum_ok(i)
    }

    pub open spec fn wf(&self) -> bool {
        &&& self.spec_parents().len() == self.spec_nodes().len()
        &&& self.spec_children().len() == self.spec_nodes().len()
        &&& self.spec_stats().len() == self.spec_nodes().len()
        &&& 0 <= self.spec_root() < self.spec_nodes().len()
        &&& forall|i: int| 0 <= i < self.spec_nodes().len() ==> #[trigger] self.node_ok(i)
        &&& forall|i: int| 0 <= i < self.spec_nodes().len() ==> #[trigger] self.links_ok(i)
    }

    /// A node whose chain of parents reaches the root is the parent of each
    /// of its children.
    pub open spec fn links_ok(&self, i: int) -> bool {
        on_chain(self.spec_parents(), i, self.spec_root()) ==> forall|k: int|
            0 <= k < self.spec_children()[i].len() ==> self.spec_parents()[#[trigger] self.spec_children()[i][k] as int]
                == Some(i as usize)
    }

    /// `self` and `other` hold the same nodes in the same places, with the
    /// same links; only the counts may differ.
    pub open spec fn same_shape(&self, other: &MctsPolicy) -> bool {
        &&& self.spec_nodes() == other.spec_nodes()
        &&& self.spec_parents() == other.spec_parents()
        &&& self.spec_children() == other.spec_children()
        &&& self.spec_root() == other.spec_root()
    }

    /// Nothing that `wf` reads changed.
    proof fn lemma_same_state(a: &MctsPolicy, b: &MctsPolicy)
        requires
            a.wf(),
            b.same_shape(a),
            b.spec_stats() == a.spec_stats(),
        ensures
            b.wf(),
    {
        assert forall|i: int| 0 <= i < b.spec_nodes().len() implies #[trigger] b.node_ok(i) by {
            assert(a.node_ok(i));
            assert forall|k: int| 0 <= k < b.spec_children()[i].len() implies #[trigger] b.child_ok(
                i,
                k,
            ) by {
                assert(a.child_ok(i, k));
            }
        }
        assert forall|i: int| 0 <= i < b.spec_nodes().len() implies #[trigger] b.links_ok(i) by {
            assert(a.links_ok(i));
        }
    }

    /// Counts one more visit, ending with `winner`, at `leaf` and at every
    /// node on its chain of parents; where one of them has reached
    /// `VISIT_LIMIT`, counts nothing.
    fn backpropagate(&mut self, leaf: usize, winner: Option<Player>)
        requires
            old(self).wf(),
            leaf < old(self).spec_nodes().len(),
        ensures
            final(self).wf(),
            final(self).same_shape(old(self)),
            final(self).spec_stats().len() == old(self).spec_stats().len(),
            forall|j: int|
                0 <= j < old(self).spec_stats().len() ==> if chain_below(
                    old(self).spec_parents(),
                    old(self).spec_stats(),
                    leaf as int,
                ) && on_chain(old(self).spec_parents(), leaf as int, j) {
                    tallied(
                        old(self).spec_stats()[j],
                        #[trigger] final(self).spec_stats()[j],
                        old(self).spec_nodes()[j].parent_player,
                        winner,
                    )
                } else {
                    final(self).spec_stats()[j] == old(self).spec_stats()[j]
                },
    {
        let ghost s0 = self.spec_stats();
        let ghost parents = self.spec_parents();
        let mut ok = true;
        let mut next: Option<usize> = Some(leaf);
        while next.is_some()
            invariant
                self.wf(),
                self.same_shape(old(self)),
                s0 == self.spec_stats(),
                s0 == old(self).spec_stats(),
                parents == self.spec_parents(),
                parents == old(self).spec_parents(),
                next matches Some(c) ==> c < s0.len(),
                chain_below(parents, s0, leaf as int) == (ok && match next {
                    Some(c) => chain_below(parents, s0, c as int),
                    None => true,
                }),
            decreases
                match next {
                    Some(c) => c + 1,
                    None => 0,
                },
        {
            let cur = match next {
                Some(c) => c,
                None => 0,
            };
            proof {
                assert(self.node_ok(cur as int));
            }
            if self.stats[cur].visits >= VISIT_LIMIT {
                ok = false;
            }
            next = self.parents[cur];
        }
        if !ok {
            return;
        }
        proof {
            assert forall|i: int| 0 <= i < s0.len() implies #[trigger] self.shape_ok(i) && self.sum_ok(i) by {
                assert(self.node_ok(i));
            }
            assert(on_chain(parents, leaf as int, leaf as int));
        }
        let mut next: Option<usize> = Some(leaf);
        proof {
            assert forall|q: int| 0 <= q < s0.len() implies #[trigger] self.spec_stats()[q].visits + (if next == Some(
                q as usize,
            ) {
                1int
            } else {
                0
            }) >= linked_visits(self.spec_children()[q], parents, self.spec_stats(), q) by {
                assert(self.node_ok(q));
            }
        }
        while next.is_some()
            invariant
                self.same_shape(old(self)),
                self.spec_stats().len() == s0.len(),
                s0 == old(self).spec_stats(),
                parents == old(self).spec_parents(),
                parents.len() == s0.len(),
                old(self).wf(),
                forall|i: int| 0 <= i < s0.len() ==> #[trigger] self.shape_ok(i),
                forall|q: int|
                    0 <= q < s0.len() ==> #[trigger] self.spec_stats()[q].visits + (if next == Some(
                        q as usize,
                    ) {
                        1int
                    } else {
                        0
                    }) >= linked_visits(self.spec_children()[q], parents, self.spec_stats(), q),
                next matches Some(c) ==> c < s0.len() && on_chain(parents, leaf as int, c as int)
                    && chain_below(parents, s0, c as int),
                forall|j: int|
                    0 <= j < s0.len() ==> if on_chain(parents, leaf as int, j) && !(next matches Some(
                        c,
                    ) && on_chain(parents, c as int, j)) {
                        tallied(
                            s0[j],
                            #[trigger] self.spec_stats()[j],
                            self.spec_nodes()[j].parent_player,
                            winner,
                        )
                    } else {
                        self.spec_stats()[j] == s0[j]
                    },
            decreases
                match next {
                    Some(c) => c + 1,
                    None => 0,
                },
        {
            let cur = match next {
                Some(c) => c,
                None => 0,
            };
            let ghost st1 = self.spec_stats();
            let ghost before = *self;
            proof {
                assert(self.stats.len() == s0.len());
                assert(next == Some(cur));
                assert forall|q: int| 0 <= q < s0.len() implies #[trigger] st1[q].visits + (if cur
                    == q {
                    1int
                } else {
                    0
                }) >= linked_visits(self.spec_children()[q], parents, st1, q) by {
                    assert(self.spec_stats()[q].visits + (if next == Some(q as usize) {
                        1int
                    } else {
                        0
                    }) >= linked_visits(self.spec_children()[q], parents, self.spec_stats(), q));
                }
            }
            let s = self.stats[cur];
            proof {
                assert(self.shape_ok(cur as int));
                assert(old(self).node_ok(cur as int));
                lemma_on_chain_below(parents, leaf as int, cur as int);
                assert(on_chain(parents, cur as int, cur as int));
                assert(s == s0[cur as int]);
            }
            let pp = self.nodes[cur].parent_player;
            let ns = match winner {
                Some(w) => if w == pp {
                    Stats { visits: s.visits + 1, wins: s.wins + 1, loses: s.loses }
                } else {
                    Stats { visits: s.visits + 1, wins: s.wins, loses: s.loses + 1 }
                },
                None => Stats { visits: s.visits + 1, wins: s.wins, loses: s.loses },
            };
            self.stats.set(cur, ns);
            next = self.parents[cur];
            proof {
                let st2 = self.spec_stats();
                assert forall|q: int| 0 <= q < s0.len() implies linked_visits(
                    self.spec_children()[q],
                    parents,
                    st2,
                    q,
                ) == linked_visits(self.spec_children()[q], parents, st1, q) + if self.spec_children()[q].contains(cur)
                    && parents[cur as int] == Some(q as usize) {
                    1int
                } else {
                    0
                } by {
                    assert(old(self).node_ok(q));
                    assert forall|k: int| 0 <= k < self.spec_children()[q].len() implies #[trigger] self.spec_children()[q][k] < st1.len() by {
                        assert(old(self).child_ok(q, k));
                    }
                    lemma_linked_bump(self.spec_children()[q], parents, st1, st2, q, cur as int);
                }
                assert forall|i: int| 0 <= i < s0.len() implies #[trigger] self.shape_ok(i) by {
                    assert(old(self).node_ok(i));
                    assert(before.shape_ok(i));
                    assert forall|k: int|
                        0 <= k < self.spec_children()[i].len() implies #[trigger] self.child_ok(i, k) by {
                        assert(old(self).child_ok(i, k));
                    }
                }
                assert(!self.spec_children()[cur as int].contains(cur)) by {
                    if self.spec_children()[cur as int].contains(cur) {
                        let k = choose|k: int|
                            0 <= k < self.spec_children()[cur as int].len()
                                && self.spec_children()[cur as int][k] == cur;
                        assert(old(self).child_ok(cur as int, k));
                    }
                }
                assert forall|q: int| 0 <= q < s0.len() implies #[trigger] self.spec_stats()[q].visits + (if next == Some(
                    q as usize,
                ) {
                    1int
                } else {
                    0
                }) >= linked_visits(self.spec_children()[q], parents, self.spec_stats(), q) by {
                    assert(st1[q].visits + (if cur == q {
                        1int
                    } else {
                        0
                    }) >= linked_visits(self.spec_children()[q], parents, st1, q));
                    assert(old(self).node_ok(cur as int));
                    if q != cur {
                        assert(self.spec_stats()[q] == st1[q]);
                    }
                }
                assert forall|j: int| 0 <= j < s0.len() implies on_chain(parents, cur as int, j) == (
                j == cur || (next matches Some(p) && on_chain(parents, p as int, j))) by {}
                if let Some(p) = next {
                    assert(on_chain(parents, cur as int, p as int));
                    lemma_on_chain_trans(parents, leaf as int, cur as int, p as int);
                    assert forall|j: int|
                        0 <= j < s0.len() && on_chain(parents, p as int, j) implies j != cur by {
                        lemma_on_chain_below(parents, p as int, j);
                    }
                }
            }
        }
        proof {
            assert forall|i: int| 0 <= i < s0.len() implies #[trigger] self.node_ok(i) by {
                assert(self.shape_ok(i));
                assert(self.spec_stats()[i].visits + 0 >= linked_visits(self.spec_children()[i], parents, self.spec_stats(), i));
            }
            assert forall|i: int| 0 <= i < s0.len() implies #[trigger] self.links_ok(i) by {
                assert(old(self).links_ok(i));
            }
        }
    }

    /// Gives node `i` one child for each legal move of its board; the new
    /// nodes are appended, unvisited and without children.
    fn expand_node(&mut self, i: usize)
        requires
            old(self).wf(),
            i < old(self).spec_nodes().len(),
            old(self).spec_children()[i as int].len() == 0,
        ensures
            final(self).wf(),
            final(self).spec_root() == old(self).spec_root(),
            final(self).spec_nodes().len() == old(self).spec_nodes().len() + old(self).spec_nodes()[i as int].board.legal_moves().len(),
            final(self).spec_children()[i as int].len() == old(self).spec_nodes()[i as int].board.legal_moves().len(),
            forall|j: int|
                0 <= j < old(self).spec_nodes().len() ==> {
                    &&& #[trigger] final(self).spec_nodes()[j] == old(self).spec_nodes()[j]
                    &&& final(self).spec_parents()[j] == old(self).spec_parents()[j]
                    &&& final(self).spec_stats()[j] == old(self).spec_stats()[j]
                    &&& j != i ==> final(self).spec_children()[j] == old(self).spec_children()[j]
                },
            forall|j: int|
                old(self).spec_nodes().len() <= j < final(self).spec_nodes().len() ==> {
                    &&& #[trigger] final(self).spec_stats()[j] == (Stats {
                        visits: 0,
                        wins: 0,
                        loses: 0,
                    })
                    &&& final(self).spec_children()[j].len() == 0
                    &&& final(self).spec_parents()[j] == Some(i)
                },
    {
        let ghost len0 = self.nodes.len() as int;
        let board = self.nodes[i].board;
        proof {
            assert(self.node_ok(i as int));
        }
        let next = board.next_states();
        let pp = board.player;
        let mut kids: Vec<usize> = Vec::new();
        let mut k: usize = 0;
        while k < next.len()
            invariant
                board == old(self).spec_nodes()[i as int].board,
                pp == board.player,
                board.wf(),
                i < len0,
                len0 == old(self).spec_nodes().len(),
                next@.len() == board.legal_moves().len(),
                forall|t: int|
                    0 <= t < next@.len() ==> board.is_successor(
                        #[trigger] next@[t],
                        board.legal_moves()[t].0 as int,
                    ),
                forall|t: int| 0 <= t < next@.len() ==> (#[trigger] next@[t]).wf(),
                0 <= k <= next.len(),
                kids@.len() == k,
                self.nodes@.len() == len0 + k,
                self.parents@.len() == len0 + k,
                self.children@.len() == len0 + k,
                self.stats@.len() == len0 + k,
                self.root == old(self).root,
                self.nodes@.subrange(0, len0) == old(self).nodes@,
                self.parents@.subrange(0, len0) == old(self).parents@,
                self.children@.subrange(0, len0) == old(self).children@,
                self.stats@.subrange(0, len0) == old(self).stats@,
                forall|t: int| 0 <= t < k ==> #[trigger] kids@[t] == len0 + t,
                forall|t: int|
                    0 <= t < k ==> #[trigger] self.nodes@[len0 + t] == (Node {
                        board: next@[t],
                        parent_player: pp,
                    }),
                forall|t: int| len0 <= t < len0 + k ==> #[trigger] self.parents@[t] == Some(i),
                forall|t: int| len0 <= t < len0 + k ==> (#[trigger] self.children@[t])@.len() == 0,
                forall|t: int|
                    len0 <= t < len0 + k ==> #[trigger] self.stats@[t] == (Stats {
                        visits: 0,
                        wins: 0,
                        loses: 0,
                    }),
            decreases next.len() - k,
        {
            let idx = self.nodes.len();
            self.nodes.push(Node { board: next[k], parent_player: pp });
            self.parents.push(Some(i));
            self.children.push(Vec::new());
            self.stats.push(Stats { visits: 0, wins: 0, loses: 0 });
            kids.push(idx);
            k = k + 1;
            proof {
                assert(self.nodes@.subrange(0, len0) =~= old(self).nodes@);
                assert(self.parents@.subrange(0, len0) =~= old(self).parents@);
                assert(self.children@.subrange(0, len0) =~= old(self).children@);
                assert(self.stats@.subrange(0, len0) =~= old(self).stats@);
            }
        }
        self.children.set(i, kids);
        proof {
            assert forall|j: int| 0 <= j < len0 implies {
                &&& #[trigger] self.spec_nodes()[j] == old(self).spec_nodes()[j]
                &&& self.spec_parents()[j] == old(self).spec_parents()[j]
                &&& self.spec_stats()[j] == old(self).spec_stats()[j]
                &&& j != i ==> self.spec_children()[j] == old(self).spec_children()[j]
            } by {
                assert(self.nodes@[j] == self.nodes@.subrange(0, len0)[j]);
                assert(self.parents@[j] == self.parents@.subrange(0, len0)[j]);
                assert(self.stats@[j] == self.stats@.subrange(0, len0)[j]);
                if j != i {
                    assert(old(self).children@[j] == old(self).children@.subrange(0, len0)[j]);
                }
            }
            assert forall|j: int| 0 <= j < self.spec_nodes().len() implies #[trigger] self.node_ok(
                j,
            ) by {
                if j < len0 {
                    assert(old(self).node_ok(j));
                    if j != i {
                        assert forall|t: int| 0 <= t < self.spec_children()[j].len() implies old(self).spec_parents()[#[trigger] self.spec_children()[j][t] as int] == self.spec_parents()[self.spec_children()[j][t] as int] && old(self).spec_stats()[self.spec_children()[j][t] as int].visits == self.spec_stats()[self.spec_children()[j][t] as int].visits by {
                            assert(old(self).child_ok(j, t));
                        }
                        lemma_linked_frame(self.spec_children()[j], old(self).spec_parents(), old(self).spec_stats(), self.spec_parents(), self.spec_stats(), j);
                    } else {
                        assert forall|t: int| 0 <= t < self.spec_children()[j].len() implies self.spec_stats()[#[trigger] self.spec_children()[j][t] as int].visits == 0 by {
                            assert(self.spec_children()[j][t] == len0 + t);
                        }
                        lemma_linked_unvisited(self.spec_children()[j], self.spec_parents(), self.spec_stats(), j);
                    }
                    if let Some(p) = self.spec_parents()[j] {
                        assert(old(self).spec_children()[p as int].contains(j as usize));
                        assert(p != i);
                        assert(self.spec_children()[p as int] == old(self).spec_children()[p as int]);
                    }
                    if j != i {
                        assert forall|t: int|
                            0 <= t < self.spec_children()[j].len() implies #[trigger] self.child_ok(
                            j,
                            t,
                        ) by {
                            assert(old(self).child_ok(j, t));
                            let c = self.spec_children()[j][t];
                            assert(self.spec_nodes()[c as int] == old(self).spec_nodes()[c as int]);
                        }
                    } else {
                        assert forall|t: int|
                            0 <= t < self.spec_children()[j].len() implies #[trigger] self.child_ok(
                            j,
                            t,
                        ) by {
                            assert(self.spec_children()[j][t] == len0 + t);
                            assert(self.spec_nodes()[len0 + t] == self.nodes@[len0 + t]);
                        }
                    }
                } else {
                    assert(self.nodes@[j] == self.nodes@[len0 + (j - len0)]);
                    assert(self.spec_children()[i as int][j - len0] == j);
                }
            }
            assert forall|j: int| 0 <= j < self.spec_nodes().len() implies #[trigger] self.links_ok(j) by {
                if j < len0 {
                    assert forall|x: int| 0 <= x <= j implies #[trigger] old(self).spec_parents()[x] == self.spec_parents()[x] by {
                        assert(self.parents@[x] == self.parents@.subrange(0, len0)[x]);
                    }
                    lemma_on_chain_frame(old(self).spec_parents(), self.spec_parents(), j, self.spec_root());
                    assert(old(self).links_ok(j));
                    assert(old(self).node_ok(j));
                    if j != i {
                        assert forall|k: int| 0 <= k < self.spec_children()[j].len() implies self.spec_parents()[#[trigger] self.spec_children()[j][k] as int] == old(self).spec_parents()[self.spec_children()[j][k] as int] by {
                            assert(old(self).child_ok(j, k));
                            let c = self.spec_children()[j][k];
                            assert(self.parents@[c as int] == self.parents@.subrange(0, len0)[c as int]);
                        }
                    } else {
                        assert forall|k: int| 0 <= k < self.spec_children()[j].len() implies self.spec_parents()[#[trigger] self.spec_children()[j][k] as int] == Some(j as usize) by {
                            assert(self.spec_children()[j][k] == len0 + k);
                        }
                    }
                }
            }
        }
    }

    /// Plays random legal moves from node `i` until the game ends, and
    /// returns the winner of the final board. The game ends: every move
    /// lowers `progress`.
    fn playout(&mut self, i: usize) -> (r: Option<Player>)
        requires
            old(self).wf(),
            i < old(self).spec_nodes().len(),
        ensures
            final(self).same_shape(old(self)),
            final(self).spec_stats() == old(self).spec_stats(),
            final(self).wf(),
            exists|end: Board, n: nat|
                reaches(old(self).spec_nodes()[i as int].board, end, n) && end.spec_is_game_over()
                    && r == Some(end.spec_winner()),
    {
        proof {
            assert(self.node_ok(i as int));
        }
        let mut board = self.nodes[i].board;
        let ghost start = board;
        let ghost mut n: nat = 0;
        while !board.is_game_over()
            invariant
                board.wf(),
                reaches(start, board, n),
                start == old(self).spec_nodes()[i as int].board,
                self.nodes@ == old(self).nodes@,
                self.parents@ == old(self).parents@,
                self.children@ == old(self).children@,
                self.stats@ == old(self).stats@,
                self.root == old(self).root,
            decreases progress(board.counts()),
        {
            let moves = board.possible_moves();
            proof {
                lemma_legal_moves(board);
            }
            let k = match choose_index(&mut self.rng, moves.len()) {
                Some(k) => k,
                None => 0,
            };
            let ghost before = board;
            let m = moves[k];
            board.apply_move(m);
            proof {
                lemma_move_progress(before, board, m.0 as int);
                assert(reaches(start, board, n + 1));
                n = n + 1;
            }
        }
        proof {
            MctsPolicy::lemma_same_state(old(self), self);
        }
        board.winner()
    }

    /// One round of search from `leaf`, a node without children: a random
    /// playout from its board, one more visit counted at `leaf` and at each
    /// node on its chain of parents, and then `leaf` is expanded. Returns the
    /// winner of the playout.
    pub fn search_iteration(&mut self, leaf: usize) -> (r: Option<Player>)
        requires
            old(self).wf(),
            leaf < old(self).spec_nodes().len(),
            old(self).spec_children()[leaf as int].len() == 0,
        ensures
            final(self).wf(),
            final(self).spec_root() == old(self).spec_root(),
            final(self).spec_children()[leaf as int].len() == old(self).spec_nodes()[leaf as int].board.legal_moves().len(),
            exists|end: Board, n: nat|
                reaches(old(self).spec_nodes()[leaf as int].board, end, n) && end.spec_is_game_over()
                    && r == Some(end.spec_winner()),
            forall|j: int|
                0 <= j < old(self).spec_nodes().len() ==> {
                    &&& #[trigger] final(self).spec_nodes()[j] == old(self).spec_nodes()[j]
                    &&& final(self).spec_parents()[j] == old(self).spec_parents()[j]
                    &&& j != leaf ==> final(self).spec_children()[j] == old(self).spec_children()[j]
                    &&& if chain_below(old(self).spec_parents(), old(self).spec_stats(), leaf as int)
                        && on_chain(old(self).spec_parents(), leaf as int, j) {
                        tallied(
                            old(self).spec_stats()[j],
                            final(self).spec_stats()[j],
                            old(self).spec_nodes()[j].parent_player,
                            r,
                        )
                    } else {
                        final(self).spec_stats()[j] == old(self).spec_stats()[j]
                    }
                },
    {
        let winner = self.playout(leaf);
        self.backpropagate(leaf, winner);
        let ghost mid_stats = self.spec_stats();
        let ghost mid_nodes = self.spec_nodes();
        self.expand_node(leaf);
        proof {
            assert forall|j: int| 0 <= j < old(self).spec_nodes().len() implies self.spec_stats()[j]
                == mid_stats[j] && self.spec_nodes()[j] == mid_nodes[j] by {
                assert(self.spec_nodes()[j] == mid_nodes[j]);
            }
        }
        winner
    }

    /// Moves the root to `c` and cuts it from its parent.
    fn advance_root(&mut self, c: usize)
        requires
            old(self).wf(),
            c < old(self).spec_nodes().len(),
            c == old(self).spec_root() || old(self).spec_parents()[c as int] == Some(
                old(self).spec_root() as usize,
            ),
        ensures
            final(self).wf(),
            final(self).spec_root() == c,
            final(self).spec_parents()[c as int] is None,
            final(self).spec_nodes() == old(self).spec_nodes(),
            final(self).spec_children() == old(self).spec_children(),
            final(self).spec_stats() == old(self).spec_stats(),
            forall|j: int|
                0 <= j < old(self).spec_nodes().len() && j != c ==> #[trigger] final(self).spec_parents()[j] == old(self).spec_parents()[j],
    {
        self.root = c;
        self.parents.set(c, None);
        proof {
            assert forall|j: int| 0 <= j < self.spec_nodes().len() implies #[trigger] self.node_ok(
                j,
            ) by {
                assert(old(self).node_ok(j));
                assert forall|t: int|
                    0 <= t < self.spec_children()[j].len() implies #[trigger] self.child_ok(
                    j,
                    t,
                ) by {
                    assert(old(self).child_ok(j, t));
                }
                assert forall|t: int| 0 <= t < self.spec_children()[j].len() implies self.spec_parents()[#[trigger] self.spec_children()[j][t] as int] == old(self).spec_parents()[self.spec_children()[j][t] as int] || self.spec_parents()[self.spec_children()[j][t] as int] is None by {
                    assert(old(self).child_ok(j, t));
                }
                lemma_linked_detach(self.spec_children()[j], old(self).spec_parents(), self.spec_parents(), self.spec_stats(), j);
            }
            let r0 = old(self).spec_root();
            assert(on_chain(old(self).spec_parents(), c as int, r0)) by {
                assert(old(self).node_ok(c as int));
                assert(on_chain(old(self).spec_parents(), r0, r0));
            }
            assert forall|j: int| 0 <= j < self.spec_nodes().len() implies #[trigger] self.links_ok(j) by {
                if on_chain(self.spec_parents(), j, c as int) {
                    lemma_on_chain_detach(old(self).spec_parents(), self.spec_parents(), j, c as int);
                    lemma_on_chain_below(old(self).spec_parents(), j, c as int);
                    lemma_on_chain_trans(old(self).spec_parents(), j, c as int, r0);
                    assert(old(self).links_ok(j));
                    assert(old(self).node_ok(j));
                    assert forall|k: int| 0 <= k < self.spec_children()[j].len() implies self.spec_parents()[#[trigger] self.spec_children()[j][k] as int] == Some(j as usize) by {
                        assert(old(self).child_ok(j, k));
                    }
                }
            }
        }
    }

    /// Whether `board` is the root's board or the board after one legal
    /// move from it: what `descend_game_tree` asks of its argument.
    pub fn is_reachable(&self, board: &Board) -> (r: bool)
        requires
            self.wf(),
        ensures
            r == ({
                let b0 = self.spec_nodes()[self.spec_root()].board;
                *board == b0 || exists|k: int|
                    0 <= k < b0.legal_moves().len() && b0.is_successor(
                        *board,
                        (#[trigger] b0.legal_moves()[k]).0 as int,
                    )
            }),
    {
        let r = self.root;
        proof {
            assert(self.node_ok(r as int));
        }
        let b0 = self.nodes[r].board;
        if b0 == *board {
            proof {
                assert(b0.holes =~= board.holes);
            }
            return true;
        }
        let next = b0.next_states();
        let mut k: usize = 0;
        while k < next.len()
            invariant
                b0.wf(),
                b0 == self.spec_nodes()[self.spec_root()].board,
                *board != b0,
                next@.len() == b0.legal_moves().len(),
                forall|t: int|
                    0 <= t < next@.len() ==> b0.is_successor(
                        #[trigger] next@[t],
                        b0.legal_moves()[t].0 as int,
                    ),
                0 <= k <= next.len(),
                forall|t: int|
                    0 <= t < k ==> !b0.is_successor(
                        *board,
                        (#[trigger] b0.legal_moves()[t]).0 as int,
                    ),
            decreases next.len() - k,
        {
            if next[k] == *board {
                proof {
                    assert(next@[k as int].holes =~= board.holes);
                    assert(b0.is_successor(*board, b0.legal_moves()[k as int].0 as int));
                }
                return true;
            }
            proof {
                if b0.is_successor(*board, b0.legal_moves()[k as int].0 as int) {
                    lemma_successor_unique(b0, next@[k as int], *board, b0.legal_moves()[k as int].0 as int);
                }
            }
            k = k + 1;
        }
        false
    }

    /// Brings the root in line with `board`, which is the root's board or
    /// the board after one legal move from it: the root stays, or the child
    /// of the root that holds `board` becomes the root. The root is expanded
    /// first where it has no children, and the new root too; it is then cut
    /// from its parent. No count changes, and nodes appended by the
    /// expansions are unvisited.
    /// Expands node `i` where it has no children yet.
    fn expand_if_leaf(&mut self, i: usize)
        requires
            old(self).wf(),
            i < old(self).spec_nodes().len(),
        ensures
            final(self).wf(),
            final(self).spec_root() == old(self).spec_root(),
            final(self).spec_nodes().len() >= old(self).spec_nodes().len(),
            final(self).spec_children()[i as int].len() == old(self).spec_nodes()[i as int].board.legal_moves().len(),
            forall|j: int|
                0 <= j < old(self).spec_nodes().len() ==> {
                    &&& #[trigger] final(self).spec_nodes()[j] == old(self).spec_nodes()[j]
                    &&& final(self).spec_parents()[j] == old(self).spec_parents()[j]
                    &&& final(self).spec_stats()[j] == old(self).spec_stats()[j]
                    &&& (j != i || old(self).spec_children()[j].len() != 0) ==> final(self).spec_children()[j]
                        == old(self).spec_children()[j]
                },
            forall|j: int|
                old(self).spec_nodes().len() <= j < final(self).spec_nodes().len() ==> {
                    &&& #[trigger] final(self).spec_stats()[j] == (Stats { visits: 0, wins: 0, loses: 0 })
                    &&& final(self).spec_children()[j].len() == 0
                    &&& final(self).spec_parents()[j] == Some(i)
                },
    {
        proof {
            assert(self.node_ok(i as int));
        }
        if self.children[i].len() == 0 {
            self.expand_node(i);
        }
    }

    /// The root itself where `board` is its board, else the child of the
    /// root that holds `board`.
    fn find_child(&self, board: &Board) -> (c: usize)
        requires
            self.wf(),
            self.spec_children()[self.spec_root()].len() == self.spec_nodes()[self.spec_root()].board.legal_moves().len(),
            ({
                let b0 = self.spec_nodes()[self.spec_root()].board;
                *board == b0 || exists|k: int|
                    0 <= k < b0.legal_moves().len() && b0.is_successor(
                        *board,
                        (#[trigger] b0.legal_moves()[k]).0 as int,
                    )
            }),
        ensures
            c < self.spec_nodes().len(),
            self.spec_nodes()[c as int].board == *board,
            *board == self.spec_nodes()[self.spec_root()].board ==> c == self.spec_root(),
            *board != self.spec_nodes()[self.spec_root()].board ==> self.spec_children()[self.spec_root()].contains(c)
                && self.spec_parents()[c as int] == Some(self.root),
    {
        let r = self.root;
        let ghost b0 = self.spec_nodes()[r as int].board;
        proof {
            assert(self.node_ok(r as int));
            assert(self.links_ok(r as int));
            assert(on_chain(self.spec_parents(), r as int, r as int));
        }
        if self.nodes[r].board == *board {
            proof {
                assert(self.nodes@[r as int].board.holes =~= board.holes);
            }
            return r;
        }
        let n = self.children[r].len();
        let mut k: usize = 0;
        while k < n
            invariant
                self.wf(),
                r == self.root,
                n == self.spec_children()[r as int].len(),
                n == b0.legal_moves().len(),
                b0 == self.spec_nodes()[r as int].board,
                *board != b0,
                0 <= k <= n,
                forall|t: int|
                    0 <= t < k ==> !b0.is_successor(
                        *board,
                        (#[trigger] b0.legal_moves()[t]).0 as int,
                    ),
            decreases n - k,
        {
            let c = self.children[r][k];
            proof {
                assert(self.node_ok(r as int));
                assert(self.child_ok(r as int, k as int));
            }
            if self.nodes[c].board == *board {
                proof {
                    assert(self.nodes@[c as int].board.holes =~= board.holes);
                    assert(self.spec_children()[r as int][k as int] == c);
                    assert(self.links_ok(r as int));
                    assert(on_chain(self.spec_parents(), r as int, r as int));
                }
                return c;
            } else {
                proof {
                    if b0.is_successor(*board, b0.legal_moves()[k as int].0 as int) {
                        lemma_successor_unique(
                            b0,
                            self.spec_nodes()[c as int].board,
                            *board,
                            b0.legal_moves()[k as int].0 as int,
                        );
                    }
                }
            }
            k = k + 1;
        }
        proof {
            let k = choose|k: int|
                0 <= k < b0.legal_moves().len() && b0.is_successor(
                    *board,
                    (#[trigger] b0.legal_moves()[k]).0 as int,
                );
            assert(!b0.is_successor(*board, b0.legal_moves()[k].0 as int));
        }
        r
    }

    pub fn descend_game_tree(&mut self, board: &Board)
        requires
            old(self).wf(),
            ({
                let b0 = old(self).spec_nodes()[old(self).spec_root()].board;
                *board == b0 || exists|k: int|
                    0 <= k < b0.legal_moves().len() && b0.is_successor(
                        *board,
                        (#[trigger] b0.legal_moves()[k]).0 as int,
                    )
            }),
        ensures
            final(self).wf(),
            final(self).spec_nodes().len() >= old(self).spec_nodes().len(),
            forall|j: int|
                0 <= j < old(self).spec_nodes().len() ==> {
                    &&& #[trigger] final(self).spec_nodes()[j] == old(self).spec_nodes()[j]
                    &&& final(self).spec_stats()[j] == old(self).spec_stats()[j]
                    &&& j != final(self).spec_root() ==> final(self).spec_parents()[j] == old(self).spec_parents()[j]
                    &&& old(self).spec_children()[j].len() != 0 ==> final(self).spec_children()[j] == old(self).spec_children()[j]
                },
            forall|j: int|
                old(self).spec_nodes().len() <= j < final(self).spec_nodes().len() ==> #[trigger] final(self).spec_stats()[j]
                    == (Stats { visits: 0, wins: 0, loses: 0 }),
            forall|j: int|
                old(self).spec_nodes().len() <= j < final(self).spec_nodes().len() && j != final(self).spec_root()
                    ==> (#[trigger] final(self).spec_children()[j]).len() == 0,
            ({
                let r = final(self).spec_root();
                let r0 = old(self).spec_root();
                &&& final(self).spec_nodes()[r].board == *board
                &&& final(self).spec_parents()[r] is None
                &&& final(self).spec_children()[r].len() == board.legal_moves().len()
                &&& *board == old(self).spec_nodes()[r0].board ==> r == r0
                &&& *board != old(self).spec_nodes()[r0].board ==> {
                    &&& final(self).spec_children()[r0].contains(r as usize)
                    &&& old(self).spec_children()[r0].len() != 0 ==> old(self).spec_children()[r0].contains(r as usize)
                }
            }),
    {
        let ghost len0 = self.spec_nodes().len();
        let ghost s0 = self.spec_stats();
        let ghost c0 = self.spec_children();
        let ghost p0 = self.spec_parents();
        let ghost n0 = self.spec_nodes();
        let r = self.root;
        self.expand_if_leaf(r);
        let ghost len1 = self.spec_nodes().len();
        let ghost s1 = self.spec_stats();
        let ghost c1 = self.spec_children();
        let ghost p1 = self.spec_parents();
        let ghost n1 = self.spec_nodes();
        proof {
            assert(n1[r as int] == n0[r as int]);
        }
        let target = self.find_child(board);
        self.expand_if_leaf(target);
        let ghost s2 = self.spec_stats();
        let ghost c2 = self.spec_children();
        let ghost n2 = self.spec_nodes();
        proof {
            assert(n2[target as int] == n1[target as int]);
            assert(self.spec_parents()[target as int] == p1[target as int]);
        }
        self.advance_root(target);
        proof {
            assert forall|j: int| 0 <= j < len0 implies {
                &&& #[trigger] self.spec_nodes()[j] == n0[j]
                &&& self.spec_stats()[j] == s0[j]
                &&& j != self.spec_root() ==> self.spec_parents()[j] == p0[j]
                &&& c0[j].len() != 0 ==> self.spec_children()[j] == c0[j]
            } by {
                assert(n1[j] == n0[j]);
                assert(s1[j] == s0[j]);
                assert(p1[j] == p0[j]);
                assert(n2[j] == n1[j]);
                if c0[j].len() != 0 {
                    assert(c1[j] == c0[j]);
                    assert(c2[j] == c1[j]);
                }
            }
            assert forall|j: int| old(self).spec_nodes().len() <= j < self.spec_nodes().len() implies #[trigger] self.spec_stats()[j]
                == (Stats { visits: 0, wins: 0, loses: 0 }) by {
                if j < len1 {
                    assert(n2[j] == n1[j]);
                    assert(s2[j] == s1[j]);
                }
            }
            assert forall|j: int| old(self).spec_nodes().len() <= j < self.spec_nodes().len() && j != self.spec_root() implies (
            #[trigger] self.spec_children()[j]).len() == 0 by {
                assert(j != target);
                if j < len1 {
                    assert(s1[j] == (Stats { visits: 0, wins: 0, loses: 0 }));
                    assert(c1[j].len() == 0);
                    assert(n2[j] == n1[j]);
                    assert(c2[j] == c1[j]);
                } else {
                    assert(s2[j] == (Stats { visits: 0, wins: 0, loses: 0 }));
                    assert(c2[j].len() == 0);
                }
            }
            if *board != n0[r as int].board {
                assert(target != r);
                assert(n2[r as int] == n1[r as int]);
                assert(c2[r as int] == c1[r as int]);
                if c0[r as int].len() != 0 {
                    assert(c1[r as int] == c0[r as int]);
                }
            }
        }
    }

    /// Picks the child of the root with the highest win rate, the first such
    /// in the order of the moves, makes it the root, cut from its parent,
    /// and returns its board. The root must have children: the game is not
    /// over there and the root has been expanded. Every count is kept, so
    /// the new root keeps the statistics that the search gathered for it.
    pub fn finish_turn(&mut self) -> (r: Board)
        requires
            old(self).wf(),
            old(self).spec_children()[old(self).spec_root()].len() != 0,
        ensures
            final(self).wf(),
            final(self).spec_nodes() == old(self).spec_nodes(),
            final(self).spec_children() == old(self).spec_children(),
            final(self).spec_stats() == old(self).spec_stats(),
            ({
                let kids = old(self).spec_children()[old(self).spec_root()];
                let c = final(self).spec_root();
                &&& kids.contains(c as usize)
                &&& r == final(self).spec_nodes()[c].board
                &&& final(self).spec_parents()[c] is None
                &&& forall|k: int|
                    0 <= k < kids.len() ==> !rate_above(
                        old(self).spec_stats()[#[trigger] kids[k] as int],
                        old(self).spec_stats()[c],
                    )
                &&& exists|k: int|
                    0 <= k < kids.len() && kids[k] == c && forall|u: int|
                        0 <= u < k ==> rate_above(
                            old(self).spec_stats()[c],
                            old(self).spec_stats()[#[trigger] kids[u] as int],
                        )
            }),
    {
        let r = self.root;
        proof {
            assert(self.node_ok(r as int));
        }
        let n = self.children[r].len();
        let ghost kids = self.spec_children()[r as int];
        let ghost st = self.spec_stats();
        let mut best: usize = 0;
        let mut t: usize = 1;
        proof {
            assert forall|u: int| 0 <= u < n implies #[trigger] kids[u] < st.len() by {
                assert(self.child_ok(r as int, u));
            }
        }
        while t < n
            invariant
                self.wf(),
                r == self.root,
                kids == self.spec_children()[r as int],
                st == self.spec_stats(),
                n == kids.len(),
                0 <= best < t <= n,
                forall|u: int|
                    0 <= u < t ==> !rate_above(st[#[trigger] kids[u] as int], st[kids[best as int] as int]),
                forall|u: int|
                    0 <= u < best ==> rate_above(st[kids[best as int] as int], st[#[trigger] kids[u] as int]),
                forall|u: int| 0 <= u < n ==> #[trigger] kids[u] < st.len(),
            decreases n - t,
        {
            let c = self.children[r][t];
            let b = self.children[r][best];
            proof {
                assert(self.node_ok(c as int));
                assert(self.node_ok(b as int));
            }
            if rate_greater(self.stats[c], self.stats[b]) {
                proof {
                    assert forall|u: int| 0 <= u < t + 1 implies !rate_above(
                        st[#[trigger] kids[u] as int],
                        st[c as int],
                    ) by {
                        if u < t {
                            lemma_rate_trans(st[kids[u] as int], st[b as int], st[c as int]);
                        }
                    }
                    assert forall|u: int| 0 <= u < t implies rate_above(
                        st[c as int],
                        st[#[trigger] kids[u] as int],
                    ) by {
                        lemma_rate_trans(st[kids[u] as int], st[b as int], st[c as int]);
                    }
                }
                best = t;
            }
            t = t + 1;
        }
        let c = self.children[r][best];
        proof {
            assert(self.child_ok(r as int, best as int));
            assert(kids[best as int] == c);
            assert(self.links_ok(r as int));
            assert(on_chain(self.spec_parents(), r as int, r as int));
        }
        self.advance_root(c);
        self.nodes[c].board
    }

    pub fn root(&self) -> (r: usize)
        ensures
            r == self.spec_root(),
    {
        self.root
    }

    pub fn len(&self) -> (r: usize)
        ensures
            r == self.spec_nodes().len(),
    {
        self.nodes.len()
    }

    pub fn is_leaf(&self, i: usize) -> (r: bool)
        requires
            self.wf(),
            i < self.spec_nodes().len(),
        ensures
            r == (self.spec_children()[i as int].len() == 0),
    {
        self.children[i].len() == 0
    }

    pub fn children(&self, i: usize) -> (r: &Vec<usize>)
        requires
            self.wf(),
            i < self.spec_nodes().len(),
        ensures
            r@ == self.spec_children()[i as int],
    {
        &self.children[i]
    }

    pub fn stats(&self, i: usize) -> (r: Stats)
        requires
            self.wf(),
            i < self.spec_nodes().len(),
        ensures
            r == self.spec_stats()[i as int],
    {
        self.stats[i]
    }

    pub fn node(&self, i: usize) -> (r: Node)
        requires
            self.wf(),
            i < self.spec_nodes().len(),
        ensures
            r == self.spec_nodes()[i as int],
    {
        self.nodes[i]
    }

    pub fn new(n: u8, rng: SmallRng) -> (r: MctsPolicy)
        requires
            12 * n <= 255,
        ensures
            r.wf(),
            r.spec_nodes().len() == 1,
            r.spec_root() == 0,
            r.spec_nodes()[0].board.is_initial(n),
            r.spec_nodes()[0].parent_player == Player::Second,
            r.spec_parents()[0] is None,
            r.spec_children()[0].len() == 0,
            r.spec_stats()[0] == (Stats { visits: 0, wins: 0, loses: 0 }),
    {
        let board = Board::new(n);
        let mut nodes: Vec<Node> = Vec::new();
        nodes.push(Node { board, parent_player: Player::Second });
        let mut parents: Vec<Option<usize>> = Vec::new();
        parents.push(None);
        let mut children: Vec<Vec<usize>> = Vec::new();
        children.push(Vec::new());
        let mut stats: Vec<Stats> = Vec::new();
        stats.push(Stats { visits: 0, wins: 0, loses: 0 });
        let r = MctsPolicy { nodes, parents, children, stats, root: 0, rng };
        assert(r.spec_children()[0] == Seq::<usize>::empty());
        assert(r.node_ok(0));
        r
    }
}

/// In a well-formed tree, which every search step, root advancement and
/// final choice keep well-formed: no node has more wins and losses together
/// than visits; no node has fewer visits than the children that still link
/// back to it have together, and below the root every child links back, so
/// there a node has at least as many visits as all its children together;
/// and every expanded node has one child per legal move.
pub proof fn lemma_statistics(t: &MctsPolicy)
    requires
        t.wf(),
    ensures
        forall|i: int|
            0 <= i < t.spec_nodes().len() ==> (#[trigger] t.spec_stats()[i]).wins
                + t.spec_stats()[i].loses <= t.spec_stats()[i].visits,
        forall|i: int|
            0 <= i < t.spec_nodes().len() ==> (#[trigger] t.spec_stats()[i]).visits >= linked_visits(
                t.spec_children()[i],
                t.spec_parents(),
                t.spec_stats(),
                i,
            ),
        forall|i: int|
            0 <= i < t.spec_nodes().len() && on_chain(t.spec_parents(), i, t.spec_root()) ==> (
            #[trigger] t.spec_stats()[i]).visits >= child_visits(t.spec_children()[i], t.spec_stats()),
        forall|i: int|
            0 <= i < t.spec_nodes().len() && (#[trigger] t.spec_children()[i]).len() != 0
                ==> t.spec_children()[i].len() == t.spec_nodes()[i].board.legal_moves().len(),
{
    assert forall|i: int| 0 <= i < t.spec_nodes().len() implies (
    #[trigger] t.spec_stats()[i]).wins + t.spec_stats()[i].loses <= t.spec_stats()[i].visits
        && t.spec_stats()[i].visits >= linked_visits(
        t.spec_children()[i],
        t.spec_parents(),
        t.spec_stats(),
        i,
    ) && (on_chain(t.spec_parents(), i, t.spec_root()) ==> t.spec_stats()[i].visits >= child_visits(
        t.spec_children()[i],
        t.spec_stats(),
    )) by {
        assert(t.node_ok(i));
        if on_chain(t.spec_parents(), i, t.spec_root()) {
            assert(t.links_ok(i));
            lemma_linked_all(t.spec_children()[i], t.spec_parents(), t.spec_stats(), i);
        }
    }
    assert forall|i: int|
        0 <= i < t.spec_nodes().len() && (#[trigger] t.spec_children()[i]).len()
            != 0 implies t.spec_children()[i].len()
        == t.spec_nodes()[i].board.legal_moves().len() by {
        assert(t.node_ok(i));
    }
}

} // verus!
