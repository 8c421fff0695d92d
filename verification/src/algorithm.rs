use std::collections::{HashMap, HashSet};
use vstd::prelude::*;

use crate::channel::ChannelSender;
use crate::cost::{
    cost_le, cost_lt, cost_wf, lemma_rt2_le_total, lemma_rt2_le_trans, rt2_le, Cost, COST_CAP,
};
use crate::generator::{capped_cost, spec_step_cost, ChildrenGenerator};
use crate::heuristics::MazeHeuristic;
use crate::paths::{diag_steps, is_aligned_path, is_aligned_seg, is_king_path, straight_steps, PathInfo};
use crate::position::Pos;

verus! {

broadcast use vstd::std_specs::hash::group_hash_axioms;

/// A successor produced by a children generator: the reached node and the
/// exact cost of the displacement from the expanded node to it.
#[derive(Clone, Copy, PartialEq, Eq, Structural, Debug)]
pub struct Child {
    pub node: Pos,
    pub weight: Cost,
}

impl Child {
    /// Pairs a node with the weight of the edge leading to it.
    pub fn new(node: Pos, weight: Cost) -> (r: Child)
        ensures
            r == (Child { node, weight }),
    {
        Child { node, weight }
    }
}

/// A frontier entry: a node, the heuristic estimate from it, and the cost of
/// the best path to it known when the entry was pushed. The priority of the
/// entry is `depth + heuristic`; smaller wins.
#[derive(Clone, Copy, PartialEq, Eq, Structural, Debug)]
pub struct QueueNode {
    pub node: Pos,
    pub heuristic: Cost,
    pub depth: Cost,
}

/// Does the priority of `a` not exceed the priority of `b`?
pub open spec fn f_le(a: QueueNode, b: QueueNode) -> bool {
    rt2_le(
        a.depth.straight_millis + a.heuristic.straight_millis,
        a.depth.diag_millis + a.heuristic.diag_millis,
        b.depth.straight_millis + b.heuristic.straight_millis,
        b.depth.diag_millis + b.heuristic.diag_millis,
    )
}

/// Both costs of a frontier entry are well-formed.
pub open spec fn entry_wf(qn: QueueNode) -> bool {
    cost_wf(qn.depth) && cost_wf(qn.heuristic)
}

/// Compares two frontier entries by priority.
fn le_entry(a: &QueueNode, b: &QueueNode) -> (r: bool)
    requires
        entry_wf(*a),
        entry_wf(*b),
    ensures
        r == f_le(*a, *b),
{
    let a_s: i128 = a.depth.straight_millis as i128 + a.heuristic.straight_millis as i128;
    let a_d: i128 = a.depth.diag_millis as i128 + a.heuristic.diag_millis as i128;
    let b_s: i128 = b.depth.straight_millis as i128 + b.heuristic.straight_millis as i128;
    let b_d: i128 = b.depth.diag_millis as i128 + b.heuristic.diag_millis as i128;
    crate::cost::nonneg_rt2_exec(b_s - a_s, b_d - a_d)
}

/// The unsigned 16-bit reading of a signed 16-bit value.
pub open spec fn spec_u16(v: int) -> int {
    if v < 0 {
        v + 0x10000
    } else {
        v
    }
}

/// The table key of a position: its two coordinates packed into one word.
pub open spec fn spec_pos_key(p: Pos) -> u64 {
    (spec_u16(p.x as int) * 0x10000 + spec_u16(p.y as int)) as u64
}

/// The position a table key stands for.
pub open spec fn spec_key_pos(k: u64) -> Pos {
    Pos {
        x: (if k as int / 0x10000 >= 0x8000 {
            k as int / 0x10000 - 0x10000
        } else {
            k as int / 0x10000
        }) as i16,
        y: (if k as int % 0x10000 >= 0x8000 {
            k as int % 0x10000 - 0x10000
        } else {
            k as int % 0x10000
        }) as i16,
    }
}

/// Decoding inverts encoding.
pub proof fn lemma_key_roundtrip(p: Pos)
    ensures
        spec_key_pos(spec_pos_key(p)) == p,
{
    let ux = spec_u16(p.x as int);
    let uy = spec_u16(p.y as int);
    assert(0 <= ux < 0x10000 && 0 <= uy < 0x10000);
    assert((ux * 0x10000 + uy) / 0x10000 == ux && (ux * 0x10000 + uy) % 0x10000 == uy) by (
    nonlinear_arith)
        requires
            0 <= ux < 0x10000,
            0 <= uy < 0x10000,
    ;
}

/// Computes the table key of a position.
fn pos_key(p: Pos) -> (r: u64)
    ensures
        r == spec_pos_key(p),
{
    let x: i16 = p.x;
    let y: i16 = p.y;
    proof {
        assert(x >= 0 ==> (x as u16) as int == x as int) by (bit_vector);
        assert(x < 0 ==> (x as u16) as int == x as int + 0x10000) by (bit_vector);
        assert(y >= 0 ==> (y as u16) as int == y as int) by (bit_vector);
        assert(y < 0 ==> (y as u16) as int == y as int + 0x10000) by (bit_vector);
    }
    let hx: u64 = x as u16 as u64;
    let hy: u64 = y as u16 as u64;
    hx * 0x10000 + hy
}

/// The statistics of one search: how many nodes it expanded, the largest
/// frontier it held, the wall-clock time it took, and the dense path it
/// found, if any.
#[derive(Clone, Debug)]
pub struct Info {
    pub nodes: u64,
    pub max_length: usize,
    pub time_micros: u64,
    pub path: Option<PathInfo>,
}

/// A search-progress event.
pub enum Message {
    /// A successor was newly inserted or relaxed onto the frontier, with the
    /// cost of the best path to it known at that moment.
    Enqueued(Pos, Cost),
    /// The search finished; the final statistics and path.
    End(Info),
}

/// The members of `s` whose node is not in the visited set, in order.
pub open spec fn unvisited_entries(s: Seq<QueueNode>, visited: Set<u64>) -> Seq<QueueNode>
    decreases s.len(),
{
    if s.len() == 0 {
        Seq::empty()
    } else {
        unvisited_entries(s.drop_last(), visited) + if visited.contains(
            spec_pos_key(s.last().node),
        ) {
            Seq::empty()
        } else {
            seq![s.last()]
        }
    }
}

/// Members of the unvisited sublist are members of the list.
proof fn lemma_unvisited_subset(s: Seq<QueueNode>, visited: Set<u64>)
    ensures
        forall|j: int|
            0 <= j < unvisited_entries(s, visited).len() ==> s.contains(
                #[trigger] unvisited_entries(s, visited)[j],
            ),
    decreases s.len(),
{
    if s.len() > 0 {
        lemma_unvisited_subset(s.drop_last(), visited);
        let u = unvisited_entries(s, visited);
        let up = unvisited_entries(s.drop_last(), visited);
        assert forall|j: int| 0 <= j < u.len() implies s.contains(#[trigger] u[j]) by {
            if j < up.len() {
                assert(u[j] == up[j]);
                assert(s.drop_last().contains(up[j]));
                let i = choose|i: int|
                    0 <= i < s.drop_last().len() && s.drop_last()[i] == up[j];
                assert(s[i] == up[j]);
            } else {
                assert(u[j] == s.last());
                assert(s[s.len() - 1] == s.last());
            }
        }
    }
}

/// The local tables of one running search: the best known cost per reached
/// node, the tree of parents along best known paths, the set of expanded
/// nodes, and the frontier of entries waiting to be expanded. Keys are
/// packed positions (see [`spec_pos_key`]).
pub struct SearchState {
    pub depth: HashMap<u64, Cost>,
    pub parents: HashMap<u64, Pos>,
    pub visited: HashSet<u64>,
    pub frontier: Vec<QueueNode>,
}

/// The search-state invariant:
/// - recorded costs and frontier costs are well-formed;
/// - the recorded best cost of a node never exceeds the cost of any frontier
///   entry for it (stale entries are the more expensive ones);
/// - every parent edge connects a node to an aligned predecessor, and both
///   ends of the edge have recorded costs;
/// - every table key is the key of the position it decodes to.
pub open spec fn state_inv(st: &SearchState) -> bool {
    &&& forall|k: u64|
        st.depth@.contains_key(k) ==> cost_wf(#[trigger] st.depth@[k]) && k == spec_pos_key(
            spec_key_pos(k),
        )
    &&& forall|i: int|
        0 <= i < st.frontier@.len() ==> {
            let qn = #[trigger] st.frontier@[i];
            &&& entry_wf(qn)
            &&& st.depth@.contains_key(spec_pos_key(qn.node))
            &&& cost_le(st.depth@[spec_pos_key(qn.node)], qn.depth)
        }
    &&& forall|k: u64|
        st.parents@.contains_key(k) ==> {
            let par = #[trigger] st.parents@[k];
            &&& is_aligned_seg(par, spec_key_pos(k))
            &&& st.depth@.contains_key(spec_pos_key(par))
            &&& st.depth@.contains_key(k)
        }
}

/// The parent tree is rooted at `start`: the start has a recorded cost, no
/// parent, and every other node with a recorded cost has a parent.
pub open spec fn rooted(st: &SearchState, start: Pos) -> bool {
    &&& st.depth@.contains_key(spec_pos_key(start))
    &&& !st.parents@.contains_key(spec_pos_key(start))
    &&& forall|k: u64|
        #[trigger] st.depth@.contains_key(k) ==> k == spec_pos_key(start)
            || st.parents@.contains_key(k)
}

impl SearchState {
    /// A fresh search state: the start is recorded at cost zero and is the
    /// only frontier entry.
    pub fn new(start: Pos, h0: Cost) -> (r: SearchState)
        requires
            cost_wf(h0),
        ensures
            state_inv(&r),
            rooted(&r, start),
            r.frontier@ == seq![QueueNode { node: start, heuristic: h0, depth: Cost { straight_millis: 0, diag_millis: 0 } }],
            r.visited@ == Set::<u64>::empty(),
            r.depth@ == Map::<u64, Cost>::empty().insert(spec_pos_key(start), Cost { straight_millis: 0, diag_millis: 0 }),
            r.parents@ == Map::<u64, Pos>::empty(),
    {
        let mut depth: HashMap<u64, Cost> = HashMap::new();
        let parents: HashMap<u64, Pos> = HashMap::new();
        let visited: HashSet<u64> = HashSet::new();
        let mut frontier: Vec<QueueNode> = Vec::new();
        let zero = Cost::zero();
        depth.insert(pos_key(start), zero);
        frontier.push(QueueNode { node: start, heuristic: h0, depth: zero });
        proof {
            lemma_key_roundtrip(start);
        }
        SearchState { depth, parents, visited, frontier }
    }

    /// Discards the frontier entries for already-expanded nodes, and removes
    /// and returns one with the smallest priority among the others. Only
    /// entries for expanded nodes are discarded: a node that was expanded at
    /// a smaller recorded cost leaves its stale entries here.
    pub fn pop_best(&mut self) -> (r: Option<QueueNode>)
        requires
            state_inv(old(self)),
        ensures
            state_inv(final(self)),
            final(self).depth == old(self).depth,
            final(self).parents == old(self).parents,
            final(self).visited == old(self).visited,
            forall|j: int|
                0 <= j < final(self).frontier@.len() ==> old(self).frontier@.contains(
                    #[trigger] final(self).frontier@[j],
                ),
            r is None ==> final(self).frontier@.len() == 0 && unvisited_entries(
                old(self).frontier@,
                old(self).visited@,
            ).len() == 0,
            r matches Some(qn) ==> {
                let kept = unvisited_entries(old(self).frontier@, old(self).visited@);
                &&& old(self).frontier@.contains(qn)
                &&& !old(self).visited@.contains(spec_pos_key(qn.node))
                &&& exists|i: int|
                    0 <= i < kept.len() && kept[i] == qn && final(self).frontier@ == kept.remove(i)
                &&& forall|j: int| 0 <= j < kept.len() ==> f_le(qn, #[trigger] kept[j])
            },
    {
        let ghost old_frontier = self.frontier@;
        let ghost old_visited = self.visited@;
        let mut kept: Vec<QueueNode> = Vec::new();
        let mut i: usize = 0;
        proof {
            assert(self.frontier@.take(0) =~= Seq::<QueueNode>::empty());
        }
        while i < self.frontier.len()
            invariant
                0 <= i <= self.frontier@.len(),
                self == old(self),
                state_inv(old(self)),
                kept@ == unvisited_entries(self.frontier@.take(i as int), self.visited@),
            decreases self.frontier@.len() - i,
        {
            let qn = self.frontier[i];
            let k = pos_key(qn.node);
            proof {
                assert(self.frontier@.take(i + 1 as int).drop_last() =~= self.frontier@.take(
                    i as int,
                ));
                assert(self.frontier@.take(i + 1 as int).last() == self.frontier@[i as int]);
            }
            if !self.visited.contains(&k) {
                kept.push(qn);
            }
            i = i + 1;
        }
        proof {
            assert(self.frontier@.take(self.frontier@.len() as int) =~= self.frontier@);
            lemma_unvisited_subset(old_frontier, old_visited);
        }
        if kept.len() == 0 {
            self.frontier = kept;
            return None;
        }
        let mut best: usize = 0;
        let mut j: usize = 1;
        while j < kept.len()
            invariant
                0 <= best < j <= kept@.len(),
                forall|t: int| 0 <= t < j ==> f_le(kept@[best as int], #[trigger] kept@[t]),
                forall|t: int| 0 <= t < kept@.len() ==> entry_wf(#[trigger] kept@[t]),
            decreases kept@.len() - j,
        {
            if le_entry(&kept[j], &kept[best]) {
                proof {
                    let ghost ob = kept@[best as int];
                    let ghost nb = kept@[j as int];
                    assert forall|t: int| 0 <= t < j + 1 implies f_le(nb, #[trigger] kept@[t]) by {
                        if t < j {
                            lemma_rt2_le_trans(
                                nb.depth.straight_millis + nb.heuristic.straight_millis,
                                nb.depth.diag_millis + nb.heuristic.diag_millis,
                                ob.depth.straight_millis + ob.heuristic.straight_millis,
                                ob.depth.diag_millis + ob.heuristic.diag_millis,
                                kept@[t].depth.straight_millis
                                    + kept@[t].heuristic.straight_millis,
                                kept@[t].depth.diag_millis + kept@[t].heuristic.diag_millis,
                            );
                        }
                    }
                }
                best = j;
            } else {
                proof {
                    let ghost ob = kept@[best as int];
                    let ghost nb = kept@[j as int];
                    lemma_rt2_le_total(
                        ob.depth.straight_millis + ob.heuristic.straight_millis,
                        ob.depth.diag_millis + ob.heuristic.diag_millis,
                        nb.depth.straight_millis + nb.heuristic.straight_millis,
                        nb.depth.diag_millis + nb.heuristic.diag_millis,
                    );
                }
            }
            j = j + 1;
        }
        let qn = kept[best];
        let ghost kept_seq = kept@;
        let ghost best_idx = best as int;
        kept.remove(best);
        self.frontier = kept;
        proof {
            lemma_unvisited_subset(old_frontier, old_visited);
            assert(kept_seq[best_idx] == qn);
            assert(old_frontier.contains(qn));
            lemma_unvisited_not_visited(old_frontier, old_visited, best_idx);
            assert forall|j2: int| 0 <= j2 < self.frontier@.len() implies old_frontier.contains(
                #[trigger] self.frontier@[j2],
            ) by {
                kept_seq.remove_ensures(best_idx);
                let src = if j2 < best_idx {
                    j2
                } else {
                    j2 + 1
                };
                assert(self.frontier@[j2] == kept_seq[src]);
            }
            assert forall|i2: int| 0 <= i2 < self.frontier@.len() implies {
                let q2 = #[trigger] self.frontier@[i2];
                &&& entry_wf(q2)
                &&& self.depth@.contains_key(spec_pos_key(q2.node))
                &&& cost_le(self.depth@[spec_pos_key(q2.node)], q2.depth)
            } by {
                assert(old_frontier.contains(self.frontier@[i2]));
                let s = choose|s: int|
                    0 <= s < old_frontier.len() && old_frontier[s] == self.frontier@[i2];
            }
        }
        Some(qn)
    }
}

/// An unvisited entry's node is not in the visited set.
proof fn lemma_unvisited_not_visited(s: Seq<QueueNode>, visited: Set<u64>, i: int)
    requires
        0 <= i < unvisited_entries(s, visited).len(),
    ensures
        !visited.contains(spec_pos_key(unvisited_entries(s, visited)[i].node)),
    decreases s.len(),
{
    if s.len() > 0 {
        let up = unvisited_entries(s.drop_last(), visited);
        if i < up.len() {
            lemma_unvisited_not_visited(s.drop_last(), visited, i);
        }
    }
}


impl SearchState {
    /// Considers the successor `child` of the just-expanded `current`, whose
    /// heuristic estimate is `h`. A successor already expanded is skipped.
    /// Otherwise the candidate cost is the recorded cost of `current` plus
    /// the edge weight; when it beats the recorded cost of the successor
    /// (infinite when absent, and treated as no improvement when the sum
    /// would pass the cost cap), the successor's recorded cost drops to the
    /// candidate, its parent becomes `current`, and a frontier entry is
    /// pushed.
    ///
    /// Afterwards the recorded cost of every node is at most the cost of
    /// every path over which it was ever relaxed: on success the new
    /// recorded cost equals the candidate and is strictly below the old one.
    pub fn relax(&mut self, current: Pos, child: Child, h: Cost) -> (r: Option<Cost>)
        requires
            state_inv(old(self)),
            old(self).depth@.contains_key(spec_pos_key(current)),
            is_aligned_seg(current, child.node),
            cost_wf(child.weight),
            cost_wf(h),
        ensures
            state_inv(final(self)),
            final(self).visited == old(self).visited,
            forall|k2: u64|
                old(self).depth@.contains_key(k2) ==> #[trigger] final(self).depth@.contains_key(
                    k2,
                ),
            r is None ==> final(self).frontier == old(self).frontier && final(self).depth == old(
                self,
            ).depth && final(self).parents == old(self).parents,
            r matches Some(cand) ==> {
                let k = spec_pos_key(child.node);
                let dcur = old(self).depth@[spec_pos_key(current)];
                &&& !old(self).visited@.contains(k)
                &&& cost_wf(cand)
                &&& cand.straight_millis == dcur.straight_millis + child.weight.straight_millis
                &&& cand.diag_millis == dcur.diag_millis + child.weight.diag_millis
                &&& (old(self).depth@.contains_key(k) ==> cost_lt(cand, old(self).depth@[k]))
                &&& final(self).depth@ == old(self).depth@.insert(k, cand)
                &&& final(self).parents@ == old(self).parents@.insert(k, current)
                &&& final(self).frontier@ == old(self).frontier@.push(
                    QueueNode { node: child.node, heuristic: h, depth: cand },
                )
            },
            forall|start: Pos|
                rooted(old(self), start) && old(self).visited@.contains(
                    #[trigger] spec_pos_key(start),
                ) ==> rooted(final(self), start),
    {
        let kc = pos_key(current);
        let k = pos_key(child.node);
        if self.visited.contains(&k) {
            return None;
        }
        let dcur = match self.depth.get(&kc) {
            Some(d) => *d,
            None => {
                proof {
                    assert(false);
                }
                return None;
            },
        };
        let cand = match dcur.checked_add(&child.weight) {
            Some(c) => c,
            None => {
                return None;
            },
        };
        let improved = match self.depth.get(&k) {
            Some(ex) => cand.lt(ex),
            None => true,
        };
        if !improved {
            return None;
        }
        let ghost old_state = *self;
        self.depth.insert(k, cand);
        self.parents.insert(k, current);
        self.frontier.push(QueueNode { node: child.node, heuristic: h, depth: cand });
        proof {
            lemma_key_roundtrip(child.node);
            lemma_key_roundtrip(current);
            if old_state.depth@.contains_key(k) {
                crate::cost::lemma_rt2_le_total(
                    cand.straight_millis as int,
                    cand.diag_millis as int,
                    old_state.depth@[k].straight_millis as int,
                    old_state.depth@[k].diag_millis as int,
                );
            }
            assert forall|i: int| 0 <= i < self.frontier@.len() implies {
                let qn = #[trigger] self.frontier@[i];
                &&& entry_wf(qn)
                &&& self.depth@.contains_key(spec_pos_key(qn.node))
                &&& cost_le(self.depth@[spec_pos_key(qn.node)], qn.depth)
            } by {
                if i < old_state.frontier@.len() {
                    let qn = old_state.frontier@[i];
                    assert(self.frontier@[i] == qn);
                    if spec_pos_key(qn.node) == k {
                        crate::cost::lemma_rt2_le_total(
                            cand.straight_millis as int,
                            cand.diag_millis as int,
                            old_state.depth@[k].straight_millis as int,
                            old_state.depth@[k].diag_millis as int,
                        );
                        lemma_rt2_le_trans(
                            cand.straight_millis as int,
                            cand.diag_millis as int,
                            old_state.depth@[k].straight_millis as int,
                            old_state.depth@[k].diag_millis as int,
                            qn.depth.straight_millis as int,
                            qn.depth.diag_millis as int,
                        );
                    }
                } else {
                    assert(self.frontier@[i] == (QueueNode {
                        node: child.node,
                        heuristic: h,
                        depth: cand,
                    }));
                }
            }
        }
        Some(cand)
    }

    /// Walks the parent tree from `goal` back to `start` and hands back the
    /// compressed path from `start` to `goal`. A broken tree (a cycle, or a
    /// chain that does not reach the start) would violate the search
    /// invariants; it is answered with `None`.
    pub fn walk_parents(&self, start: Pos, goal: Pos) -> (r: Option<Vec<Pos>>)
        requires
            state_inv(self),
            rooted(self, start),
            self.depth@.contains_key(spec_pos_key(goal)),
        ensures
            r matches Some(path) ==> {
                &&& path@.len() >= 1
                &&& path@[0] == start
                &&& path@[path@.len() - 1] == goal
                &&& is_aligned_path(path@)
                &&& path@.no_duplicates()
                &&& forall|i: int|
                    0 <= i < path@.len() - 1 ==> {
                        let k = spec_pos_key(#[trigger] path@[i + 1]);
                        self.parents@.contains_key(k) && self.parents@[k] == path@[i]
                    }
            },
    {
        let mut rev: Vec<Pos> = Vec::new();
        rev.push(goal);
        let mut node = goal;
        let mut fuel: usize = self.depth.len();
        while fuel > 0
            invariant
                state_inv(self),
                rooted(self, start),
                rev@.len() >= 1,
                rev@[0] == goal,
                rev@[rev@.len() - 1] == node,
                self.depth@.contains_key(spec_pos_key(node)),
                forall|i: int|
                    0 <= i < rev@.len() - 1 ==> is_aligned_seg(#[trigger] rev@[i + 1], rev@[i]),
                forall|i: int|
                    0 <= i < rev@.len() - 1 ==> {
                        let k = spec_pos_key(#[trigger] rev@[i]);
                        self.parents@.contains_key(k) && self.parents@[k] == rev@[i + 1]
                    },
                rev@.no_duplicates(),
            decreases fuel,
        {
            let k = pos_key(node);
            let parent = match self.parents.get(&k) {
                Some(pp) => Some(*pp),
                None => None,
            };
            match parent {
                None => {
                    proof {
                        lemma_key_roundtrip(node);
                        lemma_key_roundtrip(start);
                        assert(spec_pos_key(node) == spec_pos_key(start));
                        assert(node == spec_key_pos(spec_pos_key(node)));
                        assert(node == start);
                    }
                    let out = reverse_pos(&rev);
                    proof {
                        assert forall|i: int|
                            0 <= i < out@.len() - 1 implies is_aligned_seg(
                            out@[i],
                            #[trigger] out@[i + 1],
                        ) by {
                            let n = rev@.len();
                            assert(out@[i] == rev@[n - 1 - i] && out@[i + 1] == rev@[n - 2 - i]);
                            assert(is_aligned_seg(rev@[(n - 2 - i) + 1], rev@[n - 2 - i]));
                        }
                        assert forall|i: int| 0 <= i < out@.len() - 1 implies {
                            let k2 = spec_pos_key(#[trigger] out@[i + 1]);
                            self.parents@.contains_key(k2) && self.parents@[k2] == out@[i]
                        } by {
                            let n = rev@.len();
                            assert(out@[i + 1] == rev@[n - 2 - i] && out@[i] == rev@[n - 1 - i]);
                            assert(rev@[(n - 2 - i) + 1] == rev@[n - 1 - i]);
                        }
                        assert forall|i: int, j: int|
                            0 <= i < j < out@.len() implies out@[i] != out@[j] by {
                            let n = rev@.len();
                            assert(out@[i] == rev@[n - 1 - i] && out@[j] == rev@[n - 1 - j]);
                        }
                    }
                    return Some(out);
                },
                Some(p) => {
                    proof {
                        lemma_key_roundtrip(node);
                    }
                    if crate::paths::vec_contains_pos(&rev, p) {
                        return None;
                    }
                    let ghost old_rev = rev@;
                    rev.push(p);
                    proof {
                        assert forall|i: int|
                            0 <= i < rev@.len() - 1 implies is_aligned_seg(
                            #[trigger] rev@[i + 1],
                            rev@[i],
                        ) by {
                            if i < old_rev.len() - 1 {
                                assert(rev@[i + 1] == old_rev[i + 1] && rev@[i] == old_rev[i]);
                            } else {
                                assert(rev@[i + 1] == p && rev@[i] == node);
                                assert(is_aligned_seg(p, spec_key_pos(spec_pos_key(node))));
                            }
                        }
                        assert forall|i: int| 0 <= i < rev@.len() - 1 implies {
                            let k2 = spec_pos_key(#[trigger] rev@[i]);
                            self.parents@.contains_key(k2) && self.parents@[k2] == rev@[i + 1]
                        } by {
                            if i < old_rev.len() - 1 {
                                assert(rev@[i] == old_rev[i] && rev@[i + 1] == old_rev[i + 1]);
                            } else {
                                assert(rev@[i] == node && rev@[i + 1] == p);
                            }
                        }
                    }
                    node = p;
                    fuel = fuel - 1;
                },
            }
        }
        None
    }
}

/// The list reversed.
fn reverse_pos(list: &Vec<Pos>) -> (r: Vec<Pos>)
    ensures
        r@.len() == list@.len(),
        forall|i: int| 0 <= i < list@.len() ==> #[trigger] r@[i] == list@[list@.len() - 1 - i],
{
    let mut out: Vec<Pos> = Vec::new();
    let mut i: usize = list.len();
    while i > 0
        invariant
            0 <= i <= list@.len(),
            out@.len() == list@.len() - i,
            forall|j: int|
                0 <= j < out@.len() ==> #[trigger] out@[j] == list@[list@.len() - 1 - j],
        decreases i,
    {
        i = i - 1;
        out.push(list[i]);
    }
    out
}

/// Does the path visit any cell twice?
fn pos_list_distinct(list: &Vec<Pos>) -> (r: bool)
    ensures
        r == list@.no_duplicates(),
{
    let mut i: usize = 0;
    while i < list.len()
        invariant
            0 <= i <= list@.len(),
            forall|a: int, b: int| 0 <= a < b < i ==> list@[a] != list@[b],
        decreases list@.len() - i,
    {
        let mut j: usize = 0;
        while j < i
            invariant
                0 <= j <= i < list@.len(),
                forall|a: int, b: int| 0 <= a < b < i ==> list@[a] != list@[b],
                forall|a: int| 0 <= a < j ==> list@[a] != list@[i as int],
            decreases i - j,
        {
            if list[j] == list[i] {
                return false;
            }
            j = j + 1;
        }
        i = i + 1;
    }
    true
}

/// Weighted best-first search from `start` to `goal`, with successors from
/// `gen`, priorities from `heuristic`, and progress streamed to `channel`.
///
/// The search pops the unexpanded frontier entry of least
/// `depth + heuristic`, relaxes each of its successors, and emits an
/// `Enqueued` event per relaxation. On reaching the goal the parent chain is
/// expanded to the dense path. A closed channel aborts the search as if no
/// path existed. The returned statistics carry, on success, a duplicate-free
/// dense path from `start` to `goal` of unit king steps over cells the
/// generator accepts, with its exact cost; `time_micros` is left zero, for
/// the caller that measures the call.
pub fn a_star<H: MazeHeuristic, G: ChildrenGenerator, C: ChannelSender<Message>>(
    start: Pos,
    goal: Pos,
    heuristic: &H,
    gen: &G,
    channel: &C,
) -> (r: Info)
    requires
        gen.wf(),
        gen.node_ok(start),
    ensures
        r.path matches Some(pi) ==> {
            &&& pi.path@.len() >= 1
            &&& pi.path@[0] == start
            &&& pi.path@[pi.path@.len() - 1] == goal
            &&& is_king_path(pi.path@)
            &&& pi.path@.no_duplicates()
            &&& pi.cost == capped_cost(straight_steps(pi.path@), diag_steps(pi.path@))
            &&& forall|i: int| 0 <= i < pi.path@.len() ==> gen.node_ok(#[trigger] pi.path@[i])
        },
        r.nodes >= 1,
        r.time_micros == 0,
{
    let h0 = heuristic.compute_heuristic(start);
    let mut st = SearchState::new(start, h0);
    let ghost init_entry = QueueNode {
        node: start,
        heuristic: h0,
        depth: Cost { straight_millis: 0, diag_millis: 0 },
    };
    let mut nodes: u64 = 0;
    let mut max_length: usize = 0;
    let mut fuel: u64 = 0xffff_ffff_ffff_ffff;
    while fuel > 0
        invariant
            gen.wf(),
            gen.node_ok(start),
            state_inv(&st),
            rooted(&st, start),
            forall|i: int|
                0 <= i < st.frontier@.len() ==> gen.node_ok((#[trigger] st.frontier@[i]).node),
            forall|k2: u64|
                #[trigger] st.parents@.contains_key(k2) ==> {
                    let child = spec_key_pos(k2);
                    let par = st.parents@[k2];
                    &&& gen.node_ok(par)
                    &&& gen.node_ok(child)
                    &&& forall|t: int|
                        0 <= t < crate::paths::dense_seg(par, child).len() ==> gen.node_ok(
                            #[trigger] crate::paths::dense_seg(par, child)[t],
                        )
                },
            init_entry.node == start,
            (nodes >= 1 && st.visited@.contains(spec_pos_key(start))) || (nodes == 0
                && st.visited@ =~= Set::<u64>::empty() && st.frontier@ =~= seq![init_entry]),
            nodes == 0 ==> fuel == 0xffff_ffff_ffff_ffff,
            nodes <= 0xffff_ffff_ffff_ffff - fuel,
        decreases fuel,
    {
        fuel = fuel - 1;
        let ghost pre = st;
        let popped = st.pop_best();
        let qn = match popped {
            None => {
                proof {
                    if nodes == 0 {
                        assert(pre.frontier@ =~= seq![init_entry]);
                        assert(pre.frontier@.len() == 1);
                        assert(pre.frontier@.drop_last() =~= Seq::<QueueNode>::empty());
                        assert(unvisited_entries(pre.frontier@.drop_last(), pre.visited@)
                            =~= Seq::<QueueNode>::empty());
                        assert(!pre.visited@.contains(spec_pos_key(pre.frontier@.last().node)));
                        assert(unvisited_entries(pre.frontier@, pre.visited@).len() == 1);
                        // Contradicts the pop: nothing of the initial
                        // frontier was expanded yet.
                        assert(false);
                    }
                }
                return Info { nodes, max_length, time_micros: 0, path: None };
            },
            Some(qn) => qn,
        };
        nodes = nodes + 1;
        let flen = st.frontier.len();
        if flen > max_length {
            max_length = flen;
        }
        let kcur = pos_key(qn.node);
        st.visited.insert(kcur);
        proof {
            if !pre.visited@.contains(spec_pos_key(start)) {
                assert(pre.frontier@.contains(qn));
                assert(pre.frontier@ =~= seq![init_entry]);
                assert(pre.frontier@.len() == 1);
                assert(exists|i: int| 0 <= i < pre.frontier@.len() && pre.frontier@[i] == qn);
                let i = choose|i: int| 0 <= i < pre.frontier@.len() && pre.frontier@[i] == qn;
                assert(pre.frontier@[i] == qn);
                assert(i == 0);
                assert(seq![init_entry][0] == init_entry);
                assert(qn == init_entry);
                assert(qn.node == start);
            }
            assert(st.visited@.contains(spec_pos_key(start)));
        }
        if qn.node == goal {
            match st.walk_parents(start, goal) {
                None => {
                    return Info { nodes, max_length, time_micros: 0, path: None };
                },
                Some(jp) => {
                    let pi = gen.reconstruct_path(&jp);
                    proof {
                        crate::paths::lemma_dense_membership(jp@);
                        assert forall|i: int| 0 <= i < pi.path@.len() implies gen.node_ok(
                            #[trigger] pi.path@[i],
                        ) by {
                            let q = pi.path@[i];
                            assert(pi.path@.contains(q));
                            if q == jp@[0] {
                                assert(gen.node_ok(start));
                            } else {
                                let e = choose|e: int|
                                    0 <= e < jp@.len() - 1 && #[trigger] crate::paths::dense_seg(
                                        jp@[e],
                                        jp@[e + 1],
                                    ).contains(q);
                                let k2 = spec_pos_key(jp@[e + 1]);
                                assert(st.parents@.contains_key(k2) && st.parents@[k2]
                                    == jp@[e]);
                                lemma_key_roundtrip(jp@[e + 1]);
                                assert(spec_key_pos(k2) == jp@[e + 1]);
                                let u = choose|u: int|
                                    0 <= u < crate::paths::dense_seg(jp@[e], jp@[e + 1]).len()
                                        && #[trigger] crate::paths::dense_seg(
                                        jp@[e],
                                        jp@[e + 1],
                                    )[u] == q;
                            }
                        }
                    }
                    if pos_list_distinct(&pi.path) {
                        return Info { nodes, max_length, time_micros: 0, path: Some(pi) };
                    } else {
                        return Info { nodes, max_length, time_micros: 0, path: None };
                    }
                },
            }
        }
        let parent_opt: Option<Pos> = match st.parents.get(&kcur) {
            Some(pp) => Some(*pp),
            None => None,
        };
        proof {
            lemma_key_roundtrip(qn.node);
        }
        let children = gen.generate_children(qn.node, parent_opt);
        let mut ci: usize = 0;
        while ci < children.len()
            invariant
                0 <= ci <= children@.len(),
                gen.wf(),
                gen.node_ok(start),
                state_inv(&st),
                rooted(&st, start),
                forall|i: int|
                    0 <= i < st.frontier@.len() ==> gen.node_ok(
                        (#[trigger] st.frontier@[i]).node,
                    ),
                    forall|k2: u64|
                    #[trigger] st.parents@.contains_key(k2) ==> {
                        let child = spec_key_pos(k2);
                        let par = st.parents@[k2];
                        &&& gen.node_ok(par)
                        &&& gen.node_ok(child)
                        &&& forall|t: int|
                                0 <= t < crate::paths::dense_seg(par, child).len() ==> gen.node_ok(
                                    #[trigger] crate::paths::dense_seg(par, child)[t],
                                )
                    },
                gen.node_ok(qn.node),
                st.visited@.contains(spec_pos_key(start)),
                st.depth@.contains_key(spec_pos_key(qn.node)),
                nodes >= 1,
                forall|i: int|
                    0 <= i < children@.len() ==> {
                        let c = #[trigger] children@[i];
                        &&& gen.node_ok(c.node)
                        &&& is_aligned_seg(qn.node, c.node)
                        &&& cost_wf(c.weight)
                        &&& forall|t: int|
                            0 <= t < crate::paths::dense_seg(qn.node, c.node).len()
                                ==> gen.node_ok(
                                #[trigger] crate::paths::dense_seg(qn.node, c.node)[t],
                            )
                    },
            decreases children@.len() - ci,
        {
            let c = children[ci];
            let hc = heuristic.compute_heuristic(c.node);
            let ghost before = st;
            let relaxed = st.relax(qn.node, c, hc);
            proof {
                lemma_key_roundtrip(c.node);
                assert forall|k2: u64| #[trigger] st.parents@.contains_key(k2) implies {
                    let child = spec_key_pos(k2);
                    let par = st.parents@[k2];
                    &&& gen.node_ok(par)
                    &&& gen.node_ok(child)
                    &&& forall|t: int|
                        0 <= t < crate::paths::dense_seg(par, child).len() ==> gen.node_ok(
                            #[trigger] crate::paths::dense_seg(par, child)[t],
                        )
                } by {
                    if relaxed is Some && k2 == spec_pos_key(c.node) {
                        assert(st.parents@[k2] == qn.node && spec_key_pos(k2) == c.node);
                        assert(children@[ci as int] == c);
                    } else {
                        assert(before.parents@.contains_key(k2) && before.parents@[k2]
                            == st.parents@[k2]);
                    }
                }
            }
            match relaxed {
                Some(d) => {
                    if channel.send(Message::Enqueued(c.node, d)).is_err() {
                        return Info { nodes, max_length, time_micros: 0, path: None };
                    }
                },
                None => {},
            }
            ci = ci + 1;
        }
    }
    Info { nodes, max_length, time_micros: 0, path: None }
}

/// Runs the jump-point search over `maze` from its start to its goal,
/// streaming progress to `channel`, and sends the final statistics as the
/// closing `End` event. The returned statistics carry, on success, a
/// duplicate-free dense path from the start to the goal with its exact
/// cost; timing is the caller's concern.
pub fn find_path<H: MazeHeuristic, C: ChannelSender<Message>>(
    maze: &crate::maze::Maze,
    heuristic: &H,
    channel: &C,
) -> (r: Info)
    requires
        crate::maze::maze_wf(maze),
    ensures
        r.path matches Some(pi) ==> {
            &&& pi.path@.len() >= 1
            &&& pi.path@[0] == maze.start
            &&& pi.path@[pi.path@.len() - 1] == maze.goal
            &&& is_king_path(pi.path@)
            &&& pi.path@.no_duplicates()
            &&& pi.cost == capped_cost(straight_steps(pi.path@), diag_steps(pi.path@))
        },
{
    let gen = crate::generator::JpsGenerator::new(maze);
    let info = a_star(maze.start(), maze.goal(), heuristic, &gen, channel);
    let _ = channel.send(Message::End(info.clone()));
    info
}
} // verus!
