use vstd::prelude::*;
use vstd::multiset::Multiset;
use crate::ast::{PKind, Prog, id_of, min_len_of};
use crate::instr::Instr;
use crate::node::{SearchNode, wf_node, outputs_consistent, is_initial};
use crate::frontier::{Frontier, FrontierEntry, fr_inv, pr, beats};
use crate::interp::{
    step_once, successor_of, AdvancePolicy, known_step_halts, known_step_prunes, known_step_post,
    hole_succ_base, instr_succ, loop_succ, output_survives,
};

verus! {

broadcast use {vstd::seq_lib::group_to_multiset_ensures, vstd::multiset::group_multiset_axioms};

/// The best-first search around the interpreter: the frontier, the record
/// of already-reported program texts, the insertion counter, and the caps.
/// Scores live outside: callers hand in integer order keys whose ordering
/// stands in for the score ordering.
pub struct SearchEngine {
    pub frontier: Frontier,
    pub seen: Vec<String>,
    pub seq_counter: u64,
    pub target: Vec<u8>,
    pub max_steps: u64,
    pub pending: Vec<SearchNode>,
}

/// The engine's invariant: the frontier is a sound heap over this target,
/// and every waiting successor is well formed and never mismatched the
/// target. No node that mismatched the target on an emitted byte can enter
/// the frontier: `Frontier::push` demands consistency and `expand` proves
/// it of every successor.
pub open spec fn eng_wf(e: SearchEngine) -> bool {
    &&& fr_inv(e.frontier)
    &&& e.frontier.target@ == e.target@
    &&& forall|k: int|
        0 <= k < e.pending@.len() ==> wf_node(#[trigger] e.pending@[k]) && outputs_consistent(
            e.pending@[k],
            e.target@,
        )
}

/// Some already-reported text equals `text`.
pub open spec fn seen_has(seen: Seq<String>, text: Seq<char>) -> bool {
    exists|k: int| 0 <= k < seen.len() && #[trigger] seen[k]@ == text
}

/// One more insertion number, wrapping as the counter does.
pub open spec fn seq_bump(s: u64) -> u64 {
    if s == u64::MAX {
        0
    } else {
        (s + 1) as u64
    }
}

/// A successor that halted outside every loop without completing the
/// target: such a branch is dropped before entering the frontier.
pub open spec fn premature_halt(c: SearchNode, target: Seq<u8>) -> bool {
    c.pc@ is Empty && c.loop_stack@.len() == 0 && c.correct < target.len()
}

/// A waiting successor enters the frontier exactly when its score was a
/// finite number (a key is present), it did not halt prematurely, and it
/// is within the step cap.
pub open spec fn enq_kept(c: SearchNode, k: Option<u64>, target: Seq<u8>, max_steps: u64) -> bool {
    k is Some && !premature_halt(c, target) && c.steps <= max_steps
}

/// The insertion counter after numbering the kept successors in order.
pub open spec fn seq_after(
    p: Seq<SearchNode>,
    ks: Seq<Option<u64>>,
    sq0: u64,
    target: Seq<u8>,
    max_steps: u64,
) -> u64
    decreases p.len(),
{
    if p.len() == 0 {
        sq0
    } else {
        let before = seq_after(p.drop_last(), ks, sq0, target, max_steps);
        if p.len() <= ks.len() && enq_kept(p.last(), ks[p.len() - 1], target, max_steps) {
            seq_bump(before)
        } else {
            before
        }
    }
}

/// The entries that enqueueing the waiting successors adds to the
/// frontier: each kept successor under its key, numbered in order from
/// `sq0`.
pub open spec fn queued(
    p: Seq<SearchNode>,
    ks: Seq<Option<u64>>,
    sq0: u64,
    target: Seq<u8>,
    max_steps: u64,
) -> Multiset<FrontierEntry>
    decreases p.len(),
{
    if p.len() == 0 {
        Multiset::empty()
    } else {
        let rest = queued(p.drop_last(), ks, sq0, target, max_steps);
        if p.len() <= ks.len() && enq_kept(p.last(), ks[p.len() - 1], target, max_steps) {
            rest.insert(
                FrontierEntry {
                    key: ks[p.len() - 1]->0,
                    seq: seq_after(p.drop_last(), ks, sq0, target, max_steps),
                    node: p.last(),
                },
            )
        } else {
            rest
        }
    }
}

impl SearchEngine {
    /// A fresh engine: the frontier holds exactly the single-hole start
    /// node under the caller's key, with insertion number zero.
    pub fn new(target: Vec<u8>, max_steps: u64, initial_key: u64) -> (r: SearchEngine)
        ensures
            eng_wf(r),
            r.target@ == target@,
            r.max_steps == max_steps,
            r.frontier.entries@.len() == 1,
            r.frontier.entries@[0].key == initial_key,
            r.frontier.entries@[0].seq == 0,
            is_initial(r.frontier.entries@[0].node),
            r.seen@.len() == 0,
            r.pending@.len() == 0,
            r.seq_counter == 1,
    {
        let ghost tgt = target@;
        let mut frontier = Frontier::new(Ghost(tgt));
        let start = SearchNode::initial();
        frontier.push(FrontierEntry { key: initial_key, seq: 0, node: start });
        SearchEngine {
            frontier,
            seen: Vec::new(),
            seq_counter: 1,
            target,
            max_steps,
            pending: Vec::new(),
        }
    }

    /// Pop the best frontier node: the one that beats every other stored
    /// entry by `(key, seq)`. What comes out is well formed and never
    /// mismatched the target; what stays is everything else.
    pub fn pop_best(&mut self) -> (r: Option<SearchNode>)
        requires
            eng_wf(*old(self)),
        ensures
            eng_wf(*final(self)),
            final(self).target@ == old(self).target@,
            final(self).max_steps == old(self).max_steps,
            final(self).pending@ == old(self).pending@,
            final(self).seen@ == old(self).seen@,
            final(self).seq_counter == old(self).seq_counter,
            match r {
                None => old(self).frontier.entries@.len() == 0,
                Some(n) => {
                    &&& n == old(self).frontier.entries@[0].node
                    &&& final(self).frontier.entries@.to_multiset() == old(
                        self,
                    ).frontier.entries@.to_multiset().remove(old(self).frontier.entries@[0])
                    &&& wf_node(n)
                    &&& outputs_consistent(n, old(self).target@)
                    &&& forall|k: int|
                        0 <= k < old(self).frontier.entries@.len() ==> beats(
                            pr(old(self).frontier.entries@[0]),
                            pr(#[trigger] old(self).frontier.entries@[k]),
                        )
                },
            },
    {
        match self.frontier.pop() {
            Some(e) => Some(e.node),
            None => None,
        }
    }

    /// How many successors wait to be scored and enqueued.
    pub fn pending_len(&self) -> (r: usize)
        ensures
            r == self.pending@.len(),
    {
        self.pending.len()
    }

    /// What the score of a waiting successor is computed from: its matched
    /// prefix, its minimum program length, and its spent steps.
    pub fn pending_score_data(&self, i: usize) -> (r: (usize, u32, u64))
        requires
            i < self.pending@.len(),
        ensures
            r.0 == self.pending@[i as int].correct,
            r.1 == self.pending@[i as int].root.min_len,
            r.2 == self.pending@[i as int].steps,
    {
        let p = &self.pending[i];
        (p.correct, p.root.min_len, p.steps)
    }

    /// Compute the successors of a popped node into the waiting list: the
    /// full branch list of the fused expand-and-step, in its order. A node
    /// over the step cap gets none, and so does a hole node within two
    /// identifiers or two instructions of the u32 limits (the headroom the
    /// expansion's machine arithmetic needs). `enqueue_pending` then drops
    /// the branches the search prunes.
    pub fn expand(&mut self, node: &SearchNode)
        requires
            eng_wf(*old(self)),
            wf_node(*node),
            outputs_consistent(*node, old(self).target@),
        ensures
            eng_wf(*final(self)),
            final(self).target@ == old(self).target@,
            final(self).max_steps == old(self).max_steps,
            final(self).seen@ == old(self).seen@,
            final(self).seq_counter == old(self).seq_counter,
            final(self).frontier == old(self).frontier,
            node.steps > old(self).max_steps ==> final(self).pending@.len() == 0,
            forall|k: int|
                0 <= k < final(self).pending@.len() ==> successor_of(
                    *node,
                    #[trigger] final(self).pending@[k],
                    old(self).target@,
                ),
            ({
                let t = old(self).target@;
                let p = final(self).pending@;
                (node.steps <= old(self).max_steps && (node.pc@ is Hole ==> min_len_of(node.root@)
                    + 2 <= u32::MAX as int && node.next_id + 2 <= u32::MAX)) ==> {
                    &&& (!(node.pc@ is Hole) ==> {
                        &&& p.len() <= 1
                        &&& (p.len() == 1 <==> !known_step_halts(*node) && !known_step_prunes(
                            *node,
                            t,
                        ))
                        &&& (p.len() == 1 ==> known_step_post(*node, p[0], t))
                    })
                    &&& (node.pc@ is Hole ==> {
                        &&& p.len() == (if output_survives(*node, t) {
                            7int
                        } else {
                            6int
                        })
                        &&& hole_succ_base(
                            *node,
                            p[0],
                            (Prog::Empty { id: id_of(node.pc@) }),
                            node.next_id,
                        )
                        &&& instr_succ(*node, p[1], Instr::IncPtr, t)
                        &&& instr_succ(*node, p[2], Instr::DecPtr, t)
                        &&& instr_succ(*node, p[3], Instr::Inc, t)
                        &&& instr_succ(*node, p[4], Instr::Dec, t)
                        &&& (output_survives(*node, t) ==> instr_succ(
                            *node,
                            p[5],
                            Instr::Output,
                            t,
                        ))
                        &&& loop_succ(*node, p[p.len() - 1], t)
                    })
                }
            }),
    {
        self.pending = Vec::new();
        if node.steps > self.max_steps {
            return ;
        }
        let expandable = match &node.pc.kind {
            PKind::Hole => node.root.min_len <= u32::MAX - 2 && node.next_id <= u32::MAX - 2,
            _ => true,
        };
        if !expandable {
            return ;
        }
        self.pending = step_once(node, self.target.as_slice(), AdvancePolicy::Search);
    }

    /// Move the waiting successors into the frontier, oldest first,
    /// numbering the insertions: a successor is enqueued exactly when it
    /// got a key (a finite score), did not halt before completing the
    /// target, and is within the step cap. Refuses a key list of the wrong
    /// length.
    #[verifier::loop_isolation(false)]
    pub fn enqueue_pending(&mut self, keys: &Vec<Option<u64>>) -> (r: bool)
        requires
            eng_wf(*old(self)),
        ensures
            eng_wf(*final(self)),
            final(self).target@ == old(self).target@,
            final(self).max_steps == old(self).max_steps,
            final(self).seen@ == old(self).seen@,
            r == (keys@.len() == old(self).pending@.len()),
            r ==> final(self).pending@.len() == 0 && final(self).frontier.entries@.to_multiset()
                == old(self).frontier.entries@.to_multiset().add(
                queued(
                    old(self).pending@,
                    keys@,
                    old(self).seq_counter,
                    old(self).target@,
                    old(self).max_steps,
                ),
            ) && final(self).seq_counter == seq_after(
                old(self).pending@,
                keys@,
                old(self).seq_counter,
                old(self).target@,
                old(self).max_steps,
            ),
            !r ==> final(self).pending@ == old(self).pending@ && final(self).frontier == old(
                self,
            ).frontier && final(self).seq_counter == old(self).seq_counter,
    {
        if keys.len() != self.pending.len() {
            return false;
        }
        let ghost tgt = self.target@;
        let ghost sq0 = self.seq_counter;
        let ghost maxs = self.max_steps;
        let ghost p0 = self.pending@;
        let mut i: usize = 0;
        while self.pending.len() > 0
            invariant
                eng_wf(*self),
                self.target@ == tgt,
                tgt == old(self).target@,
                self.max_steps == maxs,
                maxs == old(self).max_steps,
                self.seen@ == old(self).seen@,
                i + self.pending@.len() == keys@.len(),
                keys@.len() == p0.len(),
                p0 == old(self).pending@,
                sq0 == old(self).seq_counter,
                self.pending@ == p0.skip(i as int),
                self.frontier.entries@.to_multiset() == old(
                    self,
                ).frontier.entries@.to_multiset().add(
                    queued(p0.take(i as int), keys@, sq0, tgt, maxs),
                ),
                self.seq_counter == seq_after(p0.take(i as int), keys@, sq0, tgt, maxs),
            decreases self.pending@.len(),
        {
            proof {
                assert(self.pending@[0] == p0[i as int]);
                assert(wf_node(self.pending@[0]) && outputs_consistent(self.pending@[0], tgt));
            }
            let child = self.pending.remove(0);
            proof {
                assert(self.pending@ =~= p0.skip(i + 1));
            }
            let halted = match &child.pc.kind {
                PKind::Empty => child.loop_stack.len() == 0,
                _ => false,
            };
            let drop_halt = halted && child.correct < self.target.len();
            let over = child.steps > self.max_steps;
            let mut has_key = false;
            let mut kk: u64 = 0;
            match keys[i] {
                Some(x) => {
                    kk = x;
                    has_key = true;
                },
                None => {},
            }
            proof {
                assert(p0.take(i + 1).drop_last() =~= p0.take(i as int));
                assert(p0.take(i + 1).last() == p0[i as int]);
                assert((has_key && !drop_halt && !over) == enq_kept(
                    p0[i as int],
                    keys@[i as int],
                    tgt,
                    maxs,
                ));
            }
            if has_key && !drop_halt && !over {
                let sq = self.seq_counter;
                self.frontier.push(FrontierEntry { key: kk, seq: sq, node: child });
                self.seq_counter = self.seq_counter.wrapping_add(1);
                proof {
                    assert(self.frontier.entries@.to_multiset() =~= old(
                        self,
                    ).frontier.entries@.to_multiset().add(
                        queued(p0.take(i + 1), keys@, sq0, tgt, maxs),
                    ));
                }
            } else {
                proof {
                    assert(queued(p0.take(i + 1), keys@, sq0, tgt, maxs) == queued(
                        p0.take(i as int),
                        keys@,
                        sq0,
                        tgt,
                        maxs,
                    ));
                }
            }
            i = i + 1;
        }
        proof {
            assert(p0.take(p0.len() as int) =~= p0);
        }
        true
    }

    /// Record a solution text. True exactly when the text was not reported
    /// before; only then is it recorded.
    #[verifier::loop_isolation(false)]
    pub fn register_solution(&mut self, text: &String) -> (r: bool)
        requires
            eng_wf(*old(self)),
        ensures
            eng_wf(*final(self)),
            final(self).target@ == old(self).target@,
            final(self).max_steps == old(self).max_steps,
            final(self).frontier == old(self).frontier,
            final(self).pending@ == old(self).pending@,
            r == !seen_has(old(self).seen@, text@),
            r ==> final(self).seen@.len() == old(self).seen@.len() + 1
                && final(self).seen@.last()@ == text@ && forall|k: int|
                0 <= k < old(self).seen@.len() ==> final(self).seen@[k] == old(self).seen@[k],
            !r ==> final(self).seen@ == old(self).seen@,
    {
        let mut k: usize = 0;
        while k < self.seen.len()
            invariant
                k <= self.seen@.len(),
                forall|j: int| 0 <= j < k ==> #[trigger] self.seen@[j]@ != text@,
            decreases self.seen@.len() - k,
        {
            if self.seen[k] == *text {
                return false;
            }
            k = k + 1;
        }
        self.seen.push(text.clone());
        true
    }

    /// How many nodes the frontier still holds.
    pub fn frontier_len(&self) -> (r: usize)
        ensures
            r == self.frontier.entries@.len(),
    {
        self.frontier.len()
    }
}

} // verus!
