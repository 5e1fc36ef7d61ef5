use vstd::prelude::*;
use std::rc::Rc;
use crate::ast::{
    ProgramNode, Prog, min_len_cached, distinct_ids, contains_subtree, ids_below, rc_dup,
    lemma_contains_refl,
};
use crate::tape::{tape_entries, tape_new, tape_dup, tape_get, tape_insert, tape_remove,
    cell_value, tape_set};

verus! {

/// One active loop, recorded by the identifiers of its body and of the
/// program after it. Identifiers, not references: after a hole expansion the
/// rebuilt tree is looked up by identifier.
#[derive(Clone, Copy, PartialEq, Eq, Structural, Debug)]
pub struct LoopFrame {
    pub body_id: u32,
    pub next_id: u32,
}

/// One state of the joint grow-and-run search: a partial program, the
/// subtree under execution, and the whole interpreter continuation.
pub struct SearchNode {
    pub root: Rc<ProgramNode>,
    pub pc: Rc<ProgramNode>,
    pub loop_stack: Vec<LoopFrame>,
    pub dp: i64,
    pub tape: im::HashMap<i64, u8>,
    pub steps: u64,
    pub outputs: Vec<u8>,
    pub correct: usize,
    pub next_id: u32,
}

/// The tape of a node, as the map of its stored cells.
pub open spec fn tmap(n: SearchNode) -> Map<i64, u8> {
    tape_entries(n.tape)
}

/// Well-formedness the search maintains: cached lengths agree with the
/// structure, identifiers are distinct and lie below the node's fresh-id
/// counter, and the program counter is a subtree of the root.
pub open spec fn wf_node(n: SearchNode) -> bool {
    &&& min_len_cached(*n.root)
    &&& min_len_cached(*n.pc)
    &&& distinct_ids(n.root@)
    &&& contains_subtree(n.root@, n.pc@)
    &&& ids_below(n.root@, n.next_id)
}

/// The emitted outputs never mismatch the target, and `correct` counts the
/// matched prefix: the shorter of what was emitted and the whole target.
pub open spec fn outputs_consistent(n: SearchNode, target: Seq<u8>) -> bool {
    &&& n.correct == if n.outputs@.len() <= target.len() {
        n.outputs@.len() as int
    } else {
        target.len() as int
    }
    &&& forall|k: int|
        0 <= k < n.outputs@.len() && k < target.len() ==> n.outputs@[k] == target[k]
}

/// Everything but the two tree handles and the tape compared field by
/// field; trees by their ghost shape, the tape by its entries.
pub open spec fn node_like(a: SearchNode, b: SearchNode) -> bool {
    &&& a.root@ == b.root@
    &&& a.pc@ == b.pc@
    &&& a.loop_stack@ == b.loop_stack@
    &&& a.dp == b.dp
    &&& tmap(a) == tmap(b)
    &&& a.steps == b.steps
    &&& a.outputs@ == b.outputs@
    &&& a.correct == b.correct
    &&& a.next_id == b.next_id
}

/// The observable state of the start of the search: a single hole under
/// execution, everything else zero or empty, the next fresh identifier 1.
pub open spec fn is_initial(n: SearchNode) -> bool {
    &&& n.root@ == (Prog::Hole { id: 0 })
    &&& n.pc@ == n.root@
    &&& n.loop_stack@.len() == 0
    &&& n.dp == 0
    &&& tmap(n) == Map::<i64, u8>::empty()
    &&& n.steps == 0
    &&& n.outputs@.len() == 0
    &&& n.correct == 0
    &&& n.next_id == 1
}

impl SearchNode {
    /// The start of the search: a single hole, everything else empty.
    pub fn initial() -> (r: SearchNode)
        ensures
            is_initial(r),
            wf_node(r),
    {
        let root = ProgramNode::hole_with_id(0);
        let pc = rc_dup(&root);
        proof {
            lemma_contains_refl(root@);
            assert forall|x: u32| crate::ast::ids_of(root@).contains(x) implies x < 1 by {
                assert(crate::ast::ids_of(root@) =~= set![0u32]);
            }
        }
        SearchNode {
            root,
            pc,
            loop_stack: Vec::new(),
            dp: 0,
            tape: tape_new(),
            steps: 0,
            outputs: Vec::new(),
            correct: 0,
            next_id: 1,
        }
    }

    /// What the cell under `idx` reads as.
    pub fn get_cell(&self, idx: i64) -> (r: u8)
        ensures
            r == cell_value(tmap(*self), idx),
    {
        match tape_get(&self.tape, idx) {
            Some(v) => v,
            None => 0,
        }
    }

    /// The tape after writing a cell: a new persistent value; the given one
    /// is consumed, and clones of it are unaffected.
    pub fn set_cell(tape: im::HashMap<i64, u8>, idx: i64, val: u8) -> (r: im::HashMap<i64, u8>)
        ensures
            tape_entries(r) == tape_set(tape_entries(tape), idx, val),
    {
        let mut t = tape;
        if val == 0 {
            tape_remove(&mut t, idx);
        } else {
            tape_insert(&mut t, idx, val);
        }
        t
    }
}

/// A copy of a search node that shares its program trees and tape cells.
pub fn dup_node(n: &SearchNode) -> (r: SearchNode)
    ensures
        node_like(r, *n),
        r.root == n.root,
        r.pc == n.pc,
        r.steps == n.steps,
        r.dp == n.dp,
        r.correct == n.correct,
        r.next_id == n.next_id,
{
    let mut frames: Vec<LoopFrame> = Vec::new();
    let mut i: usize = 0;
    while i < n.loop_stack.len()
        invariant
            0 <= i <= n.loop_stack.len(),
            frames@ == n.loop_stack@.take(i as int),
        decreases n.loop_stack.len() - i,
    {
        frames.push(n.loop_stack[i]);
        proof {
            assert(frames@ =~= n.loop_stack@.take(i + 1));
        }
        i = i + 1;
    }
    proof {
        assert(frames@ =~= n.loop_stack@);
    }
    let mut outs: Vec<u8> = Vec::new();
    let mut j: usize = 0;
    while j < n.outputs.len()
        invariant
            0 <= j <= n.outputs.len(),
            outs@ == n.outputs@.take(j as int),
        decreases n.outputs.len() - j,
    {
        outs.push(n.outputs[j]);
        proof {
            assert(outs@ =~= n.outputs@.take(j + 1));
        }
        j = j + 1;
    }
    proof {
        assert(outs@ =~= n.outputs@);
    }
    SearchNode {
        root: rc_dup(&n.root),
        pc: rc_dup(&n.pc),
        loop_stack: frames,
        dp: n.dp,
        tape: tape_dup(&n.tape),
        steps: n.steps,
        outputs: outs,
        correct: n.correct,
        next_id: n.next_id,
    }
}

} // verus!
