use vstd::prelude::*;
use std::rc::Rc;
use crate::instr::Instr;
use crate::ast::{
    ProgramNode, PKind, Prog, id_of, min_len_cached, min_len_of, distinct_ids, ids_of, replaced,
    find_in, replace_hole, find_by_id, rc_dup, lemma_contains_child, lemma_find_in_contains,
    lemma_contains_hole, lemma_replaced_min_len, lemma_replaced_distinct, lemma_replaced_ids,
    lemma_replaced_contains_rep,
};
use crate::node::{SearchNode, LoopFrame, tmap, wf_node, outputs_consistent, node_like, dup_node};
use crate::tape::{tape_insert, tape_remove, tape_set, cell_value};

verus! {

/// One more interpreter step, charged saturating as the step counter is.
pub open spec fn bump_steps(s: u64) -> u64 {
    if s == u64::MAX {
        s
    } else {
        (s + 1) as u64
    }
}

pub open spec fn dp_right(d: i64) -> i64 {
    if d == i64::MAX {
        d
    } else {
        (d + 1) as i64
    }
}

pub open spec fn dp_left(d: i64) -> i64 {
    if d == i64::MIN {
        d
    } else {
        (d - 1) as i64
    }
}

pub open spec fn wrap_inc(v: u8) -> u8 {
    if v == 255 {
        0
    } else {
        (v + 1) as u8
    }
}

pub open spec fn wrap_dec(v: u8) -> u8 {
    if v == 0 {
        255
    } else {
        (v - 1) as u8
    }
}

/// The known-step rules emit no successor and the branch ends: the program
/// halts outside every loop, a loop frame no longer resolves, or the
/// location is an unexpanded hole (which only the expansion handles).
pub open spec fn known_step_halts(n: SearchNode) -> bool {
    match n.pc@ {
        Prog::Empty { .. } => if n.loop_stack@.len() == 0 {
            true
        } else {
            let top = n.loop_stack@.last();
            if cell_value(tmap(n), n.dp) != 0 {
                find_in(n.root@, top.body_id) is None
            } else {
                find_in(n.root@, top.next_id) is None
            }
        },
        Prog::Hole { .. } => true,
        _ => false,
    }
}

/// The branch is dropped: an input instruction, or an output byte that
/// mismatches the target at its position.
pub open spec fn known_step_prunes(n: SearchNode, target: Seq<u8>) -> bool {
    match n.pc@ {
        Prog::Instr { i, .. } => i == Instr::Input || (i == Instr::Output && n.outputs@.len()
            < target.len() && cell_value(tmap(n), n.dp) != target[n.outputs@.len() as int]),
        _ => false,
    }
}

/// Exactly what one known step does, case by case on the current location.
pub open spec fn known_step_post(pre: SearchNode, post: SearchNode, target: Seq<u8>) -> bool {
    &&& post.root@ == pre.root@
    &&& post.next_id == pre.next_id
    &&& post.steps == bump_steps(pre.steps)
    &&& match pre.pc@ {
        Prog::Empty { .. } => {
            let top = pre.loop_stack@.last();
            &&& post.dp == pre.dp
            &&& tmap(post) == tmap(pre)
            &&& post.outputs@ == pre.outputs@
            &&& post.correct == pre.correct
            &&& if cell_value(tmap(pre), pre.dp) != 0 {
                &&& Some(post.pc@) == find_in(pre.root@, top.body_id)
                &&& post.loop_stack@ == pre.loop_stack@
            } else {
                &&& Some(post.pc@) == find_in(pre.root@, top.next_id)
                &&& post.loop_stack@ == pre.loop_stack@.drop_last()
            }
        },
        Prog::Instr { i, rest, .. } => {
            &&& post.pc@ == *rest
            &&& post.loop_stack@ == pre.loop_stack@
            &&& match i {
                Instr::IncPtr => {
                    &&& post.dp == dp_right(pre.dp)
                    &&& tmap(post) == tmap(pre)
                    &&& post.outputs@ == pre.outputs@
                    &&& post.correct == pre.correct
                },
                Instr::DecPtr => {
                    &&& post.dp == dp_left(pre.dp)
                    &&& tmap(post) == tmap(pre)
                    &&& post.outputs@ == pre.outputs@
                    &&& post.correct == pre.correct
                },
                Instr::Inc => {
                    &&& post.dp == pre.dp
                    &&& tmap(post) == tape_set(
                        tmap(pre),
                        pre.dp,
                        wrap_inc(cell_value(tmap(pre), pre.dp)),
                    )
                    &&& post.outputs@ == pre.outputs@
                    &&& post.correct == pre.correct
                },
                Instr::Dec => {
                    &&& post.dp == pre.dp
                    &&& tmap(post) == tape_set(
                        tmap(pre),
                        pre.dp,
                        wrap_dec(cell_value(tmap(pre), pre.dp)),
                    )
                    &&& post.outputs@ == pre.outputs@
                    &&& post.correct == pre.correct
                },
                Instr::Output => {
                    &&& post.dp == pre.dp
                    &&& tmap(post) == tmap(pre)
                    &&& post.outputs@ == pre.outputs@.push(cell_value(tmap(pre), pre.dp))
                    &&& post.correct == if pre.outputs@.len() < target.len() {
                        pre.outputs@.len() as int + 1
                    } else {
                        pre.correct as int
                    }
                },
                Instr::Input => false,
            }
        },
        Prog::Loop { body, rest, .. } => {
            &&& post.dp == pre.dp
            &&& tmap(post) == tmap(pre)
            &&& post.outputs@ == pre.outputs@
            &&& post.correct == pre.correct
            &&& if cell_value(tmap(pre), pre.dp) == 0 {
                &&& post.pc@ == *rest
                &&& post.loop_stack@ == pre.loop_stack@
            } else {
                &&& post.pc@ == *body
                &&& post.loop_stack@ == pre.loop_stack@.push(
                    LoopFrame { body_id: id_of(*body), next_id: id_of(*rest) },
                )
            }
        },
        _ => false,
    }
}

/// Law: one step keeps the matched-prefix invariant. A successor's outputs
/// never mismatch the target on any already-emitted byte, and its `correct`
/// still counts the matched prefix.
pub proof fn lemma_step_preserves_consistency(
    pre: SearchNode,
    post: SearchNode,
    target: Seq<u8>,
)
    requires
        outputs_consistent(pre, target),
        !known_step_halts(pre),
        !known_step_prunes(pre, target),
        known_step_post(pre, post, target),
    ensures
        outputs_consistent(post, target),
{
    match pre.pc@ {
        Prog::Instr { i, .. } => {
            if i == Instr::Output {
                assert(forall|k: int|
                    0 <= k < post.outputs@.len() && k < target.len() ==> post.outputs@[k]
                        == target[k]);
            }
        },
        _ => (),
    }
}

/// Law: the step relation is a function of the observable state. Any two
/// successors one node admits agree on every observable field, so the
/// successor computation - and with it the order of reported solutions
/// under fixed target, coefficients and caps - is deterministic.
pub proof fn lemma_step_deterministic(
    pre: SearchNode,
    a: SearchNode,
    b: SearchNode,
    target: Seq<u8>,
)
    requires
        known_step_post(pre, a, target),
        known_step_post(pre, b, target),
    ensures
        node_like(a, b),
{
}

/// The ghost tree of a node carries the node's identifier.
proof fn lemma_id_of_view(p: ProgramNode)
    ensures
        id_of(p@) == p.nid,
{
}

/// Write one cell: zero removes the entry, anything else stores it.
fn write_cell(t: &mut im::HashMap<i64, u8>, idx: i64, val: u8)
    ensures
        crate::tape::tape_entries(*final(t)) == tape_set(
            crate::tape::tape_entries(*old(t)),
            idx,
            val,
        ),
{
    if val == 0 {
        tape_remove(t, idx);
    } else {
        tape_insert(t, idx, val);
    }
}

/// Advance a node whose location is already expanded by exactly one
/// interpreter step. No successor means the branch halted or was pruned.
pub fn exec_known_step(node: SearchNode, target: &[u8]) -> (r: Vec<SearchNode>)
    requires
        min_len_cached(*node.root),
        min_len_cached(*node.pc),
    ensures
        r@.len() <= 1,
        r@.len() == 1 <==> !known_step_halts(node) && !known_step_prunes(node, target@),
        r@.len() == 1 ==> known_step_post(node, r@[0], target@),
        r@.len() == 1 ==> r@[0].root == node.root && min_len_cached(*r@[0].pc),
        wf_node(node) && r@.len() == 1 ==> wf_node(r@[0]),
{
    let ghost pre = node;
    let mut out: Vec<SearchNode> = Vec::new();
    let mut node = node;
    let pc = rc_dup(&node.pc);
    match &pc.kind {
        PKind::Empty => {
            if node.loop_stack.len() == 0 {
                return out;
            }
            node.steps = if node.steps == u64::MAX {
                node.steps
            } else {
                node.steps + 1
            };
            let top = node.loop_stack[node.loop_stack.len() - 1];
            let cur = node.get_cell(node.dp);
            if cur != 0 {
                match find_by_id(&node.root, top.body_id) {
                    Some(p) => {
                        node.pc = p;
                    },
                    None => {
                        return out;
                    },
                }
            } else {
                let _ = node.loop_stack.pop();
                match find_by_id(&node.root, top.next_id) {
                    Some(p) => {
                        node.pc = p;
                    },
                    None => {
                        return out;
                    },
                }
            }
            proof {
                if wf_node(pre) {
                    if cell_value(tmap(pre), pre.dp) != 0 {
                        lemma_find_in_contains(pre.root@, pre.loop_stack@.last().body_id);
                    } else {
                        lemma_find_in_contains(pre.root@, pre.loop_stack@.last().next_id);
                    }
                }
            }
            out.push(node);
        },
        PKind::Instr(i, next) => {
            node.steps = if node.steps == u64::MAX {
                node.steps
            } else {
                node.steps + 1
            };
            match i {
                Instr::IncPtr => {
                    node.dp = if node.dp == i64::MAX {
                        node.dp
                    } else {
                        node.dp + 1
                    };
                },
                Instr::DecPtr => {
                    node.dp = if node.dp == i64::MIN {
                        node.dp
                    } else {
                        node.dp - 1
                    };
                },
                Instr::Inc => {
                    let v0 = node.get_cell(node.dp);
                    let v = if v0 == 255 {
                        0
                    } else {
                        v0 + 1
                    };
                    write_cell(&mut node.tape, node.dp, v);
                },
                Instr::Dec => {
                    let v0 = node.get_cell(node.dp);
                    let v = if v0 == 0 {
                        255
                    } else {
                        v0 - 1
                    };
                    write_cell(&mut node.tape, node.dp, v);
                },
                Instr::Output => {
                    let v = node.get_cell(node.dp);
                    node.outputs.push(v);
                    let idx = node.outputs.len() - 1;
                    if idx < target.len() && v != target[idx] {
                        return out;
                    }
                    if idx < target.len() {
                        node.correct = idx + 1;
                    }
                },
                Instr::Input => {
                    return out;
                },
            }
            node.pc = rc_dup(next);
            proof {
                if wf_node(pre) {
                    lemma_contains_child(pre.root@, pre.pc@);
                }
            }
            out.push(node);
        },
        PKind::Loop { body, next } => {
            node.steps = if node.steps == u64::MAX {
                node.steps
            } else {
                node.steps + 1
            };
            let cur = node.get_cell(node.dp);
            if cur == 0 {
                node.pc = rc_dup(next);
            } else {
                node.loop_stack.push(LoopFrame { body_id: body.nid, next_id: next.nid });
                node.pc = rc_dup(body);
            }
            proof {
                let ghost gb = **body;
                let ghost gn = **next;
                lemma_id_of_view(gb);
                lemma_id_of_view(gn);
                if wf_node(pre) {
                    lemma_contains_child(pre.root@, pre.pc@);
                }
            }
            out.push(node);
        },
        PKind::Hole => {
            return out;
        },
    }
    out
}

/// How the search advances: expanding holes, or treating them as a halt.
#[derive(Clone, Copy, PartialEq, Eq, Structural, Debug)]
pub enum AdvancePolicy {
    Search,
    NoExpand,
}

/// The state right after a hole expansion, before the fused step: the hole
/// is substituted by `rep`, the location moves onto `rep`, the fresh-id
/// counter advances to `nid2`, and all interpreter state is kept.
pub open spec fn hole_succ_base(n: SearchNode, post: SearchNode, rep: Prog, nid2: u32) -> bool {
    &&& post.root@ == replaced(n.root@, id_of(n.pc@), rep)
    &&& post.pc@ == rep
    &&& post.next_id == nid2
    &&& post.loop_stack@ == n.loop_stack@
    &&& post.dp == n.dp
    &&& tmap(post) == tmap(n)
    &&& post.steps == n.steps
    &&& post.outputs@ == n.outputs@
    &&& post.correct == n.correct
}

/// The replacement an instruction branch substitutes for the hole: the
/// instruction, continued by a fresh hole.
pub open spec fn instr_rep(n: SearchNode, i: Instr) -> Prog {
    Prog::Instr { id: id_of(n.pc@), i, rest: Box::new(Prog::Hole { id: n.next_id }) }
}

/// The replacement of the loop branch: a loop with fresh holes as body and
/// continuation.
pub open spec fn loop_rep(n: SearchNode) -> Prog {
    Prog::Loop {
        id: id_of(n.pc@),
        body: Box::new(Prog::Hole { id: n.next_id }),
        rest: Box::new(Prog::Hole { id: (n.next_id + 1) as u32 }),
    }
}

/// `post` is the instruction branch for `i`: the expansion followed by one
/// known step.
pub open spec fn instr_succ(n: SearchNode, post: SearchNode, i: Instr, target: Seq<u8>) -> bool {
    exists|mid: SearchNode|
        #![auto]
        hole_succ_base(n, mid, instr_rep(n, i), (n.next_id + 1) as u32) && known_step_post(
            mid,
            post,
            target,
        )
}

/// `post` is the loop branch: the expansion followed by one known step.
pub open spec fn loop_succ(n: SearchNode, post: SearchNode, target: Seq<u8>) -> bool {
    exists|mid: SearchNode|
        #![auto]
        hole_succ_base(n, mid, loop_rep(n), (n.next_id + 2) as u32) && known_step_post(
            mid,
            post,
            target,
        )
}

/// The output instruction branch is kept: either the target is already
/// fully emitted, or the emitted byte agrees with the target.
pub open spec fn output_survives(n: SearchNode, target: Seq<u8>) -> bool {
    n.outputs@.len() >= target.len() || cell_value(tmap(n), n.dp) == target[n.outputs@.len() as int]
}

/// Which instruction branches of an expansion survive the fused step.
pub open spec fn instr_survives(n: SearchNode, i: Instr, target: Seq<u8>) -> bool {
    i != Instr::Input && (i == Instr::Output ==> output_survives(n, target))
}

/// `post` arises from `n` by one move of the search: a known step, or one
/// branch of a hole expansion (terminate-here, an instruction branch, or
/// the loop branch).
pub open spec fn successor_of(n: SearchNode, post: SearchNode, target: Seq<u8>) -> bool {
    ||| known_step_post(n, post, target)
    ||| hole_succ_base(n, post, (Prog::Empty { id: id_of(n.pc@) }), n.next_id)
    ||| exists|i: Instr| #![auto] instr_succ(n, post, i, target)
    ||| loop_succ(n, post, target)
}

/// One instruction branch of a hole expansion: substitute, step once, and
/// append the survivor, if any.
fn expand_instr(node: &SearchNode, i: Instr, target: &[u8], results: &mut Vec<SearchNode>)
    requires
        wf_node(*node),
        node.pc@ is Hole,
        min_len_of(node.root@) + 2 <= u32::MAX as int,
        node.next_id < u32::MAX,
    ensures
        final(results)@.len() == old(results)@.len() + (if instr_survives(
            *node,
            i,
            target@,
        ) {
            1int
        } else {
            0int
        }),
        forall|k: int| 0 <= k < old(results)@.len() ==> final(results)@[k] == old(results)@[k],
        instr_survives(*node, i, target@) ==> instr_succ(*node, final(results)@.last(), i, target@)
            && wf_node(final(results)@.last()),
        instr_survives(*node, i, target@) && outputs_consistent(*node, target@)
            ==> outputs_consistent(final(results)@.last(), target@),
{
    let cur_id = node.pc.nid;
    let next_p = ProgramNode::hole_with_id(node.next_id);
    let replacement = ProgramNode::instr_with_id(cur_id, i, next_p);
    proof {
        lemma_contains_hole(node.root@, node.pc@);
        crate::ast::lemma_has_hole_in_ids(node.root@, cur_id);
        assert(min_len_of(replacement@) == 1);
        lemma_replaced_min_len(node.root@, cur_id, replacement@);
    }
    let new_root = replace_hole(&node.root, cur_id, rc_dup(&replacement));
    let mut child = dup_node(node);
    child.root = new_root;
    child.pc = replacement;
    child.next_id = node.next_id + 1;
    proof {
        assert(ids_of(Prog::Hole { id: node.next_id }) =~= set![node.next_id]);
        assert(distinct_ids(Prog::Hole { id: node.next_id }));
        assert(ids_of(child.pc@) =~= set![cur_id, node.next_id]);
        assert(distinct_ids(child.pc@));
        lemma_replaced_distinct(node.root@, cur_id, child.pc@);
        lemma_replaced_contains_rep(node.root@, cur_id, child.pc@);
        lemma_replaced_ids(node.root@, cur_id, child.pc@);
        assert forall|x: u32| ids_of(child.root@).contains(x) implies x < child.next_id by {}
        assert(wf_node(child));
        assert(hole_succ_base(*node, child, instr_rep(*node, i), (node.next_id + 1) as u32));
    }
    let ghost mid = child;
    let mut stepped = exec_known_step(child, target);
    proof {
        assert(!known_step_halts(mid));
        assert(known_step_prunes(mid, target@) <==> !instr_survives(*node, i, target@));
    }
    results.append(&mut stepped);
    proof {
        if instr_survives(*node, i, target@) {
            assert(known_step_post(mid, results@.last(), target@));
            assert(instr_succ(*node, results@.last(), i, target@));
            if outputs_consistent(*node, target@) {
                assert(outputs_consistent(mid, target@));
                lemma_step_preserves_consistency(mid, results@.last(), target@);
            }
        }
    }
}

/// The loop branch of a hole expansion: substitute a loop of two fresh
/// holes, take the step for its opening bracket, and append the successor.
fn expand_loop(node: &SearchNode, target: &[u8], results: &mut Vec<SearchNode>)
    requires
        wf_node(*node),
        node.pc@ is Hole,
        min_len_of(node.root@) + 2 <= u32::MAX as int,
        node.next_id + 2 <= u32::MAX,
    ensures
        final(results)@.len() == old(results)@.len() + 1,
        forall|k: int| 0 <= k < old(results)@.len() ==> final(results)@[k] == old(results)@[k],
        loop_succ(*node, final(results)@.last(), target@),
        wf_node(final(results)@.last()),
        outputs_consistent(*node, target@) ==> outputs_consistent(final(results)@.last(), target@),
{
    let cur_id = node.pc.nid;
    let body = ProgramNode::hole_with_id(node.next_id);
    let next = ProgramNode::hole_with_id(node.next_id + 1);
    let replacement = ProgramNode::loop_with_id(cur_id, body, next);
    proof {
        lemma_contains_hole(node.root@, node.pc@);
        crate::ast::lemma_has_hole_in_ids(node.root@, cur_id);
        assert(min_len_of(replacement@) == 2);
        lemma_replaced_min_len(node.root@, cur_id, replacement@);
    }
    let new_root = replace_hole(&node.root, cur_id, rc_dup(&replacement));
    let mut child = dup_node(node);
    child.root = new_root;
    child.pc = replacement;
    child.next_id = node.next_id + 2;
    proof {
        assert(ids_of(Prog::Hole { id: node.next_id }) =~= set![node.next_id]);
        assert(ids_of(Prog::Hole { id: (node.next_id + 1) as u32 }) =~= set![
            (node.next_id + 1) as u32,
        ]);
        assert(distinct_ids(Prog::Hole { id: node.next_id }));
        assert(distinct_ids(Prog::Hole { id: (node.next_id + 1) as u32 }));
        assert(ids_of(child.pc@) =~= set![cur_id, node.next_id, (node.next_id + 1) as u32]);
        assert(distinct_ids(child.pc@));
        lemma_replaced_distinct(node.root@, cur_id, child.pc@);
        lemma_replaced_contains_rep(node.root@, cur_id, child.pc@);
        lemma_replaced_ids(node.root@, cur_id, child.pc@);
        assert forall|x: u32| ids_of(child.root@).contains(x) implies x < child.next_id by {}
        assert(wf_node(child));
        assert(hole_succ_base(*node, child, loop_rep(*node), (node.next_id + 2) as u32));
    }
    let ghost mid = child;
    let mut stepped = exec_known_step(child, target);
    proof {
        assert(!known_step_halts(mid));
        assert(!known_step_prunes(mid, target@));
    }
    results.append(&mut stepped);
    proof {
        assert(known_step_post(mid, results@.last(), target@));
        assert(loop_succ(*node, results@.last(), target@));
        if outputs_consistent(*node, target@) {
            assert(outputs_consistent(mid, target@));
            lemma_step_preserves_consistency(mid, results@.last(), target@);
        }
    }
}

/// Advance a search node by one move of the joint grow-and-run search.
/// At an expanded location this is one interpreter step. At a hole under
/// the search policy it is the fused expand-and-step: the terminate-here
/// branch (no step taken), one branch per instruction each advanced one
/// step, and the loop branch advanced through its opening bracket; branches
/// that the step prunes are left out. Pruned or halted nodes give nothing.
pub fn step_once(node: &SearchNode, target: &[u8], policy: AdvancePolicy) -> (r: Vec<SearchNode>)
    requires
        wf_node(*node),
        node.pc@ is Hole ==> min_len_of(node.root@) + 2 <= u32::MAX as int && node.next_id + 2
            <= u32::MAX,
    ensures
        !(node.pc@ is Hole) ==> {
            &&& r@.len() <= 1
            &&& (r@.len() == 1 <==> !known_step_halts(*node) && !known_step_prunes(
                *node,
                target@,
            ))
            &&& (r@.len() == 1 ==> known_step_post(*node, r@[0], target@))
        },
        node.pc@ is Hole && policy is NoExpand ==> r@.len() == 0,
        node.pc@ is Hole && policy is Search ==> {
            &&& r@.len() == (if output_survives(*node, target@) {
                7int
            } else {
                6int
            })
            &&& hole_succ_base(*node, r@[0], (Prog::Empty { id: id_of(node.pc@) }), node.next_id)
            &&& instr_succ(*node, r@[1], Instr::IncPtr, target@)
            &&& instr_succ(*node, r@[2], Instr::DecPtr, target@)
            &&& instr_succ(*node, r@[3], Instr::Inc, target@)
            &&& instr_succ(*node, r@[4], Instr::Dec, target@)
            &&& (output_survives(*node, target@) ==> instr_succ(
                *node,
                r@[5],
                Instr::Output,
                target@,
            ))
            &&& loop_succ(*node, r@[r@.len() - 1], target@)
        },
        forall|k: int| 0 <= k < r@.len() ==> wf_node(#[trigger] r@[k]),
        forall|k: int| 0 <= k < r@.len() ==> successor_of(*node, #[trigger] r@[k], target@),
        outputs_consistent(*node, target@) ==> forall|k: int|
            0 <= k < r@.len() ==> outputs_consistent(#[trigger] r@[k], target@),
{
    let mut results: Vec<SearchNode> = Vec::new();
    let is_hole = match &node.pc.kind {
        PKind::Hole => true,
        _ => false,
    };
    if is_hole {
        if let AdvancePolicy::NoExpand = policy {
            return results;
        }
        let cur_id = node.pc.nid;
        proof {
            lemma_contains_hole(node.root@, node.pc@);
            crate::ast::lemma_has_hole_in_ids(node.root@, cur_id);
        }
        let replacement = ProgramNode::empty_with_id(cur_id);
        proof {
            lemma_replaced_min_len(node.root@, cur_id, replacement@);
        }
        let new_root = replace_hole(&node.root, cur_id, rc_dup(&replacement));
        let mut child = dup_node(node);
        child.root = new_root;
        child.pc = replacement;
        proof {
            assert(ids_of(child.pc@) =~= set![cur_id]);
            lemma_replaced_distinct(node.root@, cur_id, child.pc@);
            lemma_replaced_contains_rep(node.root@, cur_id, child.pc@);
            lemma_replaced_ids(node.root@, cur_id, child.pc@);
            assert forall|x: u32| ids_of(child.root@).contains(x) implies x < child.next_id by {}
            assert(wf_node(child));
        }
        results.push(child);
        expand_instr(node, Instr::IncPtr, target, &mut results);
        expand_instr(node, Instr::DecPtr, target, &mut results);
        expand_instr(node, Instr::Inc, target, &mut results);
        expand_instr(node, Instr::Dec, target, &mut results);
        expand_instr(node, Instr::Output, target, &mut results);
        expand_instr(node, Instr::Input, target, &mut results);
        expand_loop(node, target, &mut results);
    } else {
        let d = dup_node(node);
        proof {
            assert(wf_node(d));
            assert(known_step_halts(d) == known_step_halts(*node));
            assert(known_step_prunes(d, target@) == known_step_prunes(*node, target@));
        }
        let ghost dg = d;
        let mut stepped = exec_known_step(d, target);
        proof {
            if stepped@.len() == 1 {
                assert(known_step_post(dg, stepped@[0], target@));
                assert(known_step_post(*node, stepped@[0], target@));
                if outputs_consistent(*node, target@) {
                    lemma_step_preserves_consistency(*node, stepped@[0], target@);
                }
            }
        }
        results.append(&mut stepped);
    }
    proof {
        assert forall|k: int| 0 <= k < results@.len() implies successor_of(
            *node,
            results@[k],
            target@,
        ) by {
            if is_hole {
                let last = results@.len() - 1;
                if k == 0 {
                } else if k == last {
                } else if k == 1 {
                    assert(instr_succ(*node, results@[k], Instr::IncPtr, target@));
                } else if k == 2 {
                    assert(instr_succ(*node, results@[k], Instr::DecPtr, target@));
                } else if k == 3 {
                    assert(instr_succ(*node, results@[k], Instr::Inc, target@));
                } else if k == 4 {
                    assert(instr_succ(*node, results@[k], Instr::Dec, target@));
                } else {
                    assert(instr_succ(*node, results@[k], Instr::Output, target@));
                }
            }
        }
    }
    results
}

} // verus!

