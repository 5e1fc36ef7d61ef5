use vstd::prelude::*;
use std::rc::Rc;
use crate::ast::{ProgramNode, Prog, min_len_cached, rc_dup};
use crate::node::{SearchNode, tmap};
use crate::tape::tape_new;
use crate::interp::{exec_known_step, known_step_halts, known_step_prunes, known_step_post};

verus! {

/// The zeroed start state of a concrete run: location at the program root,
/// no active loop, empty tape, nothing emitted.
pub open spec fn concrete_start(s: SearchNode, root: Prog) -> bool {
    &&& s.root@ == root
    &&& s.pc@ == root
    &&& s.loop_stack@.len() == 0
    &&& s.dp == 0
    &&& tmap(s) == Map::<i64, u8>::empty()
    &&& s.steps == 0
    &&& s.outputs@.len() == 0
    &&& s.correct == 0
}

/// `b` is reachable from `a` by at most `fuel` known steps against an
/// empty target, and every state stepped from on the way - `a` included -
/// was still running: under the output limit, under the step cap, and
/// neither halted nor pruned. The end state of such a run is therefore the
/// first state to meet a stop condition.
pub open spec fn runs_to(a: SearchNode, b: SearchNode, fuel: nat, limit: int, cap: u64) -> bool
    decreases fuel,
{
    b == a || (fuel > 0 && a.outputs@.len() < limit && a.steps < cap && exists|mid: SearchNode|
        #![auto]
        !known_step_halts(a) && !known_step_prunes(a, Seq::<u8>::empty()) && known_step_post(
            a,
            mid,
            Seq::<u8>::empty(),
        ) && runs_to(mid, b, (fuel - 1) as nat, limit, cap))
}

proof fn lemma_runs_to_extend(
    a: SearchNode,
    m: SearchNode,
    e: SearchNode,
    fuel: nat,
    limit: int,
    cap: u64,
)
    requires
        runs_to(a, m, fuel, limit, cap),
        m.outputs@.len() < limit,
        m.steps < cap,
        !known_step_halts(m),
        !known_step_prunes(m, Seq::<u8>::empty()),
        known_step_post(m, e, Seq::<u8>::empty()),
    ensures
        runs_to(a, e, fuel + 1, limit, cap),
    decreases fuel,
{
    if m == a {
        assert(runs_to(e, e, fuel, limit, cap));
    } else {
        let mid = choose|mid: SearchNode|
            #![auto]
            !known_step_halts(a) && !known_step_prunes(a, Seq::<u8>::empty()) && known_step_post(
                a,
                mid,
                Seq::<u8>::empty(),
            ) && runs_to(mid, m, (fuel - 1) as nat, limit, cap);
        lemma_runs_to_extend(mid, m, e, (fuel - 1) as nat, limit, cap);
    }
}

/// Run a concrete program from a zeroed state until it halts, has emitted
/// `limit` bytes, or has spent `step_cap` steps - whichever comes first.
/// Returns the outputs, the steps spent, and whether the program ended on
/// its own: true exactly when neither bound was reached, so the run
/// stopped because the program halted (or sat on an input instruction).
#[verifier::loop_isolation(false)]
pub fn run_concrete_to_limit(root: Rc<ProgramNode>, limit: usize, step_cap: u64) -> (r: (
    Vec<u8>,
    u64,
    bool,
))
    requires
        min_len_cached(*root),
    ensures
        r.0@.len() <= limit as int,
        r.1 <= step_cap,
        exists|s: SearchNode, e: SearchNode, fuel: nat|
            #![auto]
            {
                &&& concrete_start(s, root@)
                &&& runs_to(s, e, fuel, limit as int, step_cap)
                &&& r.0@ == e.outputs@
                &&& r.1 == e.steps
                &&& (r.2 <==> (e.outputs@.len() < limit as int && e.steps < step_cap))
                &&& (r.2 ==> known_step_halts(e) || known_step_prunes(e, Seq::<u8>::empty()))
                &&& (!r.2 ==> e.outputs@.len() >= limit as int || e.steps >= step_cap)
            },
{
    let empty_t: Vec<u8> = Vec::new();
    let pc = rc_dup(&root);
    let ghost groot = root@;
    let mut node = SearchNode {
        root,
        pc,
        loop_stack: Vec::new(),
        dp: 0,
        tape: tape_new(),
        steps: 0,
        outputs: Vec::new(),
        correct: 0,
        next_id: 0,
    };
    let ghost s0 = node;
    let ghost mut fuel: nat = 0nat;
    proof {
        assert(concrete_start(s0, groot));
        assert(empty_t@ =~= Seq::<u8>::empty());
    }
    loop
        invariant
            min_len_cached(*node.root),
            min_len_cached(*node.pc),
            empty_t@ =~= Seq::<u8>::empty(),
            concrete_start(s0, groot),
            runs_to(s0, node, fuel, limit as int, step_cap),
            node.outputs@.len() <= limit as int,
            node.steps <= step_cap,
        decreases step_cap - node.steps,
    {
        if node.outputs.len() >= limit {
            proof {
                assert(concrete_start(s0, root@) && runs_to(
                    s0,
                    node,
                    fuel,
                    limit as int,
                    step_cap,
                ));
            }
            return (node.outputs, node.steps, false);
        }
        if node.steps >= step_cap {
            proof {
                assert(concrete_start(s0, root@) && runs_to(
                    s0,
                    node,
                    fuel,
                    limit as int,
                    step_cap,
                ));
            }
            return (node.outputs, node.steps, false);
        }
        let ghost cur = node;
        let d = crate::node::dup_node(&node);
        proof {
            assert(known_step_halts(d) == known_step_halts(cur));
            assert(known_step_prunes(d, empty_t@) == known_step_prunes(cur, empty_t@));
        }
        let ghost dg = d;
        let mut children = exec_known_step(d, empty_t.as_slice());
        if children.len() == 0 {
            proof {
                assert(known_step_halts(cur) || known_step_prunes(cur, Seq::<u8>::empty()));
                assert(concrete_start(s0, root@) && runs_to(
                    s0,
                    node,
                    fuel,
                    limit as int,
                    step_cap,
                ));
            }
            return (node.outputs, node.steps, true);
        }
        match children.pop() {
            Some(n) => {
                proof {
                    assert(known_step_post(dg, n, empty_t@));
                    assert(known_step_post(cur, n, empty_t@));
                    lemma_runs_to_extend(s0, cur, n, fuel, limit as int, step_cap);
                    fuel = fuel + 1;
                }
                node = n;
            },
            None => {
                return (node.outputs, node.steps, true);
            },
        }
    }
}

} // verus!
