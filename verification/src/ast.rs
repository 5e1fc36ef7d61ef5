use vstd::prelude::*;
use std::rc::Rc;
use crate::instr::Instr;

verus! {

/// Ghost shape of a partial program. Every node carries its stable
/// identifier; `Instr` and `Loop` nodes carry their continuations.
pub enum Prog {
    Hole { id: u32 },
    Empty { id: u32 },
    Instr { id: u32, i: Instr, rest: Box<Prog> },
    Loop { id: u32, body: Box<Prog>, rest: Box<Prog> },
}

pub open spec fn id_of(p: Prog) -> u32 {
    match p {
        Prog::Hole { id } => id,
        Prog::Empty { id } => id,
        Prog::Instr { id, .. } => id,
        Prog::Loop { id, .. } => id,
    }
}

/// Minimum instruction count of any concretization: holes and ends count
/// nothing, an instruction counts one, a loop counts its two brackets.
pub open spec fn min_len_of(p: Prog) -> int
    decreases p,
{
    match p {
        Prog::Hole { .. } => 0,
        Prog::Empty { .. } => 0,
        Prog::Instr { rest, .. } => 1 + min_len_of(*rest),
        Prog::Loop { body, rest, .. } => 2 + min_len_of(*body) + min_len_of(*rest),
    }
}

/// The set of identifiers occurring in a tree.
pub open spec fn ids_of(p: Prog) -> Set<u32>
    decreases p,
{
    match p {
        Prog::Hole { id } => set![id],
        Prog::Empty { id } => set![id],
        Prog::Instr { id, rest, .. } => set![id].union(ids_of(*rest)),
        Prog::Loop { id, body, rest } => set![id].union(ids_of(*body)).union(ids_of(*rest)),
    }
}

/// Every node of the tree has an identifier distinct from all others.
pub open spec fn distinct_ids(p: Prog) -> bool
    decreases p,
{
    match p {
        Prog::Hole { .. } => true,
        Prog::Empty { .. } => true,
        Prog::Instr { id, rest, .. } => !ids_of(*rest).contains(id) && distinct_ids(*rest),
        Prog::Loop { id, body, rest } => distinct_ids(*body) && distinct_ids(*rest)
            && !ids_of(*body).contains(id) && !ids_of(*rest).contains(id)
            && ids_of(*body).disjoint(ids_of(*rest)),
    }
}

/// All identifiers of the tree lie below `bound`.
pub open spec fn ids_below(p: Prog, bound: u32) -> bool {
    forall|x: u32| ids_of(p).contains(x) ==> x < bound
}

/// An executable program node: stable identifier, shape, and the cached
/// minimum length of any concretization of the subtree.
pub struct ProgramNode {
    pub nid: u32,
    pub kind: PKind,
    pub min_len: u32,
}

pub enum PKind {
    Hole,
    Empty,
    Instr(Instr, Rc<ProgramNode>),
    Loop { body: Rc<ProgramNode>, next: Rc<ProgramNode> },
}

/// The ghost tree that an executable node stands for.
pub open spec fn prog_of(p: ProgramNode) -> Prog
    decreases p,
{
    match p.kind {
        PKind::Hole => Prog::Hole { id: p.nid },
        PKind::Empty => Prog::Empty { id: p.nid },
        PKind::Instr(i, rest) => Prog::Instr { id: p.nid, i, rest: Box::new(prog_of(*rest)) },
        PKind::Loop { body, next } => Prog::Loop {
            id: p.nid,
            body: Box::new(prog_of(*body)),
            rest: Box::new(prog_of(*next)),
        },
    }
}

impl View for ProgramNode {
    type V = Prog;

    open spec fn view(&self) -> Prog {
        prog_of(*self)
    }
}

/// The cached `min_len` field agrees with the structure, throughout the tree.
pub open spec fn min_len_cached(p: ProgramNode) -> bool
    decreases p,
{
    p.min_len == min_len_of(p@) && match p.kind {
        PKind::Instr(_, rest) => min_len_cached(*rest),
        PKind::Loop { body, next } => min_len_cached(*body) && min_len_cached(*next),
        _ => true,
    }
}

/// Relies on `Rc::clone`: hands back a second shared handle to the same node.
#[verifier::external_body]
pub(crate) fn rc_dup(p: &Rc<ProgramNode>) -> (r: Rc<ProgramNode>)
    ensures
        r == *p,
{
    Rc::clone(p)
}

impl ProgramNode {
    pub fn hole_with_id(id: u32) -> (r: Rc<ProgramNode>)
        ensures
            r@ == (Prog::Hole { id }),
            min_len_cached(*r),
    {
        Rc::new(ProgramNode { nid: id, kind: PKind::Hole, min_len: 0 })
    }

    pub fn empty_with_id(id: u32) -> (r: Rc<ProgramNode>)
        ensures
            r@ == (Prog::Empty { id }),
            min_len_cached(*r),
    {
        Rc::new(ProgramNode { nid: id, kind: PKind::Empty, min_len: 0 })
    }

    pub fn instr_with_id(id: u32, i: Instr, next: Rc<ProgramNode>) -> (r: Rc<ProgramNode>)
        requires
            min_len_cached(*next),
            next.min_len < u32::MAX,
        ensures
            r@ == (Prog::Instr { id, i, rest: Box::new(next@) }),
            min_len_cached(*r),
    {
        let ml = 1 + next.min_len;
        Rc::new(ProgramNode { nid: id, kind: PKind::Instr(i, next), min_len: ml })
    }

    pub fn loop_with_id(id: u32, body: Rc<ProgramNode>, next: Rc<ProgramNode>) -> (r: Rc<
        ProgramNode,
    >)
        requires
            min_len_cached(*body),
            min_len_cached(*next),
            2 + body.min_len as int + next.min_len as int <= u32::MAX as int,
        ensures
            r@ == (Prog::Loop { id, body: Box::new(body@), rest: Box::new(next@) }),
            min_len_cached(*r),
    {
        let ml = 2 + body.min_len + next.min_len;
        Rc::new(ProgramNode { nid: id, kind: PKind::Loop { body, next }, min_len: ml })
    }
}

/// The tree with every hole turned into an end-of-program node of the same
/// identifier, and everything else kept.
pub open spec fn concretized(p: Prog) -> Prog
    decreases p,
{
    match p {
        Prog::Hole { id } => Prog::Empty { id },
        Prog::Empty { .. } => p,
        Prog::Instr { id, i, rest } => Prog::Instr { id, i, rest: Box::new(concretized(*rest)) },
        Prog::Loop { id, body, rest } => Prog::Loop {
            id,
            body: Box::new(concretized(*body)),
            rest: Box::new(concretized(*rest)),
        },
    }
}

/// The tree contains a hole node with identifier `tid`.
pub open spec fn has_hole(p: Prog, tid: u32) -> bool
    decreases p,
{
    match p {
        Prog::Hole { id } => id == tid,
        Prog::Empty { .. } => false,
        Prog::Instr { rest, .. } => has_hole(*rest, tid),
        Prog::Loop { body, rest, .. } => has_hole(*body, tid) || has_hole(*rest, tid),
    }
}

/// The tree with every hole of identifier `tid` substituted by `rep`;
/// all other nodes keep their structure and identifiers.
pub open spec fn replaced(p: Prog, tid: u32, rep: Prog) -> Prog
    decreases p,
{
    match p {
        Prog::Hole { id } => if id == tid {
            rep
        } else {
            p
        },
        Prog::Empty { .. } => p,
        Prog::Instr { id, i, rest } => Prog::Instr {
            id,
            i,
            rest: Box::new(replaced(*rest, tid, rep)),
        },
        Prog::Loop { id, body, rest } => Prog::Loop {
            id,
            body: Box::new(replaced(*body, tid, rep)),
            rest: Box::new(replaced(*rest, tid, rep)),
        },
    }
}

/// Depth-first search for the subtree with identifier `tid`: the node
/// itself first, then the loop body before the loop continuation.
pub open spec fn find_in(p: Prog, tid: u32) -> Option<Prog>
    decreases p,
{
    if id_of(p) == tid {
        Some(p)
    } else {
        match p {
            Prog::Instr { rest, .. } => find_in(*rest, tid),
            Prog::Loop { body, rest, .. } => if find_in(*body, tid) is Some {
                find_in(*body, tid)
            } else {
                find_in(*rest, tid)
            },
            _ => None,
        }
    }
}

/// `sub` occurs somewhere in `p` (as a whole subtree).
pub open spec fn contains_subtree(p: Prog, sub: Prog) -> bool
    decreases p,
{
    p == sub || match p {
        Prog::Instr { rest, .. } => contains_subtree(*rest, sub),
        Prog::Loop { body, rest, .. } => contains_subtree(*body, sub) || contains_subtree(
            *rest,
            sub,
        ),
        _ => false,
    }
}

/// The tree has no hole left.
pub open spec fn hole_free(p: Prog) -> bool
    decreases p,
{
    match p {
        Prog::Hole { .. } => false,
        Prog::Empty { .. } => true,
        Prog::Instr { rest, .. } => hole_free(*rest),
        Prog::Loop { body, rest, .. } => hole_free(*body) && hole_free(*rest),
    }
}

/// `c` arises from `p` by substituting an arbitrary hole-free program for
/// each hole; identifiers are irrelevant here, only the shape counts.
pub open spec fn is_concretization(c: Prog, p: Prog) -> bool
    decreases p,
{
    match p {
        Prog::Hole { .. } => hole_free(c),
        Prog::Empty { .. } => c is Empty,
        Prog::Instr { i, rest, .. } => c matches Prog::Instr { i: ci, rest: crest, .. } && ci == i
            && is_concretization(*crest, *rest),
        Prog::Loop { body, rest, .. } => c matches Prog::Loop { body: cb, rest: cr, .. }
            && is_concretization(*cb, *body) && is_concretization(*cr, *rest),
    }
}

/// The canonical surface text of a tree, by in-order traversal.
pub open spec fn text_of(p: Prog) -> Seq<char>
    decreases p,
{
    match p {
        Prog::Hole { .. } => Seq::empty(),
        Prog::Empty { .. } => Seq::empty(),
        Prog::Instr { i, rest, .. } => seq![crate::instr::char_of(i)] + text_of(*rest),
        Prog::Loop { body, rest, .. } => seq!['['] + text_of(*body) + seq![']'] + text_of(*rest),
    }
}

pub proof fn lemma_min_len_nonneg(p: Prog)
    ensures
        min_len_of(p) >= 0,
    decreases p,
{
    match p {
        Prog::Instr { rest, .. } => lemma_min_len_nonneg(*rest),
        Prog::Loop { body, rest, .. } => {
            lemma_min_len_nonneg(*body);
            lemma_min_len_nonneg(*rest);
        },
        _ => (),
    }
}

pub proof fn lemma_concretized_min_len(p: Prog)
    ensures
        min_len_of(concretized(p)) == min_len_of(p),
    decreases p,
{
    match p {
        Prog::Instr { rest, .. } => lemma_concretized_min_len(*rest),
        Prog::Loop { body, rest, .. } => {
            lemma_concretized_min_len(*body);
            lemma_concretized_min_len(*rest);
        },
        _ => (),
    }
}

pub proof fn lemma_replaced_absent(p: Prog, tid: u32, rep: Prog)
    requires
        !has_hole(p, tid),
    ensures
        replaced(p, tid, rep) == p,
    decreases p,
{
    match p {
        Prog::Instr { rest, .. } => lemma_replaced_absent(*rest, tid, rep),
        Prog::Loop { body, rest, .. } => {
            lemma_replaced_absent(*body, tid, rep);
            lemma_replaced_absent(*rest, tid, rep);
        },
        _ => (),
    }
}

pub proof fn lemma_has_hole_in_ids(p: Prog, tid: u32)
    requires
        has_hole(p, tid),
    ensures
        ids_of(p).contains(tid),
    decreases p,
{
    match p {
        Prog::Instr { rest, .. } => lemma_has_hole_in_ids(*rest, tid),
        Prog::Loop { body, rest, .. } => {
            if has_hole(*body, tid) {
                lemma_has_hole_in_ids(*body, tid);
            } else {
                lemma_has_hole_in_ids(*rest, tid);
            }
        },
        _ => (),
    }
}

/// Law: replacing the hole `tid` keeps every other identifier of the tree
/// and adds exactly the identifiers of the replacement. Together with the
/// definition of `replaced`, which rebuilds every node off the hole with its
/// original identifier and structure, this says that hole replacement
/// leaves all unrelated nodes reachable and unchanged.
pub proof fn lemma_replaced_ids(p: Prog, tid: u32, rep: Prog)
    requires
        distinct_ids(p),
        has_hole(p, tid),
    ensures
        ids_of(replaced(p, tid, rep)) == ids_of(p).remove(tid).union(ids_of(rep)),
    decreases p,
{
    match p {
        Prog::Hole { id } => {
            assert(ids_of(replaced(p, tid, rep)) =~= ids_of(p).remove(tid).union(ids_of(rep)));
        },
        Prog::Empty { .. } => (),
        Prog::Instr { id, rest, .. } => {
            lemma_replaced_ids(*rest, tid, rep);
            lemma_has_hole_in_ids(*rest, tid);
            assert(ids_of(replaced(p, tid, rep)) =~= ids_of(p).remove(tid).union(ids_of(rep)));
        },
        Prog::Loop { id, body, rest } => {
            if has_hole(*body, tid) {
                lemma_replaced_ids(*body, tid, rep);
                lemma_has_hole_in_ids(*body, tid);
                if has_hole(*rest, tid) {
                    lemma_has_hole_in_ids(*rest, tid);
                }
                lemma_replaced_absent(*rest, tid, rep);
            } else {
                lemma_replaced_absent(*body, tid, rep);
                lemma_replaced_ids(*rest, tid, rep);
                lemma_has_hole_in_ids(*rest, tid);
            }
            assert(ids_of(replaced(p, tid, rep)) =~= ids_of(p).remove(tid).union(ids_of(rep)));
        },
    }
}

/// Law: replacing a hole with a tree whose identifiers are fresh (apart
/// from reusing the hole's own identifier) keeps all identifiers distinct.
pub proof fn lemma_replaced_distinct(p: Prog, tid: u32, rep: Prog)
    requires
        distinct_ids(p),
        distinct_ids(rep),
        has_hole(p, tid),
        forall|x: u32| ids_of(rep).contains(x) && x != tid ==> !ids_of(p).contains(x),
    ensures
        distinct_ids(replaced(p, tid, rep)),
    decreases p,
{
    match p {
        Prog::Hole { .. } => (),
        Prog::Empty { .. } => (),
        Prog::Instr { id, rest, .. } => {
            lemma_has_hole_in_ids(*rest, tid);
            lemma_replaced_distinct(*rest, tid, rep);
            lemma_replaced_ids(*rest, tid, rep);
        },
        Prog::Loop { id, body, rest } => {
            if has_hole(*body, tid) {
                lemma_has_hole_in_ids(*body, tid);
                if has_hole(*rest, tid) {
                    lemma_has_hole_in_ids(*rest, tid);
                }
                lemma_replaced_distinct(*body, tid, rep);
                lemma_replaced_ids(*body, tid, rep);
                lemma_replaced_absent(*rest, tid, rep);
            } else {
                lemma_has_hole_in_ids(*rest, tid);
                lemma_replaced_distinct(*rest, tid, rep);
                lemma_replaced_ids(*rest, tid, rep);
                lemma_replaced_absent(*body, tid, rep);
            }
        },
    }
}

/// A tree with distinct identifiers holds the hole `tid` exactly once, so
/// its replacement adds exactly the replacement's minimum length.
pub proof fn lemma_replaced_min_len(p: Prog, tid: u32, rep: Prog)
    requires
        distinct_ids(p),
        has_hole(p, tid),
    ensures
        min_len_of(replaced(p, tid, rep)) == min_len_of(p) + min_len_of(rep),
    decreases p,
{
    match p {
        Prog::Hole { .. } => (),
        Prog::Empty { .. } => (),
        Prog::Instr { rest, .. } => {
            lemma_replaced_min_len(*rest, tid, rep);
        },
        Prog::Loop { body, rest, .. } => {
            if has_hole(*body, tid) {
                lemma_has_hole_in_ids(*body, tid);
                if has_hole(*rest, tid) {
                    lemma_has_hole_in_ids(*rest, tid);
                }
                lemma_replaced_min_len(*body, tid, rep);
                lemma_replaced_absent(*rest, tid, rep);
            } else {
                lemma_replaced_absent(*body, tid, rep);
                lemma_replaced_min_len(*rest, tid, rep);
            }
        },
    }
}

/// The replacement itself is a subtree of the result.
pub proof fn lemma_replaced_contains_rep(p: Prog, tid: u32, rep: Prog)
    requires
        has_hole(p, tid),
    ensures
        contains_subtree(replaced(p, tid, rep), rep),
    decreases p,
{
    match p {
        Prog::Hole { .. } => (),
        Prog::Empty { .. } => (),
        Prog::Instr { rest, .. } => lemma_replaced_contains_rep(*rest, tid, rep),
        Prog::Loop { body, rest, .. } => {
            if has_hole(*body, tid) {
                lemma_replaced_contains_rep(*body, tid, rep);
            } else {
                lemma_replaced_contains_rep(*rest, tid, rep);
            }
        },
    }
}

/// Containment is reflexive.
pub proof fn lemma_contains_refl(p: Prog)
    ensures
        contains_subtree(p, p),
{
}

/// The continuations of a contained node are themselves contained.
pub proof fn lemma_contains_child(root: Prog, p: Prog)
    requires
        contains_subtree(root, p),
    ensures
        p matches Prog::Instr { rest, .. } ==> contains_subtree(root, *rest),
        p matches Prog::Loop { body, rest, .. } ==> contains_subtree(root, *body)
            && contains_subtree(root, *rest),
    decreases root,
{
    if root == p {
        match p {
            Prog::Instr { rest, .. } => lemma_contains_refl(*rest),
            Prog::Loop { body, rest, .. } => {
                lemma_contains_refl(*body);
                lemma_contains_refl(*rest);
            },
            _ => (),
        }
    } else {
        match root {
            Prog::Instr { rest, .. } => lemma_contains_child(*rest, p),
            Prog::Loop { body, rest, .. } => {
                if contains_subtree(*body, p) {
                    lemma_contains_child(*body, p);
                } else {
                    lemma_contains_child(*rest, p);
                }
            },
            _ => (),
        }
    }
}

/// What the identifier search returns is a subtree of the searched tree.
pub proof fn lemma_find_in_contains(p: Prog, tid: u32)
    ensures
        find_in(p, tid) matches Some(n) ==> contains_subtree(p, n),
    decreases p,
{
    if id_of(p) == tid {
    } else {
        match p {
            Prog::Instr { rest, .. } => lemma_find_in_contains(*rest, tid),
            Prog::Loop { body, rest, .. } => {
                lemma_find_in_contains(*body, tid);
                lemma_find_in_contains(*rest, tid);
            },
            _ => (),
        }
    }
}

/// A contained hole node makes `has_hole` true for its identifier.
pub proof fn lemma_contains_hole(root: Prog, sub: Prog)
    requires
        contains_subtree(root, sub),
        sub is Hole,
    ensures
        has_hole(root, id_of(sub)),
    decreases root,
{
    if root == sub {
    } else {
        match root {
            Prog::Instr { rest, .. } => lemma_contains_hole(*rest, sub),
            Prog::Loop { body, rest, .. } => {
                if contains_subtree(*body, sub) {
                    lemma_contains_hole(*body, sub);
                } else {
                    lemma_contains_hole(*rest, sub);
                }
            },
            _ => (),
        }
    }
}

impl ProgramNode {
    /// The same tree with every hole turned into an `Empty` of the same
    /// identifier: the shortest concretization.
    pub fn concretize_min(&self) -> (r: Rc<ProgramNode>)
        requires
            min_len_cached(*self),
        ensures
            r@ == concretized(self@),
            min_len_cached(*r),
        decreases *self,
    {
        match &self.kind {
            PKind::Hole => ProgramNode::empty_with_id(self.nid),
            PKind::Empty => ProgramNode::empty_with_id(self.nid),
            PKind::Instr(i, next) => {
                let sub = next.concretize_min();
                proof {
                    lemma_concretized_min_len(next@);
                }
                ProgramNode::instr_with_id(self.nid, *i, sub)
            },
            PKind::Loop { body, next } => {
                let b = body.concretize_min();
                let n = next.concretize_min();
                proof {
                    lemma_concretized_min_len(body@);
                    lemma_concretized_min_len(next@);
                }
                ProgramNode::loop_with_id(self.nid, b, n)
            },
        }
    }

    /// The canonical surface text of the tree.
    pub fn to_bf_string(root: &Rc<ProgramNode>) -> (r: String)
        ensures
            r@ == text_of(root@),
    {
        let mut s = String::new();
        push_text(root, &mut s);
        proof {
            assert(s@ =~= text_of(root@));
        }
        s
    }
}

/// Relies on String::push: appends exactly one character.
#[verifier::external_body]
pub(crate) fn push_char(s: &mut String, c: char)
    ensures
        final(s)@ == old(s)@.push(c),
{
    s.push(c);
}

fn push_text(node: &ProgramNode, out: &mut String)
    ensures
        final(out)@ == old(out)@ + text_of(node@),
    decreases *node,
{
    match &node.kind {
        PKind::Hole => {
            proof {
                assert(out@ =~= out@ + text_of(node@));
            }
        },
        PKind::Empty => {
            proof {
                assert(out@ =~= out@ + text_of(node@));
            }
        },
        PKind::Instr(i, next) => {
            push_char(out, i.to_char());
            push_text(next, out);
            proof {
                assert(out@ =~= old(out)@ + text_of(node@));
            }
        },
        PKind::Loop { body, next } => {
            push_char(out, '[');
            push_text(body, out);
            push_char(out, ']');
            push_text(next, out);
            proof {
                assert(out@ =~= old(out)@ + text_of(node@));
            }
        },
    }
}

/// One recursion step of hole replacement: hands back the rebuilt subtree
/// and whether the hole was found below.
fn rh_rec(cur: &Rc<ProgramNode>, tid: u32, rep: &Rc<ProgramNode>) -> (res: (Rc<ProgramNode>, bool))
    requires
        min_len_cached(**cur),
        min_len_cached(**rep),
        min_len_of(replaced(cur@, tid, rep@)) <= u32::MAX as int,
    ensures
        res.1 == has_hole(cur@, tid),
        res.0@ == replaced(cur@, tid, rep@),
        min_len_cached(*res.0),
    decreases **cur,
{
    match &cur.kind {
        PKind::Hole => {
            if cur.nid == tid {
                (rc_dup(rep), true)
            } else {
                (rc_dup(cur), false)
            }
        },
        PKind::Empty => (rc_dup(cur), false),
        PKind::Instr(i, next) => {
            let (new_next, chg) = rh_rec(next, tid, rep);
            if chg {
                (ProgramNode::instr_with_id(cur.nid, *i, new_next), true)
            } else {
                proof {
                    lemma_replaced_absent(cur@, tid, rep@);
                }
                (rc_dup(cur), false)
            }
        },
        PKind::Loop { body, next } => {
            proof {
                lemma_min_len_nonneg(replaced(body@, tid, rep@));
                lemma_min_len_nonneg(replaced(next@, tid, rep@));
            }
            let (new_body, chg_b) = rh_rec(body, tid, rep);
            let (new_next, chg_n) = rh_rec(next, tid, rep);
            if chg_b || chg_n {
                (ProgramNode::loop_with_id(cur.nid, new_body, new_next), true)
            } else {
                proof {
                    lemma_replaced_absent(cur@, tid, rep@);
                }
                (rc_dup(cur), false)
            }
        },
    }
}

/// A new tree identical to `root` except that the hole with identifier
/// `target_id` is substituted by `replacement`; every node off the hole
/// keeps its identifier.
pub fn replace_hole(root: &Rc<ProgramNode>, target_id: u32, replacement: Rc<ProgramNode>) -> (r:
    Rc<ProgramNode>)
    requires
        min_len_cached(**root),
        min_len_cached(*replacement),
        has_hole(root@, target_id),
        min_len_of(replaced(root@, target_id, replacement@)) <= u32::MAX as int,
    ensures
        r@ == replaced(root@, target_id, replacement@),
        min_len_cached(*r),
{
    let (new_root, changed) = rh_rec(root, target_id, &replacement);
    new_root
}

/// Locate a subtree by identifier, depth-first, body before continuation.
pub fn find_by_id(root: &Rc<ProgramNode>, target_id: u32) -> (r: Option<Rc<ProgramNode>>)
    requires
        min_len_cached(**root),
    ensures
        match r {
            Some(n) => find_in(root@, target_id) == Some(n@) && min_len_cached(*n),
            None => find_in(root@, target_id) is None,
        },
    decreases **root,
{
    if root.nid == target_id {
        return Some(rc_dup(root));
    }
    match &root.kind {
        PKind::Hole => None,
        PKind::Empty => None,
        PKind::Instr(_, next) => find_by_id(next, target_id),
        PKind::Loop { body, next } => {
            let r1 = find_by_id(body, target_id);
            if let Some(n) = r1 {
                Some(n)
            } else {
                find_by_id(next, target_id)
            }
        },
    }
}

/// Law: the concretization that turns every hole into an end has exactly
/// `min_len` instructions of surface text.
pub proof fn lemma_concrete_text_len(p: Prog)
    ensures
        text_of(concretized(p)).len() == min_len_of(p),
    decreases p,
{
    match p {
        Prog::Instr { rest, .. } => lemma_concrete_text_len(*rest),
        Prog::Loop { body, rest, .. } => {
            lemma_concrete_text_len(*body);
            lemma_concrete_text_len(*rest);
        },
        _ => (),
    }
}

/// Law: `min_len` is a lower bound on the surface-text length of every
/// possible concretization of a partial program.
pub proof fn lemma_min_len_lower_bound(c: Prog, p: Prog)
    requires
        is_concretization(c, p),
    ensures
        text_of(c).len() >= min_len_of(p),
    decreases p,
{
    match p {
        Prog::Hole { .. } => (),
        Prog::Empty { .. } => (),
        Prog::Instr { rest, .. } => {
            match c {
                Prog::Instr { rest: crest, .. } => lemma_min_len_lower_bound(*crest, *rest),
                _ => (),
            }
        },
        Prog::Loop { body, rest, .. } => {
            match c {
                Prog::Loop { body: cb, rest: cr, .. } => {
                    lemma_min_len_lower_bound(*cb, *body);
                    lemma_min_len_lower_bound(*cr, *rest);
                },
                _ => (),
            }
        },
    }
}

} // verus!
