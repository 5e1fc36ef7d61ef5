use vstd::prelude::*;
use crate::node::{SearchNode, wf_node, outputs_consistent};

verus! {

broadcast use {vstd::seq_lib::group_to_multiset_ensures, vstd::multiset::group_multiset_axioms};

/// One frontier entry: the integer order key stands in for the score (a
/// larger key is a better score), `seq` is the insertion counter that
/// breaks ties toward older entries.
pub struct FrontierEntry {
    pub key: u64,
    pub seq: u64,
    pub node: SearchNode,
}

/// The priority of an entry, as the pair the comparator reads.
pub open spec fn pr(e: FrontierEntry) -> (u64, u64) {
    (e.key, e.seq)
}

/// `a` is at least as good as `b`: higher key wins, ties fall to the
/// smaller (older) insertion number.
pub open spec fn beats(a: (u64, u64), b: (u64, u64)) -> bool {
    a.0 > b.0 || (a.0 == b.0 && a.1 <= b.1)
}

/// The max-heap shape over the entry vector.
pub open spec fn heap_ok(v: Seq<FrontierEntry>) -> bool {
    forall|i: int| 1 <= i < v.len() ==> beats(pr(v[(i - 1) / 2]), pr(#[trigger] v[i]))
}

/// Every entry the frontier holds is well formed and never mismatched the
/// target: this is how mismatch pruning is kept sound.
pub open spec fn entries_good(v: Seq<FrontierEntry>, target: Seq<u8>) -> bool {
    forall|i: int|
        0 <= i < v.len() ==> wf_node((#[trigger] v[i]).node) && outputs_consistent(
            v[i].node,
            target,
        )
}

/// In a heap-shaped vector the root beats every entry.
pub proof fn lemma_heap_root_max(v: Seq<FrontierEntry>, i: int)
    requires
        heap_ok(v),
        0 <= i < v.len(),
    ensures
        beats(pr(v[0]), pr(v[i])),
    decreases i,
{
    if i > 0 {
        lemma_heap_root_max(v, (i - 1) / 2);
    }
}

/// Relies on <[T]>::swap, through Vec's mutable deref: exchanges the two
/// elements in place.
#[verifier::external_body]
fn entry_swap(v: &mut Vec<FrontierEntry>, a: usize, b: usize)
    requires
        a < old(v)@.len(),
        b < old(v)@.len(),
    ensures
        final(v)@ == old(v)@.update(a as int, old(v)@[b as int]).update(
            b as int,
            old(v)@[a as int],
        ),
{
    v.swap(a, b);
}

/// Overwriting one element exchanges it in the bag of entries.
proof fn lemma_update_to_multiset(v: Seq<FrontierEntry>, i: int, x: FrontierEntry)
    requires
        0 <= i < v.len(),
    ensures
        v.update(i, x).to_multiset() =~= v.to_multiset().remove(v[i]).insert(x),
{
    let u = v.update(i, x);
    assert(u.remove(i) =~= v.remove(i));
    assert(u.remove(i).to_multiset() =~= u.to_multiset().remove(x));
    assert(v.remove(i).to_multiset() =~= v.to_multiset().remove(v[i]));
    assert(u.contains(x)) by {
        assert(u[i] == x);
    }
    assert(u.to_multiset().count(x) > 0);
    assert(u.to_multiset() =~= u.to_multiset().remove(x).insert(x));
}

/// Swapping two elements leaves the bag of entries unchanged.
proof fn lemma_swap_to_multiset(v: Seq<FrontierEntry>, a: int, b: int)
    requires
        0 <= a < v.len(),
        0 <= b < v.len(),
    ensures
        v.update(a, v[b]).update(b, v[a]).to_multiset() =~= v.to_multiset(),
{
    if a == b {
        assert(v.update(a, v[b]).update(b, v[a]) =~= v);
    } else {
        let u = v.update(a, v[b]);
        lemma_update_to_multiset(v, a, v[b]);
        lemma_update_to_multiset(u, b, v[a]);
        assert(u[b] == v[b]);
        assert(v.contains(v[a])) by {
            assert(v[a] == v[a]);
        }
        assert(v.to_multiset().count(v[a]) > 0);
        assert(u.update(b, v[a]).to_multiset() =~= v.to_multiset());
    }
}

/// The heap shape, except that the entry at `c` may be better than its
/// parent; the parent of `c` still beats the children of `c`.
pub open spec fn heap_except_up(v: Seq<FrontierEntry>, c: int) -> bool {
    &&& forall|i: int|
        1 <= i < v.len() && i != c ==> beats(pr(v[(i - 1) / 2]), pr(#[trigger] v[i]))
    &&& (c > 0 ==> forall|j: int|
        1 <= j < v.len() && (j - 1) / 2 == c ==> beats(pr(v[(c - 1) / 2]), pr(#[trigger] v[j])))
}

/// The heap shape, except that the entry at `c` may be worse than its
/// children; the parent of `c` still beats the children of `c`.
pub open spec fn heap_except_down(v: Seq<FrontierEntry>, c: int) -> bool {
    &&& forall|i: int|
        1 <= i < v.len() && (i - 1) / 2 != c ==> beats(pr(v[(i - 1) / 2]), pr(#[trigger] v[i]))
    &&& (c > 0 ==> forall|j: int|
        1 <= j < v.len() && (j - 1) / 2 == c ==> beats(pr(v[(c - 1) / 2]), pr(#[trigger] v[j])))
}

/// Restore the heap shape by sifting the entry at `start` down.
#[verifier::loop_isolation(false)]
#[verifier::rlimit(100)]
fn sift_down(v: &mut Vec<FrontierEntry>, Ghost(tgt): Ghost<Seq<u8>>)
    requires
        old(v)@.len() > 0,
        heap_except_down(old(v)@, 0),
        entries_good(old(v)@, tgt),
    ensures
        heap_ok(final(v)@),
        entries_good(final(v)@, tgt),
        final(v)@.len() == old(v)@.len(),
        final(v)@.to_multiset() == old(v)@.to_multiset(),
{
    let mut c: usize = 0;
    while c < v.len() / 2
        invariant
            c < v@.len(),
            heap_except_down(v@, c as int),
            entries_good(v@, tgt),
            v@.len() == old(v)@.len(),
            v@.to_multiset() == old(v)@.to_multiset(),
        decreases v@.len() - c,
    {
        let l: usize = 2 * c + 1;
        let rgt: usize = 2 * c + 2;
        let mut m: usize = l;
        if rgt < v.len() {
            let lk = v[l].key;
            let ls = v[l].seq;
            let rk = v[rgt].key;
            let rs = v[rgt].seq;
            if !(lk > rk || (lk == rk && ls <= rs)) {
                m = rgt;
            }
        }
        let stop = {
            let ck = v[c].key;
            let cs = v[c].seq;
            let mk = v[m].key;
            let ms = v[m].seq;
            ck > mk || (ck == mk && cs <= ms)
        };
        if stop {
            proof {
                assert(heap_ok(v@));
            }
            return ;
        }
        proof {
            lemma_swap_to_multiset(v@, c as int, m as int);
        }
        entry_swap(v, c, m);
        c = m;
    }
    proof {
        assert(heap_ok(v@));
    }
}

/// The best-first frontier: a max-heap of search nodes keyed by
/// `(key, seq)`, every stored node well formed and consistent with the
/// target the frontier was made for.
pub struct Frontier {
    pub entries: Vec<FrontierEntry>,
    pub target: Ghost<Seq<u8>>,
}

pub open spec fn fr_inv(f: Frontier) -> bool {
    heap_ok(f.entries@) && entries_good(f.entries@, f.target@)
}

impl Frontier {
    pub fn new(Ghost(target): Ghost<Seq<u8>>) -> (r: Frontier)
        ensures
            fr_inv(r),
            r.target@ == target,
            r.entries@.len() == 0,
    {
        Frontier { entries: Vec::new(), target: Ghost(target) }
    }

    pub fn len(&self) -> (r: usize)
        ensures
            r == self.entries@.len(),
    {
        self.entries.len()
    }

    /// Insert an entry and restore the heap shape by sifting it up.
    #[verifier::loop_isolation(false)]
    #[verifier::rlimit(60)]
    pub fn push(&mut self, e: FrontierEntry)
        requires
            fr_inv(*old(self)),
            wf_node(e.node),
            outputs_consistent(e.node, old(self).target@),
        ensures
            fr_inv(*final(self)),
            final(self).target@ == old(self).target@,
            final(self).entries@.len() == old(self).entries@.len() + 1,
            final(self).entries@.to_multiset() == old(self).entries@.to_multiset().insert(e),
            old(self).entries@.len() == 0 ==> final(self).entries@ =~= seq![e],
    {
        self.entries.push(e);
        let mut c: usize = self.entries.len() - 1;
        while c > 0
            invariant
                self.entries@.to_multiset() == old(self).entries@.to_multiset().insert(e),
                old(self).entries@.len() == 0 ==> self.entries@ =~= seq![e],
                heap_except_up(self.entries@, c as int),
                c < self.entries@.len(),
                entries_good(self.entries@, self.target@),
                self.target@ == old(self).target@,
                self.entries@.len() == old(self).entries@.len() + 1,
            decreases c,
        {
            let p: usize = (c - 1) / 2;
            let stop = {
                let pk = self.entries[p].key;
                let ps = self.entries[p].seq;
                let ck = self.entries[c].key;
                let cs = self.entries[c].seq;
                pk > ck || (pk == ck && ps <= cs)
            };
            if stop {
                proof {
                    assert(heap_ok(self.entries@));
                }
                return ;
            }
            proof {
                lemma_swap_to_multiset(self.entries@, p as int, c as int);
            }
            entry_swap(&mut self.entries, p, c);
            c = p;
        }
        proof {
            assert(heap_ok(self.entries@));
            if old(self).entries@.len() == 0 {
                assert(self.entries@ =~= seq![e]);
            }
        }
    }

    /// Remove and return the best entry: the root, which beats every entry
    /// the frontier held.
    #[verifier::rlimit(60)]
    pub fn pop(&mut self) -> (r: Option<FrontierEntry>)
        requires
            fr_inv(*old(self)),
        ensures
            fr_inv(*final(self)),
            final(self).target@ == old(self).target@,
            match r {
                None => old(self).entries@.len() == 0 && final(self).entries@.len() == 0,
                Some(e) => {
                    &&& e == old(self).entries@[0]
                    &&& final(self).entries@.len() == old(self).entries@.len() - 1
                    &&& final(self).entries@.to_multiset() == old(
                        self,
                    ).entries@.to_multiset().remove(e)
                    &&& (forall|k: int|
                        0 <= k < old(self).entries@.len() ==> beats(
                            pr(e),
                            pr(#[trigger] old(self).entries@[k]),
                        ))
                    &&& wf_node(e.node)
                    &&& outputs_consistent(e.node, old(self).target@)
                },
            },
    {
        let n = self.entries.len();
        if n == 0 {
            return None;
        }
        proof {
            assert forall|k: int| 0 <= k < self.entries@.len() implies beats(
                pr(self.entries@[0]),
                pr(self.entries@[k]),
            ) by {
                lemma_heap_root_max(self.entries@, k);
            }
        }
        let ghost orig = self.entries@;
        proof {
            lemma_swap_to_multiset(self.entries@, 0, n - 1);
        }
        entry_swap(&mut self.entries, 0, n - 1);
        let ghost sw = self.entries@;
        proof {
            assert(sw.remove(n - 1) =~= sw.drop_last());
            assert(sw.remove(n - 1).to_multiset() =~= sw.to_multiset().remove(sw[n - 1]));
            assert(sw[n - 1] == orig[0]);
        }
        let e = match self.entries.pop() {
            Some(x) => x,
            None => {
                proof {
                    assert(false);
                }
                return None;
            },
        };
        if self.entries.len() > 0 {
            sift_down(&mut self.entries, Ghost(self.target@));
        }
        Some(e)
    }
}

} // verus!
