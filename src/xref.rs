//! Cross-references between instructions: for each address, the list of references from
//! it and the list of references to it.
use vstd::prelude::*;

verus! {

/// How control or data flows along a reference.
#[derive(Clone, Copy, Debug, PartialEq, Eq, Structural)]
pub enum XrefType {
    /// To the next instruction.
    Fallthrough,
    Call,
    UnconditionalJump,
    ConditionalJump,
    ConditionalMove,
}

/// A reference from `src` to `dst`.
#[derive(Clone, Copy, Debug, PartialEq, Eq, Structural)]
pub struct Xref {
    pub src: u64,
    pub dst: u64,
    pub typ: XrefType,
}

/// No element of `s` occurs twice.
pub open spec fn no_dups(s: Seq<Xref>) -> bool {
    forall|i: int, j: int| 0 <= i < s.len() && 0 <= j < s.len() && s[i] == s[j] ==> i == j
}

/// Per-address lists of references, over addresses below a fixed capacity.
pub struct XrefGraph {
    from: Vec<Vec<Xref>>,
    to: Vec<Vec<Xref>>,
}

impl XrefGraph {
    /// Number of addresses covered.
    pub closed spec fn capacity(&self) -> nat {
        self.from@.len()
    }

    /// The references from `a`, in insertion order.
    pub closed spec fn from_view(&self, a: int) -> Seq<Xref> {
        self.from@[a]@
    }

    /// The references to `a`, in insertion order.
    pub closed spec fn to_view(&self, a: int) -> Seq<Xref> {
        self.to@[a]@
    }

    /// The graph holds reference `x`.
    pub open spec fn has(&self, x: Xref) -> bool {
        x.src < self.capacity() && self.from_view(x.src as int).contains(x)
    }

    /// Every reference stands once in the list of its source and once in the list of its
    /// destination, and nowhere else.
    pub closed spec fn wf(&self) -> bool {
        &&& self.to@.len() == self.from@.len()
        &&& self.from@.len() <= usize::MAX
        &&& forall|a: int, k: int|
            0 <= a < self.from@.len() && 0 <= k < self.from@[a]@.len() ==> {
                let x = #[trigger] self.from@[a]@[k];
                &&& x.src == a
                &&& x.dst < self.from@.len()
                &&& self.to@[x.dst as int]@.contains(x)
            }
        &&& forall|a: int, k: int|
            0 <= a < self.to@.len() && 0 <= k < self.to@[a]@.len() ==> {
                let x = #[trigger] self.to@[a]@[k];
                &&& x.dst == a
                &&& x.src < self.from@.len()
                &&& self.from@[x.src as int]@.contains(x)
            }
        &&& forall|a: int| 0 <= a < self.from@.len() ==> no_dups(#[trigger] self.from@[a]@)
        &&& forall|a: int| 0 <= a < self.to@.len() ==> no_dups(#[trigger] self.to@[a]@)
    }

    /// An empty graph over the addresses `[0, n)`.
    pub fn with_capacity(n: usize) -> (r: XrefGraph)
        ensures
            r.wf(),
            r.capacity() == n,
            forall|x: Xref| !r.has(x),
    {
        let mut from: Vec<Vec<Xref>> = Vec::with_capacity(n);
        let mut to: Vec<Vec<Xref>> = Vec::with_capacity(n);
        let mut i: usize = 0;
        while i < n
            invariant
                i <= n,
                from@.len() == i,
                to@.len() == i,
                forall|a: int| 0 <= a < i ==> (#[trigger] from@[a])@.len() == 0,
                forall|a: int| 0 <= a < i ==> (#[trigger] to@[a])@.len() == 0,
            decreases n - i,
        {
            from.push(Vec::new());
            to.push(Vec::new());
            i = i + 1;
        }
        let r = XrefGraph { from, to };
        assert forall|x: Xref| !r.has(x) by {
            if x.src < r.capacity() {
                assert(r.from@[x.src as int]@.len() == 0);
            }
        }
        r
    }

    /// The references from `a`, in insertion order.
    pub fn xrefs_from(&self, a: u64) -> (r: &Vec<Xref>)
        requires
            self.wf(),
            a < self.capacity(),
        ensures
            r@ == self.from_view(a as int),
    {
        &self.from[a as usize]
    }

    /// The references to `a`, in insertion order.
    pub fn xrefs_to(&self, a: u64) -> (r: &Vec<Xref>)
        requires
            self.wf(),
            a < self.capacity(),
        ensures
            r@ == self.to_view(a as int),
    {
        &self.to[a as usize]
    }

    /// Add `x` to the lists of both its ends; nothing changes if it is already there.
    pub fn add(&mut self, x: Xref)
        requires
            old(self).wf(),
            x.src < old(self).capacity(),
            x.dst < old(self).capacity(),
        ensures
            final(self).wf(),
            final(self).capacity() == old(self).capacity(),
            forall|y: Xref| #[trigger] final(self).has(y) <==> (old(self).has(y) || y == x),
            forall|a: int|
                0 <= a < final(self).capacity() && a != x.src ==> #[trigger] final(self).from_view(a)
                    == old(self).from_view(a),
            forall|a: int|
                0 <= a < final(self).capacity() && a != x.dst ==> #[trigger] final(self).to_view(a)
                    == old(self).to_view(a),
            !old(self).has(x) ==> final(self).from_view(x.src as int) == old(self).from_view(
                x.src as int,
            ).push(x),
            !old(self).has(x) ==> final(self).to_view(x.dst as int) == old(self).to_view(
                x.dst as int,
            ).push(x),
            old(self).has(x) ==> final(self).from_view(x.src as int) == old(self).from_view(
                x.src as int,
            ),
            old(self).has(x) ==> final(self).to_view(x.dst as int) == old(self).to_view(
                x.dst as int,
            ),
    {
        let ghost o_from = self.from@;
        let ghost o_to = self.to@;
        let s = x.src as usize;
        let d = x.dst as usize;
        if list_contains(&self.from[s], x) {
            return;
        }
        proof {
            if o_to[d as int]@.contains(x) {
                let k = choose|k: int| 0 <= k < o_to[d as int]@.len() && #[trigger] o_to[d as int]@[k] == x;
                assert(self.to@[d as int]@[k] == x);
            }
        }
        self.from[s].push(x);
        self.to[d].push(x);
        proof {
            assert forall|a: int, k: int|
                0 <= a < self.from@.len() && 0 <= k < self.from@[a]@.len() implies {
                let y = #[trigger] self.from@[a]@[k];
                &&& y.src == a
                &&& y.dst < self.from@.len()
                &&& self.to@[y.dst as int]@.contains(y)
            } by {
                let y = self.from@[a]@[k];
                if a == s && k == o_from[a]@.len() {
                    assert(self.to@[d as int]@[o_to[d as int]@.len() as int] == x);
                } else {
                    assert(y == o_from[a]@[k]);
                    assert(o_to[y.dst as int]@.contains(y));
                    let j = choose|j: int| 0 <= j < o_to[y.dst as int]@.len() && #[trigger] o_to[y.dst as int]@[j] == y;
                    assert(self.to@[y.dst as int]@[j] == y);
                }
            }
            assert forall|a: int, k: int|
                0 <= a < self.to@.len() && 0 <= k < self.to@[a]@.len() implies {
                let y = #[trigger] self.to@[a]@[k];
                &&& y.dst == a
                &&& y.src < self.from@.len()
                &&& self.from@[y.src as int]@.contains(y)
            } by {
                let y = self.to@[a]@[k];
                if a == d && k == o_to[a]@.len() {
                    assert(self.from@[s as int]@[o_from[s as int]@.len() as int] == x);
                } else {
                    assert(y == o_to[a]@[k]);
                    assert(o_from[y.src as int]@.contains(y));
                    let j = choose|j: int| 0 <= j < o_from[y.src as int]@.len() && #[trigger] o_from[y.src as int]@[j] == y;
                    assert(self.from@[y.src as int]@[j] == y);
                }
            }
            assert forall|a: int| 0 <= a < self.from@.len() implies no_dups(#[trigger] self.from@[a]@) by {
                if a != s {
                    assert(self.from@[a] == o_from[a]);
                } else {
                    assert(no_dups(o_from[a]@));
                }
            }
            assert forall|a: int| 0 <= a < self.to@.len() implies no_dups(#[trigger] self.to@[a]@) by {
                if a != d {
                    assert(self.to@[a] == o_to[a]);
                } else {
                    assert(no_dups(o_to[a]@));
                }
            }
            assert forall|y: Xref| #[trigger] self.has(y) <==> (old(self).has(y) || y == x) by {
                if y.src < self.capacity() {
                    if y.src == s {
                        if self.from@[s as int]@.contains(y) && y != x {
                            let j = choose|j: int| 0 <= j < self.from@[s as int]@.len() && #[trigger] self.from@[s as int]@[j] == y;
                            assert(o_from[s as int]@[j] == y);
                        }
                        if o_from[s as int]@.contains(y) {
                            let j = choose|j: int| 0 <= j < o_from[s as int]@.len() && #[trigger] o_from[s as int]@[j] == y;
                            assert(self.from@[s as int]@[j] == y);
                        }
                        if y == x {
                            assert(self.from@[s as int]@[o_from[s as int]@.len() as int] == x);
                        }
                    } else {
                        assert(self.from@[y.src as int] == o_from[y.src as int]);
                    }
                }
            }
        }
    }
}

/// Each list holds a reference at most once, and holds only references of its address:
/// every reference stands exactly once in each of its endpoints' lists.
pub proof fn lemma_lists_once(g: &XrefGraph)
    requires
        g.wf(),
    ensures
        forall|a: int| 0 <= a < g.capacity() ==> no_dups(#[trigger] g.from_view(a)),
        forall|a: int| 0 <= a < g.capacity() ==> no_dups(#[trigger] g.to_view(a)),
        forall|a: int, k: int|
            0 <= a < g.capacity() && 0 <= k < g.from_view(a).len() ==> (#[trigger] g.from_view(a)[k]).src == a,
        forall|a: int, k: int|
            0 <= a < g.capacity() && 0 <= k < g.to_view(a).len() ==> (#[trigger] g.to_view(a)[k]).dst == a,
{
    assert forall|a: int| 0 <= a < g.capacity() implies no_dups(#[trigger] g.to_view(a)) by {
        assert(no_dups(g.to@[a]@));
    }
    assert forall|a: int| 0 <= a < g.capacity() implies no_dups(#[trigger] g.from_view(a)) by {
        assert(no_dups(g.from@[a]@));
    }
}

/// A reference in the list from `a` starts at `a` and is held by the graph.
pub proof fn lemma_from_entry(g: &XrefGraph, a: int, k: int)
    requires
        g.wf(),
        0 <= a < g.capacity(),
        0 <= k < g.from_view(a).len(),
    ensures
        g.from_view(a)[k].src == a,
        g.has(g.from_view(a)[k]),
{
    let x = g.from@[a]@[k];
    assert(g.from_view(a).contains(x));
}

/// Does `v` hold `x`?
fn list_contains(v: &Vec<Xref>, x: Xref) -> (r: bool)
    ensures
        r == v@.contains(x),
{
    let mut i: usize = 0;
    while i < v.len()
        invariant
            i <= v@.len(),
            forall|j: int| 0 <= j < i ==> v@[j] != x,
        decreases v@.len() - i,
    {
        if v[i] == x {
            return true;
        }
        i = i + 1;
    }
    false
}

/// Each reference in the list of its source is also in the list of its destination, and
/// the other way round.
pub proof fn lemma_xref_symmetry(g: &XrefGraph, x: Xref)
    requires
        g.wf(),
        x.src < g.capacity(),
        x.dst < g.capacity(),
    ensures
        g.from_view(x.src as int).contains(x) <==> g.to_view(x.dst as int).contains(x),
{
    if g.from_view(x.src as int).contains(x) {
        let k = choose|k: int| 0 <= k < g.from@[x.src as int]@.len() && #[trigger] g.from@[x.src as int]@[k] == x;
    }
    if g.to_view(x.dst as int).contains(x) {
        let k = choose|k: int| 0 <= k < g.to@[x.dst as int]@.len() && #[trigger] g.to@[x.dst as int]@[k] == x;
    }
}

} // verus!
