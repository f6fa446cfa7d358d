//! A van Emde Boas tree over a dense integer universe.
//!
//! A tree built by `VebTree::new(m)` stores a set of values drawn from
//! `{0, ..., m}`. Each node splits its universe into clusters of
//! `floor(sqrt(m))` consecutive values: a value `v` is routed to the cluster
//! with index `v / cluster_size` at offset `v % cluster_size`, and a recursive
//! summary node records which clusters are occupied. The minimum of a node is
//! kept out of the clusters, which is what makes insertion cheap.
//!
//! The set a node represents is its view, a `Set<nat>`; `insert`, `contains`
//! and `find_next` (successor) are specified exactly against that view.

use vstd::prelude::*;

verus! {

use vstd::arithmetic::div_mod::{lemma_fundamental_div_mod, lemma_fundamental_div_mod_converse};

/// Errors reported by the fallible operations of [`VebTree`].
#[derive(Clone, Copy, Debug, PartialEq, Eq, Structural)]
pub enum VebError {
    /// Construction was asked for a universe that cannot hold any value.
    InvalidCapacity,
    /// A value lies outside the universe the tree was built for.
    InvalidValue,
}

/// A van Emde Boas tree node over the universe `{0, ..., max_element}`.
pub struct VebTree {
    /// Largest value this tree accepts; fixed at construction.
    max_element: usize,
    /// Width of each child cluster: `floor(sqrt(max_element))`.
    cluster_size: usize,
    /// `Some((min, max))` when the node holds at least one value.
    bounds: Option<(usize, usize)>,
    /// Recursive index of the occupied cluster positions.
    summary: Option<Box<VebTree>>,
    /// Child clusters, indexed by the high-order digit; allocated on demand.
    clusters: Vec<Option<Box<VebTree>>>,
}

/// `r` is the integer square root of `n`.
pub open spec fn is_isqrt(r: int, n: int) -> bool {
    0 <= r && r * r <= n && n < (r + 1) * (r + 1)
}

impl VebTree {
    /// The value `e` is stored in this node.
    ///
    /// A stored value is either the node's minimum or it lies, split into its
    /// high digit and low offset, in the child cluster for its high digit.
    pub closed spec fn has(self, e: nat) -> bool
        decreases self, 1nat,
    {
        match self.bounds {
            None => false,
            Some(b) => e == b.0 as nat || self.cluster_has(e),
        }
    }

    /// The value `e` is stored in one of the child clusters.
    pub closed spec fn cluster_has(self, e: nat) -> bool
        decreases self, 0nat,
    {
        let c = (e / self.cluster_size as nat) as int;
        let l = e % self.cluster_size as nat;
        if 0 <= c < self.clusters@.len() {
            match self.clusters@[c] {
                Some(ch) => ch.has(l),
                None => false,
            }
        } else {
            false
        }
    }

    /// The set of values stored in this node.
    pub closed spec fn elems(self) -> Set<nat> {
        Set::new(|e: nat| self.has(e))
    }

    /// The summary records cluster index `c` as occupied.
    pub closed spec fn summary_has(self, c: nat) -> bool {
        self.summary is Some && self.summary->Some_0.has(c)
    }

    /// The child cluster at index `c` exists and holds at least one value.
    pub closed spec fn cluster_nonempty(self, c: nat) -> bool {
        &&& c < self.clusters@.len()
        &&& self.clusters@[c as int] is Some
        &&& self.clusters@[c as int]->Some_0.bounds is Some
    }

    /// The child cluster at index `c` is well formed: its universe is this
    /// node's cluster width and it stores only offsets below that width.
    spec fn cluster_wf(self, c: int) -> bool
        decreases self, 0nat,
    {
        if 0 <= c < self.clusters@.len() {
            match self.clusters@[c] {
                Some(ch) => {
                    &&& ch.wf()
                    &&& ch.max_element == self.cluster_size
                    &&& forall|l: nat| ch.elems().contains(l) ==> l < self.cluster_size as nat
                },
                None => false,
            }
        } else {
            false
        }
    }

    /// Structural invariant of a node.
    pub closed spec fn wf(self) -> bool
        decreases self, 2nat,
    {
        &&& self.max_element >= 1
        &&& is_isqrt(self.cluster_size as int, self.max_element as int)
        &&& match self.bounds {
            None => self.clusters@.len() == 0 && self.summary is None,
            Some(b) => {
                &&& b.0 <= b.1
                &&& self.elems().contains(b.1 as nat)
                &&& forall|e: nat| self.elems().contains(e) ==> b.0 as nat <= e && e <= b.1 as nat
                &&& !self.cluster_has(b.0 as nat)
            },
        }
        &&& forall|c: int|
            #![trigger self.clusters@[c]]
            0 <= c < self.clusters@.len() && self.clusters@[c] is Some ==> self.cluster_wf(c)
        &&& match self.summary {
            None => true,
            Some(s) => s.wf() && s.max_element == self.cluster_size,
        }
        &&& forall|c: nat|
            #![trigger self.summary_has(c)]
            #![trigger self.cluster_nonempty(c)]
            self.summary_has(c) <==> self.cluster_nonempty(c)
    }

    /// The largest value this tree accepts.
    pub closed spec fn universe_max(self) -> nat {
        self.max_element as nat
    }
}

impl View for VebTree {
    type V = Set<nat>;

    closed spec fn view(&self) -> Set<nat> {
        self.elems()
    }
}

/// Integer square root: the largest `r` with `r * r <= n`.
fn isqrt(n: usize) -> (r: usize)
    ensures
        is_isqrt(r as int, n as int),
{
    let mut lo: usize = 0;
    let mut hi: usize = if n < 4294967295 {
        n
    } else {
        4294967295
    };
    proof {
        assert((hi as int + 1) * (hi as int + 1) > n as int) by (nonlinear_arith)
            requires
                hi as int == n as int && n as int <= 4294967295 || hi as int == 4294967295
                    && n as int <= usize::MAX as int,
                usize::MAX as int <= 0xffff_ffff_ffff_ffff,
        ;
    }
    while lo < hi
        invariant
            lo <= hi,
            hi <= 4294967295,
            (lo as int) * (lo as int) <= n as int,
            (n as int) < (hi as int + 1) * (hi as int + 1),
        decreases hi - lo,
    {
        let mid = lo + (hi - lo) / 2 + 1;
        if mid <= n / mid {
            proof {
                lemma_fundamental_div_mod(n as int, mid as int);
                assert((mid as int) * (mid as int) <= n as int) by (nonlinear_arith)
                    requires
                        mid as int <= (n as int) / (mid as int),
                        n as int == (mid as int) * ((n as int) / (mid as int)) + (n as int) % (
                        mid as int),
                        (n as int) % (mid as int) >= 0,
                        mid as int >= 1,
                ;
            }
            lo = mid;
        } else {
            proof {
                lemma_fundamental_div_mod(n as int, mid as int);
                assert((n as int) < (mid as int) * (mid as int)) by (nonlinear_arith)
                    requires
                        mid as int > (n as int) / (mid as int),
                        n as int == (mid as int) * ((n as int) / (mid as int)) + (n as int) % (
                        mid as int),
                        (n as int) % (mid as int) < mid as int,
                        mid as int >= 1,
                ;
            }
            hi = mid - 1;
        }
    }
    lo
}

impl VebTree {
    /// An empty node over the universe `{0, ..., max_element}`.
    fn empty_node(max_element: usize) -> (t: VebTree)
        requires
            max_element >= 1,
        ensures
            t.wf(),
            t.max_element == max_element,
            t.bounds is None,
            t@ == Set::<nat>::empty(),
    {
        let cluster_size = isqrt(max_element);
        let t = VebTree {
            max_element,
            cluster_size,
            bounds: None,
            summary: None,
            clusters: Vec::new(),
        };
        proof {
            assert(t.wf());
            assert(t.elems() =~= Set::<nat>::empty());
        }
        t
    }

    /// Build an empty tree able to hold the values `0 ..= max_element`.
    ///
    /// A tree for an empty universe cannot be built: `new(0)` reports
    /// `InvalidCapacity` (the degenerate cluster width would be zero).
    pub fn new(max_element: usize) -> (r: Result<VebTree, VebError>)
        ensures
            match r {
                Ok(t) => {
                    &&& max_element >= 1
                    &&& t.wf()
                    &&& t.universe_max() == max_element as nat
                    &&& t@ == Set::<nat>::empty()
                },
                Err(e) => max_element == 0 && e == VebError::InvalidCapacity,
            },
    {
        if max_element == 0 {
            Err(VebError::InvalidCapacity)
        } else {
            Ok(Self::empty_node(max_element))
        }
    }

    /// The tree holds no values.
    pub fn is_empty(&self) -> (r: bool)
        requires
            self.wf(),
        ensures
            r <==> self@ == Set::<nat>::empty(),
    {
        proof {
            match self.bounds {
                None => {
                    assert(self.elems() =~= Set::<nat>::empty());
                },
                Some(b) => {
                    assert(self.has(b.0 as nat));
                    assert(self.elems().contains(b.0 as nat));
                },
            }
        }
        self.bounds.is_none()
    }
}

/// A positive cluster width splits `e` into the digits that recompose to it.
proof fn lemma_split(e: nat, cs: nat)
    requires
        cs >= 1,
    ensures
        e == (e / cs) * cs + (e % cs),
        e % cs < cs,
{
    lemma_fundamental_div_mod(e as int, cs as int);
}

/// Splitting the recomposition `c * cs + l` returns the digits `c` and `l`.
proof fn lemma_join(c: nat, l: nat, cs: nat)
    requires
        cs >= 1,
        l < cs,
    ensures
        (c * cs + l) / cs == c,
        (c * cs + l) % cs == l,
{
    lemma_fundamental_div_mod_converse((c * cs + l) as int, cs as int, c as int, l as int);
}

/// Values in a lower cluster are smaller than values in a higher cluster.
proof fn lemma_cluster_order(c1: nat, l1: nat, c2: nat, l2: nat, cs: nat)
    requires
        l1 < cs,
        c1 < c2,
    ensures
        c1 * cs + l1 < c2 * cs + l2,
{
    assert(c1 * cs + l1 < c2 * cs + l2) by (nonlinear_arith)
        requires
            l1 < cs,
            c1 < c2,
    ;
}

impl VebTree {
    /// A well-formed node has a positive cluster width.
    proof fn lemma_cs_pos(self)
        requires
            self.wf(),
        ensures
            self.cluster_size >= 1,
    {
        if self.cluster_size == 0 {
            assert((self.max_element as int) < (0 + 1) * (0 + 1));
        }
    }

    /// `value` is stored in the tree. Read-only.
    pub fn contains(&self, value: usize) -> (r: bool)
        requires
            self.wf(),
        ensures
            r == self@.contains(value as nat),
        decreases *self,
    {
        proof {
            assert(self@.contains(value as nat) == self.has(value as nat));
        }
        match self.bounds {
            None => false,
            Some((mn, mx)) => {
                if value == mn || value == mx {
                    proof {
                        assert(self.has(mx as nat));
                    }
                    true
                } else {
                    proof {
                        self.lemma_cs_pos();
                    }
                    let c = value / self.cluster_size;
                    let l = value % self.cluster_size;
                    if c < self.clusters.len() {
                        match &self.clusters[c] {
                            Some(ch) => {
                                proof {
                                    assert(self.clusters@[c as int] is Some);
                                    assert(self.cluster_wf(c as int));
                                    vstd::seq::axiom_seq_index_decreases(self.clusters@, c as int);
                                }
                                ch.contains(l)
                            },
                            None => false,
                        }
                    } else {
                        false
                    }
                }
            },
        }
    }
}

impl VebTree {
    /// Membership in the view is membership in the node.
    proof fn lemma_elems_is_has(self, e: nat)
        ensures
            self.elems().contains(e) == self.has(e),
    {
    }

    /// A node holding exactly the value `seed`, over `{0, ..., max_element}`.
    fn singleton_node(max_element: usize, seed: usize) -> (t: VebTree)
        requires
            max_element >= 1,
        ensures
            t.wf(),
            t.max_element == max_element,
            t.bounds is Some,
            forall|e: nat| t.elems().contains(e) <==> e == seed as nat,
    {
        let mut t = Self::empty_node(max_element);
        t.bounds = Some((seed, seed));
        proof {
            assert(t.clusters@.len() == 0);
            assert(!t.cluster_has(seed as nat));
            assert forall|e: nat| t.elems().contains(e) <==> e == seed as nat by {
                t.lemma_elems_is_has(e);
                assert(!t.cluster_has(e));
            }
            assert(t.elems().contains(seed as nat));
            assert(t.wf());
        }
        t
    }

    /// Insert `value`, with no range restriction; the recursive worker shared
    /// by every level of the tree.
    fn insert_inner(&mut self, value: usize)
        requires
            old(self).wf(),
        ensures
            final(self).wf(),
            final(self).elems() == old(self).elems().insert(value as nat),
            final(self).max_element == old(self).max_element,
            final(self).cluster_size == old(self).cluster_size,
        decreases *old(self),
    {
        let ghost pre = *old(self);
        match self.bounds {
            None => {
                self.bounds = Some((value, value));
                proof {
                    assert(pre.clusters@.len() == 0);
                    assert(self.clusters@.len() == 0);
                    assert(!self.cluster_has(value as nat));
                    assert forall|e: nat|
                        self.elems().contains(e) <==> (pre.elems().contains(e) || e
                            == value as nat) by {
                        self.lemma_elems_is_has(e);
                        pre.lemma_elems_is_has(e);
                        assert(!self.cluster_has(e));
                    }
                    assert(self.elems() =~= pre.elems().insert(value as nat));
                    assert(self.elems().contains(value as nat));
                    assert(self.wf());
                }
            },
            Some((mn0, mx0)) => {
                if value == mn0 || value == mx0 {
                    proof {
                        assert(self.has(value as nat));
                        self.lemma_elems_is_has(value as nat);
                        assert(self.elems() =~= pre.elems().insert(value as nat));
                    }
                    return;
                }
                // The minimum never sinks into a cluster: a smaller value takes
                // its place and the displaced minimum is routed instead.
                let to_insert: usize;
                if value < mn0 {
                    self.bounds = Some((value, mx0));
                    to_insert = mn0;
                } else {
                    if value > mx0 {
                        self.bounds = Some((mn0, value));
                    }
                    to_insert = value;
                }
                proof {
                    pre.lemma_cs_pos();
                }
                let cs = self.cluster_size;
                let high = to_insert / cs;
                let low = to_insert % cs;
                let ghost cs_n = cs as nat;
                let ghost ti = to_insert as nat;
                let ghost hi_n = ti / cs_n;
                let ghost lo_n = ti % cs_n;
                let ghost bounds1 = self.bounds;
                proof {
                    lemma_split(ti, cs_n);
                }
                while self.clusters.len() <= high
                    invariant
                        self.max_element == pre.max_element,
                        self.cluster_size == pre.cluster_size,
                        self.bounds == bounds1,
                        self.summary == pre.summary,
                        self.clusters@.len() >= pre.clusters@.len(),
                        forall|i: int|
                            0 <= i < pre.clusters@.len() ==> self.clusters@[i] == pre.clusters@[i],
                        forall|i: int|
                            pre.clusters@.len() <= i < self.clusters@.len() ==> self.clusters@[i]
                                is None,
                    decreases high + 1 - self.clusters@.len(),
                {
                    self.clusters.push(None);
                }
                let ghost padded = self.clusters@;
                let taken: Option<Box<VebTree>> = self.clusters[high].take();
                proof {
                    assert(taken == padded[high as int]);
                }
                let was_empty: bool;
                let newchild: Box<VebTree>;
                match taken {
                    None => {
                        newchild = Box::new(Self::singleton_node(cs, low));
                        was_empty = true;
                    },
                    Some(mut child) => {
                        was_empty = child.bounds.is_none();
                        proof {
                            assert(high < pre.clusters@.len());
                            assert(pre.clusters@[high as int] == Some(child));
                            assert(pre.cluster_wf(high as int));
                            vstd::seq::axiom_seq_index_decreases(pre.clusters@, high as int);
                            assert(decreases_to!(pre => pre.clusters));
                            assert(decreases_to!(pre.clusters => pre.clusters@));
                        }
                        (&mut *child).insert_inner(low);
                        newchild = child;
                    },
                }
                let ghost nc = *newchild;
                self.clusters[high] = Some(newchild);
                proof {
                    // the rebuilt cluster holds the old contents plus `low`
                    assert(nc.wf());
                    assert(nc.max_element == cs);
                    assert(nc.bounds is Some) by {
                        if nc.bounds is None {
                            assert(nc.clusters@.len() == 0);
                            assert(!nc.has(lo_n));
                            assert(nc.elems().contains(lo_n));
                            nc.lemma_elems_is_has(lo_n);
                        }
                    };
                    assert(forall|l: nat|
                        nc.elems().contains(l) <==> (Self::opt_elem(padded[high as int], l) || l
                            == lo_n));
                    assert(forall|l: nat| nc.elems().contains(l) ==> l < cs_n);
                    assert(self.clusters@ =~= padded.update(high as int, Some(newchild)));
                }
                if was_empty {
                    let taken_sm = self.summary.take();
                    match taken_sm {
                        None => {
                            self.summary = Some(Box::new(Self::singleton_node(cs, high)));
                        },
                        Some(mut sm) => {
                            proof {
                                assert(pre.summary == Some(sm));
                            }
                            (&mut *sm).insert_inner(high);
                            self.summary = Some(sm);
                        },
                    }
                }
                proof {
                    self.lemma_insert_done(pre, value as nat, ti, was_empty, padded);
                }
            },
        }
    }

    /// What an optional cluster stores.
    spec fn opt_elem(o: Option<Box<VebTree>>, l: nat) -> bool {
        o is Some && o->Some_0.elems().contains(l)
    }

    /// The minimum of a non-empty node, as a number.
    spec fn bmin(self) -> nat {
        self.bounds->Some_0.0 as nat
    }

    /// The maximum of a non-empty node, as a number.
    spec fn bmax(self) -> nat {
        self.bounds->Some_0.1 as nat
    }

    /// Closing argument of `insert_inner`: from the recorded surgery on one
    /// cluster slot and on the summary, the rebuilt node is well formed and
    /// stores exactly the old values plus `value`.
    proof fn lemma_insert_done(
        self,
        pre: VebTree,
        value: nat,
        ti: nat,
        was_empty: bool,
        padded: Seq<Option<Box<VebTree>>>,
    )
        requires
            pre.wf(),
            pre.bounds is Some,
            value != pre.bmin(),
            value != pre.bmax(),
            ti == if value < pre.bmin() {
                pre.bmin()
            } else {
                value
            },
            self.max_element == pre.max_element,
            self.cluster_size == pre.cluster_size,
            self.bounds is Some,
            self.bmin() == if value < pre.bmin() {
                value
            } else {
                pre.bmin()
            },
            self.bmax() == if value > pre.bmax() {
                value
            } else {
                pre.bmax()
            },
            // the padded cluster sequence extends the old one with empty slots
            padded.len() >= pre.clusters@.len(),
            padded.len() > ti / pre.cluster_size as nat,
            forall|i: int| 0 <= i < pre.clusters@.len() ==> padded[i] == pre.clusters@[i],
            forall|i: int| pre.clusters@.len() <= i < padded.len() ==> padded[i] is None,
            // the new cluster sequence only replaces the slot of `ti`
            self.clusters@.len() == padded.len(),
            self.clusters@[(ti / pre.cluster_size as nat) as int] is Some,
            forall|i: int|
                0 <= i < padded.len() && i != (ti / pre.cluster_size as nat) as int
                    ==> self.clusters@[i] == padded[i],
            // the rebuilt cluster holds the old contents plus the low digit
            ({
                let hi = (ti / pre.cluster_size as nat) as int;
                let lo = ti % pre.cluster_size as nat;
                let nc = self.clusters@[hi]->Some_0;
                &&& nc.wf()
                &&& nc.max_element == pre.cluster_size
                &&& nc.bounds is Some
                &&& forall|l: nat|
                    nc.elems().contains(l) <==> (Self::opt_elem(padded[hi], l) || l == lo)
                &&& forall|l: nat| nc.elems().contains(l) ==> l < pre.cluster_size as nat
            }),
            was_empty == !({
                let hi = (ti / pre.cluster_size as nat) as int;
                padded[hi] is Some && padded[hi]->Some_0.bounds is Some
            }),
            // the summary gained the high digit when the slot had been empty
            was_empty ==> ({
                let hi = ti / pre.cluster_size as nat;
                let sm = self.summary->Some_0;
                &&& self.summary is Some
                &&& sm.wf()
                &&& sm.max_element == pre.cluster_size
                &&& forall|x: nat|
                    sm.elems().contains(x) <==> (Self::opt_elem(pre.summary, x) || x == hi)
            }),
            !was_empty ==> self.summary == pre.summary,
        ensures
            self.wf(),
            self.elems() == pre.elems().insert(value),
    {
        let cs_n = pre.cluster_size as nat;
        let hi = ti / cs_n;
        let lo = ti % cs_n;
        let mn0 = pre.bmin();
        let mx0 = pre.bmax();
        let mn1 = self.bmin();
        let mx1 = self.bmax();
        let nc = self.clusters@[hi as int]->Some_0;
        pre.lemma_cs_pos();
        lemma_split(ti, cs_n);
        assert(ti == hi * cs_n + lo && lo < cs_n);
        // ti is stored in the rebuilt slot and nowhere else new
        assert forall|e: nat|
            self.elems().contains(e) <==> (pre.elems().contains(e) || e == value) by {
            self.lemma_elems_is_has(e);
            pre.lemma_elems_is_has(e);
            lemma_split(e, cs_n);
            let ce = e / cs_n;
            let le = e % cs_n;
            assert(self.has(e) == (e == mn1 || self.cluster_has(e)));
            assert(pre.has(e) == (e == mn0 || pre.cluster_has(e)));
            if ce == hi {
                nc.lemma_elems_is_has(le);
                if padded[ce as int] is Some {
                    padded[ce as int]->Some_0.lemma_elems_is_has(le);
                }
                if le == lo {
                    assert(e == ti);
                } else {
                    assert(e != ti);
                }
                if hi < pre.clusters@.len() {
                    assert(padded[hi as int] == pre.clusters@[hi as int]);
                } else {
                    assert(padded[hi as int] is None);
                    assert(!pre.cluster_has(e));
                }
                assert(self.cluster_has(e) == nc.has(le));
                assert(nc.has(le) <==> (Self::opt_elem(padded[hi as int], le) || le == lo));
            } else {
                // untouched slot: same contents on both sides
                if 0 <= ce && ce < padded.len() {
                    assert(self.clusters@[ce as int] == padded[ce as int]);
                    if ce < pre.clusters@.len() {
                        assert(padded[ce as int] == pre.clusters@[ce as int]);
                    } else {
                        assert(padded[ce as int] is None);
                    }
                } else {
                    assert(!(ce < self.clusters@.len()));
                    assert(!(ce < pre.clusters@.len()));
                }
                assert(self.cluster_has(e) == pre.cluster_has(e));
                assert(e != ti);
            }
            if value < mn0 {
                assert(ti == mn0 && mn1 == value);
            } else {
                assert(ti == value && mn1 == mn0);
            }
            if pre.elems().contains(e) {
                assert(mn0 <= e && e <= mx0);
            }
        }
        assert(self.elems() =~= pre.elems().insert(value));
        // the new extremes really bound the new contents
        assert(pre.elems().contains(mx0));
        assert(self.elems().contains(mx1));
        assert forall|e: nat| self.elems().contains(e) implies mn1 <= e && e <= mx1 by {
            if pre.elems().contains(e) {
                assert(mn0 <= e && e <= mx0);
            }
        }
        assert(mn1 <= mx1);
        // the new minimum still is not buried in a cluster
        assert(mn1 < ti);
        assert(!self.cluster_has(mn1)) by {
            self.lemma_elems_is_has(mn1);
            pre.lemma_elems_is_has(mn1);
            lemma_split(mn1, cs_n);
            let cm = mn1 / cs_n;
            let lm = mn1 % cs_n;
            if self.cluster_has(mn1) {
                if cm == hi {
                    nc.lemma_elems_is_has(lm);
                    if padded[cm as int] is Some {
                        padded[cm as int]->Some_0.lemma_elems_is_has(lm);
                    }
                    if cm < pre.clusters@.len() {
                        assert(padded[cm as int] == pre.clusters@[cm as int]);
                    }
                    assert(pre.cluster_has(mn1) || mn1 == ti);
                } else {
                    if 0 <= cm && cm < padded.len() {
                        assert(self.clusters@[cm as int] == padded[cm as int]);
                        if cm < pre.clusters@.len() {
                            assert(padded[cm as int] == pre.clusters@[cm as int]);
                        } else {
                            assert(padded[cm as int] is None);
                        }
                    }
                    assert(pre.cluster_has(mn1));
                }
                if pre.cluster_has(mn1) {
                    assert(pre.has(mn1));
                    assert(pre.elems().contains(mn1));
                    assert(mn0 <= mn1);
                    assert(mn1 == mn0);
                    assert(!pre.cluster_has(mn0));
                }
            }
        }
        // every occupied slot still holds a well-formed cluster
        assert forall|c: int|
            #![trigger self.clusters@[c]]
            0 <= c < self.clusters@.len() && self.clusters@[c] is Some implies self.cluster_wf(
            c,
        ) by {
            if c == hi as int {
                assert forall|l: nat| nc.elems().contains(l) implies l < self.cluster_size as nat by {}
                assert(self.cluster_wf(c));
            } else {
                assert(self.clusters@[c] == padded[c]);
                if c < pre.clusters@.len() {
                    assert(padded[c] == pre.clusters@[c]);
                    assert(pre.cluster_wf(c));
                    assert(self.cluster_wf(c));
                } else {
                    assert(padded[c] is None);
                }
            }
        }
        // the summary tracks exactly the occupied slots
        assert forall|c: nat|
            #![trigger self.summary_has(c)]
            #![trigger self.cluster_nonempty(c)]
            self.summary_has(c) <==> self.cluster_nonempty(c) by {
            if self.summary is Some {
                self.summary->Some_0.lemma_elems_is_has(c);
            }
            if pre.summary is Some {
                pre.summary->Some_0.lemma_elems_is_has(c);
            }
            assert(pre.summary_has(c) <==> pre.cluster_nonempty(c));
            if c == hi {
                assert(self.cluster_nonempty(c));
                if !was_empty {
                    assert(pre.cluster_nonempty(hi));
                }
            } else {
                if 0 <= c && c < padded.len() {
                    assert(self.clusters@[c as int] == padded[c as int]);
                    if c < pre.clusters@.len() {
                        assert(padded[c as int] == pre.clusters@[c as int]);
                    } else {
                        assert(padded[c as int] is None);
                    }
                }
                assert(self.cluster_nonempty(c) == pre.cluster_nonempty(c));
            }
        }
        assert(self.wf());
    }
}

/// `r` is the least element of `s` strictly greater than `v`, or `None` if
/// `s` holds nothing above `v`.
pub open spec fn is_successor_of(s: Set<nat>, v: nat, r: Option<nat>) -> bool {
    match r {
        Some(x) => s.contains(x) && x > v && (forall|e: nat| s.contains(e) && e > v ==> x <= e),
        None => forall|e: nat| s.contains(e) ==> e <= v,
    }
}

/// An optional machine integer, seen as an optional number.
pub open spec fn opt_nat(r: Option<usize>) -> Option<nat> {
    match r {
        Some(x) => Some(x as nat),
        None => None,
    }
}

impl VebTree {
    /// Insert `value` into the tree.
    ///
    /// A value beyond the universe is rejected with `InvalidValue` and leaves
    /// the tree untouched; every accepted value joins the stored set.
    pub fn insert(&mut self, value: usize) -> (r: Result<(), VebError>)
        requires
            old(self).wf(),
        ensures
            final(self).wf(),
            final(self).universe_max() == old(self).universe_max(),
            match r {
                Ok(_) => value as nat <= old(self).universe_max() && final(self)@ == old(self)@.insert(
                    value as nat,
                ),
                Err(e) => {
                    &&& value as nat > old(self).universe_max()
                    &&& e == VebError::InvalidValue
                    &&& *final(self) == *old(self)
                },
            },
    {
        if value > self.max_element {
            return Err(VebError::InvalidValue);
        }
        self.insert_inner(value);
        Ok(())
    }

    /// The least stored value strictly greater than `value`, if any. Read-only.
    pub fn find_next(&self, value: usize) -> (r: Option<usize>)
        requires
            self.wf(),
        ensures
            is_successor_of(self@, value as nat, opt_nat(r)),
        decreases *self,
    {
        match self.bounds {
            None => {
                proof {
                    assert forall|e: nat| self@.contains(e) implies e <= value as nat by {
                        self.lemma_elems_is_has(e);
                    }
                }
                None
            },
            Some((mn, mx)) => {
                if value < mn {
                    proof {
                        assert(self.has(mn as nat));
                        self.lemma_elems_is_has(mn as nat);
                    }
                    return Some(mn);
                }
                proof {
                    self.lemma_cs_pos();
                    lemma_split(value as nat, self.cluster_size as nat);
                }
                let cs = self.cluster_size;
                let c = value / cs;
                let l = value % cs;
                // a successor inside the cluster of `value` beats every later cluster
                if c < self.clusters.len() {
                    match &self.clusters[c] {
                        Some(ch) => {
                            match ch.bounds {
                                Some((_cmn, cmx)) => {
                                    if l < cmx {
                                        proof {
                                            assert(self.clusters@[c as int] is Some);
                                            assert(self.cluster_wf(c as int));
                                            assert(ch.has(cmx as nat));
                                            ch.lemma_elems_is_has(cmx as nat);
                                            vstd::seq::axiom_seq_index_decreases(
                                                self.clusters@,
                                                c as int,
                                            );
                                        }
                                        match ch.find_next(l) {
                                            Some(l2) => {
                                                proof {
                                                    self.lemma_in_cluster_result(
                                                        value as nat,
                                                        c as nat,
                                                        l as nat,
                                                        l2 as nat,
                                                    );
                                                }
                                                return Some(c * cs + l2);
                                            },
                                            None => {
                                                proof {
                                                    assert(ch@.contains(cmx as nat));
                                                    assert(false);
                                                }
                                                return None;
                                            },
                                        }
                                    }
                                },
                                None => {},
                            }
                        },
                        None => {},
                    }
                }
                // nothing above `value` shares its cluster: consult the summary
                proof {
                    assert(Self::no_tail(self.clusters@, c as nat, l as nat, self.cluster_size as nat)) by {
                        if (c as int) < self.clusters@.len() && self.clusters@[c as int] is Some {
                            assert(self.cluster_wf(c as int));
                            let chg = self.clusters@[c as int]->Some_0;
                            assert forall|lp: nat| chg.elems().contains(lp) implies lp
                                <= l as nat by {
                                chg.lemma_elems_is_has(lp);
                                assert(lp <= chg.bmax());
                            }
                        }
                    };
                }
                match &self.summary {
                    None => {
                        proof {
                            assert forall|x: nat| self.cluster_nonempty(x) implies x
                                <= c as nat by {
                                assert(self.summary_has(x));
                            }
                            self.lemma_no_next_result(value as nat, c as nat, l as nat);
                        }
                        None
                    },
                    Some(sm) => {
                        match sm.find_next(c) {
                            None => {
                                proof {
                                    assert forall|x: nat| self.cluster_nonempty(x) implies x
                                        <= c as nat by {
                                        assert(self.summary_has(x));
                                        sm.lemma_elems_is_has(x);
                                        assert(sm.elems().contains(x));
                                    }
                                    self.lemma_no_next_result(value as nat, c as nat, l as nat);
                                }
                                None
                            },
                            Some(c2) => {
                                proof {
                                    sm.lemma_elems_is_has(c2 as nat);
                                    assert(self.summary_has(c2 as nat));
                                    assert(self.cluster_nonempty(c2 as nat));
                                }
                                match &self.clusters[c2] {
                                    Some(ch2) => {
                                        match ch2.bounds {
                                            Some((m2, _mx2)) => {
                                                proof {
                                                    self.lemma_next_cluster_result(
                                                        value as nat,
                                                        c as nat,
                                                        l as nat,
                                                        c2 as nat,
                                                        m2 as nat,
                                                    );
                                                }
                                                Some(c2 * cs + m2)
                                            },
                                            None => {
                                                proof {
                                                    assert(false);
                                                }
                                                None
                                            },
                                        }
                                    },
                                    None => {
                                        proof {
                                            assert(false);
                                        }
                                        None
                                    },
                                }
                            },
                        }
                    },
                }
            },
        }
    }

    /// No value above the offset `l` sits in cluster `c` of `clusters`.
    spec fn no_tail(clusters: Seq<Option<Box<VebTree>>>, c: nat, l: nat, cs: nat) -> bool {
        (c as int) < clusters.len() && clusters[c as int] is Some ==> forall|lp: nat|
            clusters[c as int]->Some_0.elems().contains(lp) ==> lp <= l
    }

    /// Any stored value above `v` lies in a cluster at or after the one of `v`.
    proof fn lemma_elem_above(self, v: nat, c: nat, l: nat, e: nat)
        requires
            self.wf(),
            self.bounds is Some,
            self.bmin() <= v,
            c == v / self.cluster_size as nat,
            l == v % self.cluster_size as nat,
            self.elems().contains(e),
            e > v,
        ensures
            self.cluster_nonempty(e / self.cluster_size as nat),
            self.clusters@[(e / self.cluster_size as nat) as int]->Some_0.elems().contains(
                e % self.cluster_size as nat,
            ),
            (e % self.cluster_size as nat) < self.cluster_size as nat,
            e == (e / self.cluster_size as nat) * (self.cluster_size as nat) + (
            e % self.cluster_size as nat),
            v == c * (self.cluster_size as nat) + l,
            l < self.cluster_size as nat,
            e / self.cluster_size as nat >= c,
            e / self.cluster_size as nat == c ==> e % self.cluster_size as nat > l,
    {
        let cs = self.cluster_size as nat;
        self.lemma_cs_pos();
        self.lemma_elems_is_has(e);
        lemma_split(e, cs);
        lemma_split(v, cs);
        let ce = e / cs;
        let le = e % cs;
        assert(self.cluster_has(e));
        assert(self.clusters@[ce as int] is Some);
        let chx = self.clusters@[ce as int]->Some_0;
        assert(chx.has(le));
        chx.lemma_elems_is_has(le);
        assert(self.cluster_wf(ce as int));
        assert(le < cs);
        assert(chx.bounds is Some);
        if ce < c {
            lemma_cluster_order(ce, le, c, l, cs);
            assert(false);
        }
    }

    /// An answer found inside the query's own cluster is the successor.
    proof fn lemma_in_cluster_result(self, v: nat, c: nat, l: nat, l2: nat)
        requires
            self.wf(),
            self.bounds is Some,
            self.bmin() <= v,
            c == v / self.cluster_size as nat,
            l == v % self.cluster_size as nat,
            (c as int) < self.clusters@.len(),
            self.clusters@[c as int] is Some,
            is_successor_of(self.clusters@[c as int]->Some_0.elems(), l, Some(l2)),
        ensures
            is_successor_of(self.elems(), v, Some(c * (self.cluster_size as nat) + l2)),
            c * (self.cluster_size as nat) + l2 <= self.bmax(),
    {
        let cs = self.cluster_size as nat;
        self.lemma_cs_pos();
        lemma_split(v, cs);
        let ch = self.clusters@[c as int]->Some_0;
        assert(ch.elems().contains(l2));
        assert(self.cluster_wf(c as int));
        assert(l2 < cs);
        lemma_join(c, l2, cs);
        let x = c * cs + l2;
        ch.lemma_elems_is_has(l2);
        assert(self.cluster_has(x));
        assert(self.has(x));
        self.lemma_elems_is_has(x);
        assert(x <= self.bmax());
        assert(x > v);
        assert forall|e: nat| self.elems().contains(e) && e > v implies x <= e by {
            self.lemma_elem_above(v, c, l, e);
            let ce = e / cs;
            let le = e % cs;
            if ce == c {
                assert(ch.elems().contains(le));
                assert(l2 <= le);
            } else {
                lemma_cluster_order(c, l2, ce, le, cs);
            }
        }
    }

    /// With the query's cluster exhausted and no occupied cluster after it,
    /// nothing above the query is stored.
    proof fn lemma_no_next_result(self, v: nat, c: nat, l: nat)
        requires
            self.wf(),
            self.bounds is Some,
            self.bmin() <= v,
            c == v / self.cluster_size as nat,
            l == v % self.cluster_size as nat,
            Self::no_tail(self.clusters@, c, l, self.cluster_size as nat),
            forall|x: nat| self.cluster_nonempty(x) ==> x <= c,
        ensures
            is_successor_of(self.elems(), v, None),
    {
        let cs = self.cluster_size as nat;
        assert forall|e: nat| self.elems().contains(e) implies e <= v by {
            if e > v {
                self.lemma_elem_above(v, c, l, e);
                let ce = e / cs;
                let le = e % cs;
                assert(ce <= c);
                assert(ce == c);
                assert(self.clusters@[c as int]->Some_0.elems().contains(le));
                assert(le <= l);
                assert(false);
            }
        }
    }

    /// The minimum of the next occupied cluster is the successor.
    proof fn lemma_next_cluster_result(self, v: nat, c: nat, l: nat, c2: nat, m2: nat)
        requires
            self.wf(),
            self.bounds is Some,
            self.bmin() <= v,
            c == v / self.cluster_size as nat,
            l == v % self.cluster_size as nat,
            Self::no_tail(self.clusters@, c, l, self.cluster_size as nat),
            self.summary is Some,
            is_successor_of(self.summary->Some_0.elems(), c, Some(c2)),
            self.cluster_nonempty(c2),
            self.clusters@[c2 as int]->Some_0.bounds is Some,
            m2 == self.clusters@[c2 as int]->Some_0.bmin(),
        ensures
            is_successor_of(self.elems(), v, Some(c2 * (self.cluster_size as nat) + m2)),
            c2 * (self.cluster_size as nat) + m2 <= self.bmax(),
    {
        let cs = self.cluster_size as nat;
        self.lemma_cs_pos();
        lemma_split(v, cs);
        let ch2 = self.clusters@[c2 as int]->Some_0;
        assert(ch2.has(m2));
        ch2.lemma_elems_is_has(m2);
        assert(self.cluster_wf(c2 as int));
        assert(m2 < cs);
        lemma_join(c2, m2, cs);
        let x = c2 * cs + m2;
        assert(self.cluster_has(x));
        assert(self.has(x));
        self.lemma_elems_is_has(x);
        assert(x <= self.bmax());
        lemma_cluster_order(c, l, c2, m2, cs);
        assert(x > v);
        assert forall|e: nat| self.elems().contains(e) && e > v implies x <= e by {
            self.lemma_elem_above(v, c, l, e);
            let ce = e / cs;
            let le = e % cs;
            if ce == c {
                assert(self.clusters@[c as int]->Some_0.elems().contains(le));
                assert(le <= l);
                assert(false);
            } else {
                assert(self.summary_has(ce));
                self.summary->Some_0.lemma_elems_is_has(ce);
                assert(self.summary->Some_0.elems().contains(ce));
                assert(c2 <= ce);
                if ce == c2 {
                    assert(ch2.elems().contains(le));
                    assert(m2 <= le);
                } else {
                    lemma_cluster_order(c2, m2, ce, le, cs);
                }
            }
        }
    }
}

impl VebTree {
    /// The smallest stored value, if any. Read-only.
    pub fn min(&self) -> (r: Option<usize>)
        requires
            self.wf(),
        ensures
            match r {
                Some(m) => self@.contains(m as nat) && forall|e: nat|
                    self@.contains(e) ==> m as nat <= e,
                None => self@ == Set::<nat>::empty(),
            },
    {
        match self.bounds {
            None => {
                proof {
                    assert forall|e: nat| !self.elems().contains(e) by {
                        self.lemma_elems_is_has(e);
                    }
                    assert(self.elems() =~= Set::<nat>::empty());
                }
                None
            },
            Some((mn, _mx)) => {
                proof {
                    assert(self.has(mn as nat));
                    self.lemma_elems_is_has(mn as nat);
                }
                Some(mn)
            },
        }
    }

    /// The largest stored value, if any. Read-only.
    pub fn max(&self) -> (r: Option<usize>)
        requires
            self.wf(),
        ensures
            match r {
                Some(m) => self@.contains(m as nat) && forall|e: nat|
                    self@.contains(e) ==> e <= m as nat,
                None => self@ == Set::<nat>::empty(),
            },
    {
        match self.bounds {
            None => {
                proof {
                    assert forall|e: nat| !self.elems().contains(e) by {
                        self.lemma_elems_is_has(e);
                    }
                    assert(self.elems() =~= Set::<nat>::empty());
                }
                None
            },
            Some((_mn, mx)) => Some(mx),
        }
    }
}

/// Two successor answers for the same set and query agree: the answer is a
/// function of the stored set alone.
pub proof fn lemma_successor_unique(s: Set<nat>, v: nat, r1: Option<nat>, r2: Option<nat>)
    requires
        is_successor_of(s, v, r1),
        is_successor_of(s, v, r2),
    ensures
        r1 == r2,
{
    match (r1, r2) {
        (Some(x1), Some(x2)) => {
            assert(s.contains(x1));
            assert(s.contains(x2));
            assert(x1 <= x2 && x2 <= x1);
        },
        (Some(x1), None) => {
            assert(s.contains(x1));
        },
        (None, Some(x2)) => {
            assert(s.contains(x2));
        },
        (None, None) => {},
    }
}

/// A successor query on an empty tree has no answer, whatever the query.
pub proof fn lemma_successor_in_empty(v: nat, r: Option<nat>)
    requires
        is_successor_of(Set::<nat>::empty(), v, r),
    ensures
        r is None,
{
    if let Some(x) = r {
        assert(Set::<nat>::empty().contains(x));
    }
}

/// After a single value `u` lands in an otherwise empty tree, queries below
/// `u` answer `u` and queries at or above `u` answer nothing.
pub proof fn lemma_successor_in_singleton(u: nat, v: nat, r: Option<nat>)
    requires
        is_successor_of(Set::<nat>::empty().insert(u), v, r),
    ensures
        v < u ==> r == Some(u),
        v >= u ==> r is None,
{
    let s = Set::<nat>::empty().insert(u);
    assert(s.contains(u));
    match r {
        Some(x) => {
            assert(s.contains(x));
            assert(x == u);
        },
        None => {},
    }
}

/// Inserting a value twice leaves the same set as inserting it once, so
/// `contains` and `find_next` cannot tell the difference.
pub proof fn lemma_insert_idempotent(s: Set<nat>, v: nat)
    ensures
        s.insert(v).insert(v) == s.insert(v),
{
    assert(s.insert(v).insert(v) =~= s.insert(v));
}

/// Each successor step lands on a stored value, moves strictly upward, and
/// skips nothing in between: iterating from below the minimum therefore
/// visits every stored value in increasing order exactly once.
pub proof fn lemma_successor_step(s: Set<nat>, v: nat, x: nat)
    requires
        is_successor_of(s, v, Some(x)),
    ensures
        s.contains(x),
        v < x,
        forall|e: nat| s.contains(e) ==> !(v < e && e < x),
{
}

/// The query that step `i` of a successor walk issues: the starting point
/// for the first step, afterwards the previous answer.
pub open spec fn walk_query(start: nat, q: Seq<nat>, i: int) -> nat {
    if i == 0 {
        start
    } else {
        q[i - 1]
    }
}

/// `q` lists consecutive successor answers in `s`, starting from `start`.
pub open spec fn is_successor_walk(s: Set<nat>, start: nat, q: Seq<nat>) -> bool {
    forall|i: int|
        #![trigger walk_query(start, q, i)]
        0 <= i < q.len() ==> is_successor_of(s, walk_query(start, q, i), Some(q[i]))
}

/// Along a successor walk the answers strictly increase: no value is ever
/// visited twice, and the walk lists its values in increasing order.
pub proof fn lemma_walk_increasing(s: Set<nat>, start: nat, q: Seq<nat>, i: int, j: int)
    requires
        is_successor_walk(s, start, q),
        0 <= i < j < q.len(),
    ensures
        q[i] < q[j],
    decreases j - i,
{
    assert(is_successor_of(s, walk_query(start, q, j), Some(q[j])));
    if i < j - 1 {
        lemma_walk_increasing(s, start, q, i, j - 1);
    }
}

/// A successor walk that runs until no answer is left visits every stored
/// value above its starting point; started below the minimum it therefore
/// enumerates the whole stored set.
pub proof fn lemma_walk_complete(s: Set<nat>, start: nat, q: Seq<nat>, e: nat)
    requires
        is_successor_walk(s, start, q),
        is_successor_of(
            s,
            if q.len() == 0 {
                start
            } else {
                q[q.len() - 1]
            },
            None,
        ),
        s.contains(e),
        e > start,
    ensures
        q.contains(e),
    decreases q.len(),
{
    if q.len() == 0 {
        assert(e <= start);
    } else {
        assert(walk_query(start, q, 0) == start);
        assert(is_successor_of(s, start, Some(q[0])));
        assert(q[0] <= e);
        if q[0] == e {
            assert(q.contains(e)) by {
                assert(q[0] == e);
            }
        } else {
            let q2 = q.subrange(1, q.len() as int);
            assert(is_successor_walk(s, q[0], q2)) by {
                assert forall|i: int| 0 <= i < q2.len() implies is_successor_of(
                    s,
                    walk_query(q[0], q2, i),
                    Some(q2[i]),
                ) by {
                    assert(q2[i] == q[i + 1]);
                    if i > 0 {
                        assert(q2[i - 1] == q[i]);
                    }
                    assert(is_successor_of(s, walk_query(start, q, i + 1), Some(q[i + 1])));
                }
            }
            assert(q2[q2.len() - 1] == q[q.len() - 1]);
            lemma_walk_complete(s, q[0], q2, e);
            assert(q.contains(e)) by {
                let k = choose|k: int| 0 <= k < q2.len() && q2[k] == e;
                assert(q[k + 1] == e);
            }
        }
    }
}

/// The set `{0, ..., k-1}`, the state of an increasing insertion run.
pub open spec fn run_below(k: nat) -> Set<nat> {
    Set::new(|e: nat| e < k)
}

/// Inserting `0, 1, ..., k` in increasing order: before its turn `k` is
/// absent, afterwards it is present, and the minimum and maximum of the run
/// are `0` and `k`.
pub proof fn lemma_increasing_run(k: nat)
    ensures
        !run_below(k).contains(k),
        run_below(k).insert(k) == run_below(k + 1),
        run_below(k + 1).contains(0),
        forall|e: nat| #[trigger] run_below(k + 1).contains(e) ==> e <= k,
{
    assert(run_below(k).insert(k) =~= run_below(k + 1));
}

} // verus!
