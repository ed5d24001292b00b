//! Disjoint sets of integers below a bound, with union by size and path compression.

use vstd::prelude::*;

verus! {

/// A partition of `0..n` into classes, each with a representative.
///
/// `repr` links each element to another one of its class, the representative linking to itself;
/// `size` gives the number of elements of the class of each representative. The ghost ranks
/// increase along links, which bounds the length of every chain of links.
pub struct DSU {
    repr: Vec<usize>,
    size: Vec<usize>,
    rank: Ghost<Seq<nat>>,
    max_rank: Ghost<nat>,
}

impl DSU {
    /// The number of elements.
    pub closed spec fn len(&self) -> nat {
        self.repr@.len()
    }

    /// Links stay inside the structure and go up in rank.
    pub closed spec fn links_ok(&self) -> bool {
        &&& self.size@.len() == self.repr@.len()
        &&& self.rank@.len() == self.repr@.len()
        &&& forall|x: int| 0 <= x < self.repr@.len() ==> #[trigger] self.repr@[x] < self.repr@.len()
        &&& forall|x: int| 0 <= x < self.repr@.len() && #[trigger] self.repr@[x] != x ==> self.rank@[x] < self.rank@[self.repr@[x] as int]
        &&& forall|x: int| 0 <= x < self.repr@.len() ==> #[trigger] self.rank@[x] <= self.max_rank@
    }

    /// How far the rank of `x` is below the largest rank: a bound on the number of links from
    /// `x` to its representative.
    pub closed spec fn height(&self, x: int) -> int {
        self.max_rank@ - self.rank@[x]
    }

    /// The representative of the class of `x`, reached by following links.
    pub closed spec fn root(&self, x: int) -> int
        decreases self.height(x),
        when self.links_ok() && 0 <= x < self.len()
    {
        if self.repr@[x] == x {
            x
        } else {
            self.root(self.repr@[x] as int)
        }
    }

    /// The elements of the class whose representative is `r`.
    pub closed spec fn class(&self, r: int) -> Set<int> {
        Set::new(|y: int| 0 <= y < self.repr@.len() && self.root(y) == r)
    }

    /// Well-formed: links are in order, and each representative records the size of its class.
    pub closed spec fn wf(&self) -> bool {
        &&& self.links_ok()
        &&& forall|r: int| 0 <= r < self.repr@.len() && #[trigger] self.repr@[r] == r ==> self.size@[r] == self.class(r).len()
    }

    /// Whether `x` and `y` are in the same class.
    pub open spec fn same(&self, x: int, y: int) -> bool {
        self.root(x) == self.root(y)
    }

    /// The representatives: the elements that link to themselves.
    pub closed spec fn roots(&self) -> Set<int> {
        Set::new(|r: int| 0 <= r < self.repr@.len() && self.repr@[r] == r)
    }

    /// The number of classes.
    pub closed spec fn classes(&self) -> nat {
        self.roots().len()
    }

    /// The representatives are finitely many.
    proof fn lemma_roots_finite(&self)
        ensures
            self.roots().finite(),
    {
        let full = Set::new(|y: int| 0 <= y < self.repr@.len());
        assert(full =~= vstd::set_lib::set_int_range(0, self.repr@.len() as int));
        vstd::set_lib::lemma_int_range(0, self.repr@.len() as int);
        vstd::set_lib::lemma_len_subset(self.roots(), full);
    }

    proof fn lemma_root_props(&self, x: int)
        requires
            self.links_ok(),
            0 <= x < self.repr@.len(),
        ensures
            0 <= self.root(x) < self.repr@.len(),
            self.repr@[self.root(x)] == self.root(x),
            self.root(self.root(x)) == self.root(x),
            self.root(x) != x ==> self.rank@[x] < self.rank@[self.root(x)],
            self.repr@[x] != x ==> self.root(x) == self.root(self.repr@[x] as int),
        decreases self.max_rank@ - self.rank@[x],
    {
        if self.repr@[x] != x {
            self.lemma_root_props(self.repr@[x] as int);
        }
    }

    /// The classes are finite and lie below the number of elements.
    proof fn lemma_class_finite(&self, r: int)
        requires
            self.links_ok(),
        ensures
            self.class(r).finite(),
            self.class(r).len() <= self.repr@.len(),
    {
        let full = Set::new(|y: int| 0 <= y < self.repr@.len());
        assert(full =~= vstd::set_lib::set_int_range(0, self.repr@.len() as int));
        vstd::set_lib::lemma_int_range(0, self.repr@.len() as int);
        vstd::set_lib::lemma_len_subset(self.class(r), full);
    }

    /// Creates `n` singleton classes.
    pub fn new(n: usize) -> (d: DSU)
        ensures
            d.wf(),
            d.len() == n,
            forall|x: int, y: int| 0 <= x < n && 0 <= y < n ==> (d.same(x, y) <==> x == y),
    {
        let mut repr: Vec<usize> = Vec::new();
        let mut size: Vec<usize> = Vec::new();
        let mut i: usize = 0;
        while i < n
            invariant
                i <= n,
                repr@.len() == i,
                size@.len() == i,
                forall|k: int| #![trigger repr@[k]] 0 <= k < i ==> repr@[k] == k && size@[k] == 1,
            decreases n - i,
        {
            let ghost r0 = repr@;
            let ghost s0 = size@;
            repr.push(i);
            size.push(1);
            proof {
                assert forall|k: int| #![trigger repr@[k]] 0 <= k < i + 1 implies repr@[k] == k && size@[k] == 1 by {
                    if k < i {
                        assert(repr@[k] == r0[k] && size@[k] == s0[k]);
                    }
                }
            }
            i = i + 1;
        }
        let d = DSU { repr, size, rank: Ghost(Seq::new(n as nat, |i: int| 0nat)), max_rank: Ghost(0) };
        assert forall|x: int| 0 <= x < n implies d.root(x) == x by {}
        assert forall|r: int| 0 <= r < n && #[trigger] d.repr@[r] == r implies d.size@[r] == d.class(r).len() by {
            assert(d.class(r) =~= set![r]);
        }
        d
    }

    /// After `repr[x]` is set to the representative of `x`, every element keeps its
    /// representative.
    proof fn lemma_compress(old_d: &DSU, new_d: &DSU, x: int, y: int)
        requires
            old_d.links_ok(),
            0 <= x < old_d.repr@.len(),
            0 <= y < old_d.repr@.len(),
            new_d.repr@ == old_d.repr@.update(x, old_d.root(x) as usize),
            new_d.size@ == old_d.size@,
            new_d.rank@ == old_d.rank@,
            new_d.max_rank@ == old_d.max_rank@,
        ensures
            new_d.links_ok(),
            new_d.root(y) == old_d.root(y),
        decreases old_d.max_rank@ - old_d.rank@[y],
    {
        old_d.lemma_root_props(x);
        assert(new_d.links_ok());
        old_d.lemma_root_props(y);
        if old_d.repr@[y] != y {
            if y == x {
                old_d.lemma_root_props(old_d.root(x));
                DSU::lemma_compress(old_d, new_d, x, old_d.root(x));
            } else {
                DSU::lemma_compress(old_d, new_d, x, old_d.repr@[y] as int);
            }
        } else if y == x {
        }
    }

    /// The representative of the class of `x`. Links on the way are shortened to point to it.
    pub fn find(&mut self, x: usize) -> (r: usize)
        requires
            old(self).wf(),
            x < old(self).len(),
        ensures
            final(self).wf(),
            final(self).len() == old(self).len(),
            r == old(self).root(x as int),
            r < old(self).len(),
            forall|y: int| 0 <= y < old(self).len() ==> #[trigger] final(self).root(y) == old(self).root(y),
            final(self).roots() == old(self).roots(),
            final(self).classes() == old(self).classes(),
            final(self).root(r as int) == r,
        decreases old(self).height(x as int),
    {
        proof {
            self.lemma_root_props(x as int);
            self.lemma_root_props(self.root(x as int));
        }
        let parent = self.repr[x];
        if parent != x {
            let ghost before = *self;
            proof {
                self.lemma_root_props(x as int);
            }
            let r = self.find(parent);
            let ghost mid = *self;
            self.repr.set(x, r);
            proof {
                before.lemma_root_props(x as int);
                mid.lemma_root_props(x as int);
                assert(mid.repr@[x as int] != x);
                assert(self.roots() =~= mid.roots());
                assert forall|y: int| 0 <= y < before.len() implies #[trigger] self.root(y) == before.root(y) by {
                    DSU::lemma_compress(&mid, self, x as int, y);
                }
                mid.lemma_root_props(x as int);
                DSU::lemma_compress(&mid, self, x as int, x as int);
                assert forall|q: int| 0 <= q < self.repr@.len() implies #[trigger] self.class(q) == before.class(q) by {
                    assert(self.class(q) =~= before.class(q));
                }
                assert forall|q: int| 0 <= q < self.repr@.len() && #[trigger] self.repr@[q] == q implies self.size@[q] == self.class(q).len() by {
                    if q == x {
                        assert(self.repr@[x as int] == r);
                        mid.lemma_root_props(x as int);
                    }
                    assert(mid.repr@[q] == q);
                    assert(self.class(q) == mid.class(q)) by {
                        assert(self.class(q) =~= mid.class(q));
                    }
                }
            }
            r
        } else {
            x
        }
    }

    /// Merges the classes of `x` and `y`; the representative of the larger class represents the
    /// merged one.
    pub fn union(&mut self, x: usize, y: usize)
        requires
            old(self).wf(),
            x < old(self).len(),
            y < old(self).len(),
        ensures
            final(self).wf(),
            final(self).len() == old(self).len(),
            old(self).same(x as int, y as int) ==> final(self).classes() == old(self).classes(),
            !old(self).same(x as int, y as int) ==> final(self).classes() + 1 == old(self).classes(),
            forall|a: int, b: int| 0 <= a < old(self).len() && 0 <= b < old(self).len() ==> (#[trigger] final(self).same(a, b) <==> (
                old(self).same(a, b)
                || (old(self).same(a, x as int) && old(self).same(b, y as int))
                || (old(self).same(a, y as int) && old(self).same(b, x as int)))),
    {
        let ghost orig = *self;
        let mut x_repr = self.find(x);
        let ghost mid = *self;
        let mut y_repr = self.find(y);
        proof {
            assert(x_repr == self.root(x as int));
            assert(y_repr == self.root(y as int));
            self.lemma_root_props(x as int);
            self.lemma_root_props(y as int);
        }
        if x_repr == y_repr {
            return;
        }
        if self.size[x_repr] < self.size[y_repr] {
            let tmp = x_repr;
            x_repr = y_repr;
            y_repr = tmp;
        }
        let ghost before = *self;
        proof {
            before.lemma_root_props(x as int);
            before.lemma_root_props(y as int);
            before.lemma_class_finite(x_repr as int);
            before.lemma_class_finite(y_repr as int);
            before.lemma_root_props(x_repr as int);
            before.lemma_root_props(y_repr as int);
            assert(before.repr@[x_repr as int] == x_repr);
            assert(before.repr@[y_repr as int] == y_repr);
            assert(before.size@[x_repr as int] == before.class(x_repr as int).len());
            assert(before.size@[y_repr as int] == before.class(y_repr as int).len());
            before.lemma_roots_finite();
            assert(before.roots().contains(y_repr as int));
            let cx = before.class(x_repr as int);
            let cy = before.class(y_repr as int);
            assert(cx.disjoint(cy));
            vstd::set_lib::lemma_set_disjoint_lens(cx, cy);
            let full = Set::new(|q: int| 0 <= q < before.repr@.len());
            assert(full =~= vstd::set_lib::set_int_range(0, before.repr@.len() as int));
            vstd::set_lib::lemma_int_range(0, before.repr@.len() as int);
            vstd::set_lib::lemma_len_subset(cx.union(cy), full);
            assert((cx + cy).len() == cx.len() + cy.len());
            assert(cx + cy == cx.union(cy));
            assert(full.len() == before.repr@.len());
            assert(cx.len() + cy.len() <= before.repr@.len());
            assert(self.size@[x_repr as int] + self.size@[y_repr as int] <= before.repr@.len());
        }
        let total = self.repr.len();
        assert(self.size@[x_repr as int] + self.size@[y_repr as int] <= total);
        let new_size = self.size[x_repr] + self.size[y_repr];
        self.size.set(x_repr, new_size);
        self.repr.set(y_repr, x_repr);
        proof {
            let rx = before.rank@[x_repr as int];
            let ry = before.rank@[y_repr as int];
            let nr = if rx > ry { rx } else { ry + 1 };
            self.rank = Ghost(before.rank@.update(x_repr as int, nr));
            self.max_rank = Ghost(if nr > before.max_rank@ { nr } else { before.max_rank@ });
            assert(self.roots() =~= before.roots().remove(y_repr as int));
            assert(self.links_ok()) by {
                assert forall|q: int| 0 <= q < self.repr@.len() && #[trigger] self.repr@[q] != q implies self.rank@[q] < self.rank@[self.repr@[q] as int] by {
                    if q != y_repr {
                        before.lemma_root_props(q);
                    }
                }
            }
            assert forall|q: int| 0 <= q < before.len() implies #[trigger] self.root(q) == (if before.root(q) == y_repr { x_repr as int } else { before.root(q) }) by {
                DSU::lemma_link(&before, self, x_repr as int, y_repr as int, q);
            }
            assert forall|q: int| 0 <= q < self.repr@.len() && #[trigger] self.repr@[q] == q implies self.size@[q] == self.class(q).len() by {
                before.lemma_root_props(q);
                if q == x_repr {
                    assert(self.class(q) =~= before.class(x_repr as int).union(before.class(y_repr as int)));
                } else {
                    assert(before.repr@[q] == q);
                    assert(self.class(q) =~= before.class(q));
                }
            }
        }
    }

    /// After the representative `ry` is linked to the representative `rx`, the elements of the
    /// class of `ry` are represented by `rx` and the others keep their representative.
    proof fn lemma_link(old_d: &DSU, new_d: &DSU, rx: int, ry: int, q: int)
        requires
            old_d.links_ok(),
            new_d.links_ok(),
            0 <= rx < old_d.repr@.len(),
            0 <= ry < old_d.repr@.len(),
            rx != ry,
            old_d.repr@[rx] == rx,
            old_d.repr@[ry] == ry,
            new_d.repr@ == old_d.repr@.update(ry, rx as usize),
            0 <= q < old_d.repr@.len(),
        ensures
            new_d.root(q) == (if old_d.root(q) == ry { rx } else { old_d.root(q) }),
        decreases old_d.max_rank@ - old_d.rank@[q],
    {
        old_d.lemma_root_props(q);
        assert(new_d.repr@[rx] == rx);
        assert(new_d.root(rx) == rx);
        if old_d.repr@[q] != q {
            assert(q != ry);
            assert(new_d.repr@[q] == old_d.repr@[q]);
            DSU::lemma_link(old_d, new_d, rx, ry, old_d.repr@[q] as int);
            assert(new_d.root(q) == new_d.root(new_d.repr@[q] as int));
        } else if q == ry {
            assert(new_d.root(q) == new_d.root(rx));
        } else {
            assert(new_d.repr@[q] == q);
        }
    }
}

} // verus!
