//! A two dimensional grid with nonzero side lengths, stored with the `.1`
//! index as the major one.

use vstd::prelude::*;

verus! {

/// Represents a direction on a grid
#[derive(Clone, Copy, Debug, PartialEq, Eq, Structural, Hash)]
pub enum Direction {
    /// Negative .0 direction
    Neg0,
    /// Positive .0 direction
    Pos0,
    /// Negative .1 direction
    Neg1,
    /// Positive .1 direction
    Pos1,
}

pub struct Grid<T> {
    m: Vec<T>,
    len: (usize, usize),
}

/// Where the element at `(i, j)` is stored.
pub open spec fn flat_index(i: int, j: int, len0: int) -> int {
    i + j * len0
}

/// Every index of a grid, in storage order.
pub open spec fn grid_order(len0: nat, len1: nat) -> Seq<(usize, usize)> {
    Seq::new(len0 * len1, |k: int| ((k % (len0 as int)) as usize, (k / (len0 as int)) as usize))
}

/// The elements without an orthogonal neighbor in some direction, with that
/// direction: by direction first, storage order second.
pub open spec fn edge_order(len0: nat, len1: nat) -> Seq<((usize, usize), Direction)> {
    Seq::new(len1, |j: int| ((0usize, j as usize), Direction::Neg0)) + Seq::new(
        len1,
        |j: int| (((len0 - 1) as usize, j as usize), Direction::Pos0),
    ) + Seq::new(len0, |i: int| ((i as usize, 0usize), Direction::Neg1)) + Seq::new(
        len0,
        |i: int| ((i as usize, (len1 - 1) as usize), Direction::Pos1),
    )
}

/// The orthogonal pairs whose second element is in row `j > 0`: the pair
/// along `.1` at `i == 0`, then for each `i > 0` the pair along `.0` and the
/// pair along `.1`.
pub open spec fn pair_row(len0: nat, j: int) -> Seq<((usize, usize), (usize, usize), bool)> {
    seq![((0usize, (j - 1) as usize), (0usize, j as usize), true)] + Seq::new(
        (2 * (len0 - 1)) as nat,
        |t: int|
            if t % 2 == 0 {
                (((t / 2) as usize, j as usize), ((t / 2 + 1) as usize, j as usize), false)
            } else {
                (((t / 2 + 1) as usize, (j - 1) as usize), ((t / 2 + 1) as usize, j as usize), true)
            },
    )
}

/// Every pair of orthogonal neighbors, the first with the lesser index and
/// the flag telling whether they differ in `.1`, in the order they are
/// visited: the first row, then each later row.
pub open spec fn pair_order(len0: nat, j: int) -> Seq<((usize, usize), (usize, usize), bool)>
    decreases j,
{
    if j <= 0 {
        Seq::new(
            (len0 - 1) as nat,
            |i: int| (((i) as usize, 0usize), ((i + 1) as usize, 0usize), false),
        )
    } else {
        pair_order(len0, j - 1) + pair_row(len0, j)
    }
}

/// A grid with `len0` columns and `j + 1` rows has `(len0 - 1) * (j + 1)`
/// pairs of neighbors along `.0` and `len0 * j` along `.1`, all visited.
pub proof fn lemma_pair_order_len(len0: nat, j: int)
    requires
        len0 >= 1,
        j >= 0,
    ensures
        pair_order(len0, j).len() == (len0 - 1) * (j + 1) + len0 * j,
    decreases j,
{
    if j == 0 {
        assert((len0 - 1) * (j + 1) + len0 * j == len0 - 1) by (nonlinear_arith)
            requires
                j == 0,
        ;
    } else {
        lemma_pair_order_len(len0, j - 1);
        assert(pair_row(len0, j).len() == 1 + 2 * (len0 - 1));
        assert((len0 - 1) * j + len0 * (j - 1) + 1 + 2 * (len0 - 1) == (len0 - 1) * (j + 1) + len0 * j) by (nonlinear_arith);
    }
}

proof fn lemma_flat_bounds(i: int, j: int, len0: int, len1: int)
    by (nonlinear_arith)
    requires
        0 <= i < len0,
        0 <= j < len1,
    ensures
        0 <= i + j * len0 < len0 * len1,
        i + j * len0 < len1 * len0,
        0 <= j * len0 <= i + j * len0,
{
}

proof fn lemma_flat_inverse(i: int, j: int, len0: int)
    requires
        0 <= i < len0,
        0 <= j,
    ensures
        (i + j * len0) % len0 == i,
        (i + j * len0) / len0 == j,
{
    vstd::arithmetic::div_mod::lemma_fundamental_div_mod_converse(i + j * len0, len0, j, i);
}

/// The pairs are orthogonal neighbors inside the grid, the first before the
/// second in storage order.
proof fn lemma_pair_order_in_range(len0: nat, j: int, k: int)
    requires
        0 < len0 <= usize::MAX,
        0 <= j < usize::MAX,
        0 <= k < pair_order(len0, j).len(),
    ensures
        ({
            let p = pair_order(len0, j)[k];
            &&& p.0.0 < len0 && p.1.0 < len0
            &&& p.0.1 <= j && p.1.1 <= j
            &&& p.0.1 >= 0
            &&& flat_index(p.0.0 as int, p.0.1 as int, len0 as int) < flat_index(p.1.0 as int, p.1.1 as int, len0 as int)
        }),
    decreases j,
{
    if j > 0 {
        let prev = pair_order(len0, j - 1);
        if k < prev.len() {
            lemma_pair_order_in_range(len0, j - 1, k);
        } else {
            let t = k - prev.len();
            assert(pair_order(len0, j)[k] == pair_row(len0, j)[t]);
            assert(pair_row(len0, j).len() == 1 + 2 * (len0 - 1));
            if t > 0 {
                let u = t - 1;
                if u % 2 == 0 {
                } else {
                    assert(u / 2 + 1 + (j - 1) * len0 < u / 2 + 1 + j * len0) by (nonlinear_arith)
                        requires len0 > 0;
                }
            } else {
                assert(0 + (j - 1) * len0 < 0 + j * len0) by (nonlinear_arith)
                    requires len0 > 0;
            }
        }
    }
}

impl<T> Grid<T> {
    /// The side lengths are nonzero and the storage holds every element.
    pub closed spec fn wf(&self) -> bool {
        &&& self.len.0 > 0
        &&& self.len.1 > 0
        &&& self.m@.len() == self.len.0 * self.len.1
        &&& self.len.0 * self.len.1 <= usize::MAX
    }

    /// The elements in storage order.
    pub closed spec fn view(&self) -> Seq<T> {
        self.m@
    }

    /// The side lengths.
    pub closed spec fn size(&self) -> (usize, usize) {
        self.len
    }

    /// Makes a grid of side lengths `len` whose element at `(i, j)` is
    /// `fill((i, j))`. Returns `None` if any of the side lengths are zero.
    pub fn new<F: Fn((usize, usize)) -> T>(len: (usize, usize), fill: F) -> (r: Option<Self>)
        requires
            len.0 * len.1 <= usize::MAX,
            forall|ij: (usize, usize)| fill.requires((ij,)),
        ensures
            r is None <==> (len.0 == 0 || len.1 == 0),
            r matches Some(g) ==> {
                &&& g.wf()
                &&& g.size() == len
                &&& g@.len() == len.0 * len.1
                &&& forall|i: int, j: int|
                    0 <= i < len.0 && 0 <= j < len.1 ==> fill.ensures(
                        ((i as usize, j as usize),),
                        #[trigger] g@[flat_index(i, j, len.0 as int)],
                    )
            },
    {
        if len.0 == 0 || len.1 == 0 {
            return None;
        }
        let elen = len.0 * len.1;
        let mut v: Vec<T> = Vec::with_capacity(elen);
        let mut j: usize = 0;
        while j < len.1
            invariant
                0 < len.0,
                len.0 * len.1 <= usize::MAX,
                j <= len.1,
                v@.len() == j * len.0,
                forall|ij: (usize, usize)| fill.requires((ij,)),
                forall|i2: int, j2: int|
                    0 <= i2 < len.0 && 0 <= j2 < j ==> fill.ensures(
                        ((i2 as usize, j2 as usize),),
                        #[trigger] v@[flat_index(i2, j2, len.0 as int)],
                    ),
            decreases len.1 - j,
        {
            let mut i: usize = 0;
            proof {
                lemma_flat_bounds(0, j as int, len.0 as int, len.1 as int);
            }
            while i < len.0
                invariant
                    0 < len.0,
                    j < len.1,
                    len.0 * len.1 <= usize::MAX,
                    i <= len.0,
                    v@.len() == i + j * len.0,
                    forall|ij: (usize, usize)| fill.requires((ij,)),
                    forall|i2: int, j2: int|
                        (0 <= i2 < len.0 && 0 <= j2 < j) || (0 <= i2 < i && j2 == j) ==> fill.ensures(
                            ((i2 as usize, j2 as usize),),
                            #[trigger] v@[flat_index(i2, j2, len.0 as int)],
                        ),
                decreases len.0 - i,
            {
                proof {
                    lemma_flat_bounds(i as int, j as int, len.0 as int, len.1 as int);
                }
                let x = fill((i, j));
                let ghost v_prev = v@;
                v.push(x);
                proof {
                    assert forall|i2: int, j2: int|
                        (0 <= i2 < len.0 && 0 <= j2 < j) || (0 <= i2 < i + 1 && j2 == j) implies fill.ensures(
                        ((i2 as usize, j2 as usize),),
                        #[trigger] v@[flat_index(i2, j2, len.0 as int)],
                    ) by {
                        if j2 < j {
                            lemma_flat_bounds(i2, j2, len.0 as int, j as int);
                            assert(v@[flat_index(i2, j2, len.0 as int)] == v_prev[flat_index(i2, j2, len.0 as int)]);
                        } else if i2 < i {
                            assert(v@[flat_index(i2, j2, len.0 as int)] == v_prev[flat_index(i2, j2, len.0 as int)]);
                        }
                    }
                }
                i = i + 1;
            }
            proof {
                assert(v@.len() == (j + 1) * len.0) by (nonlinear_arith)
                    requires
                        v@.len() == len.0 + j * len.0,
                ;
            }
            j = j + 1;
        }
        assert(v@.len() == len.0 * len.1) by (nonlinear_arith)
            requires
                v@.len() == j * len.0,
                j == len.1,
        ;
        Some(Self { m: v, len })
    }

    pub fn nzlen(&self) -> (r: (usize, usize))
        requires
            self.wf(),
        ensures
            r == self.size(),
            r.0 > 0 && r.1 > 0,
            self@.len() == r.0 * r.1,
    {
        self.len
    }

    pub fn len(&self) -> (r: (usize, usize))
        requires
            self.wf(),
        ensures
            r == self.size(),
            r.0 > 0 && r.1 > 0,
            self@.len() == r.0 * r.1,
    {
        self.nzlen()
    }

    /// The element at `ij`, `None` if `ij` is out of range.
    pub fn get(&self, ij: (usize, usize)) -> (r: Option<&T>)
        requires
            self.wf(),
        ensures
            r is None <==> (ij.0 >= self.size().0 || ij.1 >= self.size().1),
            r matches Some(e) ==> *e == self@[flat_index(ij.0 as int, ij.1 as int, self.size().0 as int)],
    {
        let (i, j) = (ij.0, ij.1);
        let len = self.len();
        if (i >= len.0) || (j >= len.1) {
            None
        } else {
            proof {
                lemma_flat_bounds(i as int, j as int, len.0 as int, len.1 as int);
            }
            Some(&self.m[i + j * len.0])
        }
    }

    /// Mutable access to the element at `ij`, `None` if `ij` is out of range.
    pub fn get_mut(&mut self, ij: (usize, usize)) -> (r: Option<&mut T>)
        requires
            old(self).wf(),
        ensures
            final(self).wf(),
            r is None <==> (ij.0 >= old(self).size().0 || ij.1 >= old(self).size().1),
            r is None ==> final(self)@ == old(self)@,
            final(self).size() == old(self).size(),
            r matches Some(e) ==> {
                let k = flat_index(ij.0 as int, ij.1 as int, old(self).size().0 as int);
                &&& *e == old(self)@[k]
                &&& final(self)@ == old(self)@.update(k, *final(e))
            },
    {
        let (i, j) = (ij.0, ij.1);
        let len = self.len;
        if (i >= len.0) || (j >= len.1) {
            None
        } else {
            proof {
                lemma_flat_bounds(i as int, j as int, len.0 as int, len.1 as int);
            }
            Some(&mut self.m[i + j * len.0])
        }
    }

    /// Two distinct elements, `None` if either index is out of range or they
    /// are the same.
    pub fn get2(&self, ij0: (usize, usize), ij1: (usize, usize)) -> (r: Option<(&T, &T)>)
        requires
            self.wf(),
        ensures
            r is None <==> (ij0.0 >= self.size().0 || ij0.1 >= self.size().1 || ij1.0
                >= self.size().0 || ij1.1 >= self.size().1 || ij0 == ij1),
            r matches Some(p) ==> {
                &&& *p.0 == self@[flat_index(ij0.0 as int, ij0.1 as int, self.size().0 as int)]
                &&& *p.1 == self@[flat_index(ij1.0 as int, ij1.1 as int, self.size().0 as int)]
            },
    {
        let (i0, j0) = (ij0.0, ij0.1);
        let (i1, j1) = (ij1.0, ij1.1);
        let len = self.len();
        if (i0 >= len.0) || (j0 >= len.1) || (i1 >= len.0) || (j1 >= len.1) {
            None
        } else {
            proof {
                lemma_flat_bounds(i0 as int, j0 as int, len.0 as int, len.1 as int);
                lemma_flat_bounds(i1 as int, j1 as int, len.0 as int, len.1 as int);
                lemma_flat_inverse(i0 as int, j0 as int, len.0 as int);
                lemma_flat_inverse(i1 as int, j1 as int, len.0 as int);
            }
            let inx0 = i0 + j0 * len.0;
            let inx1 = i1 + j1 * len.0;
            if inx0 == inx1 {
                None
            } else {
                Some((&self.m[inx0], &self.m[inx1]))
            }
        }
    }

    /// Mutable access to two distinct elements, `None` if either index is out
    /// of range or they are the same.
    pub fn get2_mut(&mut self, ij0: (usize, usize), ij1: (usize, usize)) -> (r: Option<
        (&mut T, &mut T),
    >)
        requires
            old(self).wf(),
        ensures
            final(self).wf(),
            r is None <==> (ij0.0 >= old(self).size().0 || ij0.1 >= old(self).size().1 || ij1.0
                >= old(self).size().0 || ij1.1 >= old(self).size().1 || ij0 == ij1),
            r is None ==> final(self)@ == old(self)@,
            final(self).size() == old(self).size(),
            r matches Some(p) ==> {
                let k0 = flat_index(ij0.0 as int, ij0.1 as int, old(self).size().0 as int);
                let k1 = flat_index(ij1.0 as int, ij1.1 as int, old(self).size().0 as int);
                &&& *p.0 == old(self)@[k0]
                &&& *p.1 == old(self)@[k1]
                &&& final(self)@ == old(self)@.update(k0, *final(p.0)).update(k1, *final(p.1))
            },
    {
        let (i0, j0) = (ij0.0, ij0.1);
        let (i1, j1) = (ij1.0, ij1.1);
        let len = self.len;
        if (i0 >= len.0) || (j0 >= len.1) || (i1 >= len.0) || (j1 >= len.1) {
            None
        } else {
            proof {
                lemma_flat_bounds(i0 as int, j0 as int, len.0 as int, len.1 as int);
                lemma_flat_bounds(i1 as int, j1 as int, len.0 as int, len.1 as int);
                lemma_flat_inverse(i0 as int, j0 as int, len.0 as int);
                lemma_flat_inverse(i1 as int, j1 as int, len.0 as int);
            }
            let inx0 = i0 + j0 * len.0;
            let inx1 = i1 + j1 * len.0;
            if inx0 == inx1 {
                None
            } else if inx0 < inx1 {
                let (left, right) = self.m.as_mut_slice().split_at_mut(inx1);
                Some((&mut left[inx0], &mut right[0]))
            } else {
                let (left, right) = self.m.as_mut_slice().split_at_mut(inx0);
                Some((&mut right[0], &mut left[inx1]))
            }
        }
    }

    /// The elements as one slice in storage order.
    pub fn get_flat1(&self) -> (r: &[T])
        requires
            self.wf(),
        ensures
            r@ == self@,
    {
        self.m.as_slice()
    }

    /// The elements as one mutable slice in storage order. A slice keeps its
    /// length, so the grid keeps its shape; the specification of slices
    /// here does not say so, and neither does this contract.
    pub fn get_mut_flat1(&mut self) -> (r: &mut [T])
        requires
            old(self).wf(),
        ensures
            r@ == old(self)@,
            final(self)@ == final(r)@,
            final(self).size() == old(self).size(),
    {
        self.m.as_mut_slice()
    }

    /// Every index in storage order (`.1` major), the order in which elements
    /// are visited.
    pub fn for_each(&self) -> (r: Vec<(usize, usize)>)
        requires
            self.wf(),
        ensures
            r@ == grid_order(self.size().0 as nat, self.size().1 as nat),
    {
        let len = self.len();
        let mut r: Vec<(usize, usize)> = Vec::new();
        let mut j: usize = 0;
        while j < len.1
            invariant
                len == self.size(),
                len.0 > 0,
                len.0 * len.1 <= usize::MAX,
                j <= len.1,
                r@.len() == j * len.0,
                forall|k: int|
                    0 <= k < r@.len() ==> #[trigger] r@[k] == ((k % (len.0 as int)) as usize, (k / (
                    len.0 as int)) as usize),
            decreases len.1 - j,
        {
            let mut i: usize = 0;
            while i < len.0
                invariant
                    len.0 > 0,
                    j < len.1,
                    len.0 * len.1 <= usize::MAX,
                    i <= len.0,
                    r@.len() == i + j * len.0,
                    forall|k: int|
                        0 <= k < r@.len() ==> #[trigger] r@[k] == ((k % (len.0 as int)) as usize, (k
                            / (len.0 as int)) as usize),
                decreases len.0 - i,
            {
                proof {
                    lemma_flat_bounds(i as int, j as int, len.0 as int, len.1 as int);
                    lemma_flat_inverse(i as int, j as int, len.0 as int);
                }
                r.push((i, j));
                i = i + 1;
            }
            proof {
                assert(r@.len() == (j + 1) * len.0) by (nonlinear_arith)
                    requires
                        r@.len() == len.0 + j * len.0,
                ;
            }
            j = j + 1;
        }
        assert(r@.len() == len.0 * len.1) by (nonlinear_arith)
            requires
                r@.len() == j * len.0,
                j == len.1,
        ;
        assert(r@ =~= grid_order(len.0 as nat, len.1 as nat));
        r
    }

    /// Replaces each element with `f` of it and its index.
    pub fn for_each_mut<F: Fn(&T, (usize, usize)) -> T>(&mut self, f: F)
        requires
            old(self).wf(),
            forall|t: &T, ij: (usize, usize)| f.requires((t, ij)),
        ensures
            final(self).wf(),
            final(self).size() == old(self).size(),
            final(self)@.len() == old(self)@.len(),
            forall|k: int|
                0 <= k < old(self)@.len() ==> f.ensures(
                    (
                        &old(self)@[k],
                        (
                            (k % (old(self).size().0 as int)) as usize,
                            (k / (old(self).size().0 as int)) as usize,
                        ),
                    ),
                    #[trigger] final(self)@[k],
                ),
    {
        let len = self.len;
        let ghost old_m = self.m@;
        let mut k: usize = 0;
        while k < self.m.len()
            invariant
                self.len == len,
                len.0 > 0,
                len.1 > 0,
                self.m@.len() == old_m.len(),
                old_m.len() == len.0 * len.1,
                k <= old_m.len(),
                forall|t: &T, ij: (usize, usize)| f.requires((t, ij)),
                forall|m: int| k <= m < old_m.len() ==> self.m@[m] == old_m[m],
                forall|m: int|
                    0 <= m < k ==> f.ensures(
                        (&old_m[m], ((m % (len.0 as int)) as usize, (m / (len.0 as int)) as usize)),
                        #[trigger] self.m@[m],
                    ),
            decreases old_m.len() - k,
        {
            let i = k % len.0;
            let j = k / len.0;
            let x = f(&self.m[k], (i, j));
            self.m.set(k, x);
            k = k + 1;
        }
    }

    /// The elements without an orthogonal neighbor in some direction, with
    /// that direction; corner elements come up twice, edge elements once. The
    /// order is by `Direction` first, storage order second.
    pub fn for_each_edge(&self) -> (r: Vec<((usize, usize), Direction)>)
        requires
            self.wf(),
        ensures
            r@ == edge_order(self.size().0 as nat, self.size().1 as nat),
    {
        let len = self.len();
        let mut r: Vec<((usize, usize), Direction)> = Vec::new();
        let ghost e = edge_order(len.0 as nat, len.1 as nat);
        let mut j: usize = 0;
        while j < len.1
            invariant
                e == edge_order(len.0 as nat, len.1 as nat),
                len.0 > 0,
                len.1 > 0,
                j <= len.1,
                r@ =~= e.take(j as int),
            decreases len.1 - j,
        {
            r.push(((0, j), Direction::Neg0));
            j = j + 1;
        }
        let i = len.0 - 1;
        let mut j: usize = 0;
        while j < len.1
            invariant
                e == edge_order(len.0 as nat, len.1 as nat),
                len.0 > 0,
                len.1 > 0,
                i == len.0 - 1,
                j <= len.1,
                r@ =~= e.take(len.1 + j),
            decreases len.1 - j,
        {
            r.push(((i, j), Direction::Pos0));
            j = j + 1;
        }
        let mut i: usize = 0;
        while i < len.0
            invariant
                e == edge_order(len.0 as nat, len.1 as nat),
                len.0 > 0,
                len.1 > 0,
                i <= len.0,
                r@ =~= e.take(2 * len.1 + i),
            decreases len.0 - i,
        {
            r.push(((i, 0), Direction::Neg1));
            i = i + 1;
        }
        let j = len.1 - 1;
        let mut i: usize = 0;
        while i < len.0
            invariant
                e == edge_order(len.0 as nat, len.1 as nat),
                len.0 > 0,
                len.1 > 0,
                j == len.1 - 1,
                i <= len.0,
                r@ =~= e.take(2 * len.1 + len.0 + i),
            decreases len.0 - i,
        {
            r.push(((i, j), Direction::Pos1));
            i = i + 1;
        }
        assert(r@ =~= e);
        r
    }

    /// Every pair of orthogonal neighbors with the second offset by one in
    /// `.0` or `.1` from the first, and whether the offset is in `.1`.
    pub fn for_each_orthogonal_pair(&self) -> (r: Vec<((usize, usize), (usize, usize), bool)>)
        requires
            self.wf(),
        ensures
            r@ == pair_order(self.size().0 as nat, self.size().1 - 1),
    {
        let len = self.len();
        let mut r: Vec<((usize, usize), (usize, usize), bool)> = Vec::new();
        let mut i: usize = 1;
        while i < len.0
            invariant
                len.0 > 0,
                1 <= i <= len.0,
                r@ =~= pair_order(len.0 as nat, 0).take(i - 1),
            decreases len.0 - i,
        {
            r.push(((i - 1, 0), (i, 0), false));
            i = i + 1;
        }
        assert(r@ =~= pair_order(len.0 as nat, 0));
        let mut j: usize = 1;
        while j < len.1
            invariant
                len.0 > 0,
                1 <= j <= len.1,
                r@ =~= pair_order(len.0 as nat, j - 1),
            decreases len.1 - j,
        {
            let ghost base = r@;
            r.push(((0, j - 1), (0, j), true));
            let mut i: usize = 1;
            while i < len.0
                invariant
                    len.0 > 0,
                    1 <= j < len.1,
                    1 <= i <= len.0,
                    r@ =~= base + pair_row(len.0 as nat, j as int).take(2 * i - 1),
                decreases len.0 - i,
            {
                r.push(((i - 1, j), (i, j), false));
                r.push(((i, j - 1), (i, j), true));
                i = i + 1;
            }
            assert(pair_row(len.0 as nat, j as int).take(2 * len.0 - 1) =~= pair_row(len.0 as nat, j as int));
            j = j + 1;
        }
        r
    }

    /// `for_each_edge`, replacing each visited element with `f` of it, its
    /// index and the direction, in visiting order (corners twice).
    pub fn for_each_edge_mut<F: Fn(&T, (usize, usize), Direction) -> T>(&mut self, f: F)
        requires
            old(self).wf(),
            forall|t: &T, ij: (usize, usize), d: Direction| f.requires((t, ij, d)),
        ensures
            final(self).wf(),
            final(self).size() == old(self).size(),
            ({
                let visits = edge_order(old(self).size().0 as nat, old(self).size().1 as nat);
                let len0 = old(self).size().0 as int;
                exists|states: Seq<Seq<T>>|
                    {
                        &&& states.len() == visits.len() + 1
                        &&& states[0] == old(self)@
                        &&& states[visits.len() as int] == final(self)@
                        &&& forall|k: int|
                            #![trigger states[k + 1]]
                            0 <= k < visits.len() ==> {
                                let idx = flat_index(
                                    visits[k].0.0 as int,
                                    visits[k].0.1 as int,
                                    len0,
                                );
                                &&& f.ensures(
                                    (&states[k][idx], visits[k].0, visits[k].1),
                                    states[k + 1][idx],
                                )
                                &&& states[k + 1] == states[k].update(idx, states[k + 1][idx])
                            }
                    }
            }),
    {
        let visits = self.for_each_edge();
        let len = self.len;
        let ghost old_m = self.m@;
        let ghost mut states: Seq<Seq<T>> = seq![self.m@];
        let mut k: usize = 0;
        while k < visits.len()
            invariant
                self.wf(),
                self.len == len,
                visits@ == edge_order(len.0 as nat, len.1 as nat),
                k <= visits@.len(),
                states.len() == k + 1,
                states[0] == old_m,
                states[k as int] == self.m@,
                forall|t: &T, ij: (usize, usize), d: Direction| f.requires((t, ij, d)),
                forall|m: int|
                    #![trigger states[m + 1]]
                    0 <= m < k ==> {
                        let idx = flat_index(visits@[m].0.0 as int, visits@[m].0.1 as int, len.0 as int);
                        &&& f.ensures(
                            (&states[m][idx], visits@[m].0, visits@[m].1),
                            states[m + 1][idx],
                        )
                        &&& states[m + 1] == states[m].update(idx, states[m + 1][idx])
                    },
            decreases visits@.len() - k,
        {
            let (ij, d) = visits[k];
            proof {
                lemma_flat_bounds(ij.0 as int, ij.1 as int, len.0 as int, len.1 as int);
            }
            let idx = ij.0 + ij.1 * len.0;
            let x = f(&self.m[idx], ij, d);
            self.m.set(idx, x);
            proof {
                states = states.push(self.m@);
                assert(states[k + 1][idx as int] == x);
            }
            k = k + 1;
        }
    }

    /// `for_each_orthogonal_pair`, replacing each visited pair with `f` of the
    /// pair, the first index and the offset flag, in visiting order.
    pub fn for_each_orthogonal_pair_mut<F: Fn(&T, (usize, usize), &T, bool) -> (T, T)>(
        &mut self,
        f: F,
    )
        requires
            old(self).wf(),
            forall|t0: &T, ij: (usize, usize), t1: &T, b: bool| f.requires((t0, ij, t1, b)),
        ensures
            final(self).wf(),
            final(self).size() == old(self).size(),
            ({
                let visits = pair_order(old(self).size().0 as nat, old(self).size().1 - 1);
                let len0 = old(self).size().0 as int;
                exists|states: Seq<Seq<T>>|
                    {
                        &&& states.len() == visits.len() + 1
                        &&& states[0] == old(self)@
                        &&& states[visits.len() as int] == final(self)@
                        &&& forall|k: int|
                            #![trigger states[k + 1]]
                            0 <= k < visits.len() ==> {
                                let i0 = flat_index(
                                    visits[k].0.0 as int,
                                    visits[k].0.1 as int,
                                    len0,
                                );
                                let i1 = flat_index(
                                    visits[k].1.0 as int,
                                    visits[k].1.1 as int,
                                    len0,
                                );
                                &&& f.ensures(
                                    (&states[k][i0], visits[k].0, &states[k][i1], visits[k].2),
                                    (states[k + 1][i0], states[k + 1][i1]),
                                )
                                &&& states[k + 1] == states[k].update(i0, states[k + 1][i0]).update(
                                    i1,
                                    states[k + 1][i1],
                                )
                            }
                    }
            }),
    {
        let visits = self.for_each_orthogonal_pair();
        let len = self.len;
        let ghost old_m = self.m@;
        let ghost mut states: Seq<Seq<T>> = seq![self.m@];
        let mut k: usize = 0;
        while k < visits.len()
            invariant
                self.wf(),
                self.len == len,
                visits@ == pair_order(len.0 as nat, len.1 - 1),
                k <= visits@.len(),
                states.len() == k + 1,
                states[0] == old_m,
                states[k as int] == self.m@,
                forall|t0: &T, ij: (usize, usize), t1: &T, b: bool| f.requires((t0, ij, t1, b)),
                forall|m: int|
                    #![trigger states[m + 1]]
                    0 <= m < k ==> {
                        let i0 = flat_index(visits@[m].0.0 as int, visits@[m].0.1 as int, len.0 as int);
                        let i1 = flat_index(visits@[m].1.0 as int, visits@[m].1.1 as int, len.0 as int);
                        &&& f.ensures(
                            (&states[m][i0], visits@[m].0, &states[m][i1], visits@[m].2),
                            (states[m + 1][i0], states[m + 1][i1]),
                        )
                        &&& states[m + 1] == states[m].update(i0, states[m + 1][i0]).update(
                            i1,
                            states[m + 1][i1],
                        )
                    },
            decreases visits@.len() - k,
        {
            let (ij0, ij1, b) = visits[k];
            proof {
                lemma_pair_order_in_range(len.0 as nat, len.1 - 1, k as int);
                lemma_flat_bounds(ij0.0 as int, ij0.1 as int, len.0 as int, len.1 as int);
                lemma_flat_bounds(ij1.0 as int, ij1.1 as int, len.0 as int, len.1 as int);
            }
            let i0 = ij0.0 + ij0.1 * len.0;
            let i1 = ij1.0 + ij1.1 * len.0;
            let (x0, x1) = f(&self.m[i0], ij0, &self.m[i1], b);
            self.m.set(i0, x0);
            self.m.set(i1, x1);
            proof {
                states = states.push(self.m@);
                assert(states[k + 1][i0 as int] == x0);
                assert(states[k + 1][i1 as int] == x1);
            }
            k = k + 1;
        }
    }
}

} // verus!
