//! The queue of optimizations to run on an ensemble, least first.

use vstd::prelude::*;
use crate::error::EvalError;
use vstd::arithmetic::power2::{pow2, lemma2_to64, lemma_pow2_unfold, lemma_pow2_pos};
use crate::ptr::{PBack, PLNode, PTNode};
use crate::lut::{input_index, index_bit, insert_index, is_lut, lut_eval, lut_shape, law_reduce_lut_eval, law_independent_lut_eval, lemma_lut_shape_of_inputs, lemma_input_index_update_remove, lemma_input_index_range, lemma_insert_index_range, lemma_shape_small};
use crate::lnode::LNode;
use crate::meta::{depends_on, lemma_depends_of_dependent, lemma_depends_after_reduce, lemma_uval_bit, pow2_usize, usize_bit};
use crate::small_map::{SmallMap, first_key_match};
use vstd::std_specs::cmp::PartialEqSpec;

verus! {

/// A cost that fits in a byte.
#[derive(Clone, Copy, Debug, PartialEq, Eq, Structural, PartialOrd, Ord, Hash)]
pub struct CostU8(pub u8);

/// These variants must occur generally in order of easiest and most affecting
/// to hardest and computationally expensive, so that things like removing
/// unused nodes happens before wasting time on the harder optimizations.
#[derive(Clone, Copy, Debug, PartialEq, Eq, Structural, PartialOrd, Ord, Hash)]
pub enum Optimization {
    Preinvestigate(PBack),
    /// Removes an entire equivalence class because it is unused
    RemoveEquiv(PBack),
    /// This needs to point to the `Referent::ThisLNode` of the identity
    /// `LNode`. If an equivalence is an identity function, any referents should
    /// use its inputs instead. This is high priority because the principle
    /// source of a value needs to be known for various optimizations
    /// involving deduplication to work (such as early LUT simplification), and
    /// also because it eliminates useless identities early.
    ForwardEquiv(PBack),
    /// Removes all `LNode`s from an equivalence that has had a constant
    /// assigned to it, and notifies all referents.
    ConstifyEquiv(PBack),
    /// Removes a `LNode` because there is at least one other `LNode` in the
    /// equivalence that is stricly better
    RemoveLNode(PBack),
    /// If a backref is removed, investigate this equivalence. Note that
    /// `InvestigateUsed`s overwrite each other when multiple ones are fired on
    /// the same equivalence.
    InvestigateUsed(PBack),
    /// If an input was constified
    InvestigateConst(PLNode),
    /// If a driver was constified
    InvestigateLoopDriverConst(PTNode),
    /// The optimization state that equivalences are set to after the
    /// preinvestigation finds nothing
    InvestigateEquiv0(PBack),
}

/// Where an optimization falls in the order: its variant's place, then the
/// handle's index and generation.
pub open spec fn opt_key(o: Optimization) -> (int, int, int) {
    match o {
        Optimization::Preinvestigate(p) => (0, p.inx as int, p.gen as int),
        Optimization::RemoveEquiv(p) => (1, p.inx as int, p.gen as int),
        Optimization::ForwardEquiv(p) => (2, p.inx as int, p.gen as int),
        Optimization::ConstifyEquiv(p) => (3, p.inx as int, p.gen as int),
        Optimization::RemoveLNode(p) => (4, p.inx as int, p.gen as int),
        Optimization::InvestigateUsed(p) => (5, p.inx as int, p.gen as int),
        Optimization::InvestigateConst(p) => (6, p.inx as int, p.gen as int),
        Optimization::InvestigateLoopDriverConst(p) => (7, p.inx as int, p.gen as int),
        Optimization::InvestigateEquiv0(p) => (8, p.inx as int, p.gen as int),
    }
}

/// `a` comes before `b` in the order.
pub open spec fn opt_lt(a: Optimization, b: Optimization) -> bool {
    let ka = opt_key(a);
    let kb = opt_key(b);
    ka.0 < kb.0 || (ka.0 == kb.0 && (ka.1 < kb.1 || (ka.1 == kb.1 && ka.2 < kb.2)))
}

proof fn lemma_opt_key_injective(a: Optimization, b: Optimization)
    requires
        opt_key(a) == opt_key(b),
    ensures
        a == b,
{
}

fn opt_key_exec(o: &Optimization) -> (r: (u8, usize, u64))
    ensures
        opt_key(*o) == (r.0 as int, r.1 as int, r.2 as int),
{
    match *o {
        Optimization::Preinvestigate(p) => (0, p.inx, p.gen),
        Optimization::RemoveEquiv(p) => (1, p.inx, p.gen),
        Optimization::ForwardEquiv(p) => (2, p.inx, p.gen),
        Optimization::ConstifyEquiv(p) => (3, p.inx, p.gen),
        Optimization::RemoveLNode(p) => (4, p.inx, p.gen),
        Optimization::InvestigateUsed(p) => (5, p.inx, p.gen),
        Optimization::InvestigateConst(p) => (6, p.inx, p.gen),
        Optimization::InvestigateLoopDriverConst(p) => (7, p.inx, p.gen),
        Optimization::InvestigateEquiv0(p) => (8, p.inx, p.gen),
    }
}

fn opt_less(a: &Optimization, b: &Optimization) -> (r: bool)
    ensures
        r == opt_lt(*a, *b),
{
    let ka = opt_key_exec(a);
    let kb = opt_key_exec(b);
    ka.0 < kb.0 || (ka.0 == kb.0 && (ka.1 < kb.1 || (ka.1 == kb.1 && ka.2 < kb.2)))
}

/// Strictly increasing in the order, so nothing occurs twice.
pub open spec fn opts_sorted(s: Seq<Optimization>) -> bool {
    forall|i: int, j: int| 0 <= i < j < s.len() ==> opt_lt(#[trigger] s[i], #[trigger] s[j])
}

/// The optimizations waiting to be run, each once, least first.
#[derive(Clone, Debug)]
pub struct Optimizer {
    optimizations: Vec<Optimization>,
}

impl Optimizer {
    /// The waiting optimizations, in order.
    pub closed spec fn queue(&self) -> Seq<Optimization> {
        self.optimizations@
    }

    /// The waiting optimizations.
    pub open spec fn pending(&self) -> Set<Optimization> {
        self.queue().to_set()
    }

    /// The queue is in order without repeats.
    pub open spec fn wf(&self) -> bool {
        opts_sorted(self.queue())
    }

    pub fn new() -> (r: Self)
        ensures
            r.wf(),
            r.queue() == Seq::<Optimization>::empty(),
    {
        Optimizer { optimizations: Vec::new() }
    }

    /// Checks that there are no remaining optimizations, then shrinks
    /// allocations.
    pub fn check_clear(&mut self) -> (r: Result<(), EvalError>)
        ensures
            r is Ok <==> old(self).queue().len() == 0,
            r matches Err(e) ==> e is OtherStr,
            final(self).queue() == old(self).queue(),
    {
        if self.optimizations.len() != 0 {
            return Err(EvalError::OtherStr("optimizations need to be empty"));
        }
        self.optimizations = Vec::new();
        Ok(())
    }

    /// Whether the queue is in order without repeats.
    pub fn is_well_ordered(&self) -> (r: bool)
        ensures
            r == self.wf(),
    {
        let n = self.optimizations.len();
        let mut i: usize = 0;
        while i < n
            invariant
                n == self.optimizations@.len(),
                i <= n,
                forall|a: int, b: int| 0 <= a < i && a < b < n ==> opt_lt(#[trigger] self.optimizations@[a], #[trigger] self.optimizations@[b]),
            decreases n - i,
        {
            let mut j: usize = i + 1;
            while j < n
                invariant
                    n == self.optimizations@.len(),
                    i < n,
                    i < j <= n,
                    forall|a: int, b: int| 0 <= a < i && a < b < n ==> opt_lt(#[trigger] self.optimizations@[a], #[trigger] self.optimizations@[b]),
                    forall|b: int| i < b < j ==> opt_lt(self.optimizations@[i as int], #[trigger] self.optimizations@[b]),
                decreases n - j,
            {
                if !opt_less(&self.optimizations[i], &self.optimizations[j]) {
                    return false;
                }
                j = j + 1;
            }
            i = i + 1;
        }
        true
    }

    /// Whether no optimization is waiting.
    pub fn is_empty(&self) -> (r: bool)
        ensures
            r == (self.queue().len() == 0),
    {
        self.optimizations.len() == 0
    }

    /// Adds an optimization; one that is already waiting stays once.
    pub fn insert(&mut self, optimization: Optimization)
        requires
            old(self).wf(),
        ensures
            final(self).wf(),
            final(self).pending() == old(self).pending().insert(optimization),
    {
        let n = self.optimizations.len();
        let mut i: usize = 0;
        while i < n
            invariant
                n == self.optimizations@.len(),
                opts_sorted(self.optimizations@),
                i <= n,
                forall|k: int| 0 <= k < i ==> opt_lt(#[trigger] self.optimizations@[k], optimization),
            ensures
                i <= n,
                forall|k: int| 0 <= k < i ==> opt_lt(#[trigger] self.optimizations@[k], optimization),
                i < n ==> !opt_lt(self.optimizations@[i as int], optimization),
            decreases n - i,
        {
            if !opt_less(&self.optimizations[i], &optimization) {
                break;
            }
            i = i + 1;
        }
        let ghost old_q = self.optimizations@;
        if i < n && !opt_less(&optimization, &self.optimizations[i]) {
            // the same optimization is already waiting
            proof {
                lemma_opt_key_injective(optimization, old_q[i as int]);
                assert(old_q.to_set().insert(optimization) =~= old_q.to_set());
            }
            return;
        }
        self.optimizations.insert(i, optimization);
        proof {
            let q = self.optimizations@;
            assert(q == old_q.insert(i as int, optimization));
            assert forall|a: int, b: int| 0 <= a < b < q.len() implies opt_lt(#[trigger] q[a], #[trigger] q[b]) by {
                if b < i {
                } else if a < i && b == i {
                } else if a < i {
                    assert(q[b] == old_q[b - 1]);
                } else if a == i {
                    assert(q[b] == old_q[b - 1]);
                    assert(opt_lt(optimization, old_q[i as int]));
                    if b - 1 > i {
                        assert(opt_lt(old_q[i as int], old_q[b - 1]));
                    }
                } else {
                    assert(q[a] == old_q[a - 1]);
                    assert(q[b] == old_q[b - 1]);
                }
            }
            assert forall|o: Optimization| #[trigger] q.to_set().contains(o) == old_q.to_set().insert(optimization).contains(o) by {
                if q.to_set().contains(o) {
                    let k = choose|k: int| 0 <= k < q.len() && q[k] == o;
                    if k < i {
                        assert(old_q[k] == o);
                    } else if k > i {
                        assert(old_q[k - 1] == o);
                    }
                }
                if old_q.to_set().contains(o) {
                    let k = choose|k: int| 0 <= k < old_q.len() && old_q[k] == o;
                    if k < i {
                        assert(q[k] == o);
                    } else {
                        assert(q[k + 1] == o);
                    }
                }
                if o == optimization {
                    assert(q[i as int] == o);
                }
            }
            assert(q.to_set() =~= old_q.to_set().insert(optimization));
        }
    }

    /// Takes out the least waiting optimization, the next one to run.
    pub fn pop_min(&mut self) -> (r: Option<Optimization>)
        requires
            old(self).wf(),
        ensures
            final(self).wf(),
            old(self).queue().len() == 0 <==> r is None,
            r matches Some(o) ==> o == old(self).queue()[0] && final(self).queue() == old(self).queue().drop_first(),
            r is None ==> final(self).queue() == old(self).queue(),
            r matches Some(o) ==> forall|p: Optimization| #[trigger] old(self).pending().contains(p) && p != o ==> opt_lt(o, p),
    {
        if self.optimizations.len() == 0 {
            return None;
        }
        let ghost old_q = self.optimizations@;
        let o = self.optimizations.remove(0);
        proof {
            assert(self.optimizations@ =~= old_q.drop_first());
            assert forall|p: Optimization| #[trigger] old_q.to_set().contains(p) && p != o implies opt_lt(o, p) by {
                let k = choose|k: int| 0 <= k < old_q.len() && old_q[k] == p;
                assert(k != 0);
                assert(opt_lt(old_q[0], old_q[k]));
            }
            assert forall|a: int, b: int| 0 <= a < b < self.optimizations@.len() implies opt_lt(#[trigger] self.optimizations@[a], #[trigger] self.optimizations@[b]) by {
                assert(opt_lt(old_q[a + 1], old_q[b + 1]));
            }
        }
        Some(o)
    }
}

/// An input of a lookup table node as the optimizer reads it: the back
/// reference the node holds, the equivalence that it refers to, and that
/// equivalence's value if it is a constant.
#[derive(Clone, Copy, Debug, PartialEq, Eq, Structural)]
pub struct LutInputRef {
    pub p_inp: PBack,
    pub p_equiv: PBack,
    pub constant: Option<bool>,
}

/// What a lookup table node comes down to.
#[derive(Clone, Debug)]
pub enum LNodeOutcome {
    /// The node's equivalence is this constant
    Const(bool),
    /// The node copies this input
    Copy(LutInputRef),
    /// The node is this table over these inputs
    Lut(Vec<LutInputRef>, Vec<bool>),
}

/// The input bits with every equivalence valued by `env` (read by index).
pub open spec fn ref_values(inp: Seq<LutInputRef>, env: spec_fn(usize) -> bool) -> Seq<bool> {
    Seq::new(inp.len(), |k: int| env(inp[k].p_equiv.inx))
}

/// `env` gives each constant input its constant.
pub open spec fn env_agrees(inp: Seq<LutInputRef>, env: spec_fn(usize) -> bool) -> bool {
    forall|k: int| 0 <= k < inp.len() ==> ((#[trigger] inp[k]).constant matches Some(c) ==> env(inp[k].p_equiv.inx) == c)
}

/// The bit the outcome gives with every equivalence valued by `env`.
pub open spec fn outcome_eval(r: LNodeOutcome, env: spec_fn(usize) -> bool) -> bool {
    match r {
        LNodeOutcome::Const(b) => b,
        LNodeOutcome::Copy(x) => env(x.p_equiv.inx),
        LNodeOutcome::Lut(inp, t) => lut_eval(t@, ref_values(inp@, env)),
    }
}

/// `lut` over `inp` gives what `lut0` over `inp0` gives, whatever values agree
/// with the constants of `inp0`.
spec fn keeps_node(lut0: Seq<bool>, inp0: Seq<LutInputRef>, lut: Seq<bool>, inp: Seq<LutInputRef>) -> bool {
    forall|env: spec_fn(usize) -> bool|
        env_agrees(inp0, env) ==> #[trigger] lut_eval(lut, ref_values(inp, env)) == lut_eval(lut0, ref_values(inp0, env))
}

/// The inputs are some of the node's first inputs, in their first order:
/// `idx` gives the place each had.
pub open spec fn order_kept(inp: Seq<LutInputRef>, inp0: Seq<LutInputRef>, idx: Seq<int>) -> bool {
    &&& idx.len() == inp.len()
    &&& forall|k: int| 0 <= k < idx.len() ==> 0 <= #[trigger] idx[k] < inp0.len() && inp[k] == inp0[idx[k]]
    &&& forall|a: int, b: int| 0 <= a < b < idx.len() ==> #[trigger] idx[a] < #[trigger] idx[b]
}

/// Taking out input `i` keeps the others in order.
proof fn lemma_order_remove(inp: Seq<LutInputRef>, inp0: Seq<LutInputRef>, idx: Seq<int>, i: int)
    requires
        order_kept(inp, inp0, idx),
        0 <= i < inp.len(),
    ensures
        order_kept(inp.remove(i), inp0, idx.remove(i)),
{
    let r = inp.remove(i);
    let d = idx.remove(i);
    assert forall|k: int| 0 <= k < d.len() implies 0 <= #[trigger] d[k] < inp0.len() && r[k] == inp0[d[k]] by {
        if k < i {
            assert(d[k] == idx[k]);
        } else {
            assert(d[k] == idx[k + 1]);
        }
    }
    assert forall|a: int, b: int| 0 <= a < b < d.len() implies #[trigger] d[a] < #[trigger] d[b] by {
        let a0 = if a < i { a } else { a + 1 };
        let b0 = if b < i { b } else { b + 1 };
        assert(d[a] == idx[a0]);
        assert(d[b] == idx[b0]);
    }
}

/// Every input is one of the node's first inputs.
pub open spec fn inputs_from(inp: Seq<LutInputRef>, inp0: Seq<LutInputRef>) -> bool {
    forall|k: int| 0 <= k < inp.len() ==> inp0.contains(#[trigger] inp[k])
}

/// `insert_index(t, j, b)`, the index with bit `b` put in at place `j`.
pub(crate) fn insert_index_exec(t: usize, j: usize, b: bool, Ghost(len): Ghost<nat>) -> (r: usize)
    requires
        lut_shape(len, j as nat),
        len <= usize::MAX,
        t < len / 2,
    ensures
        r == insert_index(t as int, j as nat, b),
        r < len,
{
    proof {
        lemma_insert_index_range(t as int, j as nat, b, len);
        lemma_shape_small(len, j as nat);
        lemma_pow2_pos(j as nat);
        lemma_pow2_unfold(j as nat + 1);
        vstd::arithmetic::div_mod::lemma_mod_pos_bound(len as int, pow2(j as nat + 1) as int);
        vstd::arithmetic::div_mod::lemma_fundamental_div_mod(len as int, pow2(j as nat + 1) as int);
        assert(pow2(j as nat + 1) <= len) by (nonlinear_arith)
            requires
                len == pow2(j as nat + 1) * (len / pow2(j as nat + 1)) + len % pow2(j as nat + 1),
                len % pow2(j as nat + 1) == 0,
                len > 0,
                pow2(j as nat + 1) > 0,
        ;
    }
    let s = pow2_usize(j);
    let q = t / s;
    proof {
        vstd::arithmetic::div_mod::lemma_mod_pos_bound(t as int, s as int);
        assert(q * (2 * s) <= insert_index(t as int, j as nat, b));
    }
    let hi = q * (2 * s);
    let mid: usize = if b { s } else { 0 };
    hi + mid + t % s
}

/// Merging two inputs that always hold the same value: the table keeps the
/// entries whose index has equal bits `i` and `j`, and input `j` goes.
proof fn lemma_merge_eval(lut: Seq<bool>, next: Seq<bool>, v: Seq<bool>, i: int, j: int)
    requires
        is_lut(lut, v.len()),
        0 <= j < i < v.len(),
        v[i] == v[j],
        next.len() == lut.len() / 2,
        forall|t: int| 0 <= t < next.len() ==> #[trigger] next[t] == lut[insert_index(t, j as nat, index_bit(t, (i - 1) as nat))],
    ensures
        lut_eval(next, v.remove(j)) == lut_eval(lut, v),
{
    let rm = v.remove(j);
    let t = input_index(rm);
    lemma_input_index_range(rm);
    lemma_pow2_unfold(v.len());
    assert(v.update(j, v[j]) =~= v);
    lemma_input_index_update_remove(v, j as nat, v[j]);
    lemma_uval_bit(rm, (i - 1) as nat);
    assert(rm[i - 1] == v[i]);
}

/// Moving input `i` over to the removed ones keeps the inputs as a whole.
proof fn lemma_move_input(inp: Seq<LutInputRef>, removed: Seq<LutInputRef>, i: int)
    requires
        0 <= i < inp.len(),
    ensures
        inp.remove(i).to_multiset().add(removed.push(inp[i]).to_multiset()) == inp.to_multiset().add(
            removed.to_multiset(),
        ),
{
    broadcast use vstd::seq_lib::group_to_multiset_ensures;

    assert(inp.to_multiset().contains(inp[i])) by {
        assert(inp.contains(inp[i]));
    }
    assert(inp.remove(i).to_multiset().add(removed.push(inp[i]).to_multiset()) =~= inp.to_multiset().add(
        removed.to_multiset(),
    ));
}

/// Folds the constant inputs of a lookup table node into its table, merges
/// inputs that are the same equivalence (by index; of two such, the earlier
/// goes and the later stays), and drops the inputs that the table does not
/// depend on. The node then comes to a constant, a copy of one input, or a
/// table that depends on each of its inputs, which keep their order; whatever
/// values agree with the constants, it gives what the node gave. Also returns
/// the inputs taken out, whose equivalences are to be investigated.
pub fn const_eval_lut(inp: Vec<LutInputRef>, lut: Vec<bool>) -> (r: (LNodeOutcome, Vec<LutInputRef>))
    requires
        inp@.len() <= 255,
        is_lut(lut@, inp@.len()),
    ensures
        forall|env: spec_fn(usize) -> bool|
            env_agrees(inp@, env) ==> #[trigger] outcome_eval(r.0, env) == lut_eval(lut@, ref_values(inp@, env)),
        forall|k: int| 0 <= k < r.1@.len() ==> inp@.contains(#[trigger] r.1@[k]),
        r.0 matches LNodeOutcome::Lut(ps, t) ==> ps@.len() >= 1 && is_lut(t@, ps@.len()) && !(ps@.len() == 1 && t@[1]) && inputs_from(ps@, inp@)
            && ps@.len() + r.1@.len() == inp@.len()
            && (forall|k: int| 0 <= k < ps@.len() ==> (#[trigger] ps@[k]).constant is None)
            && (forall|a: int, b: int| 0 <= a < b < ps@.len() ==> (#[trigger] ps@[a]).p_equiv.inx != (#[trigger] ps@[b]).p_equiv.inx)
            && (forall|k: int| 0 <= k < ps@.len() ==> #[trigger] depends_on(t@, ps@.len(), k)),
        r.0 matches LNodeOutcome::Copy(x) ==> inp@.contains(x) && r.1@.len() + 1 == inp@.len(),
        r.0 is Const ==> r.1@.len() == inp@.len(),
        r.0 matches LNodeOutcome::Lut(ps, _) ==> exists|idx: Seq<int>| order_kept(ps@, inp@, idx),
        r.0 matches LNodeOutcome::Lut(ps, _) ==> ps@.to_multiset().add(r.1@.to_multiset()) == inp@.to_multiset(),
        r.0 matches LNodeOutcome::Copy(x) ==> r.1@.to_multiset().insert(x) == inp@.to_multiset(),
        r.0 is Const ==> r.1@.to_multiset() == inp@.to_multiset(),
{
    let ghost lut0 = lut@;
    let ghost inp0 = inp@;
    let mut inp = inp;
    let mut lut = lut;
    let mut removed: Vec<LutInputRef> = Vec::new();
    let ghost mut idx: Seq<int> = Seq::new(inp@.len(), |k: int| k);
    proof {
        broadcast use vstd::seq_lib::group_to_multiset_ensures;

        assert(removed@.to_multiset().len() == 0);
        assert(inp@.to_multiset().add(removed@.to_multiset()) =~= inp0.to_multiset());
    }
    // fold in every constant input
    let mut i: usize = inp.len();
    while i > 0
        invariant
            is_lut(lut@, inp@.len()),
            i <= inp@.len() <= 255,
            keeps_node(lut0, inp0, lut@, inp@),
            inputs_from(inp@, inp0),
            inputs_from(removed@, inp0),
            inp@.len() + removed@.len() == inp0.len(),
            inp@.to_multiset().add(removed@.to_multiset()) == inp0.to_multiset(),
            order_kept(inp@, inp0, idx),
            forall|k: int| i <= k < inp@.len() ==> (#[trigger] inp@[k]).constant is None,
        decreases i,
    {
        i = i - 1;
        if let Some(val) = inp[i].constant {
            let ghost n = inp@.len();
            let ghost l = lut@;
            let ghost old_inp = inp@;
            proof {
                lemma_lut_shape_of_inputs(n, i as nat);
            }
            let ghost ms_inp = inp@;
            let ghost ms_removed = removed@;
            let x = inp.remove(i);
            removed.push(x);
            proof {
                lemma_move_input(ms_inp, ms_removed, i as int);
                lemma_order_remove(ms_inp, inp0, idx, i as int);
                idx = idx.remove(i as int);
            }
            LNode::reduce_lut(&mut lut, i, val);
            proof {
                let bogus = |p: usize| false;
                law_reduce_lut_eval(l, ref_values(old_inp, bogus), i as nat, val);
                assert forall|env: spec_fn(usize) -> bool|
                    env_agrees(inp0, env) implies #[trigger] lut_eval(lut@, ref_values(inp@, env)) == lut_eval(lut0, ref_values(inp0, env)) by {
                    let vals = ref_values(old_inp, env);
                    law_reduce_lut_eval(l, vals, i as nat, val);
                    assert(ref_values(inp@, env) =~= vals.remove(i as int));
                    assert(inp0.contains(old_inp[i as int]));
                    let k0 = choose|k0: int| 0 <= k0 < inp0.len() && inp0[k0] == old_inp[i as int];
                    assert(inp0[k0].constant == Some(val));
                    assert(vals.update(i as int, val) =~= vals);
                    assert(lut_eval(l, ref_values(old_inp, env)) == lut_eval(lut0, ref_values(inp0, env)));
                }
                assert forall|k: int| 0 <= k < inp@.len() implies inp0.contains(#[trigger] inp@[k]) by {
                    if k < i {
                        assert(inp@[k] == old_inp[k]);
                    } else {
                        assert(inp@[k] == old_inp[k + 1]);
                    }
                }
            }
        }
    }
    // merge inputs of the same source, one pair at a time
    loop
        invariant
            is_lut(lut@, inp@.len()),
            inp@.len() <= 255,
            keeps_node(lut0, inp0, lut@, inp@),
            inputs_from(inp@, inp0),
            inputs_from(removed@, inp0),
            inp@.len() + removed@.len() == inp0.len(),
            inp@.to_multiset().add(removed@.to_multiset()) == inp0.to_multiset(),
            order_kept(inp@, inp0, idx),
            forall|k: int| 0 <= k < inp@.len() ==> (#[trigger] inp@[k]).constant is None,
        ensures
            is_lut(lut@, inp@.len()),
            inp@.len() <= 255,
            keeps_node(lut0, inp0, lut@, inp@),
            inputs_from(inp@, inp0),
            inputs_from(removed@, inp0),
            inp@.len() + removed@.len() == inp0.len(),
            inp@.to_multiset().add(removed@.to_multiset()) == inp0.to_multiset(),
            order_kept(inp@, inp0, idx),
            forall|k: int| 0 <= k < inp@.len() ==> (#[trigger] inp@[k]).constant is None,
            forall|a: int, b: int| 0 <= a < b < inp@.len() ==> (#[trigger] inp@[a]).p_equiv.inx != (#[trigger] inp@[b]).p_equiv.inx,
        decreases inp@.len(),
    {
        match find_same_source(&inp) {
            None => break,
            Some((i, j)) => {
                let ghost n = inp@.len();
                let ghost l = lut@;
                let ghost old_inp = inp@;
                let half = lut.len() / 2;
                let ll = lut.len();
                proof {
                    lemma_lut_shape_of_inputs(n, j as nat);
                    lemma_pow2_unfold(n);
                    // the table fits in memory, so its index fits in a `usize`
                    vstd::arithmetic::power2::lemma2_to64();
                    vstd::arithmetic::power2::lemma2_to64_rest();
                    if n >= usize::BITS {
                        if n > usize::BITS {
                            vstd::arithmetic::power2::lemma_pow2_strictly_increases(usize::BITS as nat, n);
                        }
                        assert(false);
                    }
                }
                let mut next_lut: Vec<bool> = Vec::new();
                let mut t: usize = 0;
                while t < half
                    invariant
                        half == lut@.len() / 2,
                        ll == lut@.len(),
                        n < usize::BITS,
                        lut_shape(lut@.len(), j as nat),
                        0 <= j < i < n,
                        n == inp@.len(),
                        n <= 255,
                        t <= half,
                        next_lut@.len() == t,
                        forall|m: int| 0 <= m < t ==> #[trigger] next_lut@[m] == lut@[insert_index(m, j as nat, index_bit(m, (i - 1) as nat))],
                    decreases half - t,
                {
                    proof {
                        lemma2_to64();
                    }
                    let b = usize_bit(t, i - 1);
                    let k = insert_index_exec(t, j, b, Ghost(lut@.len()));
                    next_lut.push(lut[k]);
                    t = t + 1;
                }
                let ghost ms_inp = inp@;
                let ghost ms_removed = removed@;
                let x = inp.remove(j);
                removed.push(x);
                proof {
                    lemma_move_input(ms_inp, ms_removed, j as int);
                    lemma_order_remove(ms_inp, inp0, idx, j as int);
                    idx = idx.remove(j as int);
                }
                lut = next_lut;
                proof {
                    lemma_pow2_pos((n - 1) as nat);
                    assert forall|env: spec_fn(usize) -> bool|
                        env_agrees(inp0, env) implies #[trigger] lut_eval(lut@, ref_values(inp@, env)) == lut_eval(lut0, ref_values(inp0, env)) by {
                        let vals = ref_values(old_inp, env);
                        lemma_merge_eval(l, lut@, vals, i as int, j as int);
                        assert(ref_values(inp@, env) =~= vals.remove(j as int));
                        assert(lut_eval(l, ref_values(old_inp, env)) == lut_eval(lut0, ref_values(inp0, env)));
                    }
                    assert forall|k: int| 0 <= k < inp@.len() implies inp0.contains(#[trigger] inp@[k]) by {
                        if k < j {
                            assert(inp@[k] == old_inp[k]);
                        } else {
                            assert(inp@[k] == old_inp[k + 1]);
                        }
                    }
                    assert forall|k: int| 0 <= k < inp@.len() implies (#[trigger] inp@[k]).constant is None by {
                        if k < j {
                            assert(inp@[k] == old_inp[k]);
                        } else {
                            assert(inp@[k] == old_inp[k + 1]);
                        }
                    }
                }
            },
        }
    }
    // drop the inputs that the table does not depend on, which also takes all
    // zero and all one tables down to a constant
    let mut i: usize = inp.len();
    while i > 0
        invariant
            is_lut(lut@, inp@.len()),
            i <= inp@.len() <= 255,
            keeps_node(lut0, inp0, lut@, inp@),
            inputs_from(inp@, inp0),
            inputs_from(removed@, inp0),
            inp@.len() + removed@.len() == inp0.len(),
            inp@.to_multiset().add(removed@.to_multiset()) == inp0.to_multiset(),
            order_kept(inp@, inp0, idx),
            forall|k: int| 0 <= k < inp@.len() ==> (#[trigger] inp@[k]).constant is None,
            forall|a: int, b: int| 0 <= a < b < inp@.len() ==> (#[trigger] inp@[a]).p_equiv.inx != (#[trigger] inp@[b]).p_equiv.inx,
            forall|k: int| i <= k < inp@.len() ==> #[trigger] depends_on(lut@, inp@.len() as nat, k),
        decreases i,
    {
        i = i - 1;
        let ghost n = inp@.len();
        let ghost l = lut@;
        let ghost old_inp = inp@;
        proof {
            lemma_lut_shape_of_inputs(n, i as nat);
            lemma_pow2_unfold(n);
            lemma_pow2_pos((n - 1) as nat);
        }
        if lut.len() > 1 && LNode::reduce_independent_lut(&mut lut, i) {
            let ghost ms_inp = inp@;
            let ghost ms_removed = removed@;
            let x = inp.remove(i);
            removed.push(x);
            proof {
                lemma_move_input(ms_inp, ms_removed, i as int);
                lemma_order_remove(ms_inp, inp0, idx, i as int);
                idx = idx.remove(i as int);
            }
            proof {
                let bogus = |p: usize| false;
                law_independent_lut_eval(l, ref_values(old_inp, bogus), i as nat);
                law_reduce_lut_eval(l, ref_values(old_inp, bogus), i as nat, false);
                assert forall|env: spec_fn(usize) -> bool|
                    env_agrees(inp0, env) implies #[trigger] lut_eval(lut@, ref_values(inp@, env)) == lut_eval(lut0, ref_values(inp0, env)) by {
                    let vals = ref_values(old_inp, env);
                    law_independent_lut_eval(l, vals, i as nat);
                    assert(ref_values(inp@, env) =~= vals.remove(i as int));
                    assert(lut_eval(l, ref_values(old_inp, env)) == lut_eval(lut0, ref_values(inp0, env)));
                }
                assert forall|k: int| i <= k < inp@.len() implies #[trigger] depends_on(lut@, inp@.len() as nat, k) by {
                    assert(depends_on(l, n, k + 1));
                    lemma_depends_after_reduce(l, n, i as nat, k + 1);
                }
                assert forall|k: int| 0 <= k < inp@.len() implies inp0.contains(#[trigger] inp@[k]) && (#[trigger] inp@[k]).constant is None by {
                    if k < i {
                        assert(inp@[k] == old_inp[k]);
                    } else {
                        assert(inp@[k] == old_inp[k + 1]);
                    }
                }
                assert forall|a: int, b: int| 0 <= a < b < inp@.len() implies (#[trigger] inp@[a]).p_equiv.inx != (#[trigger] inp@[b]).p_equiv.inx by {
                    let a0 = if a < i { a } else { a + 1 };
                    let b0 = if b < i { b } else { b + 1 };
                    assert(inp@[a] == old_inp[a0]);
                    assert(inp@[b] == old_inp[b0]);
                }
            }
        } else {
            proof {
                if l.len() > 1 {
                    lemma_depends_of_dependent(l, n, i as nat);
                }
            }
        }
    }
    let n = inp.len();
    proof {
        lemma2_to64();
        if n > 0 {
            lemma_pow2_unfold(n as nat);
            lemma_pow2_pos((n - 1) as nat);
        }
        if n > 1 {
            lemma_pow2_unfold((n - 1) as nat);
            lemma_pow2_pos((n - 2) as nat);
        }
    }
    if lut.len() == 1 {
        proof {
            assert forall|env: spec_fn(usize) -> bool|
                env_agrees(inp0, env) implies #[trigger] outcome_eval(LNodeOutcome::Const(lut@[0]), env) == lut_eval(lut0, ref_values(inp0, env)) by {
                assert(ref_values(inp@, env) =~= Seq::<bool>::empty());
                assert(lut_eval(lut@, ref_values(inp@, env)) == lut_eval(lut0, ref_values(inp0, env)));
            }
            broadcast use vstd::seq_lib::group_to_multiset_ensures;
            assert(inp@.to_multiset().len() == 0);
            assert(removed@.to_multiset() =~= inp0.to_multiset());
        }
        (LNodeOutcome::Const(lut[0]), removed)
    } else if lut.len() == 2 && lut[1] {
        // the only two entry tables that survive the independence removal are
        // identity and inversion: this one is identity
        let x = inp[0];
        proof {
            assert(depends_on(lut@, 1, 0));
            let vals = choose|vals: Seq<bool>|
                vals.len() == 1 && #[trigger] lut_eval(lut@, vals.update(0, true)) != lut_eval(lut@, vals.update(0, false));
            assert(vals.update(0, true) =~= seq![true]);
            assert(vals.update(0, false) =~= seq![false]);
            assert(seq![true].drop_first() =~= Seq::<bool>::empty());
            assert(seq![false].drop_first() =~= Seq::<bool>::empty());
            assert(input_index(Seq::<bool>::empty()) == 0);
            assert(input_index(seq![true]) == 1);
            assert(input_index(seq![false]) == 0);
            assert(!lut@[0]);
            assert forall|env: spec_fn(usize) -> bool|
                env_agrees(inp0, env) implies #[trigger] outcome_eval(LNodeOutcome::Copy(x), env) == lut_eval(lut0, ref_values(inp0, env)) by {
                let v = ref_values(inp@, env);
                assert(v =~= seq![env(x.p_equiv.inx)]);
                assert(v.drop_first() =~= Seq::<bool>::empty());
                assert(lut_eval(lut@, ref_values(inp@, env)) == lut_eval(lut0, ref_values(inp0, env)));
            }
            assert(inp0.contains(inp@[0]));
            broadcast use vstd::seq_lib::group_to_multiset_ensures;
            assert(inp@ =~= Seq::<LutInputRef>::empty().push(x));
            assert(Seq::<LutInputRef>::empty().to_multiset().len() == 0);
            assert(inp@.to_multiset() =~= vstd::multiset::Multiset::<LutInputRef>::empty().insert(x));
            assert(removed@.to_multiset().insert(x) =~= inp0.to_multiset());
        }
        (LNodeOutcome::Copy(x), removed)
    } else {
        proof {
            assert forall|env: spec_fn(usize) -> bool|
                env_agrees(inp0, env) implies #[trigger] outcome_eval(LNodeOutcome::Lut(inp, lut), env) == lut_eval(lut0, ref_values(inp0, env)) by {
                assert(lut_eval(lut@, ref_values(inp@, env)) == lut_eval(lut0, ref_values(inp0, env)));
            }
            assert(order_kept(inp@, inp0, idx));
        }
        (LNodeOutcome::Lut(inp, lut), removed)
    }
}

/// The first input, and an earlier one, that refer to the same equivalence
/// (by index), found by inserting each input's equivalence into a small map
/// in turn; `None` if the equivalences all differ.
fn find_same_source(inp: &Vec<LutInputRef>) -> (r: Option<(usize, usize)>)
    ensures
        r matches Some((i, j)) ==> j < i < inp@.len() && inp@[i as int].p_equiv.inx == inp@[j as int].p_equiv.inx,
        r is None ==> forall|a: int, b: int| 0 <= a < b < inp@.len() ==> (#[trigger] inp@[a]).p_equiv.inx != (#[trigger] inp@[b]).p_equiv.inx,
{
    let mut set: SmallMap<usize, usize> = SmallMap::new();
    let mut i: usize = 0;
    while i < inp.len()
        invariant
            i <= inp@.len(),
            set.entries().len() == i,
            forall|k: int| 0 <= k < i ==> (#[trigger] set.entries()[k]) == (inp@[k].p_equiv.inx, k as usize),
            forall|a: int, b: int| 0 <= a < b < i ==> (#[trigger] inp@[a]).p_equiv.inx != (#[trigger] inp@[b]).p_equiv.inx,
        decreases inp@.len() - i,
    {
        let ghost old_entries = set.entries();
        match set.insert(inp[i].p_equiv.inx, i) {
            Ok(()) => {
                proof {
                    assert forall|a: int, b: int| 0 <= a < b < i + 1 implies (#[trigger] inp@[a]).p_equiv.inx != (#[trigger] inp@[b]).p_equiv.inx by {
                        if b == i {
                            assert(old_entries[a] == (inp@[a].p_equiv.inx, a as usize));
                            assert(!old_entries[a].0.eq_spec(&inp@[i as int].p_equiv.inx));
                        }
                    }
                }
            },
            Err(j) => {
                proof {
                    let m = choose|m: int|
                        first_key_match(old_entries, inp@[i as int].p_equiv.inx, m) && j == old_entries[m].1
                            && set.entries() == old_entries.update(m, (old_entries[m].0, i));
                    assert(old_entries[m] == (inp@[m].p_equiv.inx, m as usize));
                }
                return Some((i, j));
            },
        }
        i = i + 1;
    }
    None
}

/// What the optimizer reads of one referent of an equivalence.
#[derive(Clone, Copy, Debug, PartialEq, Eq, Structural)]
pub enum ReferentUse {
    ThisEquiv,
    /// A lookup table node of the equivalence, and whether it evaluates to a
    /// constant
    ThisLNode(bool),
    /// A temporal node of the equivalence, and whether its driver is a
    /// constant
    ThisTNode(bool),
    /// A bit of a state, and whether the state is used from outside
    ThisStateBit(bool),
    /// An input of a lookup table node
    Input,
    /// The driver of a temporal node, and whether that node drives this same
    /// equivalence
    LoopDriver(bool),
    ThisRNode,
}

/// The referent makes the equivalence used: an input, an external node, a
/// state used from outside, or a loop driving another equivalence.
pub open spec fn is_use(r: ReferentUse) -> bool {
    match r {
        ReferentUse::ThisStateBit(external) => external,
        ReferentUse::Input => true,
        ReferentUse::LoopDriver(drives_itself) => !drives_itself,
        ReferentUse::ThisRNode => true,
        _ => false,
    }
}

/// The referent is a node that evaluates to a constant.
pub open spec fn makes_const(r: ReferentUse) -> bool {
    match r {
        ReferentUse::ThisLNode(c) => c,
        ReferentUse::ThisTNode(c) => c,
        _ => false,
    }
}

/// What the first look at an equivalence decides, from what reads it and
/// whether its value is a constant.
pub open spec fn equiv_fate(referents: Seq<ReferentUse>, is_const: bool) -> EquivFate {
    if !(exists|i: int| 0 <= i < referents.len() && is_use(#[trigger] referents[i])) {
        EquivFate::Remove
    } else if is_const || exists|i: int| 0 <= i < referents.len() && makes_const(#[trigger] referents[i]) {
        EquivFate::Constify
    } else {
        EquivFate::Investigate
    }
}

/// An equivalence read by an input, an external node, a state used from
/// outside, or a loop driving another equivalence, is constified when its
/// value is a constant or one of its lookup table or temporal nodes
/// evaluates to one; an equivalence nothing reads is removed; one that is
/// read and has no constant is left for further investigation.
pub proof fn law_equiv_fate(referents: Seq<ReferentUse>, is_const: bool, u: int, c: int)
    requires
        0 <= u < referents.len(),
        referents[u] == ReferentUse::Input || referents[u] == ReferentUse::ThisRNode
            || referents[u] == ReferentUse::ThisStateBit(true) || referents[u] == ReferentUse::LoopDriver(false),
    ensures
        is_const ==> equiv_fate(referents, is_const) == EquivFate::Constify,
        0 <= c < referents.len() && (referents[c] == ReferentUse::ThisLNode(true) || referents[c] == ReferentUse::ThisTNode(true))
            ==> equiv_fate(referents, is_const) == EquivFate::Constify,
        !is_const && (forall|k: int| 0 <= k < referents.len() ==> #[trigger] referents[k] != ReferentUse::ThisLNode(true)
            && referents[k] != ReferentUse::ThisTNode(true)) ==> equiv_fate(referents, is_const) == EquivFate::Investigate,
{
    assert(is_use(referents[u]));
    if 0 <= c < referents.len() && (referents[c] == ReferentUse::ThisLNode(true) || referents[c] == ReferentUse::ThisTNode(true)) {
        assert(makes_const(referents[c]));
    }
    if !is_const && (forall|k: int| 0 <= k < referents.len() ==> #[trigger] referents[k] != ReferentUse::ThisLNode(true)
        && referents[k] != ReferentUse::ThisTNode(true)) {
        assert forall|k: int| 0 <= k < referents.len() implies !makes_const(#[trigger] referents[k]) by {
            assert(referents[k] != ReferentUse::ThisLNode(true));
            assert(referents[k] != ReferentUse::ThisTNode(true));
        }
    }
}

/// An equivalence that nothing reads is removed: its referents are its own
/// reference, its nodes, states used only inside, and loops driving itself.
pub proof fn law_unread_equiv_removed(referents: Seq<ReferentUse>, is_const: bool)
    requires
        forall|k: int| 0 <= k < referents.len() ==> match #[trigger] referents[k] {
            ReferentUse::ThisEquiv | ReferentUse::ThisLNode(_) | ReferentUse::ThisTNode(_) => true,
            ReferentUse::ThisStateBit(external) => !external,
            ReferentUse::LoopDriver(drives_itself) => drives_itself,
            _ => false,
        },
    ensures
        equiv_fate(referents, is_const) == EquivFate::Remove,
{
    assert forall|k: int| 0 <= k < referents.len() implies !is_use(#[trigger] referents[k]) by {}
}

/// The order in which optimizations run: by kind, in the order the kinds
/// are declared (removals and forwarding before constification, then the
/// investigations), whatever the handles; within a kind, by the handle's
/// index, then its generation.
pub proof fn law_optimization_order(p: PBack, q: PBack, l: PLNode, m: PLNode, t: PTNode, u: PTNode)
    ensures
        opt_lt(Optimization::Preinvestigate(p), Optimization::RemoveEquiv(q)),
        opt_lt(Optimization::RemoveEquiv(p), Optimization::ForwardEquiv(q)),
        opt_lt(Optimization::ForwardEquiv(p), Optimization::ConstifyEquiv(q)),
        opt_lt(Optimization::ConstifyEquiv(p), Optimization::RemoveLNode(q)),
        opt_lt(Optimization::RemoveLNode(p), Optimization::InvestigateUsed(q)),
        opt_lt(Optimization::InvestigateUsed(p), Optimization::InvestigateConst(l)),
        opt_lt(Optimization::InvestigateConst(l), Optimization::InvestigateLoopDriverConst(t)),
        opt_lt(Optimization::InvestigateLoopDriverConst(t), Optimization::InvestigateEquiv0(q)),
        opt_lt(Optimization::RemoveEquiv(p), Optimization::RemoveEquiv(q)) <==> (p.inx < q.inx || (p.inx == q.inx && p.gen < q.gen)),
        opt_lt(Optimization::ForwardEquiv(p), Optimization::ForwardEquiv(q)) <==> (p.inx < q.inx || (p.inx == q.inx && p.gen < q.gen)),
        opt_lt(Optimization::ConstifyEquiv(p), Optimization::ConstifyEquiv(q)) <==> (p.inx < q.inx || (p.inx == q.inx && p.gen < q.gen)),
        opt_lt(Optimization::InvestigateConst(l), Optimization::InvestigateConst(m)) <==> (l.inx < m.inx || (l.inx == m.inx && l.gen < m.gen)),
        opt_lt(Optimization::InvestigateLoopDriverConst(t), Optimization::InvestigateLoopDriverConst(u)) <==> (t.inx < u.inx || (t.inx == u.inx && t.gen < u.gen)),
{
}

/// The order is a strict order: never both ways, and transitive.
pub proof fn law_optimization_order_strict(a: Optimization, b: Optimization, c: Optimization)
    ensures
        !(opt_lt(a, b) && opt_lt(b, a)),
        !opt_lt(a, a),
        opt_lt(a, b) && opt_lt(b, c) ==> opt_lt(a, c),
        a != b ==> opt_lt(a, b) || opt_lt(b, a),
{
    if a != b && !opt_lt(a, b) && !opt_lt(b, a) {
        lemma_opt_key_injective(a, b);
    }
}

/// What the first look at an equivalence decides.
#[derive(Clone, Copy, Debug, PartialEq, Eq, Structural)]
pub enum EquivFate {
    /// Nothing uses it: it goes
    Remove,
    /// It is a constant: its nodes go
    Constify,
    /// It stays for the later investigations
    Investigate,
}

/// Whether some referent uses the equivalence.
pub fn equiv_is_used(referents: &Vec<ReferentUse>) -> (r: bool)
    ensures
        r == exists|i: int| 0 <= i < referents@.len() && is_use(#[trigger] referents@[i]),
{
    let mut i: usize = 0;
    while i < referents.len()
        invariant
            i <= referents@.len(),
            forall|k: int| 0 <= k < i ==> !is_use(#[trigger] referents@[k]),
        decreases referents@.len() - i,
    {
        let used = match referents[i] {
            ReferentUse::ThisStateBit(external) => external,
            ReferentUse::Input => true,
            // a loop that drives its own equivalence does not use it
            ReferentUse::LoopDriver(drives_itself) => !drives_itself,
            ReferentUse::ThisRNode => true,
            _ => false,
        };
        if used {
            return true;
        }
        i = i + 1;
    }
    false
}

/// The first look at an equivalence: it is removed if nothing uses it,
/// constified if it is or evaluates to a constant, and otherwise left for
/// further investigation.
pub fn preinvestigate_equiv(referents: &Vec<ReferentUse>, is_const: bool) -> (r: EquivFate)
    ensures
        r == equiv_fate(referents@, is_const),
{
    let mut non_self_rc: usize = 0;
    let mut is_const = is_const;
    let ghost c0 = is_const;
    let mut i: usize = 0;
    while i < referents.len()
        invariant
            i <= referents@.len(),
            (non_self_rc == 0) == forall|k: int| 0 <= k < i ==> !is_use(#[trigger] referents@[k]),
            non_self_rc <= i,
            is_const == (c0 || exists|k: int| 0 <= k < i && makes_const(#[trigger] referents@[k])),
        decreases referents@.len() - i,
    {
        let r = referents[i];
        match r {
            ReferentUse::ThisEquiv => {},
            // no need to look further once it is known to be constant
            ReferentUse::ThisLNode(c) => {
                if !is_const && c {
                    is_const = true;
                }
            },
            ReferentUse::ThisTNode(c) => {
                if !is_const && c {
                    is_const = true;
                }
            },
            ReferentUse::ThisStateBit(external) => {
                if external {
                    non_self_rc = non_self_rc + 1;
                }
            },
            ReferentUse::Input => {
                non_self_rc = non_self_rc + 1;
            },
            ReferentUse::LoopDriver(drives_itself) => {
                if !drives_itself {
                    non_self_rc = non_self_rc + 1;
                }
            },
            ReferentUse::ThisRNode => {
                non_self_rc = non_self_rc + 1;
            },
        }
        proof {
            if is_use(r) {
                assert(!(forall|k: int| 0 <= k < i + 1 ==> !is_use(#[trigger] referents@[k])));
            }
            if makes_const(r) {
                assert(exists|k: int| 0 <= k < i + 1 && makes_const(#[trigger] referents@[k]));
            }
        }
        i = i + 1;
    }
    if non_self_rc == 0 {
        EquivFate::Remove
    } else if is_const {
        EquivFate::Constify
    } else {
        EquivFate::Investigate
    }
}

} // verus!
