//! The ensemble: equivalence classes of bits, the back references into them,
//! the lookup table nodes and temporal nodes that drive them, the external
//! nodes that read them, and the states they are lowered from. Entries live
//! in slots that are never reused, so an index names one entry for good; an
//! emptied slot is a removed entry.

use vstd::prelude::*;
use crate::value::Value;
use crate::error::EvalError;
use crate::ptr::{PBack, PLNode, PState, PTNode};
use crate::stator::Stator;
use crate::lut::is_lut;
use vstd::arithmetic::power2::{pow2, lemma2_to64, lemma_pow2_strictly_increases};
use crate::optimize::{Optimization, Optimizer, LutInputRef, LNodeOutcome, const_eval_lut, ReferentUse, EquivFate, preinvestigate_equiv};

verus! {

/// What a back reference stands for in its equivalence.
#[derive(Clone, Copy, Debug, PartialEq, Eq, Structural)]
pub enum Referent {
    /// The equivalence's reference to itself
    ThisEquiv,
    /// The output of this lookup table node
    ThisLNode(usize),
    /// An input of this lookup table node
    Input(usize),
    /// A bit read by this external node
    ThisRNode(usize),
    /// The output of this temporal node
    ThisTNode(usize),
    /// What drives this temporal node
    LoopDriver(usize),
}

/// A back reference: what it stands for, and the equivalence it is in.
#[derive(Clone, Copy, Debug, PartialEq, Eq, Structural)]
pub struct BackRef {
    pub referent: Referent,
    pub equiv: usize,
}

/// An equivalence class of bits with one value.
#[derive(Clone, Copy, Debug, PartialEq, Eq, Structural)]
pub struct Equiv {
    /// The back reference of kind `ThisEquiv`
    pub p_self_equiv: usize,
    pub val: Value,
}

/// A lookup table node: its output back reference, its input back
/// references, and its table; a node without a table copies its one input.
pub struct EnsLNode {
    pub p_self: usize,
    pub inputs: Vec<usize>,
    pub table: Option<Vec<bool>>,
}

/// A temporal node: its output back reference, and the back reference of
/// what drives it after `delay`.
pub struct EnsTNode {
    pub p_self: usize,
    pub p_driver: usize,
    pub delay: crate::tnode::Delay,
}

/// A slot is in use.
pub open spec fn live<T>(s: Seq<Option<T>>, i: int) -> bool {
    0 <= i < s.len() && s[i] is Some
}

/// The referent is a part of lookup table node `l`.
pub open spec fn mentions_lnode(r: Referent, l: int) -> bool {
    is_output_of(r, l) || is_input_of(r, l)
}

/// The referent is the output of lookup table node `l`.
pub open spec fn is_output_of(r: Referent, l: int) -> bool {
    match r {
        Referent::ThisLNode(x) => x == l,
        _ => false,
    }
}

/// The referent is an input of lookup table node `l`.
pub open spec fn is_input_of(r: Referent, l: int) -> bool {
    match r {
        Referent::Input(x) => x == l,
        _ => false,
    }
}

/// The referent is the output of temporal node `t`.
pub open spec fn is_tout_of(r: Referent, t: int) -> bool {
    match r {
        Referent::ThisTNode(x) => x == t,
        _ => false,
    }
}

/// The referent is what drives temporal node `t`.
pub open spec fn is_driver_of(r: Referent, t: int) -> bool {
    match r {
        Referent::LoopDriver(x) => x == t,
        _ => false,
    }
}

/// The referent is a part of temporal node `t`.
pub open spec fn mentions_tnode(r: Referent, t: int) -> bool {
    match r {
        Referent::ThisTNode(x) => x == t,
        Referent::LoopDriver(x) => x == t,
        _ => false,
    }
}

/// The referent is a bit of external node `rr`.
pub open spec fn mentions_rnode(r: Referent, rr: int) -> bool {
    match r {
        Referent::ThisRNode(x) => x == rr,
        _ => false,
    }
}

/// `v` with every `from` changed to `to`.
fn vec_replace(v: &Vec<usize>, from: usize, to: usize) -> (r: Vec<usize>)
    ensures
        r@ == v@.map_values(|x: usize| if x == from { to } else { x }),
{
    let mut r: Vec<usize> = Vec::new();
    let mut i: usize = 0;
    while i < v.len()
        invariant
            i <= v@.len(),
            r@ == v@.take(i as int).map_values(|x: usize| if x == from { to } else { x }),
        decreases v@.len() - i,
    {
        let x = v[i];
        r.push(if x == from { to } else { x });
        proof {
            assert(v@.take(i + 1) =~= v@.take(i as int).push(x));
        }
        i = i + 1;
    }
    proof {
        assert(v@.take(v@.len() as int) =~= v@);
    }
    r
}

/// Whether a table of `len` entries fits `n` inputs.
fn table_fits(len: usize, n: usize) -> (r: bool)
    ensures
        r == (len == pow2(n as nat)),
{
    if n < usize::BITS as usize {
        len == crate::meta::pow2_usize(n)
    } else {
        proof {
            lemma2_to64();
            if n > usize::BITS {
                lemma_pow2_strictly_increases(usize::BITS as nat, n as nat);
            }
        }
        false
    }
}

/// Whether `v` holds `x`.
fn vec_contains(v: &Vec<usize>, x: usize) -> (r: bool)
    ensures
        r == v@.contains(x),
{
    let mut i: usize = 0;
    while i < v.len()
        invariant
            i <= v@.len(),
            forall|k: int| 0 <= k < i ==> v@[k] != x,
        decreases v@.len() - i,
    {
        if v[i] == x {
            return true;
        }
        i = i + 1;
    }
    false
}

pub struct Ensemble {
    backrefs: Vec<Option<BackRef>>,
    equivs: Vec<Option<Equiv>>,
    lnodes: Vec<Option<EnsLNode>>,
    rnodes: Vec<Option<Vec<usize>>>,
    tnodes: Vec<Option<EnsTNode>>,
    optimizer: Optimizer,
    /// The states that the nodes are lowered from
    stator: Stator,
}

impl Ensemble {
    pub closed spec fn brefs(&self) -> Seq<Option<BackRef>> {
        self.backrefs@
    }

    /// The states that the nodes are lowered from.
    pub closed spec fn states(&self) -> Stator {
        self.stator
    }

    pub closed spec fn opt_wf(&self) -> bool {
        self.optimizer.wf()
    }

    /// The waiting optimizations.
    pub closed spec fn pending(&self) -> Set<Optimization> {
        self.optimizer.pending()
    }

    pub closed spec fn queue(&self) -> Seq<Optimization> {
        self.optimizer.queue()
    }

    pub closed spec fn eqs(&self) -> Seq<Option<Equiv>> {
        self.equivs@
    }

    /// The output back reference of each lookup table node.
    pub closed spec fn ln_self(&self, l: int) -> usize {
        self.lnodes@[l]->Some_0.p_self
    }

    /// The input back references of each lookup table node.
    pub closed spec fn ln_inputs(&self, l: int) -> Seq<usize> {
        self.lnodes@[l]->Some_0.inputs@
    }

    /// The table of each lookup table node, none for a copy.
    pub closed spec fn ln_table(&self, l: int) -> Option<Seq<bool>> {
        match self.lnodes@[l]->Some_0.table {
            Some(t) => Some(t@),
            None => None,
        }
    }

    pub closed spec fn ln_live(&self, l: int) -> bool {
        live(self.lnodes@, l)
    }

    pub closed spec fn tn_live(&self, t: int) -> bool {
        live(self.tnodes@, t)
    }

    /// The output back reference of each temporal node.
    pub closed spec fn tn_self(&self, t: int) -> usize {
        self.tnodes@[t]->Some_0.p_self
    }

    /// The driver back reference of each temporal node.
    pub closed spec fn tn_driver(&self, t: int) -> usize {
        self.tnodes@[t]->Some_0.p_driver
    }

    pub closed spec fn same_tnodes(&self, other: &Self) -> bool {
        self.tnodes@ == other.tnodes@
    }

    pub closed spec fn rn_live(&self, r: int) -> bool {
        live(self.rnodes@, r)
    }

    /// The bits, as back references, that each external node reads.
    pub closed spec fn rn_bits(&self, r: int) -> Seq<usize> {
        self.rnodes@[r]->Some_0@
    }

    pub open spec fn bref(&self, b: int) -> BackRef {
        self.brefs()[b]->Some_0
    }

    pub open spec fn bref_live(&self, b: int) -> bool {
        live(self.brefs(), b)
    }

    pub open spec fn eq_live(&self, e: int) -> bool {
        live(self.eqs(), e)
    }

    pub open spec fn eq_of(&self, e: int) -> Equiv {
        self.eqs()[e]->Some_0
    }

    /// External node `r` has a bit `k`.
    pub open spec fn has_external(&self, r: int, k: int) -> bool {
        self.rn_live(r) && 0 <= k < self.rn_bits(r).len()
    }

    /// The equivalence that bit `k` of external node `r` reads.
    pub open spec fn ext_equiv(&self, r: int, k: int) -> int {
        self.bref(self.rn_bits(r)[k] as int).equiv as int
    }

    /// The value that bit `k` of external node `r` reads.
    pub open spec fn external_value(&self, r: int, k: int) -> Value {
        self.eq_of(self.ext_equiv(r, k)).val
    }

    /// Back reference `b` is where its referent says it is.
    pub open spec fn wf_backref(&self, b: int) -> bool {
        let x = self.bref(b);
        &&& self.eq_live(x.equiv as int)
        &&& match x.referent {
            Referent::ThisEquiv => self.eq_of(x.equiv as int).p_self_equiv == b,
            Referent::ThisLNode(l) => self.ln_live(l as int) && self.ln_self(l as int) == b,
            Referent::Input(l) => self.ln_live(l as int) && self.ln_inputs(l as int).contains(b as usize),
            Referent::ThisRNode(r) => self.rn_live(r as int) && self.rn_bits(r as int).contains(b as usize),
            Referent::ThisTNode(t) => self.tn_live(t as int) && self.tn_self(t as int) == b,
            Referent::LoopDriver(t) => self.tn_live(t as int) && self.tn_driver(t as int) == b,
        }
    }

    /// Temporal node `t` has its output and driver back references.
    pub open spec fn wf_tnode(&self, t: int) -> bool {
        &&& self.bref_live(self.tn_self(t) as int)
        &&& is_tout_of(self.bref(self.tn_self(t) as int).referent, t)
        &&& self.bref_live(self.tn_driver(t) as int)
        &&& is_driver_of(self.bref(self.tn_driver(t) as int).referent, t)
    }

    /// Equivalence `e` has its own back reference.
    pub open spec fn wf_equiv(&self, e: int) -> bool {
        let q = self.eq_of(e);
        &&& self.bref_live(q.p_self_equiv as int)
        &&& self.bref(q.p_self_equiv as int) == BackRef { referent: Referent::ThisEquiv, equiv: e as usize }
    }

    /// Node `l` has its output and input back references, and a table that
    /// fits its inputs.
    pub open spec fn wf_lnode(&self, l: int) -> bool {
        &&& self.bref_live(self.ln_self(l) as int)
        &&& is_output_of(self.bref(self.ln_self(l) as int).referent, l)
        &&& forall|k: int| 0 <= k < self.ln_inputs(l).len() ==> {
            &&& self.bref_live(#[trigger] self.ln_inputs(l)[k] as int)
            &&& is_input_of(self.bref(self.ln_inputs(l)[k] as int).referent, l)
        }
        &&& match self.ln_table(l) {
            Some(t) => self.ln_inputs(l).len() <= 255 && is_lut(t, self.ln_inputs(l).len()),
            None => self.ln_inputs(l).len() == 1,
        }
    }

    /// The bits of external node `r` are its back references.
    pub open spec fn wf_rnode(&self, r: int) -> bool {
        forall|k: int| 0 <= k < self.rn_bits(r).len() ==> {
            &&& self.bref_live(#[trigger] self.rn_bits(r)[k] as int)
            &&& mentions_rnode(self.bref(self.rn_bits(r)[k] as int).referent, r)
        }
    }

    /// Well formed, except that the back references of node `skip_l`, of
    /// external node `skip_r` and of temporal node `skip_t`, and those nodes,
    /// may be out of step.
    pub open spec fn wf_except(&self, skip_l: int, skip_r: int, skip_t: int) -> bool {
        &&& forall|b: int| #[trigger] self.bref_live(b) ==> (mentions_lnode(self.bref(b).referent, skip_l)
            || mentions_rnode(self.bref(b).referent, skip_r) || mentions_tnode(self.bref(b).referent, skip_t) || self.wf_backref(b))
        &&& forall|e: int| #[trigger] self.eq_live(e) ==> self.wf_equiv(e)
        &&& forall|l: int| #[trigger] self.ln_live(l) ==> l == skip_l || self.wf_lnode(l)
        &&& forall|r: int| #[trigger] self.rn_live(r) ==> r == skip_r || self.wf_rnode(r)
        &&& forall|t: int| #[trigger] self.tn_live(t) ==> t == skip_t || self.wf_tnode(t)
        &&& self.opt_wf()
    }

    /// Every back reference, equivalence and node is where the others say.
    pub open spec fn wf(&self) -> bool {
        self.wf_except(-1, -1, -1)
    }


    /// Everything but the back references stays.
    pub open spec fn same_but_brefs(&self, other: &Self) -> bool {
        &&& self.eqs() == other.eqs()
        &&& self.same_lnodes(other)
        &&& self.same_rnodes(other)
        &&& self.same_tnodes(other)
        &&& self.queue() == other.queue()
    }

    pub closed spec fn same_lnodes(&self, other: &Self) -> bool {
        self.lnodes@ == other.lnodes@
    }

    pub closed spec fn same_rnodes(&self, other: &Self) -> bool {
        self.rnodes@ == other.rnodes@
    }

    /// Takes out back reference `b`, a part of one of the nodes left out.
    fn remove_backref(&mut self, b: usize, Ghost(skip_l): Ghost<int>, Ghost(skip_r): Ghost<int>, Ghost(skip_t): Ghost<int>)
        requires
            old(self).wf_except(skip_l, skip_r, skip_t),
            old(self).bref_live(b as int),
            mentions_lnode(old(self).bref(b as int).referent, skip_l)
                || mentions_rnode(old(self).bref(b as int).referent, skip_r)
                || mentions_tnode(old(self).bref(b as int).referent, skip_t),
        ensures
            final(self).wf_except(skip_l, skip_r, skip_t),
            final(self).brefs() == old(self).brefs().update(b as int, None),
            final(self).same_but_brefs(old(self)),
    {
        let ghost s0 = *self;
        self.backrefs.set(b, None);
        proof {
            assert forall|e: int| #[trigger] self.eq_live(e) implies self.wf_equiv(e) by {
                assert(s0.eq_live(e));
                assert(s0.wf_equiv(e));
            }
            assert forall|t: int| #[trigger] self.tn_live(t) implies t == skip_t || self.wf_tnode(t) by {
                assert(s0.tn_live(t));
                if t != skip_t {
                    assert(s0.wf_tnode(t));
                    assert(s0.bref_live(s0.tn_self(t) as int));
                    assert(s0.bref_live(s0.tn_driver(t) as int));
                }
            }
            assert forall|l: int| #[trigger] self.ln_live(l) implies l == skip_l || self.wf_lnode(l) by {
                assert(s0.ln_live(l));
                if l != skip_l {
                    assert(s0.wf_lnode(l));
                    assert forall|k: int| 0 <= k < self.ln_inputs(l).len() implies {
                        &&& self.bref_live(#[trigger] self.ln_inputs(l)[k] as int)
                        &&& is_input_of(self.bref(self.ln_inputs(l)[k] as int).referent, l)
                    } by {
                        assert(s0.bref_live(s0.ln_inputs(l)[k] as int));
                    }
                }
            }
            assert forall|r: int| #[trigger] self.rn_live(r) implies r == skip_r || self.wf_rnode(r) by {
                assert(s0.rn_live(r));
                if r != skip_r {
                    assert(s0.wf_rnode(r));
                    assert forall|k: int| 0 <= k < self.rn_bits(r).len() implies {
                        &&& self.bref_live(#[trigger] self.rn_bits(r)[k] as int)
                        &&& mentions_rnode(self.bref(self.rn_bits(r)[k] as int).referent, r)
                    } by {
                        assert(s0.bref_live(s0.rn_bits(r)[k] as int));
                    }
                }
            }
            assert forall|c: int| #[trigger] self.bref_live(c) implies (mentions_lnode(self.bref(c).referent, skip_l)
                || mentions_rnode(self.bref(c).referent, skip_r) || mentions_tnode(self.bref(c).referent, skip_t) || self.wf_backref(c)) by {
                assert(s0.bref_live(c));
            }
        }
    }

    /// Adds a back reference for a part of one of the nodes left out.
    fn push_backref(&mut self, referent: Referent, equiv: usize, Ghost(skip_l): Ghost<int>, Ghost(skip_r): Ghost<int>, Ghost(skip_t): Ghost<int>) -> (r: usize)
        requires
            old(self).wf_except(skip_l, skip_r, skip_t),
            old(self).eq_live(equiv as int),
            mentions_lnode(referent, skip_l) || mentions_rnode(referent, skip_r) || mentions_tnode(referent, skip_t),
        ensures
            final(self).wf_except(skip_l, skip_r, skip_t),
            r == old(self).brefs().len(),
            final(self).brefs() == old(self).brefs().push(Some(BackRef { referent, equiv })),
            final(self).same_but_brefs(old(self)),
    {
        let ghost s0 = *self;
        let r = self.backrefs.len();
        self.backrefs.push(Some(BackRef { referent, equiv }));
        proof {
            assert forall|e: int| #[trigger] self.eq_live(e) implies self.wf_equiv(e) by {
                assert(s0.eq_live(e));
                assert(s0.wf_equiv(e));
            }
            assert forall|t: int| #[trigger] self.tn_live(t) implies t == skip_t || self.wf_tnode(t) by {
                assert(s0.tn_live(t));
                if t != skip_t {
                    assert(s0.wf_tnode(t));
                    assert(s0.bref_live(s0.tn_self(t) as int));
                    assert(s0.bref_live(s0.tn_driver(t) as int));
                }
            }
            assert forall|l: int| #[trigger] self.ln_live(l) implies l == skip_l || self.wf_lnode(l) by {
                assert(s0.ln_live(l));
                if l != skip_l {
                    assert(s0.wf_lnode(l));
                    assert forall|k: int| 0 <= k < self.ln_inputs(l).len() implies {
                        &&& self.bref_live(#[trigger] self.ln_inputs(l)[k] as int)
                        &&& is_input_of(self.bref(self.ln_inputs(l)[k] as int).referent, l)
                    } by {
                        assert(s0.bref_live(s0.ln_inputs(l)[k] as int));
                    }
                }
            }
            assert forall|q: int| #[trigger] self.rn_live(q) implies q == skip_r || self.wf_rnode(q) by {
                assert(s0.rn_live(q));
                if q != skip_r {
                    assert(s0.wf_rnode(q));
                    assert forall|k: int| 0 <= k < self.rn_bits(q).len() implies {
                        &&& self.bref_live(#[trigger] self.rn_bits(q)[k] as int)
                        &&& mentions_rnode(self.bref(self.rn_bits(q)[k] as int).referent, q)
                    } by {
                        assert(s0.bref_live(s0.rn_bits(q)[k] as int));
                    }
                }
            }
            assert forall|c: int| #[trigger] self.bref_live(c) implies (mentions_lnode(self.bref(c).referent, skip_l)
                || mentions_rnode(self.bref(c).referent, skip_r) || mentions_tnode(self.bref(c).referent, skip_t) || self.wf_backref(c)) by {
                if c < r {
                    assert(s0.bref_live(c));
                }
            }
        }
        r
    }

    /// The nodes other than `l` stay.
    pub open spec fn other_lnodes_stay(&self, prev: &Self, l: int) -> bool {
        forall|m: int| m != l ==> (#[trigger] self.ln_live(m) == prev.ln_live(m) && (prev.ln_live(m) ==> (
            self.ln_self(m) == prev.ln_self(m) && self.ln_inputs(m) == prev.ln_inputs(m)
                && self.ln_table(m) == prev.ln_table(m))))
    }

    /// Takes out lookup table node `l` with its output and input back
    /// references.
    fn remove_lnode(&mut self, l: usize)
        requires
            old(self).wf(),
            old(self).ln_live(l as int),
        ensures
            final(self).wf(),
            final(self).eqs() == old(self).eqs(),
            old(self).pending().subset_of(final(self).pending()),
            final(self).same_rnodes(old(self)),
            final(self).same_tnodes(old(self)),
            final(self).brefs().len() == old(self).brefs().len(),
            forall|b: int| 0 <= b < old(self).brefs().len() ==> #[trigger] final(self).brefs()[b] == if old(self).bref_live(b)
                && mentions_lnode(old(self).bref(b).referent, l as int) {
                None
            } else {
                old(self).brefs()[b]
            },
            !final(self).ln_live(l as int),
            final(self).other_lnodes_stay(old(self), l as int),
    {
        let ghost s0 = *self;
        let n_brefs = self.backrefs.len();
        let (p_self, inputs) = match &self.lnodes[l] {
            Some(n) => (n.p_self, n.inputs.clone()),
            None => (0, Vec::new()),
        };
        proof {
            assert(inputs@ =~= s0.ln_inputs(l as int));
            assert(s0.wf_lnode(l as int));
        }
        let mut i: usize = 0;
        while i < inputs.len()
            invariant
                s0.wf(),
                s0.ln_live(l as int),
                s0.wf_lnode(l as int),
                inputs@ == s0.ln_inputs(l as int),
                p_self == s0.ln_self(l as int),
                n_brefs == s0.brefs().len(),
                i <= inputs@.len(),
                self.wf_except(l as int, -1, -1),
                self.eqs() == s0.eqs() && self.same_lnodes(&s0) && self.same_rnodes(&s0) && self.same_tnodes(&s0) && s0.pending().subset_of(self.pending()),
                self.brefs().len() == s0.brefs().len(),
                forall|b: int| 0 <= b < s0.brefs().len() ==> #[trigger] self.brefs()[b] == if s0.bref_live(b)
                    && mentions_lnode(s0.bref(b).referent, l as int) && inputs@.take(i as int).contains(b as usize) {
                    None
                } else {
                    s0.brefs()[b]
                },
            decreases inputs@.len() - i,
        {
            let b = inputs[i];
            proof {
                assert(s0.bref_live(inputs@[i as int] as int));
                assert(is_input_of(s0.bref(inputs@[i as int] as int).referent, l as int));
                assert forall|c: int| 0 <= c < s0.brefs().len() implies #[trigger] inputs@.take(i + 1).contains(c as usize) == (
                    inputs@.take(i as int).contains(c as usize) || c == b) by {
                    let t1 = inputs@.take(i + 1);
                    let t0 = inputs@.take(i as int);
                    assert(t1 =~= t0.push(b));
                    if t0.contains(c as usize) {
                        let j = choose|j: int| 0 <= j < t0.len() && t0[j] == c as usize;
                        assert(t1[j] == c as usize);
                    }
                    if c == b {
                        assert(t1[i as int] == b);
                    }
                    if t1.contains(c as usize) {
                        let j = choose|j: int| 0 <= j < t1.len() && t1[j] == c as usize;
                        if j < i {
                            assert(t0[j] == c as usize);
                        }
                    }
                }
            }
            if self.backrefs[b].is_some() {
                // the equivalence of the input may be left unused
                proof {
                    assert(s0.wf_backref(b as int));
                }
                let e_b = match &self.backrefs[b] {
                    Some(x) => x.equiv,
                    None => 0,
                };
                let pse = match &self.equivs[e_b] {
                    Some(q) => q.p_self_equiv,
                    None => 0,
                };
                self.enqueue_in(Optimization::InvestigateUsed(PBack { inx: pse, gen: 0 }), Ghost(l as int), Ghost(-1), Ghost(-1));
                self.remove_backref(b, Ghost(l as int), Ghost(-1), Ghost(-1));
            }
            i = i + 1;
        }
        proof {
            assert(inputs@.take(inputs@.len() as int) =~= inputs@);
            assert(is_output_of(s0.bref(p_self as int).referent, l as int));
        }
        if self.backrefs[p_self].is_some() {
            self.remove_backref(p_self, Ghost(l as int), Ghost(-1), Ghost(-1));
        }
        let ghost s1 = *self;
        self.lnodes.set(l, None);
        proof {
            assert forall|b: int| 0 <= b < s0.brefs().len() implies #[trigger] self.brefs()[b] == if s0.bref_live(b)
                && mentions_lnode(s0.bref(b).referent, l as int) {
                None
            } else {
                s0.brefs()[b]
            } by {
                if s0.bref_live(b) && mentions_lnode(s0.bref(b).referent, l as int) {
                    assert(s0.wf_backref(b));
                    if is_input_of(s0.bref(b).referent, l as int) {
                        assert(inputs@.contains(b as usize));
                    }
                }
            }
            assert forall|b: int| #[trigger] self.bref_live(b) implies self.wf_backref(b) by {
                assert(s0.bref_live(b));
                assert(s1.bref_live(b));
                assert(!mentions_lnode(s0.bref(b).referent, l as int));
                assert(s0.wf_backref(b));
            }
            assert forall|e: int| #[trigger] self.eq_live(e) implies self.wf_equiv(e) by {
                assert(s1.eq_live(e));
            }
            assert forall|t: int| #[trigger] self.tn_live(t) implies t == -1 || self.wf_tnode(t) by {
                assert(s1.tn_live(t));
                if t != -1 {
                    assert(s1.wf_tnode(t));
                    assert(s1.bref_live(s1.tn_self(t) as int));
                    assert(s1.bref_live(s1.tn_driver(t) as int));
                }
            }
            assert forall|m: int| #[trigger] self.ln_live(m) implies m == -1 || self.wf_lnode(m) by {
                assert(s1.ln_live(m));
                assert(s1.wf_lnode(m));
            }
            assert forall|r: int| #[trigger] self.rn_live(r) implies r == -1 || self.wf_rnode(r) by {
                assert(s1.rn_live(r));
                assert(s1.wf_rnode(r));
            }
        }
    }

    /// The back references in equivalence `e`, in order.
    fn equiv_members(&self, e: usize) -> (r: Vec<usize>)
        ensures
            forall|b: int| #![trigger self.brefs()[b]] 0 <= b < self.brefs().len() ==> ((self.bref_live(b) && self.bref(b).equiv == e) <==> r@.contains(b as usize)),
            forall|k: int| 0 <= k < r@.len() ==> (#[trigger] r@[k]) < self.brefs().len(),
            self.brefs().len() <= usize::MAX,
    {
        let mut r: Vec<usize> = Vec::new();
        let mut b: usize = 0;
        while b < self.backrefs.len()
            invariant
                b <= self.brefs().len(),
                forall|c: int| #![trigger self.brefs()[c]] 0 <= c < b ==> ((self.bref_live(c) && self.bref(c).equiv == e) <==> r@.contains(c as usize)),
                forall|k: int| 0 <= k < r@.len() ==> (#[trigger] r@[k]) < b,
            decreases self.brefs().len() - b,
        {
            let ghost r0 = r@;
            let in_e = match &self.backrefs[b] {
                Some(x) => x.equiv == e,
                None => false,
            };
            if in_e {
                r.push(b);
            }
            proof {
                assert forall|c: int| #![trigger self.brefs()[c]] 0 <= c < b + 1 implies ((self.bref_live(c) && self.bref(c).equiv == e) <==> r@.contains(c as usize)) by {
                    if in_e {
                        assert(r@ =~= r0.push(b));
                        if r0.contains(c as usize) {
                            let j = choose|j: int| 0 <= j < r0.len() && r0[j] == c as usize;
                            assert(r@[j] == c as usize);
                        }
                        if c == b {
                            assert(r@[r0.len() as int] == b);
                        }
                        if r@.contains(c as usize) {
                            let j = choose|j: int| 0 <= j < r@.len() && r@[j] == c as usize;
                            if j < r0.len() {
                                assert(r0[j] == c as usize);
                            }
                        }
                    }
                    if c < b && r@.contains(c as usize) && !in_e {
                        assert(r@ == r0);
                    }
                    if c == b && !in_e && r@.contains(c as usize) {
                        let j = choose|j: int| 0 <= j < r@.len() && r@[j] == c as usize;
                        assert(r0[j] < b);
                    }
                }
            }
            b = b + 1;
        }
        r
    }

    /// Takes out equivalence `e`, whose only back reference is its own.
    fn remove_lonely_equiv(&mut self, e: usize)
        requires
            old(self).wf(),
            old(self).eq_live(e as int),
            forall|b: int| #[trigger] old(self).bref_live(b) && old(self).bref(b).equiv == e ==> b == old(self).eq_of(e as int).p_self_equiv,
        ensures
            final(self).wf(),
            final(self).brefs() == old(self).brefs().update(old(self).eq_of(e as int).p_self_equiv as int, None),
            final(self).eqs() == old(self).eqs().update(e as int, None),
            final(self).same_lnodes(old(self)),
            final(self).same_rnodes(old(self)),
            final(self).same_tnodes(old(self)),
            final(self).queue() == old(self).queue(),
    {
        let ghost s0 = *self;
        let n_eqs = self.equivs.len();
        let pse = match &self.equivs[e] {
            Some(q) => q.p_self_equiv,
            None => 0,
        };
        proof {
            assert(s0.wf_equiv(e as int));
        }
        self.backrefs.set(pse, None);
        self.equivs.set(e, None);
        proof {
            assert forall|b: int| #[trigger] self.bref_live(b) implies self.wf_backref(b) by {
                assert(s0.bref_live(b));
                assert(s0.wf_backref(b));
            }
            assert forall|f: int| #[trigger] self.eq_live(f) implies self.wf_equiv(f) by {
                assert(s0.eq_live(f));
                assert(s0.wf_equiv(f));
                assert(f != e);
                assert(f < n_eqs);
                assert(s0.bref(s0.eq_of(f).p_self_equiv as int).equiv == f);
                assert(s0.bref(pse as int).equiv == e);
                assert(s0.eq_of(f).p_self_equiv != pse);
            }
            assert forall|t: int| #[trigger] self.tn_live(t) implies t == -1 || self.wf_tnode(t) by {
                assert(s0.tn_live(t));
                if t != -1 {
                    assert(s0.wf_tnode(t));
                    assert(s0.bref_live(s0.tn_self(t) as int));
                    assert(s0.bref_live(s0.tn_driver(t) as int));
                }
            }
            assert forall|m: int| #[trigger] self.ln_live(m) implies m == -1 || self.wf_lnode(m) by {
                assert(s0.ln_live(m));
                assert(s0.wf_lnode(m));
                assert forall|k: int| 0 <= k < self.ln_inputs(m).len() implies {
                    &&& self.bref_live(#[trigger] self.ln_inputs(m)[k] as int)
                    &&& is_input_of(self.bref(self.ln_inputs(m)[k] as int).referent, m)
                } by {
                    assert(s0.bref_live(s0.ln_inputs(m)[k] as int));
                }
            }
            assert forall|r: int| #[trigger] self.rn_live(r) implies r == -1 || self.wf_rnode(r) by {
                assert(s0.rn_live(r));
                assert(s0.wf_rnode(r));
                assert forall|k: int| 0 <= k < self.rn_bits(r).len() implies {
                    &&& self.bref_live(#[trigger] self.rn_bits(r)[k] as int)
                    &&& mentions_rnode(self.bref(self.rn_bits(r)[k] as int).referent, r)
                } by {
                    assert(s0.bref_live(s0.rn_bits(r)[k] as int));
                }
            }
        }
    }

    /// Back reference `b` reads equivalence `e` for something outside it: an
    /// input of a node, a bit of an external node, or what drives a temporal
    /// node whose output is in another equivalence.
    pub open spec fn reads_from_outside(&self, b: int, e: int) -> bool {
        match self.bref(b).referent {
            Referent::Input(_) => true,
            Referent::ThisRNode(_) => true,
            Referent::LoopDriver(t) => self.bref(self.tn_self(t as int) as int).equiv != e,
            _ => false,
        }
    }

    /// Something outside equivalence `e` reads it.
    pub open spec fn in_use(&self, e: int) -> bool {
        exists|b: int| #[trigger] self.bref_live(b) && self.bref(b).equiv == e && self.reads_from_outside(b, e)
    }

    /// Whether back reference `b`, in equivalence `e`, is read from outside it.
    fn read_outside(&self, b: usize, e: usize) -> (r: bool)
        requires
            self.wf(),
            self.bref_live(b as int),
        ensures
            r == self.reads_from_outside(b as int, e as int),
    {
        proof {
            assert(self.wf_backref(b as int));
        }
        match &self.backrefs[b] {
            Some(x) => match x.referent {
                Referent::Input(_) => true,
                Referent::ThisRNode(_) => true,
                Referent::LoopDriver(t) => {
                    let ps = match &self.tnodes[t] {
                        Some(n) => n.p_self,
                        None => 0,
                    };
                    proof {
                        assert(self.wf_tnode(t as int));
                    }
                    match &self.backrefs[ps] {
                        Some(y) => y.equiv != e,
                        None => false,
                    }
                },
                _ => false,
            },
            None => false,
        }
    }

    /// Every external bit still reads the equivalence it read, with the value
    /// it had.
    pub open spec fn externals_kept(&self, prev: &Self) -> bool {
        forall|r: int, k: int| #[trigger] prev.has_external(r, k) ==> self.has_external(r, k)
            && self.ext_equiv(r, k) == prev.ext_equiv(r, k) && self.external_value(r, k) == prev.external_value(r, k)
    }

    /// Removes the equivalence of back reference `p` with its nodes; one that
    /// an input or an external node reads is refused.
    fn remove_equiv(&mut self, p: usize) -> (r: Result<(), EvalError>)
        requires
            old(self).wf(),
        ensures
            final(self).wf(),
            old(self).pending().subset_of(final(self).pending()),
            !old(self).bref_live(p as int) ==> r is Ok && *final(self) == *old(self),
            old(self).bref_live(p as int) ==> (r is Err <==> old(self).in_use(old(self).bref(p as int).equiv as int)),
            r is Err ==> *final(self) == *old(self),
            r is Ok && old(self).bref_live(p as int) ==> {
                let e = old(self).bref(p as int).equiv as int;
                &&& !final(self).eq_live(e)
                &&& final(self).eqs() == old(self).eqs().update(e, None)
                &&& forall|c: int| #[trigger] final(self).bref_live(c) ==> old(self).bref_live(c)
                    && final(self).bref(c) == old(self).bref(c) && old(self).bref(c).equiv != e
            },
            final(self).externals_kept(old(self)),
    {
        let ghost s0 = *self;
        if p >= self.backrefs.len() {
            return Ok(());
        }
        let e = match &self.backrefs[p] {
            Some(x) => x.equiv,
            None => {
                return Ok(());
            },
        };
        let members = self.equiv_members(e);
        let mut i: usize = 0;
        while i < members.len()
            invariant
                *self == s0,
                s0.wf(),
                s0.bref_live(p as int),
                e == s0.bref(p as int).equiv,
                i <= members@.len(),
                forall|b: int| #![trigger s0.brefs()[b]] 0 <= b < s0.brefs().len() ==> ((s0.bref_live(b) && s0.bref(b).equiv == e) <==> members@.contains(b as usize)),
                forall|k: int| 0 <= k < members@.len() ==> (#[trigger] members@[k]) < s0.brefs().len(),
                forall|k: int| 0 <= k < i ==> !s0.reads_from_outside(#[trigger] members@[k] as int, e as int),
            decreases members@.len() - i,
        {
            let b = members[i];
            proof {
                assert(members@.contains(b));
            }
            let used = self.read_outside(b, e);
            if used {
                proof {
                    assert(s0.bref_live(b as int) && s0.bref(b as int).equiv == e);
                }
                return Err(EvalError::OtherStr("an equivalence that is read cannot be removed"));
            }
            i = i + 1;
        }
        proof {
            assert forall|b: int| #[trigger] s0.bref_live(b) && s0.bref(b).equiv == e implies !s0.reads_from_outside(b, e as int) by {
                assert(members@.contains(b as usize));
                let k = choose|k: int| 0 <= k < members@.len() && members@[k] == b as usize;
                assert(!s0.reads_from_outside(members@[k] as int, e as int));
            }
        }
        let mut i: usize = 0;
        while i < members.len()
            invariant
                s0.wf(),
                self.wf(),
                s0.bref_live(p as int),
                e == s0.bref(p as int).equiv,
                s0.eq_live(e as int),
                i <= members@.len(),
                self.eqs() == s0.eqs(),
                s0.pending().subset_of(self.pending()),
                self.same_rnodes(&s0),
                self.brefs().len() == s0.brefs().len(),
                forall|c: int| #[trigger] self.bref_live(c) ==> s0.bref_live(c) && self.bref(c) == s0.bref(c),
                forall|b: int| #![trigger s0.brefs()[b]] 0 <= b < s0.brefs().len() ==> ((s0.bref_live(b) && s0.bref(b).equiv == e) <==> members@.contains(b as usize)),
                forall|k: int| 0 <= k < members@.len() ==> (#[trigger] members@[k]) < s0.brefs().len(),
                forall|c: int| #[trigger] self.bref_live(c) && self.bref(c).equiv == e ==> (self.bref(c).referent is ThisEquiv
                    || exists|k: int| i <= k < members@.len() && members@[k] == c),
                forall|c: int| #[trigger] s0.bref_live(c) && s0.bref(c).equiv == e ==> !s0.reads_from_outside(c, e as int),
            decreases members@.len() - i,
        {
            let b = members[i];
            let rf = match &self.backrefs[b] {
                Some(x) => Some(x.referent),
                None => None,
            };
            let ghost s1 = *self;
            match rf {
                Some(Referent::ThisLNode(l)) => {
                    proof {
                        assert(s1.bref_live(b as int));
                        assert(s1.wf_backref(b as int));
                    }
                    self.remove_lnode(l);
                    proof {
                        assert forall|c: int| #[trigger] self.bref_live(c) implies s0.bref_live(c) && self.bref(c) == s0.bref(c) by {
                            assert(self.brefs()[c] == s1.brefs()[c]);
                            assert(s1.bref_live(c));
                        }
                        assert(!self.bref_live(b as int)) by {
                            assert(is_output_of(s1.bref(b as int).referent, l as int));
                        }
                    }
                },
                Some(Referent::ThisTNode(t)) => {
                    proof {
                        assert(s1.bref_live(b as int));
                        assert(s1.wf_backref(b as int));
                    }
                    self.remove_tnode(t);
                    proof {
                        assert forall|c: int| #[trigger] self.bref_live(c) implies s0.bref_live(c) && self.bref(c) == s0.bref(c) by {
                            assert(self.brefs()[c] == s1.brefs()[c]);
                            assert(s1.bref_live(c));
                        }
                    }
                },
                Some(Referent::LoopDriver(t)) => {
                    proof {
                        assert(s1.bref_live(b as int));
                        assert(s1.wf_backref(b as int));
                    }
                    self.remove_tnode(t);
                    proof {
                        assert forall|c: int| #[trigger] self.bref_live(c) implies s0.bref_live(c) && self.bref(c) == s0.bref(c) by {
                            assert(self.brefs()[c] == s1.brefs()[c]);
                            assert(s1.bref_live(c));
                        }
                    }
                },
                _ => {},
            }
            proof {
                assert forall|c: int| #[trigger] self.bref_live(c) && self.bref(c).equiv == e implies (self.bref(c).referent is ThisEquiv
                    || exists|k: int| i + 1 <= k < members@.len() && members@[k] == c) by {
                    assert(s1.bref_live(c));
                    if !(self.bref(c).referent is ThisEquiv) {
                        let k = choose|k: int| i <= k < members@.len() && members@[k] == c;
                        if k == i {
                            assert(c == b);
                            assert(!s0.reads_from_outside(c, e as int));
                            assert(s1.wf_backref(c));
                        }
                    }
                }
            }
            i = i + 1;
        }
        proof {
            assert forall|b: int| #[trigger] self.bref_live(b) && self.bref(b).equiv == e implies b == self.eq_of(e as int).p_self_equiv by {
                assert(self.wf_backref(b));
            }
        }
        let ghost s2 = *self;
        self.remove_lonely_equiv(e);
        proof {
            assert forall|c: int| #[trigger] self.bref_live(c) implies s0.bref_live(c) && self.bref(c) == s0.bref(c) && s0.bref(c).equiv != e by {
                assert(s2.bref_live(c));
                if s0.bref(c).equiv == e {
                    assert(s2.wf_backref(c));
                }
            }
            assert forall|r: int, k: int| #[trigger] s0.has_external(r, k) implies self.has_external(r, k)
                && self.ext_equiv(r, k) == s0.ext_equiv(r, k) && self.external_value(r, k) == s0.external_value(r, k) by {
                assert(s0.wf_rnode(r));
                let b = s0.rn_bits(r)[k] as int;
                assert(s0.bref_live(b));
                assert(s0.bref(b).referent is ThisRNode);
                assert(s0.wf_backref(b));
                assert(s0.reads_from_outside(b, s0.bref(b).equiv as int));
                assert(s0.bref(b).equiv != e);
                assert(s2.bref_live(b)) by {
                    assert(s2.rn_live(r));
                    assert(s2.wf_rnode(r));
                    assert(s2.rn_bits(r) == s0.rn_bits(r));
                    assert(s2.bref_live(s2.rn_bits(r)[k] as int));
                }
                assert(self.bref_live(b));
            }
        }
        Ok(())
    }

    /// Everything but the waiting optimizations stays.
    pub open spec fn same_but_queue(&self, other: &Self) -> bool {
        &&& self.brefs() == other.brefs()
        &&& self.eqs() == other.eqs()
        &&& self.same_lnodes(other)
        &&& self.same_rnodes(other)
        &&& self.same_tnodes(other)
    }

    /// Queues an optimization.
    fn enqueue(&mut self, o: Optimization)
        requires
            old(self).wf(),
        ensures
            final(self).wf(),
            final(self).same_but_queue(old(self)),
            final(self).pending() == old(self).pending().insert(o),
    {
        self.enqueue_in(o, Ghost(-1), Ghost(-1), Ghost(-1));
    }

    /// Queues an optimization while nodes `skip_l` and `skip_r` are out of
    /// step.
    fn enqueue_in(&mut self, o: Optimization, Ghost(skip_l): Ghost<int>, Ghost(skip_r): Ghost<int>, Ghost(skip_t): Ghost<int>)
        requires
            old(self).wf_except(skip_l, skip_r, skip_t),
        ensures
            final(self).wf_except(skip_l, skip_r, skip_t),
            final(self).same_but_queue(old(self)),
            final(self).pending() == old(self).pending().insert(o),
    {
        let ghost s0 = *self;
        self.optimizer.insert(o);
        proof {
            assert forall|b: int| #[trigger] self.bref_live(b) implies (mentions_lnode(self.bref(b).referent, skip_l)
                || mentions_rnode(self.bref(b).referent, skip_r) || mentions_tnode(self.bref(b).referent, skip_t) || self.wf_backref(b)) by {
                assert(s0.bref_live(b));
            }
            assert forall|f: int| #[trigger] self.eq_live(f) implies self.wf_equiv(f) by {
                assert(s0.eq_live(f));
                assert(s0.wf_equiv(f));
            }
            assert forall|t: int| #[trigger] self.tn_live(t) implies t == skip_t || self.wf_tnode(t) by {
                assert(s0.tn_live(t));
                if t != skip_t {
                    assert(s0.wf_tnode(t));
                    assert(s0.bref_live(s0.tn_self(t) as int));
                    assert(s0.bref_live(s0.tn_driver(t) as int));
                }
            }
            assert forall|m: int| #[trigger] self.ln_live(m) implies m == skip_l || self.wf_lnode(m) by {
                assert(s0.ln_live(m));
            }
            assert forall|r: int| #[trigger] self.rn_live(r) implies r == skip_r || self.wf_rnode(r) by {
                assert(s0.rn_live(r));
            }
        }
    }

    /// Queues the removal of the equivalence of back reference `p` if nothing
    /// reads it.
    fn investigate_used(&mut self, p: usize)
        requires
            old(self).wf(),
        ensures
            final(self).wf(),
            final(self).same_but_queue(old(self)),
            final(self).pending() == if old(self).bref_live(p as int) && !old(self).in_use(old(self).bref(p as int).equiv as int) {
                old(self).pending().insert(Optimization::RemoveEquiv(PBack { inx: p, gen: 0 }))
            } else {
                old(self).pending()
            },
    {
        if p >= self.backrefs.len() {
            return;
        }
        let e = match &self.backrefs[p] {
            Some(x) => x.equiv,
            None => {
                return;
            },
        };
        let members = self.equiv_members(e);
        let mut found_use = false;
        let mut i: usize = 0;
        while i < members.len()
            invariant
                i <= members@.len(),
                forall|b: int| #![trigger self.brefs()[b]] 0 <= b < self.brefs().len() ==> ((self.bref_live(b) && self.bref(b).equiv == e) <==> members@.contains(b as usize)),
                forall|k: int| 0 <= k < members@.len() ==> (#[trigger] members@[k]) < self.brefs().len(),
                self.wf(),
                !found_use ==> forall|k: int| 0 <= k < i ==> !self.reads_from_outside(#[trigger] members@[k] as int, e as int),
                found_use ==> self.in_use(e as int),
            decreases members@.len() - i,
        {
            let b = members[i];
            proof {
                assert(members@.contains(b));
            }
            let used = self.read_outside(b, e);
            if used {
                proof {
                    assert(self.bref_live(b as int) && self.bref(b as int).equiv == e);
                }
                found_use = true;
            }
            i = i + 1;
        }
        proof {
            if !found_use {
                assert forall|b: int| #[trigger] self.bref_live(b) && self.bref(b).equiv == e implies !self.reads_from_outside(b, e as int) by {
                    assert(members@.contains(b as usize));
                    let k = choose|k: int| 0 <= k < members@.len() && members@[k] == b as usize;
                    assert(!self.reads_from_outside(members@[k] as int, e as int));
                }
            }
        }
        if !found_use {
            self.enqueue(Optimization::RemoveEquiv(PBack { inx: p, gen: 0 }));
        }
    }

    /// Takes out the nodes of the equivalence of back reference `p`, whose
    /// value is a constant, and queues each node that reads it for
    /// investigation.
    fn constify_equiv(&mut self, p: usize)
        requires
            old(self).wf(),
        ensures
            final(self).wf(),
            final(self).eqs() == old(self).eqs(),
            final(self).same_rnodes(old(self)),
            forall|c: int| #[trigger] final(self).bref_live(c) ==> old(self).bref_live(c) && final(self).bref(c) == old(self).bref(c),
            old(self).bref_live(p as int) ==> forall|c: int| #[trigger] final(self).bref_live(c) && final(self).bref(c).equiv
                == old(self).bref(p as int).equiv ==> !(final(self).bref(c).referent is ThisLNode) && !(final(self).bref(c).referent is ThisTNode),
            !old(self).bref_live(p as int) ==> *final(self) == *old(self),
            old(self).pending().subset_of(final(self).pending()),
            forall|c: int| #[trigger] old(self).bref_live(c) && old(self).bref_live(p as int) && old(self).bref(c).equiv
                == old(self).bref(p as int).equiv && old(self).bref(c).referent is Input ==> final(self).pending().contains(
                Optimization::InvestigateConst(PLNode { inx: old(self).bref(c).referent->Input_0, gen: 0 })),
            final(self).externals_kept(old(self)),
    {
        let ghost s0 = *self;
        if p >= self.backrefs.len() {
            return;
        }
        let e = match &self.backrefs[p] {
            Some(x) => x.equiv,
            None => {
                return;
            },
        };
        let members = self.equiv_members(e);
        let mut i: usize = 0;
        while i < members.len()
            invariant
                s0.wf(),
                self.wf(),
                self.same_but_queue(&s0),
                i <= members@.len(),
                forall|b: int| #![trigger s0.brefs()[b]] 0 <= b < s0.brefs().len() ==> ((s0.bref_live(b) && s0.bref(b).equiv == e) <==> members@.contains(b as usize)),
                forall|k: int| 0 <= k < members@.len() ==> (#[trigger] members@[k]) < s0.brefs().len(),
                s0.pending().subset_of(self.pending()),
                forall|k: int| 0 <= k < i && (#[trigger] s0.bref(members@[k] as int)).referent is Input ==> self.pending().contains(
                    Optimization::InvestigateConst(PLNode { inx: s0.bref(members@[k] as int).referent->Input_0, gen: 0 })),
            decreases members@.len() - i,
        {
            let b = members[i];
            let rf = match &self.backrefs[b] {
                Some(x) => Some(x.referent),
                None => None,
            };
            match rf {
                Some(Referent::Input(l)) => {
                    self.enqueue(Optimization::InvestigateConst(PLNode { inx: l, gen: 0 }));
                },
                Some(Referent::LoopDriver(t)) => {
                    self.enqueue(Optimization::InvestigateLoopDriverConst(PTNode { inx: t, gen: 0 }));
                },
                _ => {},
            }
            i = i + 1;
        }
        proof {
            assert forall|c: int| #[trigger] s0.bref_live(c) && s0.bref(c).equiv == e && s0.bref(c).referent is Input implies self.pending().contains(
                Optimization::InvestigateConst(PLNode { inx: s0.bref(c).referent->Input_0, gen: 0 })) by {
                assert(members@.contains(c as usize));
                let k = choose|k: int| 0 <= k < members@.len() && members@[k] == c as usize;
                assert(s0.bref(members@[k] as int).referent is Input);
            }
        }
        let ghost s_mid = *self;
        let mut i: usize = 0;
        while i < members.len()
            invariant
                s0.wf(),
                self.wf(),
                s0.bref_live(p as int),
                e == s0.bref(p as int).equiv,
                i <= members@.len(),
                self.eqs() == s0.eqs(),
                s_mid.pending().subset_of(self.pending()),
                self.same_rnodes(&s0),
                self.brefs().len() == s0.brefs().len(),
                forall|c: int| #[trigger] self.bref_live(c) ==> s0.bref_live(c) && self.bref(c) == s0.bref(c),
                forall|b: int| #![trigger s0.brefs()[b]] 0 <= b < s0.brefs().len() ==> ((s0.bref_live(b) && s0.bref(b).equiv == e) <==> members@.contains(b as usize)),
                forall|k: int| 0 <= k < members@.len() ==> (#[trigger] members@[k]) < s0.brefs().len(),
                forall|c: int| #[trigger] self.bref_live(c) && self.bref(c).equiv == e && (self.bref(c).referent is ThisLNode
                    || self.bref(c).referent is ThisTNode) ==> exists|k: int| i <= k < members@.len() && members@[k] == c,
            decreases members@.len() - i,
        {
            let b = members[i];
            let rf = match &self.backrefs[b] {
                Some(x) => Some(x.referent),
                None => None,
            };
            let ghost s1 = *self;
            match rf {
                Some(Referent::ThisTNode(t)) => {
                    proof {
                        assert(s1.bref_live(b as int));
                        assert(s1.wf_backref(b as int));
                    }
                    self.remove_tnode(t);
                    proof {
                        assert forall|c: int| #[trigger] self.bref_live(c) implies s0.bref_live(c) && self.bref(c) == s0.bref(c) by {
                            assert(self.brefs()[c] == s1.brefs()[c]);
                            assert(s1.bref_live(c));
                        }
                    }
                },
                Some(Referent::ThisLNode(l)) => {
                    proof {
                        assert(s1.bref_live(b as int));
                        assert(s1.wf_backref(b as int));
                    }
                    self.remove_lnode(l);
                    proof {
                        assert forall|c: int| #[trigger] self.bref_live(c) implies s0.bref_live(c) && self.bref(c) == s0.bref(c) by {
                            assert(self.brefs()[c] == s1.brefs()[c]);
                            assert(s1.bref_live(c));
                        }
                        assert(!self.bref_live(b as int)) by {
                            assert(is_output_of(s1.bref(b as int).referent, l as int));
                        }
                    }
                },
                _ => {},
            }
            proof {
                assert forall|c: int| #[trigger] self.bref_live(c) && self.bref(c).equiv == e && (self.bref(c).referent is ThisLNode
                    || self.bref(c).referent is ThisTNode) implies exists|k: int| i + 1 <= k < members@.len() && members@[k] == c by {
                    assert(s1.bref_live(c));
                    let k = choose|k: int| i <= k < members@.len() && members@[k] == c;
                    if k == i {
                        assert(c == b);
                    }
                }
            }
            i = i + 1;
        }
        proof {
            assert forall|r: int, k: int| #[trigger] s0.has_external(r, k) implies self.has_external(r, k)
                && self.ext_equiv(r, k) == s0.ext_equiv(r, k) && self.external_value(r, k) == s0.external_value(r, k) by {
                assert(s0.wf_rnode(r));
                let b = s0.rn_bits(r)[k] as int;
                assert(s0.bref_live(b));
                assert(self.rn_live(r));
                assert(self.wf_rnode(r));
                assert(self.rn_bits(r) == s0.rn_bits(r));
                assert(self.bref_live(self.rn_bits(r)[k] as int));
            }
        }
    }

    /// Gives node `l` some of its inputs and a new table; the back references
    /// of the inputs it drops go.
    fn replace_lnode(&mut self, l: usize, new_inputs: Vec<usize>, table: Option<Vec<bool>>)
        requires
            old(self).wf(),
            old(self).ln_live(l as int),
            forall|k: int| 0 <= k < new_inputs@.len() ==> old(self).ln_inputs(l as int).contains(#[trigger] new_inputs@[k]),
            match table {
                Some(t) => new_inputs@.len() <= 255 && is_lut(t@, new_inputs@.len()),
                None => new_inputs@.len() == 1,
            },
        ensures
            final(self).wf(),
            final(self).ln_live(l as int),
            final(self).ln_self(l as int) == old(self).ln_self(l as int),
            final(self).ln_inputs(l as int) == new_inputs@,
            final(self).ln_table(l as int) == match table {
                Some(t) => Some(t@),
                None => None::<Seq<bool>>,
            },
            final(self).other_lnodes_stay(old(self), l as int),
            final(self).eqs() == old(self).eqs(),
            final(self).same_rnodes(old(self)),
            final(self).same_tnodes(old(self)),
            final(self).queue() == old(self).queue(),
            final(self).brefs().len() == old(self).brefs().len(),
            forall|c: int| 0 <= c < old(self).brefs().len() ==> #[trigger] final(self).brefs()[c] == if old(self).bref_live(c)
                && is_input_of(old(self).bref(c).referent, l as int) && !new_inputs@.contains(c as usize) {
                None
            } else {
                old(self).brefs()[c]
            },
    {
        let ghost s0 = *self;
        let ghost nin = new_inputs@;
        let ghost tv = match &table {
            Some(t) => Some(t@),
            None => None::<Seq<bool>>,
        };
        let n_brefs = self.backrefs.len();
        let (p_self, old_inputs) = match &self.lnodes[l] {
            Some(n) => (n.p_self, n.inputs.clone()),
            None => (0, Vec::new()),
        };
        proof {
            assert(old_inputs@ =~= s0.ln_inputs(l as int));
            assert(s0.wf_lnode(l as int));
        }
        self.lnodes.set(l, Some(EnsLNode { p_self, inputs: new_inputs, table }));
        proof {
            assert(self.ln_inputs(l as int) == nin);
            assert forall|b: int| #[trigger] self.bref_live(b) implies (mentions_lnode(self.bref(b).referent, l as int)
                || mentions_rnode(self.bref(b).referent, -1) || self.wf_backref(b)) by {
                assert(s0.bref_live(b));
                assert(s0.wf_backref(b));
            }
            assert forall|f: int| #[trigger] self.eq_live(f) implies self.wf_equiv(f) by {
                assert(s0.eq_live(f));
                assert(s0.wf_equiv(f));
            }
            assert forall|t: int| #[trigger] self.tn_live(t) implies t == -1 || self.wf_tnode(t) by {
                assert(s0.tn_live(t));
                if t != -1 {
                    assert(s0.wf_tnode(t));
                    assert(s0.bref_live(s0.tn_self(t) as int));
                    assert(s0.bref_live(s0.tn_driver(t) as int));
                }
            }
            assert forall|m: int| #[trigger] self.ln_live(m) implies m == l || self.wf_lnode(m) by {
                assert(s0.ln_live(m));
                if m != l {
                    assert(s0.wf_lnode(m));
                }
            }
            assert forall|r: int| #[trigger] self.rn_live(r) implies r == -1 || self.wf_rnode(r) by {
                assert(s0.rn_live(r));
                assert(s0.wf_rnode(r));
            }
        }
        let mut i: usize = 0;
        while i < old_inputs.len()
            invariant
                s0.wf(),
                s0.ln_live(l as int),
                s0.wf_lnode(l as int),
                old_inputs@ == s0.ln_inputs(l as int),
                n_brefs == s0.brefs().len(),
                i <= old_inputs@.len(),
                self.wf_except(l as int, -1, -1),
                self.ln_live(l as int),
                self.ln_self(l as int) == s0.ln_self(l as int),
                self.ln_inputs(l as int) == nin,
                self.ln_table(l as int) == tv,
                forall|k: int| 0 <= k < nin.len() ==> s0.ln_inputs(l as int).contains(#[trigger] nin[k]),
                self.other_lnodes_stay(&s0, l as int),
                self.eqs() == s0.eqs(),
                self.same_rnodes(&s0),
                self.same_tnodes(&s0),
                self.queue() == s0.queue(),
                self.brefs().len() == s0.brefs().len(),
                forall|b: int| 0 <= b < s0.brefs().len() ==> #[trigger] self.brefs()[b] == if s0.bref_live(b)
                    && is_input_of(s0.bref(b).referent, l as int) && !nin.contains(b as usize) && old_inputs@.take(i as int).contains(b as usize) {
                    None
                } else {
                    s0.brefs()[b]
                },
            decreases old_inputs@.len() - i,
        {
            let b = old_inputs[i];
            proof {
                assert(s0.bref_live(old_inputs@[i as int] as int));
                assert(is_input_of(s0.bref(old_inputs@[i as int] as int).referent, l as int));
                assert forall|c: int| 0 <= c < s0.brefs().len() implies #[trigger] old_inputs@.take(i + 1).contains(c as usize) == (
                    old_inputs@.take(i as int).contains(c as usize) || c == b) by {
                    let t1 = old_inputs@.take(i + 1);
                    let t0 = old_inputs@.take(i as int);
                    assert(t1 =~= t0.push(b));
                    if t0.contains(c as usize) {
                        let j = choose|j: int| 0 <= j < t0.len() && t0[j] == c as usize;
                        assert(t1[j] == c as usize);
                    }
                    if c == b {
                        assert(t1[i as int] == b);
                    }
                    if t1.contains(c as usize) {
                        let j = choose|j: int| 0 <= j < t1.len() && t1[j] == c as usize;
                        if j < i {
                            assert(t0[j] == c as usize);
                        }
                    }
                }
            }
            let keep = match &self.lnodes[l] {
                Some(n) => vec_contains(&n.inputs, b),
                None => true,
            };
            let ghost s_pre = *self;
            if !keep && self.backrefs[b].is_some() {
                self.remove_backref(b, Ghost(l as int), Ghost(-1), Ghost(-1));
            }
            proof {
                assert(self.lnodes@ == s_pre.lnodes@);
                assert forall|m: int| m != l implies (#[trigger] self.ln_live(m) == s0.ln_live(m) && (s0.ln_live(m) ==> (
                    self.ln_self(m) == s0.ln_self(m) && self.ln_inputs(m) == s0.ln_inputs(m)
                        && self.ln_table(m) == s0.ln_table(m)))) by {
                    assert(s_pre.ln_live(m) == s0.ln_live(m));
                }
            }
            i = i + 1;
        }
        proof {
            assert(old_inputs@.take(old_inputs@.len() as int) =~= old_inputs@);
            assert forall|c: int| 0 <= c < s0.brefs().len() implies #[trigger] self.brefs()[c] == if s0.bref_live(c)
                && is_input_of(s0.bref(c).referent, l as int) && !nin.contains(c as usize) {
                None
            } else {
                s0.brefs()[c]
            } by {
                if s0.bref_live(c) && is_input_of(s0.bref(c).referent, l as int) {
                    assert(s0.wf_backref(c));
                }
            }
            assert forall|b: int| #[trigger] self.bref_live(b) implies self.wf_backref(b) by {
                assert(s0.bref_live(b));
                assert(s0.wf_backref(b));
                if is_input_of(s0.bref(b).referent, l as int) {
                    assert(nin.contains(b as usize));
                }
            }
            assert forall|t: int| #[trigger] self.tn_live(t) implies t == -1 || self.wf_tnode(t) by {
                assert(s0.tn_live(t));
                if t != -1 {
                    assert(s0.wf_tnode(t));
                    assert(s0.bref_live(s0.tn_self(t) as int));
                    assert(s0.bref_live(s0.tn_driver(t) as int));
                }
            }
            assert forall|m: int| #[trigger] self.ln_live(m) implies m == -1 || self.wf_lnode(m) by {
                if m == l {
                    assert forall|k: int| 0 <= k < self.ln_inputs(m).len() implies {
                        &&& self.bref_live(#[trigger] self.ln_inputs(m)[k] as int)
                        &&& is_input_of(self.bref(self.ln_inputs(m)[k] as int).referent, m)
                    } by {
                        let x = nin[k];
                        assert(s0.ln_inputs(l as int).contains(x));
                        let j = choose|j: int| 0 <= j < s0.ln_inputs(l as int).len() && s0.ln_inputs(l as int)[j] == x;
                        assert(s0.bref_live(s0.ln_inputs(l as int)[j] as int));
                        assert(nin.contains(x)) by {
                            assert(nin[k] == x);
                        }
                    }
                    assert(self.brefs()[s0.ln_self(l as int) as int] == s0.brefs()[s0.ln_self(l as int) as int]);
                } else {
                    assert(self.wf_lnode(m));
                }
            }
        }
    }

    /// Sets the value of equivalence `e`.
    fn set_equiv_val(&mut self, e: usize, val: Value)
        requires
            old(self).wf(),
            old(self).eq_live(e as int),
        ensures
            final(self).wf(),
            final(self).eqs() == old(self).eqs().update(e as int, Some(Equiv { p_self_equiv: old(self).eq_of(e as int).p_self_equiv, val })),
            final(self).brefs() == old(self).brefs(),
            final(self).same_lnodes(old(self)),
            final(self).same_rnodes(old(self)),
            final(self).same_tnodes(old(self)),
            final(self).queue() == old(self).queue(),
    {
        let ghost s0 = *self;
        let pse = match &self.equivs[e] {
            Some(q) => q.p_self_equiv,
            None => 0,
        };
        self.equivs.set(e, Some(Equiv { p_self_equiv: pse, val }));
        proof {
            assert forall|b: int| #[trigger] self.bref_live(b) implies self.wf_backref(b) by {
                assert(s0.bref_live(b));
                assert(s0.wf_backref(b));
            }
            assert forall|f: int| #[trigger] self.eq_live(f) implies self.wf_equiv(f) by {
                assert(s0.eq_live(f));
                assert(s0.wf_equiv(f));
            }
            assert forall|t: int| #[trigger] self.tn_live(t) implies t == -1 || self.wf_tnode(t) by {
                assert(s0.tn_live(t));
                if t != -1 {
                    assert(s0.wf_tnode(t));
                    assert(s0.bref_live(s0.tn_self(t) as int));
                    assert(s0.bref_live(s0.tn_driver(t) as int));
                }
            }
            assert forall|m: int| #[trigger] self.ln_live(m) implies m == -1 || self.wf_lnode(m) by {
                assert(s0.ln_live(m));
                assert(s0.wf_lnode(m));
            }
            assert forall|r: int| #[trigger] self.rn_live(r) implies r == -1 || self.wf_rnode(r) by {
                assert(s0.rn_live(r));
                assert(s0.wf_rnode(r));
            }
        }
    }

    proof fn lemma_stay_after_same(a: &Self, b: &Self, c: &Self, l: int)
        requires
            b.same_lnodes(a),
            c.other_lnodes_stay(b, l),
        ensures
            c.other_lnodes_stay(a, l),
    {
        assert forall|m: int| m != l implies (#[trigger] c.ln_live(m) == a.ln_live(m) && (a.ln_live(m) ==> (
            c.ln_self(m) == a.ln_self(m) && c.ln_inputs(m) == a.ln_inputs(m)
                && c.ln_table(m) == a.ln_table(m)))) by {
            assert(c.ln_live(m) == b.ln_live(m));
        }
    }

    proof fn lemma_same_after_stay(a: &Self, b: &Self, c: &Self, l: int)
        requires
            b.other_lnodes_stay(a, l),
            c.same_lnodes(b),
        ensures
            c.other_lnodes_stay(a, l),
    {
        assert forall|m: int| m != l implies (#[trigger] c.ln_live(m) == a.ln_live(m) && (a.ln_live(m) ==> (
            c.ln_self(m) == a.ln_self(m) && c.ln_inputs(m) == a.ln_inputs(m)
                && c.ln_table(m) == a.ln_table(m)))) by {
            assert(b.ln_live(m) == a.ln_live(m));
        }
    }

    /// Moves input `old_b` of node `l` over to a new back reference in
    /// equivalence `to`.
    fn replace_input(&mut self, l: usize, old_b: usize, to: usize) -> (nb: usize)
        requires
            old(self).wf(),
            old(self).bref_live(old_b as int),
            is_input_of(old(self).bref(old_b as int).referent, l as int),
            old(self).eq_live(to as int),
        ensures
            final(self).wf(),
            nb == old(self).brefs().len(),
            final(self).brefs() == old(self).brefs().push(Some(BackRef { referent: Referent::Input(l), equiv: to })).update(old_b as int, None),
            final(self).eqs() == old(self).eqs(),
            final(self).same_rnodes(old(self)),
            final(self).same_tnodes(old(self)),
            final(self).queue() == old(self).queue(),
            final(self).ln_live(l as int),
            final(self).ln_self(l as int) == old(self).ln_self(l as int),
            final(self).ln_table(l as int) == old(self).ln_table(l as int),
            final(self).ln_inputs(l as int) == old(self).ln_inputs(l as int).map_values(|x: usize| if x == old_b { nb } else { x }),
            final(self).other_lnodes_stay(old(self), l as int),
    {
        let ghost s0 = *self;
        proof {
            assert(s0.wf_backref(old_b as int));
            assert(s0.wf_lnode(l as int));
        }
        let nb = self.push_backref(Referent::Input(l), to, Ghost(l as int), Ghost(-1), Ghost(-1));
        let ghost s1 = *self;
        match &mut self.lnodes[l] {
            Some(n) => {
                let ni = vec_replace(&n.inputs, old_b, nb);
                n.inputs = ni;
            },
            None => {},
        }
        let ghost s2 = *self;
        proof {
            assert(self.lnodes@ == s1.lnodes@.update(l as int, Some(EnsLNode {
                p_self: s1.lnodes@[l as int]->Some_0.p_self,
                inputs: self.lnodes@[l as int]->Some_0.inputs,
                table: s1.lnodes@[l as int]->Some_0.table,
            })));
            assert(self.ln_inputs(l as int) == s0.ln_inputs(l as int).map_values(|x: usize| if x == old_b { nb } else { x }));
            assert forall|b: int| #[trigger] self.bref_live(b) implies (mentions_lnode(self.bref(b).referent, l as int)
                || mentions_rnode(self.bref(b).referent, -1) || self.wf_backref(b)) by {
                assert(s1.bref_live(b));
            }
            assert forall|f: int| #[trigger] self.eq_live(f) implies self.wf_equiv(f) by {
                assert(s1.eq_live(f));
            }
            assert forall|t: int| #[trigger] self.tn_live(t) implies t == -1 || self.wf_tnode(t) by {
                assert(s1.tn_live(t));
                if t != -1 {
                    assert(s1.wf_tnode(t));
                    assert(s1.bref_live(s1.tn_self(t) as int));
                    assert(s1.bref_live(s1.tn_driver(t) as int));
                }
            }
            assert forall|m: int| #[trigger] self.ln_live(m) implies m == l || self.wf_lnode(m) by {
                assert(s1.ln_live(m));
            }
            assert forall|r: int| #[trigger] self.rn_live(r) implies r == -1 || self.wf_rnode(r) by {
                assert(s1.rn_live(r));
            }
        }
        self.remove_backref(old_b, Ghost(l as int), Ghost(-1), Ghost(-1));
        proof {
            let ni = self.ln_inputs(l as int);
            assert forall|k: int| 0 <= k < ni.len() implies {
                &&& self.bref_live(#[trigger] ni[k] as int)
                &&& is_input_of(self.bref(ni[k] as int).referent, l as int)
            } by {
                let x = s0.ln_inputs(l as int)[k];
                if x == old_b {
                    assert(ni[k] == nb);
                } else {
                    assert(ni[k] == x);
                    assert(s0.bref_live(x as int));
                    assert(x < s0.brefs().len());
                }
            }
            assert(self.wf_lnode(l as int)) by {
                assert(self.ln_self(l as int) == s0.ln_self(l as int));
                assert(s0.bref_live(s0.ln_self(l as int) as int));
            }
            assert forall|b: int| #[trigger] self.bref_live(b) implies self.wf_backref(b) by {
                if b == nb {
                    assert(s0.ln_inputs(l as int).contains(old_b));
                    let j = choose|j: int| 0 <= j < s0.ln_inputs(l as int).len() && s0.ln_inputs(l as int)[j] == old_b;
                    assert(self.ln_inputs(l as int)[j] == nb);
                } else {
                    assert(s0.bref_live(b));
                    assert(s0.wf_backref(b));
                    if is_input_of(s0.bref(b).referent, l as int) {
                        let j = choose|j: int| 0 <= j < s0.ln_inputs(l as int).len() && s0.ln_inputs(l as int)[j] == b as usize;
                        assert(self.ln_inputs(l as int)[j] == b as usize);
                    }
                }
            }
            assert forall|m: int| m != l implies (#[trigger] self.ln_live(m) == s0.ln_live(m) && (s0.ln_live(m) ==> (
                self.ln_self(m) == s0.ln_self(m) && self.ln_inputs(m) == s0.ln_inputs(m)
                    && self.ln_table(m) == s0.ln_table(m)))) by {
                assert(s2.ln_live(m) == s1.ln_live(m));
            }
        }
        nb
    }

    /// Moves bit `old_b` of external node `r` over to a new back reference
    /// in equivalence `to`.
    fn replace_rnode_bit(&mut self, r: usize, old_b: usize, to: usize) -> (nb: usize)
        requires
            old(self).wf(),
            old(self).bref_live(old_b as int),
            mentions_rnode(old(self).bref(old_b as int).referent, r as int),
            old(self).eq_live(to as int),
        ensures
            final(self).wf(),
            nb == old(self).brefs().len(),
            final(self).brefs() == old(self).brefs().push(Some(BackRef { referent: Referent::ThisRNode(r), equiv: to })).update(old_b as int, None),
            final(self).eqs() == old(self).eqs(),
            final(self).same_lnodes(old(self)),
            final(self).same_tnodes(old(self)),
            final(self).queue() == old(self).queue(),
            forall|q: int| #[trigger] final(self).rn_live(q) == old(self).rn_live(q),
            forall|q: int| q != r && old(self).rn_live(q) ==> #[trigger] final(self).rn_bits(q) == old(self).rn_bits(q),
            final(self).rn_bits(r as int) == old(self).rn_bits(r as int).map_values(|x: usize| if x == old_b { nb } else { x }),
    {
        let ghost s0 = *self;
        proof {
            assert(s0.wf_backref(old_b as int));
            assert(s0.wf_rnode(r as int));
        }
        let nb = self.push_backref(Referent::ThisRNode(r), to, Ghost(-1), Ghost(r as int), Ghost(-1));
        let ghost s1 = *self;
        match &mut self.rnodes[r] {
            Some(bits) => {
                let nbits = vec_replace(bits, old_b, nb);
                *bits = nbits;
            },
            None => {},
        }
        let ghost s2 = *self;
        proof {
            assert(self.rn_bits(r as int) == s0.rn_bits(r as int).map_values(|x: usize| if x == old_b { nb } else { x }));
            assert forall|b: int| #[trigger] self.bref_live(b) implies (mentions_lnode(self.bref(b).referent, -1)
                || mentions_rnode(self.bref(b).referent, r as int) || self.wf_backref(b)) by {
                assert(s1.bref_live(b));
            }
            assert forall|f: int| #[trigger] self.eq_live(f) implies self.wf_equiv(f) by {
                assert(s1.eq_live(f));
            }
            assert forall|t: int| #[trigger] self.tn_live(t) implies t == -1 || self.wf_tnode(t) by {
                assert(s1.tn_live(t));
                if t != -1 {
                    assert(s1.wf_tnode(t));
                    assert(s1.bref_live(s1.tn_self(t) as int));
                    assert(s1.bref_live(s1.tn_driver(t) as int));
                }
            }
            assert forall|m: int| #[trigger] self.ln_live(m) implies m == -1 || self.wf_lnode(m) by {
                assert(s1.ln_live(m));
            }
            assert forall|q: int| #[trigger] self.rn_live(q) implies q == r || self.wf_rnode(q) by {
                assert(s1.rn_live(q));
            }
        }
        self.remove_backref(old_b, Ghost(-1), Ghost(r as int), Ghost(-1));
        proof {
            let ni = self.rn_bits(r as int);
            assert forall|k: int| 0 <= k < ni.len() implies {
                &&& self.bref_live(#[trigger] ni[k] as int)
                &&& mentions_rnode(self.bref(ni[k] as int).referent, r as int)
            } by {
                let x = s0.rn_bits(r as int)[k];
                if x == old_b {
                    assert(ni[k] == nb);
                } else {
                    assert(ni[k] == x);
                    assert(s0.bref_live(x as int));
                    assert(x < s0.brefs().len());
                }
            }
            assert(self.wf_rnode(r as int));
            assert forall|b: int| #[trigger] self.bref_live(b) implies self.wf_backref(b) by {
                if b == nb {
                    assert(s0.rn_bits(r as int).contains(old_b));
                    let j = choose|j: int| 0 <= j < s0.rn_bits(r as int).len() && s0.rn_bits(r as int)[j] == old_b;
                    assert(self.rn_bits(r as int)[j] == nb);
                } else {
                    assert(s0.bref_live(b));
                    assert(s0.wf_backref(b));
                    if mentions_rnode(s0.bref(b).referent, r as int) {
                        let j = choose|j: int| 0 <= j < s0.rn_bits(r as int).len() && s0.rn_bits(r as int)[j] == b as usize;
                        assert(self.rn_bits(r as int)[j] == b as usize);
                    }
                }
            }
            assert forall|q: int| #[trigger] self.rn_live(q) == s0.rn_live(q) by {
                assert(s2.rn_live(q) == s1.rn_live(q));
            }
            assert forall|q: int| q != r && s0.rn_live(q) implies #[trigger] self.rn_bits(q) == s0.rn_bits(q) by {
                assert(s1.rn_live(q));
            }
        }
        nb
    }

    /// Back reference `p` is the output of a copying node that reads another
    /// equivalence than its own.
    pub open spec fn forwardable(&self, p: int) -> bool {
        &&& self.bref(p).referent is ThisLNode
        &&& self.ln_table(self.bref(p).referent->ThisLNode_0 as int) is None
        &&& self.forward_source(p) != self.bref(p).equiv
    }

    /// The equivalence that the copying node of back reference `p` reads.
    pub open spec fn forward_source(&self, p: int) -> int {
        self.bref(self.ln_inputs(self.bref(p).referent->ThisLNode_0 as int)[0] as int).equiv as int
    }

    /// Every external bit reads the value it read.
    pub open spec fn external_values_kept(&self, prev: &Self) -> bool {
        forall|r: int, k: int| #[trigger] prev.has_external(r, k) ==> self.has_external(r, k)
            && self.external_value(r, k) == prev.external_value(r, k)
    }

    /// The equivalence of `p`, driven by a node that copies equivalence
    /// `to`, goes: its nodes are taken out, and whatever read it reads `to`.
    fn forward_equiv(&mut self, p: usize) -> (r: Result<(), EvalError>)
        requires
            old(self).wf(),
        ensures
            final(self).wf(),
            !old(self).bref_live(p as int) ==> r is Ok && *final(self) == *old(self),
            r is Err ==> *final(self) == *old(self),
            old(self).bref_live(p as int) ==> (r is Ok <==> old(self).forwardable(p as int)),
            r is Ok && old(self).bref_live(p as int) ==> {
                let e = old(self).bref(p as int).equiv as int;
                let to = old(self).forward_source(p as int);
                &&& !final(self).eq_live(e)
                &&& final(self).eq_live(to)
                &&& final(self).eqs().len() == old(self).eqs().len()
                &&& forall|f: int| 0 <= f < old(self).eqs().len() && f != e ==> #[trigger] final(self).eqs()[f] == old(self).eqs()[f]
                &&& forall|q: int, k: int| #[trigger] old(self).has_external(q, k) ==> final(self).has_external(q, k)
                    && final(self).ext_equiv(q, k) == if old(self).ext_equiv(q, k) == e { to } else { old(self).ext_equiv(q, k) }
                &&& old(self).eq_of(e).val == old(self).eq_of(to).val ==> final(self).external_values_kept(old(self))
            },
            old(self).pending().subset_of(final(self).pending()),
    {
        let ghost s0 = *self;
        if p >= self.backrefs.len() {
            return Ok(());
        }
        let (e, ln) = match &self.backrefs[p] {
            Some(x) => (x.equiv, match x.referent {
                Referent::ThisLNode(l) => Some(l),
                _ => None,
            }),
            None => {
                return Ok(());
            },
        };
        let l = match ln {
            Some(l) => l,
            None => {
                return Err(EvalError::OtherStr("a forwarded reference is the output of a node"));
            },
        };
        proof {
            assert(s0.bref_live(p as int));
            assert(s0.wf_backref(p as int));
            assert(s0.ln_live(l as int));
            assert(s0.wf_lnode(l as int));
        }
        let (is_copy, inp) = match &self.lnodes[l] {
            Some(n) => (n.table.is_none(), if n.inputs.len() > 0 { n.inputs[0] } else { 0 }),
            None => (false, 0),
        };
        if !is_copy {
            return Err(EvalError::OtherStr("a forwarded node is a copy"));
        }
        proof {
            assert(s0.bref_live(s0.ln_inputs(l as int)[0] as int));
            assert(s0.wf_backref(inp as int));
        }
        let to = match &self.backrefs[inp] {
            Some(x) => x.equiv,
            None => 0,
        };
        if to == e {
            return Err(EvalError::OtherStr("a node that copies its own equivalence cannot be forwarded"));
        }
        let members = self.equiv_members(e);
        let n0 = self.backrefs.len();
        // the nodes of the equivalence go
        let mut i: usize = 0;
        while i < members.len()
            invariant
                s0.wf(),
                self.wf(),
                s0.bref_live(p as int),
                e == s0.bref(p as int).equiv,
                to as int == s0.forward_source(p as int),
                to != e,
                s0.eq_live(to as int),
                n0 == s0.brefs().len(),
                i <= members@.len(),
                self.eqs() == s0.eqs(),
                s0.pending().subset_of(self.pending()),
                self.same_rnodes(&s0),
                self.brefs().len() == s0.brefs().len(),
                forall|c: int| #[trigger] self.bref_live(c) ==> s0.bref_live(c) && self.bref(c) == s0.bref(c),
                forall|b: int| #![trigger s0.brefs()[b]] 0 <= b < s0.brefs().len() ==> ((s0.bref_live(b) && s0.bref(b).equiv == e) <==> members@.contains(b as usize)),
                forall|k: int| 0 <= k < members@.len() ==> (#[trigger] members@[k]) < s0.brefs().len(),
                forall|c: int| #[trigger] self.bref_live(c) && self.bref(c).equiv == e && (self.bref(c).referent is ThisLNode
                    || self.bref(c).referent is ThisTNode) ==> exists|k: int| i <= k < members@.len() && members@[k] == c,
            decreases members@.len() - i,
        {
            let b = members[i];
            let rf = match &self.backrefs[b] {
                Some(x) => Some(x.referent),
                None => None,
            };
            let ghost s1 = *self;
            match rf {
                Some(Referent::ThisTNode(t)) => {
                    proof {
                        assert(s1.bref_live(b as int));
                        assert(s1.wf_backref(b as int));
                    }
                    self.remove_tnode(t);
                    proof {
                        assert forall|c: int| #[trigger] self.bref_live(c) implies s0.bref_live(c) && self.bref(c) == s0.bref(c) by {
                            assert(self.brefs()[c] == s1.brefs()[c]);
                            assert(s1.bref_live(c));
                        }
                    }
                },
                Some(Referent::ThisLNode(l)) => {
                    proof {
                        assert(s1.bref_live(b as int));
                        assert(s1.wf_backref(b as int));
                    }
                    self.remove_lnode(l);
                    proof {
                        assert forall|c: int| #[trigger] self.bref_live(c) implies s0.bref_live(c) && self.bref(c) == s0.bref(c) by {
                            assert(self.brefs()[c] == s1.brefs()[c]);
                            assert(s1.bref_live(c));
                        }
                        assert(!self.bref_live(b as int)) by {
                            assert(is_output_of(s1.bref(b as int).referent, l as int));
                        }
                    }
                },
                _ => {},
            }
            proof {
                assert forall|c: int| #[trigger] self.bref_live(c) && self.bref(c).equiv == e && (self.bref(c).referent is ThisLNode
                    || self.bref(c).referent is ThisTNode) implies exists|k: int| i + 1 <= k < members@.len() && members@[k] == c by {
                    assert(s1.bref_live(c));
                    let k = choose|k: int| i <= k < members@.len() && members@[k] == c;
                    if k == i {
                        assert(c == b);
                    }
                }
            }
            i = i + 1;
        }
        proof {
            assert forall|q: int, k: int| #[trigger] s0.has_external(q, k) implies self.has_external(q, k)
                && self.ext_equiv(q, k) == s0.ext_equiv(q, k) by {
                assert(s0.wf_rnode(q));
                assert(self.rn_live(q));
                assert(self.wf_rnode(q));
                assert(self.rn_bits(q) == s0.rn_bits(q));
                assert(self.bref_live(self.rn_bits(q)[k] as int));
            }
        }
        // whatever read the equivalence reads `to`
        let mut i: usize = 0;
        while i < members.len()
            invariant
                s0.wf(),
                self.wf(),
                e == s0.bref(p as int).equiv,
                to != e,
                s0.eq_live(to as int),
                s0.eq_live(e as int),
                n0 == s0.brefs().len(),
                i <= members@.len(),
                self.eqs() == s0.eqs(),
                s0.pending().subset_of(self.pending()),
                self.brefs().len() >= s0.brefs().len(),
                forall|c: int| #[trigger] self.bref_live(c) ==> (c < n0 ==> s0.bref_live(c) && self.bref(c) == s0.bref(c))
                    && (c >= n0 ==> self.bref(c).equiv == to),
                forall|b: int| #![trigger s0.brefs()[b]] 0 <= b < s0.brefs().len() ==> ((s0.bref_live(b) && s0.bref(b).equiv == e) <==> members@.contains(b as usize)),
                forall|k: int| 0 <= k < members@.len() ==> (#[trigger] members@[k]) < s0.brefs().len(),
                forall|c: int| #[trigger] self.bref_live(c) && self.bref(c).equiv == e ==> self.bref(c).referent is ThisEquiv
                    || exists|k: int| i <= k < members@.len() && members@[k] == c,
                forall|c: int| #[trigger] self.bref_live(c) && self.bref(c).equiv == e ==> !(self.bref(c).referent is ThisLNode)
                    && !(self.bref(c).referent is ThisTNode),
                forall|q: int, k: int| #[trigger] s0.has_external(q, k) ==> self.has_external(q, k)
                    && (self.ext_equiv(q, k) == s0.ext_equiv(q, k) || (s0.ext_equiv(q, k) == e && self.ext_equiv(q, k) == to)),
            decreases members@.len() - i,
        {
            let b = members[i];
            let rf = match &self.backrefs[b] {
                Some(x) => Some(x.referent),
                None => None,
            };
            let ghost s1 = *self;
            match rf {
                Some(Referent::Input(l3)) => {
                    let nb = self.replace_input(l3, b, to);
                    proof {
                        assert forall|c: int| #[trigger] self.bref_live(c) implies (c < n0 ==> s0.bref_live(c) && self.bref(c) == s0.bref(c))
                            && (c >= n0 ==> self.bref(c).equiv == to) by {
                            if c != nb {
                                assert(s1.bref_live(c));
                            }
                        }
                        assert forall|q: int, k: int| #[trigger] s0.has_external(q, k) implies self.has_external(q, k)
                            && (self.ext_equiv(q, k) == s0.ext_equiv(q, k) || (s0.ext_equiv(q, k) == e && self.ext_equiv(q, k) == to)) by {
                            assert(s1.has_external(q, k));
                            assert(s1.wf_rnode(q));
                            let x = s1.rn_bits(q)[k];
                            assert(s1.bref_live(x as int));
                            assert(x != b);
                            assert(x != nb);
                        }
                    }
                },
                Some(Referent::ThisRNode(q0)) => {
                    let nb = self.replace_rnode_bit(q0, b, to);
                    proof {
                        assert forall|c: int| #[trigger] self.bref_live(c) implies (c < n0 ==> s0.bref_live(c) && self.bref(c) == s0.bref(c))
                            && (c >= n0 ==> self.bref(c).equiv == to) by {
                            if c != nb {
                                assert(s1.bref_live(c));
                            }
                        }
                        assert forall|q: int, k: int| #[trigger] s0.has_external(q, k) implies self.has_external(q, k)
                            && (self.ext_equiv(q, k) == s0.ext_equiv(q, k) || (s0.ext_equiv(q, k) == e && self.ext_equiv(q, k) == to)) by {
                            assert(s1.has_external(q, k));
                            assert(s1.wf_rnode(q));
                            let x = s1.rn_bits(q)[k];
                            assert(s1.bref_live(x as int));
                            assert(x != nb);
                            if q == q0 {
                                if x == b {
                                    assert(self.rn_bits(q)[k] == nb);
                                    assert(s1.ext_equiv(q, k) == e);
                                } else {
                                    assert(self.rn_bits(q)[k] == x);
                                }
                            } else {
                                assert(self.rn_bits(q) == s1.rn_bits(q));
                            }
                        }
                    }
                },
                Some(Referent::LoopDriver(t)) => {
                    let nb = self.replace_driver(t, b, to);
                    proof {
                        assert forall|c: int| #[trigger] self.bref_live(c) implies (c < n0 ==> s0.bref_live(c) && self.bref(c) == s0.bref(c))
                            && (c >= n0 ==> self.bref(c).equiv == to) by {
                            if c != nb {
                                assert(s1.bref_live(c));
                            }
                        }
                        assert forall|q: int, k: int| #[trigger] s0.has_external(q, k) implies self.has_external(q, k)
                            && (self.ext_equiv(q, k) == s0.ext_equiv(q, k) || (s0.ext_equiv(q, k) == e && self.ext_equiv(q, k) == to)) by {
                            assert(s1.has_external(q, k));
                            assert(s1.wf_rnode(q));
                            let x = s1.rn_bits(q)[k];
                            assert(s1.bref_live(x as int));
                            assert(x != b);
                            assert(x != nb);
                        }
                    }
                },
                _ => {},
            }
            proof {
                assert forall|c: int| #[trigger] self.bref_live(c) && self.bref(c).equiv == e implies !(self.bref(c).referent is ThisLNode)
                    && !(self.bref(c).referent is ThisTNode) by {
                    if c < n0 {
                        assert(s1.bref_live(c));
                    }
                }
                assert forall|c: int| #[trigger] self.bref_live(c) && self.bref(c).equiv == e implies self.bref(c).referent is ThisEquiv
                    || exists|k: int| i + 1 <= k < members@.len() && members@[k] == c by {
                    if c < n0 {
                        assert(s1.bref_live(c));
                        assert(!(s1.bref(c).referent is ThisLNode));
                        assert(!(s1.bref(c).referent is ThisTNode));
                        if !(self.bref(c).referent is ThisEquiv) {
                            let k = choose|k: int| i <= k < members@.len() && members@[k] == c;
                            if k == i {
                                assert(c == b);
                                assert(s1.wf_backref(c));
                            }
                        }
                    }
                }
            }
            i = i + 1;
        }
        proof {
            assert forall|b: int| #[trigger] self.bref_live(b) && self.bref(b).equiv == e implies b == self.eq_of(e as int).p_self_equiv by {
                assert(self.wf_backref(b));
            }
        }
        let ghost s2 = *self;
        self.remove_lonely_equiv(e);
        proof {
            assert forall|q: int, k: int| #[trigger] s0.has_external(q, k) implies self.has_external(q, k)
                && self.ext_equiv(q, k) == if s0.ext_equiv(q, k) == e { to as int } else { s0.ext_equiv(q, k) } by {
                assert(s2.has_external(q, k));
                assert(s2.wf_rnode(q));
                let x = s2.rn_bits(q)[k];
                assert(s2.bref_live(x as int));
                assert(s2.wf_backref(x as int));
                assert(self.rn_bits(q) == s2.rn_bits(q));
                assert(self.bref_live(x as int)) by {
                    assert(s2.bref(x as int).referent is ThisRNode);
                }
            }
            if s0.eq_of(e as int).val == s0.eq_of(to as int).val {
                assert forall|q: int, k: int| #[trigger] s0.has_external(q, k) implies self.has_external(q, k)
                    && self.external_value(q, k) == s0.external_value(q, k) by {
                    assert(s0.wf_rnode(q));
                    let x = s0.rn_bits(q)[k];
                    assert(s0.bref_live(x as int));
                    assert(s0.wf_backref(x as int));
                    assert(self.has_external(q, k));
                    assert(self.wf_rnode(q));
                    assert(self.bref_live(self.rn_bits(q)[k] as int));
                    assert(self.wf_backref(self.rn_bits(q)[k] as int));
                }
            }
        }
        Ok(())
    }

    /// The first look at the equivalence of back reference `p`: its nodes
    /// are evaluated from their constant inputs, and it is queued for
    /// removal if nothing reads it, for constification if it is a constant,
    /// and for further investigation otherwise.
    fn preinvestigate(&mut self, p: usize)
        requires
            old(self).wf(),
        ensures
            final(self).wf(),
            final(self).same_rnodes(old(self)),
            final(self).same_tnodes(old(self)),
            forall|c: int| #[trigger] final(self).bref_live(c) ==> old(self).bref_live(c) && final(self).bref(c) == old(self).bref(c),
            forall|c: int| #[trigger] old(self).bref_live(c) && !final(self).bref_live(c) ==> old(self).bref(c).referent is Input,
            final(self).eqs().len() == old(self).eqs().len(),
            forall|f: int| 0 <= f < old(self).eqs().len() ==> #[trigger] final(self).eqs()[f] == old(self).eqs()[f] || (
                final(self).eq_live(f) && old(self).eq_live(f) && final(self).eq_of(f).p_self_equiv == old(self).eq_of(f).p_self_equiv
                && final(self).eq_of(f).val is Const),
            old(self).pending().subset_of(final(self).pending()),
            old(self).bref_live(p as int) ==> final(self).pending().contains(Optimization::RemoveEquiv(PBack { inx: p, gen: 0 }))
                || final(self).pending().contains(Optimization::ConstifyEquiv(PBack { inx: p, gen: 0 }))
                || final(self).pending().contains(Optimization::InvestigateEquiv0(PBack { inx: p, gen: 0 })),
    {
        let ghost s0 = *self;
        if p >= self.backrefs.len() {
            return;
        }
        let e = match &self.backrefs[p] {
            Some(x) => x.equiv,
            None => {
                return;
            },
        };
        proof {
            assert(s0.bref_live(p as int));
            assert(s0.wf_backref(p as int));
        }
        let is_const = match &self.equivs[e] {
            Some(q) => match q.val {
                Value::Const(_) => true,
                _ => false,
            },
            None => false,
        };
        let members = self.equiv_members(e);
        let mut uses: Vec<ReferentUse> = Vec::new();
        let mut found_const = is_const;
        let mut i: usize = 0;
        while i < members.len()
            invariant
                s0.wf(),
                self.wf(),
                self.same_rnodes(&s0),
                self.same_tnodes(&s0),
                s0.bref_live(p as int),
                i <= members@.len(),
                forall|c: int| #[trigger] self.bref_live(c) ==> s0.bref_live(c) && self.bref(c) == s0.bref(c),
                forall|c: int| #[trigger] s0.bref_live(c) && !self.bref_live(c) ==> s0.bref(c).referent is Input,
                self.brefs().len() == s0.brefs().len(),
                self.eqs().len() == s0.eqs().len(),
                forall|f: int| 0 <= f < s0.eqs().len() ==> #[trigger] self.eqs()[f] == s0.eqs()[f] || (
                    self.eq_live(f) && s0.eq_live(f) && self.eq_of(f).p_self_equiv == s0.eq_of(f).p_self_equiv
                    && self.eq_of(f).val is Const),
                s0.pending().subset_of(self.pending()),
            decreases members@.len() - i,
        {
            let b = members[i];
            let rf = if b < self.backrefs.len() {
                match &self.backrefs[b] {
                    Some(x) => Some(x.referent),
                    None => None,
                }
            } else {
                None
            };
            let ghost s1 = *self;
            match rf {
                Some(Referent::ThisEquiv) => {
                    uses.push(ReferentUse::ThisEquiv);
                },
                Some(Referent::ThisLNode(l)) => {
                    // once the equivalence is known to be constant the rest
                    // need not be evaluated
                    let c = if !found_const {
                        proof {
                            assert(s1.bref_live(b as int));
                            assert(s1.wf_backref(b as int));
                        }
                        let c = self.const_eval_lnode(l);
                        proof {
                            assert forall|c2: int| #[trigger] self.bref_live(c2) implies s0.bref_live(c2) && self.bref(c2) == s0.bref(c2) by {
                                assert(s1.bref_live(c2));
                            }
                            assert forall|c2: int| #[trigger] s0.bref_live(c2) && !self.bref_live(c2) implies s0.bref(c2).referent is Input by {
                                if s1.bref_live(c2) {
                                    assert(is_input_of(s1.bref(c2).referent, l as int));
                                }
                            }
                            assert forall|f: int| 0 <= f < s0.eqs().len() implies #[trigger] self.eqs()[f] == s0.eqs()[f] || (
                                self.eq_live(f) && s0.eq_live(f) && self.eq_of(f).p_self_equiv == s0.eq_of(f).p_self_equiv
                                && self.eq_of(f).val is Const) by {
                                if f != s1.ln_equiv(l as int) {
                                    assert(self.eqs()[f] == s1.eqs()[f]);
                                } else {
                                    assert(s1.eq_live(f));
                                    if s1.eqs()[f] != s0.eqs()[f] {
                                        assert(s0.eq_live(f));
                                    } else {
                                        assert(s0.eq_live(f) == s1.eq_live(f));
                                    }
                                }
                            }
                        }
                        c
                    } else {
                        false
                    };
                    if c {
                        found_const = true;
                    }
                    uses.push(ReferentUse::ThisLNode(c));
                },
                Some(Referent::Input(_)) => {
                    uses.push(ReferentUse::Input);
                },
                Some(Referent::ThisRNode(_)) => {
                    uses.push(ReferentUse::ThisRNode);
                },
                Some(Referent::ThisTNode(t)) => {
                    let c = if !found_const {
                        proof {
                            assert(s1.bref_live(b as int));
                            assert(s1.wf_backref(b as int));
                        }
                        let c = self.const_eval_tnode(t);
                        proof {
                            assert forall|c2: int| #[trigger] self.bref_live(c2) implies s0.bref_live(c2) && self.bref(c2) == s0.bref(c2) by {
                                assert(s1.bref_live(c2));
                            }
                            assert forall|c2: int| #[trigger] s0.bref_live(c2) && !self.bref_live(c2) implies s0.bref(c2).referent is Input by {
                                assert(!s1.bref_live(c2));
                            }
                            assert forall|f: int| 0 <= f < s0.eqs().len() implies #[trigger] self.eqs()[f] == s0.eqs()[f] || (
                                self.eq_live(f) && s0.eq_live(f) && self.eq_of(f).p_self_equiv == s0.eq_of(f).p_self_equiv
                                && self.eq_of(f).val is Const) by {
                                if f != s1.bref(s1.tn_self(t as int) as int).equiv {
                                    assert(self.eqs()[f] == s1.eqs()[f]);
                                } else if self.eqs()[f] != s1.eqs()[f] {
                                    assert(s1.eq_live(f));
                                    if s1.eqs()[f] != s0.eqs()[f] {
                                        assert(s0.eq_live(f));
                                    } else {
                                        assert(s0.eq_live(f) == s1.eq_live(f));
                                    }
                                }
                            }
                        }
                        c
                    } else {
                        false
                    };
                    if c {
                        found_const = true;
                    }
                    uses.push(ReferentUse::ThisTNode(c));
                },
                Some(Referent::LoopDriver(t)) => {
                    proof {
                        assert(s1.bref_live(b as int));
                        assert(s1.wf_backref(b as int));
                        assert(s1.wf_tnode(t as int));
                    }
                    let ps = match &self.tnodes[t] {
                        Some(n) => n.p_self,
                        None => 0,
                    };
                    let drives_itself = match &self.backrefs[ps] {
                        Some(y) => y.equiv == e,
                        None => false,
                    };
                    uses.push(ReferentUse::LoopDriver(drives_itself));
                },
                None => {},
            }
            i = i + 1;
        }
        let fate = preinvestigate_equiv(&uses, is_const);
        let ghost s_e = *self;
        match fate {
            EquivFate::Remove => self.enqueue(Optimization::RemoveEquiv(PBack { inx: p, gen: 0 })),
            EquivFate::Constify => self.enqueue(Optimization::ConstifyEquiv(PBack { inx: p, gen: 0 })),
            EquivFate::Investigate => self.enqueue(Optimization::InvestigateEquiv0(PBack { inx: p, gen: 0 })),
        }
        proof {
            assert forall|c: int| #[trigger] self.bref_live(c) implies s0.bref_live(c) && self.bref(c) == s0.bref(c) by {
                assert(s_e.bref_live(c));
            }
            assert forall|c: int| #[trigger] s0.bref_live(c) && !self.bref_live(c) implies s0.bref(c).referent is Input by {
                assert(!s_e.bref_live(c));
            }
            assert forall|f: int| 0 <= f < s0.eqs().len() implies #[trigger] self.eqs()[f] == s0.eqs()[f] || (
                self.eq_live(f) && s0.eq_live(f) && self.eq_of(f).p_self_equiv == s0.eq_of(f).p_self_equiv
                && self.eq_of(f).val is Const) by {
                assert(s_e.eqs()[f] == self.eqs()[f]);
            }
        }
    }

    /// Whether optimization `o` is refused: removing an equivalence that is
    /// read, forwarding what is not the output of a copying node of another
    /// equivalence, or removing a node on its own.
    pub open spec fn refuses(&self, o: Optimization) -> bool {
        match o {
            Optimization::RemoveEquiv(p) => self.bref_live(p.inx as int) && self.in_use(self.bref(p.inx as int).equiv as int),
            Optimization::ForwardEquiv(p) => self.bref_live(p.inx as int) && !self.forwardable(p.inx as int),
            Optimization::RemoveLNode(p) => self.bref_live(p.inx as int),
            _ => false,
        }
    }

    /// Runs one optimization. The ensemble stays well formed, and every
    /// external bit goes on reading its value: forwarding moves it from the
    /// copy to the equivalence copied, and an evaluation may find the value
    /// to be a constant.
    pub fn optimize(&mut self, o: Optimization) -> (r: Result<(), EvalError>)
        requires
            old(self).wf(),
        ensures
            final(self).wf(),
            r is Err <==> old(self).refuses(o),
            r is Err ==> *final(self) == *old(self),
            forall|q: int, k: int| #[trigger] old(self).has_external(q, k) ==> final(self).has_external(q, k),
            match o {
                Optimization::ForwardEquiv(p) => r is Ok && old(self).bref_live(p.inx as int) ==> {
                    let e = old(self).bref(p.inx as int).equiv as int;
                    let to = old(self).forward_source(p.inx as int);
                    &&& !final(self).eq_live(e)
                    &&& forall|q: int, k: int| #[trigger] old(self).has_external(q, k) ==>
                        final(self).ext_equiv(q, k) == if old(self).ext_equiv(q, k) == e { to } else { old(self).ext_equiv(q, k) }
                    &&& old(self).eq_of(e).val == old(self).eq_of(to).val ==> final(self).external_values_kept(old(self))
                },
                Optimization::Preinvestigate(_) | Optimization::InvestigateConst(_)
                | Optimization::InvestigateLoopDriverConst(_) => forall|q: int, k: int|
                    #[trigger] old(self).has_external(q, k) ==> final(self).ext_equiv(q, k) == old(self).ext_equiv(q, k)
                        && (final(self).external_value(q, k) == old(self).external_value(q, k)
                        || final(self).external_value(q, k) is Const),
                _ => final(self).externals_kept(old(self)),
            },
            match o {
                Optimization::RemoveEquiv(p) => r is Ok && old(self).bref_live(p.inx as int) ==>
                    !final(self).eq_live(old(self).bref(p.inx as int).equiv as int),
                Optimization::ConstifyEquiv(p) => old(self).bref_live(p.inx as int) ==> forall|c: int| #[trigger] final(self).bref_live(c)
                    && final(self).bref(c).equiv == old(self).bref(p.inx as int).equiv ==> !(final(self).bref(c).referent is ThisLNode),
                Optimization::InvestigateUsed(p) => final(self).pending() == if old(self).bref_live(p.inx as int)
                    && !old(self).in_use(old(self).bref(p.inx as int).equiv as int) {
                    old(self).pending().insert(Optimization::RemoveEquiv(PBack { inx: p.inx, gen: 0 }))
                } else {
                    old(self).pending()
                },
                _ => true,
            },
    {
        let ghost s0 = *self;
        match o {
            Optimization::Preinvestigate(p) => {
                self.preinvestigate(p.inx);
                proof {
                    assert forall|q: int, k: int| #[trigger] s0.has_external(q, k) implies self.has_external(q, k)
                        && self.ext_equiv(q, k) == s0.ext_equiv(q, k) && (self.external_value(q, k) == s0.external_value(q, k)
                        || self.external_value(q, k) is Const) by {
                        Self::lemma_external_after_eval(&s0, self, q, k);
                    }
                }
                Ok(())
            },
            Optimization::RemoveEquiv(p) => self.remove_equiv(p.inx),
            Optimization::ForwardEquiv(p) => {
                let r = self.forward_equiv(p.inx);
                proof {
                    if r is Ok && s0.bref_live(p.inx as int) {
                        assert forall|q: int, k: int| #[trigger] s0.has_external(q, k) implies self.has_external(q, k) by {}
                    }
                }
                r
            },
            Optimization::ConstifyEquiv(p) => {
                self.constify_equiv(p.inx);
                Ok(())
            },
            Optimization::RemoveLNode(p) => {
                if p.inx < self.backrefs.len() && self.backrefs[p.inx].is_some() {
                    Err(EvalError::OtherStr("removing a lookup table node on its own is not supported"))
                } else {
                    Ok(())
                }
            },
            Optimization::InvestigateUsed(p) => {
                self.investigate_used(p.inx);
                proof {
                    Self::lemma_external_same(&s0, self);
                }
                Ok(())
            },
            Optimization::InvestigateConst(pl) => {
                if pl.inx < self.lnodes.len() && self.lnodes[pl.inx].is_some() {
                    let c = self.const_eval_lnode(pl.inx);
                    let ghost s_c = *self;
                    if c {
                        let ps = match &self.lnodes[pl.inx] {
                            Some(n) => n.p_self,
                            None => 0,
                        };
                        self.enqueue(Optimization::ConstifyEquiv(PBack { inx: ps, gen: 0 }));
                    }
                    proof {
                        assert forall|c2: int| #[trigger] self.bref_live(c2) implies s0.bref_live(c2) && self.bref(c2) == s0.bref(c2) by {
                            assert(s_c.bref_live(c2));
                        }
                        assert forall|c2: int| #[trigger] s0.bref_live(c2) && !self.bref_live(c2) implies s0.bref(c2).referent is Input by {
                            assert(!s_c.bref_live(c2));
                            assert(is_input_of(s0.bref(c2).referent, pl.inx as int));
                        }
                        assert forall|f: int| 0 <= f < s0.eqs().len() implies #[trigger] self.eqs()[f] == s0.eqs()[f] || (
                            self.eq_live(f) && s0.eq_live(f) && self.eq_of(f).p_self_equiv == s0.eq_of(f).p_self_equiv
                            && self.eq_of(f).val is Const) by {
                            assert(s_c.eqs()[f] == self.eqs()[f]);
                            if f == s0.ln_equiv(pl.inx as int) {
                                assert(s0.ln_live(pl.inx as int));
                                assert(s0.wf_lnode(pl.inx as int));
                                assert(s0.wf_backref(s0.ln_self(pl.inx as int) as int));
                            }
                        }
                    }
                }
                proof {
                    assert forall|q: int, k: int| #[trigger] s0.has_external(q, k) implies self.has_external(q, k)
                        && self.ext_equiv(q, k) == s0.ext_equiv(q, k) && (self.external_value(q, k) == s0.external_value(q, k)
                        || self.external_value(q, k) is Const) by {
                        Self::lemma_external_after_eval(&s0, self, q, k);
                    }
                }
                Ok(())
            },
            Optimization::InvestigateLoopDriverConst(pt) => {
                if pt.inx < self.tnodes.len() && self.tnodes[pt.inx].is_some() {
                    let ghost s_b = *self;
                    let c = self.const_eval_tnode(pt.inx);
                    let ghost s_c = *self;
                    if c {
                        let ps = match &self.tnodes[pt.inx] {
                            Some(n) => n.p_self,
                            None => 0,
                        };
                        self.enqueue(Optimization::ConstifyEquiv(PBack { inx: ps, gen: 0 }));
                    }
                    proof {
                        assert forall|c2: int| #[trigger] self.bref_live(c2) implies s0.bref_live(c2) && self.bref(c2) == s0.bref(c2) by {
                            assert(s_c.bref_live(c2));
                        }
                        assert forall|c2: int| #[trigger] s0.bref_live(c2) && !self.bref_live(c2) implies s0.bref(c2).referent is Input by {
                            assert(!s_c.bref_live(c2));
                        }
                        assert forall|f: int| 0 <= f < s0.eqs().len() implies #[trigger] self.eqs()[f] == s0.eqs()[f] || (
                            self.eq_live(f) && s0.eq_live(f) && self.eq_of(f).p_self_equiv == s0.eq_of(f).p_self_equiv
                            && self.eq_of(f).val is Const) by {
                            assert(s_c.eqs()[f] == self.eqs()[f]);
                            if f == s0.bref(s0.tn_self(pt.inx as int) as int).equiv {
                                assert(s0.tn_live(pt.inx as int));
                                assert(s0.wf_tnode(pt.inx as int));
                                assert(s0.wf_backref(s0.tn_self(pt.inx as int) as int));
                            }
                        }
                    }
                }
                proof {
                    assert forall|q: int, k: int| #[trigger] s0.has_external(q, k) implies self.has_external(q, k)
                        && self.ext_equiv(q, k) == s0.ext_equiv(q, k) && (self.external_value(q, k) == s0.external_value(q, k)
                        || self.external_value(q, k) is Const) by {
                        Self::lemma_external_after_eval(&s0, self, q, k);
                    }
                }
                Ok(())
            },
            Optimization::InvestigateEquiv0(_) => Ok(()),
        }
    }

    /// An ensemble that changed only in its queue reads the same externals.
    proof fn lemma_external_same(a: &Self, b: &Self)
        requires
            b.same_but_queue(a),
        ensures
            b.externals_kept(a),
    {
        assert forall|q: int, k: int| #[trigger] a.has_external(q, k) implies b.has_external(q, k)
            && b.ext_equiv(q, k) == a.ext_equiv(q, k) && b.external_value(q, k) == a.external_value(q, k) by {
            assert(b.rn_live(q) == a.rn_live(q));
            assert(b.rn_bits(q) == a.rn_bits(q));
        }
    }

    /// After evaluations that only drop inputs and make values constant, an
    /// external bit reads the same equivalence, whose value stayed or became
    /// a constant.
    proof fn lemma_external_after_eval(a: &Self, b: &Self, q: int, k: int)
        requires
            a.wf(),
            b.wf(),
            a.has_external(q, k),
            b.same_rnodes(a),
            forall|c: int| #[trigger] b.bref_live(c) ==> a.bref_live(c) && b.bref(c) == a.bref(c),
            forall|c: int| #[trigger] a.bref_live(c) && !b.bref_live(c) ==> a.bref(c).referent is Input,
            b.eqs().len() == a.eqs().len(),
            forall|f: int| 0 <= f < a.eqs().len() ==> #[trigger] b.eqs()[f] == a.eqs()[f] || (
                b.eq_live(f) && a.eq_live(f) && b.eq_of(f).p_self_equiv == a.eq_of(f).p_self_equiv
                && b.eq_of(f).val is Const),
        ensures
            b.has_external(q, k),
            b.ext_equiv(q, k) == a.ext_equiv(q, k),
            b.external_value(q, k) == a.external_value(q, k) || b.external_value(q, k) is Const,
    {
        assert(b.rn_live(q) == a.rn_live(q));
        assert(b.rn_bits(q) == a.rn_bits(q));
        assert(a.wf_rnode(q));
        let x = a.rn_bits(q)[k] as int;
        assert(a.bref_live(x));
        assert(a.wf_backref(x));
        assert(b.bref_live(x));
    }

    /// Makes an equivalence with value `val`; returns its own back
    /// reference.
    pub fn make_equiv(&mut self, val: Value) -> (p: usize)
        requires
            old(self).wf(),
        ensures
            final(self).wf(),
            p == old(self).brefs().len(),
            final(self).brefs() == old(self).brefs().push(Some(BackRef { referent: Referent::ThisEquiv, equiv: old(self).eqs().len() as usize })),
            final(self).eqs() == old(self).eqs().push(Some(Equiv { p_self_equiv: p, val })),
            final(self).same_lnodes(old(self)),
            final(self).same_rnodes(old(self)),
            final(self).same_tnodes(old(self)),
            final(self).queue() == old(self).queue(),
    {
        let ghost s0 = *self;
        let e = self.equivs.len();
        let p = self.backrefs.len();
        self.equivs.push(Some(Equiv { p_self_equiv: p, val }));
        self.backrefs.push(Some(BackRef { referent: Referent::ThisEquiv, equiv: e }));
        proof {
            assert forall|b: int| #[trigger] self.bref_live(b) implies self.wf_backref(b) by {
                if b != p {
                    assert(s0.bref_live(b));
                    assert(s0.wf_backref(b));
                }
            }
            assert forall|f: int| #[trigger] self.eq_live(f) implies self.wf_equiv(f) by {
                if f != e {
                    assert(s0.eq_live(f));
                    assert(s0.wf_equiv(f));
                }
            }
            assert forall|t: int| #[trigger] self.tn_live(t) implies t == -1 || self.wf_tnode(t) by {
                assert(s0.tn_live(t));
                if t != -1 {
                    assert(s0.wf_tnode(t));
                    assert(s0.bref_live(s0.tn_self(t) as int));
                    assert(s0.bref_live(s0.tn_driver(t) as int));
                }
            }
            assert forall|m: int| #[trigger] self.ln_live(m) implies m == -1 || self.wf_lnode(m) by {
                assert(s0.ln_live(m));
                assert(s0.wf_lnode(m));
                assert forall|k: int| 0 <= k < self.ln_inputs(m).len() implies {
                    &&& self.bref_live(#[trigger] self.ln_inputs(m)[k] as int)
                    &&& is_input_of(self.bref(self.ln_inputs(m)[k] as int).referent, m)
                } by {
                    assert(s0.bref_live(s0.ln_inputs(m)[k] as int));
                }
            }
            assert forall|r: int| #[trigger] self.rn_live(r) implies r == -1 || self.wf_rnode(r) by {
                assert(s0.rn_live(r));
                assert(s0.wf_rnode(r));
                assert forall|k: int| 0 <= k < self.rn_bits(r).len() implies {
                    &&& self.bref_live(#[trigger] self.rn_bits(r)[k] as int)
                    &&& mentions_rnode(self.bref(self.rn_bits(r)[k] as int).referent, r)
                } by {
                    assert(s0.bref_live(s0.rn_bits(r)[k] as int));
                }
            }
        }
        p
    }

    /// Whether every entry of `v` is a back reference in use.
    fn all_live(&self, v: &Vec<usize>) -> (r: bool)
        ensures
            r == forall|k: int| 0 <= k < v@.len() ==> self.bref_live(#[trigger] v@[k] as int),
    {
        let mut i: usize = 0;
        while i < v.len()
            invariant
                i <= v@.len(),
                forall|k: int| 0 <= k < i ==> self.bref_live(#[trigger] v@[k] as int),
            decreases v@.len() - i,
        {
            let b = v[i];
            if b >= self.backrefs.len() || self.backrefs[b].is_none() {
                return false;
            }
            i = i + 1;
        }
        true
    }

    /// Makes a lookup table node over the equivalences of the back references
    /// `inputs`, driving a new equivalence of value `val`; a node without a
    /// table copies its one input. Returns the node's output back reference,
    /// or nothing where an input is not in use or the table does not fit the
    /// inputs.
    pub fn make_lnode(&mut self, inputs: &Vec<usize>, table: Option<Vec<bool>>, val: Value) -> (r: Option<usize>)
        requires
            old(self).wf(),
        ensures
            final(self).wf(),
            r is Some <==> (forall|k: int| 0 <= k < inputs@.len() ==> old(self).bref_live(#[trigger] inputs@[k] as int))
                && match table {
                    Some(t) => inputs@.len() <= 255 && is_lut(t@, inputs@.len()),
                    None => inputs@.len() == 1,
                },
            r is None ==> *final(self) == *old(self),
            r matches Some(p) ==> {
                &&& final(self).bref_live(p as int)
                &&& final(self).bref(p as int).referent is ThisLNode
                &&& final(self).bref(p as int).equiv == old(self).eqs().len()
                &&& final(self).eq_of(old(self).eqs().len() as int).val == val
                &&& final(self).ln_inputs(final(self).bref(p as int).referent->ThisLNode_0 as int).len() == inputs@.len()
                &&& forall|k: int| 0 <= k < inputs@.len() ==> #[trigger] final(self).bref(final(self).ln_inputs(
                    final(self).bref(p as int).referent->ThisLNode_0 as int)[k] as int).equiv == old(self).bref(inputs@[k] as int).equiv
            },
            forall|c: int| #[trigger] old(self).bref_live(c) ==> final(self).bref_live(c) && final(self).bref(c) == old(self).bref(c),
            forall|f: int| 0 <= f < old(self).eqs().len() ==> #[trigger] final(self).eqs()[f] == old(self).eqs()[f],
            final(self).eqs().len() >= old(self).eqs().len(),
            final(self).same_rnodes(old(self)),
            final(self).same_tnodes(old(self)),
            final(self).queue() == old(self).queue(),
    {
        let ghost s0 = *self;
        let ok = self.all_live(inputs) && match &table {
            Some(t) => inputs.len() <= 255 && table_fits(t.len(), inputs.len()),
            None => inputs.len() == 1,
        };
        if !ok {
            return None;
        }
        let e = self.equivs.len();
        let _p_equiv = self.make_equiv(val);
        let ghost s1 = *self;
        let l = self.lnodes.len();
        proof {
            assert forall|c: int| #[trigger] s1.bref_live(c) implies !mentions_lnode(s1.bref(c).referent, l as int) by {
                assert(s1.wf_backref(c));
                if mentions_lnode(s1.bref(c).referent, l as int) {
                    assert(!s1.ln_live(l as int));
                }
            }
        }
        let ps = self.push_backref(Referent::ThisLNode(l), e, Ghost(l as int), Ghost(-1), Ghost(-1));
        proof {
            assert forall|c: int| #[trigger] self.bref_live(c) && mentions_lnode(self.bref(c).referent, l as int) implies c == ps by {
                if c != ps {
                    assert(s1.bref_live(c));
                }
            }
        }
        let mut ins: Vec<usize> = Vec::new();
        let mut k: usize = 0;
        while k < inputs.len()
            invariant
                s0.wf(),
                s1.wf(),
                forall|j: int| 0 <= j < inputs@.len() ==> s0.bref_live(#[trigger] inputs@[j] as int),
                forall|c: int| #[trigger] s0.bref_live(c) ==> s1.bref_live(c) && s1.bref(c) == s0.bref(c),
                forall|c: int| #[trigger] s1.bref_live(c) ==> !mentions_lnode(s1.bref(c).referent, l as int),
                l == self.lnodes@.len(),
                self.wf_except(l as int, -1, -1),
                self.eqs() == s1.eqs(),
                self.same_lnodes(&s1),
                self.same_rnodes(&s1),
                self.same_tnodes(&s1),
                self.queue() == s1.queue(),
                s1.eq_live(e as int),
                ps == s1.brefs().len(),
                self.brefs().len() >= s1.brefs().len() + 1,
                forall|c: int| 0 <= c < s1.brefs().len() ==> #[trigger] self.brefs()[c] == s1.brefs()[c],
                self.bref_live(ps as int),
                self.bref(ps as int) == (BackRef { referent: Referent::ThisLNode(l), equiv: e }),
                k <= inputs@.len(),
                ins@.len() == k,
                forall|j: int| 0 <= j < k ==> {
                    &&& self.bref_live(#[trigger] ins@[j] as int)
                    &&& self.bref(ins@[j] as int).referent == Referent::Input(l)
                    &&& self.bref(ins@[j] as int).equiv == s0.bref(inputs@[j] as int).equiv
                },
                forall|c: int| #[trigger] self.bref_live(c) && mentions_lnode(self.bref(c).referent, l as int) ==> c == ps || ins@.contains(c as usize),
            decreases inputs@.len() - k,
        {
            let b = inputs[k];
            proof {
                assert(s0.bref_live(inputs@[k as int] as int));
                assert(s1.bref_live(b as int));
                assert(s1.wf_backref(b as int));
                assert(self.brefs()[b as int] == s1.brefs()[b as int]);
            }
            let eb = match &self.backrefs[b] {
                Some(x) => x.equiv,
                None => 0,
            };
            let ghost s2 = *self;
            let nb = self.push_backref(Referent::Input(l), eb, Ghost(l as int), Ghost(-1), Ghost(-1));
            let ghost ins0 = ins@;
            ins.push(nb);
            proof {
                assert forall|c: int| #[trigger] self.bref_live(c) && mentions_lnode(self.bref(c).referent, l as int) implies c == ps
                    || ins@.contains(c as usize) by {
                    if c == nb {
                        assert(ins@[k as int] == nb);
                    } else {
                        assert(s2.bref_live(c));
                        if c != ps {
                            assert(ins0.contains(c as usize));
                            let j = choose|j: int| 0 <= j < ins0.len() && ins0[j] == c as usize;
                            assert(ins@[j] == c as usize);
                        }
                    }
                }
                assert forall|j: int| 0 <= j < k + 1 implies {
                    &&& self.bref_live(#[trigger] ins@[j] as int)
                    &&& self.bref(ins@[j] as int).referent == Referent::Input(l)
                    &&& self.bref(ins@[j] as int).equiv == s0.bref(inputs@[j] as int).equiv
                } by {
                    if j < k {
                        assert(ins@[j] == ins0[j]);
                    }
                }
            }
            k = k + 1;
        }
        let ghost s3 = *self;
        let ghost s3_ins = ins@;
        proof {
            assert forall|j: int| 0 <= j < s3_ins.len() implies {
                &&& s3.bref_live(#[trigger] s3_ins[j] as int)
                &&& s3.bref(s3_ins[j] as int).referent == Referent::Input(l)
                &&& s3.bref(s3_ins[j] as int).equiv == s0.bref(inputs@[j] as int).equiv
            } by {
                assert(s3.bref_live(ins@[j] as int));
            }
        }
        let ghost ti = match &table {
            Some(t) => Some(t@),
            None => None::<Seq<bool>>,
        };
        self.lnodes.push(Some(EnsLNode { p_self: ps, inputs: ins, table }));
        let n_final = self.backrefs.len();
        proof {
            assert(self.ln_live(l as int));
            assert(self.ln_table(l as int) == ti);
            assert forall|b: int| #[trigger] self.bref_live(b) implies self.wf_backref(b) by {
                assert(s3.bref_live(b));
                if mentions_lnode(s3.bref(b).referent, l as int) {
                    if b != ps {
                        assert(self.ln_inputs(l as int) == s3_ins);
                        assert(s3_ins.contains(b as usize));
                        let j = choose|j: int| 0 <= j < s3_ins.len() && s3_ins[j] == b as usize;
                        assert(b < n_final);
                        assert(s3_ins[j] as int == b);
                        assert(s3.bref(s3_ins[j] as int).referent == Referent::Input(l));
                        assert(s0.bref_live(inputs@[j] as int));
                        assert(s0.wf_backref(inputs@[j] as int));
                        assert(s1.eq_live(s0.bref(inputs@[j] as int).equiv as int));
                        assert(self.bref(b) == s3.bref(b));
                        assert(self.bref(b).referent == Referent::Input(l));
                        assert(self.eq_live(self.bref(b).equiv as int));
                        assert(self.ln_inputs(l as int).contains(b as usize));
                    } else {
                        assert(self.bref(b).referent == Referent::ThisLNode(l));
                        assert(self.eq_live(e as int));
                        assert(self.ln_self(l as int) == ps);
                    }
                } else {
                    assert(s3.wf_backref(b));
                    match s3.bref(b).referent {
                        Referent::ThisLNode(m) => {
                            assert(s3.ln_live(m as int));
                            assert(self.ln_live(m as int));
                            assert(self.ln_self(m as int) == s3.ln_self(m as int));
                        },
                        Referent::Input(m) => {
                            assert(s3.ln_live(m as int));
                            assert(self.ln_inputs(m as int) == s3.ln_inputs(m as int));
                        },
                        Referent::ThisRNode(q) => {
                            assert(self.rn_bits(q as int) == s3.rn_bits(q as int));
                        },
                        _ => {},
                    }
                }
            }
            assert forall|f: int| #[trigger] self.eq_live(f) implies self.wf_equiv(f) by {
                assert(s3.eq_live(f));
            }
            assert forall|t: int| #[trigger] self.tn_live(t) implies t == -1 || self.wf_tnode(t) by {
                assert(s3.tn_live(t));
                if t != -1 {
                    assert(s3.wf_tnode(t));
                    assert(s3.bref_live(s3.tn_self(t) as int));
                    assert(s3.bref_live(s3.tn_driver(t) as int));
                }
            }
            assert forall|m: int| #[trigger] self.ln_live(m) implies m == -1 || self.wf_lnode(m) by {
                if m != l {
                    assert(s3.ln_live(m));
                    assert(s3.wf_lnode(m));
                }
            }
            assert forall|r: int| #[trigger] self.rn_live(r) implies r == -1 || self.wf_rnode(r) by {
                assert(s3.rn_live(r));
            }
            assert forall|c: int| #[trigger] s0.bref_live(c) implies self.bref_live(c) && self.bref(c) == s0.bref(c) by {
                assert(s1.bref_live(c));
            }
            assert forall|j: int| 0 <= j < inputs@.len() implies #[trigger] self.bref(self.ln_inputs(l as int)[j] as int).equiv
                == s0.bref(inputs@[j] as int).equiv by {}
        }
        Some(ps)
    }

    /// Makes an external node that reads the equivalences of the back
    /// references `bits`; returns its index, or nothing where a bit is not in
    /// use.
    pub fn make_rnode(&mut self, bits: &Vec<usize>) -> (r: Option<usize>)
        requires
            old(self).wf(),
        ensures
            final(self).wf(),
            r is Some <==> forall|k: int| 0 <= k < bits@.len() ==> old(self).bref_live(#[trigger] bits@[k] as int),
            r is None ==> *final(self) == *old(self),
            r matches Some(q) ==> {
                &&& final(self).rn_live(q as int)
                &&& final(self).rn_bits(q as int).len() == bits@.len()
                &&& forall|k: int| 0 <= k < bits@.len() ==> #[trigger] final(self).ext_equiv(q as int, k) == old(self).bref(bits@[k] as int).equiv
            },
            forall|c: int| #[trigger] old(self).bref_live(c) ==> final(self).bref_live(c) && final(self).bref(c) == old(self).bref(c),
            final(self).eqs() == old(self).eqs(),
            final(self).same_lnodes(old(self)),
            final(self).same_tnodes(old(self)),
            final(self).queue() == old(self).queue(),
            forall|q: int, k: int| #[trigger] old(self).has_external(q, k) ==> final(self).has_external(q, k)
                && final(self).ext_equiv(q, k) == old(self).ext_equiv(q, k),
    {
        let ghost s0 = *self;
        if !self.all_live(bits) {
            return None;
        }
        let q = self.rnodes.len();
        proof {
            assert forall|c: int| #[trigger] s0.bref_live(c) implies !mentions_rnode(s0.bref(c).referent, q as int) by {
                assert(s0.wf_backref(c));
            }
        }
        let mut nbits: Vec<usize> = Vec::new();
        let mut k: usize = 0;
        while k < bits.len()
            invariant
                s0.wf(),
                forall|j: int| 0 <= j < bits@.len() ==> s0.bref_live(#[trigger] bits@[j] as int),
                forall|c: int| #[trigger] s0.bref_live(c) ==> !mentions_rnode(s0.bref(c).referent, q as int),
                q == self.rnodes@.len(),
                q == s0.rnodes@.len(),
                self.wf_except(-1, q as int, -1),
                self.eqs() == s0.eqs(),
                self.same_lnodes(&s0),
                self.same_rnodes(&s0),
                self.same_tnodes(&s0),
                self.queue() == s0.queue(),
                self.brefs().len() >= s0.brefs().len(),
                forall|c: int| 0 <= c < s0.brefs().len() ==> #[trigger] self.brefs()[c] == s0.brefs()[c],
                k <= bits@.len(),
                nbits@.len() == k,
                forall|j: int| 0 <= j < k ==> {
                    &&& self.bref_live(#[trigger] nbits@[j] as int)
                    &&& self.bref(nbits@[j] as int).referent == Referent::ThisRNode(q)
                    &&& self.bref(nbits@[j] as int).equiv == s0.bref(bits@[j] as int).equiv
                },
                forall|c: int| #[trigger] self.bref_live(c) && mentions_rnode(self.bref(c).referent, q as int) ==> nbits@.contains(c as usize),
            decreases bits@.len() - k,
        {
            let b = bits[k];
            proof {
                assert(s0.bref_live(bits@[k as int] as int));
                assert(s0.wf_backref(b as int));
                assert(self.brefs()[b as int] == s0.brefs()[b as int]);
            }
            let eb = match &self.backrefs[b] {
                Some(x) => x.equiv,
                None => 0,
            };
            let ghost s2 = *self;
            let nb = self.push_backref(Referent::ThisRNode(q), eb, Ghost(-1), Ghost(q as int), Ghost(-1));
            let ghost nb0 = nbits@;
            nbits.push(nb);
            proof {
                assert forall|c: int| #[trigger] self.bref_live(c) && mentions_rnode(self.bref(c).referent, q as int) implies
                    nbits@.contains(c as usize) by {
                    if c == nb {
                        assert(nbits@[k as int] == nb);
                    } else {
                        assert(s2.bref_live(c));
                        assert(nb0.contains(c as usize));
                        let j = choose|j: int| 0 <= j < nb0.len() && nb0[j] == c as usize;
                        assert(nbits@[j] == c as usize);
                    }
                }
                assert forall|j: int| 0 <= j < k + 1 implies {
                    &&& self.bref_live(#[trigger] nbits@[j] as int)
                    &&& self.bref(nbits@[j] as int).referent == Referent::ThisRNode(q)
                    &&& self.bref(nbits@[j] as int).equiv == s0.bref(bits@[j] as int).equiv
                } by {
                    if j < k {
                        assert(nbits@[j] == nb0[j]);
                    }
                }
            }
            k = k + 1;
        }
        let ghost s3 = *self;
        let ghost s3_bits = nbits@;
        proof {
            assert forall|j: int| 0 <= j < s3_bits.len() implies {
                &&& s3.bref_live(#[trigger] s3_bits[j] as int)
                &&& s3.bref(s3_bits[j] as int).referent == Referent::ThisRNode(q)
                &&& s3.bref(s3_bits[j] as int).equiv == s0.bref(bits@[j] as int).equiv
            } by {
                assert(s3.bref_live(nbits@[j] as int));
            }
        }
        self.rnodes.push(Some(nbits));
        let n_final = self.backrefs.len();
        proof {
            assert(self.rn_live(q as int));
            assert(self.rn_bits(q as int) == s3_bits);
            assert forall|b: int| #[trigger] self.bref_live(b) implies self.wf_backref(b) by {
                assert(s3.bref_live(b));
                if mentions_rnode(s3.bref(b).referent, q as int) {
                    assert(s3_bits.contains(b as usize));
                    let j = choose|j: int| 0 <= j < s3_bits.len() && s3_bits[j] == b as usize;
                    assert(b < n_final);
                    assert(s3_bits[j] as int == b);
                    assert(s0.bref_live(bits@[j] as int));
                    assert(s0.wf_backref(bits@[j] as int));
                } else {
                    assert(s3.wf_backref(b));
                    match s3.bref(b).referent {
                        Referent::ThisRNode(m) => {
                            assert(s3.rn_live(m as int));
                            assert(self.rn_bits(m as int) == s3.rn_bits(m as int));
                        },
                        _ => {},
                    }
                }
            }
            assert forall|f: int| #[trigger] self.eq_live(f) implies self.wf_equiv(f) by {
                assert(s3.eq_live(f));
            }
            assert forall|t: int| #[trigger] self.tn_live(t) implies t == -1 || self.wf_tnode(t) by {
                assert(s3.tn_live(t));
                if t != -1 {
                    assert(s3.wf_tnode(t));
                    assert(s3.bref_live(s3.tn_self(t) as int));
                    assert(s3.bref_live(s3.tn_driver(t) as int));
                }
            }
            assert forall|m: int| #[trigger] self.ln_live(m) implies m == -1 || self.wf_lnode(m) by {
                assert(s3.ln_live(m));
                assert(s3.wf_lnode(m));
            }
            assert forall|r: int| #[trigger] self.rn_live(r) implies r == -1 || self.wf_rnode(r) by {
                if r != q {
                    assert(s3.rn_live(r));
                    assert(s3.wf_rnode(r));
                    assert(self.rn_bits(r) == s3.rn_bits(r));
                }
            }
            assert forall|c: int| #[trigger] s0.bref_live(c) implies self.bref_live(c) && self.bref(c) == s0.bref(c) by {}
            assert forall|j: int| 0 <= j < bits@.len() implies #[trigger] self.ext_equiv(q as int, j) == s0.bref(bits@[j] as int).equiv by {}
            assert forall|r: int, j: int| #[trigger] s0.has_external(r, j) implies self.has_external(r, j)
                && self.ext_equiv(r, j) == s0.ext_equiv(r, j) by {
                assert(s0.wf_rnode(r));
                assert(self.rn_bits(r) == s0.rn_bits(r));
                assert(s0.bref_live(s0.rn_bits(r)[j] as int));
            }
        }
        Some(q)
    }

    /// The value of the equivalence of back reference `p`.
    pub fn equiv_val(&self, p: usize) -> (r: Option<Value>)
        requires
            self.wf(),
        ensures
            r == if self.bref_live(p as int) {
                Some(self.eq_of(self.bref(p as int).equiv as int).val)
            } else {
                None::<Value>
            },
    {
        if p >= self.backrefs.len() {
            return None;
        }
        match &self.backrefs[p] {
            Some(x) => {
                proof {
                    assert(self.bref_live(p as int));
                    assert(self.wf_backref(p as int));
                }
                match &self.equivs[x.equiv] {
                    Some(q) => Some(q.val),
                    None => None,
                }
            },
            None => None,
        }
    }

    /// The value that bit `k` of external node `q` reads.
    pub fn get_external(&self, q: usize, k: usize) -> (r: Option<Value>)
        requires
            self.wf(),
        ensures
            r == if self.has_external(q as int, k as int) {
                Some(self.external_value(q as int, k as int))
            } else {
                None::<Value>
            },
    {
        if q >= self.rnodes.len() {
            return None;
        }
        match &self.rnodes[q] {
            Some(bits) => {
                if k >= bits.len() {
                    return None;
                }
                proof {
                    assert(self.rn_live(q as int));
                    assert(self.wf_rnode(q as int));
                    assert(self.bref_live(self.rn_bits(q as int)[k as int] as int));
                }
                self.equiv_val(bits[k])
            },
            None => None,
        }
    }

    /// Whether the back reference `p` is in use.
    pub fn contains(&self, p: usize) -> (r: bool)
        ensures
            r == self.bref_live(p as int),
    {
        p < self.backrefs.len() && self.backrefs[p].is_some()
    }

    /// Whether lookup table node `l` is in use.
    pub fn lnode_exists(&self, l: usize) -> (r: bool)
        ensures
            r == self.ln_live(l as int),
    {
        l < self.lnodes.len() && self.lnodes[l].is_some()
    }

    /// The lookup table node whose output is back reference `p`.
    pub fn lnode_of(&self, p: usize) -> (r: Option<usize>)
        ensures
            r == if self.bref_live(p as int) && self.bref(p as int).referent is ThisLNode {
                Some(self.bref(p as int).referent->ThisLNode_0)
            } else {
                None::<usize>
            },
    {
        if p >= self.backrefs.len() {
            return None;
        }
        match &self.backrefs[p] {
            Some(x) => match x.referent {
                Referent::ThisLNode(l) => Some(l),
                _ => None,
            },
            None => None,
        }
    }

    /// Queues an optimization.
    pub fn insert_optimization(&mut self, o: Optimization)
        requires
            old(self).wf(),
        ensures
            final(self).wf(),
            final(self).same_but_queue(old(self)),
            final(self).pending() == old(self).pending().insert(o),
    {
        self.enqueue(o);
    }

    /// Takes out the next optimization to run.
    pub fn pop_optimization(&mut self) -> (r: Option<Optimization>)
        requires
            old(self).wf(),
        ensures
            final(self).wf(),
            final(self).same_but_queue(old(self)),
            old(self).queue().len() == 0 <==> r is None,
            r matches Some(o) ==> o == old(self).queue()[0] && final(self).queue() == old(self).queue().drop_first(),
            r is None ==> final(self).queue() == old(self).queue(),
    {
        let ghost s0 = *self;
        let r = self.optimizer.pop_min();
        proof {
            assert forall|b: int| #[trigger] self.bref_live(b) implies self.wf_backref(b) by {
                assert(s0.bref_live(b));
                assert(s0.wf_backref(b));
            }
            assert forall|f: int| #[trigger] self.eq_live(f) implies self.wf_equiv(f) by {
                assert(s0.eq_live(f));
                assert(s0.wf_equiv(f));
            }
            assert forall|t: int| #[trigger] self.tn_live(t) implies t == -1 || self.wf_tnode(t) by {
                assert(s0.tn_live(t));
                if t != -1 {
                    assert(s0.wf_tnode(t));
                    assert(s0.bref_live(s0.tn_self(t) as int));
                    assert(s0.bref_live(s0.tn_driver(t) as int));
                }
            }
            assert forall|m: int| #[trigger] self.ln_live(m) implies m == -1 || self.wf_lnode(m) by {
                assert(s0.ln_live(m));
                assert(s0.wf_lnode(m));
            }
            assert forall|q: int| #[trigger] self.rn_live(q) implies q == -1 || self.wf_rnode(q) by {
                assert(s0.rn_live(q));
                assert(s0.wf_rnode(q));
            }
        }
        r
    }

    /// Lowers the rootward tree of state `p` to elementary operations (see
    /// `Stator::dfs_lower_states_to_elementary`); the nodes are untouched.
    /// Returns the states that still have to go through `lower_op`.
    pub fn dfs_lower_states_to_elementary(&mut self, p: PState) -> (r: Result<Vec<usize>, EvalError>)
        requires
            old(self).wf(),
            old(self).states().wf(),
        ensures
            final(self).wf(),
            final(self).states().wf(),
            final(self).same_but_stator(old(self)),
            r is Err <==> !old(self).states().live(p.inx as int),
            r matches Err(e) ==> e is InvalidPtr && final(self).states() == old(self).states(),
            old(self).states().live(p.inx as int) ==> final(self).states().lowered(p.inx as int),
            forall|t: int| #[trigger] final(self).states().live(t) == old(self).states().live(t),
            forall|t: int| old(self).states().live(t) ==> #[trigger] final(self).states().op(t) == if !old(self).states().lowered(t)
                && final(self).states().lowered(t) {
                old(self).states().rewritten(t)
            } else {
                old(self).states().op(t)
            },
            r matches Ok(v) ==> forall|k: int| 0 <= k < v@.len() ==> old(self).states().needs_lower(#[trigger] v@[k] as int)
                && !old(self).states().lowered(v@[k] as int) && final(self).states().lowered(v@[k] as int),
            r matches Ok(v) ==> forall|t: int| #[trigger] old(self).states().live(t) && !old(self).states().lowered(t)
                && final(self).states().lowered(t) && old(self).states().needs_lower(t) ==> v@.contains(t as usize),
    {
        let ghost s0 = *self;
        let r = self.stator.dfs_lower_states_to_elementary(p.inx);
        proof {
            assert forall|b: int| #[trigger] self.bref_live(b) implies self.wf_backref(b) by {
                assert(s0.bref_live(b));
                assert(s0.wf_backref(b));
            }
            assert forall|f: int| #[trigger] self.eq_live(f) implies self.wf_equiv(f) by {
                assert(s0.eq_live(f));
                assert(s0.wf_equiv(f));
            }
            assert forall|t: int| #[trigger] self.tn_live(t) implies t == -1 || self.wf_tnode(t) by {
                assert(s0.tn_live(t));
                if t != -1 {
                    assert(s0.wf_tnode(t));
                    assert(s0.bref_live(s0.tn_self(t) as int));
                    assert(s0.bref_live(s0.tn_driver(t) as int));
                }
            }
            assert forall|m: int| #[trigger] self.ln_live(m) implies m == -1 || self.wf_lnode(m) by {
                assert(s0.ln_live(m));
                assert(s0.wf_lnode(m));
            }
            assert forall|q: int| #[trigger] self.rn_live(q) implies q == -1 || self.wf_rnode(q) by {
                assert(s0.rn_live(q));
                assert(s0.wf_rnode(q));
            }
        }
        r
    }

    /// Makes a state (see `Stator::make_state`).
    pub fn make_state(&mut self, op: crate::stator::NodeOp, nzbw: usize) -> (r: Option<usize>)
        requires
            old(self).wf(),
            old(self).states().wf(),
        ensures
            final(self).wf(),
            final(self).states().wf(),
            final(self).same_but_stator(old(self)),
            r is Some <==> forall|k: int| 0 <= k < crate::stator::operands(op@).len() ==> old(self).states().live(
                #[trigger] crate::stator::operands(op@)[k] as int),
            r matches Some(s) ==> final(self).states().live(s as int) && final(self).states().op(s as int) == op@
                && final(self).states().nzbw(s as int) == nzbw && !final(self).states().lowered(s as int),
    {
        let ghost s0 = *self;
        let r = self.stator.make_state(op, nzbw);
        proof {
            assert forall|b: int| #[trigger] self.bref_live(b) implies self.wf_backref(b) by {
                assert(s0.bref_live(b));
                assert(s0.wf_backref(b));
            }
            assert forall|f: int| #[trigger] self.eq_live(f) implies self.wf_equiv(f) by {
                assert(s0.eq_live(f));
                assert(s0.wf_equiv(f));
            }
            assert forall|t: int| #[trigger] self.tn_live(t) implies t == -1 || self.wf_tnode(t) by {
                assert(s0.tn_live(t));
                if t != -1 {
                    assert(s0.wf_tnode(t));
                    assert(s0.bref_live(s0.tn_self(t) as int));
                    assert(s0.bref_live(s0.tn_driver(t) as int));
                }
            }
            assert forall|m: int| #[trigger] self.ln_live(m) implies m == -1 || self.wf_lnode(m) by {
                assert(s0.ln_live(m));
                assert(s0.wf_lnode(m));
            }
            assert forall|q: int| #[trigger] self.rn_live(q) implies q == -1 || self.wf_rnode(q) by {
                assert(s0.rn_live(q));
                assert(s0.wf_rnode(q));
            }
        }
        r
    }

    /// The operation of state `s`.
    pub fn state_op(&self, s: usize) -> (r: Option<&crate::stator::NodeOp>)
        ensures
            r is Some <==> self.states().live(s as int),
            r matches Some(o) ==> o@ == self.states().op(s as int),
    {
        self.stator.op_of(s)
    }

    /// Whether state `s` is lowered.
    pub fn state_lowered(&self, s: usize) -> (r: Option<bool>)
        ensures
            r is Some <==> self.states().live(s as int),
            r matches Some(b) ==> b == self.states().lowered(s as int),
    {
        self.stator.is_lowered(s)
    }

    /// Queues every equivalence for its first look, then runs the queued
    /// optimizations, least first, until the queue is empty or `max_steps`
    /// have run; returns whether the queue was emptied. An optimization that
    /// is refused ends the run with its error.
    pub fn optimize_all(&mut self, max_steps: u64) -> (r: Result<bool, EvalError>)
        requires
            old(self).wf(),
        ensures
            final(self).wf(),
            forall|q: int, k: int| #[trigger] old(self).has_external(q, k) ==> final(self).has_external(q, k),
            r matches Ok(done) ==> (done <==> final(self).queue().len() == 0),
    {
        let n = self.backrefs.len();
        let mut b: usize = 0;
        let ghost s0 = *self;
        while b < n
            invariant
                *old(self) == s0,
                self.wf(),
                forall|q: int, k: int| #[trigger] s0.has_external(q, k) ==> self.has_external(q, k),
            decreases n - b,
        {
            let is_equiv = if b < self.backrefs.len() {
                match &self.backrefs[b] {
                    Some(x) => match x.referent {
                        Referent::ThisEquiv => true,
                        _ => false,
                    },
                    None => false,
                }
            } else {
                false
            };
            if is_equiv {
                self.enqueue(Optimization::Preinvestigate(PBack { inx: b, gen: 0 }));
                proof {
                    assert forall|q: int, k: int| #[trigger] s0.has_external(q, k) implies self.has_external(q, k) by {}
                }
            }
            b = b + 1;
        }
        let mut steps: u64 = 0;
        while steps < max_steps
            invariant
                *old(self) == s0,
                self.wf(),
                forall|q: int, k: int| #[trigger] s0.has_external(q, k) ==> self.has_external(q, k),
            decreases max_steps - steps,
        {
            let ghost s1 = *self;
            let next = self.pop_optimization();
            let ghost s2 = *self;
            proof {
                assert forall|q: int, k: int| #[trigger] s0.has_external(q, k) implies self.has_external(q, k) by {
                    assert(s1.has_external(q, k));
                    assert(s2.rn_live(q) == s1.rn_live(q));
                    assert(s2.rn_bits(q) == s1.rn_bits(q));
                }
            }
            match next {
                Some(o) => {
                    let r = self.optimize(o);
                    proof {
                        assert forall|q: int, k: int| #[trigger] s0.has_external(q, k) implies self.has_external(q, k) by {
                            assert(s2.has_external(q, k));
                        }
                    }
                    if r.is_err() {
                        return match r {
                            Err(e) => Err(e),
                            Ok(()) => Ok(false),
                        };
                    }
                },
                None => {
                    return Ok(true);
                },
            }
            steps = steps + 1;
        }
        Ok(self.optimizer.is_empty())
    }

    fn check_equiv(&self, e: usize) -> (r: bool)
        requires
            self.eq_live(e as int),
        ensures
            r == self.wf_equiv(e as int),
    {
        let pse = match &self.equivs[e] {
            Some(q) => q.p_self_equiv,
            None => 0,
        };
        if pse >= self.backrefs.len() {
            return false;
        }
        match &self.backrefs[pse] {
            Some(x) => *x == BackRef { referent: Referent::ThisEquiv, equiv: e },
            None => false,
        }
    }

    fn check_backref(&self, b: usize) -> (r: bool)
        requires
            self.bref_live(b as int),
        ensures
            r == self.wf_backref(b as int),
    {
        let x = match &self.backrefs[b] {
            Some(x) => *x,
            None => BackRef { referent: Referent::ThisEquiv, equiv: 0 },
        };
        if x.equiv >= self.equivs.len() {
            return false;
        }
        let pse = match &self.equivs[x.equiv] {
            Some(q) => q.p_self_equiv,
            None => {
                return false;
            },
        };
        match x.referent {
            Referent::ThisEquiv => pse == b,
            Referent::ThisLNode(l) => l < self.lnodes.len() && match &self.lnodes[l] {
                Some(n) => n.p_self == b,
                None => false,
            },
            Referent::Input(l) => l < self.lnodes.len() && match &self.lnodes[l] {
                Some(n) => vec_contains(&n.inputs, b),
                None => false,
            },
            Referent::ThisRNode(q) => q < self.rnodes.len() && match &self.rnodes[q] {
                Some(bits) => vec_contains(bits, b),
                None => false,
            },
            Referent::ThisTNode(t) => t < self.tnodes.len() && match &self.tnodes[t] {
                Some(n) => n.p_self == b,
                None => false,
            },
            Referent::LoopDriver(t) => t < self.tnodes.len() && match &self.tnodes[t] {
                Some(n) => n.p_driver == b,
                None => false,
            },
        }
    }

    /// Whether `b` is a back reference in use with a referent that satisfies
    /// `which` for node `n`: 0 the output of a lookup table node, 1 an input
    /// of one, 2 a bit of an external node, 3 the output of a temporal node,
    /// 4 its driver.
    fn check_ref(&self, b: usize, which: u8, n: usize) -> (r: bool)
        ensures
            r == (self.bref_live(b as int) && match which {
                0u8 => is_output_of(self.bref(b as int).referent, n as int),
                1u8 => is_input_of(self.bref(b as int).referent, n as int),
                2u8 => mentions_rnode(self.bref(b as int).referent, n as int),
                3u8 => is_tout_of(self.bref(b as int).referent, n as int),
                _ => is_driver_of(self.bref(b as int).referent, n as int),
            }),
    {
        if b >= self.backrefs.len() {
            return false;
        }
        match &self.backrefs[b] {
            Some(x) => match x.referent {
                Referent::ThisLNode(m) => which == 0 && m == n,
                Referent::Input(m) => which == 1 && m == n,
                Referent::ThisRNode(m) => which == 2 && m == n,
                Referent::ThisTNode(m) => which == 3 && m == n,
                Referent::LoopDriver(m) => which >= 4 && m == n,
                Referent::ThisEquiv => false,
            },
            None => false,
        }
    }

    fn check_lnode(&self, l: usize) -> (r: bool)
        requires
            self.ln_live(l as int),
        ensures
            r == self.wf_lnode(l as int),
    {
        match &self.lnodes[l] {
            Some(n) => {
                if !self.check_ref(n.p_self, 0, l) {
                    return false;
                }
                let mut k: usize = 0;
                while k < n.inputs.len()
                    invariant
                        self.lnodes@[l as int] == Some(*n),
                        k <= n.inputs@.len(),
                        forall|j: int| 0 <= j < k ==> {
                            &&& self.bref_live(#[trigger] n.inputs@[j] as int)
                            &&& is_input_of(self.bref(n.inputs@[j] as int).referent, l as int)
                        },
                    decreases n.inputs@.len() - k,
                {
                    if !self.check_ref(n.inputs[k], 1, l) {
                        return false;
                    }
                    k = k + 1;
                }
                match &n.table {
                    Some(t) => n.inputs.len() <= 255 && table_fits(t.len(), n.inputs.len()),
                    None => n.inputs.len() == 1,
                }
            },
            None => false,
        }
    }

    fn check_rnode(&self, q: usize) -> (r: bool)
        requires
            self.rn_live(q as int),
        ensures
            r == self.wf_rnode(q as int),
    {
        match &self.rnodes[q] {
            Some(bits) => {
                let mut k: usize = 0;
                while k < bits.len()
                    invariant
                        self.rnodes@[q as int] == Some(*bits),
                        k <= bits@.len(),
                        forall|j: int| 0 <= j < k ==> {
                            &&& self.bref_live(#[trigger] bits@[j] as int)
                            &&& mentions_rnode(self.bref(bits@[j] as int).referent, q as int)
                        },
                    decreases bits@.len() - k,
                {
                    if !self.check_ref(bits[k], 2, q) {
                        return false;
                    }
                    k = k + 1;
                }
                true
            },
            None => false,
        }
    }

    fn check_tnode(&self, t: usize) -> (r: bool)
        requires
            self.tn_live(t as int),
        ensures
            r == self.wf_tnode(t as int),
    {
        match &self.tnodes[t] {
            Some(n) => self.check_ref(n.p_self, 3, t) && self.check_ref(n.p_driver, 4, t),
            None => false,
        }
    }

    /// Checks that every back reference, equivalence and node is where the
    /// others say, and that the queue is in order; an ensemble made and
    /// changed by this library always is.
    pub fn verify_integrity(&self) -> (r: Result<(), EvalError>)
        ensures
            r is Ok <==> self.wf(),
            r matches Err(e) ==> e is OtherStr,
    {
        let mut e: usize = 0;
        while e < self.equivs.len()
            invariant
                e <= self.eqs().len(),
                forall|f: int| 0 <= f < e && #[trigger] self.eq_live(f) ==> self.wf_equiv(f),
            decreases self.eqs().len() - e,
        {
            if self.equivs[e].is_some() && !self.check_equiv(e) {
                proof {
                    assert(self.eq_live(e as int) && !self.wf_equiv(e as int));
                }
                return Err(EvalError::OtherStr("an equivalence's own back reference is broken"));
            }
            e = e + 1;
        }
        let mut b: usize = 0;
        while b < self.backrefs.len()
            invariant
                b <= self.brefs().len(),
                forall|f: int| #[trigger] self.eq_live(f) ==> self.wf_equiv(f),
                forall|c: int| 0 <= c < b && #[trigger] self.bref_live(c) ==> self.wf_backref(c),
            decreases self.brefs().len() - b,
        {
            if self.backrefs[b].is_some() && !self.check_backref(b) {
                proof {
                    assert(self.bref_live(b as int) && !self.wf_backref(b as int));
                    assert(!mentions_lnode(self.bref(b as int).referent, -1));
                    assert(!mentions_rnode(self.bref(b as int).referent, -1));
                    assert(!mentions_tnode(self.bref(b as int).referent, -1));
                }
                return Err(EvalError::OtherStr("a back reference is not where its referent says"));
            }
            b = b + 1;
        }
        let mut l: usize = 0;
        while l < self.lnodes.len()
            invariant
                l <= self.lnodes@.len(),
                forall|f: int| #[trigger] self.eq_live(f) ==> self.wf_equiv(f),
                forall|c: int| #[trigger] self.bref_live(c) ==> self.wf_backref(c),
                forall|m: int| 0 <= m < l && #[trigger] self.ln_live(m) ==> self.wf_lnode(m),
            decreases self.lnodes@.len() - l,
        {
            if self.lnodes[l].is_some() && !self.check_lnode(l) {
                proof {
                    assert(self.ln_live(l as int) && !self.wf_lnode(l as int));
                }
                return Err(EvalError::OtherStr("a lookup table node's back references are broken"));
            }
            l = l + 1;
        }
        let mut q: usize = 0;
        while q < self.rnodes.len()
            invariant
                q <= self.rnodes@.len(),
                forall|f: int| #[trigger] self.eq_live(f) ==> self.wf_equiv(f),
                forall|c: int| #[trigger] self.bref_live(c) ==> self.wf_backref(c),
                forall|m: int| #[trigger] self.ln_live(m) ==> self.wf_lnode(m),
                forall|m: int| 0 <= m < q && #[trigger] self.rn_live(m) ==> self.wf_rnode(m),
            decreases self.rnodes@.len() - q,
        {
            if self.rnodes[q].is_some() && !self.check_rnode(q) {
                proof {
                    assert(self.rn_live(q as int) && !self.wf_rnode(q as int));
                }
                return Err(EvalError::OtherStr("an external node's back references are broken"));
            }
            q = q + 1;
        }
        let mut t: usize = 0;
        while t < self.tnodes.len()
            invariant
                t <= self.tnodes@.len(),
                forall|f: int| #[trigger] self.eq_live(f) ==> self.wf_equiv(f),
                forall|c: int| #[trigger] self.bref_live(c) ==> self.wf_backref(c),
                forall|m: int| #[trigger] self.ln_live(m) ==> self.wf_lnode(m),
                forall|m: int| #[trigger] self.rn_live(m) ==> self.wf_rnode(m),
                forall|m: int| 0 <= m < t && #[trigger] self.tn_live(m) ==> self.wf_tnode(m),
            decreases self.tnodes@.len() - t,
        {
            if self.tnodes[t].is_some() && !self.check_tnode(t) {
                proof {
                    assert(self.tn_live(t as int) && !self.wf_tnode(t as int));
                }
                return Err(EvalError::OtherStr("a temporal node's back references are broken"));
            }
            t = t + 1;
        }
        if !self.optimizer.is_well_ordered() {
            return Err(EvalError::OtherStr("the optimizations are out of order"));
        }
        Ok(())
    }

    /// Everything but the states stays.
    pub open spec fn same_but_stator(&self, other: &Self) -> bool {
        &&& self.same_but_queue(other)
        &&& self.queue() == other.queue()
    }

    /// The temporal nodes other than `t` stay.
    pub open spec fn other_tnodes_stay(&self, prev: &Self, t: int) -> bool {
        forall|m: int| m != t ==> (#[trigger] self.tn_live(m) == prev.tn_live(m) && (prev.tn_live(m) ==> (
            self.tn_self(m) == prev.tn_self(m) && self.tn_driver(m) == prev.tn_driver(m))))
    }

    /// Takes out temporal node `t` with its back references; the equivalence
    /// of its driver is queued for a look at whether it is used.
    fn remove_tnode(&mut self, t: usize)
        requires
            old(self).wf(),
            old(self).tn_live(t as int),
        ensures
            final(self).wf(),
            final(self).eqs() == old(self).eqs(),
            final(self).same_lnodes(old(self)),
            final(self).same_rnodes(old(self)),
            old(self).pending().subset_of(final(self).pending()),
            final(self).brefs().len() == old(self).brefs().len(),
            forall|b: int| 0 <= b < old(self).brefs().len() ==> #[trigger] final(self).brefs()[b] == if old(self).bref_live(b)
                && mentions_tnode(old(self).bref(b).referent, t as int) {
                None
            } else {
                old(self).brefs()[b]
            },
            !final(self).tn_live(t as int),
            final(self).other_tnodes_stay(old(self), t as int),
    {
        let ghost s0 = *self;
        let (p_self, p_driver) = match &self.tnodes[t] {
            Some(n) => (n.p_self, n.p_driver),
            None => (0, 0),
        };
        proof {
            assert(s0.wf_tnode(t as int));
            assert(s0.wf_backref(p_driver as int));
        }
        let e_d = match &self.backrefs[p_driver] {
            Some(x) => x.equiv,
            None => 0,
        };
        let pse = match &self.equivs[e_d] {
            Some(q) => q.p_self_equiv,
            None => 0,
        };
        self.enqueue_in(Optimization::InvestigateUsed(PBack { inx: pse, gen: 0 }), Ghost(-1), Ghost(-1), Ghost(t as int));
        self.remove_backref(p_driver, Ghost(-1), Ghost(-1), Ghost(t as int));
        self.remove_backref(p_self, Ghost(-1), Ghost(-1), Ghost(t as int));
        let ghost s1 = *self;
        self.tnodes.set(t, None);
        proof {
            assert forall|b: int| 0 <= b < s0.brefs().len() implies #[trigger] self.brefs()[b] == if s0.bref_live(b)
                && mentions_tnode(s0.bref(b).referent, t as int) {
                None
            } else {
                s0.brefs()[b]
            } by {
                if s0.bref_live(b) && mentions_tnode(s0.bref(b).referent, t as int) {
                    assert(s0.wf_backref(b));
                }
            }
            assert forall|b: int| #[trigger] self.bref_live(b) implies self.wf_backref(b) by {
                assert(s0.bref_live(b));
                assert(!mentions_tnode(s0.bref(b).referent, t as int));
                assert(s0.wf_backref(b));
            }
            assert forall|e: int| #[trigger] self.eq_live(e) implies self.wf_equiv(e) by {
                assert(s1.eq_live(e));
            }
            assert forall|m: int| #[trigger] self.ln_live(m) implies m == -1 || self.wf_lnode(m) by {
                assert(s1.ln_live(m));
                assert(s1.wf_lnode(m));
            }
            assert forall|r: int| #[trigger] self.rn_live(r) implies r == -1 || self.wf_rnode(r) by {
                assert(s1.rn_live(r));
                assert(s1.wf_rnode(r));
            }
            assert forall|m: int| #[trigger] self.tn_live(m) implies m == -1 || self.wf_tnode(m) by {
                assert(s1.tn_live(m));
                assert(s1.wf_tnode(m));
            }
        }
    }

    /// Moves the driver `old_b` of temporal node `t` over to a new back
    /// reference in equivalence `to`.
    fn replace_driver(&mut self, t: usize, old_b: usize, to: usize) -> (nb: usize)
        requires
            old(self).wf(),
            old(self).bref_live(old_b as int),
            is_driver_of(old(self).bref(old_b as int).referent, t as int),
            old(self).eq_live(to as int),
        ensures
            final(self).wf(),
            nb == old(self).brefs().len(),
            final(self).brefs() == old(self).brefs().push(Some(BackRef { referent: Referent::LoopDriver(t), equiv: to })).update(old_b as int, None),
            final(self).eqs() == old(self).eqs(),
            final(self).same_lnodes(old(self)),
            final(self).same_rnodes(old(self)),
            final(self).queue() == old(self).queue(),
            final(self).tn_live(t as int),
            final(self).tn_self(t as int) == old(self).tn_self(t as int),
            final(self).tn_driver(t as int) == nb,
            final(self).other_tnodes_stay(old(self), t as int),
    {
        let ghost s0 = *self;
        proof {
            assert(s0.wf_backref(old_b as int));
            assert(s0.wf_tnode(t as int));
        }
        let nb = self.push_backref(Referent::LoopDriver(t), to, Ghost(-1), Ghost(-1), Ghost(t as int));
        let ghost s1 = *self;
        match &mut self.tnodes[t] {
            Some(n) => {
                n.p_driver = nb;
            },
            None => {},
        }
        proof {
            assert forall|b: int| #[trigger] self.bref_live(b) implies (mentions_lnode(self.bref(b).referent, -1)
                || mentions_rnode(self.bref(b).referent, -1) || mentions_tnode(self.bref(b).referent, t as int) || self.wf_backref(b)) by {
                assert(s1.bref_live(b));
            }
            assert forall|f: int| #[trigger] self.eq_live(f) implies self.wf_equiv(f) by {
                assert(s1.eq_live(f));
            }
            assert forall|m: int| #[trigger] self.ln_live(m) implies m == -1 || self.wf_lnode(m) by {
                assert(s1.ln_live(m));
            }
            assert forall|r: int| #[trigger] self.rn_live(r) implies r == -1 || self.wf_rnode(r) by {
                assert(s1.rn_live(r));
            }
            assert forall|m: int| #[trigger] self.tn_live(m) implies m == t || self.wf_tnode(m) by {
                assert(s1.tn_live(m));
            }
        }
        self.remove_backref(old_b, Ghost(-1), Ghost(-1), Ghost(t as int));
        proof {
            assert(self.wf_tnode(t as int)) by {
                assert(s0.bref_live(s0.tn_self(t as int) as int));
            }
            assert forall|b: int| #[trigger] self.bref_live(b) implies self.wf_backref(b) by {
                if b != nb {
                    assert(s0.bref_live(b));
                    assert(s0.wf_backref(b));
                }
            }
            assert forall|m: int| m != t implies (#[trigger] self.tn_live(m) == s0.tn_live(m) && (s0.tn_live(m) ==> (
                self.tn_self(m) == s0.tn_self(m) && self.tn_driver(m) == s0.tn_driver(m)))) by {
                assert(s1.tn_live(m) == s0.tn_live(m));
            }
        }
        nb
    }

    /// A temporal node whose driver is a constant makes its equivalence that
    /// constant; returns whether it did.
    fn const_eval_tnode(&mut self, t: usize) -> (r: bool)
        requires
            old(self).wf(),
            old(self).tn_live(t as int),
        ensures
            final(self).wf(),
            final(self).brefs() == old(self).brefs(),
            final(self).same_lnodes(old(self)),
            final(self).same_rnodes(old(self)),
            final(self).same_tnodes(old(self)),
            final(self).queue() == old(self).queue(),
            final(self).eqs().len() == old(self).eqs().len(),
            forall|f: int| 0 <= f < old(self).eqs().len() && f != old(self).bref(old(self).tn_self(t as int) as int).equiv ==> #[trigger] final(self).eqs()[f] == old(self).eqs()[f],
            final(self).eq_live(old(self).bref(old(self).tn_self(t as int) as int).equiv as int),
            final(self).eq_of(old(self).bref(old(self).tn_self(t as int) as int).equiv as int).p_self_equiv
                == old(self).eq_of(old(self).bref(old(self).tn_self(t as int) as int).equiv as int).p_self_equiv,
            r ==> final(self).eq_of(old(self).bref(old(self).tn_self(t as int) as int).equiv as int).val is Const,
            !r ==> final(self).eqs() == old(self).eqs(),
    {
        let ghost s0 = *self;
        let (p_self, p_driver) = match &self.tnodes[t] {
            Some(n) => (n.p_self, n.p_driver),
            None => (0, 0),
        };
        proof {
            assert(s0.wf_tnode(t as int));
            assert(s0.wf_backref(p_driver as int));
            assert(s0.wf_backref(p_self as int));
        }
        let e_d = match &self.backrefs[p_driver] {
            Some(x) => x.equiv,
            None => 0,
        };
        let e_s = match &self.backrefs[p_self] {
            Some(x) => x.equiv,
            None => 0,
        };
        let val = match &self.equivs[e_d] {
            Some(q) => q.val,
            None => Value::Unknown,
        };
        match val {
            Value::Const(v) => {
                self.set_equiv_val(e_s, Value::Const(v));
                true
            },
            _ => false,
        }
    }

    /// Makes a temporal node driven, after `delay`, by the equivalence of
    /// back reference `driver`, with its output in a new equivalence of value
    /// `val`; returns its output back reference, or nothing where `driver`
    /// is not in use.
    pub fn make_tnode(&mut self, driver: usize, delay: crate::tnode::Delay, val: Value) -> (r: Option<usize>)
        requires
            old(self).wf(),
        ensures
            final(self).wf(),
            r is Some <==> old(self).bref_live(driver as int),
            r is None ==> *final(self) == *old(self),
            r matches Some(p) ==> final(self).bref_live(p as int) && final(self).bref(p as int).referent is ThisTNode
                && final(self).bref(p as int).equiv == old(self).eqs().len(),
            forall|c: int| #[trigger] old(self).bref_live(c) ==> final(self).bref_live(c) && final(self).bref(c) == old(self).bref(c),
            forall|f: int| 0 <= f < old(self).eqs().len() ==> #[trigger] final(self).eqs()[f] == old(self).eqs()[f],
            final(self).same_lnodes(old(self)),
            final(self).same_rnodes(old(self)),
            final(self).queue() == old(self).queue(),
    {
        let ghost s0 = *self;
        if driver >= self.backrefs.len() || self.backrefs[driver].is_none() {
            return None;
        }
        proof {
            assert(s0.bref_live(driver as int));
            assert(s0.wf_backref(driver as int));
        }
        let e_d = match &self.backrefs[driver] {
            Some(x) => x.equiv,
            None => 0,
        };
        let e = self.equivs.len();
        let _pe = self.make_equiv(val);
        let ghost s1 = *self;
        let t = self.tnodes.len();
        proof {
            assert forall|c: int| #[trigger] s1.bref_live(c) implies !mentions_tnode(s1.bref(c).referent, t as int) by {
                assert(s1.wf_backref(c));
            }
        }
        let ps = self.push_backref(Referent::ThisTNode(t), e, Ghost(-1), Ghost(-1), Ghost(t as int));
        let pd = self.push_backref(Referent::LoopDriver(t), e_d, Ghost(-1), Ghost(-1), Ghost(t as int));
        let ghost s2 = *self;
        self.tnodes.push(Some(EnsTNode { p_self: ps, p_driver: pd, delay }));
        proof {
            assert(self.tn_live(t as int));
            assert forall|b: int| #[trigger] self.bref_live(b) implies self.wf_backref(b) by {
                assert(s2.bref_live(b));
                if b != ps && b != pd {
                    assert(s1.bref_live(b));
                    assert(s1.wf_backref(b));
                }
            }
            assert forall|f: int| #[trigger] self.eq_live(f) implies self.wf_equiv(f) by {
                assert(s2.eq_live(f));
            }
            assert forall|m: int| #[trigger] self.ln_live(m) implies m == -1 || self.wf_lnode(m) by {
                assert(s2.ln_live(m));
                assert(s1.wf_lnode(m));
                assert(s1.bref_live(s1.ln_self(m) as int));
                assert forall|k: int| 0 <= k < self.ln_inputs(m).len() implies {
                    &&& self.bref_live(#[trigger] self.ln_inputs(m)[k] as int)
                    &&& is_input_of(self.bref(self.ln_inputs(m)[k] as int).referent, m)
                } by {
                    assert(s1.bref_live(s1.ln_inputs(m)[k] as int));
                }
            }
            assert forall|q: int| #[trigger] self.rn_live(q) implies q == -1 || self.wf_rnode(q) by {
                assert(s2.rn_live(q));
                assert(s1.wf_rnode(q));
                assert forall|k: int| 0 <= k < self.rn_bits(q).len() implies {
                    &&& self.bref_live(#[trigger] self.rn_bits(q)[k] as int)
                    &&& mentions_rnode(self.bref(self.rn_bits(q)[k] as int).referent, q)
                } by {
                    assert(s1.bref_live(s1.rn_bits(q)[k] as int));
                }
            }
            assert forall|m: int| #[trigger] self.tn_live(m) implies m == -1 || self.wf_tnode(m) by {
                if m != t {
                    assert(s1.tn_live(m));
                    assert(s1.wf_tnode(m));
                    assert(s1.bref_live(s1.tn_self(m) as int));
                    assert(s1.bref_live(s1.tn_driver(m) as int));
                }
            }
            assert forall|c: int| #[trigger] s0.bref_live(c) implies self.bref_live(c) && self.bref(c) == s0.bref(c) by {
                assert(s1.bref_live(c));
            }
        }
        Some(ps)
    }

    /// The equivalence that node `l` drives.
    pub open spec fn ln_equiv(&self, l: int) -> int {
        self.bref(self.ln_self(l) as int).equiv as int
    }

    /// Evaluates what can be evaluated of node `l` from the constants among
    /// its inputs: a copy of a constant, or a table that comes down to one,
    /// makes its equivalence that constant (and the result is `true`); a
    /// table sheds the inputs it does not need; a copy, or a table that
    /// comes down to one, is queued for forwarding. Every input that goes has
    /// its equivalence queued for a look at whether it is used.
    fn const_eval_lnode(&mut self, l: usize) -> (r: bool)
        requires
            old(self).wf(),
            old(self).ln_live(l as int),
        ensures
            final(self).wf(),
            final(self).ln_live(l as int),
            final(self).ln_self(l as int) == old(self).ln_self(l as int),
            final(self).other_lnodes_stay(old(self), l as int),
            final(self).same_rnodes(old(self)),
            final(self).same_tnodes(old(self)),
            final(self).brefs().len() == old(self).brefs().len(),
            forall|c: int| #[trigger] final(self).bref_live(c) ==> old(self).bref_live(c) && final(self).bref(c) == old(self).bref(c),
            forall|c: int| #[trigger] old(self).bref_live(c) && !final(self).bref_live(c) ==> is_input_of(old(self).bref(c).referent, l as int),
            final(self).eqs().len() == old(self).eqs().len(),
            forall|f: int| 0 <= f < old(self).eqs().len() && f != old(self).ln_equiv(l as int) ==> #[trigger] final(self).eqs()[f] == old(self).eqs()[f],
            final(self).eq_live(old(self).ln_equiv(l as int)),
            final(self).eq_of(old(self).ln_equiv(l as int)).p_self_equiv == old(self).eq_of(old(self).ln_equiv(l as int)).p_self_equiv,
            final(self).eq_of(old(self).ln_equiv(l as int)).val == old(self).eq_of(old(self).ln_equiv(l as int)).val
                || final(self).eq_of(old(self).ln_equiv(l as int)).val is Const,
            r ==> final(self).eq_of(old(self).ln_equiv(l as int)).val is Const,
            old(self).pending().subset_of(final(self).pending()),
            forall|k: int| 0 <= k < final(self).ln_inputs(l as int).len() ==> old(self).ln_inputs(l as int).contains(
                #[trigger] final(self).ln_inputs(l as int)[k]),
    {
        let ghost s0 = *self;
        let (p_self, inputs, copy) = match &self.lnodes[l] {
            Some(n) => (n.p_self, n.inputs.clone(), n.table.is_none()),
            None => (0, Vec::new(), true),
        };
        proof {
            assert(inputs@ =~= s0.ln_inputs(l as int));
            assert(s0.wf_lnode(l as int));
            assert(s0.bref_live(p_self as int));
            assert(s0.wf_backref(p_self as int));
        }
        let se = match &self.backrefs[p_self] {
            Some(x) => x.equiv,
            None => 0,
        };
        proof {
            assert(p_self == s0.ln_self(l as int));
            assert(se as int == s0.ln_equiv(l as int));
        }
        if copy {
            let inp = inputs[0];
            proof {
                assert(s0.bref_live(inputs@[0] as int));
                assert(s0.wf_backref(inp as int));
            }
            let e_in = match &self.backrefs[inp] {
                Some(x) => x.equiv,
                None => 0,
            };
            let val = match &self.equivs[e_in] {
                Some(q) => q.val,
                None => Value::Unknown,
            };
            match val {
                Value::Const(v) => {
                    self.set_equiv_val(se, Value::Const(v));
                    proof {
                        assert forall|f: int| 0 <= f < s0.eqs().len() && f != s0.ln_equiv(l as int) implies #[trigger] self.eqs()[f] == s0.eqs()[f] by {}
                    }
                    let pse = match &self.equivs[se] {
                        Some(q) => q.p_self_equiv,
                        None => 0,
                    };
                    self.enqueue(Optimization::ConstifyEquiv(PBack { inx: pse, gen: 0 }));
                    return true;
                },
                _ => {
                    self.enqueue(Optimization::ForwardEquiv(PBack { inx: p_self, gen: 0 }));
                    return false;
                },
            }
        }
        let table = match &self.lnodes[l] {
            Some(n) => match &n.table {
                Some(t) => t.clone(),
                None => Vec::new(),
            },
            None => Vec::new(),
        };
        proof {
            assert(table@ =~= s0.ln_table(l as int)->Some_0);
        }
        let mut refs: Vec<LutInputRef> = Vec::new();
        let mut k: usize = 0;
        while k < inputs.len()
            invariant
                *self == s0,
                s0.wf(),
                s0.wf_lnode(l as int),
                inputs@ == s0.ln_inputs(l as int),
                k <= inputs@.len(),
                refs@.len() == k,
                forall|j: int| 0 <= j < k ==> {
                    &&& (#[trigger] refs@[j]).p_inp.inx == s0.ln_inputs(l as int)[j]
                    &&& refs@[j].p_equiv.inx == s0.bref(s0.ln_inputs(l as int)[j] as int).equiv
                    &&& refs@[j].constant == match s0.eq_of(refs@[j].p_equiv.inx as int).val {
                        Value::Const(c) => Some(c),
                        _ => None,
                    }
                },
            decreases inputs@.len() - k,
        {
            let b = inputs[k];
            proof {
                assert(s0.bref_live(s0.ln_inputs(l as int)[k as int] as int));
            }
            let e_b = match &self.backrefs[b] {
                Some(x) => x.equiv,
                None => 0,
            };
            let constant = match &self.equivs[e_b] {
                Some(q) => match q.val {
                    Value::Const(c) => Some(c),
                    _ => None,
                },
                None => None,
            };
            refs.push(LutInputRef { p_inp: PBack { inx: b, gen: 0 }, p_equiv: PBack { inx: e_b, gen: 0 }, constant });
            k = k + 1;
        }
        let ghost refs0 = refs@;
        let (outcome, removed) = const_eval_lut(refs, table);
        // every input that goes has its equivalence looked at
        let mut i: usize = 0;
        while i < removed.len()
            invariant
                s0.wf(),
                self.wf(),
                self.same_but_queue(&s0),
                s0.pending().subset_of(self.pending()),
                forall|j: int| 0 <= j < removed@.len() ==> refs0.contains(#[trigger] removed@[j]),
                refs0.len() == s0.ln_inputs(l as int).len(),
                forall|j: int| 0 <= j < refs0.len() ==> {
                    &&& (#[trigger] refs0[j]).p_inp.inx == s0.ln_inputs(l as int)[j]
                    &&& refs0[j].p_equiv.inx == s0.bref(s0.ln_inputs(l as int)[j] as int).equiv
                },
                s0.wf_lnode(l as int),
                s0.ln_live(l as int),
            decreases removed@.len() - i,
        {
            let x = removed[i];
            proof {
                assert(refs0.contains(removed@[i as int]));
                let j = choose|j: int| 0 <= j < refs0.len() && refs0[j] == x;
                assert(s0.bref_live(s0.ln_inputs(l as int)[j] as int));
                assert(s0.wf_backref(s0.ln_inputs(l as int)[j] as int));
                assert(self.eq_live(x.p_equiv.inx as int));
            }
            let pse = match &self.equivs[x.p_equiv.inx] {
                Some(q) => q.p_self_equiv,
                None => 0,
            };
            self.enqueue(Optimization::InvestigateUsed(PBack { inx: pse, gen: 0 }));
            i = i + 1;
        }
        let ghost s_q = *self;
        match outcome {
            LNodeOutcome::Const(b) => {
                let mut t: Vec<bool> = Vec::new();
                t.push(b);
                proof {
                    vstd::arithmetic::power2::lemma2_to64();
                }
                self.replace_lnode(l, Vec::new(), Some(t));
                let ghost s_r = *self;
                self.set_equiv_val(se, Value::Const(b));
                proof {
                    assert forall|c: int| #[trigger] self.bref_live(c) implies s0.bref_live(c) && self.bref(c) == s0.bref(c) by {
                        assert(s_r.brefs()[c] == self.brefs()[c]);
                    }
                    assert(self.lnodes@ == s_r.lnodes@);
                    assert(s_q.lnodes@ == s0.lnodes@);
                    assert forall|m: int| m != l implies (#[trigger] self.ln_live(m) == s0.ln_live(m) && (s0.ln_live(m) ==> (
                        self.ln_self(m) == s0.ln_self(m) && self.ln_inputs(m) == s0.ln_inputs(m)
                            && self.ln_table(m) == s0.ln_table(m)))) by {
                        assert(s_r.ln_live(m) == s0.ln_live(m));
                        if s0.ln_live(m) {
                            assert(s_r.ln_self(m) == s_q.ln_self(m));
                            assert(s_q.ln_self(m) == s0.ln_self(m));
                            assert(s_r.ln_inputs(m) == s_q.ln_inputs(m));
                            assert(s_r.ln_table(m) == s_q.ln_table(m));
                        }
                    }
                    Self::lemma_stay_after_same(&s0, &s_q, &s_r, l as int);
                    Self::lemma_same_after_stay(&s0, &s_r, self, l as int);
                    assert(s_q.lnodes@ == s0.lnodes@);
                    assert forall|f: int| 0 <= f < s0.eqs().len() && f != s0.ln_equiv(l as int) implies #[trigger] self.eqs()[f] == s0.eqs()[f] by {
                        assert(s_r.eqs()[f] == s0.eqs()[f]);
                    }
                }
                true
            },
            LNodeOutcome::Copy(x) => {
                let mut ni: Vec<usize> = Vec::new();
                ni.push(x.p_inp.inx);
                proof {
                    let j = choose|j: int| 0 <= j < refs0.len() && refs0[j] == x;
                    assert(s0.ln_inputs(l as int)[j] == x.p_inp.inx);
                    assert(s_q.ln_inputs(l as int).contains(ni@[0]));
                }
                self.replace_lnode(l, ni, None);
                let ghost s_r = *self;
                self.enqueue(Optimization::ForwardEquiv(PBack { inx: p_self, gen: 0 }));
                proof {
                    Self::lemma_stay_after_same(&s0, &s_q, &s_r, l as int);
                    Self::lemma_same_after_stay(&s0, &s_r, self, l as int);
                }
                false
            },
            LNodeOutcome::Lut(ps, t) => {
                let mut ni: Vec<usize> = Vec::new();
                let mut j: usize = 0;
                while j < ps.len()
                    invariant
                        j <= ps@.len(),
                        ni@.len() == j,
                        forall|a: int| 0 <= a < ps@.len() ==> refs0.contains(#[trigger] ps@[a]),
                        refs0.len() == s0.ln_inputs(l as int).len(),
                        forall|a: int| 0 <= a < refs0.len() ==> (#[trigger] refs0[a]).p_inp.inx == s0.ln_inputs(l as int)[a],
                        forall|a: int| 0 <= a < j ==> s0.ln_inputs(l as int).contains(#[trigger] ni@[a]),
                    decreases ps@.len() - j,
                {
                    let y = ps[j].p_inp.inx;
                    proof {
                        assert(refs0.contains(ps@[j as int]));
                        let a = choose|a: int| 0 <= a < refs0.len() && refs0[a] == ps@[j as int];
                        assert(s0.ln_inputs(l as int)[a] == y);
                    }
                    ni.push(y);
                    j = j + 1;
                }
                proof {
                    assert(ps@.len() <= refs0.len());
                }
                self.replace_lnode(l, ni, Some(t));
                proof {
                    Self::lemma_stay_after_same(&s0, &s_q, self, l as int);
                }
                false
            },
        }
    }

    pub fn new() -> (r: Self)
        ensures
            r.wf(),
            r.brefs().len() == 0,
            r.eqs().len() == 0,
            r.queue().len() == 0,
            r.states().wf(),
            r.states().len() == 0,
    {
        Ensemble {
            backrefs: Vec::new(),
            equivs: Vec::new(),
            lnodes: Vec::new(),
            rnodes: Vec::new(),
            tnodes: Vec::new(),
            optimizer: Optimizer::new(),
            stator: Stator::new(),
        }
    }
}

} // verus!
