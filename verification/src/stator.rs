//! The states: operations over other states, as they were written, before
//! they are lowered to lookup table nodes. Lowering a state first takes the
//! whole tree of states it reads, rootward, to elementary operations.

use vstd::prelude::*;
use crate::error::EvalError;
use vstd::set_lib::{set_int_range, lemma_int_range};
use crate::lower_state::{StateOp, Rewrite, RewriteView, rewrite_of, static_rewrite, set_rewrite};

verus! {

/// An operation of a state over other states (by index).
#[derive(Debug, PartialEq)]
pub enum NodeOp {
    /// A constant
    Literal(Vec<bool>),
    /// A value that is not known, over its operands
    Opaque(Vec<usize>),
    /// An operation that lookup table nodes can express directly
    Elementary(Vec<usize>),
    /// `Lut(table, inx)`
    Lut(usize, usize),
    /// `Get(bits, inx)`
    Get(usize, usize),
    /// `Set(bits, inx, bit)`
    SetBit(usize, usize, usize),
    /// A table over the index operand
    StaticLut(usize, Vec<bool>),
    /// Fields `(state, from, width)` one after the other
    ConcatFields(Vec<(usize, usize, usize)>),
    Copy(usize),
    /// An operation that is lowered into more basic states
    Other(Vec<usize>),
}

/// An operation as specifications read it.
pub enum NodeOpView {
    Literal(Seq<bool>),
    Opaque(Seq<usize>),
    Elementary(Seq<usize>),
    Lut(usize, usize),
    Get(usize, usize),
    SetBit(usize, usize, usize),
    StaticLut(usize, Seq<bool>),
    ConcatFields(Seq<(usize, usize, usize)>),
    Copy(usize),
    Other(Seq<usize>),
}

impl View for NodeOp {
    type V = NodeOpView;

    open spec fn view(&self) -> NodeOpView {
        match self {
            NodeOp::Literal(v) => NodeOpView::Literal(v@),
            NodeOp::Opaque(v) => NodeOpView::Opaque(v@),
            NodeOp::Elementary(v) => NodeOpView::Elementary(v@),
            NodeOp::Lut(a, b) => NodeOpView::Lut(*a, *b),
            NodeOp::Get(a, b) => NodeOpView::Get(*a, *b),
            NodeOp::SetBit(a, b, c) => NodeOpView::SetBit(*a, *b, *c),
            NodeOp::StaticLut(a, t) => NodeOpView::StaticLut(*a, t@),
            NodeOp::ConcatFields(f) => NodeOpView::ConcatFields(f@),
            NodeOp::Copy(a) => NodeOpView::Copy(*a),
            NodeOp::Other(v) => NodeOpView::Other(v@),
        }
    }
}

/// The states an operation reads.
pub open spec fn operands(op: NodeOpView) -> Seq<usize> {
    match op {
        NodeOpView::Literal(_) => Seq::empty(),
        NodeOpView::Opaque(v) => v,
        NodeOpView::Elementary(v) => v,
        NodeOpView::Lut(a, b) => seq![a, b],
        NodeOpView::Get(a, b) => seq![a, b],
        NodeOpView::SetBit(a, b, c) => seq![a, b, c],
        NodeOpView::StaticLut(a, _) => seq![a],
        NodeOpView::ConcatFields(f) => f.map_values(|x: (usize, usize, usize)| x.0),
        NodeOpView::Copy(a) => seq![a],
        NodeOpView::Other(v) => v,
    }
}

/// The states an operation reads, in order.
fn op_operands(op: &NodeOp) -> (r: Vec<usize>)
    ensures
        r@ == operands(op@),
{
    let r = match op {
        NodeOp::Literal(_) => Vec::new(),
        NodeOp::Opaque(v) => v.clone(),
        NodeOp::Elementary(v) => v.clone(),
        NodeOp::Lut(a, b) => vec![*a, *b],
        NodeOp::Get(a, b) => vec![*a, *b],
        NodeOp::SetBit(a, b, c) => vec![*a, *b, *c],
        NodeOp::StaticLut(a, _) => vec![*a],
        NodeOp::ConcatFields(f) => {
            let mut v: Vec<usize> = Vec::new();
            let mut i: usize = 0;
            while i < f.len()
                invariant
                    i <= f@.len(),
                    v@ == f@.take(i as int).map_values(|x: (usize, usize, usize)| x.0),
                decreases f@.len() - i,
            {
                v.push(f[i].0);
                proof {
                    assert(f@.take(i + 1) =~= f@.take(i as int).push(f@[i as int]));
                }
                i = i + 1;
            }
            proof {
                assert(f@.take(f@.len() as int) =~= f@);
            }
            v
        },
        NodeOp::Copy(a) => vec![*a],
        NodeOp::Other(v) => v.clone(),
    };
    proof {
        assert(r@ =~= operands(op@));
    }
    r
}

pub struct StateNode {
    pub op: NodeOp,
    /// The bit width
    pub nzbw: usize,
    /// Its rootward tree is elementary
    pub lowered: bool,
}

pub struct Stator {
    states: Vec<Option<StateNode>>,
}

impl Stator {
    pub closed spec fn live(&self, s: int) -> bool {
        0 <= s < self.states@.len() && self.states@[s] is Some
    }

    pub closed spec fn op(&self, s: int) -> NodeOpView {
        self.states@[s]->Some_0.op@
    }

    pub closed spec fn exec_op(&self, s: int) -> &NodeOp {
        &self.states@[s]->Some_0.op
    }

    pub closed spec fn nzbw(&self, s: int) -> usize {
        self.states@[s]->Some_0.nzbw
    }

    pub closed spec fn lowered(&self, s: int) -> bool {
        self.states@[s]->Some_0.lowered
    }

    pub closed spec fn len(&self) -> nat {
        self.states@.len()
    }

    /// The literal of state `t`, if it is one.
    pub open spec fn literal(&self, t: int) -> Option<Vec<bool>> {
        if self.live(t) {
            match self.exec_op(t) {
                NodeOp::Literal(v) => Some(*v),
                _ => None,
            }
        } else {
            None
        }
    }

    /// State `s` as the static rewrite reads it.
    pub open spec fn state_op(&self, s: int) -> StateOp {
        match self.op(s) {
            NodeOpView::Lut(t, i) => StateOp::Lut { out_w: self.nzbw(s), inx_w: self.nzbw(i as int), table: self.literal(t as int) },
            NodeOpView::Get(b, i) => StateOp::Get { bits_w: self.nzbw(b as int), inx: self.literal(i as int) },
            NodeOpView::SetBit(b, i, _) => StateOp::SetBit { bits_w: self.nzbw(b as int), inx: self.literal(i as int) },
            NodeOpView::Other(_) => StateOp::Other,
            _ => StateOp::Elementary,
        }
    }

    /// A rewrite only reads index literals that fit in a `usize`.
    pub open spec fn rewritable(&self, s: int) -> bool {
        match self.state_op(s) {
            StateOp::Get { inx: Some(i), .. } => i@.len() <= usize::BITS,
            StateOp::SetBit { inx: Some(i), .. } => i@.len() <= usize::BITS,
            _ => true,
        }
    }

    /// The rewrite of state `s`, in terms of its operands.
    pub open spec fn rewritten(&self, s: int) -> NodeOpView {
        let ops = operands(self.op(s));
        if !self.rewritable(s) {
            self.op(s)
        } else {
            match rewrite_of(self.state_op(s)) {
                RewriteView::Opaque => NodeOpView::Opaque(Seq::empty()),
                RewriteView::StaticLut(t) => NodeOpView::StaticLut(ops[1], t),
                RewriteView::ConcatFields(f) => NodeOpView::ConcatFields(
                    f.map_values(|x: (usize, usize, usize)| (ops[x.0 as int], x.1, x.2)),
                ),
                RewriteView::Copy(o) => NodeOpView::Copy(ops[o as int]),
                _ => self.op(s),
            }
        }
    }

    /// State `s` still has to go through `lower_op`.
    pub open spec fn needs_lower(&self, s: int) -> bool {
        !self.rewritable(s) || rewrite_of(self.state_op(s)) is NeedsLower
    }

    /// Every operand is a state, and the operands of a lowered state are
    /// lowered.
    pub open spec fn wf(&self) -> bool {
        &&& forall|s: int, k: int| #[trigger] self.live(s) && 0 <= k < operands(self.op(s)).len() ==> self.live(
            #[trigger] operands(self.op(s))[k] as int)
        &&& forall|s: int, k: int| #[trigger] self.live(s) && self.lowered(s) && 0 <= k < operands(self.op(s)).len() ==> self.lowered(
            #[trigger] operands(self.op(s))[k] as int)
    }

    /// Everything but the operation of state `s` stays.
    pub open spec fn others_stay(&self, prev: &Self, s: int) -> bool {
        &&& self.len() == prev.len()
        &&& forall|t: int| #[trigger] self.live(t) == prev.live(t)
        &&& forall|t: int| prev.live(t) ==> #[trigger] self.nzbw(t) == prev.nzbw(t)
        &&& forall|t: int| prev.live(t) ==> #[trigger] self.lowered(t) == prev.lowered(t)
        &&& forall|t: int| prev.live(t) && t != s ==> #[trigger] self.exec_op(t) == prev.exec_op(t)
        &&& forall|t: int| prev.live(t) && t != s ==> #[trigger] self.op(t) == prev.op(t)
    }

    /// The literal of state `t`, copied.
    fn lit_of(&self, t: usize) -> (r: Option<Vec<bool>>)
        ensures
            r is Some <==> self.literal(t as int) is Some,
            r matches Some(v) ==> v@ == self.literal(t as int)->Some_0@,
    {
        if t >= self.states.len() {
            return None;
        }
        match &self.states[t] {
            Some(n) => match &n.op {
                NodeOp::Literal(v) => {
                    let c = v.clone();
                    proof {
                        assert(c@ =~= v@);
                    }
                    Some(c)
                },
                _ => None,
            },
            None => None,
        }
    }

    fn nzbw_of(&self, t: usize) -> (r: usize)
        requires
            self.live(t as int),
        ensures
            r == self.nzbw(t as int),
    {
        match &self.states[t] {
            Some(n) => n.nzbw,
            None => 0,
        }
    }

    /// Makes a state of operation `op` and width `nzbw`; nothing where an
    /// operand is not a state.
    pub fn make_state(&mut self, op: NodeOp, nzbw: usize) -> (r: Option<usize>)
        requires
            old(self).wf(),
        ensures
            final(self).wf(),
            r is Some <==> forall|k: int| 0 <= k < operands(op@).len() ==> old(self).live(#[trigger] operands(op@)[k] as int),
            r is None ==> *final(self) == *old(self),
            r matches Some(s) ==> s == old(self).len() && final(self).live(s as int) && final(self).op(s as int) == op@
                && final(self).nzbw(s as int) == nzbw && !final(self).lowered(s as int),
            r matches Some(s) ==> final(self).len() == old(self).len() + 1 && forall|t: int| old(self).live(t) ==> #[trigger] final(self).live(t)
                && final(self).nzbw(t) == old(self).nzbw(t) && final(self).lowered(t) == old(self).lowered(t)
                && final(self).exec_op(t) == old(self).exec_op(t),
    {
        let ghost ov = op@;
        let ghost s0 = *self;
        let ops = op_operands(&op);
        proof {
            assert(ops@ =~= operands(ov));
        }
        let mut i: usize = 0;
        while i < ops.len()
            invariant
                *self == s0,
                s0.wf(),
                ov == op@,
                ops@ == operands(ov),
                i <= ops@.len(),
                forall|k: int| 0 <= k < i ==> self.live(#[trigger] ops@[k] as int),
            decreases ops@.len() - i,
        {
            let x = ops[i];
            if x >= self.states.len() || self.states[x].is_none() {
                proof {
                    assert(!self.live(operands(ov)[i as int] as int));
                    assert(ov == op@);
                    assert(i < operands(op@).len());
                    assert(!s0.live(operands(op@)[i as int] as int));
                }
                return None;
            }
            i = i + 1;
        }
        let s = self.states.len();
        self.states.push(Some(StateNode { op, nzbw, lowered: false }));
        proof {
            assert(self.op(s as int) == ov);
            assert forall|t: int, k: int| #[trigger] self.live(t) && 0 <= k < operands(self.op(t)).len() implies self.live(
                #[trigger] operands(self.op(t))[k] as int) by {
                if t != s {
                    assert(s0.live(t));
                    assert(s0.live(operands(s0.op(t))[k] as int));
                } else {
                    assert(ops@[k] == operands(ov)[k]);
                }
            }
            assert forall|t: int, k: int| #[trigger] self.live(t) && self.lowered(t) && 0 <= k < operands(self.op(t)).len() implies self.lowered(
                #[trigger] operands(self.op(t))[k] as int) by {
                if t != s {
                    assert(s0.live(t));
                    assert(s0.lowered(operands(s0.op(t))[k] as int));
                    assert(s0.live(operands(s0.op(t))[k] as int));
                }
            }
            assert forall|t: int| #[trigger] self.live(t) == s0.live(t) || t == s by {}
        }
        Some(s)
    }

    /// The fields of a static rewrite name operands that are there: a `Get`
    /// has two, a `Set` three.
    proof fn lemma_fields_in_range(op: StateOp, n: nat)
        requires
            rewrite_of(op) is ConcatFields || rewrite_of(op) is Copy,
            op is Get ==> n == 2,
            op is SetBit ==> n == 3,
            op is Get || op is SetBit,
        ensures
            rewrite_of(op) matches RewriteView::ConcatFields(f) ==> forall|k: int| 0 <= k < f.len() ==> (#[trigger] f[k]).0 < n,
            rewrite_of(op) matches RewriteView::Copy(o) ==> o < n,
    {
        match op {
            StateOp::SetBit { bits_w, inx } => {
                let lit = crate::meta::uval(inx->Some_0@);
                let rw = set_rewrite(bits_w as int, lit);
                match rw {
                    RewriteView::ConcatFields(f) => {
                        assert forall|k: int| 0 <= k < f.len() implies (#[trigger] f[k]).0 < n by {
                            if k == 0 {} else if k == 1 {} else {}
                        }
                    },
                    _ => {},
                }
            },
            _ => {},
        }
    }

    /// Turns state `s` into its static form before it is lowered; returns
    /// whether it still has to go through `lower_op`.
    fn rewrite_state(&mut self, s: usize) -> (needs: bool)
        requires
            old(self).live(s as int),
            forall|k: int| 0 <= k < operands(old(self).op(s as int)).len() ==> old(self).live(
                #[trigger] operands(old(self).op(s as int))[k] as int),
        ensures
            final(self).others_stay(old(self), s as int),
            final(self).op(s as int) == old(self).rewritten(s as int),
            needs == old(self).needs_lower(s as int),
            forall|k: int| 0 <= k < operands(final(self).op(s as int)).len() ==> operands(old(self).op(s as int)).contains(
                #[trigger] operands(final(self).op(s as int))[k]),
            forall|t: int| #[trigger] final(self).literal(t) == old(self).literal(t),
    {
        let ghost s0 = *self;
        let (kind, a, b, c, nz) = match &self.states[s] {
            Some(n) => match &n.op {
                NodeOp::Lut(t, i) => (1u8, *t, *i, 0usize, n.nzbw),
                NodeOp::Get(x, i) => (2u8, *x, *i, 0usize, n.nzbw),
                NodeOp::SetBit(x, i, y) => (3u8, *x, *i, *y, n.nzbw),
                NodeOp::Other(_) => (4u8, 0usize, 0usize, 0usize, n.nzbw),
                _ => (0u8, 0usize, 0usize, 0usize, n.nzbw),
            },
            None => (0u8, 0usize, 0usize, 0usize, 0usize),
        };
        if kind == 0 || kind == 4 {
            return kind == 4;
        }
        let ghost ops = operands(s0.op(s as int));
        proof {
            assert(self.live(ops[0] as int));
            assert(self.live(ops[1] as int));
        }
        let st_op = if kind == 1 {
            StateOp::Lut { out_w: nz, inx_w: self.nzbw_of(b), table: self.lit_of(a) }
        } else if kind == 2 {
            StateOp::Get { bits_w: self.nzbw_of(a), inx: self.lit_of(b) }
        } else {
            StateOp::SetBit { bits_w: self.nzbw_of(a), inx: self.lit_of(b) }
        };
        let fits = match &st_op {
            StateOp::Get { inx: Some(i), .. } => i.len() <= usize::BITS as usize,
            StateOp::SetBit { inx: Some(i), .. } => i.len() <= usize::BITS as usize,
            _ => true,
        };
        if !fits {
            return true;
        }
        let rw = static_rewrite(&st_op);
        proof {
            assert(rewrite_of(st_op) == rewrite_of(s0.state_op(s as int)));
            assert(s0.rewritable(s as int));
        }
        let new_op = match rw {
            Rewrite::Keep => {
                return false;
            },
            Rewrite::NeedsLower => {
                return true;
            },
            Rewrite::Opaque => NodeOp::Opaque(Vec::new()),
            Rewrite::StaticLut(t) => NodeOp::StaticLut(b, t),
            Rewrite::ConcatFields(f) => {
                proof {
                    Self::lemma_fields_in_range(s0.state_op(s as int), ops.len());
                }
                let mut nf: Vec<(usize, usize, usize)> = Vec::new();
                let mut k: usize = 0;
                while k < f.len()
                    invariant
                        k <= f@.len(),
                        forall|j: int| 0 <= j < f@.len() ==> (#[trigger] f@[j]).0 < ops.len(),
                        ops.len() == 2 || ops.len() == 3,
                        ops[0] == a,
                        ops[1] == b,
                        ops.len() == 3 ==> ops[2] == c,
                        nf@ == f@.take(k as int).map_values(|x: (usize, usize, usize)| (ops[x.0 as int], x.1, x.2)),
                    decreases f@.len() - k,
                {
                    let (pos, from, w) = f[k];
                    let st = if pos == 0 {
                        a
                    } else if pos == 1 {
                        b
                    } else {
                        c
                    };
                    nf.push((st, from, w));
                    proof {
                        assert(f@.take(k + 1) =~= f@.take(k as int).push(f@[k as int]));
                    }
                    k = k + 1;
                }
                proof {
                    assert(f@.take(f@.len() as int) =~= f@);
                }
                NodeOp::ConcatFields(nf)
            },
            Rewrite::Copy(o) => {
                proof {
                    Self::lemma_fields_in_range(s0.state_op(s as int), ops.len());
                }
                NodeOp::Copy(if o == 0 {
                    a
                } else if o == 1 {
                    b
                } else {
                    c
                })
            },
        };
        let ghost nv = new_op@;
        match &mut self.states[s] {
            Some(n) => {
                n.op = new_op;
            },
            None => {},
        }
        proof {
            assert(self.op(s as int) == nv);
            assert(nv == s0.rewritten(s as int));
            assert forall|k: int| 0 <= k < operands(nv).len() implies ops.contains(#[trigger] operands(nv)[k]) by {
                let x = operands(nv)[k];
                if x == ops[0] {
                    assert(ops[0] == x);
                } else if x == ops[1] {
                    assert(ops[1] == x);
                } else {
                    assert(ops[2] == x);
                }
            }
            assert forall|t: int| #[trigger] self.literal(t) == s0.literal(t) by {
                if t == s {
                    assert(self.live(t));
                }
            }
        }
        false
    }

    /// Marks state `x` lowered.
    fn set_lowered(&mut self, x: usize)
        requires
            old(self).live(x as int),
        ensures
            final(self).len() == old(self).len(),
            forall|t: int| #[trigger] final(self).live(t) == old(self).live(t),
            forall|t: int| old(self).live(t) ==> #[trigger] final(self).nzbw(t) == old(self).nzbw(t),
            forall|t: int| old(self).live(t) ==> #[trigger] final(self).exec_op(t) == old(self).exec_op(t),
            forall|t: int| old(self).live(t) ==> #[trigger] final(self).op(t) == old(self).op(t),
            forall|t: int| old(self).live(t) ==> #[trigger] final(self).lowered(t) == (old(self).lowered(t) || t == x),
            forall|t: int| #[trigger] final(self).literal(t) == old(self).literal(t),
    {
        let ghost s0 = *self;
        match &mut self.states[x] {
            Some(n) => {
                n.lowered = true;
            },
            None => {},
        }
        proof {
            assert forall|t: int| #[trigger] self.literal(t) == s0.literal(t) by {
                if t == x {
                    assert(self.exec_op(t) == s0.exec_op(t));
                }
            }
        }
    }

    /// Lowers the rootward tree of state `p` to elementary operations: each
    /// state of it not lowered before takes its static form, and is marked
    /// lowered. Returns the states that still have to go through
    /// `lower_op`. A state already lowered is left as it is, and `p` must be
    /// a state.
    #[verifier::rlimit(80)]
    pub fn dfs_lower_states_to_elementary(&mut self, p: usize) -> (r: Result<Vec<usize>, EvalError>)
        requires
            old(self).wf(),
        ensures
            final(self).wf(),
            r is Err <==> !old(self).live(p as int),
            r matches Err(e) ==> e is InvalidPtr && *final(self) == *old(self),
            old(self).live(p as int) ==> final(self).lowered(p as int),
            final(self).len() == old(self).len(),
            forall|t: int| #[trigger] final(self).live(t) == old(self).live(t),
            forall|t: int| old(self).live(t) ==> #[trigger] final(self).nzbw(t) == old(self).nzbw(t),
            forall|t: int| old(self).live(t) && old(self).lowered(t) ==> #[trigger] final(self).lowered(t),
            forall|t: int| #[trigger] old(self).live(t) ==> final(self).op(t) == if !old(self).lowered(t) && final(self).lowered(t) {
                old(self).rewritten(t)
            } else {
                old(self).op(t)
            },
            r matches Ok(v) ==> forall|k: int| 0 <= k < v@.len() ==> {
                &&& old(self).live(#[trigger] v@[k] as int)
                &&& !old(self).lowered(v@[k] as int)
                &&& final(self).lowered(v@[k] as int)
                &&& old(self).needs_lower(v@[k] as int)
            },
            r matches Ok(v) ==> forall|t: int| #[trigger] old(self).live(t) && !old(self).lowered(t) && final(self).lowered(t)
                && old(self).needs_lower(t) ==> v@.contains(t as usize),
    {
        let ghost s0 = *self;
        if p >= self.states.len() || self.states[p].is_none() {
            return Err(EvalError::InvalidPtr);
        }
        let mut needs: Vec<usize> = Vec::new();
        let already = match &self.states[p] {
            Some(n) => n.lowered,
            None => true,
        };
        if already {
            return Ok(needs);
        }
        let n_states = self.states.len();
        let ghost mut unm: Set<int> = set_int_range(0, n_states as int).filter(|t: int| s0.live(t) && !s0.lowered(t));
        proof {
            lemma_int_range(0, n_states as int);
            set_int_range(0, n_states as int).lemma_len_filter(|t: int| s0.live(t) && !s0.lowered(t));
        }
        self.set_lowered(p);
        proof {
            unm = unm.remove(p as int);
        }
        let mut stack: Vec<usize> = Vec::new();
        stack.push(p);
        let ghost mut done: Set<int> = Set::empty();
        proof {
            assert(stack@ == seq![p]);
            assert forall|t: int| #[trigger] s0.live(t) implies self.lowered(t) == (s0.lowered(t) || done.contains(t)
                || stack@.contains(t as usize)) by {
                assert(t < n_states);
                if t == p {
                    assert(stack@[0] == p);
                }
                if stack@.contains(t as usize) {
                    assert(stack@[0] == t as usize);
                }
            }
            assert forall|t: int| #[trigger] s0.live(t) implies self.op(t) == if done.contains(t) { s0.rewritten(t) } else { s0.op(t) } by {}
            assert forall|t: int| #[trigger] unm.contains(t) <==> (self.live(t) && !self.lowered(t)) by {}
        }
        while stack.len() > 0
            invariant
                s0.wf(),
                s0.live(p as int),
                self.lowered(p as int),
                self.len() == s0.len(),
                n_states == s0.len(),
                forall|t: int| #[trigger] self.live(t) == s0.live(t),
                forall|t: int| s0.live(t) ==> #[trigger] self.nzbw(t) == s0.nzbw(t),
                forall|t: int| #[trigger] self.literal(t) == s0.literal(t),
                forall|t: int| #[trigger] s0.live(t) ==> self.lowered(t) == (s0.lowered(t) || done.contains(t) || stack@.contains(t as usize)),
                forall|t: int| #[trigger] done.contains(t) ==> s0.live(t) && !s0.lowered(t) && !stack@.contains(t as usize),
                forall|k: int| 0 <= k < stack@.len() ==> s0.live(#[trigger] stack@[k] as int) && !s0.lowered(stack@[k] as int),
                forall|a: int, b: int| 0 <= a < b < stack@.len() ==> #[trigger] stack@[a] != #[trigger] stack@[b],
                forall|t: int| #[trigger] s0.live(t) ==> self.op(t) == if done.contains(t) { s0.rewritten(t) } else { s0.op(t) },
                forall|t: int, k: int| #[trigger] self.live(t) && 0 <= k < operands(self.op(t)).len() ==> self.live(
                    #[trigger] operands(self.op(t))[k] as int),
                forall|t: int, k: int| #[trigger] self.live(t) && self.lowered(t) && !stack@.contains(t as usize)
                    && 0 <= k < operands(self.op(t)).len() ==> self.lowered(#[trigger] operands(self.op(t))[k] as int),
                forall|k: int| 0 <= k < needs@.len() ==> done.contains(#[trigger] needs@[k] as int) && s0.needs_lower(needs@[k] as int),
                forall|t: int| #[trigger] done.contains(t) && s0.needs_lower(t) ==> needs@.contains(t as usize),
                unm.finite(),
                forall|t: int| #[trigger] unm.contains(t) <==> (self.live(t) && !self.lowered(t)),
            decreases unm.len(), stack@.len(),
        {
            let ghost sp = *self;
            let ghost stk = stack@;
            let s = match stack.pop() {
                Some(x) => x,
                None => 0,
            };
            proof {
                assert(stk == stack@.push(s));
                assert(stk[stk.len() - 1] == s);
                assert(!stack@.contains(s)) by {
                    if stack@.contains(s) {
                        let j = choose|j: int| 0 <= j < stack@.len() && stack@[j] == s;
                        assert(stk[j] == stk[stk.len() - 1]);
                    }
                }
                assert(s0.live(s as int) && !s0.lowered(s as int));
                assert(!done.contains(s as int));
                assert(self.op(s as int) == s0.op(s as int));
                assert(self.rewritten(s as int) == s0.rewritten(s as int));
                assert(self.needs_lower(s as int) == s0.needs_lower(s as int));
            }
            let nl = self.rewrite_state(s);
            let ghost sr = *self;
            let ghost nd0 = needs@;
            if nl {
                needs.push(s);
            }
            proof {
                done = done.insert(s as int);
                assert forall|j: int| 0 <= j < needs@.len() implies done.contains(#[trigger] needs@[j] as int) && s0.needs_lower(needs@[j] as int) by {
                    if j < nd0.len() {
                        assert(needs@[j] == nd0[j]);
                    }
                }
                assert forall|t: int| #[trigger] done.contains(t) && s0.needs_lower(t) implies needs@.contains(t as usize) by {
                    if t == s {
                        assert(needs@[needs@.len() - 1] == s);
                    } else {
                        assert(nd0.contains(t as usize));
                        let j = choose|j: int| 0 <= j < nd0.len() && nd0[j] == t as usize;
                        assert(needs@[j] == t as usize);
                    }
                }
                assert(self.live(s as int));
            }
            let ops = match &self.states[s] {
                Some(n) => op_operands(&n.op),
                None => Vec::new(),
            };
            let ghost u0 = unm.len();
            let ghost st0 = stack@.len();
            let mut k: usize = 0;
            while k < ops.len()
                invariant
                    s0.wf(),
                    s0.live(p as int),
                    self.lowered(p as int),
                    n_states == s0.len(),
                    forall|j: int| 0 <= j < needs@.len() ==> done.contains(#[trigger] needs@[j] as int) && s0.needs_lower(needs@[j] as int),
                    forall|t: int| #[trigger] done.contains(t) && s0.needs_lower(t) ==> needs@.contains(t as usize),
                    0 <= s < n_states,
                    ops@ == operands(self.op(s as int)),
                    k <= ops@.len(),
                    self.len() == s0.len(),
                    forall|t: int| #[trigger] self.live(t) == s0.live(t),
                    forall|t: int| s0.live(t) ==> #[trigger] self.nzbw(t) == s0.nzbw(t),
                    forall|t: int| #[trigger] self.literal(t) == s0.literal(t),
                    forall|t: int| #[trigger] s0.live(t) ==> self.lowered(t) == (s0.lowered(t) || done.contains(t) || stack@.contains(t as usize)),
                    forall|t: int| #[trigger] done.contains(t) ==> s0.live(t) && !s0.lowered(t) && !stack@.contains(t as usize),
                    forall|j: int| 0 <= j < stack@.len() ==> s0.live(#[trigger] stack@[j] as int) && !s0.lowered(stack@[j] as int),
                    forall|a: int, b: int| 0 <= a < b < stack@.len() ==> #[trigger] stack@[a] != #[trigger] stack@[b],
                    forall|t: int| #[trigger] s0.live(t) ==> self.op(t) == if done.contains(t) { s0.rewritten(t) } else { s0.op(t) },
                    forall|t: int, j: int| #[trigger] self.live(t) && 0 <= j < operands(self.op(t)).len() ==> self.live(
                        #[trigger] operands(self.op(t))[j] as int),
                    forall|t: int, j: int| #[trigger] self.live(t) && self.lowered(t) && !stack@.contains(t as usize) && t != s
                        && 0 <= j < operands(self.op(t)).len() ==> self.lowered(#[trigger] operands(self.op(t))[j] as int),
                    forall|j: int| 0 <= j < k ==> self.lowered(#[trigger] ops@[j] as int),
                    self.live(s as int),
                    self.lowered(s as int),
                    !stack@.contains(s),
                    unm.finite(),
                    forall|t: int| #[trigger] unm.contains(t) <==> (self.live(t) && !self.lowered(t)),
                    unm.len() <= u0,
                    unm.len() + stack@.len() == u0 + st0,
                decreases ops@.len() - k,
            {
                let x = ops[k];
                proof {
                    assert(self.live(operands(self.op(s as int))[k as int] as int));
                }
                let lx = match &self.states[x] {
                    Some(n) => n.lowered,
                    None => true,
                };
                if !lx {
                    let ghost sk = *self;
                    let ghost stk2 = stack@;
                    proof {
                        assert(unm.contains(x as int));
                        assert(!stack@.contains(x)) by {
                            if stack@.contains(x) {
                                let j = choose|j: int| 0 <= j < stack@.len() && stack@[j] == x;
                                assert(s0.live(stack@[j] as int));
                            }
                        }
                    }
                    self.set_lowered(x);
                    proof {
                        unm = unm.remove(x as int);
                    }
                    stack.push(x);
                    proof {
                        assert(stack@ == stk2.push(x));
                        assert forall|t: int| #[trigger] stack@.contains(t as usize) == (stk2.contains(t as usize) || t as usize == x) by {
                            if stk2.contains(t as usize) {
                                let j = choose|j: int| 0 <= j < stk2.len() && stk2[j] == t as usize;
                                assert(stack@[j] == t as usize);
                            }
                            if t as usize == x {
                                assert(stack@[stk2.len() as int] == x);
                            }
                            if stack@.contains(t as usize) {
                                let j = choose|j: int| 0 <= j < stack@.len() && stack@[j] == t as usize;
                                if j < stk2.len() {
                                    assert(stk2[j] == t as usize);
                                }
                            }
                        }
                        assert forall|t: int| #[trigger] s0.live(t) implies self.lowered(t) == (s0.lowered(t) || done.contains(t)
                            || stack@.contains(t as usize)) by {
                            assert(t < n_states);
                            if t == x {
                                assert(stack@.contains(t as usize));
                            }
                        }
                        assert forall|t: int| #[trigger] done.contains(t) implies s0.live(t) && !s0.lowered(t) && !stack@.contains(t as usize) by {
                            assert(s0.live(t));
                            assert(t < n_states);
                            if t == x {
                                assert(sk.lowered(t));
                            }
                        }
                        assert forall|t: int| #[trigger] s0.live(t) implies self.op(t) == if done.contains(t) { s0.rewritten(t) } else { s0.op(t) } by {
                            assert(sk.live(t));
                        }
                        assert forall|t: int, j: int| #[trigger] self.live(t) && 0 <= j < operands(self.op(t)).len() implies self.live(
                            #[trigger] operands(self.op(t))[j] as int) by {
                            assert(sk.live(t));
                            assert(sk.live(operands(sk.op(t))[j] as int));
                        }
                        assert forall|t: int, j: int| #[trigger] self.live(t) && self.lowered(t) && !stack@.contains(t as usize) && t != s
                            && 0 <= j < operands(self.op(t)).len() implies self.lowered(#[trigger] operands(self.op(t))[j] as int) by {
                            assert(sk.live(t));
                            assert(t < n_states);
                            assert(t as usize != x);
                            assert(sk.lowered(operands(sk.op(t))[j] as int));
                            assert(sk.live(operands(sk.op(t))[j] as int));
                        }
                        assert forall|j: int| 0 <= j < k + 1 implies self.lowered(#[trigger] ops@[j] as int) by {
                            assert(sk.live(ops@[j] as int));
                        }
                        assert forall|t: int| #[trigger] unm.contains(t) <==> (self.live(t) && !self.lowered(t)) by {
                            if self.live(t) {
                                assert(sk.live(t));
                            }
                        }
                    }
                }
                k = k + 1;
            }
            proof {
                assert forall|t: int, j: int| #[trigger] self.live(t) && self.lowered(t) && !stack@.contains(t as usize)
                    && 0 <= j < operands(self.op(t)).len() implies self.lowered(#[trigger] operands(self.op(t))[j] as int) by {
                    if t == s {
                        assert(ops@[j] == operands(self.op(t))[j]);
                    }
                }
            }
        }
        proof {
            assert forall|t: int, k: int| #[trigger] self.live(t) && self.lowered(t) && 0 <= k < operands(self.op(t)).len() implies self.lowered(
                #[trigger] operands(self.op(t))[k] as int) by {
                assert(!stack@.contains(t as usize));
            }
            assert forall|t: int| #[trigger] s0.live(t) implies self.op(t) == if !s0.lowered(t) && self.lowered(t) {
                s0.rewritten(t)
            } else {
                s0.op(t)
            } by {
                assert(!stack@.contains(t as usize));
            }
            assert forall|t: int| #[trigger] s0.live(t) && !s0.lowered(t) && self.lowered(t) && s0.needs_lower(t) implies needs@.contains(t as usize) by {
                assert(!stack@.contains(t as usize));
                assert(done.contains(t));
            }
        }
        Ok(needs)
    }

    /// The operation of state `s`.
    pub fn op_of(&self, s: usize) -> (r: Option<&NodeOp>)
        ensures
            r is Some <==> self.live(s as int),
            r matches Some(o) ==> o@ == self.op(s as int),
    {
        if s >= self.states.len() {
            return None;
        }
        match &self.states[s] {
            Some(n) => Some(&n.op),
            None => None,
        }
    }

    /// Whether state `s` is lowered.
    pub fn is_lowered(&self, s: usize) -> (r: Option<bool>)
        ensures
            r is Some <==> self.live(s as int),
            r matches Some(b) ==> b == self.lowered(s as int),
    {
        if s >= self.states.len() {
            return None;
        }
        match &self.states[s] {
            Some(n) => Some(n.lowered),
            None => None,
        }
    }

    pub fn new() -> (r: Self)
        ensures
            r.wf(),
            r.len() == 0,
    {
        Stator { states: Vec::new() }
    }
}

} // verus!
