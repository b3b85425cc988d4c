//! Values of bits in an ensemble, which may be unknown, and what a lookup
//! table entry or input may be bound to.

use std::cmp::Ordering;
use vstd::prelude::*;
use vstd::std_specs::cmp::{PartialEqSpecImpl, PartialOrdSpecImpl};
use crate::ptr::{PBack, PLNode, PTNode};

verus! {

#[derive(Clone, Copy, Debug)]
pub enum BasicValueKind {
    Opaque,
    Zero,
    Umax,
    Imax,
    Imin,
    Uone,
}

/// One of the basic initial values of a bit vector of width `nzbw`.
#[derive(Clone, Copy, Debug)]
pub struct BasicValue {
    pub kind: BasicValueKind,
    pub nzbw: usize,
}

/// Bit `inx` of a basic value of width `bw`: `None` when the value is opaque.
pub open spec fn basic_bit(kind: BasicValueKind, bw: nat, inx: nat) -> Option<bool> {
    match kind {
        BasicValueKind::Opaque => None,
        BasicValueKind::Zero => Some(false),
        BasicValueKind::Umax => Some(true),
        BasicValueKind::Imax => Some(inx != bw - 1),
        BasicValueKind::Imin => Some(inx == bw - 1),
        BasicValueKind::Uone => Some(inx == 0),
    }
}

impl BasicValue {
    pub fn nzbw(&self) -> (r: usize)
        ensures
            r == self.nzbw,
    {
        self.nzbw
    }

    pub fn bw(&self) -> (r: usize)
        ensures
            r == self.nzbw,
    {
        self.nzbw()
    }

    /// Bit `inx`, `None` if it is out of range.
    pub fn get(&self, inx: usize) -> (r: Option<Option<bool>>)
        ensures
            inx >= self.nzbw ==> r is None,
            inx < self.nzbw ==> r == Some(basic_bit(self.kind, self.nzbw as nat, inx as nat)),
    {
        if inx >= self.bw() {
            None
        } else {
            Some(
                match self.kind {
                    BasicValueKind::Opaque => None,
                    BasicValueKind::Zero => Some(false),
                    BasicValueKind::Umax => Some(true),
                    BasicValueKind::Imax => Some(inx != (self.bw() - 1)),
                    BasicValueKind::Imin => Some(inx == (self.bw() - 1)),
                    BasicValueKind::Uone => Some(inx == 0),
                },
            )
        }
    }
}

/// Either explicit bits or a basic value.
#[derive(Clone, Debug)]
pub enum CommonValue<'a> {
    Bits(&'a Vec<bool>),
    Basic(BasicValue),
}

impl<'a> CommonValue<'a> {
    pub open spec fn width(&self) -> nat {
        match self {
            CommonValue::Bits(x) => x@.len(),
            CommonValue::Basic(basic) => basic.nzbw as nat,
        }
    }

    pub fn nzbw(&self) -> (r: usize)
        ensures
            r == self.width(),
    {
        match self {
            CommonValue::Bits(x) => x.len(),
            CommonValue::Basic(basic) => basic.nzbw(),
        }
    }

    pub fn bw(&self) -> (r: usize)
        ensures
            r == self.width(),
    {
        self.nzbw()
    }

    /// Bit `inx`, `None` if it is out of range.
    pub fn get(&self, inx: usize) -> (r: Option<Option<bool>>)
        ensures
            inx >= self.width() ==> r is None,
            inx < self.width() ==> r == Some(
                match self {
                    CommonValue::Bits(x) => Some(x@[inx as int]),
                    CommonValue::Basic(basic) => basic_bit(basic.kind, basic.nzbw as nat, inx as nat),
                },
            ),
    {
        match self {
            CommonValue::Bits(bits) => {
                if inx < bits.len() {
                    Some(Some(bits[inx]))
                } else {
                    None
                }
            },
            CommonValue::Basic(basic) => basic.get(inx),
        }
    }
}

/// The value of a multistate boolean.
#[derive(Clone, Copy, Debug, PartialEq, Eq, Structural, Hash)]
pub enum Value {
    /// The value is permanently unknown
    ConstUnknown,
    /// The value is simply unknown, or a circuit is undriven
    Unknown,
    /// The value is a known constant that is guaranteed to not change under any
    /// condition
    Const(bool),
    /// The value is known, but may be dynamically changed
    Dynam(bool),
}

impl Value {
    pub open spec fn known(self) -> Option<bool> {
        match self {
            Value::Const(b) => Some(b),
            Value::Dynam(b) => Some(b),
            _ => None,
        }
    }

    pub open spec fn constant(self) -> bool {
        match self {
            Value::ConstUnknown | Value::Const(_) => true,
            _ => false,
        }
    }

    pub fn known_value(self) -> (r: Option<bool>)
        ensures
            r == self.known(),
    {
        match self {
            Value::ConstUnknown => None,
            Value::Unknown => None,
            Value::Const(b) => Some(b),
            Value::Dynam(b) => Some(b),
        }
    }

    pub fn is_known(self) -> (r: bool)
        ensures
            r == self.known() is Some,
    {
        match self {
            Value::ConstUnknown | Value::Unknown => false,
            Value::Const(_) | Value::Dynam(_) => true,
        }
    }

    pub fn is_const(self) -> (r: bool)
        ensures
            r == self.constant(),
    {
        match self {
            Value::Unknown | Value::Dynam(_) => false,
            Value::ConstUnknown | Value::Const(_) => true,
        }
    }

    /// The same value, made permanent.
    pub fn constified(self) -> (r: Self)
        ensures
            r.constant(),
            r.known() == self.known(),
            r == match self {
                Value::Unknown => Value::ConstUnknown,
                Value::Dynam(b) => Value::Const(b),
                _ => self,
            },
    {
        match self {
            Value::ConstUnknown => self,
            Value::Unknown => Value::ConstUnknown,
            Value::Const(_) => self,
            Value::Dynam(b) => Value::Const(b),
        }
    }
}

/// An entry of a dynamic lookup table.
#[derive(Clone, Copy, Debug, PartialEq, Eq, Structural)]
pub enum DynamicValue {
    /// Corresponds with `Value::Unknown`
    ConstUnknown,
    /// Corresponds with `Value::Const`
    Const(bool),
    Dynam(PBack),
}

#[derive(Clone, Copy, Debug, PartialEq, Eq, Structural)]
pub enum EvalPhase {
    Change,
    Request,
}

#[derive(Clone, Copy, Debug, PartialEq, Eq, Structural)]
pub enum ChangeKind {
    LNode(PLNode),
    TNode(PTNode),
}

/// An evaluation event. Events compare and order by `partial_ord_num`
/// alone.
#[derive(Clone, Copy, Debug)]
pub struct Event {
    pub partial_ord_num: u64,
    pub change_kind: ChangeKind,
}

impl PartialEq for Event {
    fn eq(&self, other: &Self) -> (r: bool) {
        self.partial_ord_num == other.partial_ord_num
    }
}

impl PartialEqSpecImpl for Event {
    open spec fn obeys_eq_spec() -> bool {
        true
    }

    open spec fn eq_spec(&self, other: &Self) -> bool {
        self.partial_ord_num == other.partial_ord_num
    }
}

impl Eq for Event {
}

/// The order of two events' numbers.
pub open spec fn event_order(a: u64, b: u64) -> Option<Ordering> {
    if a < b {
        Some(Ordering::Less)
    } else if a == b {
        Some(Ordering::Equal)
    } else {
        Some(Ordering::Greater)
    }
}

impl PartialOrd for Event {
    fn partial_cmp(&self, other: &Self) -> (r: Option<Ordering>) {
        if self.partial_ord_num < other.partial_ord_num {
            Some(Ordering::Less)
        } else if self.partial_ord_num == other.partial_ord_num {
            Some(Ordering::Equal)
        } else {
            Some(Ordering::Greater)
        }
    }
}

impl PartialOrdSpecImpl for Event {
    open spec fn obeys_partial_cmp_spec() -> bool {
        true
    }

    open spec fn partial_cmp_spec(&self, other: &Self) -> Option<Ordering> {
        event_order(self.partial_ord_num, other.partial_ord_num)
    }
}

} // verus!
