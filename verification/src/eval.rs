//! The value of a lookup table node from the values of its inputs: known
//! exactly when no choice of the unknown inputs (and, for a dynamic table,
//! of its unknown entries) could change it.

use vstd::prelude::*;
use vstd::arithmetic::power2::{pow2, lemma_pow2_unfold, lemma_pow2_pos};
use crate::lut::{input_index, reduced, lut_shape, lemma_input_index_range, lemma_input_index_update_remove, general_reduce_lut};
use crate::meta::{bits_of, lemma_uval_bits_of};
use crate::value::Value;

verus! {

/// `v` gives every known input its value.
pub open spec fn consistent(inputs: Seq<Value>, v: Seq<bool>) -> bool {
    &&& v.len() == inputs.len()
    &&& forall|k: int|
        0 <= k < v.len() && (#[trigger] inputs[k]).known() is Some ==> v[k] == inputs[k].known()->0
}

/// The values `v` gives the unknown inputs, in order.
pub open spec fn unknown_part(inputs: Seq<Value>, v: Seq<bool>) -> Seq<bool>
    decreases inputs.len(),
{
    if inputs.len() == 0 || v.len() == 0 {
        Seq::empty()
    } else {
        (if inputs[0].known() is Some {
            Seq::empty()
        } else {
            seq![v[0]]
        }) + unknown_part(inputs.drop_first(), v.drop_first())
    }
}

/// The number of unknown inputs.
pub open spec fn num_unknown(inputs: Seq<Value>) -> nat
    decreases inputs.len(),
{
    if inputs.len() == 0 {
        0
    } else {
        (if inputs[0].known() is Some {
            0nat
        } else {
            1nat
        }) + num_unknown(inputs.drop_first())
    }
}

/// The inputs with the known ones at their values and the unknown ones
/// taking the values `u`, in order.
pub open spec fn complete(inputs: Seq<Value>, u: Seq<bool>) -> Seq<bool>
    decreases inputs.len(),
{
    if inputs.len() == 0 {
        Seq::empty()
    } else {
        match inputs[0].known() {
            Some(b) => seq![b] + complete(inputs.drop_first(), u),
            None => seq![u[0]] + complete(inputs.drop_first(), u.drop_first()),
        }
    }
}

/// Every choice of the unknown inputs reads entry `x` of the table.
pub open spec fn always<T>(lut: Seq<T>, inputs: Seq<Value>, x: T) -> bool {
    forall|v: Seq<bool>| consistent(inputs, v) ==> #[trigger] lut[input_index(v)] == x
}

/// Fixing input `i` of a table to `b` keeps the entry that index reads.
proof fn lemma_reduce_entry<T>(lut: Seq<T>, w: Seq<bool>, i: nat, b: bool)
    requires
        lut.len() == pow2(w.len()),
        i < w.len(),
    ensures
        reduced(lut, i, b).len() == pow2((w.len() - 1) as nat),
        reduced(lut, i, b)[input_index(w.remove(i as int))] == lut[input_index(w.update(i as int, b))],
{
    lemma_pow2_unfold(w.len());
    lemma_input_index_update_remove(w, i, b);
    lemma_input_index_range(w.remove(i as int));
}

proof fn lemma_unknown_part_len(inputs: Seq<Value>, v: Seq<bool>)
    requires
        v.len() == inputs.len(),
    ensures
        unknown_part(inputs, v).len() == num_unknown(inputs),
    decreases inputs.len(),
{
    if inputs.len() > 0 {
        lemma_unknown_part_len(inputs.drop_first(), v.drop_first());
    }
}

proof fn lemma_num_unknown_bound(inputs: Seq<Value>)
    ensures
        num_unknown(inputs) <= inputs.len(),
    decreases inputs.len(),
{
    if inputs.len() > 0 {
        lemma_num_unknown_bound(inputs.drop_first());
    }
}

/// Completing the unknown inputs with `u` agrees with the known ones and
/// gives the unknown ones `u`.
proof fn lemma_complete(inputs: Seq<Value>, u: Seq<bool>)
    requires
        u.len() == num_unknown(inputs),
    ensures
        consistent(inputs, complete(inputs, u)),
        unknown_part(inputs, complete(inputs, u)) == u,
    decreases inputs.len(),
{
    if inputs.len() == 0 {
        assert(u =~= Seq::<bool>::empty());
    } else {
        let rest = inputs.drop_first();
        let c = complete(inputs, u);
        match inputs[0].known() {
            Some(b) => {
                lemma_complete(rest, u);
                assert(c.drop_first() =~= complete(rest, u));
                assert forall|k: int| 0 <= k < c.len() && (#[trigger] inputs[k]).known() is Some implies c[k]
                    == inputs[k].known()->0 by {
                    if k > 0 {
                        assert(inputs[k] == rest[k - 1]);
                        assert(c[k] == complete(rest, u)[k - 1]);
                    }
                }
                assert(unknown_part(inputs, c) =~= unknown_part(rest, complete(rest, u)));
            },
            None => {
                lemma_complete(rest, u.drop_first());
                assert(c.drop_first() =~= complete(rest, u.drop_first()));
                assert forall|k: int| 0 <= k < c.len() && (#[trigger] inputs[k]).known() is Some implies c[k]
                    == inputs[k].known()->0 by {
                    if k > 0 {
                        assert(inputs[k] == rest[k - 1]);
                        assert(c[k] == complete(rest, u.drop_first())[k - 1]);
                    }
                }
                assert(unknown_part(inputs, c) =~= seq![u[0]] + unknown_part(rest, complete(rest, u.drop_first())));
                assert(u =~= seq![u[0]] + u.drop_first());
            },
        }
    }
}

/// Where the entries of `lut` that consistent choices read are those of
/// `cur` indexed by the unknown inputs alone, the table always reads `x`
/// exactly when every entry of `cur` is `x`.
proof fn lemma_always<T>(lut: Seq<T>, cur: Seq<T>, inputs: Seq<Value>, x: T)
    requires
        cur.len() == pow2(num_unknown(inputs)),
        forall|v: Seq<bool>|
            consistent(inputs, v) ==> #[trigger] lut[input_index(v)] == cur[input_index(unknown_part(inputs, v))],
    ensures
        always(lut, inputs, x) <==> forall|t: int| 0 <= t < cur.len() ==> cur[t] == x,
{
    let m = num_unknown(inputs);
    if always(lut, inputs, x) {
        assert forall|t: int| 0 <= t < cur.len() implies cur[t] == x by {
            let u = bits_of(t, m);
            lemma_uval_bits_of(t, m);
            lemma_complete(inputs, u);
            let v = complete(inputs, u);
            assert(lut[input_index(v)] == x);
        }
    }
    if forall|t: int| 0 <= t < cur.len() ==> cur[t] == x {
        assert forall|v: Seq<bool>| consistent(inputs, v) implies #[trigger] lut[input_index(v)] == x by {
            lemma_unknown_part_len(inputs, v);
            lemma_input_index_range(unknown_part(inputs, v));
        }
    }
}

/// Some choice of the unknown inputs is always possible, so no table always
/// reads two different entries.
proof fn lemma_always_unique<T>(lut: Seq<T>, inputs: Seq<Value>, x: T, y: T)
    requires
        always(lut, inputs, x),
        always(lut, inputs, y),
    ensures
        x == y,
{
    let u = Seq::new(num_unknown(inputs), |i: int| false);
    lemma_complete(inputs, u);
    let v = complete(inputs, u);
    assert(lut[input_index(v)] == x);
}

/// Fixes every known input of the table to its value, the last input first;
/// what is left is a table over the unknown inputs.
fn reduce_known<T: Copy>(values: &Vec<Value>, lut: Vec<T>) -> (r: Vec<T>)
    requires
        lut@.len() == pow2(values@.len()),
        values@.len() < usize::BITS,
    ensures
        r@.len() == pow2(num_unknown(values@)),
        forall|v: Seq<bool>|
            consistent(values@, v) ==> #[trigger] lut@[input_index(v)] == r@[input_index(unknown_part(values@, v))],
{
    let ghost lut0 = lut@;
    let ghost inputs = values@;
    let mut cur = lut;
    let mut i = values.len();
    proof {
        assert(inputs.skip(i as int) =~= Seq::<Value>::empty());
        assert forall|v: Seq<bool>| consistent(inputs, v) implies #[trigger] lut0[input_index(v)] == cur@[input_index(
            v.take(i as int) + unknown_part(inputs.skip(i as int), v.skip(i as int)),
        )] by {
            assert(v.take(i as int) + unknown_part(inputs.skip(i as int), v.skip(i as int)) =~= v);
        }
    }
    while i > 0
        invariant
            i <= inputs.len() < usize::BITS,
            inputs == values@,
            cur@.len() == pow2((i + num_unknown(inputs.skip(i as int))) as nat),
            forall|v: Seq<bool>|
                consistent(inputs, v) ==> #[trigger] lut0[input_index(v)] == cur@[input_index(
                    v.take(i as int) + unknown_part(inputs.skip(i as int), v.skip(i as int)),
                )],
        decreases i,
    {
        let j = i - 1;
        let ghost here = inputs.skip(j as int);
        let ghost above = inputs.skip(i as int);
        proof {
            assert(here.drop_first() =~= above);
            assert(here[0] == inputs[j as int]);
            assert(num_unknown(here) == (if inputs[j as int].known() is Some {
                0nat
            } else {
                1nat
            }) + num_unknown(above));
        }
        match values[j].known_value() {
            Some(b) => {
                proof {
                    let m = num_unknown(above);
                    vstd::arithmetic::power2::lemma_pow2_adds(j as nat + 1, m);
                    lemma_pow2_pos(j as nat + 1);
                    lemma_pow2_pos(m);
                    vstd::arithmetic::div_mod::lemma_mod_multiples_basic(pow2(m) as int, pow2(j as nat + 1) as int);
                    assert(pow2(m) * pow2(j as nat + 1) == pow2(j as nat + 1) * pow2(m)) by (nonlinear_arith);
                    assert(cur@.len() == pow2(j as nat + 1 + m));
                    assert(cur@.len() % pow2(j as nat + 1) == 0);
                    lemma_pow2_pos(j as nat + 1 + m);
                    assert(lut_shape(cur@.len(), j as nat));
                    lemma_pow2_unfold(j as nat + 1 + m);
                }
                let next = general_reduce_lut(&cur, j, b);
                proof {
                    assert forall|v: Seq<bool>| consistent(inputs, v) implies #[trigger] lut0[input_index(v)]
                        == next@[input_index(v.take(j as int) + unknown_part(here, v.skip(j as int)))] by {
                        let vs = v.skip(j as int);
                        assert(vs.drop_first() =~= v.skip(i as int));
                        assert(vs[0] == v[j as int]);
                        let up = unknown_part(above, v.skip(i as int));
                        assert(unknown_part(here, vs) =~= up);
                        let w = v.take(i as int) + up;
                        lemma_unknown_part_len(above, v.skip(i as int));
                        lemma_reduce_entry(cur@, w, j as nat, b);
                        assert(w.update(j as int, b) =~= w);
                        assert(w.remove(j as int) =~= v.take(j as int) + up);
                    }
                }
                cur = next;
            },
            None => {
                proof {
                    assert forall|v: Seq<bool>| consistent(inputs, v) implies #[trigger] lut0[input_index(v)]
                        == cur@[input_index(v.take(j as int) + unknown_part(here, v.skip(j as int)))] by {
                        let vs = v.skip(j as int);
                        assert(vs.drop_first() =~= v.skip(i as int));
                        assert(vs[0] == v[j as int]);
                        let up = unknown_part(above, v.skip(i as int));
                        assert(unknown_part(here, vs) =~= seq![v[j as int]] + up);
                        assert(v.take(j as int) + unknown_part(here, vs) =~= v.take(i as int) + up);
                    }
                }
            },
        }
        i = j;
    }
    proof {
        assert(inputs.skip(0) =~= inputs);
        assert forall|v: Seq<bool>| consistent(inputs, v) implies #[trigger] lut0[input_index(v)] == cur@[input_index(
            unknown_part(inputs, v),
        )] by {
            assert(v.skip(0) =~= v);
            assert(v.take(0) + unknown_part(inputs.skip(0), v.skip(0)) =~= unknown_part(inputs, v));
        }
    }
    cur
}

/// What a lookup table node reads of its inputs: each input's value and
/// evaluation order, and the table.
pub enum LNodeInputs {
    /// A copy of one input
    Copy(Value, u64),
    /// A static table
    Lut(Vec<(Value, u64)>, Vec<bool>),
    /// A dynamic table, each entry with its value if it is known
    DynamicLut(Vec<(Value, u64)>, Vec<Option<bool>>),
}

/// The input values alone.
pub open spec fn values_of(inp: Seq<(Value, u64)>) -> Seq<Value> {
    inp.map_values(|p: (Value, u64)| p.0)
}

/// The greatest evaluation order of the inputs, at least 1.
pub open spec fn max_order(inp: Seq<(Value, u64)>) -> u64
    decreases inp.len(),
{
    if inp.len() == 0 {
        1
    } else {
        let m = max_order(inp.drop_last());
        if inp.last().1 > m {
            inp.last().1
        } else {
            m
        }
    }
}

/// The value of a static table: known where every choice of the unknown
/// inputs gives the same output.
pub open spec fn lut_value(lut: Seq<bool>, inputs: Seq<Value>) -> Value {
    if always(lut, inputs, false) {
        Value::Dynam(false)
    } else if always(lut, inputs, true) {
        Value::Dynam(true)
    } else {
        Value::Unknown
    }
}

/// The value of a dynamic table: known where every choice of the unknown
/// inputs reads an entry of the same known value.
pub open spec fn dynamic_lut_value(lut: Seq<Option<bool>>, inputs: Seq<Value>) -> Value {
    if always(lut, inputs, Some(false)) {
        Value::Dynam(false)
    } else if always(lut, inputs, Some(true)) {
        Value::Dynam(true)
    } else {
        Value::Unknown
    }
}

/// The value and evaluation order the node takes.
pub open spec fn lnode_value(node: LNodeInputs) -> (Value, u64) {
    match node {
        LNodeInputs::Copy(v, o) => (v, o),
        LNodeInputs::Lut(inp, lut) => (lut_value(lut@, values_of(inp@)), max_order(inp@)),
        LNodeInputs::DynamicLut(inp, lut) => (dynamic_lut_value(lut@, values_of(inp@)), max_order(inp@)),
    }
}

/// The input values and their greatest evaluation order.
fn input_values(inp: &Vec<(Value, u64)>) -> (r: (Vec<Value>, u64))
    ensures
        r.0@ == values_of(inp@),
        r.1 == max_order(inp@),
{
    let mut vals: Vec<Value> = Vec::new();
    let mut max: u64 = 1;
    let mut i: usize = 0;
    while i < inp.len()
        invariant
            i <= inp@.len(),
            vals@ == values_of(inp@.take(i as int)),
            max == max_order(inp@.take(i as int)),
        decreases inp@.len() - i,
    {
        let (v, o) = inp[i];
        proof {
            assert(inp@.take(i + 1).drop_last() =~= inp@.take(i as int));
        }
        vals.push(v);
        if o > max {
            max = o;
        }
        i = i + 1;
        proof {
            assert(vals@ =~= values_of(inp@.take(i as int)));
        }
    }
    proof {
        assert(inp@.take(i as int) =~= inp@);
    }
    (vals, max)
}

/// Whether every entry is `x`.
fn all_are(lut: &Vec<bool>, x: bool) -> (r: bool)
    ensures
        r == forall|t: int| 0 <= t < lut@.len() ==> lut@[t] == x,
{
    let mut i: usize = 0;
    while i < lut.len()
        invariant
            i <= lut@.len(),
            forall|t: int| 0 <= t < i ==> lut@[t] == x,
        decreases lut@.len() - i,
    {
        if lut[i] != x {
            return false;
        }
        i = i + 1;
    }
    true
}

/// Whether every entry is known.
fn all_known(lut: &Vec<Option<bool>>) -> (r: bool)
    ensures
        r == forall|t: int| 0 <= t < lut@.len() ==> lut@[t] is Some,
{
    let mut i: usize = 0;
    while i < lut.len()
        invariant
            i <= lut@.len(),
            forall|t: int| 0 <= t < i ==> lut@[t] is Some,
        decreases lut@.len() - i,
    {
        if lut[i].is_none() {
            return false;
        }
        i = i + 1;
    }
    true
}

/// The known entries' values, for a table whose entries are all known.
fn known_entries(lut: &Vec<Option<bool>>) -> (r: Vec<bool>)
    requires
        forall|t: int| 0 <= t < lut@.len() ==> lut@[t] is Some,
    ensures
        r@.len() == lut@.len(),
        forall|t: int| 0 <= t < lut@.len() ==> lut@[t] == Some(#[trigger] r@[t]),
{
    let mut r: Vec<bool> = Vec::new();
    let mut i: usize = 0;
    while i < lut.len()
        invariant
            i <= lut@.len(),
            forall|t: int| 0 <= t < lut@.len() ==> lut@[t] is Some,
            r@.len() == i,
            forall|t: int| 0 <= t < i ==> lut@[t] == Some(#[trigger] r@[t]),
        decreases lut@.len() - i,
    {
        match lut[i] {
            Some(b) => r.push(b),
            None => r.push(false),
        }
        i = i + 1;
    }
    r
}

proof fn lemma_known_all(cur: Seq<Option<bool>>, known: Seq<bool>, x: bool)
    requires
        known.len() == cur.len(),
        forall|t: int| 0 <= t < cur.len() ==> cur[t] == Some(#[trigger] known[t]),
    ensures
        (forall|t: int| 0 <= t < cur.len() ==> cur[t] == Some(x)) <==> (forall|t: int|
            0 <= t < known.len() ==> known[t] == x),
{
    if forall|t: int| 0 <= t < known.len() ==> known[t] == x {
        assert forall|t: int| 0 <= t < cur.len() implies cur[t] == Some(x) by {
            assert(cur[t] == Some(known[t]));
        }
    }
    if forall|t: int| 0 <= t < cur.len() ==> cur[t] == Some(x) {
        assert forall|t: int| 0 <= t < known.len() implies known[t] == x by {
            assert(cur[t] == Some(known[t]));
        }
    }
}

/// The value a lookup table node takes from the current values of its
/// inputs, with the greatest evaluation order among them (at least 1). A
/// copy takes its input's. A table is known when fixing the known inputs
/// leaves a table of one constant output, unknown otherwise; a dynamic
/// table also needs every entry left to be known.
pub fn calculate_lnode_value(node: &LNodeInputs) -> (r: (Value, u64))
    requires
        node matches LNodeInputs::Lut(inp, lut) ==> inp@.len() < usize::BITS && lut@.len() == pow2(inp@.len()),
        node matches LNodeInputs::DynamicLut(inp, lut) ==> inp@.len() < usize::BITS && lut@.len() == pow2(inp@.len()),
    ensures
        r == lnode_value(*node),
{
    match node {
        LNodeInputs::Copy(v, o) => (*v, *o),
        LNodeInputs::Lut(inp, lut) => {
            let (vals, max) = input_values(inp);
            let table = lut.clone();
            proof {
                assert(table@ =~= lut@);
            }
            let cur = reduce_known(&vals, table);
            proof {
                lemma_always(lut@, cur@, vals@, false);
                lemma_always(lut@, cur@, vals@, true);
            }
            // if the reduced table is all zeros or all ones, no change of the
            // unknown inputs can affect the output
            if all_are(&cur, false) {
                (Value::Dynam(false), max)
            } else if all_are(&cur, true) {
                (Value::Dynam(true), max)
            } else {
                (Value::Unknown, max)
            }
        },
        LNodeInputs::DynamicLut(inp, lut) => {
            let (vals, max) = input_values(inp);
            let table = lut.clone();
            proof {
                assert(table@ =~= lut@);
            }
            let cur = reduce_known(&vals, table);
            proof {
                lemma_always(lut@, cur@, vals@, Some(false));
                lemma_always(lut@, cur@, vals@, Some(true));
                lemma_pow2_pos(num_unknown(vals@));
            }
            if cur.len() == 1 {
                // every input is known, one entry is left
                match cur[0] {
                    Some(b) => {
                        proof {
                            if b {
                                if always(lut@, vals@, Some(false)) {
                                    lemma_always_unique(lut@, vals@, Some(false), Some(true));
                                }
                            }
                        }
                        (Value::Dynam(b), max)
                    },
                    None => (Value::Unknown, max),
                }
            } else if all_known(&cur) {
                let known = known_entries(&cur);
                proof {
                    lemma_known_all(cur@, known@, false);
                    lemma_known_all(cur@, known@, true);
                }
                if all_are(&known, false) {
                    (Value::Dynam(false), max)
                } else if all_are(&known, true) {
                    (Value::Dynam(true), max)
                } else {
                    (Value::Unknown, max)
                }
            } else {
                (Value::Unknown, max)
            }
        },
    }
}

/// A table's value is known as `b` exactly when every choice of its unknown
/// inputs gives `b`.
pub proof fn law_lut_value_forced(lut: Seq<bool>, inputs: Seq<Value>, b: bool)
    ensures
        (lut_value(lut, inputs) == Value::Dynam(b)) <==> always(lut, inputs, b),
        (lut_value(lut, inputs) == Value::Unknown) <==> (!always(lut, inputs, false) && !always(lut, inputs, true)),
{
    if always(lut, inputs, true) && always(lut, inputs, false) {
        lemma_always_unique(lut, inputs, true, false);
    }
}

/// The known values of every input.
pub open spec fn known_values(inputs: Seq<Value>) -> Seq<bool> {
    Seq::new(inputs.len(), |k: int| inputs[k].known()->0)
}

/// With every input known, a table's value is its entry at those values.
pub proof fn law_known_inputs_read_the_table(lut: Seq<bool>, inputs: Seq<Value>)
    requires
        forall|k: int| 0 <= k < inputs.len() ==> (#[trigger] inputs[k]).known() is Some,
    ensures
        lut_value(lut, inputs) == Value::Dynam(lut[input_index(known_values(inputs))]),
{
    let kv = known_values(inputs);
    let x = lut[input_index(kv)];
    assert forall|v: Seq<bool>| consistent(inputs, v) implies #[trigger] lut[input_index(v)] == x by {
        assert(v =~= kv);
    }
    law_lut_value_forced(lut, inputs, x);
    law_lut_value_forced(lut, inputs, !x);
    if always(lut, inputs, !x) {
        lemma_always_unique(lut, inputs, x, !x);
    }
}

} // verus!
