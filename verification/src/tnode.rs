//! Temporal nodes: delays and the queue of delayed events.

use std::cmp::Ordering;
use vstd::prelude::*;
use vstd::std_specs::convert::FromSpecImpl;
use vstd::std_specs::cmp::PartialOrdSpecImpl;
use crate::ptr::{PBack, PTNode};
use crate::value::Event;
use crate::error::EvalError;

verus! {

/// An amount of simulated time.
#[derive(Clone, Copy, Debug, PartialEq, Eq, Structural, Ord, Hash)]
pub struct Delay {
    amount: u128,
}

impl Delay {
    pub closed spec fn view(self) -> u128 {
        self.amount
    }

    /// Two delays are equal exactly when their amounts are.
    pub proof fn lemma_view_eq(a: Delay, b: Delay)
        ensures
            (a@ == b@) <==> (a == b),
    {
    }

    pub fn zero() -> (r: Self)
        ensures
            r@ == 0,
    {
        Self { amount: 0 }
    }

    pub fn from_amount(amount: u128) -> (r: Self)
        ensures
            r@ == amount,
    {
        Self { amount }
    }

    pub fn is_zero(self) -> (r: bool)
        ensures
            r == (self@ == 0),
    {
        self.amount == 0
    }

    pub fn amount(self) -> (r: u128)
        ensures
            r == self@,
    {
        self.amount
    }

    /// The sum of two delays, `None` if it does not fit.
    pub fn checked_add(self, rhs: Self) -> (r: Option<Self>)
        ensures
            self@ + rhs@ <= u128::MAX ==> r is Some && r.unwrap()@ == self@ + rhs@,
            self@ + rhs@ > u128::MAX ==> r is None,
    {
        if self.amount <= u128::MAX - rhs.amount {
            Some(Delay::from_amount(self.amount + rhs.amount))
        } else {
            None
        }
    }
}

impl From<u128> for Delay {
    fn from(value: u128) -> (r: Self)
        ensures
            r@ == value,
    {
        Delay::from_amount(value)
    }
}

impl FromSpecImpl<u128> for Delay {
    open spec fn obeys_from_spec() -> bool {
        true
    }

    closed spec fn from_spec(v: u128) -> Self {
        Delay { amount: v }
    }
}

/// Delays are ordered by their amounts.
pub open spec fn delay_order(a: u128, b: u128) -> Option<Ordering> {
    if a < b {
        Some(Ordering::Less)
    } else if a == b {
        Some(Ordering::Equal)
    } else {
        Some(Ordering::Greater)
    }
}

impl PartialOrd for Delay {
    fn partial_cmp(&self, other: &Self) -> (r: Option<Ordering>) {
        if self.amount < other.amount {
            Some(Ordering::Less)
        } else if self.amount == other.amount {
            Some(Ordering::Equal)
        } else {
            Some(Ordering::Greater)
        }
    }
}

impl PartialOrdSpecImpl for Delay {
    open spec fn obeys_partial_cmp_spec() -> bool {
        true
    }

    open spec fn partial_cmp_spec(&self, other: &Self) -> Option<Ordering> {
        delay_order(self@, other@)
    }
}

/// A temporal node, currently just used for loopbacks
#[derive(Clone, Debug)]
pub struct TNode {
    pub p_self: PBack,
    pub p_driver: PBack,
    pub delay: Delay,
}

impl TNode {
    pub fn new(p_self: PBack, p_driver: PBack, delay: Delay) -> (r: Self)
        ensures
            r.p_self == p_self,
            r.p_driver == p_driver,
            r.delay == delay,
    {
        Self { p_self, p_driver, delay }
    }

    pub fn delay(&self) -> (r: Delay)
        ensures
            r == self.delay,
    {
        self.delay
    }
}

/// The temporal nodes to be driven at one time.
#[derive(Clone, Debug)]
pub struct SimultaneousEvents {
    pub tnode_drives: Vec<PTNode>,
}

/// The pending evaluation events, taken out least `partial_ord_num` first.
pub struct Evaluator {
    events: Vec<Event>,
}

impl Evaluator {
    pub closed spec fn view(&self) -> Seq<Event> {
        self.events@
    }

    pub fn new() -> (r: Self)
        ensures
            r@ == Seq::<Event>::empty(),
    {
        Evaluator { events: Vec::new() }
    }

    /// Errors if any events remain.
    pub fn check_clear(&mut self) -> (r: Result<(), EvalError>)
        ensures
            final(self)@ == old(self)@,
            r is Ok <==> old(self)@.len() == 0,
    {
        if self.events.len() != 0 {
            return Err(EvalError::OtherStr("events need to be empty"));
        }
        Ok(())
    }

    pub fn are_events_empty(&self) -> (r: bool)
        ensures
            r == (self@.len() == 0),
    {
        self.events.len() == 0
    }

    pub fn push_event(&mut self, event: Event)
        ensures
            final(self)@ == old(self)@.push(event),
    {
        self.events.push(event);
    }

    /// Takes out an event with the least `partial_ord_num`.
    pub fn pop_event(&mut self) -> (r: Option<Event>)
        ensures
            old(self)@.len() == 0 <==> r is None,
            r matches Some(e) ==> exists|k: int|
                0 <= k < old(self)@.len() && old(self)@[k] == e && final(self)@ == old(self)@.remove(k),
            r matches Some(e) ==> forall|k: int|
                0 <= k < old(self)@.len() ==> e.partial_ord_num <= old(self)@[k].partial_ord_num,
            r is None ==> final(self)@ == old(self)@,
    {
        if self.events.len() == 0 {
            return None;
        }
        let mut best: usize = 0;
        let mut k: usize = 1;
        while k < self.events.len()
            invariant
                0 < self@.len(),
                best < self@.len(),
                1 <= k <= self@.len(),
                best < k,
                forall|m: int| 0 <= m < k ==> self@[best as int].partial_ord_num <= self@[m].partial_ord_num,
            decreases self@.len() - k,
        {
            if self.events[k].partial_ord_num < self.events[best].partial_ord_num {
                best = k;
            }
            k = k + 1;
        }
        let e = self.events.remove(best);
        Some(e)
    }
}

/// The events at each time, of a list of times with their events.
pub open spec fn schedule_of(s: Seq<(Delay, SimultaneousEvents)>) -> Map<u128, Seq<PTNode>>
    decreases s.len(),
{
    if s.len() == 0 {
        Map::empty()
    } else {
        schedule_of(s.drop_last()).insert(s.last().0@, s.last().1.tnode_drives@)
    }
}

/// The times increase strictly along the list.
pub open spec fn times_sorted(s: Seq<(Delay, SimultaneousEvents)>) -> bool {
    forall|i: int, j: int| 0 <= i < j < s.len() ==> (#[trigger] s[i]).0@ < (#[trigger] s[j]).0@
}

/// Each time of a sorted list is a key of its schedule with its events, and
/// there are no other keys.
pub proof fn lemma_schedule_of(s: Seq<(Delay, SimultaneousEvents)>)
    requires
        times_sorted(s),
    ensures
        forall|t: u128| #[trigger] schedule_of(s).contains_key(t) <==> exists|i: int| 0 <= i < s.len() && s[i].0@ == t,
        forall|i: int| 0 <= i < s.len() ==> #[trigger] schedule_of(s)[s[i].0@] == s[i].1.tnode_drives@,
    decreases s.len(),
{
    if s.len() > 0 {
        let s2 = s.drop_last();
        lemma_schedule_of(s2);
        let n = s.len() - 1;
        assert forall|t: u128| #[trigger] schedule_of(s).contains_key(t) <==> exists|i: int| 0 <= i < s.len() && s[i].0@ == t by {
            if schedule_of(s).contains_key(t) && t != s.last().0@ {
                assert(schedule_of(s2).contains_key(t));
                let i = choose|i: int| 0 <= i < s2.len() && s2[i].0@ == t;
                assert(s[i] == s2[i]);
            }
            if exists|i: int| 0 <= i < s.len() && s[i].0@ == t {
                let i = choose|i: int| 0 <= i < s.len() && s[i].0@ == t;
                if i < n {
                    assert(s2[i] == s[i]);
                    assert(schedule_of(s2).contains_key(t));
                }
            }
        }
        assert forall|i: int| 0 <= i < s.len() implies #[trigger] schedule_of(s)[s[i].0@] == s[i].1.tnode_drives@ by {
            if i < n {
                assert(s[i].0@ < s[n].0@);
                assert(s2[i] == s[i]);
                assert(schedule_of(s2)[s2[i].0@] == s2[i].1.tnode_drives@);
            }
        }
    }
}

/// Replacing the events of one time in a sorted list replaces them in its
/// schedule.
proof fn lemma_schedule_update(old_s: Seq<(Delay, SimultaneousEvents)>, i: int, e: (Delay, SimultaneousEvents))
    requires
        times_sorted(old_s),
        0 <= i < old_s.len(),
        e.0 == old_s[i].0,
    ensures
        times_sorted(old_s.update(i, e)),
        schedule_of(old_s.update(i, e)) == schedule_of(old_s).insert(e.0@, e.1.tnode_drives@),
{
    let s = old_s.update(i, e);
    let old_sched = schedule_of(old_s);
    let want = old_sched.insert(e.0@, e.1.tnode_drives@);
    assert forall|a: int, b: int| 0 <= a < b < s.len() implies (#[trigger] s[a]).0@ < (#[trigger] s[b]).0@ by {
        assert(s[a].0 == old_s[a].0);
        assert(s[b].0 == old_s[b].0);
    }
    lemma_schedule_of(s);
    lemma_schedule_of(old_s);
    assert forall|key: u128| #[trigger] schedule_of(s).contains_key(key) == want.contains_key(key) by {
        if schedule_of(s).contains_key(key) {
            let k = choose|k: int| 0 <= k < s.len() && s[k].0@ == key;
            assert(old_s[k].0 == s[k].0);
            assert(old_sched.contains_key(key));
        }
        if old_sched.contains_key(key) {
            let k = choose|k: int| 0 <= k < old_s.len() && old_s[k].0@ == key;
            assert(old_s[k].0 == s[k].0);
            assert(schedule_of(s).contains_key(key));
        }
        if key == e.0@ {
            assert(s[i].0@ == key);
            assert(schedule_of(s).contains_key(key));
        }
    }
    assert forall|key: u128| #[trigger] schedule_of(s).contains_key(key) implies schedule_of(s)[key] == want[key] by {
        let k = choose|k: int| 0 <= k < s.len() && s[k].0@ == key;
        assert(old_s[k].0 == s[k].0);
        if k != i {
            assert(s[k] == old_s[k]);
            assert(s[k].0@ != s[i].0@);
        }
    }
    assert(schedule_of(s) =~= want);
}

/// Inserting a new time in its place in a sorted list adds it to the
/// schedule.
proof fn lemma_schedule_insert(old_s: Seq<(Delay, SimultaneousEvents)>, i: int, e: (Delay, SimultaneousEvents))
    requires
        times_sorted(old_s),
        0 <= i <= old_s.len(),
        forall|k: int| 0 <= k < i ==> (#[trigger] old_s[k]).0@ < e.0@,
        i < old_s.len() ==> e.0@ < old_s[i].0@,
    ensures
        times_sorted(old_s.insert(i, e)),
        !schedule_of(old_s).contains_key(e.0@),
        schedule_of(old_s.insert(i, e)) == schedule_of(old_s).insert(e.0@, e.1.tnode_drives@),
{
    let s = old_s.insert(i, e);
    let old_sched = schedule_of(old_s);
    let want = old_sched.insert(e.0@, e.1.tnode_drives@);
    assert forall|a: int, b: int| 0 <= a < b < s.len() implies (#[trigger] s[a]).0@ < (#[trigger] s[b]).0@ by {
        if b < i {
        } else if b == i {
        } else if a < i {
            assert(s[b] == old_s[b - 1]);
            if b - 1 > i {
                assert(old_s[i].0@ < old_s[b - 1].0@);
            }
        } else if a == i {
            assert(s[b] == old_s[b - 1]);
            if b - 1 > i {
                assert(old_s[i].0@ < old_s[b - 1].0@);
            }
        } else {
            assert(s[a] == old_s[a - 1]);
            assert(s[b] == old_s[b - 1]);
        }
    }
    lemma_schedule_of(s);
    lemma_schedule_of(old_s);
    assert(!old_sched.contains_key(e.0@)) by {
        if old_sched.contains_key(e.0@) {
            let k = choose|k: int| 0 <= k < old_s.len() && old_s[k].0@ == e.0@;
            if k > i {
                assert(old_s[i].0@ < old_s[k].0@);
            }
        }
    }
    assert forall|key: u128| #[trigger] schedule_of(s).contains_key(key) == want.contains_key(key) by {
        if schedule_of(s).contains_key(key) {
            let k = choose|k: int| 0 <= k < s.len() && s[k].0@ == key;
            if k < i {
                assert(s[k] == old_s[k]);
                assert(old_sched.contains_key(key));
            } else if k > i {
                assert(s[k] == old_s[k - 1]);
                assert(old_sched.contains_key(key));
            }
        }
        if old_sched.contains_key(key) {
            let k = choose|k: int| 0 <= k < old_s.len() && old_s[k].0@ == key;
            if k < i {
                assert(s[k] == old_s[k]);
            } else {
                assert(s[k + 1] == old_s[k]);
            }
            assert(schedule_of(s).contains_key(key));
        }
        if key == e.0@ {
            assert(s[i] == e);
            assert(schedule_of(s).contains_key(key));
        }
    }
    assert forall|key: u128| #[trigger] schedule_of(s).contains_key(key) implies schedule_of(s)[key] == want[key] by {
        let k = choose|k: int| 0 <= k < s.len() && s[k].0@ == key;
        if k < i {
            assert(s[k] == old_s[k]);
        } else if k > i {
            assert(s[k] == old_s[k - 1]);
        }
    }
    assert(schedule_of(s) =~= want);
}

/// Dropping the first, earliest, time of a sorted list takes it out of the
/// schedule.
proof fn lemma_schedule_drop_first(old_s: Seq<(Delay, SimultaneousEvents)>)
    requires
        times_sorted(old_s),
        old_s.len() > 0,
    ensures
        times_sorted(old_s.drop_first()),
        schedule_of(old_s).contains_key(old_s[0].0@),
        schedule_of(old_s)[old_s[0].0@] == old_s[0].1.tnode_drives@,
        schedule_of(old_s.drop_first()) == schedule_of(old_s).remove(old_s[0].0@),
        forall|t: u128| #[trigger] schedule_of(old_s).contains_key(t) ==> old_s[0].0@ <= t,
{
    let s = old_s.drop_first();
    let old_sched = schedule_of(old_s);
    let want = old_sched.remove(old_s[0].0@);
    assert forall|a: int, b: int| 0 <= a < b < s.len() implies (#[trigger] s[a]).0@ < (#[trigger] s[b]).0@ by {
        assert(s[a] == old_s[a + 1]);
        assert(s[b] == old_s[b + 1]);
    }
    lemma_schedule_of(s);
    lemma_schedule_of(old_s);
    assert(old_sched.contains_key(old_s[0].0@));
    assert forall|t: u128| #[trigger] old_sched.contains_key(t) implies old_s[0].0@ <= t by {
        let k = choose|k: int| 0 <= k < old_s.len() && old_s[k].0@ == t;
        if k > 0 {
            assert(old_s[0].0@ < old_s[k].0@);
        }
    }
    assert forall|key: u128| #[trigger] schedule_of(s).contains_key(key) == want.contains_key(key) by {
        if schedule_of(s).contains_key(key) {
            let k = choose|k: int| 0 <= k < s.len() && s[k].0@ == key;
            assert(s[k] == old_s[k + 1]);
            assert(old_s[0].0@ < old_s[k + 1].0@);
            assert(old_sched.contains_key(key));
        }
        if old_sched.contains_key(key) && key != old_s[0].0@ {
            let k = choose|k: int| 0 <= k < old_s.len() && old_s[k].0@ == key;
            assert(k != 0);
            assert(s[k - 1] == old_s[k]);
            assert(schedule_of(s).contains_key(key));
        }
    }
    assert forall|key: u128| #[trigger] schedule_of(s).contains_key(key) implies schedule_of(s)[key] == want[key] by {
        let k = choose|k: int| 0 <= k < s.len() && s[k].0@ == key;
        assert(s[k] == old_s[k + 1]);
        assert(old_s[0].0@ < old_s[k + 1].0@);
    }
    assert(schedule_of(s) =~= want);
}

/// Calls `Vec::shrink_to_fit`, which per its documentation only lowers the
/// capacity: the elements stay as they are.
#[verifier::external_body]
fn shrink_vec<T>(v: &mut Vec<T>)
    ensures
        final(v)@ == old(v)@,
{
    v.shrink_to_fit();
}

/// The queue of events waiting for their time, and the current time as
/// measured by the delay between `Delayer` creation and now.
#[derive(Clone, Debug)]
pub struct Delayer {
    pub current_time: Delay,
    pub delayed_events: Vec<(Delay, SimultaneousEvents)>,
}

impl Delayer {
    /// The delayed events are in order of their times, one entry per time.
    pub open spec fn wf(&self) -> bool {
        times_sorted(self.delayed_events@)
    }

    /// The temporal nodes to drive at each time.
    pub open spec fn schedule(&self) -> Map<u128, Seq<PTNode>> {
        schedule_of(self.delayed_events@)
    }

    pub fn new() -> (r: Self)
        ensures
            r.wf(),
            r.current_time@ == 0,
            r.schedule() == Map::<u128, Seq<PTNode>>::empty(),
    {
        Delayer { current_time: Delay::zero(), delayed_events: Vec::new() }
    }

    /// Frees what the queue holds beyond its events.
    pub fn compress(&mut self)
        ensures
            final(self).current_time == old(self).current_time,
            final(self).delayed_events@ == old(self).delayed_events@,
    {
        shrink_vec(&mut self.delayed_events);
    }

    /// Inserts an event that will be delayed by `delay` from the current time.
    pub fn insert_delayed_tnode_event(&mut self, p_tnode: PTNode, delay: Delay)
        requires
            old(self).wf(),
            old(self).current_time@ + delay@ <= u128::MAX,
        ensures
            final(self).wf(),
            final(self).current_time == old(self).current_time,
            final(self).schedule() == old(self).schedule().insert(
                (old(self).current_time@ + delay@) as u128,
                if old(self).schedule().contains_key((old(self).current_time@ + delay@) as u128) {
                    old(self).schedule()[(old(self).current_time@ + delay@) as u128]
                } else {
                    Seq::<PTNode>::empty()
                }.push(p_tnode),
            ),
    {
        let future_time = self.current_time.checked_add(delay).unwrap();
        let t = future_time.amount();
        let ghost old_s = self.delayed_events@;
        let ghost old_sched = schedule_of(old_s);
        proof {
            lemma_schedule_of(old_s);
        }
        let n = self.delayed_events.len();
        let mut i: usize = 0;
        while i < n && self.delayed_events[i].0.amount() < t
            invariant
                n == self.delayed_events@.len(),
                self.delayed_events@ == old_s,
                i <= n,
                forall|k: int| 0 <= k < i ==> (#[trigger] old_s[k]).0@ < t,
            decreases n - i,
        {
            i = i + 1;
        }
        if i < n && self.delayed_events[i].0.amount() == t {
            // add to the events already at that time
            let (d, mut ev) = self.delayed_events.remove(i);
            ev.tnode_drives.push(p_tnode);
            self.delayed_events.insert(i, (d, ev));
            proof {
                assert(self.delayed_events@ =~= old_s.update(i as int, (d, ev)));
                lemma_schedule_update(old_s, i as int, (d, ev));
                assert(old_sched.contains_key(t));
                assert(old_sched[t] == old_s[i as int].1.tnode_drives@);
            }
        } else {
            let ev = SimultaneousEvents { tnode_drives: vec![p_tnode] };
            self.delayed_events.insert(i, (future_time, ev));
            proof {
                assert(ev.tnode_drives@ =~= Seq::<PTNode>::empty().push(p_tnode));
                lemma_schedule_insert(old_s, i as int, (future_time, ev));
            }
        }
    }

    pub fn are_delayed_events_empty(&self) -> (r: bool)
        requires
            self.wf(),
        ensures
            r == (self.schedule().dom() == Set::<u128>::empty()),
    {
        proof {
            lemma_schedule_of(self.delayed_events@);
            if self.delayed_events@.len() > 0 {
                assert(self.schedule().contains_key(self.delayed_events@[0].0@));
            } else {
                assert(self.schedule().dom() =~= Set::<u128>::empty());
            }
        }
        self.delayed_events.len() == 0
    }

    /// The earliest time with events waiting.
    pub fn peek_next_event_time(&self) -> (r: Option<Delay>)
        requires
            self.wf(),
        ensures
            r is None <==> self.schedule().dom() == Set::<u128>::empty(),
            r matches Some(d) ==> self.schedule().contains_key(d@) && forall|t: u128|
                #[trigger] self.schedule().contains_key(t) ==> d@ <= t,
    {
        proof {
            lemma_schedule_of(self.delayed_events@);
            if self.delayed_events@.len() > 0 {
                assert(self.schedule().contains_key(self.delayed_events@[0].0@));
            } else {
                assert(self.schedule().dom() =~= Set::<u128>::empty());
            }
        }
        if self.delayed_events.len() == 0 {
            None
        } else {
            let d = self.delayed_events[0].0;
            proof {
                assert forall|t: u128| #[trigger] self.schedule().contains_key(t) implies d@ <= t by {
                    let k = choose|k: int| 0 <= k < self.delayed_events@.len() && self.delayed_events@[k].0@ == t;
                    if k > 0 {
                        assert(self.delayed_events@[0].0@ < self.delayed_events@[k].0@);
                    }
                }
            }
            Some(d)
        }
    }

    /// Takes out the earliest time with its events.
    pub fn pop_next_simultaneous_events(&mut self) -> (r: Option<(Delay, SimultaneousEvents)>)
        requires
            old(self).wf(),
        ensures
            final(self).wf(),
            final(self).current_time == old(self).current_time,
            r is None <==> old(self).schedule().dom() == Set::<u128>::empty(),
            r is None ==> final(self).schedule() == old(self).schedule(),
            r matches Some(p) ==> old(self).schedule().contains_key(p.0@) && p.1.tnode_drives@ == old(self).schedule()[p.0@]
                && final(self).schedule() == old(self).schedule().remove(p.0@)
                && forall|t: u128| #[trigger] old(self).schedule().contains_key(t) ==> p.0@ <= t,
    {
        let ghost old_s = self.delayed_events@;
        proof {
            lemma_schedule_of(old_s);
            if old_s.len() > 0 {
                assert(schedule_of(old_s).contains_key(old_s[0].0@));
            } else {
                assert(schedule_of(old_s).dom() =~= Set::<u128>::empty());
            }
        }
        if self.delayed_events.len() == 0 {
            return None;
        }
        let p = self.delayed_events.remove(0);
        proof {
            assert(self.delayed_events@ =~= old_s.drop_first());
            lemma_schedule_drop_first(old_s);
        }
        Some(p)
    }
}

impl Default for Delayer {
    fn default() -> (r: Self)
        ensures
            r.wf(),
            r.current_time@ == 0,
            r.schedule() == Map::<u128, Seq<PTNode>>::empty(),
    {
        Self::new()
    }
}

} // verus!
