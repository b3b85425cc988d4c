//! Nodes of a two dimensional rendering of an ensemble.

use vstd::prelude::*;
use crate::ptr::{PBack, PLNode, PRNode, PTNode};
use vstd::seq_lib::group_seq_properties;

verus! {

/// What a rendered node stands for.
#[derive(Clone, Copy, Debug, PartialEq, Eq, Structural, PartialOrd, Ord, Hash)]
pub enum RenderNodeKind {
    Equiv(PBack),
    LNode(PLNode),
    TNode(PTNode),
    RNode(PRNode),
}

/// A rendered node: where it is placed, whether that place is fixed, and
/// the nodes it connects to (there can be multiedges but in optimized
/// practice there should be few).
#[derive(Debug)]
pub struct RenderNode {
    pub position: (i32, i32),
    pub fixed: bool,
    pub incidents: Vec<RenderNodeKind>,
}

impl Clone for RenderNode {
    fn clone(&self) -> (r: Self)
        ensures
            r.position == self.position,
            r.fixed == self.fixed,
            r.incidents@ == self.incidents@,
    {
        RenderNode { position: self.position, fixed: self.fixed, incidents: self.incidents.clone() }
    }
}


/// The keys of a list of keyed entries.
pub open spec fn keys_of<V>(s: Seq<(RenderNodeKind, V)>) -> Seq<RenderNodeKind> {
    Seq::new(s.len(), |i: int| s[i].0)
}

/// No key occurs twice.
pub open spec fn distinct_keys<V>(s: Seq<(RenderNodeKind, V)>) -> bool {
    forall|a: int, b: int| 0 <= a < s.len() && 0 <= b < s.len() && a != b ==> s[a].0 != s[b].0
}

/// Some entry has key `k`.
pub open spec fn has_key<V>(s: Seq<(RenderNodeKind, V)>, k: RenderNodeKind) -> bool {
    exists|i: int| 0 <= i < s.len() && s[i].0 == k
}

/// The nodes that node `k` connects to in `web`, none if `web` does not
/// list it.
pub open spec fn web_edges(web: Seq<(RenderNodeKind, Vec<RenderNodeKind>)>, k: RenderNodeKind) -> Seq<RenderNodeKind> {
    if has_key(web, k) {
        web[choose|i: int| 0 <= i < web.len() && web[i].0 == k].1@
    } else {
        Seq::empty()
    }
}

/// Every edge listed in `web`, one list after another.
pub open spec fn all_edges(web: Seq<(RenderNodeKind, Vec<RenderNodeKind>)>) -> Seq<RenderNodeKind>
    decreases web.len(),
{
    if web.len() == 0 {
        Seq::empty()
    } else {
        all_edges(web.drop_last()) + web.last().1@
    }
}

proof fn lemma_all_edges_contains(web: Seq<(RenderNodeKind, Vec<RenderNodeKind>)>, i: int, e: RenderNodeKind)
    requires
        0 <= i < web.len(),
        web[i].1@.contains(e),
    ensures
        all_edges(web).contains(e),
    decreases web.len(),
{
    let a = all_edges(web.drop_last());
    let b = web.last().1@;
    if i == web.len() - 1 {
        let k = choose|k: int| 0 <= k < b.len() && b[k] == e;
        assert((a + b)[a.len() + k] == e);
    } else {
        lemma_all_edges_contains(web.drop_last(), i, e);
        let k = choose|k: int| 0 <= k < a.len() && a[k] == e;
        assert((a + b)[k] == e);
    }
}

/// Keys that are pairwise different and all drawn from `u` are no more
/// than `u` is long.
proof fn lemma_distinct_within(keys: Seq<RenderNodeKind>, u: Seq<RenderNodeKind>)
    requires
        keys.no_duplicates(),
        forall|i: int| 0 <= i < keys.len() ==> u.contains(#[trigger] keys[i]),
    ensures
        keys.len() <= u.len(),
{
    keys.unique_seq_to_set();
    u.lemma_cardinality_of_set();
    assert(keys.to_set().subset_of(u.to_set())) by {
        assert forall|x: RenderNodeKind| keys.to_set().contains(x) implies u.to_set().contains(x) by {
            let i = choose|i: int| 0 <= i < keys.len() && keys[i] == x;
            assert(u.contains(keys[i]));
        }
    }
    vstd::set_lib::lemma_len_subset(keys.to_set(), u.to_set());
}

/// The index of the entry with key `k`, if there is one.
fn find_key_index<V>(s: &Vec<(RenderNodeKind, V)>, k: RenderNodeKind) -> (r: Option<usize>)
    ensures
        r matches Some(i) ==> i < s@.len() && s@[i as int].0 == k,
        r is None <==> !has_key(s@, k),
{
    let mut i: usize = 0;
    while i < s.len()
        invariant
            i <= s@.len(),
            forall|j: int| 0 <= j < i ==> s@[j].0 != k,
        decreases s@.len() - i,
    {
        if s[i].0 == k {
            return Some(i);
        }
        i = i + 1;
    }
    None
}

/// The mean of `sum` over `n` values in the range of `i32`, rounded toward
/// zero.
fn mean_toward_zero(sum: i128, n: usize) -> (r: i32)
    requires
        n >= 1,
        n * (i32::MIN as int) <= sum <= n * (i32::MAX as int),
    ensures
        r == toward_zero(sum as int, n as int),
{
    let d = n as i128;
    if sum >= 0 {
        let q = sum / d;
        assert(q <= i32::MAX) by (nonlinear_arith)
            requires
                0 <= sum <= n * (i32::MAX as int),
                n >= 1,
                d == n,
                q == sum / d,
        ;
        q as i32
    } else {
        let m = -sum;
        let q = m / d;
        assert(q <= 0x8000_0000) by (nonlinear_arith)
            requires
                0 < m <= n * 0x8000_0000,
                n >= 1,
                d == n,
                q == m / d,
        ;
        (-q) as i32
    }
}

/// `map` places the fixed nodes first, as given, then nodes that are not
/// fixed, each met from an earlier one; each node's incidents are placed
/// nodes that connect to it.
pub open spec fn placed(
    map: Seq<(RenderNodeKind, RenderNode)>,
    web: Seq<(RenderNodeKind, Vec<RenderNodeKind>)>,
    fixed: Seq<(RenderNodeKind, (i32, i32))>,
) -> bool {
    &&& distinct_keys(map)
    &&& map.len() >= fixed.len()
    &&& forall|j: int|
        0 <= j < fixed.len() ==> (#[trigger] map[j]).0 == fixed[j].0 && map[j].1.position == fixed[j].1 && map[j].1.fixed
    &&& forall|j: int|
        fixed.len() <= j < map.len() ==> !(#[trigger] map[j]).1.fixed && exists|i: int|
            0 <= i < j && web_edges(web, map[i].0).contains(map[j].0)
    &&& forall|i: int, x: RenderNodeKind|
        0 <= i < map.len() && #[trigger] map[i].1.incidents@.contains(x) ==> has_key(map, x) && web_edges(
            web,
            x,
        ).contains(map[i].0)
}

/// Node `e` is placed in `map` and records `from` among its incidents.
pub open spec fn met(map: Seq<(RenderNodeKind, RenderNode)>, e: RenderNodeKind, from: RenderNodeKind) -> bool {
    exists|j: int| 0 <= j < map.len() && map[j].0 == e && map[j].1.incidents@.contains(from)
}

/// Every node that one of the first `head` nodes of `map` connects to is
/// placed, and records that node among its incidents.
pub open spec fn closed_below(
    map: Seq<(RenderNodeKind, RenderNode)>,
    web: Seq<(RenderNodeKind, Vec<RenderNodeKind>)>,
    head: int,
) -> bool {
    forall|i: int, e: RenderNodeKind|
        0 <= i < head && #[trigger] web_edges(web, map[i].0).contains(e) ==> met(map, e, map[i].0)
}

/// `map` keeps the nodes of `old`, in place, with whether they are fixed and
/// their incidents (to which it may add).
pub open spec fn keeps_nodes(map: Seq<(RenderNodeKind, RenderNode)>, old: Seq<(RenderNodeKind, RenderNode)>) -> bool {
    &&& map.len() >= old.len()
    &&& forall|j: int| 0 <= j < old.len() ==> (#[trigger] map[j]).0 == old[j].0 && map[j].1.fixed == old[j].1.fixed
    &&& forall|j: int, x: RenderNodeKind|
        0 <= j < old.len() && #[trigger] old[j].1.incidents@.contains(x) ==> map[j].1.incidents@.contains(x)
}

proof fn lemma_keeps_has_key(map: Seq<(RenderNodeKind, RenderNode)>, old: Seq<(RenderNodeKind, RenderNode)>, e: RenderNodeKind)
    requires
        keeps_nodes(map, old),
        has_key(old, e),
    ensures
        has_key(map, e),
{
    let q = choose|q: int| 0 <= q < old.len() && old[q].0 == e;
    assert(map[q].0 == e);
}

proof fn lemma_keeps_met(
    map: Seq<(RenderNodeKind, RenderNode)>,
    old: Seq<(RenderNodeKind, RenderNode)>,
    e: RenderNodeKind,
    from: RenderNodeKind,
)
    requires
        keeps_nodes(map, old),
        met(old, e, from),
    ensures
        met(map, e, from),
{
    let q = choose|q: int| 0 <= q < old.len() && old[q].0 == e && old[q].1.incidents@.contains(from);
    assert(map[q].0 == e);
    assert(map[q].1.incidents@.contains(from));
}

/// Every node that is not fixed was placed at the position of a node
/// before it that connects to it.
pub open spec fn placed_from(
    map: Seq<(RenderNodeKind, RenderNode)>,
    web: Seq<(RenderNodeKind, Vec<RenderNodeKind>)>,
    nf: int,
) -> bool {
    forall|j: int|
        nf <= j < map.len() ==> exists|i: int|
            0 <= i < j && web_edges(web, map[i].0).contains(#[trigger] map[j].0) && map[j].1.position
                == map[i].1.position
}

/// What the settling passes read of each node: its key, whether it is
/// fixed, and its incidents.
pub open spec fn frame(map: Seq<(RenderNodeKind, RenderNode)>) -> Seq<(RenderNodeKind, bool, Seq<RenderNodeKind>)> {
    Seq::new(map.len(), |j: int| (map[j].0, map[j].1.fixed, map[j].1.incidents@))
}

/// The positions of the nodes.
pub open spec fn positions(map: Seq<(RenderNodeKind, RenderNode)>) -> Seq<(i32, i32)> {
    Seq::new(map.len(), |j: int| map[j].1.position)
}

/// The place of the node with key `k`.
pub open spec fn frame_index(f: Seq<(RenderNodeKind, bool, Seq<RenderNodeKind>)>, k: RenderNodeKind) -> int {
    choose|j: int| 0 <= j < f.len() && f[j].0 == k
}

/// The sums of the coordinates of the first `t` incidents of node `i`.
pub open spec fn incident_sum(
    f: Seq<(RenderNodeKind, bool, Seq<RenderNodeKind>)>,
    ps: Seq<(i32, i32)>,
    i: int,
    t: nat,
) -> (int, int)
    decreases t,
{
    if t == 0 {
        (0, 0)
    } else {
        let s = incident_sum(f, ps, i, (t - 1) as nat);
        let q = ps[frame_index(f, f[i].2[t - 1])];
        (s.0 + q.0, s.1 + q.1)
    }
}

/// `sum / n` rounded toward zero.
pub open spec fn toward_zero(sum: int, n: int) -> int {
    if sum >= 0 {
        sum / n
    } else {
        -((-sum) / n)
    }
}

/// The positions after node `i`, if it is neither fixed nor alone, moves to
/// the mean position of its incidents.
pub open spec fn moved(f: Seq<(RenderNodeKind, bool, Seq<RenderNodeKind>)>, ps: Seq<(i32, i32)>, i: int) -> Seq<(i32, i32)> {
    let n = f[i].2.len();
    if f[i].1 || n == 0 {
        ps
    } else {
        let s = incident_sum(f, ps, i, n);
        ps.update(i, (toward_zero(s.0, n as int) as i32, toward_zero(s.1, n as int) as i32))
    }
}

/// The positions after the first `p` nodes move in turn.
pub open spec fn settle_pass(f: Seq<(RenderNodeKind, bool, Seq<RenderNodeKind>)>, ps: Seq<(i32, i32)>, p: nat) -> Seq<(i32, i32)>
    decreases p,
{
    if p == 0 {
        ps
    } else {
        moved(f, settle_pass(f, ps, (p - 1) as nat), p - 1)
    }
}

/// The positions after `rounds` passes over all the nodes.
pub open spec fn settled(f: Seq<(RenderNodeKind, bool, Seq<RenderNodeKind>)>, ps: Seq<(i32, i32)>, rounds: nat) -> Seq<(i32, i32)>
    decreases rounds,
{
    if rounds == 0 {
        ps
    } else {
        settle_pass(f, settled(f, ps, (rounds - 1) as nat), f.len())
    }
}

/// Node `kind` meets `incident`, already placed at `p`: only its incidents
/// grow.
proof fn lemma_meet_again(
    prev: Seq<(RenderNodeKind, RenderNode)>,
    map: Seq<(RenderNodeKind, RenderNode)>,
    web: Seq<(RenderNodeKind, Vec<RenderNodeKind>)>,
    fixed: Seq<(RenderNodeKind, (i32, i32))>,
    from: int,
    p: int,
    kind: RenderNodeKind,
    incident: RenderNodeKind,
)
    requires
        placed(prev, web, fixed),
        placed_from(prev, web, fixed.len() as int),
        0 <= from < prev.len(),
        0 <= p < prev.len(),
        prev[from].0 == kind,
        prev[p].0 == incident,
        web_edges(web, kind).contains(incident),
        map.len() == prev.len(),
        forall|j: int| 0 <= j < prev.len() && j != p ==> map[j] == prev[j],
        map[p].0 == incident,
        map[p].1.position == prev[p].1.position,
        map[p].1.fixed == prev[p].1.fixed,
        map[p].1.incidents@ == prev[p].1.incidents@.push(kind),
    ensures
        placed(map, web, fixed),
        placed_from(map, web, fixed.len() as int),
        keeps_nodes(map, prev),
        forall|j: int| 0 <= j < prev.len() ==> (#[trigger] map[j]).1.position == prev[j].1.position,
        met(map, incident, kind),
{
    assert forall|j: int, x: RenderNodeKind|
        0 <= j < prev.len() && #[trigger] prev[j].1.incidents@.contains(x) implies map[j].1.incidents@.contains(x) by {
        if j == p {
            let q = choose|q: int| 0 <= q < prev[j].1.incidents@.len() && prev[j].1.incidents@[q] == x;
            assert(map[j].1.incidents@[q] == x);
        }
    }
    assert(keeps_nodes(map, prev));
    assert(map[p].1.incidents@[map[p].1.incidents@.len() - 1] == kind);
    assert(met(map, incident, kind));
    assert forall|j: int| fixed.len() <= j < map.len() implies exists|i: int|
        0 <= i < j && web_edges(web, map[i].0).contains(#[trigger] map[j].0) && map[j].1.position
            == map[i].1.position by {
        let i = choose|i: int|
            0 <= i < j && web_edges(web, prev[i].0).contains(prev[j].0) && prev[j].1.position == prev[i].1.position;
        assert(map[i].0 == prev[i].0 && map[i].1.position == prev[i].1.position);
    }
    assert forall|i: int, x: RenderNodeKind|
        0 <= i < map.len() && #[trigger] map[i].1.incidents@.contains(x) implies has_key(map, x)
            && web_edges(web, x).contains(map[i].0) by {
        if i == p && x == kind {
            assert(map[from].0 == kind);
        } else {
            assert(prev[i].1.incidents@.contains(x));
            lemma_keeps_has_key(map, prev, x);
        }
    }
    assert(map[p].0 == incident);
    assert(distinct_keys(map)) by {
        assert forall|a: int, b: int| 0 <= a < map.len() && 0 <= b < map.len() && a != b implies map[a].0
            != map[b].0 by {
            assert(map[a].0 == prev[a].0);
            assert(map[b].0 == prev[b].0);
        }
    }
    assert forall|j: int| 0 <= j < fixed.len() implies (#[trigger] map[j]).0 == fixed[j].0
        && map[j].1.position == fixed[j].1 && map[j].1.fixed by {
        assert(prev[j].0 == fixed[j].0);
    }
    assert forall|j: int| fixed.len() <= j < map.len() implies !(#[trigger] map[j]).1.fixed && exists|i: int|
        0 <= i < j && web_edges(web, map[i].0).contains(map[j].0) by {
        assert(!prev[j].1.fixed);
        let i = choose|i: int| 0 <= i < j && web_edges(web, prev[i].0).contains(prev[j].0);
        assert(map[i].0 == prev[i].0);
    }
}

/// Node `kind` meets `incident` for the first time: it is placed last, at
/// the position of `kind`.
proof fn lemma_meet_first(
    prev: Seq<(RenderNodeKind, RenderNode)>,
    map: Seq<(RenderNodeKind, RenderNode)>,
    web: Seq<(RenderNodeKind, Vec<RenderNodeKind>)>,
    fixed: Seq<(RenderNodeKind, (i32, i32))>,
    from: int,
    kind: RenderNodeKind,
    incident: RenderNodeKind,
)
    requires
        placed(prev, web, fixed),
        placed_from(prev, web, fixed.len() as int),
        0 <= from < prev.len(),
        prev[from].0 == kind,
        !has_key(prev, incident),
        web_edges(web, kind).contains(incident),
        map.len() == prev.len() + 1,
        forall|j: int| 0 <= j < prev.len() ==> map[j] == prev[j],
        map[prev.len() as int].0 == incident,
        map[prev.len() as int].1.position == prev[from].1.position,
        !map[prev.len() as int].1.fixed,
        map[prev.len() as int].1.incidents@ == seq![kind],
    ensures
        placed(map, web, fixed),
        placed_from(map, web, fixed.len() as int),
        keeps_nodes(map, prev),
        forall|j: int| 0 <= j < prev.len() ==> (#[trigger] map[j]).1.position == prev[j].1.position,
        met(map, incident, kind),
{
    let n = prev.len() as int;
    assert forall|j: int, x: RenderNodeKind|
        0 <= j < prev.len() && #[trigger] prev[j].1.incidents@.contains(x) implies map[j].1.incidents@.contains(x) by {
        assert(map[j] == prev[j]);
    }
    assert(keeps_nodes(map, prev));
    assert(map[n].1.incidents@[0] == kind);
    assert(met(map, incident, kind));
    assert forall|j: int| fixed.len() <= j < map.len() implies exists|i: int|
        0 <= i < j && web_edges(web, map[i].0).contains(#[trigger] map[j].0) && map[j].1.position == map[i].1.position by {
        if j == n {
            assert(web_edges(web, map[from].0).contains(map[j].0));
            assert(map[j].1.position == map[from].1.position);
        } else {
            let i = choose|i: int|
                0 <= i < j && web_edges(web, prev[i].0).contains(prev[j].0) && prev[j].1.position == prev[i].1.position;
            assert(map[i] == prev[i]);
        }
    }
    assert(distinct_keys(map)) by {
        assert forall|a: int, b: int| 0 <= a < map.len() && 0 <= b < map.len() && a != b implies map[a].0
            != map[b].0 by {
            if a == n {
                assert(prev[b].0 != incident);
            } else if b == n {
                assert(prev[a].0 != incident);
            }
        }
    }
    assert forall|j: int| 0 <= j < fixed.len() implies (#[trigger] map[j]).0 == fixed[j].0
        && map[j].1.position == fixed[j].1 && map[j].1.fixed by {
        assert(prev[j].0 == fixed[j].0);
    }
    assert(map[n].0 == incident);
    assert forall|i: int, x: RenderNodeKind|
        0 <= i < map.len() && #[trigger] map[i].1.incidents@.contains(x) implies has_key(map, x)
            && web_edges(web, x).contains(map[i].0) by {
        if i == n {
            assert(x == kind);
            assert(map[from].0 == kind);
        } else {
            assert(prev[i].1.incidents@.contains(x));
            lemma_keeps_has_key(map, prev, x);
        }
    }
    assert forall|j: int| fixed.len() <= j < map.len() implies !(#[trigger] map[j]).1.fixed && exists|i: int|
        0 <= i < j && web_edges(web, map[i].0).contains(map[j].0) by {
        if j == n {
            assert(web_edges(web, map[from].0).contains(map[j].0));
        } else {
            let i = choose|i: int| 0 <= i < j && web_edges(web, prev[i].0).contains(prev[j].0);
            assert(map[i].0 == prev[i].0);
        }
    }
}

/// Node `i` is the first node of `r` that connects to node `j`.
pub open spec fn first_meets(
    r: Seq<(RenderNodeKind, RenderNode)>,
    web: Seq<(RenderNodeKind, Vec<RenderNodeKind>)>,
    j: int,
    i: int,
) -> bool {
    &&& 0 <= i < j
    &&& web_edges(web, r[i].0).contains(r[j].0)
    &&& forall|i2: int| 0 <= i2 < i ==> !#[trigger] web_edges(web, r[i2].0).contains(r[j].0)
}

/// The first node of `r` that connects to node `j`: the one it was met
/// from.
pub open spec fn placer(r: Seq<(RenderNodeKind, RenderNode)>, web: Seq<(RenderNodeKind, Vec<RenderNodeKind>)>, j: int) -> int {
    choose|i: int| first_meets(r, web, j, i)
}

/// `m` is the first place of `x` in `e`.
pub open spec fn first_slot(e: Seq<RenderNodeKind>, x: RenderNodeKind, m: int) -> bool {
    &&& 0 <= m < e.len()
    &&& e[m] == x
    &&& forall|m2: int| 0 <= m2 < m ==> #[trigger] e[m2] != x
}

/// Where node `j` first comes among the nodes its placer connects to.
pub open spec fn slot(r: Seq<(RenderNodeKind, RenderNode)>, web: Seq<(RenderNodeKind, Vec<RenderNodeKind>)>, j: int) -> int {
    choose|m: int| first_slot(web_edges(web, r[placer(r, web, j)].0), r[j].0, m)
}

/// The nodes that are not fixed were met breadth first: node `j` from
/// node `pl[j]`, the first that connects to it, at the first place `sl[j]`
/// of its edges, and placed where that node is; and in that order.
pub open spec fn walked(
    map: Seq<(RenderNodeKind, RenderNode)>,
    web: Seq<(RenderNodeKind, Vec<RenderNodeKind>)>,
    nf: int,
    pl: Seq<int>,
    sl: Seq<int>,
) -> bool {
    &&& pl.len() == map.len()
    &&& sl.len() == map.len()
    &&& forall|j: int|
        nf <= j < map.len() ==> first_meets(map, web, j, #[trigger] pl[j]) && first_slot(
            web_edges(web, map[pl[j]].0),
            map[j].0,
            sl[j],
        ) && map[j].1.position == map[pl[j]].1.position
    &&& forall|j1: int, j2: int|
        nf <= j1 < j2 < map.len() ==> #[trigger] pl[j1] < #[trigger] pl[j2] || (pl[j1] == pl[j2] && sl[j1] < sl[j2])
}

/// Every node that is not fixed was met before place `k` of node `h`.
pub open spec fn walked_before(map: Seq<(RenderNodeKind, RenderNode)>, nf: int, pl: Seq<int>, sl: Seq<int>, h: int, k: int) -> bool {
    forall|j: int| nf <= j < map.len() ==> #[trigger] pl[j] < h || (pl[j] == h && sl[j] < k)
}

proof fn lemma_walk_step(
    prev: Seq<(RenderNodeKind, RenderNode)>,
    map: Seq<(RenderNodeKind, RenderNode)>,
    web: Seq<(RenderNodeKind, Vec<RenderNodeKind>)>,
    nf: int,
    pl: Seq<int>,
    sl: Seq<int>,
    head: int,
    k: int,
    edges: Seq<RenderNodeKind>,
) -> (r: (Seq<int>, Seq<int>))
    requires
        0 <= nf,
        walked(prev, web, nf, pl, sl),
        walked_before(prev, nf, pl, sl, head, k),
        closed_below(prev, web, head),
        0 <= head < prev.len(),
        edges == web_edges(web, prev[head].0),
        0 <= k < edges.len(),
        forall|m: int| 0 <= m < k ==> met(prev, #[trigger] edges[m], prev[head].0),
        keeps_nodes(map, prev),
        forall|j: int| 0 <= j < prev.len() ==> (#[trigger] map[j]).1.position == prev[j].1.position,
        map.len() <= prev.len() + 1,
        map.len() == prev.len() + 1 ==> map.last().0 == edges[k] && !has_key(prev, edges[k]) && map.last().1.position
            == prev[head].1.position,
    ensures
        walked(map, web, nf, r.0, r.1),
        walked_before(map, nf, r.0, r.1, head, k + 1),
{
    let grew = map.len() == prev.len() + 1;
    let pl2 = if grew { pl.push(head) } else { pl };
    let sl2 = if grew { sl.push(k) } else { sl };
    assert forall|i: int| 0 <= i < prev.len() implies #[trigger] web_edges(web, map[i].0) == web_edges(web, prev[i].0) by {
        assert(map[i].0 == prev[i].0);
    }
    assert forall|j: int| nf <= j < map.len() implies first_meets(map, web, j, #[trigger] pl2[j]) && first_slot(
        web_edges(web, map[pl2[j]].0),
        map[j].0,
        sl2[j],
    ) && map[j].1.position == map[pl2[j]].1.position by {
        if j < prev.len() {
            assert(pl2[j] == pl[j] && sl2[j] == sl[j]);
            assert(first_meets(prev, web, j, pl[j]));
            assert(map[j].0 == prev[j].0);
            assert(map[pl[j]].0 == prev[pl[j]].0);
            assert forall|i2: int| 0 <= i2 < pl[j] implies !#[trigger] web_edges(web, map[i2].0).contains(map[j].0) by {
                assert(!web_edges(web, prev[i2].0).contains(prev[j].0));
            }
        } else {
            let x = edges[k];
            assert(map[j].0 == x);
            assert(map[head].0 == prev[head].0);
            assert forall|i2: int| 0 <= i2 < head implies !#[trigger] web_edges(web, map[i2].0).contains(map[j].0) by {
                if web_edges(web, prev[i2].0).contains(x) {
                    assert(met(prev, x, prev[i2].0));
                }
            }
            assert forall|m2: int| 0 <= m2 < k implies #[trigger] edges[m2] != x by {
                assert(met(prev, edges[m2], prev[head].0));
            }
        }
    }
    assert forall|j1: int, j2: int| nf <= j1 < j2 < map.len() implies #[trigger] pl2[j1] < #[trigger] pl2[j2] || (pl2[j1]
        == pl2[j2] && sl2[j1] < sl2[j2]) by {
        if j2 < prev.len() {
            assert(pl2[j1] == pl[j1] && pl2[j2] == pl[j2]);
        } else {
            assert(pl[j1] < head || (pl[j1] == head && sl[j1] < k));
        }
    }
    (pl2, sl2)
}

proof fn lemma_walk_final(
    r: Seq<(RenderNodeKind, RenderNode)>,
    web: Seq<(RenderNodeKind, Vec<RenderNodeKind>)>,
    nf: int,
    pl: Seq<int>,
    sl: Seq<int>,
    j: int,
)
    requires
        0 <= j < r.len(),
        0 <= j < pl.len(),
        0 <= j < sl.len(),
        first_meets(r, web, j, pl[j]),
        first_slot(web_edges(web, r[pl[j]].0), r[j].0, sl[j]),
    ensures
        placer(r, web, j) == pl[j],
        slot(r, web, j) == sl[j],
        first_meets(r, web, j, placer(r, web, j)),
{
    let i0 = placer(r, web, j);
    assert(first_meets(r, web, j, i0));
    if i0 < pl[j] {
        assert(!web_edges(web, r[i0].0).contains(r[j].0));
    } else if i0 > pl[j] {
        assert(!web_edges(web, r[pl[j]].0).contains(r[j].0));
    }
    let e = web_edges(web, r[pl[j]].0);
    assert(first_slot(e, r[j].0, sl[j]));
    let m0 = slot(r, web, j);
    assert(first_slot(e, r[j].0, m0));
    if m0 < sl[j] {
        assert(e[m0] != r[j].0);
    } else if m0 > sl[j] {
        assert(e[sl[j]] != r[j].0);
    }
}

/// A walk over `m` still holds over `r` with the same keys in the same
/// places, whatever the positions, if the positions it speaks of are those
/// of `m`.
proof fn lemma_walk_keys(
    m: Seq<(RenderNodeKind, RenderNode)>,
    r: Seq<(RenderNodeKind, RenderNode)>,
    web: Seq<(RenderNodeKind, Vec<RenderNodeKind>)>,
    nf: int,
    pl: Seq<int>,
    sl: Seq<int>,
    j: int,
)
    requires
        walked(m, web, nf, pl, sl),
        r.len() == m.len(),
        forall|i: int| 0 <= i < m.len() ==> (#[trigger] r[i]).0 == m[i].0,
        nf <= j < r.len(),
    ensures
        first_meets(r, web, j, pl[j]),
        first_slot(web_edges(web, r[pl[j]].0), r[j].0, sl[j]),
{
    assert(first_meets(m, web, j, pl[j]));
    assert(r[j].0 == m[j].0);
    assert(r[pl[j]].0 == m[pl[j]].0);
    assert forall|i2: int| 0 <= i2 < pl[j] implies !#[trigger] web_edges(web, r[i2].0).contains(r[j].0) by {
        assert(r[i2].0 == m[i2].0);
        assert(!web_edges(web, m[i2].0).contains(m[j].0));
    }
}

/// Node `from` meets `incident`: it is placed if it is not yet, at the
/// position of `from`, and records `from` among its incidents.
fn meet(
    map: &mut Vec<(RenderNodeKind, RenderNode)>,
    web: &Vec<(RenderNodeKind, Vec<RenderNodeKind>)>,
    fixed: &Vec<(RenderNodeKind, (i32, i32))>,
    from: usize,
    incident: RenderNodeKind,
)
    requires
        placed(old(map)@, web@, fixed@),
        placed_from(old(map)@, web@, fixed@.len() as int),
        from < old(map)@.len(),
        web_edges(web@, old(map)@[from as int].0).contains(incident),
    ensures
        placed(final(map)@, web@, fixed@),
        placed_from(final(map)@, web@, fixed@.len() as int),
        keeps_nodes(final(map)@, old(map)@),
        forall|j: int| 0 <= j < old(map)@.len() ==> (#[trigger] final(map)@[j]).1.position == old(map)@[j].1.position,
        met(final(map)@, incident, old(map)@[from as int].0),
        final(map)@.len() <= old(map)@.len() + 1,
        final(map)@.len() == old(map)@.len() + 1 ==> final(map)@.last().0 == incident && !has_key(old(map)@, incident)
            && final(map)@.last().1.position == old(map)@[from as int].1.position,
{
    let kind = map[from].0;
    let ghost prev = map@;
    match find_key_index(&*map, incident) {
        Some(p) => {
            let mut inc = map[p].1.incidents.clone();
            inc.push(kind);
            let node = RenderNode { position: map[p].1.position, fixed: map[p].1.fixed, incidents: inc };
            map.set(p, (incident, node));
            proof {
                lemma_meet_again(prev, map@, web@, fixed@, from as int, p as int, kind, incident);
            }
        },
        None => {
            let mut inc: Vec<RenderNodeKind> = Vec::new();
            inc.push(kind);
            let position = map[from].1.position;
            map.push((incident, RenderNode { position, fixed: false, incidents: inc }));
            proof {
                assert(inc@ =~= seq![kind]);
                lemma_meet_first(prev, map@, web@, fixed@, from as int, kind, incident);
            }
        },
    }
}

/// Moves node `p0`, if it is neither fixed nor alone, to the mean position
/// of its incidents.
fn settle(
    map: &mut Vec<(RenderNodeKind, RenderNode)>,
    web: &Vec<(RenderNodeKind, Vec<RenderNodeKind>)>,
    fixed: &Vec<(RenderNodeKind, (i32, i32))>,
    p0: usize,
)
    requires
        placed(old(map)@, web@, fixed@),
        closed_below(old(map)@, web@, old(map)@.len() as int),
        p0 < old(map)@.len(),
    ensures
        placed(final(map)@, web@, fixed@),
        closed_below(final(map)@, web@, final(map)@.len() as int),
        frame(final(map)@) == frame(old(map)@),
        positions(final(map)@) == moved(frame(old(map)@), positions(old(map)@), p0 as int),
{
    let ghost f = frame(map@);
    let ghost ps = positions(map@);
    let n = map[p0].1.incidents.len();
    if map[p0].1.fixed || n == 0 {
        proof {
            assert(f[p0 as int].1 || f[p0 as int].2.len() == 0);
        }
        return;
    }
    let mut sx: i128 = 0;
    let mut sy: i128 = 0;
    let mut t: usize = 0;
    while t < n
        invariant
            p0 < map@.len(),
            f == frame(map@),
            ps == positions(map@),
            placed(map@, web@, fixed@),
            n == map@[p0 as int].1.incidents@.len(),
            t <= n,
            t * (i32::MIN as int) <= sx <= t * (i32::MAX as int),
            t * (i32::MIN as int) <= sy <= t * (i32::MAX as int),
            (sx as int, sy as int) == incident_sum(f, ps, p0 as int, t as nat),
        decreases n - t,
    {
        let incident = map[p0].1.incidents[t];
        proof {
            assert(map@[p0 as int].1.incidents@.contains(incident));
        }
        let (x, y) = match find_key_index(&*map, incident) {
            Some(p1) => {
                proof {
                    let c = frame_index(f, incident);
                    assert(f[p1 as int].0 == incident);
                    assert(0 <= c < f.len() && f[c].0 == incident);
                    assert(c == p1);
                }
                map[p1].1.position
            },
            None => (0, 0),
        };
        proof {
            assert(f[p0 as int].2[t as int] == incident);
            assert((x as int, y as int) == (ps[frame_index(f, incident)].0 as int, ps[frame_index(f, incident)].1 as int));
            assert((t + 1) * (i32::MIN as int) == t * (i32::MIN as int) + (i32::MIN as int)) by (nonlinear_arith);
            assert((t + 1) * (i32::MAX as int) == t * (i32::MAX as int) + (i32::MAX as int)) by (nonlinear_arith);
            assert(t * (i32::MAX as int) <= 0x1_0000_0000_0000_0000 * (i32::MAX as int)) by (nonlinear_arith)
                requires
                    t <= usize::MAX,
                    usize::MAX < 0x1_0000_0000_0000_0000,
            ;
            assert(t * (i32::MIN as int) >= 0x1_0000_0000_0000_0000 * (i32::MIN as int)) by (nonlinear_arith)
                requires
                    t <= usize::MAX,
                    usize::MAX < 0x1_0000_0000_0000_0000,
            ;
        }
        sx = sx + x as i128;
        sy = sy + y as i128;
        t = t + 1;
    }
    let position = (mean_toward_zero(sx, n), mean_toward_zero(sy, n));
    let ghost prev = map@;
    let node = RenderNode { position, fixed: false, incidents: map[p0].1.incidents.clone() };
    let kind = map[p0].0;
    map.set(p0, (kind, node));
    proof {
        assert forall|j: int, x: RenderNodeKind|
            0 <= j < prev.len() && #[trigger] prev[j].1.incidents@.contains(x) implies map@[j].1.incidents@.contains(x) by {
        }
        assert(keeps_nodes(map@, prev));
        assert(frame(map@) =~= f);
        assert(positions(map@) =~= moved(f, ps, p0 as int));
        assert forall|i: int, x: RenderNodeKind|
            0 <= i < map@.len() && #[trigger] map@[i].1.incidents@.contains(x) implies has_key(map@, x) && web_edges(
                web@,
                x,
            ).contains(map@[i].0) by {
            assert(prev[i].1.incidents@.contains(x));
            lemma_keeps_has_key(map@, prev, x);
        }
        assert forall|i: int, e: RenderNodeKind|
            0 <= i < map@.len() && #[trigger] web_edges(web@, map@[i].0).contains(e) implies met(map@, e, map@[i].0) by {
            assert(web_edges(web@, prev[i].0).contains(e));
            lemma_keeps_met(map@, prev, e, prev[i].0);
        }
        assert forall|j: int| fixed@.len() <= j < map@.len() implies !(#[trigger] map@[j]).1.fixed && exists|i: int|
            0 <= i < j && web_edges(web@, map@[i].0).contains(map@[j].0) by {
            assert(!prev[j].1.fixed);
            let i = choose|i: int| 0 <= i < j && web_edges(web@, prev[i].0).contains(prev[j].0);
            assert(map@[i].0 == prev[i].0);
        }
    }
}

/// The web around the fixed nodes, for rendering in two dimensions.
/// Starting from the `fixed` nodes at their given positions, every node that
/// `web` connects them to, directly or through others, is placed, once, in
/// the order in which a breadth first walk meets it, first at the position
/// of the node it was met from. Each node records as its incidents the
/// nodes that connect to it, each time they do. Then four times, going through the nodes in the order
/// they were placed, every node that is neither fixed nor alone moves to the
/// mean position of its incidents, each coordinate rounded toward zero. `web` gives the nodes that each node
/// connects to, as the ensemble holds them, each node listed at most once.
#[verifier::rlimit(50)]
pub fn debug_web(
    web: &Vec<(RenderNodeKind, Vec<RenderNodeKind>)>,
    fixed: &Vec<(RenderNodeKind, (i32, i32))>,
) -> (r: Vec<(RenderNodeKind, RenderNode)>)
    requires
        distinct_keys(web@),
        distinct_keys(fixed@),
    ensures
        distinct_keys(r@),
        r@.len() >= fixed@.len(),
        forall|i: int|
            0 <= i < fixed@.len() ==> (#[trigger] r@[i]).0 == fixed@[i].0 && r@[i].1.position == fixed@[i].1 && r@[i].1.fixed,
        forall|j: int|
            fixed@.len() <= j < r@.len() ==> !(#[trigger] r@[j]).1.fixed && exists|i: int|
                0 <= i < j && web_edges(web@, r@[i].0).contains(r@[j].0),
        forall|i: int, e: RenderNodeKind|
            0 <= i < r@.len() && #[trigger] web_edges(web@, r@[i].0).contains(e) ==> met(r@, e, r@[i].0),
        forall|i: int, x: RenderNodeKind|
            0 <= i < r@.len() && #[trigger] r@[i].1.incidents@.contains(x) ==> has_key(r@, x)
                && web_edges(web@, x).contains(r@[i].0),
        exists|ps0: Seq<(i32, i32)>|
            #![trigger settled(frame(r@), ps0, 4)]
            ps0.len() == r@.len() && positions(r@) == settled(frame(r@), ps0, 4) && (forall|j: int|
                0 <= j < fixed@.len() ==> #[trigger] ps0[j] == fixed@[j].1) && (forall|j: int|
                fixed@.len() <= j < r@.len() ==> #[trigger] ps0[j] == ps0[placer(r@, web@, j)]),
        forall|j: int| fixed@.len() <= j < r@.len() ==> #[trigger] first_meets(r@, web@, j, placer(r@, web@, j)),
        forall|j1: int, j2: int|
            fixed@.len() <= j1 < j2 < r@.len() ==> #[trigger] placer(r@, web@, j1) < #[trigger] placer(r@, web@, j2) || (
            placer(r@, web@, j1) == placer(r@, web@, j2) && slot(r@, web@, j1) < slot(r@, web@, j2)),
{
    let ghost u = keys_of(fixed@) + all_edges(web@);
    let mut map: Vec<(RenderNodeKind, RenderNode)> = Vec::new();
    let mut i: usize = 0;
    while i < fixed.len()
        invariant
            i <= fixed@.len(),
            distinct_keys(fixed@),
            map@.len() == i,
            forall|j: int|
                0 <= j < i ==> (#[trigger] map@[j]).0 == fixed@[j].0 && map@[j].1.position == fixed@[j].1 && map@[j].1.fixed
                    && map@[j].1.incidents@.len() == 0,
        decreases fixed@.len() - i,
    {
        let (kind, xy) = fixed[i];
        map.push((kind, RenderNode { position: xy, fixed: true, incidents: Vec::new() }));
        i = i + 1;
    }
    proof {
        assert forall|j: int| 0 <= j < map@.len() implies u.contains(#[trigger] map@[j].0) by {
            assert(u[j] == fixed@[j].0);
        }
        assert forall|i: int, x: RenderNodeKind|
            0 <= i < map@.len() && #[trigger] map@[i].1.incidents@.contains(x) implies has_key(map@, x) && web_edges(
                web@,
                x,
            ).contains(map@[i].0) by {
            assert(map@[i].1.incidents@.len() == 0);
        }
        assert(placed(map@, web@, fixed@));
    }
    let ghost mut pl: Seq<int> = Seq::new(map@.len(), |j: int| 0);
    let ghost mut sl: Seq<int> = Seq::new(map@.len(), |j: int| 0);
    let mut head: usize = 0;
    while head < map.len()
        invariant
            distinct_keys(web@),
            u == keys_of(fixed@) + all_edges(web@),
            head <= map@.len(),
            placed(map@, web@, fixed@),
            placed_from(map@, web@, fixed@.len() as int),
            closed_below(map@, web@, head as int),
            forall|j: int| 0 <= j < map@.len() ==> u.contains(#[trigger] map@[j].0),
            walked(map@, web@, fixed@.len() as int, pl, sl),
            walked_before(map@, fixed@.len() as int, pl, sl, head as int, 0),
        decreases u.len() - head,
    {
        proof {
            assert(keys_of(map@).no_duplicates());
            lemma_distinct_within(keys_of(map@), u);
        }
        let kind = map[head].0;
        let edges: Vec<RenderNodeKind> = match find_key_index(web, kind) {
            Some(w) => web[w].1.clone(),
            None => Vec::new(),
        };
        proof {
            assert(edges@ == web_edges(web@, kind)) by {
                if has_key(web@, kind) {
                    let c = choose|c: int| 0 <= c < web@.len() && web@[c].0 == kind;
                    let w = choose|w: int| 0 <= w < web@.len() && web@[w].0 == kind;
                    assert(c == w);
                }
            }
        }
        let mut k: usize = 0;
        while k < edges.len()
            invariant
                distinct_keys(web@),
                u == keys_of(fixed@) + all_edges(web@),
                head < map@.len(),
                map@[head as int].0 == kind,
                edges@ == web_edges(web@, kind),
                k <= edges@.len(),
                placed(map@, web@, fixed@),
                placed_from(map@, web@, fixed@.len() as int),
                closed_below(map@, web@, head as int),
                forall|j: int| 0 <= j < map@.len() ==> u.contains(#[trigger] map@[j].0),
                forall|m: int| 0 <= m < k ==> met(map@, #[trigger] edges@[m], kind),
                walked(map@, web@, fixed@.len() as int, pl, sl),
                walked_before(map@, fixed@.len() as int, pl, sl, head as int, k as int),
            decreases edges@.len() - k,
        {
            let incident = edges[k];
            let ghost prev = map@;
            proof {
                assert(web_edges(web@, kind).contains(incident));
                assert(u.contains(incident)) by {
                    let w = choose|w: int| 0 <= w < web@.len() && web@[w].0 == kind;
                    lemma_all_edges_contains(web@, w, incident);
                    let t = choose|t: int| 0 <= t < all_edges(web@).len() && all_edges(web@)[t] == incident;
                    assert(u[keys_of(fixed@).len() + t] == incident);
                }
            }
            meet(&mut map, web, fixed, head, incident);
            proof {
                let (pl2, sl2) = lemma_walk_step(prev, map@, web@, fixed@.len() as int, pl, sl, head as int, k as int, edges@);
                pl = pl2;
                sl = sl2;
                assert forall|i: int, e: RenderNodeKind|
                    0 <= i < head && #[trigger] web_edges(web@, map@[i].0).contains(e) implies met(map@, e, map@[i].0) by {
                    assert(web_edges(web@, prev[i].0).contains(e));
                    lemma_keeps_met(map@, prev, e, prev[i].0);
                }
                assert forall|m: int| 0 <= m < k + 1 implies met(map@, #[trigger] edges@[m], kind) by {
                    if m < k {
                        lemma_keeps_met(map@, prev, edges@[m], kind);
                    }
                }
                assert forall|j: int| 0 <= j < map@.len() implies u.contains(#[trigger] map@[j].0) by {
                    if j < prev.len() {
                        assert(map@[j].0 == prev[j].0);
                    }
                }
            }
            k = k + 1;
        }
        proof {
            assert(walked_before(map@, fixed@.len() as int, pl, sl, head + 1, 0));
            assert forall|i: int, e: RenderNodeKind|
                0 <= i < head + 1 && #[trigger] web_edges(web@, map@[i].0).contains(e) implies met(map@, e, map@[i].0) by {
                if i == head {
                    let m = choose|m: int| 0 <= m < edges@.len() && edges@[m] == e;
                    assert(met(map@, edges@[m], kind));
                }
            }
        }
        head = head + 1;
    }
    let ghost f0 = frame(map@);
    let ghost ps0 = positions(map@);
    let ghost m_bfs = map@;
    let mut round: usize = 0;
    while round < 4
        invariant
            round <= 4,
            placed(map@, web@, fixed@),
            closed_below(map@, web@, map@.len() as int),
            frame(map@) == f0,
            positions(map@) == settled(f0, ps0, round as nat),
        decreases 4 - round,
    {
        let mut p0: usize = 0;
        while p0 < map.len()
            invariant
                p0 <= map@.len(),
                placed(map@, web@, fixed@),
                closed_below(map@, web@, map@.len() as int),
                frame(map@) == f0,
                positions(map@) == settle_pass(f0, settled(f0, ps0, round as nat), p0 as nat),
            decreases map@.len() - p0,
        {
            settle(&mut map, web, fixed, p0);
            p0 = p0 + 1;
        }
        proof {
            assert(map@.len() == f0.len());
        }
        round = round + 1;
    }
    proof {
        assert(ps0.len() == map@.len());
        assert forall|j: int| 0 <= j < fixed@.len() implies #[trigger] ps0[j] == fixed@[j].1 by {
            assert(map@[j].1.position == fixed@[j].1);
        }
        assert forall|j: int| fixed@.len() <= j < map@.len() implies #[trigger] ps0[j] == ps0[placer(map@, web@, j)]
            && first_meets(map@, web@, j, placer(map@, web@, j)) && slot(map@, web@, j) == sl[j] && placer(map@, web@, j)
            == pl[j] by {
            assert forall|i: int| 0 <= i < m_bfs.len() implies (#[trigger] map@[i]).0 == m_bfs[i].0 by {
                assert(f0[i].0 == map@[i].0);
            }
            lemma_walk_keys(m_bfs, map@, web@, fixed@.len() as int, pl, sl, j);
            lemma_walk_final(map@, web@, fixed@.len() as int, pl, sl, j);
            assert(first_meets(m_bfs, web@, j, pl[j]));
            assert(ps0[j] == m_bfs[j].1.position && ps0[pl[j]] == m_bfs[pl[j]].1.position);
        }
        assert forall|j: int| fixed@.len() <= j < map@.len() implies #[trigger] first_meets(map@, web@, j, placer(map@, web@, j)) by {
            assert(ps0[j] == ps0[placer(map@, web@, j)]);
        }
        assert forall|j1: int, j2: int|
            fixed@.len() <= j1 < j2 < map@.len() implies #[trigger] placer(map@, web@, j1) < #[trigger] placer(map@, web@, j2) || (
            placer(map@, web@, j1) == placer(map@, web@, j2) && slot(map@, web@, j1) < slot(map@, web@, j2)) by {
            assert(ps0[j1] == ps0[placer(map@, web@, j1)]);
            assert(ps0[j2] == ps0[placer(map@, web@, j2)]);
            assert(pl[j1] < pl[j2] || (pl[j1] == pl[j2] && sl[j1] < sl[j2]));
        }
    }
    map
}


} // verus!
