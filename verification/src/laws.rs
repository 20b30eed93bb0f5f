//! Global laws of the tick engine, stated and proved over the model in
//! `sim`.
//!
//! Each law is a public proof function: its `requires` are the law's
//! hypotheses and its `ensures` the law itself, stated over `tick_nets`,
//! the model that `Graph::tick` is proved to implement.

use vstd::prelude::*;

use crate::graph::Connected;
use crate::graph::Connection;
use crate::graph::Wire;
use crate::graph::graph_wf;
use crate::graph::node_wf;
use crate::graph::slot_live;
use crate::nodes::NodeTy;
use crate::nodes::eval;
use crate::nodes::input_arity;
use crate::sim::apply_node;
use crate::sim::compute_nets;
use crate::sim::compute_upto;
use crate::sim::lemma_apply_node_frame;
use crate::sim::first_live;
use crate::sim::id_in;
use crate::sim::input_ready;
use crate::sim::input_seq;
use crate::sim::lemma_compute_sole_writer;
use crate::sim::lemma_compute_unwritten;
use crate::sim::lemma_compute_upto_frame;
use crate::sim::lemma_first_live_is_live;
use crate::sim::lemma_input_congruence;
use crate::sim::lemma_stage_list_frame;
use crate::sim::node_drives;
use crate::sim::stage_list;
use crate::sim::stage_list_upto;
use crate::sim::stage_outputs_upto;
use crate::sim::tick_nets;
use crate::sim::writes_wire;

verus! {

/// A wire that is fully low: settled, pending and change flag all clear,
/// exactly the state `Graph::reset` forces on every live wire.
pub open spec fn low_wire() -> Wire {
    Wire { input_state: false, output_state: false, changed_input: false }
}

/// True when every live wire of the arena is fully low.
pub open spec fn all_low(wires: Seq<Option<Wire>>) -> bool {
    forall|m: int| #[trigger] slot_live(wires, m) ==> wires[m]->Some_0 == low_wire()
}

/// The all-false input vector of length `n`.
pub open spec fn all_false(n: nat) -> Seq<bool> {
    Seq::new(n, |k: int| false)
}

/// Once the wire state is a fixed point of the tick, every further tick
/// returns the same state: ticking is idempotent on a stabilized graph.
/// `lemma_acyclic_settles` below shows that an acyclic graph settles
/// within one tick per level of depth.
pub proof fn lemma_stable_state_persists(
    nodes: Seq<Option<Connected>>,
    conns: Seq<Option<Connection>>,
    wires: Seq<Option<Wire>>,
)
    requires
        tick_nets(nodes, conns, wires) == wires,
    ensures
        tick_nets(nodes, conns, tick_nets(nodes, conns, wires)) == wires,
{
}

/// The wire state after `t` whole ticks.
pub open spec fn tick_iter(
    nodes: Seq<Option<Connected>>,
    conns: Seq<Option<Connection>>,
    wires: Seq<Option<Wire>>,
    t: nat,
) -> Seq<Option<Wire>>
    decreases t,
{
    if t == 0 {
        wires
    } else {
        tick_nets(nodes, conns, tick_iter(nodes, conns, wires, (t - 1) as nat))
    }
}

/// A witness of acyclicity: a rank below `d` for every live wire, strictly
/// increasing along every evaluated gate — every wire an evaluated node
/// drives ranks above every wire the node reads.  A graph with feedback
/// (an inverter ring) admits no such rank; a combinational graph does,
/// with `d` one more than its depth.
pub open spec fn valid_rank(
    nodes: Seq<Option<Connected>>,
    conns: Seq<Option<Connection>>,
    wires: Seq<Option<Wire>>,
    rank: spec_fn(int) -> nat,
    d: nat,
) -> bool {
    &&& forall|o: int| #[trigger] slot_live(wires, o) ==> rank(o) < d
    &&& forall|i: int, m: int, k: int|
        #![trigger writes_wire(nodes, conns, wires, i, m), nodes[i]->Some_0.inputs@[k]]
        writes_wire(nodes, conns, wires, i, m) && 0 <= k < nodes[i]->Some_0.inputs@.len()
            ==> rank(m) > rank(
            first_live(
                wires,
                conns[nodes[i]->Some_0.inputs@[k] as int]->Some_0.wires@,
            )->Some_0 as int,
        )
}

/// Readiness depends only on which wires exist.
proof fn lemma_ready_congruence(
    conns: Seq<Option<Connection>>,
    w1: Seq<Option<Wire>>,
    w2: Seq<Option<Wire>>,
    node: Connected,
)
    requires
        forall|m: int| slot_live(w1, m) == slot_live(w2, m),
    ensures
        input_ready(conns, w1, node) == input_ready(conns, w2, node),
{
    assert forall|ids: Seq<usize>, t: int|
        true implies #[trigger] crate::sim::first_live_from(w1, ids, t)
        == crate::sim::first_live_from(w2, ids, t) by {
        crate::sim::lemma_first_live_congruence(w1, w2, ids, t);
    }
}

/// Graph well-formedness reads nothing of the wires but how many slots
/// the arena has.
proof fn lemma_wf_same_wire_len(
    nodes: Seq<Option<Connected>>,
    conns: Seq<Option<Connection>>,
    w1: Seq<Option<Wire>>,
    w2: Seq<Option<Wire>>,
)
    requires
        graph_wf(nodes, conns, w1),
        w2.len() == w1.len(),
    ensures
        graph_wf(nodes, conns, w2),
{
    assert forall|p: int| #[trigger] slot_live(conns, p) implies crate::graph::conn_wf(
        conns[p]->Some_0,
        w2.len() as int,
    ) by {
        assert(crate::graph::conn_wf(conns[p]->Some_0, w1.len() as int));
    }
}

/// One tick changes no wire's existence.
proof fn lemma_tick_liveness(
    nodes: Seq<Option<Connected>>,
    conns: Seq<Option<Connection>>,
    wires: Seq<Option<Wire>>,
)
    ensures
        tick_nets(nodes, conns, wires).len() == wires.len(),
        forall|m: int| slot_live(#[trigger] tick_nets(nodes, conns, wires), m) == slot_live(
            wires,
            m,
        ),
{
    lemma_compute_upto_frame(nodes, conns, wires, nodes.len() as int);
}

/// No number of ticks changes any wire's existence.
proof fn lemma_tick_iter_liveness(
    nodes: Seq<Option<Connected>>,
    conns: Seq<Option<Connection>>,
    wires: Seq<Option<Wire>>,
    t: nat,
)
    ensures
        tick_iter(nodes, conns, wires, t).len() == wires.len(),
        forall|m: int| slot_live(#[trigger] tick_iter(nodes, conns, wires, t), m) == slot_live(
            wires,
            m,
        ),
    decreases t,
{
    if t > 0 {
        lemma_tick_iter_liveness(nodes, conns, wires, (t - 1) as nat);
        lemma_tick_liveness(nodes, conns, tick_iter(nodes, conns, wires, (t - 1) as nat));
    }
}

/// A wire no evaluated node drives keeps its pending value through any
/// number of ticks, and from the first tick on its settled value is that
/// held pending value.
proof fn lemma_unwritten_pending(
    nodes: Seq<Option<Connected>>,
    conns: Seq<Option<Connection>>,
    wires: Seq<Option<Wire>>,
    o: int,
    t: nat,
)
    requires
        0 <= o < wires.len(),
        slot_live(wires, o),
        forall|i: int| 0 <= i < nodes.len() ==> !writes_wire(nodes, conns, wires, i, o),
    ensures
        tick_iter(nodes, conns, wires, t)[o] is Some,
        tick_iter(nodes, conns, wires, t)[o]->Some_0.input_state == wires[o]->Some_0.input_state,
        t >= 1 ==> tick_iter(nodes, conns, wires, t)[o]->Some_0.output_state
            == wires[o]->Some_0.input_state,
    decreases t,
{
    lemma_tick_iter_liveness(nodes, conns, wires, t);
    if t > 0 {
        let prev = tick_iter(nodes, conns, wires, (t - 1) as nat);
        lemma_unwritten_pending(nodes, conns, wires, o, (t - 1) as nat);
        lemma_tick_iter_liveness(nodes, conns, wires, (t - 1) as nat);
        assert forall|i: int| 0 <= i < nodes.len() implies !writes_wire(
            nodes,
            conns,
            prev,
            i,
            o,
        ) by {
            if slot_live(nodes, i) {
                lemma_ready_congruence(conns, prev, wires, nodes[i]->Some_0);
                assert(input_ready(conns, prev, nodes[i]->Some_0) == input_ready(
                    conns,
                    wires,
                    nodes[i]->Some_0,
                ));
                assert(!writes_wire(nodes, conns, wires, i, o));
            }
        }
        lemma_compute_unwritten(nodes, conns, prev, nodes.len() as int, o);
        lemma_compute_upto_frame(nodes, conns, prev, nodes.len() as int);
        assert(tick_iter(nodes, conns, wires, t)[o] == Some(
            crate::sim::commit_wire(compute_nets(nodes, conns, prev)[o]->Some_0),
        ));
    }
}

/// When two wire states agree on which wires exist and gather the same
/// inputs for every node that drives wire `o`, the compute phase leaves
/// the same pending value on `o` in both — provided some node among the
/// first `n` does drive it.
proof fn lemma_compute_pending_congruence(
    nodes: Seq<Option<Connected>>,
    conns: Seq<Option<Connection>>,
    w1: Seq<Option<Wire>>,
    w2: Seq<Option<Wire>>,
    n: int,
    o: int,
)
    requires
        graph_wf(nodes, conns, w1),
        w1.len() == w2.len(),
        forall|m: int| slot_live(w1, m) == slot_live(w2, m),
        0 <= o < w1.len(),
        slot_live(w1, o),
        0 < n <= nodes.len(),
        exists|i: int| 0 <= i < n && #[trigger] writes_wire(nodes, conns, w1, i, o),
        forall|i: int|
            0 <= i < nodes.len() && #[trigger] writes_wire(nodes, conns, w1, i, o) ==> input_seq(
                conns,
                w1,
                nodes[i]->Some_0,
            ) == input_seq(conns, w2, nodes[i]->Some_0),
    ensures
        compute_upto(nodes, conns, w1, n)[o] is Some,
        compute_upto(nodes, conns, w2, n)[o] is Some,
        compute_upto(nodes, conns, w1, n)[o]->Some_0.input_state == compute_upto(
            nodes,
            conns,
            w2,
            n,
        )[o]->Some_0.input_state,
    decreases n,
{
    let prev1 = compute_upto(nodes, conns, w1, n - 1);
    let prev2 = compute_upto(nodes, conns, w2, n - 1);
    lemma_compute_upto_frame(nodes, conns, w1, n - 1);
    lemma_compute_upto_frame(nodes, conns, w2, n - 1);
    let live_node = nodes[n - 1] is Some;
    if live_node && writes_wire(nodes, conns, w1, n - 1, o) {
        let node = nodes[n - 1]->Some_0;
        lemma_input_congruence(conns, prev1, w1, node);
        lemma_input_congruence(conns, prev2, w2, node);
        lemma_ready_congruence(conns, w1, w2, node);
        assert(input_ready(conns, prev1, node));
        assert(input_ready(conns, prev2, node));
        let v1 = eval(node.kind, node.state, input_seq(conns, prev1, node));
        let v2 = eval(node.kind, node.state, input_seq(conns, prev2, node));
        assert(input_seq(conns, prev1, node) == input_seq(conns, w1, node));
        assert(input_seq(conns, prev2, node) == input_seq(conns, w2, node));
        assert(v1 == v2);
        assert(slot_live(nodes, n - 1));
        assert(node_wf(node, conns, n - 1));
        assert(node.outputs@.len() == 1);
        assert(v1.len() == 1);
        let jd = choose|jd: int|
            0 <= jd < node.outputs@.len() && slot_live(conns, #[trigger] node.outputs@[jd] as int)
                && id_in(conns[node.outputs@[jd] as int]->Some_0.wires@, o);
        assert(jd == 0);
        let ids = conns[node.outputs@[0] as int]->Some_0.wires@;
        lemma_stage_list_frame(prev1, ids, v1[0], ids.len() as int);
        lemma_stage_list_frame(prev2, ids, v2[0], ids.len() as int);
        assert(ids.take(ids.len() as int) =~= ids);
        assert(slot_live(prev1, o) && slot_live(prev2, o));
        assert(stage_outputs_upto(conns, prev1, node, v1, 0) == prev1);
        assert(stage_outputs_upto(conns, prev1, node, v1, 1) == stage_list(prev1, ids, v1[0]));
        assert(stage_outputs_upto(conns, prev2, node, v2, 0) == prev2);
        assert(stage_outputs_upto(conns, prev2, node, v2, 1) == stage_list(prev2, ids, v2[0]));
        assert(compute_upto(nodes, conns, w1, n) == apply_node(conns, prev1, node));
        assert(compute_upto(nodes, conns, w2, n) == apply_node(conns, prev2, node));
        assert(stage_list(prev1, ids, v1[0])[o]->Some_0.input_state == v1[0]);
        assert(stage_list(prev2, ids, v2[0])[o]->Some_0.input_state == v2[0]);
    } else {
        if live_node {
            let node = nodes[n - 1]->Some_0;
            lemma_input_congruence(conns, prev1, w1, node);
            lemma_ready_congruence(conns, prev2, w2, node);
            lemma_ready_congruence(conns, w1, w2, node);
            lemma_apply_node_frame(conns, prev1, node);
            lemma_apply_node_frame(conns, prev2, node);
            assert(!(input_ready(conns, prev1, node) && node_drives(conns, node, o)));
            assert(!(input_ready(conns, prev2, node) && node_drives(conns, node, o)));
            assert(compute_upto(nodes, conns, w1, n)[o] == prev1[o]);
            assert(compute_upto(nodes, conns, w2, n)[o] == prev2[o]);
        }
        let iw = choose|i: int| 0 <= i < n && #[trigger] writes_wire(nodes, conns, w1, i, o);
        assert(iw != n - 1);
        lemma_compute_pending_congruence(nodes, conns, w1, w2, n - 1, o);
    }
}

/// For every acyclicity witness, the settled value of every live wire is
/// fixed from one tick past its rank on: the graph stabilizes level by
/// level, one tick per level of depth.
proof fn lemma_settled_stable_at(
    nodes: Seq<Option<Connected>>,
    conns: Seq<Option<Connection>>,
    wires: Seq<Option<Wire>>,
    rank: spec_fn(int) -> nat,
    d: nat,
    o: int,
    t: nat,
)
    requires
        graph_wf(nodes, conns, wires),
        valid_rank(nodes, conns, wires, rank, d),
        0 <= o < wires.len(),
        slot_live(wires, o),
        t >= rank(o) + 1,
    ensures
        tick_iter(nodes, conns, wires, t)[o] is Some,
        tick_iter(nodes, conns, wires, t)[o]->Some_0.output_state == tick_iter(
            nodes,
            conns,
            wires,
            (rank(o) + 1) as nat,
        )[o]->Some_0.output_state,
    decreases rank(o), t,
{
    lemma_tick_iter_liveness(nodes, conns, wires, t);
    let r = rank(o);
    if t > r + 1 {
        if forall|i: int| 0 <= i < nodes.len() ==> !#[trigger] writes_wire(
            nodes,
            conns,
            wires,
            i,
            o,
        ) {
            lemma_unwritten_pending(nodes, conns, wires, o, t);
            lemma_unwritten_pending(nodes, conns, wires, o, (r + 1) as nat);
        } else {
            let sa = tick_iter(nodes, conns, wires, (t - 1) as nat);
            let sb = tick_iter(nodes, conns, wires, (t - 2) as nat);
            lemma_tick_iter_liveness(nodes, conns, wires, (t - 1) as nat);
            lemma_tick_iter_liveness(nodes, conns, wires, (t - 2) as nat);
            // every node that drives `o` gathers the same inputs one tick
            // apart, because its input wires rank lower and have settled
            assert forall|i: int|
                0 <= i < nodes.len() && #[trigger] writes_wire(nodes, conns, sa, i, o) implies
            input_seq(conns, sa, nodes[i]->Some_0) == input_seq(conns, sb, nodes[i]->Some_0) by {
                let node = nodes[i]->Some_0;
                lemma_ready_congruence(conns, sa, wires, node);
                assert(writes_wire(nodes, conns, wires, i, o));
                assert(node_wf(node, conns, i));
                assert forall|k: int| 0 <= k < node.inputs@.len() implies input_seq(
                    conns,
                    sa,
                    node,
                )[k] == input_seq(conns, sb, node)[k] by {
                    let ids = conns[node.inputs@[k] as int]->Some_0.wires@;
                    crate::sim::lemma_first_live_congruence(wires, sa, ids, 0);
                    crate::sim::lemma_first_live_congruence(wires, sb, ids, 0);
                    assert(input_ready(conns, wires, node));
                    assert(first_live(wires, ids) is Some);
                    let u = first_live(wires, ids)->Some_0;
                    lemma_first_live_is_live(wires, ids, 0);
                    assert(slot_live(wires, u as int));
                    assert(rank(u as int) < r);
                    lemma_settled_stable_at(nodes, conns, wires, rank, d, u as int, (t - 1) as nat);
                    lemma_settled_stable_at(nodes, conns, wires, rank, d, u as int, (t - 2) as nat);
                    assert(sa[u as int]->Some_0.output_state == sb[u as int]->Some_0.output_state);
                }
                assert(input_seq(conns, sa, node) =~= input_seq(conns, sb, node));
            }
            let iw = choose|i: int|
                0 <= i < nodes.len() && #[trigger] writes_wire(nodes, conns, wires, i, o);
            lemma_ready_congruence(conns, sa, wires, nodes[iw]->Some_0);
            assert(writes_wire(nodes, conns, sa, iw, o));
            lemma_wf_same_wire_len(nodes, conns, wires, sa);
            assert forall|m: int| slot_live(sa, m) == slot_live(sb, m) by {
                assert(slot_live(sa, m) == slot_live(wires, m));
                assert(slot_live(sb, m) == slot_live(wires, m));
            }
            lemma_compute_pending_congruence(nodes, conns, sa, sb, nodes.len() as int, o);
            lemma_compute_upto_frame(nodes, conns, sa, nodes.len() as int);
            lemma_compute_upto_frame(nodes, conns, sb, nodes.len() as int);
            assert(tick_iter(nodes, conns, wires, t)[o] == Some(
                crate::sim::commit_wire(compute_nets(nodes, conns, sa)[o]->Some_0),
            ));
            assert(tick_iter(nodes, conns, wires, (t - 1) as nat)[o] == Some(
                crate::sim::commit_wire(compute_nets(nodes, conns, sb)[o]->Some_0),
            ));
            lemma_settled_stable_at(nodes, conns, wires, rank, d, o, (t - 1) as nat);
        }
    }
}

/// For all acyclic graphs — witnessed by a rank below `d` on every live
/// wire that strictly increases across every evaluated gate — the settled
/// state stabilizes after `d` ticks: every later tick settles every wire
/// to the same value it had after tick `d`, so once stable, further ticks
/// are no-ops on the settled state.
pub proof fn lemma_acyclic_settles(
    nodes: Seq<Option<Connected>>,
    conns: Seq<Option<Connection>>,
    wires: Seq<Option<Wire>>,
    rank: spec_fn(int) -> nat,
    d: nat,
    t: nat,
)
    requires
        graph_wf(nodes, conns, wires),
        valid_rank(nodes, conns, wires, rank, d),
        t >= d,
    ensures
        forall|o: int|
            #[trigger] slot_live(wires, o) ==> tick_iter(nodes, conns, wires, t)[o] is Some
                && tick_iter(nodes, conns, wires, t)[o]->Some_0.output_state == tick_iter(
                nodes,
                conns,
                wires,
                d,
            )[o]->Some_0.output_state,
{
    assert forall|o: int| #[trigger] slot_live(wires, o) implies tick_iter(
        nodes,
        conns,
        wires,
        t,
    )[o] is Some && tick_iter(nodes, conns, wires, t)[o]->Some_0.output_state == tick_iter(
        nodes,
        conns,
        wires,
        d,
    )[o]->Some_0.output_state by {
        assert(rank(o) < d);
        lemma_settled_stable_at(nodes, conns, wires, rank, d, o, t);
        lemma_settled_stable_at(nodes, conns, wires, rank, d, o, d);
    }
}

/// Staging `false` never raises a fully low arena.
proof fn lemma_stage_list_low(wires: Seq<Option<Wire>>, ids: Seq<usize>, t: int)
    requires
        all_low(wires),
        0 <= t <= ids.len(),
    ensures
        all_low(stage_list_upto(wires, ids, false, t)),
    decreases t,
{
    if t > 0 {
        lemma_stage_list_low(wires, ids, t - 1);
        let prev = stage_list_upto(wires, ids, false, t - 1);
        let cur = stage_list_upto(wires, ids, false, t);
        assert forall|m: int| #[trigger] slot_live(cur, m) implies cur[m]->Some_0 == low_wire() by {
            if 0 <= t - 1 < ids.len() && slot_live(prev, ids[t - 1] as int) && m == ids[t
                - 1] as int {
                assert(prev[m]->Some_0 == low_wire());
            } else {
                assert(cur[m] == prev[m]);
                assert(slot_live(prev, m));
            }
        }
    }
}

/// Broadcasting all-false outputs never raises a fully low arena.
proof fn lemma_stage_outputs_low(
    conns: Seq<Option<Connection>>,
    wires: Seq<Option<Wire>>,
    node: Connected,
    vals: Seq<bool>,
    j: int,
)
    requires
        all_low(wires),
        forall|k: int| 0 <= k < vals.len() ==> vals[k] == false,
        j <= node.outputs@.len(),
    ensures
        all_low(stage_outputs_upto(conns, wires, node, vals, j)),
    decreases j,
{
    if j > 0 {
        lemma_stage_outputs_low(conns, wires, node, vals, j - 1);
        let prev = stage_outputs_upto(conns, wires, node, vals, j - 1);
        if 0 <= j - 1 < node.outputs@.len() && 0 <= j - 1 < vals.len() && slot_live(
            conns,
            node.outputs@[j - 1] as int,
        ) {
            let ids = conns[node.outputs@[j - 1] as int]->Some_0.wires@;
            lemma_stage_list_low(prev, ids, ids.len() as int);
        }
    }
}

/// The compute phase keeps a fully low arena fully low when every gate in
/// the graph emits all-false on all-false inputs.
proof fn lemma_compute_low(
    nodes: Seq<Option<Connected>>,
    conns: Seq<Option<Connection>>,
    wires: Seq<Option<Wire>>,
    n: int,
)
    requires
        graph_wf(nodes, conns, wires),
        all_low(wires),
        forall|i: int|
            #[trigger] slot_live(nodes, i) ==> eval(
                nodes[i]->Some_0.kind,
                nodes[i]->Some_0.state,
                all_false(input_arity(nodes[i]->Some_0.kind)),
            ) == seq![false],
        n <= nodes.len(),
    ensures
        all_low(compute_upto(nodes, conns, wires, n)),
    decreases n,
{
    if n > 0 {
        lemma_compute_low(nodes, conns, wires, n - 1);
        let prev = compute_upto(nodes, conns, wires, n - 1);
        lemma_compute_upto_frame(nodes, conns, wires, n - 1);
        if nodes[n - 1] is Some {
            let node = nodes[n - 1]->Some_0;
            assert(slot_live(nodes, n - 1));
            assert(node_wf(node, conns, n - 1));
            if input_ready(conns, prev, node) {
                let ins = input_seq(conns, prev, node);
                assert forall|k: int| 0 <= k < ins.len() implies ins[k] == false by {
                    let ids = conns[node.inputs@[k] as int]->Some_0.wires@;
                    lemma_first_live_is_live(prev, ids, 0);
                    let w = first_live(prev, ids)->Some_0;
                    assert(slot_live(prev, w as int));
                    assert(prev[w as int]->Some_0 == low_wire());
                }
                assert(ins =~= all_false(input_arity(node.kind)));
                let vals = eval(node.kind, node.state, ins);
                assert(vals == seq![false]);
                assert forall|k: int| 0 <= k < vals.len() implies vals[k] == false by {
                    assert(vals[0] == false);
                }
                lemma_stage_outputs_low(conns, prev, node, vals, node.outputs@.len() as int);
            }
        }
    }
}

/// After `reset` (which leaves every live wire fully low), one `tick` of
/// a graph whose gates all emit low on all-low inputs — one with no
/// constant-high source, no high toggle, and no inverting gate with a
/// connected input — leaves every wire fully low again.
pub proof fn lemma_quiet_tick_stays_low(
    nodes: Seq<Option<Connected>>,
    conns: Seq<Option<Connection>>,
    wires: Seq<Option<Wire>>,
)
    requires
        graph_wf(nodes, conns, wires),
        all_low(wires),
        forall|i: int|
            #[trigger] slot_live(nodes, i) ==> eval(
                nodes[i]->Some_0.kind,
                nodes[i]->Some_0.state,
                all_false(input_arity(nodes[i]->Some_0.kind)),
            ) == seq![false],
    ensures
        all_low(tick_nets(nodes, conns, wires)),
{
    lemma_compute_low(nodes, conns, wires, nodes.len() as int);
    let computed = compute_nets(nodes, conns, wires);
    let ticked = tick_nets(nodes, conns, wires);
    assert forall|m: int| #[trigger] slot_live(ticked, m) implies ticked[m]->Some_0
        == low_wire() by {
        assert(slot_live(computed, m));
        assert(computed[m]->Some_0 == low_wire());
    }
}

/// An inverter whose output wire is its own only driver and also feeds its
/// own input oscillates: each tick flips the wire's settled value, so the
/// ring alternates low, high, low, high, … tick over tick and never
/// converges.  Cyclic graphs need no special casing: the wire simply
/// settles the inverse of what the inverter read one tick earlier.
pub proof fn lemma_inverter_ring_alternates(
    nodes: Seq<Option<Connected>>,
    conns: Seq<Option<Connection>>,
    wires: Seq<Option<Wire>>,
    i: int,
    o: usize,
)
    requires
        graph_wf(nodes, conns, wires),
        slot_live(nodes, i),
        nodes[i]->Some_0.kind == NodeTy::NotNode,
        slot_live(wires, o as int),
        // the inverter reads its input through wire `o`
        first_live(
            wires,
            conns[nodes[i]->Some_0.inputs@[0] as int]->Some_0.wires@,
        ) == Some(o),
        // and drives wire `o`
        node_drives(conns, nodes[i]->Some_0, o as int),
        // which no other evaluated node drives
        forall|j: int|
            0 <= j < nodes.len() && j != i ==> !writes_wire(nodes, conns, wires, j, o as int),
    ensures
        tick_nets(nodes, conns, wires)[o as int] is Some,
        tick_nets(nodes, conns, wires)[o as int]->Some_0.output_state == !wires[o as int]->Some_0
            .output_state,
        tick_nets(nodes, conns, wires)[o as int]->Some_0.input_state == !wires[o as int]->Some_0
            .output_state,
{
    let node = nodes[i]->Some_0;
    assert(node_wf(node, conns, i));
    assert(node.inputs@.len() == 1);
    assert(input_ready(conns, wires, node)) by {
        assert forall|k: int| 0 <= k < node.inputs@.len() implies first_live(
            wires,
            conns[#[trigger] node.inputs@[k] as int]->Some_0.wires@,
        ) is Some by {
            assert(k == 0);
        }
    }
    let ins = input_seq(conns, wires, node);
    assert(ins[0] == wires[o as int]->Some_0.output_state);
    assert(ins =~= seq![wires[o as int]->Some_0.output_state]);
    assert(eval(node.kind, node.state, ins) == seq![!wires[o as int]->Some_0.output_state]);
    assert(writes_wire(nodes, conns, wires, i, o as int));
    lemma_compute_sole_writer(nodes, conns, wires, nodes.len() as int, i, o as int);
    lemma_compute_upto_frame(nodes, conns, wires, nodes.len() as int);
    let computed = compute_nets(nodes, conns, wires);
    assert(computed.len() == wires.len());
    assert(computed[o as int] is Some);
    assert(tick_nets(nodes, conns, wires)[o as int] == Some(
        crate::sim::commit_wire(computed[o as int]->Some_0),
    ));
}

/// A node with a dangling or unconnected input is skipped for the whole
/// tick: a wire only it would drive keeps its pending value, and the
/// commit simply settles that held value.  Together with the lifecycle
/// contracts this is what makes a half-deleted, swept-or-not graph safe
/// to evaluate: deletion can silence a gate but never corrupts one.
pub proof fn lemma_skipped_node_holds(
    nodes: Seq<Option<Connected>>,
    conns: Seq<Option<Connection>>,
    wires: Seq<Option<Wire>>,
    i: int,
    o: usize,
)
    requires
        graph_wf(nodes, conns, wires),
        slot_live(nodes, i),
        !input_ready(conns, wires, nodes[i]->Some_0),
        slot_live(wires, o as int),
        // no evaluated node other than the skipped one drives `o`
        forall|j: int|
            0 <= j < nodes.len() && j != i ==> !writes_wire(nodes, conns, wires, j, o as int),
    ensures
        tick_nets(nodes, conns, wires)[o as int] is Some,
        tick_nets(nodes, conns, wires)[o as int]->Some_0.input_state == wires[o as int]->Some_0
            .input_state,
        tick_nets(nodes, conns, wires)[o as int]->Some_0.output_state == wires[o as int]->Some_0
            .input_state,
{
    assert forall|j: int| 0 <= j < nodes.len() implies !writes_wire(
        nodes,
        conns,
        wires,
        j,
        o as int,
    ) by {
        if j == i {
            assert(!input_ready(conns, wires, nodes[i]->Some_0));
        }
    }
    lemma_compute_unwritten(nodes, conns, wires, nodes.len() as int, o as int);
    lemma_compute_upto_frame(nodes, conns, wires, nodes.len() as int);
    let computed = compute_nets(nodes, conns, wires);
    assert(computed.len() == wires.len());
    assert(computed[o as int] == wires[o as int]);
    assert(tick_nets(nodes, conns, wires)[o as int] == Some(
        crate::sim::commit_wire(computed[o as int]->Some_0),
    ));
}

/// A manual switch is read only by the compute phase: the wire it alone
/// drives settles the switch's current toggle bit at the next tick, never
/// in between.  `Graph::toggle_switch` itself leaves every wire untouched
/// (that is its contract), so flipping a switch changes nothing until the
/// tick after it.
pub proof fn lemma_switch_read_at_next_tick(
    nodes: Seq<Option<Connected>>,
    conns: Seq<Option<Connection>>,
    wires: Seq<Option<Wire>>,
    i: int,
    o: usize,
)
    requires
        graph_wf(nodes, conns, wires),
        slot_live(nodes, i),
        nodes[i]->Some_0.kind == NodeTy::SwitchNode,
        slot_live(wires, o as int),
        node_drives(conns, nodes[i]->Some_0, o as int),
        forall|j: int|
            0 <= j < nodes.len() && j != i ==> !writes_wire(nodes, conns, wires, j, o as int),
    ensures
        tick_nets(nodes, conns, wires)[o as int] is Some,
        tick_nets(nodes, conns, wires)[o as int]->Some_0.output_state == nodes[i]->Some_0.state,
{
    let node = nodes[i]->Some_0;
    assert(node_wf(node, conns, i));
    assert(node.inputs@.len() == 0);
    assert(input_ready(conns, wires, node));
    assert(eval(node.kind, node.state, input_seq(conns, wires, node)) == seq![node.state]);
    assert(writes_wire(nodes, conns, wires, i, o as int));
    lemma_compute_sole_writer(nodes, conns, wires, nodes.len() as int, i, o as int);
    lemma_compute_upto_frame(nodes, conns, wires, nodes.len() as int);
    let computed = compute_nets(nodes, conns, wires);
    assert(computed.len() == wires.len());
    assert(computed[o as int] is Some);
    assert(tick_nets(nodes, conns, wires)[o as int] == Some(
        crate::sim::commit_wire(computed[o as int]->Some_0),
    ));
}

} // verus!
