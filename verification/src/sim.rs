//! The tick engine: the two-phase evaluation of the whole graph.
//!
//! One tick runs two strict phases.  The compute phase visits every live
//! node once, in arena order: it reads, for each input connection, the
//! settled value of the first live attached wire, and, if every input has
//! one, stages the node's outputs on the pending side of every live wire
//! attached to its output connections.  A node with an unconnected (or
//! dangling) input is skipped and its output wires keep whatever they were
//! last driven to.  The commit phase then settles every wire: the pending
//! value becomes the visible one.  No compute step ever observes a value
//! staged in the same tick, so the result does not depend on the order in
//! which nodes are visited, and feedback cycles take one tick per hop
//! instead of needing cycle detection.
//!
//! The functions `tick_nets`, `compute_nets` and their helpers below are
//! the mathematical model of the engine; `Graph::tick` is proved to
//! produce exactly `tick_nets` of its previous state.

use vstd::prelude::*;

use crate::graph::Connected;
use crate::graph::Connection;
use crate::graph::Graph;
use crate::graph::Wire;
use crate::graph::graph_wf;
use crate::graph::is_live_wire;
use crate::graph::node_wf;
use crate::graph::port_ref_wf;
use crate::graph::slot_live;
use crate::nodes::eval;
use crate::nodes::output_arity;
use crate::resources::Tick;

verus! {

/// The first identifier in `ids[t..]` that names a live wire, if any: the
/// attachment an input connection is consulted through.
pub open spec fn first_live_from(wires: Seq<Option<Wire>>, ids: Seq<usize>, t: int) -> Option<
    usize,
>
    decreases ids.len() - t,
{
    if t < 0 || t >= ids.len() {
        None
    } else if slot_live(wires, ids[t] as int) {
        Some(ids[t])
    } else {
        first_live_from(wires, ids, t + 1)
    }
}

/// The first live attachment of the whole list.
pub open spec fn first_live(wires: Seq<Option<Wire>>, ids: Seq<usize>) -> Option<usize> {
    first_live_from(wires, ids, 0)
}

/// True when every input connection of `node` has at least one live
/// attached wire, so the node is evaluated this tick rather than skipped.
pub open spec fn input_ready(
    conns: Seq<Option<Connection>>,
    wires: Seq<Option<Wire>>,
    node: Connected,
) -> bool {
    forall|k: int|
        0 <= k < node.inputs@.len() ==> first_live(
            wires,
            conns[#[trigger] node.inputs@[k] as int]->Some_0.wires@,
        ) is Some
}

/// The input-bit vector gathered for `node`: for each input connection,
/// the settled value of its first live attached wire.
pub open spec fn input_seq(
    conns: Seq<Option<Connection>>,
    wires: Seq<Option<Wire>>,
    node: Connected,
) -> Seq<bool> {
    Seq::new(
        node.inputs@.len(),
        |k: int|
            {
                let w = first_live(
                    wires,
                    conns[node.inputs@[k] as int]->Some_0.wires@,
                )->Some_0;
                wires[w as int]->Some_0.output_state
            },
    )
}

/// One staged write: `val` becomes the wire's pending value, the settled
/// value is untouched, and the change flag records whether the pending
/// value moved.
pub open spec fn stage(w: Wire, val: bool) -> Wire {
    Wire { input_state: val, output_state: w.output_state, changed_input: w.input_state != val }
}

/// The wire arena after staging `val` on the first `t` attachments of the
/// list `ids`, dead identifiers skipped: the fan-out broadcast of one
/// output connection, cut off after `t` steps.
pub open spec fn stage_list_upto(
    wires: Seq<Option<Wire>>,
    ids: Seq<usize>,
    val: bool,
    t: int,
) -> Seq<Option<Wire>>
    decreases t,
{
    if t <= 0 {
        wires
    } else {
        let prev = stage_list_upto(wires, ids, val, t - 1);
        if 0 <= t - 1 < ids.len() && slot_live(prev, ids[t - 1] as int) {
            prev.update(ids[t - 1] as int, Some(stage(prev[ids[t - 1] as int]->Some_0, val)))
        } else {
            prev
        }
    }
}

/// The fan-out broadcast of one output connection: `val` staged on every
/// live attached wire.
pub open spec fn stage_list(wires: Seq<Option<Wire>>, ids: Seq<usize>, val: bool) -> Seq<
    Option<Wire>,
> {
    stage_list_upto(wires, ids, val, ids.len() as int)
}

/// The wire arena after the first `j` output connections of `node` have
/// broadcast their values from `vals`.
pub open spec fn stage_outputs_upto(
    conns: Seq<Option<Connection>>,
    wires: Seq<Option<Wire>>,
    node: Connected,
    vals: Seq<bool>,
    j: int,
) -> Seq<Option<Wire>>
    decreases j,
{
    if j <= 0 {
        wires
    } else {
        let prev = stage_outputs_upto(conns, wires, node, vals, j - 1);
        if 0 <= j - 1 < node.outputs@.len() && 0 <= j - 1 < vals.len() && slot_live(
            conns,
            node.outputs@[j - 1] as int,
        ) {
            stage_list(prev, conns[node.outputs@[j - 1] as int]->Some_0.wires@, vals[j - 1])
        } else {
            prev
        }
    }
}

/// One node's compute step: skipped entirely when some input has no live
/// wire, otherwise its outputs are broadcast to the wires attached
/// to its output connections.
pub open spec fn apply_node(
    conns: Seq<Option<Connection>>,
    wires: Seq<Option<Wire>>,
    node: Connected,
) -> Seq<Option<Wire>> {
    if input_ready(conns, wires, node) {
        stage_outputs_upto(
            conns,
            wires,
            node,
            eval(node.kind, node.state, input_seq(conns, wires, node)),
            node.outputs@.len() as int,
        )
    } else {
        wires
    }
}

/// The wire arena after the compute steps of the first `n` node slots.
pub open spec fn compute_upto(
    nodes: Seq<Option<Connected>>,
    conns: Seq<Option<Connection>>,
    wires: Seq<Option<Wire>>,
    n: int,
) -> Seq<Option<Wire>>
    decreases n,
{
    if n <= 0 {
        wires
    } else {
        let prev = compute_upto(nodes, conns, wires, n - 1);
        if 0 <= n - 1 < nodes.len() && nodes[n - 1] is Some {
            apply_node(conns, prev, nodes[n - 1]->Some_0)
        } else {
            prev
        }
    }
}

/// The whole compute phase: every live node evaluated once.
pub open spec fn compute_nets(
    nodes: Seq<Option<Connected>>,
    conns: Seq<Option<Connection>>,
    wires: Seq<Option<Wire>>,
) -> Seq<Option<Wire>> {
    compute_upto(nodes, conns, wires, nodes.len() as int)
}

/// One committed wire: the pending value becomes the settled one.
pub open spec fn commit_wire(w: Wire) -> Wire {
    Wire { input_state: w.input_state, output_state: w.input_state, changed_input: w.changed_input }
}

/// The commit phase: every live wire settles its pending value.
pub open spec fn commit_nets(wires: Seq<Option<Wire>>) -> Seq<Option<Wire>> {
    Seq::new(
        wires.len(),
        |m: int|
            match wires[m] {
                Some(w) => Some(commit_wire(w)),
                None => None,
            },
    )
}

/// The wire arena after one full tick: compute, then commit.
pub open spec fn tick_nets(
    nodes: Seq<Option<Connected>>,
    conns: Seq<Option<Connection>>,
    wires: Seq<Option<Wire>>,
) -> Seq<Option<Wire>> {
    commit_nets(compute_nets(nodes, conns, wires))
}

/// True when `m` is one of the wire identifiers in `ids`.
pub open spec fn id_in(ids: Seq<usize>, m: int) -> bool {
    exists|u: int| 0 <= u < ids.len() && #[trigger] ids[u] as int == m
}

/// True when some live output connection of `node` has wire `m` in its
/// attachment list: evaluating the node would stage a value on `m`.
pub open spec fn node_drives(conns: Seq<Option<Connection>>, node: Connected, m: int) -> bool {
    exists|j: int|
        0 <= j < node.outputs@.len() && slot_live(conns, #[trigger] node.outputs@[j] as int)
            && id_in(conns[node.outputs@[j] as int]->Some_0.wires@, m)
}

/// Staging a value on one connection's attachments changes no wire's
/// existence or settled value, touches nothing outside the list, and
/// leaves the staged value pending on every live listed wire.
pub proof fn lemma_stage_list_frame(wires: Seq<Option<Wire>>, ids: Seq<usize>, val: bool, t: int)
    requires
        0 <= t <= ids.len(),
    ensures
        stage_list_upto(wires, ids, val, t).len() == wires.len(),
        forall|m: int|
            slot_live(#[trigger] stage_list_upto(wires, ids, val, t), m) == slot_live(wires, m),
        forall|m: int|
            slot_live(wires, m) ==> #[trigger] stage_list_upto(wires, ids, val, t)[m]->Some_0
                .output_state == wires[m]->Some_0.output_state,
        forall|m: int|
            0 <= m < wires.len() && !id_in(ids.take(t), m) ==> #[trigger] stage_list_upto(
                wires,
                ids,
                val,
                t,
            )[m] == wires[m],
        forall|m: int|
            slot_live(wires, m) && id_in(ids.take(t), m) ==> #[trigger] stage_list_upto(
                wires,
                ids,
                val,
                t,
            )[m]->Some_0.input_state == val,
    decreases t,
{
    if t > 0 {
        lemma_stage_list_frame(wires, ids, val, t - 1);
        let prev = stage_list_upto(wires, ids, val, t - 1);
        let cur = stage_list_upto(wires, ids, val, t);
        assert forall|m: int|
            0 <= m < wires.len() && !id_in(ids.take(t), m) implies cur[m] == wires[m] by {
            assert forall|u: int| 0 <= u < t - 1 implies !(#[trigger] ids.take(t - 1)[u] as int
                == m) by {
                assert(ids.take(t)[u] == ids[u]);
            }
            assert(!id_in(ids.take(t - 1), m));
            assert(ids.take(t)[t - 1] == ids[t - 1]);
            assert(ids[t - 1] as int != m);
        }
        assert forall|m: int|
            slot_live(wires, m) && id_in(ids.take(t), m) implies cur[m]->Some_0.input_state
            == val by {
            if ids[t - 1] as int == m {
                assert(slot_live(prev, m));
                assert(cur[m] == Some(stage(prev[m]->Some_0, val)));
            } else {
                let u = choose|u: int|
                    0 <= u < ids.take(t).len() && #[trigger] ids.take(t)[u] as int == m;
                assert(ids.take(t)[u] == ids[u]);
                assert(ids.take(t)[t - 1] == ids[t - 1]);
                assert(u < t - 1);
                assert(ids.take(t - 1)[u] == ids[u]);
                assert(id_in(ids.take(t - 1), m));
                assert(prev[m]->Some_0.input_state == val);
                assert(cur[m] == prev[m]);
            }
        }
    }
}

/// A node's whole output broadcast changes no wire's existence or settled
/// value, and touches nothing the node does not drive.
pub proof fn lemma_stage_outputs_frame(
    conns: Seq<Option<Connection>>,
    wires: Seq<Option<Wire>>,
    node: Connected,
    vals: Seq<bool>,
    j: int,
)
    requires
        j <= node.outputs@.len(),
    ensures
        stage_outputs_upto(conns, wires, node, vals, j).len() == wires.len(),
        forall|m: int|
            slot_live(#[trigger] stage_outputs_upto(conns, wires, node, vals, j), m) == slot_live(
                wires,
                m,
            ),
        forall|m: int|
            slot_live(wires, m) ==> #[trigger] stage_outputs_upto(
                conns,
                wires,
                node,
                vals,
                j,
            )[m]->Some_0.output_state == wires[m]->Some_0.output_state,
        forall|m: int|
            0 <= m < wires.len() && !node_drives(conns, node, m) ==> #[trigger] stage_outputs_upto(
                conns,
                wires,
                node,
                vals,
                j,
            )[m] == wires[m],
    decreases j,
{
    if j > 0 {
        lemma_stage_outputs_frame(conns, wires, node, vals, j - 1);
        let prev = stage_outputs_upto(conns, wires, node, vals, j - 1);
        let cur = stage_outputs_upto(conns, wires, node, vals, j);
        if 0 <= j - 1 < vals.len() && slot_live(conns, node.outputs@[j - 1] as int) {
            let ids = conns[node.outputs@[j - 1] as int]->Some_0.wires@;
            lemma_stage_list_frame(prev, ids, vals[j - 1], ids.len() as int);
            assert(ids.take(ids.len() as int) =~= ids);
            assert forall|m: int|
                0 <= m < wires.len() && !node_drives(conns, node, m) implies cur[m]
                == wires[m] by {
                assert(!id_in(ids, m));
            }
        }
    }
}

/// One node's compute step changes no wire's existence or settled value,
/// and touches nothing unless the node is evaluated and drives the wire.
pub proof fn lemma_apply_node_frame(
    conns: Seq<Option<Connection>>,
    wires: Seq<Option<Wire>>,
    node: Connected,
)
    ensures
        apply_node(conns, wires, node).len() == wires.len(),
        forall|m: int|
            slot_live(#[trigger] apply_node(conns, wires, node), m) == slot_live(wires, m),
        forall|m: int|
            slot_live(wires, m) ==> #[trigger] apply_node(conns, wires, node)[m]->Some_0
                .output_state == wires[m]->Some_0.output_state,
        forall|m: int|
            0 <= m < wires.len() && !(input_ready(conns, wires, node) && node_drives(
                conns,
                node,
                m,
            )) ==> #[trigger] apply_node(conns, wires, node)[m] == wires[m],
{
    if input_ready(conns, wires, node) {
        lemma_stage_outputs_frame(
            conns,
            wires,
            node,
            eval(node.kind, node.state, input_seq(conns, wires, node)),
            node.outputs@.len() as int,
        );
    }
}

/// The whole compute phase changes no wire's existence or settled value.
pub proof fn lemma_compute_upto_frame(
    nodes: Seq<Option<Connected>>,
    conns: Seq<Option<Connection>>,
    wires: Seq<Option<Wire>>,
    n: int,
)
    ensures
        compute_upto(nodes, conns, wires, n).len() == wires.len(),
        forall|m: int|
            slot_live(#[trigger] compute_upto(nodes, conns, wires, n), m) == slot_live(wires, m),
        forall|m: int|
            slot_live(wires, m) ==> #[trigger] compute_upto(nodes, conns, wires, n)[m]->Some_0
                .output_state == wires[m]->Some_0.output_state,
    decreases n,
{
    if n > 0 {
        lemma_compute_upto_frame(nodes, conns, wires, n - 1);
        if 0 <= n - 1 < nodes.len() && nodes[n - 1] is Some {
            lemma_apply_node_frame(
                conns,
                compute_upto(nodes, conns, wires, n - 1),
                nodes[n - 1]->Some_0,
            );
        }
    }
}

/// Readiness depends only on which wires exist, and the gathered input
/// vector only on their existence and settled values: two wire states
/// that agree on both gather the same inputs for every node.
pub proof fn lemma_input_congruence(
    conns: Seq<Option<Connection>>,
    w1: Seq<Option<Wire>>,
    w2: Seq<Option<Wire>>,
    node: Connected,
)
    requires
        forall|m: int| slot_live(w1, m) == slot_live(w2, m),
        forall|m: int|
            slot_live(w1, m) ==> w1[m]->Some_0.output_state == w2[m]->Some_0.output_state,
    ensures
        input_ready(conns, w1, node) == input_ready(conns, w2, node),
        input_ready(conns, w1, node) ==> input_seq(conns, w1, node) == input_seq(conns, w2, node),
{
    assert forall|ids: Seq<usize>, t: int|
        true implies #[trigger] first_live_from(w1, ids, t) == first_live_from(w2, ids, t) by {
        lemma_first_live_congruence(w1, w2, ids, t);
    }
    if input_ready(conns, w1, node) {
        assert forall|k: int| 0 <= k < node.inputs@.len() implies input_seq(conns, w1, node)[k]
            == input_seq(conns, w2, node)[k] by {
            let ids = conns[node.inputs@[k] as int]->Some_0.wires@;
            assert(first_live(w1, ids) == first_live(w2, ids));
            lemma_first_live_is_live(w1, ids, 0);
        }
        assert(input_seq(conns, w1, node) =~= input_seq(conns, w2, node));
    }
}

/// The first live attachment depends only on which wires exist.
pub proof fn lemma_first_live_congruence(
    w1: Seq<Option<Wire>>,
    w2: Seq<Option<Wire>>,
    ids: Seq<usize>,
    t: int,
)
    requires
        forall|m: int| slot_live(w1, m) == slot_live(w2, m),
    ensures
        first_live_from(w1, ids, t) == first_live_from(w2, ids, t),
    decreases ids.len() - t,
{
    if 0 <= t && t < ids.len() {
        lemma_first_live_congruence(w1, w2, ids, t + 1);
    }
}

/// True when node slot `i` is evaluated this tick (live, with every input
/// connected to a live wire) and staging its outputs touches wire `m`.
pub open spec fn writes_wire(
    nodes: Seq<Option<Connected>>,
    conns: Seq<Option<Connection>>,
    wires: Seq<Option<Wire>>,
    i: int,
    m: int,
) -> bool {
    &&& slot_live(nodes, i)
    &&& input_ready(conns, wires, nodes[i]->Some_0)
    &&& node_drives(conns, nodes[i]->Some_0, m)
}

/// A wire no evaluated node drives comes through the compute phase
/// entirely untouched: a node with a dangling input holds whatever it
/// last drove.
pub proof fn lemma_compute_unwritten(
    nodes: Seq<Option<Connected>>,
    conns: Seq<Option<Connection>>,
    wires: Seq<Option<Wire>>,
    n: int,
    m: int,
)
    requires
        0 <= m < wires.len(),
        forall|i: int| 0 <= i < n ==> !writes_wire(nodes, conns, wires, i, m),
    ensures
        compute_upto(nodes, conns, wires, n)[m] == wires[m],
    decreases n,
{
    if n > 0 {
        lemma_compute_unwritten(nodes, conns, wires, n - 1, m);
        let prev = compute_upto(nodes, conns, wires, n - 1);
        lemma_compute_upto_frame(nodes, conns, wires, n - 1);
        if 0 <= n - 1 < nodes.len() && nodes[n - 1] is Some {
            let node = nodes[n - 1]->Some_0;
            lemma_input_congruence(conns, prev, wires, node);
            lemma_apply_node_frame(conns, prev, node);
            assert(!writes_wire(nodes, conns, wires, n - 1, m));
            assert(!(input_ready(conns, prev, node) && node_drives(conns, node, m)));
        }
    }
}

/// When exactly one evaluated node drives a live wire, the compute phase
/// leaves that node's output value pending on it, computed from the
/// settled values the tick began with.
pub proof fn lemma_compute_sole_writer(
    nodes: Seq<Option<Connected>>,
    conns: Seq<Option<Connection>>,
    wires: Seq<Option<Wire>>,
    n: int,
    i: int,
    m: int,
)
    requires
        graph_wf(nodes, conns, wires),
        0 <= m < wires.len(),
        slot_live(wires, m),
        0 <= i < n <= nodes.len(),
        writes_wire(nodes, conns, wires, i, m),
        forall|j: int|
            0 <= j < nodes.len() && j != i ==> !writes_wire(nodes, conns, wires, j, m),
    ensures
        ({
            let node = nodes[i]->Some_0;
            let out = eval(node.kind, node.state, input_seq(conns, wires, node))[0];
            &&& compute_upto(nodes, conns, wires, n)[m] is Some
            &&& compute_upto(nodes, conns, wires, n)[m]->Some_0.input_state == out
        }),
    decreases n,
{
    let node = nodes[i]->Some_0;
    let out = eval(node.kind, node.state, input_seq(conns, wires, node))[0];
    let prev = compute_upto(nodes, conns, wires, n - 1);
    lemma_compute_upto_frame(nodes, conns, wires, n - 1);
    if n - 1 == i {
        lemma_compute_unwritten(nodes, conns, wires, n - 1, m);
        lemma_input_congruence(conns, prev, wires, node);
        assert(input_ready(conns, prev, node));
        let vals = eval(node.kind, node.state, input_seq(conns, prev, node));
        assert(vals == eval(node.kind, node.state, input_seq(conns, wires, node)));
        assert(node_wf(node, conns, i));
        assert(node.outputs@.len() == 1);
        assert(vals.len() == 1);
        // the driving connection can only be output 0
        let jd = choose|jd: int|
            0 <= jd < node.outputs@.len() && slot_live(conns, #[trigger] node.outputs@[jd] as int)
                && id_in(conns[node.outputs@[jd] as int]->Some_0.wires@, m);
        assert(jd == 0);
        let pid = node.outputs@[0] as int;
        let ids = conns[pid]->Some_0.wires@;
        let staged = stage_outputs_upto(conns, prev, node, vals, 1);
        assert(stage_outputs_upto(conns, prev, node, vals, 0) == prev);
        assert(staged == stage_list(prev, ids, vals[0]));
        lemma_stage_list_frame(prev, ids, vals[0], ids.len() as int);
        assert(ids.take(ids.len() as int) =~= ids);
        assert(slot_live(prev, m));
        assert(staged[m]->Some_0.input_state == vals[0]);
        assert(compute_upto(nodes, conns, wires, n) == apply_node(conns, prev, node));
        assert(apply_node(conns, prev, node) == staged);
    } else {
        lemma_compute_sole_writer(nodes, conns, wires, n - 1, i, m);
        if 0 <= n - 1 < nodes.len() && nodes[n - 1] is Some {
            let other = nodes[n - 1]->Some_0;
            lemma_input_congruence(conns, prev, wires, other);
            lemma_apply_node_frame(conns, prev, other);
            assert(!writes_wire(nodes, conns, wires, n - 1, m));
            assert(!(input_ready(conns, prev, other) && node_drives(conns, other, m)));
        }
    }
}

/// If no identifier before position `t` names a live wire, the search for
/// the first live attachment may as well start at `t`.
proof fn lemma_first_live_skip(wires: Seq<Option<Wire>>, ids: Seq<usize>, t: int)
    requires
        0 <= t <= ids.len(),
        forall|u: int| 0 <= u < t ==> !slot_live(wires, #[trigger] ids[u] as int),
    ensures
        first_live(wires, ids) == first_live_from(wires, ids, t),
    decreases t,
{
    if t > 0 {
        lemma_first_live_skip(wires, ids, t - 1);
    }
}

/// A found first live attachment is indeed a live wire slot.
pub proof fn lemma_first_live_is_live(wires: Seq<Option<Wire>>, ids: Seq<usize>, t: int)
    ensures
        first_live_from(wires, ids, t) is Some ==> slot_live(
            wires,
            first_live_from(wires, ids, t)->Some_0 as int,
        ),
    decreases ids.len() - t,
{
    if t >= 0 && t < ids.len() && !slot_live(wires, ids[t] as int) {
        lemma_first_live_is_live(wires, ids, t + 1);
    }
}

/// The first live attachment of an input connection's list, as executable
/// code.
fn find_first_live(wires: &Vec<Option<Wire>>, ids: &Vec<usize>) -> (r: Option<usize>)
    ensures
        r == first_live(wires@, ids@),
{
    let mut t: usize = 0;
    while t < ids.len()
        invariant
            t <= ids@.len(),
            forall|u: int| 0 <= u < t ==> !slot_live(wires@, #[trigger] ids@[u] as int),
        decreases ids@.len() - t,
    {
        if is_live_wire(wires, ids[t]) {
            proof {
                lemma_first_live_skip(wires@, ids@, t as int);
            }
            return Some(ids[t]);
        }
        t += 1;
    }
    proof {
        lemma_first_live_skip(wires@, ids@, ids@.len() as int);
    }
    None
}

/// Gathers the input-bit vector of `node`, or `None` when some input
/// connection has no live attached wire and the node is skipped.
fn gather_inputs(
    conns: &Vec<Option<Connection>>,
    wires: &Vec<Option<Wire>>,
    node: &Connected,
) -> (r: Option<Vec<bool>>)
    requires
        forall|k: int|
            0 <= k < node.inputs@.len() ==> slot_live(conns@, #[trigger] node.inputs@[k] as int),
    ensures
        (r is Some) == input_ready(conns@, wires@, *node),
        r is Some ==> r->Some_0@ == input_seq(conns@, wires@, *node),
{
    let mut vals: Vec<bool> = Vec::new();
    let mut k: usize = 0;
    while k < node.inputs.len()
        invariant
            k <= node.inputs@.len(),
            vals@.len() == k,
            forall|j: int|
                0 <= j < node.inputs@.len() ==> slot_live(
                    conns@,
                    #[trigger] node.inputs@[j] as int,
                ),
            forall|j: int|
                0 <= j < k ==> first_live(
                    wires@,
                    conns@[#[trigger] node.inputs@[j] as int]->Some_0.wires@,
                ) is Some,
            forall|j: int| 0 <= j < k ==> vals@[j] == input_seq(conns@, wires@, *node)[j],
        decreases node.inputs@.len() - k,
    {
        let pid = node.inputs[k];
        let found = match &conns[pid] {
            Some(c) => find_first_live(wires, &c.wires),
            None => {
                assert(false);
                None
            },
        };
        match found {
            Some(w) => {
                proof {
                    lemma_first_live_is_live(
                        wires@,
                        conns@[pid as int]->Some_0.wires@,
                        0,
                    );
                }
                let b = match &wires[w] {
                    Some(wr) => wr.output_state,
                    None => {
                        assert(false);
                        false
                    },
                };
                vals.push(b);
            },
            None => {
                return None;
            },
        }
        k += 1;
    }
    proof {
        assert(vals@ =~= input_seq(conns@, wires@, *node));
    }
    Some(vals)
}

/// Broadcasts `val` to the pending side of every live wire in the
/// attachment list `ids`.
fn stage_value(wires: &mut Vec<Option<Wire>>, ids: &Vec<usize>, val: bool)
    ensures
        final(wires)@ == stage_list(old(wires)@, ids@, val),
        final(wires)@.len() == old(wires)@.len(),
{
    let mut t: usize = 0;
    while t < ids.len()
        invariant
            t <= ids@.len(),
            wires@.len() == old(wires)@.len(),
            wires@ == stage_list_upto(old(wires)@, ids@, val, t as int),
        decreases ids@.len() - t,
    {
        let id = ids[t];
        if is_live_wire(wires, id) {
            let w = match &wires[id] {
                Some(w) => *w,
                None => {
                    assert(false);
                    Wire { input_state: false, output_state: false, changed_input: false }
                },
            };
            wires.set(
                id,
                Some(
                    Wire {
                        input_state: val,
                        output_state: w.output_state,
                        changed_input: w.input_state != val,
                    },
                ),
            );
        }
        t += 1;
    }
}

/// Runs the compute phase: every live node's compute step, in arena
/// order.
fn compute_phase(
    nodes: &Vec<Option<Connected>>,
    conns: &Vec<Option<Connection>>,
    wires: &mut Vec<Option<Wire>>,
)
    requires
        graph_wf(nodes@, conns@, old(wires)@),
    ensures
        final(wires)@ == compute_nets(nodes@, conns@, old(wires)@),
        final(wires)@.len() == old(wires)@.len(),
{
    let ghost wires0 = wires@;
    let mut i: usize = 0;
    while i < nodes.len()
        invariant
            i <= nodes@.len(),
            graph_wf(nodes@, conns@, wires0),
            wires@.len() == wires0.len(),
            wires@ == compute_upto(nodes@, conns@, wires0, i as int),
        decreases nodes@.len() - i,
    {
        let ghost wires_pre = wires@;
        match &nodes[i] {
            Some(node) => {
                proof {
                    assert(slot_live(nodes@, i as int));
                    assert(node_wf(*node, conns@, i as int));
                    assert forall|k: int| 0 <= k < node.inputs@.len() implies slot_live(
                        conns@,
                        #[trigger] node.inputs@[k] as int,
                    ) by {
                        assert(port_ref_wf(
                            conns@,
                            node.inputs@[k],
                            crate::graph::ConnectionTy::Input,
                            k,
                            i as int,
                        ));
                    }
                    assert forall|k: int| 0 <= k < node.outputs@.len() implies slot_live(
                        conns@,
                        #[trigger] node.outputs@[k] as int,
                    ) by {
                        assert(port_ref_wf(
                            conns@,
                            node.outputs@[k],
                            crate::graph::ConnectionTy::Output,
                            k,
                            i as int,
                        ));
                    }
                }
                let vals_opt = gather_inputs(conns, wires, node);
                match vals_opt {
                    Some(vals) => {
                        let outs = node.calculate_state(&vals);
                        proof {
                            assert(outs@.len() == output_arity(node.kind));
                            assert(node.outputs@.len() == output_arity(node.kind));
                        }
                        let mut j: usize = 0;
                        while j < node.outputs.len()
                            invariant
                                j <= node.outputs@.len(),
                                outs@.len() == node.outputs@.len(),
                                outs@ == eval(
                                    node.kind,
                                    node.state,
                                    input_seq(conns@, wires_pre, *node),
                                ),
                                forall|k: int|
                                    0 <= k < node.outputs@.len() ==> slot_live(
                                        conns@,
                                        #[trigger] node.outputs@[k] as int,
                                    ),
                                wires@.len() == wires_pre.len(),
                                wires@ == stage_outputs_upto(
                                    conns@,
                                    wires_pre,
                                    *node,
                                    outs@,
                                    j as int,
                                ),
                            decreases node.outputs@.len() - j,
                        {
                            let pid = node.outputs[j];
                            match &conns[pid] {
                                Some(c) => {
                                    stage_value(wires, &c.wires, outs[j]);
                                },
                                None => {
                                    assert(false);
                                },
                            }
                            j += 1;
                        }
                        proof {
                            assert(input_ready(conns@, wires_pre, *node));
                            assert(wires@ == apply_node(conns@, wires_pre, *node));
                        }
                    },
                    None => {
                        proof {
                            assert(!input_ready(conns@, wires_pre, *node));
                            assert(wires@ == apply_node(conns@, wires_pre, *node));
                        }
                    },
                }
            },
            None => {},
        }
        i += 1;
    }
}

/// Runs the commit phase: every live wire settles its pending value.
fn commit_phase(wires: &mut Vec<Option<Wire>>)
    ensures
        final(wires)@ == commit_nets(old(wires)@),
        final(wires)@.len() == old(wires)@.len(),
{
    let n = wires.len();
    let mut m: usize = 0;
    while m < n
        invariant
            m <= n,
            n == old(wires)@.len(),
            wires@.len() == n,
            forall|j: int| 0 <= j < m ==> wires@[j] == commit_nets(old(wires)@)[j],
            forall|j: int| m <= j < n ==> wires@[j] == old(wires)@[j],
        decreases n - m,
    {
        match &wires[m] {
            Some(w) => {
                let committed = Wire {
                    input_state: w.input_state,
                    output_state: w.input_state,
                    changed_input: w.changed_input,
                };
                wires.set(m, Some(committed));
            },
            None => {},
        }
        m += 1;
    }
    proof {
        assert(wires@ =~= commit_nets(old(wires)@));
    }
}

impl Graph {
    /// Advances the simulation by one tick: the compute phase over every
    /// node, the commit phase over every wire, and the tick counter by
    /// one.  The graph's structure (nodes and connections) is untouched.
    pub fn tick(&mut self)
        requires
            old(self).wf(),
            old(self).tick.0 < usize::MAX,
        ensures
            final(self).wf(),
            final(self).nodes@ == old(self).nodes@,
            final(self).connections@ == old(self).connections@,
            final(self).wires@ == tick_nets(
                old(self).nodes@,
                old(self).connections@,
                old(self).wires@,
            ),
            final(self).tick.0 == old(self).tick.0 + 1,
    {
        compute_phase(&self.nodes, &self.connections, &mut self.wires);
        commit_phase(&mut self.wires);
        self.tick.incr();
        proof {
            assert forall|p: int| #[trigger] slot_live(self.connections@, p) implies crate::graph::conn_wf(
                self.connections@[p]->Some_0,
                self.wires@.len() as int,
            ) by {
                assert(slot_live(old(self).connections@, p));
            }
        }
    }

    /// Forces every wire fully low — settled, pending and change flag —
    /// and the tick counter back to zero.  The graph's topology and the
    /// toggle state of every switch are untouched.
    pub fn reset(&mut self)
        requires
            old(self).wf(),
        ensures
            final(self).wf(),
            final(self).nodes@ == old(self).nodes@,
            final(self).connections@ == old(self).connections@,
            final(self).tick.0 == 0,
            final(self).wires@.len() == old(self).wires@.len(),
            forall|m: int|
                0 <= m < old(self).wires@.len() ==> final(self).wires@[m] == (if slot_live(
                    old(self).wires@,
                    m,
                ) {
                    Some(Wire { input_state: false, output_state: false, changed_input: false })
                } else {
                    None::<Wire>
                }),
    {
        let n = self.wires.len();
        let mut m: usize = 0;
        while m < n
            invariant
                m <= n,
                n == old(self).wires@.len(),
                self.nodes@ == old(self).nodes@,
                self.connections@ == old(self).connections@,
                self.tick == old(self).tick,
                self.wires@.len() == n,
                forall|j: int|
                    0 <= j < m ==> self.wires@[j] == (if slot_live(old(self).wires@, j) {
                        Some(
                            Wire { input_state: false, output_state: false, changed_input: false },
                        )
                    } else {
                        None::<Wire>
                    }),
                forall|j: int| m <= j < n ==> self.wires@[j] == old(self).wires@[j],
            decreases n - m,
        {
            let live = match &self.wires[m] {
                Some(_) => true,
                None => false,
            };
            if live {
                self.wires.set(
                    m,
                    Some(Wire { input_state: false, output_state: false, changed_input: false }),
                );
            }
            m += 1;
        }
        self.tick = Tick(0);
        proof {
            assert forall|p: int| #[trigger] slot_live(self.connections@, p) implies crate::graph::conn_wf(
                self.connections@[p]->Some_0,
                self.wires@.len() as int,
            ) by {
                assert(slot_live(old(self).connections@, p));
            }
        }
    }
}

} // verus!
