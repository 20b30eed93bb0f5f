//! The circuit graph: gate nodes, their connections (ports), and the wires
//! (nets) that join them, all held in append-only arenas.
//!
//! Nodes, connections and wires live in `Vec<Option<..>>` arenas indexed by
//! plain `usize` identifiers.  Deleting an entity clears its slot to `None`
//! and identifiers are never reused, so a reference to a deleted entity can
//! always be recognised as dangling and is a transient state, not an error:
//! `sweep_dangling` prunes such references, and the tick engine skips any
//! node whose input has no live wire.

use vstd::prelude::*;

use crate::nodes::NodeTy;
use crate::nodes::eval;
use crate::nodes::input_arity;
use crate::nodes::input_count;
use crate::nodes::output_arity;
use crate::nodes::output_count;
use crate::resources::Tick;

verus! {

/// The direction of a connection: whether its node consumes or produces
/// the signal on the wires attached to it.
#[derive(Clone, Copy, Debug, PartialEq, Eq, Structural)]
pub enum ConnectionTy {
    Input,
    Output,
}

/// A wire (net): a two-valued signal joining one producing connection to
/// any number of consuming connections.
///
/// `output_state` is the settled value, the one consumers see during the
/// current tick.  `input_state` is the pending value, staged by producers
/// during the compute phase and made visible by the next commit.
/// `changed_input` records whether the last compute phase staged a value
/// different from the one already pending; only transition animation in
/// the renderer reads it.
#[derive(Clone, Copy, Debug, PartialEq, Eq, Structural)]
pub struct Wire {
    pub input_state: bool,
    pub output_state: bool,
    pub changed_input: bool,
}

/// A connection (port): a directed pin owned by exactly one node, with a
/// zero-based index among the pins of that direction, and the identifiers
/// of the wires attached to it.  An empty attachment list means the pin is
/// unconnected; a stale identifier (a deleted wire) is tolerated until the
/// next sweep.
#[derive(Debug)]
pub struct Connection {
    pub wires: Vec<usize>,
    pub ty: ConnectionTy,
    pub index: usize,
    pub owner: usize,
}

/// A gate node: a kind tag from the closed catalog, the kind-local toggle
/// bit (read only by `SwitchNode`), and the identifiers of the connections
/// it owns, `input_arity(kind)` inputs and `output_arity(kind)` outputs.
#[derive(Debug)]
pub struct Connected {
    pub kind: NodeTy,
    pub state: bool,
    pub inputs: Vec<usize>,
    pub outputs: Vec<usize>,
}

impl Connected {
    /// The node's boolean function applied to a gathered input vector.
    pub fn calculate_state(&self, inputs: &Vec<bool>) -> (r: Vec<bool>)
        requires
            inputs@.len() == input_arity(self.kind),
        ensures
            r@ == eval(self.kind, self.state, inputs@),
    {
        let r = match self.kind {
            NodeTy::Wire => vec![inputs[0]],
            NodeTy::OnNode => vec![true],
            NodeTy::OffNode => vec![false],
            NodeTy::NotNode => vec![!inputs[0]],
            NodeTy::AndNode => vec![inputs[0] && inputs[1]],
            NodeTy::OrNode => vec![inputs[0] || inputs[1]],
            NodeTy::NandNode => vec![!(inputs[0] && inputs[1])],
            NodeTy::NorNode => vec![!(inputs[0] || inputs[1])],
            NodeTy::XorNode => vec![inputs[0] != inputs[1]],
            NodeTy::XnorNode => vec![inputs[0] == inputs[1]],
            NodeTy::SwitchNode => vec![self.state],
        };
        proof {
            assert(r@ =~= eval(self.kind, self.state, inputs@));
        }
        r
    }
}

/// An identifier of a directly deletable entity.  Connections are owned by
/// their node and die only with it.
#[derive(Clone, Copy, Debug, PartialEq, Eq, Structural)]
pub enum EntityId {
    Node(usize),
    Wire(usize),
}

/// True when slot `i` of an arena holds a live entity.
pub open spec fn slot_live<T>(s: Seq<Option<T>>, i: int) -> bool {
    0 <= i < s.len() && s[i] is Some
}

/// True when connection identifier `pid` refers to a live connection with
/// the given direction, index and owning node.
pub open spec fn port_ref_wf(
    conns: Seq<Option<Connection>>,
    pid: usize,
    ty: ConnectionTy,
    index: int,
    owner: int,
) -> bool {
    &&& slot_live(conns, pid as int)
    &&& conns[pid as int]->Some_0.ty == ty
    &&& conns[pid as int]->Some_0.index == index
    &&& conns[pid as int]->Some_0.owner == owner
}

/// Well-formedness of one live node, identified by `i`, against the
/// connection arena: it owns `input_arity` inputs and `output_arity`
/// outputs, and each identifier refers to a live connection of the right
/// direction, index and owner.
pub open spec fn node_wf(
    node: Connected,
    conns: Seq<Option<Connection>>,
    i: int,
) -> bool {
    &&& node.inputs@.len() == input_arity(node.kind)
    &&& node.outputs@.len() == output_arity(node.kind)
    &&& forall|k: int|
        0 <= k < node.inputs@.len() ==> port_ref_wf(
            conns,
            #[trigger] node.inputs@[k],
            ConnectionTy::Input,
            k,
            i,
        )
    &&& forall|k: int|
        0 <= k < node.outputs@.len() ==> port_ref_wf(
            conns,
            #[trigger] node.outputs@[k],
            ConnectionTy::Output,
            k,
            i,
        )
}

/// Well-formedness of one connection: every attached wire identifier is in
/// range of the wire arena (live or dangling).
pub open spec fn conn_wf(conn: Connection, n_wires: int) -> bool {
    forall|t: int| 0 <= t < conn.wires@.len() ==> (conn.wires@[t] as int) < n_wires
}

/// Well-formedness of the whole graph structure.
pub open spec fn graph_wf(
    nodes: Seq<Option<Connected>>,
    conns: Seq<Option<Connection>>,
    wires: Seq<Option<Wire>>,
) -> bool {
    &&& forall|i: int|
        #[trigger] slot_live(nodes, i) ==> node_wf(nodes[i]->Some_0, conns, i)
    &&& forall|p: int|
        #[trigger] slot_live(conns, p) ==> conn_wf(conns[p]->Some_0, wires.len() as int)
}

/// The attachment list `ids` with every identifier of a dead or
/// out-of-range wire slot removed, keeping order: the live attachments of
/// a connection.
pub open spec fn live_wires(wires: Seq<Option<Wire>>, ids: Seq<usize>) -> Seq<usize>
    decreases ids.len(),
{
    if ids.len() == 0 {
        Seq::empty()
    } else {
        let rest = live_wires(wires, ids.drop_last());
        if slot_live(wires, ids.last() as int) {
            rest.push(ids.last())
        } else {
            rest
        }
    }
}

/// The attachment list `ids` with every occurrence of `w` removed,
/// keeping order.
pub open spec fn without_wire(ids: Seq<usize>, w: usize) -> Seq<usize>
    decreases ids.len(),
{
    if ids.len() == 0 {
        Seq::empty()
    } else {
        let rest = without_wire(ids.drop_last(), w);
        if ids.last() == w {
            rest
        } else {
            rest.push(ids.last())
        }
    }
}

/// Every entry of `live_wires(wires, ids)` is an entry of `ids` and is a
/// live wire slot.
proof fn lemma_live_wires_entries(wires: Seq<Option<Wire>>, ids: Seq<usize>)
    ensures
        forall|j: int|
            0 <= j < live_wires(wires, ids).len() ==> {
                let w = #[trigger] live_wires(wires, ids)[j];
                ids.contains(w) && slot_live(wires, w as int)
            },
    decreases ids.len(),
{
    if ids.len() > 0 {
        lemma_live_wires_entries(wires, ids.drop_last());
        let s = live_wires(wires, ids);
        let rest = live_wires(wires, ids.drop_last());
        assert forall|j: int| 0 <= j < s.len() implies (ids.contains(s[j]) && slot_live(
            wires,
            s[j] as int,
        )) by {
            if j < rest.len() {
                assert(ids.drop_last().contains(rest[j]) && slot_live(wires, rest[j] as int));
                let t = choose|t: int|
                    0 <= t < ids.drop_last().len() && ids.drop_last()[t] == rest[j];
                assert(ids[t] == rest[j]);
            } else {
                assert(s[j] == ids.last());
                assert(ids[ids.len() - 1] == ids.last());
            }
        }
    }
}

/// Every entry of `without_wire(ids, w)` is an entry of `ids`, and none
/// of them is `w`.
proof fn lemma_without_wire_entries(ids: Seq<usize>, w: usize)
    ensures
        forall|j: int|
            0 <= j < without_wire(ids, w).len() ==> {
                let x = #[trigger] without_wire(ids, w)[j];
                ids.contains(x) && x != w
            },
    decreases ids.len(),
{
    if ids.len() > 0 {
        lemma_without_wire_entries(ids.drop_last(), w);
        let s = without_wire(ids, w);
        let rest = without_wire(ids.drop_last(), w);
        assert forall|j: int| 0 <= j < s.len() implies (ids.contains(s[j]) && s[j] != w) by {
            if j < rest.len() {
                assert(ids.drop_last().contains(rest[j]) && rest[j] != w);
                let t = choose|t: int|
                    0 <= t < ids.drop_last().len() && ids.drop_last()[t] == rest[j];
                assert(ids[t] == rest[j]);
            } else {
                assert(s[j] == ids.last());
                assert(ids[ids.len() - 1] == ids.last());
            }
        }
    }
}

/// True when `a` is `b` with its attachment list replaced by `ws`: the
/// direction, index and owner are untouched.
pub open spec fn same_conn_but_wires(a: Connection, b: Connection, ws: Seq<usize>) -> bool {
    &&& a.wires@ == ws
    &&& a.ty == b.ty
    &&& a.index == b.index
    &&& a.owner == b.owner
}

/// True when the connection arena `new` is `prev` with only connection
/// `p`'s attachment list replaced by `ws`.
pub open spec fn conns_updated_wires(
    new: Seq<Option<Connection>>,
    prev: Seq<Option<Connection>>,
    p: int,
    ws: Seq<usize>,
) -> bool {
    &&& new.len() == prev.len()
    &&& forall|q: int| 0 <= q < prev.len() && q != p ==> new[q] == prev[q]
    &&& new[p] is Some
    &&& same_conn_but_wires(new[p]->Some_0, prev[p]->Some_0, ws)
}

/// Graph well-formedness survives any change that keeps the node arena,
/// the liveness, direction, index and owner of every connection, and the
/// range-validity of every attachment list.
proof fn lemma_wf_same_structure(
    nodes: Seq<Option<Connected>>,
    conns1: Seq<Option<Connection>>,
    conns2: Seq<Option<Connection>>,
    wires1: Seq<Option<Wire>>,
    wires2: Seq<Option<Wire>>,
)
    requires
        graph_wf(nodes, conns1, wires1),
        conns2.len() == conns1.len(),
        forall|p: int| #[trigger] slot_live(conns2, p) <==> slot_live(conns1, p),
        forall|p: int|
            #[trigger] slot_live(conns1, p) ==> {
                &&& conns2[p]->Some_0.ty == conns1[p]->Some_0.ty
                &&& conns2[p]->Some_0.index == conns1[p]->Some_0.index
                &&& conns2[p]->Some_0.owner == conns1[p]->Some_0.owner
            },
        forall|p: int|
            #[trigger] slot_live(conns2, p) ==> conn_wf(conns2[p]->Some_0, wires2.len() as int),
    ensures
        graph_wf(nodes, conns2, wires2),
{
    assert forall|i: int| #[trigger] slot_live(nodes, i) implies node_wf(
        nodes[i]->Some_0,
        conns2,
        i,
    ) by {
        let n = nodes[i]->Some_0;
        assert(node_wf(n, conns1, i));
        assert forall|k: int| 0 <= k < n.inputs@.len() implies port_ref_wf(
            conns2,
            #[trigger] n.inputs@[k],
            ConnectionTy::Input,
            k,
            i,
        ) by {
            assert(port_ref_wf(conns1, n.inputs@[k], ConnectionTy::Input, k, i));
            assert(slot_live(conns1, n.inputs@[k] as int));
            assert(slot_live(conns2, n.inputs@[k] as int));
        }
        assert forall|k: int| 0 <= k < n.outputs@.len() implies port_ref_wf(
            conns2,
            #[trigger] n.outputs@[k],
            ConnectionTy::Output,
            k,
            i,
        ) by {
            assert(port_ref_wf(conns1, n.outputs@[k], ConnectionTy::Output, k, i));
            assert(slot_live(conns1, n.outputs@[k] as int));
            assert(slot_live(conns2, n.outputs@[k] as int));
        }
    }
}

/// The set of all nodes, connections and wires, plus the global tick
/// counter.
///
/// The arenas are public so the embedding editor and renderer can read
/// freely; every contract assumes and preserves `wf`, so mutation should
/// go through the lifecycle operations, which keep it.
#[derive(Debug)]
pub struct Graph {
    pub nodes: Vec<Option<Connected>>,
    pub connections: Vec<Option<Connection>>,
    pub wires: Vec<Option<Wire>>,
    pub tick: Tick,
}

impl Graph {
    /// The structural invariant: every mutating operation of the graph
    /// preserves it, and every operation requires it.
    pub open spec fn wf(&self) -> bool {
        graph_wf(self.nodes@, self.connections@, self.wires@)
    }

    /// An empty graph with the tick counter at zero.
    pub fn new() -> (g: Graph)
        ensures
            g.nodes@.len() == 0,
            g.connections@.len() == 0,
            g.wires@.len() == 0,
            g.tick.0 == 0,
            g.wf(),
    {
        Graph { nodes: Vec::new(), connections: Vec::new(), wires: Vec::new(), tick: Tick(0) }
    }
}

/// Appends `count` fresh unconnected connections of direction `ty` owned
/// by node `owner` to the arena and returns their identifiers, which are
/// consecutive and start at the old arena length.
fn push_ports(conns: &mut Vec<Option<Connection>>, count: usize, ty: ConnectionTy, owner: usize) -> (ids: Vec<
    usize,
>)
    ensures
        ids@.len() == count,
        final(conns)@.len() == old(conns)@.len() + count,
        forall|p: int| 0 <= p < old(conns)@.len() ==> final(conns)@[p] == old(conns)@[p],
        forall|k: int| 0 <= k < count ==> #[trigger] ids@[k] as int == old(conns)@.len() + k,
        forall|k: int|
            0 <= k < count ==> {
                let c = #[trigger] final(conns)@[old(conns)@.len() + k];
                &&& c is Some
                &&& c->Some_0.wires@ == Seq::<usize>::empty()
                &&& c->Some_0.ty == ty
                &&& c->Some_0.index == k
                &&& c->Some_0.owner == owner
            },
{
    let mut ids: Vec<usize> = Vec::new();
    let mut k: usize = 0;
    while k < count
        invariant
            k <= count,
            ids@.len() == k,
            conns@.len() == old(conns)@.len() + k,
            forall|p: int| 0 <= p < old(conns)@.len() ==> conns@[p] == old(conns)@[p],
            forall|j: int| 0 <= j < k ==> #[trigger] ids@[j] as int == old(conns)@.len() + j,
            forall|j: int|
                0 <= j < k ==> {
                    let c = #[trigger] conns@[old(conns)@.len() + j];
                    &&& c is Some
                    &&& c->Some_0.wires@ == Seq::<usize>::empty()
                    &&& c->Some_0.ty == ty
                    &&& c->Some_0.index == j
                    &&& c->Some_0.owner == owner
                },
        decreases count - k,
    {
        let pid = conns.len();
        conns.push(Some(Connection { wires: Vec::new(), ty, index: k, owner }));
        ids.push(pid);
        k += 1;
    }
    ids
}

impl Graph {
    /// Allocates a node of the given kind together with its full
    /// fixed-arity set of fresh, unconnected connections, and returns the
    /// node's identifier.  No wires are attached.
    pub fn create_node(&mut self, kind: NodeTy) -> (id: usize)
        requires
            old(self).wf(),
        ensures
            final(self).wf(),
            id == old(self).nodes@.len(),
            final(self).wires@ == old(self).wires@,
            final(self).tick == old(self).tick,
            final(self).nodes@.len() == old(self).nodes@.len() + 1,
            forall|j: int| 0 <= j < old(self).nodes@.len() ==> final(self).nodes@[j] == old(self).nodes@[j],
            final(self).nodes@[id as int] is Some,
            ({
                let n = final(self).nodes@[id as int]->Some_0;
                &&& n.kind == kind
                &&& n.state == false
                &&& n.inputs@.len() == input_arity(kind)
                &&& n.outputs@.len() == output_arity(kind)
                &&& forall|k: int|
                    0 <= k < input_arity(kind) ==> #[trigger] n.inputs@[k] as int == old(
                        self,
                    ).connections@.len() + k
                &&& forall|k: int|
                    0 <= k < output_arity(kind) ==> #[trigger] n.outputs@[k] as int == old(
                        self,
                    ).connections@.len() + input_arity(kind) + k
            }),
            final(self).connections@.len() == old(self).connections@.len() + input_arity(kind)
                + output_arity(kind),
            forall|p: int|
                0 <= p < old(self).connections@.len() ==> final(self).connections@[p] == old(
                    self,
                ).connections@[p],
            forall|p: int|
                old(self).connections@.len() <= p < final(self).connections@.len() ==> {
                    let c = #[trigger] final(self).connections@[p];
                    &&& c is Some
                    &&& c->Some_0.wires@ == Seq::<usize>::empty()
                    &&& c->Some_0.owner == id
                    &&& (if p - old(self).connections@.len() < input_arity(kind) {
                        c->Some_0.ty == ConnectionTy::Input && c->Some_0.index == p - old(
                            self,
                        ).connections@.len()
                    } else {
                        c->Some_0.ty == ConnectionTy::Output && c->Some_0.index == p - old(
                            self,
                        ).connections@.len() - input_arity(kind)
                    })
                },
    {
        let id = self.nodes.len();
        let n_in = input_count(kind);
        let n_out = output_count(kind);
        let ghost conns0 = self.connections@;
        let inputs = push_ports(&mut self.connections, n_in, ConnectionTy::Input, id);
        let ghost conns_mid = self.connections@;
        let outputs = push_ports(&mut self.connections, n_out, ConnectionTy::Output, id);
        self.nodes.push(Some(Connected { kind, state: false, inputs, outputs }));
        proof {
            let base = conns0.len() as int;
            assert forall|p: int| base <= p < self.connections@.len() implies {
                let c = #[trigger] self.connections@[p];
                &&& c is Some
                &&& c->Some_0.wires@ == Seq::<usize>::empty()
                &&& c->Some_0.owner == id
                &&& (if p - base < input_arity(kind) {
                    c->Some_0.ty == ConnectionTy::Input && c->Some_0.index == p - base
                } else {
                    c->Some_0.ty == ConnectionTy::Output && c->Some_0.index == p - base
                        - input_arity(kind)
                })
            } by {
                if p - base < input_arity(kind) {
                    assert(conns_mid[base + (p - base)] is Some);
                    assert(self.connections@[p] == conns_mid[p]);
                } else {
                    let k = p - base - input_arity(kind);
                    assert(self.connections@[conns_mid.len() + k] is Some);
                }
            }
            let nodes1 = self.nodes@;
            let conns1 = self.connections@;
            let wires1 = self.wires@;
            assert forall|i: int| #[trigger] slot_live(nodes1, i) implies node_wf(
                nodes1[i]->Some_0,
                conns1,
                i,
            ) by {
                if i < id {
                    assert(slot_live(old(self).nodes@, i));
                    let n = nodes1[i]->Some_0;
                    assert(n == old(self).nodes@[i]->Some_0);
                    assert(node_wf(n, old(self).connections@, i));
                    assert forall|k: int| 0 <= k < n.inputs@.len() implies port_ref_wf(
                        conns1,
                        #[trigger] n.inputs@[k],
                        ConnectionTy::Input,
                        k,
                        i,
                    ) by {
                        assert(port_ref_wf(
                            old(self).connections@,
                            n.inputs@[k],
                            ConnectionTy::Input,
                            k,
                            i,
                        ));
                    }
                    assert forall|k: int| 0 <= k < n.outputs@.len() implies port_ref_wf(
                        conns1,
                        #[trigger] n.outputs@[k],
                        ConnectionTy::Output,
                        k,
                        i,
                    ) by {
                        assert(port_ref_wf(
                            old(self).connections@,
                            n.outputs@[k],
                            ConnectionTy::Output,
                            k,
                            i,
                        ));
                    }
                } else {
                    assert(i == id);
                }
            }
            assert forall|p: int| #[trigger] slot_live(conns1, p) implies conn_wf(
                conns1[p]->Some_0,
                wires1.len() as int,
            ) by {
                if p < conns0.len() {
                    assert(slot_live(old(self).connections@, p));
                } else {
                    assert(conns1[p]->Some_0.wires@ == Seq::<usize>::empty());
                }
            }
        }
        id
    }

    /// Appends wire `wire` to the attachment list of connection `conn`:
    /// the editor's act of joining an existing wire to a further pin.
    pub fn attach(&mut self, conn: usize, wire: usize)
        requires
            old(self).wf(),
            slot_live(old(self).connections@, conn as int),
            slot_live(old(self).wires@, wire as int),
        ensures
            final(self).wf(),
            final(self).nodes@ == old(self).nodes@,
            final(self).wires@ == old(self).wires@,
            final(self).tick == old(self).tick,
            conns_updated_wires(
                final(self).connections@,
                old(self).connections@,
                conn as int,
                old(self).connections@[conn as int]->Some_0.wires@.push(wire),
            ),
    {
        match &mut self.connections[conn] {
            Some(c) => {
                c.wires.push(wire);
            },
            None => {
                assert(false);
            },
        }
        proof {
            assert forall|p: int| #[trigger] slot_live(self.connections@, p) implies conn_wf(
                self.connections@[p]->Some_0,
                self.wires@.len() as int,
            ) by {
                assert(slot_live(old(self).connections@, p));
                if p == conn {
                    let ws0 = old(self).connections@[conn as int]->Some_0.wires@;
                    assert(conn_wf(old(self).connections@[p]->Some_0, self.wires@.len() as int));
                    assert(self.connections@[p]->Some_0.wires@ == ws0.push(wire));
                }
            }
            lemma_wf_same_structure(
                self.nodes@,
                old(self).connections@,
                self.connections@,
                old(self).wires@,
                self.wires@,
            );
        }
    }

    /// Allocates a fresh wire, settled and pending both `false`, attaches
    /// it to connection `conn`, and returns its identifier.  The far end
    /// is joined later by `attach`.
    pub fn create_wire(&mut self, conn: usize) -> (id: usize)
        requires
            old(self).wf(),
            slot_live(old(self).connections@, conn as int),
        ensures
            final(self).wf(),
            id == old(self).wires@.len(),
            final(self).nodes@ == old(self).nodes@,
            final(self).tick == old(self).tick,
            final(self).wires@ == old(self).wires@.push(
                Some(Wire { input_state: false, output_state: false, changed_input: false }),
            ),
            conns_updated_wires(
                final(self).connections@,
                old(self).connections@,
                conn as int,
                old(self).connections@[conn as int]->Some_0.wires@.push(id),
            ),
    {
        let id = self.wires.len();
        self.wires.push(Some(Wire { input_state: false, output_state: false, changed_input: false }));
        match &mut self.connections[conn] {
            Some(c) => {
                c.wires.push(id);
            },
            None => {
                assert(false);
            },
        }
        proof {
            assert forall|p: int| #[trigger] slot_live(self.connections@, p) implies conn_wf(
                self.connections@[p]->Some_0,
                self.wires@.len() as int,
            ) by {
                assert(slot_live(old(self).connections@, p));
                assert(conn_wf(old(self).connections@[p]->Some_0, old(self).wires@.len() as int));
                if p == conn {
                    let ws0 = old(self).connections@[conn as int]->Some_0.wires@;
                    assert(self.connections@[p]->Some_0.wires@ == ws0.push(id));
                }
            }
            lemma_wf_same_structure(
                self.nodes@,
                old(self).connections@,
                self.connections@,
                old(self).wires@,
                self.wires@,
            );
        }
        id
    }

    /// Removes every occurrence of wire `wire` from the attachment list
    /// of connection `conn`.
    pub fn detach(&mut self, conn: usize, wire: usize)
        requires
            old(self).wf(),
            slot_live(old(self).connections@, conn as int),
        ensures
            final(self).wf(),
            final(self).nodes@ == old(self).nodes@,
            final(self).wires@ == old(self).wires@,
            final(self).tick == old(self).tick,
            conns_updated_wires(
                final(self).connections@,
                old(self).connections@,
                conn as int,
                without_wire(old(self).connections@[conn as int]->Some_0.wires@, wire),
            ),
    {
        match &mut self.connections[conn] {
            Some(c) => {
                let mut kept: Vec<usize> = Vec::new();
                let mut t: usize = 0;
                while t < c.wires.len()
                    invariant
                        t <= c.wires.len(),
                        kept@ == without_wire(c.wires@.take(t as int), wire),
                    decreases c.wires.len() - t,
                {
                    proof {
                        assert(c.wires@.take(t as int + 1).drop_last() =~= c.wires@.take(t as int));
                        assert(c.wires@.take(t as int + 1).last() == c.wires@[t as int]);
                    }
                    if c.wires[t] != wire {
                        kept.push(c.wires[t]);
                    }
                    t += 1;
                }
                proof {
                    assert(c.wires@.take(c.wires@.len() as int) =~= c.wires@);
                }
                c.wires = kept;
            },
            None => {
                assert(false);
            },
        }
        proof {
            lemma_without_wire_entries(
                old(self).connections@[conn as int]->Some_0.wires@,
                wire,
            );
            assert forall|p: int| #[trigger] slot_live(self.connections@, p) implies conn_wf(
                self.connections@[p]->Some_0,
                self.wires@.len() as int,
            ) by {
                assert(slot_live(old(self).connections@, p));
                if p == conn {
                    let ws0 = old(self).connections@[conn as int]->Some_0.wires@;
                    let ws = self.connections@[p]->Some_0.wires@;
                    assert forall|u: int| 0 <= u < ws.len() implies (ws[u] as int)
                        < self.wires@.len() by {
                        assert(ws0.contains(ws[u]));
                        let t = choose|t: int| 0 <= t < ws0.len() && ws0[t] == ws[u];
                        assert((ws0[t] as int) < self.wires@.len());
                    }
                }
            }
            lemma_wf_same_structure(
                self.nodes@,
                old(self).connections@,
                self.connections@,
                old(self).wires@,
                self.wires@,
            );
        }
    }

    /// Flips the toggle bit of a manual switch source.  No wire state
    /// changes: the new bit is read only by the next compute phase.
    pub fn toggle_switch(&mut self, id: usize)
        requires
            old(self).wf(),
            slot_live(old(self).nodes@, id as int),
            old(self).nodes@[id as int]->Some_0.kind == NodeTy::SwitchNode,
        ensures
            final(self).wf(),
            final(self).connections@ == old(self).connections@,
            final(self).wires@ == old(self).wires@,
            final(self).tick == old(self).tick,
            final(self).nodes@.len() == old(self).nodes@.len(),
            forall|j: int|
                0 <= j < old(self).nodes@.len() && j != id ==> final(self).nodes@[j] == old(
                    self,
                ).nodes@[j],
            final(self).nodes@[id as int] is Some,
            ({
                let n0 = old(self).nodes@[id as int]->Some_0;
                let n1 = final(self).nodes@[id as int]->Some_0;
                &&& n1.kind == n0.kind
                &&& n1.state == !n0.state
                &&& n1.inputs@ == n0.inputs@
                &&& n1.outputs@ == n0.outputs@
            }),
    {
        match &mut self.nodes[id] {
            Some(n) => {
                n.state = !n.state;
            },
            None => {
                assert(false);
            },
        }
        proof {
            assert forall|i: int| #[trigger] slot_live(self.nodes@, i) implies node_wf(
                self.nodes@[i]->Some_0,
                self.connections@,
                i,
            ) by {
                assert(slot_live(old(self).nodes@, i));
                if i != id {
                    assert(self.nodes@[i] == old(self).nodes@[i]);
                } else {
                    assert(node_wf(old(self).nodes@[i]->Some_0, self.connections@, i));
                }
            }
        }
    }
}

/// True when one of the connections named by `pids` is live and has `m`
/// in its attachment list.
pub open spec fn attached_via(
    pids: Seq<usize>,
    conns: Seq<Option<Connection>>,
    m: usize,
) -> bool {
    exists|q: int|
        0 <= q < pids.len() && slot_live(conns, #[trigger] pids[q] as int)
            && conns[pids[q] as int]->Some_0.wires@.contains(m)
}

/// True when connection identifier `p` is one of the node's own pins.
pub open spec fn node_owns_conn(node: Connected, p: usize) -> bool {
    node.inputs@.contains(p) || node.outputs@.contains(p)
}

/// True when some live connection not owned by `node` has `m` in its
/// attachment list.
pub open spec fn attached_elsewhere(
    node: Connected,
    conns: Seq<Option<Connection>>,
    m: usize,
) -> bool {
    exists|p: int|
        #[trigger] slot_live(conns, p) && !node_owns_conn(node, p as usize)
            && conns[p]->Some_0.wires@.contains(m)
}

/// True when deleting `node` cascades to wire `m`: the wire is live, is
/// attached to one of the node's own connections, and has no other live
/// attachment left once those connections are gone.
pub open spec fn wire_dies_with_node(
    node: Connected,
    conns: Seq<Option<Connection>>,
    wires: Seq<Option<Wire>>,
    m: usize,
) -> bool {
    &&& slot_live(wires, m as int)
    &&& attached_via(node.inputs@ + node.outputs@, conns, m)
    &&& !attached_elsewhere(node, conns, m)
}

/// Pushing onto an identifier list adds exactly one member.
proof fn lemma_push_contains(s: Seq<usize>, x: usize)
    ensures
        forall|m: usize|
            #![trigger s.push(x).contains(m)]
            #![trigger s.contains(m)]
            s.push(x).contains(m) <==> (s.contains(m) || m == x),
{
    assert forall|m: usize| s.push(x).contains(m) implies (s.contains(m) || m == x) by {
        let q = choose|q: int| 0 <= q < s.push(x).len() && s.push(x)[q] == m;
        if q < s.len() {
            assert(s[q] == m);
        }
    }
    assert forall|m: usize| (s.contains(m) || m == x) implies s.push(x).contains(m) by {
        if m == x {
            assert(s.push(x)[s.len() as int] == m);
        } else {
            let q = choose|q: int| 0 <= q < s.len() && s[q] == m;
            assert(s.push(x)[q] == m);
        }
    }
}

/// Attachment through a concatenated list of connection identifiers is
/// attachment through either half.
proof fn lemma_attached_via_add(
    a: Seq<usize>,
    b: Seq<usize>,
    conns: Seq<Option<Connection>>,
    m: usize,
)
    ensures
        attached_via(a + b, conns, m) <==> (attached_via(a, conns, m) || attached_via(
            b,
            conns,
            m,
        )),
{
    if attached_via(a + b, conns, m) {
        let q = choose|q: int|
            0 <= q < (a + b).len() && slot_live(conns, (a + b)[q] as int)
                && conns[(a + b)[q] as int]->Some_0.wires@.contains(m);
        if q < a.len() {
            assert((a + b)[q] == a[q]);
            assert(attached_via(a, conns, m));
        } else {
            assert((a + b)[q] == b[q - a.len()]);
            assert(attached_via(b, conns, m));
        }
    }
    if attached_via(a, conns, m) {
        let q = choose|q: int|
            0 <= q < a.len() && slot_live(conns, a[q] as int)
                && conns[a[q] as int]->Some_0.wires@.contains(m);
        assert((a + b)[q] == a[q]);
        assert(attached_via(a + b, conns, m));
    }
    if attached_via(b, conns, m) {
        let q = choose|q: int|
            0 <= q < b.len() && slot_live(conns, b[q] as int)
                && conns[b[q] as int]->Some_0.wires@.contains(m);
        assert((a + b)[a.len() + q] == b[q]);
        assert(attached_via(a + b, conns, m));
    }
}

/// A copy of an identifier list.
fn copy_ids(v: &Vec<usize>) -> (r: Vec<usize>)
    ensures
        r@ == v@,
{
    let mut r: Vec<usize> = Vec::new();
    let mut t: usize = 0;
    while t < v.len()
        invariant
            t <= v.len(),
            r@ == v@.take(t as int),
        decreases v.len() - t,
    {
        proof {
            assert(v@.take(t as int + 1) =~= v@.take(t as int).push(v@[t as int]));
        }
        r.push(v[t]);
        t += 1;
    }
    proof {
        assert(v@.take(v@.len() as int) =~= v@);
    }
    r
}

/// True when `x` occurs in the identifier list `v`.
fn ids_contain(v: &Vec<usize>, x: usize) -> (b: bool)
    ensures
        b == v@.contains(x),
{
    let mut t: usize = 0;
    while t < v.len()
        invariant
            t <= v.len(),
            forall|u: int| 0 <= u < t ==> v@[u] != x,
        decreases v.len() - t,
    {
        if v[t] == x {
            return true;
        }
        t += 1;
    }
    false
}

/// True when some live connection in the arena has `m` in its attachment
/// list.
fn conn_references(conns: &Vec<Option<Connection>>, m: usize) -> (b: bool)
    ensures
        b == exists|p: int|
            #[trigger] slot_live(conns@, p) && conns@[p]->Some_0.wires@.contains(m),
{
    let mut p: usize = 0;
    while p < conns.len()
        invariant
            p <= conns.len(),
            forall|q: int|
                0 <= q < p ==> !(#[trigger] slot_live(conns@, q)
                    && conns@[q]->Some_0.wires@.contains(m)),
        decreases conns.len() - p,
    {
        match &conns[p] {
            Some(c) => {
                if ids_contain(&c.wires, m) {
                    proof {
                        assert(slot_live(conns@, p as int)
                            && conns@[p as int]->Some_0.wires@.contains(m));
                    }
                    return true;
                }
            },
            None => {},
        }
        p += 1;
    }
    false
}

/// Pushes every wire identifier attached to the connections named by
/// `pids` onto `cand`.
fn collect_attachments(conns: &Vec<Option<Connection>>, pids: &Vec<usize>, cand: &mut Vec<usize>)
    requires
        forall|k: int| 0 <= k < pids@.len() ==> (#[trigger] pids@[k] as int) < conns@.len(),
    ensures
        forall|m: usize|
            #[trigger] final(cand)@.contains(m) <==> (old(cand)@.contains(m) || attached_via(
                pids@,
                conns@,
                m,
            )),
        forall|u: int|
            0 <= u < final(cand)@.len() ==> old(cand)@.contains(#[trigger] final(cand)@[u]) || (
            exists|p: int|
                #[trigger] slot_live(conns@, p) && conns@[p]->Some_0.wires@.contains(
                    final(cand)@[u],
                )),
{
    let ghost cand0 = cand@;
    let mut k: usize = 0;
    while k < pids.len()
        invariant
            k <= pids@.len(),
            forall|j: int| 0 <= j < pids@.len() ==> (#[trigger] pids@[j] as int) < conns@.len(),
            forall|m: usize|
                #[trigger] cand@.contains(m) <==> (cand0.contains(m) || attached_via(
                    pids@.take(k as int),
                    conns@,
                    m,
                )),
            forall|u: int|
                0 <= u < cand@.len() ==> cand0.contains(#[trigger] cand@[u]) || (exists|p: int|
                    #[trigger] slot_live(conns@, p) && conns@[p]->Some_0.wires@.contains(cand@[u])),
        decreases pids@.len() - k,
    {
        let pid = pids[k];
        let ghost pre = cand@;
        match &conns[pid] {
            Some(c) => {
                let mut t: usize = 0;
                while t < c.wires.len()
                    invariant
                        t <= c.wires@.len(),
                        (pid as int) < conns@.len(),
                        conns@[pid as int] is Some,
                        *c == conns@[pid as int]->Some_0,
                        forall|m: usize|
                            #[trigger] cand@.contains(m) <==> (pre.contains(m)
                                || c.wires@.take(t as int).contains(m)),
                        forall|u: int|
                            0 <= u < cand@.len() ==> cand0.contains(#[trigger] cand@[u]) || (
                            exists|p: int|
                                #[trigger] slot_live(conns@, p)
                                    && conns@[p]->Some_0.wires@.contains(cand@[u])),
                        forall|m: usize|
                            #[trigger] pre.contains(m) <==> (cand0.contains(m) || attached_via(
                                pids@.take(k as int),
                                conns@,
                                m,
                            )),
                    decreases c.wires@.len() - t,
                {
                    let w = c.wires[t];
                    let ghost cand_pre = cand@;
                    cand.push(w);
                    proof {
                        lemma_push_contains(cand_pre, w);
                        lemma_push_contains(c.wires@.take(t as int), w);
                        assert(c.wires@.take(t as int + 1) =~= c.wires@.take(t as int).push(w));
                        assert(slot_live(conns@, pid as int)
                            && conns@[pid as int]->Some_0.wires@.contains(w));
                        assert forall|m: usize| #[trigger] cand@.contains(m) <==> (pre.contains(m)
                            || c.wires@.take(t as int + 1).contains(m)) by {
                            assert(cand@.contains(m) <==> (cand_pre.contains(m) || m == w));
                        }
                    }
                    t += 1;
                }
                proof {
                    assert(c.wires@.take(c.wires@.len() as int) =~= c.wires@);
                }
            },
            None => {},
        }
        proof {
            let pk = pids@.take(k as int);
            let pk1 = pids@.take(k as int + 1);
            assert(pk1 =~= pk + seq![pid]);
            assert forall|m: usize| #[trigger] cand@.contains(m) <==> (cand0.contains(m)
                || attached_via(pk1, conns@, m)) by {
                lemma_attached_via_add(pk, seq![pid], conns@, m);
                assert(attached_via(seq![pid], conns@, m) <==> (slot_live(conns@, pid as int)
                    && conns@[pid as int]->Some_0.wires@.contains(m))) by {
                    if slot_live(conns@, pid as int) && conns@[pid as int]->Some_0.wires@.contains(
                        m,
                    ) {
                        assert(seq![pid][0] == pid);
                        assert(attached_via(seq![pid], conns@, m));
                    }
                }
            }
        }
        k += 1;
    }
    proof {
        assert(pids@.take(pids@.len() as int) =~= pids@);
    }
}

/// Clears every connection slot named by `pids` to `None`.
fn clear_conns(conns: &mut Vec<Option<Connection>>, pids: &Vec<usize>)
    requires
        forall|k: int| 0 <= k < pids@.len() ==> (#[trigger] pids@[k] as int) < old(conns)@.len(),
    ensures
        final(conns)@.len() == old(conns)@.len(),
        forall|p: int|
            0 <= p < old(conns)@.len() ==> final(conns)@[p] == (if pids@.contains(p as usize) {
                None::<Connection>
            } else {
                old(conns)@[p]
            }),
{
    let n_conns = conns.len();
    let mut k: usize = 0;
    while k < pids.len()
        invariant
            k <= pids@.len(),
            n_conns == old(conns)@.len(),
            forall|j: int| 0 <= j < pids@.len() ==> (#[trigger] pids@[j] as int) < old(
                conns,
            )@.len(),
            conns@.len() == old(conns)@.len(),
            forall|p: int|
                0 <= p < old(conns)@.len() ==> conns@[p] == (if pids@.take(k as int).contains(
                    p as usize,
                ) {
                    None::<Connection>
                } else {
                    old(conns)@[p]
                }),
        decreases pids@.len() - k,
    {
        let pid = pids[k];
        let ghost prev = conns@;
        conns.set(pid, None);
        proof {
            lemma_push_contains(pids@.take(k as int), pid);
            assert(pids@.take(k as int + 1) =~= pids@.take(k as int).push(pid));
            assert forall|p: int| 0 <= p < old(conns)@.len() implies conns@[p] == (if pids@.take(
                k as int + 1,
            ).contains(p as usize) {
                None::<Connection>
            } else {
                old(conns)@[p]
            }) by {
                assert((p as usize) as int == p);
                if p == pid as int {
                    assert(pids@.take(k as int).push(pid).contains(pid));
                    assert(pids@.take(k as int + 1).contains(pid));
                } else {
                    assert(pids@.take(k as int).push(pid).contains(p as usize) <==> (pids@.take(
                        k as int,
                    ).contains(p as usize) || p as usize == pid));
                    assert(conns@[p] == prev[p]);
                }
            }
        }
        k += 1;
    }
    proof {
        assert(pids@.take(pids@.len() as int) =~= pids@);
    }
}

/// True when wire slot `id` of `wires` holds a live wire.
pub fn is_live_wire(wires: &Vec<Option<Wire>>, id: usize) -> (b: bool)
    ensures
        b == slot_live(wires@, id as int),
{
    id < wires.len() && wires[id].is_some()
}

impl Graph {
    /// The wire with identifier `id`, or `None` when the slot is dead or
    /// out of range.
    pub fn wire(&self, id: usize) -> (r: Option<Wire>)
        ensures
            r == (if id < self.wires@.len() {
                self.wires@[id as int]
            } else {
                None::<Wire>
            }),
    {
        if id < self.wires.len() {
            self.wires[id]
        } else {
            None
        }
    }

    /// The connection with identifier `id`, or `None` when the slot is
    /// dead or out of range.
    pub fn connection(&self, id: usize) -> (r: Option<&Connection>)
        ensures
            (r is Some) == slot_live(self.connections@, id as int),
            r is Some ==> *r->Some_0 == self.connections@[id as int]->Some_0,
    {
        if id < self.connections.len() {
            self.connections[id].as_ref()
        } else {
            None
        }
    }

    /// The node with identifier `id`, or `None` when the slot is dead or
    /// out of range.
    pub fn node(&self, id: usize) -> (r: Option<&Connected>)
        ensures
            (r is Some) == slot_live(self.nodes@, id as int),
            r is Some ==> *r->Some_0 == self.nodes@[id as int]->Some_0,
    {
        if id < self.nodes.len() {
            self.nodes[id].as_ref()
        } else {
            None
        }
    }

    /// The toggle bit of a manual switch source.
    pub fn switch_state(&self, id: usize) -> (b: bool)
        requires
            slot_live(self.nodes@, id as int),
        ensures
            b == self.nodes@[id as int]->Some_0.state,
    {
        match &self.nodes[id] {
            Some(n) => n.state,
            None => {
                assert(false);
                false
            },
        }
    }

    /// The attachment list of connection `conn` filtered to wires that
    /// still exist: the live attachments, in order.
    pub fn live_attachments(&self, conn: usize) -> (r: Vec<usize>)
        requires
            slot_live(self.connections@, conn as int),
        ensures
            r@ == live_wires(self.wires@, self.connections@[conn as int]->Some_0.wires@),
    {
        match &self.connections[conn] {
            Some(c) => {
                let mut kept: Vec<usize> = Vec::new();
                let mut t: usize = 0;
                while t < c.wires.len()
                    invariant
                        t <= c.wires.len(),
                        kept@ == live_wires(self.wires@, c.wires@.take(t as int)),
                    decreases c.wires.len() - t,
                {
                    proof {
                        assert(c.wires@.take(t as int + 1).drop_last() =~= c.wires@.take(t as int));
                        assert(c.wires@.take(t as int + 1).last() == c.wires@[t as int]);
                    }
                    if is_live_wire(&self.wires, c.wires[t]) {
                        kept.push(c.wires[t]);
                    }
                    t += 1;
                }
                proof {
                    assert(c.wires@.take(c.wires@.len() as int) =~= c.wires@);
                }
                kept
            },
            None => {
                assert(false);
                Vec::new()
            },
        }
    }

    /// Prunes every connection's attachment list down to wires that still
    /// exist.  Run after deletions, before the next tick, so no stale
    /// identifier survives into evaluation.
    pub fn sweep_dangling(&mut self)
        requires
            old(self).wf(),
        ensures
            final(self).wf(),
            final(self).nodes@ == old(self).nodes@,
            final(self).wires@ == old(self).wires@,
            final(self).tick == old(self).tick,
            final(self).connections@.len() == old(self).connections@.len(),
            forall|p: int|
                0 <= p < old(self).connections@.len() && !slot_live(old(self).connections@, p)
                    ==> final(self).connections@[p] == old(self).connections@[p],
            forall|p: int|
                #[trigger] slot_live(old(self).connections@, p) ==> final(self).connections@[p]
                    is Some && same_conn_but_wires(
                    final(self).connections@[p]->Some_0,
                    old(self).connections@[p]->Some_0,
                    live_wires(old(self).wires@, old(self).connections@[p]->Some_0.wires@),
                ),
    {
        let n_conns = self.connections.len();
        let mut p: usize = 0;
        while p < n_conns
            invariant
                p <= n_conns,
                self.wf(),
                self.nodes@ == old(self).nodes@,
                self.wires@ == old(self).wires@,
                self.tick == old(self).tick,
                n_conns == old(self).connections@.len(),
                self.connections@.len() == n_conns,
                forall|q: int|
                    p <= q < n_conns ==> self.connections@[q] == old(self).connections@[q],
                forall|q: int|
                    0 <= q < p && !slot_live(old(self).connections@, q) ==> self.connections@[q]
                        == old(self).connections@[q],
                forall|q: int|
                    0 <= q < p && #[trigger] slot_live(old(self).connections@, q)
                        ==> self.connections@[q] is Some && same_conn_but_wires(
                        self.connections@[q]->Some_0,
                        old(self).connections@[q]->Some_0,
                        live_wires(old(self).wires@, old(self).connections@[q]->Some_0.wires@),
                    ),
            decreases n_conns - p,
        {
            let ghost conns_before = self.connections@;
            let wires_arena = &self.wires;
            match &mut self.connections[p] {
                Some(c) => {
                    let mut kept: Vec<usize> = Vec::new();
                    let mut t: usize = 0;
                    while t < c.wires.len()
                        invariant
                            t <= c.wires.len(),
                            kept@ == live_wires(wires_arena@, c.wires@.take(t as int)),
                        decreases c.wires.len() - t,
                    {
                        proof {
                            assert(c.wires@.take(t as int + 1).drop_last() =~= c.wires@.take(
                                t as int,
                            ));
                            assert(c.wires@.take(t as int + 1).last() == c.wires@[t as int]);
                        }
                        if is_live_wire(wires_arena, c.wires[t]) {
                            kept.push(c.wires[t]);
                        }
                        t += 1;
                    }
                    proof {
                        assert(c.wires@.take(c.wires@.len() as int) =~= c.wires@);
                    }
                    c.wires = kept;
                },
                None => {},
            }
            proof {
                lemma_live_wires_entries(
                    self.wires@,
                    old(self).connections@[p as int]->Some_0.wires@,
                );
                assert forall|q: int| #[trigger] slot_live(self.connections@, q) implies conn_wf(
                    self.connections@[q]->Some_0,
                    self.wires@.len() as int,
                ) by {
                    assert(slot_live(conns_before, q));
                    if q == p {
                        if slot_live(old(self).connections@, q) {
                            let ws0 = old(self).connections@[p as int]->Some_0.wires@;
                            let ws = self.connections@[q]->Some_0.wires@;
                            assert(conn_wf(
                                old(self).connections@[q]->Some_0,
                                self.wires@.len() as int,
                            ));
                            assert forall|u: int| 0 <= u < ws.len() implies (ws[u] as int)
                                < self.wires@.len() by {
                                assert(ws0.contains(ws[u]));
                                let x = choose|x: int| 0 <= x < ws0.len() && ws0[x] == ws[u];
                                assert((ws0[x] as int) < self.wires@.len());
                            }
                        }
                    } else {
                        assert(self.connections@[q] == conns_before[q]);
                        assert(conn_wf(conns_before[q]->Some_0, self.wires@.len() as int));
                    }
                }
                lemma_wf_same_structure(
                    self.nodes@,
                    conns_before,
                    self.connections@,
                    self.wires@,
                    self.wires@,
                );
            }
            p += 1;
        }
    }

    /// Deletes wire `id` and detaches it from every connection that
    /// references it.
    pub fn delete_wire(&mut self, id: usize)
        requires
            old(self).wf(),
            slot_live(old(self).wires@, id as int),
        ensures
            final(self).wf(),
            final(self).nodes@ == old(self).nodes@,
            final(self).tick == old(self).tick,
            final(self).wires@ == old(self).wires@.update(id as int, None),
            final(self).connections@.len() == old(self).connections@.len(),
            forall|p: int|
                0 <= p < old(self).connections@.len() && !slot_live(old(self).connections@, p)
                    ==> final(self).connections@[p] == old(self).connections@[p],
            forall|p: int|
                #[trigger] slot_live(old(self).connections@, p) ==> final(self).connections@[p]
                    is Some && same_conn_but_wires(
                    final(self).connections@[p]->Some_0,
                    old(self).connections@[p]->Some_0,
                    without_wire(old(self).connections@[p]->Some_0.wires@, id),
                ),
    {
        self.wires.set(id, None);
        let n_conns = self.connections.len();
        let mut p: usize = 0;
        while p < n_conns
            invariant
                p <= n_conns,
                self.nodes@ == old(self).nodes@,
                self.wires@ == old(self).wires@.update(id as int, None),
                self.tick == old(self).tick,
                n_conns == old(self).connections@.len(),
                self.connections@.len() == n_conns,
                graph_wf(self.nodes@, self.connections@, self.wires@),
                forall|q: int|
                    p <= q < n_conns ==> self.connections@[q] == old(self).connections@[q],
                forall|q: int|
                    0 <= q < p && !slot_live(old(self).connections@, q) ==> self.connections@[q]
                        == old(self).connections@[q],
                forall|q: int|
                    0 <= q < p && #[trigger] slot_live(old(self).connections@, q)
                        ==> self.connections@[q] is Some && same_conn_but_wires(
                        self.connections@[q]->Some_0,
                        old(self).connections@[q]->Some_0,
                        without_wire(old(self).connections@[q]->Some_0.wires@, id),
                    ),
            decreases n_conns - p,
        {
            let ghost conns_before = self.connections@;
            match &mut self.connections[p] {
                Some(c) => {
                    let mut kept: Vec<usize> = Vec::new();
                    let mut t: usize = 0;
                    while t < c.wires.len()
                        invariant
                            t <= c.wires.len(),
                            kept@ == without_wire(c.wires@.take(t as int), id),
                        decreases c.wires.len() - t,
                    {
                        proof {
                            assert(c.wires@.take(t as int + 1).drop_last() =~= c.wires@.take(
                                t as int,
                            ));
                            assert(c.wires@.take(t as int + 1).last() == c.wires@[t as int]);
                        }
                        if c.wires[t] != id {
                            kept.push(c.wires[t]);
                        }
                        t += 1;
                    }
                    proof {
                        assert(c.wires@.take(c.wires@.len() as int) =~= c.wires@);
                    }
                    c.wires = kept;
                },
                None => {},
            }
            proof {
                lemma_without_wire_entries(
                    old(self).connections@[p as int]->Some_0.wires@,
                    id,
                );
                assert forall|q: int| #[trigger] slot_live(self.connections@, q) implies conn_wf(
                    self.connections@[q]->Some_0,
                    self.wires@.len() as int,
                ) by {
                    assert(slot_live(conns_before, q));
                    if q == p {
                        if slot_live(old(self).connections@, q) {
                            let ws0 = old(self).connections@[p as int]->Some_0.wires@;
                            let ws = self.connections@[q]->Some_0.wires@;
                            assert(conn_wf(conns_before[q]->Some_0, self.wires@.len() as int));
                            assert forall|u: int| 0 <= u < ws.len() implies (ws[u] as int)
                                < self.wires@.len() by {
                                assert(ws0.contains(ws[u]));
                                let x = choose|x: int| 0 <= x < ws0.len() && ws0[x] == ws[u];
                                assert((ws0[x] as int) < self.wires@.len());
                            }
                        }
                    } else {
                        assert(self.connections@[q] == conns_before[q]);
                        assert(conn_wf(conns_before[q]->Some_0, self.wires@.len() as int));
                    }
                }
                lemma_wf_same_structure(
                    self.nodes@,
                    conns_before,
                    self.connections@,
                    self.wires@,
                    self.wires@,
                );
            }
            p += 1;
        }
    }
    /// Deletes node `id` with cascading cleanup: all the node's own
    /// connections die with it, and so does every wire that was attached
    /// to them and has no other live attachment left.  Identifiers of the
    /// dead wires may linger in other connections' attachment lists until
    /// `sweep_dangling` runs; evaluation treats them as dangling meanwhile.
    pub fn delete_node(&mut self, id: usize)
        requires
            old(self).wf(),
            slot_live(old(self).nodes@, id as int),
        ensures
            final(self).wf(),
            final(self).tick == old(self).tick,
            final(self).nodes@ == old(self).nodes@.update(id as int, None),
            final(self).connections@.len() == old(self).connections@.len(),
            forall|p: int|
                0 <= p < old(self).connections@.len() ==> final(self).connections@[p] == (
                if node_owns_conn(old(self).nodes@[id as int]->Some_0, p as usize) {
                    None::<Connection>
                } else {
                    old(self).connections@[p]
                }),
            final(self).wires@.len() == old(self).wires@.len(),
            forall|m: int|
                0 <= m < old(self).wires@.len() ==> final(self).wires@[m] == (
                if wire_dies_with_node(
                    old(self).nodes@[id as int]->Some_0,
                    old(self).connections@,
                    old(self).wires@,
                    m as usize,
                ) {
                    None::<Wire>
                } else {
                    old(self).wires@[m]
                }),
    {
        let ghost node0 = old(self).nodes@[id as int]->Some_0;
        let ghost conns0 = old(self).connections@;
        let ghost wires0 = old(self).wires@;
        let n_wires = self.wires.len();
        let n_conns = self.connections.len();
        let (ins, outs) = match &self.nodes[id] {
            Some(n) => (copy_ids(&n.inputs), copy_ids(&n.outputs)),
            None => {
                assert(false);
                (Vec::new(), Vec::new())
            },
        };
        self.nodes.set(id, None);
        proof {
            assert(node_wf(node0, conns0, id as int));
            assert forall|k: int| 0 <= k < ins@.len() implies (#[trigger] ins@[k] as int)
                < conns0.len() by {
                assert(port_ref_wf(conns0, node0.inputs@[k], ConnectionTy::Input, k, id as int));
            }
            assert forall|k: int| 0 <= k < outs@.len() implies (#[trigger] outs@[k] as int)
                < conns0.len() by {
                assert(port_ref_wf(conns0, node0.outputs@[k], ConnectionTy::Output, k, id as int));
            }
        }
        // gather every wire attached to the node's own connections
        let mut cand: Vec<usize> = Vec::new();
        collect_attachments(&self.connections, &ins, &mut cand);
        collect_attachments(&self.connections, &outs, &mut cand);
        proof {
            assert forall|m: usize| #[trigger] cand@.contains(m) <==> attached_via(
                node0.inputs@ + node0.outputs@,
                conns0,
                m,
            ) by {
                lemma_attached_via_add(ins@, outs@, conns0, m);
            }
            assert forall|u: int| 0 <= u < cand@.len() implies (#[trigger] cand@[u] as int)
                < n_wires by {
                let m = cand@[u];
                assert(exists|p: int|
                    #[trigger] slot_live(conns0, p) && conns0[p]->Some_0.wires@.contains(m));
                let p = choose|p: int|
                    #[trigger] slot_live(conns0, p) && conns0[p]->Some_0.wires@.contains(m);
                assert(conn_wf(conns0[p]->Some_0, wires0.len() as int));
                let t = choose|t: int|
                    0 <= t < conns0[p]->Some_0.wires@.len() && conns0[p]->Some_0.wires@[t] == m;
            }
        }
        // the node's connections die with it
        clear_conns(&mut self.connections, &ins);
        clear_conns(&mut self.connections, &outs);
        let ghost conns1 = self.connections@;
        proof {
            assert forall|p: int| 0 <= p < conns0.len() implies conns1[p] == (if node_owns_conn(
                node0,
                p as usize,
            ) {
                None::<Connection>
            } else {
                conns0[p]
            }) by {
                assert(p < n_conns as int);
                assert((p as usize) as int == p);
            }
            // a live connection that survives is exactly a live connection
            // the node did not own
            assert forall|m: usize| (exists|p: int|
                #[trigger] slot_live(conns1, p) && conns1[p]->Some_0.wires@.contains(m))
                <==> attached_elsewhere(node0, conns0, m) by {
                if exists|p: int|
                    #[trigger] slot_live(conns1, p) && conns1[p]->Some_0.wires@.contains(m) {
                    let p = choose|p: int|
                        #[trigger] slot_live(conns1, p) && conns1[p]->Some_0.wires@.contains(m);
                    assert(!node_owns_conn(node0, p as usize));
                    assert(slot_live(conns0, p));
                }
                if attached_elsewhere(node0, conns0, m) {
                    let p = choose|p: int|
                        #[trigger] slot_live(conns0, p) && !node_owns_conn(node0, p as usize)
                            && conns0[p]->Some_0.wires@.contains(m);
                    assert(conns1[p] == conns0[p]);
                    assert(slot_live(conns1, p) && conns1[p]->Some_0.wires@.contains(m));
                }
            }
        }
        // delete each gathered wire unless a surviving connection still
        // references it
        let mut t: usize = 0;
        while t < cand.len()
            invariant
                t <= cand@.len(),
                n_wires == wires0.len(),
                self.nodes@ == old(self).nodes@.update(id as int, None),
                self.connections@ == conns1,
                self.tick == old(self).tick,
                self.wires@.len() == wires0.len(),
                forall|u: int| 0 <= u < cand@.len() ==> (#[trigger] cand@[u] as int) < n_wires,
                forall|m: usize|
                    #[trigger] cand@.contains(m) <==> attached_via(
                        node0.inputs@ + node0.outputs@,
                        conns0,
                        m,
                    ),
                forall|m: usize| (exists|p: int|
                    #[trigger] slot_live(conns1, p) && conns1[p]->Some_0.wires@.contains(m))
                    <==> attached_elsewhere(node0, conns0, m),
                forall|m: int|
                    0 <= m < wires0.len() ==> self.wires@[m] == (if wire_dies_with_node(
                        node0,
                        conns0,
                        wires0,
                        m as usize,
                    ) && cand@.take(t as int).contains(m as usize) {
                        None::<Wire>
                    } else {
                        wires0[m]
                    }),
            decreases cand@.len() - t,
        {
            let m = cand[t];
            let ghost wires_pre = self.wires@;
            let live_now = is_live_wire(&self.wires, m);
            if live_now && !conn_references(&self.connections, m) {
                self.wires.set(m, None);
            }
            proof {
                lemma_push_contains(cand@.take(t as int), m);
                assert(cand@.take(t as int + 1) =~= cand@.take(t as int).push(m));
                assert(cand@[t as int] == m);
                assert(cand@.contains(m));
                let dies = wire_dies_with_node(node0, conns0, wires0, m);
                assert forall|mi: int| 0 <= mi < wires0.len() implies self.wires@[mi] == (
                if wire_dies_with_node(node0, conns0, wires0, mi as usize) && cand@.take(
                    t as int + 1,
                ).contains(mi as usize) {
                    None::<Wire>
                } else {
                    wires0[mi]
                }) by {
                    assert((mi as usize) as int == mi);
                    if mi == m as int {
                        if cand@.take(t as int).contains(m) {
                            // already handled in an earlier iteration
                            assert(self.wires@[mi] == wires_pre[mi]
                                || self.wires@[mi] is None);
                        }
                    } else {
                        assert(self.wires@[mi] == wires_pre[mi]);
                    }
                }
            }
            t += 1;
        }
        proof {
            assert(cand@.take(cand@.len() as int) =~= cand@);
            assert forall|m: int| 0 <= m < wires0.len() implies self.wires@[m] == (
            if wire_dies_with_node(node0, conns0, wires0, m as usize) {
                None::<Wire>
            } else {
                wires0[m]
            }) by {
                assert((m as usize) as int == m);
                if wire_dies_with_node(node0, conns0, wires0, m as usize) {
                    assert(cand@.contains(m as usize));
                }
            }
            // the surviving structure is well formed
            assert forall|i: int| #[trigger] slot_live(self.nodes@, i) implies node_wf(
                self.nodes@[i]->Some_0,
                self.connections@,
                i,
            ) by {
                assert(i != id as int);
                assert(slot_live(old(self).nodes@, i));
                let n = self.nodes@[i]->Some_0;
                assert(n == old(self).nodes@[i]->Some_0);
                assert(node_wf(n, conns0, i));
                assert forall|k: int| 0 <= k < n.inputs@.len() implies port_ref_wf(
                    self.connections@,
                    #[trigger] n.inputs@[k],
                    ConnectionTy::Input,
                    k,
                    i,
                ) by {
                    let p = n.inputs@[k];
                    assert(port_ref_wf(conns0, p, ConnectionTy::Input, k, i));
                    if node_owns_conn(node0, p) {
                        if node0.inputs@.contains(p) {
                            let kk = choose|kk: int|
                                0 <= kk < node0.inputs@.len() && node0.inputs@[kk] == p;
                            assert(port_ref_wf(conns0, p, ConnectionTy::Input, kk, id as int));
                        } else {
                            let kk = choose|kk: int|
                                0 <= kk < node0.outputs@.len() && node0.outputs@[kk] == p;
                            assert(port_ref_wf(conns0, p, ConnectionTy::Output, kk, id as int));
                        }
                        assert(false);
                    }
                    assert(self.connections@[p as int] == conns0[p as int]);
                }
                assert forall|k: int| 0 <= k < n.outputs@.len() implies port_ref_wf(
                    self.connections@,
                    #[trigger] n.outputs@[k],
                    ConnectionTy::Output,
                    k,
                    i,
                ) by {
                    let p = n.outputs@[k];
                    assert(port_ref_wf(conns0, p, ConnectionTy::Output, k, i));
                    if node_owns_conn(node0, p) {
                        if node0.inputs@.contains(p) {
                            let kk = choose|kk: int|
                                0 <= kk < node0.inputs@.len() && node0.inputs@[kk] == p;
                            assert(port_ref_wf(conns0, p, ConnectionTy::Input, kk, id as int));
                        } else {
                            let kk = choose|kk: int|
                                0 <= kk < node0.outputs@.len() && node0.outputs@[kk] == p;
                            assert(port_ref_wf(conns0, p, ConnectionTy::Output, kk, id as int));
                        }
                        assert(false);
                    }
                    assert(self.connections@[p as int] == conns0[p as int]);
                }
            }
            assert forall|p: int| #[trigger] slot_live(self.connections@, p) implies conn_wf(
                self.connections@[p]->Some_0,
                self.wires@.len() as int,
            ) by {
                assert(p < n_conns as int);
                assert((p as usize) as int == p);
                assert(self.connections@[p] == conns0[p]);
                assert(slot_live(conns0, p));
            }
        }
    }

    /// Deletes a node or a wire, each with its cascading cleanup.
    pub fn delete_entity(&mut self, id: EntityId)
        requires
            old(self).wf(),
            id matches EntityId::Node(n) ==> slot_live(old(self).nodes@, n as int),
            id matches EntityId::Wire(w) ==> slot_live(old(self).wires@, w as int),
        ensures
            final(self).wf(),
            final(self).tick == old(self).tick,
            id matches EntityId::Node(n) ==> {
                &&& final(self).nodes@ == old(self).nodes@.update(n as int, None)
                &&& final(self).connections@.len() == old(self).connections@.len()
                &&& forall|p: int|
                    0 <= p < old(self).connections@.len() ==> final(self).connections@[p] == (
                    if node_owns_conn(old(self).nodes@[n as int]->Some_0, p as usize) {
                        None::<Connection>
                    } else {
                        old(self).connections@[p]
                    })
                &&& final(self).wires@.len() == old(self).wires@.len()
                &&& forall|m: int|
                    0 <= m < old(self).wires@.len() ==> final(self).wires@[m] == (
                    if wire_dies_with_node(
                        old(self).nodes@[n as int]->Some_0,
                        old(self).connections@,
                        old(self).wires@,
                        m as usize,
                    ) {
                        None::<Wire>
                    } else {
                        old(self).wires@[m]
                    })
            },
            id matches EntityId::Wire(w) ==> {
                &&& final(self).nodes@ == old(self).nodes@
                &&& final(self).wires@ == old(self).wires@.update(w as int, None)
                &&& final(self).connections@.len() == old(self).connections@.len()
                &&& forall|p: int|
                    0 <= p < old(self).connections@.len() && !slot_live(old(self).connections@, p)
                        ==> final(self).connections@[p] == old(self).connections@[p]
                &&& forall|p: int|
                    #[trigger] slot_live(old(self).connections@, p)
                        ==> final(self).connections@[p] is Some && same_conn_but_wires(
                        final(self).connections@[p]->Some_0,
                        old(self).connections@[p]->Some_0,
                        without_wire(old(self).connections@[p]->Some_0.wires@, w),
                    )
            },
    {
        match id {
            EntityId::Node(n) => self.delete_node(n),
            EntityId::Wire(w) => self.delete_wire(w),
        }
    }
}

impl Default for Graph {
    fn default() -> (g: Graph)
        ensures
            g.nodes@.len() == 0,
            g.connections@.len() == 0,
            g.wires@.len() == 0,
            g.tick.0 == 0,
            g.wf(),
    {
        Graph::new()
    }
}

} // verus!
