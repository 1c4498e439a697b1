use vstd::prelude::*;
use vstd::string::StringExecFns;
use crate::com_graph::{copy_indices, exec_wf, ComputeGraph, ExecNodeView};
use crate::compute::Compute;
use crate::reach::{
    has_cycle_from, is_path, lemma_closed_contains_reachable, lemma_ordered_excludes_cycle,
    lemma_reaches_edge, lemma_reaches_self, lemma_reaches_trans, on_cycle, ordered_prefix, reaches,
};
use crate::value::{spec_tag_name, tag_name, TypeTag};

verus! {

/// An opaque, copyable reference to a node within one graph instance. A
/// handle pairs the node's slot index with the identity tag of the owning
/// graph; it is valid only against the graph that produced it.
#[derive(Clone, Copy, Debug)]
pub struct NodeHandle {
    index: usize,
    graph_id: u64,
}

impl NodeHandle {
    pub closed spec fn spec_idx(&self) -> int {
        self.index as int
    }

    pub closed spec fn spec_gid(&self) -> u64 {
        self.graph_id
    }
}

/// The mathematical content of one node: its diagnostic name, the ordered
/// slot indices it draws explicit inputs from, whether it also receives the
/// pipeline's external input, and its capability object.
pub struct NodeView<C> {
    pub name: Seq<char>,
    pub inputs: Seq<usize>,
    pub connected: bool,
    pub func: C,
}

/// The abstract state of a graph: one entry per slot, `None` where a node
/// was removed (slots are never reused, so a stale handle can never alias a
/// different live node).
pub type GView<C> = Seq<Option<NodeView<C>>>;

pub open spec fn live_at<C>(g: GView<C>, i: int) -> bool {
    0 <= i < g.len() && g[i] is Some
}

pub open spec fn node_at<C>(g: GView<C>, i: int) -> NodeView<C> {
    g[i]->0
}

/// Every explicit input of every live node refers to a live node.
pub open spec fn graph_wf<C>(g: GView<C>) -> bool {
    forall|i: int, k: int|
        live_at(g, i) && 0 <= k < node_at(g, i).inputs.len() ==> live_at(
            g,
            #[trigger] node_at(g, i).inputs[k] as int,
        )
}

/// The input list `s` with every occurrence of `x` removed.
pub open spec fn drop_edges(s: Seq<usize>, x: usize) -> Seq<usize> {
    s.filter(|e: usize| e != x)
}

/// Every entry of the stripped input list occurs in the original list and
/// differs from the stripped index.
pub proof fn lemma_drop_edges_subset(s: Seq<usize>, x: usize)
    ensures
        forall|k: int|
            0 <= k < drop_edges(s, x).len() ==> s.contains(#[trigger] drop_edges(s, x)[k])
                && drop_edges(s, x)[k] != x,
{
    broadcast use vstd::seq_lib::group_filter_ensures, Seq::lemma_filter_contains_rev;

    assert forall|k: int| 0 <= k < drop_edges(s, x).len() implies s.contains(
        #[trigger] drop_edges(s, x)[k],
    ) && drop_edges(s, x)[k] != x by {
        let e = drop_edges(s, x)[k];
        assert(drop_edges(s, x).contains(e));
    }
}

/// Two graph states that agree on every slot but `i`.
pub open spec fn same_except<C>(g1: GView<C>, g2: GView<C>, i: int) -> bool {
    g1.len() == g2.len() && forall|j: int| 0 <= j < g1.len() && j != i ==> g1[j] == g2[j]
}

/// A fresh input list holding every entry of `v` other than `x`, in order.
fn retain_not_equal(v: &Vec<usize>, x: usize) -> (r: Vec<usize>)
    ensures
        r@ == drop_edges(v@, x),
{
    let mut r: Vec<usize> = Vec::new();
    let mut i: usize = 0;
    proof {
        reveal(Seq::filter);
        assert(v@.take(0) =~= Seq::<usize>::empty());
        assert(r@ =~= drop_edges(v@.take(0), x));
    }
    while i < v.len()
        invariant
            i <= v@.len(),
            r@ == drop_edges(v@.take(i as int), x),
        decreases v@.len() - i,
    {
        proof {
            reveal(Seq::filter);
            assert(v@.take(i + 1).drop_last() =~= v@.take(i as int));
            assert(v@.take(i + 1).last() == v@[i as int]);
        }
        if v[i] != x {
            r.push(v[i]);
        }
        i = i + 1;
    }
    proof {
        assert(v@.take(v@.len() as int) =~= v@);
    }
    r
}

/// Introspection record for one node.
pub struct NodeMeta {
    pub this_node: NodeHandle,
    pub inputs: Vec<NodeHandle>,
    pub connected_to_input: bool,
    pub input_type: TypeTag,
    pub output_type: TypeTag,
}

/// The recoverable error kinds of graph construction and compilation.
#[derive(Debug)]
pub enum ComputeGraphErrors {
    NoInputNodes,
    NoOutputNode,
    NodeMissing,
    IncompatibleNewNode(String),
    GraphCycle(String),
    WrongTypes(String),
}

/// The diagnostic text reported when an edge or a compile-time type check
/// finds two differing type identities.
pub open spec fn spec_wrong_types_msg(
    in_name: Seq<char>,
    in_type: Seq<char>,
    out_name: Seq<char>,
    out_type: Seq<char>,
) -> Seq<char> {
    "'"@ + in_name + "' input type '"@ + in_type + "' does not match '"@ + out_name
        + "' output type '"@ + out_type + "'"@
}

/// One clause of a node-replacement rejection: which slot mismatched and the
/// old and new type names.
pub open spec fn spec_mismatch_part(
    slot: Seq<char>,
    old_type: Seq<char>,
    new_type: Seq<char>,
) -> Seq<char> {
    "'"@ + slot + "'s old type '"@ + old_type + "' != new type '"@ + new_type + "'"@
}

/// The clauses joined with a comma separator.
pub open spec fn spec_mismatch_list(items: Seq<(Seq<char>, Seq<char>, Seq<char>)>) -> Seq<char>
    decreases items.len(),
{
    if items.len() == 0 {
        Seq::empty()
    } else {
        let part = spec_mismatch_part(items.last().0, items.last().1, items.last().2);
        if items.len() == 1 {
            part
        } else {
            spec_mismatch_list(items.drop_last()) + ", "@ + part
        }
    }
}

/// The diagnostic text reported when a node replacement is rejected.
pub open spec fn spec_incompatible_msg(
    name: Seq<char>,
    items: Seq<(Seq<char>, Seq<char>, Seq<char>)>,
) -> Seq<char> {
    "Can't replace '"@ + name + "' because: "@ + spec_mismatch_list(items)
}

impl ComputeGraphErrors {
    pub fn format_wrong_types(
        input_name: &str,
        input_type: &str,
        output_name: &str,
        output_type: &str,
    ) -> (r: Self)
        ensures
            r is WrongTypes,
            r->WrongTypes_0@ == spec_wrong_types_msg(
                input_name@,
                input_type@,
                output_name@,
                output_type@,
            ),
    {
        let mut msg = String::new();
        msg.append("'");
        msg.append(input_name);
        msg.append("' input type '");
        msg.append(input_type);
        msg.append("' does not match '");
        msg.append(output_name);
        msg.append("' output type '");
        msg.append(output_type);
        msg.append("'");
        proof {
            assert(msg@ =~= spec_wrong_types_msg(
                input_name@,
                input_type@,
                output_name@,
                output_type@,
            ));
        }
        Self::WrongTypes(msg)
    }

    pub fn format_incompatible_object(
        input_name: &str,
        incompatible_types: &Vec<(String, String, String)>,
    ) -> (r: Self)
        ensures
            r is IncompatibleNewNode,
            r->IncompatibleNewNode_0@ == spec_incompatible_msg(
                input_name@,
                incompatible_types@.map_values(
                    |t: (String, String, String)| (t.0@, t.1@, t.2@),
                ),
            ),
    {
        let ghost items = incompatible_types@.map_values(
            |t: (String, String, String)| (t.0@, t.1@, t.2@),
        );
        let mut msg = String::new();
        msg.append("Can't replace '");
        msg.append(input_name);
        msg.append("' because: ");
        let mut i: usize = 0;
        while i < incompatible_types.len()
            invariant
                i <= incompatible_types@.len(),
                items == incompatible_types@.map_values(
                    |t: (String, String, String)| (t.0@, t.1@, t.2@),
                ),
                items.len() == incompatible_types@.len(),
                msg@ == "Can't replace '"@ + input_name@ + "' because: "@ + spec_mismatch_list(
                    items.take(i as int),
                ),
            decreases incompatible_types@.len() - i,
        {
            if i > 0 {
                msg.append(", ");
            }
            let (slot_name, old_type_name, new_type_name) = (
                &incompatible_types[i].0,
                &incompatible_types[i].1,
                &incompatible_types[i].2,
            );
            msg.append("'");
            msg.append(slot_name.as_str());
            msg.append("'s old type '");
            msg.append(old_type_name.as_str());
            msg.append("' != new type '");
            msg.append(new_type_name.as_str());
            msg.append("'");
            proof {
                assert(items.take(i + 1).drop_last() =~= items.take(i as int));
                assert(items.take(i + 1).last() == items[i as int]);
                assert(msg@ =~= "Can't replace '"@ + input_name@ + "' because: "@
                    + spec_mismatch_list(items.take(i + 1)));
            }
            i = i + 1;
        }
        proof {
            assert(items.take(items.len() as int) =~= items);
        }
        Self::IncompatibleNewNode(msg)
    }
}

pub(crate) struct Node<C> {
    pub(crate) name: String,
    pub(crate) inputs: Vec<usize>,
    pub(crate) connected_to_input: bool,
    pub(crate) func: C,
}

impl<C> View for Node<C> {
    type V = NodeView<C>;

    closed spec fn view(&self) -> NodeView<C> {
        NodeView {
            name: self.name@,
            inputs: self.inputs@,
            connected: self.connected_to_input,
            func: self.func,
        }
    }
}

/// The mutable graph builder: owns all node definitions and edges, a
/// type-name registry for diagnostics, and an optional designated output
/// node. Nodes live in an append-only slot store; removing a node leaves a
/// tombstone, so handles to other live nodes stay valid and a stale handle
/// is always detected.
pub struct Graph<C> {
    pub(crate) slots: Vec<Option<Node<C>>>,
    pub(crate) type_names: Vec<TypeTag>,
    pub(crate) output_node: Option<usize>,
    pub(crate) id: u64,
}

impl<C> View for Graph<C> {
    type V = GView<C>;

    closed spec fn view(&self) -> GView<C> {
        self.slots@.map_values(
            |s: Option<Node<C>>|
                match s {
                    Option::Some(n) => Option::Some(n@),
                    Option::None => Option::<NodeView<C>>::None,
                },
        )
    }
}

impl<C: Compute> Graph<C> {
    pub closed spec fn spec_id(&self) -> u64 {
        self.id
    }

    pub closed spec fn spec_output(&self) -> Option<usize> {
        self.output_node
    }

    pub closed spec fn spec_seen(&self) -> Seq<TypeTag> {
        self.type_names@
    }

    pub open spec fn wf(&self) -> bool {
        graph_wf(self@)
    }

    /// The handle carries this graph's identity tag. Presenting a handle of
    /// another graph instance is a programming defect, which every operation
    /// excludes by precondition.
    pub open spec fn owns(&self, h: NodeHandle) -> bool {
        h.spec_gid() == self.spec_id()
    }

    pub open spec fn handle_live(&self, h: NodeHandle) -> bool {
        self.owns(h) && live_at(self@, h.spec_idx())
    }

    pub open spec fn registered(&self, t: TypeTag) -> bool {
        self.spec_seen().contains(t)
    }

    pub fn new() -> (g: Self)
        ensures
            g@.len() == 0,
            g.wf(),
            g.spec_output() is None,
            g.spec_seen().len() == 0,
    {
        let g = Self {
            slots: Vec::new(),
            type_names: Vec::new(),
            output_node: None,
            id: 0,
        };
        proof {
            assert(g@.len() == 0);
        }
        g
    }

    /// Records a type identity in the diagnostics registry, once.
    fn note_type(&mut self, t: TypeTag)
        ensures
            final(self).slots@ == old(self).slots@,
            final(self)@ == old(self)@,
            final(self).spec_id() == old(self).spec_id(),
            final(self).spec_output() == old(self).spec_output(),
            final(self).registered(t),
            forall|u: TypeTag| old(self).registered(u) ==> final(self).registered(u),
            forall|u: TypeTag|
                final(self).registered(u) ==> old(self).registered(u) || u == t,
    {
        let mut i: usize = 0;
        while i < self.type_names.len()
            invariant
                i <= self.type_names@.len(),
                forall|k: int| 0 <= k < i ==> self.type_names@[k] != t,
            decreases self.type_names@.len() - i,
        {
            if self.type_names[i] == t {
                proof {
                    assert(self.spec_seen()[i as int] == t);
                }
                return ;
            }
            i = i + 1;
        }
        self.type_names.push(t);
        proof {
            let s_old = old(self).spec_seen();
            let s_new = self.type_names@;
            assert(s_new == s_old.push(t));
            assert(s_new[s_old.len() as int] == t);
            assert forall|u: TypeTag| s_old.contains(u) implies s_new.contains(u) by {
                let j = choose|j: int| 0 <= j < s_old.len() && s_old[j] == u;
                assert(s_new[j] == u);
            }
            assert forall|u: TypeTag| s_new.contains(u) implies s_old.contains(u) || u == t by {
                let j = choose|j: int| 0 <= j < s_new.len() && s_new[j] == u;
                if j < s_old.len() {
                    assert(s_old[j] == u);
                }
            }
        }
    }

    /// Registers a new node with the given diagnostic name and capability.
    /// The node starts with no explicit inputs and with the external-input
    /// flag set: a node with no wiring is assumed to be a pipeline entry
    /// point until proven otherwise.
    pub fn insert_node(&mut self, name: &str, compute_object: C) -> (h: NodeHandle)
        requires
            old(self).wf(),
        ensures
            final(self).wf(),
            final(self).spec_id() == old(self).spec_id(),
            final(self).spec_output() == old(self).spec_output(),
            final(self)@.len() == old(self)@.len() + 1,
            forall|i: int| 0 <= i < old(self)@.len() ==> final(self)@[i] == old(self)@[i],
            h.spec_gid() == old(self).spec_id(),
            h.spec_idx() == old(self)@.len(),
            final(self).handle_live(h),
            node_at(final(self)@, h.spec_idx()).name == name@,
            node_at(final(self)@, h.spec_idx()).inputs.len() == 0,
            node_at(final(self)@, h.spec_idx()).connected == true,
            node_at(final(self)@, h.spec_idx()).func == compute_object,
            final(self).registered(compute_object.in_tag()),
            final(self).registered(compute_object.out_tag()),
            forall|u: TypeTag| old(self).registered(u) ==> final(self).registered(u),
            forall|u: TypeTag|
                final(self).registered(u) ==> old(self).registered(u) || u
                    == compute_object.in_tag() || u == compute_object.out_tag(),
    {
        let in_t = compute_object.input_type();
        let out_t = compute_object.output_type();
        self.note_type(in_t);
        self.note_type(out_t);
        let node = Node {
            name: name.to_owned(),
            inputs: Vec::new(),
            connected_to_input: true,
            func: compute_object,
        };
        let index = self.slots.len();
        self.slots.push(Some(node));
        let h = NodeHandle { index, graph_id: self.id };
        proof {
            assert(forall|i: int| 0 <= i < old(self)@.len() ==> self@[i] == old(self)@[i]);
            assert(self@.len() == old(self)@.len() + 1);
            assert(node_at(self@, h.spec_idx()).inputs.len() == 0);
            assert forall|i: int, k: int|
                live_at(self@, i) && 0 <= k < node_at(self@, i).inputs.len()
                    implies live_at(
                self@,
                #[trigger] node_at(self@, i).inputs[k] as int,
            ) by {
                if i < old(self)@.len() {
                    assert(live_at(old(self)@, i));
                    assert(node_at(old(self)@, i) == node_at(self@, i));
                    assert(live_at(old(self)@, node_at(old(self)@, i).inputs[k] as int));
                }
            }
        }
        h
    }

    /// Deletes the node and strips it from every other node's input list;
    /// dangling edges are silently pruned, not reported. A stale handle is a
    /// no-op. The external-input flag of the remaining nodes is not touched.
    #[verifier::loop_isolation(false)]
    pub fn remove_node(&mut self, node_handle: &NodeHandle)
        requires
            old(self).wf(),
            old(self).owns(*node_handle),
        ensures
            final(self).wf(),
            final(self).spec_id() == old(self).spec_id(),
            final(self).spec_output() == old(self).spec_output(),
            final(self).spec_seen() == old(self).spec_seen(),
            final(self)@.len() == old(self)@.len(),
            !live_at(final(self)@, node_handle.spec_idx()),
            forall|i: int|
                0 <= i < old(self)@.len() && i != node_handle.spec_idx() ==> (live_at(
                    final(self)@,
                    i,
                ) <==> live_at(old(self)@, i)),
            forall|i: int|
                live_at(old(self)@, i) && i != node_handle.spec_idx() ==> node_at(
                    final(self)@,
                    i,
                ).name == node_at(old(self)@, i).name && node_at(final(self)@, i).connected
                    == node_at(old(self)@, i).connected && node_at(final(self)@, i).func
                    == node_at(old(self)@, i).func && node_at(final(self)@, i).inputs
                    == drop_edges(
                    node_at(old(self)@, i).inputs,
                    node_handle.spec_idx() as usize,
                ),
    {
        let idx = node_handle.index;
        if idx < self.slots.len() {
            self.slots[idx] = None;
        }
        let ghost mid = self@;
        let n = self.slots.len();
        let mut i: usize = 0;
        while i < n
            invariant
                n == self.slots@.len(),
                mid.len() == n,
                i <= n,
                self.id == old(self).id,
                self.output_node == old(self).output_node,
                self.type_names@ == old(self).type_names@,
                forall|j: int| i <= j < n ==> self@[j] == mid[j],
                forall|j: int| 0 <= j < i ==> (live_at(self@, j) <==> live_at(mid, j)),
                forall|j: int|
                    0 <= j < i && live_at(mid, j) ==> node_at(self@, j).name == node_at(
                        mid,
                        j,
                    ).name && node_at(self@, j).connected == node_at(mid, j).connected && node_at(
                        self@,
                        j,
                    ).func == node_at(mid, j).func && node_at(self@, j).inputs == drop_edges(
                        node_at(mid, j).inputs,
                        idx,
                    ),
            decreases n - i,
        {
            let slot = self.slots[i].take();
            match slot {
                Some(node) => {
                    let new_inputs = retain_not_equal(&node.inputs, idx);
                    let new_node = Node {
                        name: node.name,
                        inputs: new_inputs,
                        connected_to_input: node.connected_to_input,
                        func: node.func,
                    };
                    self.slots[i] = Some(new_node);
                },
                None => {},
            }
            i = i + 1;
        }
        proof {
            assert forall|j: int, k: int|
                live_at(self@, j) && 0 <= k < node_at(self@, j).inputs.len()
                    implies live_at(
                self@,
                node_at(self@, j).inputs[k] as int,
            ) by {
                assert(live_at(mid, j));
                let s = node_at(mid, j).inputs;
                lemma_drop_edges_subset(s, idx);
                let e = node_at(self@, j).inputs[k];
                assert(e == drop_edges(s, idx)[k]);
                assert(s.contains(e) && e != idx);
                let m = choose|m: int| 0 <= m < s.len() && s[m] == e;
                assert(node_at(mid, j).inputs == node_at(old(self)@, j).inputs);
                assert(live_at(old(self)@, e as int));
                assert(e < n);
                assert(mid[e as int] == old(self)@[e as int]);
                assert(live_at(mid, e as int));
                assert(live_at(self@, e as int));
            }
            assert(!live_at(mid, node_handle.spec_idx()));
            assert(!live_at(self@, node_handle.spec_idx()));
            assert forall|t: int|
                0 <= t < old(self)@.len() && t != node_handle.spec_idx() implies (live_at(
                self@,
                t,
            ) <==> live_at(old(self)@, t)) by {
                assert(mid[t] == old(self)@[t]);
                assert(live_at(mid, t) <==> live_at(old(self)@, t));
                assert(live_at(self@, t) <==> live_at(mid, t));
            }
            assert forall|t: int| live_at(old(self)@, t) && t != node_handle.spec_idx() implies {
                let f = node_at(self@, t);
                let d = node_at(old(self)@, t);
                f.name == d.name && f.connected == d.connected && f.func == d.func && f.inputs
                    == drop_edges(d.inputs, idx)
            } by {
                assert(mid[t] == old(self)@[t]);
                assert(live_at(mid, t));
            }
        }
    }

    /// Appends `input_node_handle` as the last explicit input of
    /// `node_handle`, provided the source's declared output type identity
    /// equals the destination's declared input type identity; otherwise
    /// fails with a type error and leaves the graph unchanged. When the
    /// destination gains its first explicit input, its external-input flag
    /// is cleared; later additions leave the flag as it stands.
    pub fn add_input(&mut self, node_handle: &NodeHandle, input_node_handle: &NodeHandle) -> (r:
        Result<(), ComputeGraphErrors>)
        requires
            old(self).wf(),
            old(self).handle_live(*node_handle),
            old(self).handle_live(*input_node_handle),
        ensures
            final(self).wf(),
            final(self).spec_id() == old(self).spec_id(),
            final(self).spec_output() == old(self).spec_output(),
            final(self).spec_seen() == old(self).spec_seen(),
            ({
                let d = node_at(old(self)@, node_handle.spec_idx());
                let s = node_at(old(self)@, input_node_handle.spec_idx());
                if d.func.in_tag() == s.func.out_tag() {
                    &&& r is Ok
                    &&& same_except(old(self)@, final(self)@, node_handle.spec_idx())
                    &&& live_at(final(self)@, node_handle.spec_idx())
                    &&& node_at(final(self)@, node_handle.spec_idx()).name == d.name
                    &&& node_at(final(self)@, node_handle.spec_idx()).func == d.func
                    &&& node_at(final(self)@, node_handle.spec_idx()).inputs == d.inputs.push(
                        input_node_handle.spec_idx() as usize,
                    )
                    &&& node_at(final(self)@, node_handle.spec_idx()).connected == (if d.inputs.len()
                        == 0 {
                        false
                    } else {
                        d.connected
                    })
                } else {
                    &&& r is Err
                    &&& r->Err_0 is WrongTypes
                    &&& r->Err_0->WrongTypes_0@ == spec_wrong_types_msg(
                        d.name,
                        spec_tag_name(d.func.in_tag()),
                        s.name,
                        spec_tag_name(s.func.out_tag()),
                    )
                    &&& *final(self) == *old(self)
                }
            }),
    {
        let d_in = self.slots[node_handle.index].as_ref().unwrap().func.input_type();
        let s_out = self.slots[input_node_handle.index].as_ref().unwrap().func.output_type();
        if d_in == s_out {
            let slot = self.slots[node_handle.index].take();
            let mut node = slot.unwrap();
            if node.inputs.len() == 0 {
                node.connected_to_input = false;
            }
            node.inputs.push(input_node_handle.index);
            self.slots[node_handle.index] = Some(node);
            proof {
                assert forall|j: int, k: int|
                    live_at(self@, j) && 0 <= k < node_at(self@, j).inputs.len()
                        implies live_at(
                    self@,
                    node_at(self@, j).inputs[k] as int,
                ) by {
                    assert(live_at(old(self)@, j));
                    if j != node_handle.spec_idx() {
                        assert(node_at(self@, j) == node_at(old(self)@, j));
                        assert(live_at(old(self)@, node_at(old(self)@, j).inputs[k] as int));
                    } else {
                        let d = node_at(old(self)@, node_handle.spec_idx());
                        if k < d.inputs.len() {
                            assert(live_at(old(self)@, d.inputs[k] as int));
                        } else {
                            assert(node_at(self@, j).inputs[k]
                                == input_node_handle.spec_idx() as usize);
                        }
                    }
                }
            }
            Ok(())
        } else {
            let dt = tag_name(&d_in);
            let st = tag_name(&s_out);
            let err = ComputeGraphErrors::format_wrong_types(
                self.slots[node_handle.index].as_ref().unwrap().name.as_str(),
                dt.as_str(),
                self.slots[input_node_handle.index].as_ref().unwrap().name.as_str(),
                st.as_str(),
            );
            Err(err)
        }
    }

    /// Removes every occurrence of `input_to_remove_handle` from the node's
    /// input list. The external-input flag is not restored. A stale handle
    /// is a no-op.
    pub fn remove_input(&mut self, node_handle: &NodeHandle, input_to_remove_handle: &NodeHandle)
        requires
            old(self).wf(),
            old(self).owns(*node_handle),
        ensures
            final(self).wf(),
            final(self).spec_id() == old(self).spec_id(),
            final(self).spec_output() == old(self).spec_output(),
            final(self).spec_seen() == old(self).spec_seen(),
            same_except(old(self)@, final(self)@, node_handle.spec_idx()),
            live_at(final(self)@, node_handle.spec_idx()) <==> live_at(
                old(self)@,
                node_handle.spec_idx(),
            ),
            live_at(old(self)@, node_handle.spec_idx()) ==> ({
                let d = node_at(old(self)@, node_handle.spec_idx());
                let f = node_at(final(self)@, node_handle.spec_idx());
                f.name == d.name && f.connected == d.connected && f.func == d.func && f.inputs
                    == drop_edges(d.inputs, input_to_remove_handle.spec_idx() as usize)
            }),
    {
        let idx = node_handle.index;
        if idx < self.slots.len() {
            let slot = self.slots[idx].take();
            match slot {
                Some(node) => {
                    let new_inputs = retain_not_equal(&node.inputs, input_to_remove_handle.index);
                    let new_node = Node {
                        name: node.name,
                        inputs: new_inputs,
                        connected_to_input: node.connected_to_input,
                        func: node.func,
                    };
                    self.slots[idx] = Some(new_node);
                },
                None => {},
            }
        }
        proof {
            if !live_at(old(self)@, node_handle.spec_idx()) {
                self.lemma_wf_same_nodes(old(self)@);
            } else {
                let x = input_to_remove_handle.index;
                let d = node_at(old(self)@, node_handle.spec_idx());
                assert forall|j: int, k: int|
                    live_at(self@, j) && 0 <= k < node_at(self@, j).inputs.len()
                        implies live_at(
                    self@,
                    node_at(self@, j).inputs[k] as int,
                ) by {
                    assert(live_at(old(self)@, j));
                    if j != node_handle.spec_idx() {
                        assert(node_at(self@, j) == node_at(old(self)@, j));
                        assert(live_at(old(self)@, node_at(old(self)@, j).inputs[k] as int));
                    } else {
                        lemma_drop_edges_subset(d.inputs, x);
                        let e = node_at(self@, j).inputs[k];
                        assert(e == drop_edges(d.inputs, x)[k]);
                        assert(d.inputs.contains(e));
                        let m = choose|m: int| 0 <= m < d.inputs.len() && d.inputs[m] == e;
                        assert(live_at(old(self)@, e as int));
                    }
                }
            }
        }
    }

    /// The node's diagnostic name, or `NodeMissing` if the node no longer
    /// exists.
    pub fn get_name(&self, node_handle: &NodeHandle) -> (r: Result<String, ComputeGraphErrors>)
        requires
            self.owns(*node_handle),
        ensures
            live_at(self@, node_handle.spec_idx()) ==> r is Ok && r->Ok_0@ == node_at(
                self@,
                node_handle.spec_idx(),
            ).name,
            !live_at(self@, node_handle.spec_idx()) ==> r is Err && r->Err_0 is NodeMissing,
    {
        if node_handle.index < self.slots.len() {
            match &self.slots[node_handle.index] {
                Some(node) => Ok(node.name.clone()),
                None => Err(ComputeGraphErrors::NodeMissing),
            }
        } else {
            Err(ComputeGraphErrors::NodeMissing)
        }
    }

    /// The registered human-readable name of a type identity, if any node
    /// declaring it was ever inserted.
    pub fn get_type_name(&self, type_id: TypeTag) -> (r: Option<String>)
        ensures
            self.registered(type_id) ==> r is Some && r->0@ == spec_tag_name(type_id),
            !self.registered(type_id) ==> r is None,
    {
        let mut i: usize = 0;
        while i < self.type_names.len()
            invariant
                i <= self.type_names@.len(),
                forall|k: int| 0 <= k < i ==> self.type_names@[k] != type_id,
            decreases self.type_names@.len() - i,
        {
            if self.type_names[i] == type_id {
                proof {
                    assert(self.spec_seen()[i as int] == type_id);
                }
                return Some(tag_name(&type_id));
            }
            i = i + 1;
        }
        None
    }

    /// Designates the graph's terminal node, replacing any prior
    /// designation.
    pub fn set_output_node(&mut self, node_handle: &NodeHandle)
        requires
            old(self).wf(),
            old(self).owns(*node_handle),
        ensures
            final(self).wf(),
            final(self)@ == old(self)@,
            final(self).spec_id() == old(self).spec_id(),
            final(self).spec_seen() == old(self).spec_seen(),
            final(self).spec_output() == Some(node_handle.spec_idx() as usize),
    {
        self.output_node = Some(node_handle.index);
    }

    /// Sets the node's external-input flag, independent of wiring state. A
    /// stale handle is a no-op.
    pub fn connect_to_input(&mut self, node_handle: &NodeHandle)
        requires
            old(self).wf(),
            old(self).owns(*node_handle),
        ensures
            final(self).wf(),
            final(self).spec_id() == old(self).spec_id(),
            final(self).spec_output() == old(self).spec_output(),
            final(self).spec_seen() == old(self).spec_seen(),
            same_except(old(self)@, final(self)@, node_handle.spec_idx()),
            live_at(final(self)@, node_handle.spec_idx()) <==> live_at(
                old(self)@,
                node_handle.spec_idx(),
            ),
            live_at(old(self)@, node_handle.spec_idx()) ==> ({
                let d = node_at(old(self)@, node_handle.spec_idx());
                let f = node_at(final(self)@, node_handle.spec_idx());
                f.name == d.name && f.inputs == d.inputs && f.func == d.func && f.connected == true
            }),
    {
        let idx = node_handle.index;
        if idx < self.slots.len() {
            let slot = self.slots[idx].take();
            match slot {
                Some(node) => {
                    let new_node = Node {
                        name: node.name,
                        inputs: node.inputs,
                        connected_to_input: true,
                        func: node.func,
                    };
                    self.slots[idx] = Some(new_node);
                },
                None => {},
            }
        }
        proof {
            self.lemma_wf_same_nodes(old(self)@);
        }
    }

    /// Clears the node's external-input flag, independent of wiring state.
    /// A stale handle is a no-op.
    pub fn disconnect_from_input(&mut self, node_handle: &NodeHandle)
        requires
            old(self).wf(),
            old(self).owns(*node_handle),
        ensures
            final(self).wf(),
            final(self).spec_id() == old(self).spec_id(),
            final(self).spec_output() == old(self).spec_output(),
            final(self).spec_seen() == old(self).spec_seen(),
            same_except(old(self)@, final(self)@, node_handle.spec_idx()),
            live_at(final(self)@, node_handle.spec_idx()) <==> live_at(
                old(self)@,
                node_handle.spec_idx(),
            ),
            live_at(old(self)@, node_handle.spec_idx()) ==> ({
                let d = node_at(old(self)@, node_handle.spec_idx());
                let f = node_at(final(self)@, node_handle.spec_idx());
                f.name == d.name && f.inputs == d.inputs && f.func == d.func && f.connected == false
            }),
    {
        let idx = node_handle.index;
        if idx < self.slots.len() {
            let slot = self.slots[idx].take();
            match slot {
                Some(node) => {
                    let new_node = Node {
                        name: node.name,
                        inputs: node.inputs,
                        connected_to_input: false,
                        func: node.func,
                    };
                    self.slots[idx] = Some(new_node);
                },
                None => {},
            }
        }
        proof {
            self.lemma_wf_same_nodes(old(self)@);
        }
    }

    /// Well-formedness carries over to a state with the same liveness and
    /// the same input lists everywhere.
    proof fn lemma_wf_same_nodes(&self, g_old: GView<C>)
        requires
            graph_wf(g_old),
            self@.len() == g_old.len(),
            forall|j: int| 0 <= j < g_old.len() ==> (live_at(self@, j) <==> live_at(g_old, j)),
            forall|j: int|
                live_at(g_old, j) ==> node_at(self@, j).inputs == node_at(g_old, j).inputs,
        ensures
            self.wf(),
    {
        assert forall|j: int, k: int|
            live_at(self@, j) && 0 <= k < node_at(self@, j).inputs.len() implies live_at(
            self@,
            node_at(self@, j).inputs[k] as int,
        ) by {
            assert(live_at(g_old, j));
            assert(live_at(g_old, node_at(g_old, j).inputs[k] as int));
        }
    }

    /// Swaps the node's capability for a new one with exactly matching
    /// input and output type identities; otherwise fails, enumerating every
    /// mismatched slot, and leaves the original capability installed.
    /// Wiring is untouched either way.
    pub fn replace_node(&mut self, node_handle: &NodeHandle, compute_object: C) -> (r: Result<
        (),
        ComputeGraphErrors,
    >)
        requires
            old(self).wf(),
            old(self).owns(*node_handle),
        ensures
            final(self).wf(),
            final(self).spec_id() == old(self).spec_id(),
            final(self).spec_output() == old(self).spec_output(),
            final(self).spec_seen() == old(self).spec_seen(),
            !live_at(old(self)@, node_handle.spec_idx()) ==> r is Err && r->Err_0 is NodeMissing
                && *final(self) == *old(self),
            live_at(old(self)@, node_handle.spec_idx()) ==> ({
                let d = node_at(old(self)@, node_handle.spec_idx());
                let in_ok = compute_object.in_tag() == d.func.in_tag();
                let out_ok = compute_object.out_tag() == d.func.out_tag();
                if in_ok && out_ok {
                    &&& r is Ok
                    &&& same_except(old(self)@, final(self)@, node_handle.spec_idx())
                    &&& live_at(final(self)@, node_handle.spec_idx())
                    &&& ({
                        let f = node_at(final(self)@, node_handle.spec_idx());
                        f.name == d.name && f.inputs == d.inputs && f.connected == d.connected
                            && f.func == compute_object
                    })
                } else {
                    &&& r is Err
                    &&& r->Err_0 is IncompatibleNewNode
                    &&& r->Err_0->IncompatibleNewNode_0@ == spec_incompatible_msg(
                        d.name,
                        (if !in_ok {
                            seq![
                                (
                                    "input"@,
                                    spec_tag_name(d.func.in_tag()),
                                    spec_tag_name(compute_object.in_tag()),
                                ),
                            ]
                        } else {
                            Seq::empty()
                        }) + (if !out_ok {
                            seq![
                                (
                                    "output"@,
                                    spec_tag_name(d.func.out_tag()),
                                    spec_tag_name(compute_object.out_tag()),
                                ),
                            ]
                        } else {
                            Seq::empty()
                        }),
                    )
                    &&& *final(self) == *old(self)
                }
            }),
    {
        let idx = node_handle.index;
        if idx >= self.slots.len() || self.slots[idx].is_none() {
            return Err(ComputeGraphErrors::NodeMissing);
        }
        let old_in = self.slots[idx].as_ref().unwrap().func.input_type();
        let old_out = self.slots[idx].as_ref().unwrap().func.output_type();
        let new_in = compute_object.input_type();
        let new_out = compute_object.output_type();
        let in_ok = new_in == old_in;
        let out_ok = new_out == old_out;
        if in_ok && out_ok {
            let slot = self.slots[idx].take();
            let node = slot.unwrap();
            let new_node = Node {
                name: node.name,
                inputs: node.inputs,
                connected_to_input: node.connected_to_input,
                func: compute_object,
            };
            self.slots[idx] = Some(new_node);
            proof {
                self.lemma_wf_same_nodes(old(self)@);
            }
            Ok(())
        } else {
            let mut type_errors: Vec<(String, String, String)> = Vec::new();
            if !in_ok {
                type_errors.push(("input".to_owned(), tag_name(&old_in), tag_name(&new_in)));
            }
            if !out_ok {
                type_errors.push(("output".to_owned(), tag_name(&old_out), tag_name(&new_out)));
            }
            let err = ComputeGraphErrors::format_incompatible_object(
                self.slots[idx].as_ref().unwrap().name.as_str(),
                &type_errors,
            );
            proof {
                let d = node_at(old(self)@, node_handle.spec_idx());
                let items = (if !in_ok {
                    seq![
                        (
                            "input"@,
                            spec_tag_name(d.func.in_tag()),
                            spec_tag_name(compute_object.in_tag()),
                        ),
                    ]
                } else {
                    Seq::<(Seq<char>, Seq<char>, Seq<char>)>::empty()
                }) + (if !out_ok {
                    seq![
                        (
                            "output"@,
                            spec_tag_name(d.func.out_tag()),
                            spec_tag_name(compute_object.out_tag()),
                        ),
                    ]
                } else {
                    Seq::<(Seq<char>, Seq<char>, Seq<char>)>::empty()
                });
                assert(type_errors@.map_values(
                    |t: (String, String, String)| (t.0@, t.1@, t.2@),
                ) =~= items);
            }
            Err(err)
        }
    }
}

impl<C: Compute> Clone for Graph<C> {
    /// An independent copy of the builder: same nodes, wiring, flags,
    /// registry and output designation, with every capability re-cloned.
    fn clone(&self) -> (r: Self)
        ensures
            r@.len() == self@.len(),
            forall|i: int| 0 <= i < self@.len() ==> (live_at(r@, i) <==> live_at(self@, i)),
            forall|i: int| live_at(self@, i) ==> node_at(r@, i) == node_at(self@, i),
            r.spec_id() == self.spec_id(),
            r.spec_output() == self.spec_output(),
            r.spec_seen() == self.spec_seen(),
            self.wf() ==> r.wf(),
    {
        let mut slots: Vec<Option<Node<C>>> = Vec::new();
        let mut i: usize = 0;
        while i < self.slots.len()
            invariant
                i <= self.slots@.len(),
                slots@.len() == i,
                forall|j: int| 0 <= j < i ==> (#[trigger] slots@[j] is Some) == (self.slots@[j] is Some),
                forall|j: int|
                    0 <= j < i && self.slots@[j] is Some ==> (#[trigger] slots@[j])->0@
                        == self.slots@[j]->0@,
            decreases self.slots@.len() - i,
        {
            match &self.slots[i] {
                Some(node) => {
                    let copy = Node {
                        name: node.name.clone(),
                        inputs: copy_indices(&node.inputs),
                        connected_to_input: node.connected_to_input,
                        func: node.func.duplicate(),
                    };
                    slots.push(Some(copy));
                },
                None => {
                    slots.push(None);
                },
            }
            i = i + 1;
        }
        let mut type_names: Vec<TypeTag> = Vec::new();
        let mut t: usize = 0;
        while t < self.type_names.len()
            invariant
                t <= self.type_names@.len(),
                type_names@ == self.type_names@.take(t as int),
            decreases self.type_names@.len() - t,
        {
            type_names.push(self.type_names[t]);
            proof {
                assert(type_names@ =~= self.type_names@.take(t + 1));
            }
            t = t + 1;
        }
        proof {
            assert(type_names@ =~= self.type_names@);
        }
        let r = Graph { slots, type_names, output_node: self.output_node, id: self.id };
        proof {
            assert(forall|i2: int|
                0 <= i2 < self@.len() ==> (live_at(r@, i2) <==> live_at(self@, i2)));
            assert(forall|i2: int| live_at(self@, i2) ==> node_at(r@, i2) == node_at(self@, i2));
            if self.wf() {
                r.lemma_wf_same_nodes(self@);
            }
        }
        r
    }
}

impl<C: Compute> Default for Graph<C> {
    /// An empty graph, as `Graph::new` builds it.
    fn default() -> (g: Self)
        ensures
            g@.len() == 0,
            g.wf(),
            g.spec_output() is None,
            g.spec_seen().len() == 0,
    {
        Graph::new()
    }
}

/// Progress marker of the depth-first ordering: untouched, on the active
/// recursion path, or already placed in the order.
#[derive(Clone, Copy, Debug, PartialEq, Eq, Structural)]
pub(crate) enum Mark {
    Fresh,
    Active,
    Done,
}

/// How many slots the ordering has not yet touched; the termination measure
/// of the depth-first visit.
pub(crate) open spec fn count_fresh(m: Seq<Mark>) -> nat
    decreases m.len(),
{
    if m.len() == 0 {
        0
    } else {
        count_fresh(m.drop_last()) + if m.last() == Mark::Fresh {
            1nat
        } else {
            0nat
        }
    }
}

pub(crate) proof fn lemma_count_fresh_lt(m1: Seq<Mark>, m2: Seq<Mark>, i: int)
    requires
        m1.len() == m2.len(),
        forall|j: int| 0 <= j < m2.len() && m2[j] == Mark::Fresh ==> m1[j] == Mark::Fresh,
        0 <= i < m1.len(),
        m1[i] == Mark::Fresh,
        m2[i] != Mark::Fresh,
    ensures
        count_fresh(m2) < count_fresh(m1),
    decreases m1.len(),
{
    lemma_count_fresh_le(m1.drop_last(), m2.drop_last());
    if i == m1.len() - 1 {
    } else {
        lemma_count_fresh_lt(m1.drop_last(), m2.drop_last(), i);
    }
}

pub(crate) proof fn lemma_count_fresh_le(m1: Seq<Mark>, m2: Seq<Mark>)
    requires
        m1.len() == m2.len(),
        forall|j: int| 0 <= j < m2.len() && m2[j] == Mark::Fresh ==> m1[j] == Mark::Fresh,
    ensures
        count_fresh(m2) <= count_fresh(m1),
    decreases m1.len(),
{
    if m1.len() > 0 {
        lemma_count_fresh_le(m1.drop_last(), m2.drop_last());
    }
}

/// The first order list grows into the second without reordering.
pub open spec fn order_extends(o1: Seq<usize>, o2: Seq<usize>) -> bool {
    o1.len() <= o2.len() && forall|j: int| 0 <= j < o1.len() ==> o1[j] == o2[j]
}

pub(crate) proof fn lemma_extends_contains(o1: Seq<usize>, o2: Seq<usize>, e: usize)
    requires
        order_extends(o1, o2),
        o1.contains(e),
    ensures
        o2.contains(e),
{
    let j = choose|j: int| 0 <= j < o1.len() && o1[j] == e;
    assert(o2[j] == e);
}

pub(crate) proof fn lemma_push_contains(s: Seq<usize>, x: usize, y: usize)
    ensures
        s.push(x).contains(y) <==> (s.contains(y) || y == x),
{
    if s.contains(y) {
        let j = choose|j: int| 0 <= j < s.len() && s[j] == y;
        assert(s.push(x)[j] == y);
    }
    assert(s.push(x)[s.len() as int] == x);
    if s.push(x).contains(y) && y != x {
        let j = choose|j: int| 0 <= j < s.push(x).len() && s.push(x)[j] == y;
        assert(s[j] == y);
    }
}

/// The marks agree with the order built so far: a slot is `Done` exactly
/// when it is listed, `Active` slots are live, the order is duplicate-free
/// and input-closed.
pub(crate) open spec fn marks_inv<C>(g: GView<C>, ord: Seq<usize>, marks: Seq<Mark>) -> bool {
    &&& marks.len() == g.len()
    &&& ord.no_duplicates()
    &&& ordered_prefix(g, ord)
    &&& forall|j: int|
        0 <= j < marks.len() ==> ((#[trigger] marks[j] == Mark::Done) <==> ord.contains(j as usize))
    &&& forall|j: int| 0 <= j < marks.len() && #[trigger] marks[j] == Mark::Active ==> live_at(g, j)
}

/// The active recursion path: a chain of input edges whose members are
/// exactly the `Active` slots.
pub(crate) open spec fn stack_inv<C>(g: GView<C>, stack: Seq<usize>, marks: Seq<Mark>) -> bool {
    &&& forall|k: int|
        0 <= k < stack.len() ==> live_at(g, #[trigger] stack[k] as int) && marks[stack[k] as int]
            == Mark::Active
    &&& forall|j: int|
        0 <= j < marks.len() && #[trigger] marks[j] == Mark::Active ==> stack.contains(j as usize)
    &&& forall|k: int|
        0 <= k < stack.len() - 1 ==> node_at(g, #[trigger] stack[k] as int).inputs.contains(
            stack[k + 1],
        )
    &&& stack.no_duplicates()
}

impl<C: Compute> Graph<C> {
    /// Depth-first post-order visit: places every node of `i`'s transitive
    /// input closure before `i` itself, or reports a dependency cycle,
    /// naming a node that lies on it.
    #[verifier::loop_isolation(false)]
    fn toposort_visit(
        &self,
        i: usize,
        order: Vec<usize>,
        marks: Vec<Mark>,
        stack: Ghost<Seq<usize>>,
    ) -> (res: Result<(Vec<usize>, Vec<Mark>), ComputeGraphErrors>)
        requires
            self.wf(),
            live_at(self@, i as int),
            marks_inv(self@, order@, marks@),
            stack_inv(self@, stack@, marks@),
            stack@.len() > 0 ==> node_at(self@, stack@.last() as int).inputs.contains(i),
        ensures
            match res {
                Ok(om) => {
                    &&& marks_inv(self@, om.0@, om.1@)
                    &&& stack_inv(self@, stack@, om.1@)
                    &&& order_extends(order@, om.0@)
                    &&& om.0@.contains(i)
                    &&& om.1@.len() == marks@.len()
                    &&& (forall|j: int|
                        0 <= j < marks@.len() ==> ((marks@[j] == Mark::Active) <==> (om.1@[j]
                            == Mark::Active)))
                    &&& (forall|j: int|
                        0 <= j < marks@.len() && marks@[j] == Mark::Done ==> om.1@[j] == Mark::Done)
                    &&& (forall|j: int|
                        0 <= j < marks@.len() && om.1@[j] == Mark::Fresh ==> marks@[j]
                            == Mark::Fresh)
                    &&& (forall|e: usize| #![trigger om.0@.contains(e)]
                        om.0@.contains(e) && !order@.contains(e) ==> reaches(self@, i, e))
                    &&& (marks@[i as int] == Mark::Fresh ==> om.0@.len() > order@.len()
                        && om.0@.last() == i)
                },
                Err(e) => {
                    &&& e is GraphCycle
                    &&& exists|m: usize|
                        reaches(self@, i, m) && on_cycle(self@, m) && e->GraphCycle_0@ == node_at(
                            self@,
                            m as int,
                        ).name
                },
            },
        decreases count_fresh(marks@),
    {
        if marks[i] == Mark::Done {
            return Ok((order, marks));
        }
        if marks[i] == Mark::Active {
            let name = self.slots[i].as_ref().unwrap().name.clone();
            proof {
                assert(stack@.contains(i));
                let k0 = choose|k0: int| 0 <= k0 < stack@.len() && stack@[k0] == i;
                let p = stack@.subrange(k0, stack@.len() as int).push(i);
                assert(p.first() == i && p.last() == i && p.len() >= 2);
                assert forall|k: int| 0 <= k < p.len() implies live_at(
                    self@,
                    #[trigger] p[k] as int,
                ) by {
                    if k < p.len() - 1 {
                        assert(p[k] == stack@[k0 + k]);
                    }
                }
                assert forall|k: int| 0 <= k < p.len() - 1 implies node_at(
                    self@,
                    #[trigger] p[k] as int,
                ).inputs.contains(p[k + 1]) by {
                    assert(p[k] == stack@[k0 + k]);
                    if k < p.len() - 2 {
                        assert(p[k + 1] == stack@[k0 + k + 1]);
                    } else {
                        assert(p[k] == stack@.last());
                    }
                }
                assert(is_path(self@, p));
                assert(on_cycle(self@, i));
                lemma_reaches_self(self@, i);
                assert(name@ == node_at(self@, i as int).name);
            }
            return Err(ComputeGraphErrors::GraphCycle(name));
        }
        let ghost order_in = order@;
        let ghost marks_in = marks@;
        let mut order = order;
        let mut marks = marks;
        marks[i] = Mark::Active;
        let ghost stack2 = stack@.push(i);
        proof {
            assert forall|j: int|
                0 <= j < marks@.len() && #[trigger] marks@[j] == Mark::Active implies
            stack2.contains(j as usize) by {
                if j == i {
                    assert(stack2[stack@.len() as int] == i);
                } else {
                    assert(stack@.contains(j as usize));
                    let m = choose|m: int| 0 <= m < stack@.len() && stack@[m] == j as usize;
                    assert(stack2[m] == j as usize);
                }
            }
            assert forall|k: int| 0 <= k < stack2.len() implies live_at(
                self@,
                #[trigger] stack2[k] as int,
            ) && marks@[stack2[k] as int] == Mark::Active by {
                if k < stack@.len() {
                    assert(stack2[k] == stack@[k]);
                    assert(marks_in[stack@[k] as int] == Mark::Active);
                }
            }
            if stack@.contains(i) {
                assert(marks_in[i as int] == Mark::Active);
                assert(false);
            }
            assert(stack2.no_duplicates());
            assert(stack_inv(self@, stack2, marks@));
        }
        let num = self.slots[i].as_ref().unwrap().inputs.len();
        let mut k: usize = 0;
        while k < num
            invariant
                k <= num,
                num == node_at(self@, i as int).inputs.len(),
                marks@.len() == marks_in.len(),
                marks@[i as int] == Mark::Active,
                marks_inv(self@, order@, marks@),
                stack_inv(self@, stack2, marks@),
                order_extends(order_in, order@),
                forall|j: int|
                    0 <= j < marks_in.len() && j != i ==> ((marks_in[j] == Mark::Active) <==> (
                    marks@[j] == Mark::Active)),
                forall|j: int|
                    0 <= j < marks_in.len() && marks_in[j] == Mark::Done ==> marks@[j]
                        == Mark::Done,
                forall|j: int|
                    0 <= j < marks_in.len() && marks@[j] == Mark::Fresh ==> marks_in[j]
                        == Mark::Fresh,
                forall|e: usize|
                    order@.contains(e) && !order_in.contains(e) ==> reaches(self@, i, e),
                forall|j: int|
                    0 <= j < k ==> order@.contains(#[trigger] node_at(self@, i as int).inputs[j]),
            decreases num - k,
        {
            let inp = self.slots[i].as_ref().unwrap().inputs[k];
            proof {
                assert(node_at(self@, i as int).inputs[k as int] == inp);
                assert(live_at(self@, inp as int));
                lemma_count_fresh_lt(marks_in, marks@, i as int);
            }
            let ghost order_pre = order@;
            let ghost marks_pre = marks@;
            let r = self.toposort_visit(inp, order, marks, Ghost(stack2));
            match r {
                Ok(om) => {
                    let (o2, m2) = om;
                    order = o2;
                    marks = m2;
                    proof {
                        lemma_reaches_edge(self@, i, inp);
                        assert forall|e: usize|
                            order@.contains(e) && !order_in.contains(e) implies reaches(
                            self@,
                            i,
                            e,
                        ) by {
                            if order_pre.contains(e) {
                            } else {
                                assert(reaches(self@, inp, e));
                                lemma_reaches_trans(self@, i, inp, e);
                            }
                        }
                        assert forall|j: int| 0 <= j < k + 1 implies order@.contains(
                            #[trigger] node_at(self@, i as int).inputs[j],
                        ) by {
                            if j < k {
                                lemma_extends_contains(
                                    order_pre,
                                    order@,
                                    node_at(self@, i as int).inputs[j],
                                );
                            }
                        }
                        assert forall|j: int| 0 <= j < order_in.len() implies order_in[j]
                            == order@[j] by {
                            assert(order_in[j] == order_pre[j]);
                        }
                    }
                },
                Err(e) => {
                    proof {
                        lemma_reaches_edge(self@, i, inp);
                        let m = choose|m: usize|
                            reaches(self@, inp, m) && on_cycle(self@, m) && e->GraphCycle_0@
                                == node_at(self@, m as int).name;
                        lemma_reaches_trans(self@, i, inp, m);
                    }
                    return Err(e);
                },
            }
            k = k + 1;
        }
        let ghost order_before = order@;
        let ghost marks_exit = marks@;
        order.push(i);
        marks[i] = Mark::Done;
        proof {
            if order_before.contains(i) {
                assert(false);
            }
            assert(order@ == order_before.push(i));
            assert(order@.take(order_before.len() as int) =~= order_before);
            assert(order@.no_duplicates());
            assert forall|t: int| #![trigger order@[t]] 0 <= t < order@.len() implies live_at(
                self@,
                order@[t] as int,
            ) && (forall|j: int|
                0 <= j < node_at(self@, order@[t] as int).inputs.len() ==> order@.take(
                    t,
                ).contains(#[trigger] node_at(self@, order@[t] as int).inputs[j])) by {
                if t < order_before.len() {
                    assert(order_before[t] == order@[t]);
                    assert(live_at(self@, order_before[t] as int));
                    assert forall|j: int|
                        0 <= j < node_at(self@, order@[t] as int).inputs.len() implies order@.take(
                        t,
                    ).contains(#[trigger] node_at(self@, order@[t] as int).inputs[j]) by {
                        assert(order_before.take(t).contains(
                            node_at(self@, order_before[t] as int).inputs[j],
                        ));
                        assert(order@.take(t) =~= order_before.take(t));
                    }
                } else {
                    assert(order@[t] == i);
                    assert forall|j: int|
                        0 <= j < node_at(self@, i as int).inputs.len() implies order@.take(
                        t,
                    ).contains(#[trigger] node_at(self@, i as int).inputs[j]) by {
                        assert(order_before.contains(node_at(self@, i as int).inputs[j]));
                        assert(order@.take(t) =~= order_before);
                    }
                }
            }
            assert forall|j: int|
                0 <= j < marks@.len() implies ((#[trigger] marks@[j] == Mark::Done)
                <==> order@.contains(j as usize)) by {
                lemma_push_contains(order_before, i, j as usize);
                assert(marks.len() == marks@.len());
                if j == i as int {
                    assert(marks@[j] == Mark::Done);
                    assert(order@.contains(i));
                } else {
                    assert(marks@[j] == marks_exit[j]);
                    assert((marks_exit[j] == Mark::Done) <==> order_before.contains(j as usize));
                    assert(j as usize != i);
                }
            }
            assert forall|j: int|
                0 <= j < marks@.len() && #[trigger] marks@[j] == Mark::Active implies
            stack@.contains(j as usize) by {
                assert(j != i);
                assert(stack2.contains(j as usize));
                let m = choose|m: int| 0 <= m < stack2.len() && stack2[m] == j as usize;
                assert(m < stack@.len());
                assert(stack@[m] == j as usize);
            }
            assert(stack_inv(self@, stack@, marks@));
            assert(marks_inv(self@, order@, marks@));
            lemma_reaches_self(self@, i);
            assert forall|e: usize|
                order@.contains(e) && !order_in.contains(e) implies reaches(self@, i, e) by {
                lemma_push_contains(order_before, i, e);
            }
        }
        Ok((order, marks))
    }

    /// Dependency-order linearization of `node`'s transitive input closure,
    /// or a cycle error when one is reachable from `node`.
    fn compute_order(&self, node: usize) -> (res: Result<Vec<usize>, ComputeGraphErrors>)
        requires
            self.wf(),
            live_at(self@, node as int),
        ensures
            match res {
                Ok(ord) => {
                    &&& lin_order(self@, node, ord@)
                    &&& !has_cycle_from(self@, node)
                },
                Err(e) => {
                    &&& e is GraphCycle
                    &&& has_cycle_from(self@, node)
                    &&& exists|m: usize|
                        reaches(self@, node, m) && on_cycle(self@, m) && e->GraphCycle_0@
                            == node_at(self@, m as int).name
                },
            },
    {
        let order: Vec<usize> = Vec::new();
        let mut marks: Vec<Mark> = Vec::new();
        let mut j: usize = 0;
        let n = self.slots.len();
        while j < n
            invariant
                j <= n,
                n == self.slots@.len(),
                marks@.len() == j,
                forall|t: int| 0 <= t < j ==> marks@[t] == Mark::Fresh,
            decreases n - j,
        {
            marks.push(Mark::Fresh);
            j = j + 1;
        }
        proof {
            assert(order@ =~= Seq::<usize>::empty());
            assert(marks_inv(self@, order@, marks@));
            assert(stack_inv(self@, Seq::<usize>::empty(), marks@));
        }
        let ghost marks0 = marks@;
        match self.toposort_visit(node, order, marks, Ghost(Seq::empty())) {
            Ok(om) => {
                let (ord, marks_done) = om;
                proof {
                    assert(marks0[node as int] == Mark::Fresh);
                    assert(ord@.last() == node);
                    assert forall|k: int| 0 <= k < ord@.len() implies reaches(
                        self@,
                        node,
                        #[trigger] ord@[k],
                    ) by {
                        assert(ord@.contains(ord@[k]));
                    }
                    assert forall|t: usize| reaches(self@, node, t) implies ord@.contains(t) by {
                        lemma_closed_contains_reachable(self@, ord@, node, t);
                    }
                    assert forall|c: usize| reaches(self@, node, c) implies !on_cycle(
                        self@,
                        c,
                    ) by {
                        lemma_closed_contains_reachable(self@, ord@, node, c);
                        lemma_ordered_excludes_cycle(self@, ord@, c);
                    }
                    assert(lin_order(self@, node, ord@));
                }
                Ok(ord)
            },
            Err(e) => Err(e),
        }
    }
}

/// The compile root's declared output type identity equals the requested
/// one.
pub open spec fn root_type_ok<C: Compute>(g: GView<C>, r: usize, output_type: TypeTag) -> bool {
    node_at(g, r as int).func.out_tag() == output_type
}

/// Every node in the root's transitive input closure that is flagged to
/// receive the external input, and whose declared input identity is not the
/// "no input" sentinel, declares exactly the requested external-input type.
pub open spec fn input_types_ok<C: Compute>(g: GView<C>, r: usize, input_type: TypeTag) -> bool {
    forall|i: usize|
        #![trigger reaches(g, r, i)]
        reaches(g, r, i) && node_at(g, i as int).connected && node_at(g, i as int).func.in_tag()
            != TypeTag::Unit ==> node_at(g, i as int).func.in_tag() == input_type
}

/// Some node in the root's transitive input closure is flagged to receive
/// the external input.
pub open spec fn some_connected<C: Compute>(g: GView<C>, r: usize) -> bool {
    exists|i: usize| reaches(g, r, i) && node_at(g, i as int).connected
}

/// A dependency-order linearization of the root's transitive input closure:
/// duplicate-free, input-closed, ending at the root, containing exactly the
/// nodes the root reaches.
pub open spec fn lin_order<C: Compute>(g: GView<C>, r: usize, ord: Seq<usize>) -> bool {
    &&& ordered_prefix(g, ord)
    &&& ord.no_duplicates()
    &&& ord.len() >= 1
    &&& ord.last() == r
    &&& forall|k: int| 0 <= k < ord.len() ==> reaches(g, r, #[trigger] ord[k])
    &&& forall|t: usize| #![trigger ord.contains(t)] reaches(g, r, t) ==> ord.contains(t)
}

/// The compiled node list mirrors the linearization: node `k` carries the
/// capability and flag of graph node `ord[k]`, and its input positions name
/// exactly that node's inputs, each strictly before `k`.
pub open spec fn matches_order<C: Compute>(
    g: GView<C>,
    ord: Seq<usize>,
    ns: Seq<ExecNodeView<C>>,
) -> bool {
    &&& ns.len() == ord.len()
    &&& forall|k: int|
        #![trigger ns[k]]
        0 <= k < ord.len() ==> {
            &&& ns[k].func == node_at(g, ord[k] as int).func
            &&& ns[k].connected == node_at(g, ord[k] as int).connected
            &&& ns[k].inputs.len() == node_at(g, ord[k] as int).inputs.len()
            &&& forall|j: int|
                0 <= j < ns[k].inputs.len() ==> (#[trigger] ns[k].inputs[j]) < k && 0 <= k < ord.len()
                    && ord[ns[k].inputs[j] as int] == node_at(g, ord[k] as int).inputs[j]
        }
}

/// The compiled node list arises from some dependency-order linearization
/// of the root's transitive input closure.
pub open spec fn compiled_from<C: Compute>(g: GView<C>, r: usize, ns: Seq<ExecNodeView<C>>) -> bool {
    exists|ord: Seq<usize>| lin_order(g, r, ord) && matches_order(g, ord, ns)
}

/// The full contract of compiling the subgraph rooted at a live node `root`
/// against a requested external-input type and output type. Exactly one
/// outcome applies to every graph: the checks run in the order the compiler
/// performs them.
pub open spec fn build_spec<C: Compute>(
    g: GView<C>,
    root: usize,
    input_type: TypeTag,
    output_type: TypeTag,
    res: Result<ComputeGraph<C>, ComputeGraphErrors>,
) -> bool {
    &&& (!root_type_ok(g, root, output_type) ==> res is Err && res->Err_0 is WrongTypes)
    &&& (root_type_ok(g, root, output_type) && has_cycle_from(g, root) ==> res is Err
        && res->Err_0 is GraphCycle && exists|m: usize|
        reaches(g, root, m) && on_cycle(g, m) && res->Err_0->GraphCycle_0@ == node_at(
            g,
            m as int,
        ).name)
    &&& (root_type_ok(g, root, output_type) && !has_cycle_from(g, root) && !input_types_ok(
        g,
        root,
        input_type,
    ) ==> res is Err && res->Err_0 is WrongTypes)
    &&& (root_type_ok(g, root, output_type) && !has_cycle_from(g, root) && input_types_ok(
        g,
        root,
        input_type,
    ) && !some_connected(g, root) ==> res is Err && res->Err_0 is NoInputNodes)
    &&& (root_type_ok(g, root, output_type) && !has_cycle_from(g, root) && input_types_ok(
        g,
        root,
        input_type,
    ) && some_connected(g, root) ==> res is Ok)
    &&& (res is Ok ==> {
        let cg = res->Ok_0;
        &&& cg.wf()
        &&& compiled_from(g, root, cg.nodes_view())
        &&& cg.scratch().len() == cg.nodes_view().len()
        &&& forall|k: int|
            0 <= k < cg.nodes_view().len() ==> #[trigger] cg.scratch()[k] == cg.nodes_view()[k].func.init_value()
    })
}

/// A node list built from per-node parts that mirror a linearization
/// satisfies the compiled-shape predicate and is well formed.
proof fn lemma_matches_from_parts<C: Compute>(
    g: GView<C>,
    ord: Seq<usize>,
    conn: Seq<bool>,
    il: Seq<Vec<usize>>,
    fns_objs: Seq<C>,
    ns: Seq<ExecNodeView<C>>,
)
    requires
        conn.len() == ord.len(),
        il.len() == ord.len(),
        fns_objs.len() == ord.len(),
        ord.len() >= 1,
        forall|u: int|
            0 <= u < ord.len() ==> #[trigger] conn[u] == node_at(g, ord[u] as int).connected
                && fns_objs[u] == node_at(g, ord[u] as int).func,
        forall|u: int|
            0 <= u < ord.len() ==> (#[trigger] il[u])@.len() == node_at(
                g,
                ord[u] as int,
            ).inputs.len(),
        forall|u: int, j: int|
            0 <= u < ord.len() && 0 <= j < il[u]@.len() ==> (#[trigger] il[u]@[j]) < u && ord[il[u]@[j] as int]
                == node_at(g, ord[u] as int).inputs[j],
        ns.len() == fns_objs.len(),
        forall|k: int|
            0 <= k < fns_objs.len() ==> (#[trigger] ns[k]).connected == conn[k] && ns[k].inputs
                == il[k]@ && ns[k].func == fns_objs[k],
    ensures
        matches_order(g, ord, ns),
        exec_wf(ns),
{
    assert forall|k: int| #![trigger ns[k]] 0 <= k < ord.len() implies {
        &&& ns[k].func == node_at(g, ord[k] as int).func
        &&& ns[k].connected == node_at(g, ord[k] as int).connected
        &&& ns[k].inputs.len() == node_at(g, ord[k] as int).inputs.len()
        &&& forall|j: int|
            0 <= j < ns[k].inputs.len() ==> (#[trigger] ns[k].inputs[j]) < k && 0 <= k < ord.len()
                && ord[ns[k].inputs[j] as int] == node_at(g, ord[k] as int).inputs[j]
    } by {
        assert(ns[k].inputs == il[k]@);
    }
    assert forall|i: int, k: int|
        0 <= i < ns.len() && 0 <= k < ns[i].inputs.len() implies (#[trigger] ns[i].inputs[k])
        < i by {
        assert(ns[i].inputs == il[i]@);
    }
}

impl<C: Compute> Graph<C> {
    /// Compiles the subgraph rooted at the given live slot.
    #[verifier::loop_isolation(false)]
    #[verifier::rlimit(100)]
    fn build_for_key(&self, root: usize, input_type: TypeTag, output_type: TypeTag) -> (res:
        Result<ComputeGraph<C>, ComputeGraphErrors>)
        requires
            self.wf(),
            live_at(self@, root as int),
        ensures
            build_spec(self@, root, input_type, output_type, res),
    {
        let root_out = self.slots[root].as_ref().unwrap().func.output_type();
        if root_out != output_type {
            let ot = tag_name(&output_type);
            let rt = tag_name(&root_out);
            return Err(
                ComputeGraphErrors::format_wrong_types(
                    "compute output",
                    ot.as_str(),
                    self.slots[root].as_ref().unwrap().name.as_str(),
                    rt.as_str(),
                ),
            );
        }
        let order = match self.compute_order(root) {
            Ok(o) => o,
            Err(e) => {
                return Err(e);
            },
        };
        let n_slots = self.slots.len();
        let mut pos: Vec<usize> = Vec::new();
        let mut t: usize = 0;
        while t < n_slots
            invariant
                t <= n_slots,
                pos@.len() == t,
            decreases n_slots - t,
        {
            pos.push(0);
            t = t + 1;
        }
        let mut k: usize = 0;
        while k < order.len()
            invariant
                k <= order@.len(),
                pos@.len() == n_slots,
                forall|u: int| 0 <= u < k ==> pos@[order@[u] as int] == u,
            decreases order@.len() - k,
        {
            proof {
                assert(live_at(self@, order@[k as int] as int));
            }
            let slot = order[k];
            pos[slot] = k;
            proof {
                assert forall|u: int| 0 <= u < k + 1 implies pos@[order@[u] as int] == u by {
                    if u < k {
                        assert(order@[u] != order@[k as int]);
                    }
                }
            }
            k = k + 1;
        }
        let parts = match self.emit_nodes(&order, &pos, input_type) {
            Ok(p) => p,
            Err((e, ghost_bad)) => {
                proof {
                    let u = ghost_bad@;
                    assert(reaches(self@, root, order@[u]));
                    assert(!input_types_ok(self@, root, input_type));
                }
                return Err(e);
            },
        };
        let (connected, input_lists, funcs, num_connected) = parts;
        if num_connected == 0 {
            proof {
                assert forall|i: usize| reaches(self@, root, i) implies !node_at(
                    self@,
                    i as int,
                ).connected by {
                    assert(order@.contains(i));
                    let u = choose|u: int| 0 <= u < order@.len() && order@[u] == i;
                    assert(!node_at(self@, order@[u] as int).connected);
                }
                assert(!some_connected(self@, root));
            }
            return Err(ComputeGraphErrors::NoInputNodes);
        }
        let ghost conn_view = connected@;
        let ghost il_view = input_lists@;
        let ghost fns_view = funcs@;
        let cg = ComputeGraph::assemble(connected, input_lists, funcs);
        proof {
            lemma_matches_from_parts(
                self@,
                order@,
                conn_view,
                il_view,
                fns_view,
                cg.nodes_view(),
            );
            assert(compiled_from(self@, root, cg.nodes_view()));
            assert(cg.wf());
            assert forall|i: usize|
                reaches(self@, root, i) && node_at(self@, i as int).connected && node_at(
                    self@,
                    i as int,
                ).func.in_tag() != TypeTag::Unit implies node_at(self@, i as int).func.in_tag()
                == input_type by {
                assert(order@.contains(i));
                let u = choose|u: int| 0 <= u < order@.len() && order@[u] == i;
                assert(node_at(self@, order@[u] as int).func.in_tag() == input_type);
            }
            assert(input_types_ok(self@, root, input_type));
            let u0 = choose|u0: int|
                0 <= u0 < order@.len() && node_at(self@, order@[u0] as int).connected;
            assert(reaches(self@, root, order@[u0]));
            assert(some_connected(self@, root));
        }
        Ok(cg)
    }

    /// Walks the linearization once, emitting each node's flag, its input
    /// positions within the order, and a copy of its capability, while
    /// validating every flagged node's input type against the requested
    /// external-input type and counting the flagged nodes.
    #[verifier::loop_isolation(false)]
    fn emit_nodes(&self, order: &Vec<usize>, pos: &Vec<usize>, input_type: TypeTag) -> (res:
        Result<(Vec<bool>, Vec<Vec<usize>>, Vec<C>, usize), (ComputeGraphErrors, Ghost<int>)>)
        requires
            self.wf(),
            ordered_prefix(self@, order@),
            order@.no_duplicates(),
            pos@.len() == self@.len(),
            forall|u: int| 0 <= u < order@.len() ==> pos@[#[trigger] order@[u] as int] == u,
        ensures
            match res {
                Ok(parts) => {
                    &&& parts.0@.len() == order@.len()
                    &&& parts.1@.len() == order@.len()
                    &&& parts.2@.len() == order@.len()
                    &&& parts.3 <= order@.len()
                    &&& ((parts.3 == 0) <==> (forall|u: int|
                        0 <= u < order@.len() ==> !node_at(self@, #[trigger] order@[u] as int).connected))
                    &&& (forall|u: int|
                        0 <= u < order@.len() ==> #[trigger] parts.0@[u] == node_at(
                            self@,
                            order@[u] as int,
                        ).connected && parts.2@[u] == node_at(self@, order@[u] as int).func)
                    &&& (forall|u: int|
                        0 <= u < order@.len() ==> (#[trigger] parts.1@[u])@.len() == node_at(
                            self@,
                            order@[u] as int,
                        ).inputs.len())
                    &&& (forall|u: int, j: int|
                        0 <= u < order@.len() && 0 <= j < parts.1@[u]@.len() ==> (
                        #[trigger] parts.1@[u]@[j]) < u && order@[parts.1@[u]@[j] as int] == node_at(
                            self@,
                            order@[u] as int,
                        ).inputs[j])
                    &&& (forall|u: int|
                        0 <= u < order@.len() && node_at(self@, #[trigger] order@[u] as int).connected
                            && node_at(self@, order@[u] as int).func.in_tag() != TypeTag::Unit
                            ==> node_at(self@, order@[u] as int).func.in_tag() == input_type)
                },
                Err(ep) => {
                    &&& ep.0 is WrongTypes
                    &&& 0 <= ep.1@ < order@.len()
                    &&& node_at(self@, order@[ep.1@] as int).connected
                    &&& node_at(self@, order@[ep.1@] as int).func.in_tag() != TypeTag::Unit
                    &&& node_at(self@, order@[ep.1@] as int).func.in_tag() != input_type
                },
            },
    {
        let mut connected: Vec<bool> = Vec::new();
        let mut input_lists: Vec<Vec<usize>> = Vec::new();
        let mut funcs: Vec<C> = Vec::new();
        let mut num_connected: usize = 0;
        let mut k: usize = 0;
        while k < order.len()
            invariant
                k <= order@.len(),
                connected@.len() == k,
                input_lists@.len() == k,
                funcs@.len() == k,
                num_connected <= k,
                (num_connected == 0) <==> (forall|u: int|
                    0 <= u < k ==> !node_at(self@, order@[u] as int).connected),
                forall|u: int|
                    0 <= u < k ==> #[trigger] connected@[u] == node_at(
                        self@,
                        order@[u] as int,
                    ).connected && funcs@[u] == node_at(self@, order@[u] as int).func,
                forall|u: int|
                    0 <= u < k ==> (#[trigger] input_lists@[u])@.len() == node_at(
                        self@,
                        order@[u] as int,
                    ).inputs.len(),
                forall|u: int, j: int|
                    0 <= u < k && 0 <= j < input_lists@[u]@.len() ==> (#[trigger] input_lists@[u]@[j])
                        < u && order@[input_lists@[u]@[j] as int] == node_at(
                        self@,
                        order@[u] as int,
                    ).inputs[j],
                forall|u: int|
                    0 <= u < k && node_at(self@, #[trigger] order@[u] as int).connected && node_at(
                        self@,
                        order@[u] as int,
                    ).func.in_tag() != TypeTag::Unit ==> node_at(
                        self@,
                        order@[u] as int,
                    ).func.in_tag() == input_type,
            decreases order@.len() - k,
        {
            let key = order[k];
            proof {
                assert(order@.contains(order@[k as int]));
                assert(live_at(self@, key as int));
            }
            if self.slots[key].as_ref().unwrap().connected_to_input {
                num_connected = num_connected + 1;
                let it = self.slots[key].as_ref().unwrap().func.input_type();
                if it != TypeTag::Unit && it != input_type {
                    let nt = tag_name(&it);
                    let et = tag_name(&input_type);
                    let err = ComputeGraphErrors::format_wrong_types(
                        self.slots[key].as_ref().unwrap().name.as_str(),
                        nt.as_str(),
                        "compute input",
                        et.as_str(),
                    );
                    return Err((err, Ghost(k as int)));
                }
            }
            let num_inputs = self.slots[key].as_ref().unwrap().inputs.len();
            let mut mapped: Vec<usize> = Vec::new();
            let mut j: usize = 0;
            while j < num_inputs
                invariant
                    j <= num_inputs,
                    k < order@.len(),
                    num_inputs == node_at(self@, order@[k as int] as int).inputs.len(),
                    key == order@[k as int],
                    mapped@.len() == j,
                    forall|u: int|
                        0 <= u < j ==> (#[trigger] mapped@[u]) < k && order@[mapped@[u] as int]
                            == node_at(self@, order@[k as int] as int).inputs[u],
                decreases num_inputs - j,
            {
                let dep = self.slots[key].as_ref().unwrap().inputs[j];
                proof {
                    let dd = node_at(self@, key as int).inputs[j as int];
                    assert(dd == dep);
                    assert(order@.take(k as int).contains(dep));
                    let u0 = choose|u0: int| 0 <= u0 < k && order@.take(k as int)[u0] == dep;
                    assert(order@[u0] == dep);
                    assert(pos@[dep as int] == u0);
                    assert(live_at(self@, dep as int));
                }
                let p = pos[dep];
                mapped.push(p);
                j = j + 1;
            }
            connected.push(self.slots[key].as_ref().unwrap().connected_to_input);
            input_lists.push(mapped);
            funcs.push(self.slots[key].as_ref().unwrap().func.duplicate());
            k = k + 1;
        }
        Ok((connected, input_lists, funcs, num_connected))
    }

    /// Introspection record for the given live node: its handle, its input
    /// handles in order, its external-input flag and its declared type
    /// identities.
    pub fn get_node_meta(&self, node_handle: &NodeHandle) -> (r: NodeMeta)
        requires
            self.wf(),
            self.handle_live(*node_handle),
        ensures
            ({
                let d = node_at(self@, node_handle.spec_idx());
                &&& r.this_node.spec_idx() == node_handle.spec_idx()
                &&& r.this_node.spec_gid() == self.spec_id()
                &&& r.connected_to_input == d.connected
                &&& r.input_type == d.func.in_tag()
                &&& r.output_type == d.func.out_tag()
                &&& r.inputs@.len() == d.inputs.len()
                &&& forall|k: int|
                    0 <= k < d.inputs.len() ==> (#[trigger] r.inputs@[k]).spec_idx()
                        == d.inputs[k] as int && r.inputs@[k].spec_gid() == self.spec_id()
                        && self.handle_live(r.inputs@[k])
            }),
    {
        let idx = node_handle.index;
        let node = self.slots[idx].as_ref().unwrap();
        let mut input_handles: Vec<NodeHandle> = Vec::new();
        let mut k: usize = 0;
        while k < node.inputs.len()
            invariant
                k <= node.inputs@.len(),
                input_handles@.len() == k,
                forall|t: int|
                    0 <= t < k ==> (#[trigger] input_handles@[t]).spec_idx() == node.inputs@[t] as int
                        && input_handles@[t].spec_gid() == self.spec_id(),
            decreases node.inputs@.len() - k,
        {
            input_handles.push(NodeHandle { index: node.inputs[k], graph_id: self.id });
            k = k + 1;
        }
        let meta = NodeMeta {
            this_node: NodeHandle { index: idx, graph_id: self.id },
            inputs: input_handles,
            connected_to_input: node.connected_to_input,
            input_type: node.func.input_type(),
            output_type: node.func.output_type(),
        };
        proof {
            let d = node_at(self@, node_handle.spec_idx());
            assert forall|t: int| 0 <= t < d.inputs.len() implies self.handle_live(
                #[trigger] meta.inputs@[t],
            ) by {
                assert(live_at(self@, d.inputs[t] as int));
            }
        }
        meta
    }

    /// Introspection records for every live node, in slot order.
    #[verifier::loop_isolation(false)]
    pub fn get_all_node_metas(&self) -> (r: Vec<NodeMeta>)
        requires
            self.wf(),
        ensures
            forall|t: int|
                0 <= t < r@.len() ==> self.handle_live(#[trigger] r@[t].this_node) && ({
                    let d = node_at(self@, r@[t].this_node.spec_idx());
                    &&& r@[t].connected_to_input == d.connected
                    &&& r@[t].input_type == d.func.in_tag()
                    &&& r@[t].output_type == d.func.out_tag()
                    &&& r@[t].inputs@.len() == d.inputs.len()
                }),
            forall|i: int|
                live_at(self@, i) ==> exists|t: int|
                    0 <= t < r@.len() && (#[trigger] r@[t]).this_node.spec_idx() == i,
    {
        let mut metas: Vec<NodeMeta> = Vec::new();
        let mut i: usize = 0;
        while i < self.slots.len()
            invariant
                i <= self@.len(),
                forall|t: int|
                    0 <= t < metas@.len() ==> self.handle_live(#[trigger] metas@[t].this_node) && ({
                        let d = node_at(self@, metas@[t].this_node.spec_idx());
                        &&& metas@[t].connected_to_input == d.connected
                        &&& metas@[t].input_type == d.func.in_tag()
                        &&& metas@[t].output_type == d.func.out_tag()
                        &&& metas@[t].inputs@.len() == d.inputs.len()
                    }),
                forall|j: int|
                    0 <= j < i && live_at(self@, j) ==> exists|t: int|
                        0 <= t < metas@.len() && (#[trigger] metas@[t]).this_node.spec_idx() == j,
            decreases self@.len() - i,
        {
            if self.slots[i].is_some() {
                proof {
                    assert(live_at(self@, i as int));
                }
                let h = NodeHandle { index: i, graph_id: self.id };
                let ghost metas_pre = metas@;
                let m = self.get_node_meta(&h);
                metas.push(m);
                proof {
                    assert(metas@[metas_pre.len() as int].this_node.spec_idx() == i as int);
                    assert forall|j: int|
                        0 <= j < i + 1 && live_at(self@, j) implies exists|t: int|
                        0 <= t < metas@.len() && (#[trigger] metas@[t]).this_node.spec_idx()
                            == j by {
                        if j < i {
                            let t0 = choose|t0: int|
                                0 <= t0 < metas_pre.len() && (#[trigger] metas_pre[t0]).this_node.spec_idx()
                                    == j;
                            assert(metas@[t0].this_node.spec_idx() == j);
                        } else {
                            assert(metas@[metas_pre.len() as int].this_node.spec_idx() == j);
                        }
                    }
                }
            }
            i = i + 1;
        }
        metas
    }

    /// Compiles the whole graph from its designated output node: fails with
    /// `NoOutputNode` when none is designated, and with `NodeMissing` when
    /// the designated node was removed. Compilation never mutates the
    /// builder and may be repeated, yielding independent executors.
    pub fn build(&self, input_type: TypeTag, output_type: TypeTag) -> (res: Result<
        ComputeGraph<C>,
        ComputeGraphErrors,
    >)
        requires
            self.wf(),
        ensures
            self.spec_output() is None ==> res is Err && res->Err_0 is NoOutputNode,
            self.spec_output() is Some && !live_at(self@, self.spec_output()->0 as int) ==> res
                is Err && res->Err_0 is NodeMissing,
            self.spec_output() is Some && live_at(self@, self.spec_output()->0 as int)
                ==> build_spec(self@, self.spec_output()->0, input_type, output_type, res),
    {
        let root = match self.output_node {
            Some(r) => r,
            None => {
                return Err(ComputeGraphErrors::NoOutputNode);
            },
        };
        if root >= self.slots.len() || self.slots[root].is_none() {
            return Err(ComputeGraphErrors::NodeMissing);
        }
        self.build_for_key(root, input_type, output_type)
    }

    /// Compiles the subgraph rooted at an arbitrary node: only that node's
    /// transitive input closure is linearized and validated. Fails with
    /// `NodeMissing` when the node was removed.
    pub fn build_for_node(&self, output_node_handle: &NodeHandle, input_type: TypeTag, output_type: TypeTag) -> (res: Result<
        ComputeGraph<C>,
        ComputeGraphErrors,
    >)
        requires
            self.wf(),
            self.owns(*output_node_handle),
        ensures
            !live_at(self@, output_node_handle.spec_idx()) ==> res is Err && res->Err_0 is NodeMissing,
            live_at(self@, output_node_handle.spec_idx()) ==> build_spec(
                self@,
                output_node_handle.spec_idx() as usize,
                input_type,
                output_type,
                res,
            ),
    {
        let root = output_node_handle.index;
        if root >= self.slots.len() || self.slots[root].is_none() {
            return Err(ComputeGraphErrors::NodeMissing);
        }
        self.build_for_key(root, input_type, output_type)
    }
}

} // verus!
