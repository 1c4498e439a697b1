use vstd::prelude::*;
use crate::compute::Compute;
use crate::value::{TypeTag, Value};

verus! {

/// One resolved node of a compiled pipeline: whether it receives the
/// external input, the dependency-order positions of its inputs, and its
/// own copy of the capability object.
pub(crate) struct ExecNode<C> {
    pub(crate) connected_to_input: bool,
    pub(crate) inputs: Vec<usize>,
    pub(crate) func: C,
}

/// The mathematical content of one resolved node.
pub struct ExecNodeView<C> {
    pub connected: bool,
    pub inputs: Seq<usize>,
    pub func: C,
}

/// The compiled executor: an immutable ordered node list with per-node
/// scratch cells holding the most recently computed output values.
pub struct ComputeGraph<C> {
    nodes: Vec<ExecNode<C>>,
    outputs: Vec<Value>,
}

/// A compiled node list is well formed when it is nonempty and every
/// dependency position points strictly before the node that lists it, so a
/// node's inputs are fully written before it reads them.
pub open spec fn exec_wf<C: Compute>(ns: Seq<ExecNodeView<C>>) -> bool {
    ns.len() >= 1 && forall|i: int, k: int|
        0 <= i < ns.len() && 0 <= k < ns[i].inputs.len() ==> (#[trigger] ns[i].inputs[k]) < i
}

/// The input sequence assembled for one node: empty for a node whose input
/// identity is the "no input" sentinel; otherwise the scratch values of its
/// listed dependencies in listed order, with the external input value
/// appended when the node is flagged to receive it.
pub open spec fn step_inputs<C: Compute>(
    nv: ExecNodeView<C>,
    prefix: Seq<Value>,
    input: Value,
) -> Seq<Value> {
    if nv.func.in_tag() == TypeTag::Unit {
        Seq::empty()
    } else {
        let deps = nv.inputs.map_values(|j: usize| prefix[j as int]);
        if nv.connected {
            deps.push(input)
        } else {
            deps
        }
    }
}

/// The scratch contents after evaluating the first `k` nodes of the
/// pipeline on the given external input.
pub open spec fn outs_after<C: Compute>(
    ns: Seq<ExecNodeView<C>>,
    input: Value,
    k: int,
) -> Seq<Value>
    decreases k,
{
    if k <= 0 {
        Seq::empty()
    } else {
        let p = outs_after(ns, input, k - 1);
        p.push(ns[k - 1].func.value_of(step_inputs(ns[k - 1], p, input)))
    }
}

/// What one evaluation of the whole pipeline returns: the last node's
/// scratch value after every node has run once in order.
pub open spec fn eval_result<C: Compute>(ns: Seq<ExecNodeView<C>>, input: Value) -> Value {
    outs_after(ns, input, ns.len() as int).last()
}

pub proof fn lemma_outs_after_len<C: Compute>(ns: Seq<ExecNodeView<C>>, input: Value, k: int)
    ensures
        k >= 0 ==> outs_after(ns, input, k).len() == k,
    decreases k,
{
    if k > 0 {
        lemma_outs_after_len(ns, input, k - 1);
    }
}

/// A longer evaluation prefix agrees with a shorter one on the cells the
/// shorter one wrote.
pub proof fn lemma_outs_after_prefix<C: Compute>(
    ns: Seq<ExecNodeView<C>>,
    input: Value,
    k1: int,
    k2: int,
)
    requires
        0 <= k1 <= k2,
    ensures
        forall|j: int|
            0 <= j < k1 ==> outs_after(ns, input, k2)[j] == outs_after(ns, input, k1)[j],
    decreases k2 - k1,
{
    lemma_outs_after_len(ns, input, k1);
    lemma_outs_after_len(ns, input, k2);
    if k2 > k1 {
        lemma_outs_after_prefix(ns, input, k1, k2 - 1);
    }
}

impl<C: Compute> ComputeGraph<C> {
    pub closed spec fn nodes_view(&self) -> Seq<ExecNodeView<C>> {
        self.nodes@.map_values(
            |n: ExecNode<C>|
                ExecNodeView { connected: n.connected_to_input, inputs: n.inputs@, func: n.func },
        )
    }

    pub closed spec fn scratch(&self) -> Seq<Value> {
        self.outputs@
    }

    pub open spec fn wf(&self) -> bool {
        exec_wf(self.nodes_view()) && self.scratch().len() == self.nodes_view().len()
    }

    /// Builds an executor from parallel per-node data, seeding each scratch
    /// cell with its capability's default output value.
    pub(crate) fn assemble(connected: Vec<bool>, input_lists: Vec<Vec<usize>>, funcs: Vec<C>) -> (r:
        Self)
        requires
            connected@.len() == funcs@.len(),
            input_lists@.len() == funcs@.len(),
        ensures
            r.nodes_view().len() == funcs@.len(),
            forall|k: int|
                0 <= k < funcs@.len() ==> (#[trigger] r.nodes_view()[k]).connected == connected@[k]
                    && r.nodes_view()[k].inputs == input_lists@[k]@ && r.nodes_view()[k].func
                    == funcs@[k],
            r.scratch().len() == funcs@.len(),
            forall|k: int|
                0 <= k < funcs@.len() ==> #[trigger] r.scratch()[k] == funcs@[k].init_value(),
    {
        let ghost n = funcs@.len();
        let ghost connected0 = connected@;
        let ghost inputs0 = input_lists@;
        let ghost funcs0 = funcs@;
        let mut connected = connected;
        let mut input_lists = input_lists;
        let mut funcs = funcs;
        let mut nodes: Vec<ExecNode<C>> = Vec::new();
        while funcs.len() > 0
            invariant
                connected@.len() == funcs@.len(),
                input_lists@.len() == funcs@.len(),
                funcs@.len() <= n,
                nodes@.len() + funcs@.len() == n,
                funcs@.len() <= funcs0.len(),
                forall|j: int| 0 <= j < funcs@.len() ==> #[trigger] funcs@[j] == funcs0[j],
                forall|j: int| 0 <= j < funcs@.len() ==> #[trigger] connected@[j] == connected0[j],
                forall|j: int| 0 <= j < funcs@.len() ==> #[trigger] input_lists@[j] == inputs0[j],
                forall|k: int|
                    0 <= k < nodes@.len() ==> (#[trigger] nodes@[k]).connected_to_input
                        == connected0[funcs@.len() + k] && nodes@[k].inputs@ == inputs0[funcs@.len()
                        + k]@ && nodes@[k].func == funcs0[funcs@.len() + k],
            decreases funcs@.len(),
        {
            let ghost len_pre = funcs@.len() as int;
            let f = funcs.pop().unwrap();
            let c = connected.pop().unwrap();
            let inp = input_lists.pop().unwrap();
            proof {
                assert(f == funcs0[len_pre - 1]);
                assert(c == connected0[len_pre - 1]);
                assert(inp == inputs0[len_pre - 1]);
            }
            nodes.insert(0, ExecNode { connected_to_input: c, inputs: inp, func: f });
        }
        let mut outputs: Vec<Value> = Vec::new();
        let mut i: usize = 0;
        while i < nodes.len()
            invariant
                i <= nodes@.len(),
                outputs@.len() == i,
                nodes@.len() == n,
                forall|k: int|
                    0 <= k < nodes@.len() ==> (#[trigger] nodes@[k]).connected_to_input
                        == connected0[k] && nodes@[k].inputs@ == inputs0[k]@ && nodes@[k].func
                        == funcs0[k],
                forall|j: int| 0 <= j < i ==> #[trigger] outputs@[j] == funcs0[j].init_value(),
            decreases nodes@.len() - i,
        {
            outputs.push(nodes[i].func.init_output());
            i = i + 1;
        }
        Self { nodes, outputs }
    }

    /// Evaluates the pipeline once for one external input value: every node
    /// runs in dependency order, reading the scratch values of its listed
    /// dependencies, and the last node's output is returned. Each call
    /// reprocesses every node; only the scratch cells change.
    #[verifier::loop_isolation(false)]
    pub fn compute(&mut self, input: &Value) -> (r: Value)
        requires
            old(self).wf(),
        ensures
            final(self).wf(),
            final(self).nodes_view() == old(self).nodes_view(),
            final(self).scratch() == outs_after(
                old(self).nodes_view(),
                *input,
                old(self).nodes_view().len() as int,
            ),
            r == eval_result(old(self).nodes_view(), *input),
    {
        let ghost ns = self.nodes_view();
        let n = self.nodes.len();
        let mut i: usize = 0;
        while i < n
            invariant
                i <= n,
                n == self.nodes@.len(),
                self.nodes@ == old(self).nodes@,
                self.outputs@.len() == n,
                ns == self.nodes_view(),
                exec_wf(ns),
                forall|j: int|
                    0 <= j < i ==> #[trigger] self.outputs@[j] == outs_after(
                        ns,
                        *input,
                        i as int,
                    )[j],
            decreases n - i,
        {
            proof {
                lemma_outs_after_len(ns, *input, i as int);
                lemma_outs_after_len(ns, *input, i + 1);
            }
            let ghost prefix = outs_after(ns, *input, i as int);
            let node_in_tag = self.nodes[i].func.input_type();
            let mut gathered: Vec<Value> = Vec::new();
            if node_in_tag == TypeTag::Unit {
                proof {
                    assert(gathered@ =~= step_inputs(ns[i as int], prefix, *input));
                }
            } else {
                let m = self.nodes[i].inputs.len();
                let mut k: usize = 0;
                while k < m
                    invariant
                        k <= m,
                        i < n,
                        m == ns[i as int].inputs.len(),
                        gathered@.len() == k,
                        forall|t: int|
                            0 <= t < k ==> #[trigger] gathered@[t] == prefix[ns[i as int].inputs[t] as int],
                    decreases m - k,
                {
                    let idx = self.nodes[i].inputs[k];
                    proof {
                        assert(ns[i as int].inputs[k as int] == idx);
                        assert(idx < i);
                    }
                    gathered.push(self.outputs[idx]);
                    k = k + 1;
                }
                if self.nodes[i].connected_to_input {
                    gathered.push(*input);
                }
                proof {
                    assert(gathered@ =~= step_inputs(ns[i as int], prefix, *input));
                }
            }
            let v = self.nodes[i].func.compute(&gathered);
            self.outputs[i] = v;
            proof {
                assert(v == ns[i as int].func.value_of(step_inputs(ns[i as int], prefix, *input)));
                lemma_outs_after_prefix(ns, *input, i as int, i + 1);
                assert forall|j: int| 0 <= j < i + 1 implies #[trigger] self.outputs@[j]
                    == outs_after(ns, *input, i + 1)[j] by {
                    if j < i {
                        assert(self.outputs@[j] == outs_after(ns, *input, i as int)[j]);
                    } else {
                        assert(outs_after(ns, *input, i + 1) == prefix.push(
                            ns[i as int].func.value_of(step_inputs(ns[i as int], prefix, *input)),
                        ));
                    }
                }
            }
            i = i + 1;
        }
        proof {
            lemma_outs_after_len(ns, *input, n as int);
            assert(self.outputs@ =~= outs_after(ns, *input, n as int));
        }
        let r = self.outputs[n - 1];
        r
    }
}

/// A fresh copy of an input-position list.
pub(crate) fn copy_indices(v: &Vec<usize>) -> (r: Vec<usize>)
    ensures
        r@ == v@,
{
    let mut r: Vec<usize> = Vec::new();
    let mut i: usize = 0;
    while i < v.len()
        invariant
            i <= v@.len(),
            r@.len() == i,
            forall|j: int| 0 <= j < i ==> #[trigger] r@[j] == v@[j],
        decreases v@.len() - i,
    {
        r.push(v[i]);
        i = i + 1;
    }
    proof {
        assert(r@ =~= v@);
    }
    r
}

impl<C: Compute> Clone for ComputeGraph<C> {
    /// Deep-copies the node sequence, re-cloning each capability, and
    /// resets the scratch cells to per-capability defaults, producing a
    /// fully independent instance.
    fn clone(&self) -> (r: Self)
        ensures
            r.nodes_view() == self.nodes_view(),
            r.scratch().len() == self.nodes_view().len(),
            forall|k: int|
                0 <= k < self.nodes_view().len() ==> #[trigger] r.scratch()[k]
                    == self.nodes_view()[k].func.init_value(),
            self.wf() ==> r.wf(),
    {
        let mut connected: Vec<bool> = Vec::new();
        let mut input_lists: Vec<Vec<usize>> = Vec::new();
        let mut funcs: Vec<C> = Vec::new();
        let mut i: usize = 0;
        while i < self.nodes.len()
            invariant
                i <= self.nodes@.len(),
                connected@.len() == i,
                input_lists@.len() == i,
                funcs@.len() == i,
                forall|k: int|
                    0 <= k < i ==> #[trigger] connected@[k] == self.nodes_view()[k].connected
                        && input_lists@[k]@ == self.nodes_view()[k].inputs && funcs@[k]
                        == self.nodes_view()[k].func,
            decreases self.nodes@.len() - i,
        {
            connected.push(self.nodes[i].connected_to_input);
            input_lists.push(copy_indices(&self.nodes[i].inputs));
            funcs.push(self.nodes[i].func.duplicate());
            i = i + 1;
        }
        let r = Self::assemble(connected, input_lists, funcs);
        proof {
            assert(r.nodes_view() =~= self.nodes_view());
        }
        r
    }
}

} // verus!
