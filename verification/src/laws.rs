use vstd::prelude::*;
use crate::com_graph::{
    eval_result, lemma_outs_after_len, lemma_outs_after_prefix, outs_after, step_inputs,
    ExecNodeView,
};
use crate::compute::Compute;
use crate::graph::{compiled_from, lin_order, matches_order, node_at, GView};
use crate::reach::reaches;
use crate::value::{TypeTag, Value};

verus! {

/// The input sequence a node of the builder graph conceptually consumes,
/// under an assignment of one value per node: empty for a "no input" node,
/// otherwise the assigned values of its listed inputs in order, with the
/// external input appended when the node is flagged to receive it.
pub open spec fn builder_step_inputs<C: Compute>(
    g: GView<C>,
    i: usize,
    vals: Map<usize, Value>,
    input: Value,
) -> Seq<Value> {
    let nv = node_at(g, i as int);
    if nv.func.in_tag() == TypeTag::Unit {
        Seq::empty()
    } else {
        let deps = nv.inputs.map_values(|j: usize| vals[j]);
        if nv.connected {
            deps.push(input)
        } else {
            deps
        }
    }
}

/// A denotation of the subgraph rooted at `r`: an assignment of one value
/// to each node of `r`'s transitive input closure that makes every such
/// node's value the result of its own capability applied to its inputs'
/// values. Nothing outside the closure is constrained, so sibling nodes
/// cannot influence a denotation.
pub open spec fn denotes_from<C: Compute>(
    g: GView<C>,
    r: usize,
    input: Value,
    vals: Map<usize, Value>,
) -> bool {
    forall|i: usize|
        #![trigger reaches(g, r, i)]
        reaches(g, r, i) ==> vals[i] == node_at(g, i as int).func.value_of(
            builder_step_inputs(g, i, vals, input),
        )
}

/// The index of a node inside a duplicate-free order.
pub open spec fn position_in(ord: Seq<usize>, i: usize) -> int {
    choose|k: int| 0 <= k < ord.len() && ord[k] == i
}

/// Evaluating a compiled pipeline writes, cell by cell, exactly the values
/// a denotation assigns to the corresponding graph nodes.
proof fn lemma_eval_pointwise<C: Compute>(
    g: GView<C>,
    r: usize,
    ord: Seq<usize>,
    ns: Seq<ExecNodeView<C>>,
    input: Value,
    vals: Map<usize, Value>,
    k: int,
)
    requires
        lin_order(g, r, ord),
        matches_order(g, ord, ns),
        denotes_from(g, r, input, vals),
        0 <= k < ord.len(),
    ensures
        forall|t: int| 0 <= t <= k ==> outs_after(ns, input, k + 1)[t] == vals[ord[t]],
    decreases k,
{
    lemma_outs_after_len(ns, input, k);
    lemma_outs_after_len(ns, input, k + 1);
    if k > 0 {
        lemma_eval_pointwise(g, r, ord, ns, input, vals, k - 1);
    }
    let prefix = outs_after(ns, input, k);
    assert(outs_after(ns, input, k + 1) == prefix.push(
        ns[k].func.value_of(step_inputs(ns[k], prefix, input)),
    ));
    let nv = node_at(g, ord[k] as int);
    assert(ns[k].func == nv.func && ns[k].connected == nv.connected);
    assert(step_inputs(ns[k], prefix, input) =~= builder_step_inputs(g, ord[k], vals, input)) by {
        if nv.func.in_tag() != TypeTag::Unit {
            let d1 = ns[k].inputs.map_values(|j: usize| prefix[j as int]);
            let d2 = nv.inputs.map_values(|j: usize| vals[j]);
            assert(ns[k].inputs.len() == nv.inputs.len());
            assert forall|j: int| 0 <= j < d1.len() implies d1[j] == d2[j] by {
                let p = ns[k].inputs[j];
                assert(p < k && ord[p as int] == nv.inputs[j]);
                assert(prefix[p as int] == vals[ord[p as int]]);
            }
            assert(d1 =~= d2);
        }
    }
    assert(reaches(g, r, ord[k]));
    assert(vals[ord[k]] == nv.func.value_of(builder_step_inputs(g, ord[k], vals, input)));
    assert(outs_after(ns, input, k + 1)[k] == vals[ord[k]]);
}

/// Compile followed by compute reproduces the value a denotation assigns to
/// the root: for any consistent assignment of values to the root's
/// transitive closure, the compiled pipeline's single evaluation result is
/// the root's assigned value, whatever linearization the compiler chose and
/// whatever stands outside the closure.
pub proof fn lemma_compute_matches_denotation<C: Compute>(
    g: GView<C>,
    r: usize,
    ns: Seq<ExecNodeView<C>>,
    input: Value,
    vals: Map<usize, Value>,
)
    requires
        compiled_from(g, r, ns),
        denotes_from(g, r, input, vals),
    ensures
        eval_result(ns, input) == vals[r],
{
    let ord = choose|ord: Seq<usize>| lin_order(g, r, ord) && matches_order(g, ord, ns);
    let k = ord.len() - 1 as int;
    lemma_eval_pointwise(g, r, ord, ns, input, vals, k);
    lemma_outs_after_len(ns, input, ns.len() as int);
    assert(ord.last() == r);
    assert(outs_after(ns, input, ns.len() as int)[k] == vals[r]);
}

/// Every compiled pipeline has a denotation, and its root value is the
/// pipeline's evaluation result.
pub proof fn lemma_denotation_exists<C: Compute>(
    g: GView<C>,
    r: usize,
    ns: Seq<ExecNodeView<C>>,
    input: Value,
)
    requires
        compiled_from(g, r, ns),
    ensures
        exists|vals: Map<usize, Value>|
            denotes_from(g, r, input, vals) && #[trigger] vals[r] == eval_result(ns, input),
{
    let ord = choose|ord: Seq<usize>| lin_order(g, r, ord) && matches_order(g, ord, ns);
    let n = ord.len() as int;
    let vals = Map::<usize, Value>::new(
        |i: usize| ord.contains(i),
        |i: usize| outs_after(ns, input, position_in(ord, i) + 1)[position_in(ord, i)],
    );
    lemma_outs_after_len(ns, input, n);
    assert forall|t: int| 0 <= t < n implies position_in(ord, ord[t]) == t by {
        assert(ord.contains(ord[t]));
        let t2 = position_in(ord, ord[t]);
        assert(0 <= t2 < ord.len() && ord[t2] == ord[t]);
        if t2 != t {
            assert(false);
        }
    }
    assert forall|t: int| 0 <= t < n implies vals[ord[t]] == outs_after(ns, input, n)[t] by {
        assert(ord.contains(ord[t]));
        lemma_outs_after_prefix(ns, input, t + 1, n);
        lemma_outs_after_len(ns, input, t + 1);
    }
    assert forall|i: usize| reaches(g, r, i) implies vals[i] == node_at(g, i as int).func.value_of(
        builder_step_inputs(g, i, vals, input),
    ) by {
        assert(ord.contains(i));
        let k = position_in(ord, i);
        assert(0 <= k < n && ord[k] == i);
        lemma_outs_after_len(ns, input, k);
        lemma_outs_after_len(ns, input, k + 1);
        let prefix = outs_after(ns, input, k);
        assert(outs_after(ns, input, k + 1) == prefix.push(
            ns[k].func.value_of(step_inputs(ns[k], prefix, input)),
        ));
        let nv = node_at(g, i as int);
        assert(ns[k].func == nv.func && ns[k].connected == nv.connected);
        assert(step_inputs(ns[k], prefix, input) =~= builder_step_inputs(g, i, vals, input)) by {
            if nv.func.in_tag() != TypeTag::Unit {
                let d1 = ns[k].inputs.map_values(|j: usize| prefix[j as int]);
                let d2 = nv.inputs.map_values(|j: usize| vals[j]);
                assert forall|j: int| 0 <= j < d1.len() implies d1[j] == d2[j] by {
                    let p = ns[k].inputs[j];
                    assert(p < k && ord[p as int] == nv.inputs[j]);
                    assert(position_in(ord, ord[p as int]) == p);
                    assert(vals[ord[p as int]] == outs_after(ns, input, p + 1)[p as int]);
                    lemma_outs_after_prefix(ns, input, p + 1, k);
                    lemma_outs_after_len(ns, input, p + 1);
                }
                assert(d1 =~= d2);
            }
        }
        assert(vals[i] == outs_after(ns, input, k + 1)[k]);
    }
    assert(denotes_from(g, r, input, vals));
    assert(ord.contains(ord[n - 1]));
    assert(position_in(ord, r) == n - 1);
    assert(vals[r] == outs_after(ns, input, n)[n - 1]);
    assert(vals[r] == eval_result(ns, input));
}

/// Compiling the same graph twice from the same root yields executors that
/// produce identical outputs for identical inputs, whatever linearizations
/// the two compilations chose.
pub proof fn lemma_compile_deterministic<C: Compute>(
    g: GView<C>,
    r: usize,
    ns1: Seq<ExecNodeView<C>>,
    ns2: Seq<ExecNodeView<C>>,
    input: Value,
)
    requires
        compiled_from(g, r, ns1),
        compiled_from(g, r, ns2),
    ensures
        eval_result(ns1, input) == eval_result(ns2, input),
{
    lemma_denotation_exists(g, r, ns1, input);
    let vals = choose|vals: Map<usize, Value>|
        denotes_from(g, r, input, vals) && #[trigger] vals[r] == eval_result(ns1, input);
    lemma_compute_matches_denotation(g, r, ns2, input, vals);
}

/// A compiled pipeline holds exactly the root's transitive input closure:
/// every compiled node carries the capability, flag and fan-in of some node
/// the root reaches, and every node the root reaches is represented.
/// A resolved node whose capability and flag come from some node of the
/// root's transitive input closure.
pub open spec fn from_closure<C: Compute>(g: GView<C>, r: usize, nk: ExecNodeView<C>) -> bool {
    exists|i: usize|
        reaches(g, r, i) && nk.func == node_at(g, i as int).func && nk.connected == node_at(
            g,
            i as int,
        ).connected
}

/// Some resolved node of the pipeline carries the given capability.
pub open spec fn carries_func<C: Compute>(ns: Seq<ExecNodeView<C>>, f: C) -> bool {
    exists|k: int| 0 <= k < ns.len() && (#[trigger] ns[k]).func == f
}

/// Compiling a sub-graph rooted at a node yields only that node's
/// transitive input closure: every resolved node carries the capability
/// and flag of some node the root reaches, and conversely every node the
/// root reaches is represented in the pipeline.
pub proof fn lemma_compiled_exactly_closure<C: Compute>(
    g: GView<C>,
    r: usize,
    ns: Seq<ExecNodeView<C>>,
)
    requires
        compiled_from(g, r, ns),
    ensures
        forall|k: int| 0 <= k < ns.len() ==> from_closure(g, r, #[trigger] ns[k]),
        forall|i: usize|
            #![trigger node_at(g, i as int)]
            reaches(g, r, i) ==> carries_func(ns, node_at(g, i as int).func),
{
    let ord = choose|ord: Seq<usize>| lin_order(g, r, ord) && matches_order(g, ord, ns);
    assert forall|k: int| 0 <= k < ns.len() implies from_closure(g, r, #[trigger] ns[k]) by {
        let i0 = ord[k];
        assert(reaches(g, r, i0));
        assert(ns[k].func == node_at(g, i0 as int).func);
        assert(ns[k].connected == node_at(g, i0 as int).connected);
    }
    assert forall|i: usize| reaches(g, r, i) implies carries_func(
        ns,
        node_at(g, i as int).func,
    ) by {
        assert(ord.contains(i));
        let k0 = choose|k0: int| 0 <= k0 < ord.len() && ord[k0] == i;
        assert(ns[k0].func == node_at(g, i as int).func);
    }
}

} // verus!
