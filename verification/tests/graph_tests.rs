use compute_graph::graph::{ComputeGraphErrors, Graph};
use compute_graph::operations::{AddInputs, Constant, MulInputs, Op, SubInputs};
use compute_graph::value::{TypeTag, Value};

#[test]
fn test_functionality() -> Result<(), ComputeGraphErrors> {
    //  Building this graph:
    //  Input : Num   Constant : Num
    //       |          |   |
    //       \__ mul __/    |
    //           |          |
    //           \__ add __/
    //                |
    //          Output : Num

    let mut graph = Graph::new();

    //Constant value
    let const_handle = graph.insert_node("the_answer", Op::Constant(Constant(Value::Num(42))));
    //Adds all inputs to this node
    let add_handle = graph.insert_node("add", Op::Add(AddInputs::new()));
    //Multiplies all the inputs to this node
    let mul_handle = graph.insert_node("mul", Op::Mul(MulInputs::new()));

    //Operation fails if output type does not match the input type
    match graph.add_input(&add_handle, &mul_handle) {
        Err(msg) => println!("{:?}", msg),
        _ => {}
    };

    //Lets setup the rest of the nodes and ignore errors..
    graph.add_input(&add_handle, &const_handle)?;
    graph.add_input(&mul_handle, &const_handle)?;

    //By default the graph sends the input to any input that has no other inputs
    //If you want a node to have the input together with other nodes you have to manually assign it
    graph.connect_to_input(&mul_handle);

    //We can specify an output node:
    graph.set_output_node(&add_handle);
    //We must build a ComputeGraph before we can compute anything
    //Graph fails if input type does not match output type, or there are cycles in the graph.
    let mut compute_graph = graph.build(TypeTag::Num, TypeTag::Num)?;
    let v = compute_graph.compute(&Value::Num(7));
    assert_eq!(v, Value::Num(336));

    //If we want to compute just part of the graph we can specify a node:
    let mut sub_compute_graph = graph.build_for_node(&mul_handle, TypeTag::Num, TypeTag::Num)?;
    let v = sub_compute_graph.compute(&Value::Num(7));
    assert_eq!(v, Value::Num(294));

    //Lets replace the constant value. Will fail if the input/output types don't match up
    graph.replace_node(&const_handle, Op::Constant(Constant(Value::Num(11))))?;

    //We must rebuild the graph after manipulating inputs/edges
    let mut compute_graph = graph.build(TypeTag::Num, TypeTag::Num)?;

    let v = compute_graph.compute(&Value::Num(7));
    assert_eq!(v, Value::Num(88));

    Ok(())
}

/// Compile followed by compute reproduces manual evaluation of the
/// encoded expression.
#[test]
fn compute_matches_manual_evaluation() {
    let mut graph = Graph::new();
    let c = graph.insert_node("the_answer", Op::Constant(Constant(Value::Num(42))));
    let add = graph.insert_node("add", Op::Add(AddInputs::new()));
    let mul = graph.insert_node("mul", Op::Mul(MulInputs::new()));
    graph.add_input(&add, &mul).unwrap();
    graph.add_input(&add, &c).unwrap();
    graph.add_input(&mul, &c).unwrap();
    graph.connect_to_input(&mul);
    graph.set_output_node(&add);
    let mut cg = graph.build(TypeTag::Num, TypeTag::Num).unwrap();
    let v = cg.compute(&Value::Num(7));
    assert_eq!(v, Value::Num(42 * 7 + 42));
    // A second evaluation with another input re-runs every node.
    let v2 = cg.compute(&Value::Num(3));
    assert_eq!(v2, Value::Num(42 * 3 + 42));
}

/// A sub-graph compiles and evaluates independently of sibling nodes
/// outside its transitive closure, even broken ones.
#[test]
fn subgraph_is_independent_of_siblings() {
    let mut graph = Graph::new();
    let c = graph.insert_node("the_answer", Op::Constant(Constant(Value::Num(42))));
    let mul = graph.insert_node("mul", Op::Mul(MulInputs::new()));
    graph.add_input(&mul, &c).unwrap();
    graph.connect_to_input(&mul);
    // Two sibling nodes forming a cycle, unreachable from `mul`.
    let a = graph.insert_node("a", Op::Add(AddInputs::new()));
    let b = graph.insert_node("b", Op::Add(AddInputs::new()));
    graph.add_input(&a, &b).unwrap();
    graph.add_input(&b, &a).unwrap();
    let mut sub = graph.build_for_node(&mul, TypeTag::Num, TypeTag::Num).unwrap();
    assert_eq!(sub.compute(&Value::Num(7)), Value::Num(294));
}

/// A dependency cycle fails compilation with a cycle error naming one of
/// the nodes on it, for every rooting choice that reaches the cycle.
#[test]
fn cycle_fails_compilation() {
    let mut graph = Graph::new();
    let a = graph.insert_node("a", Op::Add(AddInputs::new()));
    let b = graph.insert_node("b", Op::Add(AddInputs::new()));
    graph.add_input(&a, &b).unwrap();
    graph.add_input(&b, &a).unwrap();
    graph.set_output_node(&a);
    match graph.build(TypeTag::Num, TypeTag::Num) {
        Err(ComputeGraphErrors::GraphCycle(name)) => {
            assert!(name == "a" || name == "b");
        }
        Err(other) => panic!("expected a cycle error, got {:?}", other),
        Ok(_) => panic!("expected a cycle error, got a compiled graph"),
    }
    match graph.build_for_node(&b, TypeTag::Num, TypeTag::Num) {
        Err(ComputeGraphErrors::GraphCycle(name)) => {
            assert!(name == "a" || name == "b");
        }
        Err(other) => panic!("expected a cycle error, got {:?}", other),
        Ok(_) => panic!("expected a cycle error, got a compiled graph"),
    }
}

/// `add_input` between nodes with differing type identities fails with a
/// type error and applies no partial edge.
#[test]
fn add_input_type_mismatch_changes_nothing() {
    let mut graph = Graph::new();
    let flag = graph.insert_node("flag", Op::Constant(Constant(Value::Truth(true))));
    let add = graph.insert_node("add", Op::Add(AddInputs::new()));
    match graph.add_input(&add, &flag) {
        Err(ComputeGraphErrors::WrongTypes(msg)) => {
            assert_eq!(
                msg,
                "'add' input type 'number' does not match 'flag' output type 'truth'"
            );
        }
        Err(other) => panic!("expected a type error, got {:?}", other),
        Ok(_) => panic!("expected a type error, got a compiled graph"),
    }
    // No edge was applied and the external-input flag still stands.
    let meta = graph.get_node_meta(&add);
    assert_eq!(meta.inputs.len(), 0);
    assert!(meta.connected_to_input);
    graph.set_output_node(&add);
    let mut cg = graph.build(TypeTag::Num, TypeTag::Num).unwrap();
    assert_eq!(cg.compute(&Value::Num(9)), Value::Num(9));
}

/// `replace_node` with a capability of a different output type fails,
/// leaves the original installed, and a matching replacement changes the
/// next compile's behavior.
#[test]
fn replace_node_validates_types() {
    let mut graph = Graph::new();
    let c = graph.insert_node("the_answer", Op::Constant(Constant(Value::Num(42))));
    graph.set_output_node(&c);
    match graph.replace_node(&c, Op::Constant(Constant(Value::Truth(false)))) {
        Err(ComputeGraphErrors::IncompatibleNewNode(msg)) => {
            assert_eq!(
                msg,
                "Can't replace 'the_answer' because: 'output's old type 'number' != new type 'truth'"
            );
        }
        other => panic!("expected a replacement rejection, got {:?}", other),
    }
    let mut cg = graph.build(TypeTag::Num, TypeTag::Num).unwrap();
    assert_eq!(cg.compute(&Value::Num(0)), Value::Num(42));
    graph.replace_node(&c, Op::Constant(Constant(Value::Num(11)))).unwrap();
    let mut cg2 = graph.build(TypeTag::Num, TypeTag::Num).unwrap();
    assert_eq!(cg2.compute(&Value::Num(0)), Value::Num(11));
}

/// A graph in which no node is flagged to receive the external input fails
/// with `NoInputNodes`.
#[test]
fn no_input_nodes_fails_compilation() {
    let mut graph = Graph::new();
    let add = graph.insert_node("add", Op::Add(AddInputs::new()));
    graph.disconnect_from_input(&add);
    graph.set_output_node(&add);
    match graph.build(TypeTag::Num, TypeTag::Num) {
        Err(ComputeGraphErrors::NoInputNodes) => {}
        Err(other) => panic!("expected NoInputNodes, got {:?}", other),
        Ok(_) => panic!("expected NoInputNodes, got a compiled graph"),
    }
}

/// Compiling twice without mutation yields executors with identical
/// outputs, and a cloned executor evaluates independently of the original.
#[test]
fn recompile_and_clone_are_independent() {
    let mut graph = Graph::new();
    let c = graph.insert_node("the_answer", Op::Constant(Constant(Value::Num(42))));
    let add = graph.insert_node("add", Op::Add(AddInputs::new()));
    graph.add_input(&add, &c).unwrap();
    graph.connect_to_input(&add);
    graph.set_output_node(&add);
    let mut cg1 = graph.build(TypeTag::Num, TypeTag::Num).unwrap();
    let mut cg2 = graph.build(TypeTag::Num, TypeTag::Num).unwrap();
    assert_eq!(cg1.compute(&Value::Num(7)), cg2.compute(&Value::Num(7)));
    let mut copy = cg1.clone();
    // Mutating the copy's scratch through its own evaluations never
    // affects the original.
    assert_eq!(copy.compute(&Value::Num(100)), Value::Num(142));
    assert_eq!(cg1.compute(&Value::Num(7)), Value::Num(49));
    assert_eq!(copy.compute(&Value::Num(1)), Value::Num(43));
}

/// Removing a node strips it from every other node's input list; a graph
/// whose designated output was removed fails with `NodeMissing`, while the
/// remaining wiring still compiles.
#[test]
fn remove_node_prunes_edges() {
    let mut graph = Graph::new();
    let c = graph.insert_node("the_answer", Op::Constant(Constant(Value::Num(42))));
    let add = graph.insert_node("add", Op::Add(AddInputs::new()));
    let mul = graph.insert_node("mul", Op::Mul(MulInputs::new()));
    graph.add_input(&add, &mul).unwrap();
    graph.add_input(&add, &c).unwrap();
    graph.add_input(&mul, &c).unwrap();
    graph.connect_to_input(&mul);
    graph.remove_node(&c);
    let meta = graph.get_node_meta(&add);
    assert_eq!(meta.inputs.len(), 1);
    let meta = graph.get_node_meta(&mul);
    assert_eq!(meta.inputs.len(), 0);
    // The remaining wiring still compiles: mul takes the external input.
    graph.set_output_node(&add);
    let mut cg = graph.build(TypeTag::Num, TypeTag::Num).unwrap();
    assert_eq!(cg.compute(&Value::Num(7)), Value::Num(7));
    // A designated output node that was removed is reported missing.
    graph.set_output_node(&c);
    match graph.build(TypeTag::Num, TypeTag::Num) {
        Err(ComputeGraphErrors::NodeMissing) => {}
        Err(other) => panic!("expected NodeMissing, got {:?}", other),
        Ok(_) => panic!("expected NodeMissing, got a compiled graph"),
    }
}

#[test]
fn build_without_output_node_fails() {
    let mut graph = Graph::<Op>::new();
    graph.insert_node("the_answer", Op::Constant(Constant(Value::Num(42))));
    match graph.build(TypeTag::Num, TypeTag::Num) {
        Err(ComputeGraphErrors::NoOutputNode) => {}
        Err(other) => panic!("expected NoOutputNode, got {:?}", other),
        Ok(_) => panic!("expected NoOutputNode, got a compiled graph"),
    }
}

#[test]
fn root_output_type_is_checked() {
    let mut graph = Graph::new();
    let c = graph.insert_node("the_answer", Op::Constant(Constant(Value::Num(42))));
    graph.set_output_node(&c);
    match graph.build(TypeTag::Num, TypeTag::Truth) {
        Err(ComputeGraphErrors::WrongTypes(_)) => {}
        Err(other) => panic!("expected a type error, got {:?}", other),
        Ok(_) => panic!("expected a type error, got a compiled graph"),
    }
}

#[test]
fn external_input_type_is_checked() {
    let mut graph = Graph::new();
    let add = graph.insert_node("add", Op::Add(AddInputs::new()));
    graph.set_output_node(&add);
    match graph.build(TypeTag::Truth, TypeTag::Num) {
        Err(ComputeGraphErrors::WrongTypes(msg)) => {
            assert_eq!(
                msg,
                "'add' input type 'number' does not match 'compute input' output type 'truth'"
            );
        }
        Err(other) => panic!("expected a type error, got {:?}", other),
        Ok(_) => panic!("expected a type error, got a compiled graph"),
    }
}

/// A pure source compiles alone: its "no input" identity skips the
/// external-input type check and it still counts as an entry point.
#[test]
fn lone_constant_compiles() {
    let mut graph = Graph::new();
    let c = graph.insert_node("the_answer", Op::Constant(Constant(Value::Num(42))));
    graph.set_output_node(&c);
    let mut cg = graph.build(TypeTag::Truth, TypeTag::Num).unwrap();
    assert_eq!(cg.compute(&Value::Truth(true)), Value::Num(42));
}

/// The subtraction fold takes each input minus the fold of the inputs
/// before it.
#[test]
fn sub_inputs_folds_in_order() {
    let mut graph = Graph::new();
    let c1 = graph.insert_node("five", Op::Constant(Constant(Value::Num(5))));
    let c2 = graph.insert_node("three", Op::Constant(Constant(Value::Num(3))));
    let sub = graph.insert_node("sub", Op::Sub(SubInputs::new()));
    graph.add_input(&sub, &c1).unwrap();
    graph.add_input(&sub, &c2).unwrap();
    graph.set_output_node(&sub);
    let mut cg = graph.build(TypeTag::Num, TypeTag::Num).unwrap();
    assert_eq!(cg.compute(&Value::Num(0)), Value::Num(3 - 5));
}

/// A multiplier with no inputs at all produces the empty product.
#[test]
fn empty_product_is_one() {
    let mut graph = Graph::new();
    let mul = graph.insert_node("mul", Op::Mul(MulInputs::new()));
    let add = graph.insert_node("add", Op::Add(AddInputs::new()));
    graph.disconnect_from_input(&mul);
    graph.add_input(&add, &mul).unwrap();
    graph.connect_to_input(&add);
    graph.set_output_node(&add);
    let mut cg = graph.build(TypeTag::Num, TypeTag::Num).unwrap();
    assert_eq!(cg.compute(&Value::Num(7)), Value::Num(8));
}

/// The external-input flag is cleared by the first explicit input only; a
/// manual override afterwards survives later additions.
#[test]
fn input_flag_cleared_once() {
    let mut graph = Graph::new();
    let c = graph.insert_node("the_answer", Op::Constant(Constant(Value::Num(42))));
    let add = graph.insert_node("add", Op::Add(AddInputs::new()));
    assert!(graph.get_node_meta(&add).connected_to_input);
    graph.add_input(&add, &c).unwrap();
    assert!(!graph.get_node_meta(&add).connected_to_input);
    graph.connect_to_input(&add);
    graph.add_input(&add, &c).unwrap();
    assert!(graph.get_node_meta(&add).connected_to_input);
    // Removing inputs does not restore the flag either.
    graph.disconnect_from_input(&add);
    graph.remove_input(&add, &c);
    assert_eq!(graph.get_node_meta(&add).inputs.len(), 0);
    assert!(!graph.get_node_meta(&add).connected_to_input);
}

#[test]
fn names_and_type_names_are_recorded() {
    let mut graph = Graph::<Op>::new();
    assert!(graph.get_type_name(TypeTag::Num).is_none());
    let c = graph.insert_node("the_answer", Op::Constant(Constant(Value::Num(42))));
    assert_eq!(graph.get_name(&c).unwrap(), "the_answer");
    assert_eq!(graph.get_type_name(TypeTag::Num).unwrap(), "number");
    assert_eq!(graph.get_type_name(TypeTag::Unit).unwrap(), "unit");
    assert!(graph.get_type_name(TypeTag::Truth).is_none());
    graph.remove_node(&c);
    match graph.get_name(&c) {
        Err(ComputeGraphErrors::NodeMissing) => {}
        Err(other) => panic!("expected NodeMissing, got {:?}", other),
        Ok(_) => panic!("expected NodeMissing, got a compiled graph"),
    }
    assert_eq!(graph.get_all_node_metas().len(), 0);
}

/// Cloning the builder yields an independent graph: mutating one never
/// affects the other, and handles keep working against the clone.
#[test]
fn builder_clone_is_independent() {
    let mut graph = Graph::new();
    let c = graph.insert_node("the_answer", Op::Constant(Constant(Value::Num(42))));
    let add = graph.insert_node("add", Op::Add(AddInputs::new()));
    graph.add_input(&add, &c).unwrap();
    graph.connect_to_input(&add);
    graph.set_output_node(&add);
    let mut copy = graph.clone();
    graph.replace_node(&c, Op::Constant(Constant(Value::Num(11)))).unwrap();
    let mut cg = graph.build(TypeTag::Num, TypeTag::Num).unwrap();
    assert_eq!(cg.compute(&Value::Num(7)), Value::Num(18));
    let mut cg_copy = copy.build(TypeTag::Num, TypeTag::Num).unwrap();
    assert_eq!(cg_copy.compute(&Value::Num(7)), Value::Num(49));
}

/// A default-constructed builder is empty.
#[test]
fn default_graph_is_empty() {
    let graph = Graph::<Op>::default();
    assert_eq!(graph.get_all_node_metas().len(), 0);
    assert!(graph.get_type_name(TypeTag::Num).is_none());
}
