use leo_synthesizer::circuit::{Index, LinearCombination, Variable};
use leo_synthesizer::serialized_circuit::{SerializedCircuit, SerializedField, SerializedIndex};
use leo_synthesizer::synthesizer::{CircuitSynthesizer, Namespace};

fn text(value: &u64) -> SerializedField {
    SerializedField(value.to_string())
}

fn term(coeff: u64, var: Variable) -> LinearCombination<u64> {
    LinearCombination::zero().with_term(coeff, var)
}

fn ok(value: u64) -> Result<u64, String> {
    Ok(value)
}

fn field(value: u64) -> SerializedField {
    SerializedField(value.to_string())
}

#[test]
fn new_synthesizer_is_empty() {
    let synth: CircuitSynthesizer<u64> = CircuitSynthesizer::new();
    assert_eq!(synth.num_constraints(), 0);
    assert_eq!(synth.num_inputs(), 0);
    assert_eq!(synth.num_aux(), 0);
}

#[test]
fn variables_are_tagged_and_numbered() {
    let mut synth = CircuitSynthesizer::new();
    assert_eq!(synth.allocate_input(ok(1)), Ok(Variable(Index::Input(0))));
    assert_eq!(synth.allocate_input(ok(2)), Ok(Variable(Index::Input(1))));
    assert_eq!(synth.allocate_auxiliary(ok(3)), Ok(Variable(Index::Aux(0))));
    assert_eq!(synth.allocate_auxiliary(ok(4)), Ok(Variable(Index::Aux(1))));
    assert_eq!(synth.num_inputs(), 2);
    assert_eq!(synth.num_aux(), 2);
    assert_eq!(Variable::new_unchecked(Index::Aux(5)).get_unchecked(), Index::Aux(5));
}

#[test]
fn failed_allocation_changes_nothing() {
    let mut synth: CircuitSynthesizer<u64> = CircuitSynthesizer::new();
    synth.push_namespace();
    synth.allocate_auxiliary(ok(1)).unwrap();
    let failed: Result<u64, String> = Err("no value".to_string());
    assert_eq!(synth.allocate_auxiliary(failed), Err("no value".to_string()));
    let failed: Result<u64, String> = Err("no input".to_string());
    assert_eq!(synth.allocate_input(failed), Err("no input".to_string()));
    assert_eq!(synth.num_aux(), 1);
    assert_eq!(synth.num_inputs(), 0);
    assert_eq!(synth.allocate_auxiliary(ok(2)), Ok(Variable(Index::Aux(1))));
    synth.pop_namespace();
    assert_eq!(synth.num_aux(), 0);
}

#[test]
fn unsatisfied_constraint_is_still_recorded() {
    let mut synth = CircuitSynthesizer::new();
    let x = synth.allocate_input(ok(1)).unwrap();
    let y = synth.allocate_input(ok(2)).unwrap();
    let z = synth.allocate_auxiliary(ok(3)).unwrap();
    synth.enforce(term(1, x), term(1, y), term(1, z));
    assert_eq!(synth.num_constraints(), 1);

    let doc = SerializedCircuit::from(synth, text);
    assert_eq!(doc.num_inputs, 2);
    assert_eq!(doc.num_aux, 1);
    assert_eq!(doc.num_constraints, 1);
    assert_eq!(doc.input_assignment, vec![field(1), field(2)]);
    assert_eq!(doc.aux_assignment, vec![field(3)]);
    assert_eq!(doc.at, vec![vec![(field(1), SerializedIndex::Input(0))]]);
    assert_eq!(doc.bt, vec![vec![(field(1), SerializedIndex::Input(1))]]);
    assert_eq!(doc.ct, vec![vec![(field(1), SerializedIndex::Aux(0))]]);
}

#[test]
fn popping_a_namespace_removes_its_constraint_and_variable() {
    let mut synth = CircuitSynthesizer::new();
    synth.allocate_auxiliary(ok(9)).unwrap();
    let before = synth.num_aux();
    synth.push_namespace();
    let v = synth.allocate_auxiliary(ok(5)).unwrap();
    synth.enforce(term(1, v), term(1, v), term(1, v));
    assert_eq!(synth.num_constraints(), 1);
    assert_eq!(synth.num_aux(), before + 1);
    synth.pop_namespace();
    assert_eq!(synth.num_constraints(), 0);
    assert_eq!(synth.num_aux(), before);
}

#[test]
fn scope_restores_all_three_counts() {
    let mut synth = CircuitSynthesizer::new();
    let a = synth.allocate_input(ok(1)).unwrap();
    let b = synth.allocate_auxiliary(ok(2)).unwrap();
    synth.enforce(term(3, a), term(4, b), term(5, a));
    synth.push_namespace();
    for n in 0..4u64 {
        let v = synth.allocate_auxiliary(ok(n)).unwrap();
        let w = synth.allocate_input(ok(n + 10)).unwrap();
        synth.enforce(term(1, v), term(1, w), term(1, a));
        synth.enforce(term(2, w), term(2, v), term(2, b));
    }
    synth.allocate_input(ok(77)).unwrap();
    assert_eq!(synth.num_constraints(), 9);
    assert_eq!(synth.num_inputs(), 6);
    assert_eq!(synth.num_aux(), 5);
    synth.pop_namespace();
    assert_eq!(synth.num_constraints(), 1);
    assert_eq!(synth.num_inputs(), 1);
    assert_eq!(synth.num_aux(), 1);

    let doc = SerializedCircuit::from(synth, text);
    assert_eq!(doc.input_assignment, vec![field(1)]);
    assert_eq!(doc.aux_assignment, vec![field(2)]);
    assert_eq!(doc.at, vec![vec![(field(3), SerializedIndex::Input(0))]]);
    assert_eq!(doc.bt, vec![vec![(field(4), SerializedIndex::Aux(0))]]);
    assert_eq!(doc.ct, vec![vec![(field(5), SerializedIndex::Input(0))]]);
}

#[test]
fn nested_namespaces_remove_exactly_their_own_allocations() {
    let mut synth = CircuitSynthesizer::new();
    let base = synth.allocate_auxiliary(ok(100)).unwrap();

    synth.push_namespace();
    let a = synth.allocate_auxiliary(ok(1)).unwrap();
    synth.enforce(term(1, a), term(1, base), term(1, a));

    synth.push_namespace();
    let b = synth.allocate_auxiliary(ok(2)).unwrap();
    let b_in = synth.allocate_input(ok(20)).unwrap();
    synth.enforce(term(1, b), term(1, b_in), term(1, b));
    synth.enforce(term(2, b), term(2, b_in), term(2, b));
    assert_eq!((synth.num_constraints(), synth.num_inputs(), synth.num_aux()), (3, 1, 3));
    synth.pop_namespace();
    assert_eq!((synth.num_constraints(), synth.num_inputs(), synth.num_aux()), (1, 0, 2));

    let c = synth.allocate_auxiliary(ok(3)).unwrap();
    assert_eq!(c, Variable(Index::Aux(2)));
    let c_in = synth.allocate_input(ok(30)).unwrap();
    assert_eq!(c_in, Variable(Index::Input(0)));
    synth.enforce(term(1, c), term(1, c_in), term(1, a));
    assert_eq!((synth.num_constraints(), synth.num_inputs(), synth.num_aux()), (2, 1, 3));
    synth.pop_namespace();
    assert_eq!((synth.num_constraints(), synth.num_inputs(), synth.num_aux()), (0, 0, 1));

    let doc = SerializedCircuit::from(synth, text);
    assert_eq!(doc.aux_assignment, vec![field(100)]);
    assert!(doc.input_assignment.is_empty());
    assert!(doc.at.is_empty() && doc.bt.is_empty() && doc.ct.is_empty());
}

#[test]
fn allocations_outside_any_namespace_are_permanent() {
    let mut synth = CircuitSynthesizer::new();
    let v = synth.allocate_auxiliary(ok(1)).unwrap();
    synth.enforce(term(1, v), term(1, v), term(1, v));
    synth.pop_namespace();
    assert_eq!(synth.num_constraints(), 1);
    assert_eq!(synth.num_aux(), 1);
    synth.push_namespace();
    synth.pop_namespace();
    synth.pop_namespace();
    assert_eq!(synth.num_constraints(), 1);
    assert_eq!(synth.num_aux(), 1);
}

#[test]
fn freed_indices_are_reused_by_later_allocations() {
    let mut synth = CircuitSynthesizer::new();
    synth.allocate_auxiliary(ok(1)).unwrap();
    synth.push_namespace();
    assert_eq!(synth.allocate_auxiliary(ok(2)), Ok(Variable(Index::Aux(1))));
    assert_eq!(synth.allocate_auxiliary(ok(3)), Ok(Variable(Index::Aux(2))));
    synth.pop_namespace();
    assert_eq!(synth.allocate_auxiliary(ok(4)), Ok(Variable(Index::Aux(2))));
    assert_eq!(synth.allocate_auxiliary(ok(5)), Ok(Variable(Index::Aux(1))));
    assert_eq!(synth.allocate_auxiliary(ok(6)), Ok(Variable(Index::Aux(3))));
    let doc = SerializedCircuit::from(synth, text);
    assert_eq!(doc.aux_assignment, vec![field(1), field(5), field(4), field(6)]);
}

#[test]
fn rows_keep_every_term_in_order() {
    let mut synth = CircuitSynthesizer::new();
    let x = synth.allocate_input(ok(1)).unwrap();
    let y = synth.allocate_auxiliary(ok(2)).unwrap();
    let a = LinearCombination::zero().with_term(7, x).with_term(8, y).with_term(9, x);
    synth.enforce(a, LinearCombination::zero(), term(5, y));
    let doc = SerializedCircuit::from(synth, text);
    assert_eq!(
        doc.at,
        vec![vec![
            (field(7), SerializedIndex::Input(0)),
            (field(8), SerializedIndex::Aux(0)),
            (field(9), SerializedIndex::Input(0)),
        ]]
    );
    assert_eq!(doc.bt, vec![Vec::new()]);
    assert_eq!(doc.ct, vec![vec![(field(5), SerializedIndex::Aux(0))]]);
}

#[test]
fn root_is_the_synthesizer_itself() {
    let mut synth: CircuitSynthesizer<u64> = CircuitSynthesizer::new();
    synth.get_root().allocate_input(ok(1)).unwrap();
    assert_eq!(synth.num_inputs(), 1);
}

#[test]
fn default_namespace_can_be_made() {
    let _ns: Namespace = Namespace::default();
}
