use leo_synthesizer::circuit::{Index, LinearCombination, Variable};
use leo_synthesizer::serialized_circuit::{SerializedCircuit, SerializedField, SerializedIndex};
use leo_synthesizer::synthesizer::CircuitSynthesizer;

fn to_text(value: &u64) -> SerializedField {
    SerializedField(value.to_string())
}

fn from_text(text: &SerializedField) -> Result<u64, String> {
    text.0.parse::<u64>().map_err(|_| format!("bad field: {}", text.0))
}

fn lc(terms: &[(u64, Variable)]) -> LinearCombination<u64> {
    let mut out = LinearCombination::zero();
    for (coeff, var) in terms {
        out = out.with_term(*coeff, *var);
    }
    out
}

fn sample() -> CircuitSynthesizer<u64> {
    let mut synth = CircuitSynthesizer::new();
    let one = synth.allocate_input(Ok::<u64, String>(1)).unwrap();
    let x = synth.allocate_input(Ok::<u64, String>(11)).unwrap();
    let y = synth.allocate_auxiliary(Ok::<u64, String>(22)).unwrap();
    synth.push_namespace();
    let gone = synth.allocate_auxiliary(Ok::<u64, String>(99)).unwrap();
    synth.enforce(lc(&[(1, gone)]), lc(&[(1, gone)]), lc(&[(1, gone)]));
    synth.pop_namespace();
    let z = synth.allocate_auxiliary(Ok::<u64, String>(33)).unwrap();
    synth.enforce(lc(&[(2, x), (3, y)]), lc(&[(1, one)]), lc(&[(4, z)]));
    synth.enforce(lc(&[(5, z)]), lc(&[(6, y), (7, x)]), lc(&[]));
    synth
}

fn sample_doc() -> SerializedCircuit {
    SerializedCircuit::from(sample(), to_text)
}

fn f(value: u64) -> SerializedField {
    SerializedField(value.to_string())
}

#[test]
fn snapshot_holds_counts_assignments_and_rows() {
    let doc = sample_doc();
    assert_eq!(doc.num_inputs, 2);
    assert_eq!(doc.num_aux, 2);
    assert_eq!(doc.num_constraints, 2);
    assert_eq!(doc.input_assignment, vec![f(1), f(11)]);
    assert_eq!(doc.aux_assignment, vec![f(22), f(33)]);
    assert_eq!(
        doc.at,
        vec![
            vec![(f(2), SerializedIndex::Input(1)), (f(3), SerializedIndex::Aux(0))],
            vec![(f(5), SerializedIndex::Aux(1))],
        ]
    );
    assert_eq!(
        doc.bt,
        vec![
            vec![(f(1), SerializedIndex::Input(0))],
            vec![(f(6), SerializedIndex::Aux(0)), (f(7), SerializedIndex::Input(1))],
        ]
    );
    assert_eq!(doc.ct, vec![vec![(f(4), SerializedIndex::Aux(1))], Vec::new()]);
    assert!(doc.has_rows());
}

#[test]
fn round_trip_keeps_counts_values_and_rows() {
    let doc = sample_doc();
    let rebuilt = CircuitSynthesizer::<u64>::try_from(sample_doc(), from_text).unwrap();
    assert_eq!(rebuilt.num_constraints(), 2);
    assert_eq!(rebuilt.num_inputs(), 2);
    assert_eq!(rebuilt.num_aux(), 2);
    let again = SerializedCircuit::from(rebuilt, to_text);
    assert_eq!(again.num_inputs, doc.num_inputs);
    assert_eq!(again.num_aux, doc.num_aux);
    assert_eq!(again.num_constraints, doc.num_constraints);
    assert_eq!(again.input_assignment, doc.input_assignment);
    assert_eq!(again.aux_assignment, doc.aux_assignment);
    assert_eq!(again.at, doc.at);
    assert_eq!(again.bt, doc.bt);
    assert_eq!(again.ct, doc.ct);
}

#[test]
fn rebuilt_synthesizer_has_no_holes_and_no_namespace() {
    let mut rebuilt = CircuitSynthesizer::<u64>::try_from(sample_doc(), from_text).unwrap();
    rebuilt.pop_namespace();
    assert_eq!(rebuilt.num_constraints(), 2);
    assert_eq!(rebuilt.allocate_auxiliary(Ok::<u64, String>(5)), Ok(Variable(Index::Aux(2))));
    assert_eq!(rebuilt.allocate_input(Ok::<u64, String>(6)), Ok(Variable(Index::Input(2))));
}

#[test]
fn malformed_assignment_is_reported() {
    let mut doc = sample_doc();
    doc.aux_assignment[1] = SerializedField("thirty-three".to_string());
    let r = CircuitSynthesizer::<u64>::try_from(doc, from_text);
    assert_eq!(r.err(), Some("bad field: thirty-three".to_string()));
}

#[test]
fn malformed_coefficient_is_reported() {
    let mut doc = sample_doc();
    doc.bt[1][1].0 = SerializedField("-7".to_string());
    let r = CircuitSynthesizer::<u64>::try_from(doc, from_text);
    assert_eq!(r.err(), Some("bad field: -7".to_string()));
}

#[test]
fn first_malformed_field_decides_the_error() {
    let mut doc = sample_doc();
    doc.input_assignment[0] = SerializedField("a".to_string());
    doc.aux_assignment[0] = SerializedField("b".to_string());
    doc.at[0][0].0 = SerializedField("c".to_string());
    let r = CircuitSynthesizer::<u64>::try_from(doc, from_text);
    assert_eq!(r.err(), Some("bad field: a".to_string()));
}

#[test]
fn rows_past_the_count_are_not_read() {
    let mut doc = sample_doc();
    doc.num_constraints = 1;
    doc.ct[1].push((SerializedField("junk".to_string()), SerializedIndex::Aux(0)));
    assert!(doc.has_rows());
    let rebuilt = CircuitSynthesizer::<u64>::try_from(doc, from_text).unwrap();
    assert_eq!(rebuilt.num_constraints(), 1);
    let again = SerializedCircuit::from(rebuilt, to_text);
    assert_eq!(again.ct, vec![vec![(f(4), SerializedIndex::Aux(1))]]);
}

#[test]
fn missing_rows_are_detected() {
    let mut doc = sample_doc();
    doc.bt.pop();
    assert!(!doc.has_rows());
    doc.num_constraints = 1;
    assert!(doc.has_rows());
}

#[test]
fn empty_synthesizer_round_trips() {
    let synth: CircuitSynthesizer<u64> = CircuitSynthesizer::new();
    let doc = SerializedCircuit::from(synth, to_text);
    assert_eq!((doc.num_inputs, doc.num_aux, doc.num_constraints), (0, 0, 0));
    assert!(doc.input_assignment.is_empty() && doc.at.is_empty());
    let rebuilt = CircuitSynthesizer::<u64>::try_from(doc, from_text).unwrap();
    assert_eq!(rebuilt.num_constraints(), 0);
}

#[test]
fn index_tags_convert_both_ways() {
    assert_eq!(SerializedIndex::from_index(Index::Input(3)), SerializedIndex::Input(3));
    assert_eq!(SerializedIndex::from_index(Index::Aux(4)), SerializedIndex::Aux(4));
    assert_eq!(SerializedIndex::Input(5).to_index(), Index::Input(5));
    assert_eq!(SerializedIndex::Aux(6).to_index(), Index::Aux(6));
}
