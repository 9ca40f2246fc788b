use leo_synthesizer::bls12_377::{decode_field, DecodeError};
use leo_synthesizer::circuit::{Index, LinearCombination, Variable};
use leo_synthesizer::serialized_circuit::{SerializedCircuit, SerializedField, SerializedIndex};
use leo_synthesizer::synthesizer::CircuitSynthesizer;
use snarkvm_curves::bls12_377::Fr;
use snarkvm_fields::FieldError;

fn fr(value: u64) -> Result<Fr, String> {
    Ok(Fr::from(value))
}

fn one(var: Variable) -> LinearCombination<Fr> {
    LinearCombination::zero().with_term(Fr::from(1u64), var)
}

fn text(digits: &str) -> SerializedField {
    SerializedField(digits.to_string())
}

fn product_circuit() -> CircuitSynthesizer<Fr> {
    let mut synth = CircuitSynthesizer::new();
    let x = synth.allocate_input(fr(1)).unwrap();
    let y = synth.allocate_input(fr(2)).unwrap();
    let z = synth.allocate_auxiliary(fr(3)).unwrap();
    synth.enforce(one(x), one(y), one(z));
    synth
}

#[test]
fn field_elements_are_written_as_decimal_text() {
    let doc = SerializedCircuit::from_bls12_377(product_circuit());
    assert_eq!((doc.num_inputs, doc.num_aux, doc.num_constraints), (2, 1, 1));
    assert_eq!(doc.input_assignment, vec![text("1"), text("2")]);
    assert_eq!(doc.aux_assignment, vec![text("3")]);
    assert_eq!(doc.at, vec![vec![(text("1"), SerializedIndex::Input(0))]]);
    assert_eq!(doc.bt, vec![vec![(text("1"), SerializedIndex::Input(1))]]);
    assert_eq!(doc.ct, vec![vec![(text("1"), SerializedIndex::Aux(0))]]);
}

#[test]
fn large_field_elements_keep_all_their_digits() {
    let mut synth = CircuitSynthesizer::new();
    synth.allocate_auxiliary(Ok::<Fr, String>(Fr::from(u64::MAX) * Fr::from(u64::MAX))).unwrap();
    let doc = SerializedCircuit::from_bls12_377(synth);
    assert_eq!(doc.aux_assignment, vec![text("340282366920938463426481119284349108225")]);
}

#[test]
fn snapshot_over_the_field_round_trips() {
    let doc = SerializedCircuit::from_bls12_377(product_circuit());
    let rebuilt = match CircuitSynthesizer::try_from_bls12_377(doc) {
        Ok(synth) => synth,
        Err(DecodeError::Field(e)) => panic!("the snapshot was refused: {:?}", e),
        Err(DecodeError::MissingRows) => panic!("the snapshot lacks rows"),
    };
    assert_eq!(rebuilt.num_constraints(), 1);
    assert_eq!(rebuilt.num_inputs(), 2);
    assert_eq!(rebuilt.num_aux(), 1);
    let again = SerializedCircuit::from_bls12_377(rebuilt);
    let doc = SerializedCircuit::from_bls12_377(product_circuit());
    assert_eq!(again.input_assignment, doc.input_assignment);
    assert_eq!(again.aux_assignment, doc.aux_assignment);
    assert_eq!(again.at, doc.at);
    assert_eq!(again.bt, doc.bt);
    assert_eq!(again.ct, doc.ct);
}

#[test]
fn decimal_text_is_read_as_the_field_element() {
    assert_eq!(decode_field(&text("0")).ok(), Some(Fr::from(0u64)));
    assert_eq!(decode_field(&text("1")).ok(), Some(Fr::from(1u64)));
    assert_eq!(decode_field(&text("5")).ok(), Some(Fr::from(5u64)));
    assert_eq!(
        decode_field(&text("18446744073709551616")).ok(),
        Some(Fr::from(u64::MAX) + Fr::from(1u64))
    );
}

#[test]
fn empty_text_is_refused() {
    let err = decode_field(&text("")).err().unwrap();
    assert!(matches!(err, DecodeError::Field(FieldError::ParsingEmptyString)));
}

#[test]
fn text_with_other_characters_is_refused() {
    let err = decode_field(&text("12a")).err().unwrap();
    assert!(matches!(err, DecodeError::Field(FieldError::ParsingNonDigitCharacter)));
}

#[test]
fn text_with_leading_zero_is_refused() {
    let err = decode_field(&text("007")).err().unwrap();
    assert!(matches!(err, DecodeError::Field(FieldError::InvalidString)));
}

#[test]
fn malformed_field_fails_the_whole_snapshot() {
    let mut doc = SerializedCircuit::from_bls12_377(product_circuit());
    doc.ct[0][0].0 = text("x");
    let r = CircuitSynthesizer::try_from_bls12_377(doc);
    assert!(matches!(r.err(), Some(DecodeError::Field(FieldError::ParsingNonDigitCharacter))));
}

#[test]
fn malformed_field_past_the_count_is_not_read() {
    let mut doc = SerializedCircuit::from_bls12_377(product_circuit());
    doc.num_constraints = 0;
    doc.ct[0][0].0 = text("x");
    let rebuilt = CircuitSynthesizer::try_from_bls12_377(doc).ok().unwrap();
    assert_eq!(rebuilt.num_constraints(), 0);
    assert_eq!(rebuilt.num_inputs(), 2);
}

#[test]
fn rebuilt_synthesizer_allocates_after_the_last_value() {
    let doc = SerializedCircuit::from_bls12_377(product_circuit());
    let mut rebuilt = CircuitSynthesizer::try_from_bls12_377(doc).ok().unwrap();
    assert_eq!(rebuilt.allocate_auxiliary(fr(9)), Ok(Variable(Index::Aux(1))));
    assert_eq!(rebuilt.allocate_input(fr(9)), Ok(Variable(Index::Input(2))));
}

#[test]
fn missing_rows_are_reported_before_any_text_is_read() {
    let mut doc = SerializedCircuit::from_bls12_377(product_circuit());
    doc.input_assignment[0] = text("x");
    doc.bt.pop();
    let r = CircuitSynthesizer::try_from_bls12_377(doc);
    assert!(matches!(r.err(), Some(DecodeError::MissingRows)));
}
