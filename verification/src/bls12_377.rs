//! The serialized form over the scalar field of BLS12-377: field elements
//! are written and read as decimal text by the field's own conversions.

use crate::circuit::{Circuit, Row, Scope};
use crate::serialized_circuit::{
    decodes_all, decodes_row, decodes_rows, encodes_all, encodes_row, encodes_rows, fails_on,
    fails_on_row, fails_on_rows, lemma_refusal_is_failure, reconstructs, serializes, tag, untag,
    SerializedCircuit, SerializedField, SerializedIndex, SerializedRow,
};
use crate::slot_store::Slots;
use crate::synthesizer::CircuitSynthesizer;
use snarkvm_curves::bls12_377::{Fr, FrParameters};
use snarkvm_fields::{FieldError, Fp256};
use std::str::FromStr;
use vstd::prelude::*;

verus! {

/// `snarkvm_fields::Fp256`, an element of a prime field of at most 256
/// bits. Nothing is known of what a value holds.
#[verifier::external_type_specification]
#[verifier::external_body]
#[verifier::reject_recursive_types(P)]
pub struct ExFp256<P>(Fp256<P>);

/// `snarkvm_curves::bls12_377::FrParameters`, the marker type that selects
/// the scalar field of BLS12-377.
#[verifier::external_type_specification]
#[verifier::external_body]
pub struct ExFrParameters(FrParameters);

/// `snarkvm_fields::FieldError`, the error of the field's conversions.
#[verifier::external_type_specification]
#[verifier::external_body]
pub struct ExFieldError(FieldError);

/// The field element that `Fp256::from_str` reads a text as, if it accepts
/// the text.
pub uninterp spec fn parsed_field(text: Seq<char>) -> Option<Fr>;

/// The text that `Fp256`'s `Display` writes a field element as.
pub uninterp spec fn field_text(field: Fr) -> Seq<char>;

/// Calls `Fp256::from_str` for the scalar field of BLS12-377. The contract
/// claims that the outcome is a function of the text alone, named
/// `parsed_field`, and that the empty text is refused, as the function's
/// documentation says. Which texts are accepted otherwise, and as which
/// element, is not stated.
#[verifier::external_body]
fn field_from_text(text: &SerializedField) -> (r: Result<Fr, FieldError>)
    ensures
        r is Ok <==> parsed_field(text.0@) is Some,
        r is Ok ==> Some(r->Ok_0) == parsed_field(text.0@),
        text.0@.len() == 0 ==> r is Err,
{
    Fr::from_str(text.0.as_str())
}

/// Calls `to_string` on a field element, which goes through `Fp256`'s
/// `Display`. The contract claims that the text is a function of the
/// element alone, named `field_text`. What the text holds is not stated.
#[verifier::external_body]
fn field_to_text(field: &Fr) -> (text: SerializedField)
    ensures
        text.0@ == field_text(*field),
{
    SerializedField(field.to_string())
}

/// Why a snapshot cannot be rebuilt into a synthesizer.
pub enum DecodeError {
    /// The field refused the text of a field element.
    Field(FieldError),
    /// A matrix holds fewer rows than the snapshot counts constraints.
    MissingRows,
}

/// Reads a serialized field element. Succeeds exactly on the texts that
/// the field accepts, and fails with the field's own error.
pub fn decode_field(text: &SerializedField) -> (r: Result<Fr, DecodeError>)
    ensures
        r is Ok <==> parsed_field(text.0@) is Some,
        r is Ok ==> Some(r->Ok_0) == parsed_field(text.0@),
        r is Err ==> r->Err_0 is Field,
        text.0@.len() == 0 ==> r is Err,
{
    match field_from_text(text) {
        Ok(field) => Ok(field),
        Err(source) => Err(DecodeError::Field(source)),
    }
}

/// The store that holds, without holes, what each of `texts` is read as.
pub open spec fn parsed_values(texts: Seq<SerializedField>) -> Slots<Fr> {
    Slots {
        cells: texts.map_values(|t: SerializedField| parsed_field(t.0@)),
        free: Seq::empty(),
    }
}

/// The row that a serialized row is read as.
pub open spec fn parsed_row(terms: Seq<(SerializedField, SerializedIndex)>) -> Row<Fr> {
    terms.map_values(
        |t: (SerializedField, SerializedIndex)| (parsed_field(t.0.0@).unwrap(), untag(t.1)),
    )
}

/// The store that holds, without holes, what the first `n` of `rows` are
/// read as.
pub open spec fn parsed_rows(rows: Seq<SerializedRow>, n: int) -> Slots<Row<Fr>> {
    Slots {
        cells: rows.take(n).map_values(|r: SerializedRow| Some(parsed_row(r@))),
        free: Seq::empty(),
    }
}

/// The state that a snapshot is read as.
pub open spec fn parsed_circuit(doc: SerializedCircuit) -> Circuit<Fr> {
    Circuit {
        at: parsed_rows(doc.at@, doc.num_constraints as int),
        bt: parsed_rows(doc.bt@, doc.num_constraints as int),
        ct: parsed_rows(doc.ct@, doc.num_constraints as int),
        input: parsed_values(doc.input_assignment@),
        aux: parsed_values(doc.aux_assignment@),
        scopes: Seq::empty(),
    }
}

/// Whether the field accepts each of `texts`.
pub open spec fn texts_parse(texts: Seq<SerializedField>) -> bool {
    forall|k: int| 0 <= k < texts.len() ==> parsed_field((#[trigger] texts[k]).0@) is Some
}

/// Whether the field accepts every coefficient of a serialized row.
pub open spec fn row_parses(terms: Seq<(SerializedField, SerializedIndex)>) -> bool {
    forall|j: int| 0 <= j < terms.len() ==> parsed_field((#[trigger] terms[j]).0.0@) is Some
}

/// Whether the field accepts every coefficient of the first `n` of `rows`.
pub open spec fn rows_parse(rows: Seq<SerializedRow>, n: int) -> bool {
    forall|k: int| 0 <= k < n && k < rows.len() ==> row_parses((#[trigger] rows[k])@)
}

/// Whether the field accepts every text of a snapshot that rebuilding
/// reads.
pub open spec fn all_parse(doc: SerializedCircuit) -> bool {
    &&& texts_parse(doc.input_assignment@)
    &&& texts_parse(doc.aux_assignment@)
    &&& rows_parse(doc.at@, doc.num_constraints as int)
    &&& rows_parse(doc.bt@, doc.num_constraints as int)
    &&& rows_parse(doc.ct@, doc.num_constraints as int)
}

/// Whether `out` holds the text of each of `values`, in order.
pub open spec fn values_written(values: Seq<Fr>, out: Seq<SerializedField>) -> bool {
    &&& out.len() == values.len()
    &&& forall|k: int| 0 <= k < out.len() ==> (#[trigger] out[k]).0@ == field_text(values[k])
}

/// Whether `out` holds, term by term, the text of the coefficient and the
/// portable form of the slot.
pub open spec fn row_written(row: Row<Fr>, out: Seq<(SerializedField, SerializedIndex)>) -> bool {
    &&& out.len() == row.len()
    &&& forall|j: int|
        0 <= j < out.len() ==> (#[trigger] out[j]).0.0@ == field_text(row[j].0) && out[j].1 == tag(
            row[j].1,
        )
}

/// Whether `out` holds the serialized form of each of `rows`, in order.
pub open spec fn rows_written(rows: Seq<Row<Fr>>, out: Seq<SerializedRow>) -> bool {
    &&& out.len() == rows.len()
    &&& forall|k: int| 0 <= k < out.len() ==> row_written(rows[k], (#[trigger] out[k])@)
}

/// Whether `doc` is the snapshot of the state `s`.
pub open spec fn written(s: Circuit<Fr>, doc: SerializedCircuit) -> bool {
    &&& doc.num_inputs == s.input.len()
    &&& doc.num_aux == s.aux.len()
    &&& doc.num_constraints == s.num_constraints()
    &&& values_written(s.input.values(), doc.input_assignment@)
    &&& values_written(s.aux.values(), doc.aux_assignment@)
    &&& rows_written(s.at.values(), doc.at@)
    &&& rows_written(s.bt.values(), doc.bt@)
    &&& rows_written(s.ct.values(), doc.ct@)
}

/// Whether `decode` reads every text as the field does, and fails with the
/// field's own error.
pub open spec fn reads_fields<Dec: Fn(&SerializedField) -> Result<Fr, DecodeError>>(
    decode: Dec,
) -> bool {
    forall|t: SerializedField, r: Result<Fr, DecodeError>| #[trigger]
        decode.ensures((&t,), r) ==> {
            &&& r is Ok <==> parsed_field(t.0@) is Some
            &&& r is Ok ==> Some(r->Ok_0) == parsed_field(t.0@)
            &&& r is Err ==> r->Err_0 is Field
        }
}

/// Whether `encode` writes every element as the field does.
pub open spec fn writes_fields<Enc: Fn(&Fr) -> SerializedField>(encode: Enc) -> bool {
    forall|f: Fr, t: SerializedField| #[trigger] encode.ensures((&f,), t) ==> t.0@ == field_text(f)
}

/// A store decoded as the field reads is the store of the parsed values.
pub proof fn lemma_parsed_values<Dec: Fn(&SerializedField) -> Result<Fr, DecodeError>>(
    decode: Dec,
    texts: Seq<SerializedField>,
    store: Slots<Fr>,
)
    requires
        reads_fields(decode),
        decodes_all::<Fr, DecodeError, Dec>(decode, texts, store),
    ensures
        store == parsed_values(texts),
        texts_parse(texts),
{
    assert forall|k: int| 0 <= k < texts.len() implies #[trigger] store.cells[k] == parsed_field(
        texts[k].0@,
    ) by {
        assert(decode.ensures((&texts[k],), Ok::<Fr, DecodeError>(store.cells[k].unwrap())));
    }
    assert forall|k: int| 0 <= k < texts.len() implies parsed_field(
        (#[trigger] texts[k]).0@,
    ) is Some by {
        assert(store.cells[k] == parsed_field(texts[k].0@));
    }
    assert(store.cells =~= parsed_values(texts).cells);
    assert(store.free =~= parsed_values(texts).free);
}

/// Rows decoded as the field reads are the parsed rows.
pub proof fn lemma_parsed_rows<Dec: Fn(&SerializedField) -> Result<Fr, DecodeError>>(
    decode: Dec,
    rows: Seq<SerializedRow>,
    n: int,
    store: Slots<Row<Fr>>,
)
    requires
        reads_fields(decode),
        decodes_rows::<Fr, DecodeError, Dec>(decode, rows, n, store),
    ensures
        store == parsed_rows(rows, n),
        rows_parse(rows, n),
{
    assert forall|k: int| 0 <= k < n implies #[trigger] store.cells[k] == Some(
        parsed_row(rows[k]@),
    ) && row_parses(rows[k]@) by {
        let row = store.cells[k].unwrap();
        let terms = rows[k]@;
        assert(decodes_row::<Fr, DecodeError, Dec>(decode, terms, row));
        assert forall|j: int| 0 <= j < terms.len() implies #[trigger] row[j] == parsed_row(
            terms,
        )[j] by {
            assert(decode.ensures((&terms[j].0,), Ok::<Fr, DecodeError>(row[j].0)));
        }
        assert forall|j: int| 0 <= j < terms.len() implies parsed_field(
            (#[trigger] terms[j]).0.0@,
        ) is Some by {
            assert(decode.ensures((&terms[j].0,), Ok::<Fr, DecodeError>(row[j].0)));
        }
        assert(row =~= parsed_row(terms));
    }
    assert forall|k: int| 0 <= k < n && k < rows.len() implies row_parses(
        (#[trigger] rows[k])@,
    ) by {
        assert(store.cells[k] == Some(parsed_row(rows[k]@)));
    }
    assert(store.cells =~= parsed_rows(rows, n).cells);
    assert(store.free =~= parsed_rows(rows, n).free);
}

/// Where decoding as the field reads fails, the field refuses a text.
pub proof fn lemma_refused<Dec: Fn(&SerializedField) -> Result<Fr, DecodeError>>(
    decode: Dec,
    doc: SerializedCircuit,
    e: DecodeError,
)
    requires
        reads_fields(decode),
        reconstructs(decode, doc, Err::<Circuit<Fr>, DecodeError>(e)),
    ensures
        !all_parse(doc),
        e is Field,
{
    let n = doc.num_constraints as int;
    lemma_refusal_is_failure::<Fr, DecodeError, Dec>(decode, doc, e);
    if fails_on::<Fr, DecodeError, Dec>(decode, doc.input_assignment@, e) {
        lemma_text_refused::<Dec>(decode, doc.input_assignment@, e);
    } else if fails_on::<Fr, DecodeError, Dec>(decode, doc.aux_assignment@, e) {
        lemma_text_refused::<Dec>(decode, doc.aux_assignment@, e);
    } else if fails_on_rows::<Fr, DecodeError, Dec>(decode, doc.at@, n, e) {
        lemma_row_refused::<Dec>(decode, doc.at@, n, e);
    } else if fails_on_rows::<Fr, DecodeError, Dec>(decode, doc.bt@, n, e) {
        lemma_row_refused::<Dec>(decode, doc.bt@, n, e);
    } else {
        lemma_row_refused::<Dec>(decode, doc.ct@, n, e);
    }
}

/// Where decoding as the field reads fails on one of some texts, the field
/// refuses one of them.
pub proof fn lemma_text_refused<Dec: Fn(&SerializedField) -> Result<Fr, DecodeError>>(
    decode: Dec,
    texts: Seq<SerializedField>,
    e: DecodeError,
)
    requires
        reads_fields(decode),
        fails_on::<Fr, DecodeError, Dec>(decode, texts, e),
    ensures
        !texts_parse(texts),
        e is Field,
{
    let k = choose|k: int|
        0 <= k < texts.len() && decode.ensures((&#[trigger] texts[k],), Err::<Fr, DecodeError>(e));
    assert(parsed_field(texts[k].0@) is None);
}

/// Where decoding as the field reads fails on a coefficient of some rows,
/// the field refuses one of their coefficients.
pub proof fn lemma_row_refused<Dec: Fn(&SerializedField) -> Result<Fr, DecodeError>>(
    decode: Dec,
    rows: Seq<SerializedRow>,
    n: int,
    e: DecodeError,
)
    requires
        reads_fields(decode),
        fails_on_rows::<Fr, DecodeError, Dec>(decode, rows, n, e),
    ensures
        !rows_parse(rows, n),
        e is Field,
{
    let k = choose|k: int|
        0 <= k < n && k < rows.len() && fails_on_row::<Fr, DecodeError, Dec>(decode, (#[trigger] rows[k])@, e);
    let terms = rows[k]@;
    let j = choose|j: int|
        0 <= j < terms.len() && decode.ensures((&(#[trigger] terms[j]).0,), Err::<Fr, DecodeError>(e));
    assert(parsed_field(terms[j].0.0@) is None);
    assert(!row_parses(rows[k]@));
}

/// A snapshot encoded as the field writes holds the texts of the field.
pub proof fn lemma_written<Enc: Fn(&Fr) -> SerializedField>(
    encode: Enc,
    s: Circuit<Fr>,
    doc: SerializedCircuit,
)
    requires
        writes_fields(encode),
        serializes(encode, s, doc),
    ensures
        written(s, doc),
{
    lemma_values_written(encode, s.input.values(), doc.input_assignment@);
    lemma_values_written(encode, s.aux.values(), doc.aux_assignment@);
    lemma_rows_written(encode, s.at.values(), doc.at@);
    lemma_rows_written(encode, s.bt.values(), doc.bt@);
    lemma_rows_written(encode, s.ct.values(), doc.ct@);
}

/// Values encoded as the field writes are the texts of the field.
pub proof fn lemma_values_written<Enc: Fn(&Fr) -> SerializedField>(
    encode: Enc,
    values: Seq<Fr>,
    out: Seq<SerializedField>,
)
    requires
        writes_fields(encode),
        encodes_all(encode, values, out),
    ensures
        values_written(values, out),
{
    assert forall|k: int| 0 <= k < out.len() implies (#[trigger] out[k]).0@ == field_text(
        values[k],
    ) by {
        assert(encode.ensures((&values[k],), out[k]));
    }
}

/// Rows encoded as the field writes hold the texts of the field.
pub proof fn lemma_rows_written<Enc: Fn(&Fr) -> SerializedField>(
    encode: Enc,
    rows: Seq<Row<Fr>>,
    out: Seq<SerializedRow>,
)
    requires
        writes_fields(encode),
        encodes_rows(encode, rows, out),
    ensures
        rows_written(rows, out),
{
    assert forall|k: int| 0 <= k < out.len() implies row_written(rows[k], (#[trigger] out[k])@) by {
        let row = rows[k];
        let terms = out[k]@;
        assert(encodes_row(encode, row, terms));
        assert forall|j: int| 0 <= j < terms.len() implies (#[trigger] terms[j]).0.0@
            == field_text(row[j].0) && terms[j].1 == tag(row[j].1) by {
            assert(encode.ensures((&row[j].0,), terms[j].0));
        }
    }
}

impl SerializedCircuit {
    /// The snapshot of a synthesizer over the scalar field of BLS12-377:
    /// the counts, and the assignments and rows in ascending index order,
    /// each field element as the text that the field writes for it.
    pub fn from_bls12_377(synthesizer: CircuitSynthesizer<Fr>) -> (doc: SerializedCircuit)
        requires
            synthesizer.wf(),
        ensures
            written(synthesizer@, doc),
    {
        let encode = |field: &Fr| -> (text: SerializedField)
            ensures
                text.0@ == field_text(*field),
            { field_to_text(field) };
        let ghost state = synthesizer@;
        let doc = SerializedCircuit::from(synthesizer, encode);
        proof {
            lemma_written(encode, state, doc);
        }
        doc
    }
}

impl CircuitSynthesizer<Fr> {
    /// Rebuilds a synthesizer over the scalar field of BLS12-377 from a
    /// snapshot. Succeeds exactly when each matrix holds as many rows as
    /// the snapshot counts constraints and the field accepts every text
    /// among the assignments and the first `num_constraints` rows of each
    /// matrix; the synthesizer then holds, without holes and with no
    /// namespace open, what those texts are read as. Where rows are missing
    /// nothing is read.
    pub fn try_from_bls12_377(serialized: SerializedCircuit) -> (r: Result<
        CircuitSynthesizer<Fr>,
        DecodeError,
    >)
        ensures
            r is Ok <==> serialized.holds_rows() && all_parse(serialized),
            r is Ok ==> r->Ok_0.wf() && r->Ok_0@ == parsed_circuit(serialized),
            r is Err ==> (r->Err_0 is MissingRows <==> !serialized.holds_rows()),
    {
        if !serialized.has_rows() {
            return Err(DecodeError::MissingRows);
        }
        let decode = |text: &SerializedField| -> (field: Result<Fr, DecodeError>)
            ensures
                field is Ok <==> parsed_field(text.0@) is Some,
                field is Ok ==> Some(field->Ok_0) == parsed_field(text.0@),
                field is Err ==> field->Err_0 is Field,
            { decode_field(text) };
        let ghost doc = serialized;
        let r = CircuitSynthesizer::try_from(serialized, decode);
        proof {
            let n = doc.num_constraints as int;
            if r is Ok {
                let c = r->Ok_0@;
                lemma_parsed_values(decode, doc.input_assignment@, c.input);
                lemma_parsed_values(decode, doc.aux_assignment@, c.aux);
                lemma_parsed_rows(decode, doc.at@, n, c.at);
                lemma_parsed_rows(decode, doc.bt@, n, c.bt);
                lemma_parsed_rows(decode, doc.ct@, n, c.ct);
                assert(c.scopes =~= Seq::<Scope>::empty());
            } else {
                lemma_refused(decode, doc, r->Err_0);
            }
        }
        r
    }
}

} // verus!
