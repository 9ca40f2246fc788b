//! The round-trip law of the serialized form.

use crate::circuit::{Circuit, Row};
use crate::serialized_circuit::{
    decodes_all, decodes_row, decodes_rows, encodes_all, encodes_row, encodes_rows, fails_on,
    fails_on_row, fails_on_rows, lemma_dense_values, lemma_refusal_is_failure, reconstructs,
    serializes, tag, untag, SerializedCircuit, SerializedField, SerializedRow,
};
use crate::slot_store::{lemma_present_len, Slots};
use vstd::prelude::*;

verus! {

/// Whether `decode` gives back every field element from any text that
/// `encode` gives for it, and nothing else.
pub open spec fn inverse<
    F,
    E,
    Enc: Fn(&F) -> SerializedField,
    Dec: Fn(&SerializedField) -> Result<F, E>,
>(encode: Enc, decode: Dec) -> bool {
    forall|f: F, t: SerializedField, r: Result<F, E>|
        #[trigger] encode.ensures((&f,), t) && #[trigger] decode.ensures((&t,), r) ==> r == Ok::<
            F,
            E,
        >(f)
}

/// Decoding the texts of some values gives a store without holes that
/// holds those values in the same order.
pub proof fn lemma_values_round_trip<
    F,
    E,
    Enc: Fn(&F) -> SerializedField,
    Dec: Fn(&SerializedField) -> Result<F, E>,
>(encode: Enc, decode: Dec, values: Seq<F>, texts: Seq<SerializedField>, store: Slots<F>)
    requires
        inverse::<F, E, Enc, Dec>(encode, decode),
        encodes_all(encode, values, texts),
        decodes_all::<F, E, Dec>(decode, texts, store),
    ensures
        store.values() == values,
        store.len() == values.len(),
{
    lemma_dense_values(store.cells);
    assert forall|k: int| 0 <= k < values.len() implies store.values()[k] == values[k] by {
        assert(encode.ensures((&values[k],), texts[k]));
        assert(decode.ensures((&texts[k],), Ok::<F, E>(store.cells[k].unwrap())));
    }
    assert(store.values() =~= values);
}

/// Decoding does not fail on texts that encoding gave.
pub proof fn lemma_values_decode<
    F,
    E,
    Enc: Fn(&F) -> SerializedField,
    Dec: Fn(&SerializedField) -> Result<F, E>,
>(encode: Enc, decode: Dec, values: Seq<F>, texts: Seq<SerializedField>, e: E)
    requires
        inverse::<F, E, Enc, Dec>(encode, decode),
        encodes_all(encode, values, texts),
    ensures
        !fails_on::<F, E, Dec>(decode, texts, e),
{
    if fails_on::<F, E, Dec>(decode, texts, e) {
        let k = choose|k: int|
            0 <= k < texts.len() && decode.ensures((&#[trigger] texts[k],), Err::<F, E>(e));
        assert(encode.ensures((&values[k],), texts[k]));
        assert(Err::<F, E>(e) == Ok::<F, E>(values[k]));
    }
}

/// Decoding a serialized row gives back the row.
pub proof fn lemma_row_round_trip<
    F,
    E,
    Enc: Fn(&F) -> SerializedField,
    Dec: Fn(&SerializedField) -> Result<F, E>,
>(
    encode: Enc,
    decode: Dec,
    row: Row<F>,
    terms: Seq<(SerializedField, crate::serialized_circuit::SerializedIndex)>,
    back: Row<F>,
)
    requires
        inverse::<F, E, Enc, Dec>(encode, decode),
        encodes_row(encode, row, terms),
        decodes_row::<F, E, Dec>(decode, terms, back),
    ensures
        back == row,
{
    assert forall|j: int| 0 <= j < row.len() implies back[j] == row[j] by {
        assert(encode.ensures((&row[j].0,), terms[j].0));
        assert(decode.ensures((&terms[j].0,), Ok::<F, E>(back[j].0)));
        assert(back[j].1 == untag(terms[j].1));
        assert(terms[j].1 == tag(row[j].1));
    }
    assert(back =~= row);
}

/// Decoding the serialized rows of a matrix gives a store without holes
/// that holds the rows in the same order.
pub proof fn lemma_rows_round_trip<
    F,
    E,
    Enc: Fn(&F) -> SerializedField,
    Dec: Fn(&SerializedField) -> Result<F, E>,
>(encode: Enc, decode: Dec, rows: Seq<Row<F>>, out: Seq<SerializedRow>, store: Slots<Row<F>>)
    requires
        inverse::<F, E, Enc, Dec>(encode, decode),
        encodes_rows(encode, rows, out),
        decodes_rows::<F, E, Dec>(decode, out, rows.len() as int, store),
    ensures
        store.values() == rows,
        store.len() == rows.len(),
{
    lemma_dense_values(store.cells);
    assert forall|k: int| 0 <= k < rows.len() implies store.values()[k] == rows[k] by {
        assert(encodes_row(encode, rows[k], out[k]@));
        assert(decodes_row::<F, E, Dec>(decode, out[k]@, store.cells[k].unwrap()));
        lemma_row_round_trip::<F, E, Enc, Dec>(
            encode,
            decode,
            rows[k],
            out[k]@,
            store.cells[k].unwrap(),
        );
    }
    assert(store.values() =~= rows);
}

/// Decoding does not fail on the serialized rows that encoding gave.
pub proof fn lemma_rows_decode<
    F,
    E,
    Enc: Fn(&F) -> SerializedField,
    Dec: Fn(&SerializedField) -> Result<F, E>,
>(encode: Enc, decode: Dec, rows: Seq<Row<F>>, out: Seq<SerializedRow>, n: int, e: E)
    requires
        inverse::<F, E, Enc, Dec>(encode, decode),
        encodes_rows(encode, rows, out),
    ensures
        !fails_on_rows::<F, E, Dec>(decode, out, n, e),
{
    if fails_on_rows::<F, E, Dec>(decode, out, n, e) {
        let k = choose|k: int|
            0 <= k < n && k < out.len() && fails_on_row::<F, E, Dec>(
                decode,
                (#[trigger] out[k])@,
                e,
            );
        let terms = out[k]@;
        assert(encodes_row(encode, rows[k], terms));
        let j = choose|j: int|
            0 <= j < terms.len() && decode.ensures((&(#[trigger] terms[j]).0,), Err::<F, E>(e));
        assert(encode.ensures((&rows[k][j].0,), terms[j].0));
        assert(Err::<F, E>(e) == Ok::<F, E>(rows[k][j].0));
    }
}

/// Round trip: where decoding undoes encoding, rebuilding a synthesizer
/// from the snapshot of a state succeeds and gives a state with the same
/// number of constraints, the same assignment values in index order, and
/// the same rows, coefficient and slot of every term, in index order.
pub proof fn lemma_round_trip<
    F,
    E,
    Enc: Fn(&F) -> SerializedField,
    Dec: Fn(&SerializedField) -> Result<F, E>,
>(encode: Enc, decode: Dec, s: Circuit<F>, doc: SerializedCircuit, r: Result<Circuit<F>, E>)
    requires
        s.wf(),
        inverse::<F, E, Enc, Dec>(encode, decode),
        serializes(encode, s, doc),
        reconstructs(decode, doc, r),
    ensures
        r is Ok,
        r->Ok_0.wf(),
        r->Ok_0.scopes.len() == 0,
        r->Ok_0.num_constraints() == s.num_constraints(),
        r->Ok_0.input.len() == s.input.len(),
        r->Ok_0.aux.len() == s.aux.len(),
        r->Ok_0.input.values() == s.input.values(),
        r->Ok_0.aux.values() == s.aux.values(),
        r->Ok_0.at.values() == s.at.values(),
        r->Ok_0.bt.values() == s.bt.values(),
        r->Ok_0.ct.values() == s.ct.values(),
{
    lemma_present_len(s.at.cells);
    lemma_present_len(s.bt.cells);
    lemma_present_len(s.ct.cells);
    lemma_present_len(s.input.cells);
    lemma_present_len(s.aux.cells);
    let n = doc.num_constraints as int;
    match r {
        Ok(c) => {
            lemma_values_round_trip::<F, E, Enc, Dec>(
                encode,
                decode,
                s.input.values(),
                doc.input_assignment@,
                c.input,
            );
            lemma_values_round_trip::<F, E, Enc, Dec>(
                encode,
                decode,
                s.aux.values(),
                doc.aux_assignment@,
                c.aux,
            );
            lemma_rows_round_trip::<F, E, Enc, Dec>(encode, decode, s.at.values(), doc.at@, c.at);
            lemma_rows_round_trip::<F, E, Enc, Dec>(encode, decode, s.bt.values(), doc.bt@, c.bt);
            lemma_rows_round_trip::<F, E, Enc, Dec>(encode, decode, s.ct.values(), doc.ct@, c.ct);
        },
        Err(e) => {
            lemma_refusal_is_failure::<F, E, Dec>(decode, doc, e);
            lemma_values_decode::<F, E, Enc, Dec>(
                encode,
                decode,
                s.input.values(),
                doc.input_assignment@,
                e,
            );
            lemma_values_decode::<F, E, Enc, Dec>(
                encode,
                decode,
                s.aux.values(),
                doc.aux_assignment@,
                e,
            );
            lemma_rows_decode::<F, E, Enc, Dec>(encode, decode, s.at.values(), doc.at@, n, e);
            lemma_rows_decode::<F, E, Enc, Dec>(encode, decode, s.bt.values(), doc.bt@, n, e);
            lemma_rows_decode::<F, E, Enc, Dec>(encode, decode, s.ct.values(), doc.ct@, n, e);
        },
    }
}

} // verus!
