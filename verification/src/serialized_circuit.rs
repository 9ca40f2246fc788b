//! The flattened, self-contained form of a constraint system, and the
//! conversions between it and a synthesizer.
//!
//! Field elements cross this boundary in a portable textual form. The two
//! conversions between a field element and its text belong to the algebraic
//! library in use and are handed in by the caller.

use crate::circuit::{Circuit, Index, Row};
use crate::slot_store::{count_some, present, OptionalVec, Slots};
use crate::synthesizer::{lemma_rows_count, rows_model, row_view, CircuitSynthesizer};
use vstd::prelude::*;

verus! {

/// A field element in its portable textual form.
#[derive(Debug, PartialEq, Eq)]
pub struct SerializedField(pub String);

/// The slot of a variable in its portable form: a tag for the kind of the
/// variable, and its index.
#[derive(Clone, Copy, Debug, PartialEq, Eq, Structural)]
pub enum SerializedIndex {
    Input(usize),
    Aux(usize),
}

/// The portable form of a slot.
pub open spec fn tag(index: Index) -> SerializedIndex {
    match index {
        Index::Input(i) => SerializedIndex::Input(i),
        Index::Aux(i) => SerializedIndex::Aux(i),
    }
}

/// The slot that a portable form stands for.
pub open spec fn untag(index: SerializedIndex) -> Index {
    match index {
        SerializedIndex::Input(i) => Index::Input(i),
        SerializedIndex::Aux(i) => Index::Aux(i),
    }
}

impl SerializedIndex {
    /// The portable form of a slot.
    pub fn from_index(index: Index) -> (out: SerializedIndex)
        ensures
            out == tag(index),
            untag(out) == index,
    {
        match index {
            Index::Input(i) => SerializedIndex::Input(i),
            Index::Aux(i) => SerializedIndex::Aux(i),
        }
    }

    /// The slot that the portable form stands for.
    pub fn to_index(&self) -> (out: Index)
        ensures
            out == untag(*self),
            tag(out) == *self,
    {
        match self {
            SerializedIndex::Input(i) => Index::Input(*i),
            SerializedIndex::Aux(i) => Index::Aux(*i),
        }
    }
}

/// One serialized row: the terms of a linear combination.
pub type SerializedRow = Vec<(SerializedField, SerializedIndex)>;

/// A snapshot of a constraint system: the three counts, the assignments of
/// the input and auxiliary variables, and the rows of the three matrices.
/// It holds nothing about namespaces.
pub struct SerializedCircuit {
    pub num_inputs: usize,
    pub num_aux: usize,
    pub num_constraints: usize,
    pub input_assignment: Vec<SerializedField>,
    pub aux_assignment: Vec<SerializedField>,
    pub at: Vec<SerializedRow>,
    pub bt: Vec<SerializedRow>,
    pub ct: Vec<SerializedRow>,
}

/// Whether `out` holds, value by value, a text that `encode` gives for the
/// field element.
pub open spec fn encodes_all<F, Enc: Fn(&F) -> SerializedField>(
    encode: Enc,
    values: Seq<F>,
    out: Seq<SerializedField>,
) -> bool {
    &&& out.len() == values.len()
    &&& forall|k: int| 0 <= k < out.len() ==> encode.ensures((&values[k],), #[trigger] out[k])
}

/// Whether `out` holds, term by term, a text that `encode` gives for the
/// coefficient, and the portable form of the slot.
pub open spec fn encodes_row<F, Enc: Fn(&F) -> SerializedField>(
    encode: Enc,
    row: Row<F>,
    out: Seq<(SerializedField, SerializedIndex)>,
) -> bool {
    &&& out.len() == row.len()
    &&& forall|j: int|
        0 <= j < out.len() ==> encode.ensures((&row[j].0,), (#[trigger] out[j]).0) && out[j].1
            == tag(row[j].1)
}

/// Whether `out` holds the serialized form of each of `rows`, in order.
pub open spec fn encodes_rows<F, Enc: Fn(&F) -> SerializedField>(
    encode: Enc,
    rows: Seq<Row<F>>,
    out: Seq<SerializedRow>,
) -> bool {
    &&& out.len() == rows.len()
    &&& forall|k: int| 0 <= k < out.len() ==> encodes_row(encode, rows[k], (#[trigger] out[k])@)
}

/// Whether `doc` is a snapshot of the state `s` under `encode`: the counts
/// are the lengths of the stores, and the assignments and the rows stand in
/// ascending index order, holes skipped.
pub open spec fn serializes<F, Enc: Fn(&F) -> SerializedField>(
    encode: Enc,
    s: Circuit<F>,
    doc: SerializedCircuit,
) -> bool {
    &&& doc.num_inputs == s.input.len()
    &&& doc.num_aux == s.aux.len()
    &&& doc.num_constraints == s.num_constraints()
    &&& encodes_all(encode, s.input.values(), doc.input_assignment@)
    &&& encodes_all(encode, s.aux.values(), doc.aux_assignment@)
    &&& encodes_rows(encode, s.at.values(), doc.at@)
    &&& encodes_rows(encode, s.bt.values(), doc.bt@)
    &&& encodes_rows(encode, s.ct.values(), doc.ct@)
}

/// Whether a store has no hole.
pub open spec fn dense<T>(store: Slots<T>) -> bool {
    &&& store.free.len() == 0
    &&& forall|i: int| 0 <= i < store.cells.len() ==> store.cells[i] is Some
}

/// Whether `store` holds, without holes and in order, a field element that
/// `decode` gives for each of `texts`.
pub open spec fn decodes_all<F, E, Dec: Fn(&SerializedField) -> Result<F, E>>(
    decode: Dec,
    texts: Seq<SerializedField>,
    store: Slots<F>,
) -> bool {
    &&& dense(store)
    &&& store.cells.len() == texts.len()
    &&& forall|k: int|
        0 <= k < texts.len() ==> decode.ensures(
            (&texts[k],),
            Ok::<F, E>((#[trigger] store.cells[k]).unwrap()),
        )
}

/// Whether `row` holds, term by term, a field element that `decode` gives
/// for the text of the coefficient, and the slot that the tag stands for.
pub open spec fn decodes_row<F, E, Dec: Fn(&SerializedField) -> Result<F, E>>(
    decode: Dec,
    terms: Seq<(SerializedField, SerializedIndex)>,
    row: Row<F>,
) -> bool {
    &&& row.len() == terms.len()
    &&& forall|j: int|
        0 <= j < row.len() ==> decode.ensures((&terms[j].0,), Ok::<F, E>((#[trigger] row[j]).0))
            && row[j].1 == untag(terms[j].1)
}

/// Whether `store` holds, without holes and in order, the rows that the
/// first `n` of `rows` decode to.
pub open spec fn decodes_rows<F, E, Dec: Fn(&SerializedField) -> Result<F, E>>(
    decode: Dec,
    rows: Seq<SerializedRow>,
    n: int,
    store: Slots<Row<F>>,
) -> bool {
    &&& dense(store)
    &&& store.cells.len() == n
    &&& n <= rows.len()
    &&& forall|k: int|
        0 <= k < n ==> decodes_row::<F, E, Dec>(
            decode,
            rows[k]@,
            (#[trigger] store.cells[k]).unwrap(),
        )
}

/// Whether `decode` may fail with `e` on one of `texts`.
pub open spec fn fails_on<F, E, Dec: Fn(&SerializedField) -> Result<F, E>>(
    decode: Dec,
    texts: Seq<SerializedField>,
    e: E,
) -> bool {
    exists|k: int| 0 <= k < texts.len() && decode.ensures((&#[trigger] texts[k],), Err::<F, E>(e))
}

/// Whether `decode` may fail with `e` on a coefficient of `terms`.
pub open spec fn fails_on_row<F, E, Dec: Fn(&SerializedField) -> Result<F, E>>(
    decode: Dec,
    terms: Seq<(SerializedField, SerializedIndex)>,
    e: E,
) -> bool {
    exists|j: int|
        0 <= j < terms.len() && decode.ensures((&(#[trigger] terms[j]).0,), Err::<F, E>(e))
}

/// Whether `decode` may fail with `e` on a coefficient in the first `n` of
/// `rows`.
pub open spec fn fails_on_rows<F, E, Dec: Fn(&SerializedField) -> Result<F, E>>(
    decode: Dec,
    rows: Seq<SerializedRow>,
    n: int,
    e: E,
) -> bool {
    exists|k: int| 0 <= k < n && k < rows.len() && fails_on_row::<F, E, Dec>(decode, (#[trigger] rows[k])@, e)
}

/// Whether `decode` may fail with `e` on one of the texts that rebuilding a
/// synthesizer from `doc` reads.
pub open spec fn fails_somewhere<F, E, Dec: Fn(&SerializedField) -> Result<F, E>>(
    decode: Dec,
    doc: SerializedCircuit,
    e: E,
) -> bool {
    ||| fails_on::<F, E, Dec>(decode, doc.input_assignment@, e)
    ||| fails_on::<F, E, Dec>(decode, doc.aux_assignment@, e)
    ||| fails_on_rows::<F, E, Dec>(decode, doc.at@, doc.num_constraints as int, e)
    ||| fails_on_rows::<F, E, Dec>(decode, doc.bt@, doc.num_constraints as int, e)
    ||| fails_on_rows::<F, E, Dec>(decode, doc.ct@, doc.num_constraints as int, e)
}

/// Whether `decode` may succeed on `text`.
pub open spec fn decodable<F, E, Dec: Fn(&SerializedField) -> Result<F, E>>(
    decode: Dec,
    text: SerializedField,
) -> bool {
    exists|v: F| decode.ensures((&text,), Ok::<F, E>(v))
}

/// Whether `decode` may succeed on each of `texts`.
pub open spec fn all_decodable<F, E, Dec: Fn(&SerializedField) -> Result<F, E>>(
    decode: Dec,
    texts: Seq<SerializedField>,
) -> bool {
    forall|i: int| 0 <= i < texts.len() ==> decodable::<F, E, Dec>(decode, #[trigger] texts[i])
}

/// Whether `decode` may succeed on each coefficient of `terms`.
pub open spec fn row_decodable<F, E, Dec: Fn(&SerializedField) -> Result<F, E>>(
    decode: Dec,
    terms: Seq<(SerializedField, SerializedIndex)>,
) -> bool {
    forall|j: int|
        0 <= j < terms.len() ==> decodable::<F, E, Dec>(decode, (#[trigger] terms[j]).0)
}

/// Whether `decode` may succeed on each coefficient of the first `n` of
/// `rows`.
pub open spec fn rows_decodable<F, E, Dec: Fn(&SerializedField) -> Result<F, E>>(
    decode: Dec,
    rows: Seq<SerializedRow>,
    n: int,
) -> bool {
    forall|k: int|
        0 <= k < n && k < rows.len() ==> row_decodable::<F, E, Dec>(decode, (#[trigger] rows[k])@)
}

/// Whether `decode` may fail with `e` on one of `texts` after succeeding on
/// all the texts before it.
pub open spec fn first_failure<F, E, Dec: Fn(&SerializedField) -> Result<F, E>>(
    decode: Dec,
    texts: Seq<SerializedField>,
    e: E,
) -> bool {
    exists|k: int|
        0 <= k < texts.len() && decode.ensures((&#[trigger] texts[k],), Err::<F, E>(e))
            && all_decodable::<F, E, Dec>(decode, texts.take(k))
}

/// Whether `decode` may fail with `e` on a coefficient of `terms` after
/// succeeding on all the coefficients before it.
pub open spec fn first_failure_in_row<F, E, Dec: Fn(&SerializedField) -> Result<F, E>>(
    decode: Dec,
    terms: Seq<(SerializedField, SerializedIndex)>,
    e: E,
) -> bool {
    exists|j: int|
        0 <= j < terms.len() && decode.ensures((&(#[trigger] terms[j]).0,), Err::<F, E>(e))
            && row_decodable::<F, E, Dec>(decode, terms.take(j))
}

/// Whether `decode` may fail with `e` in constraint `i` of `doc`, reading
/// its row of the first matrix, then of the second, then of the third,
/// after succeeding on all the constraints before it.
pub open spec fn failure_in_constraint<F, E, Dec: Fn(&SerializedField) -> Result<F, E>>(
    decode: Dec,
    doc: SerializedCircuit,
    i: int,
    e: E,
) -> bool {
    &&& 0 <= i < doc.num_constraints
    &&& i < doc.at@.len() && i < doc.bt@.len() && i < doc.ct@.len()
    &&& rows_decodable::<F, E, Dec>(decode, doc.at@, i)
    &&& rows_decodable::<F, E, Dec>(decode, doc.bt@, i)
    &&& rows_decodable::<F, E, Dec>(decode, doc.ct@, i)
    &&& {
        ||| first_failure_in_row::<F, E, Dec>(decode, doc.at@[i]@, e)
        ||| row_decodable::<F, E, Dec>(decode, doc.at@[i]@) && first_failure_in_row::<F, E, Dec>(
            decode,
            doc.bt@[i]@,
            e,
        )
        ||| row_decodable::<F, E, Dec>(decode, doc.at@[i]@) && row_decodable::<F, E, Dec>(
            decode,
            doc.bt@[i]@,
        ) && first_failure_in_row::<F, E, Dec>(decode, doc.ct@[i]@, e)
    }
}

/// Whether `e` is an error with which `decode` may fail on the first text
/// of `doc` that it refuses. The texts are read in this order: the input
/// assignment, the auxiliary assignment, then constraint by constraint the
/// row of the first, the second and the third matrix.
pub open spec fn refused_first<F, E, Dec: Fn(&SerializedField) -> Result<F, E>>(
    decode: Dec,
    doc: SerializedCircuit,
    e: E,
) -> bool {
    ||| first_failure::<F, E, Dec>(decode, doc.input_assignment@, e)
    ||| all_decodable::<F, E, Dec>(decode, doc.input_assignment@) && first_failure::<F, E, Dec>(
        decode,
        doc.aux_assignment@,
        e,
    )
    ||| all_decodable::<F, E, Dec>(decode, doc.input_assignment@) && all_decodable::<F, E, Dec>(
        decode,
        doc.aux_assignment@,
    ) && exists|i: int| #[trigger] failure_in_constraint::<F, E, Dec>(decode, doc, i, e)
}

/// An error on the first refused text is an error on one of the texts.
pub proof fn lemma_refusal_is_failure<F, E, Dec: Fn(&SerializedField) -> Result<F, E>>(
    decode: Dec,
    doc: SerializedCircuit,
    e: E,
)
    requires
        refused_first::<F, E, Dec>(decode, doc, e),
    ensures
        fails_somewhere::<F, E, Dec>(decode, doc, e),
{
    if first_failure::<F, E, Dec>(decode, doc.input_assignment@, e) {
    } else if first_failure::<F, E, Dec>(decode, doc.aux_assignment@, e) {
    } else {
        let i = choose|i: int| #[trigger] failure_in_constraint::<F, E, Dec>(decode, doc, i, e);
        let n = doc.num_constraints as int;
        if first_failure_in_row::<F, E, Dec>(decode, doc.at@[i]@, e) {
            assert(fails_on_row::<F, E, Dec>(decode, doc.at@[i]@, e));
            assert(fails_on_rows::<F, E, Dec>(decode, doc.at@, n, e));
        } else if first_failure_in_row::<F, E, Dec>(decode, doc.bt@[i]@, e) {
            assert(fails_on_row::<F, E, Dec>(decode, doc.bt@[i]@, e));
            assert(fails_on_rows::<F, E, Dec>(decode, doc.bt@, n, e));
        } else {
            assert(fails_on_row::<F, E, Dec>(decode, doc.ct@[i]@, e));
            assert(fails_on_rows::<F, E, Dec>(decode, doc.ct@, n, e));
        }
    }
}

impl SerializedCircuit {
    /// Whether the snapshot holds as many rows in each matrix as its count
    /// of constraints says, at least.
    pub open spec fn holds_rows(&self) -> bool {
        &&& self.num_constraints <= self.at@.len()
        &&& self.num_constraints <= self.bt@.len()
        &&& self.num_constraints <= self.ct@.len()
    }

    /// Whether the snapshot holds as many rows in each matrix as its count
    /// of constraints says, at least.
    pub fn has_rows(&self) -> (ok: bool)
        ensures
            ok == self.holds_rows(),
    {
        self.num_constraints <= self.at.len() && self.num_constraints <= self.bt.len()
            && self.num_constraints <= self.ct.len()
    }
}

/// Whether `r` is what rebuilding a synthesizer from `doc` under `decode`
/// may give: a state without holes or scopes that holds the decoded
/// assignments and the first `num_constraints` rows of each matrix, or an
/// error with which `decode` failed on the first text that it refused.
pub open spec fn reconstructs<F, E, Dec: Fn(&SerializedField) -> Result<F, E>>(
    decode: Dec,
    doc: SerializedCircuit,
    r: Result<Circuit<F>, E>,
) -> bool {
    match r {
        Ok(c) => {
            &&& c.wf()
            &&& c.scopes.len() == 0
            &&& decodes_all::<F, E, Dec>(decode, doc.input_assignment@, c.input)
            &&& decodes_all::<F, E, Dec>(decode, doc.aux_assignment@, c.aux)
            &&& decodes_rows::<F, E, Dec>(decode, doc.at@, doc.num_constraints as int, c.at)
            &&& decodes_rows::<F, E, Dec>(decode, doc.bt@, doc.num_constraints as int, c.bt)
            &&& decodes_rows::<F, E, Dec>(decode, doc.ct@, doc.num_constraints as int, c.ct)
        },
        Err(e) => refused_first::<F, E, Dec>(decode, doc, e),
    }
}

/// The rows of a store of term lists, in ascending index order, are the
/// views of its occupied cells.
pub proof fn lemma_rows_values<F>(cells: Seq<Option<Vec<(F, Index)>>>)
    ensures
        present(cells.map_values(|cell: Option<Vec<(F, Index)>>| row_view(cell))) == present(
            cells,
        ).map_values(|terms: Vec<(F, Index)>| terms@),
    decreases cells.len(),
{
    let mapped = cells.map_values(|cell: Option<Vec<(F, Index)>>| row_view(cell));
    if cells.len() > 0 {
        lemma_rows_values(cells.drop_last());
        assert(mapped.drop_last() =~= cells.drop_last().map_values(
            |cell: Option<Vec<(F, Index)>>| row_view(cell),
        ));
        assert(present(mapped) =~= present(cells).map_values(|terms: Vec<(F, Index)>| terms@));
    } else {
        assert(present(mapped) =~= present(cells).map_values(|terms: Vec<(F, Index)>| terms@));
    }
}

/// A store without holes holds as many values as it has cells, and its
/// values in index order are the contents of its cells.
pub proof fn lemma_dense_values<T>(cells: Seq<Option<T>>)
    requires
        forall|i: int| 0 <= i < cells.len() ==> cells[i] is Some,
    ensures
        count_some(cells) == cells.len(),
        present(cells).len() == cells.len(),
        forall|i: int| 0 <= i < cells.len() ==> present(cells)[i] == (#[trigger] cells[i]).unwrap(),
    decreases cells.len(),
{
    if cells.len() > 0 {
        lemma_dense_values(cells.drop_last());
        assert forall|i: int| 0 <= i < cells.len() implies present(cells)[i] == (
        #[trigger] cells[i]).unwrap() by {
            if i < cells.len() - 1 {
                assert(cells.drop_last()[i] == cells[i]);
            }
        }
    }
}

/// The texts of some field elements, in order.
fn get_serialized_assignments<F, Enc: Fn(&F) -> SerializedField>(
    assignments: Vec<&F>,
    encode: &Enc,
) -> (out: Vec<SerializedField>)
    requires
        forall|f: &F| encode.requires((f,)),
    ensures
        out@.len() == assignments@.len(),
        forall|k: int| 0 <= k < out@.len() ==> encode.ensures((assignments@[k],), #[trigger] out@[k]),
{
    let mut out: Vec<SerializedField> = Vec::with_capacity(assignments.len());
    let mut k: usize = 0;
    while k < assignments.len()
        invariant
            k <= assignments@.len(),
            out@.len() == k,
            forall|f: &F| encode.requires((f,)),
            forall|j: int| 0 <= j < k ==> encode.ensures((assignments@[j],), #[trigger] out@[j]),
        decreases assignments@.len() - k,
    {
        let text = encode(assignments[k]);
        out.push(text);
        k += 1;
    }
    out
}

/// The serialized form of one row.
fn get_serialized_constraints<F, Enc: Fn(&F) -> SerializedField>(
    constraints: &Vec<(F, Index)>,
    encode: &Enc,
) -> (serialized: SerializedRow)
    requires
        forall|f: &F| encode.requires((f,)),
    ensures
        encodes_row(*encode, constraints@, serialized@),
{
    let mut serialized: SerializedRow = Vec::with_capacity(constraints.len());
    let mut j: usize = 0;
    while j < constraints.len()
        invariant
            j <= constraints@.len(),
            serialized@.len() == j,
            forall|f: &F| encode.requires((f,)),
            forall|i: int|
                0 <= i < j ==> encode.ensures((&constraints@[i].0,), (#[trigger] serialized@[i]).0)
                    && serialized@[i].1 == tag(constraints@[i].1),
        decreases constraints@.len() - j,
    {
        let field = encode(&constraints[j].0);
        let index = SerializedIndex::from_index(constraints[j].1);
        serialized.push((field, index));
        j += 1;
    }
    serialized
}

/// The serialized forms of the rows of one matrix, in order.
fn get_serialized_matrix<F, Enc: Fn(&F) -> SerializedField>(
    rows: Vec<&Vec<(F, Index)>>,
    encode: &Enc,
) -> (out: Vec<SerializedRow>)
    requires
        forall|f: &F| encode.requires((f,)),
    ensures
        out@.len() == rows@.len(),
        forall|k: int|
            0 <= k < out@.len() ==> encodes_row(*encode, rows@[k]@, (#[trigger] out@[k])@),
{
    let mut out: Vec<SerializedRow> = Vec::with_capacity(rows.len());
    let mut k: usize = 0;
    while k < rows.len()
        invariant
            k <= rows@.len(),
            out@.len() == k,
            forall|f: &F| encode.requires((f,)),
            forall|i: int| 0 <= i < k ==> encodes_row(*encode, rows@[i]@, (#[trigger] out@[i])@),
        decreases rows@.len() - k,
    {
        let row = get_serialized_constraints(rows[k], encode);
        out.push(row);
        k += 1;
    }
    out
}

impl SerializedCircuit {
    /// The snapshot of a synthesizer. The counts are the numbers of input
    /// values, auxiliary values and constraints; the assignments and the
    /// rows of each matrix follow in ascending index order, each field
    /// element as the text that `encode` gives for it. Namespaces are
    /// dropped.
    pub fn from<F, Enc: Fn(&F) -> SerializedField>(
        synthesizer: CircuitSynthesizer<F>,
        encode: Enc,
    ) -> (doc: SerializedCircuit)
        requires
            synthesizer.wf(),
            forall|f: &F| encode.requires((f,)),
        ensures
            serializes(encode, synthesizer@, doc),
    {
        let num_inputs = synthesizer.input_assignment.len();
        let num_aux = synthesizer.aux_assignment.len();
        let num_constraints = synthesizer.num_constraints();

        let input_assignment = get_serialized_assignments(
            synthesizer.input_assignment.iter(),
            &encode,
        );
        let aux_assignment = get_serialized_assignments(synthesizer.aux_assignment.iter(), &encode);

        let at = get_serialized_matrix(synthesizer.at.iter(), &encode);
        let bt = get_serialized_matrix(synthesizer.bt.iter(), &encode);
        let ct = get_serialized_matrix(synthesizer.ct.iter(), &encode);
        proof {
            lemma_rows_values(synthesizer.at@.cells);
            lemma_rows_values(synthesizer.bt@.cells);
            lemma_rows_values(synthesizer.ct@.cells);
        }
        SerializedCircuit {
            num_inputs,
            num_aux,
            num_constraints,
            input_assignment,
            aux_assignment,
            at,
            bt,
            ct,
        }
    }
}

/// A store of term lists without holes has well-formed rows without holes.
pub proof fn lemma_dense_rows<F>(store: Slots<Vec<(F, Index)>>)
    requires
        store.wf(),
        dense(store),
    ensures
        rows_model(store).wf(),
        dense(rows_model(store)),
        rows_model(store).cells.len() == store.cells.len(),
{
    lemma_rows_count(store.cells);
}

/// The field elements that some texts stand for, in a store without holes.
fn get_deserialized_assignments<F, E, Dec: Fn(&SerializedField) -> Result<F, E>>(
    assignments: &Vec<SerializedField>,
    decode: &Dec,
) -> (r: Result<OptionalVec<F>, E>)
    requires
        forall|t: &SerializedField| decode.requires((t,)),
    ensures
        match r {
            Ok(store) => {
                &&& store@.wf()
                &&& decodes_all::<F, E, Dec>(*decode, assignments@, store@)
                &&& all_decodable::<F, E, Dec>(*decode, assignments@)
            },
            Err(e) => first_failure::<F, E, Dec>(*decode, assignments@, e),
        },
{
    let mut deserialized: OptionalVec<F> = OptionalVec::with_capacity(assignments.len());
    let mut k: usize = 0;
    while k < assignments.len()
        invariant
            k <= assignments@.len(),
            forall|t: &SerializedField| decode.requires((t,)),
            deserialized@.wf(),
            dense(deserialized@),
            deserialized@.cells.len() == k,
            forall|i: int|
                0 <= i < k ==> decode.ensures(
                    (&assignments@[i],),
                    Ok::<F, E>((#[trigger] deserialized@.cells[i]).unwrap()),
                ),
            forall|i: int|
                0 <= i < k ==> decodable::<F, E, Dec>(*decode, #[trigger] assignments@[i]),
        decreases assignments@.len() - k,
    {
        match decode(&assignments[k]) {
            Ok(field) => {
                assert(decode.ensures((&assignments@[k as int],), Ok::<F, E>(field)));
                deserialized.insert(field);
            },
            Err(e) => {
                proof {
                    assert(all_decodable::<F, E, Dec>(*decode, assignments@.take(k as int)));
                    assert(decode.ensures((&assignments@[k as int],), Err::<F, E>(e)));
                }
                return Err(e);
            },
        }
        k += 1;
    }
    Ok(deserialized)
}

/// The row that a serialized row stands for.
fn get_deserialized_constraints<F, E, Dec: Fn(&SerializedField) -> Result<F, E>>(
    constraints: &Vec<(SerializedField, SerializedIndex)>,
    decode: &Dec,
) -> (r: Result<Vec<(F, Index)>, E>)
    requires
        forall|t: &SerializedField| decode.requires((t,)),
    ensures
        match r {
            Ok(row) => {
                &&& decodes_row::<F, E, Dec>(*decode, constraints@, row@)
                &&& row_decodable::<F, E, Dec>(*decode, constraints@)
            },
            Err(e) => first_failure_in_row::<F, E, Dec>(*decode, constraints@, e),
        },
{
    let mut deserialized: Vec<(F, Index)> = Vec::with_capacity(constraints.len());
    let mut j: usize = 0;
    while j < constraints.len()
        invariant
            j <= constraints@.len(),
            forall|t: &SerializedField| decode.requires((t,)),
            deserialized@.len() == j,
            forall|i: int|
                0 <= i < j ==> decode.ensures(
                    (&constraints@[i].0,),
                    Ok::<F, E>((#[trigger] deserialized@[i]).0),
                ) && deserialized@[i].1 == untag(constraints@[i].1),
            forall|i: int|
                0 <= i < j ==> decodable::<F, E, Dec>(*decode, (#[trigger] constraints@[i]).0),
        decreases constraints@.len() - j,
    {
        match decode(&constraints[j].0) {
            Ok(field) => {
                assert(decode.ensures((&constraints@[j as int].0,), Ok::<F, E>(field)));
                let index = constraints[j].1.to_index();
                deserialized.push((field, index));
            },
            Err(e) => {
                proof {
                    assert(row_decodable::<F, E, Dec>(*decode, constraints@.take(j as int)));
                    assert(decode.ensures((&constraints@[j as int].0,), Err::<F, E>(e)));
                }
                return Err(e);
            },
        }
        j += 1;
    }
    Ok(deserialized)
}

impl<F> CircuitSynthesizer<F> {
    /// Rebuilds a synthesizer from a snapshot. The assignments and the first
    /// `num_constraints` rows of each matrix are decoded and inserted in
    /// order, so that the synthesizer has no hole; no namespace is open.
    /// Fails with the error of `decode` on the first text that it refuses;
    /// then no synthesizer is returned.
    pub fn try_from<E, Dec: Fn(&SerializedField) -> Result<F, E>>(
        serialized: SerializedCircuit,
        decode: Dec,
    ) -> (r: Result<CircuitSynthesizer<F>, E>)
        requires
            serialized.holds_rows(),
            forall|t: &SerializedField| decode.requires((t,)),
        ensures
            match r {
                Ok(synth) => synth.wf() && reconstructs(decode, serialized, Ok::<Circuit<F>, E>(synth@)),
                Err(e) => reconstructs(decode, serialized, Err::<Circuit<F>, E>(e)),
            },
    {
        let input_assignment = match get_deserialized_assignments(
            &serialized.input_assignment,
            &decode,
        ) {
            Ok(store) => store,
            Err(e) => {
                return Err(e);
            },
        };
        let aux_assignment = match get_deserialized_assignments(
            &serialized.aux_assignment,
            &decode,
        ) {
            Ok(store) => store,
            Err(e) => {
                return Err(e);
            },
        };

        let mut at: OptionalVec<Vec<(F, Index)>> = OptionalVec::with_capacity(
            serialized.num_constraints,
        );
        let mut bt: OptionalVec<Vec<(F, Index)>> = OptionalVec::with_capacity(
            serialized.num_constraints,
        );
        let mut ct: OptionalVec<Vec<(F, Index)>> = OptionalVec::with_capacity(
            serialized.num_constraints,
        );

        let mut i: usize = 0;
        while i < serialized.num_constraints
            invariant
                i <= serialized.num_constraints,
                serialized.holds_rows(),
                forall|t: &SerializedField| decode.requires((t,)),
                at@.wf() && bt@.wf() && ct@.wf(),
                dense(at@) && dense(bt@) && dense(ct@),
                at@.cells.len() == i && bt@.cells.len() == i && ct@.cells.len() == i,
                all_decodable::<F, E, Dec>(decode, serialized.input_assignment@),
                all_decodable::<F, E, Dec>(decode, serialized.aux_assignment@),
                rows_decodable::<F, E, Dec>(decode, serialized.at@, i as int),
                rows_decodable::<F, E, Dec>(decode, serialized.bt@, i as int),
                rows_decodable::<F, E, Dec>(decode, serialized.ct@, i as int),
                forall|k: int|
                    0 <= k < i ==> decodes_row::<F, E, Dec>(
                        decode,
                        serialized.at@[k]@,
                        (#[trigger] at@.cells[k]).unwrap()@,
                    ),
                forall|k: int|
                    0 <= k < i ==> decodes_row::<F, E, Dec>(
                        decode,
                        serialized.bt@[k]@,
                        (#[trigger] bt@.cells[k]).unwrap()@,
                    ),
                forall|k: int|
                    0 <= k < i ==> decodes_row::<F, E, Dec>(
                        decode,
                        serialized.ct@[k]@,
                        (#[trigger] ct@.cells[k]).unwrap()@,
                    ),
            decreases serialized.num_constraints - i,
        {
            let a_constraints = match get_deserialized_constraints(&serialized.at[i], &decode) {
                Ok(row) => row,
                Err(e) => {
                    proof {
                        assert(failure_in_constraint::<F, E, Dec>(decode, serialized, i as int, e));
                    }
                    return Err(e);
                },
            };
            at.insert(a_constraints);

            let b_constraints = match get_deserialized_constraints(&serialized.bt[i], &decode) {
                Ok(row) => row,
                Err(e) => {
                    proof {
                        assert(failure_in_constraint::<F, E, Dec>(decode, serialized, i as int, e));
                    }
                    return Err(e);
                },
            };
            bt.insert(b_constraints);

            let c_constraints = match get_deserialized_constraints(&serialized.ct[i], &decode) {
                Ok(row) => row,
                Err(e) => {
                    proof {
                        assert(failure_in_constraint::<F, E, Dec>(decode, serialized, i as int, e));
                    }
                    return Err(e);
                },
            };
            ct.insert(c_constraints);
            i += 1;
        }

        proof {
            lemma_dense_rows(at@);
            lemma_dense_rows(bt@);
            lemma_dense_rows(ct@);
        }
        let synth = CircuitSynthesizer {
            input_assignment,
            aux_assignment,
            at,
            bt,
            ct,
            namespaces: Vec::new(),
        };
        proof {
            assert(synth@.scopes =~= Seq::<crate::circuit::Scope>::empty());
            let n = serialized.num_constraints as int;
            assert forall|k: int| 0 <= k < n implies decodes_row::<F, E, Dec>(
                decode,
                serialized.at@[k]@,
                (#[trigger] synth@.at.cells[k]).unwrap(),
            ) by {
                assert(synth@.at.cells[k].unwrap() == at@.cells[k].unwrap()@);
            }
            assert forall|k: int| 0 <= k < n implies decodes_row::<F, E, Dec>(
                decode,
                serialized.bt@[k]@,
                (#[trigger] synth@.bt.cells[k]).unwrap(),
            ) by {
                assert(synth@.bt.cells[k].unwrap() == bt@.cells[k].unwrap()@);
            }
            assert forall|k: int| 0 <= k < n implies decodes_row::<F, E, Dec>(
                decode,
                serialized.ct@[k]@,
                (#[trigger] synth@.ct.cells[k]).unwrap(),
            ) by {
                assert(synth@.ct.cells[k].unwrap() == ct@.cells[k].unwrap()@);
            }
            assert(decodes_rows::<F, E, Dec>(decode, serialized.at@, n, synth@.at));
            assert(decodes_rows::<F, E, Dec>(decode, serialized.bt@, n, synth@.bt));
            assert(decodes_rows::<F, E, Dec>(decode, serialized.ct@, n, synth@.ct));
            assert(synth@.at.free =~= synth@.bt.free);
            assert(synth@.at.free =~= synth@.ct.free);
        }
        Ok(synth)
    }
}

} // verus!
