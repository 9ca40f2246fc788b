//! The constraint synthesizer: variable allocation, constraint emission and
//! scoped rollback on top of the slot store.

use crate::circuit::{
    lemma_allocate_auxiliary_wf, lemma_allocate_input_wf, lemma_enforce_wf,
    lemma_pop_namespace_wf, lemma_push_namespace_wf, project, record, Circuit, Index, Kind,
    LinearCombination, Row, Scope, Variable,
};
use crate::slot_store::{
    count_some, lemma_remove_all, lemma_replace, tracks, OptionalVec, Slots,
};
use vstd::prelude::*;

verus! {

/// Indices as mathematical integers.
pub open spec fn as_ints(indices: Seq<usize>) -> Seq<int> {
    indices.map_values(|i: usize| i as int)
}

/// The row that a cell of a constraint matrix holds, if any.
pub open spec fn row_view<F>(cell: Option<Vec<(F, Index)>>) -> Option<Row<F>> {
    match cell {
        Some(terms) => Some(terms@),
        None => None,
    }
}

/// A store of term lists as a store of rows.
pub open spec fn rows_model<F>(store: Slots<Vec<(F, Index)>>) -> Slots<Row<F>> {
    Slots {
        cells: store.cells.map_values(|cell: Option<Vec<(F, Index)>>| row_view(cell)),
        free: store.free,
    }
}

/// A store of term lists has as many rows as it has occupied cells.
pub proof fn lemma_rows_count<F>(cells: Seq<Option<Vec<(F, Index)>>>)
    ensures
        count_some(cells.map_values(|cell: Option<Vec<(F, Index)>>| row_view(cell)))
            == count_some(cells),
    decreases cells.len(),
{
    if cells.len() > 0 {
        lemma_rows_count(cells.drop_last());
        assert(cells.map_values(|cell: Option<Vec<(F, Index)>>| row_view(cell)).drop_last()
            =~= cells.drop_last().map_values(|cell: Option<Vec<(F, Index)>>| row_view(cell)));
    }
}

/// Freeing cells of a store of term lists frees the same rows.
pub proof fn lemma_rows_remove_all<F>(store: Slots<Vec<(F, Index)>>, indices: Seq<int>)
    requires
        store.wf(),
        tracks(indices, store),
    ensures
        rows_model(store.remove_all(indices)) == rows_model(store).remove_all(indices),
    decreases indices.len(),
{
    if indices.len() > 0 {
        let init = indices.drop_last();
        assert(tracks(init, store)) by {
            assert forall|k: int| 0 <= k < init.len() implies store.occupied(#[trigger] init[k]) by {
                assert(store.occupied(indices[k]));
            }
        }
        lemma_rows_remove_all(store, init);
        lemma_remove_all(store, init);
        let m = store.remove_all(init);
        assert(store.occupied(indices[indices.len() - 1]));
        assert(rows_model(m.remove(indices.last())).cells =~= rows_model(m).remove(
            indices.last(),
        ).cells);
    }
}

/// The indices allocated while one scope was the innermost.
pub struct Namespace {
    constraint_indices: Vec<usize>,
    input_indices: Vec<usize>,
    aux_indices: Vec<usize>,
}

impl View for Namespace {
    type V = Scope;

    closed spec fn view(&self) -> Scope {
        Scope {
            constraints: as_ints(self.constraint_indices@),
            inputs: as_ints(self.input_indices@),
            auxes: as_ints(self.aux_indices@),
        }
    }
}

impl Default for Namespace {
    fn default() -> (ns: Self)
        ensures
            ns@ == Scope::empty(),
    {
        let ns = Namespace {
            constraint_indices: Vec::new(),
            input_indices: Vec::new(),
            aux_indices: Vec::new(),
        };
        proof {
            assert(ns@.constraints =~= Scope::empty().constraints);
            assert(ns@.inputs =~= Scope::empty().inputs);
            assert(ns@.auxes =~= Scope::empty().auxes);
        }
        ns
    }
}

/// The scopes that a stack of namespaces stands for.
pub open spec fn scopes_view(namespaces: Seq<Namespace>) -> Seq<Scope> {
    namespaces.map_values(|ns: Namespace| ns@)
}

/// Lets the innermost namespace, if there is one, record an allocation.
fn record_allocation(namespaces: &mut Vec<Namespace>, kind: Kind, idx: usize)
    ensures
        scopes_view(final(namespaces)@) == record(scopes_view(old(namespaces)@), kind, idx as int),
{
    match namespaces.pop() {
        Some(ns) => {
            let mut ns = ns;
            let ghost before = ns@;
            match kind {
                Kind::Constraint => {
                    ns.constraint_indices.push(idx);
                    proof {
                        assert(ns@.constraints =~= before.constraints.push(idx as int));
                    }
                },
                Kind::Input => {
                    ns.input_indices.push(idx);
                    proof {
                        assert(ns@.inputs =~= before.inputs.push(idx as int));
                    }
                },
                Kind::Aux => {
                    ns.aux_indices.push(idx);
                    proof {
                        assert(ns@.auxes =~= before.auxes.push(idx as int));
                    }
                },
            }
            proof {
                assert(ns@ == before.record(kind, idx as int));
            }
            namespaces.push(ns);
            proof {
                assert(scopes_view(namespaces@) =~= record(
                    scopes_view(old(namespaces)@),
                    kind,
                    idx as int,
                ));
            }
        },
        None => {},
    }
}

/// Frees the given cells of a store, first to last.
fn release<T>(store: &mut OptionalVec<T>, indices: &Vec<usize>)
    requires
        old(store)@.wf(),
        tracks(as_ints(indices@), old(store)@),
    ensures
        final(store)@ == old(store)@.remove_all(as_ints(indices@)),
        final(store)@.wf(),
{
    let ghost all = as_ints(indices@);
    let ghost start = store@;
    let mut k: usize = 0;
    while k < indices.len()
        invariant
            k <= indices@.len(),
            all == as_ints(indices@),
            start.wf(),
            tracks(all, start),
            store@ == start.remove_all(all.take(k as int)),
            store@.wf(),
        decreases indices@.len() - k,
    {
        let idx = indices[k];
        proof {
            let done = all.take(k as int);
            assert(tracks(done, start)) by {
                assert forall|j: int| 0 <= j < done.len() implies start.occupied(
                    #[trigger] done[j],
                ) by {
                    assert(start.occupied(all[j]));
                }
            }
            lemma_remove_all(start, done);
            assert(!crate::slot_store::listed(done, idx as int)) by {
                if crate::slot_store::listed(done, idx as int) {
                    let j = choose|j: int| 0 <= j < done.len() && done[j] == idx as int;
                    assert(all[j] == all[k as int]);
                }
            }
            assert(start.occupied(all[k as int]));
            assert(store@.lookup(idx as int) == start.lookup(idx as int));
            assert(all.take(k + 1).drop_last() =~= done);
        }
        store.remove(idx);
        k += 1;
    }
    proof {
        assert(all.take(k as int) =~= all);
    }
}

/// Appends the terms of a linear combination to the row of a matrix.
fn push_constraints<F: Copy>(
    l: LinearCombination<F>,
    constraints: &mut OptionalVec<Vec<(F, Index)>>,
    this_constraint: usize,
)
    requires
        old(constraints)@.wf(),
        old(constraints)@.occupied(this_constraint as int),
    ensures
        final(constraints)@.wf(),
        final(constraints)@.occupied(this_constraint as int),
        final(constraints)@.free == old(constraints)@.free,
        final(constraints)@.cells.len() == old(constraints)@.cells.len(),
        forall|j: int|
            j != this_constraint ==> final(constraints)@.lookup(j) == old(constraints)@.lookup(j),
        final(constraints)@.lookup(this_constraint as int).unwrap()@ == old(constraints)@.lookup(
            this_constraint as int,
        ).unwrap()@ + project(l@),
{
    let ghost start = constraints@;
    let ghost row = start.lookup(this_constraint as int).unwrap()@;
    let mut i: usize = 0;
    proof {
        assert(row + project(l@.take(0)) =~= row);
    }
    while i < l.0.len()
        invariant
            i <= l@.len(),
            constraints@.wf(),
            constraints@.occupied(this_constraint as int),
            constraints@.free == start.free,
            constraints@.cells.len() == start.cells.len(),
            forall|j: int| j != this_constraint ==> constraints@.lookup(j) == start.lookup(j),
            constraints@.lookup(this_constraint as int).unwrap()@ == row + project(
                l@.take(i as int),
            ),
        decreases l@.len() - i,
    {
        let (var, coeff) = l.0[i];
        let ghost before = constraints@;
        match var.get_unchecked() {
            Index::Input(n) => {
                let terms = constraints.index_mut(this_constraint);
                terms.push((coeff, Index::Input(n)));
            },
            Index::Aux(n) => {
                let terms = constraints.index_mut(this_constraint);
                terms.push((coeff, Index::Aux(n)));
            },
        }
        proof {
            let now = constraints@.lookup(this_constraint as int).unwrap();
            lemma_replace(before, this_constraint as int, now);
            assert(project(l@.take(i + 1)) =~= project(l@.take(i as int)).push((coeff, var.0)));
            assert(now@ =~= row + project(l@.take(i + 1)));
        }
        i += 1;
    }
    proof {
        assert(l@.take(i as int) =~= l@);
    }
}

/// A constraint system under construction: three matrices of term lists,
/// the assignments of the input and auxiliary variables, and the stack of
/// open namespaces.
pub struct CircuitSynthesizer<F> {
    pub(crate) at: OptionalVec<Vec<(F, Index)>>,
    pub(crate) bt: OptionalVec<Vec<(F, Index)>>,
    pub(crate) ct: OptionalVec<Vec<(F, Index)>>,
    pub(crate) input_assignment: OptionalVec<F>,
    pub(crate) aux_assignment: OptionalVec<F>,
    pub(crate) namespaces: Vec<Namespace>,
}

impl<F> CircuitSynthesizer<F> {
    /// The state that the synthesizer stands for.
    pub open(crate) spec fn view(&self) -> Circuit<F> {
        Circuit {
            at: rows_model(self.at@),
            bt: rows_model(self.bt@),
            ct: rows_model(self.ct@),
            input: self.input_assignment@,
            aux: self.aux_assignment@,
            scopes: scopes_view(self.namespaces@),
        }
    }

    /// The invariant of the synthesizer: its state is well formed, and so
    /// are the stores of term lists behind its matrices.
    pub open(crate) spec fn wf(&self) -> bool {
        &&& self.at@.wf()
        &&& self.bt@.wf()
        &&& self.ct@.wf()
        &&& self@.wf()
    }

    /// A synthesizer without variables, constraints or open namespaces.
    pub fn new() -> (synth: Self)
        ensures
            synth.wf(),
            synth@ == Circuit::<F>::empty(),
    {
        let synth = CircuitSynthesizer {
            at: OptionalVec::with_capacity(0),
            bt: OptionalVec::with_capacity(0),
            ct: OptionalVec::with_capacity(0),
            input_assignment: OptionalVec::with_capacity(0),
            aux_assignment: OptionalVec::with_capacity(0),
            namespaces: Vec::new(),
        };
        proof {
            assert(synth@.at.cells =~= Slots::<Row<F>>::empty().cells);
            assert(synth@.bt.cells =~= Slots::<Row<F>>::empty().cells);
            assert(synth@.ct.cells =~= Slots::<Row<F>>::empty().cells);
            assert(synth@.scopes =~= Seq::<Scope>::empty());
        }
        synth
    }

    /// Allocates an auxiliary (private) variable. With `Ok(value)` the value
    /// is stored in the auxiliary assignment, the innermost namespace records
    /// the index, and the variable that refers to it is returned. With
    /// `Err(e)` nothing changes and `e` is handed back.
    pub fn allocate_auxiliary<E>(&mut self, value: Result<F, E>) -> (var: Result<Variable, E>)
        requires
            old(self).wf(),
        ensures
            final(self).wf(),
            match value {
                Ok(v) => {
                    &&& var == Ok::<Variable, E>(
                        Variable(Index::Aux(old(self)@.aux.next_idx() as usize)),
                    )
                    &&& final(self)@ == old(self)@.allocate_auxiliary(v)
                },
                Err(e) => var == Err::<Variable, E>(e) && *final(self) == *old(self),
            },
    {
        match value {
            Ok(v) => {
                proof {
                    lemma_allocate_auxiliary_wf(self@, v);
                }
                let index = self.aux_assignment.insert(v);
                record_allocation(&mut self.namespaces, Kind::Aux, index);
                Ok(Variable::new_unchecked(Index::Aux(index)))
            },
            Err(e) => Err(e),
        }
    }

    /// Allocates an input (public) variable. With `Ok(value)` the value is
    /// stored in the input assignment, the innermost namespace records the
    /// index, and the variable that refers to it is returned. With `Err(e)`
    /// nothing changes and `e` is handed back.
    pub fn allocate_input<E>(&mut self, value: Result<F, E>) -> (var: Result<Variable, E>)
        requires
            old(self).wf(),
        ensures
            final(self).wf(),
            match value {
                Ok(v) => {
                    &&& var == Ok::<Variable, E>(
                        Variable(Index::Input(old(self)@.input.next_idx() as usize)),
                    )
                    &&& final(self)@ == old(self)@.allocate_input(v)
                },
                Err(e) => var == Err::<Variable, E>(e) && *final(self) == *old(self),
            },
    {
        match value {
            Ok(v) => {
                proof {
                    lemma_allocate_input_wf(self@, v);
                }
                let index = self.input_assignment.insert(v);
                record_allocation(&mut self.namespaces, Kind::Input, index);
                Ok(Variable::new_unchecked(Index::Input(index)))
            },
            Err(e) => Err(e),
        }
    }

    /// Records the constraint `a * b = c`: one row in each matrix, all three
    /// under the same new index, which the innermost namespace records.
    /// Nothing checks that the constraint can be satisfied.
    pub fn enforce(
        &mut self,
        a: LinearCombination<F>,
        b: LinearCombination<F>,
        c: LinearCombination<F>,
    ) where F: Copy
        requires
            old(self).wf(),
        ensures
            final(self).wf(),
            final(self)@ == old(self)@.enforce(a@, b@, c@),
            final(self)@.num_constraints() == old(self)@.num_constraints() + 1,
    {
        proof {
            lemma_enforce_wf(self@, a@, b@, c@);
        }
        let ghost a_terms = a@;
        let ghost b_terms = b@;
        let ghost c_terms = c@;
        let index = self.at.insert(Vec::new());
        let index_b = self.bt.insert(Vec::new());
        let index_c = self.ct.insert(Vec::new());
        let ghost fresh_a = self.at@.lookup(index as int).unwrap();
        let ghost fresh_b = self.bt@.lookup(index as int).unwrap();
        let ghost fresh_c = self.ct@.lookup(index as int).unwrap();
        assert(index == index_b && index == index_c);

        push_constraints(a, &mut self.at, index);
        push_constraints(b, &mut self.bt, index);
        push_constraints(c, &mut self.ct, index);

        record_allocation(&mut self.namespaces, Kind::Constraint, index);
        proof {
            let new = old(self)@.enforce(a_terms, b_terms, c_terms);
            assert(Seq::<(F, Index)>::empty() + project(a_terms) =~= project(a_terms));
            assert(Seq::<(F, Index)>::empty() + project(b_terms) =~= project(b_terms));
            assert(Seq::<(F, Index)>::empty() + project(c_terms) =~= project(c_terms));
            lemma_rows_filled(old(self).at@, fresh_a, self.at@, project(a_terms));
            lemma_rows_filled(old(self).bt@, fresh_b, self.bt@, project(b_terms));
            lemma_rows_filled(old(self).ct@, fresh_c, self.ct@, project(c_terms));
            assert(self@.at.free =~= new.at.free);
            assert(self@.bt.free =~= new.bt.free);
            assert(self@.ct.free =~= new.ct.free);
        }
    }

    /// Opens a new, empty namespace, which becomes the innermost.
    pub fn push_namespace(&mut self)
        requires
            old(self).wf(),
        ensures
            final(self).wf(),
            final(self)@ == old(self)@.push_namespace(),
    {
        proof {
            lemma_push_namespace_wf(self@);
        }
        self.namespaces.push(Namespace::default());
        proof {
            assert(self@.scopes =~= old(self)@.scopes.push(Scope::empty()));
        }
    }

    /// Closes the innermost namespace and frees every constraint and
    /// variable that it recorded; with no namespace open nothing changes.
    pub fn pop_namespace(&mut self)
        requires
            old(self).wf(),
        ensures
            final(self).wf(),
            final(self)@ == old(self)@.pop_namespace(),
    {
        proof {
            lemma_pop_namespace_wf(self@);
        }
        match self.namespaces.pop() {
            Some(ns) => {
                proof {
                    assert(ns@ == old(self)@.scopes.last());
                    assert(self@.scopes =~= old(self)@.scopes.drop_last());
                    lemma_tracks_rows(self.at@, ns@.constraints);
                    lemma_tracks_rows(self.bt@, ns@.constraints);
                    lemma_tracks_rows(self.ct@, ns@.constraints);
                    lemma_rows_remove_all(self.at@, ns@.constraints);
                    lemma_rows_remove_all(self.bt@, ns@.constraints);
                    lemma_rows_remove_all(self.ct@, ns@.constraints);
                }
                release(&mut self.at, &ns.constraint_indices);
                release(&mut self.bt, &ns.constraint_indices);
                release(&mut self.ct, &ns.constraint_indices);
                release(&mut self.aux_assignment, &ns.aux_indices);
                release(&mut self.input_assignment, &ns.input_indices);
            },
            None => {
                proof {
                    assert(self@.scopes =~= old(self)@.scopes);
                }
            },
        }
    }

    /// The synthesizer itself: it is the root of its own namespaces.
    pub fn get_root(&mut self) -> (root: &mut Self)
        ensures
            *root == *old(self),
            *final(self) == *final(root),
    {
        self
    }

    /// The number of constraints.
    pub fn num_constraints(&self) -> (n: usize)
        requires
            self.wf(),
        ensures
            n == self@.num_constraints(),
    {
        proof {
            lemma_rows_count(self.at@.cells);
        }
        self.at.len()
    }

    /// The number of input values.
    pub fn num_inputs(&self) -> (n: usize)
        requires
            self.wf(),
        ensures
            n == self@.input.len(),
    {
        self.input_assignment.len()
    }

    /// The number of auxiliary values.
    pub fn num_aux(&self) -> (n: usize)
        requires
            self.wf(),
        ensures
            n == self@.aux.len(),
    {
        self.aux_assignment.len()
    }
}

/// A store of term lists that differs from another only in the cell of the
/// next insertion, where it holds the terms `row`, has the rows of the other
/// after the insertion of `row`.
pub proof fn lemma_rows_filled<F>(
    before: Slots<Vec<(F, Index)>>,
    fresh: Vec<(F, Index)>,
    after: Slots<Vec<(F, Index)>>,
    row: Row<F>,
)
    requires
        before.wf(),
        after.occupied(before.next_idx()),
        after.lookup(before.next_idx()).unwrap()@ == row,
        after.cells.len() == before.insert(fresh).cells.len(),
        after.free == before.insert(fresh).free,
        forall|j: int| j != before.next_idx() ==> after.lookup(j) == before.lookup(j),
    ensures
        rows_model(after).cells == rows_model(before).insert(row).cells,
        rows_model(after).free == rows_model(before).insert(row).free,
{
    let want = rows_model(before).insert(row).cells;
    let have = rows_model(after).cells;
    assert(have.len() == want.len());
    assert forall|j: int| 0 <= j < have.len() implies have[j] == want[j] by {
        if j != before.next_idx() {
            assert(after.lookup(j) == before.lookup(j));
        } else {
            assert(after.lookup(j).unwrap()@ == row);
        }
    }
    assert(have =~= want);
}

/// Cells that the rows of a store track are tracked by the store itself.
pub proof fn lemma_tracks_rows<F>(store: Slots<Vec<(F, Index)>>, indices: Seq<int>)
    requires
        tracks(indices, rows_model(store)),
    ensures
        tracks(indices, store),
{
    assert forall|k: int| 0 <= k < indices.len() implies store.occupied(#[trigger] indices[k]) by {
        assert(rows_model(store).occupied(indices[k]));
    }
}

} // verus!
