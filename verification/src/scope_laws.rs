//! Laws of scoped allocation: what closing a scope undoes, and what it
//! leaves alone.

use crate::circuit::{
    extends, lemma_enforce_wf, lemma_pop_namespace_wf, lemma_push_namespace_wf,
    lemma_recorded_record, lemma_step_wf, project, rows_live, same_content, slot_live, Circuit,
    Index, Kind, Scope, Step, Variable,
};
use crate::slot_store::{lemma_insert, lemma_remove_all, listed, tracks, Slots};
use vstd::prelude::*;

verus! {

/// Filling the next free cell of a store extends it by that cell.
pub proof fn lemma_extends_insert<T>(base: Slots<T>, cur: Slots<T>, added: Seq<int>, value: T)
    requires
        cur.wf(),
        tracks(added, cur),
        extends(base, cur, added),
    ensures
        extends(base, cur.insert(value), added.push(cur.next_idx())),
{
    lemma_insert(cur, value);
    let idx = cur.next_idx();
    let more = added.push(idx);
    let next = cur.insert(value);
    assert(!listed(added, idx)) by {
        if listed(added, idx) {
            let k = choose|k: int| 0 <= k < added.len() && added[k] == idx;
            assert(cur.occupied(added[k]));
        }
    }
    assert(cur.lookup(idx) == base.lookup(idx));
    assert forall|i: int| !listed(more, i) implies #[trigger] next.lookup(i) == base.lookup(i) by {
        assert(more[added.len() as int] == idx);
        if listed(added, i) {
            let k = choose|k: int| 0 <= k < added.len() && added[k] == i;
            assert(more[k] == i);
        }
        assert(cur.lookup(i) == base.lookup(i));
    }
    assert forall|k: int| 0 <= k < more.len() implies !base.occupied(#[trigger] more[k]) by {
        if k < added.len() {
            assert(!base.occupied(added[k]));
        }
    }
}

/// Freeing the cells by which a store was extended gives back the content
/// and the length of the store it was extended from.
pub proof fn lemma_extends_undo<T>(base: Slots<T>, cur: Slots<T>, added: Seq<int>)
    requires
        cur.wf(),
        tracks(added, cur),
        extends(base, cur, added),
    ensures
        same_content(cur.remove_all(added), base),
        cur.remove_all(added).len() == base.len(),
{
    lemma_remove_all(cur, added);
    let t = cur.remove_all(added);
    assert forall|i: int| t.lookup(i) == base.lookup(i) by {
        if listed(added, i) {
            let k = choose|k: int| 0 <= k < added.len() && added[k] == i;
            assert(!base.occupied(added[k]));
            assert(t.lookup(i) == None::<T>);
        } else {
            assert(cur.lookup(i) == base.lookup(i));
        }
    }
}

/// A store that extends another still does after being replaced by one of
/// the same content and length.
pub proof fn lemma_extends_same<T>(base: Slots<T>, cur: Slots<T>, other: Slots<T>, added: Seq<int>)
    requires
        extends(base, cur, added),
        same_content(other, cur),
        other.len() == cur.len(),
    ensures
        extends(base, other, added),
{
    assert forall|i: int| !listed(added, i) implies #[trigger] other.lookup(i) == base.lookup(i) by {
        assert(cur.lookup(i) == base.lookup(i));
    }
}

/// A freshly opened scope has filled no cell.
pub proof fn lemma_scope_begin<F>(s: Circuit<F>)
    requires
        s.wf(),
    ensures
        s.push_namespace().opened_from(s),
{
    lemma_push_namespace_wf(s);
    assert(s.scopes.push(Scope::empty()).drop_last() =~= s.scopes);
}

/// One allocation inside an open scope fills a cell that this scope
/// records, and nothing else changes.
pub proof fn lemma_scope_step<F>(s: Circuit<F>, u: Circuit<F>, op: Step<F>)
    requires
        u.opened_from(s),
    ensures
        u.step(op).opened_from(s),
{
    lemma_step_wf(u, op);
    lemma_pop_namespace_wf(u);
    let top = u.scopes.last();
    match op {
        Step::AllocAux(value) => {
            lemma_recorded_record(u.scopes, Kind::Aux, u.aux.next_idx(), Kind::Aux);
            lemma_extends_insert(s.aux, u.aux, top.auxes, value);
        },
        Step::AllocInput(value) => {
            lemma_recorded_record(u.scopes, Kind::Input, u.input.next_idx(), Kind::Input);
            lemma_extends_insert(s.input, u.input, top.inputs, value);
        },
        Step::Enforce(a, b, c) => {
            lemma_recorded_record(u.scopes, Kind::Constraint, u.at.next_idx(), Kind::Constraint);
            lemma_enforce_wf(u, a, b, c);
            lemma_extends_insert(s.at, u.at, top.constraints, project(a));
            lemma_extends_insert(s.bt, u.bt, top.constraints, project(b));
            lemma_extends_insert(s.ct, u.ct, top.constraints, project(c));
        },
    }
}

/// Any number of allocations inside an open scope fill only cells that this
/// scope records.
pub proof fn lemma_scope_run<F>(s: Circuit<F>, u: Circuit<F>, ops: Seq<Step<F>>)
    requires
        u.opened_from(s),
    ensures
        u.run(ops).opened_from(s),
    decreases ops.len(),
{
    if ops.len() > 0 {
        lemma_scope_run(s, u, ops.drop_last());
        lemma_scope_step(s, u.run(ops.drop_last()), ops.last());
    }
}

/// Closing a scope frees exactly what was allocated in it.
pub proof fn lemma_scope_end<F>(s: Circuit<F>, u: Circuit<F>)
    requires
        u.opened_from(s),
    ensures
        u.pop_namespace().wf(),
        u.pop_namespace().same_allocations(s),
{
    lemma_pop_namespace_wf(u);
    let top = u.scopes.last();
    lemma_extends_undo(s.at, u.at, top.constraints);
    lemma_extends_undo(s.bt, u.bt, top.constraints);
    lemma_extends_undo(s.ct, u.ct, top.constraints);
    lemma_extends_undo(s.input, u.input, top.inputs);
    lemma_extends_undo(s.aux, u.aux, top.auxes);
}

/// Opening a scope, allocating any auxiliary variables, input variables and
/// constraints in any order, and closing the scope leaves the number of
/// constraints, of input values and of auxiliary values as they were before
/// the scope was opened; every index holds what it held before, and the
/// scopes that were open are open again.
pub proof fn lemma_scope_restores<F>(s: Circuit<F>, ops: Seq<Step<F>>)
    requires
        s.wf(),
    ensures
        s.push_namespace().run(ops).pop_namespace().wf(),
        s.push_namespace().run(ops).pop_namespace().num_constraints() == s.num_constraints(),
        s.push_namespace().run(ops).pop_namespace().input.len() == s.input.len(),
        s.push_namespace().run(ops).pop_namespace().aux.len() == s.aux.len(),
        s.push_namespace().run(ops).pop_namespace().same_allocations(s),
{
    lemma_scope_begin(s);
    lemma_scope_run(s, s.push_namespace(), ops);
    lemma_scope_end(s, s.push_namespace().run(ops));
}

/// Nested scopes: with the allocations `a` made in an outer scope, `b` in an
/// inner scope and `c` in the outer scope again, closing the inner scope
/// frees exactly what `b` allocated, so that the state is as it was when the
/// inner scope was opened, and closing the outer scope frees exactly what `a`
/// and `c` allocated, so that the state is as it was before the outer scope
/// was opened.
pub proof fn lemma_nested_scopes<F>(
    s: Circuit<F>,
    a: Seq<Step<F>>,
    b: Seq<Step<F>>,
    c: Seq<Step<F>>,
)
    requires
        s.wf(),
    ensures
        ({
            let outer = s.push_namespace().run(a);
            let inner_closed = outer.push_namespace().run(b).pop_namespace();
            let outer_closed = inner_closed.run(c).pop_namespace();
            &&& inner_closed.wf()
            &&& inner_closed.same_allocations(outer)
            &&& outer_closed.wf()
            &&& outer_closed.same_allocations(s)
        }),
{
    let outer = s.push_namespace().run(a);
    lemma_scope_begin(s);
    lemma_scope_run(s, s.push_namespace(), a);
    lemma_scope_restores(outer, b);
    let inner_closed = outer.push_namespace().run(b).pop_namespace();
    let top = outer.scopes.last();
    lemma_extends_same(s.at, outer.at, inner_closed.at, top.constraints);
    lemma_extends_same(s.bt, outer.bt, inner_closed.bt, top.constraints);
    lemma_extends_same(s.ct, outer.ct, inner_closed.ct, top.constraints);
    lemma_extends_same(s.input, outer.input, inner_closed.input, top.inputs);
    lemma_extends_same(s.aux, outer.aux, inner_closed.aux, top.auxes);
    lemma_scope_run(s, inner_closed, c);
    lemma_scope_end(s, inner_closed.run(c));
}

/// Whether every term of a linear combination refers to an occupied
/// assignment cell.
pub open spec fn terms_live<F>(terms: Seq<(Variable, F)>, input: Slots<F>, aux: Slots<F>) -> bool {
    forall|j: int| 0 <= j < terms.len() ==> slot_live((#[trigger] terms[j]).0.0, input, aux)
}

/// Rows whose terms refer to occupied cells still do after a value is
/// inserted into either assignment.
pub proof fn lemma_rows_live_grow<F>(
    rows: Slots<Seq<(F, Index)>>,
    input: Slots<F>,
    aux: Slots<F>,
    more_input: Slots<F>,
    more_aux: Slots<F>,
)
    requires
        rows_live(rows, input, aux),
        forall|i: int| input.occupied(i) ==> more_input.occupied(i),
        forall|i: int| aux.occupied(i) ==> more_aux.occupied(i),
    ensures
        rows_live(rows, more_input, more_aux),
{
    assert forall|i: int, j: int|
        rows.occupied(i) && 0 <= j < rows.lookup(i).unwrap().len() implies slot_live(
        (#[trigger] rows.lookup(i).unwrap()[j]).1,
        more_input,
        more_aux,
    ) by {
        assert(slot_live(rows.lookup(i).unwrap()[j].1, input, aux));
    }
}

/// Allocating a variable leaves every stored term referring to an occupied
/// cell.
pub proof fn lemma_allocation_keeps_references<F>(s: Circuit<F>, value: F)
    requires
        s.wf(),
        s.references_live(),
    ensures
        s.allocate_auxiliary(value).references_live(),
        s.allocate_input(value).references_live(),
{
    lemma_insert(s.aux, value);
    lemma_insert(s.input, value);
    assert forall|i: int| s.aux.occupied(i) implies s.aux.insert(value).occupied(i) by {
        assert(i != s.aux.next_idx());
    }
    assert forall|i: int| s.input.occupied(i) implies s.input.insert(value).occupied(i) by {
        assert(i != s.input.next_idx());
    }
    lemma_rows_live_grow(s.at, s.input, s.aux, s.input, s.aux.insert(value));
    lemma_rows_live_grow(s.bt, s.input, s.aux, s.input, s.aux.insert(value));
    lemma_rows_live_grow(s.ct, s.input, s.aux, s.input, s.aux.insert(value));
    lemma_rows_live_grow(s.at, s.input, s.aux, s.input.insert(value), s.aux);
    lemma_rows_live_grow(s.bt, s.input, s.aux, s.input.insert(value), s.aux);
    lemma_rows_live_grow(s.ct, s.input, s.aux, s.input.insert(value), s.aux);
}

/// A matrix whose terms refer to occupied cells still does after a row of
/// such terms is inserted.
pub proof fn lemma_rows_live_insert<F>(
    rows: Slots<Seq<(F, Index)>>,
    terms: Seq<(Variable, F)>,
    input: Slots<F>,
    aux: Slots<F>,
)
    requires
        rows.wf(),
        rows_live(rows, input, aux),
        terms_live(terms, input, aux),
    ensures
        rows_live(rows.insert(project(terms)), input, aux),
{
    lemma_insert(rows, project(terms));
    let next = rows.insert(project(terms));
    assert forall|i: int, j: int|
        next.occupied(i) && 0 <= j < next.lookup(i).unwrap().len() implies slot_live(
        (#[trigger] next.lookup(i).unwrap()[j]).1,
        input,
        aux,
    ) by {
        if i == rows.next_idx() {
            assert(next.lookup(i).unwrap()[j].1 == terms[j].0.0);
        } else {
            assert(next.lookup(i) == rows.lookup(i));
            assert(slot_live(rows.lookup(i).unwrap()[j].1, input, aux));
        }
    }
}

/// Recording a constraint whose terms refer to occupied cells leaves every
/// stored term referring to an occupied cell.
pub proof fn lemma_enforce_keeps_references<F>(
    s: Circuit<F>,
    a: Seq<(Variable, F)>,
    b: Seq<(Variable, F)>,
    c: Seq<(Variable, F)>,
)
    requires
        s.wf(),
        s.references_live(),
        terms_live(a, s.input, s.aux),
        terms_live(b, s.input, s.aux),
        terms_live(c, s.input, s.aux),
    ensures
        s.enforce(a, b, c).references_live(),
{
    lemma_rows_live_insert(s.at, a, s.input, s.aux);
    lemma_rows_live_insert(s.bt, b, s.input, s.aux);
    lemma_rows_live_insert(s.ct, c, s.input, s.aux);
}

/// A matrix whose terms refer to occupied cells still does when it and the
/// assignments are replaced by stores of the same content.
pub proof fn lemma_rows_live_same<F>(
    rows: Slots<Seq<(F, Index)>>,
    input: Slots<F>,
    aux: Slots<F>,
    same_rows: Slots<Seq<(F, Index)>>,
    same_input: Slots<F>,
    same_aux: Slots<F>,
)
    requires
        rows_live(rows, input, aux),
        same_content(same_rows, rows),
        same_content(same_input, input),
        same_content(same_aux, aux),
    ensures
        rows_live(same_rows, same_input, same_aux),
{
    assert forall|i: int, j: int|
        same_rows.occupied(i) && 0 <= j < same_rows.lookup(i).unwrap().len() implies slot_live(
        (#[trigger] same_rows.lookup(i).unwrap()[j]).1,
        same_input,
        same_aux,
    ) by {
        assert(same_rows.lookup(i) == rows.lookup(i));
        let idx = rows.lookup(i).unwrap()[j].1;
        assert(slot_live(idx, input, aux));
        match idx {
            Index::Input(n) => {
                assert(same_input.lookup(n as int) == input.lookup(n as int));
            },
            Index::Aux(n) => {
                assert(same_aux.lookup(n as int) == aux.lookup(n as int));
            },
        }
    }
}

/// States with the same allocations have the same terms referring to the
/// same cells.
pub proof fn lemma_references_same<F>(t: Circuit<F>, s: Circuit<F>)
    requires
        t.same_allocations(s),
        s.references_live(),
    ensures
        t.references_live(),
{
    lemma_rows_live_same(s.at, s.input, s.aux, t.at, t.input, t.aux);
    lemma_rows_live_same(s.bt, s.input, s.aux, t.bt, t.input, t.aux);
    lemma_rows_live_same(s.ct, s.input, s.aux, t.ct, t.input, t.aux);
}

/// Closing a scope leaves no dangling reference behind: where every stored
/// term referred to an occupied cell before a scope was opened, every stored
/// term does so again once the scope is closed, whatever was allocated in
/// it. The rows that referred to the variables of the scope are freed
/// together with those variables.
pub proof fn lemma_scope_keeps_references<F>(s: Circuit<F>, ops: Seq<Step<F>>)
    requires
        s.wf(),
        s.references_live(),
    ensures
        s.push_namespace().run(ops).pop_namespace().references_live(),
{
    lemma_scope_restores(s, ops);
    lemma_references_same(s.push_namespace().run(ops).pop_namespace(), s);
}

} // verus!
