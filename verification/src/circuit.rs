//! The mathematical model of a constraint synthesizer: what its operations
//! do to the constraint matrices, the assignments and the stack of scopes,
//! and the laws of scoped allocation.

use crate::slot_store::{lemma_insert, lemma_remove_all, listed, tracks, Slots};
use vstd::prelude::*;

verus! {

/// The slot a variable refers to: a public input or a private auxiliary
/// (witness) value, with its index in the matching assignment store.
#[derive(Clone, Copy, Debug, PartialEq, Eq, Structural)]
pub enum Index {
    Input(usize),
    Aux(usize),
}

/// A variable of the constraint system. Its identity is its kind and index.
#[derive(Clone, Copy, Debug, PartialEq, Eq, Structural)]
pub struct Variable(pub Index);

impl Variable {
    /// The variable that refers to `idx`; nothing checks that the slot exists.
    pub fn new_unchecked(idx: Index) -> (var: Variable)
        ensures
            var == Variable(idx),
    {
        Variable(idx)
    }

    /// The slot that the variable refers to.
    pub fn get_unchecked(&self) -> (idx: Index)
        ensures
            idx == self.0,
    {
        self.0
    }
}

/// A weighted sum of variables: a list of terms `(variable, coefficient)`.
pub struct LinearCombination<F>(pub Vec<(Variable, F)>);

impl<F> View for LinearCombination<F> {
    type V = Seq<(Variable, F)>;

    open spec fn view(&self) -> Seq<(Variable, F)> {
        self.0@
    }
}

impl<F> LinearCombination<F> {
    /// The combination without terms.
    pub fn zero() -> (lc: Self)
        ensures
            lc@ == Seq::<(Variable, F)>::empty(),
    {
        LinearCombination(Vec::new())
    }

    /// The combination with the term `coeff * var` added at the end.
    pub fn with_term(self, coeff: F, var: Variable) -> (lc: Self)
        ensures
            lc@ == self@.push((var, coeff)),
    {
        let mut terms = self.0;
        terms.push((var, coeff));
        LinearCombination(terms)
    }
}

/// One row of a constraint matrix: the terms of a linear combination, each
/// as coefficient and slot.
pub type Row<F> = Seq<(F, Index)>;

/// The matrix row that a linear combination is stored as.
pub open spec fn project<F>(terms: Seq<(Variable, F)>) -> Row<F> {
    terms.map_values(|t: (Variable, F)| (t.1, t.0.0))
}

/// The three things a scope keeps track of.
pub enum Kind {
    Constraint,
    Input,
    Aux,
}

/// What was allocated while a scope was the innermost one: the indices of
/// its constraints, input variables and auxiliary variables, in the order of
/// allocation.
pub struct Scope {
    pub constraints: Seq<int>,
    pub inputs: Seq<int>,
    pub auxes: Seq<int>,
}

impl Scope {
    /// The scope in which nothing was allocated yet.
    pub open spec fn empty() -> Scope {
        Scope { constraints: Seq::empty(), inputs: Seq::empty(), auxes: Seq::empty() }
    }

    /// The indices of one kind.
    pub open spec fn list(self, kind: Kind) -> Seq<int> {
        match kind {
            Kind::Constraint => self.constraints,
            Kind::Input => self.inputs,
            Kind::Aux => self.auxes,
        }
    }

    /// The scope after one more allocation of `kind` at `idx`.
    pub open spec fn record(self, kind: Kind, idx: int) -> Scope {
        match kind {
            Kind::Constraint => Scope { constraints: self.constraints.push(idx), ..self },
            Kind::Input => Scope { inputs: self.inputs.push(idx), ..self },
            Kind::Aux => Scope { auxes: self.auxes.push(idx), ..self },
        }
    }
}

/// The scope stack after an allocation of `kind` at `idx`: the innermost
/// scope records it; with no scope open the allocation is permanent and
/// nothing is recorded.
pub open spec fn record(scopes: Seq<Scope>, kind: Kind, idx: int) -> Seq<Scope> {
    if scopes.len() == 0 {
        scopes
    } else {
        scopes.update(scopes.len() - 1, scopes.last().record(kind, idx))
    }
}

/// All indices of one kind that the open scopes hold, outermost scope first.
pub open spec fn recorded(scopes: Seq<Scope>, kind: Kind) -> Seq<int>
    decreases scopes.len(),
{
    if scopes.len() == 0 {
        Seq::empty()
    } else {
        recorded(scopes.drop_last(), kind) + scopes.last().list(kind)
    }
}

/// Whether two stores have the same holes, freed in the same order.
pub open spec fn same_shape<S, T>(a: Slots<S>, b: Slots<T>) -> bool {
    &&& a.free == b.free
    &&& a.cells.len() == b.cells.len()
    &&& forall|i: int| a.occupied(i) <==> b.occupied(i)
}

/// Whether two stores hold the same value under every index.
pub open spec fn same_content<T>(a: Slots<T>, b: Slots<T>) -> bool {
    forall|i: int| a.lookup(i) == b.lookup(i)
}

/// One allocation made between the opening and the closing of a scope.
pub enum Step<F> {
    AllocAux(F),
    AllocInput(F),
    Enforce(Seq<(Variable, F)>, Seq<(Variable, F)>, Seq<(Variable, F)>),
}

/// The state of a constraint synthesizer.
pub struct Circuit<F> {
    pub at: Slots<Row<F>>,
    pub bt: Slots<Row<F>>,
    pub ct: Slots<Row<F>>,
    pub input: Slots<F>,
    pub aux: Slots<F>,
    pub scopes: Seq<Scope>,
}

impl<F> Circuit<F> {
    /// The synthesizer that holds nothing.
    pub open spec fn empty() -> Circuit<F> {
        Circuit {
            at: Slots::empty(),
            bt: Slots::empty(),
            ct: Slots::empty(),
            input: Slots::empty(),
            aux: Slots::empty(),
            scopes: Seq::empty(),
        }
    }

    /// The five stores are well formed, the three matrices have their rows
    /// and holes at the same indices, and the open scopes hold distinct
    /// indices of occupied cells.
    pub open spec fn wf(self) -> bool {
        &&& self.at.wf()
        &&& self.bt.wf()
        &&& self.ct.wf()
        &&& self.input.wf()
        &&& self.aux.wf()
        &&& same_shape(self.at, self.bt)
        &&& same_shape(self.at, self.ct)
        &&& tracks(recorded(self.scopes, Kind::Constraint), self.at)
        &&& tracks(recorded(self.scopes, Kind::Input), self.input)
        &&& tracks(recorded(self.scopes, Kind::Aux), self.aux)
    }

    /// The number of constraints.
    pub open spec fn num_constraints(self) -> nat {
        self.at.len()
    }

    /// Whether every term of every stored row refers to an occupied
    /// assignment cell.
    pub open spec fn references_live(self) -> bool {
        &&& rows_live(self.at, self.input, self.aux)
        &&& rows_live(self.bt, self.input, self.aux)
        &&& rows_live(self.ct, self.input, self.aux)
    }

    /// A new innermost scope is opened.
    pub open spec fn push_namespace(self) -> Circuit<F> {
        Circuit { scopes: self.scopes.push(Scope::empty()), ..self }
    }

    /// An auxiliary variable with the given value is allocated.
    pub open spec fn allocate_auxiliary(self, value: F) -> Circuit<F> {
        Circuit {
            aux: self.aux.insert(value),
            scopes: record(self.scopes, Kind::Aux, self.aux.next_idx()),
            ..self
        }
    }

    /// An input variable with the given value is allocated.
    pub open spec fn allocate_input(self, value: F) -> Circuit<F> {
        Circuit {
            input: self.input.insert(value),
            scopes: record(self.scopes, Kind::Input, self.input.next_idx()),
            ..self
        }
    }

    /// The constraint `a * b = c` is recorded under one new index.
    pub open spec fn enforce(
        self,
        a: Seq<(Variable, F)>,
        b: Seq<(Variable, F)>,
        c: Seq<(Variable, F)>,
    ) -> Circuit<F> {
        Circuit {
            at: self.at.insert(project(a)),
            bt: self.bt.insert(project(b)),
            ct: self.ct.insert(project(c)),
            scopes: record(self.scopes, Kind::Constraint, self.at.next_idx()),
            ..self
        }
    }

    /// The innermost scope is closed and everything it recorded is freed;
    /// with no scope open nothing changes.
    pub open spec fn pop_namespace(self) -> Circuit<F> {
        if self.scopes.len() == 0 {
            self
        } else {
            let top = self.scopes.last();
            Circuit {
                at: self.at.remove_all(top.constraints),
                bt: self.bt.remove_all(top.constraints),
                ct: self.ct.remove_all(top.constraints),
                input: self.input.remove_all(top.inputs),
                aux: self.aux.remove_all(top.auxes),
                scopes: self.scopes.drop_last(),
            }
        }
    }

    /// The state after one allocation.
    pub open spec fn step(self, op: Step<F>) -> Circuit<F> {
        match op {
            Step::AllocAux(value) => self.allocate_auxiliary(value),
            Step::AllocInput(value) => self.allocate_input(value),
            Step::Enforce(a, b, c) => self.enforce(a, b, c),
        }
    }

    /// The state after the allocations `ops`, first to last.
    pub open spec fn run(self, ops: Seq<Step<F>>) -> Circuit<F>
        decreases ops.len(),
    {
        if ops.len() == 0 {
            self
        } else {
            self.run(ops.drop_last()).step(ops.last())
        }
    }
}

/// Whether the slot that a term refers to is occupied.
pub open spec fn slot_live<F>(idx: Index, input: Slots<F>, aux: Slots<F>) -> bool {
    match idx {
        Index::Input(i) => input.occupied(i as int),
        Index::Aux(i) => aux.occupied(i as int),
    }
}

/// Whether every term of every row of a matrix refers to an occupied slot.
pub open spec fn rows_live<F>(rows: Slots<Row<F>>, input: Slots<F>, aux: Slots<F>) -> bool {
    forall|i: int, j: int|
        rows.occupied(i) && 0 <= j < rows.lookup(i).unwrap().len() ==> slot_live(
            (#[trigger] rows.lookup(i).unwrap()[j]).1,
            input,
            aux,
        )
}

impl<F> Circuit<F> {
    /// Whether two states hold the same rows and values under the same
    /// indices, in the same number, with the same scopes open.
    pub open spec fn same_allocations(self, other: Circuit<F>) -> bool {
        &&& self.scopes == other.scopes
        &&& same_content(self.at, other.at)
        &&& same_content(self.bt, other.bt)
        &&& same_content(self.ct, other.ct)
        &&& same_content(self.input, other.input)
        &&& same_content(self.aux, other.aux)
        &&& self.num_constraints() == other.num_constraints()
        &&& self.bt.len() == other.bt.len()
        &&& self.ct.len() == other.ct.len()
        &&& self.input.len() == other.input.len()
        &&& self.aux.len() == other.aux.len()
    }

    /// Whether `self` is `base` with one more scope open, in which exactly
    /// the cells that this scope recorded were filled.
    pub open spec fn opened_from(self, base: Circuit<F>) -> bool {
        &&& self.wf()
        &&& self.scopes.len() > 0
        &&& self.scopes.drop_last() == base.scopes
        &&& extends(base.at, self.at, self.scopes.last().constraints)
        &&& extends(base.bt, self.bt, self.scopes.last().constraints)
        &&& extends(base.ct, self.ct, self.scopes.last().constraints)
        &&& extends(base.input, self.input, self.scopes.last().inputs)
        &&& extends(base.aux, self.aux, self.scopes.last().auxes)
    }
}

/// Whether `cur` is `base` with the free cells `added` filled and nothing
/// else changed.
pub open spec fn extends<T>(base: Slots<T>, cur: Slots<T>, added: Seq<int>) -> bool {
    &&& forall|i: int| !listed(added, i) ==> #[trigger] cur.lookup(i) == base.lookup(i)
    &&& forall|k: int| 0 <= k < added.len() ==> !base.occupied(#[trigger] added[k])
    &&& cur.len() == base.len() + added.len()
}

/// Opening an empty scope adds nothing to what the scopes hold.
pub proof fn lemma_recorded_push(scopes: Seq<Scope>, kind: Kind)
    ensures
        recorded(scopes.push(Scope::empty()), kind) == recorded(scopes, kind),
{
    assert(scopes.push(Scope::empty()).drop_last() =~= scopes);
    assert(recorded(scopes, kind) + Seq::<int>::empty() =~= recorded(scopes, kind));
}

/// An allocation recorded by the innermost scope is added at the end of
/// what the scopes hold of its kind, and to no other kind.
pub proof fn lemma_recorded_record(scopes: Seq<Scope>, which: Kind, idx: int, kind: Kind)
    requires
        scopes.len() > 0,
    ensures
        record(scopes, which, idx).drop_last() == scopes.drop_last(),
        recorded(record(scopes, which, idx), kind) == if kind == which {
            recorded(scopes, kind).push(idx)
        } else {
            recorded(scopes, kind)
        },
{
    let r = record(scopes, which, idx);
    assert(r.drop_last() =~= scopes.drop_last());
    let rest = recorded(scopes.drop_last(), kind);
    let top = scopes.last().list(kind);
    if kind == which {
        assert(r.last().list(kind) == top.push(idx));
        assert(rest + top.push(idx) =~= (rest + top).push(idx));
    } else {
        assert(r.last().list(kind) == top);
    }
}

/// Indices that a store tracks stay tracked after an insertion, and so does
/// the index that the insertion filled.
pub proof fn lemma_tracks_insert<T>(indices: Seq<int>, s: Slots<T>, value: T)
    requires
        s.wf(),
        tracks(indices, s),
    ensures
        tracks(indices, s.insert(value)),
        tracks(indices.push(s.next_idx()), s.insert(value)),
{
    lemma_insert(s, value);
    let t = s.insert(value);
    assert forall|k: int| 0 <= k < indices.len() implies t.occupied(#[trigger] indices[k]) by {
        assert(s.occupied(indices[k]));
    }
    let more = indices.push(s.next_idx());
    assert forall|k: int| 0 <= k < more.len() implies t.occupied(#[trigger] more[k]) by {
        if k < indices.len() {
            assert(t.occupied(indices[k]));
        }
    }
    assert forall|a: int, b: int| 0 <= a < more.len() && 0 <= b < more.len() && a != b implies more[a]
        != more[b] by {
        if a < indices.len() {
            assert(s.occupied(indices[a]));
        }
        if b < indices.len() {
            assert(s.occupied(indices[b]));
        }
    }
}

/// Of indices that a store tracks, the last ones can be freed together; the
/// store stays well formed and still tracks the first ones.
pub proof fn lemma_tracks_split<T>(rest: Seq<int>, top: Seq<int>, s: Slots<T>)
    requires
        s.wf(),
        tracks(rest + top, s),
    ensures
        tracks(rest, s),
        tracks(top, s),
        s.remove_all(top).wf(),
        tracks(rest, s.remove_all(top)),
{
    let all = rest + top;
    assert forall|k: int| 0 <= k < top.len() implies s.occupied(#[trigger] top[k]) by {
        assert(all[rest.len() + k] == top[k]);
    }
    assert forall|a: int, b: int| 0 <= a < top.len() && 0 <= b < top.len() && a != b implies top[a]
        != top[b] by {
        assert(all[rest.len() + a] == top[a]);
        assert(all[rest.len() + b] == top[b]);
    }
    assert forall|a: int, b: int| 0 <= a < rest.len() && 0 <= b < rest.len() && a != b implies rest[a]
        != rest[b] by {
        assert(all[a] == rest[a]);
        assert(all[b] == rest[b]);
    }
    lemma_remove_all(s, top);
    let t = s.remove_all(top);
    assert forall|k: int| 0 <= k < rest.len() implies s.occupied(#[trigger] rest[k]) && t.occupied(
        rest[k],
    ) by {
        assert(all[k] == rest[k]);
        if listed(top, rest[k]) {
            let j = choose|j: int| 0 <= j < top.len() && top[j] == rest[k];
            assert(all[rest.len() + j] == top[j]);
        }
        assert(t.lookup(rest[k]) == s.lookup(rest[k]));
    }
}

/// Stores of the same shape stay of the same shape after an insertion into
/// each, which fills the same index in both.
pub proof fn lemma_shape_insert<S, T>(a: Slots<S>, b: Slots<T>, x: S, y: T)
    requires
        a.wf(),
        b.wf(),
        same_shape(a, b),
    ensures
        a.next_idx() == b.next_idx(),
        same_shape(a.insert(x), b.insert(y)),
{
    lemma_insert(a, x);
    lemma_insert(b, y);
    assert forall|i: int| a.insert(x).occupied(i) <==> b.insert(y).occupied(i) by {
        if i != a.next_idx() {
            assert(a.insert(x).lookup(i) == a.lookup(i));
            assert(b.insert(y).lookup(i) == b.lookup(i));
            assert(a.occupied(i) <==> b.occupied(i));
        }
    }
}

/// Stores of the same shape stay of the same shape after the same cells are
/// freed in both.
pub proof fn lemma_shape_remove_all<S, T>(a: Slots<S>, b: Slots<T>, indices: Seq<int>)
    requires
        a.wf(),
        b.wf(),
        same_shape(a, b),
        tracks(indices, a),
    ensures
        tracks(indices, b),
        same_shape(a.remove_all(indices), b.remove_all(indices)),
{
    assert forall|k: int| 0 <= k < indices.len() implies b.occupied(#[trigger] indices[k]) by {
        assert(a.occupied(indices[k]));
    }
    lemma_remove_all(a, indices);
    lemma_remove_all(b, indices);
    assert forall|i: int| a.remove_all(indices).occupied(i) <==> b.remove_all(indices).occupied(
        i,
    ) by {
        assert(a.occupied(i) <==> b.occupied(i));
        assert(a.remove_all(indices).lookup(i) == if listed(indices, i) {
            None
        } else {
            a.lookup(i)
        });
        assert(b.remove_all(indices).lookup(i) == if listed(indices, i) {
            None
        } else {
            b.lookup(i)
        });
    }
}

/// Opening a scope keeps the state well formed.
pub proof fn lemma_push_namespace_wf<F>(s: Circuit<F>)
    requires
        s.wf(),
    ensures
        s.push_namespace().wf(),
{
    lemma_recorded_push(s.scopes, Kind::Constraint);
    lemma_recorded_push(s.scopes, Kind::Input);
    lemma_recorded_push(s.scopes, Kind::Aux);
}

/// Allocating an auxiliary variable keeps the state well formed.
pub proof fn lemma_allocate_auxiliary_wf<F>(s: Circuit<F>, value: F)
    requires
        s.wf(),
    ensures
        s.allocate_auxiliary(value).wf(),
{
    lemma_insert(s.aux, value);
    lemma_tracks_insert(recorded(s.scopes, Kind::Aux), s.aux, value);
    if s.scopes.len() > 0 {
        lemma_recorded_record(s.scopes, Kind::Aux, s.aux.next_idx(), Kind::Constraint);
        lemma_recorded_record(s.scopes, Kind::Aux, s.aux.next_idx(), Kind::Input);
        lemma_recorded_record(s.scopes, Kind::Aux, s.aux.next_idx(), Kind::Aux);
    }
}

/// Allocating an input variable keeps the state well formed.
pub proof fn lemma_allocate_input_wf<F>(s: Circuit<F>, value: F)
    requires
        s.wf(),
    ensures
        s.allocate_input(value).wf(),
{
    lemma_insert(s.input, value);
    lemma_tracks_insert(recorded(s.scopes, Kind::Input), s.input, value);
    if s.scopes.len() > 0 {
        lemma_recorded_record(s.scopes, Kind::Input, s.input.next_idx(), Kind::Constraint);
        lemma_recorded_record(s.scopes, Kind::Input, s.input.next_idx(), Kind::Input);
        lemma_recorded_record(s.scopes, Kind::Input, s.input.next_idx(), Kind::Aux);
    }
}

/// Recording a constraint keeps the state well formed; its three rows stand
/// under one index.
pub proof fn lemma_enforce_wf<F>(
    s: Circuit<F>,
    a: Seq<(Variable, F)>,
    b: Seq<(Variable, F)>,
    c: Seq<(Variable, F)>,
)
    requires
        s.wf(),
    ensures
        s.enforce(a, b, c).wf(),
        s.at.next_idx() == s.bt.next_idx(),
        s.at.next_idx() == s.ct.next_idx(),
        s.enforce(a, b, c).num_constraints() == s.num_constraints() + 1,
{
    lemma_insert(s.at, project(a));
    lemma_insert(s.bt, project(b));
    lemma_insert(s.ct, project(c));
    lemma_shape_insert(s.at, s.bt, project(a), project(b));
    lemma_shape_insert(s.at, s.ct, project(a), project(c));
    lemma_tracks_insert(recorded(s.scopes, Kind::Constraint), s.at, project(a));
    if s.scopes.len() > 0 {
        lemma_recorded_record(s.scopes, Kind::Constraint, s.at.next_idx(), Kind::Constraint);
        lemma_recorded_record(s.scopes, Kind::Constraint, s.at.next_idx(), Kind::Input);
        lemma_recorded_record(s.scopes, Kind::Constraint, s.at.next_idx(), Kind::Aux);
    }
}

/// Any single allocation keeps the state well formed.
pub proof fn lemma_step_wf<F>(s: Circuit<F>, op: Step<F>)
    requires
        s.wf(),
    ensures
        s.step(op).wf(),
{
    match op {
        Step::AllocAux(value) => lemma_allocate_auxiliary_wf(s, value),
        Step::AllocInput(value) => lemma_allocate_input_wf(s, value),
        Step::Enforce(a, b, c) => lemma_enforce_wf(s, a, b, c),
    }
}

/// Closing the innermost scope keeps the state well formed, and the three
/// matrices lose the same rows.
pub proof fn lemma_pop_namespace_wf<F>(s: Circuit<F>)
    requires
        s.wf(),
    ensures
        s.pop_namespace().wf(),
        s.scopes.len() > 0 ==> {
            &&& tracks(s.scopes.last().constraints, s.at)
            &&& tracks(s.scopes.last().constraints, s.bt)
            &&& tracks(s.scopes.last().constraints, s.ct)
            &&& tracks(s.scopes.last().inputs, s.input)
            &&& tracks(s.scopes.last().auxes, s.aux)
        },
{
    if s.scopes.len() > 0 {
        let top = s.scopes.last();
        let rest = s.scopes.drop_last();
        lemma_tracks_split(recorded(rest, Kind::Constraint), top.constraints, s.at);
        lemma_tracks_split(recorded(rest, Kind::Input), top.inputs, s.input);
        lemma_tracks_split(recorded(rest, Kind::Aux), top.auxes, s.aux);
        lemma_shape_remove_all(s.at, s.bt, top.constraints);
        lemma_shape_remove_all(s.at, s.ct, top.constraints);
        lemma_remove_all(s.bt, top.constraints);
        lemma_remove_all(s.ct, top.constraints);
    }
}

} // verus!
