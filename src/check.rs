use vstd::prelude::*;

use crate::error::{Diagnostic, ErrorKind, Report};
use crate::graph::SchemaView;
use crate::pass::{OccurrenceStore, StoreView, ValueState};

verus! {

/// The kind of diagnostic placed at each occurrence of an argument.
#[derive(Clone, Copy)]
pub enum Blame {
    /// The argument requires `required`, which is missing.
    Missing { required: usize },
    /// The argument conflicts with `conflict`.
    Conflict { conflict: usize },
    /// The argument is not allowed.
    Unexpected,
}

impl Blame {
    pub open spec fn kind_for(self, a: usize) -> ErrorKind {
        match self {
            Blame::Missing { required } => ErrorKind::MissingRequired { this: Some(a), required },
            Blame::Conflict { conflict } => ErrorKind::ConflictingArgument { this: a, conflict },
            Blame::Unexpected => ErrorKind::UnexpectedArgument { this: a },
        }
    }

    fn make(&self, a: usize) -> (r: ErrorKind)
        ensures
            r == self.kind_for(a),
    {
        match self {
            Blame::Missing { required } => ErrorKind::MissingRequired {
                this: Some(a),
                required: *required,
            },
            Blame::Conflict { conflict } => ErrorKind::ConflictingArgument {
                this: a,
                conflict: *conflict,
            },
            Blame::Unexpected => ErrorKind::UnexpectedArgument { this: a },
        }
    }
}

/// One diagnostic of kind `b` at each occurrence of each argument of
/// `owners`, in order.
pub open spec fn at_each<L>(occ: Seq<Seq<L>>, owners: Seq<usize>, b: Blame) -> Seq<Diagnostic<L>>
    decreases owners.len(),
{
    if owners.len() == 0 {
        Seq::empty()
    } else {
        let a = owners.last();
        at_each(occ, owners.drop_last(), b) + occ[a as int].map_values(
            |l: L| Diagnostic { loc: l, kind: b.kind_for(a) },
        )
    }
}

/// Each occurrence of an argument of `x` conflicts with `y`.
pub open spec fn side<L>(v: SchemaView, st: StoreView<L>, x: int, y: int) -> Seq<Diagnostic<L>> {
    at_each(st.occ, v.flat(x), Blame::Conflict { conflict: y as usize })
}

/// The conflict of `x` and `y`, reported at every occurrence on both sides.
pub open spec fn conflict_both<L>(v: SchemaView, st: StoreView<L>, x: int, y: int) -> Seq<
    Diagnostic<L>,
> {
    side(v, st, x, y) + side(v, st, y, x)
}

/// Each occurrence after the first of a single-valued argument.
pub open spec fn duplicate_diags<L>(v: SchemaView, st: StoreView<L>, i: int) -> Seq<Diagnostic<L>> {
    if v.is_single(i) && st.occ[i].len() > 1 {
        st.occ[i].skip(1).map_values(
            |l: L| Diagnostic { loc: l, kind: ErrorKind::DuplicateValue { this: i as usize } },
        )
    } else {
        Seq::empty()
    }
}

/// Members `p` and `q` of group `i`, when both were provided.
pub open spec fn pair_diags<L>(v: SchemaView, st: StoreView<L>, i: int, p: int, q: int) -> Seq<
    Diagnostic<L>,
> {
    let a = v.members(i)[p] as int;
    let b = v.members(i)[q] as int;
    if v.provided(st.counts(), a) && v.provided(st.counts(), b) {
        conflict_both(v, st, a, b)
    } else {
        Seq::empty()
    }
}

/// Pairs of member `p` with the members after it, before `q`.
pub open spec fn exclusive_row<L>(v: SchemaView, st: StoreView<L>, i: int, p: int, q: int) -> Seq<
    Diagnostic<L>,
>
    decreases q - p,
{
    if q <= p + 1 {
        Seq::empty()
    } else {
        exclusive_row(v, st, i, p, q - 1) + pair_diags(v, st, i, p, q - 1)
    }
}

/// Pairs whose first member comes before `p`.
pub open spec fn exclusive_rows<L>(v: SchemaView, st: StoreView<L>, i: int, p: int) -> Seq<
    Diagnostic<L>,
>
    decreases p,
{
    if p <= 0 {
        Seq::empty()
    } else {
        exclusive_rows(v, st, i, p - 1) + exclusive_row(
            v,
            st,
            i,
            p - 1,
            v.members(i).len() as int,
        )
    }
}

/// For an exclusive group with two or more provided members: every pair of
/// provided members conflicts.
pub open spec fn exclusive_diags<L>(v: SchemaView, st: StoreView<L>, i: int) -> Seq<Diagnostic<L>> {
    if v.is_exclusive_group(i) && v.count(st.counts(), i) >= 2 {
        exclusive_rows(v, st, i, v.members(i).len() as int)
    } else {
        Seq::empty()
    }
}

/// A required entry that was not provided, reported at the anchor.
pub open spec fn required_diags<L>(v: SchemaView, st: StoreView<L>, i: int) -> Seq<Diagnostic<L>> {
    if v.entries[i].required && !v.provided(st.counts(), i) {
        seq![
            Diagnostic {
                loc: st.anchor,
                kind: ErrorKind::MissingRequired { this: None, required: i as usize },
            },
        ]
    } else {
        Seq::empty()
    }
}

/// The `k`-th `requires` edge of entry `i`: when `i` was provided and the
/// target was not, each occurrence of `i`'s arguments misses the target.
pub open spec fn requires_part<L>(v: SchemaView, st: StoreView<L>, i: int, k: int) -> Seq<
    Diagnostic<L>,
> {
    let t = v.entries[i].requires[k];
    if v.provided(st.counts(), i) && !v.provided(st.counts(), t as int) {
        at_each(st.occ, v.flat(i), Blame::Missing { required: t })
    } else {
        Seq::empty()
    }
}

/// The first `k` `requires` edges of entry `i`.
pub open spec fn requires_diags<L>(v: SchemaView, st: StoreView<L>, i: int, k: int) -> Seq<
    Diagnostic<L>,
>
    decreases k,
{
    if k <= 0 {
        Seq::empty()
    } else {
        requires_diags(v, st, i, k - 1) + requires_part(v, st, i, k - 1)
    }
}

/// The first `k` `conflicts-with` edges of entry `i`.
pub open spec fn conflicts_diags<L>(v: SchemaView, st: StoreView<L>, i: int, k: int) -> Seq<
    Diagnostic<L>,
>
    decreases k,
{
    if k <= 0 {
        Seq::empty()
    } else {
        let t = v.entries[i].conflicts[k - 1] as int;
        conflicts_diags(v, st, i, k - 1) + if v.provided(st.counts(), i) && v.provided(
            st.counts(),
            t,
        ) {
            conflict_both(v, st, i, t)
        } else {
            Seq::empty()
        }
    }
}

/// Each occurrence of an entry that was flagged as not allowed.
pub open spec fn unexpected_diags<L>(v: SchemaView, st: StoreView<L>, i: int) -> Seq<
    Diagnostic<L>,
> {
    if st.unexpected[i] {
        at_each(st.occ, v.flat(i), Blame::Unexpected)
    } else {
        Seq::empty()
    }
}

/// Everything reported about entry `i`, rule by rule.
pub open spec fn entry_diags<L>(v: SchemaView, st: StoreView<L>, i: int) -> Seq<Diagnostic<L>> {
    duplicate_diags(v, st, i) + exclusive_diags(v, st, i) + required_diags(v, st, i)
        + requires_diags(v, st, i, v.entries[i].requires.len() as int) + conflicts_diags(
        v,
        st,
        i,
        v.entries[i].conflicts.len() as int,
    ) + unexpected_diags(v, st, i)
}

/// Everything reported about the entries before `k`.
pub open spec fn diags_upto<L>(v: SchemaView, st: StoreView<L>, k: int) -> Seq<Diagnostic<L>>
    decreases k,
{
    if k <= 0 {
        Seq::empty()
    } else {
        diags_upto(v, st, k - 1) + entry_diags(v, st, k - 1)
    }
}

/// The diagnostics of a pass, entry by entry in index order.
pub open spec fn diagnostics<L>(v: SchemaView, st: StoreView<L>) -> Seq<Diagnostic<L>> {
    diags_upto(v, st, v.len() as int)
}

/// Every argument that an entry stands for is an argument of the schema.
pub proof fn lemma_flat_args(v: SchemaView, i: int)
    requires
        v.wf(),
        0 <= i < v.len(),
    ensures
        forall|k: int|
            0 <= k < v.flat(i).len() ==> v.flat(i)[k] < v.len() && v.is_arg(v.flat(i)[k] as int),
    decreases v.rank[i], 1nat, 0nat,
{
    if v.is_group(i) {
        lemma_flat_members_args(v, i, v.members(i).len() as int);
        assert(v.flat(i) == v.flat_members(i, v.members(i).len() as int));
    } else {
        assert(v.entries[i].is_defined());
        assert(v.flat(i) == seq![i as usize]);
    }
}

proof fn lemma_flat_members_args(v: SchemaView, i: int, k: int)
    requires
        v.wf(),
        0 <= i < v.len(),
        k <= v.members(i).len(),
    ensures
        forall|q: int|
            0 <= q < v.flat_members(i, k).len() ==> v.flat_members(i, k)[q] < v.len() && v.is_arg(
                v.flat_members(i, k)[q] as int,
            ),
    decreases v.rank[i], 0nat, k,
{
    if k > 0 {
        lemma_flat_members_args(v, i, k - 1);
        let m = v.members(i)[k - 1] as int;
        assert(v.refs_ok_at(i));
        let prev = v.flat_members(i, k - 1);
        let tail = if v.rank[m] < v.rank[i] {
            v.flat(m)
        } else {
            Seq::empty()
        };
        if v.rank[m] < v.rank[i] {
            lemma_flat_args(v, m);
        }
        assert(v.flat_members(i, k) == prev + tail);
        assert forall|q: int| 0 <= q < v.flat_members(i, k).len() implies v.flat_members(i, k)[q]
            < v.len() && v.is_arg(v.flat_members(i, k)[q] as int) by {
            if q < prev.len() {
                assert(v.flat_members(i, k)[q] == prev[q]);
            } else {
                assert(v.flat_members(i, k)[q] == tail[q - prev.len()]);
            }
        }
    }
}


/// `states` holds the resolved state of every entry.
pub open spec fn resolved<L>(v: SchemaView, st: StoreView<L>, states: Seq<ValueState>) -> bool {
    &&& states.len() == v.len()
    &&& forall|j: int|
        0 <= j < v.len() ==> #[trigger] states[j] == ValueState::spec_from_n(v.count(st.counts(), j))
}

impl<'a, L: Copy, V> OccurrenceStore<'a, L, V> {
    proof fn lemma_provided(&self, states: Seq<ValueState>, x: int)
        requires
            self.inv(),
            resolved(self.schema()@, self@, states),
            0 <= x < self.schema()@.len(),
        ensures
            !(states[x] is Empty) == self.schema()@.provided(self@.counts(), x),
            (states[x] is ProvidedMany) == (self.schema()@.count(self@.counts(), x) >= 2),
    {
        assert(states[x] == ValueState::spec_from_n(self.schema()@.count(self@.counts(), x)));
    }

    fn emit_each(&self, owners: &[usize], b: Blame, out: &mut Vec<Diagnostic<L>>)
        requires
            self.inv(),
            forall|k: int| 0 <= k < owners@.len() ==> owners@[k] < self@.occ.len(),
        ensures
            final(out)@ == old(out)@ + at_each(self@.occ, owners@, b),
    {
        let ghost base = out@;
        let mut k: usize = 0;
        while k < owners.len()
            invariant
                self.inv(),
                forall|q: int| 0 <= q < owners@.len() ==> owners@[q] < self@.occ.len(),
                k <= owners@.len(),
                out@ == base + at_each(self@.occ, owners@.take(k as int), b),
            decreases owners@.len() - k,
        {
            let a = owners[k];
            let locs = self.locations(a);
            let ghost mid = out@;
            let mut j: usize = 0;
            while j < locs.len()
                invariant
                    j <= locs@.len(),
                    out@ == mid + locs@.take(j as int).map_values(
                        |l: L| Diagnostic { loc: l, kind: b.kind_for(a) },
                    ),
                decreases locs@.len() - j,
            {
                out.push(Diagnostic { loc: locs[j], kind: b.make(a) });
                proof {
                    assert(locs@.take(j + 1).map_values(
                        |l: L| Diagnostic { loc: l, kind: b.kind_for(a) },
                    ) =~= locs@.take(j as int).map_values(
                        |l: L| Diagnostic { loc: l, kind: b.kind_for(a) },
                    ).push(Diagnostic { loc: locs@[j as int], kind: b.kind_for(a) }));
                }
                j = j + 1;
            }
            proof {
                assert(locs@.take(j as int) =~= locs@);
                assert(owners@.take(k + 1).drop_last() =~= owners@.take(k as int));
                assert(owners@.take(k + 1).last() == a);
                assert(out@ =~= base + at_each(self@.occ, owners@.take(k + 1), b));
            }
            k = k + 1;
        }
        assert(owners@.take(k as int) =~= owners@);
    }

    fn emit_duplicates(&self, i: usize, out: &mut Vec<Diagnostic<L>>)
        requires
            self.inv(),
            i < self@.occ.len(),
        ensures
            final(out)@ == old(out)@ + duplicate_diags(self.schema()@, self@, i as int),
    {
        proof {
            self.lemma_inv();
        }
        let schema = self.schema_ref();
        let locs = self.locations(i);
        if schema.is_single(i) && locs.len() > 1 {
            let ghost base = out@;
            let mut j: usize = 1;
            while j < locs.len()
                invariant
                    1 <= j <= locs@.len(),
                    out@ == base + locs@.subrange(1, j as int).map_values(
                        |l: L| Diagnostic { loc: l, kind: ErrorKind::DuplicateValue { this: i } },
                    ),
                decreases locs@.len() - j,
            {
                out.push(Diagnostic { loc: locs[j], kind: ErrorKind::DuplicateValue { this: i } });
                proof {
                    assert(locs@.subrange(1, j + 1).map_values(
                        |l: L| Diagnostic { loc: l, kind: ErrorKind::DuplicateValue { this: i } },
                    ) =~= locs@.subrange(1, j as int).map_values(
                        |l: L| Diagnostic { loc: l, kind: ErrorKind::DuplicateValue { this: i } },
                    ).push(
                        Diagnostic { loc: locs@[j as int], kind: ErrorKind::DuplicateValue { this: i } },
                    ));
                }
                j = j + 1;
            }
            assert(locs@.subrange(1, j as int) =~= locs@.skip(1));
        }
    }

    fn emit_conflict_both(&self, x: usize, y: usize, out: &mut Vec<Diagnostic<L>>)
        requires
            self.inv(),
            x < self@.occ.len(),
            y < self@.occ.len(),
        ensures
            final(out)@ == old(out)@ + conflict_both(self.schema()@, self@, x as int, y as int),
    {
        let schema = self.schema_ref();
        proof {
            self.lemma_inv();
            schema.lemma_ready();
            lemma_flat_args(schema@, x as int);
            lemma_flat_args(schema@, y as int);
        }
        let ghost base = out@;
        self.emit_each(schema.flat_of(x), Blame::Conflict { conflict: y }, out);
        self.emit_each(schema.flat_of(y), Blame::Conflict { conflict: x }, out);
        assert(out@ =~= base + conflict_both(self.schema()@, self@, x as int, y as int));
    }

    fn emit_exclusive(&self, i: usize, states: &Vec<ValueState>, out: &mut Vec<Diagnostic<L>>)
        requires
            self.inv(),
            i < self@.occ.len(),
            resolved(self.schema()@, self@, states@),
        ensures
            final(out)@ == old(out)@ + exclusive_diags(self.schema()@, self@, i as int),
    {
        let schema = self.schema_ref();
        let ghost v = schema@;
        let ghost st = self@;
        proof {
            self.lemma_inv();
            schema.lemma_ready();
            self.lemma_provided(states@, i as int);
            assert(v.refs_ok_at(i as int));
        }
        if schema.is_exclusive_group(i) && states[i] == ValueState::ProvidedMany {
            let members = schema.members_of(i);
            let n_m = members.len();
            let ghost base = out@;
            let mut p: usize = 0;
            while p < n_m
                invariant
                    self.inv(),
                    v == self.schema()@,
                    st == self@,
                    v.wf(),
                    resolved(v, st, states@),
                    members@ == v.members(i as int),
                    n_m == members@.len(),
                    v.refs_ok_at(i as int),
                    i < v.len(),
                    st.occ.len() == v.len(),
                    p <= n_m,
                    out@ == base + exclusive_rows(v, st, i as int, p as int),
                decreases n_m - p,
            {
                let ghost row_base = out@;
                let mut q: usize = p + 1;
                proof {
                    assert(exclusive_row(v, st, i as int, p as int, q as int) == Seq::<Diagnostic<L>>::empty());
                }
                while q < n_m
                    invariant
                        self.inv(),
                        v == self.schema()@,
                        st == self@,
                        v.wf(),
                        resolved(v, st, states@),
                        members@ == v.members(i as int),
                        n_m == members@.len(),
                        v.refs_ok_at(i as int),
                        st.occ.len() == v.len(),
                        p < q <= n_m,
                        out@ == row_base + exclusive_row(v, st, i as int, p as int, q as int),
                    decreases n_m - q,
                {
                    let a = members[p];
                    let b = members[q];
                    proof {
                        self.lemma_provided(states@, a as int);
                        self.lemma_provided(states@, b as int);
                    }
                    if states[a].provided() && states[b].provided() {
                        self.emit_conflict_both(a, b, out);
                    }
                    q = q + 1;
                }
                p = p + 1;
            }
        }
    }

    fn emit_required(&self, i: usize, states: &Vec<ValueState>, out: &mut Vec<Diagnostic<L>>)
        requires
            self.inv(),
            i < self@.occ.len(),
            resolved(self.schema()@, self@, states@),
        ensures
            final(out)@ == old(out)@ + required_diags(self.schema()@, self@, i as int),
    {
        let schema = self.schema_ref();
        proof {
            self.lemma_inv();
            self.lemma_provided(states@, i as int);
        }
        if schema.is_required(i) && !states[i].provided() {
            let ghost base = out@;
            out.push(
                Diagnostic {
                    loc: self.anchor(),
                    kind: ErrorKind::MissingRequired { this: None, required: i },
                },
            );
            assert(out@ =~= base + required_diags(self.schema()@, self@, i as int));
        } else {
            assert(out@ =~= old(out)@ + required_diags(self.schema()@, self@, i as int));
        }
    }

    fn emit_requires(&self, i: usize, states: &Vec<ValueState>, out: &mut Vec<Diagnostic<L>>)
        requires
            self.inv(),
            i < self@.occ.len(),
            resolved(self.schema()@, self@, states@),
        ensures
            final(out)@ == old(out)@ + requires_diags(
                self.schema()@,
                self@,
                i as int,
                self.schema()@.entries[i as int].requires.len() as int,
            ),
    {
        let schema = self.schema_ref();
        let ghost v = schema@;
        let ghost st = self@;
        proof {
            self.lemma_inv();
            schema.lemma_ready();
            self.lemma_provided(states@, i as int);
            assert(v.refs_ok_at(i as int));
            lemma_flat_args(v, i as int);
        }
        let targets = schema.requirements_of(i);
        let flat = schema.flat_of(i);
        let ghost base = out@;
        let mut k: usize = 0;
        while k < targets.len()
            invariant
                self.inv(),
                v == self.schema()@,
                st == self@,
                v.wf(),
                resolved(v, st, states@),
                targets@ == v.entries[i as int].requires,
                flat@ == v.flat(i as int),
                forall|q: int| 0 <= q < flat@.len() ==> flat@[q] < v.len(),
                v.refs_ok_at(i as int),
                i < v.len(),
                st.occ.len() == v.len(),
                k <= targets@.len(),
                !(states@[i as int] is Empty) == v.provided(st.counts(), i as int),
                out@ == base + requires_diags(v, st, i as int, k as int),
            decreases targets@.len() - k,
        {
            let t = targets[k];
            proof {
                self.lemma_provided(states@, t as int);
            }
            if states[i].provided() && !states[t].provided() {
                self.emit_each(flat, Blame::Missing { required: t }, out);
            }
            k = k + 1;
        }
    }

    fn emit_conflicts(&self, i: usize, states: &Vec<ValueState>, out: &mut Vec<Diagnostic<L>>)
        requires
            self.inv(),
            i < self@.occ.len(),
            resolved(self.schema()@, self@, states@),
        ensures
            final(out)@ == old(out)@ + conflicts_diags(
                self.schema()@,
                self@,
                i as int,
                self.schema()@.entries[i as int].conflicts.len() as int,
            ),
    {
        let schema = self.schema_ref();
        let ghost v = schema@;
        let ghost st = self@;
        proof {
            self.lemma_inv();
            schema.lemma_ready();
            self.lemma_provided(states@, i as int);
            assert(v.refs_ok_at(i as int));
        }
        let targets = schema.conflicts_of(i);
        let ghost base = out@;
        let mut k: usize = 0;
        while k < targets.len()
            invariant
                self.inv(),
                v == self.schema()@,
                st == self@,
                v.wf(),
                resolved(v, st, states@),
                targets@ == v.entries[i as int].conflicts,
                v.refs_ok_at(i as int),
                i < v.len(),
                st.occ.len() == v.len(),
                k <= targets@.len(),
                !(states@[i as int] is Empty) == v.provided(st.counts(), i as int),
                out@ == base + conflicts_diags(v, st, i as int, k as int),
            decreases targets@.len() - k,
        {
            let t = targets[k];
            proof {
                self.lemma_provided(states@, t as int);
            }
            if states[i].provided() && states[t].provided() {
                self.emit_conflict_both(i, t, out);
            }
            k = k + 1;
        }
    }

    fn emit_unexpected(&self, i: usize, out: &mut Vec<Diagnostic<L>>)
        requires
            self.inv(),
            i < self@.occ.len(),
        ensures
            final(out)@ == old(out)@ + unexpected_diags(self.schema()@, self@, i as int),
    {
        let schema = self.schema_ref();
        proof {
            self.lemma_inv();
            schema.lemma_ready();
            lemma_flat_args(schema@, i as int);
        }
        if self.is_disallowed(i) {
            self.emit_each(schema.flat_of(i), Blame::Unexpected, out);
        } else {
            assert(out@ =~= old(out)@ + unexpected_diags(self.schema()@, self@, i as int));
        }
    }

    /// Checks every rule of the schema against what this pass recorded, and
    /// returns all violations at once, entry by entry in index order.
    pub fn validate(&self) -> (r: Result<(), Report<L>>)
        requires
            self.inv(),
        ensures
            r is Ok <==> diagnostics(self.schema()@, self@).len() == 0,
            r is Err ==> r->Err_0@ == diagnostics(self.schema()@, self@),
    {
        proof {
            self.lemma_inv();
        }
        let states = self.resolve();
        let n = self.schema_ref().len();
        let ghost v = self.schema()@;
        let ghost st = self@;
        let mut out: Vec<Diagnostic<L>> = Vec::new();
        let mut i: usize = 0;
        while i < n
            invariant
                self.inv(),
                v == self.schema()@,
                st == self@,
                n == v.len(),
                n == st.occ.len(),
                resolved(v, st, states@),
                i <= n,
                out@ == diags_upto(v, st, i as int),
            decreases n - i,
        {
            let ghost base = out@;
            self.emit_duplicates(i, &mut out);
            self.emit_exclusive(i, &states, &mut out);
            self.emit_required(i, &states, &mut out);
            self.emit_requires(i, &states, &mut out);
            self.emit_conflicts(i, &states, &mut out);
            self.emit_unexpected(i, &mut out);
            assert(out@ =~= base + entry_diags(v, st, i as int));
            i = i + 1;
        }
        Report::from_vec(out).finish()
    }
}

} // verus!
