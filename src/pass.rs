use vstd::prelude::*;

use crate::graph::{Schema, SchemaView};

verus! {

/// The resolved state of an entry in one pass.
#[derive(Clone, Copy, Debug, PartialEq, Eq, Structural)]
pub enum ValueState {
    /// No occurrence, or no provided member.
    Empty,
    /// One occurrence, or one provided member.
    Provided,
    /// Two or more.
    ProvidedMany,
}

impl ValueState {
    pub open spec fn spec_from_n(n: nat) -> ValueState {
        if n == 0 {
            ValueState::Empty
        } else if n == 1 {
            ValueState::Provided
        } else {
            ValueState::ProvidedMany
        }
    }

    pub fn from_n(n: usize) -> (r: ValueState)
        ensures
            r == ValueState::spec_from_n(n as nat),
    {
        if n == 0 {
            ValueState::Empty
        } else if n == 1 {
            ValueState::Provided
        } else {
            ValueState::ProvidedMany
        }
    }

    pub fn provided(&self) -> (r: bool)
        ensures
            r == !(*self is Empty),
    {
        !matches!(self, ValueState::Empty)
    }
}

/// What one pass recorded: the locations of each entry's occurrences, the
/// entries flagged as not allowed, and the location that stands for the
/// whole input.
pub struct StoreView<L> {
    pub occ: Seq<Seq<L>>,
    pub unexpected: Seq<bool>,
    pub anchor: L,
}

impl<L> StoreView<L> {
    /// The number of occurrences of each entry.
    pub open spec fn counts(self) -> Seq<nat> {
        Seq::new(self.occ.len(), |i: int| self.occ[i].len())
    }
}

/// The record of one validation pass against a schema: which arguments
/// occurred, with which values, where.
pub struct OccurrenceStore<'a, L, V> {
    schema: &'a Schema,
    occ: Vec<Vec<L>>,
    values: Vec<Vec<V>>,
    unexpected: Vec<bool>,
    anchor: L,
}

impl<'a, L, V> View for OccurrenceStore<'a, L, V> {
    type V = StoreView<L>;

    closed spec fn view(&self) -> StoreView<L> {
        StoreView {
            occ: self.occ@.map_values(|o: Vec<L>| o@),
            unexpected: self.unexpected@,
            anchor: self.anchor,
        }
    }
}

impl<'a, L: Copy, V> OccurrenceStore<'a, L, V> {
    pub closed spec fn schema(&self) -> &'a Schema {
        self.schema
    }

    pub closed spec fn inv(&self) -> bool {
        let n = self.schema@.len();
        &&& self.schema.ready()
        &&& self.occ@.len() == n
        &&& self.values@.len() == n
        &&& self.unexpected@.len() == n
        &&& forall|i: int| 0 <= i < n ==> (#[trigger] self.occ@[i])@.len() == self.values@[i]@.len()
        &&& forall|i: int| 0 <= i < n && !self.schema@.is_arg(i) ==> (#[trigger] self.occ@[i])@.len() == 0
    }

    /// The values recorded for entry `i`, in order.
    pub closed spec fn values_of(&self, i: int) -> Seq<V> {
        self.values@[i]@
    }

    pub proof fn lemma_inv(&self)
        requires
            self.inv(),
        ensures
            self.schema().ready(),
            self@.occ.len() == self.schema()@.len(),
            self@.unexpected.len() == self.schema()@.len(),
            forall|i: int|
                0 <= i < self@.occ.len() && !self.schema()@.is_arg(i) ==> #[trigger] self@.occ[i].len()
                    == 0,
    {
        assert forall|i: int|
            0 <= i < self@.occ.len() && !self.schema()@.is_arg(i) implies #[trigger] self@.occ[i].len()
                == 0 by {
            assert(self.occ@[i]@.len() == 0);
        }
    }

    /// A pass with nothing recorded yet; `anchor` is where diagnostics about
    /// the input as a whole are placed.
    pub fn new(schema: &'a Schema, anchor: L) -> (r: OccurrenceStore<'a, L, V>)
        requires
            schema.ready(),
        ensures
            r.inv(),
            r.schema() == schema,
            r@.occ == Seq::new(schema@.len(), |i: int| Seq::<L>::empty()),
            r@.unexpected == Seq::new(schema@.len(), |i: int| false),
            r@.anchor == anchor,
    {
        let n = schema.len();
        let mut occ: Vec<Vec<L>> = Vec::new();
        let mut values: Vec<Vec<V>> = Vec::new();
        let mut unexpected: Vec<bool> = Vec::new();
        while occ.len() < n
            invariant
                occ@.len() == values@.len(),
                occ@.len() == unexpected@.len(),
                occ@.len() <= n,
                forall|i: int| 0 <= i < occ@.len() ==> (#[trigger] occ@[i])@.len() == 0,
                forall|i: int| 0 <= i < occ@.len() ==> (#[trigger] values@[i])@.len() == 0,
                forall|i: int| 0 <= i < occ@.len() ==> !(#[trigger] unexpected@[i]),
            decreases n - occ@.len(),
        {
            occ.push(Vec::new());
            values.push(Vec::new());
            unexpected.push(false);
        }
        let r = OccurrenceStore { schema, occ, values, unexpected, anchor };
        assert forall|i: int| 0 <= i < n implies r@.occ[i] =~= Seq::<L>::empty() by {
            assert(r.occ@[i]@.len() == 0);
        }
        assert(r@.occ =~= Seq::new(schema@.len(), |i: int| Seq::<L>::empty()));
        assert(r@.unexpected =~= Seq::new(schema@.len(), |i: int| false));
        r
    }

    /// Records one occurrence of argument `i` at `loc` with `value`.
    pub fn record(&mut self, i: usize, loc: L, value: V)
        requires
            old(self).inv(),
            i < old(self).schema()@.len(),
            old(self).schema()@.is_arg(i as int),
        ensures
            final(self).inv(),
            final(self).schema() == old(self).schema(),
            final(self)@.occ == old(self)@.occ.update(i as int, old(self)@.occ[i as int].push(loc)),
            final(self)@.unexpected == old(self)@.unexpected,
            final(self)@.anchor == old(self)@.anchor,
            final(self).values_of(i as int) == old(self).values_of(i as int).push(value),
    {
        let ghost o = self@;
        self.occ[i].push(loc);
        self.values[i].push(value);
        assert(self@.occ =~= o.occ.update(i as int, o.occ[i as int].push(loc)));
    }

    /// Flags entry `i` as not allowed in this pass: each occurrence of its
    /// arguments is then reported.
    pub fn disallow(&mut self, i: usize)
        requires
            old(self).inv(),
            i < old(self).schema()@.len(),
        ensures
            final(self).inv(),
            final(self).schema() == old(self).schema(),
            final(self)@.occ == old(self)@.occ,
            final(self)@.unexpected == old(self)@.unexpected.update(i as int, true),
            final(self)@.anchor == old(self)@.anchor,
    {
        self.unexpected.set(i, true);
    }

    /// Forgets everything recorded, so that the store can serve a new pass.
    pub fn reset(&mut self)
        requires
            old(self).inv(),
        ensures
            final(self).inv(),
            final(self).schema() == old(self).schema(),
            final(self)@.occ == Seq::new(old(self)@.occ.len(), |i: int| Seq::<L>::empty()),
            final(self)@.unexpected == Seq::new(old(self)@.occ.len(), |i: int| false),
            final(self)@.anchor == old(self)@.anchor,
    {
        let fresh: OccurrenceStore<'a, L, V> = OccurrenceStore::new(self.schema, self.anchor);
        *self = fresh;
    }

    /// The locations of the occurrences of entry `i`.
    pub fn locations(&self, i: usize) -> (r: &[L])
        requires
            self.inv(),
            i < self@.occ.len(),
        ensures
            r@ == self@.occ[i as int],
    {
        self.occ[i].as_slice()
    }

    /// The values recorded for entry `i`.
    pub fn values(&self, i: usize) -> (r: &[V])
        requires
            self.inv(),
            i < self@.occ.len(),
        ensures
            r@ == self.values_of(i as int),
    {
        self.values[i].as_slice()
    }

    pub fn is_disallowed(&self, i: usize) -> (r: bool)
        requires
            self.inv(),
            i < self@.occ.len(),
        ensures
            r == self@.unexpected[i as int],
    {
        self.unexpected[i]
    }

    pub fn anchor(&self) -> (r: L)
        ensures
            r == self@.anchor,
    {
        self.anchor
    }

    pub fn schema_ref(&self) -> (r: &'a Schema)
        ensures
            r == self.schema(),
    {
        self.schema
    }

    /// The state of every entry: from its count of occurrences for an
    /// argument, from its count of provided members for a group. Each group
    /// is resolved after its members, once.
    pub fn resolve(&self) -> (r: Vec<ValueState>)
        requires
            self.inv(),
        ensures
            r@.len() == self@.occ.len(),
            forall|i: int|
                0 <= i < r@.len() ==> r@[i] == ValueState::spec_from_n(
                    self.schema()@.count(self@.counts(), i),
                ),
    {
        let schema = self.schema;
        let ghost v = schema@;
        let ghost counts = self@.counts();
        proof {
            schema.lemma_ready();
            self.lemma_inv();
        }
        let n = schema.len();
        let order = schema.resolution_order();
        let mut states: Vec<ValueState> = Vec::new();
        while states.len() < n
            invariant
                states@.len() <= n,
            decreases n - states@.len(),
        {
            states.push(ValueState::Empty);
        }
        let mut k: usize = 0;
        while k < n
            invariant
                self.inv(),
                schema == self.schema(),
                v == schema@,
                v.wf(),
                counts == self@.counts(),
                n == v.len(),
                order@.len() == n,
                forall|q: int| 0 <= q < n ==> order@[q] < n && v.rank[order@[q] as int] == q,
                forall|j: int| 0 <= j < n ==> v.rank[j] < n && order@[v.rank[j] as int] == j,
                states@.len() == n,
                k <= n,
                forall|j: int|
                    0 <= j < n && v.rank[j] < k ==> #[trigger] states@[j] == ValueState::spec_from_n(
                        v.count(counts, j),
                    ),
            decreases n - k,
        {
            let i = order[k];
            let c: usize;
            if schema.is_group(i) {
                let members = schema.members_of(i);
                proof {
                    assert(v.refs_ok_at(i as int));
                }
                let mut p: usize = 0;
                let mut provided: usize = 0;
                while p < members.len()
                    invariant
                        v.wf(),
                        v == schema@,
                        members@ == v.members(i as int),
                        v.is_group(i as int),
                        v.refs_ok_at(i as int),
                        i < n,
                        n == v.len(),
                        v.rank[i as int] == k,
                        states@.len() == n,
                        forall|j: int|
                            0 <= j < n && v.rank[j] < k ==> #[trigger] states@[j] == ValueState::spec_from_n(
                                v.count(counts, j),
                            ),
                        p <= members@.len(),
                        provided <= p,
                        provided == v.count_members(counts, i as int, p as int),
                    decreases members@.len() - p,
                {
                    let m = members[p];
                    proof {
                        assert(v.rank[m as int] < v.rank[i as int]);
                    }
                    if states[m].provided() {
                        provided = provided + 1;
                    }
                    p = p + 1;
                }
                c = provided;
            } else {
                c = self.occ[i].len();
            }
            proof {
                if v.is_group(i as int) {
                    assert(c == v.count(counts, i as int));
                } else {
                    assert(c == counts[i as int]);
                }
            }
            let ghost st0 = states@;
            states.set(i, ValueState::from_n(c));
            proof {
                assert forall|j: int|
                    0 <= j < n && v.rank[j] < k + 1 implies #[trigger] states@[j]
                        == ValueState::spec_from_n(v.count(counts, j)) by {
                    if j != i {
                        assert(states@[j] == st0[j]);
                        if v.rank[j] == k {
                            assert(order@[v.rank[j] as int] == j);
                        }
                    }
                }
            }
            k = k + 1;
        }
        states
    }
}

} // verus!
