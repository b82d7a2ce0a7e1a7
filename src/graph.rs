use vstd::prelude::*;

use crate::id::{ids_view, Id};
use crate::registry::{
    extends, holds_name, names_of, names_unique, ArgInfo, EntryKindView, EntryView, GroupInfo,
    IdMap, InfoKind, SchemaError,
};
use crate::schema::{ArgAction, ArgSchema, GroupSchema};

verus! {

/// A schema as a table of entries, with the rank of each entry in the order
/// in which entries are resolved: a group ranks above its members.
pub struct SchemaView {
    pub entries: Seq<EntryView>,
    pub rank: Seq<nat>,
}

impl SchemaView {
    pub open spec fn len(self) -> nat {
        self.entries.len()
    }

    pub open spec fn is_arg(self, i: int) -> bool {
        self.entries[i].kind is Arg
    }

    pub open spec fn is_group(self, i: int) -> bool {
        self.entries[i].kind is Group
    }

    pub open spec fn members(self, i: int) -> Seq<usize> {
        match self.entries[i].kind {
            EntryKindView::Group { members, .. } => members,
            _ => Seq::empty(),
        }
    }

    /// An exclusive group: its members must not come together.
    pub open spec fn is_exclusive_group(self, i: int) -> bool {
        self.entries[i].kind matches EntryKindView::Group { multiple, .. } && !multiple
    }

    /// An argument that takes at most one occurrence.
    pub open spec fn is_single(self, i: int) -> bool {
        self.entries[i].kind matches EntryKindView::Arg { action, .. } && action
            == ArgAction::Single
    }

    /// The members and relation targets of entry `i` are entries.
    pub open spec fn refs_ok_at(self, i: int) -> bool {
        &&& forall|k: int| 0 <= k < self.members(i).len() ==> self.members(i)[k] < self.len()
        &&& forall|k: int|
            0 <= k < self.entries[i].requires.len() ==> self.entries[i].requires[k] < self.len()
        &&& forall|k: int|
            0 <= k < self.entries[i].conflicts.len() ==> self.entries[i].conflicts[k]
                < self.len()
    }

    pub open spec fn refs_in_range(self) -> bool {
        forall|i: int| 0 <= i < self.len() ==> #[trigger] self.refs_ok_at(i)
    }

    pub open spec fn all_defined(self) -> bool {
        forall|i: int| 0 <= i < self.len() ==> self.entries[i].is_defined()
    }

    /// `r` ranks every group above each of its members.
    pub open spec fn ranked_by(self, r: Seq<nat>) -> bool {
        &&& r.len() == self.len()
        &&& forall|g: int, k: int|
            0 <= g < self.len() && 0 <= k < self.members(g).len() ==> #[trigger] r[self.members(
                g,
            )[k] as int] < r[g]
    }

    /// No group contains itself, directly or through other groups.
    pub open spec fn acyclic(self) -> bool {
        exists|r: Seq<nat>| self.ranked_by(r)
    }

    /// A finished schema: names unique, every entry defined, every reference
    /// in range, and `rank` a ranking of the groups.
    pub open spec fn wf(self) -> bool {
        &&& self.len() <= usize::MAX
        &&& names_unique(self.entries)
        &&& self.refs_in_range()
        &&& self.all_defined()
        &&& self.ranked_by(self.rank)
    }

    /// Under `occ`, the number of occurrences of an argument, or the number
    /// of provided members of a group.
    pub open spec fn count(self, occ: Seq<nat>, i: int) -> nat
        decreases self.rank[i], 1nat, 0nat,
    {
        if self.is_group(i) {
            self.count_members(occ, i, self.members(i).len() as int)
        } else {
            occ[i]
        }
    }

    /// How many of the first `k` members of group `i` are provided.
    pub open spec fn count_members(self, occ: Seq<nat>, i: int, k: int) -> nat
        decreases self.rank[i], 0nat, k,
    {
        if k <= 0 {
            0
        } else {
            let m = self.members(i)[k - 1] as int;
            self.count_members(occ, i, k - 1) + if self.rank[m] < self.rank[i] && self.count(
                occ,
                m,
            ) > 0 {
                1nat
            } else {
                0nat
            }
        }
    }

    /// Whether entry `i` was provided under `occ`: an argument with an
    /// occurrence, or a group with a provided member. So a `requires` edge
    /// to a group is met by any one of its members, at any depth.
    pub open spec fn provided(self, occ: Seq<nat>, i: int) -> bool {
        self.count(occ, i) > 0
    }

    /// The arguments that entry `i` stands for: itself, or the members of a
    /// group, each group among them replaced by its own, in order.
    pub open spec fn flat(self, i: int) -> Seq<usize>
        decreases self.rank[i], 1nat, 0nat,
    {
        if self.is_group(i) {
            self.flat_members(i, self.members(i).len() as int)
        } else {
            seq![i as usize]
        }
    }

    pub open spec fn flat_members(self, i: int, k: int) -> Seq<usize>
        decreases self.rank[i], 0nat, k,
    {
        if k <= 0 {
            Seq::empty()
        } else {
            let m = self.members(i)[k - 1] as int;
            self.flat_members(i, k - 1) + if self.rank[m] < self.rank[i] {
                self.flat(m)
            } else {
                Seq::empty()
            }
        }
    }
}

/// A handle on a group of a schema.
#[derive(Clone, Copy, Debug, PartialEq, Eq, Structural)]
pub struct Group {
    i: usize,
}

impl Group {
    pub closed spec fn index(&self) -> usize {
        self.i
    }

    /// The index of the group in its schema.
    pub fn id(&self) -> (r: usize)
        ensures
            r == self.index(),
    {
        self.i
    }
}

/// The schema: a table of named arguments and groups with their relations.
/// It is built by [`Schema::register_arg`] and [`Schema::register_group`],
/// then checked once by [`Schema::finish`], after which it is read only.
pub struct Schema {
    i: IdMap,
    rank: Vec<usize>,
    order: Vec<usize>,
    flat: Vec<Vec<usize>>,
    ready: bool,
}

impl View for Schema {
    type V = SchemaView;

    closed spec fn view(&self) -> SchemaView {
        SchemaView { entries: self.i@, rank: self.rank@.map_values(|r: usize| r as nat) }
    }
}

/// Number of entries marked in `s`.
pub open spec fn marked(s: Seq<bool>) -> nat
    decreases s.len(),
{
    if s.len() == 0 {
        0
    } else {
        marked(s.drop_last()) + if s.last() {
            1nat
        } else {
            0nat
        }
    }
}

proof fn lemma_marked_zero(s: Seq<bool>)
    requires
        forall|j: int| 0 <= j < s.len() ==> !s[j],
    ensures
        marked(s) == 0,
    decreases s.len(),
{
    if s.len() > 0 {
        lemma_marked_zero(s.drop_last());
    }
}

proof fn lemma_marked_bound(s: Seq<bool>)
    ensures
        marked(s) <= s.len(),
        marked(s) == s.len() ==> forall|j: int| 0 <= j < s.len() ==> s[j],
        marked(s) < s.len() ==> exists|j: int| 0 <= j < s.len() && !s[j],
    decreases s.len(),
{
    if s.len() > 0 {
        lemma_marked_bound(s.drop_last());
        if marked(s) < s.len() {
            if s.last() {
                let j = choose|j: int| 0 <= j < s.drop_last().len() && !s.drop_last()[j];
                assert(!s[j]);
            } else {
                assert(!s[s.len() - 1]);
            }
        }
        if marked(s) == s.len() {
            assert forall|j: int| 0 <= j < s.len() implies s[j] by {
                if j < s.len() - 1 {
                    assert(s.drop_last()[j] == s[j]);
                }
            }
        }
    }
}

proof fn lemma_marked_set(s: Seq<bool>, i: int)
    requires
        0 <= i < s.len(),
        !s[i],
    ensures
        marked(s.update(i, true)) == marked(s) + 1,
    decreases s.len(),
{
    let t = s.update(i, true);
    if i == s.len() - 1 {
        assert(t.drop_last() =~= s.drop_last());
    } else {
        assert(t.drop_last() =~= s.drop_last().update(i, true));
        lemma_marked_set(s.drop_last(), i);
    }
}

/// `m` is a member of group `g`.
pub open spec fn is_member(v: SchemaView, g: int, m: int) -> bool {
    exists|k: int| 0 <= k < v.members(g).len() && v.members(g)[k] == m
}

/// Entry `j` is a group with a member that `res` leaves unmarked.
pub open spec fn waits_on_member(v: SchemaView, res: Seq<bool>, j: int) -> bool {
    exists|k: int| 0 <= k < v.members(j).len() && !res[v.members(j)[k] as int]
}

/// `path` runs down through membership: each entry after the first is a
/// member of the one before it.
pub open spec fn is_chain(v: SchemaView, path: Seq<usize>) -> bool {
    &&& path.len() >= 1
    &&& forall|t: int|
        0 <= t < path.len() - 1 ==> #[trigger] is_member(v, path[t] as int, path[t + 1] as int)
}

/// Entry `a` contains entry `b`, through zero or more groups in between,
/// or is `b`.
pub open spec fn leads_to(v: SchemaView, a: int, b: int) -> bool {
    exists|path: Seq<usize>|
        #[trigger] is_chain(v, path) && path[0] == a && path[path.len() - 1] == b
}

proof fn lemma_stuck_bound(v: SchemaView, res: Seq<bool>, r: Seq<nat>, b: nat)
    requires
        v.refs_in_range(),
        res.len() == v.len(),
        v.ranked_by(r),
        forall|j: int| 0 <= j < v.len() && !res[j] ==> #[trigger] waits_on_member(v, res, j),
    ensures
        forall|j: int| 0 <= j < v.len() && !res[j] ==> r[j] >= b,
    decreases b,
{
    if b > 0 {
        lemma_stuck_bound(v, res, r, (b - 1) as nat);
        assert forall|j: int| 0 <= j < v.len() && !res[j] implies r[j] >= b by {
            assert(waits_on_member(v, res, j));
            let k = choose|k: int| 0 <= k < v.members(j).len() && !res[v.members(j)[k] as int];
            assert(v.refs_ok_at(j));
            let m = v.members(j)[k] as int;
            assert(r[m] < r[j]);
        }
    }
}

/// Entries that all wait on an unmarked member admit no ranking.
proof fn lemma_stuck_not_acyclic(v: SchemaView, res: Seq<bool>, j0: int)
    requires
        v.refs_in_range(),
        res.len() == v.len(),
        0 <= j0 < v.len(),
        !res[j0],
        forall|j: int| 0 <= j < v.len() && !res[j] ==> #[trigger] waits_on_member(v, res, j),
    ensures
        !v.acyclic(),
{
    if v.acyclic() {
        let r = choose|r: Seq<nat>| v.ranked_by(r);
        lemma_stuck_bound(v, res, r, r[j0] + 1);
    }
}

/// Interning names keeps every reference in range.
proof fn lemma_extends_refs(new: SchemaView, old: SchemaView)
    requires
        old.refs_in_range(),
        extends(new.entries, old.entries),
    ensures
        new.refs_in_range(),
{
    assert forall|x: int| 0 <= x < new.len() implies #[trigger] new.refs_ok_at(x) by {
        if x < old.len() {
            assert(new.entries.take(old.len() as int)[x] == new.entries[x]);
            assert(new.entries[x] == old.entries[x]);
            assert(old.refs_ok_at(x));
            assert(new.members(x) == old.members(x));
        } else {
            assert(new.entries[x] == EntryView::undefined(new.entries[x].name));
            assert(new.members(x) =~= Seq::<usize>::empty());
        }
    }
}

/// Interning one name extends the table.
proof fn lemma_push_extends(old: Seq<EntryView>, name: Seq<char>)
    ensures
        extends(old, old),
        extends(old.push(EntryView::undefined(name)), old),
{
    assert(old.take(old.len() as int) =~= old);
    assert(old.push(EntryView::undefined(name)).take(old.len() as int) =~= old);
}

/// Extending is transitive.
proof fn lemma_extends_trans(c: Seq<EntryView>, b: Seq<EntryView>, a: Seq<EntryView>)
    requires
        extends(c, b),
        extends(b, a),
    ensures
        extends(c, a),
{
    assert(c.take(a.len() as int) =~= a) by {
        assert forall|j: int| 0 <= j < a.len() implies c.take(a.len() as int)[j] == a[j] by {
            assert(c.take(b.len() as int)[j] == c[j]);
            assert(b.take(a.len() as int)[j] == b[j]);
        }
    }
    assert forall|j: int| a.len() <= j < c.len() implies c[j] == EntryView::undefined(c[j].name) by {
        if j < b.len() {
            assert(c.take(b.len() as int)[j] == c[j]);
        }
    }
}

/// The entries that defining an entry left in place: those before it, and
/// names that were mentioned for the first time.
pub open spec fn defines_at(f: Seq<EntryView>, o: Seq<EntryView>, i: int, name: Seq<char>) -> bool {
    &&& o.len() <= f.len()
    &&& 0 <= i < f.len()
    &&& f[i].name == name
    &&& holds_name(o, name) ==> i < o.len()
    &&& forall|j: int|
        0 <= j < f.len() && j != i ==> if j < o.len() {
            f[j] == o[j]
        } else {
            f[j] == EntryView::undefined(f[j].name)
        }
}

/// `name` is the name of an entry that was defined.
pub open spec fn defined_name(entries: Seq<EntryView>, name: Seq<char>) -> bool {
    exists|j: int| 0 <= j < entries.len() && entries[j].name == name && entries[j].is_defined()
}

impl Schema {
    pub closed spec fn inv(&self) -> bool {
        &&& self.i.inv()
        &&& self@.refs_in_range()
        &&& self.ready ==> self.ready_inv()
    }

    closed spec fn ready_inv(&self) -> bool {
        let n = self.i@.len();
        &&& self@.wf()
        &&& self.rank@.len() == n
        &&& self.order@.len() == n
        &&& self.flat@.len() == n
        &&& forall|k: int| 0 <= k < n ==> self.order@[k] < n && self.rank@[self.order@[k] as int] == k
        &&& forall|j: int| 0 <= j < n ==> self.rank@[j] < n && self.order@[self.rank@[j] as int] == j
        &&& forall|j: int| 0 <= j < n ==> (#[trigger] self.flat@[j])@ == self@.flat(j)
    }

    /// A schema that [`Schema::finish`] accepted.
    pub closed spec fn ready(&self) -> bool {
        self.inv() && self.ready
    }

    /// Names are unique in every schema, finished or not.
    pub proof fn lemma_names_unique(&self)
        requires
            self.inv(),
        ensures
            names_unique(self@.entries),
    {
    }

    pub proof fn lemma_ready(&self)
        requires
            self.ready(),
        ensures
            self@.wf(),
    {
    }

    pub fn new() -> (r: Schema)
        ensures
            r.inv(),
            r@.entries.len() == 0,
    {
        Schema { i: IdMap::new(), rank: Vec::new(), order: Vec::new(), flat: Vec::new(), ready: false }
    }

    /// Number of entries named so far.
    pub fn len(&self) -> (r: usize)
        ensures
            r == self@.len(),
    {
        self.i.len()
    }

    /// The name of entry `i`.
    pub fn id(&self, i: usize) -> (r: &Id)
        requires
            i < self@.len(),
        ensures
            r@ == self@.entries[i as int].name,
    {
        self.i.id(i)
    }

    /// The index of the entry named `name`.
    pub fn i(&self, name: &str) -> (r: Option<usize>)
        requires
            self.inv(),
        ensures
            r is Some <==> holds_name(self@.entries, name@),
            r is Some ==> r->0 < self@.len() && self@.entries[r->0 as int].name == name@,
    {
        self.i.get(name)
    }

    /// The indices of `names`, each interned if new.
    fn intern_all(&mut self, names: &Vec<Id>) -> (r: Vec<usize>)
        requires
            old(self).inv(),
            !old(self).ready,
        ensures
            final(self).inv(),
            !final(self).ready,
            extends(final(self)@.entries, old(self)@.entries),
            final(self).rank == old(self).rank,
            r@.len() == names@.len(),
            forall|k: int| 0 <= k < r@.len() ==> r@[k] < final(self)@.len(),
            names_of(final(self)@.entries, r@) == ids_view(names@),
            forall|j: int|
                old(self)@.len() <= j < final(self)@.len() ==> ids_view(names@).contains(
                    #[trigger] final(self)@.entries[j].name,
                ),
    {
        let mut r: Vec<usize> = Vec::new();
        let mut k: usize = 0;
        let ghost start = self@.entries;
        assert(start.take(start.len() as int) =~= start);
        while k < names.len()
            invariant
                self.inv(),
                !self.ready,
                k <= names@.len(),
                r@.len() == k,
                extends(self@.entries, start),
                self.rank == old(self).rank,
                forall|j: int| 0 <= j < r@.len() ==> r@[j] < self@.len(),
                names_of(self@.entries, r@) == ids_view(names@.take(k as int)),
                forall|j: int| start.len() <= j < self@.len() ==> #[trigger] r@.contains(j as usize),
            decreases names@.len() - k,
        {
            let ghost before = self@;
            let i = self.i.of(names[k].as_str());
            proof {
                lemma_push_extends(before.entries, names@[k as int]@);
                lemma_extends_refs(self@, before);
                lemma_extends_trans(self@.entries, before.entries, start);
                assert forall|j: int| 0 <= j < r@.len() implies self@.entries[r@[j] as int]
                    == before.entries[r@[j] as int] by {
                    assert(self@.entries.take(before.len() as int)[r@[j] as int]
                        == self@.entries[r@[j] as int]);
                }
            }
            let ghost r0 = r@;
            r.push(i);
            proof {
                assert(names@.take(k + 1) == names@.take(k as int).push(names@[k as int]));
                assert(ids_view(names@.take(k + 1)) =~= ids_view(names@.take(k as int)).push(
                    names@[k as int]@,
                ));
                assert(names_of(before.entries, r0) =~= names_of(self@.entries, r0));
                assert(names_of(self@.entries, r@) =~= names_of(self@.entries, r0).push(
                    names@[k as int]@,
                ));
                assert forall|j: int| start.len() <= j < self@.len() implies #[trigger] r@.contains(
                    j as usize,
                ) by {
                    if j < before.len() {
                        assert(r0.contains(j as usize));
                        let q = choose|q: int| 0 <= q < r0.len() && r0[q] == j as usize;
                        assert(r@[q] == j as usize);
                    } else {
                        assert(r@[r0.len() as int] == j as usize);
                    }
                }
            }
            k = k + 1;
        }
        assert(names@.take(k as int) =~= names@);
        let n = self.i.len();
        assert forall|j: int| old(self)@.len() <= j < self@.len() implies ids_view(names@).contains(
            #[trigger] self@.entries[j].name,
        ) by {
            assert(r@.contains(j as usize));
            let q = choose|q: int| 0 <= q < r@.len() && r@[q] == j as usize;
            assert(names_of(self@.entries, r@)[q] == self@.entries[j].name);
            assert(ids_view(names@)[q] == self@.entries[j].name);
        }
        r
    }

    /// Gives the undefined entry `i` its kind and its relations, interning
    /// the names of the relations.
    fn define_entry(
        &mut self,
        i: usize,
        kind: InfoKind,
        required: bool,
        requirements: &Vec<Id>,
        conflicts: &Vec<Id>,
    )
        requires
            old(self).inv(),
            !old(self).ready,
            i < old(self)@.len(),
            !old(self)@.entries[i as int].is_defined(),
            !(kind is Unset),
            kind is Group ==> forall|k: int|
                0 <= k < kind->Group_0.members@.len() ==> kind->Group_0.members@[k]
                    < old(self)@.len(),
        ensures
            final(self).inv(),
            !final(self).ready,
            ({
                let f = final(self)@.entries;
                let o = old(self)@.entries;
                &&& o.len() <= f.len()
                &&& forall|j: int|
                    0 <= j < f.len() && j != i ==> if j < o.len() {
                        f[j] == o[j]
                    } else {
                        f[j] == EntryView::undefined(f[j].name)
                    }
                &&& f[i as int].name == o[i as int].name
                &&& f[i as int].kind == crate::registry::kind_view(kind)
                &&& f[i as int].required == required
                &&& names_of(f, f[i as int].requires) == ids_view(requirements@)
                &&& names_of(f, f[i as int].conflicts) == ids_view(conflicts@)
                &&& forall|j: int|
                    o.len() <= j < f.len() ==> ids_view(requirements@).contains(#[trigger] f[j].name)
                        || ids_view(conflicts@).contains(f[j].name)
            }),
    {
        let ghost o = self@.entries;
        let reqs = self.intern_all(requirements);
        let ghost mid2 = self@.entries;
        let cons = self.intern_all(conflicts);
        let ghost mid3 = self@.entries;
        let ghost v3 = self@;
        proof {
            assert(mid2.take(o.len() as int) == o);
            assert(mid3.take(mid2.len() as int) == mid2);
            assert(forall|j: int| 0 <= j < o.len() ==> mid3[j] == o[j]) by {
                assert forall|j: int| 0 <= j < o.len() implies mid3[j] == o[j] by {
                    assert(mid3.take(mid2.len() as int)[j] == mid3[j]);
                    assert(mid2.take(o.len() as int)[j] == mid2[j]);
                }
            }
            assert(names_of(mid3, reqs@) =~= names_of(mid2, reqs@)) by {
                assert forall|k: int| 0 <= k < reqs@.len() implies mid3[reqs@[k] as int]
                    == mid2[reqs@[k] as int] by {
                    assert(mid3.take(mid2.len() as int)[reqs@[k] as int] == mid3[reqs@[k] as int]);
                }
            }
        }
        self.i.register(i, kind, required, reqs, cons);
        proof {
            let f = self@.entries;
            assert(names_of(f, reqs@) =~= names_of(mid3, reqs@));
            assert(names_of(f, cons@) =~= names_of(mid3, cons@));
            assert forall|j: int| o.len() <= j < f.len() implies ids_view(requirements@).contains(
                #[trigger] f[j].name,
            ) || ids_view(conflicts@).contains(f[j].name) by {
                assert(f[j] == mid3[j]);
                if j < mid2.len() {
                    assert(mid3.take(mid2.len() as int)[j] == mid3[j]);
                    assert(ids_view(requirements@).contains(mid2[j].name));
                } else {
                    assert(ids_view(conflicts@).contains(mid3[j].name));
                }
            }
            assert forall|j: int| 0 <= j < f.len() && j != i implies if j < o.len() {
                f[j] == o[j]
            } else {
                f[j] == EntryView::undefined(f[j].name)
            } by {
                if j < o.len() {
                    assert(mid3.take(mid2.len() as int)[j] == mid3[j]);
                    assert(mid2.take(o.len() as int)[j] == mid2[j]);
                } else if j < mid2.len() {
                    assert(mid3.take(mid2.len() as int)[j] == mid3[j]);
                }
            }
            assert(self@.refs_in_range()) by {
                assert forall|x: int| 0 <= x < f.len() implies #[trigger] self@.refs_ok_at(x) by {
                    if x != i {
                        assert(f[x] == mid3[x]);
                        assert(v3.refs_ok_at(x));
                        assert(self@.members(x) == v3.members(x));
                    }
                }
            }
        }
    }

    /// Defines the argument `id` by `schema`, and returns its index. Names
    /// that its relations mention are interned. A name is defined once:
    /// defining it again is a fault of the schema's author, which
    /// [`Schema::defines`] lets a caller rule out.
    pub fn register_arg(&mut self, id: &str, schema: ArgSchema) -> (r: usize)
        requires
            old(self).inv(),
            !defined_name(old(self)@.entries, id@),
        ensures
            final(self).inv(),
            ({
                let f = final(self)@.entries;
                let i = r as int;
                &&& defines_at(f, old(self)@.entries, i, id@)
                &&& f[i].kind == EntryKindView::Arg {
                    kind: schema.kind,
                    action: schema.action,
                    optional: schema.optional,
                    help: schema.help@,
                }
                &&& f[i].required == schema.required
                &&& names_of(f, f[i].requires) == ids_view(schema.requirements@)
                &&& names_of(f, f[i].conflicts) == ids_view(schema.conflicts_with@)
                &&& forall|j: int|
                    old(self)@.len() <= j < f.len() && j != i ==> ids_view(
                        schema.requirements@,
                    ).contains(#[trigger] f[j].name) || ids_view(schema.conflicts_with@).contains(
                        f[j].name,
                    )
            }),
    {
        let ghost o = self@.entries;
        let ghost ov = self@;
        let i = self.i.of(id);
        proof {
            lemma_push_extends(o, id@);
            lemma_extends_refs(self@, ov);
        }
        proof {
            assert(!self@.entries[i as int].is_defined()) by {
                if holds_name(o, id@) {
                    let j = choose|j: int| 0 <= j < o.len() && o[j].name == id@;
                    assert(!o[j].is_defined());
                    assert(self@.entries == o);
                    assert(names_unique(o));
                }
            }
        }
        self.ready = false;
        let ghost mid = self@.entries;
        let ArgSchema { kind, help, action, required, optional, requirements, conflicts_with } =
            schema;
        self.define_entry(
            i,
            InfoKind::Arg(ArgInfo { kind, action, optional, help }),
            required,
            &requirements,
            &conflicts_with,
        );
        proof {
            let f = self@.entries;
            assert forall|j: int| 0 <= j < f.len() && j != i implies if j < o.len() {
                f[j] == o[j]
            } else {
                f[j] == EntryView::undefined(f[j].name)
            } by {
                if j < mid.len() && mid != o {
                    assert(mid[j] == o.push(EntryView::undefined(id@))[j]);
                }
            }
        }
        i
    }

    /// Defines the group `id` by `schema`, and returns its index. Names that
    /// its members and relations mention are interned. A name is defined
    /// once: defining it again is a fault of the schema's author, which
    /// [`Schema::defines`] lets a caller rule out.
    pub fn register_group(&mut self, id: &str, schema: GroupSchema) -> (r: usize)
        requires
            old(self).inv(),
            !defined_name(old(self)@.entries, id@),
        ensures
            final(self).inv(),
            ({
                let f = final(self)@.entries;
                let i = r as int;
                &&& defines_at(f, old(self)@.entries, i, id@)
                &&& f[i].kind is Group
                &&& f[i].kind->Group_multiple == schema.multiple
                &&& names_of(f, f[i].kind->Group_members) == ids_view(schema.members@)
                &&& f[i].required == schema.required
                &&& names_of(f, f[i].requires) == ids_view(schema.requirements@)
                &&& names_of(f, f[i].conflicts) == ids_view(schema.conflicts_with@)
                &&& forall|j: int|
                    old(self)@.len() <= j < f.len() && j != i ==> ids_view(schema.members@).contains(
                        #[trigger] f[j].name,
                    ) || ids_view(schema.requirements@).contains(f[j].name) || ids_view(
                        schema.conflicts_with@,
                    ).contains(f[j].name)
            }),
    {
        let ghost o = self@.entries;
        let ghost ov = self@;
        let i = self.i.of(id);
        proof {
            lemma_push_extends(o, id@);
            lemma_extends_refs(self@, ov);
        }
        proof {
            assert(!self@.entries[i as int].is_defined()) by {
                if holds_name(o, id@) {
                    let j = choose|j: int| 0 <= j < o.len() && o[j].name == id@;
                    assert(!o[j].is_defined());
                    assert(self@.entries == o);
                    assert(names_unique(o));
                }
            }
        }
        self.ready = false;
        let ghost mid = self@.entries;
        let GroupSchema { members, multiple, required, requirements, conflicts_with } = schema;
        let idx = self.intern_all(&members);
        let ghost mid2 = self@.entries;
        proof {
            assert(!self@.entries[i as int].is_defined()) by {
                assert(self@.entries.take(mid.len() as int)[i as int] == self@.entries[i as int]);
            }
        }
        self.define_entry(
            i,
            InfoKind::Group(GroupInfo { members: idx, multiple }),
            required,
            &requirements,
            &conflicts_with,
        );
        proof {
            let f = self@.entries;
            assert(names_of(f, idx@) =~= names_of(mid2, idx@)) by {
                assert forall|k: int| 0 <= k < idx@.len() implies f[idx@[k] as int].name
                    == mid2[idx@[k] as int].name by {
                    if idx@[k] != i {
                        assert(f[idx@[k] as int] == mid2[idx@[k] as int]);
                    }
                }
            }
            assert forall|j: int| 0 <= j < f.len() && j != i implies if j < o.len() {
                f[j] == o[j]
            } else {
                f[j] == EntryView::undefined(f[j].name)
            } by {
                if mid.len() <= j < mid2.len() {
                    assert(ids_view(members@).contains(mid2[j].name));
                }
                if j < mid2.len() {
                    assert(mid2.take(mid.len() as int) == mid);
                    if j < mid.len() {
                        assert(mid2.take(mid.len() as int)[j] == mid2[j]);
                        if mid != o {
                            assert(mid[j] == o.push(EntryView::undefined(id@))[j]);
                        }
                    }
                }
            }
        }
        i
    }


    /// Whether entry `i` is an argument.
    pub fn is_arg(&self, i: usize) -> (r: bool)
        requires
            i < self@.len(),
        ensures
            r == self@.is_arg(i as int),
    {
        match self.i.get_info(i) {
            Some(info) => matches!(info.kind, InfoKind::Arg(_)),
            None => false,
        }
    }

    /// The help text of argument `i`; nothing for a group.
    pub fn help(&self, i: usize) -> (r: &str)
        requires
            i < self@.len(),
        ensures
            self@.entries[i as int].kind matches EntryKindView::Arg { help, .. } ==> r@ == help,
            !self@.is_arg(i as int) ==> r@ == ""@,
    {
        match self.i.get_info(i) {
            Some(info) => match &info.kind {
                InfoKind::Arg(a) => a.help.as_str(),
                _ => "",
            },
            None => "",
        }
    }

    /// Whether entry `i` is an argument that takes at most one occurrence.
    pub fn is_single(&self, i: usize) -> (r: bool)
        requires
            i < self@.len(),
        ensures
            r == self@.is_single(i as int),
    {
        match self.i.get_info(i) {
            Some(info) => match &info.kind {
                InfoKind::Arg(a) => a.action == ArgAction::Single,
                _ => false,
            },
            None => false,
        }
    }

    /// Whether entry `i` is a group whose members exclude each other.
    pub fn is_exclusive_group(&self, i: usize) -> (r: bool)
        requires
            i < self@.len(),
        ensures
            r == self@.is_exclusive_group(i as int),
    {
        match self.i.get_info(i) {
            Some(info) => match &info.kind {
                InfoKind::Group(g) => !g.multiple,
                _ => false,
            },
            None => false,
        }
    }

    pub fn is_required(&self, i: usize) -> (r: bool)
        requires
            i < self@.len(),
        ensures
            r == self@.entries[i as int].required,
    {
        match self.i.get_info(i) {
            Some(info) => info.required,
            None => false,
        }
    }

    /// The entries that entry `i` requires.
    pub fn requirements_of(&self, i: usize) -> (r: &[usize])
        requires
            i < self@.len(),
        ensures
            r@ == self@.entries[i as int].requires,
    {
        match self.i.get_info(i) {
            Some(info) => info.requirements.as_slice(),
            None => &[],
        }
    }

    /// The entries that entry `i` conflicts with.
    pub fn conflicts_of(&self, i: usize) -> (r: &[usize])
        requires
            i < self@.len(),
        ensures
            r@ == self@.entries[i as int].conflicts,
    {
        match self.i.get_info(i) {
            Some(info) => info.conflicts.as_slice(),
            None => &[],
        }
    }

    /// The arguments that entry `i` stands for.
    pub fn flat_of(&self, i: usize) -> (r: &[usize])
        requires
            self.ready(),
            i < self@.len(),
        ensures
            r@ == self@.flat(i as int),
    {
        self.flat[i].as_slice()
    }

    /// The entries in an order in which each group follows its members.
    pub fn resolution_order(&self) -> (r: &[usize])
        requires
            self.ready(),
        ensures
            r@.len() == self@.len(),
            forall|k: int| 0 <= k < r@.len() ==> r@[k] < self@.len() && self@.rank[r@[k] as int] == k,
            forall|j: int| 0 <= j < self@.len() ==> self@.rank[j] < self@.len() && r@[self@.rank[j] as int] == j,
    {
        proof {
            assert forall|k: int| 0 <= k < self@.len() implies self@.rank[self.order@[k] as int]
                == self.rank@[self.order@[k] as int] as nat by {}
            assert forall|j: int| 0 <= j < self@.len() implies self@.rank[j] < self@.len() && self.order@[self@.rank[j] as int] == j by {
                assert(self@.rank[j] == self.rank@[j] as nat);
            }
        }
        self.order.as_slice()
    }

    /// The members of entry `i`, if it is a group.
    pub fn members_of(&self, i: usize) -> (r: &[usize])
        requires
            i < self@.len(),
        ensures
            r@ == self@.members(i as int),
    {
        match self.i.get_info(i) {
            Some(info) => match &info.kind {
                InfoKind::Group(g) => g.members.as_slice(),
                _ => &[],
            },
            None => &[],
        }
    }

    /// Whether entry `i` is a group.
    pub fn is_group(&self, i: usize) -> (r: bool)
        requires
            i < self@.len(),
        ensures
            r == self@.is_group(i as int),
    {
        match self.i.get_info(i) {
            Some(info) => matches!(info.kind, InfoKind::Group(_)),
            None => false,
        }
    }

    /// The first member of entry `i` that `res` leaves unmarked.
    fn unmarked_member(&self, i: usize, res: &Vec<bool>) -> (r: Option<usize>)
        requires
            self.inv(),
            i < self@.len(),
            res@.len() == self@.len(),
        ensures
            r is None ==> forall|k: int|
                0 <= k < self@.members(i as int).len() ==> res@[self@.members(i as int)[k] as int],
            r is Some ==> !res@[r->0 as int] && r->0 < self@.len() && exists|k: int|
                0 <= k < self@.members(i as int).len() && self@.members(i as int)[k] == r->0,
    {
        let members = self.members_of(i);
        proof {
            assert(self@.refs_ok_at(i as int));
        }
        let mut k: usize = 0;
        while k < members.len()
            invariant
                members@ == self@.members(i as int),
                res@.len() == self@.len(),
                self@.refs_ok_at(i as int),
                k <= members@.len(),
                forall|q: int| 0 <= q < k ==> res@[members@[q] as int],
            decreases members@.len() - k,
        {
            let m = members[k];
            if !res[m] {
                return Some(m);
            }
            k = k + 1;
        }
        None
    }

    /// A group and a member of it on a cycle, found by following unresolved
    /// members from `start` until an entry comes back.
    fn find_cycle(&self, res: &Vec<bool>, start: usize) -> (r: (usize, usize))
        requires
            self.inv(),
            res@.len() == self@.len(),
            start < self@.len(),
            !res@[start as int],
            forall|j: int|
                0 <= j < self@.len() && !res@[j] ==> #[trigger] waits_on_member(self@, res@, j),
        ensures
            r.0 < self@.len(),
            r.1 < self@.len(),
            is_member(self@, r.0 as int, r.1 as int),
            leads_to(self@, r.1 as int, r.0 as int),
    {
        let ghost v = self@;
        let n = self.i.len();
        let mut on: Vec<bool> = Vec::new();
        while on.len() < n
            invariant
                on@.len() <= n,
                forall|j: int| 0 <= j < on@.len() ==> !on@[j],
            decreases n - on@.len(),
        {
            on.push(false);
        }
        proof {
            lemma_marked_zero(on@);
            lemma_marked_set(on@, start as int);
        }
        on.set(start, true);
        let mut path: Vec<usize> = Vec::new();
        path.push(start);
        proof {
            assert forall|x: int| 0 <= x < n && on@[x] implies #[trigger] path@.contains(x as usize) by {
                assert(x == start as int);
                assert(path@[0] == start);
            }
        }
        loop
            invariant
                v == self@,
                self.inv(),
                n == v.len(),
                res@.len() == n,
                on@.len() == n,
                forall|j: int| 0 <= j < n && !res@[j] ==> #[trigger] waits_on_member(v, res@, j),
                path@.len() >= 1,
                path@.len() == marked(on@),
                forall|t: int|
                    0 <= t < path@.len() ==> path@[t] < n && !res@[path@[t] as int] && on@[path@[t] as int],
                forall|x: int| 0 <= x < n && on@[x] ==> #[trigger] path@.contains(x as usize),
                is_chain(v, path@),
            decreases n - path@.len(),
        {
            let cur = path[path.len() - 1];
            proof {
                assert(waits_on_member(v, res@, cur as int));
            }
            let m = match self.unmarked_member(cur, res) {
                Some(m) => m,
                None => {
                    proof {
                        let k = choose|k: int|
                            0 <= k < v.members(cur as int).len() && !res@[v.members(cur as int)[k] as int];
                    }
                    0
                },
            };
            if on[m] {
                proof {
                    assert(on@[m as int]);
                    assert(path@.contains((m as int) as usize));
                }
                let plen = path.len();
                let mut j: usize = 0;
                while path[j] != m
                    invariant
                        plen == path@.len(),
                        j < plen,
                        path@.contains(m),
                        forall|t: int| 0 <= t < j ==> path@[t] != m,
                    decreases path@.len() - j,
                {
                    proof {
                        let q = choose|q: int| 0 <= q < path@.len() && path@[q] == m;
                        assert(q > j);
                    }
                    j = j + 1;
                }
                proof {
                    let tail = path@.subrange(j as int, path@.len() as int);
                    assert forall|t: int| 0 <= t < tail.len() - 1 implies #[trigger] is_member(
                        v,
                        tail[t] as int,
                        tail[t + 1] as int,
                    ) by {
                        assert(tail[t] == path@[j + t]);
                        assert(tail[t + 1] == path@[j + t + 1]);
                        assert(is_member(v, path@[j + t] as int, path@[j + t + 1] as int));
                    }
                    assert(is_chain(v, tail));
                    assert(tail[0] == m);
                    assert(tail[tail.len() - 1] == cur);
                }
                return (cur, m);
            }
            let ghost p0 = path@;
            proof {
                lemma_marked_set(on@, m as int);
            }
            on.set(m, true);
            path.push(m);
            proof {
                lemma_marked_bound(on@);
                assert forall|t: int| 0 <= t < path@.len() - 1 implies #[trigger] is_member(
                    v,
                    path@[t] as int,
                    path@[t + 1] as int,
                ) by {
                    if t < p0.len() - 1 {
                        assert(is_member(v, p0[t] as int, p0[t + 1] as int));
                    }
                }
                assert forall|x: int| 0 <= x < n && on@[x] implies #[trigger] path@.contains(
                    x as usize,
                ) by {
                    if x != m {
                        assert(p0.contains(x as usize));
                        let q = choose|q: int| 0 <= q < p0.len() && p0[q] == x as usize;
                        assert(path@[q] == x as usize);
                    } else {
                        assert(path@[p0.len() as int] == m);
                    }
                }
            }
        }
    }

    /// The index of the first entry that was named but never defined.
    fn first_undefined(&self) -> (r: Option<usize>)
        ensures
            r is None ==> self@.all_defined(),
            r is Some ==> r->0 < self@.len() && !self@.entries[r->0 as int].is_defined(),
    {
        let mut k: usize = 0;
        while k < self.i.len()
            invariant
                k <= self@.len(),
                forall|j: int| 0 <= j < k ==> self@.entries[j].is_defined(),
            decreases self@.len() - k,
        {
            if !self.i.is_defined(k) {
                return Some(k);
            }
            k = k + 1;
        }
        None
    }

    /// Makes a complete schema without circular groups ready for validation
    /// passes; from then on it is read only. An entry that was named but not
    /// defined, or a group that contains itself, is a fault of the schema's
    /// author: [`Schema::try_finish`] finds either.
    pub fn finish(self) -> (r: Schema)
        requires
            self.inv(),
            self@.all_defined(),
            self@.acyclic(),
        ensures
            r.ready(),
            r@.entries == self@.entries,
    {
        match self.try_finish() {
            Ok(s) => s,
            Err(_) => {
                proof {
                    assert(false);
                }
                Schema::new()
            },
        }
    }

    /// Whether the schema is ready for validation passes.
    pub fn is_ready(&self) -> (r: bool)
        ensures
            self.inv() ==> (r == self.ready()),
    {
        self.ready
    }

    /// Whether `name` was defined, as an argument or as a group.
    pub fn defines(&self, name: &str) -> (r: bool)
        requires
            self.inv(),
        ensures
            r == defined_name(self@.entries, name@),
    {
        match self.i.get(name) {
            Some(i) => {
                proof {
                    assert forall|j: int| 0 <= j < self@.len() && self@.entries[j].name == name@ implies j == i by {
                        assert(names_unique(self@.entries));
                    }
                }
                self.i.is_defined(i)
            },
            None => false,
        }
    }

    /// Checks that the schema is complete and free of circular groups, and
    /// if so makes it ready for validation passes. An entry that was named
    /// but not defined, or a group that contains itself through its members,
    /// is reported: the cycle by a group and a member on it.
    pub fn try_finish(self) -> (r: Result<Schema, SchemaError>)
        requires
            self.inv(),
        ensures
            r is Ok <==> self@.all_defined() && self@.acyclic(),
            r is Ok ==> r->Ok_0.ready() && r->Ok_0@.entries == self@.entries,
            r is Err ==> match r->Err_0 {
                SchemaError::MissingDefinition { name } => exists|j: int|
                    0 <= j < self@.len() && !self@.entries[j].is_defined() && self@.entries[j].name
                        == name@,
                SchemaError::CircularGroups { group, member } => {
                    &&& self@.all_defined()
                    &&& exists|g: int, m: int|
                        0 <= g < self@.len() && 0 <= m < self@.len() && is_member(self@, g, m)
                            && leads_to(self@, m, g) && self@.entries[g].name == group@
                            && self@.entries[m].name == member@
                },
            },
    {
        if let Some(j) = self.first_undefined() {
            return Err(SchemaError::MissingDefinition { name: self.i.id(j).to_string() });
        }
        let n = self.i.len();
        let mut res: Vec<bool> = Vec::new();
        let mut rank: Vec<usize> = Vec::new();
        while res.len() < n
            invariant
                res@.len() == rank@.len(),
                res@.len() <= n,
                forall|j: int| 0 <= j < res@.len() ==> !res@[j],
            decreases n - res@.len(),
        {
            res.push(false);
            rank.push(0);
        }
        proof {
            lemma_marked_zero(res@);
        }
        let mut order: Vec<usize> = Vec::new();
        let ghost v = self@;
        while order.len() < n
            invariant
                v == self@,
                self.inv(),
                v.all_defined(),
                n == v.len(),
                res@.len() == n,
                rank@.len() == n,
                order@.len() == marked(res@),
                forall|k: int|
                    0 <= k < order@.len() ==> order@[k] < n && res@[order@[k] as int] && rank@[order@[k] as int] == k,
                forall|j: int| 0 <= j < n && res@[j] ==> rank@[j] < order@.len() && order@[rank@[j] as int] == j,
                forall|j: int, k: int|
                    0 <= j < n && res@[j] && 0 <= k < v.members(j).len() ==> res@[v.members(j)[k] as int]
                        && rank@[v.members(j)[k] as int] < rank@[j],
            decreases n - order@.len(),
        {
            let start = order.len();
            let ghost res0 = res@;
            let mut found = false;
            let mut wg: usize = 0;
            let mut wm: usize = 0;
            let mut i: usize = 0;
            while i < n
                invariant
                    v == self@,
                    self.inv(),
                    n == v.len(),
                    res@.len() == n,
                    rank@.len() == n,
                    order@.len() == marked(res@),
                    start <= order@.len(),
                    i <= n,
                    forall|k: int|
                        0 <= k < order@.len() ==> order@[k] < n && res@[order@[k] as int] && rank@[order@[k] as int] == k,
                    forall|j: int| 0 <= j < n && res@[j] ==> rank@[j] < order@.len() && order@[rank@[j] as int] == j,
                    forall|j: int, k: int|
                        0 <= j < n && res@[j] && 0 <= k < v.members(j).len() ==> res@[v.members(j)[k] as int]
                            && rank@[v.members(j)[k] as int] < rank@[j],
                    order@.len() == start ==> res@ == res0,
                    order@.len() == start ==> forall|j: int|
                        0 <= j < i && !res@[j] ==> #[trigger] waits_on_member(v, res@, j),
                    order@.len() == start ==> (found <==> exists|j: int| 0 <= j < i && !res@[j]),
                    found ==> wg < n && wm < n && is_member(v, wg as int, wm as int),
                    order@.len() == start && found ==> !res@[wg as int] && !res@[wm as int],
                decreases n - i,
            {
                if !res[i] {
                    match self.unmarked_member(i, &res) {
                        None => {
                            let ghost res1 = res@;
                            let ghost order1 = order@;
                            proof {
                                lemma_marked_set(res@, i as int);
                                lemma_marked_bound(res@.update(i as int, true));
                                assert(v.refs_ok_at(i as int));
                            }
                            res.set(i, true);
                            rank.set(i, order.len());
                            order.push(i);
                            proof {
                                assert forall|j: int, k: int|
                                    0 <= j < n && res@[j] && 0 <= k < v.members(j).len() implies res@[v.members(j)[k] as int]
                                        && rank@[v.members(j)[k] as int] < rank@[j] by {
                                    assert(v.refs_ok_at(j));
                                    if j != i {
                                        assert(res1[j]);
                                        assert(res1[v.members(j)[k] as int]);
                                    }
                                }
                                assert forall|k: int| 0 <= k < order@.len() implies order@[k] < n && res@[order@[k] as int] && rank@[order@[k] as int] == k by {
                                    if k < order1.len() {
                                        assert(order@[k] == order1[k]);
                                    }
                                }
                            }
                        },
                        Some(m) => {
                            if !found {
                                found = true;
                                wg = i;
                                wm = m;
                            }
                            proof {
                                assert(waits_on_member(v, res@, i as int));
                            }
                        },
                    }
                }
                i = i + 1;
            }
            proof {
                lemma_marked_bound(res@);
            }
            if order.len() == start {
                proof {
                    lemma_marked_bound(res@);
                    let j0 = choose|j: int| 0 <= j < n && !res@[j];
                    lemma_stuck_not_acyclic(v, res@, j0);
                }
                assert(found);
                let (g, m) = self.find_cycle(&res, wg);
                return Err(
                    SchemaError::CircularGroups {
                        group: self.i.id(g).to_string(),
                        member: self.i.id(m).to_string(),
                    },
                );
            }
        }
        let mut s = self;
        s.ready = false;
        s.rank = rank;
        s.order = order;
        proof {
            lemma_marked_bound(res@);
            assert forall|x: int| 0 <= x < n implies s@.rank[x] == s.rank@[x] as nat by {}
            assert forall|g: int, k: int|
                0 <= g < s@.len() && 0 <= k < s@.members(g).len() implies #[trigger] s@.rank[s@.members(g)[k] as int] < s@.rank[g] by {
                assert(s@.entries == v.entries);
                assert(s@.members(g) == v.members(g));
                assert(v.refs_ok_at(g));
                assert(res@[g]);
                let m = s@.members(g)[k] as int;
                assert(0 <= m < n);
                assert(rank@[m] < rank@[g]);
                assert(s@.rank[m] == s.rank@[m] as nat);
                assert(s@.rank[g] == s.rank@[g] as nat);
            }
            assert(s@.ranked_by(s@.rank));
            assert(s@.entries == v.entries);
            assert(forall|g: int| #![auto] s@.members(g) == v.members(g));
            assert(v.ranked_by(s@.rank));
            assert forall|x: int| 0 <= x < n implies #[trigger] s@.refs_ok_at(x) by {
                assert(v.refs_ok_at(x));
                assert(s@.members(x) == v.members(x));
                assert(s@.entries[x] == v.entries[x]);
            }
            assert forall|j: int| 0 <= j < n implies s.rank@[j] < n && s.order@[s.rank@[j] as int] == j by {
                assert(res@[j]);
            }
            assert(s.inv());
        }
        s.compute_flat();
        Ok(s)
    }

    /// A handle on the group named `id`. Asking for a group by a name that
    /// is not a group's is a fault of the caller, which [`Schema::i`] and
    /// [`Schema::is_group`] let it rule out.
    pub fn init_group(&self, id: &str) -> (r: Group)
        requires
            self.inv(),
            exists|j: int| 0 <= j < self@.len() && self@.entries[j].name == id@ && self@.is_group(j),
        ensures
            r.index() < self@.len(),
            self@.entries[r.index() as int].name == id@,
            self@.is_group(r.index() as int),
    {
        let found = self.i.get(id);
        let i = match found {
            Some(i) => i,
            None => 0,
        };
        proof {
            let j = choose|j: int| 0 <= j < self@.len() && self@.entries[j].name == id@ && self@.is_group(j);
            assert(names_unique(self@.entries));
            assert(i == j);
        }
        Group { i }
    }

    /// Fills the flattened argument list of every entry, each group after
    /// its members, and marks the schema ready.
    fn compute_flat(&mut self)
        requires
            old(self).inv(),
            old(self)@.all_defined(),
            old(self)@.ranked_by(old(self)@.rank),
            old(self).rank@.len() == old(self)@.len(),
            old(self).order@.len() == old(self)@.len(),
            forall|k: int|
                0 <= k < old(self)@.len() ==> old(self).order@[k] < old(self)@.len()
                    && old(self).rank@[old(self).order@[k] as int] == k,
            forall|j: int|
                0 <= j < old(self)@.len() ==> old(self).rank@[j] < old(self)@.len()
                    && old(self).order@[old(self).rank@[j] as int] == j,
        ensures
            final(self).ready(),
            final(self)@ == old(self)@,
    {
        let n = self.i.len();
        let ghost v = self@;
        let mut flat: Vec<Vec<usize>> = Vec::new();
        while flat.len() < n
            invariant
                flat@.len() <= n,
            decreases n - flat@.len(),
        {
            flat.push(Vec::new());
        }
        let mut k: usize = 0;
        while k < n
            invariant
                v == self@,
                self.inv(),
                n == v.len(),
                v.ranked_by(v.rank),
                self.rank@.len() == n,
                self.order@.len() == n,
                forall|q: int| 0 <= q < n ==> self.order@[q] < n && self.rank@[self.order@[q] as int] == q,
                forall|j: int| 0 <= j < n ==> self.rank@[j] < n && self.order@[self.rank@[j] as int] == j,
                flat@.len() == n,
                k <= n,
                forall|j: int| 0 <= j < n && self.rank@[j] < k ==> (#[trigger] flat@[j])@ == v.flat(j),
            decreases n - k,
        {
            let i = self.order[k];
            let members = self.members_of(i);
            proof {
                assert(v.refs_ok_at(i as int));
            }
            let mut out: Vec<usize> = Vec::new();
            if self.is_group(i) {
                let mut p: usize = 0;
                while p < members.len()
                    invariant
                        v == self@,
                        members@ == v.members(i as int),
                        i < n,
                        v.is_group(i as int),
                        v.ranked_by(v.rank),
                        v.refs_ok_at(i as int),
                        self.rank@.len() == n,
                        self.rank@[i as int] == k,
                        flat@.len() == n,
                        forall|j: int| 0 <= j < n && self.rank@[j] < k ==> (#[trigger] flat@[j])@ == v.flat(j),
                        p <= members@.len(),
                        out@ == v.flat_members(i as int, p as int),
                    decreases members@.len() - p,
                {
                    let m = members[p];
                    proof {
                        assert(v.rank[m as int] < v.rank[i as int]);
                    }
                    let src = &flat[m];
                    let mut q: usize = 0;
                    let ghost base = out@;
                    while q < src.len()
                        invariant
                            out@ == base + src@.take(q as int),
                            q <= src@.len(),
                        decreases src@.len() - q,
                    {
                        out.push(src[q]);
                        proof {
                            assert(src@.take(q + 1) == src@.take(q as int).push(src@[q as int]));
                        }
                        q = q + 1;
                    }
                    proof {
                        assert(src@.take(q as int) =~= src@);
                    }
                    p = p + 1;
                }
            } else {
                out.push(i);
                proof {
                    assert(out@ =~= seq![i]);
                }
            }
            proof {
                assert(out@ == v.flat(i as int));
                assert(v.rank[i as int] == self.rank@[i as int] as nat);
            }
            let ghost flat0 = flat@;
            flat.set(i, out);
            proof {
                assert forall|j: int| 0 <= j < n && self.rank@[j] < k + 1 implies (#[trigger] flat@[j])@ == v.flat(j) by {
                    if j != i {
                        assert(flat@[j] == flat0[j]);
                        if self.rank@[j] == k {
                            assert(self.order@[self.rank@[j] as int] == j);
                        }
                    }
                }
            }
            k = k + 1;
        }
        self.flat = flat;
        self.ready = true;
        proof {
            assert forall|j: int| 0 <= j < n implies (#[trigger] self.flat@[j])@ == self@.flat(j) by {
                assert(self.rank@[j] < n);
            }
        }
    }
}

} // verus!
