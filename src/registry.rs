use vstd::prelude::*;
use vstd::string::*;

use crate::id::{ids_view, Id};
use crate::schema::{ArgAction, ArgKind};

verus! {

/// What an entry has been defined as.
pub enum EntryKindView {
    /// Named by some declaration, not defined yet.
    Undefined,
    Arg { kind: ArgKind, action: ArgAction, optional: bool, help: Seq<char> },
    Group { members: Seq<usize>, multiple: bool },
}

/// An entry of the table, with its relation edges as indices.
pub struct EntryView {
    pub name: Seq<char>,
    pub kind: EntryKindView,
    pub required: bool,
    pub requires: Seq<usize>,
    pub conflicts: Seq<usize>,
}

impl EntryView {
    pub open spec fn undefined(name: Seq<char>) -> EntryView {
        EntryView {
            name,
            kind: EntryKindView::Undefined,
            required: false,
            requires: Seq::empty(),
            conflicts: Seq::empty(),
        }
    }

    pub open spec fn is_defined(self) -> bool {
        !(self.kind is Undefined)
    }
}

/// The names of `idx` in `entries`.
pub open spec fn names_of(entries: Seq<EntryView>, idx: Seq<usize>) -> Seq<Seq<char>> {
    idx.map_values(|j: usize| entries[j as int].name)
}

/// No name occurs twice.
pub open spec fn names_unique(entries: Seq<EntryView>) -> bool {
    forall|a: int, b: int|
        0 <= a < entries.len() && 0 <= b < entries.len() && a != b ==> entries[a].name
            != entries[b].name
}

/// `new` holds `old`, followed by entries that were only named.
pub open spec fn extends(new: Seq<EntryView>, old: Seq<EntryView>) -> bool {
    &&& old.len() <= new.len()
    &&& new.take(old.len() as int) == old
    &&& forall|j: int| old.len() <= j < new.len() ==> new[j] == EntryView::undefined(new[j].name)
}

/// Where `name` stands in `entries`, if it does.
pub open spec fn holds_name(entries: Seq<EntryView>, name: Seq<char>) -> bool {
    exists|j: int| 0 <= j < entries.len() && entries[j].name == name
}

/// What [`crate::graph::Schema::try_finish`] finds wrong with a schema.
/// Each one means the schema was written wrong; none is about user input.
#[derive(Debug)]
pub enum SchemaError {
    /// An entry was named by a relation or a group but never defined.
    MissingDefinition { name: String },
    /// Groups contain each other: `member` belongs to `group` and leads back to it.
    CircularGroups { group: String, member: String },
}

pub struct ArgInfo {
    pub kind: ArgKind,
    pub action: ArgAction,
    pub optional: bool,
    pub help: String,
}

pub struct GroupInfo {
    pub members: Vec<usize>,
    pub multiple: bool,
}

pub enum InfoKind {
    Unset,
    Arg(ArgInfo),
    Group(GroupInfo),
}

pub open spec fn kind_view(k: InfoKind) -> EntryKindView {
    match k {
        InfoKind::Unset => EntryKindView::Undefined,
        InfoKind::Arg(a) => EntryKindView::Arg {
            kind: a.kind,
            action: a.action,
            optional: a.optional,
            help: a.help@,
        },
        InfoKind::Group(g) => EntryKindView::Group { members: g.members@, multiple: g.multiple },
    }
}

/// An entry of the table.
pub struct Info {
    pub id: Id,
    pub kind: InfoKind,
    pub required: bool,
    pub requirements: Vec<usize>,
    pub conflicts: Vec<usize>,
}

impl View for Info {
    type V = EntryView;

    open spec fn view(&self) -> EntryView {
        EntryView {
            name: self.id@,
            kind: kind_view(self.kind),
            required: self.required,
            requires: self.requirements@,
            conflicts: self.conflicts@,
        }
    }
}

/// The table that interns entry names to indices, 0-based, in order of first
/// mention.
pub struct IdMap {
    infos: Vec<Info>,
}

impl View for IdMap {
    type V = Seq<EntryView>;

    closed spec fn view(&self) -> Seq<EntryView> {
        self.infos@.map_values(|i: Info| i@)
    }
}

impl IdMap {
    pub open spec fn inv(&self) -> bool {
        names_unique(self@)
    }

    pub fn new() -> (r: IdMap)
        ensures
            r@ == Seq::<EntryView>::empty(),
            r.inv(),
    {
        let r = IdMap { infos: Vec::new() };
        assert(r@ =~= Seq::<EntryView>::empty());
        r
    }

    pub fn len(&self) -> (r: usize)
        ensures
            r == self@.len(),
    {
        self.infos.len()
    }

    /// The index of `name`, if it was interned.
    pub fn get(&self, name: &str) -> (r: Option<usize>)
        requires
            self.inv(),
        ensures
            r is Some <==> holds_name(self@, name@),
            r is Some ==> r->0 < self@.len() && self@[r->0 as int].name == name@,
    {
        let target = String::from_str(name);
        let mut k: usize = 0;
        while k < self.infos.len()
            invariant
                k <= self.infos@.len(),
                target@ == name@,
                forall|j: int| 0 <= j < k ==> self@[j].name != name@,
            decreases self.infos@.len() - k,
        {
            if self.infos[k].id.is(&target) {
                return Some(k);
            }
            k = k + 1;
        }
        None
    }

    /// The index of `name`, interned now if it was not yet.
    pub fn of(&mut self, name: &str) -> (r: usize)
        requires
            old(self).inv(),
        ensures
            final(self).inv(),
            r < final(self)@.len(),
            final(self)@[r as int].name == name@,
            holds_name(old(self)@, name@) ==> final(self)@ == old(self)@,
            !holds_name(old(self)@, name@) ==> final(self)@ == old(self)@.push(
                EntryView::undefined(name@),
            ),
    {
        match self.get(name) {
            Some(i) => i,
            None => {
                let i = self.infos.len();
                let ghost before = self@;
                self.infos.push(
                    Info {
                        id: Id::new(name),
                        kind: InfoKind::Unset,
                        required: false,
                        requirements: Vec::new(),
                        conflicts: Vec::new(),
                    },
                );
                assert(self@ =~= before.push(EntryView::undefined(name@)));
                i
            },
        }
    }

    pub fn is_defined(&self, i: usize) -> (r: bool)
        requires
            i < self@.len(),
        ensures
            r == self@[i as int].is_defined(),
    {
        !matches!(self.infos[i].kind, InfoKind::Unset)
    }

    /// The name of entry `i`.
    pub fn id(&self, i: usize) -> (r: &Id)
        requires
            i < self@.len(),
        ensures
            r@ == self@[i as int].name,
    {
        &self.infos[i].id
    }

    pub fn get_info(&self, i: usize) -> (r: Option<&Info>)
        ensures
            r is Some <==> i < self@.len(),
            r is Some ==> r->0@ == self@[i as int],
    {
        if i < self.infos.len() {
            Some(&self.infos[i])
        } else {
            None
        }
    }

    /// Gives the undefined entry `i` its kind and relations. An entry is
    /// defined once: defining it again is a fault of the schema's author,
    /// which callers rule out beforehand.
    pub fn register(
        &mut self,
        i: usize,
        kind: InfoKind,
        required: bool,
        requirements: Vec<usize>,
        conflicts: Vec<usize>,
    )
        requires
            old(self).inv(),
            i < old(self)@.len(),
            !old(self)@[i as int].is_defined(),
            !(kind is Unset),
        ensures
            final(self).inv(),
            final(self)@ == old(self)@.update(
                i as int,
                EntryView {
                    name: old(self)@[i as int].name,
                    kind: kind_view(kind),
                    required,
                    requires: requirements@,
                    conflicts: conflicts@,
                },
            ),
    {
        let id = self.infos[i].id.duplicate();
        let ghost before = self@;
        let ghost e = EntryView {
            name: before[i as int].name,
            kind: kind_view(kind),
            required,
            requires: requirements@,
            conflicts: conflicts@,
        };
        self.infos.set(i, Info { id, kind, required, requirements, conflicts });
        assert(self@ =~= before.update(i as int, e));
    }
}

} // verus!
