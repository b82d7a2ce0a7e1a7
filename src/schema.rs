use vstd::prelude::*;
use vstd::string::*;

use crate::id::{ids_view, Id};

verus! {

/// How the value of an argument is written.
#[derive(Clone, Copy, Debug, PartialEq, Eq, Structural)]
pub enum ArgKind {
    /// An expression after `=` or in parentheses.
    Expr,
    /// A boolean flag; the bare name means `true`.
    Flag,
    /// A block of raw tokens.
    TokenTree,
    /// A marker that asks for help.
    Help,
}

impl Default for ArgKind {
    fn default() -> (r: ArgKind)
        ensures
            r == ArgKind::TokenTree,
    {
        ArgKind::TokenTree
    }
}

/// How many occurrences an argument may have in one pass.
#[derive(Clone, Copy, Debug, PartialEq, Eq, Structural)]
pub enum ArgAction {
    /// At most one occurrence; each further one is a duplicate value.
    Single,
    /// Any number of occurrences.
    Append,
}

/// How the value of an argument is read: its kind, and whether it may be
/// left out after the name.
#[derive(Clone, Copy, Debug, PartialEq, Eq, Structural)]
pub struct ArgAttrs {
    pub kind: ArgKind,
    pub optional: bool,
}

/// Attributes of a token-block value that must be given.
pub fn new_attrs() -> (r: ArgAttrs)
    ensures
        r == (ArgAttrs { kind: ArgKind::TokenTree, optional: false }),
{
    ArgAttrs { kind: ArgKind::TokenTree, optional: false }
}

impl ArgAttrs {
    pub fn kind(&mut self, kind: ArgKind) -> (r: &mut Self)
        ensures
            *final(self) == *final(r),
            *r == (ArgAttrs { kind, ..*old(self) }),
    {
        self.kind = kind;
        self
    }

    pub fn is_expr(&mut self) -> (r: &mut Self)
        ensures
            *final(self) == *final(r),
            *r == (ArgAttrs { kind: ArgKind::Expr, ..*old(self) }),
    {
        self.kind(ArgKind::Expr)
    }

    pub fn is_flag(&mut self) -> (r: &mut Self)
        ensures
            *final(self) == *final(r),
            *r == (ArgAttrs { kind: ArgKind::Flag, ..*old(self) }),
    {
        self.kind(ArgKind::Flag)
    }

    pub fn is_token_tree(&mut self) -> (r: &mut Self)
        ensures
            *final(self) == *final(r),
            *r == (ArgAttrs { kind: ArgKind::TokenTree, ..*old(self) }),
    {
        self.kind(ArgKind::TokenTree)
    }

    pub fn is_help(&mut self) -> (r: &mut Self)
        ensures
            *final(self) == *final(r),
            *r == (ArgAttrs { kind: ArgKind::Help, ..*old(self) }),
    {
        self.kind(ArgKind::Help)
    }

    pub fn optional(&mut self) -> (r: &mut Self)
        ensures
            *final(self) == *final(r),
            *r == (ArgAttrs { optional: true, ..*old(self) }),
    {
        self.optional = true;
        self
    }

    pub fn get_kind(&self) -> (r: ArgKind)
        ensures
            r == self.kind,
    {
        self.kind
    }

    pub fn get_optional(&self) -> (r: bool)
        ensures
            r == self.optional,
    {
        self.optional
    }
}

pub uninterp spec fn trimmed(s: Seq<char>) -> Seq<char>;

/// Relies on `str::trim`: the text without its leading and trailing white space.
#[verifier::external_body]
fn trim(s: &str) -> (r: &str)
    ensures
        r@ == trimmed(s@),
{
    s.trim()
}

/// The declaration of an argument: its value kind, its action, whether it is
/// required, and its `requires` and `conflicts-with` edges by name.
pub struct ArgSchema {
    pub kind: ArgKind,
    pub help: String,
    pub action: ArgAction,
    pub required: bool,
    pub optional: bool,
    pub requirements: Vec<Id>,
    pub conflicts_with: Vec<Id>,
}

/// The declaration of a group: its members by name, whether several members
/// may be given together, whether it is required, and its edges by name.
pub struct GroupSchema {
    pub members: Vec<Id>,
    pub multiple: bool,
    pub required: bool,
    pub requirements: Vec<Id>,
    pub conflicts_with: Vec<Id>,
}

/// `v` with the names of `names` appended, as ids.
fn push_ids(v: &mut Vec<Id>, names: &[&str])
    ensures
        ids_view(final(v)@) == ids_view(old(v)@) + names@.map_values(|s: &str| s@),
{
    let ghost start = ids_view(v@);
    let mut k: usize = 0;
    while k < names.len()
        invariant
            k <= names@.len(),
            ids_view(v@) == start + names@.take(k as int).map_values(|s: &str| s@),
        decreases names@.len() - k,
    {
        let ghost before = v@;
        v.push(Id::new(names[k]));
        proof {
            assert(names@.take(k + 1) == names@.take(k as int).push(names@[k as int]));
            assert(ids_view(v@) =~= ids_view(before).push(names@[k as int]@));
        }
        assert(ids_view(v@) =~= start + names@.take(k + 1).map_values(|s: &str| s@));
        k = k + 1;
    }
    assert(names@.take(k as int) =~= names@);
}

impl ArgSchema {
    /// A single-valued, optional argument whose value is a token block.
    pub fn new() -> (r: ArgSchema)
        ensures
            r.kind == ArgKind::TokenTree,
            r.help@ == Seq::<char>::empty(),
            r.action == ArgAction::Single,
            !r.required,
            !r.optional,
            r.requirements@.len() == 0,
            r.conflicts_with@.len() == 0,
    {
        ArgSchema {
            kind: ArgKind::TokenTree,
            help: String::new(),
            action: ArgAction::Single,
            required: false,
            optional: false,
            requirements: Vec::new(),
            conflicts_with: Vec::new(),
        }
    }

    pub fn kind(&mut self, kind: ArgKind) -> (r: &mut Self)
        ensures
            *final(self) == *final(r),
            *r == (ArgSchema { kind, ..*old(self) }),
    {
        self.kind = kind;
        self
    }

    pub fn is_expr(&mut self) -> (r: &mut Self)
        ensures
            *final(self) == *final(r),
            *r == (ArgSchema { kind: ArgKind::Expr, ..*old(self) }),
    {
        self.kind(ArgKind::Expr)
    }

    pub fn is_flag(&mut self) -> (r: &mut Self)
        ensures
            *final(self) == *final(r),
            *r == (ArgSchema { kind: ArgKind::Flag, ..*old(self) }),
    {
        self.kind(ArgKind::Flag)
    }

    pub fn is_token_tree(&mut self) -> (r: &mut Self)
        ensures
            *final(self) == *final(r),
            *r == (ArgSchema { kind: ArgKind::TokenTree, ..*old(self) }),
    {
        self.kind(ArgKind::TokenTree)
    }

    pub fn is_help(&mut self) -> (r: &mut Self)
        ensures
            *final(self) == *final(r),
            *r == (ArgSchema { kind: ArgKind::Help, ..*old(self) }),
    {
        self.kind(ArgKind::Help)
    }

    /// Appends a line of help, without its surrounding white space.
    pub fn help(&mut self, help: &str) -> (r: &mut Self)
        ensures
            *final(self) == *final(r),
            r.help@ == old(self).help@ + trimmed(help@),
            r.kind == old(self).kind,
            r.action == old(self).action,
            r.required == old(self).required,
            r.optional == old(self).optional,
            r.requirements == old(self).requirements,
            r.conflicts_with == old(self).conflicts_with,
    {
        self.help.append(trim(help));
        self
    }

    /// How the value is read.
    pub fn attrs(&self) -> (r: ArgAttrs)
        ensures
            r == (ArgAttrs { kind: self.kind, optional: self.optional }),
    {
        ArgAttrs { kind: self.kind, optional: self.optional }
    }

    pub fn action(&mut self, action: ArgAction) -> (r: &mut Self)
        ensures
            *final(self) == *final(r),
            *r == (ArgSchema { action, ..*old(self) }),
    {
        self.action = action;
        self
    }

    /// Allows any number of occurrences.
    pub fn multiple(&mut self) -> (r: &mut Self)
        ensures
            *final(self) == *final(r),
            *r == (ArgSchema { action: ArgAction::Append, ..*old(self) }),
    {
        self.action(ArgAction::Append)
    }

    pub fn required(&mut self) -> (r: &mut Self)
        ensures
            *final(self) == *final(r),
            *r == (ArgSchema { required: true, ..*old(self) }),
    {
        self.required = true;
        self
    }

    /// The value may be left out after the name.
    pub fn optional(&mut self) -> (r: &mut Self)
        ensures
            *final(self) == *final(r),
            *r == (ArgSchema { optional: true, ..*old(self) }),
    {
        self.optional = true;
        self
    }

    pub fn require(&mut self, id: &str) -> (r: &mut Self)
        ensures
            *final(self) == *final(r),
            ids_view(r.requirements@) == ids_view(old(self).requirements@).push(id@),
            r.kind == old(self).kind,
            r.help == old(self).help,
            r.action == old(self).action,
            r.required == old(self).required,
            r.optional == old(self).optional,
            r.conflicts_with == old(self).conflicts_with,
    {
        self.requirements.push(Id::new(id));
        assert(ids_view(self.requirements@) =~= ids_view(old(self).requirements@).push(id@));
        self
    }

    pub fn requires_all(&mut self, ids: &[&str]) -> (r: &mut Self)
        ensures
            *final(self) == *final(r),
            ids_view(r.requirements@) == ids_view(old(self).requirements@) + ids@.map_values(
                |s: &str| s@,
            ),
            r.kind == old(self).kind,
            r.help == old(self).help,
            r.action == old(self).action,
            r.required == old(self).required,
            r.optional == old(self).optional,
            r.conflicts_with == old(self).conflicts_with,
    {
        push_ids(&mut self.requirements, ids);
        self
    }

    pub fn conflicts_with(&mut self, id: &str) -> (r: &mut Self)
        ensures
            *final(self) == *final(r),
            ids_view(r.conflicts_with@) == ids_view(old(self).conflicts_with@).push(id@),
            r.kind == old(self).kind,
            r.help == old(self).help,
            r.action == old(self).action,
            r.required == old(self).required,
            r.optional == old(self).optional,
            r.requirements == old(self).requirements,
    {
        self.conflicts_with.push(Id::new(id));
        assert(ids_view(self.conflicts_with@) =~= ids_view(old(self).conflicts_with@).push(id@));
        self
    }

    pub fn conflicts_with_all(&mut self, ids: &[&str]) -> (r: &mut Self)
        ensures
            *final(self) == *final(r),
            ids_view(r.conflicts_with@) == ids_view(old(self).conflicts_with@)
                + ids@.map_values(|s: &str| s@),
            r.kind == old(self).kind,
            r.help == old(self).help,
            r.action == old(self).action,
            r.required == old(self).required,
            r.optional == old(self).optional,
            r.requirements == old(self).requirements,
    {
        push_ids(&mut self.conflicts_with, ids);
        self
    }
}

impl GroupSchema {
    /// An exclusive, optional group without members.
    pub fn new() -> (r: GroupSchema)
        ensures
            r.members@.len() == 0,
            !r.multiple,
            !r.required,
            r.requirements@.len() == 0,
            r.conflicts_with@.len() == 0,
    {
        GroupSchema {
            members: Vec::new(),
            multiple: false,
            required: false,
            requirements: Vec::new(),
            conflicts_with: Vec::new(),
        }
    }

    /// Groups carry no help of their own: the text is dropped.
    pub fn help(&mut self, _help: &str) -> (r: &mut Self)
        ensures
            *final(self) == *final(r),
            *r == *old(self),
    {
        self
    }

    pub fn member(&mut self, id: &str) -> (r: &mut Self)
        ensures
            *final(self) == *final(r),
            ids_view(r.members@) == ids_view(old(self).members@).push(id@),
            r.multiple == old(self).multiple,
            r.required == old(self).required,
            r.requirements == old(self).requirements,
            r.conflicts_with == old(self).conflicts_with,
    {
        self.members.push(Id::new(id));
        assert(ids_view(self.members@) =~= ids_view(old(self).members@).push(id@));
        self
    }

    pub fn member_all(&mut self, ids: &[&str]) -> (r: &mut Self)
        ensures
            *final(self) == *final(r),
            ids_view(r.members@) == ids_view(old(self).members@) + ids@.map_values(
                |s: &str| s@,
            ),
            r.multiple == old(self).multiple,
            r.required == old(self).required,
            r.requirements == old(self).requirements,
            r.conflicts_with == old(self).conflicts_with,
    {
        push_ids(&mut self.members, ids);
        self
    }

    /// Lets several members be given in one pass.
    pub fn multiple(&mut self) -> (r: &mut Self)
        ensures
            *final(self) == *final(r),
            *r == (GroupSchema { multiple: true, ..*old(self) }),
    {
        self.multiple = true;
        self
    }

    pub fn required(&mut self) -> (r: &mut Self)
        ensures
            *final(self) == *final(r),
            *r == (GroupSchema { required: true, ..*old(self) }),
    {
        self.required = true;
        self
    }

    pub fn require(&mut self, id: &str) -> (r: &mut Self)
        ensures
            *final(self) == *final(r),
            ids_view(r.requirements@) == ids_view(old(self).requirements@).push(id@),
            r.members == old(self).members,
            r.multiple == old(self).multiple,
            r.required == old(self).required,
            r.conflicts_with == old(self).conflicts_with,
    {
        self.requirements.push(Id::new(id));
        assert(ids_view(self.requirements@) =~= ids_view(old(self).requirements@).push(id@));
        self
    }

    pub fn requires_all(&mut self, ids: &[&str]) -> (r: &mut Self)
        ensures
            *final(self) == *final(r),
            ids_view(r.requirements@) == ids_view(old(self).requirements@) + ids@.map_values(
                |s: &str| s@,
            ),
            r.members == old(self).members,
            r.multiple == old(self).multiple,
            r.required == old(self).required,
            r.conflicts_with == old(self).conflicts_with,
    {
        push_ids(&mut self.requirements, ids);
        self
    }

    pub fn conflicts_with(&mut self, id: &str) -> (r: &mut Self)
        ensures
            *final(self) == *final(r),
            ids_view(r.conflicts_with@) == ids_view(old(self).conflicts_with@).push(id@),
            r.members == old(self).members,
            r.multiple == old(self).multiple,
            r.required == old(self).required,
            r.requirements == old(self).requirements,
    {
        self.conflicts_with.push(Id::new(id));
        assert(ids_view(self.conflicts_with@) =~= ids_view(old(self).conflicts_with@).push(id@));
        self
    }

    pub fn conflicts_with_all(&mut self, ids: &[&str]) -> (r: &mut Self)
        ensures
            *final(self) == *final(r),
            ids_view(r.conflicts_with@) == ids_view(old(self).conflicts_with@)
                + ids@.map_values(|s: &str| s@),
            r.members == old(self).members,
            r.multiple == old(self).multiple,
            r.required == old(self).required,
            r.requirements == old(self).requirements,
    {
        push_ids(&mut self.conflicts_with, ids);
        self
    }
}

} // verus!
