use vstd::prelude::*;
use vstd::string::*;

verus! {

/// An owned piece of text: the name of an entry, a namespace or a help line.
pub struct Str {
    inner: String,
}

impl View for Str {
    type V = Seq<char>;

    closed spec fn view(&self) -> Seq<char> {
        self.inner@
    }
}

impl Str {
    pub fn new(s: &str) -> (r: Str)
        ensures
            r@ == s@,
    {
        Str { inner: String::from_str(s) }
    }

    pub fn as_str(&self) -> (r: &str)
        ensures
            r@ == self@,
    {
        self.inner.as_str()
    }

    /// Whether this text is `other`.
    pub fn is(&self, other: &String) -> (r: bool)
        ensures
            r == (self@ == other@),
    {
        self.inner == *other
    }

    pub fn duplicate(&self) -> (r: Str)
        ensures
            r@ == self@,
    {
        Str { inner: self.inner.clone() }
    }
}

/// The name of an argument or of a group, as the schema's author wrote it.
pub struct Id(Str);

impl View for Id {
    type V = Seq<char>;

    closed spec fn view(&self) -> Seq<char> {
        self.0@
    }
}

impl Id {
    pub fn new(name: &str) -> (r: Id)
        ensures
            r@ == name@,
    {
        Id(Str::new(name))
    }

    pub fn as_str(&self) -> (r: &str)
        ensures
            r@ == self@,
    {
        self.0.as_str()
    }

    /// Whether this is the name `other`.
    pub fn is(&self, other: &String) -> (r: bool)
        ensures
            r == (self@ == other@),
    {
        self.0.is(other)
    }

    pub fn to_string(&self) -> (r: String)
        ensures
            r@ == self@,
    {
        String::from_str(self.as_str())
    }

    pub fn duplicate(&self) -> (r: Id)
        ensures
            r@ == self@,
    {
        Id(self.0.duplicate())
    }
}

/// The views of a sequence of names.
pub open spec fn ids_view(ids: Seq<Id>) -> Seq<Seq<char>> {
    ids.map_values(|id: Id| id@)
}

} // verus!
