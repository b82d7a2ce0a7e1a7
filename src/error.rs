use vstd::prelude::*;

verus! {

/// A violation found in one pass. Entries are given by index.
#[derive(Debug)]
pub enum ErrorKind {
    /// `required` was not provided; `this` is the argument that requires it,
    /// or none where the schema itself requires it.
    MissingRequired { this: Option<usize>, required: usize },
    /// A further occurrence of a single-valued argument.
    DuplicateValue { this: usize },
    /// An occurrence of `this`, which conflicts with `conflict`.
    ConflictingArgument { this: usize, conflict: usize },
    /// An occurrence of `this`, which is not allowed in this pass.
    UnexpectedArgument { this: usize },
    /// A name that matches no entry.
    UnknownArgument { name: String },
    /// Input that could not be read.
    InvalidInput,
}

/// One diagnostic: what went wrong, and where.
#[derive(Debug)]
pub struct Diagnostic<L> {
    pub loc: L,
    pub kind: ErrorKind,
}

/// All diagnostics of one pass, in the order they were found.
#[derive(Debug)]
pub struct Report<L> {
    diagnostics: Vec<Diagnostic<L>>,
}

impl<L> View for Report<L> {
    type V = Seq<Diagnostic<L>>;

    closed spec fn view(&self) -> Seq<Diagnostic<L>> {
        self.diagnostics@
    }
}

impl<L> Report<L> {
    pub fn new() -> (r: Report<L>)
        ensures
            r@ == Seq::<Diagnostic<L>>::empty(),
    {
        Report { diagnostics: Vec::new() }
    }

    pub fn from_vec(diagnostics: Vec<Diagnostic<L>>) -> (r: Report<L>)
        ensures
            r@ == diagnostics@,
    {
        Report { diagnostics }
    }

    /// Adds one diagnostic after those already there.
    pub fn combine(&mut self, d: Diagnostic<L>)
        ensures
            final(self)@ == old(self)@.push(d),
    {
        self.diagnostics.push(d);
    }

    /// Adds the diagnostics of `other` after those already there.
    pub fn append(&mut self, other: Report<L>)
        ensures
            final(self)@ == old(self)@ + other@,
    {
        let mut other = other.diagnostics;
        self.diagnostics.append(&mut other);
    }

    pub fn len(&self) -> (r: usize)
        ensures
            r == self@.len(),
    {
        self.diagnostics.len()
    }

    pub fn is_empty(&self) -> (r: bool)
        ensures
            r == (self@.len() == 0),
    {
        self.diagnostics.len() == 0
    }

    pub fn get(&self, k: usize) -> (r: &Diagnostic<L>)
        requires
            k < self@.len(),
        ensures
            *r == self@[k as int],
    {
        &self.diagnostics[k]
    }

    pub fn diagnostics(&self) -> (r: &[Diagnostic<L>])
        ensures
            r@ == self@,
    {
        self.diagnostics.as_slice()
    }

    /// `Ok` if nothing was reported, else the whole report.
    pub fn finish(self) -> (r: Result<(), Report<L>>)
        ensures
            r is Ok <==> self@.len() == 0,
            r is Err ==> r->Err_0@ == self@,
    {
        if self.diagnostics.len() == 0 {
            Ok(())
        } else {
            Err(self)
        }
    }
}

} // verus!
