use vstd::prelude::*;
use vstd::string::*;

use crate::error::{ErrorKind, Report};
use crate::graph::{Schema, SchemaView};
use crate::id::Str;

verus! {

/// A diagnostic with its entries given by name: what a formatter renders.
#[derive(Debug)]
pub enum Error {
    /// An argument was given more than once.
    DuplicateArg { this: String },
    /// One of `required` must be given; `this` is the argument that asks.
    MissingRequired { this: Option<String>, required: Vec<String> },
    /// `this` conflicts with `conflict`.
    ArgConflict { this: String, conflict: Vec<String> },
    /// `this` is not allowed here.
    UnexpectedArg { this: String },
    /// `this` is not defined.
    UnknownArg { this: String },
    /// Unexpected input.
    InvalidInput,
}

pub enum ErrorView {
    DuplicateArg { this: Seq<char> },
    MissingRequired { this: Option<Seq<char>>, required: Seq<Seq<char>> },
    ArgConflict { this: Seq<char>, conflict: Seq<Seq<char>> },
    UnexpectedArg { this: Seq<char> },
    UnknownArg { this: Seq<char> },
    InvalidInput,
}

pub open spec fn strings_view(v: Seq<String>) -> Seq<Seq<char>> {
    v.map_values(|s: String| s@)
}

impl View for Error {
    type V = ErrorView;

    open spec fn view(&self) -> ErrorView {
        match self {
            Error::DuplicateArg { this } => ErrorView::DuplicateArg { this: this@ },
            Error::MissingRequired { this, required } => ErrorView::MissingRequired {
                this: match this {
                    Some(t) => Some(t@),
                    None => None,
                },
                required: strings_view(required@),
            },
            Error::ArgConflict { this, conflict } => ErrorView::ArgConflict {
                this: this@,
                conflict: strings_view(conflict@),
            },
            Error::UnexpectedArg { this } => ErrorView::UnexpectedArg { this: this@ },
            Error::UnknownArg { this } => ErrorView::UnknownArg { this: this@ },
            Error::InvalidInput => ErrorView::InvalidInput,
        }
    }
}

/// Renders diagnostics as text. The text is a function of the formatter and
/// the diagnostic alone: rendering the same diagnostic twice gives the same
/// text.
pub trait ErrorFormatter {
    spec fn message(&self, err: ErrorView) -> Seq<char>;

    fn fmt(&self, err: &Error) -> (r: String)
        ensures
            r@ == self.message(err@),
    ;
}

/// A name in back quotes, after the namespace and a dot if there is one.
pub open spec fn fmt_arg(ns: Option<Seq<char>>, name: Seq<char>) -> Seq<char> {
    match ns {
        Some(n) => "`"@ + n + "."@ + name + "`"@,
        None => "`"@ + name + "`"@,
    }
}

/// The names separated by commas.
pub open spec fn fmt_list(ns: Option<Seq<char>>, names: Seq<Seq<char>>) -> Seq<char>
    decreases names.len(),
{
    if names.len() == 0 {
        Seq::empty()
    } else if names.len() == 1 {
        fmt_arg(ns, names[0])
    } else {
        fmt_list(ns, names.drop_last()) + ", "@ + fmt_arg(ns, names.last())
    }
}

/// No name: nothing; one: the name; two: `a` or `b`; more: one of `a`,
/// `b`, ..., or `z`.
pub open spec fn fmt_args(ns: Option<Seq<char>>, names: Seq<Seq<char>>) -> Seq<char> {
    if names.len() == 0 {
        Seq::empty()
    } else if names.len() == 1 {
        fmt_arg(ns, names[0])
    } else if names.len() == 2 {
        fmt_arg(ns, names[0]) + " or "@ + fmt_arg(ns, names[1])
    } else {
        "one of "@ + fmt_list(ns, names.drop_last()) + ", or "@ + fmt_arg(ns, names.last())
    }
}

/// The text that [`DefaultFormatter`] gives each diagnostic.
pub open spec fn default_message(ns: Option<Seq<char>>, err: ErrorView) -> Seq<char> {
    match err {
        ErrorView::DuplicateArg { this } => fmt_arg(ns, this) + " is duplicate"@,
        ErrorView::MissingRequired { this, required } => match this {
            Some(t) => fmt_arg(ns, t) + " requires "@ + fmt_args(ns, required),
            None => "requires "@ + fmt_args(ns, required),
        },
        ErrorView::ArgConflict { this, conflict } => fmt_arg(ns, this) + " conflicts with "@
            + fmt_args(ns, conflict),
        ErrorView::UnexpectedArg { this } => fmt_arg(ns, this) + " is not allowed"@,
        ErrorView::UnknownArg { this } => fmt_arg(ns, this) + " is unknown"@,
        ErrorView::InvalidInput => "invalid input"@,
    }
}

/// The formatter used unless another is given: each name in back quotes,
/// after an optional namespace.
pub struct DefaultFormatter {
    namespace: Option<Str>,
}

/// Builder of [`DefaultFormatter`].
pub struct DefaultFormatterBuilder {
    namespace: Option<Str>,
}

impl DefaultFormatterBuilder {
    pub closed spec fn spec_namespace(&self) -> Option<Seq<char>> {
        match self.namespace {
            Some(n) => Some(n@),
            None => None,
        }
    }

    /// Each name will be written `namespace.name`.
    pub fn namespace(self, namespace: &str) -> (r: DefaultFormatterBuilder)
        ensures
            r.spec_namespace() == Some(namespace@),
    {
        DefaultFormatterBuilder { namespace: Some(Str::new(namespace)) }
    }

    pub fn build(self) -> (r: DefaultFormatter)
        ensures
            r.spec_namespace() == self.spec_namespace(),
    {
        DefaultFormatter { namespace: self.namespace }
    }
}

impl DefaultFormatter {
    pub closed spec fn spec_namespace(&self) -> Option<Seq<char>> {
        match self.namespace {
            Some(n) => Some(n@),
            None => None,
        }
    }

    /// A formatter without a namespace.
    pub fn new() -> (r: DefaultFormatter)
        ensures
            r.spec_namespace() is None,
    {
        DefaultFormatter { namespace: None }
    }

    pub fn builder() -> (r: DefaultFormatterBuilder)
        ensures
            r.spec_namespace() is None,
    {
        DefaultFormatterBuilder { namespace: None }
    }

    pub fn namespace(&self) -> (r: Option<&str>)
        ensures
            r is None <==> self.spec_namespace() is None,
            r is Some ==> self.spec_namespace() == Some(r->0@),
    {
        match &self.namespace {
            Some(n) => Some(n.as_str()),
            None => None,
        }
    }

    fn push_arg(&self, out: &mut String, name: &str)
        ensures
            final(out)@ == old(out)@ + fmt_arg(self.spec_namespace(), name@),
    {
        out.append("`");
        match &self.namespace {
            Some(n) => {
                out.append(n.as_str());
                out.append(".");
            },
            None => {},
        }
        out.append(name);
        out.append("`");
    }

    fn push_args(&self, out: &mut String, names: &Vec<String>)
        ensures
            final(out)@ == old(out)@ + fmt_args(self.spec_namespace(), strings_view(names@)),
    {
        let ghost ns = self.spec_namespace();
        let ghost nv = strings_view(names@);
        let n = names.len();
        if n == 0 {
            assert(out@ =~= old(out)@ + fmt_args(ns, nv));
        } else if n == 1 {
            self.push_arg(out, names[0].as_str());
        } else if n == 2 {
            self.push_arg(out, names[0].as_str());
            out.append(" or ");
            self.push_arg(out, names[1].as_str());
            assert(out@ =~= old(out)@ + fmt_args(ns, nv));
        } else {
            out.append("one of ");
            let ghost base = out@;
            self.push_arg(out, names[0].as_str());
            assert(fmt_list(ns, nv.take(1)) == fmt_arg(ns, nv[0]));
            let mut k: usize = 1;
            while k < n - 1
                invariant
                    1 <= k <= n - 1,
                    n == names@.len(),
                    ns == self.spec_namespace(),
                    nv == strings_view(names@),
                    out@ == base + fmt_list(ns, nv.take(k as int)),
                decreases n - 1 - k,
            {
                out.append(", ");
                self.push_arg(out, names[k].as_str());
                proof {
                    assert(nv.take(k + 1).drop_last() =~= nv.take(k as int));
                }
                k = k + 1;
            }
            out.append(", or ");
            self.push_arg(out, names[n - 1].as_str());
            proof {
                assert(nv.take(k as int) =~= nv.drop_last());
            }
            assert(out@ =~= old(out)@ + fmt_args(ns, nv));
        }
    }
}

impl ErrorFormatter for DefaultFormatter {
    open spec fn message(&self, err: ErrorView) -> Seq<char> {
        default_message(self.spec_namespace(), err)
    }

    fn fmt(&self, err: &Error) -> (r: String) {
        let mut out = String::new();
        match err {
            Error::DuplicateArg { this } => {
                self.push_arg(&mut out, this.as_str());
                out.append(" is duplicate");
            },
            Error::MissingRequired { this, required } => {
                match this {
                    Some(t) => {
                        self.push_arg(&mut out, t.as_str());
                        out.append(" requires ");
                    },
                    None => {
                        out.append("requires ");
                    },
                }
                self.push_args(&mut out, required);
            },
            Error::ArgConflict { this, conflict } => {
                self.push_arg(&mut out, this.as_str());
                out.append(" conflicts with ");
                self.push_args(&mut out, conflict);
            },
            Error::UnexpectedArg { this } => {
                self.push_arg(&mut out, this.as_str());
                out.append(" is not allowed");
            },
            Error::UnknownArg { this } => {
                self.push_arg(&mut out, this.as_str());
                out.append(" is unknown");
            },
            Error::InvalidInput => {
                out.append("invalid input");
            },
        }
        assert(out@ =~= default_message(self.spec_namespace(), err@));
        out
    }
}


/// The name of entry `i`, or nothing for an index outside the schema.
pub open spec fn name_of(v: SchemaView, i: usize) -> Seq<char> {
    if i < v.len() {
        v.entries[i as int].name
    } else {
        Seq::empty()
    }
}

/// The names of the arguments that entry `i` stands for.
pub open spec fn flat_names(v: SchemaView, i: usize) -> Seq<Seq<char>> {
    if i < v.len() {
        v.flat(i as int).map_values(|a: usize| name_of(v, a))
    } else {
        Seq::empty()
    }
}

/// A diagnostic with its entries replaced by their names; an entry that a
/// relation targets is replaced by the names of its arguments.
pub open spec fn named(v: SchemaView, k: ErrorKind) -> ErrorView {
    match k {
        ErrorKind::MissingRequired { this, required } => ErrorView::MissingRequired {
            this: match this {
                Some(t) => Some(name_of(v, t)),
                None => None,
            },
            required: flat_names(v, required),
        },
        ErrorKind::DuplicateValue { this } => ErrorView::DuplicateArg { this: name_of(v, this) },
        ErrorKind::ConflictingArgument { this, conflict } => ErrorView::ArgConflict {
            this: name_of(v, this),
            conflict: flat_names(v, conflict),
        },
        ErrorKind::UnexpectedArgument { this } => ErrorView::UnexpectedArg {
            this: name_of(v, this),
        },
        ErrorKind::UnknownArgument { name } => ErrorView::UnknownArg { this: name@ },
        ErrorKind::InvalidInput => ErrorView::InvalidInput,
    }
}

fn name_string(schema: &Schema, i: usize) -> (r: String)
    ensures
        r@ == name_of(schema@, i),
{
    if i < schema.len() {
        schema.id(i).to_string()
    } else {
        String::new()
    }
}

fn flat_name_strings(schema: &Schema, i: usize) -> (r: Vec<String>)
    requires
        schema.ready(),
    ensures
        strings_view(r@) == flat_names(schema@, i),
{
    let mut r: Vec<String> = Vec::new();
    if i < schema.len() {
        let flat = schema.flat_of(i);
        let mut k: usize = 0;
        while k < flat.len()
            invariant
                flat@ == schema@.flat(i as int),
                k <= flat@.len(),
                strings_view(r@) == flat@.take(k as int).map_values(|a: usize| name_of(schema@, a)),
            decreases flat@.len() - k,
        {
            let ghost r0 = r@;
            r.push(name_string(schema, flat[k]));
            proof {
                assert(strings_view(r@) =~= strings_view(r0).push(name_of(schema@, flat@[k as int])));
                assert(flat@.take(k + 1).map_values(|a: usize| name_of(schema@, a)) =~= flat@.take(
                    k as int,
                ).map_values(|a: usize| name_of(schema@, a)).push(name_of(schema@, flat@[k as int])));
            }
            k = k + 1;
        }
        assert(flat@.take(k as int) =~= flat@);
    } else {
        assert(strings_view(r@) =~= Seq::<Seq<char>>::empty());
    }
    r
}

/// The diagnostic `k` with its entries given by name.
pub fn name_error(schema: &Schema, k: &ErrorKind) -> (r: Error)
    requires
        schema.ready(),
    ensures
        r@ == named(schema@, *k),
{
    match k {
        ErrorKind::MissingRequired { this, required } => Error::MissingRequired {
            this: match this {
                Some(t) => Some(name_string(schema, *t)),
                None => None,
            },
            required: flat_name_strings(schema, *required),
        },
        ErrorKind::DuplicateValue { this } => Error::DuplicateArg { this: name_string(schema, *this) },
        ErrorKind::ConflictingArgument { this, conflict } => Error::ArgConflict {
            this: name_string(schema, *this),
            conflict: flat_name_strings(schema, *conflict),
        },
        ErrorKind::UnexpectedArgument { this } => Error::UnexpectedArg {
            this: name_string(schema, *this),
        },
        ErrorKind::UnknownArgument { name } => Error::UnknownArg { this: name.clone() },
        ErrorKind::InvalidInput => Error::InvalidInput,
    }
}

impl<L: Copy> Report<L> {
    /// Each diagnostic's location with its text, in order.
    pub fn messages<F: ErrorFormatter>(&self, schema: &Schema, f: &F) -> (r: Vec<(L, String)>)
        requires
            schema.ready(),
        ensures
            r@.len() == self@.len(),
            forall|k: int|
                0 <= k < r@.len() ==> r@[k].0 == self@[k].loc && r@[k].1@ == f.message(
                    named(schema@, self@[k].kind),
                ),
    {
        let mut r: Vec<(L, String)> = Vec::new();
        let mut k: usize = 0;
        while k < self.len()
            invariant
                schema.ready(),
                k <= self@.len(),
                r@.len() == k,
                forall|q: int|
                    0 <= q < k ==> r@[q].0 == self@[q].loc && r@[q].1@ == f.message(
                        named(schema@, self@[q].kind),
                    ),
            decreases self@.len() - k,
        {
            let d = self.get(k);
            let err = name_error(schema, &d.kind);
            r.push((d.loc, f.fmt(&err)));
            k = k + 1;
        }
        r
    }
}

} // verus!
