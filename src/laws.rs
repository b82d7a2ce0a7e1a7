use vstd::prelude::*;

use crate::check::{
    at_each, conflict_both, conflicts_diags, diagnostics, diags_upto, duplicate_diags, entry_diags,
    exclusive_diags, exclusive_row, exclusive_rows, pair_diags, required_diags, requires_diags, side,
    requires_part, unexpected_diags, Blame,
};
use crate::error::{Diagnostic, ErrorKind};
use crate::graph::SchemaView;
use crate::pass::{OccurrenceStore, StoreView};

verus! {

/// Every diagnostic of `s` has a kind that satisfies `q`.
pub open spec fn all_kinds<L>(s: Seq<Diagnostic<L>>, q: spec_fn(ErrorKind) -> bool) -> bool {
    forall|k: int| 0 <= k < s.len() ==> q(#[trigger] s[k].kind)
}

/// Every diagnostic of `a` is also in `b`.
pub open spec fn within<L>(a: Seq<Diagnostic<L>>, b: Seq<Diagnostic<L>>) -> bool {
    forall|k: int| 0 <= k < a.len() ==> b.contains(#[trigger] a[k])
}

/// The number of diagnostics of `s` of kind `kind`.
pub open spec fn count_kind<L>(s: Seq<Diagnostic<L>>, kind: ErrorKind) -> nat
    decreases s.len(),
{
    if s.len() == 0 {
        0
    } else {
        count_kind(s.drop_last(), kind) + if s.last().kind == kind {
            1nat
        } else {
            0nat
        }
    }
}

/// A store that fits the schema: one list of occurrences and one flag per
/// entry, and no occurrence of a group.
pub open spec fn fits<L>(v: SchemaView, st: StoreView<L>) -> bool {
    &&& v.wf()
    &&& st.occ.len() == v.len()
    &&& st.unexpected.len() == v.len()
    &&& forall|i: int| 0 <= i < v.len() && !v.is_arg(i) ==> #[trigger] st.occ[i].len() == 0
}

proof fn lemma_within_concat<L>(a: Seq<Diagnostic<L>>, b: Seq<Diagnostic<L>>)
    ensures
        within(a, a + b),
        within(b, a + b),
{
    assert forall|k: int| 0 <= k < a.len() implies (a + b).contains(#[trigger] a[k]) by {
        assert((a + b)[k] == a[k]);
    }
    assert forall|k: int| 0 <= k < b.len() implies (a + b).contains(#[trigger] b[k]) by {
        assert((a + b)[a.len() + k] == b[k]);
    }
}

proof fn lemma_within_trans<L>(a: Seq<Diagnostic<L>>, b: Seq<Diagnostic<L>>, c: Seq<Diagnostic<L>>)
    requires
        within(a, b),
        within(b, c),
    ensures
        within(a, c),
{
    assert forall|k: int| 0 <= k < a.len() implies c.contains(#[trigger] a[k]) by {
        assert(b.contains(a[k]));
        let j = choose|j: int| 0 <= j < b.len() && b[j] == a[k];
        assert(c.contains(b[j]));
    }
}

proof fn lemma_all_concat<L>(a: Seq<Diagnostic<L>>, b: Seq<Diagnostic<L>>, q: spec_fn(ErrorKind) -> bool)
    requires
        all_kinds(a, q),
        all_kinds(b, q),
    ensures
        all_kinds(a + b, q),
{
    assert forall|k: int| 0 <= k < (a + b).len() implies q(#[trigger] (a + b)[k].kind) by {
        if k < a.len() {
            assert((a + b)[k] == a[k]);
        } else {
            assert((a + b)[k] == b[k - a.len()]);
        }
    }
}

proof fn lemma_count_concat<L>(a: Seq<Diagnostic<L>>, b: Seq<Diagnostic<L>>, kind: ErrorKind)
    ensures
        count_kind(a + b, kind) == count_kind(a, kind) + count_kind(b, kind),
    decreases b.len(),
{
    if b.len() > 0 {
        assert((a + b).drop_last() =~= a + b.drop_last());
        lemma_count_concat(a, b.drop_last(), kind);
    } else {
        assert(a + b =~= a);
    }
}

proof fn lemma_count_none<L>(s: Seq<Diagnostic<L>>, kind: ErrorKind)
    requires
        all_kinds(s, |k: ErrorKind| k != kind),
    ensures
        count_kind(s, kind) == 0,
    decreases s.len(),
{
    if s.len() > 0 {
        assert(all_kinds(s.drop_last(), |k: ErrorKind| k != kind)) by {
            assert forall|k: int| 0 <= k < s.drop_last().len() implies (|k: ErrorKind| k != kind)(
                #[trigger] s.drop_last()[k].kind,
            ) by {
                assert(s.drop_last()[k] == s[k]);
            }
        }
        lemma_count_none(s.drop_last(), kind);
        assert((|k: ErrorKind| k != kind)(s[s.len() - 1].kind));
    }
}

proof fn lemma_count_all<L>(s: Seq<Diagnostic<L>>, kind: ErrorKind)
    requires
        forall|k: int| 0 <= k < s.len() ==> #[trigger] s[k].kind == kind,
    ensures
        count_kind(s, kind) == s.len(),
    decreases s.len(),
{
    if s.len() > 0 {
        assert forall|k: int| 0 <= k < s.drop_last().len() implies #[trigger] s.drop_last()[k].kind
            == kind by {
            assert(s.drop_last()[k] == s[k]);
        }
        lemma_count_all(s.drop_last(), kind);
    }
}

proof fn lemma_at_each_kinds<L>(occ: Seq<Seq<L>>, owners: Seq<usize>, b: Blame, q: spec_fn(ErrorKind) -> bool)
    requires
        forall|a: usize| #[trigger] q(b.kind_for(a)),
    ensures
        all_kinds(at_each(occ, owners, b), q),
    decreases owners.len(),
{
    if owners.len() > 0 {
        let a = owners.last();
        lemma_at_each_kinds(occ, owners.drop_last(), b, q);
        let tail = occ[a as int].map_values(|l: L| Diagnostic { loc: l, kind: b.kind_for(a) });
        assert(all_kinds(tail, q)) by {
            assert forall|k: int| 0 <= k < tail.len() implies q(#[trigger] tail[k].kind) by {
                assert(q(b.kind_for(a)));
            }
        }
        lemma_all_concat(at_each(occ, owners.drop_last(), b), tail, q);
    }
}


proof fn lemma_conflict_kinds<L>(v: SchemaView, st: StoreView<L>, x: int, y: int, q: spec_fn(ErrorKind) -> bool)
    requires
        forall|a: usize, c: usize| #[trigger] q(ErrorKind::ConflictingArgument { this: a, conflict: c }),
    ensures
        all_kinds(conflict_both(v, st, x, y), q),
{
    let bx = Blame::Conflict { conflict: y as usize };
    let by = Blame::Conflict { conflict: x as usize };
    assert forall|a: usize| #[trigger] q(bx.kind_for(a)) by {
        assert(q(ErrorKind::ConflictingArgument { this: a, conflict: y as usize }));
    }
    assert forall|a: usize| #[trigger] q(by.kind_for(a)) by {
        assert(q(ErrorKind::ConflictingArgument { this: a, conflict: x as usize }));
    }
    lemma_at_each_kinds(st.occ, v.flat(x), bx, q);
    lemma_at_each_kinds(st.occ, v.flat(y), by, q);
    lemma_all_concat(side(v, st, x, y), side(v, st, y, x), q);
}

proof fn lemma_row_kinds<L>(v: SchemaView, st: StoreView<L>, i: int, p: int, r: int, q: spec_fn(ErrorKind) -> bool)
    requires
        forall|a: usize, c: usize| #[trigger] q(ErrorKind::ConflictingArgument { this: a, conflict: c }),
    ensures
        all_kinds(exclusive_row(v, st, i, p, r), q),
    decreases r - p,
{
    if r > p + 1 {
        lemma_row_kinds(v, st, i, p, r - 1, q);
        let a = v.members(i)[p] as int;
        let b = v.members(i)[r - 1] as int;
        lemma_conflict_kinds(v, st, a, b, q);
        lemma_all_concat(exclusive_row(v, st, i, p, r - 1), pair_diags(v, st, i, p, r - 1), q);
    }
}

proof fn lemma_rows_kinds<L>(v: SchemaView, st: StoreView<L>, i: int, p: int, q: spec_fn(ErrorKind) -> bool)
    requires
        forall|a: usize, c: usize| #[trigger] q(ErrorKind::ConflictingArgument { this: a, conflict: c }),
    ensures
        all_kinds(exclusive_rows(v, st, i, p), q),
    decreases p,
{
    if p > 0 {
        lemma_rows_kinds(v, st, i, p - 1, q);
        lemma_row_kinds(v, st, i, p - 1, v.members(i).len() as int, q);
        lemma_all_concat(
            exclusive_rows(v, st, i, p - 1),
            exclusive_row(v, st, i, p - 1, v.members(i).len() as int),
            q,
        );
    }
}

proof fn lemma_conflicts_kinds<L>(v: SchemaView, st: StoreView<L>, i: int, k: int, q: spec_fn(ErrorKind) -> bool)
    requires
        forall|a: usize, c: usize| #[trigger] q(ErrorKind::ConflictingArgument { this: a, conflict: c }),
    ensures
        all_kinds(conflicts_diags(v, st, i, k), q),
    decreases k,
{
    if k > 0 {
        lemma_conflicts_kinds(v, st, i, k - 1, q);
        let t = v.entries[i].conflicts[k - 1] as int;
        lemma_conflict_kinds(v, st, i, t, q);
        let part = if v.provided(st.counts(), i) && v.provided(st.counts(), t) {
            conflict_both(v, st, i, t)
        } else {
            Seq::empty()
        };
        lemma_all_concat(conflicts_diags(v, st, i, k - 1), part, q);
    }
}

/// `q` holds of each `MissingRequired` that the `requires` edges of `i`
/// can give: those whose target was not provided while `i` was.
pub open spec fn requires_ok(v: SchemaView, st_counts: Seq<nat>, i: int, q: spec_fn(ErrorKind) -> bool) -> bool {
    forall|k: int, a: usize|
        0 <= k < v.entries[i].requires.len() && v.provided(st_counts, i) && !v.provided(
            st_counts,
            v.entries[i].requires[k] as int,
        ) ==> #[trigger] q(
            ErrorKind::MissingRequired { this: Some(a), required: v.entries[i].requires[k] },
        )
}

proof fn lemma_requires_kinds<L>(v: SchemaView, st: StoreView<L>, i: int, k: int, q: spec_fn(ErrorKind) -> bool)
    requires
        requires_ok(v, st.counts(), i, q),
        k <= v.entries[i].requires.len(),
    ensures
        all_kinds(requires_diags(v, st, i, k), q),
    decreases k,
{
    if k > 0 {
        lemma_requires_kinds(v, st, i, k - 1, q);
        let t = v.entries[i].requires[k - 1];
        let b = Blame::Missing { required: t };
        if v.provided(st.counts(), i) && !v.provided(st.counts(), t as int) {
            assert forall|a: usize| #[trigger] q(b.kind_for(a)) by {
                assert(q(ErrorKind::MissingRequired { this: Some(a), required: v.entries[i].requires[k - 1] }));
            }
            lemma_at_each_kinds(st.occ, v.flat(i), b, q);
        }
        lemma_all_concat(requires_diags(v, st, i, k - 1), requires_part(v, st, i, k - 1), q);
    }
}

/// The kinds that entry `i` reports, other than its duplicate values.
pub open spec fn rest_diags<L>(v: SchemaView, st: StoreView<L>, i: int) -> Seq<Diagnostic<L>> {
    exclusive_diags(v, st, i) + required_diags(v, st, i) + requires_diags(
        v,
        st,
        i,
        v.entries[i].requires.len() as int,
    ) + conflicts_diags(v, st, i, v.entries[i].conflicts.len() as int) + unexpected_diags(v, st, i)
}

proof fn lemma_entry_split<L>(v: SchemaView, st: StoreView<L>, i: int)
    ensures
        entry_diags(v, st, i) == duplicate_diags(v, st, i) + rest_diags(v, st, i),
{
    assert(entry_diags(v, st, i) =~= duplicate_diags(v, st, i) + rest_diags(v, st, i));
}

/// `q` holds of every kind that entry `i` reports.
proof fn lemma_entry_kinds<L>(v: SchemaView, st: StoreView<L>, i: int, q: spec_fn(ErrorKind) -> bool)
    requires
        forall|a: usize, c: usize| #[trigger] q(ErrorKind::ConflictingArgument { this: a, conflict: c }),
        forall|a: usize| #[trigger] q(ErrorKind::UnexpectedArgument { this: a }),
        all_kinds(requires_diags(v, st, i, v.entries[i].requires.len() as int), q),
        v.is_single(i) && st.occ[i].len() > 1 ==> q(ErrorKind::DuplicateValue { this: i as usize }),
        v.entries[i].required && !v.provided(st.counts(), i) ==> q(
            ErrorKind::MissingRequired { this: None, required: i as usize },
        ),
    ensures
        all_kinds(entry_diags(v, st, i), q),
{
    let d = duplicate_diags(v, st, i);
    let e = exclusive_diags(v, st, i);
    let r = required_diags(v, st, i);
    let rq = requires_diags(v, st, i, v.entries[i].requires.len() as int);
    let c = conflicts_diags(v, st, i, v.entries[i].conflicts.len() as int);
    let u = unexpected_diags(v, st, i);
    assert(all_kinds(d, q)) by {
        if v.is_single(i) && st.occ[i].len() > 1 {
            assert forall|k: int| 0 <= k < d.len() implies q(#[trigger] d[k].kind) by {}
        }
    }
    assert(all_kinds(e, q)) by {
        if v.is_exclusive_group(i) && v.count(st.counts(), i) >= 2 {
            lemma_rows_kinds(v, st, i, v.members(i).len() as int, q);
        }
    }
    assert(all_kinds(r, q));
    lemma_conflicts_kinds(v, st, i, v.entries[i].conflicts.len() as int, q);
    assert(all_kinds(u, q)) by {
        if st.unexpected[i] {
            assert forall|a: usize| #[trigger] q(Blame::Unexpected.kind_for(a)) by {
                assert(q(ErrorKind::UnexpectedArgument { this: a }));
            }
            lemma_at_each_kinds(st.occ, v.flat(i), Blame::Unexpected, q);
        }
    }
    lemma_all_concat(d, e, q);
    lemma_all_concat(d + e, r, q);
    lemma_all_concat(d + e + r, rq, q);
    lemma_all_concat(d + e + r + rq, c, q);
    lemma_all_concat(d + e + r + rq + c, u, q);
}

proof fn lemma_upto_kinds<L>(v: SchemaView, st: StoreView<L>, k: int, q: spec_fn(ErrorKind) -> bool)
    requires
        forall|j: int| 0 <= j < k ==> all_kinds(#[trigger] entry_diags(v, st, j), q),
    ensures
        all_kinds(diags_upto(v, st, k), q),
    decreases k,
{
    if k > 0 {
        lemma_upto_kinds(v, st, k - 1, q);
        assert(all_kinds(entry_diags(v, st, k - 1), q));
        lemma_all_concat(diags_upto(v, st, k - 1), entry_diags(v, st, k - 1), q);
    }
}

proof fn lemma_entry_within<L>(v: SchemaView, st: StoreView<L>, i: int, k: int)
    requires
        0 <= i < k,
    ensures
        within(entry_diags(v, st, i), diags_upto(v, st, k)),
    decreases k,
{
    lemma_within_concat(diags_upto(v, st, k - 1), entry_diags(v, st, k - 1));
    if i < k - 1 {
        lemma_entry_within(v, st, i, k - 1);
        lemma_within_trans(entry_diags(v, st, i), diags_upto(v, st, k - 1), diags_upto(v, st, k));
    }
}

/// Each rule's part of what entry `i` reports stands in the diagnostics.
proof fn lemma_parts_within<L>(v: SchemaView, st: StoreView<L>, i: int)
    requires
        0 <= i < v.len(),
    ensures
        within(exclusive_diags(v, st, i), diagnostics(v, st)),
        within(required_diags(v, st, i), diagnostics(v, st)),
        within(requires_diags(v, st, i, v.entries[i].requires.len() as int), diagnostics(v, st)),
        within(conflicts_diags(v, st, i, v.entries[i].conflicts.len() as int), diagnostics(v, st)),
        within(duplicate_diags(v, st, i), diagnostics(v, st)),
{
    let d = duplicate_diags(v, st, i);
    let e = exclusive_diags(v, st, i);
    let r = required_diags(v, st, i);
    let rq = requires_diags(v, st, i, v.entries[i].requires.len() as int);
    let c = conflicts_diags(v, st, i, v.entries[i].conflicts.len() as int);
    let u = unexpected_diags(v, st, i);
    let all = diagnostics(v, st);
    let ent = entry_diags(v, st, i);
    lemma_entry_within(v, st, i, v.len() as int);
    lemma_within_concat(d + e + r + rq + c, u);
    lemma_within_concat(d + e + r + rq, c);
    lemma_within_concat(d + e + r, rq);
    lemma_within_concat(d + e, r);
    lemma_within_concat(d, e);
    lemma_within_trans(d + e + r + rq + c, ent, all);
    lemma_within_trans(d + e + r + rq, d + e + r + rq + c, all);
    lemma_within_trans(c, d + e + r + rq + c, all);
    lemma_within_trans(d + e + r, d + e + r + rq, all);
    lemma_within_trans(rq, d + e + r + rq, all);
    lemma_within_trans(d + e, d + e + r, all);
    lemma_within_trans(r, d + e + r, all);
    lemma_within_trans(d, d + e, all);
    lemma_within_trans(e, d + e, all);
}

/// A required entry is reported missing, at the anchor of the pass, exactly
/// when it was not provided: an argument with no occurrence, or a group with
/// no provided member.
pub proof fn law_required<L>(v: SchemaView, st: StoreView<L>, i: int)
    requires
        fits(v, st),
        0 <= i < v.len(),
        v.entries[i].required,
    ensures
        diagnostics(v, st).contains(
            Diagnostic {
                loc: st.anchor,
                kind: ErrorKind::MissingRequired { this: None, required: i as usize },
            },
        ) <==> !v.provided(st.counts(), i),
{
    let target = Diagnostic {
        loc: st.anchor,
        kind: ErrorKind::MissingRequired { this: None, required: i as usize },
    };
    if v.provided(st.counts(), i) {
        let q = |k: ErrorKind| k != ErrorKind::MissingRequired { this: None, required: i as usize };
        assert forall|j: int| 0 <= j < v.len() implies all_kinds(#[trigger] entry_diags(v, st, j), q) by {
            lemma_requires_kinds(v, st, j, v.entries[j].requires.len() as int, q);
            lemma_entry_kinds(v, st, j, q);
        }
        lemma_upto_kinds(v, st, v.len() as int, q);
        if diagnostics(v, st).contains(target) {
            let k = choose|k: int| 0 <= k < diagnostics(v, st).len() && diagnostics(v, st)[k] == target;
            assert(q(diagnostics(v, st)[k].kind));
        }
    } else {
        lemma_parts_within(v, st, i);
        assert(required_diags(v, st, i)[0] == target);
    }
}

/// A single-valued argument with N occurrences in a pass is reported as
/// duplicated N - 1 times, and never with one occurrence.
pub proof fn law_single_duplicates<L>(v: SchemaView, st: StoreView<L>, i: int)
    requires
        fits(v, st),
        0 <= i < v.len(),
        v.is_single(i),
    ensures
        count_kind(diagnostics(v, st), ErrorKind::DuplicateValue { this: i as usize }) == if st.occ[i].len()
            > 1 {
            (st.occ[i].len() - 1) as nat
        } else {
            0nat
        },
{
    let kind = ErrorKind::DuplicateValue { this: i as usize };
    let q = |k: ErrorKind| !(k is DuplicateValue);
    let qi = |k: ErrorKind| k != kind;
    assert forall|j: int| 0 <= j < v.len() implies count_kind(#[trigger] entry_diags(v, st, j), kind)
        == if j == i && st.occ[i].len() > 1 {
        (st.occ[i].len() - 1) as nat
    } else {
        0nat
    } by {
        lemma_entry_split(v, st, j);
        let d = duplicate_diags(v, st, j);
        let e = exclusive_diags(v, st, j);
        let r = required_diags(v, st, j);
        let rq = requires_diags(v, st, j, v.entries[j].requires.len() as int);
        let c = conflicts_diags(v, st, j, v.entries[j].conflicts.len() as int);
        let u = unexpected_diags(v, st, j);
        assert(all_kinds(e, qi)) by {
            if v.is_exclusive_group(j) && v.count(st.counts(), j) >= 2 {
                lemma_rows_kinds(v, st, j, v.members(j).len() as int, qi);
            }
        }
        lemma_requires_kinds(v, st, j, v.entries[j].requires.len() as int, qi);
        lemma_conflicts_kinds(v, st, j, v.entries[j].conflicts.len() as int, qi);
        assert(all_kinds(u, qi)) by {
            if st.unexpected[j] {
                assert forall|a: usize| #[trigger] qi(Blame::Unexpected.kind_for(a)) by {}
                lemma_at_each_kinds(st.occ, v.flat(j), Blame::Unexpected, qi);
            }
        }
        lemma_all_concat(e, r, qi);
        lemma_all_concat(e + r, rq, qi);
        lemma_all_concat(e + r + rq, c, qi);
        lemma_all_concat(e + r + rq + c, u, qi);
        lemma_count_none(rest_diags(v, st, j), kind);
        lemma_count_concat(d, rest_diags(v, st, j), kind);
        if j == i && st.occ[i].len() > 1 {
            lemma_count_all(d, kind);
        } else {
            assert(all_kinds(d, qi)) by {
                if v.is_single(j) && st.occ[j].len() > 1 {
                    assert forall|k: int| 0 <= k < d.len() implies qi(#[trigger] d[k].kind) by {}
                }
            }
            lemma_count_none(d, kind);
        }
    }
    lemma_count_upto(v, st, i, v.len() as int, kind, if st.occ[i].len() > 1 {
        (st.occ[i].len() - 1) as nat
    } else {
        0nat
    });
}

proof fn lemma_count_upto<L>(v: SchemaView, st: StoreView<L>, i: int, k: int, kind: ErrorKind, c: nat)
    requires
        0 <= k <= v.len(),
        forall|j: int| 0 <= j < v.len() ==> count_kind(#[trigger] entry_diags(v, st, j), kind) == if j
            == i {
            c
        } else {
            0nat
        },
    ensures
        count_kind(diags_upto(v, st, k), kind) == if 0 <= i < k {
            c
        } else {
            0nat
        },
    decreases k,
{
    if k > 0 {
        lemma_count_upto(v, st, i, k - 1, kind, c);
        lemma_count_concat(diags_upto(v, st, k - 1), entry_diags(v, st, k - 1), kind);
        assert(count_kind(entry_diags(v, st, k - 1), kind) == if k - 1 == i {
            c
        } else {
            0nat
        });
    }
}


/// The diagnostics at the occurrences of a single argument.
proof fn lemma_at_each_single<L>(occ: Seq<Seq<L>>, a: usize, b: Blame)
    ensures
        at_each(occ, seq![a], b) == occ[a as int].map_values(
            |l: L| Diagnostic { loc: l, kind: b.kind_for(a) },
        ),
{
    assert(seq![a].drop_last() =~= Seq::<usize>::empty());
    assert(at_each(occ, Seq::<usize>::empty(), b) == Seq::<Diagnostic<L>>::empty());
    assert(at_each(occ, seq![a], b) =~= occ[a as int].map_values(
        |l: L| Diagnostic { loc: l, kind: b.kind_for(a) },
    ));
}

proof fn lemma_requires_within<L>(v: SchemaView, st: StoreView<L>, i: int, k0: int, k: int)
    requires
        0 <= k0 < k,
    ensures
        within(requires_part(v, st, i, k0), requires_diags(v, st, i, k)),
    decreases k,
{
    lemma_within_concat(requires_diags(v, st, i, k - 1), requires_part(v, st, i, k - 1));
    if k0 < k - 1 {
        lemma_requires_within(v, st, i, k0, k - 1);
        lemma_within_trans(
            requires_part(v, st, i, k0),
            requires_diags(v, st, i, k - 1),
            requires_diags(v, st, i, k),
        );
    }
}

/// When argument `a` occurs and the entry it requires was not provided,
/// each occurrence of `a` is reported as missing that entry.
pub proof fn law_requires_reported<L>(v: SchemaView, st: StoreView<L>, a: int, k0: int)
    requires
        fits(v, st),
        0 <= a < v.len(),
        v.is_arg(a),
        0 <= k0 < v.entries[a].requires.len(),
        st.occ[a].len() >= 1,
        !v.provided(st.counts(), v.entries[a].requires[k0] as int),
    ensures
        forall|j: int|
            0 <= j < st.occ[a].len() ==> diagnostics(v, st).contains(
                Diagnostic {
                    loc: #[trigger] st.occ[a][j],
                    kind: ErrorKind::MissingRequired {
                        this: Some(a as usize),
                        required: v.entries[a].requires[k0],
                    },
                },
            ),
{
    let t = v.entries[a].requires[k0];
    let b = Blame::Missing { required: t };
    assert(v.count(st.counts(), a) == st.counts()[a]);
    assert(v.flat(a) == seq![a as usize]);
    lemma_at_each_single(st.occ, a as usize, b);
    lemma_requires_within(v, st, a, k0, v.entries[a].requires.len() as int);
    lemma_parts_within(v, st, a);
    let part = at_each(st.occ, v.flat(a), b);
    lemma_within_trans(part, requires_diags(v, st, a, v.entries[a].requires.len() as int), diagnostics(v, st));
    assert forall|j: int| 0 <= j < st.occ[a].len() implies diagnostics(v, st).contains(
        Diagnostic {
            loc: #[trigger] st.occ[a][j],
            kind: ErrorKind::MissingRequired { this: Some(a as usize), required: t },
        },
    ) by {
        assert(part[j] == Diagnostic {
            loc: st.occ[a][j],
            kind: ErrorKind::MissingRequired { this: Some(a as usize), required: t },
        });
    }
}

/// Once entry `t` is provided, nothing reports it missing.
pub proof fn law_requires_satisfied<L>(v: SchemaView, st: StoreView<L>, t: int)
    requires
        fits(v, st),
        0 <= t < v.len(),
        v.provided(st.counts(), t),
    ensures
        forall|k: int|
            0 <= k < diagnostics(v, st).len() ==> !(#[trigger] diagnostics(v, st)[k].kind matches ErrorKind::MissingRequired {
                required,
                ..
            } && required == t),
{
    let q = |k: ErrorKind| !(k matches ErrorKind::MissingRequired { required, .. } && required == t);
    assert forall|j: int| 0 <= j < v.len() implies all_kinds(#[trigger] entry_diags(v, st, j), q) by {
        assert(requires_ok(v, st.counts(), j, q));
        lemma_requires_kinds(v, st, j, v.entries[j].requires.len() as int, q);
        lemma_entry_kinds(v, st, j, q);
    }
    lemma_upto_kinds(v, st, v.len() as int, q);
    assert forall|k: int| 0 <= k < diagnostics(v, st).len() implies !(#[trigger] diagnostics(v, st)[k].kind matches ErrorKind::MissingRequired {
        required,
        ..
    } && required == t) by {
        assert(q(diagnostics(v, st)[k].kind));
    }
}

proof fn lemma_count_members_mono(v: SchemaView, occ: Seq<nat>, g: int, k1: int, k2: int)
    requires
        0 <= k1 <= k2,
    ensures
        v.count_members(occ, g, k1) <= v.count_members(occ, g, k2),
    decreases k2 - k1,
{
    if k1 < k2 {
        lemma_count_members_mono(v, occ, g, k1, k2 - 1);
    }
}

proof fn lemma_row_within<L>(v: SchemaView, st: StoreView<L>, g: int, p: int, q: int, r: int)
    requires
        p < q < r,
    ensures
        within(pair_diags(v, st, g, p, q), exclusive_row(v, st, g, p, r)),
    decreases r - p,
{
    lemma_within_concat(exclusive_row(v, st, g, p, r - 1), pair_diags(v, st, g, p, r - 1));
    if q < r - 1 {
        lemma_row_within(v, st, g, p, q, r - 1);
        lemma_within_trans(
            pair_diags(v, st, g, p, q),
            exclusive_row(v, st, g, p, r - 1),
            exclusive_row(v, st, g, p, r),
        );
    }
}

proof fn lemma_rows_within<L>(v: SchemaView, st: StoreView<L>, g: int, p: int, r: int)
    requires
        0 <= p < r,
    ensures
        within(
            exclusive_row(v, st, g, p, v.members(g).len() as int),
            exclusive_rows(v, st, g, r),
        ),
    decreases r,
{
    lemma_within_concat(
        exclusive_rows(v, st, g, r - 1),
        exclusive_row(v, st, g, r - 1, v.members(g).len() as int),
    );
    if p < r - 1 {
        lemma_rows_within(v, st, g, p, r - 1);
        lemma_within_trans(
            exclusive_row(v, st, g, p, v.members(g).len() as int),
            exclusive_rows(v, st, g, r - 1),
            exclusive_rows(v, st, g, r),
        );
    }
}

/// When two members of an exclusive group both occur in a pass, every
/// occurrence of each is reported as conflicting with the other.
pub proof fn law_exclusive_group<L>(v: SchemaView, st: StoreView<L>, g: int, p: int, q: int)
    requires
        fits(v, st),
        0 <= g < v.len(),
        v.is_exclusive_group(g),
        0 <= p < q < v.members(g).len(),
        v.is_arg(v.members(g)[p] as int),
        v.is_arg(v.members(g)[q] as int),
        st.occ[v.members(g)[p] as int].len() >= 1,
        st.occ[v.members(g)[q] as int].len() >= 1,
    ensures
        forall|j: int|
            0 <= j < st.occ[v.members(g)[p] as int].len() ==> diagnostics(v, st).contains(
                Diagnostic {
                    loc: #[trigger] st.occ[v.members(g)[p] as int][j],
                    kind: ErrorKind::ConflictingArgument {
                        this: v.members(g)[p],
                        conflict: v.members(g)[q],
                    },
                },
            ),
        forall|j: int|
            0 <= j < st.occ[v.members(g)[q] as int].len() ==> diagnostics(v, st).contains(
                Diagnostic {
                    loc: #[trigger] st.occ[v.members(g)[q] as int][j],
                    kind: ErrorKind::ConflictingArgument {
                        this: v.members(g)[q],
                        conflict: v.members(g)[p],
                    },
                },
            ),
{
    let occ = st.counts();
    let x = v.members(g)[p];
    let y = v.members(g)[q];
    let len = v.members(g).len() as int;
    assert(v.refs_ok_at(g));
    assert(v.rank[x as int] < v.rank[g]);
    assert(v.rank[y as int] < v.rank[g]);
    assert(v.count(occ, x as int) == occ[x as int]);
    assert(v.count(occ, y as int) == occ[y as int]);
    assert(v.count_members(occ, g, p + 1) >= 1);
    lemma_count_members_mono(v, occ, g, p + 1, q);
    assert(v.count_members(occ, g, q + 1) >= 2);
    lemma_count_members_mono(v, occ, g, q + 1, len);
    assert(v.count(occ, g) >= 2);
    assert(exclusive_diags(v, st, g) == exclusive_rows(v, st, g, len));
    lemma_row_within(v, st, g, p, q, len);
    lemma_rows_within(v, st, g, p, len);
    lemma_parts_within(v, st, g);
    let pair = pair_diags(v, st, g, p, q);
    lemma_within_trans(pair, exclusive_row(v, st, g, p, len), exclusive_rows(v, st, g, len));
    lemma_within_trans(pair, exclusive_rows(v, st, g, len), diagnostics(v, st));
    assert(v.flat(x as int) == seq![x]);
    assert(v.flat(y as int) == seq![y]);
    lemma_at_each_single(st.occ, x, Blame::Conflict { conflict: y });
    lemma_at_each_single(st.occ, y, Blame::Conflict { conflict: x });
    let sx = side(v, st, x as int, y as int);
    let sy = side(v, st, y as int, x as int);
    assert(pair == sx + sy);
    assert forall|j: int| 0 <= j < st.occ[x as int].len() implies diagnostics(v, st).contains(
        Diagnostic {
            loc: #[trigger] st.occ[x as int][j],
            kind: ErrorKind::ConflictingArgument { this: x, conflict: y },
        },
    ) by {
        assert(pair[j] == sx[j]);
    }
    assert forall|j: int| 0 <= j < st.occ[y as int].len() implies diagnostics(v, st).contains(
        Diagnostic {
            loc: #[trigger] st.occ[y as int][j],
            kind: ErrorKind::ConflictingArgument { this: y, conflict: x },
        },
    ) by {
        assert(pair[sx.len() + j] == sy[j]);
    }
}

/// Two groups that list each other admit no ranking: such a schema is
/// outside what [`crate::graph::Schema::finish`] accepts, and
/// [`crate::graph::Schema::try_finish`] reports it as circular.
pub proof fn law_circular_groups(v: SchemaView, x: int, y: int, kx: int, ky: int)
    requires
        0 <= x < v.len(),
        0 <= y < v.len(),
        0 <= kx < v.members(x).len(),
        0 <= ky < v.members(y).len(),
        v.members(x)[kx] == y,
        v.members(y)[ky] == x,
    ensures
        !v.acyclic(),
{
    if v.acyclic() {
        let r = choose|r: Seq<nat>| v.ranked_by(r);
        assert(r[v.members(x)[kx] as int] < r[x]);
        assert(r[v.members(y)[ky] as int] < r[y]);
    }
}


/// A store always fits its schema, so the laws above apply to what
/// [`OccurrenceStore::validate`] returns.
pub proof fn lemma_store_fits<'a, L: Copy, V>(st: &OccurrenceStore<'a, L, V>)
    requires
        st.inv(),
    ensures
        fits(st.schema()@, st@),
{
    st.lemma_inv();
    st.schema().lemma_ready();
}


proof fn lemma_at_each_kinds_in<L>(occ: Seq<Seq<L>>, owners: Seq<usize>, b: Blame, q: spec_fn(ErrorKind) -> bool)
    requires
        forall|k: int| 0 <= k < owners.len() ==> q(b.kind_for(#[trigger] owners[k])),
    ensures
        all_kinds(at_each(occ, owners, b), q),
    decreases owners.len(),
{
    if owners.len() > 0 {
        let a = owners.last();
        assert forall|k: int| 0 <= k < owners.drop_last().len() implies q(
            b.kind_for(#[trigger] owners.drop_last()[k]),
        ) by {
            assert(owners.drop_last()[k] == owners[k]);
        }
        lemma_at_each_kinds_in(occ, owners.drop_last(), b, q);
        let tail = occ[a as int].map_values(|l: L| Diagnostic { loc: l, kind: b.kind_for(a) });
        assert(q(b.kind_for(owners[owners.len() - 1])));
        assert(all_kinds(tail, q)) by {
            assert forall|k: int| 0 <= k < tail.len() implies q(#[trigger] tail[k].kind) by {}
        }
        lemma_all_concat(at_each(occ, owners.drop_last(), b), tail, q);
    }
}

/// No `requires` edge of entry `j` to `t` blames argument `a`, when `a` is
/// not among the arguments that `j` stands for.
proof fn lemma_requires_not_blaming<L>(v: SchemaView, st: StoreView<L>, j: int, k: int, a: usize, t: usize)
    requires
        k <= v.entries[j].requires.len(),
        forall|q: int|
            0 <= q < v.entries[j].requires.len() && v.entries[j].requires[q] == t ==> !v.flat(
                j,
            ).contains(a),
    ensures
        all_kinds(
            requires_diags(v, st, j, k),
            |x: ErrorKind| x != ErrorKind::MissingRequired { this: Some(a), required: t },
        ),
    decreases k,
{
    let q = |x: ErrorKind| x != ErrorKind::MissingRequired { this: Some(a), required: t };
    if k > 0 {
        lemma_requires_not_blaming(v, st, j, k - 1, a, t);
        let tk = v.entries[j].requires[k - 1];
        let b = Blame::Missing { required: tk };
        assert forall|p: int| 0 <= p < v.flat(j).len() implies q(b.kind_for(#[trigger] v.flat(j)[p])) by {
            if tk == t {
                assert(!v.flat(j).contains(a));
                assert(v.flat(j)[p] != a);
            }
        }
        lemma_at_each_kinds_in(st.occ, v.flat(j), b, q);
        lemma_all_concat(requires_diags(v, st, j, k - 1), requires_part(v, st, j, k - 1), q);
    }
}

/// The `requires` edges of argument `a` blame each occurrence of `a` once
/// for each edge to the missing `t`.
proof fn lemma_requires_count_own<L>(v: SchemaView, st: StoreView<L>, a: int, k0: int, k: int)
    requires
        fits(v, st),
        0 <= a < v.len(),
        v.is_arg(a),
        0 <= k0 < v.entries[a].requires.len(),
        k <= v.entries[a].requires.len(),
        st.occ[a].len() >= 1,
        !v.provided(st.counts(), v.entries[a].requires[k0] as int),
        forall|q: int|
            0 <= q < v.entries[a].requires.len() && q != k0 ==> v.entries[a].requires[q]
                != v.entries[a].requires[k0],
    ensures
        count_kind(
            requires_diags(v, st, a, k),
            ErrorKind::MissingRequired {
                this: Some(a as usize),
                required: v.entries[a].requires[k0],
            },
        ) == if k > k0 {
            st.occ[a].len()
        } else {
            0
        },
    decreases k,
{
    let t = v.entries[a].requires[k0];
    let kind = ErrorKind::MissingRequired { this: Some(a as usize), required: t };
    if k > 0 {
        lemma_requires_count_own(v, st, a, k0, k - 1);
        let part = requires_part(v, st, a, k - 1);
        lemma_count_concat(requires_diags(v, st, a, k - 1), part, kind);
        let tk = v.entries[a].requires[k - 1];
        assert(v.flat(a) == seq![a as usize]);
        lemma_at_each_single(st.occ, a as usize, Blame::Missing { required: tk });
        if k - 1 == k0 {
            assert(v.count(st.counts(), a) == st.counts()[a]);
            lemma_count_all(part, kind);
        } else {
            assert(tk != t);
            lemma_at_each_kinds(st.occ, v.flat(a), Blame::Missing { required: tk }, |x: ErrorKind| x != kind);
            lemma_count_none(part, kind);
        }
    }
}

/// When argument `a` occurs, the entry `t` that it requires was not
/// provided, `a` names `t` once among its `requires` edges, and no other
/// entry that requires `t` stands for `a`: the pass reports `a` missing `t`
/// exactly once per occurrence of `a`.
pub proof fn law_requires_count<L>(v: SchemaView, st: StoreView<L>, a: int, k0: int)
    requires
        fits(v, st),
        0 <= a < v.len(),
        v.is_arg(a),
        0 <= k0 < v.entries[a].requires.len(),
        st.occ[a].len() >= 1,
        !v.provided(st.counts(), v.entries[a].requires[k0] as int),
        forall|q: int|
            0 <= q < v.entries[a].requires.len() && q != k0 ==> v.entries[a].requires[q]
                != v.entries[a].requires[k0],
        forall|j: int, q: int|
            0 <= j < v.len() && j != a && 0 <= q < v.entries[j].requires.len()
                && v.entries[j].requires[q] == v.entries[a].requires[k0] ==> !v.flat(j).contains(
                a as usize,
            ),
    ensures
        count_kind(
            diagnostics(v, st),
            ErrorKind::MissingRequired {
                this: Some(a as usize),
                required: v.entries[a].requires[k0],
            },
        ) == st.occ[a].len(),
{
    let t = v.entries[a].requires[k0];
    let kind = ErrorKind::MissingRequired { this: Some(a as usize), required: t };
    let q = |x: ErrorKind| x != kind;
    assert forall|j: int| 0 <= j < v.len() implies count_kind(#[trigger] entry_diags(v, st, j), kind)
        == if j == a {
        st.occ[a].len()
    } else {
        0nat
    } by {
        lemma_entry_split(v, st, j);
        let d = duplicate_diags(v, st, j);
        let e = exclusive_diags(v, st, j);
        let r = required_diags(v, st, j);
        let rq = requires_diags(v, st, j, v.entries[j].requires.len() as int);
        let c = conflicts_diags(v, st, j, v.entries[j].conflicts.len() as int);
        let u = unexpected_diags(v, st, j);
        assert(all_kinds(d, q)) by {
            if v.is_single(j) && st.occ[j].len() > 1 {
                assert forall|k: int| 0 <= k < d.len() implies q(#[trigger] d[k].kind) by {}
            }
        }
        assert(all_kinds(e, q)) by {
            if v.is_exclusive_group(j) && v.count(st.counts(), j) >= 2 {
                lemma_rows_kinds(v, st, j, v.members(j).len() as int, q);
            }
        }
        lemma_conflicts_kinds(v, st, j, v.entries[j].conflicts.len() as int, q);
        assert(all_kinds(u, q)) by {
            if st.unexpected[j] {
                assert forall|x: usize| #[trigger] q(Blame::Unexpected.kind_for(x)) by {}
                lemma_at_each_kinds(st.occ, v.flat(j), Blame::Unexpected, q);
            }
        }
        lemma_count_none(d, kind);
        lemma_count_none(e, kind);
        lemma_count_none(r, kind);
        lemma_count_none(c, kind);
        lemma_count_none(u, kind);
        if j == a {
            lemma_requires_count_own(v, st, a, k0, v.entries[a].requires.len() as int);
        } else {
            lemma_requires_not_blaming(v, st, j, v.entries[j].requires.len() as int, a as usize, t);
            lemma_count_none(rq, kind);
        }
        assert(entry_diags(v, st, j) == d + e + r + rq + c + u);
        lemma_count_concat(d, e, kind);
        lemma_count_concat(d + e, r, kind);
        lemma_count_concat(d + e + r, rq, kind);
        lemma_count_concat(d + e + r + rq, c, kind);
        lemma_count_concat(d + e + r + rq + c, u, kind);
    }
    lemma_count_upto(v, st, a, v.len() as int, kind, st.occ[a].len());
}

} // verus!
