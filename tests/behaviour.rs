use plap::{
    new_attrs, ArgAction, ArgKind, ArgSchema, DefaultFormatter, Diagnostic, Error, ErrorFormatter,
    ErrorKind, GroupSchema, OccurrenceStore, Report, Schema, SchemaError, ValueState,
};

fn single() -> ArgSchema {
    ArgSchema::new()
}

fn kinds(r: &Report<u32>) -> Vec<(u32, String)> {
    r.diagnostics()
        .iter()
        .map(|d: &Diagnostic<u32>| (d.loc, format!("{:?}", d.kind)))
        .collect()
}

fn count_conflicts(r: &Report<u32>) -> usize {
    r.diagnostics()
        .iter()
        .filter(|d| matches!(d.kind, ErrorKind::ConflictingArgument { .. }))
        .count()
}

#[test]
fn scenario_required_name_and_conflicting_alias() {
    let mut b = Schema::new();
    let mut name = single();
    name.required();
    b.register_arg("name", name);
    let mut alias = single();
    alias.conflicts_with("name");
    b.register_arg("alias", alias);
    let s = b.try_finish().unwrap();
    assert!(s.is_ready());
    let name_i = s.i("name").unwrap();
    let alias_i = s.i("alias").unwrap();

    // `name` is required, so a pass with `alias` alone reports it missing,
    // at the anchor, and nothing else.
    let mut st: OccurrenceStore<u32, ()> = OccurrenceStore::new(&s, 0);
    st.record(alias_i, 20, ());
    let report = st.validate().unwrap_err();
    assert_eq!(report.len(), 1);
    assert_eq!(count_conflicts(&report), 0);
    assert!(matches!(report.get(0).kind, ErrorKind::MissingRequired { this: None, required } if required == name_i));
    assert_eq!(report.get(0).loc, 0);

    st.reset();
    st.record(name_i, 10, ());
    st.record(alias_i, 20, ());
    let report = st.validate().unwrap_err();
    assert_eq!(report.len(), 2);
    assert_eq!(count_conflicts(&report), 2);
    let d = report.diagnostics();
    assert!(d.iter().any(|d| d.loc == 10
        && matches!(d.kind, ErrorKind::ConflictingArgument { this, conflict } if this == name_i && conflict == alias_i)));
    assert!(d.iter().any(|d| d.loc == 20
        && matches!(d.kind, ErrorKind::ConflictingArgument { this, conflict } if this == alias_i && conflict == name_i)));
}

#[test]
fn scenario_exclusive_target_group() {
    let mut b = Schema::new();
    b.register_arg("file", single());
    b.register_arg("url", single());
    let mut g = GroupSchema::new();
    g.member("file").member("url");
    b.register_group("target", g);
    let s = b.finish();

    let mut st: OccurrenceStore<u32, ()> = OccurrenceStore::new(&s, 0);
    st.record(s.i("file").unwrap(), 1, ());
    assert!(st.validate().is_ok());
    st.record(s.i("url").unwrap(), 2, ());
    let report = st.validate().unwrap_err();
    assert_eq!(report.len(), 2);
    assert_eq!(count_conflicts(&report), 2);
    let locs: Vec<u32> = report.diagnostics().iter().map(|d| d.loc).collect();
    assert_eq!(locs, vec![1, 2]);
}

#[test]
fn scenario_verbose_three_times() {
    let mut b = Schema::new();
    b.register_arg("verbose", single());
    let s = b.finish();
    let v = s.i("verbose").unwrap();
    let mut st: OccurrenceStore<u32, ()> = OccurrenceStore::new(&s, 0);
    st.record(v, 1, ());
    st.record(v, 2, ());
    st.record(v, 3, ());
    let report = st.validate().unwrap_err();
    assert_eq!(report.len(), 2);
    for (d, loc) in report.diagnostics().iter().zip([2u32, 3]) {
        assert_eq!(d.loc, loc);
        assert!(matches!(d.kind, ErrorKind::DuplicateValue { this } if this == v));
    }
}

#[test]
fn single_argument_once_is_fine_and_n_times_gives_n_minus_one() {
    let mut b = Schema::new();
    b.register_arg("x", single());
    let s = b.finish();
    let x = s.i("x").unwrap();
    let mut st: OccurrenceStore<u32, ()> = OccurrenceStore::new(&s, 0);
    st.record(x, 1, ());
    assert!(st.validate().is_ok());
    for k in 2..=5u32 {
        st.record(x, k, ());
        assert_eq!(st.validate().unwrap_err().len(), (k - 1) as usize);
    }
}

#[test]
fn required_group_with_no_provided_member() {
    let mut b = Schema::new();
    b.register_arg("a", single());
    b.register_arg("b", single());
    let mut g = GroupSchema::new();
    g.member_all(&["a", "b"]).required().multiple();
    b.register_group("g", g);
    let s = b.finish();
    let gi = s.i("g").unwrap();
    let mut st: OccurrenceStore<u32, ()> = OccurrenceStore::new(&s, 99);
    let report = st.validate().unwrap_err();
    assert_eq!(report.len(), 1);
    assert_eq!(report.get(0).loc, 99);
    assert!(matches!(report.get(0).kind, ErrorKind::MissingRequired { this: None, required } if required == gi));
    st.record(s.i("b").unwrap(), 1, ());
    assert!(st.validate().is_ok());
}

#[test]
fn requires_reported_per_occurrence_then_satisfied_after_reset() {
    let mut b = Schema::new();
    let mut a = single();
    a.multiple().require("b");
    b.register_arg("a", a);
    b.register_arg("b", single());
    let s = b.finish();
    let (ai, bi) = (s.i("a").unwrap(), s.i("b").unwrap());
    let mut st: OccurrenceStore<u32, ()> = OccurrenceStore::new(&s, 0);
    st.record(ai, 1, ());
    st.record(ai, 2, ());
    let report = st.validate().unwrap_err();
    assert_eq!(report.len(), 2);
    for (d, loc) in report.diagnostics().iter().zip([1u32, 2]) {
        assert_eq!(d.loc, loc);
        assert!(matches!(d.kind, ErrorKind::MissingRequired { this: Some(t), required } if t == ai && required == bi));
    }
    st.reset();
    st.record(ai, 1, ());
    st.record(bi, 2, ());
    assert!(st.validate().is_ok());
}

#[test]
fn stale_occurrences_are_gone_after_reset() {
    let mut b = Schema::new();
    let mut a = single();
    a.required();
    b.register_arg("a", a);
    let s = b.finish();
    let mut st: OccurrenceStore<u32, ()> = OccurrenceStore::new(&s, 0);
    st.record(s.i("a").unwrap(), 1, ());
    assert!(st.validate().is_ok());
    st.reset();
    assert!(st.validate().is_err());
    assert!(st.locations(0).is_empty());
}

#[test]
fn circular_groups_are_refused() {
    let mut b = Schema::new();
    let mut x = GroupSchema::new();
    x.member("y");
    b.register_group("x", x);
    let mut y = GroupSchema::new();
    y.member("x");
    b.register_group("y", y);
    assert!(!b.is_ready());
    match b.try_finish() {
        Err(SchemaError::CircularGroups { group, member }) => {
            assert!(group == "x" || group == "y");
            assert!(member == "x" || member == "y");
            assert_ne!(group, member);
        }
        _ => panic!("circular groups were accepted"),
    }
}

#[test]
fn circular_groups_are_named_on_the_cycle() {
    let mut b = Schema::new();
    let mut z = GroupSchema::new();
    z.member("x");
    b.register_group("z", z);
    let mut x = GroupSchema::new();
    x.member("y");
    b.register_group("x", x);
    let mut y = GroupSchema::new();
    y.member("x");
    b.register_group("y", y);
    assert!(!b.is_ready());
    match b.try_finish() {
        Err(SchemaError::CircularGroups { group, member }) => {
            assert!(group == "x" || group == "y");
            assert!(member == "x" || member == "y");
            assert_ne!(group, member);
        }
        _ => panic!("circular groups were accepted"),
    }
}

#[test]
fn second_definition_is_detectable_beforehand() {
    let mut b = Schema::new();
    b.register_arg("arg1", single());
    b.register_arg("arg2", single());
    assert!(b.defines("arg1"));
    assert!(b.defines("arg2"));
    assert!(!b.defines("arg3"));
    assert_eq!(b.len(), 2);
}

#[test]
fn missing_definition_is_refused() {
    let mut b = Schema::new();
    let mut a = single();
    a.require("arg2");
    b.register_arg("arg1", a);
    assert!(b.defines("arg1"));
    assert!(!b.defines("arg2"));
    assert_eq!(b.i("arg2"), Some(1));
    match b.try_finish() {
        Err(SchemaError::MissingDefinition { name }) => assert_eq!(name, "arg2"),
        _ => panic!("missing definition was accepted"),
    }
}

#[test]
fn unexpected_argument_is_reported_at_each_occurrence() {
    let mut b = Schema::new();
    let mut a = single();
    a.multiple();
    b.register_arg("a", a);
    let s = b.finish();
    let ai = s.i("a").unwrap();
    let mut st: OccurrenceStore<u32, &str> = OccurrenceStore::new(&s, 0);
    st.record(ai, 4, "x");
    st.record(ai, 5, "y");
    assert_eq!(st.values(ai), &["x", "y"]);
    st.disallow(ai);
    let report = st.validate().unwrap_err();
    assert_eq!(kinds(&report), vec![
        (4, format!("{:?}", ErrorKind::UnexpectedArgument { this: ai })),
        (5, format!("{:?}", ErrorKind::UnexpectedArgument { this: ai })),
    ]);
}

#[test]
fn nested_groups_resolve_through_members() {
    let mut b = Schema::new();
    b.register_arg("a", single());
    b.register_arg("b", single());
    b.register_arg("c", single());
    let mut inner = GroupSchema::new();
    inner.member_all(&["a", "b"]).multiple();
    let mut outer = GroupSchema::new();
    outer.member_all(&["inner", "c"]);
    b.register_group("outer", outer);
    b.register_group("inner", inner);
    let s = b.finish();
    let mut st: OccurrenceStore<u32, ()> = OccurrenceStore::new(&s, 0);
    st.record(s.i("a").unwrap(), 1, ());
    st.record(s.i("b").unwrap(), 2, ());
    let states = st.resolve();
    assert_eq!(states[s.i("inner").unwrap()], ValueState::ProvidedMany);
    assert_eq!(states[s.i("outer").unwrap()], ValueState::Provided);
    assert!(st.validate().is_ok());
    st.record(s.i("c").unwrap(), 3, ());
    let report = st.validate().unwrap_err();
    assert_eq!(count_conflicts(&report), 3);
}

#[test]
fn default_formatter_joins_names() {
    let f = DefaultFormatter::new();
    let names = |v: &[&str]| v.iter().map(|s| s.to_string()).collect::<Vec<String>>();
    let missing = |v: &[&str]| Error::MissingRequired { this: None, required: names(v) };
    assert_eq!(f.fmt(&missing(&[])), "requires ");
    assert_eq!(f.fmt(&missing(&["a"])), "requires `a`");
    assert_eq!(f.fmt(&missing(&["a", "b"])), "requires `a` or `b`");
    assert_eq!(f.fmt(&missing(&["a", "b", "c"])), "requires one of `a`, `b`, or `c`");
    assert_eq!(
        f.fmt(&Error::ArgConflict { this: "x".to_string(), conflict: names(&["y"]) }),
        "`x` conflicts with `y`"
    );
    assert_eq!(f.fmt(&Error::DuplicateArg { this: "x".to_string() }), "`x` is duplicate");
    assert_eq!(f.fmt(&Error::UnexpectedArg { this: "x".to_string() }), "`x` is not allowed");
    assert_eq!(f.fmt(&Error::UnknownArg { this: "x".to_string() }), "`x` is unknown");
    assert_eq!(f.fmt(&Error::InvalidInput), "invalid input");
    assert_eq!(
        f.fmt(&Error::MissingRequired { this: Some("x".to_string()), required: names(&["y"]) }),
        "`x` requires `y`"
    );
}

#[test]
fn formatter_namespace_and_purity() {
    let f = DefaultFormatter::builder().namespace("ns").build();
    assert_eq!(f.namespace(), Some("ns"));
    assert_eq!(DefaultFormatter::new().namespace(), None);
    let e = Error::MissingRequired { this: Some("x".to_string()), required: vec!["a".to_string(), "b".to_string()] };
    let first = f.fmt(&e);
    assert_eq!(first, "`ns.x` requires `ns.a` or `ns.b`");
    assert_eq!(f.fmt(&e), first);
}

#[test]
fn report_messages_name_flattened_targets() {
    let mut b = Schema::new();
    let mut a = single();
    a.require("g");
    b.register_arg("a", a);
    b.register_arg("x", single());
    b.register_arg("y", single());
    let mut g = GroupSchema::new();
    g.member_all(&["x", "y"]);
    b.register_group("g", g);
    let s = b.finish();
    let mut st: OccurrenceStore<u32, ()> = OccurrenceStore::new(&s, 0);
    st.record(s.i("a").unwrap(), 7, ());
    let report = st.validate().unwrap_err();
    let msgs = report.messages(&s, &DefaultFormatter::new());
    assert_eq!(msgs, vec![(7, "`a` requires `x` or `y`".to_string())]);
}

#[test]
fn front_end_diagnostics_combine_into_one_report() {
    let mut r: Report<u32> = Report::new();
    assert!(r.is_empty());
    r.combine(Diagnostic { loc: 3, kind: ErrorKind::UnknownArgument { name: "zz".to_string() } });
    r.combine(Diagnostic { loc: 4, kind: ErrorKind::InvalidInput });
    let s = Schema::new().finish();
    let msgs = r.messages(&s, &DefaultFormatter::new());
    assert_eq!(msgs, vec![(3, "`zz` is unknown".to_string()), (4, "invalid input".to_string())]);
    assert!(r.finish().is_err());
    assert!(Report::<u32>::new().finish().is_ok());
}

#[test]
fn help_text_is_trimmed() {
    let mut a = ArgSchema::new();
    a.help("  first line \n");
    assert_eq!(a.help, "first line");
    a.is_flag().optional();
    assert_eq!(a.kind, ArgKind::Flag);
    assert!(a.optional);
    assert_eq!(a.action, ArgAction::Single);
}

#[test]
fn help_text_is_kept_by_the_schema() {
    let mut b = Schema::new();
    let mut a = single();
    a.help(" Argument #1 ");
    let i = b.register_arg("arg1", a);
    let s = b.finish();
    assert_eq!(s.help(i), "Argument #1");
}

#[test]
fn arg_attrs_builders() {
    let mut at = new_attrs();
    assert_eq!(at.get_kind(), ArgKind::TokenTree);
    assert!(!at.get_optional());
    at.is_expr().optional();
    assert_eq!(at.get_kind(), ArgKind::Expr);
    assert!(at.get_optional());
    at.is_help();
    assert_eq!(at.get_kind(), ArgKind::Help);
}

#[test]
fn interning_is_idempotent_and_groups_have_handles() {
    let mut b = Schema::new();
    let mut a = single();
    a.requires_all(&["x", "y"]).conflicts_with_all(&["x"]);
    let ai = b.register_arg("a", a);
    assert_eq!(ai, 0);
    assert_eq!(b.i("x"), Some(1));
    assert_eq!(b.i("y"), Some(2));
    assert_eq!(b.len(), 3);
    let xi = b.register_arg("x", single());
    assert_eq!(xi, 1);
    let mut g = GroupSchema::new();
    g.member("x");
    assert_eq!(b.register_group("y", g), 2);
    assert_eq!(b.id(2).as_str(), "y");
    assert_eq!(b.help(2), "");
    let s = b.finish();
    assert!(s.is_ready());
    assert_eq!(s.init_group("y").id(), 2);
    assert!(s.is_group(2));
    assert!(!s.is_group(s.i("x").unwrap()));
    assert!(s.i("nope").is_none());
}
