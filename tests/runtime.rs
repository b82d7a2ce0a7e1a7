use plap::{ArgAction, ArgSchema, GroupSchema, OccurrenceStore, Schema};

fn arg(f: impl FnOnce(&mut ArgSchema)) -> ArgSchema {
    let mut a = ArgSchema::new();
    a.action(ArgAction::Append);
    f(&mut a);
    a
}

fn group(members: &[&str], f: impl FnOnce(&mut GroupSchema)) -> GroupSchema {
    let mut g = GroupSchema::new();
    g.member_all(members);
    f(&mut g);
    g
}

fn plain() -> ArgSchema {
    arg(|_| {})
}

fn index(s: &Schema, name: &str) -> usize {
    s.i(name).unwrap()
}

#[test]
fn check_arg_state() {
    // required
    let mut b = Schema::new();
    b.register_arg("arg1", arg(|a| {
        a.required();
    }));
    let s = b.finish();
    let mut rt: OccurrenceStore<u32, ()> = OccurrenceStore::new(&s, 0);
    assert!(rt.validate().is_err());
    rt.record(index(&s, "arg1"), 1, ());
    assert!(rt.validate().is_ok());

    // at most one value when action is 'set'
    let mut b = Schema::new();
    b.register_arg("arg1", arg(|a| {
        a.action(ArgAction::Single);
    }));
    let s = b.finish();
    let mut rt: OccurrenceStore<u32, ()> = OccurrenceStore::new(&s, 0);
    assert!(rt.validate().is_ok());
    rt.record(index(&s, "arg1"), 1, ());
    assert!(rt.validate().is_ok());
    rt.record(index(&s, "arg1"), 2, ());
    assert!(rt.validate().is_err());

    // any count of arguments when action is 'append'
    let mut b = Schema::new();
    b.register_arg("arg1", arg(|a| {
        a.action(ArgAction::Append);
    }));
    let s = b.finish();
    let mut rt: OccurrenceStore<u32, ()> = OccurrenceStore::new(&s, 0);
    assert!(rt.validate().is_ok());
    rt.record(index(&s, "arg1"), 1, ());
    assert!(rt.validate().is_ok());
    rt.record(index(&s, "arg1"), 2, ());
    assert!(rt.validate().is_ok());

    // requires an argument
    let mut b = Schema::new();
    b.register_arg("arg1", plain());
    b.register_arg("arg2", arg(|a| {
        a.require("arg1");
    }));
    let s = b.finish();
    let mut rt: OccurrenceStore<u32, ()> = OccurrenceStore::new(&s, 0);
    rt.record(index(&s, "arg2"), 1, ());
    assert!(rt.validate().is_err());
    rt.record(index(&s, "arg1"), 2, ());
    assert!(rt.validate().is_ok());

    // requires a group
    let mut b = Schema::new();
    b.register_arg("arg1", plain());
    b.register_group("grp1", group(&["arg1"], |_| {}));
    b.register_arg("arg2", arg(|a| {
        a.require("grp1");
    }));
    let s = b.finish();
    let mut rt: OccurrenceStore<u32, ()> = OccurrenceStore::new(&s, 0);
    rt.record(index(&s, "arg2"), 1, ());
    assert!(rt.validate().is_err());
    rt.record(index(&s, "arg1"), 2, ());
    assert!(rt.validate().is_ok());

    // conflicts with an argument
    let mut b = Schema::new();
    b.register_arg("arg1", plain());
    b.register_arg("arg2", arg(|a| {
        a.conflicts_with("arg1");
    }));
    let s = b.finish();
    let mut rt: OccurrenceStore<u32, ()> = OccurrenceStore::new(&s, 0);
    rt.record(index(&s, "arg2"), 1, ());
    assert!(rt.validate().is_ok());
    rt.record(index(&s, "arg1"), 2, ());
    assert!(rt.validate().is_err());

    // conflicts with a group
    let mut b = Schema::new();
    b.register_arg("arg1", plain());
    b.register_group("grp1", group(&["arg1"], |_| {}));
    b.register_arg("arg2", arg(|a| {
        a.conflicts_with("grp1");
    }));
    let s = b.finish();
    let mut rt: OccurrenceStore<u32, ()> = OccurrenceStore::new(&s, 0);
    rt.record(index(&s, "arg2"), 1, ());
    assert!(rt.validate().is_ok());
    rt.record(index(&s, "arg1"), 2, ());
    assert!(rt.validate().is_err());
}

#[test]
fn check_group_state() {
    // required
    let mut b = Schema::new();
    b.register_arg("arg1", plain());
    b.register_group("grp1", group(&["arg1"], |g| {
        g.required();
    }));
    let s = b.finish();
    let mut rt: OccurrenceStore<u32, ()> = OccurrenceStore::new(&s, 0);
    assert!(rt.validate().is_err());
    rt.record(index(&s, "arg1"), 1, ());
    assert!(rt.validate().is_ok());

    // single-member group
    let mut b = Schema::new();
    b.register_arg("arg1", plain());
    b.register_arg("arg2", plain());
    b.register_group("grp1", group(&["arg1", "arg2"], |_| {}));
    let s = b.finish();
    let mut rt: OccurrenceStore<u32, ()> = OccurrenceStore::new(&s, 0);
    assert!(rt.validate().is_ok());
    rt.record(index(&s, "arg1"), 1, ());
    assert!(rt.validate().is_ok());
    rt.record(index(&s, "arg2"), 2, ());
    assert!(rt.validate().is_err());

    // multiple-members group
    let mut b = Schema::new();
    b.register_arg("arg1", plain());
    b.register_arg("arg2", plain());
    b.register_group("grp1", group(&["arg1", "arg2"], |g| {
        g.multiple();
    }));
    let s = b.finish();
    let mut rt: OccurrenceStore<u32, ()> = OccurrenceStore::new(&s, 0);
    assert!(rt.validate().is_ok());
    rt.record(index(&s, "arg1"), 1, ());
    assert!(rt.validate().is_ok());
    rt.record(index(&s, "arg2"), 2, ());
    assert!(rt.validate().is_ok());

    // requires an argument
    let mut b = Schema::new();
    b.register_arg("arg1", plain());
    b.register_arg("arg2", plain());
    b.register_group("grp1", group(&["arg2"], |g| {
        g.require("arg1");
    }));
    let s = b.finish();
    let mut rt: OccurrenceStore<u32, ()> = OccurrenceStore::new(&s, 0);
    rt.record(index(&s, "arg2"), 1, ());
    assert!(rt.validate().is_err());
    rt.record(index(&s, "arg1"), 2, ());
    assert!(rt.validate().is_ok());

    // requires a group
    let mut b = Schema::new();
    b.register_arg("arg1", plain());
    b.register_arg("arg2", plain());
    b.register_group("grp1", group(&["arg1"], |_| {}));
    b.register_group("grp2", group(&["arg2"], |g| {
        g.require("grp1");
    }));
    let s = b.finish();
    let mut rt: OccurrenceStore<u32, ()> = OccurrenceStore::new(&s, 0);
    rt.record(index(&s, "arg2"), 1, ());
    assert!(rt.validate().is_err());
    rt.record(index(&s, "arg1"), 2, ());
    assert!(rt.validate().is_ok());

    // conflicts with an argument
    let mut b = Schema::new();
    b.register_arg("arg1", plain());
    b.register_arg("arg2", plain());
    b.register_group("grp1", group(&["arg2"], |g| {
        g.conflicts_with("arg1");
    }));
    let s = b.finish();
    let mut rt: OccurrenceStore<u32, ()> = OccurrenceStore::new(&s, 0);
    rt.record(index(&s, "arg2"), 1, ());
    assert!(rt.validate().is_ok());
    rt.record(index(&s, "arg1"), 2, ());
    assert!(rt.validate().is_err());

    // conflicts with a group
    let mut b = Schema::new();
    b.register_arg("arg1", plain());
    b.register_arg("arg2", plain());
    b.register_group("grp1", group(&["arg1"], |_| {}));
    b.register_group("grp2", group(&["arg2"], |g| {
        g.conflicts_with("grp1");
    }));
    let s = b.finish();
    let mut rt: OccurrenceStore<u32, ()> = OccurrenceStore::new(&s, 0);
    rt.record(index(&s, "arg2"), 1, ());
    assert!(rt.validate().is_ok());
    rt.record(index(&s, "arg1"), 2, ());
    assert!(rt.validate().is_err());
}
