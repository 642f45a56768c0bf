use fish_env::{
    events_of, CallbackData, EnvMode, EnvStack, EnvStackSetResult, EnvUniversal, EnvVar,
    EnvVarFlags, Event, EventKind, SharedEnv, ENV_EXPORT, ENV_GLOBAL, ENV_UNIVERSAL,
};

fn s(text: &str) -> String {
    text.to_string()
}

fn plain(value: &str) -> EnvVar {
    EnvVar::new(s(value), EnvVarFlags::default())
}

fn mode(bits: u16) -> EnvMode {
    EnvMode::from_bits(bits)
}

fn told(events: &[Event]) -> Vec<(EventKind, String)> {
    let mut told: Vec<(EventKind, String)> =
        events.iter().map(|e| (e.kind, e.name.clone())).collect();
    told.sort_by(|a, b| a.1.cmp(&b.1));
    told
}

#[test]
fn event_constructors() {
    let set = Event::variable_set(s("a"));
    assert_eq!(set.kind, EventKind::VariableSet);
    assert_eq!(set.name, "a");
    let erase = Event::variable_erase(s("b"));
    assert_eq!(erase.kind, EventKind::VariableErase);
    assert_eq!(erase.name, "b");
}

#[test]
fn sync_without_dirty_flag_does_nothing() {
    let mut shared = SharedEnv::new();
    let stack = EnvStack::new();
    assert!(!shared.sync_needed(false));
    let out = stack.universal_sync(&mut shared, false, Some(vec![(s("theirs"), plain("v"))]));
    assert!(out.events.is_empty());
    assert!(!out.notify);
    assert!(shared.uvars().get("theirs").is_none());
}

#[test]
fn universal_write_raises_the_dirty_flag() {
    let mut shared = SharedEnv::new();
    let mut stack = EnvStack::new();
    assert!(!shared.uvars_locally_modified());
    let r = stack.set_one(&mut shared, "u", mode(ENV_UNIVERSAL), s("v"));
    assert_eq!(r.status, EnvStackSetResult::ENV_OK);
    assert!(r.uvar_modified && !r.global_modified);
    assert!(shared.uvars_locally_modified());
    assert!(shared.sync_needed(false));
}

#[test]
fn sync_after_universal_write_reports_the_name_and_clears_the_flag() {
    let mut shared = SharedEnv::new();
    let mut stack = EnvStack::new();
    stack.set_one(&mut shared, "u", mode(ENV_UNIVERSAL), s("v"));
    let out = stack.universal_sync(&mut shared, false, Some(Vec::new()));
    assert_eq!(told(&out.events), vec![(EventKind::VariableSet, s("u"))]);
    assert!(out.notify);
    assert!(!shared.uvars_locally_modified());
    assert_eq!(shared.uvars().get("u").unwrap().as_string(), "v");
    // Nothing is pending any more.
    let again = stack.universal_sync(&mut shared, true, Some(vec![(s("u"), plain("v"))]));
    assert!(again.events.is_empty());
    assert!(!again.notify);
}

#[test]
fn forced_sync_takes_changes_of_other_instances() {
    let mut shared = SharedEnv::new();
    let mut stack = EnvStack::new();
    stack.universal_sync(
        &mut shared,
        true,
        Some(vec![(s("kept"), plain("1")), (s("changed"), plain("1")), (s("gone"), plain("1"))]),
    );
    let out = stack.universal_sync(
        &mut shared,
        true,
        Some(vec![(s("kept"), plain("1")), (s("changed"), plain("2")), (s("new"), plain("3"))]),
    );
    assert_eq!(
        told(&out.events),
        vec![
            (EventKind::VariableSet, s("changed")),
            (EventKind::VariableErase, s("gone")),
            (EventKind::VariableSet, s("new")),
        ]
    );
    assert!(!out.notify);
    assert_eq!(stack.get(&shared, "changed").unwrap().as_string(), "2");
    assert!(stack.get(&shared, "gone").is_none());
    stack.set_one(&mut shared, "x", mode(ENV_GLOBAL), s("g"));
    assert!(!shared.sync_needed(false));
}

#[test]
fn own_changes_win_over_the_store() {
    let mut shared = SharedEnv::new();
    let mut stack = EnvStack::new();
    stack.universal_sync(
        &mut shared,
        true,
        Some(vec![(s("a"), plain("1")), (s("b"), plain("1"))]),
    );
    stack.set_one(&mut shared, "a", mode(ENV_UNIVERSAL), s("mine"));
    stack.remove(&mut shared, "b", mode(ENV_UNIVERSAL));
    let out = stack.universal_sync(
        &mut shared,
        false,
        Some(vec![(s("a"), plain("theirs")), (s("b"), plain("theirs")), (s("c"), plain("new"))]),
    );
    assert_eq!(
        told(&out.events),
        vec![
            (EventKind::VariableSet, s("a")),
            (EventKind::VariableErase, s("b")),
            (EventKind::VariableSet, s("c")),
        ]
    );
    assert!(out.notify);
    assert_eq!(stack.get(&shared, "a").unwrap().as_string(), "mine");
    assert!(stack.get(&shared, "b").is_none());
    let mut table: Vec<String> =
        shared.uvars().get_table().to_pairs().into_iter().map(|(k, _)| k).collect();
    table.sort();
    assert_eq!(table, vec![s("a"), s("c")]);
}

#[test]
fn rewriting_the_synced_value_is_no_change() {
    let mut shared = SharedEnv::new();
    let mut stack = EnvStack::new();
    stack.universal_sync(&mut shared, true, Some(vec![(s("a"), plain("1"))]));
    stack.set_one(&mut shared, "a", mode(ENV_UNIVERSAL), s("1"));
    assert!(shared.uvars_locally_modified());
    let out = stack.universal_sync(&mut shared, false, Some(vec![(s("a"), plain("1"))]));
    assert!(out.events.is_empty());
    assert!(!out.notify);
    assert!(!shared.uvars_locally_modified());
}

#[test]
fn failed_read_of_the_store_is_no_change_and_lowers_the_dirty_flag() {
    let mut shared = SharedEnv::new();
    let mut stack = EnvStack::new();
    stack.set_one(&mut shared, "u", mode(ENV_UNIVERSAL), s("v"));
    let out = stack.universal_sync(&mut shared, false, None);
    assert!(out.events.is_empty());
    assert!(!out.notify);
    assert_eq!(stack.get(&shared, "u").unwrap().as_string(), "v");
    // The flag is down: the next plain synchronization is not due.
    assert!(!shared.uvars_locally_modified());
    assert!(!shared.sync_needed(false));
    let again = stack.universal_sync(&mut shared, false, Some(Vec::new()));
    assert!(again.events.is_empty());
    assert_eq!(stack.get(&shared, "u").unwrap().as_string(), "v");
    // The write is still this instance's own, and goes out with the next
    // synchronization that is due.
    assert!(shared.uvars().is_pending("u"));
    let forced = stack.universal_sync(&mut shared, true, Some(Vec::new()));
    assert_eq!(told(&forced.events), vec![(EventKind::VariableSet, s("u"))]);
    assert!(forced.notify);
}

#[test]
fn sync_of_a_clean_state_with_an_unreadable_store_changes_nothing() {
    let mut shared = SharedEnv::new();
    let stack = EnvStack::new();
    let out = stack.universal_sync(&mut shared, true, None);
    assert!(out.events.is_empty() && !out.notify);
    assert!(!shared.uvars_locally_modified());
}

#[test]
fn events_follow_the_changes_in_their_order() {
    let changes = vec![
        CallbackData { key: s("A"), val: None },
        CallbackData { key: s("B"), val: Some(plain("v")) },
        CallbackData { key: s("A"), val: Some(plain("w")) },
    ];
    let events = events_of(&changes);
    let got: Vec<(EventKind, String)> = events.iter().map(|e| (e.kind, e.name.clone())).collect();
    assert_eq!(
        got,
        vec![
            (EventKind::VariableErase, s("A")),
            (EventKind::VariableSet, s("B")),
            (EventKind::VariableSet, s("A")),
        ]
    );
    assert!(events_of(&Vec::new()).is_empty());
}

#[test]
fn sync_does_nothing_when_universal_scope_is_off() {
    let mut shared = SharedEnv::new();
    shared.disable_universal_scope();
    let stack = EnvStack::new();
    assert!(shared.uvar_scope_is_global());
    assert!(!shared.sync_needed(true));
    let out = stack.universal_sync(&mut shared, true, Some(vec![(s("a"), plain("1"))]));
    assert!(out.events.is_empty());
    assert!(shared.uvars().get("a").is_none());
}

#[test]
fn later_entry_of_the_store_counts() {
    let mut shared = SharedEnv::new();
    let stack = EnvStack::new();
    let out = stack.universal_sync(
        &mut shared,
        true,
        Some(vec![(s("a"), plain("first")), (s("a"), plain("second"))]),
    );
    assert_eq!(told(&out.events), vec![(EventKind::VariableSet, s("a"))]);
    assert_eq!(shared.uvars().get("a").unwrap().as_string(), "second");
}

#[test]
fn universal_variables_are_found_after_locals_and_globals() {
    let mut shared = SharedEnv::new();
    let mut stack = EnvStack::new();
    stack.set_one(&mut shared, "x", mode(ENV_UNIVERSAL | ENV_EXPORT), s("u"));
    assert_eq!(stack.get(&shared, "x").unwrap().as_string(), "u");
    assert!(stack.get(&shared, "x").unwrap().exports());
    // Without a scope, an existing universal variable is written where it is.
    let r = stack.set_one(&mut shared, "x", EnvMode::default_mode(), s("u2"));
    assert!(r.uvar_modified);
    stack.set_one(&mut shared, "x", mode(ENV_GLOBAL), s("g"));
    assert_eq!(stack.get(&shared, "x").unwrap().as_string(), "g");
    assert_eq!(stack.getf(&shared, "x", mode(ENV_UNIVERSAL)).unwrap().as_string(), "u2");
}

#[test]
fn universal_table_of_its_own() {
    let mut uvars = EnvUniversal::new();
    let mut callbacks = Vec::new();
    uvars.initialize(&vec![(s("a"), plain("1")), (s("b"), plain("2"))], &mut callbacks);
    let mut keys: Vec<String> = callbacks.iter().map(|c| c.key.clone()).collect();
    keys.sort();
    assert_eq!(keys, vec![s("a"), s("b")]);
    assert!(callbacks.iter().all(|c| c.val.is_some()));
    assert!(!uvars.any_pending());
    uvars.set(s("a"), plain("9"));
    assert!(uvars.is_pending("a"));
    assert!(!uvars.is_pending("b"));
    assert!(uvars.remove("b"));
    assert!(!uvars.remove("zz"));
    assert!(uvars.any_pending());
    let mut callbacks = Vec::new();
    assert!(uvars.sync(&vec![(s("a"), plain("1")), (s("b"), plain("2"))], &mut callbacks));
    let mut got: Vec<(String, Option<String>)> =
        callbacks.iter().map(|c| (c.key.clone(), c.val.as_ref().map(|v| v.as_string()))).collect();
    got.sort();
    assert_eq!(got, vec![(s("a"), Some(s("9"))), (s("b"), None)]);
    assert_eq!(uvars.get("a").unwrap().as_string(), "9");
    assert!(uvars.get("b").is_none());
}
