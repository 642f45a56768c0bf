use fish_env::{
    EnvMode, EnvStack, EnvStackSetResult, EnvVar, EnvVarFlags, Environment, SharedEnv, Statuses,
    ENV_EXPORT, ENV_GLOBAL, ENV_LOCAL, ENV_PATHVAR, ENV_UNIVERSAL, ENV_USER,
};

fn s(text: &str) -> String {
    text.to_string()
}

fn list(items: &[&str]) -> Vec<String> {
    items.iter().map(|item| item.to_string()).collect()
}

fn mode(bits: u16) -> EnvMode {
    EnvMode::from_bits(bits)
}

fn values(stack: &EnvStack, shared: &SharedEnv, key: &str) -> Option<Vec<String>> {
    stack.get(shared, key).map(|var| var.as_list().clone())
}

fn sorted(mut names: Vec<String>) -> Vec<String> {
    names.sort();
    names
}

#[test]
fn new_stack_has_no_frames_and_is_not_principal() {
    let shared = SharedEnv::new();
    let stack = EnvStack::new();
    assert!(!stack.is_principal());
    assert!(stack.get_names(&shared, EnvMode::default_mode()).is_empty());
    assert_eq!(stack.get_last_status(), 0);
}

#[test]
fn principal_and_globals_stacks_differ_in_identity() {
    assert!(EnvStack::principal().is_principal());
    assert!(!EnvStack::globals().is_principal());
}

#[test]
fn statuses_are_kept() {
    let mut stack = EnvStack::new();
    stack.set_last_statuses(Statuses { status: 3, pipestatus: vec![0, 1, 3] });
    assert_eq!(stack.get_last_status(), 3);
    let got = stack.get_last_statuses();
    assert_eq!(got.status, 3);
    assert_eq!(got.pipestatus, vec![0, 1, 3]);
    assert_eq!(Statuses::just(7).pipestatus, vec![7]);
}

#[test]
fn global_write_is_read_back() {
    let mut shared = SharedEnv::new();
    let mut stack = EnvStack::new();
    let r = stack.set(&mut shared, "x", mode(ENV_GLOBAL), list(&["1", "2"]));
    assert_eq!(r.status, EnvStackSetResult::ENV_OK);
    assert!(r.global_modified);
    assert!(!r.uvar_modified);
    assert!(r.dispatch);
    assert_eq!(values(&stack, &shared, "x"), Some(list(&["1", "2"])));
    assert!(shared.globals().contains("x"));
}

#[test]
fn default_scope_write_without_frames_goes_to_globals() {
    let mut shared = SharedEnv::new();
    let mut stack = EnvStack::new();
    let r = stack.set_one(&mut shared, "x", EnvMode::default_mode(), s("v"));
    assert_eq!(r.status, EnvStackSetResult::ENV_OK);
    assert!(r.global_modified);
    assert!(shared.globals().contains("x"));
}

#[test]
fn default_scope_write_of_new_name_goes_to_function_frame() {
    let mut shared = SharedEnv::new();
    let mut stack = EnvStack::new();
    stack.push(true);
    stack.push(false);
    let r = stack.set_one(&mut shared, "x", EnvMode::default_mode(), s("v"));
    assert_eq!(r.status, EnvStackSetResult::ENV_OK);
    assert!(!r.global_modified);
    assert!(!r.dispatch);
    // The block goes, the variable of the function stays.
    stack.pop(&shared);
    assert_eq!(values(&stack, &shared, "x"), Some(list(&["v"])));
    stack.pop(&shared);
    assert_eq!(values(&stack, &shared, "x"), None);
}

#[test]
fn default_scope_write_updates_the_variable_where_it_is() {
    let mut shared = SharedEnv::new();
    let mut stack = EnvStack::new();
    stack.set_one(&mut shared, "g", mode(ENV_GLOBAL), s("old"));
    stack.push(true);
    stack.set_one(&mut shared, "l", mode(ENV_LOCAL), s("old"));
    stack.push(false);
    let r = stack.set_one(&mut shared, "l", EnvMode::default_mode(), s("new"));
    assert!(!r.global_modified);
    let r = stack.set_one(&mut shared, "g", EnvMode::default_mode(), s("new"));
    assert!(r.global_modified);
    stack.pop(&shared);
    assert_eq!(values(&stack, &shared, "l"), Some(list(&["new"])));
    assert_eq!(values(&stack, &shared, "g"), Some(list(&["new"])));
}

#[test]
fn pop_restores_the_value_from_before_the_push() {
    let mut shared = SharedEnv::new();
    let mut stack = EnvStack::new();
    stack.set_one(&mut shared, "x", mode(ENV_GLOBAL), s("outer"));
    stack.push(false);
    stack.set_one(&mut shared, "x", mode(ENV_LOCAL), s("inner"));
    stack.set_one(&mut shared, "y", mode(ENV_LOCAL), s("temp"));
    assert_eq!(values(&stack, &shared, "x"), Some(list(&["inner"])));
    let popped = stack.pop(&shared);
    assert_eq!(sorted(popped.changed), list(&["x", "y"]));
    assert!(!popped.dispatch);
    assert_eq!(values(&stack, &shared, "x"), Some(list(&["outer"])));
    assert_eq!(values(&stack, &shared, "y"), None);
}

#[test]
fn pop_restores_after_nested_push_and_remove() {
    let mut shared = SharedEnv::new();
    let mut stack = EnvStack::new();
    stack.push(true);
    stack.set_one(&mut shared, "a", mode(ENV_LOCAL), s("1"));
    stack.push(true);
    stack.set_one(&mut shared, "a", mode(ENV_LOCAL), s("2"));
    stack.push(false);
    stack.set_one(&mut shared, "a", mode(ENV_LOCAL), s("3"));
    stack.remove(&mut shared, "a", mode(ENV_LOCAL));
    stack.pop(&shared);
    assert_eq!(values(&stack, &shared, "a"), Some(list(&["2"])));
    stack.pop(&shared);
    assert_eq!(values(&stack, &shared, "a"), Some(list(&["1"])));
}

#[test]
fn pop_reports_only_names_whose_visible_value_changed() {
    let mut shared = SharedEnv::new();
    let mut stack = EnvStack::principal();
    stack.set_one(&mut shared, "same", mode(ENV_GLOBAL), s("v"));
    stack.push(false);
    stack.set_one(&mut shared, "same", mode(ENV_LOCAL), s("v"));
    stack.set_one(&mut shared, "other", mode(ENV_LOCAL), s("w"));
    let popped = stack.pop(&shared);
    assert_eq!(popped.changed, list(&["other"]));
    assert!(popped.dispatch);
}

#[test]
fn pop_of_shadowing_frame_reports_revealed_names() {
    let mut shared = SharedEnv::new();
    let mut stack = EnvStack::new();
    stack.push(false);
    stack.set_one(&mut shared, "hidden", mode(ENV_LOCAL), s("v"));
    stack.push(true);
    let popped = stack.pop(&shared);
    assert_eq!(popped.changed, list(&["hidden"]));
}

#[test]
fn shadowing_push_hides_outer_locals() {
    let mut shared = SharedEnv::new();
    let mut stack = EnvStack::new();
    stack.push(false);
    stack.set_one(&mut shared, "outer", mode(ENV_LOCAL), s("v"));
    stack.set_one(&mut shared, "g", mode(ENV_GLOBAL), s("v"));
    stack.push(true);
    assert_eq!(values(&stack, &shared, "outer"), None);
    assert_eq!(stack.get_names(&shared, EnvMode::default_mode()), list(&["g"]));
    assert!(stack.get_names(&shared, mode(ENV_LOCAL)).is_empty());
    stack.pop(&shared);
    assert_eq!(values(&stack, &shared, "outer"), Some(list(&["v"])));
    assert_eq!(sorted(stack.get_names(&shared, EnvMode::default_mode())), list(&["g", "outer"]));
}

#[test]
fn block_push_keeps_outer_locals_visible() {
    let mut shared = SharedEnv::new();
    let mut stack = EnvStack::new();
    stack.push(true);
    stack.set_one(&mut shared, "outer", mode(ENV_LOCAL), s("v"));
    stack.push(false);
    assert_eq!(values(&stack, &shared, "outer"), Some(list(&["v"])));
    assert_eq!(stack.get_names(&shared, mode(ENV_LOCAL)), list(&["outer"]));
}

#[test]
fn local_scope_write_goes_to_the_innermost_frame() {
    let mut shared = SharedEnv::new();
    let mut stack = EnvStack::new();
    stack.push(true);
    stack.set_one(&mut shared, "x", mode(ENV_LOCAL), s("outer"));
    stack.push(false);
    stack.set_one(&mut shared, "x", mode(ENV_LOCAL), s("inner"));
    assert_eq!(values(&stack, &shared, "x"), Some(list(&["inner"])));
    stack.pop(&shared);
    assert_eq!(values(&stack, &shared, "x"), Some(list(&["outer"])));
}

#[test]
fn local_scope_names_the_global_frame_on_a_stack_without_frames() {
    let mut shared = SharedEnv::new();
    let mut stack = EnvStack::new();
    let r = stack.set_one(&mut shared, "x", mode(ENV_LOCAL), s("v"));
    assert_eq!(r.status, EnvStackSetResult::ENV_OK);
    assert!(r.global_modified);
    assert_eq!(stack.getf(&shared, "x", mode(ENV_LOCAL)).unwrap().as_string(), "v");
    assert_eq!(stack.get_names(&shared, mode(ENV_LOCAL)), list(&["x"]));
    assert_eq!(stack.snapshot().get_names(&shared, mode(ENV_LOCAL)), list(&["x"]));
    // With a local frame the local scope names that frame.
    stack.push(false);
    assert!(stack.getf(&shared, "x", mode(ENV_LOCAL)).is_none());
    assert!(stack.get_names(&shared, mode(ENV_LOCAL)).is_empty());
    assert_eq!(values(&stack, &shared, "x"), Some(list(&["v"])));
    stack.pop(&shared);
    let r = stack.remove(&mut shared, "x", mode(ENV_LOCAL));
    assert!(r.global_modified);
    assert!(stack.getf(&shared, "x", mode(ENV_LOCAL)).is_none());
}

#[test]
fn a_write_is_read_back_under_its_mode() {
    for frames in [0, 1, 2] {
        for bits in [
            0,
            ENV_LOCAL,
            ENV_GLOBAL,
            ENV_UNIVERSAL,
            ENV_EXPORT,
            ENV_LOCAL | ENV_EXPORT,
            ENV_GLOBAL | ENV_PATHVAR,
            ENV_UNIVERSAL | ENV_USER,
        ] {
            let mut shared = SharedEnv::new();
            let mut stack = EnvStack::new();
            for n in 0..frames {
                stack.push(n == 0);
            }
            let r = stack.set_one(&mut shared, "HOME", mode(bits), s("/home//me/"));
            assert_eq!(r.status, EnvStackSetResult::ENV_OK);
            let read = stack.getf(&shared, "HOME", mode(bits)).unwrap();
            assert_eq!(read.as_list(), &list(&["/home/me"]));
        }
    }
}

#[test]
fn reads_follow_the_scope_of_the_mode() {
    let mut shared = SharedEnv::new();
    let mut stack = EnvStack::new();
    stack.push(true);
    stack.set_one(&mut shared, "x", mode(ENV_LOCAL), s("local"));
    stack.set_one(&mut shared, "x", mode(ENV_GLOBAL), s("global"));
    stack.set_one(&mut shared, "x", mode(ENV_UNIVERSAL), s("universal"));
    let read = |m: u16| stack.getf(&shared, "x", mode(m)).map(|v| v.as_string());
    assert_eq!(read(0), Some(s("local")));
    assert_eq!(read(ENV_LOCAL), Some(s("local")));
    assert_eq!(read(ENV_GLOBAL), Some(s("global")));
    assert_eq!(read(ENV_UNIVERSAL), Some(s("universal")));
    assert_eq!(read(ENV_GLOBAL | ENV_UNIVERSAL), Some(s("global")));
}

#[test]
fn export_filter_on_reads() {
    let mut shared = SharedEnv::new();
    let mut stack = EnvStack::new();
    stack.set_one(&mut shared, "plain", mode(ENV_GLOBAL), s("v"));
    stack.set_one(&mut shared, "shown", mode(ENV_GLOBAL | ENV_EXPORT), s("v"));
    assert!(stack.getf(&shared, "plain", mode(ENV_EXPORT)).is_none());
    assert!(stack.getf(&shared, "shown", mode(ENV_EXPORT)).is_some());
    assert_eq!(stack.get_names(&shared, mode(ENV_EXPORT)), list(&["shown"]));
}

#[test]
fn write_sets_flags_from_the_mode() {
    let mut shared = SharedEnv::new();
    let mut stack = EnvStack::new();
    stack.set(&mut shared, "p", mode(ENV_GLOBAL | ENV_EXPORT | ENV_PATHVAR), list(&["a", "b"]));
    let var = stack.get(&shared, "p").unwrap();
    assert!(var.exports());
    assert!(var.is_pathvar());
    assert!(!var.is_read_only());
    assert_eq!(var.as_string(), "a:b");
    assert_eq!(
        var.get_flags(),
        EnvVarFlags { exports: true, read_only: false, pathvar: true }
    );
}

#[test]
fn set_empty_stores_no_values() {
    let mut shared = SharedEnv::new();
    let mut stack = EnvStack::new();
    let r = stack.set_empty(&mut shared, "e", mode(ENV_GLOBAL));
    assert_eq!(r.status, EnvStackSetResult::ENV_OK);
    let var = stack.get(&shared, "e").unwrap();
    assert!(var.is_empty());
    assert_eq!(var.as_string(), "");
    assert!(stack.get_unless_empty(&shared, "e").is_none());
}

#[test]
fn set_argv_is_local() {
    let mut shared = SharedEnv::new();
    let mut stack = EnvStack::new();
    stack.push(true);
    let r = stack.set_argv(&mut shared, list(&["a", "b"]));
    assert_eq!(r.status, EnvStackSetResult::ENV_OK);
    assert!(!r.global_modified);
    assert_eq!(values(&stack, &shared, "argv"), Some(list(&["a", "b"])));
    stack.pop(&shared);
    assert_eq!(values(&stack, &shared, "argv"), None);
}

fn read_only_globals() -> SharedEnv {
    let flags = EnvVarFlags { exports: false, read_only: true, pathvar: false };
    SharedEnv::with_globals(&vec![(s("version"), EnvVar::new(s("4"), flags))])
}

#[test]
fn read_only_variable_rejects_set_without_override() {
    let mut shared = read_only_globals();
    let mut stack = EnvStack::principal();
    for bits in [0, ENV_LOCAL, ENV_GLOBAL, ENV_UNIVERSAL, ENV_EXPORT] {
        let r = stack.set_one(&mut shared, "version", mode(bits), s("5"));
        assert_eq!(r.status, EnvStackSetResult::ENV_PERM);
        assert!(!r.global_modified && !r.uvar_modified && !r.dispatch);
        assert_eq!(values(&stack, &shared, "version"), Some(list(&["4"])));
    }
    assert!(!shared.uvars_locally_modified());
}

#[test]
fn read_only_variable_accepts_set_with_override_and_stays_read_only() {
    let mut shared = read_only_globals();
    let mut stack = EnvStack::new();
    let r = stack.set_one(&mut shared, "version", mode(ENV_GLOBAL | ENV_USER), s("5"));
    assert_eq!(r.status, EnvStackSetResult::ENV_OK);
    let var = stack.get(&shared, "version").unwrap();
    assert_eq!(var.as_list(), &list(&["5"]));
    assert!(var.is_read_only());
    let r = stack.set_one(&mut shared, "version", mode(ENV_GLOBAL), s("6"));
    assert_eq!(r.status, EnvStackSetResult::ENV_PERM);
}

#[test]
fn read_only_variable_rejects_remove_without_override() {
    let mut shared = read_only_globals();
    let mut stack = EnvStack::new();
    let r = stack.remove(&mut shared, "version", mode(ENV_GLOBAL));
    assert_eq!(r.status, EnvStackSetResult::ENV_PERM);
    assert_eq!(values(&stack, &shared, "version"), Some(list(&["4"])));
    let r = stack.remove(&mut shared, "version", mode(ENV_GLOBAL | ENV_USER));
    assert_eq!(r.status, EnvStackSetResult::ENV_OK);
    assert!(r.global_modified);
    assert_eq!(values(&stack, &shared, "version"), None);
}

#[test]
fn two_scopes_on_a_write_are_a_scoping_error() {
    let mut shared = SharedEnv::new();
    let mut stack = EnvStack::new();
    for bits in [ENV_LOCAL | ENV_GLOBAL, ENV_LOCAL | ENV_UNIVERSAL, ENV_GLOBAL | ENV_UNIVERSAL] {
        let r = stack.set_one(&mut shared, "x", mode(bits), s("v"));
        assert_eq!(r.status, EnvStackSetResult::ENV_SCOPE);
        assert_eq!(stack.remove(&mut shared, "x", mode(bits)).status, EnvStackSetResult::ENV_SCOPE);
    }
    assert_eq!(values(&stack, &shared, "x"), None);
}

#[test]
fn universal_scope_is_a_scoping_error_when_switched_off() {
    let mut shared = SharedEnv::new();
    shared.disable_universal_scope();
    let mut stack = EnvStack::new();
    let r = stack.set_one(&mut shared, "x", mode(ENV_UNIVERSAL), s("v"));
    assert_eq!(r.status, EnvStackSetResult::ENV_SCOPE);
    assert!(!r.uvar_modified);
    assert!(!shared.uvars_locally_modified());
    assert_eq!(values(&stack, &shared, "x"), None);
}

#[test]
fn no_write_reports_an_invalid_name() {
    let mut shared = SharedEnv::new();
    let mut stack = EnvStack::new();
    for key in ["", "a b", "=", "9"] {
        let r = stack.set_one(&mut shared, key, mode(ENV_GLOBAL), s("v"));
        assert_ne!(r.status, EnvStackSetResult::ENV_INVALID);
    }
}

#[test]
fn global_write_owes_one_notification_on_any_stack() {
    let mut shared = SharedEnv::new();
    let mut plain = EnvStack::new();
    let mut principal = EnvStack::principal();
    assert!(plain.set_one(&mut shared, "x", mode(ENV_GLOBAL), s("v")).dispatch);
    assert!(principal.set_one(&mut shared, "x", mode(ENV_GLOBAL), s("v")).dispatch);
}

#[test]
fn local_and_universal_writes_owe_a_notification_on_the_principal_stack_only() {
    let mut shared = SharedEnv::new();
    let mut plain = EnvStack::new();
    let mut principal = EnvStack::principal();
    plain.push(true);
    principal.push(true);
    assert!(!plain.set_one(&mut shared, "x", mode(ENV_LOCAL), s("v")).dispatch);
    assert!(principal.set_one(&mut shared, "x", mode(ENV_LOCAL), s("v")).dispatch);
    let r = plain.set_one(&mut shared, "u", mode(ENV_UNIVERSAL), s("v"));
    assert!(r.uvar_modified && !r.dispatch);
    let r = principal.set_one(&mut shared, "u", mode(ENV_UNIVERSAL), s("v"));
    assert!(r.uvar_modified && r.dispatch);
}

#[test]
fn refused_write_owes_no_notification() {
    let mut shared = read_only_globals();
    let mut principal = EnvStack::principal();
    assert!(!principal.set_one(&mut shared, "version", mode(ENV_GLOBAL), s("v")).dispatch);
}

#[test]
fn remove_by_default_scope_takes_the_visible_variable() {
    let mut shared = SharedEnv::new();
    let mut stack = EnvStack::new();
    stack.set_one(&mut shared, "x", mode(ENV_GLOBAL), s("global"));
    stack.set_one(&mut shared, "x", mode(ENV_UNIVERSAL), s("universal"));
    stack.push(true);
    stack.set_one(&mut shared, "x", mode(ENV_LOCAL), s("local"));
    let r = stack.remove(&mut shared, "x", EnvMode::default_mode());
    assert!(!r.global_modified && !r.uvar_modified);
    assert_eq!(values(&stack, &shared, "x"), Some(list(&["global"])));
    let r = stack.remove(&mut shared, "x", EnvMode::default_mode());
    assert!(r.global_modified && r.dispatch);
    assert_eq!(values(&stack, &shared, "x"), Some(list(&["universal"])));
    let r = stack.remove(&mut shared, "x", EnvMode::default_mode());
    assert!(r.uvar_modified);
    assert_eq!(values(&stack, &shared, "x"), None);
}

#[test]
fn remove_of_a_missing_name_is_ok_and_changes_nothing() {
    let mut shared = SharedEnv::new();
    let mut stack = EnvStack::new();
    stack.set_one(&mut shared, "x", mode(ENV_GLOBAL), s("v"));
    let r = stack.remove(&mut shared, "y", mode(ENV_GLOBAL));
    assert_eq!(r.status, EnvStackSetResult::ENV_OK);
    assert!(!r.global_modified && !r.uvar_modified && !r.dispatch);
    assert_eq!(values(&stack, &shared, "x"), Some(list(&["v"])));
}

#[test]
fn local_remove_takes_only_from_the_innermost_frame() {
    let mut shared = SharedEnv::new();
    let mut stack = EnvStack::new();
    stack.push(true);
    stack.set_one(&mut shared, "x", mode(ENV_LOCAL), s("outer"));
    stack.push(false);
    stack.remove(&mut shared, "x", mode(ENV_LOCAL));
    assert_eq!(values(&stack, &shared, "x"), Some(list(&["outer"])));
}

#[test]
fn snapshot_keeps_locals_and_reads_globals_through() {
    let mut shared = SharedEnv::new();
    let mut stack = EnvStack::new();
    stack.push(true);
    stack.set_one(&mut shared, "l", mode(ENV_LOCAL), s("before"));
    stack.set_one(&mut shared, "g", mode(ENV_GLOBAL), s("before"));
    let snapshot = stack.snapshot();
    stack.set_one(&mut shared, "l", mode(ENV_LOCAL), s("after"));
    stack.set_one(&mut shared, "fresh", mode(ENV_LOCAL), s("after"));
    stack.set_one(&mut shared, "g", mode(ENV_GLOBAL), s("after"));
    assert_eq!(snapshot.get(&shared, "l").unwrap().as_string(), "before");
    assert!(snapshot.get(&shared, "fresh").is_none());
    assert_eq!(snapshot.get(&shared, "g").unwrap().as_string(), "after");
    assert_eq!(stack.get(&shared, "l").unwrap().as_string(), "after");
    stack.pop(&shared);
    assert_eq!(snapshot.get(&shared, "l").unwrap().as_string(), "before");
    assert_eq!(sorted(snapshot.get_names(&shared, EnvMode::default_mode())), list(&["g", "l"]));
}

#[test]
fn export_array_holds_exactly_the_exported_visible_variables() {
    let mut shared = SharedEnv::new();
    let mut stack = EnvStack::new();
    stack.set(&mut shared, "G", mode(ENV_GLOBAL | ENV_EXPORT), list(&["a", "b"]));
    stack.set(&mut shared, "P", mode(ENV_GLOBAL | ENV_EXPORT | ENV_PATHVAR), list(&["a", "b"]));
    stack.set_one(&mut shared, "hidden", mode(ENV_GLOBAL), s("v"));
    stack.set_one(&mut shared, "U", mode(ENV_UNIVERSAL | ENV_EXPORT), s("u"));
    stack.push(true);
    stack.set_one(&mut shared, "L", mode(ENV_LOCAL | ENV_EXPORT), s("l"));
    stack.set_empty(&mut shared, "E", mode(ENV_LOCAL | ENV_EXPORT));
    assert_eq!(
        sorted(stack.export_array(&mut shared)),
        list(&["E=", "G=a b", "L=l", "P=a:b", "U=u"])
    );
}

#[test]
fn export_array_takes_the_visible_record_of_a_shadowed_name() {
    let mut shared = SharedEnv::new();
    let mut stack = EnvStack::new();
    stack.set_one(&mut shared, "X", mode(ENV_GLOBAL | ENV_EXPORT), s("global"));
    stack.set_one(&mut shared, "Y", mode(ENV_GLOBAL | ENV_EXPORT), s("global"));
    stack.push(false);
    stack.set_one(&mut shared, "X", mode(ENV_LOCAL | ENV_EXPORT), s("local"));
    stack.set_one(&mut shared, "Y", mode(ENV_LOCAL), s("local"));
    assert_eq!(stack.export_array(&mut shared), list(&["X=local"]));
    stack.pop(&shared);
    assert_eq!(sorted(stack.export_array(&mut shared)), list(&["X=global", "Y=global"]));
}

#[test]
fn export_lines_of_shared_variables_are_kept_until_a_shared_write() {
    let mut shared = SharedEnv::new();
    let mut stack = EnvStack::new();
    stack.set_one(&mut shared, "G", mode(ENV_GLOBAL | ENV_EXPORT), s("1"));
    assert!(!shared.has_export_cache());
    assert_eq!(stack.export_array(&mut shared), list(&["G=1"]));
    assert!(shared.has_export_cache());
    // Local writes leave the kept lines alone and still show.
    stack.push(false);
    stack.set_one(&mut shared, "L", mode(ENV_LOCAL | ENV_EXPORT), s("2"));
    assert!(shared.has_export_cache());
    assert_eq!(sorted(stack.export_array(&mut shared)), list(&["G=1", "L=2"]));
    stack.set_one(&mut shared, "G", mode(ENV_LOCAL | ENV_EXPORT), s("3"));
    assert_eq!(sorted(stack.export_array(&mut shared)), list(&["G=3", "L=2"]));
    // A global or universal write drops them.
    stack.set_one(&mut shared, "H", mode(ENV_GLOBAL | ENV_EXPORT), s("4"));
    assert!(!shared.has_export_cache());
    assert_eq!(sorted(stack.export_array(&mut shared)), list(&["G=3", "H=4", "L=2"]));
    stack.set_one(&mut shared, "U", mode(ENV_UNIVERSAL | ENV_EXPORT), s("5"));
    assert!(!shared.has_export_cache());
    assert_eq!(sorted(stack.export_array(&mut shared)), list(&["G=3", "H=4", "L=2", "U=5"]));
    stack.remove(&mut shared, "H", mode(ENV_GLOBAL));
    assert!(!shared.has_export_cache());
    assert_eq!(sorted(stack.export_array(&mut shared)), list(&["G=3", "L=2", "U=5"]));
}

#[test]
fn export_array_prefers_globals_over_universal_variables() {
    let mut shared = SharedEnv::new();
    let mut stack = EnvStack::new();
    stack.set_one(&mut shared, "A", mode(ENV_UNIVERSAL | ENV_EXPORT), s("u"));
    stack.set_one(&mut shared, "B", mode(ENV_UNIVERSAL | ENV_EXPORT), s("u"));
    stack.set_one(&mut shared, "A", mode(ENV_GLOBAL | ENV_EXPORT), s("g"));
    stack.set_one(&mut shared, "B", mode(ENV_GLOBAL), s("g"));
    assert_eq!(stack.export_array(&mut shared), list(&["A=g"]));
}

#[test]
fn synchronization_drops_the_kept_export_lines() {
    let mut shared = SharedEnv::new();
    let stack = EnvStack::new();
    stack.export_array(&mut shared);
    assert!(shared.has_export_cache());
    let flags = EnvVarFlags { exports: true, read_only: false, pathvar: false };
    stack.universal_sync(&mut shared, true, Some(vec![(s("U"), EnvVar::new(s("v"), flags))]));
    assert!(!shared.has_export_cache());
    assert_eq!(stack.export_array(&mut shared), list(&["U=v"]));
}

#[test]
fn two_stacks_share_globals_and_keep_their_locals() {
    let mut shared = SharedEnv::new();
    let mut principal = EnvStack::principal();
    let mut globals = EnvStack::globals();
    principal.push(true);
    principal.set_one(&mut shared, "l", mode(ENV_LOCAL), s("v"));
    principal.set_one(&mut shared, "g", mode(ENV_GLOBAL), s("v"));
    assert_eq!(values(&globals, &shared, "g"), Some(list(&["v"])));
    assert_eq!(values(&globals, &shared, "l"), None);
    globals.set_one(&mut shared, "g", mode(ENV_GLOBAL), s("w"));
    assert_eq!(values(&principal, &shared, "g"), Some(list(&["w"])));
}
