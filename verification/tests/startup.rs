use fish_env::init::{abbreviation_of, unescape_string_var};
use fish_env::{
    env_init, repeats_exported_universal, EnvMode, EnvStack, EnvStackSetResult, EnvVar,
    EnvVarFlags, Position, SharedEnv, ENV_EXPORT, ENV_GLOBAL, ENV_UNIVERSAL,
};

fn s(text: &str) -> String {
    text.to_string()
}

fn var(values: &[&str], exports: bool, read_only: bool) -> EnvVar {
    EnvVar::new_vec(
        values.iter().map(|v| v.to_string()).collect(),
        EnvVarFlags { exports, read_only, pathvar: false },
    )
}

fn sorted(mut names: Vec<String>) -> Vec<String> {
    names.sort();
    names
}

fn unescape(text: &str) -> Option<String> {
    unescape_string_var(text)
}

#[test]
fn without_universal_variables_the_scope_is_switched_off() {
    let mut shared = SharedEnv::new();
    let init = env_init(&mut shared, false, &vec![(s("a"), var(&["1"], false, false))]);
    assert!(init.loaded.is_empty() && init.removed.is_empty() && init.abbreviations.is_empty());
    assert!(shared.uvar_scope_is_global());
    assert!(shared.uvars().get("a").is_none());
}

#[test]
fn every_loaded_name_is_reported() {
    let mut shared = SharedEnv::new();
    let stored = vec![(s("a"), var(&["1"], false, false)), (s("b"), var(&[], true, false))];
    let init = env_init(&mut shared, true, &stored);
    assert_eq!(sorted(init.loaded), vec![s("a"), s("b")]);
    assert!(init.removed.is_empty());
    assert!(!shared.uvar_scope_is_global());
    assert!(!shared.uvars_locally_modified());
    assert_eq!(shared.uvars().get("a").unwrap().as_string(), "1");
    let stack = EnvStack::new();
    assert_eq!(stack.get(&shared, "a").unwrap().as_string(), "1");
}

#[test]
fn global_export_equal_to_an_exported_universal_variable_is_unbound() {
    let mut shared = SharedEnv::new();
    let mut globals = EnvStack::globals();
    let mode = EnvMode::from_bits(ENV_GLOBAL | ENV_EXPORT);
    assert_eq!(
        globals.set_one(&mut shared, "T_FOO", mode, s("1")).status,
        EnvStackSetResult::ENV_OK
    );
    let init = env_init(&mut shared, true, &vec![(s("T_FOO"), var(&["1"], true, false))]);
    assert!(globals.getf(&shared, "T_FOO", mode).is_none());
    assert_eq!(init.loaded, vec![s("T_FOO")]);
    assert_eq!(init.removed, vec![s("T_FOO")]);
    // The universal variable shows in its place.
    assert_eq!(globals.get(&shared, "T_FOO").unwrap().as_string(), "1");
    assert!(!repeats_exported_universal(&shared, "T_FOO"));
}

#[test]
fn global_that_repeats_an_exported_universal_variable_is_removed() {
    let mut shared = SharedEnv::with_globals(&vec![
        (s("same"), var(&["v", "w"], true, false)),
        (s("differs"), var(&["other"], true, false)),
        (s("unexported"), var(&["v"], false, false)),
        (s("locked"), var(&["v"], true, true)),
        (s("global_only"), var(&["v"], true, false)),
    ]);
    let stored = vec![
        (s("same"), var(&["v", "w"], true, false)),
        (s("differs"), var(&["v"], true, false)),
        (s("unexported"), var(&["v"], true, false)),
        (s("locked"), var(&["v"], true, false)),
        (s("quiet"), var(&["v"], false, false)),
    ];
    let init = env_init(&mut shared, true, &stored);
    assert_eq!(init.removed, vec![s("same")]);
    assert!(!shared.globals().contains("same"));
    // A read-only variable stays although it repeats: its removal is
    // refused. All other globals stay as they were.
    assert!(repeats_exported_universal(&shared, "locked"));
    for kept in ["differs", "unexported", "locked", "global_only"] {
        assert!(shared.globals().contains(kept));
    }
    assert_eq!(shared.globals().get("differs").unwrap().as_string(), "other");
    let globals = EnvStack::globals();
    let mode = EnvMode::from_bits(ENV_GLOBAL | ENV_EXPORT);
    assert!(globals.getf(&shared, "same", mode).is_none());
    assert_eq!(globals.get(&shared, "same").unwrap().as_string(), "v w");
    // The universal table is what the store held.
    let mut table: Vec<String> =
        shared.uvars().get_table().to_pairs().into_iter().map(|(k, _)| k).collect();
    table.sort();
    assert_eq!(table, vec![s("differs"), s("locked"), s("quiet"), s("same"), s("unexported")]);
}

#[test]
fn repeating_needs_both_exported_and_the_same_text() {
    let globals = vec![
        (s("joined"), var(&["a b"], true, false)),
        (s("plain"), var(&["v"], true, false)),
    ];
    let mut shared = SharedEnv::with_globals(&globals);
    let mut stack = EnvStack::new();
    let mode = EnvMode::from_bits(ENV_UNIVERSAL | ENV_EXPORT);
    stack.set(&mut shared, "joined", mode, vec![s("a"), s("b")]);
    stack.set_one(&mut shared, "other", mode, s("v"));
    // Values are compared as joined text.
    assert!(repeats_exported_universal(&shared, "joined"));
    assert!(!repeats_exported_universal(&shared, "plain"));
    assert!(!repeats_exported_universal(&shared, "other"));
    assert!(!repeats_exported_universal(&shared, "missing"));
    // The start removes exactly the global that repeats.
    let mut fresh = SharedEnv::with_globals(&globals);
    let stored =
        vec![(s("joined"), var(&["a", "b"], true, false)), (s("other"), var(&["v"], true, false))];
    assert_eq!(env_init(&mut fresh, true, &stored).removed, vec![s("joined")]);
    assert!(fresh.globals().contains("plain"));
}

#[test]
fn abbreviations_are_imported_from_prefixed_variables() {
    let mut shared = SharedEnv::new();
    let stored = vec![
        (s("_fish_abbr_gco"), var(&["git", "checkout"], false, false)),
        (s("_fish_abbr_g_2D_x"), var(&["go"], false, false)),
        (s("_fish_abbr_bad_"), var(&["x"], false, false)),
        (s("fish_abbr_no"), var(&["x"], false, false)),
    ];
    let init = env_init(&mut shared, true, &stored);
    let mut got: Vec<(String, String, String)> = init
        .abbreviations
        .iter()
        .map(|a| (a.name.clone(), a.key.clone(), a.replacement.clone()))
        .collect();
    got.sort();
    assert_eq!(
        got,
        vec![(s("g-x"), s("g-x"), s("go")), (s("gco"), s("gco"), s("git checkout"))]
    );
    assert!(init
        .abbreviations
        .iter()
        .all(|a| a.position == Position::Command && a.from_universal));
}

#[test]
fn abbreviation_of_a_single_variable() {
    let abbr = abbreviation_of("_fish_abbr_ll", &var(&["ls", "-l"], false, false)).unwrap();
    assert_eq!(abbr.name, "ll");
    assert_eq!(abbr.key, "ll");
    assert_eq!(abbr.replacement, "ls -l");
    assert!(abbreviation_of("_fish_abbr", &var(&["x"], false, false)).is_none());
    assert!(abbreviation_of("ll", &var(&["x"], false, false)).is_none());
    assert_eq!(abbreviation_of("_fish_abbr_", &var(&[], false, false)).unwrap().name, "");
}

#[test]
fn unescape_plain_and_doubled_underscore() {
    assert_eq!(unescape("abc123"), Some(s("abc123")));
    assert_eq!(unescape("a__b"), Some(s("a_b")));
    assert_eq!(unescape(""), Some(s("")));
}

#[test]
fn unescape_hex_escapes() {
    assert_eq!(unescape("_2D_"), Some(s("-")));
    assert_eq!(unescape("a_2Fb"), Some(s("a/b")));
    assert_eq!(unescape("_2d_x"), Some(s("-x")));
    // The bytes of an escaped name are read as UTF-8.
    assert_eq!(unescape("_C3_A9_"), Some(s("é")));
}

#[test]
fn unescape_refuses_malformed_text() {
    assert_eq!(unescape("a_"), None);
    assert_eq!(unescape("_2"), None);
    assert_eq!(unescape("_2G"), None);
    assert_eq!(unescape("é"), None);
    // Bytes that are no UTF-8.
    assert_eq!(unescape("_FF_"), None);
}

#[test]
fn unescape_skips_a_separating_underscore() {
    assert_eq!(unescape("_2D_x_y"), Some(s("-xy")));
    assert_eq!(unescape("a_zb"), Some(s("azb")));
}
