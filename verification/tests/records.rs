use fish_env::text::{add_name, clone_strings, from_chars, join_strings, list_has, str_eq, to_chars};
use fish_env::{
    c_string_bytes, EnvMode, EnvVar, EnvVarFlags, VarTable, ENV_EXPORT, ENV_GLOBAL, ENV_LOCAL,
    ENV_PATHVAR, ENV_UNIVERSAL, ENV_USER,
};

fn s(text: &str) -> String {
    text.to_string()
}

fn list(items: &[&str]) -> Vec<String> {
    items.iter().map(|item| item.to_string()).collect()
}

#[test]
fn record_of_one_value() {
    let var = EnvVar::new(s("v"), EnvVarFlags::default());
    assert_eq!(var.as_list(), &list(&["v"]));
    assert_eq!(var.as_string(), "v");
    assert!(!var.is_empty());
    assert!(!var.exports() && !var.is_read_only() && !var.is_pathvar());
}

#[test]
fn record_joins_with_space_or_colon() {
    let flags = EnvVarFlags { exports: true, read_only: false, pathvar: false };
    assert_eq!(EnvVar::new_vec(list(&["a", "b", "c"]), flags).as_string(), "a b c");
    let path = EnvVarFlags { exports: false, read_only: false, pathvar: true };
    assert_eq!(EnvVar::new_vec(list(&["a", "b", "c"]), path).as_string(), "a:b:c");
    assert_eq!(EnvVar::new_vec(Vec::new(), path).as_string(), "");
    assert_eq!(EnvVar::new_vec(list(&["", ""]), path).as_string(), ":");
}

#[test]
fn record_equality_is_structural() {
    let flags = EnvVarFlags::default();
    let a = EnvVar::new_vec(list(&["x", "y"]), flags);
    assert!(a.same_as(&a.clone()));
    assert_eq!(a, a.clone());
    assert!(!a.same_as(&EnvVar::new_vec(list(&["x"]), flags)));
    assert!(!a.same_as(&EnvVar::new_vec(list(&["y", "x"]), flags)));
    let exported = EnvVarFlags { exports: true, read_only: false, pathvar: false };
    assert!(!a.same_as(&EnvVar::new_vec(list(&["x", "y"]), exported)));
}

#[test]
fn mode_bits_decode() {
    let mode = EnvMode::from_bits(ENV_LOCAL | ENV_EXPORT | ENV_USER);
    assert!(mode.is_local() && mode.is_export() && mode.is_user());
    assert!(!mode.is_global() && !mode.is_universal() && !mode.is_pathvar());
    let none = EnvMode::default_mode();
    assert_eq!(none.bits, 0);
    assert!(!none.is_local() && !none.is_global() && !none.is_universal());
    let both = EnvMode::from_bits(ENV_GLOBAL).union(EnvMode::from_bits(ENV_PATHVAR));
    assert_eq!(both.bits, ENV_GLOBAL | ENV_PATHVAR);
    assert!(both.is_global() && both.is_pathvar() && !both.is_universal());
    assert!(EnvMode::from_bits(ENV_UNIVERSAL).is_universal());
}

#[test]
fn table_insert_get_remove() {
    let mut table = VarTable::new();
    assert_eq!(table.len(), 0);
    table.insert(s("a"), EnvVar::new(s("1"), EnvVarFlags::default()));
    table.insert(s("b"), EnvVar::new(s("2"), EnvVarFlags::default()));
    table.insert(s("a"), EnvVar::new(s("3"), EnvVarFlags::default()));
    assert_eq!(table.len(), 2);
    assert_eq!(table.get("a").unwrap().as_string(), "3");
    assert!(table.contains("b") && !table.contains("c"));
    assert_eq!(table.entry(1).0, "b");
    assert!(table.remove("a"));
    assert!(!table.remove("a"));
    assert!(table.get("a").is_none());
    assert_eq!(table.clone().len(), 1);
}

#[test]
fn table_from_and_to_pairs() {
    let pairs = vec![
        (s("a"), EnvVar::new(s("1"), EnvVarFlags::default())),
        (s("b"), EnvVar::new(s("2"), EnvVarFlags::default())),
        (s("a"), EnvVar::new(s("3"), EnvVarFlags::default())),
    ];
    let table = VarTable::from_pairs(&pairs);
    let back: Vec<(String, String)> =
        table.to_pairs().into_iter().map(|(k, v)| (k, v.as_string())).collect();
    assert_eq!(back, vec![(s("a"), s("3")), (s("b"), s("2"))]);
}

#[test]
fn string_helpers() {
    assert!(str_eq("abc", "abc"));
    assert!(!str_eq("abc", "abd"));
    assert!(!str_eq("abc", "ab"));
    assert!(str_eq("é", "é"));
    assert_eq!(to_chars("aé"), vec!['a', 'é']);
    assert_eq!(from_chars(&vec!['a', 'b', 'c', 'd'], 1, 3), "bc");
    assert_eq!(from_chars(&vec!['a'], 1, 1), "");
    assert_eq!(clone_strings(&list(&["x", ""])), list(&["x", ""]));
    assert_eq!(join_strings(&list(&["a", "", "b"]), ','), "a,,b");
    assert_eq!(join_strings(&list(&["a"]), ','), "a");
    assert_eq!(join_strings(&Vec::new(), ','), "");
}

#[test]
fn c_strings_end_at_the_first_nul() {
    assert_eq!(c_string_bytes("A=b"), b"A=b\0".to_vec());
    assert_eq!(c_string_bytes("A=b\0c"), b"A=b\0".to_vec());
    assert_eq!(c_string_bytes("\0"), vec![0]);
    assert_eq!(c_string_bytes(""), vec![0]);
    assert_eq!(c_string_bytes("é"), vec![0xC3, 0xA9, 0]);
}

#[test]
fn name_lists() {
    let mut names = list(&["a"]);
    add_name(&mut names, "b");
    add_name(&mut names, "a");
    assert_eq!(names, list(&["a", "b"]));
    assert!(list_has(&names, "b"));
    assert!(!list_has(&names, "c"));
}
