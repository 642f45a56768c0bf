use fish_env::{
    EnvDyn, EnvMode, EnvNull, EnvStack, EnvVarFlags, Environment, PwdEnvironment, SharedEnv,
    TestEnvironment, ENV_EXPORT, ENV_GLOBAL, ENV_LOCAL, ENV_UNIVERSAL,
};

fn s(text: &str) -> String {
    text.to_string()
}

fn sorted(mut names: Vec<String>) -> Vec<String> {
    names.sort();
    names
}

fn test_env(pairs: &[(&str, &str)]) -> TestEnvironment {
    TestEnvironment { vars: pairs.iter().map(|(k, v)| (k.to_string(), v.to_string())).collect() }
}

#[test]
fn null_environment_contains_nothing() {
    let shared = SharedEnv::new();
    let env = EnvNull::new();
    assert!(env.get(&shared, "PWD").is_none());
    assert!(env.getf(&shared, "x", EnvMode::from_bits(ENV_GLOBAL)).is_none());
    assert!(env.get_names(&shared, EnvMode::default_mode()).is_empty());
    assert_eq!(env.get_pwd_slash(&shared), "/");
}

#[test]
fn null_environment_ignores_the_shared_state() {
    let mut shared = SharedEnv::new();
    EnvStack::new().set_one(&mut shared, "x", EnvMode::from_bits(ENV_GLOBAL), s("v"));
    assert!(EnvNull::new().get(&shared, "x").is_none());
}

#[test]
fn test_environment_reads_its_list() {
    let shared = SharedEnv::new();
    let env = test_env(&[("a", "1"), ("b", "2"), ("a", "3")]);
    let a = env.get(&shared, "a").unwrap();
    assert_eq!(a.as_list(), &vec![s("3")]);
    assert_eq!(a.get_flags(), EnvVarFlags::default());
    assert_eq!(env.getf(&shared, "b", EnvMode::from_bits(ENV_EXPORT)).unwrap().as_string(), "2");
    assert!(env.get(&shared, "c").is_none());
    assert_eq!(sorted(env.get_names(&shared, EnvMode::default_mode())), vec![s("a"), s("b")]);
    assert!(TestEnvironment::default().vars.is_empty());
}

#[test]
fn pwd_environment_knows_the_working_directory() {
    let shared = SharedEnv::new();
    let parent = test_env(&[("a", "1"), ("PWD", "/ignored")]);
    let env = PwdEnvironment { parent, cwd: s("/work") };
    assert_eq!(env.get(&shared, "PWD").unwrap().as_string(), "/work");
    assert_eq!(env.get(&shared, "a").unwrap().as_string(), "1");
    assert_eq!(sorted(env.get_names(&shared, EnvMode::default_mode())), vec![s("PWD"), s("a")]);
    assert_eq!(env.get_pwd_slash(&shared), "/work/");
    let bare = PwdEnvironment::default();
    assert_eq!(bare.get_names(&shared, EnvMode::default_mode()), vec![s("PWD")]);
    assert_eq!(bare.get_pwd_slash(&shared), "/");
}

#[test]
fn pwd_slash_adds_a_slash_only_where_one_is_missing() {
    let shared = SharedEnv::new();
    assert_eq!(test_env(&[("PWD", "/usr/lib")]).get_pwd_slash(&shared), "/usr/lib/");
    assert_eq!(test_env(&[("PWD", "/usr/lib/")]).get_pwd_slash(&shared), "/usr/lib/");
    assert_eq!(test_env(&[("PWD", "/")]).get_pwd_slash(&shared), "/");
    assert_eq!(test_env(&[("PWD", "")]).get_pwd_slash(&shared), "/");
    assert_eq!(test_env(&[]).get_pwd_slash(&shared), "/");
}

#[test]
fn unless_empty_suppresses_records_without_values() {
    let mut shared = SharedEnv::new();
    let mut stack = EnvStack::new();
    let global = EnvMode::from_bits(ENV_GLOBAL);
    stack.set_empty(&mut shared, "empty", global);
    stack.set_one(&mut shared, "blank", global, s(""));
    stack.set_one(&mut shared, "full", global, s("v"));
    assert!(stack.get_unless_empty(&shared, "empty").is_none());
    assert!(stack.get_unless_empty(&shared, "missing").is_none());
    assert_eq!(stack.get_unless_empty(&shared, "blank").unwrap().as_list(), &vec![s("")]);
    assert_eq!(stack.getf_unless_empty(&shared, "full", global).unwrap().as_string(), "v");
    assert!(stack.getf_unless_empty(&shared, "full", EnvMode::from_bits(ENV_UNIVERSAL)).is_none());
    // Without local frames the local scope names the global frame.
    assert!(stack.getf_unless_empty(&shared, "full", EnvMode::from_bits(ENV_LOCAL)).is_some());
    assert!(stack.getf_unless_empty(&shared, "empty", EnvMode::from_bits(ENV_LOCAL)).is_none());
}

#[test]
fn wrapper_forwards_to_what_it_wraps() {
    let shared = SharedEnv::new();
    let env = EnvDyn::new(Box::new(test_env(&[("a", "1"), ("PWD", "/x")])));
    assert_eq!(env.get(&shared, "a").unwrap().as_string(), "1");
    assert_eq!(sorted(env.get_names(&shared, EnvMode::default_mode())), vec![s("PWD"), s("a")]);
    assert_eq!(env.get_pwd_slash(&shared), "/x/");
    let none = EnvDyn::new(Box::new(EnvNull::new()));
    assert!(none.get(&shared, "a").is_none());
}

#[test]
fn stack_is_an_environment() {
    fn pwd_of<E: Environment>(env: &E, shared: &SharedEnv) -> String {
        env.get_pwd_slash(shared)
    }
    let mut shared = SharedEnv::new();
    let mut stack = EnvStack::new();
    assert_eq!(pwd_of(&stack, &shared), "/");
    stack.set_pwd_from_getcwd(&mut shared, s("/home/me"));
    assert_eq!(pwd_of(&stack, &shared), "/home/me/");
    assert_eq!(pwd_of(&stack.snapshot(), &shared), "/home/me/");
}
