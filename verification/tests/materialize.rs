use quickenv::env::Env;
use quickenv::materialize::{
    activation_prelude, build_activation_script, compute_env_diff, compute_envvars,
};
use quickenv::protocol::parse_env_diff;

fn snapshot(pairs: &[(&str, &str)]) -> Env {
    let mut env = Env::new();
    for (name, value) in pairs {
        env.insert(name.as_bytes().to_vec(), value.as_bytes().to_vec());
    }
    env
}

#[test]
fn script_dumps_environment_around_the_activation_file() {
    let script = build_activation_script(b"eval \"$(direnv stdlib)\"", b"export PATH=bogus:$PATH\n");
    let expected = "\necho '// BEGIN QUICKENV-BEFORE'\nenv\necho '// END QUICKENV-BEFORE'\neval \"$(direnv stdlib)\"\nexport PATH=bogus:$PATH\n\necho '// BEGIN QUICKENV-AFTER'\nenv\necho '// END QUICKENV-AFTER'\n";
    assert_eq!(script, expected.as_bytes().to_vec());
}

#[test]
fn script_of_empty_parts_still_dumps_twice() {
    let script = build_activation_script(b"", b"");
    let expected = "\necho '// BEGIN QUICKENV-BEFORE'\nenv\necho '// END QUICKENV-BEFORE'\n\n\necho '// BEGIN QUICKENV-AFTER'\nenv\necho '// END QUICKENV-AFTER'\n";
    assert_eq!(script, expected.as_bytes().to_vec());
}

#[test]
fn prelude_defaults_to_direnv_stdlib() {
    assert_eq!(activation_prelude(None), b"eval \"$(direnv stdlib)\"".to_vec());
    assert_eq!(activation_prelude(Some(b"true")), b"true".to_vec());
    assert_eq!(activation_prelude(Some(b"")), b"".to_vec());
}

#[test]
fn diff_holds_new_and_changed_variables_only() {
    let before = snapshot(&[("HOME", "/home/u"), ("PATH", "/usr/bin"), ("GONE", "x"), ("SAME", "")]);
    let after = snapshot(&[("HOME", "/home/u"), ("PATH", "bogus:/usr/bin"), ("NEW", "1"), ("SAME", "")]);
    assert_eq!(
        compute_env_diff(&before, &after),
        snapshot(&[("PATH", "bogus:/usr/bin"), ("NEW", "1")])
    );
}

#[test]
fn diff_of_equal_snapshots_is_empty() {
    let env = snapshot(&[("A", "1"), ("B", "2")]);
    assert_eq!(compute_env_diff(&env, &env), Env::new());
    assert_eq!(compute_env_diff(&Env::new(), &Env::new()), Env::new());
    assert_eq!(compute_env_diff(&env, &Env::new()), Env::new());
    assert_eq!(compute_env_diff(&Env::new(), &env), env);
}

#[test]
fn cache_text_holds_the_diff_in_order() {
    let before = snapshot(&[("PATH", "/usr/bin")]);
    let after = snapshot(&[("PATH", "bogus:/usr/bin"), ("MYVALUE", "canary"), ("A", "x\ny")]);
    assert_eq!(
        compute_envvars(&before, &after, true),
        Some(b"A=x\ny\nMYVALUE=canary\nPATH=bogus:/usr/bin\n".to_vec())
    );
}

#[test]
fn failed_script_caches_nothing() {
    let before = snapshot(&[("PATH", "/usr/bin")]);
    let after = snapshot(&[("PATH", "bogus:/usr/bin")]);
    assert_eq!(compute_envvars(&before, &after, false), None);
    assert_eq!(compute_envvars(&Env::new(), &Env::new(), false), None);
    assert_eq!(compute_envvars(&Env::new(), &Env::new(), true), Some(Vec::new()));
}

#[test]
fn same_dumps_cache_the_same_text_whatever_the_script_printed() {
    let first = b"// BEGIN QUICKENV-BEFORE\nB=1\nA=0\n// END QUICKENV-BEFORE\nhello\n// BEGIN QUICKENV-AFTER\nB=2\nA=0\nC=3\n// END QUICKENV-AFTER\n";
    let second = b"noise\n// BEGIN QUICKENV-BEFORE\nA=0\nB=1\n// END QUICKENV-BEFORE\n// BEGIN QUICKENV-AFTER\nC=3\nA=0\nB=2\n// END QUICKENV-AFTER\nmore noise\n";
    let (old_one, new_one, _) = parse_env_diff(first);
    let (old_two, new_two, _) = parse_env_diff(second);
    let cached_one = compute_envvars(&old_one, &new_one, true);
    let cached_two = compute_envvars(&old_two, &new_two, true);
    assert_eq!(cached_one, Some(b"B=2\nC=3\n".to_vec()));
    assert_eq!(cached_one, cached_two);
    assert_eq!(compute_envvars(&old_one, &new_one, true), cached_one);
}

#[test]
fn run_of_export_path_caches_the_new_path() {
    let output = b"// BEGIN QUICKENV-BEFORE\nHOME=/home/u\nPATH=/usr/bin:/bin\n// END QUICKENV-BEFORE\n// BEGIN QUICKENV-AFTER\nHOME=/home/u\nPATH=bogus:/usr/bin:/bin\n// END QUICKENV-AFTER\n";
    let (old_env, new_env, script_output) = parse_env_diff(output);
    assert!(script_output.is_empty());
    assert_eq!(
        compute_envvars(&old_env, &new_env, true),
        Some(b"PATH=bogus:/usr/bin:/bin\n".to_vec())
    );
}

#[test]
fn value_printed_before_export_is_not_the_cached_one() {
    let output = b"// BEGIN QUICKENV-BEFORE\nPATH=/usr/bin\n// END QUICKENV-BEFORE\nthe value is\n// BEGIN QUICKENV-AFTER\nMYVALUE=canary\nPATH=/usr/bin\n// END QUICKENV-AFTER\n";
    let (old_env, new_env, script_output) = parse_env_diff(output);
    assert_eq!(script_output, vec![b"the value is".to_vec()]);
    assert!(!old_env.contains_key(b"MYVALUE"));
    assert_eq!(
        compute_envvars(&old_env, &new_env, true),
        Some(b"MYVALUE=canary\n".to_vec())
    );
}
