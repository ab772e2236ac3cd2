use quickenv::cache::{
    cache_is_well_formed, get_envvars, line_is_accepted, parse_env_line, serialize_env,
};
use quickenv::env::Env;

fn env_with(pairs: &[(&str, &str)]) -> Env {
    let mut env = Env::new();
    for (name, value) in pairs {
        env.insert(name.as_bytes().to_vec(), value.as_bytes().to_vec());
    }
    env
}

#[test]
fn assignment_sets_variable_and_is_remembered() {
    let mut env = Env::new();
    let mut prev = None;
    parse_env_line(b"hello=world", &mut env, &mut prev);
    assert_eq!(env, env_with(&[("hello", "world")]));
    assert_eq!(prev, Some(b"hello".to_vec()));
}

#[test]
fn assignment_is_cut_at_its_first_separator() {
    let mut env = Env::new();
    let mut prev = None;
    parse_env_line(b"a=b=c", &mut env, &mut prev);
    assert_eq!(env, env_with(&[("a", "b=c")]));
    parse_env_line(b"=x", &mut env, &mut prev);
    assert_eq!(env.get(b""), Some(&b"x".to_vec()));
    assert_eq!(prev, Some(b"".to_vec()));
    parse_env_line(b"empty=", &mut env, &mut prev);
    assert_eq!(env.get(b"empty"), Some(&b"".to_vec()));
}

#[test]
fn continuation_extends_the_previous_variable() {
    let mut env = Env::new();
    let mut prev = None;
    parse_env_line(b"bogus=wogus", &mut env, &mut prev);
    parse_env_line(b"other=1", &mut env, &mut prev);
    parse_env_line(b"2", &mut env, &mut prev);
    parse_env_line(b"", &mut env, &mut prev);
    assert_eq!(env, env_with(&[("bogus", "wogus"), ("other", "1\n2\n")]));
    assert_eq!(prev, Some(b"other".to_vec()));
}

#[test]
fn later_assignment_wins() {
    let mut env = Env::new();
    let mut prev = None;
    parse_env_line(b"a=1", &mut env, &mut prev);
    parse_env_line(b"a=2", &mut env, &mut prev);
    assert_eq!(env, env_with(&[("a", "2")]));
}

#[test]
fn missing_cache_is_not_an_empty_cache() {
    assert_eq!(get_envvars(None), None);
    assert_eq!(get_envvars(Some(b"")), Some(Env::new()));
}

#[test]
fn cache_is_read_record_by_record() {
    let text = b"PATH=bogus:/usr/bin\nMULTI=one\ntwo\nthree\nLAST=x=y\n";
    assert!(cache_is_well_formed(text));
    assert_eq!(
        get_envvars(Some(text)),
        Some(env_with(&[
            ("PATH", "bogus:/usr/bin"),
            ("MULTI", "one\ntwo\nthree"),
            ("LAST", "x=y"),
        ]))
    );
}

#[test]
fn cache_without_final_newline_is_read() {
    assert_eq!(get_envvars(Some(b"a=1\nb=2")), Some(env_with(&[("a", "1"), ("b", "2")])));
}

#[test]
fn cache_may_not_open_with_a_continuation() {
    assert!(cache_is_well_formed(b""));
    assert!(cache_is_well_formed(b"a=1\nrest\n"));
    assert!(!cache_is_well_formed(b"rest\na=1\n"));
    assert!(!cache_is_well_formed(b"\na=1\n"));
    assert!(!cache_is_well_formed(b"\n"));
}

#[test]
fn snapshot_is_written_in_order_of_names() {
    let env = env_with(&[("b", "2"), ("a", "1\nx"), ("c", "")]);
    assert_eq!(serialize_env(&env), b"a=1\nx\nb=2\nc=\n".to_vec());
    assert_eq!(serialize_env(&Env::new()), b"".to_vec());
}

#[test]
fn round_trip_keeps_embedded_newlines() {
    let env = env_with(&[
        ("PATH", "bogus:/usr/bin"),
        ("SCRIPT", "line one\nline two\n\nline four\n"),
        ("EMPTY", ""),
        ("EQ", "a=b=c"),
        ("", "nameless"),
    ]);
    let text = serialize_env(&env);
    assert!(cache_is_well_formed(&text));
    assert_eq!(get_envvars(Some(&text)), Some(env));
}

#[test]
fn round_trip_fails_where_a_later_line_reads_as_assignment() {
    let env = env_with(&[("k", "a\nb=c")]);
    let text = serialize_env(&env);
    assert_eq!(text, b"k=a\nb=c\n".to_vec());
    assert_eq!(get_envvars(Some(&text)), Some(env_with(&[("k", "a"), ("b", "c")])));
}

#[test]
fn continuation_needs_a_variable_to_continue() {
    let mut env = Env::new();
    let mut prev = None;
    assert!(!line_is_accepted(b"orphan", &env, &prev));
    assert!(!line_is_accepted(b"", &env, &prev));
    assert!(line_is_accepted(b"a=1", &env, &prev));
    parse_env_line(b"a=1", &mut env, &mut prev);
    assert!(line_is_accepted(b"orphan", &env, &prev));
    assert!(line_is_accepted(b"", &env, &prev));
    assert!(!line_is_accepted(b"orphan", &Env::new(), &prev));
}
