use quickenv::env::Env;

fn env_from(pairs: &[(&str, &str)]) -> Env {
    let mut env = Env::new();
    for (name, value) in pairs {
        env.insert(name.as_bytes().to_vec(), value.as_bytes().to_vec());
    }
    env
}

fn entries(env: &Env) -> Vec<(Vec<u8>, Vec<u8>)> {
    (0..env.len())
        .map(|i| (env.name_at(i).clone(), env.value_at(i).clone()))
        .collect()
}

#[test]
fn new_snapshot_is_empty() {
    let env = Env::new();
    assert_eq!(env.len(), 0);
    assert_eq!(env.get(b"PATH"), None);
    assert!(!env.contains_key(b"PATH"));
}

#[test]
fn variables_are_kept_in_order_of_their_names() {
    let env = env_from(&[("b", "2"), ("a", "1"), ("c", "3"), ("ab", "4"), ("", "5")]);
    assert_eq!(
        entries(&env),
        vec![
            (b"".to_vec(), b"5".to_vec()),
            (b"a".to_vec(), b"1".to_vec()),
            (b"ab".to_vec(), b"4".to_vec()),
            (b"b".to_vec(), b"2".to_vec()),
            (b"c".to_vec(), b"3".to_vec()),
        ]
    );
}

#[test]
fn insert_replaces_the_value_of_a_known_name() {
    let mut env = env_from(&[("a", "1"), ("b", "2")]);
    env.insert(b"a".to_vec(), b"one".to_vec());
    assert_eq!(env.len(), 2);
    assert_eq!(env.get(b"a"), Some(&b"one".to_vec()));
    assert_eq!(env.get(b"b"), Some(&b"2".to_vec()));
    assert_eq!(env.position(b"b"), Some(1));
    assert_eq!(env.position(b"c"), None);
}

#[test]
fn order_of_insertion_does_not_show() {
    assert_eq!(
        env_from(&[("x", "1"), ("y", "2")]),
        env_from(&[("y", "2"), ("x", "1")])
    );
}

#[test]
fn extend_value_appends_to_one_variable() {
    let mut env = env_from(&[("a", "1"), ("b", "2")]);
    env.extend_value(b"a", b"\nmore");
    assert_eq!(env.get(b"a"), Some(&b"1\nmore".to_vec()));
    assert_eq!(env.get(b"b"), Some(&b"2".to_vec()));
}
