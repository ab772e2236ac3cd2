use quickenv::dispatch::{
    amend_path, check_for_shim, entry_is_shim_dir, envvars_override, exec_arguments, exit_code,
    find_shimmed_binary, flag_is_set, is_tool_name, search_path, shimmed_binary, split_paths,
    transfer_mode, Invocation, PathEntry, TransferMode, FALLBACK_EXIT_CODE,
};
use quickenv::env::Env;
use quickenv::error::Error;

fn entry(raw: &str, canonical: Option<&str>) -> PathEntry {
    PathEntry {
        raw: raw.as_bytes().to_vec(),
        canonical: canonical.map(|path| path.as_bytes().to_vec()),
    }
}

fn cached(pairs: &[(&str, &str)]) -> Env {
    let mut env = Env::new();
    for (name, value) in pairs {
        env.insert(name.as_bytes().to_vec(), value.as_bytes().to_vec());
    }
    env
}

#[test]
fn own_name_is_never_a_shim() {
    assert_eq!(check_for_shim(b"quickenv"), Invocation::Tool);
    assert!(is_tool_name(b"quickenv"));
}

#[test]
fn any_other_name_is_a_shim() {
    assert_eq!(check_for_shim(b"hello"), Invocation::Shim);
    assert_eq!(check_for_shim(b"bash"), Invocation::Shim);
    assert_eq!(check_for_shim(b"quickenv2"), Invocation::Shim);
    assert_eq!(check_for_shim(b"Quickenv"), Invocation::Shim);
    assert_eq!(check_for_shim(b"quicken"), Invocation::Shim);
    assert_eq!(check_for_shim(b""), Invocation::Shim);
}

#[test]
fn flag_is_set_by_the_value_one_only() {
    assert!(flag_is_set(Some(b"1")));
    assert!(!flag_is_set(Some(b"0")));
    assert!(!flag_is_set(Some(b"")));
    assert!(!flag_is_set(Some(b"true")));
    assert!(!flag_is_set(Some(b"11")));
    assert!(!flag_is_set(None));
}

#[test]
fn missing_context_and_missing_cache_give_no_overrides() {
    assert_eq!(envvars_override(Ok(None)).unwrap(), Env::new());
    assert_eq!(envvars_override(Err(Error::NoEnvrc)).unwrap(), Env::new());
    let env = cached(&[("PATH", "bogus:/usr/bin"), ("X", "1")]);
    assert_eq!(envvars_override(Ok(Some(env.clone()))).unwrap(), env);
}

#[test]
fn other_failures_end_the_dispatch() {
    let denied = std::io::Error::new(std::io::ErrorKind::PermissionDenied, "denied");
    assert!(matches!(envvars_override(Err(Error::Io(denied))), Err(Error::Io(_))));
    assert!(matches!(
        envvars_override(Err(Error::NoQuickenvHome)),
        Err(Error::NoQuickenvHome)
    ));
}

#[test]
fn cached_path_comes_before_the_ambient_one() {
    let env = cached(&[("PATH", "bogus:/usr/bin")]);
    assert_eq!(search_path(&env, Some(b"/usr/bin")), Some(b"bogus:/usr/bin".to_vec()));
    assert_eq!(search_path(&env, None), Some(b"bogus:/usr/bin".to_vec()));
    assert_eq!(search_path(&Env::new(), Some(b"/usr/bin")), Some(b"/usr/bin".to_vec()));
    assert_eq!(search_path(&Env::new(), None), None);
    assert_eq!(search_path(&cached(&[("PATH", "")]), Some(b"/usr/bin")), Some(Vec::new()));
}

#[test]
fn search_path_is_cut_at_colons() {
    assert_eq!(
        split_paths(b"bogus:/usr/bin:/bin"),
        vec![b"bogus".to_vec(), b"/usr/bin".to_vec(), b"/bin".to_vec()]
    );
    assert_eq!(
        split_paths(b"hello:/usr/bin:"),
        vec![b"hello".to_vec(), b"/usr/bin".to_vec(), b"".to_vec()]
    );
    assert_eq!(split_paths(b""), vec![b"".to_vec()]);
}

#[test]
fn every_entry_that_is_the_shim_directory_is_taken_out() {
    let entries = vec![
        entry("/qe/bin", Some("/qe/bin")),
        entry("/usr/bin", Some("/usr/bin")),
        entry("/qe/bin", Some("/qe/bin")),
        entry("/bin", None),
        entry("/qe/bin", None),
    ];
    assert_eq!(amend_path(&entries, b"/qe/bin", None), b"/usr/bin:/bin".to_vec());
}

#[test]
fn entry_that_resolves_to_the_shim_directory_is_taken_out() {
    let entries = vec![
        entry("../.quickenv/bin", Some("/home/u/.quickenv/bin")),
        entry("/link/to/bin", Some("/home/u/.quickenv/bin")),
        entry("hello", None),
        entry("/usr/bin", Some("/usr/bin")),
    ];
    assert!(entry_is_shim_dir(&entries[0], b"/home/u/.quickenv/bin", None));
    assert!(!entry_is_shim_dir(&entries[2], b"/home/u/.quickenv/bin", None));
    assert_eq!(
        amend_path(&entries, b"/home/u/.quickenv/bin", None),
        b"hello:/usr/bin".to_vec()
    );
}

#[test]
fn entry_is_compared_with_the_resolved_shim_directory_too() {
    let entries = vec![
        entry("/link/qe/bin/", Some("/real/qe/bin")),
        entry("/real/qe/bin", None),
        entry("/usr/bin", Some("/usr/bin")),
    ];
    assert_eq!(
        amend_path(&entries, b"/link/qe/bin", Some(b"/real/qe/bin")),
        b"/real/qe/bin:/usr/bin".to_vec()
    );
    assert_eq!(
        amend_path(&entries, b"/link/qe/bin", None),
        b"/link/qe/bin/:/real/qe/bin:/usr/bin".to_vec()
    );
    let lookup = find_shimmed_binary(b"/link/qe", Some(b"/real/qe/bin"), Env::new(), &entries);
    assert_eq!(lookup.search_path, b"/real/qe/bin:/usr/bin".to_vec());
}

#[test]
fn empty_entries_are_kept_except_at_the_front() {
    let entries = vec![entry("", None), entry("/a", None), entry("", None), entry("/b", None), entry("", None)];
    assert_eq!(amend_path(&entries, b"/qe/bin", None), b"/a::/b:".to_vec());
    assert_eq!(amend_path(&Vec::new(), b"/qe/bin", None), b"".to_vec());
    assert_eq!(amend_path(&vec![entry("/qe/bin", None)], b"/qe/bin", None), b"".to_vec());
}

#[test]
fn lookup_runs_on_the_amended_path() {
    let overrides = cached(&[("MYVALUE", "canary"), ("PATH", "bogus:/qe/bin:/usr/bin")]);
    let entries = vec![
        entry("bogus", Some("/p/bogus")),
        entry("/qe/bin", Some("/qe/bin")),
        entry("/usr/bin", Some("/usr/bin")),
    ];
    let lookup = find_shimmed_binary(b"/qe", None, overrides, &entries);
    assert_eq!(lookup.search_path, b"bogus:/usr/bin".to_vec());
    assert_eq!(
        lookup.envvars_override,
        cached(&[("MYVALUE", "canary"), ("PATH", "bogus:/usr/bin")])
    );
}

#[test]
fn lookup_without_overrides_sets_the_path_alone() {
    let entries = vec![entry("/qe/bin", None), entry("/usr/bin", None)];
    let lookup = find_shimmed_binary(b"/qe/", None, Env::new(), &entries);
    assert_eq!(lookup.search_path, b"/usr/bin".to_vec());
    assert_eq!(lookup.envvars_override, cached(&[("PATH", "/usr/bin")]));
}

#[test]
fn nested_shim_sees_no_cached_variables_when_shims_are_off() {
    assert!(flag_is_set(Some(b"1")));
    let stale = cached(&[("MYVALUE", "stale"), ("PATH", "old:/usr/bin")]);
    let overrides = if flag_is_set(Some(b"1")) { Env::new() } else { stale };
    let entries: Vec<PathEntry> = split_paths(b"/qe/bin:/usr/bin")
        .into_iter()
        .map(|raw| PathEntry { raw, canonical: None })
        .collect();
    let lookup = find_shimmed_binary(b"/qe", None, overrides, &entries);
    assert_eq!(lookup.envvars_override, cached(&[("PATH", "/usr/bin")]));
    assert!(!lookup.envvars_override.contains_key(b"MYVALUE"));
}

#[test]
fn command_that_is_not_found_is_named() {
    let lookup = find_shimmed_binary(b"/qe", None, Env::new(), &Vec::new());
    match shimmed_binary(lookup, b"hello", None) {
        Err(name) => assert_eq!(name, b"hello".to_vec()),
        Ok(_) => panic!("nothing was found"),
    }
    let lookup = find_shimmed_binary(b"/qe", None, cached(&[("A", "1")]), &vec![entry("/usr/bin", None)]);
    let found = shimmed_binary(lookup, b"hello", Some(b"/usr/bin/hello".to_vec())).unwrap();
    assert_eq!(found.path, b"/usr/bin/hello".to_vec());
    assert_eq!(found.envvars_override, cached(&[("A", "1"), ("PATH", "/usr/bin")]));
}

#[test]
fn child_process_is_the_default_way_of_transfer() {
    assert_eq!(transfer_mode(None), TransferMode::Subprocess);
    assert_eq!(transfer_mode(Some(b"0")), TransferMode::Subprocess);
    assert_eq!(transfer_mode(Some(b"1")), TransferMode::Replace);
}

#[test]
fn replaced_process_gets_the_path_as_its_first_argument() {
    assert_eq!(
        exec_arguments(b"/usr/bin/hello", &vec![b"-n".to_vec(), b"world".to_vec()]),
        vec![b"/usr/bin/hello".to_vec(), b"-n".to_vec(), b"world".to_vec()]
    );
    assert_eq!(exec_arguments(b"/bin/true", &Vec::new()), vec![b"/bin/true".to_vec()]);
}

#[test]
fn exit_code_of_the_child_is_passed_on() {
    assert_eq!(exit_code(Some(0)), 0);
    assert_eq!(exit_code(Some(1)), 1);
    assert_eq!(exit_code(Some(130)), 130);
    assert_eq!(exit_code(None), 134);
    assert_eq!(FALLBACK_EXIT_CODE, 134);
}
