use quickenv::context::{
    cache_file_name, cache_key, envrc_candidate, get_quickenv_home, join_path,
    resolve_envrc_context, search_step, shim_dir, shim_path, Probe, SearchStep,
};
use quickenv::error::Error;

#[test]
fn join_adds_a_slash_where_one_is_needed() {
    assert_eq!(join_path(b"/home/u", b"bin"), b"/home/u/bin".to_vec());
    assert_eq!(join_path(b"/home/u/", b"bin"), b"/home/u/bin".to_vec());
    assert_eq!(join_path(b"", b"bin"), b"bin".to_vec());
    assert_eq!(join_path(b"/", b"bin"), b"/bin".to_vec());
    assert_eq!(join_path(b"a", b""), b"a/".to_vec());
    assert_eq!(join_path(b"", b""), b"".to_vec());
}

#[test]
fn join_with_an_absolute_path_replaces_the_base() {
    assert_eq!(join_path(b"/home/u", b"/usr/bin"), b"/usr/bin".to_vec());
    assert_eq!(join_path(b"", b"/"), b"/".to_vec());
}

#[test]
fn candidate_is_the_activation_file_of_the_directory() {
    assert_eq!(envrc_candidate(b"/home/u/project"), b"/home/u/project/.envrc".to_vec());
    assert_eq!(envrc_candidate(b"/"), b"/.envrc".to_vec());
}

#[test]
fn shims_live_in_bin_below_home() {
    assert_eq!(shim_dir(b"/home/u/.quickenv/"), b"/home/u/.quickenv/bin".to_vec());
    assert_eq!(shim_dir(b"/qe"), b"/qe/bin".to_vec());
    assert_eq!(shim_path(b"/qe", b"hello"), b"/qe/bin/hello".to_vec());
    assert_eq!(shim_path(b"/qe", b"/abs/hello"), b"/abs/hello".to_vec());
}

#[test]
fn file_name_is_lower_case_hexadecimal() {
    assert_eq!(cache_file_name(&[]), b"".to_vec());
    assert_eq!(cache_file_name(&[0x00, 0x01, 0x0f, 0x10, 0xab, 0xff]), b"00010f10abff".to_vec());
    assert_eq!(cache_file_name(b"Hello world!"), b"48656c6c6f20776f726c6421".to_vec());
}

#[test]
fn cache_key_is_the_blake3_hash_of_the_path() {
    assert_eq!(
        cache_key(b""),
        b"af1349b9f5f9a1a6a0404dea36dcc9499bcb25c9adc112b7cc9a93cae41f3262".to_vec()
    );
    let path = b"/home/u/project/.envrc";
    let expected = blake3::hash(path).to_hex().to_string();
    assert_eq!(cache_key(path), expected.into_bytes());
    assert_eq!(cache_key(path).len(), 64);
    assert_ne!(cache_key(path), cache_key(b"/home/u/other/.envrc"));
    assert_eq!(cache_key(path), cache_key(path));
}

#[test]
fn context_is_derived_from_home_and_root() {
    let ctx = resolve_envrc_context(b"/home/u/.quickenv/", Some(b"/home/u/project")).unwrap();
    assert_eq!(ctx.root, b"/home/u/project".to_vec());
    assert_eq!(ctx.envrc_path, b"/home/u/project/.envrc".to_vec());
    assert_eq!(ctx.env_cache_dir, b"/home/u/.quickenv/envs/".to_vec());
    let mut expected = b"/home/u/.quickenv/envs/".to_vec();
    expected.extend_from_slice(blake3::hash(b"/home/u/project/.envrc").to_hex().as_bytes());
    assert_eq!(ctx.env_cache_path, expected);
}

#[test]
fn context_does_not_depend_on_the_content_of_the_file() {
    let one = resolve_envrc_context(b"/qe", Some(b"/p")).unwrap();
    let two = resolve_envrc_context(b"/qe", Some(b"/p")).unwrap();
    assert_eq!(one, two);
    assert_eq!(one.env_cache_dir, b"/qe/envs/".to_vec());
}

#[test]
fn search_without_result_is_no_envrc() {
    assert!(matches!(resolve_envrc_context(b"/qe", None), Err(Error::NoEnvrc)));
}

#[test]
fn home_is_taken_from_the_environment() {
    assert_eq!(
        get_quickenv_home(Some(b"/custom"), Some(b"/home/u")).unwrap(),
        b"/custom".to_vec()
    );
    assert_eq!(get_quickenv_home(Some(b"/custom"), None).unwrap(), b"/custom".to_vec());
    assert_eq!(
        get_quickenv_home(None, Some(b"/home/u")).unwrap(),
        b"/home/u/.quickenv/".to_vec()
    );
    assert_eq!(
        get_quickenv_home(None, Some(b"/home/u/")).unwrap(),
        b"/home/u/.quickenv/".to_vec()
    );
    assert!(matches!(get_quickenv_home(None, None), Err(Error::NoQuickenvHome)));
}

#[test]
fn search_ends_where_the_activation_file_is_opened() {
    assert!(matches!(search_step(Probe::Opened, true), SearchStep::Found));
    assert!(matches!(search_step(Probe::Opened, false), SearchStep::Found));
}

#[test]
fn search_goes_up_until_it_reaches_the_root() {
    assert!(matches!(search_step(Probe::Absent, true), SearchStep::Ascend));
    assert!(matches!(
        search_step(Probe::Absent, false),
        SearchStep::Fail(Error::NoEnvrc)
    ));
}

#[test]
fn activation_file_that_cannot_be_opened_is_an_io_failure() {
    let denied = std::io::Error::new(std::io::ErrorKind::PermissionDenied, "denied");
    match search_step(Probe::OpenFailed(denied), true) {
        SearchStep::Fail(Error::Io(e)) => {
            assert_eq!(e.kind(), std::io::ErrorKind::PermissionDenied)
        }
        _ => panic!("the search has to fail"),
    }
    let denied = std::io::Error::new(std::io::ErrorKind::PermissionDenied, "denied");
    assert!(matches!(
        search_step(Probe::OpenFailed(denied), false),
        SearchStep::Fail(Error::Io(_))
    ));
}
