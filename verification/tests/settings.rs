use quickenv::dispatch::{check_for_shim, flag_is_set, uses_cached_diff, Invocation};
use quickenv::materialize::no_shim_setting;
use quickenv::settings;

#[test]
fn tool_is_known_by_its_name() {
    assert_eq!(settings::TOOL_NAME, "quickenv");
    assert_eq!(check_for_shim(settings::TOOL_NAME.as_bytes()), Invocation::Tool);
}

#[test]
fn activation_script_runs_with_shims_switched_off() {
    assert_eq!(settings::QUICKENV_NO_SHIM, "QUICKENV_NO_SHIM");
    assert_eq!(no_shim_setting(), b"1");
    assert!(flag_is_set(Some(no_shim_setting())));
    assert!(!uses_cached_diff(Some(no_shim_setting())));
    assert!(uses_cached_diff(None));
    assert!(uses_cached_diff(Some(b"0")));
}

#[test]
fn exit_codes_tell_failures_apart() {
    assert_eq!(settings::FAILURE_EXIT_CODE, 1);
    assert_ne!(settings::FAILURE_EXIT_CODE, quickenv::dispatch::FALLBACK_EXIT_CODE);
    assert_ne!(
        quickenv::signals::INTERRUPTED_EXIT_CODE,
        quickenv::dispatch::FALLBACK_EXIT_CODE
    );
}
