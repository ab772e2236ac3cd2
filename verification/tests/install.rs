use quickenv::env::Env;
use quickenv::install::{
    auto_shim_commands, check_link, command_shim, command_unshim, command_vars, command_which,
    count_created, count_removed, needs_confirmation, shim_target, LinkError, ShimTarget,
    WhichError,
};
use quickenv::names::NameSet;

fn words(items: &[&str]) -> Vec<Vec<u8>> {
    items.iter().map(|item| item.as_bytes().to_vec()).collect()
}

#[test]
fn shim_is_a_link_in_the_shim_directory() {
    assert_eq!(
        shim_target(b"/home/u/.quickenv/", b"hello"),
        ShimTarget::Link(b"/home/u/.quickenv/bin/hello".to_vec())
    );
}

#[test]
fn tool_does_not_shim_itself() {
    assert_eq!(shim_target(b"/qe", b"quickenv"), ShimTarget::OwnBinary);
    assert_eq!(command_shim(b"/qe", &words(&["quickenv"])), vec![ShimTarget::OwnBinary]);
    assert_eq!(command_unshim(b"/qe", &words(&["quickenv"])), vec![ShimTarget::OwnBinary]);
    assert_eq!(count_created(&Vec::new()), 0);
    assert_eq!(count_removed(&Vec::new()), 0);
}

#[test]
fn commands_are_planned_in_the_order_given() {
    assert_eq!(
        command_shim(b"/qe", &words(&["hello", "quickenv", "bash"])),
        vec![
            ShimTarget::Link(b"/qe/bin/hello".to_vec()),
            ShimTarget::OwnBinary,
            ShimTarget::Link(b"/qe/bin/bash".to_vec()),
        ]
    );
    assert_eq!(
        command_unshim(b"/qe/", &words(&["hello"])),
        vec![ShimTarget::Link(b"/qe/bin/hello".to_vec())]
    );
    assert_eq!(command_shim(b"/qe", &Vec::new()), Vec::new());
}

#[test]
fn missing_shims_are_installed_in_order_of_their_names() {
    let mut missing = NameSet::new();
    missing.insert(b"world".to_vec());
    missing.insert(b"hello".to_vec());
    assert_eq!(auto_shim_commands(Some(&missing)), Some(words(&["hello", "world"])));
    assert_eq!(auto_shim_commands(Some(&NameSet::new())), Some(Vec::new()));
    assert_eq!(auto_shim_commands(None), None);
}

#[test]
fn user_is_asked_only_about_commands_that_the_tool_found() {
    assert!(needs_confirmation(true, 1, false));
    assert!(needs_confirmation(true, 12, false));
    assert!(!needs_confirmation(true, 1, true));
    assert!(!needs_confirmation(true, 0, false));
    assert!(!needs_confirmation(false, 3, false));
}

#[test]
fn shim_that_comes_first_on_the_path_is_good() {
    assert_eq!(check_link(b"/qe/bin/true", Some(b"/qe/bin/true")), Ok(()));
}

#[test]
fn shim_behind_a_program_of_the_same_name_is_shadowed() {
    assert_eq!(
        check_link(b"/qe/bin/hello", Some(b"/home/u/project/bogus/hello")),
        Err(LinkError::Shadowed(b"/home/u/project/bogus/hello".to_vec()))
    );
}

#[test]
fn shim_that_is_not_found_at_all_is_not_on_the_path() {
    assert_eq!(check_link(b"/qe/bin/hello", None), Err(LinkError::NotOnPath));
}

#[test]
fn new_links_count_as_created() {
    assert_eq!(count_created(&vec![false]), 1);
    assert_eq!(count_created(&vec![true]), 0);
    assert_eq!(count_created(&vec![false, true, false, false]), 3);
}

#[test]
fn links_that_were_there_count_as_removed() {
    assert_eq!(count_removed(&vec![true]), 1);
    assert_eq!(count_removed(&vec![false]), 0);
    assert_eq!(count_removed(&vec![true, false, true]), 2);
}

#[test]
fn which_asks_for_a_shim_unless_told_to_pretend() {
    assert_eq!(command_which(b"/qe", b"hello", false, Some(b"/qe/bin/hello")), Ok(()));
    assert_eq!(
        command_which(b"/qe", b"bash", false, Some(b"/usr/bin/bash")),
        Err(WhichError::NotShimmed)
    );
    assert_eq!(command_which(b"/qe", b"hello", false, None), Err(WhichError::NotFound));
    assert_eq!(command_which(b"/qe", b"bash", true, Some(b"/usr/bin/bash")), Ok(()));
    assert_eq!(command_which(b"/qe", b"hello", true, None), Ok(()));
}

#[test]
fn vars_lists_the_cached_variables() {
    let mut env = Env::new();
    env.insert(b"PATH".to_vec(), b"bogus:/usr/bin".to_vec());
    env.insert(b"MYVALUE".to_vec(), b"canary".to_vec());
    assert_eq!(
        command_vars(Some(&env)),
        Some(b"MYVALUE=canary\nPATH=bogus:/usr/bin\n".to_vec())
    );
    assert_eq!(command_vars(Some(&Env::new())), Some(Vec::new()));
    assert_eq!(command_vars(None), None);
}
