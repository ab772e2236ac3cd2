//! Installing, removing and inspecting shims.
//!
//! A shim is a symbolic link in the tool's directory of shims, named like a
//! command and pointing at the tool itself. That the link exists is all
//! there is to a command being shimmed.

use vstd::prelude::*;
use vstd::slice::slice_to_vec;
use crate::bytes::{bytes_equal, views};
use crate::cache::{serialize_env, spec_cache_text};
use crate::context::{bytes_view, shim_path, spec_shim_path};
use crate::dispatch::{is_tool_name, tool_name};
use crate::env::Env;
use crate::names::NameSet;

verus! {

/// What is done for one command that was named for shimming or
/// unshimming.
#[derive(Debug, Clone, PartialEq, Eq)]
pub enum ShimTarget {
    /// The command is the tool itself: it is passed over with a warning.
    OwnBinary,
    /// The command's shim is the link at this path.
    Link(Vec<u8>),
}

/// The target for `command`.
pub open spec fn spec_shim_target(quickenv_home: Seq<u8>, command: Seq<u8>) -> ShimTargetModel {
    if command == tool_name() {
        ShimTargetModel::OwnBinary
    } else {
        ShimTargetModel::Link(spec_shim_path(quickenv_home, command))
    }
}

/// A target as specifications see it.
pub enum ShimTargetModel {
    OwnBinary,
    Link(Seq<u8>),
}

impl View for ShimTarget {
    type V = ShimTargetModel;

    open spec fn view(&self) -> ShimTargetModel {
        match self {
            ShimTarget::OwnBinary => ShimTargetModel::OwnBinary,
            ShimTarget::Link(path) => ShimTargetModel::Link(path@),
        }
    }
}

/// Decides what is done for `command`: the tool never shims itself.
pub fn shim_target(quickenv_home: &[u8], command: &[u8]) -> (target: ShimTarget)
    ensures
        target@ == spec_shim_target(quickenv_home@, command@),
{
    if is_tool_name(command) {
        ShimTarget::OwnBinary
    } else {
        ShimTarget::Link(shim_path(quickenv_home, command))
    }
}

/// The targets of a list of commands, in order.
pub open spec fn spec_shim_targets(quickenv_home: Seq<u8>, commands: Seq<Seq<u8>>) -> Seq<
    ShimTargetModel,
> {
    Seq::new(commands.len(), |i: int| spec_shim_target(quickenv_home, commands[i]))
}

/// What a list of targets stands for in specifications.
pub open spec fn target_views(targets: Seq<ShimTarget>) -> Seq<ShimTargetModel> {
    Seq::new(targets.len(), |i: int| targets[i]@)
}

fn shim_targets(quickenv_home: &[u8], commands: &Vec<Vec<u8>>) -> (targets: Vec<ShimTarget>)
    ensures
        target_views(targets@) == spec_shim_targets(quickenv_home@, views(commands@)),
{
    let mut targets: Vec<ShimTarget> = Vec::new();
    let mut i: usize = 0;
    while i < commands.len()
        invariant
            i <= commands@.len(),
            targets@.len() == i,
            forall|j: int|
                0 <= j < i ==> (#[trigger] targets@[j])@ == spec_shim_target(
                    quickenv_home@,
                    commands@[j]@,
                ),
        decreases commands@.len() - i,
    {
        targets.push(shim_target(quickenv_home, commands[i].as_slice()));
        i += 1;
    }
    assert(target_views(targets@) =~= spec_shim_targets(quickenv_home@, views(commands@)));
    targets
}

/// Plans the installation of shims: for each command, in order, the link
/// to create, or that the command is passed over.
pub fn command_shim(quickenv_home: &[u8], commands: &Vec<Vec<u8>>) -> (targets: Vec<ShimTarget>)
    ensures
        target_views(targets@) == spec_shim_targets(quickenv_home@, views(commands@)),
{
    shim_targets(quickenv_home, commands)
}

/// Plans the removal of shims: for each command, in order, the link to
/// remove, or that the command is passed over.
pub fn command_unshim(quickenv_home: &[u8], commands: &Vec<Vec<u8>>) -> (targets: Vec<ShimTarget>)
    ensures
        target_views(targets@) == spec_shim_targets(quickenv_home@, views(commands@)),
{
    shim_targets(quickenv_home, commands)
}

/// The commands to shim where none was named: those that are missing a
/// shim, in lexicographic order. `None` stands for a context without a
/// cached diff, for which there is nothing to go by.
pub fn auto_shim_commands(missing_shims: Option<&NameSet>) -> (commands: Option<Vec<Vec<u8>>>)
    requires
        missing_shims matches Some(set) ==> set.wf(),
    ensures
        commands is Some <==> missing_shims is Some,
        commands matches Some(list) ==> views(list@) == missing_shims->Some_0.listing(),
{
    match missing_shims {
        None => None,
        Some(set) => {
            let mut list: Vec<Vec<u8>> = Vec::new();
            let n = set.len();
            let mut i: usize = 0;
            while i < n
                invariant
                    i <= n,
                    n == set.listing().len(),
                    list@.len() == i,
                    forall|j: int| 0 <= j < i ==> (#[trigger] list@[j])@ == set.listing()[j],
                decreases n - i,
            {
                list.push(slice_to_vec(set.name_at(i).as_slice()));
                i += 1;
            }
            assert(views(list@) =~= set.listing());
            Some(list)
        },
    }
}

/// Whether the user is asked before shims are created: only where the
/// commands were found by the tool, there are any, and the user did not
/// agree beforehand.
pub fn needs_confirmation(auto: bool, commands: usize, yes: bool) -> (ask: bool)
    ensures
        ask == (auto && commands > 0 && !yes),
{
    auto && commands > 0 && !yes
}

/// Why a shim that was just created is of no use.
#[derive(Debug, Clone, PartialEq, Eq)]
pub enum LinkError {
    /// The command is not found on the search path at all: the directory
    /// of the shims is not on it.
    NotOnPath,
    /// Another program of the same name comes first on the search path.
    Shadowed(Vec<u8>),
}

/// Checks a shim after it was created. `effective` is what the search
/// path gives for the command now: it has to be the shim.
pub fn check_link(shim: &[u8], effective: Option<&[u8]>) -> (checked: Result<(), LinkError>)
    ensures
        match effective {
            None => checked == Err::<(), LinkError>(LinkError::NotOnPath),
            Some(found) => if found@ == shim@ {
                checked is Ok
            } else {
                checked matches Err(LinkError::Shadowed(by)) && by@ == found@
            },
        },
{
    match effective {
        None => Err(LinkError::NotOnPath),
        Some(found) => {
            if bytes_equal(found, shim) {
                Ok(())
            } else {
                Err(LinkError::Shadowed(slice_to_vec(found)))
            }
        },
    }
}

/// The number of places of `flags` that hold `wanted`.
pub open spec fn spec_count(flags: Seq<bool>, wanted: bool) -> nat
    decreases flags.len(),
{
    if flags.len() == 0 {
        0
    } else {
        spec_count(flags.drop_last(), wanted) + if flags.last() == wanted {
            1nat
        } else {
            0nat
        }
    }
}

fn count_flags(flags: &Vec<bool>, wanted: bool) -> (count: usize)
    ensures
        count == spec_count(flags@, wanted),
{
    let mut count: usize = 0;
    let mut i: usize = 0;
    assert(flags@.take(0) =~= Seq::<bool>::empty());
    while i < flags.len()
        invariant
            i <= flags@.len(),
            count <= i,
            count == spec_count(flags@.take(i as int), wanted),
        decreases flags@.len() - i,
    {
        assert(flags@.take(i + 1).drop_last() =~= flags@.take(i as int));
        if flags[i] == wanted {
            count += 1;
        }
        i += 1;
    }
    assert(flags@.take(i as int) =~= flags@);
    count
}

/// The number of shims that are new. `was_there` tells, for each link
/// that was created, whether it took the place of an older one.
pub fn count_created(was_there: &Vec<bool>) -> (changes: usize)
    ensures
        changes == spec_count(was_there@, false),
{
    count_flags(was_there, false)
}

/// The number of shims that are gone. `removed` tells, for each link that
/// was to be removed, whether there was one.
pub fn count_removed(removed: &Vec<bool>) -> (changes: usize)
    ensures
        changes == spec_count(removed@, true),
{
    count_flags(removed, true)
}

/// Why the program behind a command is not shown.
#[derive(Clone, Copy, Debug, PartialEq, Eq, Structural)]
pub enum WhichError {
    /// The search path does not give the command at all.
    NotFound,
    /// The search path gives the command, but not through a shim.
    NotShimmed,
}

/// Decides whether the program behind `program_name` is shown: the
/// command has to be shimmed, unless the user asked to pretend that it is.
/// `resolved` is what the search path gives for the command.
pub fn command_which(
    quickenv_home: &[u8],
    program_name: &[u8],
    pretend_shimmed: bool,
    resolved: Option<&[u8]>,
) -> (shown: Result<(), WhichError>)
    ensures
        shown == if pretend_shimmed {
            Ok::<(), WhichError>(())
        } else {
            match bytes_view(resolved) {
                None => Err(WhichError::NotFound),
                Some(found) => if found == spec_shim_path(quickenv_home@, program_name@) {
                    Ok(())
                } else {
                    Err(WhichError::NotShimmed)
                },
            }
        },
{
    if pretend_shimmed {
        return Ok(());
    }
    match resolved {
        None => Err(WhichError::NotFound),
        Some(found) => {
            let shim = shim_path(quickenv_home, program_name);
            if bytes_equal(found, shim.as_slice()) {
                Ok(())
            } else {
                Err(WhichError::NotShimmed)
            }
        },
    }
}

/// The listing of the cached variables, one `name=value` per line, in the
/// order of the names. `None` stands for a context without a cached diff.
pub fn command_vars(envvars: Option<&Env>) -> (listing: Option<Vec<u8>>)
    requires
        envvars matches Some(env) ==> env.wf(),
    ensures
        listing is Some <==> envvars is Some,
        listing matches Some(text) ==> text@ == spec_cache_text(envvars->Some_0@),
{
    match envvars {
        Some(env) => Some(serialize_env(env)),
        None => None,
    }
}

} // verus!
