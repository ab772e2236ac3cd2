//! The shim dispatcher: which program a shim stands for, and how control is
//! handed to it.
//!
//! The tool is started under its own name, or through a shim under the name
//! of another command. A shim looks its command up on a search path from
//! which the directory of the shims has been taken out, so that the lookup
//! never finds the shim itself.

use vstd::prelude::*;
use vstd::slice::slice_to_vec;
use crate::bytes::{
    append_bytes, ascii_bytes, bytes_equal, has_byte, lemma_find, lemma_find_from_is,
    literal_bytes, spec_find, spec_split, split_on, views, COLON,
};
use crate::context::{bytes_view, shim_dir, spec_shim_dir};
use crate::env::Env;
use crate::error::Error;

verus! {

/// The name under which the tool itself is installed.
pub open spec fn tool_name() -> Seq<u8> {
    ascii_bytes("quickenv"@)
}

/// The name of the variable that holds the search path.
pub open spec fn path_variable() -> Seq<u8> {
    ascii_bytes("PATH"@)
}

/// The value that switches a setting on.
pub open spec fn flag_value() -> Seq<u8> {
    ascii_bytes("1"@)
}

/// Whether `name` is the tool's own name.
pub fn is_tool_name(name: &[u8]) -> (own: bool)
    ensures
        own == (name@ == tool_name()),
{
    proof {
        reveal_strlit("quickenv");
    }
    bytes_equal(name, literal_bytes("quickenv"))
}

/// The two ways in which the tool is started.
#[derive(Clone, Copy, Debug, PartialEq, Eq, Structural)]
pub enum Invocation {
    /// Under its own name: the command line is read as usual.
    Tool,
    /// Under another name, through a shim: that command is looked up and
    /// run.
    Shim,
}

/// Decides from the base name under which the program was started whether
/// it runs as a shim. Under its own name the tool never does, whatever the
/// cache holds.
pub fn check_for_shim(program_basename: &[u8]) -> (invocation: Invocation)
    ensures
        invocation == if program_basename@ == tool_name() {
            Invocation::Tool
        } else {
            Invocation::Shim
        },
{
    if is_tool_name(program_basename) {
        Invocation::Tool
    } else {
        Invocation::Shim
    }
}

/// Whether a setting of the environment is switched on: its variable is
/// set to `1`.
pub fn flag_is_set(value: Option<&[u8]>) -> (set: bool)
    ensures
        set == (bytes_view(value) == Some(flag_value())),
{
    match value {
        Some(v) => {
            proof {
                reveal_strlit("1");
            }
            bytes_equal(v, literal_bytes("1"))
        },
        None => false,
    }
}

/// Whether a shim loads the cached diff at all: not where shims are
/// switched off, as they are for everything that an activation script
/// runs.
pub fn uses_cached_diff(no_shim: Option<&[u8]>) -> (used: bool)
    ensures
        used == (bytes_view(no_shim) != Some(flag_value())),
{
    !flag_is_set(no_shim)
}

/// The variables that a shim sets for its command, given the outcome of
/// loading the cached diff. A directory without an activation file, and a
/// context without a cache, give no variables; any other failure is passed
/// on.
pub fn envvars_override(loaded: Result<Option<Env>, Error>) -> (overrides: Result<Env, Error>)
    requires
        loaded matches Ok(Some(env)) ==> env.wf(),
    ensures
        overrides matches Ok(env) ==> env.wf(),
        match loaded {
            Ok(Some(env)) => overrides == Ok::<Env, Error>(env),
            Ok(None) => overrides matches Ok(env) && env@ == Map::<Seq<u8>, Seq<u8>>::empty(),
            Err(Error::NoEnvrc) => overrides matches Ok(env) && env@ == Map::<
                Seq<u8>,
                Seq<u8>,
            >::empty(),
            Err(e) => overrides == Err::<Env, Error>(e),
        },
{
    match loaded {
        Ok(Some(env)) => Ok(env),
        Ok(None) => Ok(Env::new()),
        Err(Error::NoEnvrc) => Ok(Env::new()),
        Err(e) => Err(e),
    }
}

/// The search path that the lookup starts from: the one that the cached
/// diff sets, else the ambient one.
pub open spec fn spec_search_path(overrides: Map<Seq<u8>, Seq<u8>>, ambient: Option<Seq<u8>>) -> Option<
    Seq<u8>,
> {
    if overrides.contains_key(path_variable()) {
        Some(overrides[path_variable()])
    } else {
        ambient
    }
}

/// Picks the search path that the lookup starts from. `None` means that
/// there is none to read, which ends the dispatch.
pub fn search_path(overrides: &Env, ambient_path: Option<&[u8]>) -> (path: Option<Vec<u8>>)
    requires
        overrides.wf(),
    ensures
        crate::cache::name_view(path) == spec_search_path(overrides@, bytes_view(ambient_path)),
{
    proof {
        reveal_strlit("PATH");
    }
    match overrides.get(literal_bytes("PATH")) {
        Some(value) => Some(slice_to_vec(value.as_slice())),
        None => match ambient_path {
            Some(value) => Some(slice_to_vec(value)),
            None => None,
        },
    }
}

/// The directories of a search path.
pub fn split_paths(path: &[u8]) -> (dirs: Vec<Vec<u8>>)
    ensures
        views(dirs@) == spec_split(path@, COLON),
{
    split_on(path, COLON)
}

/// One directory of a search path.
#[derive(Debug, Clone, PartialEq, Eq)]
pub struct PathEntry {
    /// The directory as the search path spells it.
    pub raw: Vec<u8>,
    /// The directory with symbolic links resolved, where that succeeded.
    pub canonical: Option<Vec<u8>>,
}

/// The directory of the shims, as the tool spells it and with symbolic
/// links resolved, where that succeeded.
pub type ShimDir = (Seq<u8>, Option<Seq<u8>>);

/// Whether an entry of the search path is the directory of the shims: as
/// spelled, or once resolved.
pub open spec fn is_shim_dir(entry: PathEntry, shim_dir: ShimDir) -> bool {
    entry.raw@ == shim_dir.0 || (entry.canonical matches Some(resolved) && (resolved@
        == shim_dir.0 || Some(resolved@) == shim_dir.1))
}

/// A search path with one more directory. Nothing separates the directory
/// from an empty path.
pub open spec fn spec_push_path(path: Seq<u8>, dir: Seq<u8>) -> Seq<u8> {
    if path.len() > 0 {
        path + seq![COLON] + dir
    } else {
        dir
    }
}

/// The entries of a search path that are not the directory of the shims,
/// in order.
pub open spec fn spec_kept(entries: Seq<PathEntry>, shim_dir: ShimDir) -> Seq<Seq<u8>>
    decreases entries.len(),
{
    if entries.len() == 0 {
        Seq::empty()
    } else if is_shim_dir(entries.last(), shim_dir) {
        spec_kept(entries.drop_last(), shim_dir)
    } else {
        spec_kept(entries.drop_last(), shim_dir).push(entries.last().raw@)
    }
}

/// The search path made of `dirs`.
pub open spec fn spec_join_paths(dirs: Seq<Seq<u8>>) -> Seq<u8>
    decreases dirs.len(),
{
    if dirs.len() == 0 {
        Seq::empty()
    } else {
        spec_push_path(spec_join_paths(dirs.drop_last()), dirs.last())
    }
}

/// The amended search path: every entry that is the directory of the
/// shims is taken out, not only the first.
pub open spec fn spec_amend_path(entries: Seq<PathEntry>, shim_dir: ShimDir) -> Seq<u8> {
    spec_join_paths(spec_kept(entries, shim_dir))
}

/// Whether an entry of the search path is the directory of the shims.
/// `resolved_shim_dir` is that directory with symbolic links resolved.
pub fn entry_is_shim_dir(entry: &PathEntry, shim_dir: &[u8], resolved_shim_dir: Option<&[u8]>) -> (own:
    bool)
    ensures
        own == is_shim_dir(*entry, (shim_dir@, bytes_view(resolved_shim_dir))),
{
    if bytes_equal(entry.raw.as_slice(), shim_dir) {
        true
    } else {
        match &entry.canonical {
            Some(resolved) => {
                if bytes_equal(resolved.as_slice(), shim_dir) {
                    true
                } else {
                    match resolved_shim_dir {
                        Some(own_dir) => bytes_equal(resolved.as_slice(), own_dir),
                        None => false,
                    }
                }
            },
            None => false,
        }
    }
}

/// Takes the directory of the shims out of a search path.
pub fn amend_path(entries: &Vec<PathEntry>, shim_dir: &[u8], resolved_shim_dir: Option<&[u8]>) -> (path:
    Vec<u8>)
    ensures
        path@ == spec_amend_path(entries@, (shim_dir@, bytes_view(resolved_shim_dir))),
{
    let ghost own_dir = (shim_dir@, bytes_view(resolved_shim_dir));
    let mut path: Vec<u8> = Vec::new();
    let mut i: usize = 0;
    assert(entries@.take(0) =~= Seq::<PathEntry>::empty());
    while i < entries.len()
        invariant
            i <= entries@.len(),
            own_dir == (shim_dir@, bytes_view(resolved_shim_dir)),
            path@ == spec_amend_path(entries@.take(i as int), own_dir),
        decreases entries@.len() - i,
    {
        proof {
            assert(entries@.take(i + 1).drop_last() =~= entries@.take(i as int));
            assert(entries@.take(i + 1).last() == entries@[i as int]);
            let kept = spec_kept(entries@.take(i as int), own_dir);
            assert(kept.push(entries@[i as int].raw@).drop_last() =~= kept);
        }
        if !entry_is_shim_dir(&entries[i], shim_dir, resolved_shim_dir) {
            if path.len() > 0 {
                path.push(COLON);
            }
            append_bytes(&mut path, entries[i].raw.as_slice());
        }
        i += 1;
    }
    assert(entries@.take(i as int) =~= entries@);
    path
}

/// What is needed to look the command up.
#[derive(Debug)]
pub struct ShimLookup {
    /// The search path for the lookup, without the directory of the shims.
    pub search_path: Vec<u8>,
    /// The variables that the command is run with: those of the cached
    /// diff, and that search path.
    pub envvars_override: Env,
}

/// Prepares the lookup of the command that a shim stands for.
///
/// `envvars_override` holds the variables of the cached diff,
/// `path_entries` the directories of the search path that the lookup starts
/// from, and `resolved_shim_dir` the directory of the shims with symbolic
/// links resolved, where that succeeded.
pub fn find_shimmed_binary(
    quickenv_home: &[u8],
    resolved_shim_dir: Option<&[u8]>,
    envvars_override: Env,
    path_entries: &Vec<PathEntry>,
) -> (lookup: ShimLookup)
    requires
        envvars_override.wf(),
    ensures
        lookup.envvars_override.wf(),
        lookup.search_path@ == spec_amend_path(
            path_entries@,
            (spec_shim_dir(quickenv_home@), bytes_view(resolved_shim_dir)),
        ),
        lookup.envvars_override@ == envvars_override@.insert(path_variable(), lookup.search_path@),
{
    let own_dir = shim_dir(quickenv_home);
    let search_path = amend_path(path_entries, own_dir.as_slice(), resolved_shim_dir);
    let mut envvars_override = envvars_override;
    proof {
        reveal_strlit("PATH");
    }
    envvars_override.insert(
        slice_to_vec(literal_bytes("PATH")),
        slice_to_vec(search_path.as_slice()),
    );
    ShimLookup { search_path, envvars_override }
}

/// The program that a shim runs, and the variables that it runs with.
#[derive(Debug)]
pub struct ShimmedBinaryResult {
    pub path: Vec<u8>,
    pub envvars_override: Env,
}

/// Ends the lookup. `found` is the program that the search path gave for
/// `program_basename`; where it gave none, the dispatch fails and the error
/// names the command.
pub fn shimmed_binary(lookup: ShimLookup, program_basename: &[u8], found: Option<Vec<u8>>) -> (result:
    Result<ShimmedBinaryResult, Vec<u8>>)
    ensures
        match found {
            Some(path) => result == Ok::<ShimmedBinaryResult, Vec<u8>>(
                ShimmedBinaryResult { path, envvars_override: lookup.envvars_override },
            ),
            None => result matches Err(name) && name@ == program_basename@,
        },
{
    match found {
        Some(path) => Ok(ShimmedBinaryResult { path, envvars_override: lookup.envvars_override }),
        None => Err(slice_to_vec(program_basename)),
    }
}

/// The two ways of handing control to the command.
#[derive(Clone, Copy, Debug, PartialEq, Eq, Structural)]
pub enum TransferMode {
    /// The command takes the place of this process.
    Replace,
    /// The command runs as a child, and this process ends with its status.
    Subprocess,
}

/// Picks the way of handing control over: a child process, unless the user
/// asked for the process to be replaced.
pub fn transfer_mode(shim_exec: Option<&[u8]>) -> (mode: TransferMode)
    ensures
        mode == if bytes_view(shim_exec) == Some(flag_value()) {
            TransferMode::Replace
        } else {
            TransferMode::Subprocess
        },
{
    if flag_is_set(shim_exec) {
        TransferMode::Replace
    } else {
        TransferMode::Subprocess
    }
}

/// The arguments of the command that replaces this process: its path,
/// then the arguments that the shim was given.
pub fn exec_arguments(path: &[u8], args: &Vec<Vec<u8>>) -> (full_args: Vec<Vec<u8>>)
    ensures
        views(full_args@) == seq![path@] + views(args@),
{
    let mut full_args: Vec<Vec<u8>> = Vec::new();
    full_args.push(slice_to_vec(path));
    let mut i: usize = 0;
    assert(views(full_args@) =~= seq![path@] + views(args@).take(0));
    while i < args.len()
        invariant
            i <= args@.len(),
            views(full_args@) == seq![path@] + views(args@).take(i as int),
        decreases args@.len() - i,
    {
        let ghost before = views(full_args@);
        full_args.push(slice_to_vec(args[i].as_slice()));
        assert(views(full_args@) =~= before.push(args@[i as int]@));
        assert(views(args@).take(i + 1) =~= views(args@).take(i as int).push(args@[i as int]@));
        i += 1;
    }
    assert(views(args@).take(i as int) =~= views(args@));
    full_args
}

/// The exit code of this process when its child ended without one, as a
/// child does that a signal killed.
pub const FALLBACK_EXIT_CODE: i32 = 134;

/// The exit code with which this process ends after its child: that of the
/// child, or the fallback.
pub fn exit_code(child_code: Option<i32>) -> (code: i32)
    ensures
        code == match child_code {
            Some(c) => c,
            None => FALLBACK_EXIT_CODE,
        },
{
    match child_code {
        Some(c) => c,
        None => FALLBACK_EXIT_CODE,
    }
}

/// Splitting at a separator: the fields of `a`, then those of `b`.
proof fn lemma_split_concat(a: Seq<u8>, b: Seq<u8>, sep: u8)
    ensures
        spec_split(a + seq![sep] + b, sep) == spec_split(a, sep) + spec_split(b, sep),
    decreases a.len(),
{
    let whole = a + seq![sep] + b;
    lemma_find(a, sep);
    let at = spec_find(a, sep);
    assert forall|j: int| 0 <= j < at implies whole[j] != sep by {
        assert(whole[j] == a[j]);
    }
    if at < a.len() {
        assert(whole[at] == a[at]);
        lemma_find_from_is(whole, sep, 0, at);
        let rest = a.subrange(at + 1, a.len() as int);
        assert(whole.subrange(at + 1, whole.len() as int) =~= rest + seq![sep] + b);
        assert(whole.subrange(0, at) =~= a.subrange(0, at));
        lemma_split_concat(rest, b, sep);
        assert(spec_split(whole, sep) =~= spec_split(a, sep) + spec_split(b, sep));
    } else {
        assert(whole[at] == sep);
        lemma_find_from_is(whole, sep, 0, at);
        assert(whole.subrange(0, at) =~= a);
        assert(whole.subrange(at + 1, whole.len() as int) =~= b);
        assert(spec_split(whole, sep) =~= spec_split(a, sep) + spec_split(b, sep));
    }
}

/// Every field of a search path made of directories without a colon is
/// one of those directories, or empty.
proof fn lemma_fields_of_joined(dirs: Seq<Seq<u8>>, k: int)
    requires
        forall|i: int| 0 <= i < dirs.len() ==> !has_byte(#[trigger] dirs[i], COLON),
        0 <= k < spec_split(spec_join_paths(dirs), COLON).len(),
    ensures
        spec_split(spec_join_paths(dirs), COLON)[k].len() == 0 || dirs.contains(
            spec_split(spec_join_paths(dirs), COLON)[k],
        ),
    decreases dirs.len(),
{
    let joined = spec_join_paths(dirs);
    let fields = spec_split(joined, COLON);
    if dirs.len() == 0 {
        lemma_find(joined, COLON);
    } else {
        let init = dirs.drop_last();
        let last = dirs.last();
        let before = spec_join_paths(init);
        assert(!has_byte(dirs[dirs.len() - 1], COLON));
        lemma_find(last, COLON);
        assert(spec_split(last, COLON) =~= seq![last]);
        assert forall|i: int| 0 <= i < init.len() implies !has_byte(#[trigger] init[i], COLON) by {
            assert(init[i] == dirs[i]);
        }
        if before.len() > 0 {
            lemma_split_concat(before, last, COLON);
            let first_fields = spec_split(before, COLON);
            if k < first_fields.len() {
                lemma_fields_of_joined(init, k);
                assert(fields[k] == first_fields[k]);
                if fields[k].len() > 0 {
                    let i = choose|i: int| 0 <= i < init.len() && init[i] == fields[k];
                    assert(dirs[i] == fields[k]);
                }
            } else {
                assert(fields[k] == last);
                assert(dirs[dirs.len() - 1] == last);
            }
        } else {
            assert(fields[k] == last);
            assert(dirs[dirs.len() - 1] == last);
        }
    }
}

/// Every directory that is kept is the spelling of an entry that is not
/// the directory of the shims.
proof fn lemma_kept_entries(entries: Seq<PathEntry>, shim_dir: ShimDir, k: int)
    requires
        0 <= k < spec_kept(entries, shim_dir).len(),
    ensures
        exists|i: int|
            0 <= i < entries.len() && !is_shim_dir(#[trigger] entries[i], shim_dir)
                && entries[i].raw@ == spec_kept(entries, shim_dir)[k],
    decreases entries.len(),
{
    if entries.len() > 0 {
        let init = entries.drop_last();
        let kept_before = spec_kept(init, shim_dir);
        if k < kept_before.len() {
            lemma_kept_entries(init, shim_dir, k);
            let i = choose|i: int|
                0 <= i < init.len() && !is_shim_dir(#[trigger] init[i], shim_dir) && init[i].raw@
                    == kept_before[k];
            assert(entries[i] == init[i]);
        } else {
            assert(entries[entries.len() - 1] == entries.last());
        }
    }
}

/// The lookup does not find the shim itself.
///
/// Take a search path whose entries hold no colon, as the entries of a
/// split search path do, and a directory of the shims that is not the empty
/// path. Then no directory of the amended search path is the directory of
/// the shims: each is empty, or is the spelling of an entry that is not the
/// directory of the shims, neither as spelled nor once resolved.
pub proof fn lemma_amended_path_is_free_of_shims(entries: Seq<PathEntry>, shim_dir: ShimDir, k: int)
    requires
        forall|i: int| 0 <= i < entries.len() ==> !has_byte((#[trigger] entries[i]).raw@, COLON),
        shim_dir.0.len() > 0,
        0 <= k < spec_split(spec_amend_path(entries, shim_dir), COLON).len(),
    ensures
        spec_split(spec_amend_path(entries, shim_dir), COLON)[k] != shim_dir.0,
        spec_split(spec_amend_path(entries, shim_dir), COLON)[k].len() == 0 || exists|i: int|
            0 <= i < entries.len() && !is_shim_dir(#[trigger] entries[i], shim_dir)
                && entries[i].raw@ == spec_split(spec_amend_path(entries, shim_dir), COLON)[k],
{
    let kept = spec_kept(entries, shim_dir);
    let field = spec_split(spec_amend_path(entries, shim_dir), COLON)[k];
    assert forall|j: int| 0 <= j < kept.len() implies !has_byte(#[trigger] kept[j], COLON) by {
        lemma_kept_entries(entries, shim_dir, j);
    }
    lemma_fields_of_joined(kept, k);
    if field.len() > 0 {
        let j = choose|j: int| 0 <= j < kept.len() && kept[j] == field;
        lemma_kept_entries(entries, shim_dir, j);
    }
}

} // verus!
