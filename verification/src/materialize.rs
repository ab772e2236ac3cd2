//! Materializing an activation file: the script that is run, and the diff
//! that is cached from what it printed.

use vstd::prelude::*;
use vstd::slice::slice_to_vec;
use crate::bytes::{append_bytes, ascii_bytes, bytes_equal, literal_bytes, NEWLINE};
use crate::cache::{serialize_env, spec_cache_text};
use crate::env::{entries_map, lemma_push_entry, sorted, Entry, Env};
use crate::protocol::{
    begin_after, begin_after_marker, begin_before, begin_before_marker, end_after,
    end_after_marker, end_before, end_before_marker, spec_parse_env_diff,
};

verus! {

/// The shell command that prints `marker` on a line of its own.
pub open spec fn echo_line(marker: Seq<u8>) -> Seq<u8> {
    ascii_bytes("echo '"@) + marker + ascii_bytes("'\n"@)
}

/// The shell commands that dump the environment between two markers.
pub open spec fn dump_commands(begin: Seq<u8>, end: Seq<u8>) -> Seq<u8> {
    echo_line(begin) + ascii_bytes("env\n"@) + echo_line(end)
}

/// The script of an activation run: a dump of the environment, the prelude,
/// the activation file as it is, and a second dump.
pub open spec fn spec_activation_script(prelude: Seq<u8>, envrc: Seq<u8>) -> Seq<u8> {
    seq![NEWLINE] + dump_commands(begin_before(), end_before()) + prelude + seq![NEWLINE] + envrc
        + seq![NEWLINE] + dump_commands(begin_after(), end_after())
}

fn push_echo_line(script: &mut Vec<u8>, marker: &[u8])
    ensures
        final(script)@ == old(script)@ + echo_line(marker@),
{
    proof {
        reveal_strlit("echo '");
        reveal_strlit("'\n");
    }
    append_bytes(script, literal_bytes("echo '"));
    append_bytes(script, marker);
    append_bytes(script, literal_bytes("'\n"));
    assert(script@ =~= old(script)@ + echo_line(marker@));
}

fn push_dump_commands(script: &mut Vec<u8>, begin: &[u8], end: &[u8])
    ensures
        final(script)@ == old(script)@ + dump_commands(begin@, end@),
{
    push_echo_line(script, begin);
    proof {
        reveal_strlit("env\n");
    }
    append_bytes(script, literal_bytes("env\n"));
    push_echo_line(script, end);
    assert(script@ =~= old(script)@ + dump_commands(begin@, end@));
}

/// Writes the script of an activation run. The two dumps are taken in the
/// same shell, the first strictly before the activation file runs and the
/// second strictly after it.
pub fn build_activation_script(prelude: &[u8], envrc: &[u8]) -> (script: Vec<u8>)
    ensures
        script@ == spec_activation_script(prelude@, envrc@),
{
    let mut script: Vec<u8> = Vec::new();
    script.push(NEWLINE);
    push_dump_commands(&mut script, begin_before_marker(), end_before_marker());
    append_bytes(&mut script, prelude);
    script.push(NEWLINE);
    append_bytes(&mut script, envrc);
    script.push(NEWLINE);
    push_dump_commands(&mut script, begin_after_marker(), end_after_marker());
    assert(script@ =~= spec_activation_script(prelude@, envrc@));
    script
}

/// The prelude that is used where none is configured: it loads the
/// standard library of direnv.
pub open spec fn default_prelude() -> Seq<u8> {
    ascii_bytes("eval \"$(direnv stdlib)\""@)
}

/// The prelude of the activation script: the configured text, or the
/// default.
pub fn activation_prelude(configured: Option<&[u8]>) -> (prelude: Vec<u8>)
    ensures
        prelude@ == match configured {
            Some(text) => text@,
            None => default_prelude(),
        },
{
    match configured {
        Some(text) => slice_to_vec(text),
        None => {
            proof {
                reveal_strlit("eval \"$(direnv stdlib)\"");
            }
            slice_to_vec(literal_bytes("eval \"$(direnv stdlib)\""))
        },
    }
}

/// The value that the activation script runs with for the setting that
/// switches shims off. A shimmed command that the script starts then runs
/// without the diff of an earlier activation.
pub fn no_shim_setting() -> (value: &'static [u8])
    ensures
        value@ == crate::dispatch::flag_value(),
{
    proof {
        reveal_strlit("1");
    }
    literal_bytes("1")
}

/// The diff between two snapshots: the variables of `after` that `before`
/// lacks or holds with another value. Variables that were removed or left
/// unchanged are not part of it.
pub open spec fn spec_env_diff(before: Map<Seq<u8>, Seq<u8>>, after: Map<Seq<u8>, Seq<u8>>) -> Map<
    Seq<u8>,
    Seq<u8>,
> {
    Map::new(
        |name: Seq<u8>|
            after.contains_key(name) && !(before.contains_key(name) && before[name]
                == after[name]),
        |name: Seq<u8>| after[name],
    )
}

/// Computes the diff between the snapshots taken before and after
/// activation.
pub fn compute_env_diff(old_env: &Env, new_env: &Env) -> (diff: Env)
    requires
        old_env.wf(),
        new_env.wf(),
    ensures
        diff.wf(),
        diff@ == spec_env_diff(old_env@, new_env@),
{
    let mut diff = Env::new();
    let n = new_env.len();
    let mut i: usize = 0;
    let ghost es = new_env.entries();
    proof {
        assert(es.take(0) =~= Seq::<Entry>::empty());
        assert(entries_map(es.take(0)) =~= Map::<Seq<u8>, Seq<u8>>::empty());
        assert(diff@ =~= spec_env_diff(old_env@, entries_map(es.take(0))));
    }
    while i < n
        invariant
            i <= n,
            n == es.len(),
            es == new_env.entries(),
            old_env.wf(),
            new_env.wf(),
            diff.wf(),
            sorted(es.take(i as int)),
            diff@ == spec_env_diff(old_env@, entries_map(es.take(i as int))),
        decreases n - i,
    {
        let name = new_env.name_at(i);
        let value = new_env.value_at(i);
        proof {
            let seen = es.take(i as int);
            assert forall|j: int| #![trigger seen[j]] 0 <= j < seen.len() implies crate::bytes::bytes_lt(
                seen[j].0,
                es[i as int].0,
            ) by {
                assert(seen[j] == es[j]);
            }
            lemma_push_entry(seen, es[i as int]);
            assert(seen.push(es[i as int]) =~= es.take(i + 1));
        }
        let changed = match old_env.get(name.as_slice()) {
            Some(before) => !bytes_equal(before.as_slice(), value.as_slice()),
            None => true,
        };
        if changed {
            diff.insert(slice_to_vec(name.as_slice()), slice_to_vec(value.as_slice()));
        }
        assert(diff@ =~= spec_env_diff(old_env@, entries_map(es.take(i + 1))));
        i += 1;
    }
    assert(es.take(i as int) =~= es);
    diff
}

/// The outcome of an activation run: the new text of the cache file where
/// the script exited with success, and `None` where it failed. After a
/// failure the cache is left as it was.
pub fn compute_envvars(old_env: &Env, new_env: &Env, exited_ok: bool) -> (cache_file: Option<
    Vec<u8>,
>)
    requires
        old_env.wf(),
        new_env.wf(),
    ensures
        cache_file is Some <==> exited_ok,
        cache_file matches Some(text) ==> text@ == spec_cache_text(
            spec_env_diff(old_env@, new_env@),
        ),
{
    if !exited_ok {
        return None;
    }
    let diff = compute_env_diff(old_env, new_env);
    Some(serialize_env(&diff))
}

/// The text that is cached for a run that printed `output` and exited with
/// success.
pub open spec fn spec_materialize(output: Seq<u8>) -> Seq<u8> {
    let parsed = spec_parse_env_diff(output).0;
    spec_cache_text(spec_env_diff(parsed.old_env, parsed.new_env))
}

/// Idempotence: two runs whose dumps read the same cache the same text,
/// whatever else the script printed.
pub proof fn lemma_materialize_idempotent(first: Seq<u8>, second: Seq<u8>)
    requires
        spec_parse_env_diff(first).0.old_env == spec_parse_env_diff(second).0.old_env,
        spec_parse_env_diff(first).0.new_env == spec_parse_env_diff(second).0.new_env,
    ensures
        spec_materialize(first) == spec_materialize(second),
{
}

/// Only what changed is cached: a variable is in the diff exactly when the
/// snapshot after activation holds it and the one before lacks it or holds
/// it with another value; and the diff gives it its value after activation.
pub proof fn lemma_diff_holds_changes_only(
    before: Map<Seq<u8>, Seq<u8>>,
    after: Map<Seq<u8>, Seq<u8>>,
    name: Seq<u8>,
)
    ensures
        spec_env_diff(before, after).contains_key(name) <==> after.contains_key(name) && (
        !before.contains_key(name) || before[name] != after[name]),
        spec_env_diff(before, after).contains_key(name) ==> spec_env_diff(before, after)[name]
            == after[name],
        before.contains_key(name) && after.contains_key(name) && before[name] == after[name]
            ==> !spec_env_diff(before, after).contains_key(name),
{
}

/// Replaying the diff gives the values after activation: in the snapshot
/// taken before, overridden by the diff, every variable of the snapshot
/// taken after has its value after activation.
pub proof fn lemma_diff_replays_activation(
    before: Map<Seq<u8>, Seq<u8>>,
    after: Map<Seq<u8>, Seq<u8>>,
    name: Seq<u8>,
)
    requires
        after.contains_key(name),
    ensures
        before.union_prefer_right(spec_env_diff(before, after)).contains_key(name),
        before.union_prefer_right(spec_env_diff(before, after))[name] == after[name],
{
}

} // verus!
