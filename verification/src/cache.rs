//! The cache format: one `name=value` record per line.
//!
//! A line that holds no `=` continues the value of the record before it,
//! joined to it by a newline. The same rule reads the environment dumps of
//! the activation run and the cache file.

use vstd::prelude::*;
use vstd::slice::slice_to_vec;
use crate::bytes::{
    append_bytes, find_byte, has_byte, lemma_find, lemma_find_from_is, lemma_lines_concat,
    lemma_lines_single, spec_find, spec_lines, split_lines, views, EQUALS, NEWLINE,
};
use crate::env::{
    canonical_entries, entries_map, lemma_canonical_entries, lemma_drop_last_entry, sorted, Entry,
    Env,
};

verus! {

/// The variables read so far, and the name of the variable that a
/// continuation line would extend.
pub type BlockState = (Map<Seq<u8>, Seq<u8>>, Option<Seq<u8>>);

/// What a remembered name stands for in specifications.
pub open spec fn name_view(name: Option<Vec<u8>>) -> Option<Seq<u8>> {
    match name {
        Some(n) => Some(n@),
        None => None,
    }
}

/// Whether a line sets a variable; a line that does not is a continuation.
pub open spec fn line_is_assignment(line: Seq<u8>) -> bool {
    has_byte(line, EQUALS)
}

/// Whether the previous variable is known and present, so that a
/// continuation line has a value to extend.
pub open spec fn started(state: BlockState) -> bool {
    state.1 matches Some(name) && state.0.contains_key(name)
}

/// Whether `line` can be read in `state`: a continuation line may not come
/// before any variable.
pub open spec fn accepts_line(line: Seq<u8>, state: BlockState) -> bool {
    line_is_assignment(line) || started(state)
}

/// The effect of one line. An assignment is cut at its first `=`; a
/// continuation is appended, after a newline, to the previous variable.
pub open spec fn spec_parse_env_line(line: Seq<u8>, state: BlockState) -> BlockState {
    let at = spec_find(line, EQUALS);
    if at < line.len() {
        let name = line.subrange(0, at);
        (state.0.insert(name, line.subrange(at + 1, line.len() as int)), Some(name))
    } else if started(state) {
        let name = state.1->Some_0;
        (state.0.insert(name, state.0[name] + seq![NEWLINE] + line), state.1)
    } else {
        state
    }
}

/// The effect of a run of lines, read in order.
pub open spec fn spec_parse_block(lines: Seq<Seq<u8>>, state: BlockState) -> BlockState
    decreases lines.len(),
{
    if lines.len() == 0 {
        state
    } else {
        spec_parse_env_line(lines.last(), spec_parse_block(lines.drop_last(), state))
    }
}

/// The state in which a block begins.
pub open spec fn empty_block() -> BlockState {
    (Map::empty(), None)
}

/// Whether a block can be read from the beginning: it does not open with a
/// continuation line.
pub open spec fn well_formed_block(lines: Seq<Seq<u8>>) -> bool {
    lines.len() == 0 || line_is_assignment(lines[0])
}

/// The variables that a cache file holds.
pub open spec fn spec_parse_cache(bytes: Seq<u8>) -> Map<Seq<u8>, Seq<u8>> {
    spec_parse_block(spec_lines(bytes), empty_block()).0
}

/// Once a variable has been read, every further line can be read.
pub proof fn lemma_started_is_kept(line: Seq<u8>, state: BlockState)
    requires
        accepts_line(line, state),
    ensures
        started(spec_parse_env_line(line, state)),
{
    lemma_find(line, EQUALS);
}

/// Reading a run of lines is reading its first part and then the rest.
pub proof fn lemma_parse_block_concat(a: Seq<Seq<u8>>, b: Seq<Seq<u8>>, state: BlockState)
    ensures
        spec_parse_block(a + b, state) == spec_parse_block(b, spec_parse_block(a, state)),
    decreases b.len(),
{
    if b.len() == 0 {
        assert(a + b =~= a);
    } else {
        assert((a + b).drop_last() =~= a + b.drop_last());
        assert((a + b).last() == b.last());
        lemma_parse_block_concat(a, b.drop_last(), state);
    }
}

/// Reading one line.
pub proof fn lemma_parse_block_one(line: Seq<u8>, state: BlockState)
    ensures
        spec_parse_block(seq![line], state) == spec_parse_env_line(line, state),
{
    let one = seq![line];
    assert(one.drop_last() =~= Seq::<Seq<u8>>::empty());
    assert(spec_parse_block(one.drop_last(), state) == state);
    assert(one.last() == line);
}

/// In a block that does not open with a continuation line, every line can
/// be read when its turn comes.
pub proof fn lemma_well_formed_block(lines: Seq<Seq<u8>>, n: int)
    requires
        well_formed_block(lines),
        0 <= n < lines.len(),
    ensures
        accepts_line(lines[n], spec_parse_block(lines.take(n), empty_block())),
        started(spec_parse_block(lines.take(n + 1), empty_block())),
    decreases n,
{
    let before = spec_parse_block(lines.take(n), empty_block());
    if n > 0 {
        lemma_well_formed_block(lines, n - 1);
    } else {
        assert(lines.take(0) =~= Seq::<Seq<u8>>::empty());
    }
    assert(lines.take(n + 1).drop_last() =~= lines.take(n));
    assert(lines.take(n + 1).last() == lines[n]);
    lemma_started_is_kept(lines[n], before);
}

/// Reads one line of a block into `env`.
///
/// `prev_var_name` is the name that a continuation line extends; it is set
/// by every assignment.
pub fn parse_env_line(line: &[u8], env: &mut Env, prev_var_name: &mut Option<Vec<u8>>)
    requires
        old(env).wf(),
        accepts_line(line@, (old(env)@, name_view(*old(prev_var_name)))),
    ensures
        final(env).wf(),
        (final(env)@, name_view(*final(prev_var_name))) == spec_parse_env_line(
            line@,
            (old(env)@, name_view(*old(prev_var_name))),
        ),
{
    let at = find_byte(line, EQUALS);
    if at < line.len() {
        let name = slice_to_vec(&line[0..at]);
        let value = slice_to_vec(&line[at + 1..line.len()]);
        *prev_var_name = Some(slice_to_vec(&line[0..at]));
        env.insert(name, value);
    } else {
        match prev_var_name {
            Some(name) => {
                let mut tail: Vec<u8> = Vec::new();
                tail.push(NEWLINE);
                append_bytes(&mut tail, line);
                assert(tail@ =~= seq![NEWLINE] + line@);
                let ghost before = env@;
                env.extend_value(name.as_slice(), tail.as_slice());
                assert(before[name@] + (seq![NEWLINE] + line@) =~= before[name@] + seq![NEWLINE]
                    + line@);
            },
            None => {},
        }
    }
}

/// Whether `line` can be read into `env`: it sets a variable, or there is a
/// variable to continue.
pub fn line_is_accepted(line: &[u8], env: &Env, prev_var_name: &Option<Vec<u8>>) -> (ok: bool)
    requires
        env.wf(),
    ensures
        ok == accepts_line(line@, (env@, name_view(*prev_var_name))),
{
    if find_byte(line, EQUALS) < line.len() {
        true
    } else {
        match prev_var_name {
            Some(name) => env.contains_key(name.as_slice()),
            None => false,
        }
    }
}

/// Whether the text of a cache file can be read: its first line, if it has
/// one, sets a variable.
pub fn cache_is_well_formed(bytes: &[u8]) -> (ok: bool)
    ensures
        ok == well_formed_block(spec_lines(bytes@)),
{
    if bytes.len() == 0 {
        return true;
    }
    let end = find_byte(bytes, NEWLINE);
    let first = &bytes[0..end];
    proof {
        lemma_find(bytes@, NEWLINE);
        if end == bytes@.len() {
            assert(bytes@.subrange(0, end as int) =~= bytes@);
        }
        assert(spec_lines(bytes@)[0] == first@);
    }
    find_byte(first, EQUALS) < first.len()
}

/// Loads the cached diff. `None` stands for a cache file that does not
/// exist yet, which is not the same as a file without variables.
pub fn get_envvars(cache_file: Option<&[u8]>) -> (envvars: Option<Env>)
    requires
        cache_file matches Some(bytes) ==> well_formed_block(spec_lines(bytes@)),
    ensures
        envvars is Some <==> cache_file is Some,
        envvars matches Some(env) ==> env.wf() && env@ == spec_parse_cache(cache_file->Some_0@),
{
    match cache_file {
        None => None,
        Some(bytes) => {
            let lines = split_lines(bytes);
            let mut env = Env::new();
            let mut prev_var_name: Option<Vec<u8>> = None;
            let mut i: usize = 0;
            assert(views(lines@).take(0) =~= Seq::<Seq<u8>>::empty());
            while i < lines.len()
                invariant
                    i <= lines@.len(),
                    env.wf(),
                    views(lines@) == spec_lines(bytes@),
                    well_formed_block(views(lines@)),
                    (env@, name_view(prev_var_name)) == spec_parse_block(
                        views(lines@).take(i as int),
                        empty_block(),
                    ),
                decreases lines@.len() - i,
            {
                proof {
                    let all = views(lines@);
                    lemma_well_formed_block(all, i as int);
                    assert(all.take(i + 1).drop_last() =~= all.take(i as int));
                    assert(all.take(i + 1).last() == lines@[i as int]@);
                }
                parse_env_line(lines[i].as_slice(), &mut env, &mut prev_var_name);
                i += 1;
            }
            assert(views(lines@).take(i as int) =~= views(lines@));
            Some(env)
        },
    }
}

/// The record that holds one variable.
pub open spec fn record(e: Entry) -> Seq<u8> {
    e.0 + seq![EQUALS] + e.1 + seq![NEWLINE]
}

/// The text of a cache file: the records of the variables, in order.
pub open spec fn spec_serialize(es: Seq<Entry>) -> Seq<u8>
    decreases es.len(),
{
    if es.len() == 0 {
        Seq::empty()
    } else {
        spec_serialize(es.drop_last()) + record(es.last())
    }
}

/// The text of the cache file that holds the variables of `m`.
pub open spec fn spec_cache_text(m: Map<Seq<u8>, Seq<u8>>) -> Seq<u8> {
    spec_serialize(canonical_entries(m))
}

/// Writes a snapshot in the cache format. The text depends on the
/// variables alone.
pub fn serialize_env(env: &Env) -> (bytes: Vec<u8>)
    requires
        env.wf(),
    ensures
        bytes@ == spec_serialize(env.entries()),
        bytes@ == spec_cache_text(env@),
{
    proof {
        lemma_canonical_entries(env.entries());
    }
    let mut bytes: Vec<u8> = Vec::new();
    let n = env.len();
    let mut i: usize = 0;
    assert(env.entries().take(0) =~= Seq::<Entry>::empty());
    while i < n
        invariant
            i <= n,
            n == env.entries().len(),
            bytes@ == spec_serialize(env.entries().take(i as int)),
        decreases n - i,
    {
        let ghost before = bytes@;
        append_bytes(&mut bytes, env.name_at(i).as_slice());
        bytes.push(EQUALS);
        append_bytes(&mut bytes, env.value_at(i).as_slice());
        bytes.push(NEWLINE);
        proof {
            let es = env.entries();
            assert(es.take(i + 1).drop_last() =~= es.take(i as int));
            assert(es.take(i + 1).last() == es[i as int]);
            assert(bytes@ =~= before + record(es[i as int]));
        }
        i += 1;
    }
    assert(env.entries().take(i as int) =~= env.entries());
    bytes
}

/// A name that the cache format can hold: it has no `=` and no newline.
pub open spec fn name_is_plain(name: Seq<u8>) -> bool {
    !has_byte(name, EQUALS) && !has_byte(name, NEWLINE)
}

/// A value that the cache format can hold: no `=` comes after a newline,
/// so none of its further lines reads as an assignment.
pub open spec fn value_is_plain(value: Seq<u8>) -> bool {
    forall|i: int, j: int|
        #![trigger value[i], value[j]]
        0 <= i < j < value.len() && value[i] == NEWLINE ==> value[j] != EQUALS
}

/// Whether the cache format can hold every variable of `es`.
pub open spec fn representable(es: Seq<Entry>) -> bool {
    forall|i: int|
        #![trigger es[i]]
        0 <= i < es.len() ==> name_is_plain(es[i].0) && value_is_plain(es[i].1)
}

/// Lines without `=` that follow a variable are appended to its value.
proof fn lemma_continuation_lines(text: Seq<u8>, state: BlockState)
    requires
        started(state),
        !has_byte(text, EQUALS),
    ensures
        spec_parse_block(spec_lines(text + seq![NEWLINE]), state) == (
            state.0.insert(state.1->Some_0, state.0[state.1->Some_0] + seq![NEWLINE] + text),
            state.1,
        ),
    decreases text.len(),
{
    let name = state.1->Some_0;
    let value = state.0[name];
    lemma_find(text, NEWLINE);
    lemma_find(text, EQUALS);
    let at = spec_find(text, NEWLINE);
    if at >= text.len() {
        lemma_lines_single(text);
        lemma_parse_block_one(text, state);
    } else {
        let head = text.subrange(0, at);
        let rest = text.subrange(at + 1, text.len() as int);
        assert(text + seq![NEWLINE] =~= (head + seq![NEWLINE]) + (rest + seq![NEWLINE]));
        lemma_find_from_is(head, NEWLINE, 0, at);
        lemma_lines_single(head);
        lemma_lines_concat(head + seq![NEWLINE], rest + seq![NEWLINE]);
        lemma_parse_block_concat(seq![head], spec_lines(rest + seq![NEWLINE]), state);
        lemma_parse_block_one(head, state);
        assert(!has_byte(head, EQUALS)) by {
            lemma_find(head, EQUALS);
            if has_byte(head, EQUALS) {
                let j = spec_find(head, EQUALS);
                assert(text[j] == head[j]);
            }
        }
        assert(!has_byte(rest, EQUALS)) by {
            lemma_find(rest, EQUALS);
            if has_byte(rest, EQUALS) {
                let j = spec_find(rest, EQUALS);
                assert(text[at + 1 + j] == rest[j]);
            }
        }
        let next = spec_parse_env_line(head, state);
        assert(next == (state.0.insert(name, value + seq![NEWLINE] + head), state.1));
        lemma_continuation_lines(rest, next);
        assert(value + seq![NEWLINE] + head + seq![NEWLINE] + rest =~= value + seq![NEWLINE]
            + text);
        assert(next.0.insert(name, next.0[name] + seq![NEWLINE] + rest) =~= state.0.insert(
            name,
            value + seq![NEWLINE] + text,
        ));
    }
}

/// Reading the record of a variable sets that variable, whatever was read
/// before; and the record's first line is an assignment.
proof fn lemma_record_is_read(e: Entry, state: BlockState)
    requires
        name_is_plain(e.0),
        value_is_plain(e.1),
    ensures
        spec_parse_block(spec_lines(record(e)), state) == (state.0.insert(e.0, e.1), Some(e.0)),
        spec_lines(record(e)).len() > 0,
        line_is_assignment(spec_lines(record(e))[0]),
{
    let name = e.0;
    let value = e.1;
    lemma_find(name, EQUALS);
    lemma_find(name, NEWLINE);
    lemma_find(value, NEWLINE);
    let at = spec_find(value, NEWLINE);
    let first = if at < value.len() {
        value.subrange(0, at)
    } else {
        value
    };
    let head = name + seq![EQUALS] + first;
    // The first line is `name=first`, and it is cut after the name.
    assert forall|j: int| 0 <= j < name.len() implies head[j] != EQUALS by {
        assert(head[j] == name[j]);
    }
    lemma_find_from_is(head, EQUALS, 0, name.len() as int);
    assert(head.subrange(0, name.len() as int) =~= name);
    assert(head.subrange(name.len() as int + 1, head.len() as int) =~= first);
    assert forall|j: int| 0 <= j < head.len() implies head[j] != NEWLINE by {
        if j < name.len() {
            assert(head[j] == name[j]);
        } else if j > name.len() {
            assert(head[j] == first[j - name.len() - 1]);
            assert(first[j - name.len() - 1] == value[j - name.len() - 1]);
        }
    }
    lemma_find_from_is(head, NEWLINE, 0, head.len() as int);
    lemma_lines_single(head);
    lemma_parse_block_one(head, state);
    let next = spec_parse_env_line(head, state);
    assert(next == (state.0.insert(name, first), Some(name)));
    if at >= value.len() {
        assert(record(e) =~= head + seq![NEWLINE]);
    } else {
        let rest = value.subrange(at + 1, value.len() as int);
        assert(record(e) =~= (head + seq![NEWLINE]) + (rest + seq![NEWLINE]));
        lemma_lines_concat(head + seq![NEWLINE], rest + seq![NEWLINE]);
        lemma_parse_block_concat(seq![head], spec_lines(rest + seq![NEWLINE]), state);
        assert(!has_byte(rest, EQUALS)) by {
            lemma_find(rest, EQUALS);
            if has_byte(rest, EQUALS) {
                let j = spec_find(rest, EQUALS);
                assert(value[at + 1 + j] == rest[j]);
                assert(value[at] == NEWLINE);
            }
        }
        lemma_continuation_lines(rest, next);
        assert(first + seq![NEWLINE] + rest =~= value);
        assert(next.0.insert(name, next.0[name] + seq![NEWLINE] + rest) =~= state.0.insert(
            name,
            value,
        ));
    }
}

/// The text of a cache file is empty or ends in a newline.
proof fn lemma_serialize_ends_in_newline(es: Seq<Entry>)
    ensures
        spec_serialize(es).len() == 0 || spec_serialize(es).last() == NEWLINE,
        es.len() > 0 ==> spec_serialize(es).len() > 0,
{
    if es.len() > 0 {
        let text = spec_serialize(es);
        assert(text[text.len() - 1] == NEWLINE);
    }
}

/// Reading back what was written gives the variables that were written.
proof fn lemma_round_trip_entries(es: Seq<Entry>)
    requires
        sorted(es),
        representable(es),
    ensures
        spec_parse_block(spec_lines(spec_serialize(es)), empty_block()).0 == entries_map(es),
        well_formed_block(spec_lines(spec_serialize(es))),
        es.len() > 0 ==> spec_lines(spec_serialize(es)).len() > 0,
    decreases es.len(),
{
    if es.len() == 0 {
        assert(entries_map(es) =~= Map::<Seq<u8>, Seq<u8>>::empty());
    } else {
        let init = es.drop_last();
        let e = es.last();
        lemma_drop_last_entry(es);
        assert forall|i: int| #![trigger init[i]] 0 <= i < init.len() implies name_is_plain(
            init[i].0,
        ) && value_is_plain(init[i].1) by {
            assert(init[i] == es[i]);
        }
        assert(name_is_plain(es[es.len() - 1].0) && value_is_plain(es[es.len() - 1].1));
        lemma_round_trip_entries(init);
        lemma_serialize_ends_in_newline(init);
        lemma_lines_concat(spec_serialize(init), record(e));
        let first_lines = spec_lines(spec_serialize(init));
        let last_lines = spec_lines(record(e));
        lemma_parse_block_concat(first_lines, last_lines, empty_block());
        lemma_record_is_read(e, spec_parse_block(first_lines, empty_block()));
        if init.len() > 0 {
            assert((first_lines + last_lines)[0] == first_lines[0]);
        } else {
            assert(first_lines =~= Seq::<Seq<u8>>::empty());
            assert((first_lines + last_lines)[0] == last_lines[0]);
        }
    }
}

/// Round trip: a snapshot written in the cache format and read back is the
/// same map, values with embedded newlines included. The format has no
/// escapes, so this holds of the snapshots that it can hold: no name with
/// `=` or a newline in it, and no value with `=` after a newline.
pub proof fn lemma_cache_round_trip(env: Env)
    requires
        env.wf(),
        representable(env.entries()),
    ensures
        well_formed_block(spec_lines(spec_cache_text(env@))),
        spec_parse_cache(spec_cache_text(env@)) == env@,
{
    lemma_canonical_entries(env.entries());
    lemma_round_trip_entries(env.entries());
}

} // verus!
