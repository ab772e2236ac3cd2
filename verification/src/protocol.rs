//! The diff protocol: two environment dumps, each between a pair of marker
//! lines, inside the output of the activation script.
//!
//! The parser is a state machine over lines. Lines inside a dump are read as
//! variables; the marker lines are consumed; every other line belongs to the
//! script and is handed on unchanged.

use vstd::prelude::*;
use vstd::slice::slice_to_vec;
use crate::bytes::{ascii_bytes, bytes_equal, literal_bytes, spec_lines, split_lines, views, NEWLINE};
use crate::cache::{
    accepts_line, empty_block, lemma_started_is_kept, line_is_accepted, name_view,
    parse_env_line, spec_parse_block, spec_parse_env_line, started, well_formed_block,
    BlockState,
};
use crate::env::Env;

verus! {

/// The line that opens the dump of the environment before activation.
pub open spec fn begin_before() -> Seq<u8> {
    ascii_bytes("// BEGIN QUICKENV-BEFORE"@)
}

/// The line that closes the dump of the environment before activation.
pub open spec fn end_before() -> Seq<u8> {
    ascii_bytes("// END QUICKENV-BEFORE"@)
}

/// The line that opens the dump of the environment after activation.
pub open spec fn begin_after() -> Seq<u8> {
    ascii_bytes("// BEGIN QUICKENV-AFTER"@)
}

/// The line that closes the dump of the environment after activation.
pub open spec fn end_after() -> Seq<u8> {
    ascii_bytes("// END QUICKENV-AFTER"@)
}

/// The line that opens the first dump.
pub fn begin_before_marker() -> (marker: &'static [u8])
    ensures
        marker@ == begin_before(),
{
    proof {
        reveal_strlit("// BEGIN QUICKENV-BEFORE");
    }
    literal_bytes("// BEGIN QUICKENV-BEFORE")
}

/// The line that closes the first dump.
pub fn end_before_marker() -> (marker: &'static [u8])
    ensures
        marker@ == end_before(),
{
    proof {
        reveal_strlit("// END QUICKENV-BEFORE");
    }
    literal_bytes("// END QUICKENV-BEFORE")
}

/// The line that opens the second dump.
pub fn begin_after_marker() -> (marker: &'static [u8])
    ensures
        marker@ == begin_after(),
{
    proof {
        reveal_strlit("// BEGIN QUICKENV-AFTER");
    }
    literal_bytes("// BEGIN QUICKENV-AFTER")
}

/// The line that closes the second dump.
pub fn end_after_marker() -> (marker: &'static [u8])
    ensures
        marker@ == end_after(),
{
    proof {
        reveal_strlit("// END QUICKENV-AFTER");
    }
    literal_bytes("// END QUICKENV-AFTER")
}

/// A line without the newlines at its end.
pub open spec fn spec_strip(line: Seq<u8>) -> Seq<u8>
    decreases line.len(),
{
    if line.len() > 0 && line.last() == NEWLINE {
        spec_strip(line.drop_last())
    } else {
        line
    }
}

/// Removes the newlines at the end of a line.
pub fn strip_newlines(line: &[u8]) -> (stripped: &[u8])
    ensures
        stripped@ == spec_strip(line@),
{
    let mut end: usize = line.len();
    assert(line@.subrange(0, end as int) =~= line@);
    while end > 0 && line[end - 1] == NEWLINE
        invariant
            end <= line@.len(),
            spec_strip(line@) == spec_strip(line@.subrange(0, end as int)),
        decreases end,
    {
        assert(line@.subrange(0, end as int).drop_last() =~= line@.subrange(0, end - 1));
        end -= 1;
    }
    &line[0..end]
}

/// Where the parser stands in the stream.
#[derive(Clone, Copy, Debug, PartialEq, Eq, Structural)]
pub enum ParseState {
    /// Before the first dump.
    PreBefore,
    /// Inside the dump taken before activation.
    InBefore,
    /// Between the two dumps, where the activation script runs.
    PreAfter,
    /// Inside the dump taken after activation.
    InAfter,
    /// After the second dump.
    End,
}

/// The parser as specifications see it.
pub struct ParserModel {
    pub state: ParseState,
    /// The variables of the dump taken before activation.
    pub old_env: Map<Seq<u8>, Seq<u8>>,
    /// The variables of the dump taken after activation.
    pub new_env: Map<Seq<u8>, Seq<u8>>,
    /// The variable that a continuation line would extend.
    pub prev: Option<Seq<u8>>,
}

/// The parser before any line.
pub open spec fn initial_model() -> ParserModel {
    ParserModel {
        state: ParseState::PreBefore,
        old_env: Map::empty(),
        new_env: Map::empty(),
        prev: None,
    }
}

/// Whether the parser can take `raw_line`: inside a dump, a continuation
/// line may not come before any variable.
pub open spec fn model_accepts(m: ParserModel, raw_line: Seq<u8>) -> bool {
    let line = spec_strip(raw_line);
    match m.state {
        ParseState::InBefore => line == end_before() || accepts_line(line, (m.old_env, m.prev)),
        ParseState::InAfter => line == end_after() || accepts_line(line, (m.new_env, m.prev)),
        _ => true,
    }
}

/// One step of the parser: the next model, and whether the line is handed
/// on as script output.
pub open spec fn spec_feed(m: ParserModel, raw_line: Seq<u8>) -> (ParserModel, bool) {
    let line = spec_strip(raw_line);
    match m.state {
        ParseState::PreBefore => if line == begin_before() {
            (ParserModel { state: ParseState::InBefore, prev: None, ..m }, false)
        } else {
            (m, true)
        },
        ParseState::InBefore => if line == end_before() {
            (ParserModel { state: ParseState::PreAfter, prev: None, ..m }, false)
        } else {
            let s = spec_parse_env_line(line, (m.old_env, m.prev));
            (ParserModel { old_env: s.0, prev: s.1, ..m }, false)
        },
        ParseState::PreAfter => if line == begin_after() {
            (ParserModel { state: ParseState::InAfter, prev: None, ..m }, false)
        } else {
            (m, true)
        },
        ParseState::InAfter => if line == end_after() {
            (ParserModel { state: ParseState::End, prev: None, ..m }, false)
        } else {
            let s = spec_parse_env_line(line, (m.new_env, m.prev));
            (ParserModel { new_env: s.0, prev: s.1, ..m }, false)
        },
        ParseState::End => (m, true),
    }
}

/// The place of a state in the order in which the parser passes through
/// its states.
pub open spec fn state_rank(state: ParseState) -> int {
    match state {
        ParseState::PreBefore => 0,
        ParseState::InBefore => 1,
        ParseState::PreAfter => 2,
        ParseState::InAfter => 3,
        ParseState::End => 4,
    }
}

/// The parser never goes back. A line leaves it in its state or moves it
/// to the next one; it is handed on exactly where the parser is outside the
/// dumps and stays in its state; and each snapshot changes only while the
/// parser is inside its dump.
pub proof fn lemma_feed_advances(m: ParserModel, raw_line: Seq<u8>)
    ensures
        state_rank(m.state) <= state_rank(spec_feed(m, raw_line).0.state) <= state_rank(m.state)
            + 1,
        spec_feed(m, raw_line).1 <==> m.state != ParseState::InBefore && m.state
            != ParseState::InAfter && spec_feed(m, raw_line).0.state == m.state,
        m.state != ParseState::InBefore ==> spec_feed(m, raw_line).0.old_env == m.old_env,
        m.state != ParseState::InAfter ==> spec_feed(m, raw_line).0.new_env == m.new_env,
{
}

/// The parser after a run of lines, and the lines that it handed on, in
/// order.
pub open spec fn spec_run(lines: Seq<Seq<u8>>, m: ParserModel) -> (ParserModel, Seq<Seq<u8>>)
    decreases lines.len(),
{
    if lines.len() == 0 {
        (m, Seq::empty())
    } else {
        let before = spec_run(lines.drop_last(), m);
        let step = spec_feed(before.0, lines.last());
        (
            step.0,
            if step.1 {
                before.1.push(lines.last())
            } else {
                before.1
            },
        )
    }
}

/// Whether the parser can take every line of a run when its turn comes.
pub open spec fn run_accepted(lines: Seq<Seq<u8>>, m: ParserModel) -> bool
    decreases lines.len(),
{
    lines.len() == 0 || (run_accepted(lines.drop_last(), m) && model_accepts(
        spec_run(lines.drop_last(), m).0,
        lines.last(),
    ))
}

/// What a whole stream parses to.
pub open spec fn spec_parse_env_diff(input: Seq<u8>) -> (ParserModel, Seq<Seq<u8>>) {
    spec_run(spec_lines(input), initial_model())
}

/// Whether a whole stream can be parsed.
pub open spec fn well_formed_stream(input: Seq<u8>) -> bool {
    run_accepted(spec_lines(input), initial_model())
}

/// A run that is accepted is accepted up to any point.
pub proof fn lemma_accepted_prefix(lines: Seq<Seq<u8>>, m: ParserModel, n: int)
    requires
        run_accepted(lines, m),
        0 <= n <= lines.len(),
    ensures
        run_accepted(lines.take(n), m),
        n < lines.len() ==> model_accepts(spec_run(lines.take(n), m).0, lines[n]),
    decreases lines.len(),
{
    if n == lines.len() {
        assert(lines.take(n) =~= lines);
    } else {
        assert(lines.drop_last().take(n) =~= lines.take(n));
        if n == lines.len() - 1 {
            assert(lines.take(n) =~= lines.drop_last());
        } else {
            lemma_accepted_prefix(lines.drop_last(), m, n);
        }
    }
}

/// Running over two runs in a row.
pub proof fn lemma_run_concat(a: Seq<Seq<u8>>, b: Seq<Seq<u8>>, m: ParserModel)
    ensures
        spec_run(a + b, m).0 == spec_run(b, spec_run(a, m).0).0,
        spec_run(a + b, m).1 == spec_run(a, m).1 + spec_run(b, spec_run(a, m).0).1,
        run_accepted(a + b, m) == (run_accepted(a, m) && run_accepted(b, spec_run(a, m).0)),
    decreases b.len(),
{
    if b.len() == 0 {
        assert(a + b =~= a);
        assert(spec_run(a, m).1 + Seq::<Seq<u8>>::empty() =~= spec_run(a, m).1);
    } else {
        assert((a + b).drop_last() =~= a + b.drop_last());
        assert((a + b).last() == b.last());
        lemma_run_concat(a, b.drop_last(), m);
        let mid = spec_run(a, m);
        let rest = spec_run(b.drop_last(), mid.0);
        assert(mid.1 + rest.1.push(b.last()) =~= (mid.1 + rest.1).push(b.last()));
    }
}

/// Running over one line.
pub proof fn lemma_run_one(line: Seq<u8>, m: ParserModel)
    ensures
        spec_run(seq![line], m).0 == spec_feed(m, line).0,
        spec_run(seq![line], m).1 == if spec_feed(m, line).1 {
            seq![line]
        } else {
            Seq::<Seq<u8>>::empty()
        },
        run_accepted(seq![line], m) == model_accepts(m, line),
{
    let one = seq![line];
    assert(one.drop_last() =~= Seq::<Seq<u8>>::empty());
    assert(one.last() == line);
    assert(spec_run(one.drop_last(), m) == (m, Seq::<Seq<u8>>::empty()));
    assert(run_accepted(one.drop_last(), m));
    assert(Seq::<Seq<u8>>::empty().push(line) =~= seq![line]);
}

/// The lines of a run without the newlines at their ends.
pub open spec fn stripped(lines: Seq<Seq<u8>>) -> Seq<Seq<u8>> {
    Seq::new(lines.len(), |i: int| spec_strip(lines[i]))
}

/// The lines of a text end in no newline: stripping leaves them as they
/// are.
pub proof fn lemma_lines_are_stripped(input: Seq<u8>)
    ensures
        stripped(spec_lines(input)) == spec_lines(input),
{
    let lines = spec_lines(input);
    crate::bytes::lemma_lines_hold_no_newline(input);
    assert forall|i: int| 0 <= i < lines.len() implies spec_strip(lines[i]) == lines[i] by {
        let line = lines[i];
        crate::bytes::lemma_find(line, NEWLINE);
        if line.len() > 0 && line.last() == NEWLINE {
            assert(line[line.len() - 1] == NEWLINE);
        }
    }
    assert(stripped(lines) =~= lines);
}

/// Whether no line of a run is the marker, once stripped.
pub open spec fn free_of(lines: Seq<Seq<u8>>, marker: Seq<u8>) -> bool {
    forall|i: int| 0 <= i < lines.len() ==> spec_strip(#[trigger] lines[i]) != marker
}

/// The marker that makes the parser leave its state, where it waits for one.
pub open spec fn awaited(state: ParseState) -> Option<Seq<u8>> {
    match state {
        ParseState::PreBefore => Some(begin_before()),
        ParseState::InBefore => Some(end_before()),
        ParseState::PreAfter => Some(begin_after()),
        ParseState::InAfter => Some(end_after()),
        ParseState::End => None,
    }
}

/// Outside the dumps, lines that are not the awaited marker are handed on
/// and change nothing.
proof fn lemma_run_outside(lines: Seq<Seq<u8>>, m: ParserModel)
    requires
        m.state != ParseState::InBefore,
        m.state != ParseState::InAfter,
        awaited(m.state) matches Some(marker) ==> free_of(lines, marker),
    ensures
        spec_run(lines, m) == (m, lines),
        run_accepted(lines, m),
    decreases lines.len(),
{
    if lines.len() == 0 {
        assert(lines =~= Seq::<Seq<u8>>::empty());
    } else {
        let init = lines.drop_last();
        assert forall|i: int| 0 <= i < init.len() implies lines[i] == #[trigger] init[i] by {}
        if awaited(m.state) is Some {
            let marker = awaited(m.state)->Some_0;
            assert(free_of(init, marker)) by {
                assert forall|i: int| 0 <= i < init.len() implies spec_strip(#[trigger] init[i])
                    != marker by {
                    assert(init[i] == lines[i]);
                }
            }
            assert(spec_strip(lines[lines.len() - 1]) != marker);
        }
        lemma_run_outside(init, m);
        assert(init.push(lines.last()) =~= lines);
    }
}

/// The dump that the parser is inside of, with the name to continue.
pub open spec fn current_block(m: ParserModel) -> BlockState {
    if m.state == ParseState::InBefore {
        (m.old_env, m.prev)
    } else {
        (m.new_env, m.prev)
    }
}

/// The model with the dump that the parser is inside of replaced.
pub open spec fn with_block(m: ParserModel, block: BlockState) -> ParserModel {
    if m.state == ParseState::InBefore {
        ParserModel { old_env: block.0, prev: block.1, ..m }
    } else {
        ParserModel { new_env: block.0, prev: block.1, ..m }
    }
}

/// Inside a dump, lines that are not its closing marker are read as
/// variables and none is handed on.
proof fn lemma_run_inside(lines: Seq<Seq<u8>>, m: ParserModel)
    requires
        m.state == ParseState::InBefore || m.state == ParseState::InAfter,
        free_of(lines, awaited(m.state)->Some_0),
        lines.len() > 0 ==> accepts_line(spec_strip(lines[0]), current_block(m)),
    ensures
        spec_run(lines, m) == (
            with_block(m, spec_parse_block(stripped(lines), current_block(m))),
            Seq::<Seq<u8>>::empty(),
        ),
        run_accepted(lines, m),
        lines.len() > 0 ==> started(spec_parse_block(stripped(lines), current_block(m))),
    decreases lines.len(),
{
    let marker = awaited(m.state)->Some_0;
    if lines.len() == 0 {
        assert(stripped(lines) =~= Seq::<Seq<u8>>::empty());
    } else {
        let init = lines.drop_last();
        let last = lines.last();
        assert(free_of(init, marker)) by {
            assert forall|i: int| 0 <= i < init.len() implies spec_strip(#[trigger] init[i])
                != marker by {
                assert(init[i] == lines[i]);
            }
        }
        assert(spec_strip(lines[lines.len() - 1]) != marker);
        if init.len() > 0 {
            assert(init[0] == lines[0]);
        }
        lemma_run_inside(init, m);
        assert(stripped(lines).drop_last() =~= stripped(init));
        assert(stripped(lines).last() == spec_strip(last));
        let before = spec_parse_block(stripped(init), current_block(m));
        if init.len() == 0 {
            assert(stripped(init) =~= Seq::<Seq<u8>>::empty());
        }
        lemma_started_is_kept(spec_strip(last), before);
    }
}

/// The parser recovers both dumps and hands on the script's own lines.
///
/// Take any stream whose lines are five runs with the four markers between
/// them, in order. Let no run hold the marker that ends it, and let neither
/// dump open with a continuation line. Then the stream can be parsed, the
/// parser ends after the second dump, its two snapshots are what the two
/// dumps read as, and the lines handed on are exactly those outside the
/// dumps, in the order in which they came.
pub proof fn lemma_parse_recovers_dumps(
    input: Seq<u8>,
    pre: Seq<Seq<u8>>,
    before: Seq<Seq<u8>>,
    mid: Seq<Seq<u8>>,
    after: Seq<Seq<u8>>,
    post: Seq<Seq<u8>>,
)
    requires
        spec_lines(input) == pre + seq![begin_before()] + before + seq![end_before()] + mid
            + seq![begin_after()] + after + seq![end_after()] + post,
        free_of(pre, begin_before()),
        free_of(before, end_before()),
        free_of(mid, begin_after()),
        free_of(after, end_after()),
        well_formed_block(stripped(before)),
        well_formed_block(stripped(after)),
    ensures
        well_formed_stream(input),
        spec_parse_env_diff(input) == (
            ParserModel {
                state: ParseState::End,
                old_env: spec_parse_block(stripped(before), empty_block()).0,
                new_env: spec_parse_block(stripped(after), empty_block()).0,
                prev: None,
            },
            pre + mid + post,
        ),
{
    lemma_markers_are_stripped();
    let m0 = initial_model();
    let l1 = pre;
    lemma_run_outside(pre, m0);
    let l2 = l1 + seq![begin_before()];
    lemma_run_concat(l1, seq![begin_before()], m0);
    lemma_run_one(begin_before(), m0);
    let m2 = ParserModel { state: ParseState::InBefore, ..m0 };
    assert(spec_run(l2, m0).0 == m2);
    assert(spec_run(l2, m0).1 =~= pre);
    let l3 = l2 + before;
    lemma_run_concat(l2, before, m0);
    if before.len() > 0 {
        assert(stripped(before)[0] == spec_strip(before[0]));
    }
    lemma_run_inside(before, m2);
    let old_env = spec_parse_block(stripped(before), empty_block());
    let m3 = ParserModel { old_env: old_env.0, prev: old_env.1, ..m2 };
    assert(spec_run(l3, m0).0 == m3);
    assert(spec_run(l3, m0).1 =~= pre);
    let l4 = l3 + seq![end_before()];
    lemma_run_concat(l3, seq![end_before()], m0);
    lemma_run_one(end_before(), m3);
    let m4 = ParserModel { state: ParseState::PreAfter, prev: None, ..m3 };
    assert(spec_run(l4, m0).0 == m4);
    assert(spec_run(l4, m0).1 =~= pre);
    let l5 = l4 + mid;
    lemma_run_concat(l4, mid, m0);
    lemma_run_outside(mid, m4);
    assert(spec_run(l5, m0).0 == m4);
    let l6 = l5 + seq![begin_after()];
    lemma_run_concat(l5, seq![begin_after()], m0);
    lemma_run_one(begin_after(), m4);
    let m6 = ParserModel { state: ParseState::InAfter, ..m4 };
    assert(spec_run(l6, m0).0 == m6);
    assert(spec_run(l6, m0).1 =~= pre + mid);
    let l7 = l6 + after;
    lemma_run_concat(l6, after, m0);
    if after.len() > 0 {
        assert(stripped(after)[0] == spec_strip(after[0]));
    }
    lemma_run_inside(after, m6);
    let new_env = spec_parse_block(stripped(after), empty_block());
    let m7 = ParserModel { new_env: new_env.0, prev: new_env.1, ..m6 };
    assert(spec_run(l7, m0).0 == m7);
    assert(spec_run(l7, m0).1 =~= pre + mid);
    let l8 = l7 + seq![end_after()];
    lemma_run_concat(l7, seq![end_after()], m0);
    lemma_run_one(end_after(), m7);
    let m8 = ParserModel { state: ParseState::End, prev: None, ..m7 };
    assert(spec_run(l8, m0).0 == m8);
    assert(spec_run(l8, m0).1 =~= pre + mid);
    let l9 = l8 + post;
    lemma_run_concat(l8, post, m0);
    lemma_run_outside(post, m8);
    assert(spec_run(l9, m0).1 =~= pre + mid + post);
}

/// The marker lines end in no newline, and no two of them are the same.
proof fn lemma_markers_are_stripped()
    ensures
        spec_strip(begin_before()) == begin_before(),
        spec_strip(end_before()) == end_before(),
        spec_strip(begin_after()) == begin_after(),
        spec_strip(end_after()) == end_after(),
{
    reveal_strlit("// BEGIN QUICKENV-BEFORE");
    reveal_strlit("// END QUICKENV-BEFORE");
    reveal_strlit("// BEGIN QUICKENV-AFTER");
    reveal_strlit("// END QUICKENV-AFTER");
    assert(begin_before().last() == 69u8);
    assert(end_before().last() == 69u8);
    assert(begin_after().last() == 82u8);
    assert(end_after().last() == 82u8);
}

/// The parser of the diff protocol.
#[derive(Debug)]
pub struct DiffParser {
    state: ParseState,
    old_env: Env,
    new_env: Env,
    prev_var_name: Option<Vec<u8>>,
}

impl View for DiffParser {
    type V = ParserModel;

    closed spec fn view(&self) -> ParserModel {
        ParserModel {
            state: self.state,
            old_env: self.old_env@,
            new_env: self.new_env@,
            prev: name_view(self.prev_var_name),
        }
    }
}

impl DiffParser {
    /// The invariant of the type: both snapshots are well-formed.
    pub closed spec fn wf(&self) -> bool {
        self.old_env.wf() && self.new_env.wf()
    }

    /// The parser before any line.
    pub fn new() -> (parser: DiffParser)
        ensures
            parser.wf(),
            parser@ == initial_model(),
    {
        DiffParser {
            state: ParseState::PreBefore,
            old_env: Env::new(),
            new_env: Env::new(),
            prev_var_name: None,
        }
    }

    /// Where the parser stands.
    pub fn state(&self) -> (state: ParseState)
        ensures
            state == self@.state,
    {
        self.state
    }

    /// Whether the parser can take this line next.
    pub fn accepts(&self, raw_line: &[u8]) -> (ok: bool)
        requires
            self.wf(),
        ensures
            ok == model_accepts(self@, raw_line@),
    {
        let line = strip_newlines(raw_line);
        match self.state {
            ParseState::InBefore => bytes_equal(line, end_before_marker()) || line_is_accepted(
                line,
                &self.old_env,
                &self.prev_var_name,
            ),
            ParseState::InAfter => bytes_equal(line, end_after_marker()) || line_is_accepted(
                line,
                &self.new_env,
                &self.prev_var_name,
            ),
            _ => true,
        }
    }

    /// Takes the next line of the stream. Returns whether the line is script
    /// output, to be handed on as it came.
    pub fn feed(&mut self, raw_line: &[u8]) -> (forward: bool)
        requires
            old(self).wf(),
            model_accepts(old(self)@, raw_line@),
        ensures
            final(self).wf(),
            (final(self)@, forward) == spec_feed(old(self)@, raw_line@),
    {
        let line = strip_newlines(raw_line);
        match self.state {
            ParseState::PreBefore => {
                if bytes_equal(line, begin_before_marker()) {
                    self.prev_var_name = None;
                    self.state = ParseState::InBefore;
                    false
                } else {
                    true
                }
            },
            ParseState::InBefore => {
                if bytes_equal(line, end_before_marker()) {
                    self.prev_var_name = None;
                    self.state = ParseState::PreAfter;
                } else {
                    parse_env_line(line, &mut self.old_env, &mut self.prev_var_name);
                }
                false
            },
            ParseState::PreAfter => {
                if bytes_equal(line, begin_after_marker()) {
                    self.prev_var_name = None;
                    self.state = ParseState::InAfter;
                    false
                } else {
                    true
                }
            },
            ParseState::InAfter => {
                if bytes_equal(line, end_after_marker()) {
                    self.prev_var_name = None;
                    self.state = ParseState::End;
                } else {
                    parse_env_line(line, &mut self.new_env, &mut self.prev_var_name);
                }
                false
            },
            ParseState::End => true,
        }
    }

    /// Ends the parse and gives the two snapshots: before, then after.
    pub fn finish(self) -> (snapshots: (Env, Env))
        requires
            self.wf(),
        ensures
            snapshots.0.wf(),
            snapshots.1.wf(),
            snapshots.0@ == self@.old_env,
            snapshots.1@ == self@.new_env,
    {
        (self.old_env, self.new_env)
    }
}

/// Whether a whole stream can be parsed: inside each dump, no continuation
/// line comes before a variable.
pub fn stream_is_well_formed(input: &[u8]) -> (ok: bool)
    ensures
        ok == well_formed_stream(input@),
{
    let lines = split_lines(input);
    let mut parser = DiffParser::new();
    let mut i: usize = 0;
    assert(views(lines@).take(0) =~= Seq::<Seq<u8>>::empty());
    while i < lines.len()
        invariant
            i <= lines@.len(),
            parser.wf(),
            views(lines@) == spec_lines(input@),
            run_accepted(views(lines@).take(i as int), initial_model()),
            parser@ == spec_run(views(lines@).take(i as int), initial_model()).0,
        decreases lines@.len() - i,
    {
        let ghost all = views(lines@);
        proof {
            assert(all.take(i + 1).drop_last() =~= all.take(i as int));
            assert(all.take(i + 1).last() == lines@[i as int]@);
        }
        if !parser.accepts(lines[i].as_slice()) {
            proof {
                if run_accepted(all, initial_model()) {
                    lemma_accepted_prefix(all, initial_model(), i as int);
                }
            }
            return false;
        }
        parser.feed(lines[i].as_slice());
        i += 1;
    }
    assert(views(lines@).take(i as int) =~= views(lines@));
    true
}

/// Parses the output of an activation run.
///
/// Returns the snapshot taken before activation, the snapshot taken after
/// it, and the lines of script output in the order in which they came.
pub fn parse_env_diff(input: &[u8]) -> (parsed: (Env, Env, Vec<Vec<u8>>))
    requires
        well_formed_stream(input@),
    ensures
        parsed.0.wf(),
        parsed.1.wf(),
        parsed.0@ == spec_parse_env_diff(input@).0.old_env,
        parsed.1@ == spec_parse_env_diff(input@).0.new_env,
        views(parsed.2@) == spec_parse_env_diff(input@).1,
{
    let lines = split_lines(input);
    let mut parser = DiffParser::new();
    let mut script_output: Vec<Vec<u8>> = Vec::new();
    let mut i: usize = 0;
    assert(views(lines@).take(0) =~= Seq::<Seq<u8>>::empty());
    assert(views(script_output@) =~= Seq::<Seq<u8>>::empty());
    while i < lines.len()
        invariant
            i <= lines@.len(),
            parser.wf(),
            views(lines@) == spec_lines(input@),
            run_accepted(views(lines@), initial_model()),
            parser@ == spec_run(views(lines@).take(i as int), initial_model()).0,
            views(script_output@) == spec_run(views(lines@).take(i as int), initial_model()).1,
        decreases lines@.len() - i,
    {
        let ghost all = views(lines@);
        let ghost handed_on = views(script_output@);
        proof {
            assert(all.take(i + 1).drop_last() =~= all.take(i as int));
            assert(all.take(i + 1).last() == lines@[i as int]@);
            lemma_accepted_prefix(all, initial_model(), i as int);
        }
        if parser.feed(lines[i].as_slice()) {
            let line = slice_to_vec(lines[i].as_slice());
            script_output.push(line);
            assert(views(script_output@) =~= handed_on.push(lines@[i as int]@));
        }
        i += 1;
    }
    assert(views(lines@).take(i as int) =~= views(lines@));
    let (old_env, new_env) = parser.finish();
    (old_env, new_env, script_output)
}

} // verus!
