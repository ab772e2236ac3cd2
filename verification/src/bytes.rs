//! Byte strings: searching, ordering, and cutting into lines or fields.
//!
//! Environment variable names and values, paths and command names are all
//! handled as plain byte strings. Specifications speak of `Seq<u8>`.

use vstd::prelude::*;
use vstd::slice::slice_to_vec;

verus! {

/// The line terminator of environment dumps and of the cache file.
pub const NEWLINE: u8 = 10;

/// The separator between a variable's name and its value.
pub const EQUALS: u8 = 61;

/// The separator between the directories of a search path.
pub const COLON: u8 = 58;

/// The separator between the components of a file path.
pub const SLASH: u8 = 47;

/// What a list of byte strings holds.
pub open spec fn views(list: Seq<Vec<u8>>) -> Seq<Seq<u8>> {
    Seq::new(list.len(), |i: int| list[i]@)
}

/// The bytes of a text that consists of ASCII characters only.
pub open spec fn ascii_bytes(text: Seq<char>) -> Seq<u8> {
    Seq::new(text.len(), |i: int| text[i] as u8)
}

/// The bytes of an ASCII string literal.
pub fn literal_bytes(text: &'static str) -> (bytes: &'static [u8])
    requires
        vstd::string::is_ascii(text),
    ensures
        bytes@ == ascii_bytes(text@),
{
    proof {
        vstd::string::is_ascii_spec_bytes(text);
    }
    text.as_bytes()
}

/// The index of the first occurrence of `byte` in `s` at or after `from`,
/// or `s.len()` where there is none.
pub open spec fn find_from(s: Seq<u8>, byte: u8, from: int) -> int
    decreases s.len() - from,
{
    if from >= s.len() {
        s.len() as int
    } else if s[from] == byte {
        from
    } else {
        find_from(s, byte, from + 1)
    }
}

/// The index of the first occurrence of `byte` in `s`, or `s.len()` where
/// there is none.
pub open spec fn spec_find(s: Seq<u8>, byte: u8) -> int {
    find_from(s, byte, 0)
}

/// Whether `byte` occurs in `s`.
pub open spec fn has_byte(s: Seq<u8>, byte: u8) -> bool {
    spec_find(s, byte) < s.len()
}

/// `find_from` returns the first occurrence and nothing else.
pub proof fn lemma_find_from(s: Seq<u8>, byte: u8, from: int)
    requires
        0 <= from <= s.len(),
    ensures
        from <= find_from(s, byte, from) <= s.len(),
        forall|j: int| from <= j < find_from(s, byte, from) ==> s[j] != byte,
        find_from(s, byte, from) < s.len() ==> s[find_from(s, byte, from)] == byte,
    decreases s.len() - from,
{
    if from < s.len() && s[from] != byte {
        lemma_find_from(s, byte, from + 1);
    }
}

/// An index before which `byte` does not occur, and which holds `byte` or
/// is the end, is the one that `find_from` returns.
pub proof fn lemma_find_from_is(s: Seq<u8>, byte: u8, from: int, at: int)
    requires
        0 <= from <= at <= s.len(),
        forall|j: int| from <= j < at ==> s[j] != byte,
        at < s.len() ==> s[at] == byte,
    ensures
        find_from(s, byte, from) == at,
    decreases at - from,
{
    if from < at {
        lemma_find_from_is(s, byte, from + 1, at);
    }
}

/// What `spec_find` returns, stated without recursion.
pub proof fn lemma_find(s: Seq<u8>, byte: u8)
    ensures
        0 <= spec_find(s, byte) <= s.len(),
        forall|j: int| 0 <= j < spec_find(s, byte) ==> s[j] != byte,
        has_byte(s, byte) ==> s[spec_find(s, byte)] == byte,
        has_byte(s, byte) <==> exists|j: int| 0 <= j < s.len() && s[j] == byte,
{
    lemma_find_from(s, byte, 0);
    if has_byte(s, byte) {
        assert(s[spec_find(s, byte)] == byte);
    }
}

/// Finds the first occurrence of `byte`; the length of `s` means none.
pub fn find_byte(s: &[u8], byte: u8) -> (at: usize)
    ensures
        at == spec_find(s@, byte),
        at <= s@.len(),
{
    let mut i: usize = 0;
    while i < s.len() && s[i] != byte
        invariant
            i <= s@.len(),
            forall|j: int| 0 <= j < i ==> s@[j] != byte,
        decreases s@.len() - i,
    {
        i += 1;
    }
    proof {
        lemma_find_from_is(s@, byte, 0, i as int);
    }
    i
}

/// Whether two byte strings are the same.
pub fn bytes_equal(a: &[u8], b: &[u8]) -> (same: bool)
    ensures
        same == (a@ == b@),
{
    if a.len() != b.len() {
        return false;
    }
    let mut i: usize = 0;
    while i < a.len()
        invariant
            i <= a@.len(),
            a@.len() == b@.len(),
            forall|j: int| 0 <= j < i ==> a@[j] == b@[j],
        decreases a@.len() - i,
    {
        if a[i] != b[i] {
            return false;
        }
        i += 1;
    }
    assert(a@ =~= b@);
    true
}

/// Lexicographic order of the parts of `a` and `b` that start at `i`.
pub open spec fn lt_from(a: Seq<u8>, b: Seq<u8>, i: int) -> bool
    decreases a.len() - i,
{
    if i >= b.len() {
        false
    } else if i >= a.len() {
        true
    } else if a[i] != b[i] {
        a[i] < b[i]
    } else {
        lt_from(a, b, i + 1)
    }
}

/// Lexicographic order on byte strings: the order in which variables are
/// kept, listed and written.
pub open spec fn bytes_lt(a: Seq<u8>, b: Seq<u8>) -> bool {
    lt_from(a, b, 0)
}

proof fn lemma_lt_from_irreflexive(a: Seq<u8>, i: int)
    requires
        0 <= i,
    ensures
        !lt_from(a, a, i),
    decreases a.len() - i,
{
    if i < a.len() {
        lemma_lt_from_irreflexive(a, i + 1);
    }
}

proof fn lemma_lt_from_transitive(a: Seq<u8>, b: Seq<u8>, c: Seq<u8>, i: int)
    requires
        0 <= i,
        lt_from(a, b, i),
        lt_from(b, c, i),
    ensures
        lt_from(a, c, i),
    decreases a.len() - i,
{
    if i < a.len() && i < b.len() && i < c.len() && a[i] == b[i] && b[i] == c[i] {
        lemma_lt_from_transitive(a, b, c, i + 1);
    }
}

proof fn lemma_lt_from_total(a: Seq<u8>, b: Seq<u8>, i: int)
    requires
        0 <= i <= a.len(),
        i <= b.len(),
        !lt_from(a, b, i),
        !lt_from(b, a, i),
    ensures
        a.len() == b.len(),
        forall|j: int| i <= j < a.len() ==> a[j] == b[j],
    decreases a.len() - i,
{
    if i < a.len() && i < b.len() {
        lemma_lt_from_total(a, b, i + 1);
    }
}

/// No byte string comes before itself.
pub proof fn lemma_lt_irreflexive(a: Seq<u8>)
    ensures
        !bytes_lt(a, a),
{
    lemma_lt_from_irreflexive(a, 0);
}

/// The order is transitive.
pub proof fn lemma_lt_transitive(a: Seq<u8>, b: Seq<u8>, c: Seq<u8>)
    requires
        bytes_lt(a, b),
        bytes_lt(b, c),
    ensures
        bytes_lt(a, c),
{
    lemma_lt_from_transitive(a, b, c, 0);
}

/// Of two byte strings, one comes before the other, or they are the same.
pub proof fn lemma_lt_total(a: Seq<u8>, b: Seq<u8>)
    ensures
        bytes_lt(a, b) || bytes_lt(b, a) || a == b,
{
    if !bytes_lt(a, b) && !bytes_lt(b, a) {
        lemma_lt_from_total(a, b, 0);
        assert(a =~= b);
    }
}

/// Two byte strings are never each before the other.
pub proof fn lemma_lt_asymmetric(a: Seq<u8>, b: Seq<u8>)
    requires
        bytes_lt(a, b),
    ensures
        !bytes_lt(b, a),
        a != b,
{
    lemma_lt_irreflexive(a);
    if bytes_lt(b, a) {
        lemma_lt_transitive(a, b, a);
    }
}

/// Whether `a` comes before `b` in lexicographic order.
pub fn bytes_less(a: &[u8], b: &[u8]) -> (less: bool)
    ensures
        less == bytes_lt(a@, b@),
{
    let mut i: usize = 0;
    while i < a.len() && i < b.len() && a[i] == b[i]
        invariant
            i <= a@.len(),
            i <= b@.len(),
            bytes_lt(a@, b@) == lt_from(a@, b@, i as int),
        decreases a@.len() - i,
    {
        i += 1;
    }
    if i >= b.len() {
        false
    } else if i >= a.len() {
        true
    } else {
        a[i] < b[i]
    }
}

/// The lines of a text: the runs of bytes that end at a newline or at the
/// end of the text, without the newline. A newline at the very end opens no
/// further line, so the empty text has no lines.
pub open spec fn spec_lines(s: Seq<u8>) -> Seq<Seq<u8>>
    decreases s.len(),
{
    if s.len() == 0 {
        Seq::empty()
    } else {
        let i = spec_find(s, NEWLINE);
        if 0 <= i < s.len() {
            seq![s.subrange(0, i)] + spec_lines(s.subrange(i + 1, s.len() as int))
        } else {
            seq![s]
        }
    }
}

/// The fields of a list: the runs of bytes between occurrences of `sep`.
/// A list with n separators has n + 1 fields, some of which may be empty.
pub open spec fn spec_split(s: Seq<u8>, sep: u8) -> Seq<Seq<u8>>
    decreases s.len(),
{
    let i = spec_find(s, sep);
    if 0 <= i < s.len() {
        seq![s.subrange(0, i)] + spec_split(s.subrange(i + 1, s.len() as int), sep)
    } else {
        seq![s]
    }
}

/// The first occurrence of `byte` at or after `from`, seen from the part of
/// `s` that starts at `from`.
proof fn lemma_find_in_suffix(s: Seq<u8>, byte: u8, from: int, at: int)
    requires
        0 <= from <= at <= s.len(),
        forall|j: int| from <= j < at ==> s[j] != byte,
        at < s.len() ==> s[at] == byte,
    ensures
        spec_find(s.subrange(from, s.len() as int), byte) == at - from,
{
    let t = s.subrange(from, s.len() as int);
    assert forall|j: int| 0 <= j < at - from implies t[j] != byte by {
        assert(t[j] == s[from + j]);
    }
    lemma_find_from_is(t, byte, 0, at - from);
}

/// No line holds a newline.
pub proof fn lemma_lines_hold_no_newline(s: Seq<u8>)
    ensures
        forall|k: int| 0 <= k < spec_lines(s).len() ==> !has_byte(#[trigger] spec_lines(s)[k], NEWLINE),
    decreases s.len(),
{
    if s.len() > 0 {
        lemma_find(s, NEWLINE);
        let i = spec_find(s, NEWLINE);
        if i < s.len() {
            let head = s.subrange(0, i);
            let rest = s.subrange(i + 1, s.len() as int);
            lemma_lines_hold_no_newline(rest);
            lemma_find_from_is(head, NEWLINE, 0, i);
            assert forall|k: int| 0 <= k < spec_lines(s).len() implies !has_byte(
                #[trigger] spec_lines(s)[k],
                NEWLINE,
            ) by {
                if k > 0 {
                    assert(spec_lines(s)[k] == spec_lines(rest)[k - 1]);
                }
            }
        }
    }
}

/// A text that is empty or ends in a newline can be cut there: the lines of
/// the whole are its lines followed by the lines of what comes after.
pub proof fn lemma_lines_concat(a: Seq<u8>, b: Seq<u8>)
    requires
        a.len() == 0 || a.last() == NEWLINE,
    ensures
        spec_lines(a + b) == spec_lines(a) + spec_lines(b),
    decreases a.len(),
{
    if a.len() == 0 {
        assert(a + b =~= b);
        assert(spec_lines(a) + spec_lines(b) =~= spec_lines(b));
    } else {
        lemma_find(a, NEWLINE);
        let i = spec_find(a, NEWLINE);
        assert(i < a.len()) by {
            if i >= a.len() {
                assert(a[a.len() - 1] != NEWLINE);
            }
        }
        let ab = a + b;
        lemma_find_from_is(ab, NEWLINE, 0, i);
        let a_rest = a.subrange(i + 1, a.len() as int);
        assert(ab.subrange(i + 1, ab.len() as int) =~= a_rest + b);
        assert(ab.subrange(0, i) =~= a.subrange(0, i));
        if a_rest.len() > 0 {
            assert(a_rest.last() == a.last());
        }
        lemma_lines_concat(a_rest, b);
        assert(spec_lines(ab) =~= spec_lines(a) + spec_lines(b));
    }
}

/// A text without a newline, followed by one newline, is one line.
pub proof fn lemma_lines_single(line: Seq<u8>)
    requires
        !has_byte(line, NEWLINE),
    ensures
        spec_lines(line + seq![NEWLINE]) == seq![line],
{
    lemma_find(line, NEWLINE);
    let s = line + seq![NEWLINE];
    let n = line.len() as int;
    assert forall|j: int| 0 <= j < n implies s[j] != NEWLINE by {
        assert(s[j] == line[j]);
    }
    lemma_find_from_is(s, NEWLINE, 0, n);
    assert(s.subrange(0, n) =~= line);
    assert(s.subrange(n + 1, s.len() as int) =~= Seq::<u8>::empty());
    assert(spec_lines(s.subrange(n + 1, s.len() as int)) =~= Seq::<Seq<u8>>::empty());
    assert(spec_lines(s) =~= seq![line]);
}

/// Cuts a text into its lines.
pub fn split_lines(s: &[u8]) -> (lines: Vec<Vec<u8>>)
    ensures
        views(lines@) == spec_lines(s@),
{
    let mut lines: Vec<Vec<u8>> = Vec::new();
    let mut start: usize = 0;
    assert(s@.subrange(0, s@.len() as int) =~= s@);
    assert(views(lines@) =~= Seq::<Seq<u8>>::empty());
    while start < s.len()
        invariant
            start <= s@.len(),
            spec_lines(s@) == views(lines@) + spec_lines(s@.subrange(start as int, s@.len() as int)),
        decreases s@.len() - start,
    {
        let ghost rest = s@.subrange(start as int, s@.len() as int);
        let ghost before = views(lines@);
        let mut end: usize = start;
        while end < s.len() && s[end] != NEWLINE
            invariant
                start <= end <= s@.len(),
                forall|j: int| start <= j < end ==> s@[j] != NEWLINE,
            decreases s@.len() - end,
        {
            end += 1;
        }
        proof {
            lemma_find_in_suffix(s@, NEWLINE, start as int, end as int);
        }
        let line = slice_to_vec(&s[start..end]);
        assert(line@ =~= rest.subrange(0, end - start));
        lines.push(line);
        assert(views(lines@) =~= before + seq![line@]);
        if end < s.len() {
            assert(rest.subrange(end - start + 1, rest.len() as int) =~= s@.subrange(
                end + 1,
                s@.len() as int,
            ));
            start = end + 1;
        } else {
            assert(rest.subrange(0, end - start) =~= rest);
            start = end;
        }
        assert(spec_lines(s@) =~= views(lines@) + spec_lines(
            s@.subrange(start as int, s@.len() as int),
        ));
    }
    assert(spec_lines(s@.subrange(start as int, s@.len() as int)) =~= Seq::<Seq<u8>>::empty());
    assert(spec_lines(s@) =~= views(lines@));
    lines
}

/// Cuts a list into its fields at every occurrence of `sep`.
pub fn split_on(s: &[u8], sep: u8) -> (fields: Vec<Vec<u8>>)
    ensures
        views(fields@) == spec_split(s@, sep),
{
    let mut fields: Vec<Vec<u8>> = Vec::new();
    let mut start: usize = 0;
    assert(s@.subrange(0, s@.len() as int) =~= s@);
    assert(views(fields@) =~= Seq::<Seq<u8>>::empty());
    loop
        invariant_except_break
            start <= s@.len(),
            spec_split(s@, sep) == views(fields@) + spec_split(
                s@.subrange(start as int, s@.len() as int),
                sep,
            ),
        ensures
            views(fields@) == spec_split(s@, sep),
        decreases s@.len() - start,
    {
        let ghost rest = s@.subrange(start as int, s@.len() as int);
        let ghost before = views(fields@);
        let mut end: usize = start;
        while end < s.len() && s[end] != sep
            invariant
                start <= end <= s@.len(),
                forall|j: int| start <= j < end ==> s@[j] != sep,
            decreases s@.len() - end,
        {
            end += 1;
        }
        proof {
            lemma_find_in_suffix(s@, sep, start as int, end as int);
        }
        let field = slice_to_vec(&s[start..end]);
        assert(field@ =~= rest.subrange(0, end - start));
        fields.push(field);
        assert(views(fields@) =~= before + seq![field@]);
        if end < s.len() {
            assert(rest.subrange(end - start + 1, rest.len() as int) =~= s@.subrange(
                end + 1,
                s@.len() as int,
            ));
            start = end + 1;
        } else {
            assert(rest.subrange(0, end - start) =~= rest);
            assert(spec_split(s@, sep) =~= views(fields@));
            break;
        }
    }
    fields
}

/// Appends `tail` to `buffer`.
pub fn append_bytes(buffer: &mut Vec<u8>, tail: &[u8])
    ensures
        final(buffer)@ == old(buffer)@ + tail@,
{
    buffer.extend_from_slice(tail);
}

} // verus!
