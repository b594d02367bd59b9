//! The table of committed snapshot hashes.
//!
//! A manifest is text with one row per line. Fields are separated by tabs. A row
//! that starts with the field `case` holds a case id in its second field and
//! the tagged hash in its last one. Empty lines and lines that start with `#`
//! are skipped.

use crate::dsp::memory::rows;
use crate::testing::snapshot::{hash_after, hex_text, snapshot_bytes, snapshot_hex, FNV128_OFFSET};
use vstd::prelude::*;
use vstd::string::{StrSliceExecFns, StringExecFns};

verus! {

// ---------------------------------------------------------------------------
// Rows and fields
// ---------------------------------------------------------------------------

/// The first place of `c` in `s` from `from` on, or the end.
pub open spec fn next_of(s: Seq<char>, c: char, from: int) -> int
    decreases s.len() - from,
{
    if from < 0 || from >= s.len() {
        s.len() as int
    } else if s[from] == c {
        from
    } else {
        next_of(s, c, from + 1)
    }
}

/// The place behind the last `c` in the first `to` characters of `s`.
pub open spec fn behind_last(s: Seq<char>, c: char, to: int) -> int
    decreases to,
{
    if to <= 0 {
        0
    } else if s[to - 1] == c {
        to
    } else {
        behind_last(s, c, to - 1)
    }
}

/// Where the line that starts at `from` ends, without its line ending.
pub open spec fn line_end(s: Seq<char>, from: int) -> int {
    let end = next_of(s, '\n', from);
    if end < s.len() && end > from && s[end - 1] == '\r' {
        end - 1
    } else {
        end
    }
}

/// The character is white space.
pub open spec fn white(c: char) -> bool {
    let n = c as u32;
    ||| 9 <= n <= 13
    ||| n == 0x20
    ||| n == 0x85
    ||| n == 0xa0
    ||| n == 0x1680
    ||| 0x2000 <= n <= 0x200a
    ||| n == 0x2028
    ||| n == 0x2029
    ||| n == 0x202f
    ||| n == 0x205f
    ||| n == 0x3000
}

/// The end of `s[from..to]` without white space at its end.
pub open spec fn trimmed_end(s: Seq<char>, from: int, to: int) -> int
    decreases to - from,
{
    if to > from && white(s[to - 1]) {
        trimmed_end(s, from, to - 1)
    } else {
        to
    }
}

/// The line is the row of case `id`: its first field is `case` and its second
/// one is `id`.
pub open spec fn is_row_of(line: Seq<char>, id: Seq<char>) -> bool {
    let first = next_of(line, '\t', 0);
    &&& line.len() > 0
    &&& line[0] != '#'
    &&& line.take(first) == "case"@
    &&& first < line.len()
    &&& line.subrange(first + 1, next_of(line, '\t', first + 1)) == id
}

/// The last field of the row of a case, or none where the id is the last field.
pub open spec fn last_field(line: Seq<char>) -> Option<Seq<char>> {
    let second = next_of(line, '\t', next_of(line, '\t', 0) + 1);
    let start = behind_last(line, '\t', line.len() as int);
    if second < line.len() {
        Some(line.subrange(start, trimmed_end(line, start, line.len() as int)))
    } else {
        None
    }
}

/// The hash that the lines from `from` on hold for case `id`.
pub open spec fn looked_up(manifest: Seq<char>, id: Seq<char>, from: int) -> Option<Seq<char>>
    decreases manifest.len() + 1 - from,
    via looked_up_ends
{
    if from < 0 || from >= manifest.len() {
        None
    } else {
        let line = manifest.subrange(from, line_end(manifest, from));
        if is_row_of(line, id) {
            last_field(line)
        } else {
            looked_up(manifest, id, next_of(manifest, '\n', from) + 1)
        }
    }
}

#[via_fn]
proof fn looked_up_ends(manifest: Seq<char>, id: Seq<char>, from: int) {
    if from >= 0 {
        lemma_next_of(manifest, '\n', from);
    }
}

/// The next place lies behind where the search starts, and nothing before it
/// matches.
proof fn lemma_next_of(s: Seq<char>, c: char, from: int)
    requires
        0 <= from,
    ensures
        from <= s.len() ==> from <= next_of(s, c, from) <= s.len(),
        from > s.len() ==> next_of(s, c, from) == s.len(),
    decreases s.len() - from,
{
    if from < s.len() && s[from] != c {
        lemma_next_of(s, c, from + 1);
    }
}

// ---------------------------------------------------------------------------
// Looking up
// ---------------------------------------------------------------------------

/// The characters of a string.
fn chars_of(s: &str) -> (r: Vec<char>)
    ensures
        r@ == s@,
{
    let n: usize = s.unicode_len();
    let mut r: Vec<char> = Vec::with_capacity(n);
    let mut i: usize = 0;
    while i < n
        invariant
            0 <= i <= n,
            n == s@.len(),
            r@ =~= s@.take(i as int),
        decreases n - i,
    {
        r.push(s.get_char(i));
        i += 1;
    }
    assert(s@.take(n as int) =~= s@);
    r
}

fn find(s: &[char], c: char, from: usize, to: usize) -> (r: usize)
    requires
        from <= to <= s@.len(),
    ensures
        r == next_of(s@.take(to as int), c, from as int),
        from <= r <= to,
{
    let ghost part = s@.take(to as int);
    let mut i: usize = from;
    while i < to && s[i] != c
        invariant
            from <= i <= to,
            to <= s@.len(),
            part == s@.take(to as int),
            next_of(part, c, from as int) == next_of(part, c, i as int),
        decreases to - i,
    {
        assert(part[i as int] == s@[i as int]);
        i += 1;
    }
    if i < to {
        assert(part[i as int] == s@[i as int]);
    }
    i
}

fn same(s: &[char], from: usize, to: usize, t: &[char]) -> (r: bool)
    requires
        from <= to <= s@.len(),
    ensures
        r == (s@.subrange(from as int, to as int) == t@),
{
    let ghost part = s@.subrange(from as int, to as int);
    if to - from != t.len() {
        assert(part.len() != t@.len());
        return false;
    }
    let mut i: usize = 0;
    while i < t.len()
        invariant
            0 <= i <= t@.len(),
            to - from == t@.len(),
            to <= s@.len(),
            part == s@.subrange(from as int, to as int),
            forall|k: int| 0 <= k < i ==> #[trigger] part[k] == t@[k],
        decreases t@.len() - i,
    {
        if s[from + i] != t[i] {
            assert(part[i as int] != t@[i as int]);
            return false;
        }
        i += 1;
    }
    assert(part =~= t@);
    true
}

fn is_white(c: char) -> (r: bool)
    ensures
        r == white(c),
{
    let n: u32 = c as u32;
    (9 <= n && n <= 13) || n == 0x20 || n == 0x85 || n == 0xa0 || n == 0x1680 || (0x2000 <= n && n
        <= 0x200a) || n == 0x2028 || n == 0x2029 || n == 0x202f || n == 0x205f || n == 0x3000
}

/// Searching in a part is searching in the whole, moved.
proof fn lemma_next_in_part(s: Seq<char>, c: char, a: int, b: int, from: int)
    requires
        0 <= a <= b <= s.len(),
        0 <= from <= b - a,
    ensures
        next_of(s.subrange(a, b), c, from) == next_of(s.take(b), c, a + from) - a,
    decreases b - a - from,
{
    let part = s.subrange(a, b);
    if from < part.len() {
        assert(part[from] == s.take(b)[a + from]);
        if part[from] != c {
            lemma_next_in_part(s, c, a, b, from + 1);
        }
    }
}

/// Whether a line is the row of a case, and whether a field follows the id.
fn row_test(
    text: &Vec<char>,
    key: &Vec<char>,
    case_tag: &Vec<char>,
    from: usize,
    end: usize,
) -> (r: (bool, bool))
    requires
        from <= end <= text@.len(),
        case_tag@ == "case"@,
    ensures
        r.0 == is_row_of(text@.subrange(from as int, end as int), key@),
        r.0 ==> r.1 == (last_field(text@.subrange(from as int, end as int)) is Some),
{
    let ghost line = text@.subrange(from as int, end as int);
    if end == from || text[from] == '#' {
        assert(end > from ==> line[0] == text@[from as int]);
        return (false, false);
    }
    assert(line[0] == text@[from as int]);
    let first: usize = find(text.as_slice(), '\t', from, end);
    proof {
        lemma_next_in_part(text@, '\t', from as int, end as int, 0);
        assert(line.take(first - from) =~= text@.subrange(from as int, first as int));
    }
    if first == end || !same(text.as_slice(), from, first, case_tag.as_slice()) {
        return (false, false);
    }
    let second: usize = find(text.as_slice(), '\t', first + 1, end);
    proof {
        lemma_next_in_part(text@, '\t', from as int, end as int, first - from + 1);
        assert(line.subrange(first - from + 1, second - from) =~= text@.subrange(
            first + 1,
            second as int,
        ));
    }
    (same(text.as_slice(), first + 1, second, key.as_slice()), second < end)
}

/// The hash that `manifest` holds for case `id`, or none where it has no such
/// case.
pub fn manifest_hash(manifest: &str, id: &str) -> (r: Option<String>)
    ensures
        match looked_up(manifest@, id@, 0) {
            Some(hash) => r is Some && r->0@ == hash,
            None => r is None,
        },
{
    let text = chars_of(manifest);
    let key = chars_of(id);
    let case_tag = chars_of("case");
    let n: usize = text.len();
    let mut from: usize = 0;
    while from < n
        invariant
            text@ == manifest@,
            key@ == id@,
            case_tag@ == "case"@,
            n == text@.len(),
            from <= n,
            looked_up(manifest@, id@, 0) == looked_up(manifest@, id@, from as int),
        decreases n - from,
    {
        assert(text@.take(n as int) =~= text@);
        let stop: usize = find(text.as_slice(), '\n', from, n);
        let end: usize = if stop < n && stop > from && text[stop - 1] == '\r' {
            stop - 1
        } else {
            stop
        };
        assert(end == line_end(manifest@, from as int));
        let ghost line = manifest@.subrange(from as int, end as int);
        let (row, more) = row_test(&text, &key, &case_tag, from, end);
        if row {
            if more {
                return Some(field_text(manifest, &text, from, end));
            }
            return None;
        }
        if stop == n {
            assert(looked_up(manifest@, id@, stop + 1) is None);
            return None;
        }
        from = stop + 1;
    }
    None
}

/// The last field of a line, without white space at its end.
fn field_text(manifest: &str, text: &Vec<char>, from: usize, end: usize) -> (r: String)
    requires
        text@ == manifest@,
        from <= end <= text@.len(),
    ensures
        ({
            let line = manifest@.subrange(from as int, end as int);
            let start = behind_last(line, '\t', line.len() as int);
            r@ == line.subrange(start, trimmed_end(line, start, line.len() as int))
        }),
{
    let ghost line = manifest@.subrange(from as int, end as int);
    let mut start: usize = end;
    while start > from && text[start - 1] != '\t'
        invariant
            text@ == manifest@,
            from <= start <= end <= text@.len(),
            line == manifest@.subrange(from as int, end as int),
            behind_last(line, '\t', line.len() as int) == behind_last(line, '\t', start - from),
        decreases start,
    {
        assert(line[start - from - 1] == text@[start - 1]);
        start = start - 1;
    }
    if start > from {
        assert(line[start - from - 1] == text@[start - 1]);
    }
    let mut stop: usize = end;
    while stop > start && is_white(text[stop - 1])
        invariant
            text@ == manifest@,
            from <= start <= stop <= end <= text@.len(),
            line == manifest@.subrange(from as int, end as int),
            trimmed_end(line, start - from, line.len() as int) == trimmed_end(
                line,
                start - from,
                stop - from,
            ),
        decreases stop,
    {
        assert(line[stop - from - 1] == text@[stop - 1]);
        stop = stop - 1;
    }
    if stop > start {
        assert(line[stop - from - 1] == text@[stop - 1]);
    }
    let r = String::from_str(manifest.substring_char(start, stop));
    assert(r@ =~= line.subrange(start - from, stop - from));
    r
}

// ---------------------------------------------------------------------------
// Verdicts
// ---------------------------------------------------------------------------

/// Why a buffer does not match the manifest.
#[derive(Clone, Copy, Debug, PartialEq, Eq, Structural)]
pub enum SnapshotFault {
    /// The manifest has no such case.
    Missing,
    /// The manifest holds another hash.
    Mismatch,
}

/// The tagged hash of a planar buffer.
pub open spec fn tagged_hash(out: Seq<Seq<u32>>) -> Seq<char> {
    "fnv1a128:"@ + hex_text(hash_after(FNV128_OFFSET, snapshot_bytes(out)) as nat, 32)
}

/// Hold a planar buffer against the hash that `manifest` has for case `id`.
pub fn check_snapshot(manifest: &str, id: &str, out: &[Vec<u32>]) -> (r: Result<
    (),
    SnapshotFault,
>)
    ensures
        r == (match looked_up(manifest@, id@, 0) {
            None => Err::<(), SnapshotFault>(SnapshotFault::Missing),
            Some(hash) => if hash == tagged_hash(rows(out@)) {
                Ok(())
            } else {
                Err(SnapshotFault::Mismatch)
            },
        }),
{
    match manifest_hash(manifest, id) {
        None => Err(SnapshotFault::Missing),
        Some(want) => {
            let mut got = String::from_str("fnv1a128:");
            let hex = snapshot_hex(out);
            got.append(hex.as_str());
            let a = chars_of(got.as_str());
            let b = chars_of(want.as_str());
            assert(a@.subrange(0, a@.len() as int) =~= a@);
            if same(a.as_slice(), 0, a.len(), b.as_slice()) {
                Ok(())
            } else {
                Err(SnapshotFault::Mismatch)
            }
        },
    }
}

// ---------------------------------------------------------------------------
// What a table holds
// ---------------------------------------------------------------------------

/// The text is free of a character.
pub open spec fn free_of(s: Seq<char>, c: char) -> bool {
    forall|i: int| 0 <= i < s.len() ==> #[trigger] s[i] != c
}

/// A search stops at the first match.
proof fn lemma_first_match(s: Seq<char>, c: char, from: int, at: int)
    requires
        0 <= from <= at <= s.len(),
        forall|i: int| from <= i < at ==> #[trigger] s[i] != c,
        at == s.len() || s[at] == c,
    ensures
        next_of(s, c, from) == at,
    decreases at - from,
{
    if from < at {
        lemma_first_match(s, c, from + 1, at);
    }
}

/// A search from behind stops at the last match.
proof fn lemma_last_match(s: Seq<char>, c: char, to: int, at: int)
    requires
        0 < at <= to <= s.len(),
        forall|i: int| at <= i < to ==> #[trigger] s[i] != c,
        s[at - 1] == c,
    ensures
        behind_last(s, c, to) == at,
    decreases to,
{
    if at < to {
        lemma_last_match(s, c, to - 1, at);
    }
}

/// The row of a case: its tag, its id, further fields, each with a tab behind it, and its hash.
pub open spec fn written_row(id: Seq<char>, fields: Seq<char>, hash: Seq<char>) -> Seq<char> {
    "case"@ + seq!['\t'] + id + seq!['\t'] + fields + hash
}

proof fn lemma_row_reads_back(id: Seq<char>, fields: Seq<char>, hash: Seq<char>)
    requires
        free_of(id, '\t'),
        free_of(hash, '\t'),
        fields.len() > 0 ==> fields.last() == '\t',
        hash.len() > 0 && !white(hash.last()),
    ensures
        is_row_of(written_row(id, fields, hash), id),
        last_field(written_row(id, fields, hash)) == Some(hash),
{
    reveal_strlit("case");
    let line = written_row(id, fields, hash);
    let n = id.len() as int;
    let start = line.len() - hash.len();
    assert forall|i: int| 5 <= i < 5 + n implies #[trigger] line[i] != '\t' by {
        assert(line[i] == id[i - 5]);
    }
    assert forall|i: int| start <= i < line.len() implies #[trigger] line[i] != '\t' by {
        assert(line[i] == hash[i - start]);
    }
    assert(line[0] == 'c' && line[1] == 'a' && line[2] == 's' && line[3] == 'e' && line[4]
        == '\t');
    assert(line[5 + n] == '\t');
    assert(line[start - 1] == '\t') by {
        if fields.len() > 0 {
            assert(line[start - 1] == fields.last());
        }
    }
    lemma_first_match(line, '\t', 0, 4);
    lemma_first_match(line, '\t', 5, 5 + n);
    lemma_last_match(line, '\t', line.len() as int, start);
    assert(line.take(4) =~= "case"@);
    assert(line.subrange(5, 5 + n) =~= id);
    assert(line.last() == hash.last());
    assert(line.subrange(start, line.len() as int) =~= hash);
}

/// What is written is found: a row that stands at the start of a line gives its hash to the
/// search from there on, whatever stands before that line and behind it.
pub proof fn written_rows_are_found(
    before: Seq<char>,
    id: Seq<char>,
    fields: Seq<char>,
    hash: Seq<char>,
    behind: Seq<char>,
)
    requires
        free_of(id, '\t') && free_of(id, '\n'),
        free_of(hash, '\t') && free_of(hash, '\n'),
        free_of(fields, '\n'),
        fields.len() > 0 ==> fields.last() == '\t',
        hash.len() > 0 && !white(hash.last()),
    ensures
        looked_up(
            before + written_row(id, fields, hash) + seq!['\n'] + behind,
            id,
            before.len() as int,
        ) == Some(hash),
{
    reveal_strlit("case");
    let row = written_row(id, fields, hash);
    let text = before + row + seq!['\n'] + behind;
    let (from, to) = (before.len() as int, (before.len() + row.len()) as int);
    lemma_row_reads_back(id, fields, hash);
    assert forall|i: int| from <= i < to implies #[trigger] text[i] != '\n' by {
        let k = i - from;
        assert(text[i] == row[k]);
        if 5 <= k < 5 + id.len() {
            assert(row[k] == id[k - 5]);
        } else if 6 + id.len() <= k < 6 + id.len() + fields.len() {
            assert(row[k] == fields[k - 6 - id.len()]);
        } else if k >= 6 + id.len() + fields.len() {
            assert(row[k] == hash[k - 6 - id.len() - fields.len()]);
        }
    }
    assert(text[to] == '\n');
    lemma_first_match(text, '\n', from, to);
    assert(text[to - 1] == hash.last());
    assert(white('\r'));
    assert(text.subrange(from, to) =~= row);
}

/// A line that does not start with the tag, a tab, the id and then a tab or its end is passed
/// over, and so is one that starts with a number sign: the search goes on in the next line.
pub proof fn other_lines_are_passed_over(
    before: Seq<char>,
    line: Seq<char>,
    id: Seq<char>,
    behind: Seq<char>,
)
    requires
        free_of(line, '\n'),
        line.len() > 0 ==> line.last() != '\r',
        ({
            let key = "case"@ + seq!['\t'] + id;
            ||| line.len() > 0 && line[0] == '#'
            ||| line.len() < key.len()
            ||| line.take(key.len() as int) != key
            ||| line.len() > key.len() && line[key.len() as int] != '\t'
        }),
    ensures
        looked_up(
            before + line + seq!['\n'] + behind,
            id,
            before.len() as int,
        ) == looked_up(
            before + line + seq!['\n'] + behind,
            id,
            (before.len() + line.len() + 1) as int,
        ),
{
    reveal_strlit("case");
    let text = before + line + seq!['\n'] + behind;
    let key = "case"@ + seq!['\t'] + id;
    let (from, to) = (before.len() as int, (before.len() + line.len()) as int);
    assert forall|i: int| from <= i < to implies #[trigger] text[i] != '\n' by {
        assert(text[i] == line[i - from]);
    }
    assert(text[to] == '\n');
    lemma_first_match(text, '\n', from, to);
    if from < to {
        assert(text[to - 1] == line.last());
    }
    assert(text.subrange(from, line_end(text, from)) =~= line);
    if is_row_of(line, id) {
        let first = next_of(line, '\t', 0);
        let second = next_of(line, '\t', first + 1);
        lemma_found(line, '\t', 0);
        lemma_found(line, '\t', first + 1);
        assert(line.take(first).len() == first);
        assert(first == 4);
        assert(line.subrange(5, second).len() == id.len());
        assert(line.take(key.len() as int) =~= key) by {
            assert forall|i: int| 0 <= i < key.len() implies line[i] == key[i] by {
                if i < 4 {
                    assert(line.take(4)[i] == "case"@[i]);
                } else if i > 4 {
                    assert(line.subrange(5, second)[i - 5] == id[i - 5]);
                }
            }
        }
    }
}

/// A search ends at a match or at the end.
proof fn lemma_found(s: Seq<char>, c: char, from: int)
    requires
        0 <= from <= s.len(),
    ensures
        from <= next_of(s, c, from) <= s.len(),
        next_of(s, c, from) < s.len() ==> s[next_of(s, c, from)] == c,
    decreases s.len() - from,
{
    if from < s.len() && s[from] != c {
        lemma_found(s, c, from + 1);
    }
}

} // verus!
