//! Reading one process's status descriptor: lines of `Key: value`, of which
//! `Name`, `Pid` and `PPid` make a record.

use vstd::prelude::*;
use crate::record::ProcessRecord;
use crate::record::RecordView;
use crate::text::chars_of;
use crate::text::find;
use crate::text::find_char;
use crate::text::lemma_find;
use crate::text::parse_i32;
use crate::text::parsed_i32;
use crate::text::trim_range;
use crate::text::trimmed;

verus! {

/// The three fields of a record, each as far as a descriptor has given it.
pub struct Fields {
    pub name: Option<Seq<char>>,
    pub pid: Option<i32>,
    pub ppid: Option<i32>,
}

pub open spec fn no_fields() -> Fields {
    Fields { name: None, pid: None, ppid: None }
}

/// The lines of `text`. A line ends before a line feed or at the end of the
/// text; a line feed at the very end opens no further line.
pub open spec fn lines(text: Seq<char>) -> Seq<Seq<char>>
    decreases text.len(),
{
    if text.len() == 0 {
        Seq::empty()
    } else {
        let end = find(text, '\n');
        if end < text.len() {
            proof {
                lemma_find(text, '\n');
            }
            seq![text.take(end)] + lines(text.skip(end + 1))
        } else {
            seq![text]
        }
    }
}

/// What stands before the first colon of `line`, trimmed; `None` for a line
/// without a colon.
pub open spec fn line_key(line: Seq<char>) -> Option<Seq<char>> {
    let colon = find(line, ':');
    if colon < line.len() {
        Some(trimmed(line.take(colon)))
    } else {
        None
    }
}

/// What stands behind the first colon of `line`, trimmed.
pub open spec fn line_value(line: Seq<char>) -> Seq<char> {
    trimmed(line.skip(find(line, ':') + 1))
}

/// The fields after `line` has been read: a line whose key is one of the
/// three replaces that field, also by nothing where its number does not parse.
pub open spec fn after_line(fields: Fields, line: Seq<char>) -> Fields {
    match line_key(line) {
        None => fields,
        Some(key) => if key == "Name"@ {
            Fields { name: Some(line_value(line)), ..fields }
        } else if key == "Pid"@ {
            Fields { pid: parsed_i32(line_value(line)), ..fields }
        } else if key == "PPid"@ {
            Fields { ppid: parsed_i32(line_value(line)), ..fields }
        } else {
            fields
        },
    }
}

/// The fields after all of `lines` have been read, first to last.
pub open spec fn after_lines(fields: Fields, lines: Seq<Seq<char>>) -> Fields
    decreases lines.len(),
{
    if lines.len() == 0 {
        fields
    } else {
        after_line(after_lines(fields, lines.drop_last()), lines.last())
    }
}

/// The record that `fields` make, if none is missing.
pub open spec fn complete(fields: Fields) -> Option<RecordView> {
    match (fields.name, fields.pid, fields.ppid) {
        (Some(name), Some(pid), Some(ppid)) => Some(RecordView { name, pid, ppid }),
        _ => None,
    }
}

/// The record that the descriptor `text` describes.
pub open spec fn described(text: Seq<char>) -> Option<RecordView> {
    complete(after_lines(no_fields(), lines(text)))
}

/// The records that a scan gives. Each entry of `descriptors` stands for one
/// process directory, in the order of the listing: the text of its status
/// descriptor, or `None` where the directory or the descriptor could not be
/// read. An entry that gives no record is passed over; the scan goes on.
pub open spec fn harvested(descriptors: Seq<Option<Seq<char>>>) -> Seq<RecordView>
    decreases descriptors.len(),
{
    if descriptors.len() == 0 {
        Seq::empty()
    } else {
        let before = harvested(descriptors.drop_last());
        match descriptors.last() {
            Some(text) => match described(text) {
                Some(record) => before.push(record),
                None => before,
            },
            None => before,
        }
    }
}

/// The position of the last of `lines` whose key is `key`; -1 where no line has it.
pub open spec fn last_line_with(lines: Seq<Seq<char>>, key: Seq<char>) -> int
    decreases lines.len(),
{
    if lines.len() == 0 {
        -1
    } else if line_key(lines.last()) == Some(key) {
        lines.len() - 1
    } else {
        last_line_with(lines.drop_last(), key)
    }
}

/// The value of the last of `lines` whose key is `key`.
pub open spec fn last_value(lines: Seq<Seq<char>>, key: Seq<char>) -> Option<Seq<char>> {
    if last_line_with(lines, key) >= 0 {
        Some(line_value(lines[last_line_with(lines, key)]))
    } else {
        None
    }
}

/// The integer that `value` writes, where there is a value and it writes one.
pub open spec fn number_of(value: Option<Seq<char>>) -> Option<i32> {
    match value {
        Some(digits) => parsed_i32(digits),
        None => None,
    }
}

/// Where the line after the one that ends at `end` starts: behind the line
/// feed at `end`, or at the end of `text` where the last line has none.
pub open spec fn next_line_start(text: Seq<char>, end: int) -> int {
    if end < text.len() {
        end + 1
    } else {
        end
    }
}

/// What is left of `text` from `at` on starts with the line that ends before
/// the next line feed or at the end of `text`; the other lines follow it.
proof fn lemma_next_line(text: Seq<char>, at: int, end: int)
    requires
        0 <= at < text.len(),
        end == at + find(text.subrange(at, text.len() as int), '\n'),
    ensures
        at <= end <= text.len(),
        lines(text.skip(at)) == seq![text.subrange(at, end)] + lines(
            text.skip(next_line_start(text, end)),
        ),
{
    let rest = text.skip(at);
    lemma_find(rest, '\n');
    assert(rest.take(end - at) == text.subrange(at, end));
    if end < text.len() {
        assert(rest.skip(end - at + 1) == text.skip(end + 1));
    }
}

/// Whether `chars[from..to]` spells `word`.
fn range_is(chars: &Vec<char>, from: usize, to: usize, word: &str) -> (same: bool)
    requires
        from <= to <= chars.len(),
    ensures
        same == (chars@.subrange(from as int, to as int) == word@),
{
    let mut at: usize = from;
    for c in it: word.chars()
        invariant
            from <= at <= to <= chars.len(),
            at - from == it.index(),
            it.seq() == word@,
            chars@.subrange(from as int, at as int) == word@.take(it.index() as int),
    {
        if at >= to || chars[at] != c {
            assert(chars@.subrange(from as int, to as int) != word@);
            return false;
        }
        assert(chars@.subrange(from as int, at + 1) == word@.take(it.index() + 1));
        at += 1;
    }
    assert(word@.take(word@.len() as int) == word@);
    at == to
}

/// Reads one status descriptor. The lines are taken one after another; of a
/// key that comes again the last line counts. A record comes out only where
/// a name, a process id and a parent id have all been read.
pub fn get_process_record(status: &str) -> (record: Option<ProcessRecord>)
    ensures
        record.deep_view() == described(status@),
{
    let chars = chars_of(status);
    let mut name: Option<String> = None;
    let mut pid: Option<i32> = None;
    let mut ppid: Option<i32> = None;
    let ghost mut read: Seq<Seq<char>> = Seq::empty();
    let mut at: usize = 0;
    assert(chars@.skip(0) == chars@);
    while at < chars.len()
        invariant
            at <= chars.len(),
            chars@ == status@,
            read + lines(chars@.skip(at as int)) == lines(chars@),
            after_lines(no_fields(), read) == (Fields { name: name.deep_view(), pid, ppid }),
        decreases chars.len() - at,
    {
        let end = find_char(&chars, at, chars.len(), '\n');
        let colon = find_char(&chars, at, end, ':');
        let ghost line = chars@.subrange(at as int, end as int);
        proof {
            lemma_next_line(chars@, at as int, end as int);
            assert(read.push(line).drop_last() == read);
            assert(line.take(colon - at) == chars@.subrange(at as int, colon as int));
            if colon < end {
                assert(line.skip(colon - at + 1) == chars@.subrange(colon + 1, end as int));
            }
        }
        if colon < end {
            let key = trim_range(&chars, at, colon);
            let value = trim_range(&chars, colon + 1, end);
            if range_is(&chars, key.0, key.1, "Name") {
                name = Some(status.substring_char(value.0, value.1).to_owned());
            } else if range_is(&chars, key.0, key.1, "Pid") {
                pid = parse_i32(&chars, value.0, value.1);
            } else if range_is(&chars, key.0, key.1, "PPid") {
                ppid = parse_i32(&chars, value.0, value.1);
            }
        }
        proof {
            read = read.push(line);
        }
        at = if end < chars.len() {
            end + 1
        } else {
            end
        };
    }
    match (name, pid, ppid) {
        (Some(name), Some(pid), Some(ppid)) => Some(ProcessRecord { name, pid, ppid }),
        _ => None,
    }
}

/// Reads the descriptors of a scan into records, in the order of the listing.
/// `None` stands for an entry that had vanished or could not be read when
/// its turn came.
pub fn get_process_records(descriptors: &Vec<Option<String>>) -> (records: Vec<ProcessRecord>)
    ensures
        records.deep_view() == harvested(descriptors.deep_view()),
{
    let mut records: Vec<ProcessRecord> = Vec::new();
    let mut i: usize = 0;
    while i < descriptors.len()
        invariant
            i <= descriptors.len(),
            records.deep_view() == harvested(descriptors.deep_view().take(i as int)),
        decreases descriptors.len() - i,
    {
        assert(descriptors.deep_view().take(i + 1).drop_last() == descriptors.deep_view().take(
            i as int,
        ));
        match &descriptors[i] {
            Some(status) => {
                match get_process_record(status.as_str()) {
                    Some(record) => {
                        records.push(record);
                    },
                    None => {},
                }
            },
            None => {},
        }
        i += 1;
    }
    assert(descriptors.deep_view().take(i as int) == descriptors.deep_view());
    records
}

/// Only the first colon splits a line: the value is all that follows it,
/// further colons included, but for the white space at its two ends.
pub proof fn lemma_first_colon_splits(key: Seq<char>, value: Seq<char>)
    requires
        !key.contains(':'),
    ensures
        line_key(key + seq![':'] + value) == Some(trimmed(key)),
        line_value(key + seq![':'] + value) == trimmed(value),
{
    let line = key + seq![':'] + value;
    lemma_find(line, ':');
    let colon = find(line, ':');
    if colon > key.len() {
        assert(line[key.len() as int] == ':');
    }
    assert(line.take(colon) == key);
    assert(line.skip(colon + 1) == value);
}

/// Where `key` stands last among the keys of `lines`: no later line has it,
/// and the position is -1 exactly where no line has it.
pub proof fn lemma_last_line_with(lines: Seq<Seq<char>>, key: Seq<char>)
    ensures
        -1 <= last_line_with(lines, key) < lines.len(),
        last_line_with(lines, key) >= 0 <==> exists|i: int|
            0 <= i < lines.len() && line_key(#[trigger] lines[i]) == Some(key),
        last_line_with(lines, key) >= 0 ==> line_key(lines[last_line_with(lines, key)]) == Some(
            key,
        ),
        forall|j: int|
            last_line_with(lines, key) < j < lines.len() ==> line_key(#[trigger] lines[j]) != Some(
                key,
            ),
    decreases lines.len(),
{
    if lines.len() > 0 && line_key(lines.last()) != Some(key) {
        let before = lines.drop_last();
        lemma_last_line_with(before, key);
        assert forall|j: int| last_line_with(lines, key) < j < lines.len() implies line_key(
            #[trigger] lines[j],
        ) != Some(key) by {
            if j < before.len() {
                assert(lines[j] == before[j]);
            }
        }
    }
}

/// Of each field the last line counts: after all of `lines` a field holds
/// what the last line with its key gave, and nothing where no line has its key.
pub proof fn lemma_last_line_counts(lines: Seq<Seq<char>>)
    ensures
        after_lines(no_fields(), lines) == (Fields {
            name: last_value(lines, "Name"@),
            pid: number_of(last_value(lines, "Pid"@)),
            ppid: number_of(last_value(lines, "PPid"@)),
        }),
    decreases lines.len(),
{
    reveal_strlit("Name");
    reveal_strlit("Pid");
    reveal_strlit("PPid");
    assert("Name"@.len() == 4 && "Pid"@.len() == 3 && "PPid"@.len() == 4);
    assert("Name"@[0] != "PPid"@[0]);
    if lines.len() > 0 {
        let before = lines.drop_last();
        lemma_last_line_counts(before);
        assert forall|key: Seq<char>|
            #![trigger last_line_with(lines, key)]
            line_key(lines.last()) != Some(key) implies last_value(lines, key) == last_value(
            before,
            key,
        ) by {
            lemma_last_line_with(before, key);
        }
    }
}

/// A descriptor gives a record if and only if it has a line for each of
/// `Name`, `Pid` and `PPid` and the values of the last `Pid` line and of the
/// last `PPid` line are integers. The record then holds the value of the
/// last `Name` line and those two integers.
pub proof fn lemma_record_iff_fields(text: Seq<char>)
    ensures
        described(text) is Some <==> {
            &&& last_value(lines(text), "Name"@) is Some
            &&& number_of(last_value(lines(text), "Pid"@)) is Some
            &&& number_of(last_value(lines(text), "PPid"@)) is Some
        },
        described(text) matches Some(record) ==> {
            &&& Some(record.name) == last_value(lines(text), "Name"@)
            &&& Some(record.pid) == number_of(last_value(lines(text), "Pid"@))
            &&& Some(record.ppid) == number_of(last_value(lines(text), "PPid"@))
        },
{
    lemma_last_line_counts(lines(text));
}

/// What a scan gives of one part of a listing does not depend on the rest:
/// the records of a listing are those of its first part, then those of the
/// rest.
pub proof fn lemma_harvest_in_parts(
    first: Seq<Option<Seq<char>>>,
    rest: Seq<Option<Seq<char>>>,
)
    ensures
        harvested(first + rest) == harvested(first) + harvested(rest),
    decreases rest.len(),
{
    if rest.len() > 0 {
        lemma_harvest_in_parts(first, rest.drop_last());
        assert((first + rest).drop_last() == first + rest.drop_last());
    }
}

/// An entry that has vanished leaves a scan as it would be without the
/// entry: what stands before it and behind it gives the same records.
pub proof fn lemma_vanished_entry_is_skipped(
    before: Seq<Option<Seq<char>>>,
    after: Seq<Option<Seq<char>>>,
)
    ensures
        harvested(before + seq![None] + after) == harvested(before + after),
{
    lemma_harvest_in_parts(before + seq![None], after);
    lemma_harvest_in_parts(before, after);
    assert((before + seq![None]).drop_last() == before);
}

} // verus!
