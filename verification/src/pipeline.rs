//! The whole transformation on lines held in memory: count, select, rewrite.

use crate::counter::Counter;
use crate::record::{parse_line, record_text, ParseError, RecordView};
use crate::remap::{mapping_text, rewritten_record, Remap};
use crate::selection::kept_list;
use vstd::multiset::Multiset;
use vstd::prelude::*;

verus! {

/// What the transformation gives: for each line that came in the line that
/// goes out, in the same order, and the mapping from new numbers to old
/// labels as text.
#[derive(Debug, Clone, PartialEq, Eq)]
pub struct Remapped {
    pub lines: Vec<String>,
    pub mapping: String,
}

/// The first line that is no record. `line` counts the lines from one.
#[derive(Debug, Clone, Copy, PartialEq, Eq, Structural)]
pub struct RemapError {
    pub line: usize,
    pub error: ParseError,
}

/// The lines as sequences of characters.
pub open spec fn texts(lines: Seq<String>) -> Seq<Seq<char>> {
    lines.map_values(|line: String| line@)
}

/// Whether every line holds a record.
pub open spec fn all_records(lines: Seq<Seq<char>>) -> bool {
    forall|i: int| 0 <= i < lines.len() ==> parse_line(#[trigger] lines[i]) is Ok
}

/// The records that the lines hold, one for one.
pub open spec fn records_of(lines: Seq<Seq<char>>) -> Seq<RecordView> {
    lines.map_values(|line: Seq<char>| parse_line(line)->Ok_0)
}

/// The multiset of all labels of all records: a label is in it as often as
/// it occurs in the records together.
pub open spec fn tally_of(records: Seq<RecordView>) -> Multiset<usize>
    decreases records.len(),
{
    if records.len() == 0 {
        Multiset::empty()
    } else {
        tally_of(records.drop_last()).add(records.last().labels.to_multiset())
    }
}

/// Whether line `i` is the first that holds no record.
pub open spec fn is_first_bad_line(lines: Seq<Seq<char>>, i: int) -> bool {
    &&& 0 <= i < lines.len()
    &&& parse_line(lines[i]) is Err
    &&& forall|j: int| 0 <= j < i ==> parse_line(#[trigger] lines[j]) is Ok
}

/// Renumbers the labels of the records that `lines` hold, one record a line.
///
/// Every label is counted over all lines. The labels that occur at least
/// `min_hits` times are kept and get the numbers `0, 1, 2, ...` in ascending
/// order. Each line goes out with its identifier, the new numbers of its kept
/// labels in their order, and a line feed. The mapping names, for each new
/// number, the old label.
///
/// The first line that holds no record stops the work: the error names it and
/// says why.
pub fn remap_lines(lines: &Vec<String>, min_hits: usize) -> (r: Result<Remapped, RemapError>)
    ensures
        match r {
            Ok(out) => {
                let records = records_of(texts(lines@));
                let kept = kept_list(tally_of(records), min_hits);
                &&& all_records(texts(lines@))
                &&& out.mapping@ == mapping_text(kept)
                &&& out.lines@.len() == lines@.len()
                &&& forall|i: int|
                    0 <= i < lines@.len() ==> (#[trigger] out.lines@[i])@ == record_text(
                        rewritten_record(kept, records[i]),
                    )
            },
            Err(e) => {
                &&& is_first_bad_line(texts(lines@), e.line - 1)
                &&& parse_line(lines@[e.line - 1]@) == Err::<RecordView, ParseError>(e.error)
            },
        },
{
    let ghost input = texts(lines@);
    let ghost records = records_of(input);
    let mut counter = Counter::new();
    let mut i: usize = 0;
    proof {
        assert(records.take(0) =~= Seq::<RecordView>::empty());
    }
    while i < lines.len()
        invariant
            i <= lines.len(),
            input == texts(lines@),
            records == records_of(input),
            forall|j: int| 0 <= j < i ==> parse_line(#[trigger] input[j]) is Ok,
            counter@ == tally_of(records.take(i as int)),
        decreases lines.len() - i,
    {
        proof {
            assert(input[i as int] == lines@[i as int]@);
            assert(records.take(i + 1).drop_last() =~= records.take(i as int));
        }
        match counter.count_line(lines[i].as_str()) {
            Ok(_) => {},
            Err(error) => {
                return Err(RemapError { line: i + 1, error });
            },
        }
        i += 1;
    }
    proof {
        assert(records.take(i as int) =~= records);
    }
    let remap = Remap::build(&counter, min_hits);
    let mapping = remap.mapping_text();
    let mut out: Vec<String> = Vec::new();
    let mut k: usize = 0;
    while k < lines.len()
        invariant
            k <= lines.len(),
            input == texts(lines@),
            records == records_of(input),
            all_records(input),
            out@.len() == k,
            forall|j: int|
                0 <= j < k ==> (#[trigger] out@[j])@ == record_text(
                    rewritten_record(remap@, records[j]),
                ),
        decreases lines.len() - k,
    {
        proof {
            assert(input[k as int] == lines@[k as int]@);
            assert(parse_line(input[k as int]) is Ok);
        }
        match remap.rewrite_line(lines[k].as_str()) {
            Ok(text) => {
                out.push(text);
            },
            Err(error) => {
                // The first pass has read every line as a record, and reading
                // a line again gives the same: this is never reached.
                proof {
                    assert(false);
                }
                return Err(RemapError { line: k + 1, error });
            },
        }
        k += 1;
    }
    Ok(Remapped { lines: out, mapping })
}

} // verus!
