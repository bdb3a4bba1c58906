//! Records: one line of text each, an identifier followed by labels.

use crate::decimal::{
    decimal_digits, decimal_value, is_digit, is_label, lemma_decimal_digits, parse_label_at,
    push_decimal, unsigned_part,
};
use crate::text::{
    cut, is_whitespace, join, lemma_split_join, lemma_split_nonempty, lemma_trim_end_is_prefix,
    lemma_trim_start_is_suffix, ranges_within, split, split_ranges, to_chars, trim, trim_bounds,
};
use vstd::prelude::*;
use vstd::string::StrSliceExecFns;
use vstd::string::StringExecFns;

verus! {

/// One record: an identifier, carried along as it is, and its labels in the
/// order in which the line gives them.
#[derive(Debug, Clone, PartialEq, Eq)]
pub struct Record {
    pub id: String,
    pub labels: Vec<usize>,
}

/// What a record holds, as mathematical values.
pub struct RecordView {
    pub id: Seq<char>,
    pub labels: Seq<usize>,
}

impl View for Record {
    type V = RecordView;

    open spec fn view(&self) -> RecordView {
        RecordView { id: self.id@, labels: self.labels@ }
    }
}

/// Why a line is no record.
#[derive(Debug, Clone, Copy, PartialEq, Eq, Structural)]
pub enum ParseError {
    /// The line is empty or white space only, so it has no identifier.
    MissingIdentifier,
    /// A token after the identifier is no label. `index` counts the tokens
    /// after the identifier from zero and names the first such token.
    InvalidLabel { index: usize },
}

/// The tokens of a line: what single spaces separate, once the white space
/// around the line is taken away.
pub open spec fn line_tokens(line: Seq<char>) -> Seq<Seq<char>> {
    split(trim(line), ' ')
}

/// The token at `i` is no label, and every token before it is one.
pub open spec fn is_first_non_label(tokens: Seq<Seq<char>>, i: int) -> bool {
    &&& 0 <= i < tokens.len()
    &&& !is_label(tokens[i])
    &&& forall|j: int| 0 <= j < i ==> is_label(#[trigger] tokens[j])
}

/// The labels that tokens denote, one for one.
pub open spec fn labels_of(tokens: Seq<Seq<char>>) -> Seq<usize> {
    tokens.map_values(|t: Seq<char>| decimal_value(unsigned_part(t)) as usize)
}

/// The record that a line holds, or the reason why it holds none. The first
/// token is the identifier, each further token a label; the first token that
/// is no label decides the error.
pub open spec fn parse_line(line: Seq<char>) -> Result<RecordView, ParseError> {
    let tokens = line_tokens(line);
    let label_tokens = tokens.drop_first();
    if trim(line).len() == 0 {
        Err(ParseError::MissingIdentifier)
    } else if exists|i: int| is_first_non_label(label_tokens, i) {
        Err(
            ParseError::InvalidLabel {
                index: (choose|i: int| is_first_non_label(label_tokens, i)) as usize,
            },
        )
    } else {
        Ok(RecordView { id: tokens.first(), labels: labels_of(label_tokens) })
    }
}

/// The tokens that a record is written with: the identifier, then each label
/// in base ten.
pub open spec fn record_tokens(r: RecordView) -> Seq<Seq<char>> {
    seq![r.id] + r.labels.map_values(|l: usize| decimal_digits(l as nat))
}

/// A record as a line of text: its tokens with single spaces between them,
/// and a line feed at the end.
pub open spec fn record_text(r: RecordView) -> Seq<char> {
    join(record_tokens(r), ' ').push('\n')
}

/// Whether `id` can stand as the first token of a line: not empty, no space
/// in it, no white space at either end.
pub open spec fn is_identifier(id: Seq<char>) -> bool {
    &&& id.len() > 0
    &&& !is_whitespace(id.first())
    &&& !is_whitespace(id.last())
    &&& forall|i: int| 0 <= i < id.len() ==> id[i] != ' '
}

/// Only one index can be that of the first token that is no label.
pub proof fn lemma_first_non_label_unique(tokens: Seq<Seq<char>>, i: int, j: int)
    requires
        is_first_non_label(tokens, i),
        is_first_non_label(tokens, j),
    ensures
        i == j,
{
    if i < j {
        assert(is_label(tokens[i]));
    } else if j < i {
        assert(is_label(tokens[j]));
    }
}

/// The text that `join` makes starts as its first piece does and ends as its
/// last piece does.
pub proof fn lemma_join_ends(pieces: Seq<Seq<char>>, sep: char)
    requires
        pieces.len() >= 1,
    ensures
        join(pieces, sep).len() >= pieces.first().len(),
        join(pieces, sep).len() >= pieces.last().len(),
        pieces.first().len() > 0 ==> join(pieces, sep).first() == pieces.first().first(),
        pieces.last().len() > 0 ==> join(pieces, sep).last() == pieces.last().last(),
    decreases pieces.len(),
{
    if pieces.len() > 1 {
        let front = pieces.drop_last();
        lemma_join_ends(front, sep);
        assert(front.first() == pieces.first());
    }
}

/// A record that is written down and read again is the same record, where its
/// identifier can stand as a token.
pub proof fn lemma_parse_record_text(r: RecordView)
    requires
        is_identifier(r.id),
    ensures
        parse_line(record_text(r)) == Ok::<RecordView, ParseError>(r),
{
    let tokens = record_tokens(r);
    let body = join(tokens, ' ');
    let line = body.push('\n');
    assert(tokens.first() == r.id);
    assert forall|i: int| 0 <= i < tokens.len() implies tokens[i].len() > 0 && !is_whitespace(
        tokens[i].last(),
    ) && (forall|j: int| 0 <= j < tokens[i].len() ==> (#[trigger] tokens[i])[j] != ' ') by {
        if i > 0 {
            let l = r.labels[i - 1];
            assert(tokens[i] == decimal_digits(l as nat));
            lemma_decimal_digits(l as nat);
            assert(is_digit(tokens[i].last()));
            assert forall|j: int| 0 <= j < tokens[i].len() implies tokens[i][j] != ' ' by {
                assert(is_digit(tokens[i][j]));
            }
        }
    }
    lemma_join_ends(tokens, ' ');
    assert(line.first() == r.id.first());
    lemma_trim_start_is_suffix(line, 0);
    assert(line.subrange(0, line.len() as int) =~= line);
    lemma_trim_end_is_prefix(line, line.len() - 1);
    assert(line.subrange(0, line.len() - 1) =~= body);
    assert(trim(line) == body);
    lemma_split_join(tokens, ' ');
    let label_tokens = tokens.drop_first();
    assert forall|i: int| 0 <= i < label_tokens.len() implies is_label(
        #[trigger] label_tokens[i],
    ) && decimal_value(unsigned_part(label_tokens[i])) == r.labels[i] by {
        let l = r.labels[i];
        assert(label_tokens[i] == decimal_digits(l as nat));
        lemma_decimal_digits(l as nat);
        assert(is_digit(label_tokens[i].first()));
    }
    assert(labels_of(label_tokens) =~= r.labels);
}

/// Reads a line as a record. White space around the line is ignored, so the
/// line may still end in its line feed. The tokens are what single spaces
/// separate: the first is the identifier, each further one must be a label.
pub fn parse_record(line: &str) -> (r: Result<Record, ParseError>)
    ensures
        match r {
            Ok(rec) => parse_line(line@) == Ok::<RecordView, ParseError>(rec@),
            Err(e) => parse_line(line@) == Err::<RecordView, ParseError>(e),
        },
{
    let chars = to_chars(line);
    let (lo, hi) = trim_bounds(&chars);
    if lo == hi {
        return Err(ParseError::MissingIdentifier);
    }
    let ranges = split_ranges(&chars, lo, hi, ' ');
    let ghost tokens = line_tokens(line@);
    let ghost label_tokens = tokens.drop_first();
    proof {
        lemma_split_nonempty(trim(line@), ' ');
        assert(tokens == cut(chars@, ranges@));
    }
    let (a, b) = ranges[0];
    let id = String::from_str(line.substring_char(a, b));
    let mut labels: Vec<usize> = Vec::new();
    let mut k: usize = 1;
    while k < ranges.len()
        invariant
            1 <= k <= ranges.len(),
            ranges_within(ranges@, lo as int, hi as int),
            hi <= chars.len(),
            trim(line@).len() > 0,
            tokens == line_tokens(line@),
            tokens == cut(chars@, ranges@),
            label_tokens == tokens.drop_first(),
            labels@ == labels_of(label_tokens.take(k - 1)),
            forall|j: int| 0 <= j < k - 1 ==> is_label(#[trigger] label_tokens[j]),
        decreases ranges.len() - k,
    {
        let (from, to) = ranges[k];
        proof {
            assert(label_tokens[k - 1] == chars@.subrange(from as int, to as int));
        }
        match parse_label_at(&chars, from, to) {
            Some(l) => {
                proof {
                    assert(label_tokens.take(k as int) =~= label_tokens.take(k - 1).push(
                        label_tokens[k - 1],
                    ));
                    assert(labels_of(label_tokens.take(k as int)) =~= labels@.push(l));
                }
                labels.push(l);
            },
            None => {
                proof {
                    assert(is_first_non_label(label_tokens, k - 1));
                    assert(exists|i: int| is_first_non_label(label_tokens, i));
                    let chosen = choose|i: int| is_first_non_label(label_tokens, i);
                    lemma_first_non_label_unique(label_tokens, chosen, k - 1);
                }
                return Err(ParseError::InvalidLabel { index: k - 1 });
            },
        }
        k += 1;
    }
    proof {
        assert(label_tokens.take(k - 1) =~= label_tokens);
        assert(!exists|i: int| is_first_non_label(label_tokens, i));
    }
    Ok(Record { id, labels })
}

/// Appends to `out` the line that holds the identifier `id` and `labels`.
pub fn push_record_text(out: &mut String, id: &str, labels: &Vec<usize>)
    ensures
        final(out)@ == old(out)@ + record_text(RecordView { id: id@, labels: labels@ }),
{
    let ghost r = RecordView { id: id@, labels: labels@ };
    let ghost digits = |l: usize| decimal_digits(l as nat);
    out.append(id);
    let mut k: usize = 0;
    proof {
        assert(seq![r.id] + labels@.take(0).map_values(digits) =~= seq![r.id]);
    }
    while k < labels.len()
        invariant
            k <= labels.len(),
            r == (RecordView { id: id@, labels: labels@ }),
            digits == |l: usize| decimal_digits(l as nat),
            out@ == old(out)@ + join(
                seq![r.id] + labels@.take(k as int).map_values(digits),
                ' ',
            ),
        decreases labels.len() - k,
    {
        let ghost so_far = seq![r.id] + labels@.take(k as int).map_values(digits);
        let ghost grown = seq![r.id] + labels@.take(k + 1).map_values(digits);
        let ghost before = out@;
        proof {
            reveal_strlit(" ");
            assert(grown.drop_last() =~= so_far);
            assert(grown.last() == decimal_digits(labels@[k as int] as nat));
            assert(before + " "@ + grown.last() =~= old(out)@ + (join(so_far, ' ').push(' ')
                + grown.last()));
        }
        out.append(" ");
        push_decimal(out, labels[k]);
        k += 1;
    }
    proof {
        reveal_strlit("\n");
        assert(labels@.take(k as int) =~= labels@);
        assert(out@ + "\n"@ =~= old(out)@ + record_text(r));
    }
    out.append("\n");
}

/// The line of text that holds a record, line feed included.
pub fn format_record(record: &Record) -> (s: String)
    ensures
        s@ == record_text(record@),
{
    let mut s = String::new();
    push_record_text(&mut s, record.id.as_str(), &record.labels);
    proof {
        assert(Seq::<char>::empty() + record_text(record@) =~= record_text(record@));
    }
    s
}

} // verus!
