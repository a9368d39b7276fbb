//! Reading records from the lines of an input file, in either of the two
//! input formats.

use crate::numerals::{i64_of, parse_i64, parse_u8, u8_of};
use crate::record::{Snp, SnpView};
use crate::text::{chars_of, fields, split_fields, texts};
use rayon::iter::{IntoParallelRefIterator, ParallelIterator};
use vstd::prelude::*;

verus! {

/// Why a line is no record.
#[derive(Clone, Copy, Debug, PartialEq, Eq, Structural)]
pub enum MalformedRecord {
    /// The name has no third part to take the scaffold from.
    MissingScaffold,
    /// There is no field, or no part of the name, for the position.
    MissingPosition,
    /// The position is no number.
    BadPosition,
    /// A field for an allele code is missing.
    MissingAllele,
    /// An allele code is no number from 0 to 255.
    BadAllele,
}

/// The layout of the input lines.
#[derive(Clone, Copy, Debug, PartialEq, Eq, Structural)]
pub enum InputFormat {
    /// A name whose third and fourth parts, divided by `_`, are scaffold
    /// and position; then two allele codes and the samples' fields, divided
    /// by tabs.
    Beagle,
    /// Scaffold and position, divided by a tab.
    Simple,
}

/// What a line of the simple format holds.
pub open spec fn simple_record(line: Seq<char>) -> Result<SnpView, MalformedRecord> {
    let row = fields(line, '\t');
    if row.len() < 2 {
        Err(MalformedRecord::MissingPosition)
    } else {
        match i64_of(row[1]) {
            None => Err(MalformedRecord::BadPosition),
            Some(pos) => Ok(
                SnpView {
                    scaffold: row[0],
                    pos: pos as int,
                    name: Seq::empty(),
                    a_ref: 0,
                    a_alt: 0,
                    ps: Seq::empty(),
                },
            ),
        }
    }
}

/// What a line of the beagle format holds. Of several defects the first in
/// the order of `MalformedRecord` is reported, the reference allele before
/// the alternate one.
pub open spec fn beagle_record(line: Seq<char>) -> Result<SnpView, MalformedRecord> {
    let row = fields(line, '\t');
    let name = fields(row[0], '_');
    if name.len() < 3 {
        Err(MalformedRecord::MissingScaffold)
    } else if name.len() < 4 {
        Err(MalformedRecord::MissingPosition)
    } else if i64_of(name[3]) is None {
        Err(MalformedRecord::BadPosition)
    } else if row.len() < 2 {
        Err(MalformedRecord::MissingAllele)
    } else if u8_of(row[1]) is None {
        Err(MalformedRecord::BadAllele)
    } else if row.len() < 3 {
        Err(MalformedRecord::MissingAllele)
    } else if u8_of(row[2]) is None {
        Err(MalformedRecord::BadAllele)
    } else {
        Ok(
            SnpView {
                scaffold: name[2],
                pos: i64_of(name[3])->0 as int,
                name: row[0],
                a_ref: u8_of(row[1])->0,
                a_alt: u8_of(row[2])->0,
                ps: row.skip(3),
            },
        )
    }
}

/// What a line holds in the given format.
pub open spec fn line_record(line: Seq<char>, format: InputFormat) -> Result<
    SnpView,
    MalformedRecord,
> {
    match format {
        InputFormat::Beagle => beagle_record(line),
        InputFormat::Simple => simple_record(line),
    }
}

/// The outcome of reading a line, with the record taken by its view.
pub open spec fn outcome_view(outcome: Result<Snp, MalformedRecord>) -> Result<
    SnpView,
    MalformedRecord,
> {
    match outcome {
        Ok(snp) => Ok(snp@),
        Err(e) => Err(e),
    }
}

/// The fields of a text always hold one field at least.
pub proof fn lemma_fields_nonempty(text: Seq<char>, sep: char)
    ensures
        fields(text, sep).len() >= 1,
{
}

impl Snp {
    /// Reads a record from a line of the simple format.
    pub fn from_simple_line(line: &str) -> (outcome: Result<Snp, MalformedRecord>)
        ensures
            outcome_view(outcome) == simple_record(line@),
    {
        let chars = chars_of(line);
        let mut row = split_fields(chars.as_slice(), '\t');
        let ghost whole = texts(row@);
        if row.len() < 2 {
            return Err(MalformedRecord::MissingPosition);
        }
        assert(whole[1] == row@[1]@);
        assert(whole[0] == row@[0]@);
        match parse_i64(row[1].as_str()) {
            None => Err(MalformedRecord::BadPosition),
            Some(pos) => {
                let scaffold = row.swap_remove(0);
                let snp = Snp {
                    scaffold,
                    pos,
                    name: String::new(),
                    a_ref: 0,
                    a_alt: 0,
                    ps: Vec::new(),
                };
                proof {
                    assert(snp@.ps =~= Seq::<Seq<char>>::empty());
                }
                Ok(snp)
            },
        }
    }

    /// Reads a record from a line of the beagle format.
    pub fn from_beagle_line(line: &str) -> (outcome: Result<Snp, MalformedRecord>)
        ensures
            outcome_view(outcome) == beagle_record(line@),
    {
        let chars = chars_of(line);
        let mut row = split_fields(chars.as_slice(), '\t');
        let ghost whole = texts(row@);
        proof {
            lemma_fields_nonempty(line@, '\t');
            assert(whole[0] == row@[0]@);
        }
        let name_chars = chars_of(row[0].as_str());
        let mut name = split_fields(name_chars.as_slice(), '_');
        let ghost parts = texts(name@);
        if name.len() < 3 {
            return Err(MalformedRecord::MissingScaffold);
        }
        if name.len() < 4 {
            return Err(MalformedRecord::MissingPosition);
        }
        assert(parts[3] == name@[3]@);
        assert(parts[2] == name@[2]@);
        let pos = match parse_i64(name[3].as_str()) {
            None => {
                return Err(MalformedRecord::BadPosition);
            },
            Some(pos) => pos,
        };
        if row.len() < 2 {
            return Err(MalformedRecord::MissingAllele);
        }
        assert(whole[1] == row@[1]@);
        let a_ref = match parse_u8(row[1].as_str()) {
            None => {
                return Err(MalformedRecord::BadAllele);
            },
            Some(code) => code,
        };
        if row.len() < 3 {
            return Err(MalformedRecord::MissingAllele);
        }
        assert(whole[2] == row@[2]@);
        let a_alt = match parse_u8(row[2].as_str()) {
            None => {
                return Err(MalformedRecord::BadAllele);
            },
            Some(code) => code,
        };
        let ps = row.split_off(3);
        let scaffold = name.swap_remove(2);
        let record_name = row.swap_remove(0);
        let snp = Snp { scaffold, pos, name: record_name, a_ref, a_alt, ps };
        proof {
            assert(snp@.ps =~= whole.skip(3));
        }
        Ok(snp)
    }
}

/// Reads a record from a line of the given format.
pub fn decode_line(line: &str, format: InputFormat) -> (outcome: Result<Snp, MalformedRecord>)
    ensures
        outcome_view(outcome) == line_record(line@, format),
{
    match format {
        InputFormat::Beagle => Snp::from_beagle_line(line),
        InputFormat::Simple => Snp::from_simple_line(line),
    }
}

/// A line that is no record, and why.
#[derive(Debug)]
pub struct DecodeError {
    pub line: String,
    pub cause: MalformedRecord,
}

/// The lines that are read as records: all of them, but for the empty lines
/// of the simple format.
pub open spec fn kept_lines(lines: Seq<String>, format: InputFormat) -> Seq<String> {
    match format {
        InputFormat::Beagle => lines,
        InputFormat::Simple => filled_lines(lines),
    }
}

/// `result` is what reading `lines` gives: the records of all lines that
/// are read, in their order, or else the first line that is no record.
pub open spec fn decoding_of(
    result: Result<Vec<Snp>, DecodeError>,
    lines: Seq<String>,
    format: InputFormat,
) -> bool {
    let kept = kept_lines(lines, format);
    match result {
        Ok(records) => {
            &&& records@.len() == kept.len()
            &&& forall|i: int|
                0 <= i < kept.len() ==> line_record(kept[i]@, format) == Ok::<
                    SnpView,
                    MalformedRecord,
                >(#[trigger] records@[i]@)
        },
        Err(e) => exists|k: int|
            {
                &&& 0 <= k < kept.len()
                &&& e.line@ == #[trigger] kept[k]@
                &&& line_record(kept[k]@, format) == Err::<SnpView, MalformedRecord>(e.cause)
                &&& forall|j: int| 0 <= j < k ==> line_record(#[trigger] kept[j]@, format) is Ok
            },
    }
}

/// The lines that are not empty, in their order.
pub open spec fn filled_lines(lines: Seq<String>) -> Seq<String> {
    lines.filter(|line: String| line@.len() > 0)
}

/// Takes the empty lines out.
fn drop_blank(lines: Vec<String>) -> (kept: Vec<String>)
    ensures
        kept@ == filled_lines(lines@),
{
    let mut kept: Vec<String> = Vec::new();
    proof {
        assert(lines@.take(0) =~= Seq::<String>::empty());
        Seq::<String>::empty().lemma_filter_len(|line: String| line@.len() > 0);
    }
    for line in it: lines
        invariant
            it.seq() == lines@,
            kept@ == filled_lines(lines@.take(it.index() as int)),
    {
        proof {
            let n = it.index() as int;
            assert(lines@.take(n + 1) =~= lines@.take(n).push(line));
            lines@.take(n).lemma_filter_push(line, |line: String| line@.len() > 0);
        }
        if !line.as_str().is_empty() {
            kept.push(line);
        }
    }
    proof {
        assert(lines@.take(lines@.len() as int) =~= lines@);
    }
    kept
}

/// Runs rayon's `par_iter().map(..).collect()` over the lines, with
/// `decode_line` as the function that is mapped. Taken on trust: collecting
/// into a vector keeps the order of the lines, so the vector holds one
/// outcome for each line, at the line's place, and it is what `decode_line`
/// gives for that line.
#[verifier::external_body]
fn par_decode_lines(lines: &Vec<String>, format: InputFormat) -> (outcomes: Vec<
    Result<Snp, MalformedRecord>,
>)
    ensures
        outcomes@.len() == lines@.len(),
        forall|i: int|
            0 <= i < lines@.len() ==> outcome_view(#[trigger] outcomes@[i]) == line_record(
                lines@[i]@,
                format,
            ),
{
    lines.par_iter().map(|line| decode_line(line, format)).collect()
}

/// Reads the records of an input file from its lines. The lines are read in
/// parallel. One line that is no record fails the whole input: of several,
/// the first is reported.
pub fn decode(lines: Vec<String>, format: InputFormat) -> (result: Result<Vec<Snp>, DecodeError>)
    ensures
        decoding_of(result, lines@, format),
        result is Ok <==> forall|i: int|
            0 <= i < kept_lines(lines@, format).len() ==> line_record(
                #[trigger] kept_lines(lines@, format)[i]@,
                format,
            ) is Ok,
{
    let kept = match format {
        InputFormat::Beagle => lines,
        InputFormat::Simple => drop_blank(lines),
    };
    let outcomes = par_decode_lines(&kept, format);
    let ghost expected = Seq::new(kept@.len(), |j: int| line_record(kept@[j]@, format));
    proof {
        assert forall|j: int| 0 <= j < kept@.len() implies outcome_view(#[trigger] outcomes@[j])
            == expected[j] by {}
    }
    match first_failure(&outcomes) {
        Some(at) => {
            let line = kept[at].clone();
            let cause = failure_at(&outcomes, at);
            proof {
                assert(expected[at as int] == line_record(kept@[at as int]@, format));
                assert forall|j: int| 0 <= j < at implies line_record(
                    #[trigger] kept@[j]@,
                    format,
                ) is Ok by {
                    assert(outcomes@[j] is Ok);
                    assert(expected[j] == line_record(kept@[j]@, format));
                }
            }
            Err(DecodeError { line, cause })
        },
        None => {
            let records = all_records(outcomes);
            proof {
                assert forall|j: int| 0 <= j < kept@.len() implies line_record(kept@[j]@, format)
                    == Ok::<SnpView, MalformedRecord>(#[trigger] records@[j]@) by {
                    assert(outcomes@[j] is Ok);
                    assert(expected[j] == line_record(kept@[j]@, format));
                }
                assert forall|j: int| 0 <= j < kept@.len() implies line_record(
                    #[trigger] kept@[j]@,
                    format,
                ) is Ok by {
                    assert(outcomes@[j] is Ok);
                    assert(expected[j] == line_record(kept@[j]@, format));
                }
            }
            Ok(records)
        },
    }
}

/// The place of the first outcome that is no record.
fn first_failure(outcomes: &Vec<Result<Snp, MalformedRecord>>) -> (place: Option<usize>)
    ensures
        match place {
            Some(at) => at < outcomes@.len() && outcomes@[at as int] is Err && forall|j: int|
                0 <= j < at ==> (#[trigger] outcomes@[j]) is Ok,
            None => forall|j: int| 0 <= j < outcomes@.len() ==> (#[trigger] outcomes@[j]) is Ok,
        },
{
    let mut i: usize = 0;
    while i < outcomes.len()
        invariant
            0 <= i <= outcomes@.len(),
            forall|j: int| 0 <= j < i ==> (#[trigger] outcomes@[j]) is Ok,
        decreases outcomes@.len() - i,
    {
        if outcomes[i].is_err() {
            return Some(i);
        }
        i += 1;
    }
    None
}

/// Why the outcome at a place is no record.
fn failure_at(outcomes: &Vec<Result<Snp, MalformedRecord>>, at: usize) -> (cause: MalformedRecord)
    requires
        at < outcomes@.len(),
        outcomes@[at as int] is Err,
    ensures
        outcomes@[at as int] == Err::<Snp, MalformedRecord>(cause),
{
    match &outcomes[at] {
        Ok(_) => MalformedRecord::MissingScaffold,
        Err(cause) => *cause,
    }
}

/// The records of outcomes that are all records.
fn all_records(outcomes: Vec<Result<Snp, MalformedRecord>>) -> (records: Vec<Snp>)
    requires
        forall|j: int| 0 <= j < outcomes@.len() ==> (#[trigger] outcomes@[j]) is Ok,
    ensures
        records@.len() == outcomes@.len(),
        forall|j: int| 0 <= j < outcomes@.len() ==> outcomes@[j] == Ok::<Snp, MalformedRecord>(#[trigger] records@[j]),
{
    let mut records: Vec<Snp> = Vec::new();
    for outcome in it: outcomes
        invariant
            it.seq() == outcomes@,
            forall|j: int| 0 <= j < outcomes@.len() ==> (#[trigger] outcomes@[j]) is Ok,
            records@.len() == it.index(),
            forall|j: int|
                0 <= j < it.index() ==> outcomes@[j] == Ok::<Snp, MalformedRecord>(
                    #[trigger] records@[j],
                ),
    {
        let ghost n = it.index() as int;
        assert(outcome == outcomes@[n]);
        match outcome {
            Ok(snp) => {
                records.push(snp);
            },
            Err(_) => {},
        }
    }
    records
}

} // verus!
