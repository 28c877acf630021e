//! The data file: comma-separated records of a name and a value.
//!
//! The csv crate splits the input into records. This module checks them:
//! every record has two fields, and no name comes twice.
use crate::names::Bindings;
use crate::text::{decimal, to_decimal, trim, trimmed};
use vstd::prelude::*;
use vstd::string::*;

verus! {

/// The byte that starts a comment line of the data file: `#`.
pub const COMMENT: u8 = 0x23;

/// One record as the reader delivered it.
pub struct Row {
    /// The line of the input on which the record begins, counted from 1.
    pub line: Option<u64>,
    /// The fields of the record.
    pub fields: Vec<String>,
}

/// What a [`Row`] holds.
pub struct RowView {
    pub line: Option<u64>,
    pub fields: Seq<Seq<char>>,
}

impl View for Row {
    type V = RowView;

    open spec fn view(&self) -> RowView {
        RowView { line: self.line, fields: Seq::new(self.fields@.len(), |i: int| self.fields@[i]@) }
    }
}

/// What the reader made of an input: the records up to the first that it
/// could not read, and what it said about that one, if there was one.
pub struct Reading {
    pub rows: Vec<Row>,
    pub failure: Option<String>,
}

/// What a [`Reading`] holds.
pub struct ReadingView {
    pub rows: Seq<RowView>,
    pub failure: Option<Seq<char>>,
}

impl View for Reading {
    type V = ReadingView;

    open spec fn view(&self) -> ReadingView {
        ReadingView {
            rows: Seq::new(self.rows@.len(), |i: int| self.rows@[i]@),
            failure: match self.failure {
                Some(text) => Some(text@),
                None => None,
            },
        }
    }
}

/// Why a data file is refused.
#[derive(Debug, Eq, PartialEq)]
pub enum DataError {
    /// The reader could not make records of the input; what it said.
    Reader(String),
    /// The record that begins on `line` has `found` fields, not two.
    FieldCount { line: u64, found: usize },
    /// The name is bound by two records.
    DuplicateKey(String),
}

/// What a [`DataError`] holds.
pub enum Fault {
    Reader(Seq<char>),
    FieldCount { line: u64, found: nat },
    DuplicateKey(Seq<char>),
}

impl View for DataError {
    type V = Fault;

    open spec fn view(&self) -> Fault {
        match self {
            DataError::Reader(text) => Fault::Reader(text@),
            DataError::FieldCount { line, found } => Fault::FieldCount {
                line: *line,
                found: *found as nat,
            },
            DataError::DuplicateKey(name) => Fault::DuplicateKey(name@),
        }
    }
}

impl DataError {
    /// What [`DataError::message`] says.
    pub open spec fn message_text(self) -> Seq<char> {
        match self {
            DataError::Reader(text) => text@,
            DataError::FieldCount { line, found } => "Failed to validate data: line "@ + decimal(
                line as nat,
            ) + ": expected record with 2 fields, found "@ + decimal(found as nat) + " fields"@,
            DataError::DuplicateKey(name) => "Duplicate key "@ + name@,
        }
    }

    /// The error in words, for a reader.
    pub fn message(&self) -> (r: String)
        ensures
            r@ == self.message_text(),
    {
        match self {
            DataError::Reader(text) => text.clone(),
            DataError::FieldCount { line, found } => {
                let mut text = String::from_str("Failed to validate data: line ");
                text.append(to_decimal(*line).as_str());
                text.append(": expected record with 2 fields, found ");
                text.append(to_decimal(*found as u64).as_str());
                text.append(" fields");
                text
            },
            DataError::DuplicateKey(name) => String::from_str("Duplicate key ").concat(
                name.as_str(),
            ),
        }
    }
}

/// The name that a record of two fields binds.
pub open spec fn key_of(row: RowView) -> Seq<char> {
    trimmed(row.fields[0])
}

/// The value that a record of two fields binds its name to.
pub open spec fn value_of(row: RowView) -> Seq<char> {
    trimmed(row.fields[1])
}

/// What is wrong with row `i`: it has not two fields, or it binds a name that
/// an earlier row binds.
pub open spec fn row_fault(rows: Seq<RowView>, i: int) -> Option<Fault> {
    let row = rows[i];
    if row.fields.len() != 2 {
        Some(Fault::FieldCount { line: row.line.unwrap(), found: row.fields.len() })
    } else if exists|j: int|
        0 <= j < i && rows[j].fields.len() == 2 && key_of(#[trigger] rows[j]) == key_of(row) {
        Some(Fault::DuplicateKey(key_of(row)))
    } else {
        None
    }
}

/// The fault of the first row at or after `from` that has one.
pub open spec fn first_fault(rows: Seq<RowView>, from: int) -> Option<Fault>
    decreases rows.len() - from,
{
    if from < 0 || from >= rows.len() {
        None
    } else if row_fault(rows, from) is Some {
        row_fault(rows, from)
    } else {
        first_fault(rows, from + 1)
    }
}

/// The bindings that the first `n` rows make.
pub open spec fn bound(rows: Seq<RowView>, n: int) -> Map<Seq<char>, Seq<char>>
    decreases n,
{
    if n <= 0 {
        Map::empty()
    } else {
        bound(rows, n - 1).insert(key_of(rows[n - 1]), value_of(rows[n - 1]))
    }
}

/// What a reading comes to: the fault of the first faulty row; else the
/// reader's failure; else the bindings of all the rows.
pub open spec fn loaded(reading: ReadingView) -> Result<Map<Seq<char>, Seq<char>>, Fault> {
    match first_fault(reading.rows, 0) {
        Some(fault) => Err(fault),
        None => match reading.failure {
            Some(text) => Err(Fault::Reader(text)),
            None => Ok(bound(reading.rows, reading.rows.len() as int)),
        },
    }
}

/// True when `r` is what [`loaded`] says of a reading.
pub open spec fn is_loaded(
    r: Result<Bindings, DataError>,
    expected: Result<Map<Seq<char>, Seq<char>>, Fault>,
) -> bool {
    match expected {
        Ok(map) => r matches Ok(bindings) && bindings.wf() && bindings@ == map,
        Err(fault) => r matches Err(e) && e@ == fault,
    }
}

/// Checks the records of a reading and binds each name to its value. Names
/// and values are trimmed. The first record with a fault decides the error;
/// a failure of the reader counts after the records that it did deliver.
pub fn load(reading: Reading) -> (r: Result<Bindings, DataError>)
    requires
        forall|i: int| 0 <= i < reading.rows@.len() ==> (#[trigger] reading.rows@[i]).line is Some,
    ensures
        is_loaded(r, loaded(reading@)),
{
    let ghost rows = reading@.rows;
    let mut bindings = Bindings::new();
    let mut i: usize = 0;
    while i < reading.rows.len()
        invariant
            rows == reading@.rows,
            i <= reading.rows@.len(),
            forall|j: int| 0 <= j < reading.rows@.len() ==> (#[trigger] reading.rows@[j]).line is Some,
            bindings.wf(),
            bindings@ == bound(rows, i as int),
            first_fault(rows, 0) == first_fault(rows, i as int),
            forall|j: int| 0 <= j < i ==> (#[trigger] rows[j]).fields.len() == 2,
            forall|k: Seq<char>|
                bindings@.contains_key(k) <==> exists|j: int|
                    0 <= j < i && key_of(#[trigger] rows[j]) == k,
        decreases reading.rows@.len() - i,
    {
        let row = &reading.rows[i];
        assert(row@ == rows[i as int]);
        if row.fields.len() != 2 {
            let line: u64 = row.line.unwrap();
            return Err(DataError::FieldCount { line, found: row.fields.len() });
        }
        let key = trim(row.fields[0].as_str());
        let value = trim(row.fields[1].as_str());
        assert(key@ == key_of(rows[i as int]));
        assert(value@ == value_of(rows[i as int]));
        let ghost before = bindings@;
        if !bindings.define(key, value) {
            proof {
                let j = choose|j: int| 0 <= j < i && key_of(#[trigger] rows[j]) == key@;
                assert(rows[j].fields.len() == 2);
            }
            return Err(DataError::DuplicateKey(String::from_str(key)));
        }
        proof {
            assert forall|k: Seq<char>|
                bindings@.contains_key(k) <==> exists|j: int|
                    0 <= j < i + 1 && key_of(#[trigger] rows[j]) == k by {
                if before.contains_key(k) {
                    let j = choose|j: int| 0 <= j < i && key_of(#[trigger] rows[j]) == k;
                    assert(0 <= j < i + 1 && key_of(rows[j]) == k);
                }
                if k == key@ {
                    assert(key_of(rows[i as int]) == k);
                }
            }
        }
        i += 1;
    }
    match reading.failure {
        Some(text) => Err(DataError::Reader(text)),
        None => Ok(bindings),
    }
}

/// What the csv reader makes of the bytes `input`, `comment` being the byte
/// that starts a comment line.
pub uninterp spec fn csv_reading(input: Seq<u8>, comment: u8) -> ReadingView;

/// Runs `csv::Reader` over `input`, configured without a header row, with
/// records of any length, with every field trimmed, and with `comment` as the
/// comment byte, and collects the records that `Reader::records` yields up to
/// its first error, with that error's text. The contract names the outcome
/// [`csv_reading`]: the reader works on the bytes alone. It also says that
/// every record has its position set, which `Reader::read_record` documents.
/// Neither is proved.
#[verifier::external_body]
fn read(input: &[u8], comment: u8) -> (r: Reading)
    ensures
        r@ == csv_reading(input@, comment),
        forall|i: int| 0 <= i < r.rows@.len() ==> (#[trigger] r.rows@[i]).line is Some,
{
    let mut builder = csv::ReaderBuilder::new();
    builder.has_headers(false).flexible(true).trim(csv::Trim::All).comment(Some(comment));
    let mut reading = Reading { rows: Vec::new(), failure: None };
    for record in builder.from_reader(input).records() {
        match record {
            Ok(rec) => reading.rows.push(Row {
                line: rec.position().map(|p| p.line()),
                fields: rec.iter().map(|f| f.to_string()).collect(),
            }),
            Err(e) => return Reading { failure: Some(e.to_string()), ..reading },
        }
    }
    reading
}

/// Reads a data file: records of a name and a value, separated by commas,
/// without a header; lines that begin with `#` are comments. Returns the
/// bindings, or the first thing that is wrong with the file.
pub fn parse(input: &[u8]) -> (r: Result<Bindings, DataError>)
    ensures
        is_loaded(r, loaded(csv_reading(input@, COMMENT))),
{
    load(read(input, COMMENT))
}

} // verus!
