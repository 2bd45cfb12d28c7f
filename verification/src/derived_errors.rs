//! Phone numbers parsed through error types that each carry their cause as
//! a `source` field: a parse failure becomes a conversion error, which
//! becomes the application's bad news.
use vstd::prelude::*;
use crate::int_parse::{parse_all_i32, parse_i32, spec_parse_i32, IntParseError};
use crate::layered_errors::lemma_first_error_stays;
use crate::text::string_views;
use vstd::string::StringExecFns;

verus! {

/// A value that did not parse, with the reason.
#[derive(Debug)]
pub struct DeepParsingError {
    pub msg: String,
    pub source: IntParseError,
}

impl DeepParsingError {
    /// The heading of a deep parsing error, with its message.
    pub fn heading(&self) -> (s: String)
        ensures
            s@ == "A deep parsing error occurred: "@ + self.msg@,
    {
        let mut s = "A deep parsing error occurred: ".to_owned();
        s.append(self.msg.as_str());
        s
    }
}

/// The slicing layer's error.
#[derive(Debug)]
pub enum SlicenDicingError {
    IoError(std::io::Error),
    ConversionError { source: DeepParsingError },
}

impl SlicenDicingError {
    /// The heading of a slicing error, by kind.
    pub fn heading(&self) -> (s: String)
        ensures
            s@ == match self {
                SlicenDicingError::IoError(_) => "An IO Error occurred."@,
                SlicenDicingError::ConversionError { .. } => "A Conversion Error occurred."@,
            },
    {
        match self {
            SlicenDicingError::IoError(_) => "An IO Error occurred.".to_owned(),
            SlicenDicingError::ConversionError { .. } => "A Conversion Error occurred.".to_owned(),
        }
    }
}

/// The application's error.
#[derive(Debug)]
pub enum AppError {
    Timeout,
    BadNews { source: SlicenDicingError },
}

impl AppError {
    /// The heading of an application error, by kind.
    pub fn heading(&self) -> (s: String)
        ensures
            s@ == match self {
                AppError::Timeout => "A timeout occurred."@,
                AppError::BadNews { .. } => "Generally, I've got some bad news."@,
            },
    {
        match self {
            AppError::Timeout => "A timeout occurred.".to_owned(),
            AppError::BadNews { .. } => "Generally, I've got some bad news.".to_owned(),
        }
    }
}

/// Parses one phone number as an `i32`.
pub fn cut_up_ints(val: String) -> (r: Result<i32, DeepParsingError>)
    ensures
        match r {
            Ok(v) => spec_parse_i32(val@) == Ok::<int, IntParseError>(v as int),
            Err(e) => spec_parse_i32(val@) == Err::<int, IntParseError>(e.source)
                && e.msg@ == "Could not parse value {val}"@,
        },
{
    match parse_i32(val.as_str()) {
        Ok(v) => Ok(v),
        Err(e) => Err(DeepParsingError { msg: "Could not parse value {val}".to_owned(), source: e }),
    }
}

/// Parses every phone number, stopping at the first that does not parse,
/// whose error becomes a conversion error.
pub fn slice_n_dice(phones: Vec<String>) -> (r: Result<Vec<i32>, SlicenDicingError>)
    ensures
        match r {
            Ok(vs) => parse_all_i32(string_views(phones@)) == Ok::<Seq<i32>, IntParseError>(vs@),
            Err(SlicenDicingError::ConversionError { source: e }) => parse_all_i32(
                string_views(phones@),
            ) == Err::<Seq<i32>, IntParseError>(e.source) && e.msg@
                == "Could not parse value {val}"@,
            Err(SlicenDicingError::IoError(_)) => false,
        },
{
    let mut out: Vec<i32> = Vec::new();
    let mut i: usize = 0;
    while i < phones.len()
        invariant
            i <= phones@.len(),
            parse_all_i32(string_views(phones@).take(i as int)) == Ok::<Seq<i32>, IntParseError>(
                out@,
            ),
        decreases phones@.len() - i,
    {
        assert(string_views(phones@).take(i + 1).drop_last() =~= string_views(phones@).take(
            i as int,
        ));
        assert(string_views(phones@).take(i + 1).last() == phones@[i as int]@);
        match cut_up_ints(phones[i].clone()) {
            Ok(v) => {
                out.push(v);
            },
            Err(e) => {
                proof {
                    lemma_first_error_stays(string_views(phones@), i as int + 1);
                }
                return Err(SlicenDicingError::ConversionError { source: e });
            },
        }
        i += 1;
    }
    assert(string_views(phones@).take(phones@.len() as int) =~= string_views(phones@));
    Ok(out)
}

/// Parses every phone number; a failure reaches the application as bad news.
pub fn parse_phones(phones: Vec<String>) -> (r: Result<Vec<i32>, AppError>)
    ensures
        match r {
            Ok(vs) => parse_all_i32(string_views(phones@)) == Ok::<Seq<i32>, IntParseError>(vs@),
            Err(
                AppError::BadNews { source: SlicenDicingError::ConversionError { source: e } },
            ) => parse_all_i32(string_views(phones@)) == Err::<Seq<i32>, IntParseError>(e.source)
                && e.msg@ == "Could not parse value {val}"@,
            Err(_) => false,
        },
{
    match slice_n_dice(phones) {
        Ok(vs) => Ok(vs),
        Err(e) => Err(AppError::BadNews { source: e }),
    }
}

} // verus!
