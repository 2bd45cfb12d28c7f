//! Phone numbers parsed through three layers of hand-written errors: a parse
//! failure becomes a deep parsing error, which the middle layer wraps, which
//! the application layer wraps in turn.
use vstd::prelude::*;
use crate::int_parse::{parse_all_i32, parse_i32, spec_parse_i32, IntParseError};
use crate::text::string_views;
use vstd::string::StringExecFns;

verus! {

/// `std::io::Error`, carried unchanged by the middle error layer.
#[verifier::external_type_specification]
#[verifier::external_body]
pub struct ExIoError(std::io::Error);

/// A value that did not parse, with the reason.
#[derive(Debug)]
pub struct DeepParsingError {
    pub msg: String,
    pub source: IntParseError,
}

impl DeepParsingError {
    /// The deep parsing error for a failed integer parse.
    pub fn from_int_error(e: IntParseError) -> (r: DeepParsingError)
        ensures
            r.msg@ == "Error parsing value"@,
            r.source == e,
    {
        DeepParsingError { msg: "Error parsing value".to_owned(), source: e }
    }

    /// The heading of a deep parsing error, with its message.
    pub fn heading(&self) -> (s: String)
        ensures
            s@ == "A deep parsing error occurred:\n\t"@ + self.msg@,
    {
        let mut s = "A deep parsing error occurred:\n\t".to_owned();
        s.append(self.msg.as_str());
        s
    }
}

/// The middle layer's error.
#[derive(Debug)]
pub enum MiddleFunctionError {
    IoError(std::io::Error),
    Other(DeepParsingError),
}

impl MiddleFunctionError {
    /// The heading of a middle layer error.
    pub fn heading(&self) -> (s: String)
        ensures
            s@ == "A middle function error occurred."@,
    {
        "A middle function error occurred.".to_owned()
    }
}

/// The application's error.
#[derive(Debug)]
pub enum LargerAppError {
    Timeout,
    BadNews(MiddleFunctionError),
}

impl LargerAppError {
    /// The heading of an application error.
    pub fn heading(&self) -> (s: String)
        ensures
            s@ == "A larger app error occurred."@,
    {
        "A larger app error occurred.".to_owned()
    }
}

/// Parses one phone number as an `i32`.
pub fn cut_up_ints(val: String) -> (r: Result<i32, DeepParsingError>)
    ensures
        match r {
            Ok(v) => spec_parse_i32(val@) == Ok::<int, IntParseError>(v as int),
            Err(e) => spec_parse_i32(val@) == Err::<int, IntParseError>(e.source)
                && e.msg@ == "Error parsing value"@,
        },
{
    match parse_i32(val.as_str()) {
        Ok(v) => Ok(v),
        Err(e) => Err(DeepParsingError::from_int_error(e)),
    }
}

/// Parses every phone number, stopping at the first that does not parse,
/// whose error the middle layer wraps.
pub fn slice_n_dice(phones: Vec<String>) -> (r: Result<Vec<i32>, MiddleFunctionError>)
    ensures
        match r {
            Ok(vs) => parse_all_i32(string_views(phones@)) == Ok::<Seq<i32>, IntParseError>(vs@),
            Err(MiddleFunctionError::Other(e)) => parse_all_i32(string_views(phones@)) == Err::<
                Seq<i32>,
                IntParseError,
            >(e.source) && e.msg@ == "Error parsing value"@,
            Err(MiddleFunctionError::IoError(_)) => false,
        },
{
    let mut out: Vec<i32> = Vec::new();
    let mut i: usize = 0;
    while i < phones.len()
        invariant
            i <= phones@.len(),
            parse_all_i32(string_views(phones@).take(i as int)) == Ok::<Seq<i32>, IntParseError>(
                out@,
            ),
        decreases phones@.len() - i,
    {
        assert(string_views(phones@).take(i + 1).drop_last() =~= string_views(phones@).take(
            i as int,
        ));
        assert(string_views(phones@).take(i + 1).last() == phones@[i as int]@);
        match cut_up_ints(phones[i].clone()) {
            Ok(v) => {
                out.push(v);
            },
            Err(e) => {
                proof {
                    lemma_first_error_stays(string_views(phones@), i as int + 1);
                }
                return Err(MiddleFunctionError::Other(e));
            },
        }
        i += 1;
    }
    assert(string_views(phones@).take(phones@.len() as int) =~= string_views(phones@));
    Ok(out)
}

/// An error in the first `n` items is the error of the whole sequence.
pub proof fn lemma_first_error_stays(items: Seq<Seq<char>>, n: int)
    requires
        0 <= n <= items.len(),
        parse_all_i32(items.take(n)) is Err,
    ensures
        parse_all_i32(items) == parse_all_i32(items.take(n)),
    decreases items.len() - n,
{
    if n < items.len() {
        assert(items.take(n + 1).drop_last() =~= items.take(n));
        lemma_first_error_stays(items, n + 1);
    } else {
        assert(items.take(n) =~= items);
    }
}

/// Parses every phone number; a failure reaches the application layer as bad news.
pub fn parse_phones(phones: Vec<String>) -> (r: Result<Vec<i32>, LargerAppError>)
    ensures
        match r {
            Ok(vs) => parse_all_i32(string_views(phones@)) == Ok::<Seq<i32>, IntParseError>(vs@),
            Err(LargerAppError::BadNews(MiddleFunctionError::Other(e))) => parse_all_i32(
                string_views(phones@),
            ) == Err::<Seq<i32>, IntParseError>(e.source) && e.msg@ == "Error parsing value"@,
            Err(_) => false,
        },
{
    match slice_n_dice(phones) {
        Ok(vs) => Ok(vs),
        Err(e) => Err(LargerAppError::BadNews(e)),
    }
}

} // verus!
