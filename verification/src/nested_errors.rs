//! `name,value` records parsed into values, where a failure is reported as a
//! nested error that keeps the parse failure as its source.
use vstd::prelude::*;
use crate::int_parse::{parse_error_text, parse_u32, spec_parse_u32, IntParseError};
use vstd::string::StringExecFns;
use crate::text::{split_once, split_once_char, views};

verus! {

/// A failure with a message and, possibly, the parse failure behind it.
#[derive(Debug)]
pub struct MyNestedError {
    pub msg: String,
    pub source: Option<IntParseError>,
}

/// The error of this exercise's functions.
#[derive(Debug)]
pub enum MyError {
    AhShit(String),
    Ooopsie(String),
    Bahhhhh(MyNestedError),
}

/// What a `MyError` shows: its heading, then, for a nested error with a parse
/// failure behind it, that failure's message as its cause.
pub open spec fn my_error_report(e: MyError) -> Seq<char> {
    match e {
        MyError::Bahhhhh(n) => match n.source {
            Some(p) => "There was an Error: "@ + "Caused by:\n\t"@ + parse_error_text(p),
            None => "There was an Error: "@,
        },
        _ => "There was an Error: "@,
    }
}

impl MyNestedError {
    /// The heading of a nested error.
    pub fn heading(&self) -> (s: String)
        ensures
            s@ == "There was a nested error:"@,
    {
        "There was a nested error:".to_owned()
    }
}

impl MyError {
    /// The heading of any of these errors.
    pub fn heading(&self) -> (s: String)
        ensures
            s@ == "There was an Error: "@,
    {
        "There was an Error: ".to_owned()
    }

    /// The heading followed by the chain of causes.
    pub fn report(&self) -> (s: String)
        ensures
            s@ == my_error_report(*self),
    {
        let mut s = self.heading();
        if let MyError::Bahhhhh(n) = self {
            if let Some(p) = &n.source {
                s.append("Caused by:\n\t");
                s.append(p.message().as_str());
            }
        }
        s
    }
}

/// The value of one `name,value` record, or the source of its failure: no
/// comma (no source), or a value that is not a `u32` (that parse failure).
pub open spec fn record_value(record: Seq<char>) -> Result<u32, Option<IntParseError>> {
    match split_once(record, ',') {
        None => Err(None),
        Some((_, v)) => match spec_parse_u32(v) {
            Ok(n) => Ok(n as u32),
            Err(e) => Err(Some(e)),
        },
    }
}

/// The values of all records, in order, or the failure of the first bad one.
pub open spec fn record_values(records: Seq<Seq<char>>) -> Result<Seq<u32>, Option<IntParseError>>
    decreases records.len(),
{
    if records.len() == 0 {
        Ok(Seq::empty())
    } else {
        match record_values(records.drop_last()) {
            Err(e) => Err(e),
            Ok(vs) => match record_value(records.last()) {
                Ok(v) => Ok(vs.push(v)),
                Err(e) => Err(e),
            },
        }
    }
}

/// A failure in the first `n` records is the failure of all of them.
proof fn lemma_first_failure_stays(records: Seq<Seq<char>>, n: int)
    requires
        0 <= n <= records.len(),
        record_values(records.take(n)) is Err,
    ensures
        record_values(records) == record_values(records.take(n)),
    decreases records.len() - n,
{
    if n < records.len() {
        assert(records.take(n + 1).drop_last() =~= records.take(n));
        lemma_first_failure_stays(records, n + 1);
    } else {
        assert(records.take(n) =~= records);
    }
}

/// The values after the comma of each `name,value` record, or a nested error
/// for the first record without a comma or with a value that is not a `u32`.
pub fn my_nested_function(users: Vec<&str>) -> (r: Result<Vec<u32>, MyError>)
    ensures
        match r {
            Ok(vs) => record_values(views(users@)) == Ok::<Seq<u32>, Option<IntParseError>>(vs@),
            Err(MyError::Bahhhhh(e)) => record_values(views(users@)) == Err::<
                Seq<u32>,
                Option<IntParseError>,
            >(e.source) && e.msg@ == "need a value to parse!"@,
            Err(_) => false,
        },
{
    let mut out: Vec<u32> = Vec::new();
    let mut i: usize = 0;
    while i < users.len()
        invariant
            i <= users@.len(),
            record_values(views(users@).take(i as int)) == Ok::<Seq<u32>, Option<IntParseError>>(
                out@,
            ),
        decreases users@.len() - i,
    {
        let user = users[i];
        assert(views(users@).take(i + 1).drop_last() =~= views(users@).take(i as int));
        assert(views(users@).take(i + 1).last() == user@);
        match split_once_char(user, ',') {
            None => {
                proof {
                    lemma_first_failure_stays(views(users@), i as int + 1);
                }
                return Err(
                    MyError::Bahhhhh(
                        MyNestedError { msg: "need a value to parse!".to_owned(), source: None },
                    ),
                );
            },
            Some((_, y)) => match parse_u32(y) {
                Ok(parsed) => {
                    out.push(parsed);
                },
                Err(e) => {
                    proof {
                        lemma_first_failure_stays(views(users@), i as int + 1);
                    }
                    return Err(
                        MyError::Bahhhhh(
                            MyNestedError {
                                msg: "need a value to parse!".to_owned(),
                                source: Some(e),
                            },
                        ),
                    );
                },
            },
        }
        i += 1;
    }
    assert(views(users@).take(users@.len() as int) =~= views(users@));
    Ok(out)
}

} // verus!
