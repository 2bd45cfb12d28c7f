use active_recall::int_parse::IntParseError;
use active_recall::{derived_errors, layered_errors, nested_errors};

fn phones(v: &[&str]) -> Vec<String> {
    v.iter().map(|s| s.to_string()).collect()
}

#[test]
fn nested_function_parses_all_values() {
    let r = nested_errors::my_nested_function(vec!["alex,500", "jordan,950"]);
    assert_eq!(r.unwrap(), vec![500, 950]);
    assert_eq!(nested_errors::my_nested_function(vec![]).unwrap(), Vec::<u32>::new());
}

#[test]
fn nested_function_reports_bad_value_with_source() {
    let r = nested_errors::my_nested_function(vec!["alex,500", "jordan,950", "casey,-300"]);
    match r {
        Err(nested_errors::MyError::Bahhhhh(e)) => {
            assert_eq!(e.msg, "need a value to parse!");
            assert_eq!(e.source, Some(IntParseError::InvalidDigit));
        }
        other => panic!("unexpected {:?}", other),
    }
}

#[test]
fn nested_function_reports_missing_comma_without_source() {
    let r = nested_errors::my_nested_function(vec!["alex", "casey,-300"]);
    match r {
        Err(nested_errors::MyError::Bahhhhh(e)) => {
            assert_eq!(e.msg, "need a value to parse!");
            assert_eq!(e.source, None);
        }
        other => panic!("unexpected {:?}", other),
    }
}

#[test]
fn layered_phones_parse() {
    let r = layered_errors::parse_phones(phones(&["80047", "1234567"]));
    assert_eq!(r.unwrap(), vec![80047, 1234567]);
}

#[test]
fn layered_phones_report_first_failure() {
    let r = layered_errors::parse_phones(phones(&["80047", "1234567", "99d547", ""]));
    match r {
        Err(layered_errors::LargerAppError::BadNews(layered_errors::MiddleFunctionError::Other(e))) => {
            assert_eq!(e.msg, "Error parsing value");
            assert_eq!(e.source, IntParseError::InvalidDigit);
        }
        other => panic!("unexpected {:?}", other),
    }
    match layered_errors::cut_up_ints("99999999999".to_string()) {
        Err(e) => assert_eq!(e.source, IntParseError::PosOverflow),
        Ok(v) => panic!("unexpected {}", v),
    }
    let e = layered_errors::DeepParsingError::from_int_error(IntParseError::Empty);
    assert_eq!(e.msg, "Error parsing value");
    assert_eq!(e.source, IntParseError::Empty);
}

#[test]
fn slice_n_dice_wraps_in_middle_layer() {
    match layered_errors::slice_n_dice(phones(&["-"])) {
        Err(layered_errors::MiddleFunctionError::Other(e)) => assert_eq!(e.source, IntParseError::InvalidDigit),
        other => panic!("unexpected {:?}", other),
    }
    match derived_errors::slice_n_dice(phones(&["1", ""])) {
        Err(derived_errors::SlicenDicingError::ConversionError { source }) => {
            assert_eq!(source.source, IntParseError::Empty)
        }
        other => panic!("unexpected {:?}", other),
    }
}

#[test]
fn derived_phones_report_first_failure() {
    assert_eq!(derived_errors::parse_phones(phones(&["-12", "+3"])).unwrap(), vec![-12, 3]);
    match derived_errors::parse_phones(phones(&["80047", "1234567", "99d547"])) {
        Err(derived_errors::AppError::BadNews {
            source: derived_errors::SlicenDicingError::ConversionError { source },
        }) => {
            assert_eq!(source.msg, "Could not parse value {val}");
            assert_eq!(source.source, IntParseError::InvalidDigit);
        }
        other => panic!("unexpected {:?}", other),
    }
    match derived_errors::cut_up_ints("-2147483649".to_string()) {
        Err(e) => assert_eq!(e.source, IntParseError::NegOverflow),
        Ok(v) => panic!("unexpected {}", v),
    }
}

#[test]
fn parse_failures_carry_std_messages() {
    assert_eq!(IntParseError::Empty.message(), "".parse::<u32>().unwrap_err().to_string());
    assert_eq!(IntParseError::InvalidDigit.message(), "x".parse::<u32>().unwrap_err().to_string());
    assert_eq!(
        IntParseError::PosOverflow.message(),
        "99999999999".parse::<i32>().unwrap_err().to_string()
    );
    assert_eq!(
        IntParseError::NegOverflow.message(),
        "-99999999999".parse::<i32>().unwrap_err().to_string()
    );
}

#[test]
fn nested_error_report_names_its_cause() {
    let r = nested_errors::my_nested_function(vec!["alex,500", "jordan,950", "casey,-300"]);
    let e = r.unwrap_err();
    assert_eq!(e.heading(), "There was an Error: ");
    assert_eq!(e.report(), "There was an Error: Caused by:\n\tinvalid digit found in string");
    match &e {
        nested_errors::MyError::Bahhhhh(n) => assert_eq!(n.heading(), "There was a nested error:"),
        _ => panic!("expected a nested error"),
    }
}

#[test]
fn nested_error_report_without_cause_is_heading() {
    let e = nested_errors::my_nested_function(vec!["alex"]).unwrap_err();
    assert_eq!(e.report(), "There was an Error: ");
    let o = nested_errors::MyError::Ooopsie("oopsie!".to_string());
    assert_eq!(o.report(), "There was an Error: ");
}

#[test]
fn layered_error_headings() {
    let e = layered_errors::parse_phones(phones(&["80047", "99d547"])).unwrap_err();
    assert_eq!(e.heading(), "A larger app error occurred.");
    match &e {
        layered_errors::LargerAppError::BadNews(m) => {
            assert_eq!(m.heading(), "A middle function error occurred.");
            match m {
                layered_errors::MiddleFunctionError::Other(d) => {
                    assert_eq!(d.heading(), "A deep parsing error occurred:\n\tError parsing value")
                }
                _ => panic!("expected a parsing error"),
            }
        }
        _ => panic!("expected bad news"),
    }
}

#[test]
fn derived_error_headings() {
    let e = derived_errors::parse_phones(phones(&["99d547"])).unwrap_err();
    assert_eq!(e.heading(), "Generally, I've got some bad news.");
    assert_eq!(derived_errors::AppError::Timeout.heading(), "A timeout occurred.");
    match &e {
        derived_errors::AppError::BadNews { source } => {
            assert_eq!(source.heading(), "A Conversion Error occurred.");
            match source {
                derived_errors::SlicenDicingError::ConversionError { source: d } => assert_eq!(
                    d.heading(),
                    "A deep parsing error occurred: Could not parse value {val}"
                ),
                _ => panic!("expected a conversion error"),
            }
        }
        _ => panic!("expected bad news"),
    }
    let io = derived_errors::SlicenDicingError::IoError(std::io::Error::other("disk"));
    assert_eq!(io.heading(), "An IO Error occurred.");
}
