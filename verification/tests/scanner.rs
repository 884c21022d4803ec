use ps_organizer::scanner::extract_problem_number;
use ps_organizer::scanner::make_entry;

#[test]
fn extract_simple_cpp() {
    assert_eq!(extract_problem_number("1010.cpp"), Some(1010));
}

#[test]
fn extract_simple_c() {
    assert_eq!(extract_problem_number("999.c"), Some(999));
}

#[test]
fn extract_simple_py() {
    assert_eq!(extract_problem_number("12345.py"), Some(12345));
}

#[test]
fn reject_with_prefix() {
    assert_eq!(extract_problem_number("problem_1234.py"), None);
}

#[test]
fn reject_with_suffix() {
    assert_eq!(extract_problem_number("1234_solution.cpp"), None);
}

#[test]
fn reject_no_number() {
    assert_eq!(extract_problem_number("main.cpp"), None);
}

#[test]
fn reject_wrong_extension() {
    assert_eq!(extract_problem_number("1010.java"), None);
}

#[test]
fn reject_mixed_chars() {
    assert_eq!(extract_problem_number("1a2b.cpp"), None);
}

#[test]
fn handle_leading_zeros() {
    assert_eq!(extract_problem_number("0001.cpp"), Some(1));
}

#[test]
fn handle_zero() {
    assert_eq!(extract_problem_number("0.cpp"), Some(0));
}

#[test]
fn reject_capital_extension() {
    assert_eq!(extract_problem_number("1010.CPP"), None);
}

#[test]
fn reject_overflowing_stem() {
    // a numeric stem beyond the u32 range carries no identifier
    assert_eq!(extract_problem_number("99999999999.cpp"), None);
    assert_eq!(extract_problem_number("4294967295.cpp"), Some(4294967295));
    assert_eq!(extract_problem_number("4294967296.cpp"), None);
}

#[test]
fn make_entry_accepts_allowed_extensions() {
    let e = make_entry("a/1010.cpp".to_string(), "1010.cpp".to_string()).unwrap();
    assert_eq!(e.current_path, "a/1010.cpp");
    assert_eq!(e.filename, "1010.cpp");
    assert_eq!(e.problem_number, Some(1010));

    let e = make_entry("solution.py".to_string(), "solution.py".to_string()).unwrap();
    assert_eq!(e.problem_number, None);
}

#[test]
fn make_entry_rejects_other_files() {
    assert!(make_entry("1010.java".to_string(), "1010.java".to_string()).is_none());
    assert!(make_entry("README".to_string(), "README".to_string()).is_none());
    // a bare dotfile has no stem before the dot
    assert!(make_entry(".cpp".to_string(), ".cpp".to_string()).is_none());
}
