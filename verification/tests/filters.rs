use bson2csv::filter::{load_filter_set, parse_filter, parse_filter_in, FilterError};

fn lines(texts: &[&str]) -> Vec<String> {
    texts.iter().map(|s| s.to_string()).collect()
}

#[test]
fn filters_are_cut_at_the_first_equals_sign() {
    let pair = |k: &str, v: &str| Ok((k.to_string(), v.to_string()));
    assert_eq!(parse_filter("status=active"), pair("status", "active"));
    assert_eq!(parse_filter("a=b=c"), pair("a", "b=c"));
    assert_eq!(parse_filter("=x"), pair("", "x"));
    assert_eq!(parse_filter("x="), pair("x", ""));
    assert_eq!(parse_filter("status"), Err(FilterError::NotKeyAndValue));
    assert_eq!(parse_filter_in("user_id=./ids.txt"), pair("user_id", "./ids.txt"));
    assert_eq!(parse_filter_in("k=a=b"), pair("k", "a=b"));
}

#[test]
fn faulty_set_filters_are_refused() {
    assert_eq!(parse_filter_in("ids.txt"), Err(FilterError::NotKeyAndPath));
    assert_eq!(parse_filter_in("=ids.txt"), Err(FilterError::EmptyKey));
    assert_eq!(parse_filter_in("="), Err(FilterError::EmptyKey));
    assert_eq!(parse_filter_in("key="), Err(FilterError::EmptyPath));
}

#[test]
fn filter_errors_have_their_messages() {
    let messages = [
        (FilterError::NotKeyAndValue, "--filter must be in the form key=value"),
        (FilterError::NotKeyAndPath, "--filter-in must be in the form key=path/to/file"),
        (FilterError::EmptyKey, "--filter-in key cannot be empty"),
        (FilterError::EmptyPath, "--filter-in path cannot be empty"),
    ];
    for (error, message) in messages {
        assert_eq!(error.message(), message);
    }
}

#[test]
fn filter_sets_ignore_blank_lines_and_white_space() {
    let set = load_filter_set(&lines(&["1", "", "  2\t", "   ", "1", "3\r", "a b"]));
    assert_eq!(set.len(), 4);
    for value in ["1", "2", "3", "a b"] {
        assert!(set.contains(value));
    }
    for value in ["", " ", "  2\t", "3\r", "a", "4"] {
        assert!(!set.contains(value));
    }
    let same = load_filter_set(&lines(&["a b", "3", "2", "1"]));
    assert_eq!(same.len(), 4);
    assert_eq!(load_filter_set(&[]).len(), 0);
}
