use dag::loader::{DagFileData, LoadError, NO_CHILD};

fn lines(text: &[&str]) -> Vec<String> {
    text.iter().map(|l| l.to_string()).collect()
}

fn edges(text: &[&str]) -> Result<(i128, Vec<(i128, i128, i128)>), LoadError> {
    DagFileData::from_lines(&lines(text)).map(|d| (d.num_nodes, d.nodes))
}

#[test]
fn no_child_is_minus_one() {
    assert_eq!(NO_CHILD, -1);
}

#[test]
fn from_lines_without_lines_declares_nothing() {
    assert_eq!(edges(&[]), Ok((0, vec![])));
}

#[test]
fn from_lines_with_count_zero_declares_nothing() {
    assert_eq!(edges(&["0"]), Ok((0, vec![])));
}

#[test]
fn from_lines_head_alone_declares_node_one() {
    assert_eq!(edges(&["1"]), Ok((1, vec![(1, -1, -1)])));
    assert_eq!(edges(&["7"]), Ok((7, vec![(1, -1, -1)])));
    assert_eq!(edges(&["-5"]), Ok((-5, vec![(1, -1, -1)])));
}

#[test]
fn from_lines_numbers_the_nodes_by_line() {
    assert_eq!(
        edges(&["5", "-1 -1", "1 2", "-1 3"]),
        Ok((5, vec![(1, -1, -1), (2, -1, -1), (3, 1, 2), (4, -1, 3)]))
    );
}

#[test]
fn from_lines_puts_the_root_last() {
    assert_eq!(
        edges(&["3", "-1 -1", "1 2", "3 3"]),
        Ok((3, vec![(1, -1, -1), (2, -1, -1), (4, 3, 3), (3, 1, 2)]))
    );
    assert_eq!(edges(&["2", "1 -1", "2 -1"]), Ok((2, vec![(1, -1, -1), (3, 2, -1), (2, 1, -1)])));
}

#[test]
fn from_lines_accepts_any_white_space_and_signs() {
    assert_eq!(edges(&["  2\t", "\t+1   -1  "]), Ok((2, vec![(1, -1, -1), (2, 1, -1)])));
}

#[test]
fn from_lines_rejects_a_bad_head() {
    assert_eq!(edges(&[""]), Err(LoadError::ParseError { line: 0 }));
    assert_eq!(edges(&["x"]), Err(LoadError::ParseError { line: 0 }));
    assert_eq!(edges(&["2 3"]), Err(LoadError::ParseError { line: 0 }));
    assert_eq!(edges(&["2.0", "1 1"]), Err(LoadError::ParseError { line: 0 }));
}

#[test]
fn from_lines_rejects_a_wrong_field_count() {
    assert_eq!(edges(&["2", "1"]), Err(LoadError::ParseError { line: 1 }));
    assert_eq!(edges(&["2", "1 2 3"]), Err(LoadError::ParseError { line: 1 }));
    assert_eq!(edges(&["2", ""]), Err(LoadError::ParseError { line: 1 }));
    assert_eq!(edges(&["3", "-1 -1", "   "]), Err(LoadError::ParseError { line: 2 }));
}

#[test]
fn from_lines_rejects_a_token_that_is_no_integer() {
    assert_eq!(edges(&["3", "-1 -1", "1 two"]), Err(LoadError::ParseError { line: 2 }));
    assert_eq!(edges(&["3", "-1 1e2", "1 2"]), Err(LoadError::ParseError { line: 1 }));
    assert_eq!(
        edges(&["3", "-1 170141183460469231731687303715884105728"]),
        Err(LoadError::ParseError { line: 1 })
    );
}

#[test]
fn from_lines_names_the_first_bad_line() {
    assert_eq!(edges(&["3", "a b", "c d", "-1 -1"]), Err(LoadError::ParseError { line: 1 }));
    assert_eq!(edges(&["?", "a b"]), Err(LoadError::ParseError { line: 0 }));
}
