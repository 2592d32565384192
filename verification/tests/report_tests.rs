use gf2_solver::report::{json_array, json_words};

#[test]
fn array_of_items_as_they_are() {
    assert_eq!(json_array(&Vec::new()), "[]");
    assert_eq!(json_array(&vec![String::from("1")]), "[1]");
    assert_eq!(
        json_array(&vec![String::from("1"), String::from("\"two\""), String::from("")]),
        "[1, \"two\", ]"
    );
}

#[test]
fn json_of_no_words() {
    assert_eq!(json_words(&Vec::new()), "[]");
}

#[test]
fn json_of_one_word() {
    assert_eq!(json_words(&vec!["able"]), "[\"able\"]");
}

#[test]
fn json_of_several_words() {
    assert_eq!(json_words(&vec!["able", "baker", "charlie"]), "[\"able\", \"baker\", \"charlie\"]");
}

#[test]
fn json_escapes_quotes_and_backslashes() {
    assert_eq!(json_words(&vec!["a\"b", "c\\d"]), "[\"a\\\"b\", \"c\\\\d\"]");
}
