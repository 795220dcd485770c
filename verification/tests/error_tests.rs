use hashsort::error::{GeneralError, ThesisError};

#[test]
fn general_error_carries_its_message() {
    let e = GeneralError::new(String::from("something went wrong"));
    assert_eq!(e.message(), "something went wrong");
}

#[test]
fn thesis_error_messages() {
    let c = ThesisError::CreateError(String::from("bad range"));
    assert_eq!(c.message(), "bad range");
    let m = ThesisError::MergeError(String::from("bad window"));
    assert_eq!(m.message(), "bad window");
}
