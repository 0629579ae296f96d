use rowstream::fixed_string::{FixedString, FixedStringError, WireText, FIELD_NAME};

#[test]
fn new_and_conversions_keep_the_text() {
    assert_eq!(FixedString::new("abc".to_string()).string, "abc");
    assert_eq!(FixedString::from("xy".to_string()).string, "xy");
    let parsed: FixedString = "hello".parse().unwrap();
    assert_eq!(parsed, FixedString::new("hello".to_string()));
}

#[test]
fn both_input_forms_are_accepted() {
    assert_eq!(
        FixedString::from_wire(WireText::Bare("a".to_string())),
        Ok(FixedString::new("a".to_string()))
    );
    assert_eq!(
        FixedString::from_wire(WireText::Wrapped("b".to_string())),
        Ok(FixedString::new("b".to_string()))
    );
    assert_eq!(FixedString::from_wire(WireText::WrappedWithoutField), Err(FixedStringError::MissingField));
    assert_eq!(FixedString::from_wire(WireText::NotText), Err(FixedStringError::NotText));
}

#[test]
fn output_is_the_object_form() {
    let f = FixedString::new("text".to_string());
    assert_eq!(f.to_wire(), ("FixedString", "text"));
    assert_eq!(FIELD_NAME, "FixedString");
}

#[test]
fn from_str_slice_keeps_the_text() {
    assert_eq!(FixedString::from("abc").string, "abc");
    assert_eq!(FixedString::from("").string, "");
    let parsed: Result<FixedString, FixedStringError> = "".parse();
    assert_eq!(parsed, Ok(FixedString::new(String::new())));
}
