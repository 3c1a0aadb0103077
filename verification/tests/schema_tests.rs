use remote_store::schema::validate;
use remote_store::schema::FieldSpec;
use remote_store::schema::PluginSchema;
use remote_store::schema::ValidationError;

fn field(name: &str, field_type: &str, required: bool) -> FieldSpec {
    FieldSpec {
        name: name.to_string(),
        display_name: name.to_string(),
        field_type: field_type.to_string(),
        required,
        default: String::new(),
        placeholder: String::new(),
        tooltip: String::new(),
    }
}

fn schema(basic: Vec<FieldSpec>, advanced: Vec<FieldSpec>) -> PluginSchema {
    PluginSchema {
        name: "drive".to_string(),
        display_name: "Drive".to_string(),
        description: "a drive".to_string(),
        version: "1.0".to_string(),
        author: "someone".to_string(),
        basic_fields: basic,
        advanced_fields: advanced,
    }
}

fn provided(pairs: &[(&str, &str)]) -> Vec<(String, String)> {
    pairs.iter().map(|(k, v)| (k.to_string(), v.to_string())).collect()
}

#[test]
fn validation_reports_first_missing_basic_field() {
    let s = schema(
        vec![field("a", "text", true), field("b", "text", true)],
        vec![field("c", "text", true)],
    );
    let p = provided(&[("b", "present")]);
    assert_eq!(
        validate(&s, &p),
        Err(ValidationError::MissingRequiredField("a".to_string()))
    );
}

#[test]
fn validation_checks_advanced_after_basic() {
    let s = schema(
        vec![field("a", "text", true), field("b", "text", true)],
        vec![field("c", "text", true)],
    );
    let p = provided(&[("a", "x"), ("b", "y")]);
    assert_eq!(
        validate(&s, &p),
        Err(ValidationError::MissingRequiredField("c".to_string()))
    );
}

#[test]
fn validation_accepts_complete_input() {
    let s = schema(
        vec![field("a", "text", true)],
        vec![field("c", "number", false)],
    );
    let p = provided(&[("a", "x")]);
    assert_eq!(validate(&s, &p), Ok(()));
}

#[test]
fn number_field_accepts_decimal() {
    let s = schema(vec![field("port", "number", true)], vec![]);
    assert_eq!(validate(&s, &provided(&[("port", "12.5")])), Ok(()));
}

#[test]
fn number_field_rejects_non_number() {
    let s = schema(vec![field("port", "number", true)], vec![]);
    assert_eq!(
        validate(&s, &provided(&[("port", "abc")])),
        Err(ValidationError::InvalidFieldValue("port".to_string()))
    );
}

#[test]
fn number_field_accepts_varied_syntax() {
    let s = schema(vec![field("n", "number", true)], vec![]);
    for ok in ["0", "-3", "+7", "1.", ".5", "1e5", "2E-3", "inf", "-Infinity", "NaN", "10.25e+2"] {
        assert_eq!(validate(&s, &provided(&[("n", ok)])), Ok(()), "{}", ok);
    }
    for bad in ["", "+", ".", "1e", "1.2.3", "e5", "1x", "--1", "infx", " 1"] {
        assert_eq!(
            validate(&s, &provided(&[("n", bad)])),
            Err(ValidationError::InvalidFieldValue("n".to_string())),
            "{}",
            bad
        );
    }
}

#[test]
fn checkbox_accepts_only_exact_literals() {
    let s = schema(vec![field("flag", "checkbox", true)], vec![]);
    assert_eq!(validate(&s, &provided(&[("flag", "true")])), Ok(()));
    assert_eq!(validate(&s, &provided(&[("flag", "false")])), Ok(()));
    assert_eq!(
        validate(&s, &provided(&[("flag", "yes")])),
        Err(ValidationError::InvalidFieldValue("flag".to_string()))
    );
    assert_eq!(
        validate(&s, &provided(&[("flag", "True")])),
        Err(ValidationError::InvalidFieldValue("flag".to_string()))
    );
}

#[test]
fn optional_field_is_still_type_checked_when_present() {
    let s = schema(vec![field("port", "number", false)], vec![]);
    assert_eq!(validate(&s, &provided(&[])), Ok(()));
    assert_eq!(
        validate(&s, &provided(&[("port", "abc")])),
        Err(ValidationError::InvalidFieldValue("port".to_string()))
    );
}

#[test]
fn other_field_types_accept_any_string() {
    let s = schema(vec![field("token", "password", true)], vec![]);
    assert_eq!(validate(&s, &provided(&[("token", "anything at all !")])), Ok(()));
}
