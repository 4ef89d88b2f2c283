use dllbridge32::signature::{parse_signature, SignatureError, SupportedType};

#[test]
fn parses_params_convention_and_return() {
    let sig = parse_signature("int,float,char,void(stdcall) -> int").unwrap();
    assert_eq!(sig.calling_convention, "stdcall");
    assert_eq!(
        sig.param_types,
        vec![
            SupportedType::Int,
            SupportedType::Float,
            SupportedType::Char,
            SupportedType::Void
        ]
    );
    assert_eq!(sig.return_type, SupportedType::Int);
}

#[test]
fn convention_defaults_to_cdecl() {
    let sig = parse_signature("int,int -> char").unwrap();
    assert_eq!(sig.calling_convention, "cdecl");
    assert_eq!(sig.param_types, vec![SupportedType::Int, SupportedType::Int]);
    assert_eq!(sig.return_type, SupportedType::Char);
}

#[test]
fn type_names_ignore_case() {
    let sig = parse_signature("INT, Float ->vOiD").unwrap();
    assert_eq!(sig.param_types, vec![SupportedType::Int, SupportedType::Float]);
    assert_eq!(sig.return_type, SupportedType::Void);
}

#[test]
fn blank_parameter_pieces_are_skipped() {
    let sig = parse_signature(" , ,int, -> float").unwrap();
    assert_eq!(sig.param_types, vec![SupportedType::Int]);
    let sig = parse_signature("(fastcall)->int").unwrap();
    assert!(sig.param_types.is_empty());
    assert_eq!(sig.calling_convention, "fastcall");
}

#[test]
fn text_after_the_convention_is_dropped() {
    let sig = parse_signature("int(cdecl)junk -> int").unwrap();
    assert_eq!(sig.param_types, vec![SupportedType::Int]);
    assert_eq!(sig.calling_convention, "cdecl");
}

#[test]
fn missing_arrow_is_a_format_error() {
    let e = parse_signature("int,int").err().unwrap();
    assert_eq!(e, SignatureError::MissingArrow);
    assert_eq!(e.message(), "Signature must contain '->'");
    assert_eq!(parse_signature("").err().unwrap(), SignatureError::MissingArrow);
}

#[test]
fn two_arrows_are_a_format_error() {
    assert_eq!(
        parse_signature("int -> int -> int").err().unwrap(),
        SignatureError::MissingArrow
    );
}

#[test]
fn unclosed_paren_is_malformed() {
    let e = parse_signature("int(stdcall -> int").err().unwrap();
    assert_eq!(e, SignatureError::UnclosedParen);
    assert_eq!(e.message(), "Malformed signature: missing closing parenthesis");
}

#[test]
fn closing_paren_before_opening_one_is_malformed() {
    assert_eq!(
        parse_signature("int)(cdecl -> int").err().unwrap(),
        SignatureError::UnclosedParen
    );
}

#[test]
fn unknown_param_type_is_named() {
    let e = parse_signature("int, bool -> int").err().unwrap();
    assert_eq!(e, SignatureError::UnsupportedType("bool".to_string()));
    assert_eq!(e.message(), "Unsupported type: bool");
}

#[test]
fn unknown_return_type_is_named() {
    let e = parse_signature("int -> long ").err().unwrap();
    assert_eq!(e, SignatureError::UnsupportedType("long".to_string()));
}

#[test]
fn empty_return_type_is_unsupported() {
    let e = parse_signature("void ->").err().unwrap();
    assert_eq!(e, SignatureError::UnsupportedType(String::new()));
    assert_eq!(e.message(), "Unsupported type: ");
}

#[test]
fn type_from_str() {
    assert_eq!(SupportedType::from_str("Char").unwrap(), SupportedType::Char);
    assert_eq!(SupportedType::from_str("FLOAT").unwrap(), SupportedType::Float);
    assert_eq!(
        SupportedType::from_str("double").err().unwrap(),
        SignatureError::UnsupportedType("double".to_string())
    );
    assert_eq!(
        SupportedType::from_str(" int").err().unwrap(),
        SignatureError::UnsupportedType(" int".to_string())
    );
}
