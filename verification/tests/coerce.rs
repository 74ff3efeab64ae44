use toncall::convert::convert_token;
use toncall::convert::ConvertError;
use toncall::params::build_json_from_params;
use toncall::params::parse_integer_param;
use toncall::params::parse_params;
use toncall::params::AbiKind;
use toncall::params::AbiParam;
use toncall::params::ParamError;

fn param(name: &str, kind: AbiKind) -> AbiParam {
    AbiParam { name: name.to_string(), kind }
}

#[test]
fn convert_whole_tokens() {
    assert_eq!(convert_token("5"), Ok("5000000000".to_string()));
}

#[test]
fn convert_fraction() {
    assert_eq!(convert_token("0.1"), Ok("100000000".to_string()));
    assert_eq!(convert_token("1.234567891"), Ok("1234567891".to_string()));
    assert_eq!(convert_token("12.05"), Ok("12050000000".to_string()));
}

#[test]
fn convert_zero() {
    assert_eq!(convert_token("0"), Ok("0".to_string()));
    assert_eq!(convert_token("0.0"), Ok("0".to_string()));
}

#[test]
fn convert_huge_amount_is_exact() {
    assert_eq!(
        convert_token("123456789012345678901234567890"),
        Ok("123456789012345678901234567890000000000".to_string())
    );
}

#[test]
fn convert_rejects_malformed() {
    assert_eq!(convert_token(""), Err(ConvertError));
    assert_eq!(convert_token("abc"), Err(ConvertError));
    assert_eq!(convert_token("1."), Err(ConvertError));
    assert_eq!(convert_token(".5"), Err(ConvertError));
    assert_eq!(convert_token("1.2.3"), Err(ConvertError));
    assert_eq!(convert_token("1.0123456789"), Err(ConvertError));
    assert_eq!(convert_token("-1"), Err(ConvertError));
}

#[test]
fn integer_param_plain() {
    assert_eq!(parse_integer_param("42"), Ok("42".to_string()));
}

#[test]
fn integer_param_strips_quotes() {
    assert_eq!(parse_integer_param("\"42\""), Ok("42".to_string()));
}

#[test]
fn integer_param_token_suffix() {
    let direct = convert_token("5").unwrap();
    assert_eq!(parse_integer_param("5T"), Ok(direct));
}

#[test]
fn integer_param_bad_amount() {
    assert_eq!(parse_integer_param("fiveT"), Err(ParamError::Conversion));
}

#[test]
fn single_argument_passthrough() {
    let raw = "{\"a\":1}";
    let schema = vec![param("x", AbiKind::Uint(64))];
    assert_eq!(parse_params(vec![raw], &schema), Ok(raw.to_string()));
    let empty: Vec<AbiParam> = Vec::new();
    assert_eq!(parse_params(vec![raw], &empty), Ok(raw.to_string()));
}

#[test]
fn coerce_uint_with_token_suffix() {
    let schema = vec![param("amount", AbiKind::Uint(64))];
    let out = parse_params(vec!["--amount", "5T"], &schema).unwrap();
    assert_eq!(out, format!("{{\"amount\":\"{}\"}}", convert_token("5").unwrap()));
}

#[test]
fn coerce_array_with_brackets() {
    let schema = vec![param("ids", AbiKind::Array(Box::new(AbiKind::Uint(8))))];
    let out = parse_params(vec!["--ids", "[1,2,3]"], &schema).unwrap();
    assert_eq!(out, "{\"ids\":[\"1\",\"2\",\"3\"]}");
}

#[test]
fn coerce_array_without_brackets() {
    let schema = vec![param("ids", AbiKind::Array(Box::new(AbiKind::Uint(8))))];
    let out = parse_params(vec!["--ids", "1,2,3"], &schema).unwrap();
    assert_eq!(out, "{\"ids\":[\"1\",\"2\",\"3\"]}");
}

#[test]
fn coerce_array_of_non_integer_passes_through() {
    let schema = vec![param("names", AbiKind::Array(Box::new(AbiKind::Other)))];
    let out = parse_params(vec!["--names", "[a,b]"], &schema).unwrap();
    assert_eq!(out, "{\"names\":\"[a,b]\"}");
}

#[test]
fn coerce_other_kind_passes_through() {
    let schema = vec![param("dest", AbiKind::Other)];
    let out = parse_params(vec!["--dest", "0:abc"], &schema).unwrap();
    assert_eq!(out, "{\"dest\":\"0:abc\"}");
}

#[test]
fn coerce_several_params_in_order() {
    let schema = vec![param("a", AbiKind::Uint(32)), param("b", AbiKind::Other)];
    let out = parse_params(vec!["--b", "two", "--a", "1"], &schema).unwrap();
    assert_eq!(out, "{\"a\":\"1\",\"b\":\"two\"}");
}

#[test]
fn missing_argument() {
    let schema = vec![param("x", AbiKind::Uint(8))];
    assert_eq!(
        parse_params(vec!["--y", "1"], &schema),
        Err(ParamError::MissingArgument("x".to_string(), AbiKind::Uint(8)))
    );
}

#[test]
fn missing_argument_empty_list() {
    let schema = vec![param("x", AbiKind::Other)];
    assert_eq!(
        build_json_from_params(vec![], &schema),
        Err(ParamError::MissingArgument("x".to_string(), AbiKind::Other))
    );
}

#[test]
fn missing_argument_value() {
    let schema = vec![param("x", AbiKind::Int(16))];
    assert_eq!(
        parse_params(vec!["1", "--x"], &schema),
        Err(ParamError::MissingArgumentValue("x".to_string(), AbiKind::Int(16)))
    );
}

#[test]
fn empty_schema_gives_empty_object() {
    let empty: Vec<AbiParam> = Vec::new();
    assert_eq!(parse_params(vec!["a", "b"], &empty), Ok("{}".to_string()));
}

#[test]
fn coerce_escapes_value_text() {
    let schema = vec![param("note", AbiKind::Other)];
    let out = parse_params(vec!["--note", "say \"hi\""], &schema).unwrap();
    assert_eq!(out, "{\"note\":\"say \\\"hi\\\"\"}");
}
