use rustful::file::Loader;
use rustful::params::{Parameters, ParseError};
use rustful::response::ResponseData;

#[test]
fn parameters_insert_and_get() {
    let mut parameters = Parameters::new();
    assert_eq!(parameters.len(), 0);
    parameters.insert("a".to_string(), "1".to_string());
    parameters.insert("b".to_string(), "2".to_string());
    assert_eq!(parameters.len(), 2);
    assert_eq!(parameters.get("a"), Some(&"1".to_string()));
    assert_eq!(parameters.get("b"), Some(&"2".to_string()));
    assert_eq!(parameters.get("c"), None);

    parameters.insert("a".to_string(), "3".to_string());
    assert_eq!(parameters.len(), 2);
    assert_eq!(parameters.get("a"), Some(&"3".to_string()));
}

#[test]
fn parameters_keep_order() {
    let mut parameters = Parameters::new();
    parameters.insert("b".to_string(), "2".to_string());
    parameters.insert("a".to_string(), "1".to_string());
    parameters.insert("b".to_string(), "3".to_string());
    assert_eq!(parameters.len(), 2);
    assert_eq!(parameters.entry(0), (&"b".to_string(), &"3".to_string()));
    assert_eq!(parameters.entry(1), (&"a".to_string(), &"1".to_string()));
}

#[test]
fn parameters_parse_entries() {
    let mut parameters = Parameters::new();
    parameters.insert("age".to_string(), "42".to_string());
    parameters.insert("word".to_string(), "hello".to_string());

    let age: Result<u32, Option<ParseError>> = parameters.parse("age");
    assert_eq!(age, Ok(42));
    let missing: Result<u32, Option<ParseError>> = parameters.parse("height");
    assert_eq!(missing, Err(None));
    let bad: Result<u32, Option<ParseError>> = parameters.parse("word");
    assert_eq!(bad, Err(Some(ParseError)));
}

#[test]
fn parameters_parse_fallbacks() {
    let mut parameters = Parameters::new();
    parameters.insert("page".to_string(), "7".to_string());

    assert_eq!(parameters.parse_or("page", 0u8), 7);
    assert_eq!(parameters.parse_or("missing", 3u8), 3);
    assert_eq!(parameters.parse_or_else("page", |_| 0u8), 7);
    assert_eq!(parameters.parse_or_else("missing", |e| if e.is_none() { 1u8 } else { 2 }), 1);
}

#[test]
fn response_data_bytes() {
    let data = ResponseData::Bytes(vec![1, 2, 3]);
    assert_eq!(data.as_bytes(), &[1, 2, 3]);
    assert_eq!(data.as_string(), None);
    assert_eq!(data.into_bytes(), vec![1, 2, 3]);

    let bytes = [4u8, 5];
    let data = ResponseData::ByteSlice(&bytes);
    assert_eq!(data.as_bytes(), &[4, 5]);
    assert!(data.into_string().is_none());
}

#[test]
fn response_data_text() {
    let data = ResponseData::Text("hi".to_string());
    assert_eq!(data.as_bytes(), b"hi");
    assert_eq!(data.as_string(), Some("hi"));
    assert_eq!(data.into_string(), Some("hi".to_string()));

    let data = ResponseData::TextSlice("there");
    assert_eq!(data.as_bytes(), b"there");
    assert_eq!(data.into_bytes(), b"there".to_vec());

    let data = ResponseData::TextSlice("copy");
    assert_eq!(data.into_string(), Some("copy".to_string()));
}

#[test]
fn loader_default_chunk_size() {
    let loader = Loader::new();
    assert_eq!(loader.chunk_size, 1048576);
}
