use rustful::query::{parse_fragment, parse_parameters, parse_path, url_decode};
use rustful::segment::{path_to_vec, split_string};

#[test]
fn parsing_parameters() {
    let parameters = parse_parameters("a=1&aa=2&ab=202");
    let a = "1".to_string();
    let aa = "2".to_string();
    let ab = "202".to_string();
    assert_eq!(parameters.get("a"), Some(&a));
    assert_eq!(parameters.get("aa"), Some(&aa));
    assert_eq!(parameters.get("ab"), Some(&ab));
}

#[test]
fn parsing_strange_parameters() {
    let parameters = parse_parameters("a=1=2&=2&ab=");
    let a = "1".to_string();
    let aa = "2".to_string();
    let ab = "".to_string();
    assert_eq!(parameters.get("a"), Some(&a));
    assert_eq!(parameters.get(""), Some(&aa));
    assert_eq!(parameters.get("ab"), Some(&ab));
}

#[test]
fn parse_path_parts() {
    let with = "this".to_string();
    let and = "that".to_string();
    let (path, query, fragment) = parse_path("/path/to/something?with=this&and=that#lol");
    assert_eq!(path, "/path/to/something");
    assert_eq!(query.get("with"), Some(&with));
    assert_eq!(query.get("and"), Some(&and));
    assert_eq!(fragment, "lol");
}

#[test]
fn parse_strange_path() {
    let with = "this".to_string();
    let and = "what?".to_string();
    let (path, query, fragment) = parse_path("/path/to/something?with=this&and=what?#");
    assert_eq!(path, "/path/to/something");
    assert_eq!(query.get("with"), Some(&with));
    assert_eq!(query.get("and"), Some(&and));
    assert_eq!(fragment, "");
}

#[test]
fn parse_missing_path_parts() {
    let with = "this".to_string();
    let and = "that".to_string();
    let (path, query, fragment) = parse_path("/path/to/something?with=this&and=that");
    assert_eq!(path, "/path/to/something");
    assert_eq!(query.get("with"), Some(&with));
    assert_eq!(query.get("and"), Some(&and));
    assert_eq!(fragment, "");

    let (path, query, fragment) = parse_path("/path/to/something#lol");
    assert_eq!(path, "/path/to/something");
    assert_eq!(query.len(), 0);
    assert_eq!(fragment, "lol");

    let (path, query, fragment) = parse_path("?with=this&and=that#lol");
    assert_eq!(path, "");
    assert_eq!(query.get("with"), Some(&with));
    assert_eq!(query.get("and"), Some(&and));
    assert_eq!(fragment, "lol");
}

#[test]
fn url_decode_escapes() {
    assert_eq!(url_decode("abc"), "abc");
    assert_eq!(url_decode("a%20b"), "a b");
    assert_eq!(url_decode("%41%42%43"), "ABC");
    assert_eq!(url_decode("100%25"), "100%");
    assert_eq!(url_decode(""), "");
}

#[test]
fn url_decode_keeps_invalid_utf8() {
    assert_eq!(url_decode("%FF"), "%FF");
    assert_eq!(url_decode("a%80b"), "a%80b");
}

#[test]
fn url_decoded_parameters() {
    let parameters = parse_parameters("greeting=hello%20world&sym%3D=eq");
    assert_eq!(parameters.get("greeting"), Some(&"hello world".to_string()));
    assert_eq!(parameters.get("sym="), Some(&"eq".to_string()));
}

#[test]
fn repeated_parameter_keeps_last() {
    let parameters = parse_parameters("a=1&a=2");
    assert_eq!(parameters.get("a"), Some(&"2".to_string()));
    assert_eq!(parameters.len(), 1);
}

#[test]
fn parse_fragment_parts() {
    assert_eq!(parse_fragment("path#frag"), ("path".to_string(), "frag".to_string()));
    assert_eq!(parse_fragment("path"), ("path".to_string(), "".to_string()));
    assert_eq!(parse_fragment("#frag"), ("".to_string(), "frag".to_string()));
}

#[test]
fn path_segments() {
    let empty: Vec<String> = Vec::new();
    assert_eq!(path_to_vec(""), empty);
    assert_eq!(path_to_vec("/"), empty);
    assert_eq!(path_to_vec("a"), vec!["a".to_string()]);
    assert_eq!(path_to_vec("/a/b/"), vec!["a".to_string(), "b".to_string()]);
    assert_eq!(
        path_to_vec("//path/to/test3"),
        vec!["".to_string(), "path".to_string(), "to".to_string(), "test3".to_string()]
    );
}

#[test]
fn split_keeps_empty_pieces() {
    assert_eq!(split_string("", '&'), vec!["".to_string()]);
    assert_eq!(
        split_string("a==b", '='),
        vec!["a".to_string(), "".to_string(), "b".to_string()]
    );
}
