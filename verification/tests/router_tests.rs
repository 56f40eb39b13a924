use rustful::method::Method::{Delete, Get, Head, Post, Put};
use rustful::params::Parameters;
use rustful::router::Router;

fn check(result: Option<(&&'static str, Parameters)>, expected: Option<&str>) {
    assert!(match result {
        Some((result, _)) => match expected {
            Some(expected) => **result == *expected,
            None => false,
        },
        None => expected.is_none(),
    });
}

fn check_variable(result: Option<(&&'static str, Parameters)>, expected: Option<&str>) {
    assert!(match result {
        Some((_, ref variables)) => match expected {
            Some(expected) => {
                let keys = ["a", "b", "c"];
                let values: Vec<String> = keys
                    .iter()
                    .filter_map(|key| variables.get(key).cloned())
                    .collect();
                values.join(", ") == expected
            }
            None => false,
        },
        None => expected.is_none(),
    });
}

fn routes(list: Vec<(rustful::method::Method, &str, &'static str)>) -> Router<&'static str> {
    Router::from_routes(
        list.into_iter()
            .map(|(method, path, item)| (method, path.to_string(), item))
            .collect(),
    )
}

#[test]
fn one_static_route() {
    let router = routes(vec![(Get, "path/to/test1", "test 1")]);

    check(router.find(Get, "path/to/test1"), Some("test 1"));
    check(router.find(Get, "path/to"), None);
    check(router.find(Get, "path/to/test1/nothing"), None);
}

#[test]
fn several_static_routes() {
    let router = routes(vec![
        (Get, "", "test 1"),
        (Get, "path/to/test/no2", "test 2"),
        (Get, "path/to/test1/no/test3", "test 3"),
    ]);

    check(router.find(Get, ""), Some("test 1"));
    check(router.find(Get, "path/to/test/no2"), Some("test 2"));
    check(router.find(Get, "path/to/test1/no/test3"), Some("test 3"));
    check(router.find(Get, "path/to/test1/no"), None);
}

#[test]
fn one_variable_route() {
    let router = routes(vec![(Get, "path/:a/test1", "test_var")]);

    check_variable(router.find(Get, "path/to/test1"), Some("to"));
    check_variable(router.find(Get, "path/to"), None);
    check_variable(router.find(Get, "path/to/test1/nothing"), None);
}

#[test]
fn several_variable_routes() {
    let router = routes(vec![
        (Get, "path/to/test1", "test_var"),
        (Get, "path/:a/test/no2", "test_var"),
        (Get, "path/to/:b/:c/:a", "test_var"),
        (Post, "path/to/:c/:a/:b", "test_var"),
    ]);

    check_variable(router.find(Get, "path/to/test1"), Some(""));
    check_variable(router.find(Get, "path/to/test/no2"), Some("to"));
    check_variable(router.find(Get, "path/to/test1/no/test3"), Some("test3, test1, no"));
    check_variable(router.find(Post, "path/to/test1/no/test3"), Some("no, test3, test1"));
    check_variable(router.find(Get, "path/to/test1/no"), None);
}

#[test]
fn one_wildcard_end_route() {
    let router = routes(vec![(Get, "path/to/*", "test 1")]);

    check(router.find(Get, "path/to/test1"), Some("test 1"));
    check(router.find(Get, "path/to/same/test1"), Some("test 1"));
    check(router.find(Get, "path/to/the/same/test1"), Some("test 1"));
    check(router.find(Get, "path/to"), None);
    check(router.find(Get, "path"), None);
}

#[test]
fn one_wildcard_middle_route() {
    let router = routes(vec![(Get, "path/*/test1", "test 1")]);

    check(router.find(Get, "path/to/test1"), Some("test 1"));
    check(router.find(Get, "path/to/same/test1"), Some("test 1"));
    check(router.find(Get, "path/to/the/same/test1"), Some("test 1"));
    check(router.find(Get, "path/to"), None);
    check(router.find(Get, "path"), None);
}

#[test]
fn one_universal_wildcard_route() {
    let router = routes(vec![(Get, "*", "test 1")]);

    check(router.find(Get, "path/to/test1"), Some("test 1"));
    check(router.find(Get, "path/to/same/test1"), Some("test 1"));
    check(router.find(Get, "path/to/the/same/test1"), Some("test 1"));
    check(router.find(Get, "path/to"), Some("test 1"));
    check(router.find(Get, "path"), Some("test 1"));
    check(router.find(Get, ""), None);
}

#[test]
fn several_wildcards_routes() {
    let router = routes(vec![
        (Get, "path/to/*", "test 1"),
        (Get, "path/*/test/no2", "test 2"),
        (Get, "path/to/*/*/*", "test 3"),
    ]);

    check(router.find(Get, "path/to/test1"), Some("test 1"));
    check(router.find(Get, "path/for/test/no2"), Some("test 2"));
    check(router.find(Get, "path/to/test1/no/test3"), Some("test 3"));
    check(router.find(Get, "path/to/test1/no/test3/again"), Some("test 3"));
    check(router.find(Get, "path/to"), None);
}

#[test]
fn route_formats() {
    let router = routes(vec![
        (Get, "/", "test 1"),
        (Get, "/path/to/test/no2", "test 2"),
        (Get, "path/to/test3/", "test 3"),
        (Get, "/path/to/test3/again/", "test 3"),
    ]);

    check(router.find(Get, ""), Some("test 1"));
    check(router.find(Get, "path/to/test/no2/"), Some("test 2"));
    check(router.find(Get, "path/to/test3"), Some("test 3"));
    check(router.find(Get, "/path/to/test3/again"), Some("test 3"));
    check(router.find(Get, "//path/to/test3"), None);
}

#[test]
fn http_methods() {
    let router = routes(vec![
        (Get, "/", "get"),
        (Post, "/", "post"),
        (Delete, "/", "delete"),
        (Put, "/", "put"),
    ]);

    check(router.find(Get, "/"), Some("get"));
    check(router.find(Post, "/"), Some("post"));
    check(router.find(Delete, "/"), Some("delete"));
    check(router.find(Put, "/"), Some("put"));
    check(router.find(Head, "/"), None);
}

#[test]
fn merge_routers() {
    let mut router1 = routes(vec![
        (Get, "", "test 1"),
        (Get, "path/to/test/no2", "test 2"),
        (Get, "path/to/test1/no/test3", "test 3"),
    ]);

    let router2 = routes(vec![
        (Get, "", "test 1"),
        (Get, "test/no5", "test 5"),
        (Post, "test1/no/test3", "test 3 post"),
    ]);

    router1.insert_router("path/to", router2);

    check(router1.find(Get, ""), Some("test 1"));
    check(router1.find(Get, "path/to/test/no2"), Some("test 2"));
    check(router1.find(Get, "path/to/test1/no/test3"), Some("test 3"));
    check(router1.find(Post, "path/to/test1/no/test3"), Some("test 3 post"));
    check(router1.find(Get, "path/to/test/no5"), Some("test 5"));
    check(router1.find(Get, "path/to"), Some("test 1"));
}

#[test]
fn merge_routers_variables() {
    let mut router1 = routes(vec![(Get, ":a/:b/:c", "test 2")]);
    let router2 = routes(vec![(Get, ":b/:c/test", "test 1")]);

    router1.insert_router(":a", router2);

    check_variable(router1.find(Get, "path/to/test1"), Some("path, to, test1"));
    check_variable(router1.find(Get, "path/to/test1/test"), Some("path, to, test1"));
}

#[test]
fn merge_routers_wildcard() {
    let mut router1 = routes(vec![(Get, "path/to", "test 2")]);
    let router2 = routes(vec![(Get, "*/test1", "test 1")]);

    router1.insert_router("path", router2);

    check(router1.find(Get, "path/to/test1"), Some("test 1"));
    check(router1.find(Get, "path/to/same/test1"), Some("test 1"));
    check(router1.find(Get, "path/to/the/same/test1"), Some("test 1"));
    check(router1.find(Get, "path/to"), Some("test 2"));
    check(router1.find(Get, "path"), None);
}

#[test]
fn variable_binding_value() {
    let router = routes(vec![(Get, "path/:a/test1", "B")]);

    let (item, variables) = router.find(Get, "path/XYZ/test1").unwrap();
    assert_eq!(**item, *"B");
    assert_eq!(variables.get("a"), Some(&"XYZ".to_string()));
    assert_eq!(variables.len(), 1);
}

#[test]
fn universal_wildcard_binds_nothing() {
    let router = routes(vec![(Get, "*", "W")]);

    check(router.find(Get, ""), None);
    let (item, variables) = router.find(Get, "anything/at/all").unwrap();
    assert_eq!(**item, *"W");
    assert_eq!(variables.len(), 0);
}

#[test]
fn insert_item_overwrites_method() {
    let mut router: Router<&'static str> = Router::new();
    router.insert_item(Get, "path/to/test1", "first");
    router.insert_item(Get, "path/to/test1", "second");
    router.insert_item(Post, "path/to/test1", "posted");

    check(router.find(Get, "path/to/test1"), Some("second"));
    check(router.find(Post, "path/to/test1"), Some("posted"));
}

#[test]
fn empty_variable_name_is_allowed() {
    let router = routes(vec![(Get, "path/:", "lenient")]);

    let (item, variables) = router.find(Get, "path/word").unwrap();
    assert_eq!(**item, *"lenient");
    assert_eq!(variables.get(""), Some(&"word".to_string()));
}

#[test]
fn static_beats_variable_and_wildcard() {
    let router = routes(vec![
        (Get, "path/to/test1", "static"),
        (Get, "path/:a/test1", "variable"),
        (Get, "path/*/test1", "wildcard"),
    ]);

    check(router.find(Get, "path/to/test1"), Some("static"));
    check(router.find(Get, "path/other/test1"), Some("variable"));
}
