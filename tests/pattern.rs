use web_dispatcher::{is_method_attribute_valid, remove_trailling_slash, split_route, ConfigError, Matcher, Method};

fn pairs(v: &[(&str, &str)]) -> Vec<(String, String)> {
    v.iter().map(|(a, b)| (a.to_string(), b.to_string())).collect()
}

#[test]
fn trailing_slashes_are_removed() {
    assert_eq!(remove_trailling_slash("/a/b//"), "/a/b");
    assert_eq!(remove_trailling_slash("/a/b"), "/a/b");
    assert_eq!(remove_trailling_slash("///"), "");
    assert_eq!(remove_trailling_slash(""), "");
}

#[test]
fn routes_split_on_slashes() {
    assert_eq!(split_route("/a/b"), vec!["", "a", "b"]);
    assert_eq!(split_route("a//b/"), vec!["a", "", "b"]);
    assert_eq!(split_route("a/"), vec!["a"]);
    assert_eq!(split_route("a"), vec!["a"]);
    assert_eq!(split_route("a//"), vec!["a", ""]);
    assert_eq!(split_route("/"), vec![""]);
    assert_eq!(split_route(""), Vec::<String>::new());
}

#[test]
fn one_trailing_slash_leaves_the_segments_unchanged() {
    for s in ["/a/b", "x", "/hello/blah/main"] {
        assert_eq!(split_route(&format!("{}/", s)), split_route(s));
    }
}

#[test]
fn root_template_matches_root_and_empty_path() {
    let m = Matcher::compile("/").unwrap();
    assert_eq!(m.match_path("/"), Some(vec![]));
    assert_eq!(m.match_path(""), Some(vec![]));
    assert_eq!(m.match_path("/a"), None);
}

#[test]
fn variables_capture_in_template_order() {
    let m = Matcher::compile("/:first/x/{second}/*/:third").unwrap();
    assert_eq!(m.variable_names(), &vec!["first".to_string(), "second".to_string(), "third".to_string()]);
    let caps = m.match_path("/1/x/2/any/3").unwrap();
    assert_eq!(caps, pairs(&[("first", "1"), ("second", "2"), ("third", "3")]));
}

#[test]
fn template_without_variables_captures_nothing() {
    let m = Matcher::compile("/plain/path/").unwrap();
    assert_eq!(m.variable_names().len(), 0);
    assert_eq!(m.match_path("/plain/path"), Some(vec![]));
    assert_eq!(m.match_path("/plain/other"), None);
}

#[test]
fn strange_route_captures_age() {
    let m = Matcher::compile("/some/*/strange/:age/route").unwrap();
    assert_eq!(m.match_path("/some/really/strange/42/route"), Some(pairs(&[("age", "42")])));
}

#[test]
fn trailing_slash_matching_is_symmetric() {
    let m = Matcher::compile("/hello/:my_var/main/").unwrap();
    let a = m.match_path("/hello/blah/main");
    let b = m.match_path("/hello/blah/main/");
    assert_eq!(a, Some(pairs(&[("my_var", "blah")])));
    assert_eq!(a, b);
}

#[test]
fn bad_templates_do_not_compile() {
    assert!(matches!(Matcher::compile("/a/:"), Err(ConfigError::InvalidTemplate(t)) if t == "/a/:"));
    assert!(Matcher::compile("/a/{b}c").is_err());
    assert!(Matcher::compile("/a/*b").is_err());
    assert!(Matcher::compile("/a/:b/{c-d_e9}").is_ok());
}

#[test]
fn methods_parse_case_insensitively() {
    assert_eq!(Method::from_name("get"), Some(Method::Get));
    assert_eq!(Method::from_name("PoSt"), Some(Method::Post));
    assert_eq!(Method::from_name("HEAD"), Some(Method::Head));
    assert_eq!(Method::from_name("put"), Some(Method::Put));
    assert_eq!(Method::from_name("Delete"), Some(Method::Delete));
    assert_eq!(Method::from_name("connect"), Some(Method::Connect));
    assert_eq!(Method::from_name("PATCH"), None);
    assert_eq!(Method::from_name("GE"), None);
    assert_eq!(Method::from_name("GET "), None);
    assert!(is_method_attribute_valid("post"));
    assert!(!is_method_attribute_valid("options"));
    assert_eq!(Method::Delete.name(), "DELETE");
}
