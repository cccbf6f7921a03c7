use web_dispatcher::{ConfigError, Dispatcher, Dummy, DummyProducer, Method, Params, Producer, Resp};

type Handler = fn(Params, Dummy) -> Resp<Params>;
type Table = Dispatcher<Handler, DummyProducer>;

fn echo(p: Params, _: Dummy) -> Resp<Params> {
    Resp::Filled(p)
}

fn tagged(tag: &str, p: Params) -> Resp<Params> {
    let mut p = p;
    p.insert("handler".to_string(), tag.to_string());
    Resp::Filled(p)
}

fn first(p: Params, _: Dummy) -> Resp<Params> {
    tagged("first", p)
}

fn second(p: Params, _: Dummy) -> Resp<Params> {
    tagged("second", p)
}

fn literal(p: Params, _: Dummy) -> Resp<Params> {
    tagged("literal", p)
}

fn variable(p: Params, _: Dummy) -> Resp<Params> {
    tagged("variable", p)
}

fn wildcard(p: Params, _: Dummy) -> Resp<Params> {
    tagged("wildcard", p)
}

fn nothing(_: Params, _: Dummy) -> Resp<Params> {
    Resp::NoResp
}

fn failing(_: Params, _: Dummy) -> Resp<Params> {
    Resp::InternalError("boom".to_string())
}

fn empty_table() -> Table {
    Dispatcher::with_producer(DummyProducer)
}

fn params(pairs: &[(&str, &str)]) -> Params {
    let mut p = Params::new();
    for (k, v) in pairs {
        p.insert(k.to_string(), v.to_string());
    }
    p
}

fn filled(r: Resp<Params>) -> Params {
    assert!(r.is_success());
    r.unwrap()
}

fn text(p: &Params, name: &str) -> Option<String> {
    p.to_string(name)
}

#[test]
fn wildcard_and_variable_route_merges_caller_params() {
    let mut d = empty_table();
    d.add(echo, "/some/*/strange/:age/route", Method::Get).unwrap();
    let out = filled(d.run("/some/really/strange/42/route", params(&[("name", "Paul")])));
    assert_eq!(out.len(), 2);
    assert_eq!(text(&out, "age"), Some("42".to_string()));
    assert_eq!(text(&out, "name"), Some("Paul".to_string()));
    assert_eq!(out.to_int("age"), Some(42));
}

#[test]
fn trailing_slash_on_path_or_template_is_ignored() {
    let mut d = empty_table();
    d.add(echo, "/hello/:my_var/main/", Method::Get).unwrap();
    let a = filled(d.run("/hello/blah/main", Params::new()));
    let b = filled(d.run("/hello/blah/main/", Params::new()));
    assert_eq!(a.len(), 1);
    assert_eq!(b.len(), 1);
    assert_eq!(text(&a, "my_var"), Some("blah".to_string()));
    assert_eq!(text(&b, "my_var"), Some("blah".to_string()));
}

#[test]
fn earlier_registration_wins_among_patterns() {
    let mut d = empty_table();
    d.add(variable, "/a/:x", Method::Get).unwrap();
    d.add(wildcard, "/a/*", Method::Get).unwrap();
    let out = filled(d.run("/a/b", Params::new()));
    assert_eq!(text(&out, "handler"), Some("variable".to_string()));
    assert_eq!(text(&out, "x"), Some("b".to_string()));

    let mut d = empty_table();
    d.add(wildcard, "/a/*", Method::Get).unwrap();
    d.add(variable, "/a/:x", Method::Get).unwrap();
    let out = filled(d.run("/a/b", Params::new()));
    assert_eq!(text(&out, "handler"), Some("wildcard".to_string()));
    assert_eq!(text(&out, "x"), None);
}

#[test]
fn literal_registered_first_wins_over_later_variable() {
    let mut d = empty_table();
    d.add(literal, "/a/b", Method::Get).unwrap();
    d.add(variable, "/a/:x", Method::Get).unwrap();
    let out = filled(d.run("/a/b", Params::new()));
    assert_eq!(text(&out, "handler"), Some("literal".to_string()));
    let out = filled(d.run("/a/c", Params::new()));
    assert_eq!(text(&out, "handler"), Some("variable".to_string()));
    assert_eq!(text(&out, "x"), Some("c".to_string()));
}

#[test]
fn exact_lookup_comes_before_the_pattern_scan() {
    let mut d = empty_table();
    d.add(variable, "/a/:x", Method::Get).unwrap();
    d.add(literal, "/a/b", Method::Get).unwrap();
    let out = filled(d.run("/a/b", Params::new()));
    assert_eq!(text(&out, "handler"), Some("literal".to_string()));
    assert_eq!(text(&out, "x"), None);
}

#[test]
fn unregistered_path_is_a_routing_error_naming_it() {
    let mut d = empty_table();
    d.add(echo, "/known", Method::Get).unwrap();
    match d.run("/unknown/path", Params::new()) {
        Resp::RoutingError(msg) => {
            assert!(msg.contains("/unknown/path"));
            assert_eq!(msg, "route: /unknown/path, method: GET, don't exist");
        }
        _ => panic!("expected a routing error"),
    }
    let r = d.run_with_method("/known", Params::new(), Method::Post);
    assert!(!r.is_success());
    match r {
        Resp::RoutingError(msg) => assert_eq!(msg, "route: /known, method: POST, don't exist"),
        _ => panic!("expected a routing error"),
    }
}

#[test]
fn empty_table_routes_nothing() {
    let d = empty_table();
    assert!(matches!(d.run("/", Params::new()), Resp::RoutingError(_)));
    assert!(matches!(d.run("", Params::new()), Resp::RoutingError(_)));
}

#[test]
fn identical_runs_resolve_identically() {
    let mut d = empty_table();
    d.add(first, "/x/:a/*", Method::Get).unwrap();
    d.add(second, "/x/:b/c", Method::Get).unwrap();
    let a = d.resolve("/x/1/c", Method::Get, params(&[("k", "v")])).unwrap();
    let b = d.resolve("/x/1/c", Method::Get, params(&[("k", "v")])).unwrap();
    assert_eq!(a.0, b.0);
    assert_eq!(a.0, 0);
    assert_eq!(a.1.len(), b.1.len());
    assert_eq!(text(&a.1, "a"), text(&b.1, "a"));
    assert_eq!(text(&a.1, "k"), text(&b.1, "k"));
    let ra = filled(d.run("/x/1/c", Params::new()));
    let rb = filled(d.run("/x/1/c", Params::new()));
    assert_eq!(text(&ra, "handler"), text(&rb, "handler"));
    assert_eq!(text(&ra, "a"), Some("1".to_string()));
}

#[test]
fn exact_lookup_finds_route_among_many() {
    let mut d = empty_table();
    for i in 0..200 {
        let path = format!("/r{}/leaf", i);
        d.add(first, &path, Method::Get).unwrap();
    }
    d.add(second, "/target/leaf", Method::Get).unwrap();
    assert_eq!(d.lookup_exact("/target/leaf", Method::Get), Some(200));
    assert_eq!(d.lookup_exact("/target/leaf/", Method::Get), Some(200));
    assert_eq!(d.lookup_exact("/target/leaf", Method::Put), None);
    assert_eq!(d.lookup_exact("/r7/leaf", Method::Get), Some(7));
    let out = filled(d.run("/target/leaf", Params::new()));
    assert_eq!(text(&out, "handler"), Some("second".to_string()));
}

#[test]
fn exact_hit_passes_params_unchanged() {
    let mut d = empty_table();
    d.add(echo, "/a/:x", Method::Get).unwrap();
    let out = filled(d.run("/a/:x", params(&[("q", "1")])));
    assert_eq!(out.len(), 1);
    assert_eq!(text(&out, "x"), None);
    assert_eq!(text(&out, "q"), Some("1".to_string()));
}

#[test]
fn caller_params_win_over_captured_variables() {
    let mut d = empty_table();
    d.add(echo, "/user/:name", Method::Get).unwrap();
    let out = filled(d.run("/user/jon", params(&[("name", "Paul")])));
    assert_eq!(out.len(), 1);
    assert_eq!(text(&out, "name"), Some("Paul".to_string()));
}

#[test]
fn brace_variables_capture_like_colon_variables() {
    let mut d = empty_table();
    d.add(echo, "/home/{my_var}/account", Method::Get).unwrap();
    let out = filled(d.run("/home/abc/account", Params::new()));
    assert_eq!(text(&out, "my_var"), Some("abc".to_string()));
}

#[test]
fn wildcard_rejects_characters_outside_its_charset() {
    let mut d = empty_table();
    d.add(echo, "/w/*/end", Method::Get).unwrap();
    assert!(d.run("/w/ok-value_1/end", Params::new()).is_success());
    assert!(matches!(d.run("/w/not.ok/end", Params::new()), Resp::RoutingError(_)));
    assert!(matches!(d.run("/w/a/b/end", Params::new()), Resp::RoutingError(_)));
}

#[test]
fn segment_count_must_agree() {
    let mut d = empty_table();
    d.add(echo, "/a/:x", Method::Get).unwrap();
    assert!(matches!(d.run("/a", Params::new()), Resp::RoutingError(_)));
    assert!(matches!(d.run("/a/b/c", Params::new()), Resp::RoutingError(_)));
}

#[test]
fn methods_are_routed_separately() {
    let mut d = empty_table();
    d.add(first, "/m", Method::Get).unwrap();
    d.add(second, "/m", Method::Post).unwrap();
    let g = filled(d.run_with_method("/m", Params::new(), Method::Get));
    let p = filled(d.run_with_method("/m", Params::new(), Method::Post));
    assert_eq!(text(&g, "handler"), Some("first".to_string()));
    assert_eq!(text(&p, "handler"), Some("second".to_string()));
    assert_eq!(d.candidates(Method::Post), vec![1]);
    assert_eq!(d.candidates(Method::Get), vec![0]);
    assert_eq!(d.candidates(Method::Head), Vec::<usize>::new());
}

#[test]
fn reregistration_replaces_the_handler_in_place() {
    let mut d = empty_table();
    d.add(first, "/dup/", Method::Get).unwrap();
    d.add(echo, "/other", Method::Get).unwrap();
    d.add(second, "/dup", Method::Get).unwrap();
    assert_eq!(d.lookup_exact("/dup", Method::Get), Some(0));
    assert_eq!(d.candidates(Method::Get), vec![0, 1]);
    let out = filled(d.run("/dup", Params::new()));
    assert_eq!(text(&out, "handler"), Some("second".to_string()));
}

#[test]
fn handler_results_pass_through() {
    let mut d = empty_table();
    d.add(nothing, "/none", Method::Get).unwrap();
    d.add(failing, "/fail", Method::Get).unwrap();
    let n = d.run("/none", Params::new());
    assert!(n.is_success());
    assert!(matches!(n, Resp::NoResp));
    let f = d.run("/fail", Params::new());
    assert!(!f.is_success());
    match f {
        Resp::InternalError(e) => assert_eq!(e, "boom"),
        _ => panic!("expected the handler's error"),
    }
}

#[test]
fn invalid_templates_are_rejected_at_registration() {
    let mut d = empty_table();
    for bad in ["/a/:", "/a/{}", "/a/{x", "/a/b*", "/a/:x.y", "/a/x:y", "/a/**"] {
        assert!(matches!(d.add(echo, bad, Method::Get), Err(ConfigError::InvalidTemplate(_))), "{}", bad);
    }
    assert_eq!(d.candidates(Method::Get), Vec::<usize>::new());
}

#[test]
fn new_registers_descriptors_in_order() {
    let routes: Vec<(Handler, &str, &str, Vec<&str>)> = vec![
        (variable as Handler, "/a/:x", "get", vec!["x"]),
        (wildcard as Handler, "/a/*", "GET", vec![]),
        (literal as Handler, "/p", "Post", vec![]),
    ];
    let (d, errors): (Table, _) = Dispatcher::new(&routes);
    assert!(errors.is_empty());
    assert_eq!(d.candidates(Method::Get), vec![0, 1]);
    assert_eq!(d.candidates(Method::Post), vec![2]);
    let out = filled(d.run("/a/z", Params::new()));
    assert_eq!(text(&out, "handler"), Some("variable".to_string()));
    assert_eq!(d.describe(), "Dispatcher {\n  GET /a/:x\n  GET /a/*\n  POST /p\n}\n");
}

#[test]
fn new_skips_bad_descriptors_and_reports_each() {
    let routes: Vec<(Handler, &str, &str, Vec<&str>)> = vec![
        (first as Handler, "/ok", "GET", vec![]),
        (echo as Handler, "/x", "PATCH", vec![]),
        (echo as Handler, "/x/:", "GET", vec![]),
        (second as Handler, "/later/:id", "get", vec!["id"]),
        (echo as Handler, "/x/:a/:b", "GET", vec!["b", "a"]),
    ];
    let (d, errors): (Table, _) = Dispatcher::new(&routes);
    assert_eq!(errors.len(), 3);
    assert!(matches!(&errors[0], (1, ConfigError::UnknownMethod(m)) if m == "PATCH"));
    assert!(matches!(&errors[1], (2, ConfigError::InvalidTemplate(_))));
    assert!(matches!(&errors[2], (4, ConfigError::VariableMismatch(t)) if t == "/x/:a/:b"));
    assert_eq!(d.candidates(Method::Get), vec![0, 1]);
    assert_eq!(d.describe(), "Dispatcher {\n  GET /ok\n  GET /later/:id\n}\n");
    let out = filled(d.run("/later/7", Params::new()));
    assert_eq!(text(&out, "handler"), Some("second".to_string()));
    assert_eq!(out.to_int("id"), Some(7));
    assert!(filled(d.run("/ok", Params::new())).len() == 1);
}

#[test]
fn new_with_duplicate_descriptors_keeps_the_last_handler() {
    let routes: Vec<(Handler, &str, &str, Vec<&str>)> =
        vec![(first as Handler, "/d", "GET", vec![]), (second as Handler, "/d/", "GET", vec![])];
    let (d, errors): (Table, _) = Dispatcher::new(&routes);
    assert!(errors.is_empty());
    assert_eq!(d.candidates(Method::Get), vec![0]);
    let out = filled(d.run("/d", Params::new()));
    assert_eq!(text(&out, "handler"), Some("second".to_string()));
}

#[test]
fn set_producer_keeps_the_routes() {
    let mut d = empty_table();
    d.add(echo, "/k", Method::Get).unwrap();
    d.set_producer(DummyProducer);
    assert_eq!(d.lookup_exact("/k", Method::Get), Some(0));
    let _: Dummy = DummyProducer.get_new();
}

#[test]
fn describe_lists_routes() {
    let mut d = empty_table();
    assert_eq!(d.describe(), "Dispatcher {\n}\n");
    d.add(echo, "/add/*/route/:user/blah/", Method::Get).unwrap();
    assert_eq!(d.describe(), "Dispatcher {\n  GET /add/*/route/:user/blah\n}\n");
}

struct Counter(u32);

impl Producer<u32> for Counter {
    fn get_new(&self) -> u32 {
        self.0
    }
}

fn context_echo(_: Params, c: u32) -> Resp<u32> {
    Resp::Filled(c)
}

#[test]
fn custom_producer_supplies_the_context() {
    let mut d: Dispatcher<fn(Params, u32) -> Resp<u32>, Counter> = Dispatcher::with_producer(Counter(7));
    d.add(context_echo, "/c", Method::Get).unwrap();
    assert_eq!(d.run("/c", Params::new()).unwrap(), 7);
    d.set_producer(Counter(9));
    assert_eq!(d.run("/c", Params::new()).unwrap(), 9);
}
