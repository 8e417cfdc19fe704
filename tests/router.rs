use query_router::arg::{ArgType, ArgValue};
use query_router::matcher::Resolved;
use query_router::path::find_next_slash_index;
use query_router::router::{Router, Segment, Target};
use query_router::Error;

fn lit(s: &str) -> Segment {
    Segment::Literal(s.to_string())
}

fn handler(s: &str) -> Target {
    Target::Handler(s.to_string())
}

fn uint() -> Segment {
    Segment::Arg(ArgType::Uint)
}

/// A router with a sub-router under "sub", then the
/// handlers of the root in declaration order.
fn test_rpc() -> Router {
    let mut r = Router::new();
    let sub = r.add_table();
    assert!(r.add_route(0, vec![lit("sub")], Target::Sub(sub)));
    assert!(r.add_route(0, vec![lit("a")], handler("a")));
    assert!(r.add_route(0, vec![lit("b"), lit("0"), lit("i")], handler("b0i")));
    assert!(r.add_route(0, vec![lit("b"), lit("0"), lit("ii")], handler("b0ii")));
    assert!(r.add_route(0, vec![lit("b"), lit("1")], handler("b1")));
    assert!(r.add_route(
        0,
        vec![lit("b"), lit("2"), lit("i"), Segment::CatchAll(ArgType::Uint)],
        handler("b2i")
    ));
    assert!(r.add_route(
        0,
        vec![lit("b"), lit("3"), uint(), uint(), lit("i"), Segment::CatchAll(ArgType::Uint)],
        handler("b3i")
    ));
    assert!(r.add_route(
        0,
        vec![lit("b"), lit("3"), uint(), uint(), Segment::CatchAll(ArgType::Uint)],
        handler("b3")
    ));
    assert!(r.add_route(
        0,
        vec![lit("b"), lit("3"), uint(), uint(), uint(), lit("ii")],
        handler("b3ii")
    ));
    assert!(r.add_route(
        0,
        vec![lit("b"), lit("3"), uint(), uint(), Segment::OptArg(ArgType::Uint), lit("iii")],
        handler("b3iii")
    ));
    assert!(r.add_route(
        0,
        vec![
            lit("b"),
            lit("3"),
            uint(),
            uint(),
            lit("iiii"),
            Segment::OptArg(ArgType::Uint),
            lit("xyz"),
            Segment::OptArg(ArgType::Uint),
        ],
        handler("b3iiii")
    ));
    assert!(r.add_route(sub, vec![lit("x")], handler("x")));
    assert!(r.add_route(sub, vec![lit("y"), Segment::Arg(ArgType::Text)], handler("y")));
    assert!(r.add_route(sub, vec![lit("z"), Segment::Arg(ArgType::Text)], handler("z")));
    r
}

fn arg_text(a: &ArgValue) -> String {
    match a {
        ArgValue::Text(s) => s.clone(),
        ArgValue::Uint(n) => n.to_string(),
    }
}

/// What the test handlers answer: their name, then each argument given.
fn respond(m: &Resolved) -> String {
    let mut data = m.handler.clone();
    for a in m.args.iter().flatten() {
        data = format!("{data}/{}", arg_text(a));
    }
    data
}

/// Builds the path of a handler, requests it, and returns the answer.
fn request(r: &Router, route: &[usize], args: Vec<Option<ArgValue>>) -> String {
    let path = r.path_for(&route.to_vec(), &args);
    let m = r.resolve(&path).unwrap();
    assert_eq!(m.route, route.to_vec());
    assert_eq!(m.args, args);
    respond(&m)
}

fn u(n: u64) -> Option<ArgValue> {
    Some(ArgValue::Uint(n))
}

fn t(s: &str) -> Option<ArgValue> {
    Some(ArgValue::Text(s.to_string()))
}

#[test]
fn test_router_macro() {
    let r = test_rpc();

    let result = r.resolve("/invalid");
    assert!(result.is_err());

    assert_eq!(request(&r, &[1], vec![]), "a");
    assert_eq!(request(&r, &[2], vec![]), "b0i");
    assert_eq!(request(&r, &[3], vec![]), "b0ii");
    assert_eq!(request(&r, &[4], vec![]), "b1");

    let balance = 123_000_000u64;
    assert_eq!(request(&r, &[5], vec![u(balance)]), format!("b2i/{balance}"));

    let (a1, a2, a3) = (345u64, 123_000u64, 1_000_999u64);
    assert_eq!(request(&r, &[7], vec![u(a1), u(a2), u(a3)]), format!("b3/{a1}/{a2}/{a3}"));
    assert_eq!(request(&r, &[6], vec![u(a1), u(a2), u(a3)]), format!("b3i/{a1}/{a2}/{a3}"));
    assert_eq!(request(&r, &[8], vec![u(a1), u(a2), u(a3)]), format!("b3ii/{a1}/{a2}/{a3}"));
    assert_eq!(
        request(&r, &[9], vec![u(a1), u(a2), u(a3)]),
        format!("b3iii/{a1}/{a2}/{a3}")
    );
    assert_eq!(request(&r, &[9], vec![u(a1), u(a2), None]), format!("b3iii/{a1}/{a2}"));
    assert_eq!(
        request(&r, &[10], vec![u(a1), u(a2), u(a3), None]),
        format!("b3iiii/{a1}/{a2}/{a3}")
    );
    let a4 = 10u64;
    assert_eq!(
        request(&r, &[10], vec![u(a1), u(a2), u(a3), u(a4)]),
        format!("b3iiii/{a1}/{a2}/{a3}/{a4}")
    );
    assert_eq!(request(&r, &[10], vec![u(a1), u(a2), None, None]), format!("b3iiii/{a1}/{a2}"));

    assert_eq!(request(&r, &[0, 0], vec![]), format!("x"));
    let arg = "test123";
    assert_eq!(request(&r, &[0, 1], vec![t(arg)]), format!("y/{arg}"));
    let arg = "test321";
    assert_eq!(request(&r, &[0, 2], vec![t(arg)]), format!("z/{arg}"));
}

fn resolve_ok(r: &Router, path: &str) -> Resolved {
    r.resolve(path).unwrap()
}

#[test]
fn literal_scenarios() {
    let r = test_rpc();
    let m = resolve_ok(&r, "/a");
    assert_eq!(m.handler, "a");
    assert_eq!(respond(&m), "a");

    let m = resolve_ok(&r, "/b/0/i");
    assert_eq!(m.handler, "b0i");

    let m = resolve_ok(&r, "/b/2/i/123000000");
    assert_eq!(m.handler, "b2i");
    assert_eq!(m.args, vec![u(123000000)]);

    let m = resolve_ok(&r, "/b/3/345/123000/1000999");
    assert_eq!(m.handler, "b3");
    assert_eq!(m.args, vec![u(345), u(123000), u(1000999)]);

    let m = resolve_ok(&r, "/b/3/345/123000/i/1000999");
    assert_eq!(m.handler, "b3i");
    assert_eq!(m.args, vec![u(345), u(123000), u(1000999)]);

    let m = resolve_ok(&r, "/sub/y/test123");
    assert_eq!(m.handler, "y");
    assert_eq!(m.route, vec![0, 1]);
    assert_eq!(m.args, vec![t("test123")]);

    match r.resolve("/invalid") {
        Err(Error::WrongPath(p)) => assert_eq!(p, "/invalid"),
        Ok(_) => panic!("matched an invalid path"),
    }
}

#[test]
fn paths_built_for_handlers() {
    let r = test_rpc();
    assert_eq!(r.path_for(&vec![1], &vec![]), "/a");
    assert_eq!(r.path_for(&vec![5], &vec![u(7)]), "/b/2/i/7");
    assert_eq!(r.path_for(&vec![9], &vec![u(1), u(2), None]), "/b/3/1/2/iii");
    assert_eq!(r.path_for(&vec![10], &vec![u(1), u(2), None, u(4)]), "/b/3/1/2/iiii/xyz/4");
    assert_eq!(r.path_for(&vec![0, 1], &vec![t("test123")]), "/sub/y/test123");
}

#[test]
fn error_message_names_path() {
    let r = test_rpc();
    let e = r.resolve("/nothing/here").unwrap_err();
    assert_eq!(e.message(), "Found no matching pattern for the given path /nothing/here");
}

#[test]
fn next_slash_index() {
    assert_eq!(find_next_slash_index("/b/3/4", 0), 0);
    assert_eq!(find_next_slash_index("/b/3/4", 1), 2);
    assert_eq!(find_next_slash_index("/b/3/4", 3), 4);
    assert_eq!(find_next_slash_index("/b/3/4", 5), 6);
    assert_eq!(find_next_slash_index("/b/3/4", 6), 6);
    assert_eq!(find_next_slash_index("", 0), 0);
}

#[test]
fn first_declared_pattern_wins() {
    let mut r = Router::new();
    assert!(r.add_route(0, vec![lit("p"), Segment::Arg(ArgType::Text)], handler("text")));
    assert!(r.add_route(0, vec![lit("p"), uint()], handler("number")));
    assert_eq!(resolve_ok(&r, "/p/5").handler, "text");

    let mut r = Router::new();
    assert!(r.add_route(0, vec![lit("p"), uint()], handler("number")));
    assert!(r.add_route(0, vec![lit("p"), Segment::Arg(ArgType::Text)], handler("text")));
    assert_eq!(resolve_ok(&r, "/p/5").handler, "number");
    assert_eq!(resolve_ok(&r, "/p/five").handler, "text");
}

#[test]
fn optional_argument_falls_back() {
    let r = test_rpc();
    // "iii" is no number: the optional argument is absent and "iii" is
    // matched by the literal that follows it
    let m = resolve_ok(&r, "/b/3/1/2/iii");
    assert_eq!(m.handler, "b3iii");
    assert_eq!(m.args, vec![u(1), u(2), None]);
    let m = resolve_ok(&r, "/b/3/1/2/iiii/xyz");
    assert_eq!(m.handler, "b3iiii");
    assert_eq!(m.args, vec![u(1), u(2), None, None]);
    let m = resolve_ok(&r, "/b/3/1/2/iiii/xyz/9");
    assert_eq!(m.args, vec![u(1), u(2), None, u(9)]);
}

#[test]
fn catch_all_keeps_slashes() {
    let mut r = Router::new();
    assert!(r.add_route(0, vec![lit("value"), Segment::CatchAll(ArgType::Text)], handler("value")));
    let m = resolve_ok(&r, "/value/a/b/c");
    assert_eq!(m.args, vec![t("a/b/c")]);
    let m = resolve_ok(&r, "/value/key/");
    assert_eq!(m.args, vec![t("key/")]);
    // a number that runs on past a slash does not parse
    let r = test_rpc();
    assert!(r.resolve("/b/2/i/12/34").is_err());
}

#[test]
fn trailing_slash_is_optional() {
    let r = test_rpc();
    assert_eq!(resolve_ok(&r, "/a/").handler, "a");
    assert_eq!(resolve_ok(&r, "/b/1/").handler, "b1");
    let m = resolve_ok(&r, "/sub/y/abc/");
    assert_eq!(m.args, vec![t("abc")]);
    assert!(r.resolve("/b/1/x/y").is_err());
    assert!(r.resolve("/b/1/x/y/").is_err());
}

#[test]
fn sub_router_sees_rest_of_path() {
    let r = test_rpc();
    let m = resolve_ok(&r, "/sub/x");
    assert_eq!(m.handler, "x");
    assert_eq!(m.route, vec![0, 0]);
    // a failed match inside the sub-router is final
    assert!(r.resolve("/sub/a").is_err());
    assert!(r.resolve("/sub").is_err());
}

#[test]
fn path_must_start_with_slash() {
    let r = test_rpc();
    assert!(r.resolve("a").is_err());
    assert!(r.resolve("").is_err());
    assert!(r.resolve("/").is_err());
}

#[test]
fn unsigned_argument_parsing() {
    let mut r = Router::new();
    assert!(r.add_route(0, vec![lit("n"), uint()], handler("n")));
    assert_eq!(resolve_ok(&r, "/n/0").args, vec![u(0)]);
    assert_eq!(resolve_ok(&r, "/n/+42").args, vec![u(42)]);
    assert_eq!(resolve_ok(&r, "/n/18446744073709551615").args, vec![u(u64::MAX)]);
    assert!(r.resolve("/n/18446744073709551616").is_err());
    assert!(r.resolve("/n/-1").is_err());
    assert!(r.resolve("/n/+").is_err());
    assert!(r.resolve("/n/4x").is_err());
}

#[test]
fn text_arguments_keep_unicode() {
    let r = test_rpc();
    let m = resolve_ok(&r, "/sub/z/héllo");
    assert_eq!(m.args, vec![t("héllo")]);
    assert_eq!(r.path_for(&vec![0, 2], &vec![t("wörld")]), "/sub/z/wörld");
}

#[test]
fn invalid_routes_are_refused() {
    let mut r = Router::new();
    assert!(!r.add_route(0, vec![], handler("empty")));
    assert!(!r.add_route(0, vec![lit("a/b")], handler("slash")));
    assert!(!r.add_route(0, vec![lit("")], handler("blank")));
    assert!(!r.add_route(
        0,
        vec![Segment::CatchAll(ArgType::Text), lit("a")],
        handler("catch_all_first")
    ));
    let sub = r.add_table();
    assert!(!r.add_route(0, vec![lit("s"), uint()], Target::Sub(sub)));
    assert!(!r.add_route(sub, vec![lit("back")], Target::Sub(0)));
    assert!(!r.add_route(0, vec![lit("far")], Target::Sub(7)));
    assert!(r.add_route(0, vec![lit("s")], Target::Sub(sub)));
    assert_eq!(r.tables.len(), 2);
    assert_eq!(r.tables[0].len(), 1);
}

#[test]
fn validity_and_arity() {
    let r = test_rpc();
    assert!(r.is_valid());
    assert_eq!(r.route_arity(&vec![1]), Some(0));
    assert_eq!(r.route_arity(&vec![5]), Some(1));
    assert_eq!(r.route_arity(&vec![10]), Some(4));
    assert_eq!(r.route_arity(&vec![0, 1]), Some(1));
    // a sub-router is no handler, nor is a route that goes past a handler
    assert_eq!(r.route_arity(&vec![0]), None);
    assert_eq!(r.route_arity(&vec![1, 0]), None);
    assert_eq!(r.route_arity(&vec![42]), None);
    assert_eq!(r.route_arity(&vec![]), None);

    let mut broken = test_rpc();
    broken.tables[0].push(query_router::router::Route {
        pattern: vec![lit("back")],
        target: Target::Sub(0),
    });
    assert!(!broken.is_valid());
    let empty = Router { tables: vec![] };
    assert!(!empty.is_valid());
}

#[test]
fn nothing_but_one_slash_may_follow_a_match() {
    let mut r = Router::new();
    assert!(r.add_route(0, vec![lit("a")], handler("a")));
    assert_eq!(resolve_ok(&r, "/a").handler, "a");
    assert_eq!(resolve_ok(&r, "/a/").handler, "a");
    for path in ["/a/x", "/a/xy", "/a//", "/a/x/y"] {
        match r.resolve(path) {
            Err(Error::WrongPath(p)) => assert_eq!(p, path),
            Ok(m) => panic!("{path} matched {}", m.handler),
        }
    }
    let r = test_rpc();
    assert!(r.resolve("/b/1/x").is_err());
    assert!(r.resolve("/sub/x/y").is_err());
    // an absent optional argument consumes nothing, so the last literal
    // still has to end the path
    assert!(r.resolve("/b/3/1/2/iii/z").is_err());
}

#[test]
fn catch_all_sees_trailing_slash() {
    let r = test_rpc();
    assert_eq!(resolve_ok(&r, "/b/2/i/5").args, vec![u(5)]);
    // the catch-all's text is "5/", which is no number
    assert!(r.resolve("/b/2/i/5/").is_err());
}

#[test]
fn rewound_cursor_sees_the_same_segments() {
    // in "/sub/x", the cursor rewound onto offset 4 finds the segment "x"
    // exactly as "/x" alone does
    assert_eq!(find_next_slash_index("/sub/x", 4 + 1), 4 + find_next_slash_index("/x", 1));
    assert_eq!(find_next_slash_index("/sub/x/y", 4 + 3), 4 + find_next_slash_index("/x/y", 3));
}

#[test]
fn round_trip_through_nested_sub_routers() {
    let mut r = Router::new();
    let mid = r.add_table();
    let leaf = r.add_table();
    assert!(r.add_route(0, vec![lit("a")], handler("a")));
    assert!(r.add_route(0, vec![lit("sub")], Target::Sub(mid)));
    assert!(r.add_route(mid, vec![lit("deep"), lit("er")], Target::Sub(leaf)));
    assert!(r.add_route(
        leaf,
        vec![lit("w"), Segment::Arg(ArgType::Text), Segment::OptArg(ArgType::Uint), lit("end")],
        handler("w")
    ));
    let path = r.path_for(&vec![1, 0, 0], &vec![t("v"), u(3)]);
    assert_eq!(path, "/sub/deep/er/w/v/3/end");
    assert_eq!(request(&r, &[1, 0, 0], vec![t("v"), u(3)]), "w/v/3");
    assert_eq!(request(&r, &[1, 0, 0], vec![t("v"), None]), "w/v");
    assert!(r.resolve("/sub/deep/er/w/v/3/end/more").is_err());
}
