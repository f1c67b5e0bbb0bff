use indexmap::IndexMap;
use seed_routing::codec::{Codec, ParseError};
use seed_routing::guard::{GuardOutcome, ViewTarget};
use seed_routing::route::Route;
use seed_routing::router::{MoveStatus, Router};
use seed_routing::schema::{DefaultRoute, Schema, SchemaError, Shape, Variant};

const LOGIN: usize = 0;
const REGISTER: usize = 1;
const STUFF: usize = 2;
const DASHBOARD: usize = 3;
const ADMIN: usize = 4;
const PROFILE: usize = 5;
const OTHER: usize = 6;
const NOT_FOUND: usize = 7;
const HOME: usize = 8;
const DASH_ROOT: usize = 3;
const DASH_PROFILE: usize = 2;

fn payload(id: bool, query: bool, children: Option<usize>) -> Shape {
    Shape::Payload { id, query, children }
}

fn example_codec() -> Codec {
    let root = Schema::new(
        "ExampleRoutes",
        vec![
            Variant::new("Login", Shape::Leaf),
            Variant::new("Register", Shape::Leaf),
            Variant::new("Stuff", Shape::Leaf),
            Variant::new("Dashboard", Shape::Nested(1)),
            Variant::new("Admin", payload(false, true, None)).with_guard("user", "admin_guard", "forbidden"),
            Variant::new("Profile", payload(true, false, None)),
            Variant::new("Other", payload(true, false, Some(3))),
            Variant::new("NotFound", Shape::Leaf).as_default(),
            Variant::new("Home", Shape::Leaf).with_path("").with_local_view("home_view", "home"),
        ],
    )
    .unwrap();
    let dashboard = Schema::new(
        "DashboardRoutes",
        vec![
            Variant::new("Admin", Shape::Nested(2)),
            Variant::new("Stuff", payload(true, false, None)).with_path("my_stuff"),
            Variant::new("Profile", Shape::Number),
            Variant::new("Root", Shape::Leaf).with_path("").as_default(),
        ],
    )
    .unwrap();
    let admin = Schema::new(
        "DashboardAdminRoutes",
        vec![
            Variant::new("Other", Shape::Leaf),
            Variant::new("Root", Shape::Leaf).with_path("").as_default(),
        ],
    )
    .unwrap();
    let settings = Schema::new(
        "Settings",
        vec![
            Variant::new("Api", Shape::Nested(4)),
            Variant::new("Projects", payload(true, true, Some(4))),
            Variant::new("Root", Shape::Leaf).with_path("").as_default(),
        ],
    )
    .unwrap();
    let apis = Schema::new(
        "Apis",
        vec![
            Variant::new("Facebook", Shape::Leaf).as_default(),
            Variant::new("Google", Shape::Leaf),
        ],
    )
    .unwrap();
    Codec::new(vec![root, dashboard, admin, settings, apis], 0).unwrap()
}

fn leaf(variant: usize) -> Route {
    Route { variant, id: None, query: None, children: None, number: None }
}

fn nested(variant: usize, child: Route) -> Route {
    Route { variant, id: None, query: None, children: Some(Box::new(child)), number: None }
}

fn query_of(pairs: &[(&str, &str)]) -> IndexMap<String, String> {
    let mut q = IndexMap::new();
    for (k, v) in pairs {
        q.insert(k.to_string(), v.to_string());
    }
    q
}

fn admin_route(pairs: &[(&str, &str)]) -> Route {
    Route { variant: ADMIN, id: None, query: Some(query_of(pairs)), children: None, number: None }
}

fn profile_route(id: &str) -> Route {
    Route { variant: PROFILE, id: Some(id.to_string()), query: None, children: None, number: None }
}

fn new_router() -> Router<u32> {
    Router::new(example_codec())
}

#[test]
fn encode_and_decode_admin_query() {
    let codec = example_codec();
    let route = admin_route(&[("user", "arn")]);
    assert_eq!(codec.as_path(&route), "/admin?user=arn");
    assert_eq!(codec.parse_path("/admin?user=arn").unwrap(), route);
}

#[test]
fn decode_profile_id() {
    let codec = example_codec();
    assert_eq!(codec.parse_path("/profile/1").unwrap(), profile_route("1"));
    assert_eq!(codec.as_path(&profile_route("1")), "/profile/1");
}

#[test]
fn unknown_path_falls_back_to_default() {
    let codec = example_codec();
    assert!(codec.parse_path("/totally/unknown").is_err());
    let mut router = new_router();
    router.navigate_to_url("/totally/unknown");
    assert_eq!(router.current_route(), leaf(NOT_FOUND));
    assert_eq!(router.current_route(), router.default_route());
    assert_eq!(router.history_routes().len(), 1);
}

#[test]
fn init_then_navigate_back_and_forward() {
    let router = new_router().init("/login");
    let mut router = router;
    assert_eq!(router.current_route(), leaf(LOGIN));
    assert_eq!(router.history_routes(), &vec![leaf(LOGIN)]);
    assert_eq!(router.current_history_index(), 0);

    router.navigate_to_new(leaf(HOME));
    assert_eq!(router.history_routes(), &vec![leaf(LOGIN), leaf(HOME)]);
    assert_eq!(router.current_history_index(), 1);

    assert_eq!(router.back(), Some(leaf(LOGIN)));
    assert_eq!(router.current_history_index(), 0);

    assert_eq!(router.forward(), Some(leaf(HOME)));
    assert_eq!(router.current_history_index(), 1);
}

#[test]
fn guard_outcomes_select_views() {
    let codec = example_codec();
    let admin = admin_route(&[]);
    let redirect = ViewTarget::Redirect("forbidden".to_string());
    assert_eq!(codec.view_target(&admin, GuardOutcome::Unknown), redirect);
    assert_eq!(codec.view_target(&admin, GuardOutcome::Deny), redirect);
    assert_eq!(codec.view_target(&admin, GuardOutcome::Allow), ViewTarget::Module("admin".to_string()));
    assert_eq!(GuardOutcome::from_option(None), GuardOutcome::Unknown);
    assert_eq!(GuardOutcome::from_option(Some(false)), GuardOutcome::Deny);
    assert_eq!(GuardOutcome::from_option(Some(true)), GuardOutcome::Allow);
    let guard = codec.guard_for(&admin).unwrap();
    assert_eq!(guard.accessor, "user");
    assert_eq!(guard.guard_fn, "admin_guard");
    assert_eq!(guard.redirect_view, "forbidden");
    assert!(codec.guard_for(&leaf(LOGIN)).is_none());
}

#[test]
fn unguarded_views_ignore_the_outcome() {
    let codec = example_codec();
    assert_eq!(
        codec.view_target(&leaf(HOME), GuardOutcome::Deny),
        ViewTarget::Local { view: "home_view".to_string(), state: "home".to_string() }
    );
    assert_eq!(
        codec.view_target(&leaf(NOT_FOUND), GuardOutcome::Unknown),
        ViewTarget::Module("not_found".to_string())
    );
}

#[test]
fn default_segment_is_snake_case() {
    let v = Variant::new("FizzBuzz", Shape::Leaf);
    assert_eq!(v.segment, Some("fizz_buzz".to_string()));
    assert_eq!(v.module, "fizz_buzz");
    assert!(!v.is_default());
    assert!(v.as_default().is_default());
    let renamed = Variant::new("Things", Shape::Leaf).with_path("foobar");
    assert_eq!(renamed.segment, Some("foobar".to_string()));
    assert_eq!(example_codec().as_path(&leaf(NOT_FOUND)), "/not_found");
}

#[test]
fn schema_rules() {
    let err = Schema::new(
        "S",
        vec![
            Variant::new("Home", Shape::Leaf).with_path(""),
            Variant::new("Login", Shape::Leaf).as_default(),
        ],
    );
    assert_eq!(err.unwrap_err(), SchemaError::PathLessNotLast);
    let err = Schema::new("S", vec![Variant::new("Login", Shape::Leaf)]);
    assert_eq!(err.unwrap_err(), SchemaError::NoDefault);
    let err = Schema::new(
        "S",
        vec![
            Variant::new("Login", Shape::Leaf).as_default(),
            Variant::new("Other", Shape::Leaf).as_default(),
        ],
    );
    assert_eq!(err.unwrap_err(), SchemaError::MultipleDefaults);
    let err = Schema::new(
        "S",
        vec![
            Variant::new("Login", Shape::Leaf).as_default(),
            Variant::new("Other", Shape::Leaf).with_path("login"),
        ],
    );
    assert_eq!(err.unwrap_err(), SchemaError::DuplicatePath);
    let err = Schema::new(
        "S",
        vec![Variant::new("Profile", payload(true, false, None)).as_default()],
    );
    assert_eq!(err.unwrap_err(), SchemaError::DefaultWithPayload);
    let err = Schema::new(
        "S",
        vec![Variant::new("Login", Shape::Leaf).with_path("a/b").as_default()],
    );
    assert_eq!(err.unwrap_err(), SchemaError::SlashInPath);
}

#[test]
fn codec_rules() {
    let s = Schema::new(
        "S",
        vec![
            Variant::new("Login", Shape::Nested(0)),
            Variant::new("NotFound", Shape::Leaf).as_default(),
        ],
    )
    .unwrap();
    assert_eq!(Codec::new(vec![s.clone()], 0).err(), Some(SchemaError::UnknownSchema));
    let t = Schema::new("T", vec![Variant::new("NotFound", Shape::Leaf).as_default()]).unwrap();
    assert_eq!(Codec::new(vec![t], 1).err(), Some(SchemaError::UnknownSchema));
}

#[test]
fn nested_routes_round_trip() {
    let codec = example_codec();
    let admin_other = nested(DASHBOARD, nested(0, leaf(0)));
    assert_eq!(codec.as_path(&admin_other), "/dashboard/admin/other");
    assert_eq!(codec.parse_path("/dashboard/admin/other").unwrap(), admin_other);
    let dash_root = nested(DASHBOARD, leaf(DASH_ROOT));
    assert_eq!(codec.as_path(&dash_root), "/dashboard");
    assert_eq!(codec.parse_path("/dashboard/").unwrap(), dash_root);
    let stuff = nested(
        DASHBOARD,
        Route { variant: 1, id: Some("123".to_string()), query: None, children: None, number: None },
    );
    assert_eq!(codec.as_path(&stuff), "/dashboard/my_stuff/123");
    assert_eq!(codec.parse_path("/dashboard/my_stuff/123").unwrap(), stuff);
}

#[test]
fn payload_with_children_and_query() {
    let codec = example_codec();
    let api = Route {
        variant: OTHER,
        id: Some("2".to_string()),
        query: None,
        children: Some(Box::new(nested(0, leaf(0)))),
        number: None,
    };
    assert!(codec.fits(&api));
    assert_eq!(codec.as_path(&api), "/other/2/api/facebook");
    assert_eq!(codec.parse_path("/other/2/api/facebook").unwrap(), api);

    let projects = |pairs: &[(&str, &str)]| Route {
        variant: OTHER,
        id: Some("2".to_string()),
        query: None,
        children: Some(Box::new(Route {
            variant: 1,
            id: Some("14".to_string()),
            query: Some(query_of(pairs)),
            children: Some(Box::new(leaf(0))),
            number: None,
        })),
        number: None,
    };
    let quiet = projects(&[]);
    assert_eq!(codec.as_path(&quiet), "/other/2/projects/14/facebook?");
    assert_eq!(codec.parse_path("/other/2/projects/14/facebook?").unwrap(), quiet);

    // A nested route reads its input up to the first `?`, so a query below the
    // top level does not come back.
    let loud = projects(&[("user", "arn")]);
    assert_eq!(codec.as_path(&loud), "/other/2/projects/14/facebook?user=arn");
    assert_eq!(codec.parse_path("/other/2/projects/14/facebook?user=arn").unwrap(), quiet);

    let missing_child =
        Route { variant: OTHER, id: Some("2".to_string()), query: None, children: None, number: None };
    assert!(!codec.fits(&missing_child));
}

#[test]
fn decode_errors_name_each_schema() {
    let codec = example_codec();
    match codec.parse_path("/dashboard/admin/nothing") {
        Err(ParseError::By(outer, inner)) => {
            assert_eq!(outer, "ExampleRoutes");
            match *inner {
                ParseError::By(mid, inner) => {
                    assert_eq!(mid, "DashboardRoutes");
                    match *inner {
                        ParseError::By(last, reason) => {
                            assert_eq!(last, "DashboardAdminRoutes");
                            assert!(matches!(*reason, ParseError::RemainingSegments));
                        }
                        _ => panic!("expected the admin schema"),
                    }
                }
                _ => panic!("expected the dashboard schema"),
            }
        }
        _ => panic!("expected an error"),
    }
    let apis_only = Codec::new(
        vec![Schema::new("Apis", vec![Variant::new("Google", Shape::Leaf).as_default()]).unwrap()],
        0,
    )
    .unwrap();
    match apis_only.parse_path("/facebook") {
        Err(ParseError::By(name, reason)) => {
            assert_eq!(name, "Apis");
            assert!(matches!(*reason, ParseError::NoMatch));
        }
        _ => panic!("expected no match"),
    }
}

#[test]
fn empty_query_and_bare_question_mark() {
    let codec = example_codec();
    assert_eq!(codec.as_path(&admin_route(&[])), "/admin?");
    assert_eq!(codec.parse_path("/admin?").unwrap(), admin_route(&[]));
    assert_eq!(codec.parse_path("/admin").unwrap(), admin_route(&[]));
    let three = admin_route(&[("user", "arn"), ("role", "baby_programmer"), ("location", "norway")]);
    assert_eq!(codec.as_path(&three), "/admin?user=arn&role=baby_programmer&location=norway");
    assert_eq!(codec.parse_path("/admin?user=arn&role=baby_programmer&location=norway").unwrap(), three);
}

#[test]
fn new_router_state() {
    let router = new_router();
    assert_eq!(router.current_route(), router.default_route());
    assert_eq!(router.current_route(), leaf(NOT_FOUND));
    assert_eq!(router.current_history_index(), 0);
    assert!(router.history_routes().is_empty());
    assert_eq!(router.current_move(), MoveStatus::Ready);
    assert!(!router.is_on_last_index());
    assert!(!router.is_on_first_index());
    assert_eq!(router.base_url(), "");
}

#[test]
fn init_sets_base_url() {
    let router = new_router().init("http://localhost/profile/7");
    assert_eq!(router.base_url(), "http://localhost");
    assert_eq!(router.current_route(), profile_route("7"));
    let router = new_router().init("http://localhost/nowhere");
    assert_eq!(router.current_route(), leaf(NOT_FOUND));
    assert!(router.is_on_last_index());
}

#[test]
fn peeks_at_the_edges() {
    let mut router = new_router();
    assert!(router.peek_back().is_none());
    assert!(router.peek_forward().is_none());
    router.navigate_to_new(profile_route("23"));
    assert!(router.peek_back().is_none());
    router.navigate_to_new(leaf(LOGIN));
    assert_eq!(router.peek_back(), Some(profile_route("23")));
    assert!(router.peek_forward().is_none());
    router.back();
    assert_eq!(router.peek_forward(), Some(leaf(LOGIN)));
    assert!(router.is_on_first_index());
}

#[test]
fn back_then_navigate_keeps_forward_entries() {
    let mut router = new_router();
    assert!(router.back().is_none());
    assert_eq!(router.current_history_index(), 0);
    router.navigate_to_new(leaf(HOME));
    router.navigate_to_new(leaf(REGISTER));
    router.navigate_to_new(nested(DASHBOARD, nested(0, leaf(0))));
    assert_eq!(router.current_history_index(), 2);
    assert_eq!(router.back(), Some(leaf(REGISTER)));
    assert!(router.is_current_route(&leaf(REGISTER)));
    assert_eq!(router.back(), Some(leaf(HOME)));
    assert_eq!(router.current_history_index(), 0);
    router.navigate_to_new(nested(DASHBOARD, leaf(DASH_ROOT)));
    assert_eq!(router.history_routes().len(), 4);
    assert_eq!(router.back(), Some(nested(DASHBOARD, nested(0, leaf(0)))));
    assert_eq!(router.current_history_index(), 2);
    assert!(!router.is_on_last_index());
    assert_eq!(router.forward(), Some(nested(DASHBOARD, leaf(DASH_ROOT))));
    assert!(router.forward().is_none());
    assert_eq!(router.current_history_index(), 3);
}

#[test]
fn request_moves_only_with_a_target() {
    let mut router = new_router();
    router.navigate_to_new(profile_route("23"));
    let mut asked: Option<String> = None;
    router.request_moving_back(|url| asked = Some(url));
    assert!(asked.is_none());
    assert_eq!(router.current_move(), MoveStatus::Ready);
    router.navigate_to_new(leaf(LOGIN));
    let answer = router.request_moving_back(|url| {
        asked = Some(url);
        5
    });
    assert_eq!(answer, Some(5));
    assert_eq!(asked, Some("/profile/23".to_string()));
    assert_eq!(router.current_move(), MoveStatus::MovingBack);

    let mut forward_asked = false;
    assert!(router.request_moving_forward(|_| forward_asked = true).is_none());
    assert!(!forward_asked);
    assert_eq!(router.current_move(), MoveStatus::MovingBack);
}

#[test]
fn confirm_navigation_follows_the_requested_move() {
    let mut router = new_router();
    router.confirm_navigation("/login");
    assert_eq!(router.current_history_index(), 0);
    assert_eq!(router.history_routes().len(), 1);
    assert_eq!(router.current_move(), MoveStatus::Ready);
    assert_eq!(router.current_route(), leaf(LOGIN));

    router.navigate_to_new(nested(DASHBOARD, leaf(DASH_ROOT)));
    router.navigate_to_new(leaf(STUFF));
    router.request_moving_back(|_| ());
    router.confirm_navigation("/dashboard");
    assert_eq!(router.current_history_index(), 1);
    assert_eq!(router.history_routes().len(), 3);
    assert_eq!(router.current_move(), MoveStatus::Ready);
    assert_eq!(router.current_route(), nested(DASHBOARD, leaf(DASH_ROOT)));

    router.request_moving_forward(|_| ());
    router.confirm_navigation("/stuff");
    assert_eq!(router.current_history_index(), 2);
    assert_eq!(router.history_routes().len(), 3);
    assert_eq!(router.current_route(), leaf(STUFF));

    router.confirm_navigation("/blabla/wrong_url");
    assert_eq!(router.current_history_index(), 3);
    assert_eq!(router.history_routes().len(), 4);
    assert_eq!(router.current_move(), MoveStatus::Ready);
    assert_eq!(router.current_route(), leaf(NOT_FOUND));
}

#[test]
fn subscribe_keeps_the_handle() {
    let mut router = new_router();
    router.subscribe(7);
    router.navigate_to_url("/register");
    assert_eq!(router.current_route(), leaf(REGISTER));
    assert!(router.accepts(&leaf(REGISTER)));
    assert!(!router.accepts(&leaf(42)));
    assert_eq!(router.path_of_route(&leaf(REGISTER)), "/register");
}

#[test]
fn route_equality_ignores_query_order() {
    let a = admin_route(&[("user", "arn"), ("role", "x")]);
    let b = admin_route(&[("role", "x"), ("user", "arn")]);
    assert_eq!(a, b);
    assert_ne!(a, admin_route(&[("user", "arn")]));
    assert_eq!(a.clone(), a);
}

#[test]
fn default_route_of_the_codec() {
    let codec = example_codec();
    assert!(codec.is_default(&leaf(NOT_FOUND)));
    assert!(!codec.is_default(&leaf(LOGIN)));
    assert_eq!(codec.default_route(), leaf(NOT_FOUND));
}

fn dash_profile(n: u32) -> Route {
    nested(
        DASHBOARD,
        Route { variant: DASH_PROFILE, id: None, query: None, children: None, number: Some(n) },
    )
}

#[test]
fn numbers_in_paths() {
    let codec = example_codec();
    assert_eq!(codec.as_path(&dash_profile(23)), "/dashboard/profile/23");
    assert_eq!(codec.as_path(&dash_profile(0)), "/dashboard/profile/0");
    assert_eq!(codec.as_path(&dash_profile(4294967295)), "/dashboard/profile/4294967295");
    assert_eq!(codec.parse_path("/dashboard/profile/1").unwrap(), dash_profile(1));
    assert_eq!(codec.parse_path("/dashboard/profile/55").unwrap(), dash_profile(55));
    assert_eq!(codec.parse_path("/dashboard/profile/+7").unwrap(), dash_profile(7));
    assert_eq!(codec.parse_path("/dashboard/profile/007").unwrap(), dash_profile(7));
    assert_eq!(codec.parse_path("/dashboard/profile/4294967295").unwrap(), dash_profile(4294967295));
    for bad in ["/dashboard/profile/abc", "/dashboard/profile/4294967296", "/dashboard/profile", "/dashboard/profile/1/x"] {
        match codec.parse_path(bad) {
            Err(ParseError::By(outer, inner)) => {
                assert_eq!(outer, "ExampleRoutes");
                match *inner {
                    ParseError::By(mid, reason) => {
                        assert_eq!(mid, "DashboardRoutes");
                        assert!(matches!(*reason, ParseError::FromStr));
                    }
                    _ => panic!("expected the dashboard schema"),
                }
            }
            _ => panic!("expected a parse failure for {}", bad),
        }
    }
    let mut router = new_router();
    router.navigate_to_url("/dashboard/profile/abc");
    assert_eq!(router.current_route(), leaf(NOT_FOUND));
    router.navigate_to_url("http://localhost/dashboard/profile/9");
    assert_eq!(router.current_route(), dash_profile(9));
}

#[test]
fn it_works() {
    assert_eq!(2 + 2, 4);
}
