use path_router::fixtures::create_simple;
use path_router::router::{InsertError, Match, RouteError, RouteTable, Router};
use path_router::segment::{parse, ParseError, Segment};

fn text(b: &[u8]) -> String {
    String::from_utf8(b.to_vec()).unwrap()
}

fn pairs(m: &Match) -> Vec<(String, String)> {
    m.params.iter().map(|b| (text(&b.name), text(&b.value))).collect()
}

fn table(routes: &[(&str, u64)]) -> RouteTable {
    let mut r = Router::new();
    for (p, id) in routes {
        r.register(p, *id).unwrap();
    }
    r.finalize()
}

fn hit(t: &RouteTable, path: &str) -> Option<(u64, Vec<(String, String)>)> {
    t.match_path(path).map(|m| (m.route_id, pairs(&m)))
}

fn kv(k: &str, v: &str) -> (String, String) {
    (k.to_string(), v.to_string())
}

#[test]
fn parse_classifies_segments() {
    let p = parse("/users/{id}/files/{*path}").unwrap();
    assert_eq!(p.segments.len(), 4);
    assert!(matches!(&p.segments[0], Segment::Static(t) if t == b"users"));
    assert!(matches!(&p.segments[1], Segment::Param(n) if n == b"id"));
    assert!(matches!(&p.segments[2], Segment::Static(t) if t == b"files"));
    assert!(matches!(&p.segments[3], Segment::Wildcard(n) if n == b"path"));
}

#[test]
fn parse_drops_empty_components() {
    let p = parse("//a///b/").unwrap();
    assert_eq!(p.segments.len(), 2);
    assert!(parse("/").unwrap().segments.is_empty());
}

#[test]
fn parse_errors() {
    assert_eq!(parse("").err(), Some(ParseError::EmptyPattern));
    assert_eq!(parse("users").err(), Some(ParseError::MissingLeadingSlash));
    assert_eq!(parse("/a/{}").err(), Some(ParseError::EmptyParamName));
    assert_eq!(parse("/a/{*}").err(), Some(ParseError::EmptyParamName));
    assert_eq!(parse("/a/{*p}/b").err(), Some(ParseError::WildcardNotLast));
    assert_eq!(parse("/a/{x}/{x}").err(), Some(ParseError::DuplicateParamName));
    assert_eq!(parse("/a/{x}/{*x}").err(), Some(ParseError::DuplicateParamName));
}

#[test]
fn static_routes() {
    let t = table(&[
        ("/", 0),
        ("/health", 1),
        ("/api/v1/users", 2),
        ("/api/v1/posts", 3),
        ("/api/v1/comments", 4),
        ("/api/v2/users", 5),
        ("/api/v2/posts", 6),
    ]);
    assert_eq!(hit(&t, "/"), Some((0, vec![])));
    assert_eq!(hit(&t, "/health"), Some((1, vec![])));
    assert_eq!(hit(&t, "/api/v1/users"), Some((2, vec![])));
    assert_eq!(hit(&t, "/api/v2/posts"), Some((6, vec![])));
    assert_eq!(hit(&t, "/api/v3/posts"), None);
}

#[test]
fn dynamic_routes() {
    let t = table(&[
        ("/users/{id}", 0),
        ("/users/{id}/posts", 1),
        ("/users/{user_id}/posts/{post_id}", 2),
        ("/users/{user_id}/posts/{post_id}/comments/{comment_id}", 3),
        ("/categories/{cat}/products/{prod}/reviews/{rev}", 4),
    ]);
    assert_eq!(hit(&t, "/users/123"), Some((0, vec![kv("id", "123")])));
    assert_eq!(hit(&t, "/users/123/posts"), Some((1, vec![kv("id", "123")])));
    assert_eq!(
        hit(&t, "/users/123/posts/456"),
        Some((2, vec![kv("user_id", "123"), kv("post_id", "456")]))
    );
    assert_eq!(
        hit(&t, "/users/123/posts/456/comments/789"),
        Some((3, vec![kv("user_id", "123"), kv("post_id", "456"), kv("comment_id", "789")]))
    );
    assert_eq!(
        hit(&t, "/categories/a/products/b/reviews/c"),
        Some((4, vec![kv("cat", "a"), kv("prod", "b"), kv("rev", "c")]))
    );
}

#[test]
fn substituted_values_come_back() {
    let t = table(&[("/orders/{order}/items/{item}", 9), ("/orders", 1)]);
    assert_eq!(
        hit(&t, "/orders/A-17/items/x.y"),
        Some((9, vec![kv("order", "A-17"), kv("item", "x.y")]))
    );
}

#[test]
fn static_beats_param() {
    let t = table(&[("/users/{id}", 1), ("/users/me", 2)]);
    assert_eq!(hit(&t, "/users/me"), Some((2, vec![])));
    assert_eq!(hit(&t, "/users/42"), Some((1, vec![kv("id", "42")])));
}

#[test]
fn param_beats_wildcard() {
    let t = table(&[("/f/{*rest}", 1), ("/f/{name}", 2)]);
    assert_eq!(hit(&t, "/f/a"), Some((2, vec![kv("name", "a")])));
    assert_eq!(hit(&t, "/f/a/b"), Some((1, vec![kv("rest", "a/b")])));
}

#[test]
fn wildcard_takes_remainder() {
    let t = table(&[("/static/{*path}", 1), ("/assets/{*filepath}", 2)]);
    assert_eq!(hit(&t, "/static/css/a.css"), Some((1, vec![kv("path", "css/a.css")])));
    assert_eq!(
        hit(&t, "/static/images/icons/social/facebook.png"),
        Some((1, vec![kv("path", "images/icons/social/facebook.png")]))
    );
    assert_eq!(hit(&t, "/assets/x"), Some((2, vec![kv("filepath", "x")])));
    assert_eq!(hit(&t, "/static"), None);
    assert_eq!(hit(&t, "/static/"), None);
}

#[test]
fn dead_end_falls_back() {
    let t = table(&[("/files/{id}/meta", 1), ("/files/{*path}", 2)]);
    assert_eq!(hit(&t, "/files/7/meta"), Some((1, vec![kv("id", "7")])));
    assert_eq!(hit(&t, "/files/7/data"), Some((2, vec![kv("path", "7/data")])));
    let u = table(&[("/a/b/c", 1), ("/a/{x}/d", 2)]);
    assert_eq!(hit(&u, "/a/b/d"), Some((2, vec![kv("x", "b")])));
    assert_eq!(hit(&u, "/a/b/c"), Some((1, vec![])));
}

#[test]
fn lookup_is_repeatable() {
    let t = table(&[("/users/{id}", 1), ("/users/me", 2), ("/s/{*p}", 3)]);
    for path in ["/users/me", "/users/5", "/s/a/b", "/nope", ""] {
        assert_eq!(hit(&t, path), hit(&t, path));
    }
}

#[test]
fn registration_order_does_not_matter() {
    let routes = [("/users/me", 1u64), ("/users/{id}", 2), ("/users/{id}/posts", 3), ("/{*all}", 4)];
    let forward = table(&routes);
    let mut rev = routes.to_vec();
    rev.reverse();
    let backward = table(&rev);
    for path in ["/users/me", "/users/8", "/users/8/posts", "/x/y", "/users", "/"] {
        assert_eq!(hit(&forward, path), hit(&backward, path));
    }
    assert_eq!(hit(&forward, "/users"), Some((4, vec![kv("all", "users")])));
}

#[test]
fn conflicts_fail_in_either_order() {
    let mut a = Router::new();
    a.register("/users/{id}", 1).unwrap();
    assert_eq!(
        a.register("/users/{uid}", 2),
        Err(RouteError::Insert(InsertError::ParamNameConflict))
    );
    let mut b = Router::new();
    b.register("/users/{uid}", 2).unwrap();
    assert_eq!(
        b.register("/users/{id}", 1),
        Err(RouteError::Insert(InsertError::ParamNameConflict))
    );
}

#[test]
fn insert_errors() {
    let mut r = Router::new();
    r.register("/a/b", 1).unwrap();
    assert_eq!(r.register("/a/b/", 2), Err(RouteError::Insert(InsertError::DuplicateRoute)));
    r.register("/users/{id}", 3).unwrap();
    assert_eq!(r.register("/users/{user_id}/posts/{post_id}", 4), Ok(()));
    assert_eq!(
        r.register("/users/{uid}", 8),
        Err(RouteError::Insert(InsertError::ParamNameConflict))
    );
    r.register("/s/{*a}", 5).unwrap();
    assert_eq!(r.register("/s/{*b}", 6), Err(RouteError::Insert(InsertError::WildcardConflict)));
    assert_eq!(r.register("/s/{*a}", 6), Err(RouteError::Insert(InsertError::DuplicateRoute)));
    r.register("/d/{x}/{*a}", 9).unwrap();
    assert_eq!(
        r.register("/d/{y}/{*b}", 10),
        Err(RouteError::Insert(InsertError::ParamNameConflict))
    );
    assert_eq!(
        r.register("/d/{x}/{*b}", 10),
        Err(RouteError::Insert(InsertError::WildcardConflict))
    );
    assert_eq!(r.register("nope", 7), Err(RouteError::Parse(ParseError::MissingLeadingSlash)));
    let t = r.finalize();
    assert_eq!(t.len(), 5);
    assert_eq!(hit(&t, "/users/1"), Some((3, vec![kv("id", "1")])));
    assert_eq!(
        hit(&t, "/users/1/posts/2"),
        Some((4, vec![kv("user_id", "1"), kv("post_id", "2")]))
    );
    assert_eq!(hit(&t, "/s/q"), Some((5, vec![kv("a", "q")])));
}

#[test]
fn insert_parsed_pattern() {
    let mut r = Router::new();
    assert_eq!(r.insert(parse("/x/{y}").unwrap(), 4), Ok(()));
    assert_eq!(r.insert(parse("/x/{y}").unwrap(), 5), Err(InsertError::DuplicateRoute));
    let t = r.finalize();
    assert_eq!(hit(&t, "/x/z"), Some((4, vec![kv("y", "z")])));
}

#[test]
fn no_match_cases() {
    let t = table(&[("/api/v1/users", 1), ("/users/{id}", 2)]);
    assert_eq!(hit(&t, ""), None);
    assert_eq!(hit(&t, "/"), None);
    assert_eq!(hit(&t, "/api/v1/unknown"), None);
    assert_eq!(hit(&t, "/api/v1/users/extra"), None);
    assert_eq!(hit(&t, "/api/v1"), None);
    assert_eq!(hit(&t, "/users"), None);
    let empty = Router::new().finalize();
    assert_eq!(hit(&empty, "/anything"), None);
}

#[test]
fn root_route_matches_empty_path() {
    let t = table(&[("/", 7)]);
    assert_eq!(hit(&t, "/"), Some((7, vec![])));
    assert_eq!(hit(&t, ""), Some((7, vec![])));
    assert_eq!(hit(&t, "/x"), None);
}

#[test]
fn trailing_slash_is_ignored() {
    let t = table(&[("/users/{id}", 1)]);
    assert_eq!(hit(&t, "/users/42/"), Some((1, vec![kv("id", "42")])));
}

#[test]
fn many_routes() {
    for count in [10u64, 50, 100, 500] {
        let mut r = Router::new();
        for i in 0..count {
            r.register(&format!("/api/v1/resource{}", i), i).unwrap();
        }
        let t = r.finalize();
        let mid = count / 2;
        assert_eq!(hit(&t, &format!("/api/v1/resource{}", mid)), Some((mid, vec![])));
        assert_eq!(hit(&t, &format!("/api/v1/resource{}", count)), None);
    }
}

#[test]
fn simple_fixture() {
    let s = create_simple();
    assert_eq!(s.message, "Hello, World!");
    assert_eq!(s.status, 200);
}

#[test]
fn divergent_param_names_share_an_edge() {
    let t = table(&[("/users/{id}", 1), ("/users/{user_id}/posts/{post_id}", 2)]);
    assert_eq!(hit(&t, "/users/123"), Some((1, vec![kv("id", "123")])));
    assert_eq!(
        hit(&t, "/users/123/posts/456"),
        Some((2, vec![kv("user_id", "123"), kv("post_id", "456")]))
    );
    assert_eq!(hit(&t, "/users/123/posts"), None);
}

#[test]
fn substituted_review_path() {
    let t = table(&[
        ("/users/{id}", 0),
        ("/users/{id}/posts", 1),
        ("/users/{user_id}/posts/{post_id}", 2),
        ("/users/{user_id}/posts/{post_id}/comments/{comment_id}", 3),
        ("/categories/{cat}/products/{prod}/reviews/{rev}", 4),
    ]);
    for (a, b, c) in [("x", "y", "z"), ("books", "42", "r-7"), ("é", "a.b", "{q}")] {
        let path = format!("/categories/{}/products/{}/reviews/{}", a, b, c);
        assert_eq!(hit(&t, &path), Some((4, vec![kv("cat", a), kv("prod", b), kv("rev", c)])));
    }
}

#[test]
fn wildcard_remainders_for_both_prefixes() {
    let t = table(&[("/static/{*path}", 1), ("/assets/{*filepath}", 2)]);
    for rem in ["a", "css/a.css", "css/style.css", "images/icons/social/facebook.png"] {
        assert_eq!(hit(&t, &format!("/static/{}", rem)), Some((1, vec![kv("path", rem)])));
        assert_eq!(hit(&t, &format!("/assets/{}", rem)), Some((2, vec![kv("filepath", rem)])));
    }
}

#[test]
fn static_routes_in_another_order() {
    let routes = [
        ("/", 0u64),
        ("/health", 1),
        ("/api/v1/users", 2),
        ("/api/v1/posts", 3),
        ("/api/v1/comments", 4),
        ("/api/v2/users", 5),
        ("/api/v2/posts", 6),
    ];
    let first = table(&routes);
    let mut shuffled = routes.to_vec();
    shuffled.rotate_left(3);
    shuffled.swap(0, 5);
    let second = table(&shuffled);
    let paths = [
        "/", "", "/health", "/api/v1/users", "/api/v1/posts", "/api/v1/comments",
        "/api/v2/users", "/api/v2/posts", "/api", "/api/v1", "/api/v1/unknown", "/health/x",
    ];
    for path in paths {
        assert_eq!(hit(&first, path), hit(&second, path));
    }
}

#[test]
fn static_table_has_no_prefix_fallback() {
    let t = table(&[
        ("/", 0),
        ("/health", 1),
        ("/api/v1/users", 2),
        ("/api/v1/posts", 3),
        ("/api/v1/comments", 4),
        ("/api/v2/users", 5),
        ("/api/v2/posts", 6),
    ]);
    for path in ["/api", "/api/v1", "/api/v1/users/1", "/api/v3/users", "/healthz", "/x/y/z"] {
        assert_eq!(hit(&t, path), None);
    }
    assert_eq!(hit(&t, "//api//v1/users/"), Some((2, vec![])));
}
