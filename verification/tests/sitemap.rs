use route_sitemap::order::order_by_key;
use route_sitemap::sitemap::sort_by_route;
use route_sitemap::sitemap_xml::{escape, render, render_entry};
use route_sitemap::text::{chars_le, chars_of, str_le};
use route_sitemap::{RouteInfo, Timestamp};

fn route(route: &str, path: &str, last_modified: Option<Timestamp>) -> RouteInfo {
    RouteInfo {
        route: route.to_string(),
        path: path.to_string(),
        label: "L".to_string(),
        description: format!("Page at {}", route),
        last_modified,
    }
}

#[test]
fn text_order_is_lexicographic_by_code_point() {
    assert!(str_le("", ""));
    assert!(str_le("", "a"));
    assert!(!str_le("a", ""));
    assert!(str_le("a", "a"));
    assert!(str_le("a", "b"));
    assert!(!str_le("b", "a"));
    assert!(str_le("a", "ab"));
    assert!(!str_le("ab", "a"));
    assert!(str_le("Z", "a"));
    assert!(!str_le("a", "Z"));
    assert!(str_le("/a", "/a/b"));
    assert!(str_le("/a/b", "/a0"));
    assert!(str_le("z", "\u{e9}"));
    assert!(str_le("\u{e9}", "\u{4e2d}"));
    assert!(!str_le("\u{1f600}", "\u{4e2d}"));
}

#[test]
fn text_order_agrees_with_the_order_of_strings() {
    let samples = ["", "/", "/a", "/a/b", "/a0", "/A", "/b", "/:id", "/\u{e9}", "/\u{1f600}", "/z"];
    for a in samples {
        for b in samples {
            assert_eq!(str_le(a, b), a <= b, "{:?} {:?}", a, b);
            assert_eq!(chars_le(&chars_of(a), &chars_of(b)), a <= b);
        }
    }
}

#[test]
fn characters_of_a_string() {
    let v = chars_of("h\u{e9}llo");
    assert_eq!(v, vec!['h', '\u{e9}', 'l', 'l', 'o']);
    assert_eq!(chars_of(""), Vec::<char>::new());
}

#[test]
fn order_by_key_is_a_stable_sort_of_positions() {
    let keys: Vec<Vec<char>> = ["b", "a", "c", "a", "", "b"].iter().map(|k| chars_of(k)).collect();
    assert_eq!(order_by_key(&keys), vec![4, 1, 3, 0, 5, 2]);
    assert_eq!(order_by_key(&Vec::new()), Vec::<usize>::new());
}

#[test]
fn routes_are_sorted_by_route() {
    let mut routes = vec![
        route("/b", "b/page.tsx", None),
        route("/", "page.tsx", None),
        route("/a/b", "a/b/page.tsx", None),
        route("/a", "a/page.tsx", None),
        route("/:id", "[id]/page.tsx", None),
    ];
    sort_by_route(&mut routes);
    let texts: Vec<&str> = routes.iter().map(|r| r.route.as_str()).collect();
    assert_eq!(texts, vec!["/", "/:id", "/a", "/a/b", "/b"]);
    let paths: Vec<&str> = routes.iter().map(|r| r.path.as_str()).collect();
    assert_eq!(paths, vec!["page.tsx", "[id]/page.tsx", "a/page.tsx", "a/b/page.tsx", "b/page.tsx"]);
}

#[test]
fn sorting_keeps_every_record_whole() {
    let stamp = Timestamp { secs: 7, nanos: 8 };
    let mut routes = vec![route("/b", "second.tsx", Some(stamp)), route("/a", "first.tsx", None)];
    sort_by_route(&mut routes);
    assert_eq!(routes.len(), 2);
    assert_eq!(routes[0].route, "/a");
    assert_eq!(routes[0].path, "first.tsx");
    assert_eq!(routes[0].last_modified, None);
    assert_eq!(routes[1].route, "/b");
    assert_eq!(routes[1].path, "second.tsx");
    assert_eq!(routes[1].label, "L");
    assert_eq!(routes[1].description, "Page at /b");
    assert_eq!(routes[1].last_modified, Some(stamp));
}

#[test]
fn sorting_keeps_equal_routes_in_their_order() {
    let mut routes = vec![route("/a", "second", None), route("/", "x", None), route("/a", "third", None)];
    sort_by_route(&mut routes);
    let paths: Vec<&str> = routes.iter().map(|r| r.path.as_str()).collect();
    assert_eq!(paths, vec!["x", "second", "third"]);
}

#[test]
fn sorting_the_empty_list() {
    let mut routes: Vec<RouteInfo> = Vec::new();
    sort_by_route(&mut routes);
    assert!(routes.is_empty());
}

#[test]
fn sorted_list_agrees_with_the_order_of_strings() {
    let names = ["/z", "/a/b", "/a", "/", "/A", "/a0", "/\u{e9}", "/:x", "/b"];
    let mut routes: Vec<RouteInfo> = names.iter().map(|n| route(n, n, None)).collect();
    sort_by_route(&mut routes);
    let mut expected: Vec<String> = names.iter().map(|n| n.to_string()).collect();
    expected.sort();
    let got: Vec<String> = routes.iter().map(|r| r.route.clone()).collect();
    assert_eq!(got, expected);
}

#[test]
fn xml_text_is_escaped() {
    assert_eq!(escape("a&b"), "a&amp;b");
    assert_eq!(escape("<tag>"), "&lt;tag&gt;");
    assert_eq!(escape("\"q\" 'a'"), "&quot;q&quot; &apos;a&apos;");
    assert_eq!(escape("plain/:id"), "plain/:id");
    assert_eq!(escape(""), "");
    assert_eq!(escape("&amp;"), "&amp;amp;");
}

#[test]
fn entry_without_modification_time() {
    assert_eq!(
        render_entry("https://example.com", "/about", &None),
        "  <url>\n    <loc>https://example.com/about</loc>\n  </url>\n"
    );
}

#[test]
fn entry_with_modification_time() {
    assert_eq!(
        render_entry("https://example.com", "/a?b=1&c=2", &Some("2024-01-02T03:04:05+00:00".to_string())),
        "  <url>\n    <loc>https://example.com/a?b=1&amp;c=2</loc>\n    <lastmod>2024-01-02T03:04:05+00:00</lastmod>\n  </url>\n"
    );
}

#[test]
fn document_of_no_routes() {
    assert_eq!(
        render(&Vec::new(), "https://example.com"),
        "<?xml version=\"1.0\" encoding=\"UTF-8\"?>\n<urlset xmlns=\"http://www.sitemaps.org/schemas/sitemap/0.9\">\n</urlset>\n"
    );
}

#[test]
fn document_lists_routes_in_the_order_of_the_list() {
    let routes = vec![
        route("/", "page.tsx", Some(Timestamp { secs: 1_700_000_000, nanos: 0 })),
        route("/about", "about/page.tsx", None),
        route("/blog/:slug", "blog/[slug]/page.tsx", Some(Timestamp { secs: 0, nanos: 500_000_000 })),
    ];
    let xml = render(&routes, "https://example.com");
    let expected = "<?xml version=\"1.0\" encoding=\"UTF-8\"?>\n\
<urlset xmlns=\"http://www.sitemaps.org/schemas/sitemap/0.9\">\n  \
<url>\n    <loc>https://example.com/</loc>\n    <lastmod>2023-11-14T22:13:20+00:00</lastmod>\n  </url>\n  \
<url>\n    <loc>https://example.com/about</loc>\n  </url>\n  \
<url>\n    <loc>https://example.com/blog/:slug</loc>\n    <lastmod>1970-01-01T00:00:00.500+00:00</lastmod>\n  </url>\n\
</urlset>\n";
    assert_eq!(xml, expected);
}

#[test]
fn time_that_cannot_be_written_leaves_out_the_line() {
    let routes = vec![route("/", "page.tsx", Some(Timestamp { secs: i64::MAX, nanos: 0 }))];
    let xml = render(&routes, "https://example.com");
    assert!(!xml.contains("<lastmod>"));
    assert!(xml.contains("<loc>https://example.com/</loc>"));
    let odd = vec![route("/", "page.tsx", Some(Timestamp { secs: 0, nanos: 2_000_000_000 }))];
    assert!(!render(&odd, "https://example.com").contains("<lastmod>"));
}

#[test]
fn route_record_clones_field_by_field() {
    let r = route("/a", "a/page.tsx", Some(Timestamp { secs: 1, nanos: 2 }));
    let c = r.clone();
    assert_eq!(c.route, r.route);
    assert_eq!(c.path, r.path);
    assert_eq!(c.label, r.label);
    assert_eq!(c.description, r.description);
    assert_eq!(c.last_modified, r.last_modified);
}
