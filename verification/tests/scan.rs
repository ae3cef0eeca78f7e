use route_sitemap::options::ScanOptions;
use route_sitemap::scanner::{collect, find_route, scan, scan_report, scan_with, Diagnostic, ScanError};
use route_sitemap::walker::walk;
use route_sitemap::tree::{Entry, Node};
use route_sitemap::Timestamp;

fn file(name: &str) -> Entry {
    Entry {
        name: name.to_string(),
        node: Node::File { modified: Some(Timestamp { secs: 1_700_000_000, nanos: 0 }) },
    }
}

fn dir(name: &str, entries: Vec<Entry>) -> Entry {
    Entry { name: name.to_string(), node: Node::Directory { entries } }
}

fn root(entries: Vec<Entry>) -> Node {
    Node::Directory { entries }
}

#[test]
fn dynamic_directory_chain_gives_placeholder_route() {
    let tree = root(vec![dir("blog", vec![dir("[slug]", vec![file("page.tsx")])])]);
    let routes = scan(&tree).unwrap();
    assert_eq!(routes.len(), 1);
    assert_eq!(routes[0].route, "/blog/:slug");
    assert_eq!(routes[0].label, "Slug");
    assert_eq!(routes[0].path, "blog/[slug]/page.tsx");
    assert_eq!(routes[0].description, "Page at /blog/:slug");
    assert_eq!(routes[0].last_modified, Some(Timestamp { secs: 1_700_000_000, nanos: 0 }));
}

#[test]
fn bracketed_first_directory_is_dynamic_too() {
    let tree = root(vec![dir("[blog]", vec![dir("[slug]", vec![file("page.tsx")])])]);
    let routes = scan(&tree).unwrap();
    assert_eq!(routes.len(), 1);
    assert_eq!(routes[0].route, "/:blog/:slug");
    assert_eq!(routes[0].label, "Slug");
    assert_eq!(routes[0].path, "[blog]/[slug]/page.tsx");
}

#[test]
fn route_group_leaves_no_text_in_route() {
    let tree = root(vec![dir("(marketing)", vec![dir("about", vec![file("page.tsx")])])]);
    let routes = scan(&tree).unwrap();
    assert_eq!(routes.len(), 1);
    assert_eq!(routes[0].route, "/about");
    assert_eq!(routes[0].label, "About");
    assert_eq!(routes[0].path, "(marketing)/about/page.tsx");
}

#[test]
fn parallel_slot_is_no_route_of_its_own() {
    let tree = root(vec![
        dir("@modal", vec![file("page.tsx")]),
        dir("settings", vec![file("page.tsx")]),
    ]);
    let routes = scan(&tree).unwrap();
    assert_eq!(routes.len(), 1);
    assert_eq!(routes[0].route, "/settings");
    assert_eq!(routes[0].path, "settings/page.tsx");
}

#[test]
fn root_with_only_a_page_file_is_home() {
    let tree = root(vec![file("page.tsx")]);
    let routes = scan(&tree).unwrap();
    assert_eq!(routes.len(), 1);
    assert_eq!(routes[0].route, "/");
    assert_eq!(routes[0].label, "Home");
    assert_eq!(routes[0].path, "page.tsx");
    assert_eq!(routes[0].description, "Page at /");
}

#[test]
fn colliding_routes_keep_the_first_met() {
    let tree = root(vec![
        dir("(b)", vec![dir("about", vec![file("page.tsx")])]),
        dir("(a)", vec![dir("about", vec![file("page.jsx")])]),
    ]);
    let report = scan_report(&tree, &ScanOptions::default()).unwrap();
    assert_eq!(report.routes.len(), 1);
    assert_eq!(report.routes[0].route, "/about");
    assert_eq!(report.routes[0].path, "(a)/about/page.jsx");
    assert_eq!(report.diagnostics.len(), 1);
    match &report.diagnostics[0] {
        Diagnostic::RouteCollision { route, kept, dropped } => {
            assert_eq!(route, "/about");
            assert_eq!(kept, "(a)/about/page.jsx");
            assert_eq!(dropped, "(b)/about/page.tsx");
        }
        other => panic!("unexpected diagnostic {:?}", other),
    }
}

#[test]
fn unreadable_directory_does_not_abort_the_scan() {
    let tree = root(vec![
        dir("about", vec![file("page.tsx")]),
        Entry { name: "locked".to_string(), node: Node::Unreadable },
        dir("zebra", vec![file("page.tsx")]),
    ]);
    let report = scan_report(&tree, &ScanOptions::default()).unwrap();
    assert_eq!(report.routes.len(), 2);
    assert_eq!(report.routes[0].route, "/about");
    assert_eq!(report.routes[1].route, "/zebra");
    assert_eq!(report.diagnostics.len(), 1);
    match &report.diagnostics[0] {
        Diagnostic::DirectoryReadError { directory } => assert_eq!(directory, "locked"),
        other => panic!("unexpected diagnostic {:?}", other),
    }
}

#[test]
fn missing_root_is_invalid() {
    assert_eq!(scan(&Node::Missing).unwrap_err(), ScanError::InvalidRoot);
}

#[test]
fn file_root_is_invalid() {
    let r = scan(&Node::File { modified: None });
    assert_eq!(r.unwrap_err(), ScanError::InvalidRoot);
}

#[test]
fn unreadable_root_gives_no_routes_and_a_diagnostic() {
    let report = scan_report(&Node::Unreadable, &ScanOptions::default()).unwrap();
    assert!(report.routes.is_empty());
    assert_eq!(report.diagnostics.len(), 1);
    match &report.diagnostics[0] {
        Diagnostic::DirectoryReadError { directory } => assert_eq!(directory, ""),
        other => panic!("unexpected diagnostic {:?}", other),
    }
}

#[test]
fn empty_root_gives_no_routes() {
    let report = scan_report(&root(vec![]), &ScanOptions::default()).unwrap();
    assert!(report.routes.is_empty());
    assert!(report.diagnostics.is_empty());
}

#[test]
fn missing_modification_time_is_reported_and_the_route_kept() {
    let tree = root(vec![dir(
        "about",
        vec![Entry { name: "page.tsx".to_string(), node: Node::File { modified: None } }],
    )]);
    let report = scan_report(&tree, &ScanOptions::default()).unwrap();
    assert_eq!(report.routes.len(), 1);
    assert_eq!(report.routes[0].route, "/about");
    assert_eq!(report.routes[0].last_modified, None);
    assert_eq!(report.diagnostics.len(), 1);
    match &report.diagnostics[0] {
        Diagnostic::MetadataUnavailable { path } => assert_eq!(path, "about/page.tsx"),
        other => panic!("unexpected diagnostic {:?}", other),
    }
}

#[test]
fn colliding_dynamic_names_in_slots_keep_the_first() {
    let tree = root(vec![dir(
        "shop",
        vec![
            dir("@b", vec![dir("[id]", vec![file("page.tsx")])]),
            dir("@a", vec![dir("[id]", vec![file("page.tsx")])]),
            dir("[id]", vec![file("page.tsx")]),
        ],
    )]);
    let report = scan_report(&tree, &ScanOptions::default()).unwrap();
    assert_eq!(report.routes.len(), 1);
    assert_eq!(report.routes[0].route, "/shop/:id");
    assert_eq!(report.routes[0].path, "shop/@a/[id]/page.tsx");
    assert_eq!(report.diagnostics.len(), 2);
}

#[test]
fn routes_come_in_the_order_of_the_walk() {
    let tree = root(vec![
        dir("b", vec![file("page.tsx")]),
        file("page.tsx"),
        dir("(z)", vec![dir("a", vec![file("page.tsx")])]),
    ]);
    let routes = scan(&tree).unwrap();
    let texts: Vec<&str> = routes.iter().map(|r| r.route.as_str()).collect();
    assert_eq!(texts, vec!["/", "/a", "/b"]);
}

#[test]
fn scan_with_options_leaves_out_excluded_directories() {
    let tree = root(vec![
        dir("api", vec![file("page.tsx")]),
        dir("docs", vec![file("page.tsx")]),
    ]);
    let options = ScanOptions { page_stem: "page".to_string(), exclusions: vec!["api".to_string()] };
    let routes = scan_with(&tree, &options).unwrap();
    assert_eq!(routes.len(), 1);
    assert_eq!(routes[0].route, "/docs");
    assert_eq!(scan(&tree).unwrap().len(), 2);
}

#[test]
fn scan_with_another_page_stem() {
    let tree = root(vec![dir("docs", vec![file("index.md"), file("page.tsx")])]);
    let options = ScanOptions { page_stem: "index".to_string(), exclusions: Vec::new() };
    let routes = scan_with(&tree, &options).unwrap();
    assert_eq!(routes.len(), 1);
    assert_eq!(routes[0].path, "docs/index.md");
}

#[test]
fn collect_is_the_scan_of_the_walk() {
    let tree = root(vec![
        dir("x", vec![file("page.tsx")]),
        dir("(g)", vec![dir("x", vec![file("page.tsx")])]),
    ]);
    let events = walk(&tree, &ScanOptions::default());
    assert_eq!(events.len(), 2);
    let report = collect(&events);
    assert_eq!(report.routes.len(), 1);
    assert_eq!(report.routes[0].path, "(g)/x/page.tsx");
    assert_eq!(find_route(&report.routes, &"/x".to_string()), Some(0));
    assert_eq!(find_route(&report.routes, &"/y".to_string()), None);
}

#[test]
fn unreadable_root_is_no_invalid_root() {
    assert!(scan(&Node::Unreadable).is_ok());
}

#[test]
fn messages_name_what_happened() {
    assert_eq!(ScanError::InvalidRoot.message(), "the scan root does not exist or is not a directory");
    let read = Diagnostic::DirectoryReadError { directory: "a/b".to_string() };
    assert_eq!(read.message(), "cannot read directory 'a/b'; its routes are left out");
    let meta = Diagnostic::MetadataUnavailable { path: "a/page.tsx".to_string() };
    assert_eq!(meta.message(), "no modification time for 'a/page.tsx'");
    let hit = Diagnostic::RouteCollision {
        route: "/a".to_string(),
        kept: "(x)/a/page.tsx".to_string(),
        dropped: "(y)/a/page.tsx".to_string(),
    };
    assert_eq!(hit.message(), "route '/a' of '(y)/a/page.tsx' is already taken by '(x)/a/page.tsx'");
}
