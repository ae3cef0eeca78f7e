use route_sitemap::options::ScanOptions;
use route_sitemap::segment::SegmentKind;
use route_sitemap::tree::{Entry, Node};
use route_sitemap::walker::{join_path, names_page_file, walk, WalkEvent};
use route_sitemap::Timestamp;

fn file(name: &str) -> Entry {
    Entry { name: name.to_string(), node: Node::File { modified: None } }
}

fn dir(name: &str, entries: Vec<Entry>) -> Entry {
    Entry { name: name.to_string(), node: Node::Directory { entries } }
}

fn root(entries: Vec<Entry>) -> Node {
    Node::Directory { entries }
}

fn page_files(events: &[WalkEvent]) -> Vec<String> {
    events
        .iter()
        .map(|e| match e {
            WalkEvent::Page(c) => c.page_file.clone(),
            WalkEvent::Unreadable { directory } => format!("!{}", directory),
        })
        .collect()
}

#[test]
fn page_file_names() {
    let options = ScanOptions::default();
    assert!(names_page_file("page.tsx", &options));
    assert!(names_page_file("page.js", &options));
    assert!(names_page_file("page.x", &options));
    assert!(!names_page_file("page", &options));
    assert!(!names_page_file("page.", &options));
    assert!(!names_page_file("page.test.tsx", &options));
    assert!(!names_page_file("pages.tsx", &options));
    assert!(!names_page_file("layout.tsx", &options));
    assert!(!names_page_file("Page.tsx", &options));
    assert!(!names_page_file("", &options));
    assert!(!names_page_file(".page.tsx", &options));
}

#[test]
fn page_file_names_follow_the_configured_stem() {
    let options = ScanOptions { page_stem: "index".to_string(), exclusions: Vec::new() };
    assert!(names_page_file("index.html", &options));
    assert!(!names_page_file("page.tsx", &options));
    assert!(!names_page_file("index", &options));
}

#[test]
fn paths_join_with_a_slash_below_the_root() {
    assert_eq!(join_path("", "page.tsx"), "page.tsx");
    assert_eq!(join_path("blog", "[slug]"), "blog/[slug]");
    assert_eq!(join_path("a/b", "c"), "a/b/c");
}

#[test]
fn directories_are_visited_in_alphabetical_order() {
    let tree = root(vec![
        dir("zeta", vec![file("page.tsx")]),
        dir("alpha", vec![file("page.tsx"), dir("inner", vec![file("page.tsx")])]),
        file("page.tsx"),
        dir("Beta", vec![file("page.tsx")]),
    ]);
    let events = walk(&tree, &ScanOptions::default());
    assert_eq!(
        page_files(&events),
        vec![
            "page.tsx",
            "Beta/page.tsx",
            "alpha/page.tsx",
            "alpha/inner/page.tsx",
            "zeta/page.tsx"
        ]
    );
}

#[test]
fn candidate_carries_chain_directory_and_time() {
    let stamp = Timestamp { secs: 5, nanos: 6 };
    let tree = root(vec![dir(
        "blog",
        vec![dir(
            "[slug]",
            vec![Entry { name: "page.tsx".to_string(), node: Node::File { modified: Some(stamp) } }],
        )],
    )]);
    let events = walk(&tree, &ScanOptions::default());
    assert_eq!(events.len(), 1);
    match &events[0] {
        WalkEvent::Page(c) => {
            assert_eq!(c.directory, "blog/[slug]");
            assert_eq!(c.page_file, "blog/[slug]/page.tsx");
            assert_eq!(c.modified, Some(stamp));
            assert_eq!(c.chain.len(), 2);
            assert_eq!(c.chain[0].raw, "blog");
            assert_eq!(c.chain[0].kind, SegmentKind::Static);
            assert_eq!(c.chain[1].raw, "[slug]");
            assert_eq!(c.chain[1].kind, SegmentKind::Dynamic);
            assert_eq!(c.chain[1].name, "slug");
        }
        other => panic!("unexpected event {:?}", other),
    }
}

#[test]
fn first_page_file_by_name_stands_for_the_directory() {
    let tree = root(vec![file("page.tsx"), file("page.js"), file("page.mdx")]);
    let events = walk(&tree, &ScanOptions::default());
    assert_eq!(page_files(&events), vec!["page.js"]);
}

#[test]
fn directory_named_like_a_page_file_is_no_page() {
    let tree = root(vec![dir("page.tsx", vec![])]);
    let events = walk(&tree, &ScanOptions::default());
    assert!(events.is_empty());
}

#[test]
fn ignored_directories_are_not_entered() {
    let tree = root(vec![
        dir(".git", vec![file("page.tsx")]),
        dir("node_modules", vec![dir("pkg", vec![file("page.tsx")])]),
        Entry { name: ".cache".to_string(), node: Node::Unreadable },
        dir("real", vec![file("page.tsx")]),
    ]);
    let events = walk(&tree, &ScanOptions::default());
    assert_eq!(page_files(&events), vec!["real/page.tsx"]);
}

#[test]
fn excluded_directories_are_not_entered() {
    let tree = root(vec![
        dir("api", vec![file("page.tsx")]),
        dir("shop", vec![file("page.tsx"), dir("api", vec![file("page.tsx")])]),
    ]);
    let options = ScanOptions { page_stem: "page".to_string(), exclusions: vec!["api".to_string()] };
    assert_eq!(page_files(&walk(&tree, &options)), vec!["shop/page.tsx"]);
    assert_eq!(
        page_files(&walk(&tree, &ScanOptions::default())),
        vec!["api/page.tsx", "shop/page.tsx", "shop/api/page.tsx"]
    );
}

#[test]
fn parallel_slot_yields_only_what_is_below_it() {
    let tree = root(vec![dir(
        "dash",
        vec![
            file("page.tsx"),
            dir("@team", vec![file("page.tsx"), dir("members", vec![file("page.tsx")])]),
        ],
    )]);
    let events = walk(&tree, &ScanOptions::default());
    assert_eq!(page_files(&events), vec!["dash/page.tsx", "dash/@team/members/page.tsx"]);
}

#[test]
fn unreadable_directory_is_reported_in_place() {
    let tree = root(vec![
        dir("a", vec![file("page.tsx")]),
        dir("b", vec![Entry { name: "inner".to_string(), node: Node::Unreadable }, file("page.tsx")]),
        dir("c", vec![file("page.tsx")]),
    ]);
    let events = walk(&tree, &ScanOptions::default());
    assert_eq!(page_files(&events), vec!["a/page.tsx", "b/page.tsx", "!b/inner", "c/page.tsx"]);
}

#[test]
fn unreadable_root_is_reported() {
    let events = walk(&Node::Unreadable, &ScanOptions::default());
    assert_eq!(page_files(&events), vec!["!"]);
}

#[test]
fn root_that_is_no_directory_yields_nothing() {
    assert!(walk(&Node::Missing, &ScanOptions::default()).is_empty());
    assert!(walk(&Node::File { modified: None }, &ScanOptions::default()).is_empty());
}

#[test]
fn missing_entries_and_plain_files_yield_nothing() {
    let tree = root(vec![
        Entry { name: "gone".to_string(), node: Node::Missing },
        file("layout.tsx"),
        file("README.md"),
    ]);
    assert!(walk(&tree, &ScanOptions::default()).is_empty());
}

#[test]
fn entries_with_the_same_name_keep_their_order() {
    let tree = root(vec![
        dir("same", vec![file("page.tsx")]),
        dir("same", vec![file("page.jsx")]),
    ]);
    let events = walk(&tree, &ScanOptions::default());
    assert_eq!(page_files(&events), vec!["same/page.tsx", "same/page.jsx"]);
}
