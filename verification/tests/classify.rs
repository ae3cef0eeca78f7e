use route_sitemap::options::ScanOptions;
use route_sitemap::segment::{classify, classify_innermost, classify_with, Segment, SegmentKind};

fn kind_and_name(text: &str) -> (SegmentKind, String) {
    classify(text)
}

#[test]
fn static_text_is_its_own_name() {
    assert_eq!(kind_and_name("about"), (SegmentKind::Static, "about".to_string()));
}

#[test]
fn empty_text_is_static() {
    assert_eq!(kind_and_name(""), (SegmentKind::Static, String::new()));
}

#[test]
fn single_brackets_are_dynamic() {
    assert_eq!(kind_and_name("[slug]"), (SegmentKind::Dynamic, "slug".to_string()));
    assert_eq!(kind_and_name("[]"), (SegmentKind::Dynamic, String::new()));
}

#[test]
fn brackets_with_ellipsis_are_catch_all() {
    assert_eq!(kind_and_name("[...path]"), (SegmentKind::CatchAll, "path".to_string()));
    assert_eq!(kind_and_name("[...]"), (SegmentKind::CatchAll, String::new()));
}

#[test]
fn double_brackets_with_ellipsis_are_optional_catch_all() {
    assert_eq!(kind_and_name("[[...path]]"), (SegmentKind::OptionalCatchAll, "path".to_string()));
    assert_eq!(kind_and_name("[[...]]"), (SegmentKind::OptionalCatchAll, String::new()));
}

#[test]
fn double_brackets_without_ellipsis_are_dynamic() {
    assert_eq!(kind_and_name("[[id]]"), (SegmentKind::Dynamic, "[id]".to_string()));
}

#[test]
fn unclosed_bracket_is_static() {
    assert_eq!(kind_and_name("[slug"), (SegmentKind::Static, "[slug".to_string()));
    assert_eq!(kind_and_name("slug]"), (SegmentKind::Static, "slug]".to_string()));
}

#[test]
fn parentheses_are_route_group() {
    assert_eq!(kind_and_name("(marketing)"), (SegmentKind::RouteGroup, "marketing".to_string()));
    assert_eq!(kind_and_name("()"), (SegmentKind::RouteGroup, String::new()));
}

#[test]
fn at_sign_is_parallel_slot() {
    assert_eq!(kind_and_name("@modal"), (SegmentKind::ParallelSlot, "modal".to_string()));
    assert_eq!(kind_and_name("@"), (SegmentKind::ParallelSlot, String::new()));
}

#[test]
fn dotted_markers_are_intercepting() {
    assert_eq!(kind_and_name("(.)photo"), (SegmentKind::Intercepting, "photo".to_string()));
    assert_eq!(kind_and_name("(..)photo"), (SegmentKind::Intercepting, "photo".to_string()));
    assert_eq!(kind_and_name("(...)photo"), (SegmentKind::Intercepting, "photo".to_string()));
    assert_eq!(kind_and_name("(....)photo"), (SegmentKind::Intercepting, "photo".to_string()));
    assert_eq!(kind_and_name("(.)"), (SegmentKind::Intercepting, String::new()));
}

#[test]
fn intercepting_comes_before_route_group() {
    assert_eq!(kind_and_name("(..)"), (SegmentKind::Intercepting, String::new()));
    assert_eq!(kind_and_name("(.)(shop)"), (SegmentKind::Intercepting, "(shop)".to_string()));
}

#[test]
fn five_dots_are_no_marker() {
    assert_eq!(kind_and_name("(.....)"), (SegmentKind::RouteGroup, ".....".to_string()));
    assert_eq!(kind_and_name("(.....)photo"), (SegmentKind::Static, "(.....)photo".to_string()));
}

#[test]
fn intercepting_keeps_only_the_first_marker_off() {
    assert_eq!(kind_and_name("(..)(..)photo"), (SegmentKind::Intercepting, "(..)photo".to_string()));
}

#[test]
fn innermost_takes_every_marker_off() {
    assert_eq!(classify_innermost("(..)(..)photo"), (SegmentKind::Static, "photo".to_string()));
    assert_eq!(classify_innermost("(.)[id]"), (SegmentKind::Dynamic, "id".to_string()));
    assert_eq!(classify_innermost("about"), (SegmentKind::Static, "about".to_string()));
    assert_eq!(classify_innermost("(.)@slot"), (SegmentKind::ParallelSlot, "slot".to_string()));
}

#[test]
fn dot_directories_and_node_modules_are_ignored() {
    assert_eq!(kind_and_name(".git"), (SegmentKind::Ignored, ".git".to_string()));
    assert_eq!(kind_and_name("."), (SegmentKind::Ignored, ".".to_string()));
    assert_eq!(kind_and_name("node_modules"), (SegmentKind::Ignored, "node_modules".to_string()));
}

#[test]
fn names_near_node_modules_are_static() {
    assert_eq!(kind_and_name("node_module"), (SegmentKind::Static, "node_module".to_string()));
    assert_eq!(kind_and_name("node_modules2"), (SegmentKind::Static, "node_modules2".to_string()));
    assert_eq!(kind_and_name("Node_modules"), (SegmentKind::Static, "Node_modules".to_string()));
}

#[test]
fn classification_is_repeatable() {
    for text in ["about", "[slug]", "(.)photo", "@modal", ".git", "[[...all]]", "h\u{e9}llo"] {
        assert_eq!(classify(text), classify(text));
    }
}

#[test]
fn text_beyond_ascii_is_classified_by_characters() {
    assert_eq!(kind_and_name("[\u{e9}t\u{e9}]"), (SegmentKind::Dynamic, "\u{e9}t\u{e9}".to_string()));
    assert_eq!(kind_and_name("caf\u{e9}"), (SegmentKind::Static, "caf\u{e9}".to_string()));
}

#[test]
fn excluded_name_is_ignored() {
    let options = ScanOptions { page_stem: "page".to_string(), exclusions: vec!["api".to_string()] };
    assert_eq!(classify_with("api", &options), (SegmentKind::Ignored, "api".to_string()));
    assert_eq!(classify_with("apis", &options), (SegmentKind::Static, "apis".to_string()));
    assert_eq!(classify_with("[api]", &options), (SegmentKind::Dynamic, "api".to_string()));
}

#[test]
fn exclusion_does_not_overrule_an_earlier_shape() {
    let options =
        ScanOptions { page_stem: "page".to_string(), exclusions: vec!["(shop)".to_string()] };
    assert_eq!(classify_with("(shop)", &options), (SegmentKind::RouteGroup, "shop".to_string()));
}

#[test]
fn default_options_are_page_and_no_exclusions() {
    let options = ScanOptions::default();
    assert_eq!(options.page_stem, "page");
    assert!(options.exclusions.is_empty());
    assert!(!options.excludes("api"));
}

#[test]
fn segment_holds_raw_kind_and_name() {
    let s = Segment::from_text("[...rest]");
    assert_eq!(s.raw, "[...rest]");
    assert_eq!(s.kind, SegmentKind::CatchAll);
    assert_eq!(s.name, "rest");
    let copy = s.clone();
    assert_eq!(copy.raw, s.raw);
    assert_eq!(copy.kind, s.kind);
    assert_eq!(copy.name, s.name);
}

#[test]
fn intercepting_segment_resolves_to_what_it_wraps() {
    let s = Segment::from_text("(.)[id]");
    assert_eq!(s.kind, SegmentKind::Intercepting);
    assert_eq!(s.name, "[id]");
    assert_eq!(s.resolve(), (SegmentKind::Dynamic, "id".to_string()));
    let plain = Segment::from_text("(group)");
    assert_eq!(plain.resolve(), (SegmentKind::RouteGroup, "group".to_string()));
}
