//! Assembly of one route from the chain of segments that leads to a page.
//!
//! Placeholders: a dynamic segment `[name]` reads `:name` in the route, a
//! catch-all `[...name]` reads `:name+`, an optional catch-all `[[...name]]`
//! reads `:name*`. Route groups, parallel slots, ignored names and
//! intercepting markers leave no text in the route.

use vstd::prelude::*;
use crate::segment::{
    chain_view, classify_spec, resolved, segment_of, Segment, SegmentKind, SegmentView,
};
use crate::text::push_char;
use crate::{RouteInfo, RouteView, Timestamp};

verus! {

/// Whether a segment of this kind puts text into the URL.
pub open spec fn contributes(kind: SegmentKind) -> bool {
    kind == SegmentKind::Static || kind == SegmentKind::Dynamic || kind == SegmentKind::CatchAll
        || kind == SegmentKind::OptionalCatchAll
}

/// The text that a segment puts into the URL, if any.
pub open spec fn url_part(s: SegmentView) -> Option<Seq<char>> {
    let r = resolved(s.kind, s.name);
    match r.0 {
        SegmentKind::Static => Some(r.1),
        SegmentKind::Dynamic => Some(seq![':'] + r.1),
        SegmentKind::CatchAll => Some(seq![':'] + r.1 + seq!['+']),
        SegmentKind::OptionalCatchAll => Some(seq![':'] + r.1 + seq!['*']),
        _ => None,
    }
}

/// The URL parts of the chain, each behind a `/`.
pub open spec fn joined_parts(chain: Seq<SegmentView>) -> Seq<char>
    decreases chain.len(),
{
    if chain.len() == 0 {
        Seq::empty()
    } else {
        match url_part(chain.last()) {
            Some(part) => joined_parts(chain.drop_last()) + seq!['/'] + part,
            None => joined_parts(chain.drop_last()),
        }
    }
}

/// The route of a chain: its URL parts, each behind a `/`; `/` alone where no
/// segment puts text into the URL.
pub open spec fn route_of(chain: Seq<SegmentView>) -> Seq<char> {
    if joined_parts(chain).len() == 0 {
        seq!['/']
    } else {
        joined_parts(chain)
    }
}

/// The logical name of the last segment of the chain that puts text into the
/// URL.
pub open spec fn last_name(chain: Seq<SegmentView>) -> Option<Seq<char>>
    decreases chain.len(),
{
    if chain.len() == 0 {
        None
    } else {
        let r = resolved(chain.last().kind, chain.last().name);
        if contributes(r.0) {
            Some(r.1)
        } else {
            last_name(chain.drop_last())
        }
    }
}

/// An ASCII lower-case letter as its upper-case letter; any other character
/// as it is.
pub open spec fn ascii_upper(c: char) -> char {
    if 'a' <= c <= 'z' {
        ((c as u8) - 32) as char
    } else {
        c
    }
}

/// Whether `c` parts two words of a name.
pub open spec fn is_word_break(c: char) -> bool {
    c == '-' || c == '_'
}

/// A name in title case: each hyphen or underscore becomes a space, and the
/// first character of the name and each character behind a hyphen or
/// underscore is put in ASCII upper case.
pub open spec fn title_case(name: Seq<char>) -> Seq<char> {
    Seq::new(
        name.len(),
        |i: int|
            if is_word_break(name[i]) {
                ' '
            } else if i == 0 || is_word_break(name[i - 1]) {
                ascii_upper(name[i])
            } else {
                name[i]
            },
    )
}

/// The label of a chain: the title-cased logical name of the last segment
/// that puts text into the URL; `Home` where there is none.
pub open spec fn label_of(chain: Seq<SegmentView>) -> Seq<char> {
    match last_name(chain) {
        Some(name) => title_case(name),
        None => "Home"@,
    }
}

/// The description that goes with a route.
pub open spec fn description_of(route: Seq<char>) -> Seq<char> {
    "Page at "@ + route
}

/// The route record of the page at `page_file_path`, reached by `chain`.
pub open spec fn build_spec(
    chain: Seq<SegmentView>,
    page_file_path: Seq<char>,
    last_modified: Option<Timestamp>,
) -> RouteView {
    RouteView {
        route: route_of(chain),
        path: page_file_path,
        label: label_of(chain),
        description: description_of(route_of(chain)),
        last_modified,
    }
}

/// What holds of every record that is built from a chain: its route starts
/// with `/` and its description goes with its route.
pub open spec fn is_route_record(r: RouteView) -> bool {
    &&& r.route.len() >= 1
    &&& r.route[0] == '/'
    &&& r.description == description_of(r.route)
}

/// A route starts with `/`. The route of the empty chain, which is that of
/// the root, is `/` alone and its label is `Home`.
pub proof fn lemma_route_is_rooted(chain: Seq<SegmentView>)
    ensures
        route_of(chain).len() >= 1,
        route_of(chain)[0] == '/',
        chain.len() == 0 ==> route_of(chain) == seq!['/'] && label_of(chain) == "Home"@,
    decreases chain.len(),
{
    if chain.len() > 0 {
        lemma_route_is_rooted(chain.drop_last());
        if joined_parts(chain.drop_last()).len() == 0 {
            assert(joined_parts(chain.drop_last()) =~= Seq::empty());
        }
    }
}

/// A route group, a parallel slot and an ignored name put no text into the
/// URL.
pub proof fn lemma_markers_are_silent(s: SegmentView)
    requires
        s.kind == SegmentKind::RouteGroup || s.kind == SegmentKind::ParallelSlot || s.kind
            == SegmentKind::Ignored,
    ensures
        url_part(s) is None,
{
}

/// An intercepting marker puts no text into the URL: a segment with a marker
/// puts in what the segment behind the marker puts in.
pub proof fn lemma_marker_is_silent(raw: Seq<char>)
    requires
        classify_spec(raw).0 == SegmentKind::Intercepting,
    ensures
        url_part(segment_of(raw)) == url_part(segment_of(classify_spec(raw).1)),
{
}

/// A segment that puts no text into the URL leaves no trace in the record:
/// with it or without it at any place of the chain, route, label and
/// description are the same.
pub proof fn lemma_silent_segment(
    before: Seq<SegmentView>,
    s: SegmentView,
    after: Seq<SegmentView>,
)
    requires
        url_part(s) is None,
    ensures
        route_of(before.push(s) + after) == route_of(before + after),
        label_of(before.push(s) + after) == label_of(before + after),
        description_of(route_of(before.push(s) + after)) == description_of(
            route_of(before + after),
        ),
{
    lemma_silent_parts(before, s, after);
}

proof fn lemma_silent_parts(before: Seq<SegmentView>, s: SegmentView, after: Seq<SegmentView>)
    requires
        url_part(s) is None,
    ensures
        joined_parts(before.push(s) + after) == joined_parts(before + after),
        last_name(before.push(s) + after) == last_name(before + after),
    decreases after.len(),
{
    let with = before.push(s) + after;
    let without = before + after;
    if after.len() == 0 {
        assert(with =~= before.push(s));
        assert(without =~= before);
        assert(with.drop_last() =~= before);
    } else {
        lemma_silent_parts(before, s, after.drop_last());
        assert(with.drop_last() =~= before.push(s) + after.drop_last());
        assert(without.drop_last() =~= before + after.drop_last());
        assert(with.last() == after.last());
        assert(without.last() == after.last());
    }
}

/// Puts an ASCII lower-case letter in upper case.
pub fn to_ascii_upper(c: char) -> (u: char)
    ensures
        u == ascii_upper(c),
{
    if 'a' <= c && c <= 'z' {
        ((c as u8) - 32) as char
    } else {
        c
    }
}

/// Puts a name in title case.
pub fn to_title_case(name: &str) -> (t: String)
    ensures
        t@ == title_case(name@),
{
    let v = crate::text::chars_of(name);
    let mut t = String::new();
    let mut i: usize = 0;
    while i < v.len()
        invariant
            i <= v.len(),
            v@ == name@,
            t@ == title_case(name@).take(i as int),
        decreases v.len() - i,
    {
        let c = v[i];
        let out = if c == '-' || c == '_' {
            ' '
        } else if i == 0 || v[i - 1] == '-' || v[i - 1] == '_' {
            to_ascii_upper(c)
        } else {
            c
        };
        push_char(&mut t, out);
        assert(t@ =~= title_case(name@).take(i + 1));
        i += 1;
    }
    assert(t@ =~= title_case(name@));
    t
}

/// Builds the route record of the page at `page_file_path`, reached by
/// `chain`, whose file was last modified at `last_modified`.
pub fn build(
    chain: &Vec<Segment>,
    page_file_path: &str,
    last_modified: Option<Timestamp>,
) -> (r: RouteInfo)
    ensures
        r@ == build_spec(chain_view(chain@), page_file_path@, last_modified),
        is_route_record(r@),
{
    let ghost views = chain_view(chain@);
    proof {
        lemma_route_is_rooted(views);
    }
    let mut joined = String::new();
    let mut name: Option<String> = None;
    let mut i: usize = 0;
    while i < chain.len()
        invariant
            i <= chain.len(),
            views == chain_view(chain@),
            joined@ == joined_parts(views.take(i as int)),
            name is Some == last_name(views.take(i as int)) is Some,
            name matches Some(n) ==> last_name(views.take(i as int)) == Some(n@),
        decreases chain.len() - i,
    {
        let (kind, text) = chain[i].resolve();
        proof {
            assert(views.take(i + 1).drop_last() =~= views.take(i as int));
            assert(views.take(i + 1).last() == chain@[i as int]@);
        }
        match kind {
            SegmentKind::Static => {
                joined.append("/");
                joined.append(text.as_str());
                name = Some(text);
            },
            SegmentKind::Dynamic => {
                joined.append("/:");
                joined.append(text.as_str());
                name = Some(text);
            },
            SegmentKind::CatchAll => {
                joined.append("/:");
                joined.append(text.as_str());
                joined.append("+");
                name = Some(text);
            },
            SegmentKind::OptionalCatchAll => {
                joined.append("/:");
                joined.append(text.as_str());
                joined.append("*");
                name = Some(text);
            },
            _ => {},
        }
        proof {
            reveal_strlit("/");
            reveal_strlit("/:");
            reveal_strlit("+");
            reveal_strlit("*");
            assert(joined@ =~= joined_parts(views.take(i + 1)));
        }
        i += 1;
    }
    assert(views.take(chain.len() as int) =~= views);
    let route = if joined.as_str().unicode_len() == 0 {
        proof {
            reveal_strlit("/");
        }
        assert("/"@ =~= seq!['/']);
        String::from_str("/")
    } else {
        joined
    };
    let label = match name {
        Some(n) => to_title_case(n.as_str()),
        None => String::from_str("Home"),
    };
    let mut description = String::from_str("Page at ");
    description.append(route.as_str());
    RouteInfo { route, path: String::from_str(page_file_path), label, description, last_modified }
}

} // verus!
