//! The sitemap as JSON text: an array with one object for each route, in the
//! order of the list.
//!
//! The text is laid out for reading: the array's brackets on lines of their
//! own, each object indented by two spaces and its members by four. An object
//! has the members `route`, `path`, `label`, `description` and
//! `last_modified`, in that order; a route without a known time has `null`
//! there. The empty list is `[]`. The text ends without a line break.

use vstd::prelude::*;
use crate::text::optional_text;
use crate::{routes_view, RouteInfo, RouteView, Timestamp};

verus! {

/// The JSON text of the string `text`, quotes and escapes included, as
/// serde_json writes it; `None` where serde_json reports an error.
pub uninterp spec fn json_string_text(text: Seq<char>) -> Option<Seq<char>>;

/// Writes a string as JSON with `serde_json::to_string`. The text depends on
/// the string alone.
#[verifier::external_body]
fn json_string(text: &str) -> (r: Option<String>)
    ensures
        optional_text(r) == json_string_text(text@),
{
    serde_json::to_string(text).ok()
}

/// The JSON text of the time `secs` seconds and `nanos` nanoseconds after the
/// Unix epoch, as serde_json writes what chrono makes of the two numbers;
/// `None` where serde_json reports an error.
pub uninterp spec fn json_time_text(secs: i64, nanos: u32) -> Option<Seq<char>>;

/// Writes a time as JSON: `DateTime::from_timestamp` of chrono makes the UTC
/// date and time, if the two numbers stand for one, and
/// `serde_json::to_string` writes it as chrono serialises it. The text
/// depends on the two numbers alone.
#[verifier::external_body]
fn json_time(secs: i64, nanos: u32) -> (r: Option<String>)
    ensures
        optional_text(r) == json_time_text(secs, nanos),
{
    serde_json::to_string(&chrono::DateTime::from_timestamp(secs, nanos)).ok()
}

/// The JSON value of a route's modification time: `null` where it has none.
pub open spec fn json_time_value(last_modified: Option<Timestamp>) -> Option<Seq<char>> {
    match last_modified {
        Some(t) => json_time_text(t.secs, t.nanos),
        None => Some("null"@),
    }
}

/// The object of a route whose members have the JSON values given.
pub open spec fn json_object(
    route: Seq<char>,
    path: Seq<char>,
    label: Seq<char>,
    description: Seq<char>,
    last_modified: Seq<char>,
) -> Seq<char> {
    "  {\n    \"route\": "@ + route + ",\n    \"path\": "@ + path + ",\n    \"label\": "@ + label
        + ",\n    \"description\": "@ + description + ",\n    \"last_modified\": "@ + last_modified
        + "\n  }"@
}

/// The object of a route; `None` where one of its members cannot be written.
pub open spec fn json_record(r: RouteView) -> Option<Seq<char>> {
    if json_string_text(r.route) is Some && json_string_text(r.path) is Some && json_string_text(
        r.label,
    ) is Some && json_string_text(r.description) is Some && json_time_value(r.last_modified)
        is Some {
        Some(
            json_object(
                json_string_text(r.route)->0,
                json_string_text(r.path)->0,
                json_string_text(r.label)->0,
                json_string_text(r.description)->0,
                json_time_value(r.last_modified)->0,
            ),
        )
    } else {
        None
    }
}

/// The objects of the routes, in the order of the list, with a comma and a
/// line break between two of them; `None` where one cannot be written.
pub open spec fn json_objects(routes: Seq<RouteView>) -> Option<Seq<char>>
    decreases routes.len(),
{
    if routes.len() == 0 {
        Some(Seq::empty())
    } else if routes.len() == 1 {
        json_record(routes[0])
    } else {
        match (json_objects(routes.drop_last()), json_record(routes.last())) {
            (Some(before), Some(object)) => Some(before + ",\n"@ + object),
            _ => None,
        }
    }
}

/// The JSON text of the list of routes; `None` where a route cannot be
/// written.
pub open spec fn json_document(routes: Seq<RouteView>) -> Option<Seq<char>> {
    if routes.len() == 0 {
        Some("[]"@)
    } else {
        match json_objects(routes) {
            Some(body) => Some("[\n"@ + body + "\n]"@),
            None => None,
        }
    }
}

/// The objects stand in the text in the order of the list: those of a list in
/// two parts are those of the first part, a comma and a line break, and those
/// of the second part.
pub proof fn lemma_objects_follow_the_list(first: Seq<RouteView>, second: Seq<RouteView>)
    requires
        first.len() > 0,
        second.len() > 0,
    ensures
        json_objects(first + second) == match (json_objects(first), json_objects(second)) {
            (Some(a), Some(b)) => Some(a + ",\n"@ + b),
            _ => None::<Seq<char>>,
        },
    decreases second.len(),
{
    let whole = first + second;
    assert(whole.last() == second.last());
    if second.len() == 1 {
        assert(whole.drop_last() =~= first);
    } else {
        let rest = second.drop_last();
        lemma_objects_follow_the_list(first, rest);
        assert(whole.drop_last() =~= first + rest);
        if let (Some(a), Some(b), Some(c)) = (
            json_objects(first),
            json_objects(rest),
            json_record(second.last()),
        ) {
            assert((a + ",\n"@ + b) + ",\n"@ + c =~= a + ",\n"@ + (b + ",\n"@ + c));
        }
    }
}

/// Writes the object of a route from the JSON values of its members.
pub fn render_object(
    route: &str,
    path: &str,
    label: &str,
    description: &str,
    last_modified: &str,
) -> (r: String)
    ensures
        r@ == json_object(route@, path@, label@, description@, last_modified@),
{
    let mut r = String::from_str("  {\n    \"route\": ");
    r.append(route);
    r.append(",\n    \"path\": ");
    r.append(path);
    r.append(",\n    \"label\": ");
    r.append(label);
    r.append(",\n    \"description\": ");
    r.append(description);
    r.append(",\n    \"last_modified\": ");
    r.append(last_modified);
    r.append("\n  }");
    r
}

/// Writes the object of a route; `None` where one of its members cannot be
/// written.
pub fn render_record(record: &RouteInfo) -> (r: Option<String>)
    ensures
        optional_text(r) == json_record(record@),
{
    let route = json_string(record.route.as_str());
    let path = json_string(record.path.as_str());
    let label = json_string(record.label.as_str());
    let description = json_string(record.description.as_str());
    let time = match record.last_modified {
        Some(t) => json_time(t.secs, t.nanos),
        None => Some(String::from_str("null")),
    };
    match (route, path, label, description, time) {
        (Some(route), Some(path), Some(label), Some(description), Some(time)) => Some(
            render_object(
                route.as_str(),
                path.as_str(),
                label.as_str(),
                description.as_str(),
                time.as_str(),
            ),
        ),
        _ => None,
    }
}

/// Writes the JSON text of the list of routes, in the order of the list;
/// `None` where a route cannot be written.
pub fn generate(routes: &[RouteInfo]) -> (r: Option<String>)
    ensures
        optional_text(r) == json_document(routes_view(routes@)),
{
    if routes.len() == 0 {
        return Some(String::from_str("[]"));
    }
    let ghost views = routes_view(routes@);
    let mut body: Option<String> = Some(String::new());
    let mut i: usize = 0;
    while i < routes.len()
        invariant
            i <= routes.len(),
            views == routes_view(routes@),
            optional_text(body) == json_objects(views.take(i as int)),
        decreases routes.len() - i,
    {
        proof {
            assert(views.take(i + 1).drop_last() =~= views.take(i as int));
            assert(views.take(i + 1).last() == routes@[i as int]@);
        }
        let object = render_record(&routes[i]);
        body = if i == 0 {
            object
        } else {
            match (body, object) {
                (Some(mut text), Some(object)) => {
                    text.append(",\n");
                    text.append(object.as_str());
                    Some(text)
                },
                _ => None,
            }
        };
        i += 1;
    }
    assert(views.take(routes.len() as int) =~= views);
    match body {
        Some(body) => {
            let mut text = String::from_str("[\n");
            text.append(body.as_str());
            text.append("\n]");
            Some(text)
        },
        None => None,
    }
}

} // verus!
