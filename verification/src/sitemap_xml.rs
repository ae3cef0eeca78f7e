//! The sitemap as an XML document: one `url` element for each route, in the
//! order of the list.

use vstd::prelude::*;
use crate::text::{chars_of, optional_text, push_char};
use crate::{routes_view, RouteInfo, RouteView, Timestamp};

verus! {

/// The RFC 3339 text of the time `secs` seconds and `nanos` nanoseconds after
/// the Unix epoch, as chrono writes it; `None` where chrono cannot represent
/// that time.
pub uninterp spec fn rfc3339_text(secs: i64, nanos: u32) -> Option<Seq<char>>;

/// Formats a time with chrono: `DateTime::from_timestamp` makes the UTC
/// date and time, which is `None` for seconds out of chrono's range or
/// nanoseconds that are no valid fraction, and `DateTime::to_rfc3339` writes
/// it. The text depends on the two numbers alone.
#[verifier::external_body]
fn format_rfc3339(secs: i64, nanos: u32) -> (text: Option<String>)
    ensures
        text is Some == rfc3339_text(secs, nanos) is Some,
        text matches Some(t) ==> rfc3339_text(secs, nanos) == Some(t@),
{
    match chrono::DateTime::from_timestamp(secs, nanos) {
        Some(time) => Some(time.to_rfc3339()),
        None => None,
    }
}

/// A character as it stands in XML text: the five characters that XML
/// reserves as their entities, any other as itself.
pub open spec fn escaped_char(c: char) -> Seq<char> {
    if c == '&' {
        "&amp;"@
    } else if c == '<' {
        "&lt;"@
    } else if c == '>' {
        "&gt;"@
    } else if c == '"' {
        "&quot;"@
    } else if c == '\'' {
        "&apos;"@
    } else {
        seq![c]
    }
}

/// A text as it stands in XML text: each character escaped.
pub open spec fn escaped(text: Seq<char>) -> Seq<char>
    decreases text.len(),
{
    if text.len() == 0 {
        Seq::empty()
    } else {
        escaped(text.drop_last()) + escaped_char(text.last())
    }
}

/// The `lastmod` line of an entry; nothing where the time is not known.
pub open spec fn lastmod_line(lastmod: Option<Seq<char>>) -> Seq<char> {
    match lastmod {
        Some(t) => "    <lastmod>"@ + escaped(t) + "</lastmod>\n"@,
        None => Seq::empty(),
    }
}

/// The `url` element of a route: its location is the base URL followed by the
/// route.
pub open spec fn url_entry(base_url: Seq<char>, route: Seq<char>, lastmod: Option<Seq<char>>) -> Seq<
    char,
> {
    "  <url>\n    <loc>"@ + escaped(base_url + route) + "</loc>\n"@ + lastmod_line(lastmod)
        + "  </url>\n"@
}

/// The text of a route's modification time, where it has one that can be
/// written.
pub open spec fn lastmod_of(last_modified: Option<Timestamp>) -> Option<Seq<char>> {
    match last_modified {
        Some(t) => rfc3339_text(t.secs, t.nanos),
        None => None,
    }
}

/// The `url` elements of the routes, in the order of the list.
pub open spec fn url_entries(base_url: Seq<char>, routes: Seq<RouteView>) -> Seq<char>
    decreases routes.len(),
{
    if routes.len() == 0 {
        Seq::empty()
    } else {
        url_entries(base_url, routes.drop_last()) + url_entry(
            base_url,
            routes.last().route,
            lastmod_of(routes.last().last_modified),
        )
    }
}

/// The sitemap document of the routes.
pub open spec fn document(base_url: Seq<char>, routes: Seq<RouteView>) -> Seq<char> {
    "<?xml version=\"1.0\" encoding=\"UTF-8\"?>\n<urlset xmlns=\"http://www.sitemaps.org/schemas/sitemap/0.9\">\n"@
        + url_entries(base_url, routes) + "</urlset>\n"@
}

/// The entries stand in the document in the order of the list: those of a
/// list in two parts are those of the first part followed by those of the
/// second.
pub proof fn lemma_entries_follow_the_list(
    base_url: Seq<char>,
    first: Seq<RouteView>,
    second: Seq<RouteView>,
)
    ensures
        url_entries(base_url, first + second) == url_entries(base_url, first) + url_entries(
            base_url,
            second,
        ),
    decreases second.len(),
{
    if second.len() == 0 {
        assert(first + second =~= first);
        assert(url_entries(base_url, first) + Seq::<char>::empty() =~= url_entries(
            base_url,
            first,
        ));
    } else {
        lemma_entries_follow_the_list(base_url, first, second.drop_last());
        assert((first + second).drop_last() =~= first + second.drop_last());
        assert((first + second).last() == second.last());
        let a = url_entries(base_url, first);
        let b = url_entries(base_url, second.drop_last());
        let c = url_entry(base_url, second.last().route, lastmod_of(second.last().last_modified));
        assert((a + b) + c =~= a + (b + c));
    }
}

/// Escapes a text for XML.
pub fn escape(text: &str) -> (r: String)
    ensures
        r@ == escaped(text@),
{
    let v = chars_of(text);
    let mut r = String::new();
    let mut i: usize = 0;
    while i < v.len()
        invariant
            i <= v.len(),
            v@ == text@,
            r@ == escaped(v@.take(i as int)),
        decreases v.len() - i,
    {
        let c = v[i];
        proof {
            assert(v@.take(i + 1).drop_last() =~= v@.take(i as int));
            assert(v@.take(i + 1).last() == c);
        }
        if c == '&' {
            r.append("&amp;");
        } else if c == '<' {
            r.append("&lt;");
        } else if c == '>' {
            r.append("&gt;");
        } else if c == '"' {
            r.append("&quot;");
        } else if c == '\'' {
            r.append("&apos;");
        } else {
            push_char(&mut r, c);
            assert(r@ =~= escaped(v@.take(i as int)) + seq![c]);
        }
        i += 1;
    }
    assert(v@.take(v.len() as int) =~= v@);
    r
}

/// Writes the `url` element of a route whose modification time reads
/// `lastmod`.
pub fn render_entry(base_url: &str, route: &str, lastmod: &Option<String>) -> (r: String)
    ensures
        r@ == url_entry(base_url@, route@, optional_text(*lastmod)),
{
    let mut location = String::from_str(base_url);
    location.append(route);
    let mut r = String::from_str("  <url>\n    <loc>");
    r.append(escape(location.as_str()).as_str());
    r.append("</loc>\n");
    match lastmod {
        Some(t) => {
            r.append("    <lastmod>");
            r.append(escape(t.as_str()).as_str());
            r.append("</lastmod>\n");
        },
        None => {},
    }
    r.append("  </url>\n");
    assert(r@ =~= url_entry(base_url@, route@, optional_text(*lastmod)));
    r
}

/// Writes the sitemap document of the routes, in the order of the list.
pub fn render(routes: &Vec<RouteInfo>, base_url: &str) -> (r: String)
    ensures
        r@ == document(base_url@, routes_view(routes@)),
{
    let ghost views = routes_view(routes@);
    let mut r = String::from_str(
        "<?xml version=\"1.0\" encoding=\"UTF-8\"?>\n<urlset xmlns=\"http://www.sitemaps.org/schemas/sitemap/0.9\">\n",
    );
    let ghost head = r@;
    let mut i: usize = 0;
    while i < routes.len()
        invariant
            i <= routes.len(),
            views == routes_view(routes@),
            r@ == head + url_entries(base_url@, views.take(i as int)),
        decreases routes.len() - i,
    {
        let lastmod = match routes[i].last_modified {
            Some(t) => format_rfc3339(t.secs, t.nanos),
            None => None,
        };
        proof {
            assert(views.take(i + 1).drop_last() =~= views.take(i as int));
            assert(views.take(i + 1).last() == routes@[i as int]@);
            assert(optional_text(lastmod) == lastmod_of(routes@[i as int].last_modified));
        }
        let entry = render_entry(base_url, routes[i].route.as_str(), &lastmod);
        r.append(entry.as_str());
        assert(r@ =~= head + url_entries(base_url@, views.take(i + 1)));
        i += 1;
    }
    assert(views.take(routes.len() as int) =~= views);
    r.append("</urlset>\n");
    r
}

} // verus!
