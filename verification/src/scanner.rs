//! The scan: walks a tree, builds a route for each routable directory and
//! keeps one record for each route.
//!
//! Where two page files come to the same route, the one that the walk meets
//! first is kept and the other is reported as a collision.

use vstd::prelude::*;
use crate::builder::{build, build_spec, is_route_record, lemma_route_is_rooted};
use crate::order::{order_of_first, sorted_order};
use crate::segment::SegmentView;
use crate::options::{default_options, OptionsView, ScanOptions};
use crate::tree::{names, Node};
use crate::walker::{
    events_view, first_page, is_page_entry, walk, walk_ordered, walk_spec, WalkEvent,
    WalkEventView,
};
use crate::{distinct_routes, routes_view, RouteInfo, RouteView};

verus! {

/// Why a scan could not start.
#[derive(Clone, Copy, Debug, PartialEq, Eq, Structural)]
pub enum ScanError {
    /// The root does not exist or is no directory.
    InvalidRoot,
}

/// Something the scan passed over without failing.
#[derive(Debug)]
pub enum Diagnostic {
    /// A directory could not be listed; its subtree is missing from the
    /// routes.
    DirectoryReadError { directory: String },
    /// The modification time of a page file could not be read; its route has
    /// none.
    MetadataUnavailable { path: String },
    /// The page file `dropped` comes to the same route as `kept`, which the
    /// walk met first.
    RouteCollision { route: String, kept: String, dropped: String },
}

/// A diagnostic as plain values.
pub enum DiagnosticView {
    DirectoryReadError { directory: Seq<char> },
    MetadataUnavailable { path: Seq<char> },
    RouteCollision { route: Seq<char>, kept: Seq<char>, dropped: Seq<char> },
}

impl View for Diagnostic {
    type V = DiagnosticView;

    open spec fn view(&self) -> DiagnosticView {
        match self {
            Diagnostic::DirectoryReadError { directory } => DiagnosticView::DirectoryReadError {
                directory: directory@,
            },
            Diagnostic::MetadataUnavailable { path } => DiagnosticView::MetadataUnavailable {
                path: path@,
            },
            Diagnostic::RouteCollision { route, kept, dropped } => DiagnosticView::RouteCollision {
                route: route@,
                kept: kept@,
                dropped: dropped@,
            },
        }
    }
}

/// The line that tells a user of the error.
pub open spec fn error_message(e: ScanError) -> Seq<char> {
    match e {
        ScanError::InvalidRoot => "the scan root does not exist or is not a directory"@,
    }
}

/// The line that tells a user of the diagnostic.
pub open spec fn diagnostic_message(d: DiagnosticView) -> Seq<char> {
    match d {
        DiagnosticView::DirectoryReadError { directory } => "cannot read directory '"@ + directory
            + "'; its routes are left out"@,
        DiagnosticView::MetadataUnavailable { path } => "no modification time for '"@ + path + "'"@,
        DiagnosticView::RouteCollision { route, kept, dropped } => "route '"@ + route + "' of '"@
            + dropped + "' is already taken by '"@ + kept + "'"@,
    }
}

impl ScanError {
    /// The line that tells a user of this error.
    pub fn message(&self) -> (m: String)
        ensures
            m@ == error_message(*self),
    {
        match self {
            ScanError::InvalidRoot => String::from_str(
                "the scan root does not exist or is not a directory",
            ),
        }
    }
}

impl Diagnostic {
    /// The line that tells a user of this diagnostic.
    pub fn message(&self) -> (m: String)
        ensures
            m@ == diagnostic_message(self@),
    {
        match self {
            Diagnostic::DirectoryReadError { directory } => {
                let mut m = String::from_str("cannot read directory '");
                m.append(directory.as_str());
                m.append("'; its routes are left out");
                m
            },
            Diagnostic::MetadataUnavailable { path } => {
                let mut m = String::from_str("no modification time for '");
                m.append(path.as_str());
                m.append("'");
                m
            },
            Diagnostic::RouteCollision { route, kept, dropped } => {
                let mut m = String::from_str("route '");
                m.append(route.as_str());
                m.append("' of '");
                m.append(dropped.as_str());
                m.append("' is already taken by '");
                m.append(kept.as_str());
                m.append("'");
                m
            },
        }
    }
}

/// The views of a list of diagnostics.
pub open spec fn diagnostics_view(diagnostics: Seq<Diagnostic>) -> Seq<DiagnosticView> {
    diagnostics.map_values(|d: Diagnostic| d@)
}

/// What a scan found: the routes in the order of the walk, and what it passed
/// over.
#[derive(Debug)]
pub struct ScanReport {
    pub routes: Vec<RouteInfo>,
    pub diagnostics: Vec<Diagnostic>,
}

/// A scan report as plain values.
pub struct ReportView {
    pub routes: Seq<RouteView>,
    pub diagnostics: Seq<DiagnosticView>,
}

impl View for ScanReport {
    type V = ReportView;

    open spec fn view(&self) -> ReportView {
        ReportView {
            routes: routes_view(self.routes@),
            diagnostics: diagnostics_view(self.diagnostics@),
        }
    }
}

/// The position of the first record in `routes` whose route is `route`.
pub open spec fn position_of(routes: Seq<RouteView>, route: Seq<char>) -> Option<int>
    decreases routes.len(),
{
    if routes.len() == 0 {
        None
    } else {
        match position_of(routes.drop_last(), route) {
            Some(i) => Some(i),
            None => if routes.last().route == route {
                Some(routes.len() - 1)
            } else {
                None
            },
        }
    }
}

/// The route record that a walk event stands for, if it is a page.
pub open spec fn built(event: WalkEventView) -> Option<RouteView> {
    match event {
        WalkEventView::Page(c) => Some(build_spec(c.chain, c.page_file, c.modified)),
        WalkEventView::Unreadable { .. } => None,
    }
}

/// The report after one more walk event. An unreadable directory adds a
/// `DirectoryReadError`. A page whose route the report holds already adds a
/// `RouteCollision` and no route. Any other page adds its route, and a
/// `MetadataUnavailable` where its modification time is not known.
pub open spec fn record(report: ReportView, event: WalkEventView) -> ReportView {
    match event {
        WalkEventView::Unreadable { directory } => ReportView {
            routes: report.routes,
            diagnostics: report.diagnostics.push(DiagnosticView::DirectoryReadError { directory }),
        },
        WalkEventView::Page(c) => {
            let r = build_spec(c.chain, c.page_file, c.modified);
            match position_of(report.routes, r.route) {
                Some(i) => ReportView {
                    routes: report.routes,
                    diagnostics: report.diagnostics.push(
                        DiagnosticView::RouteCollision {
                            route: r.route,
                            kept: report.routes[i].path,
                            dropped: r.path,
                        },
                    ),
                },
                None => ReportView {
                    routes: report.routes.push(r),
                    diagnostics: if c.modified is None {
                        report.diagnostics.push(
                            DiagnosticView::MetadataUnavailable { path: r.path },
                        )
                    } else {
                        report.diagnostics
                    },
                },
            }
        },
    }
}

/// The report of a list of walk events, taken in order.
pub open spec fn collect_spec(events: Seq<WalkEventView>) -> ReportView
    decreases events.len(),
{
    if events.len() == 0 {
        ReportView { routes: Seq::empty(), diagnostics: Seq::empty() }
    } else {
        record(collect_spec(events.drop_last()), events.last())
    }
}

/// What a scan of `root` gives in a project with the settings `options`: the
/// report of its walk where the root is a directory, `InvalidRoot` where it
/// is a file or missing.
pub open spec fn scan_spec(root: Node, options: OptionsView) -> Result<ReportView, ScanError> {
    match root {
        Node::Directory { .. } => Ok(collect_spec(walk_spec(root, options))),
        Node::Unreadable => Ok(collect_spec(walk_spec(root, options))),
        _ => Err(ScanError::InvalidRoot),
    }
}

/// Where `position_of` finds a record, it is the first with that route;
/// where it finds none, no record has that route.
pub proof fn lemma_position_of(routes: Seq<RouteView>, route: Seq<char>)
    ensures
        match position_of(routes, route) {
            Some(i) => {
                &&& 0 <= i < routes.len()
                &&& routes[i].route == route
                &&& forall|j: int| 0 <= j < i ==> (#[trigger] routes[j]).route != route
            },
            None => forall|j: int| 0 <= j < routes.len() ==> (#[trigger] routes[j]).route != route,
        },
    decreases routes.len(),
{
    if routes.len() > 0 {
        lemma_position_of(routes.drop_last(), route);
        assert(forall|j: int| 0 <= j < routes.len() - 1 ==> routes.drop_last()[j] == routes[j]);
    }
}

/// Whether the record `r` is what one of the events stands for.
pub open spec fn comes_from(events: Seq<WalkEventView>, r: RouteView) -> bool {
    exists|k: int| 0 <= k < events.len() && built(#[trigger] events[k]) == Some(r)
}

/// Every route of a report was built from one of its events.
pub proof fn lemma_routes_come_from_events(events: Seq<WalkEventView>)
    ensures
        forall|p: int|
            0 <= p < collect_spec(events).routes.len() ==> comes_from(
                events,
                #[trigger] collect_spec(events).routes[p],
            ),
    decreases events.len(),
{
    if events.len() > 0 {
        let rest = events.drop_last();
        let before = collect_spec(rest).routes;
        let after = collect_spec(events).routes;
        lemma_routes_come_from_events(rest);
        assert forall|p: int| 0 <= p < after.len() implies comes_from(
            events,
            #[trigger] after[p],
        ) by {
            if p < before.len() {
                assert(after[p] == before[p]);
                assert(comes_from(rest, before[p]));
                let k = choose|k: int| 0 <= k < rest.len() && built(#[trigger] rest[k]) == Some(
                    before[p],
                );
                assert(events[k] == rest[k]);
            } else {
                assert(built(events[events.len() - 1]) == Some(after[p]));
            }
        }
    }
}

/// Every record of the list is a route record: its route starts with `/`.
pub open spec fn route_records(routes: Seq<RouteView>) -> bool {
    forall|p: int| 0 <= p < routes.len() ==> is_route_record(#[trigger] routes[p])
}

/// Every route of a report starts with `/` and has the description that goes
/// with it.
pub proof fn lemma_collected_routes_are_rooted(events: Seq<WalkEventView>)
    ensures
        route_records(collect_spec(events).routes),
{
    let routes = collect_spec(events).routes;
    lemma_routes_come_from_events(events);
    assert forall|p: int| 0 <= p < routes.len() implies is_route_record(#[trigger] routes[p]) by {
        assert(comes_from(events, routes[p]));
        let k = choose|k: int| 0 <= k < events.len() && built(#[trigger] events[k]) == Some(
            routes[p],
        );
        lemma_route_is_rooted(events[k]->Page_0.chain);
    }
}

/// No two routes of a report are the same.
pub proof fn lemma_collected_routes_are_distinct(events: Seq<WalkEventView>)
    ensures
        distinct_routes(collect_spec(events).routes),
    decreases events.len(),
{
    if events.len() > 0 {
        let before = collect_spec(events.drop_last()).routes;
        lemma_collected_routes_are_distinct(events.drop_last());
        if let Some(r) = built(events.last()) {
            lemma_position_of(before, r.route);
        }
    }
}

/// The first page that comes to a route is the one whose record the report
/// holds for that route.
pub proof fn lemma_first_page_wins(events: Seq<WalkEventView>, first: int)
    requires
        0 <= first < events.len(),
        built(events[first]) is Some,
        forall|j: int|
            0 <= j < first && built(#[trigger] events[j]) is Some ==> built(events[j])->0.route
                != built(events[first])->0.route,
    ensures
        position_of(collect_spec(events).routes, built(events[first])->0.route) matches Some(p)
            && collect_spec(events).routes[p] == built(events[first])->0,
    decreases events.len(),
{
    let rest = events.drop_last();
    let before = collect_spec(rest).routes;
    let r = built(events[first])->0;
    if first == events.len() - 1 {
        lemma_routes_come_from_events(rest);
        lemma_position_of(before, r.route);
        if let Some(p) = position_of(before, r.route) {
            assert(comes_from(rest, before[p]));
            let k = choose|k: int| 0 <= k < rest.len() && built(#[trigger] rest[k]) == Some(
                before[p],
            );
            assert(events[k] == rest[k]);
            assert(false);
        }
        assert(before.push(r).drop_last() =~= before);
    } else {
        assert(rest[first] == events[first]);
        assert forall|j: int| 0 <= j < first && built(#[trigger] rest[j]) is Some implies built(
            rest[j],
        )->0.route != r.route by {
            assert(rest[j] == events[j]);
        }
        lemma_first_page_wins(rest, first);
        let p = position_of(before, r.route)->0;
        lemma_position_of(before, r.route);
        if let Some(x) = built(events.last()) {
            if position_of(before, x.route) is None {
                assert(before.push(x).drop_last() =~= before);
            }
        }
    }
}

/// Every page of the walk has its route in the report.
pub proof fn lemma_every_page_has_its_route(events: Seq<WalkEventView>, k: int)
    requires
        0 <= k < events.len(),
        built(events[k]) is Some,
    ensures
        position_of(collect_spec(events).routes, built(events[k])->0.route) is Some,
    decreases events.len(),
{
    let rest = events.drop_last();
    let before = collect_spec(rest).routes;
    let r = built(events[k])->0;
    if k < events.len() - 1 {
        assert(rest[k] == events[k]);
        lemma_every_page_has_its_route(rest, k);
        if let Some(x) = built(events.last()) {
            if position_of(before, x.route) is None {
                assert(before.push(x).drop_last() =~= before);
            }
        }
    } else {
        if position_of(before, r.route) is None {
            assert(before.push(r).drop_last() =~= before);
        }
    }
}

/// A root that holds one page file and nothing else has one route: `/`,
/// labelled `Home`, with the page file as its path.
pub proof fn lemma_lone_page_is_home(root: Node, options: OptionsView)
    requires
        root matches Node::Directory { entries } && entries@.len() == 1 && is_page_entry(
            entries@[0],
            options.page_stem,
        ),
    ensures
        scan_spec(root, options) matches Ok(report) && report.routes.len() == 1
            && report.routes[0].route == seq!['/'] && report.routes[0].label == "Home"@
            && report.routes[0].path == root->entries@[0].name@,
{
    let entries = root->entries@;
    let keys = names(entries);
    let no_chain = Seq::<SegmentView>::empty();
    let no_path = Seq::<char>::empty();
    assert(sorted_order(keys) =~= seq![0int]) by {
        reveal_with_fuel(order_of_first, 2);
        assert(keys.len() == 1);
    }
    let order = seq![0int];
    assert(order.drop_last() =~= Seq::<int>::empty());
    assert(first_page(entries, order, options.page_stem) == Some(0int)) by {
        reveal_with_fuel(first_page, 2);
    }
    assert(walk_ordered(no_chain, no_path, entries, order, options) =~= Seq::empty()) by {
        reveal_with_fuel(walk_ordered, 2);
    }
    let events = walk_spec(root, options);
    assert(events.len() == 1);
    assert(events.drop_last() =~= Seq::<WalkEventView>::empty());
    assert(collect_spec(events).routes.len() == 1) by {
        reveal_with_fuel(collect_spec, 2);
    }
    lemma_route_is_rooted(no_chain);
}

/// Finds the first record whose route is `route`.
pub fn find_route(routes: &Vec<RouteInfo>, route: &String) -> (found: Option<usize>)
    ensures
        match found {
            Some(i) => position_of(routes_view(routes@), route@) == Some(i as int) && i
                < routes@.len(),
            None => position_of(routes_view(routes@), route@) is None,
        },
{
    let ghost views = routes_view(routes@);
    let mut i: usize = 0;
    while i < routes.len()
        invariant
            i <= routes.len(),
            views == routes_view(routes@),
            position_of(views.take(i as int), route@) is None,
        decreases routes.len() - i,
    {
        proof {
            assert(views.take(i + 1).drop_last() =~= views.take(i as int));
            assert(views.take(i + 1).last() == routes@[i as int]@);
        }
        if routes[i].route == *route {
            proof {
                lemma_position_stays(views, route@, i + 1);
            }
            return Some(i);
        }
        i += 1;
    }
    assert(views.take(routes.len() as int) =~= views);
    None
}

/// A position found among the first `n` records is the position among all.
proof fn lemma_position_stays(routes: Seq<RouteView>, route: Seq<char>, n: int)
    requires
        0 <= n <= routes.len(),
        position_of(routes.take(n), route) is Some,
    ensures
        position_of(routes, route) == position_of(routes.take(n), route),
    decreases routes.len() - n,
{
    if n < routes.len() {
        assert(routes.take(n + 1).drop_last() =~= routes.take(n));
        lemma_position_stays(routes, route, n + 1);
    } else {
        assert(routes.take(n) =~= routes);
    }
}

/// Adds what one walk event stands for to the report.
fn record_event(report: &mut ScanReport, event: &WalkEvent)
    ensures
        final(report)@ == record(old(report)@, event@),
{
    match event {
        WalkEvent::Unreadable { directory } => {
            report.diagnostics.push(Diagnostic::DirectoryReadError { directory: directory.clone() });
            assert(diagnostics_view(report.diagnostics@) =~= diagnostics_view(
                old(report).diagnostics@,
            ).push(DiagnosticView::DirectoryReadError { directory: directory@ }));
        },
        WalkEvent::Page(c) => {
            let r = build(&c.chain, c.page_file.as_str(), c.modified);
            match find_route(&report.routes, &r.route) {
                Some(i) => {
                    let d = Diagnostic::RouteCollision {
                        route: r.route,
                        kept: report.routes[i].path.clone(),
                        dropped: r.path,
                    };
                    report.diagnostics.push(d);
                    assert(diagnostics_view(report.diagnostics@) =~= diagnostics_view(
                        old(report).diagnostics@,
                    ).push(d@));
                },
                None => {
                    if c.modified.is_none() {
                        let d = Diagnostic::MetadataUnavailable { path: r.path.clone() };
                        report.diagnostics.push(d);
                        assert(diagnostics_view(report.diagnostics@) =~= diagnostics_view(
                            old(report).diagnostics@,
                        ).push(d@));
                    }
                    report.routes.push(r);
                    assert(routes_view(report.routes@) =~= routes_view(old(report).routes@).push(
                        r@,
                    ));
                },
            }
        },
    }
}

/// Builds the report of a list of walk events, taken in order.
pub fn collect(events: &Vec<WalkEvent>) -> (report: ScanReport)
    ensures
        report@ == collect_spec(events_view(events@)),
        distinct_routes(routes_view(report.routes@)),
        route_records(routes_view(report.routes@)),
{
    proof {
        lemma_collected_routes_are_distinct(events_view(events@));
        lemma_collected_routes_are_rooted(events_view(events@));
    }
    let ghost views = events_view(events@);
    let mut report = ScanReport { routes: Vec::new(), diagnostics: Vec::new() };
    assert(routes_view(report.routes@) =~= Seq::empty());
    assert(diagnostics_view(report.diagnostics@) =~= Seq::empty());
    let mut i: usize = 0;
    while i < events.len()
        invariant
            i <= events.len(),
            views == events_view(events@),
            report@ == collect_spec(views.take(i as int)),
        decreases events.len() - i,
    {
        proof {
            assert(views.take(i + 1).drop_last() =~= views.take(i as int));
            assert(views.take(i + 1).last() == events@[i as int]@);
        }
        record_event(&mut report, &events[i]);
        i += 1;
    }
    assert(views.take(events.len() as int) =~= views);
    report
}

/// Scans the tree under `root` in a project with the settings `options`:
/// the routes in the order of the walk, one for each route, and what the
/// scan passed over. Fails where the root does not exist or is no directory.
pub fn scan_report(root: &Node, options: &ScanOptions) -> (r: Result<ScanReport, ScanError>)
    ensures
        r is Ok <==> (*root is Directory || *root is Unreadable),
        r matches Ok(report) ==> scan_spec(*root, options@) == Ok::<ReportView, ScanError>(
            report@,
        ),
        r matches Ok(report) ==> distinct_routes(routes_view(report.routes@)),
        r matches Ok(report) ==> route_records(routes_view(report.routes@)),
        r matches Err(e) ==> scan_spec(*root, options@) == Err::<ReportView, ScanError>(e),
{
    match root {
        Node::Directory { .. } | Node::Unreadable => {
            let events = walk(root, options);
            Ok(collect(&events))
        },
        _ => Err(ScanError::InvalidRoot),
    }
}

/// Scans the tree under `root` in a project with the settings `options` and
/// gives the routes, in the order of the walk. Fails where the root does not
/// exist or is no directory.
pub fn scan_with(root: &Node, options: &ScanOptions) -> (r: Result<Vec<RouteInfo>, ScanError>)
    ensures
        r is Ok <==> (*root is Directory || *root is Unreadable),
        r matches Ok(routes) ==> scan_spec(*root, options@) matches Ok(report) && report.routes
            == routes_view(routes@),
        r matches Ok(routes) ==> distinct_routes(routes_view(routes@)),
        r matches Ok(routes) ==> route_records(routes_view(routes@)),
        r matches Err(e) ==> scan_spec(*root, options@) == Err::<ReportView, ScanError>(e),
{
    match scan_report(root, options) {
        Ok(report) => Ok(report.routes),
        Err(e) => Err(e),
    }
}

/// Scans the tree under `root` with the usual settings and gives the routes,
/// in the order of the walk. Fails where the root does not exist or is no
/// directory.
pub fn scan(root: &Node) -> (r: Result<Vec<RouteInfo>, ScanError>)
    ensures
        r is Ok <==> (*root is Directory || *root is Unreadable),
        r matches Ok(routes) ==> scan_spec(*root, default_options()) matches Ok(report)
            && report.routes == routes_view(routes@),
        r matches Ok(routes) ==> distinct_routes(routes_view(routes@)),
        r matches Ok(routes) ==> route_records(routes_view(routes@)),
        r matches Err(e) ==> scan_spec(*root, default_options()) == Err::<ReportView, ScanError>(e),
{
    let options = ScanOptions::default();
    scan_with(root, &options)
}

} // verus!
