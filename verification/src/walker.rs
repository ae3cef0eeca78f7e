//! The walk over a directory tree that finds the routable directories.
//!
//! A directory is visited after its parent, and the directories of one
//! listing in the alphabetical order of their names, so that the order of
//! what is found depends on the tree alone. A directory is routable when it
//! holds a page file: a file with the project's page name, usually `page`,
//! and one extension.

use vstd::prelude::*;
use crate::order::{keys_view, lemma_sorted_order, order_by_key, positions, sorted_order};
use crate::options::{OptionsView, ScanOptions};
use crate::segment::{chain_view, segment_in, Segment, SegmentKind, SegmentView};
use crate::text::chars_of;
use crate::tree::{names, Entry, Node};
use crate::Timestamp;

verus! {

/// A routable directory: the segments that lead to it from the root, its
/// path, the path of its page file and that file's modification time.
#[derive(Debug)]
pub struct Candidate {
    pub chain: Vec<Segment>,
    pub directory: String,
    pub page_file: String,
    pub modified: Option<Timestamp>,
}

/// A candidate as plain values.
pub struct CandidateView {
    pub chain: Seq<SegmentView>,
    pub directory: Seq<char>,
    pub page_file: Seq<char>,
    pub modified: Option<Timestamp>,
}

impl View for Candidate {
    type V = CandidateView;

    open spec fn view(&self) -> CandidateView {
        CandidateView {
            chain: chain_view(self.chain@),
            directory: self.directory@,
            page_file: self.page_file@,
            modified: self.modified,
        }
    }
}

/// What the walk comes upon.
#[derive(Debug)]
pub enum WalkEvent {
    /// A routable directory.
    Page(Candidate),
    /// A directory that could not be listed; its subtree is left out.
    Unreadable { directory: String },
}

/// A walk event as plain values.
pub enum WalkEventView {
    Page(CandidateView),
    Unreadable { directory: Seq<char> },
}

impl View for WalkEvent {
    type V = WalkEventView;

    open spec fn view(&self) -> WalkEventView {
        match self {
            WalkEvent::Page(c) => WalkEventView::Page(c@),
            WalkEvent::Unreadable { directory } => WalkEventView::Unreadable {
                directory: directory@,
            },
        }
    }
}

/// The views of a list of walk events.
pub open spec fn events_view(events: Seq<WalkEvent>) -> Seq<WalkEventView> {
    events.map_values(|e: WalkEvent| e@)
}

/// Whether `name` names a page file: the base name `stem`, a dot, and an
/// extension of at least one character that holds no further dot.
pub open spec fn is_page_file(name: Seq<char>, stem: Seq<char>) -> bool {
    &&& name.len() >= stem.len() + 2
    &&& name.take(stem.len() as int) == stem
    &&& name[stem.len() as int] == '.'
    &&& forall|i: int| stem.len() < i < name.len() ==> name[i] != '.'
}

/// Whether the entry is a page file.
pub open spec fn is_page_entry(entry: Entry, stem: Seq<char>) -> bool {
    entry.node is File && is_page_file(entry.name@, stem)
}

/// The path of `name` inside the directory at `dir`; the root's path is
/// empty.
pub open spec fn child_path(dir: Seq<char>, name: Seq<char>) -> Seq<char> {
    if dir.len() == 0 {
        name
    } else {
        dir + seq!['/'] + name
    }
}

/// The position in `entries` of the first page file along `order`.
pub open spec fn first_page(entries: Seq<Entry>, order: Seq<int>, stem: Seq<char>) -> Option<
    int,
>
    decreases order.len(),
{
    if order.len() == 0 {
        None
    } else {
        match first_page(entries, order.drop_last(), stem) {
            Some(i) => Some(i),
            None => if 0 <= order.last() < entries.len() && is_page_entry(
                entries[order.last()],
                stem,
            ) {
                Some(order.last())
            } else {
                None
            },
        }
    }
}

/// The event for the directory itself: one `Page` where it may be a route
/// and holds a page file, the alphabetically first if there are several.
pub open spec fn page_events(
    chain: Seq<SegmentView>,
    dir: Seq<char>,
    entries: Seq<Entry>,
    yields: bool,
    options: OptionsView,
) -> Seq<WalkEventView> {
    match first_page(entries, sorted_order(names(entries)), options.page_stem) {
        Some(i) => if yields {
            seq![
                WalkEventView::Page(
                    CandidateView {
                        chain,
                        directory: dir,
                        page_file: child_path(dir, entries[i].name@),
                        modified: entries[i].node->modified,
                    },
                ),
            ]
        } else {
            Seq::empty()
        },
        None => Seq::empty(),
    }
}

/// What the walk finds under one entry of the directory at `dir`, which
/// `chain` leads to. A file yields nothing. A directory with an ignored name
/// is skipped. Any other directory is walked with its segment added to the
/// chain, and is itself a candidate unless it is a parallel slot; one that
/// cannot be listed yields `Unreadable`.
pub open spec fn walk_entry(
    chain: Seq<SegmentView>,
    dir: Seq<char>,
    entry: Entry,
    options: OptionsView,
) -> Seq<WalkEventView>
    decreases entry, 0nat,
{
    let segment = segment_in(entry.name@, options.exclusions);
    let path = child_path(dir, entry.name@);
    if segment.kind == SegmentKind::Ignored {
        Seq::empty()
    } else {
        match entry.node {
            Node::Directory { entries } => walk_listing(
                chain.push(segment),
                path,
                entries@,
                segment.kind != SegmentKind::ParallelSlot,
                options,
            ),
            Node::Unreadable => seq![WalkEventView::Unreadable { directory: path }],
            _ => Seq::empty(),
        }
    }
}

/// What the walk finds under the entries at the positions `order`, in that
/// order.
pub open spec fn walk_ordered(
    chain: Seq<SegmentView>,
    dir: Seq<char>,
    entries: Seq<Entry>,
    order: Seq<int>,
    options: OptionsView,
) -> Seq<WalkEventView>
    decreases entries, order.len(),
{
    if order.len() == 0 {
        Seq::empty()
    } else {
        let rest = walk_ordered(chain, dir, entries, order.drop_last(), options);
        if 0 <= order.last() < entries.len() {
            rest + walk_entry(chain, dir, entries[order.last()], options)
        } else {
            rest
        }
    }
}

/// What the walk finds in the directory at `dir` that lists `entries`: the
/// directory itself where `yields` holds and it has a page file, then what is
/// under its entries, taken in the alphabetical order of their names.
pub open spec fn walk_listing(
    chain: Seq<SegmentView>,
    dir: Seq<char>,
    entries: Seq<Entry>,
    yields: bool,
    options: OptionsView,
) -> Seq<WalkEventView>
    decreases entries, sorted_order(names(entries)).len() + 1,
{
    page_events(chain, dir, entries, yields, options) + walk_ordered(
        chain,
        dir,
        entries,
        sorted_order(names(entries)),
        options,
    )
}

/// What the walk from `root` finds. The root has the empty chain and the
/// empty path. A root that is no directory yields nothing.
pub open spec fn walk_spec(root: Node, options: OptionsView) -> Seq<WalkEventView> {
    match root {
        Node::Directory { entries } => walk_listing(
            Seq::empty(),
            Seq::empty(),
            entries@,
            true,
            options,
        ),
        Node::Unreadable => seq![WalkEventView::Unreadable { directory: Seq::empty() }],
        _ => Seq::empty(),
    }
}

/// A chain that may lead to a route: the empty chain of the root, or one whose
/// last segment is neither a parallel slot nor ignored.
pub open spec fn may_be_route(chain: Seq<SegmentView>) -> bool {
    chain.len() == 0 || (chain.last().kind != SegmentKind::ParallelSlot && chain.last().kind
        != SegmentKind::Ignored)
}

/// Every page among the events has a chain that may lead to a route.
pub open spec fn pages_may_be_routes(events: Seq<WalkEventView>) -> bool {
    forall|k: int|
        0 <= k < events.len() ==> (#[trigger] events[k] matches WalkEventView::Page(c)
            ==> may_be_route(c.chain))
}

proof fn lemma_entry_pages(
    chain: Seq<SegmentView>,
    dir: Seq<char>,
    entry: Entry,
    options: OptionsView,
)
    ensures
        pages_may_be_routes(walk_entry(chain, dir, entry, options)),
    decreases entry, 0nat,
{
    let segment = segment_in(entry.name@, options.exclusions);
    if segment.kind != SegmentKind::Ignored {
        match entry.node {
            Node::Directory { entries } => {
                lemma_listing_pages(
                    chain.push(segment),
                    child_path(dir, entry.name@),
                    entries@,
                    segment.kind != SegmentKind::ParallelSlot,
                    options,
                );
            },
            _ => {},
        }
    }
}

proof fn lemma_ordered_pages(
    chain: Seq<SegmentView>,
    dir: Seq<char>,
    entries: Seq<Entry>,
    order: Seq<int>,
    options: OptionsView,
)
    ensures
        pages_may_be_routes(walk_ordered(chain, dir, entries, order, options)),
    decreases entries, order.len(),
{
    if order.len() > 0 {
        lemma_ordered_pages(chain, dir, entries, order.drop_last(), options);
        if 0 <= order.last() < entries.len() {
            lemma_entry_pages(chain, dir, entries[order.last()], options);
        }
    }
}

proof fn lemma_listing_pages(
    chain: Seq<SegmentView>,
    dir: Seq<char>,
    entries: Seq<Entry>,
    yields: bool,
    options: OptionsView,
)
    requires
        yields ==> may_be_route(chain),
    ensures
        pages_may_be_routes(walk_listing(chain, dir, entries, yields, options)),
    decreases entries, sorted_order(names(entries)).len() + 1,
{
    lemma_ordered_pages(chain, dir, entries, sorted_order(names(entries)), options);
}

/// No page of a walk is a parallel slot or an ignored directory: the chain of
/// each candidate is empty or ends in a segment of another kind.
pub proof fn lemma_slots_are_no_routes(root: Node, options: OptionsView)
    ensures
        pages_may_be_routes(walk_spec(root, options)),
{
    match root {
        Node::Directory { entries } => {
            lemma_listing_pages(Seq::empty(), Seq::empty(), entries@, true, options);
        },
        _ => {},
    }
}

proof fn lemma_first_page_exists(entries: Seq<Entry>, order: Seq<int>, stem: Seq<char>, k: int)
    requires
        0 <= k < order.len(),
        0 <= order[k] < entries.len(),
        is_page_entry(entries[order[k]], stem),
    ensures
        first_page(entries, order, stem) is Some,
    decreases order.len(),
{
    if k < order.len() - 1 {
        assert(order.drop_last()[k] == order[k]);
        lemma_first_page_exists(entries, order.drop_last(), stem, k);
    }
}

/// A directory that holds a page file and is neither ignored nor a parallel
/// slot is a route of its own: the walk under its entry starts with its page,
/// reached by the chain with its segment added.
pub proof fn lemma_routable_directory_is_found(
    chain: Seq<SegmentView>,
    dir: Seq<char>,
    entry: Entry,
    options: OptionsView,
    i: int,
)
    requires
        entry.node is Directory,
        0 <= i < entry.node->entries@.len(),
        is_page_entry(entry.node->entries@[i], options.page_stem),
        segment_in(entry.name@, options.exclusions).kind != SegmentKind::Ignored,
        segment_in(entry.name@, options.exclusions).kind != SegmentKind::ParallelSlot,
    ensures
        walk_entry(chain, dir, entry, options).len() >= 1,
        walk_entry(chain, dir, entry, options)[0] matches WalkEventView::Page(c) && c.chain
            == chain.push(segment_in(entry.name@, options.exclusions)) && c.directory
            == child_path(dir, entry.name@),
{
    let entries = entry.node->entries@;
    let order = sorted_order(names(entries));
    lemma_sorted_order(names(entries));
    assert(names(entries).len() == entries.len());
    assert(order.contains(i));
    let k = choose|k: int| 0 <= k < order.len() && order[k] == i;
    lemma_first_page_exists(entries, order, options.page_stem, k);
}

/// The walk over two runs of positions is the walk over the first followed
/// by the walk over the second.
pub proof fn lemma_walk_ordered_concat(
    chain: Seq<SegmentView>,
    dir: Seq<char>,
    entries: Seq<Entry>,
    first: Seq<int>,
    second: Seq<int>,
    options: OptionsView,
)
    ensures
        walk_ordered(chain, dir, entries, first + second, options) == walk_ordered(
            chain,
            dir,
            entries,
            first,
            options,
        ) + walk_ordered(chain, dir, entries, second, options),
    decreases second.len(),
{
    if second.len() == 0 {
        assert(first + second =~= first);
        assert(walk_ordered(chain, dir, entries, first, options) + Seq::<WalkEventView>::empty()
            =~= walk_ordered(chain, dir, entries, first, options));
    } else {
        lemma_walk_ordered_concat(chain, dir, entries, first, second.drop_last(), options);
        assert((first + second).drop_last() =~= first + second.drop_last());
        assert((first + second).last() == second.last());
        let a = walk_ordered(chain, dir, entries, first, options);
        let b = walk_ordered(chain, dir, entries, second.drop_last(), options);
        if 0 <= second.last() < entries.len() {
            let c = walk_entry(chain, dir, entries[second.last()], options);
            assert((a + b) + c =~= a + (b + c));
        }
    }
}

proof fn lemma_walk_ordered_agrees(
    chain: Seq<SegmentView>,
    dir: Seq<char>,
    one: Seq<Entry>,
    other: Seq<Entry>,
    order: Seq<int>,
    options: OptionsView,
)
    requires
        one.len() == other.len(),
        forall|k: int|
            0 <= k < order.len() && 0 <= #[trigger] order[k] < one.len() ==> one[order[k]]
                == other[order[k]],
    ensures
        walk_ordered(chain, dir, one, order, options) == walk_ordered(
            chain,
            dir,
            other,
            order,
            options,
        ),
    decreases order.len(),
{
    if order.len() > 0 {
        assert forall|k: int|
            0 <= k < order.len() - 1 && 0 <= #[trigger] order.drop_last()[k]
                < one.len() implies one[order.drop_last()[k]] == other[order.drop_last()[k]] by {
            assert(order.drop_last()[k] == order[k]);
        }
        lemma_walk_ordered_agrees(chain, dir, one, other, order.drop_last(), options);
        assert(order.last() == order[order.len() - 1]);
    }
}

proof fn lemma_first_page_agrees(
    one: Seq<Entry>,
    other: Seq<Entry>,
    order: Seq<int>,
    stem: Seq<char>,
)
    requires
        one.len() == other.len(),
        forall|j: int|
            0 <= j < one.len() ==> is_page_entry(one[j], stem) == is_page_entry(other[j], stem),
    ensures
        first_page(one, order, stem) == first_page(other, order, stem),
        first_page(one, order, stem) matches Some(p) ==> 0 <= p < one.len() && is_page_entry(
            one[p],
            stem,
        ),
    decreases order.len(),
{
    if order.len() > 0 {
        lemma_first_page_agrees(one, other, order.drop_last(), stem);
    }
}

/// What stands under one directory of a listing bears on nothing else that
/// the walk finds there. Where two listings differ in one entry only, which
/// has the same name in both and is a file in neither, as when a directory
/// can be read in one and not in the other, the two walks are the same before
/// and after what they find under that entry.
pub proof fn lemma_subtree_is_local(
    chain: Seq<SegmentView>,
    dir: Seq<char>,
    entries: Seq<Entry>,
    other: Seq<Entry>,
    i: int,
    yields: bool,
    options: OptionsView,
) -> (around: (Seq<WalkEventView>, Seq<WalkEventView>))
    requires
        0 <= i < entries.len(),
        other.len() == entries.len(),
        forall|j: int| 0 <= j < entries.len() && j != i ==> other[j] == entries[j],
        other[i].name@ == entries[i].name@,
        !(entries[i].node is File),
        !(other[i].node is File),
    ensures
        walk_listing(chain, dir, entries, yields, options) == around.0 + walk_entry(
            chain,
            dir,
            entries[i],
            options,
        ) + around.1,
        walk_listing(chain, dir, other, yields, options) == around.0 + walk_entry(
            chain,
            dir,
            other[i],
            options,
        ) + around.1,
{
    assert(names(other) =~= names(entries));
    let order = sorted_order(names(entries));
    lemma_sorted_order(names(entries));
    lemma_first_page_agrees(entries, other, order, options.page_stem);
    assert(page_events(chain, dir, entries, yields, options) == page_events(
        chain,
        dir,
        other,
        yields,
        options,
    ));
    assert(names(entries).len() == entries.len());
    assert(order.contains(i));
    let m = choose|m: int| 0 <= m < order.len() && order[m] == i;
    let head = order.take(m);
    let tail = order.skip(m + 1);
    assert(order =~= head + seq![i] + tail);
    assert forall|k: int| 0 <= k < order.len() && k != m implies #[trigger] order[k] != i by {
        crate::text::lemma_text_le_reflexive(names(entries)[i]);
        if order[k] == i {
            if k < m {
                assert(order[k] < order[m]);
            } else {
                assert(order[m] < order[k]);
            }
        }
    }
    assert forall|k: int| 0 <= k < head.len() implies #[trigger] head[k] != i by {
        assert(head[k] == order[k]);
    }
    assert forall|k: int| 0 <= k < tail.len() implies #[trigger] tail[k] != i by {
        assert(tail[k] == order[k + m + 1]);
    }
    lemma_walk_ordered_agrees(chain, dir, entries, other, head, options);
    lemma_walk_ordered_agrees(chain, dir, entries, other, tail, options);
    lemma_walk_ordered_concat(chain, dir, entries, head + seq![i], tail, options);
    lemma_walk_ordered_concat(chain, dir, entries, head, seq![i], options);
    lemma_walk_ordered_concat(chain, dir, other, head + seq![i], tail, options);
    lemma_walk_ordered_concat(chain, dir, other, head, seq![i], options);
    assert(seq![i].drop_last() =~= Seq::<int>::empty());
    assert(seq![i].last() == i);
    assert(walk_ordered(chain, dir, entries, Seq::<int>::empty(), options) =~= Seq::empty());
    assert(walk_ordered(chain, dir, other, Seq::<int>::empty(), options) =~= Seq::empty());
    assert(walk_ordered(chain, dir, entries, seq![i], options) =~= walk_entry(
        chain,
        dir,
        entries[i],
        options,
    ));
    assert(walk_ordered(chain, dir, other, seq![i], options) =~= walk_entry(
        chain,
        dir,
        other[i],
        options,
    ));
    let pre = page_events(chain, dir, entries, yields, options) + walk_ordered(
        chain,
        dir,
        entries,
        head,
        options,
    );
    let post = walk_ordered(chain, dir, entries, tail, options);
    assert(walk_listing(chain, dir, entries, yields, options) =~= pre + walk_entry(
        chain,
        dir,
        entries[i],
        options,
    ) + post);
    assert(walk_listing(chain, dir, other, yields, options) =~= pre + walk_entry(
        chain,
        dir,
        other[i],
        options,
    ) + post);
    (pre, post)
}

/// Decides `is_page_file` on the characters of a name and of the base name.
fn page_file_name(name: &Vec<char>, stem: &Vec<char>) -> (r: bool)
    ensures
        r == is_page_file(name@, stem@),
{
    let n = stem.len();
    if name.len() < 2 || name.len() - 2 < n {
        return false;
    }
    let mut i: usize = 0;
    while i < n
        invariant
            i <= n,
            n == stem.len(),
            n + 2 <= name.len(),
            forall|j: int| 0 <= j < i ==> name@[j] == stem@[j],
        decreases n - i,
    {
        if name[i] != stem[i] {
            assert(name@.take(n as int)[i as int] != stem@[i as int]);
            return false;
        }
        i += 1;
    }
    assert(name@.take(n as int) =~= stem@);
    if name[n] != '.' {
        return false;
    }
    let mut k: usize = n + 1;
    while k < name.len()
        invariant
            n == stem.len(),
            n < k <= name.len(),
            name@.take(n as int) == stem@,
            name@[n as int] == '.',
            forall|j: int| n < j < k ==> name@[j] != '.',
        decreases name.len() - k,
    {
        if name[k] == '.' {
            assert(stem@.len() < k < name@.len() && name@[k as int] == '.');
            return false;
        }
        k += 1;
    }
    true
}

/// Whether a file of this name marks its directory as routable in a project
/// with the settings `options`.
pub fn names_page_file(name: &str, options: &ScanOptions) -> (r: bool)
    ensures
        r == is_page_file(name@, options@.page_stem),
{
    let v = chars_of(name);
    let stem = chars_of(options.page_stem.as_str());
    page_file_name(&v, &stem)
}

/// The path of `name` inside the directory at `dir`.
pub fn join_path(dir: &str, name: &str) -> (p: String)
    ensures
        p@ == child_path(dir@, name@),
{
    if dir.unicode_len() == 0 {
        String::from_str(name)
    } else {
        let mut p = String::from_str(dir);
        p.append("/");
        p.append(name);
        proof {
            reveal_strlit("/");
            assert(p@ =~= dir@ + seq!['/'] + name@);
        }
        p
    }
}

fn copy_chain(chain: &Vec<Segment>) -> (r: Vec<Segment>)
    ensures
        r@ == chain@,
{
    let mut r: Vec<Segment> = Vec::new();
    let mut i: usize = 0;
    while i < chain.len()
        invariant
            i <= chain.len(),
            r@ == chain@.take(i as int),
        decreases chain.len() - i,
    {
        r.push(chain[i].clone());
        assert(r@ =~= chain@.take(i + 1));
        i += 1;
    }
    assert(chain@.take(chain.len() as int) =~= chain@);
    r
}

fn entry_keys(entries: &Vec<Entry>) -> (keys: Vec<Vec<char>>)
    ensures
        keys_view(keys@) == names(entries@),
        keys@.len() == entries@.len(),
{
    let mut keys: Vec<Vec<char>> = Vec::new();
    let mut i: usize = 0;
    while i < entries.len()
        invariant
            i <= entries.len(),
            keys@.len() == i,
            forall|j: int| 0 <= j < i ==> (#[trigger] keys@[j])@ == entries@[j].name@,
        decreases entries.len() - i,
    {
        let k = chars_of(entries[i].name.as_str());
        keys.push(k);
        i += 1;
    }
    assert(keys_view(keys@) =~= names(entries@));
    keys
}

fn find_page(
    entries: &Vec<Entry>,
    keys: &Vec<Vec<char>>,
    order: &Vec<usize>,
    stem: &Vec<char>,
) -> (found: Option<usize>)
    requires
        keys_view(keys@) == names(entries@),
        keys@.len() == entries@.len(),
        forall|k: int| 0 <= k < order@.len() ==> #[trigger] order@[k] < entries@.len(),
    ensures
        match found {
            Some(i) => first_page(entries@, positions(order@), stem@) == Some(i as int) && i
                < entries@.len() && is_page_entry(entries@[i as int], stem@),
            None => first_page(entries@, positions(order@), stem@) is None,
        },
{
    let mut found: Option<usize> = None;
    let mut k: usize = 0;
    while k < order.len()
        invariant
            k <= order.len(),
            keys@.len() == entries@.len(),
            keys_view(keys@) == names(entries@),
            forall|j: int| 0 <= j < order@.len() ==> #[trigger] order@[j] < entries@.len(),
            match found {
                Some(i) => first_page(entries@, positions(order@).take(k as int), stem@) == Some(
                    i as int,
                ) && i < entries@.len() && is_page_entry(entries@[i as int], stem@),
                None => first_page(entries@, positions(order@).take(k as int), stem@) is None,
            },
        decreases order.len() - k,
    {
        let i = order[k];
        proof {
            assert(positions(order@).take(k + 1).drop_last() =~= positions(order@).take(k as int));
            assert(positions(order@).take(k + 1).last() == i as int);
            assert(keys_view(keys@)[i as int] == names(entries@)[i as int]);
        }
        if found.is_none() {
            let is_file = match &entries[i].node {
                Node::File { .. } => true,
                _ => false,
            };
            if is_file && page_file_name(&keys[i], stem) {
                found = Some(i);
            }
        }
        k += 1;
    }
    assert(positions(order@).take(order.len() as int) =~= positions(order@));
    found
}

fn walk_listing_into(
    chain: &Vec<Segment>,
    dir: &str,
    entries: &Vec<Entry>,
    yields: bool,
    options: &ScanOptions,
    events: &mut Vec<WalkEvent>,
)
    ensures
        events_view(final(events)@) == events_view(old(events)@) + walk_listing(
            chain_view(chain@),
            dir@,
            entries@,
            yields,
            options@,
        ),
    decreases entries,
{
    let ghost before = events_view(events@);
    let ghost chain_v = chain_view(chain@);
    let keys = entry_keys(entries);
    let order = order_by_key(&keys);
    let ghost ord = sorted_order(names(entries@));
    proof {
        lemma_sorted_order(names(entries@));
    }
    let stem = chars_of(options.page_stem.as_str());
    let found = find_page(entries, &keys, &order, &stem);
    if yields {
        if let Some(i) = found {
            let modified = match &entries[i].node {
                Node::File { modified } => *modified,
                _ => None,
            };
            let candidate = Candidate {
                chain: copy_chain(chain),
                directory: String::from_str(dir),
                page_file: join_path(dir, entries[i].name.as_str()),
                modified,
            };
            events.push(WalkEvent::Page(candidate));
        }
    }
    assert(events_view(events@) =~= before + page_events(
        chain_v,
        dir@,
        entries@,
        yields,
        options@,
    ));
    let mut k: usize = 0;
    while k < order.len()
        invariant
            k <= order.len(),
            order@.len() == entries@.len(),
            positions(order@) == ord,
            ord == sorted_order(names(entries@)),
            chain_v == chain_view(chain@),
            forall|j: int| 0 <= j < order@.len() ==> #[trigger] order@[j] < entries@.len(),
            events_view(events@) == before + page_events(chain_v, dir@, entries@, yields, options@)
                + walk_ordered(chain_v, dir@, entries@, ord.take(k as int), options@),
        decreases order.len() - k,
    {
        let entry = &entries[order[k]];
        let ghost sofar = events_view(events@);
        proof {
            assert(ord.take(k + 1).drop_last() =~= ord.take(k as int));
            assert(ord.take(k + 1).last() == order@[k as int] as int);
        }
        let segment = Segment::from_text_with(entry.name.as_str(), options);
        if segment.kind != SegmentKind::Ignored {
            match &entry.node {
                Node::Directory { entries: inner } => {
                    let slot = segment.kind == SegmentKind::ParallelSlot;
                    let path = join_path(dir, entry.name.as_str());
                    let mut longer = copy_chain(chain);
                    longer.push(segment);
                    assert(chain_view(longer@) =~= chain_v.push(
                        segment_in(entry.name@, options@.exclusions),
                    ));
                    walk_listing_into(&longer, path.as_str(), inner, !slot, options, events);
                },
                Node::Unreadable => {
                    let path = join_path(dir, entry.name.as_str());
                    events.push(WalkEvent::Unreadable { directory: path });
                },
                _ => {},
            }
        }
        assert(events_view(events@) =~= sofar + walk_entry(chain_v, dir@, *entry, options@));
        assert(events_view(events@) =~= before + page_events(
            chain_v,
            dir@,
            entries@,
            yields,
            options@,
        ) + walk_ordered(chain_v, dir@, entries@, ord.take(k + 1), options@));
        k += 1;
    }
    assert(ord.take(order.len() as int) =~= ord);
}

/// Walks the tree under `root` in a project with the settings `options` and
/// lists what it finds, in the order of the walk.
pub fn walk(root: &Node, options: &ScanOptions) -> (events: Vec<WalkEvent>)
    ensures
        events_view(events@) == walk_spec(*root, options@),
{
    let mut events: Vec<WalkEvent> = Vec::new();
    match root {
        Node::Directory { entries } => {
            let chain: Vec<Segment> = Vec::new();
            assert(chain_view(chain@) =~= Seq::empty());
            proof {
                reveal_strlit("");
            }
            assert(""@ =~= Seq::empty());
            walk_listing_into(&chain, "", entries, true, options, &mut events);
            assert(events_view(events@) =~= walk_spec(*root, options@));
        },
        Node::Unreadable => {
            proof {
                reveal_strlit("");
            }
            assert(""@ =~= Seq::empty());
            events.push(WalkEvent::Unreadable { directory: String::from_str("") });
            assert(events_view(events@) =~= walk_spec(*root, options@));
        },
        _ => {
            assert(events_view(events@) =~= walk_spec(*root, options@));
        },
    }
    events
}

} // verus!
