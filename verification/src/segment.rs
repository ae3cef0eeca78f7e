//! Classification of one path segment by the page-directory naming
//! conventions.
//!
//! A segment is the name of one directory between two separators. Its kind
//! says what the directory means for routing, its logical name is the text
//! that is left when the convention's markers are taken off.

use vstd::prelude::*;
use crate::options::ScanOptions;
use crate::text::{chars_of, string_of};

verus! {

/// What a path segment means for routing.
#[derive(Clone, Copy, Debug, PartialEq, Eq, Structural)]
pub enum SegmentKind {
    /// Literal text, such as `about`.
    Static,
    /// `[name]`: one variable path component.
    Dynamic,
    /// `[...name]`: one or more remaining path components.
    CatchAll,
    /// `[[...name]]`: zero or more remaining path components.
    OptionalCatchAll,
    /// `(name)`: groups directories without adding to the URL.
    RouteGroup,
    /// `@name`: a slot rendered with its parent; adds nothing to the URL and
    /// is no route of its own.
    ParallelSlot,
    /// `(.)rest`, `(..)rest`, `(...)rest` or `(....)rest`: the marker adds
    /// nothing to the URL; `rest` is a segment of its own kind.
    Intercepting,
    /// A dot-directory, `node_modules`, or a name that the project excludes:
    /// never walked.
    Ignored,
}

/// One path segment: the directory name as found, its kind and its logical
/// name.
#[derive(Debug)]
pub struct Segment {
    pub raw: String,
    pub kind: SegmentKind,
    pub name: String,
}

/// A segment as plain values.
pub struct SegmentView {
    pub raw: Seq<char>,
    pub kind: SegmentKind,
    pub name: Seq<char>,
}

impl View for Segment {
    type V = SegmentView;

    open spec fn view(&self) -> SegmentView {
        SegmentView { raw: self.raw@, kind: self.kind, name: self.name@ }
    }
}

impl Clone for Segment {
    fn clone(&self) -> (r: Self)
        ensures
            r == *self,
    {
        Segment { raw: self.raw.clone(), kind: self.kind, name: self.name.clone() }
    }
}

/// The segment that the directory name `raw` classifies as.
pub open spec fn segment_of(raw: Seq<char>) -> SegmentView {
    SegmentView { raw, kind: classify_spec(raw).0, name: classify_spec(raw).1 }
}

/// The segment that the directory name `raw` classifies as in a project that
/// leaves out the names `exclusions`.
pub open spec fn segment_in(raw: Seq<char>, exclusions: Seq<Seq<char>>) -> SegmentView {
    SegmentView {
        raw,
        kind: classify_with_spec(raw, exclusions).0,
        name: classify_with_spec(raw, exclusions).1,
    }
}

/// The views of a chain of segments.
pub open spec fn chain_view(chain: Seq<Segment>) -> Seq<SegmentView> {
    chain.map_values(|s: Segment| s@)
}

impl Segment {
    /// Classifies the directory name `raw`.
    pub fn from_text(raw: &str) -> (s: Segment)
        ensures
            s@ == segment_of(raw@),
    {
        let (kind, name) = classify(raw);
        Segment { raw: String::from_str(raw), kind, name }
    }

    /// Classifies the directory name `raw` in a project with the settings
    /// `options`.
    pub fn from_text_with(raw: &str, options: &ScanOptions) -> (s: Segment)
        ensures
            s@ == segment_in(raw@, options@.exclusions),
    {
        let (kind, name) = classify_with(raw, options);
        Segment { raw: String::from_str(raw), kind, name }
    }

    /// The kind and logical name by which this segment counts for the URL.
    pub fn resolve(&self) -> (r: (SegmentKind, String))
        ensures
            r.0 == resolved(self.kind, self.name@).0,
            r.1@ == resolved(self.kind, self.name@).1,
    {
        if self.kind == SegmentKind::Intercepting {
            classify_innermost(self.name.as_str())
        } else {
            (self.kind, self.name.clone())
        }
    }
}

/// The length of the intercepting marker that `t` starts with: an opening
/// parenthesis, one to four dots and a closing parenthesis. Zero where `t`
/// starts with no such marker.
pub open spec fn marker_len(t: Seq<char>) -> int {
    if t.len() >= 3 && t[0] == '(' && t[1] == '.' && t[2] == ')' {
        3
    } else if t.len() >= 4 && t[0] == '(' && t[1] == '.' && t[2] == '.' && t[3] == ')' {
        4
    } else if t.len() >= 5 && t[0] == '(' && t[1] == '.' && t[2] == '.' && t[3] == '.' && t[4]
        == ')' {
        5
    } else if t.len() >= 6 && t[0] == '(' && t[1] == '.' && t[2] == '.' && t[3] == '.' && t[4]
        == '.' && t[5] == ')' {
        6
    } else {
        0
    }
}

/// `t` has the shape `[[...x]]`.
pub open spec fn is_optional_catch_all(t: Seq<char>) -> bool {
    &&& t.len() >= 7
    &&& t[0] == '['
    &&& t[1] == '['
    &&& t[2] == '.'
    &&& t[3] == '.'
    &&& t[4] == '.'
    &&& t[t.len() - 2] == ']'
    &&& t[t.len() - 1] == ']'
}

/// `t` has the shape `[...x]`.
pub open spec fn is_catch_all(t: Seq<char>) -> bool {
    &&& t.len() >= 5
    &&& t[0] == '['
    &&& t[1] == '.'
    &&& t[2] == '.'
    &&& t[3] == '.'
    &&& t[t.len() - 1] == ']'
}

/// `t` has the shape `[x]`.
pub open spec fn is_dynamic(t: Seq<char>) -> bool {
    t.len() >= 2 && t[0] == '[' && t[t.len() - 1] == ']'
}

/// `t` has the shape `(x)`.
pub open spec fn is_route_group(t: Seq<char>) -> bool {
    t.len() >= 2 && t[0] == '(' && t[t.len() - 1] == ')'
}

/// `t` starts with `@`.
pub open spec fn is_parallel_slot(t: Seq<char>) -> bool {
    t.len() >= 1 && t[0] == '@'
}

/// The directory name that is skipped besides the dot-directories.
pub open spec fn node_modules() -> Seq<char> {
    seq!['n', 'o', 'd', 'e', '_', 'm', 'o', 'd', 'u', 'l', 'e', 's']
}

/// `t` starts with a dot or is `node_modules`.
pub open spec fn is_ignored(t: Seq<char>) -> bool {
    (t.len() >= 1 && t[0] == '.') || t == node_modules()
}

/// The kind and the logical name of the segment `t`. The shapes are tried in
/// this order and the first that fits decides: intercepting marker,
/// `[[...x]]`, `[...x]`, `[x]`, `(x)`, `@x`, ignored names; any other text is
/// static and is its own logical name. The logical name of an intercepting
/// segment is what follows the marker, that of an ignored one is the text
/// itself.
pub open spec fn classify_spec(t: Seq<char>) -> (SegmentKind, Seq<char>) {
    if marker_len(t) > 0 {
        (SegmentKind::Intercepting, t.subrange(marker_len(t), t.len() as int))
    } else if is_optional_catch_all(t) {
        (SegmentKind::OptionalCatchAll, t.subrange(5, t.len() - 2))
    } else if is_catch_all(t) {
        (SegmentKind::CatchAll, t.subrange(4, t.len() - 1))
    } else if is_dynamic(t) {
        (SegmentKind::Dynamic, t.subrange(1, t.len() - 1))
    } else if is_route_group(t) {
        (SegmentKind::RouteGroup, t.subrange(1, t.len() - 1))
    } else if is_parallel_slot(t) {
        (SegmentKind::ParallelSlot, t.subrange(1, t.len() as int))
    } else if is_ignored(t) {
        (SegmentKind::Ignored, t)
    } else {
        (SegmentKind::Static, t)
    }
}

/// The kind and the logical name of the directory name `t` in a project that
/// leaves out the names `exclusions`: an excluded name that would be static
/// is ignored, any other text is classified as usual.
pub open spec fn classify_with_spec(t: Seq<char>, exclusions: Seq<Seq<char>>) -> (
    SegmentKind,
    Seq<char>,
) {
    if classify_spec(t).0 == SegmentKind::Static && exclusions.contains(t) {
        (SegmentKind::Ignored, t)
    } else {
        classify_spec(t)
    }
}

/// The segment that is left when every intercepting marker at the start of
/// `t` is taken off: its kind, which is never `Intercepting`, and its logical
/// name.
pub open spec fn innermost(t: Seq<char>) -> (SegmentKind, Seq<char>)
    decreases t.len(),
{
    let c = classify_spec(t);
    if c.0 == SegmentKind::Intercepting && c.1.len() < t.len() {
        innermost(c.1)
    } else {
        c
    }
}

/// The kind and logical name by which a segment of kind `kind` and logical
/// name `name` counts for the URL: its own, or, for an intercepting segment,
/// those of the segment that its markers wrap.
pub open spec fn resolved(kind: SegmentKind, name: Seq<char>) -> (SegmentKind, Seq<char>) {
    if kind == SegmentKind::Intercepting {
        innermost(name)
    } else {
        (kind, name)
    }
}

/// Classifies the characters `v[from..]`: the kind, and the bounds within `v`
/// of the logical name.
fn classify_chars(v: &Vec<char>, from: usize) -> (r: (SegmentKind, usize, usize))
    requires
        from <= v.len(),
    ensures
        from <= r.1 <= r.2 <= v.len(),
        r.0 == classify_spec(v@.skip(from as int)).0,
        v@.subrange(r.1 as int, r.2 as int) == classify_spec(v@.skip(from as int)).1,
        r.0 == SegmentKind::Intercepting ==> r.1 > from && r.2 == v.len(),
{
    let ghost t = v@.skip(from as int);
    let n: usize = v.len() - from;
    let end: usize = v.len();
    assert(forall|k: int| 0 <= k < t.len() ==> t[k] == v@[from + k]);
    if n >= 3 && v[from] == '(' && v[from + 1] == '.' {
        let mut dots: usize = 1;
        while dots < 4 && from + 1 + dots < end && v[from + 1 + dots] == '.'
            invariant
                1 <= dots <= 4,
                from + 1 + dots <= end,
                end == v.len(),
                v@[from + 1] == '.',
                dots >= 2 ==> v@[from + 2] == '.',
                dots >= 3 ==> v@[from + 3] == '.',
                dots >= 4 ==> v@[from + 4] == '.',
            decreases 4 - dots,
        {
            dots += 1;
        }
        if from + 1 + dots < end && v[from + 1 + dots] == ')' {
            assert(marker_len(t) == dots + 2);
            assert(t.subrange(marker_len(t), t.len() as int) =~= v@.subrange(
                from + dots + 2,
                end as int,
            ));
            return (SegmentKind::Intercepting, from + dots + 2, end);
        }
        assert(marker_len(t) == 0);
    }
    assert(marker_len(t) == 0);
    if n >= 7 && v[from] == '[' && v[from + 1] == '[' && v[from + 2] == '.' && v[from + 3] == '.'
        && v[from + 4] == '.' && v[end - 2] == ']' && v[end - 1] == ']' {
        assert(t.subrange(5, t.len() - 2) =~= v@.subrange(from + 5, end - 2));
        (SegmentKind::OptionalCatchAll, from + 5, end - 2)
    } else if n >= 5 && v[from] == '[' && v[from + 1] == '.' && v[from + 2] == '.' && v[from + 3]
        == '.' && v[end - 1] == ']' {
        assert(t.subrange(4, t.len() - 1) =~= v@.subrange(from + 4, end - 1));
        (SegmentKind::CatchAll, from + 4, end - 1)
    } else if n >= 2 && v[from] == '[' && v[end - 1] == ']' {
        assert(t.subrange(1, t.len() - 1) =~= v@.subrange(from + 1, end - 1));
        (SegmentKind::Dynamic, from + 1, end - 1)
    } else if n >= 2 && v[from] == '(' && v[end - 1] == ')' {
        assert(t.subrange(1, t.len() - 1) =~= v@.subrange(from + 1, end - 1));
        (SegmentKind::RouteGroup, from + 1, end - 1)
    } else if n >= 1 && v[from] == '@' {
        assert(t.subrange(1, t.len() as int) =~= v@.subrange(from + 1, end as int));
        (SegmentKind::ParallelSlot, from + 1, end)
    } else {
        assert(t =~= v@.subrange(from as int, end as int));
        let dot = n >= 1 && v[from] == '.';
        let modules = n == 12 && v[from] == 'n' && v[from + 1] == 'o' && v[from + 2] == 'd' && v[from
            + 3] == 'e' && v[from + 4] == '_' && v[from + 5] == 'm' && v[from + 6] == 'o' && v[from
            + 7] == 'd' && v[from + 8] == 'u' && v[from + 9] == 'l' && v[from + 10] == 'e' && v[from
            + 11] == 's';
        assert(modules == (t == node_modules())) by {
            if modules {
                assert(t =~= node_modules());
            }
        }
        if dot || modules {
            (SegmentKind::Ignored, from, end)
        } else {
            (SegmentKind::Static, from, end)
        }
    }
}

/// Classifies one path segment: its kind and its logical name.
pub fn classify(text: &str) -> (r: (SegmentKind, String))
    ensures
        r.0 == classify_spec(text@).0,
        r.1@ == classify_spec(text@).1,
{
    let v = chars_of(text);
    assert(v@.skip(0) =~= v@);
    let (kind, a, b) = classify_chars(&v, 0);
    (kind, string_of(&v, a, b))
}

/// Classifies one directory name in a project with the settings `options`.
pub fn classify_with(text: &str, options: &ScanOptions) -> (r: (SegmentKind, String))
    ensures
        r.0 == classify_with_spec(text@, options@.exclusions).0,
        r.1@ == classify_with_spec(text@, options@.exclusions).1,
{
    let (kind, name) = classify(text);
    if kind == SegmentKind::Static && options.excludes(text) {
        (SegmentKind::Ignored, name)
    } else {
        (kind, name)
    }
}

/// Takes the intercepting markers off `text` and classifies what is left.
pub fn classify_innermost(text: &str) -> (r: (SegmentKind, String))
    ensures
        r.0 == innermost(text@).0,
        r.1@ == innermost(text@).1,
        r.0 != SegmentKind::Intercepting,
{
    let v = chars_of(text);
    let mut from: usize = 0;
    assert(v@.skip(0) =~= v@);
    loop
        invariant
            from <= v.len(),
            innermost(text@) == innermost(v@.skip(from as int)),
        decreases v.len() - from,
    {
        let (kind, a, b) = classify_chars(&v, from);
        if kind != SegmentKind::Intercepting {
            return (kind, string_of(&v, a, b));
        }
        assert(v@.subrange(a as int, b as int) =~= v@.skip(a as int));
        from = a;
    }
}

} // verus!
