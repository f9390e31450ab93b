//! Route patterns and the splitting of paths into components.

use vstd::prelude::*;
use vstd::string::StringSliceAdditionalSpecFns;

verus! {

/// The separator byte `/`.
pub const SLASH: u8 = 47;

/// The byte `{` that opens a parameter or catch-all segment.
pub const OPEN: u8 = 123;

/// The byte `}` that closes a parameter or catch-all segment.
pub const CLOSE: u8 = 125;

/// The byte `*` that marks a catch-all segment after `{`.
pub const STAR: u8 = 42;

/// Returns a byte-for-byte copy of `v`.
pub fn copy_bytes(v: &Vec<u8>) -> (r: Vec<u8>)
    ensures
        r@ == v@,
{
    let mut r: Vec<u8> = Vec::new();
    let mut i: usize = 0;
    while i < v.len()
        invariant
            i <= v@.len(),
            r@ == v@.subrange(0, i as int),
        decreases v@.len() - i,
    {
        r.push(v[i]);
        i = i + 1;
        proof {
            assert(r@ =~= v@.subrange(0, i as int));
        }
    }
    proof {
        assert(r@ =~= v@);
    }
    r
}

/// Scans `s` from the left: the components completed so far and the one
/// being accumulated. A `/` closes a non-empty component; empty ones vanish.
pub open spec fn scan(s: Seq<u8>) -> (Seq<Seq<u8>>, Seq<u8>)
    decreases s.len(),
{
    if s.len() == 0 {
        (Seq::empty(), Seq::empty())
    } else {
        let prev = scan(s.drop_last());
        if s.last() == SLASH {
            if prev.1.len() == 0 {
                prev
            } else {
                (prev.0.push(prev.1), Seq::empty())
            }
        } else {
            (prev.0, prev.1.push(s.last()))
        }
    }
}

/// The non-empty `/`-separated components of `s`, in order.
pub open spec fn components(s: Seq<u8>) -> Seq<Seq<u8>> {
    let st = scan(s);
    if st.1.len() == 0 {
        st.0
    } else {
        st.0.push(st.1)
    }
}

/// The byte contents of a sequence of vectors.
pub open spec fn views(v: Seq<Vec<u8>>) -> Seq<Seq<u8>> {
    v.map_values(|x: Vec<u8>| x@)
}

/// Splits `s` into its non-empty `/`-separated components.
pub fn split_components(s: &[u8]) -> (r: Vec<Vec<u8>>)
    ensures
        views(r@) == components(s@),
{
    let mut done: Vec<Vec<u8>> = Vec::new();
    let mut cur: Vec<u8> = Vec::new();
    let mut i: usize = 0;
    while i < s.len()
        invariant
            i <= s@.len(),
            (views(done@), cur@) == scan(s@.subrange(0, i as int)),
        decreases s@.len() - i,
    {
        proof {
            assert(s@.subrange(0, i + 1).drop_last() =~= s@.subrange(0, i as int));
        }
        let b = s[i];
        if b == SLASH {
            if cur.len() > 0 {
                proof {
                    assert(views(done@.push(cur)) =~= views(done@).push(cur@));
                }
                done.push(cur);
                cur = Vec::new();
            }
        } else {
            cur.push(b);
        }
        i = i + 1;
    }
    proof {
        assert(s@.subrange(0, s@.len() as int) =~= s@);
    }
    if cur.len() > 0 {
        proof {
            assert(views(done@.push(cur)) =~= views(done@).push(cur@));
        }
        done.push(cur);
    }
    done
}


/// One component of a route pattern.
pub enum Segment {
    /// A literal component, matched by exact byte equality.
    Static(Vec<u8>),
    /// `{name}`: matches exactly one component and binds it to `name`.
    Param(Vec<u8>),
    /// `{*name}`: matches all remaining components and binds them to `name`.
    Wildcard(Vec<u8>),
}

/// The mathematical value of a [`Segment`].
pub enum SegmentView {
    Static(Seq<u8>),
    Param(Seq<u8>),
    Wildcard(Seq<u8>),
}

impl View for Segment {
    type V = SegmentView;

    open spec fn view(&self) -> SegmentView {
        match self {
            Segment::Static(t) => SegmentView::Static(t@),
            Segment::Param(n) => SegmentView::Param(n@),
            Segment::Wildcard(n) => SegmentView::Wildcard(n@),
        }
    }
}

/// The reasons a pattern string is not a route pattern.
#[derive(PartialEq, Eq, Structural, Debug, Clone, Copy)]
pub enum ParseError {
    /// The pattern is the empty string.
    EmptyPattern,
    /// The pattern does not start with `/`.
    MissingLeadingSlash,
    /// A `{}` or `{*}` component names nothing.
    EmptyParamName,
    /// A catch-all segment is followed by another segment.
    WildcardNotLast,
    /// Two parameter or catch-all segments share a name.
    DuplicateParamName,
}

/// A parsed route pattern.
pub struct RoutePattern {
    pub segments: Vec<Segment>,
}

impl View for RoutePattern {
    type V = Seq<SegmentView>;

    open spec fn view(&self) -> Seq<SegmentView> {
        seg_views(self.segments@)
    }
}

/// The values of a sequence of segments.
pub open spec fn seg_views(s: Seq<Segment>) -> Seq<SegmentView> {
    s.map_values(|g: Segment| g@)
}

/// Whether `c` is wrapped in braces.
pub open spec fn is_braced(c: Seq<u8>) -> bool {
    c.len() >= 2 && c[0] == OPEN && c[c.len() - 1] == CLOSE
}

/// The segment that a pattern component denotes.
pub open spec fn classify(c: Seq<u8>) -> SegmentView {
    if !is_braced(c) {
        SegmentView::Static(c)
    } else {
        let inner = c.subrange(1, c.len() - 1);
        if inner.len() > 0 && inner[0] == STAR {
            SegmentView::Wildcard(inner.drop_first())
        } else {
            SegmentView::Param(inner)
        }
    }
}

/// Whether the segment binds a name.
pub open spec fn is_named(g: SegmentView) -> bool {
    !(g is Static)
}

/// The name bound by a parameter or catch-all segment.
pub open spec fn name_of(g: SegmentView) -> Seq<u8> {
    match g {
        SegmentView::Static(t) => t,
        SegmentView::Param(n) => n,
        SegmentView::Wildcard(n) => n,
    }
}

/// Whether some parameter or catch-all segment has an empty name.
pub open spec fn has_empty_name(segs: Seq<SegmentView>) -> bool {
    exists|i: int| 0 <= i < segs.len() && is_named(#[trigger] segs[i]) && name_of(segs[i]).len() == 0
}

/// Whether a catch-all segment stands before the last position.
pub open spec fn has_inner_wildcard(segs: Seq<SegmentView>) -> bool {
    exists|i: int| 0 <= i < segs.len() - 1 && (#[trigger] segs[i]) is Wildcard
}

/// Whether two named segments share a name.
pub open spec fn has_duplicate_name(segs: Seq<SegmentView>) -> bool {
    exists|i: int, j: int|
        0 <= i < j < segs.len() && is_named(#[trigger] segs[i]) && is_named(#[trigger] segs[j])
            && name_of(segs[i]) == name_of(segs[j])
}

/// The invariants of a route pattern: names are non-empty and unique, and a
/// catch-all segment can only come last.
pub open spec fn pattern_wf(segs: Seq<SegmentView>) -> bool {
    !has_empty_name(segs) && !has_inner_wildcard(segs) && !has_duplicate_name(segs)
}

/// What parsing a pattern string yields.
pub open spec fn parse_spec(p: Seq<u8>) -> Result<Seq<SegmentView>, ParseError> {
    if p.len() == 0 {
        Err(ParseError::EmptyPattern)
    } else if p[0] != SLASH {
        Err(ParseError::MissingLeadingSlash)
    } else {
        let segs = components(p).map_values(|c: Seq<u8>| classify(c));
        if has_empty_name(segs) {
            Err(ParseError::EmptyParamName)
        } else if has_inner_wildcard(segs) {
            Err(ParseError::WildcardNotLast)
        } else if has_duplicate_name(segs) {
            Err(ParseError::DuplicateParamName)
        } else {
            Ok(segs)
        }
    }
}

/// Copies `c[lo..hi]`.
fn slice_bytes(c: &Vec<u8>, lo: usize, hi: usize) -> (r: Vec<u8>)
    requires
        lo <= hi <= c@.len(),
    ensures
        r@ == c@.subrange(lo as int, hi as int),
{
    let mut r: Vec<u8> = Vec::new();
    let mut i: usize = lo;
    while i < hi
        invariant
            lo <= i <= hi <= c@.len(),
            r@ == c@.subrange(lo as int, i as int),
        decreases hi - i,
    {
        r.push(c[i]);
        i = i + 1;
        proof {
            assert(r@ =~= c@.subrange(lo as int, i as int));
        }
    }
    r
}

/// Classifies one pattern component.
pub fn classify_component(c: &Vec<u8>) -> (r: Segment)
    ensures
        r@ == classify(c@),
{
    let n = c.len();
    if n >= 2 && c[0] == OPEN && c[n - 1] == CLOSE {
        if n >= 3 && c[1] == STAR {
            let name = slice_bytes(c, 2, n - 1);
            proof {
                assert(name@ =~= c@.subrange(1, n - 1).drop_first());
            }
            Segment::Wildcard(name)
        } else {
            Segment::Param(slice_bytes(c, 1, n - 1))
        }
    } else {
        Segment::Static(copy_bytes(c))
    }
}

/// Whether two byte vectors are equal.
pub fn bytes_eq(a: &Vec<u8>, b: &Vec<u8>) -> (r: bool)
    ensures
        r == (a@ == b@),
{
    if a.len() != b.len() {
        return false;
    }
    let mut i: usize = 0;
    while i < a.len()
        invariant
            i <= a@.len() == b@.len(),
            forall|k: int| 0 <= k < i ==> a@[k] == b@[k],
        decreases a@.len() - i,
    {
        if a[i] != b[i] {
            return false;
        }
        i = i + 1;
    }
    proof {
        assert(a@ =~= b@);
    }
    true
}

/// The name bound by a segment, if any.
pub fn segment_name(g: &Segment) -> (r: Option<&Vec<u8>>)
    ensures
        match r {
            Some(n) => is_named(g@) && n@ == name_of(g@),
            None => !is_named(g@),
        },
{
    match g {
        Segment::Static(_) => None,
        Segment::Param(n) => Some(n),
        Segment::Wildcard(n) => Some(n),
    }
}

/// Parses a route pattern such as `/users/{id}/files/{*path}`.
pub fn parse(pattern: &str) -> (r: Result<RoutePattern, ParseError>)
    ensures
        match r {
            Ok(p) => parse_spec(pattern.spec_bytes()) == Ok::<Seq<SegmentView>, ParseError>(p@),
            Err(e) => parse_spec(pattern.spec_bytes()) == Err::<Seq<SegmentView>, ParseError>(e),
        },
{
    let bytes = pattern.as_bytes();
    if bytes.len() == 0 {
        return Err(ParseError::EmptyPattern);
    }
    if bytes[0] != SLASH {
        return Err(ParseError::MissingLeadingSlash);
    }
    let comps = split_components(bytes);
    let ghost cs = components(bytes@);
    let ghost target = cs.map_values(|c: Seq<u8>| classify(c));
    let mut segments: Vec<Segment> = Vec::new();
    let mut i: usize = 0;
    while i < comps.len()
        invariant
            i <= comps@.len(),
            views(comps@) == cs,
            target == cs.map_values(|c: Seq<u8>| classify(c)),
            cs == components(bytes@),
            bytes@ == pattern.spec_bytes(),
            segments@.len() == i,
            forall|k: int| 0 <= k < i ==> (#[trigger] segments@[k])@ == classify(cs[k]),
        decreases comps@.len() - i,
    {
        let g = classify_component(&comps[i]);
        proof {
            assert(views(comps@)[i as int] == comps@[i as int]@);
        }
        segments.push(g);
        i = i + 1;
    }
    let p = RoutePattern { segments };
    proof {
        assert(target.len() == comps@.len());
        assert forall|k: int| 0 <= k < target.len() implies p@[k] == target[k] by {
            assert(p.segments@[k]@ == classify(cs[k]));
        }
        assert(p@ =~= target);
    }
    let n = p.segments.len();
    let mut i: usize = 0;
    while i < n
        invariant
            i <= n == p@.len(),
            p@ == target,
            target == components(bytes@).map_values(|c: Seq<u8>| classify(c)),
            bytes@ == pattern.spec_bytes(),
            bytes@.len() > 0 && bytes@[0] == SLASH,
            forall|k: int| 0 <= k < i ==> !(is_named(#[trigger] p@[k]) && name_of(p@[k]).len() == 0),
        decreases n - i,
    {
        proof {
            assert(p@[i as int] == p.segments@[i as int]@);
        }
        match segment_name(&p.segments[i]) {
            Some(name) => {
                if name.len() == 0 {
                    proof {
                        assert(is_named(p@[i as int]) && name_of(p@[i as int]).len() == 0);
                    }
                    return Err(ParseError::EmptyParamName);
                }
            },
            None => {},
        }
        i = i + 1;
    }
    let mut i: usize = 0;
    while n > 0 && i < n - 1
        invariant
            i <= n == p@.len(),
            p@ == target,
            target == components(bytes@).map_values(|c: Seq<u8>| classify(c)),
            bytes@ == pattern.spec_bytes(),
            bytes@.len() > 0 && bytes@[0] == SLASH,
            !has_empty_name(p@),
            forall|k: int| 0 <= k < i && k < n - 1 ==> !((#[trigger] p@[k]) is Wildcard),
        decreases n - i,
    {
        proof {
            assert(p@[i as int] == p.segments@[i as int]@);
        }
        match &p.segments[i] {
            Segment::Wildcard(_) => {
                proof {
                    assert(p@[i as int] is Wildcard);
                }
                return Err(ParseError::WildcardNotLast);
            },
            _ => {},
        }
        i = i + 1;
    }
    let mut i: usize = 0;
    while i < n
        invariant
            i <= n == p@.len(),
            p@ == target,
            target == components(bytes@).map_values(|c: Seq<u8>| classify(c)),
            bytes@ == pattern.spec_bytes(),
            bytes@.len() > 0 && bytes@[0] == SLASH,
            !has_empty_name(p@),
            !has_inner_wildcard(p@),
            forall|a: int, b: int|
                0 <= a < b < n && a < i && is_named(#[trigger] p@[a]) && is_named(#[trigger] p@[b])
                    ==> name_of(p@[a]) != name_of(p@[b]),
        decreases n - i,
    {
        proof {
            assert(p@[i as int] == p.segments@[i as int]@);
        }
        if let Some(na) = segment_name(&p.segments[i]) {
            let mut j: usize = i + 1;
            while j < n
                invariant
                    i < n == p@.len(),
                    p@ == target,
                    target == components(bytes@).map_values(|c: Seq<u8>| classify(c)),
                    bytes@ == pattern.spec_bytes(),
                    bytes@.len() > 0 && bytes@[0] == SLASH,
                    i + 1 <= j <= n,
                    is_named(p@[i as int]) && na@ == name_of(p@[i as int]),
                    !has_empty_name(p@),
                    !has_inner_wildcard(p@),
                    forall|b: int|
                        i < b < j && is_named(#[trigger] p@[b]) ==> name_of(p@[i as int]) != name_of(p@[b]),
                decreases n - j,
            {
                proof {
                    assert(p@[j as int] == p.segments@[j as int]@);
                }
                if let Some(nb) = segment_name(&p.segments[j]) {
                    if bytes_eq(na, nb) {
                        proof {
                            assert(is_named(p@[i as int]) && is_named(p@[j as int]));
                        }
                        return Err(ParseError::DuplicateParamName);
                    }
                }
                j = j + 1;
            }
        }
        i = i + 1;
    }
    Ok(p)
}

} // verus!
