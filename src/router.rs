//! The route table: registration with conflict detection, and lookup by
//! precedence (static before parameter before catch-all at each position).

use vstd::prelude::*;
use vstd::string::StringSliceAdditionalSpecFns;
use crate::trie::{holds, listed_below, trie_wf, NodeView, Trie};
use crate::segment::{
    bytes_eq, components, scan, copy_bytes, parse, parse_spec, pattern_wf, seg_views, split_components,
    views, ParseError, RoutePattern, Segment, SegmentView, SLASH,
};

verus! {

/// The value of a registered route: its segments and its id.
pub type RouteView = (Seq<SegmentView>, u64);

/// A name bound to the text it matched.
pub type BindingView = (Seq<u8>, Seq<u8>);

/// Why a pattern cannot join a table.
#[derive(PartialEq, Eq, Structural, Debug, Clone, Copy)]
pub enum InsertError {
    /// A registered pattern has the same shape and the same names.
    DuplicateRoute,
    /// A registered pattern has the same shape, but names a parameter
    /// differently.
    ParamNameConflict,
    /// A registered pattern has the same shape and the same parameter names,
    /// but names its catch-all differently.
    WildcardConflict,
}

/// Why a pattern string cannot be registered.
#[derive(PartialEq, Eq, Structural, Debug, Clone, Copy)]
pub enum RouteError {
    /// The pattern string is malformed.
    Parse(ParseError),
    /// The parsed pattern collides with a registered one.
    Insert(InsertError),
}

/// A registered route.
pub struct Route {
    pub pattern: RoutePattern,
    pub id: u64,
}

/// The values of a sequence of routes.
pub open spec fn route_views(s: Seq<Route>) -> Seq<RouteView> {
    s.map_values(|r: Route| (r.pattern@, r.id))
}

/// Whether the last segment is a catch-all.
pub open spec fn ends_in_wildcard(segs: Seq<SegmentView>) -> bool {
    segs.len() > 0 && segs.last() is Wildcard
}

/// Whether a pattern matches a sequence of path components: one component
/// per segment (a final catch-all takes one or more), and each static segment
/// equal to its component.
pub open spec fn matches(segs: Seq<SegmentView>, comps: Seq<Seq<u8>>) -> bool {
    &&& if ends_in_wildcard(segs) {
        comps.len() >= segs.len()
    } else {
        comps.len() == segs.len()
    }
    &&& forall|i: int|
        0 <= i < segs.len() && (#[trigger] segs[i]) is Static ==> comps[i] == segs[i]->Static_0
}

/// The precedence rank of a segment kind.
pub open spec fn rank(g: SegmentView) -> int {
    match g {
        SegmentView::Static(_) => 0,
        SegmentView::Param(_) => 1,
        SegmentView::Wildcard(_) => 2,
    }
}

/// Lexicographic order on the segment kinds of two patterns, from position `i`.
pub open spec fn precedes_from(a: Seq<SegmentView>, b: Seq<SegmentView>, i: int) -> bool
    decreases a.len() - i,
{
    if i >= a.len() {
        i < b.len()
    } else if i >= b.len() {
        false
    } else if rank(a[i]) != rank(b[i]) {
        rank(a[i]) < rank(b[i])
    } else {
        precedes_from(a, b, i + 1)
    }
}

/// Whether `a` takes precedence over `b`.
pub open spec fn precedes(a: Seq<SegmentView>, b: Seq<SegmentView>) -> bool {
    precedes_from(a, b, 0)
}

/// The index of the matching route of highest precedence among the first `n`.
pub open spec fn best_upto(t: Seq<RouteView>, comps: Seq<Seq<u8>>, n: int) -> Option<int>
    decreases n,
{
    if n <= 0 {
        None
    } else {
        let prev = best_upto(t, comps, n - 1);
        if matches(t[n - 1].0, comps) && (prev is None || precedes(t[n - 1].0, t[prev->0].0)) {
            Some(n - 1)
        } else {
            prev
        }
    }
}

/// Components joined by `/`.
pub open spec fn join(cs: Seq<Seq<u8>>) -> Seq<u8>
    decreases cs.len(),
{
    if cs.len() == 0 {
        Seq::empty()
    } else if cs.len() == 1 {
        cs[0]
    } else {
        join(cs.drop_last()) + seq![SLASH] + cs.last()
    }
}

/// The bindings made by the first `n` segments of `segs` on `comps`.
pub open spec fn bindings_upto(segs: Seq<SegmentView>, comps: Seq<Seq<u8>>, n: int) -> Seq<
    BindingView,
>
    decreases n,
{
    if n <= 0 {
        Seq::empty()
    } else {
        let prev = bindings_upto(segs, comps, n - 1);
        match segs[n - 1] {
            SegmentView::Static(_) => prev,
            SegmentView::Param(name) => prev.push((name, comps[n - 1])),
            SegmentView::Wildcard(name) => prev.push(
                (name, join(comps.subrange(n - 1, comps.len() as int))),
            ),
        }
    }
}

/// The bindings a pattern makes on the components it matches.
pub open spec fn bindings(segs: Seq<SegmentView>, comps: Seq<Seq<u8>>) -> Seq<BindingView> {
    bindings_upto(segs, comps, segs.len() as int)
}

/// The index of the route a lookup of `comps` picks.
pub open spec fn chosen(t: Seq<RouteView>, comps: Seq<Seq<u8>>) -> Option<int> {
    best_upto(t, comps, t.len() as int)
}

/// The result of looking up a sequence of components in a table.
pub open spec fn lookup_spec(t: Seq<RouteView>, comps: Seq<Seq<u8>>) -> Option<
    (u64, Seq<BindingView>),
> {
    match chosen(t, comps) {
        Some(k) => Some((t[k].1, bindings(t[k].0, comps))),
        None => None,
    }
}

/// How two patterns collide from position `i` on, if they do. They collide
/// only when they have the same shape: the same kinds at every position, the
/// same static texts, and the same length. Parameter and catch-all edges are
/// followed whatever their names; differing names then decide the error, a
/// parameter name before a catch-all name.
pub open spec fn conflict_from(a: Seq<SegmentView>, b: Seq<SegmentView>, i: int) -> Option<
    InsertError,
>
    decreases a.len() - i,
{
    if i >= a.len() || i >= b.len() {
        if a.len() == b.len() {
            Some(InsertError::DuplicateRoute)
        } else {
            None
        }
    } else {
        match (a[i], b[i]) {
            (SegmentView::Static(x), SegmentView::Static(y)) => if x == y {
                conflict_from(a, b, i + 1)
            } else {
                None
            },
            (SegmentView::Param(x), SegmentView::Param(y)) => merge_names(
                x != y,
                false,
                conflict_from(a, b, i + 1),
            ),
            (SegmentView::Wildcard(x), SegmentView::Wildcard(y)) => merge_names(
                false,
                x != y,
                conflict_from(a, b, i + 1),
            ),
            _ => None,
        }
    }
}

/// The collision of two patterns given the collision of their remainders
/// and whether a parameter or a catch-all name differed before it.
pub open spec fn merge_names(param_differs: bool, wildcard_differs: bool, rest: Option<
    InsertError,
>) -> Option<InsertError> {
    match rest {
        None => None,
        Some(e) => if param_differs || e == InsertError::ParamNameConflict {
            Some(InsertError::ParamNameConflict)
        } else if wildcard_differs || e == InsertError::WildcardConflict {
            Some(InsertError::WildcardConflict)
        } else {
            Some(InsertError::DuplicateRoute)
        },
    }
}

/// How two patterns collide, if they do.
pub open spec fn conflict(a: Seq<SegmentView>, b: Seq<SegmentView>) -> Option<InsertError> {
    conflict_from(a, b, 0)
}

/// The conflict of `p` with the first of `t[..n]` it collides with.
pub open spec fn first_conflict(t: Seq<RouteView>, p: Seq<SegmentView>, n: int) -> Option<
    InsertError,
>
    decreases n,
{
    if n <= 0 {
        None
    } else {
        let prev = first_conflict(t, p, n - 1);
        if prev is Some {
            prev
        } else {
            conflict(t[n - 1].0, p)
        }
    }
}

/// A table of well-formed patterns, no two of which collide.
pub open spec fn table_wf(t: Seq<RouteView>) -> bool {
    &&& forall|i: int| 0 <= i < t.len() ==> pattern_wf(#[trigger] t[i].0)
    &&& forall|i: int, j: int|
        0 <= i < j < t.len() ==> conflict(#[trigger] t[i].0, #[trigger] t[j].0) is None
}


/// Whether `segs` matches `comps`.
pub fn matches_exec(segs: &Vec<Segment>, comps: &Vec<Vec<u8>>) -> (r: bool)
    ensures
        r == matches(seg_views(segs@), views(comps@)),
{
    let ghost sv = seg_views(segs@);
    let ghost cv = views(comps@);
    let n = segs.len();
    let wild = n > 0 && match &segs[n - 1] {
        Segment::Wildcard(_) => true,
        _ => false,
    };
    proof {
        if n > 0 {
            assert(sv[n - 1] == segs@[n - 1]@);
        }
    }
    if wild {
        if comps.len() < n {
            return false;
        }
    } else if comps.len() != n {
        return false;
    }
    let mut i: usize = 0;
    while i < n
        invariant
            i <= n == segs@.len() <= comps@.len(),
            sv == seg_views(segs@),
            cv == views(comps@),
            forall|k: int| 0 <= k < i && (#[trigger] sv[k]) is Static ==> cv[k] == sv[k]->Static_0,
        decreases n - i,
    {
        proof {
            assert(sv[i as int] == segs@[i as int]@);
            assert(cv[i as int] == comps@[i as int]@);
        }
        match &segs[i] {
            Segment::Static(t) => {
                if !bytes_eq(t, &comps[i]) {
                    return false;
                }
            },
            _ => {},
        }
        i = i + 1;
    }
    true
}

/// The rank of a segment.
fn rank_exec(g: &Segment) -> (r: u8)
    ensures
        r as int == rank(g@),
{
    match g {
        Segment::Static(_) => 0,
        Segment::Param(_) => 1,
        Segment::Wildcard(_) => 2,
    }
}

/// Whether pattern `a` takes precedence over pattern `b`.
pub fn precedes_exec(a: &Vec<Segment>, b: &Vec<Segment>) -> (r: bool)
    ensures
        r == precedes(seg_views(a@), seg_views(b@)),
{
    let ghost av = seg_views(a@);
    let ghost bv = seg_views(b@);
    let mut i: usize = 0;
    while i < a.len() && i < b.len()
        invariant
            i <= a@.len(),
            i <= b@.len(),
            av == seg_views(a@),
            bv == seg_views(b@),
            precedes_from(av, bv, 0) == precedes_from(av, bv, i as int),
        decreases a@.len() - i,
    {
        proof {
            assert(av[i as int] == a@[i as int]@);
            assert(bv[i as int] == b@[i as int]@);
        }
        let ra = rank_exec(&a[i]);
        let rb = rank_exec(&b[i]);
        if ra != rb {
            return ra < rb;
        }
        i = i + 1;
    }
    i < b.len()
}

/// How patterns `a` and `b` collide, if they do.
pub fn conflict_exec(a: &Vec<Segment>, b: &Vec<Segment>) -> (r: Option<InsertError>)
    ensures
        r == conflict(seg_views(a@), seg_views(b@)),
{
    let ghost av = seg_views(a@);
    let ghost bv = seg_views(b@);
    let mut param_differs = false;
    let mut wildcard_differs = false;
    let mut i: usize = 0;
    while i < a.len() && i < b.len()
        invariant
            i <= a@.len(),
            i <= b@.len(),
            av == seg_views(a@),
            bv == seg_views(b@),
            conflict_from(av, bv, 0) == merge_names(
                param_differs,
                wildcard_differs,
                conflict_from(av, bv, i as int),
            ),
        decreases a@.len() - i,
    {
        proof {
            assert(av[i as int] == a@[i as int]@);
            assert(bv[i as int] == b@[i as int]@);
        }
        match (&a[i], &b[i]) {
            (Segment::Static(x), Segment::Static(y)) => {
                if !bytes_eq(x, y) {
                    return None;
                }
            },
            (Segment::Param(x), Segment::Param(y)) => {
                if !bytes_eq(x, y) {
                    param_differs = true;
                }
            },
            (Segment::Wildcard(x), Segment::Wildcard(y)) => {
                if !bytes_eq(x, y) {
                    wildcard_differs = true;
                }
            },
            _ => {
                return None;
            },
        }
        i = i + 1;
    }
    if a.len() != b.len() {
        None
    } else if param_differs {
        Some(InsertError::ParamNameConflict)
    } else if wildcard_differs {
        Some(InsertError::WildcardConflict)
    } else {
        Some(InsertError::DuplicateRoute)
    }
}

/// Joins `comps[start..]` with `/`.
pub fn join_from(comps: &Vec<Vec<u8>>, start: usize) -> (r: Vec<u8>)
    requires
        start < comps@.len(),
    ensures
        r@ == join(views(comps@).subrange(start as int, comps@.len() as int)),
{
    let ghost cv = views(comps@);
    let mut out = copy_bytes(&comps[start]);
    proof {
        assert(cv.subrange(start as int, start + 1) =~= seq![comps@[start as int]@]);
    }
    let n = comps.len();
    let mut i: usize = start + 1;
    while i < n
        invariant
            start < i <= comps@.len() == n,
            cv == views(comps@),
            out@ == join(cv.subrange(start as int, i as int)),
        decreases comps@.len() - i,
    {
        let ghost before = out@;
        out.push(SLASH);
        let c = &comps[i];
        let mut j: usize = 0;
        while j < c.len()
            invariant
                j <= c@.len(),
                out@ == before + seq![SLASH] + c@.subrange(0, j as int),
            decreases c@.len() - j,
        {
            out.push(c[j]);
            j = j + 1;
            proof {
                assert(out@ =~= before + seq![SLASH] + c@.subrange(0, j as int));
            }
        }
        proof {
            assert(c@.subrange(0, c@.len() as int) =~= c@);
            let sub = cv.subrange(start as int, i + 1);
            assert(sub.drop_last() =~= cv.subrange(start as int, i as int));
            assert(sub.last() == c@);
        }
        i = i + 1;
    }
    out
}

/// A parameter name and the text bound to it.
pub struct Binding {
    pub name: Vec<u8>,
    pub value: Vec<u8>,
}

impl View for Binding {
    type V = BindingView;

    open spec fn view(&self) -> BindingView {
        (self.name@, self.value@)
    }
}

/// The values of a sequence of bindings.
pub open spec fn binding_views(s: Seq<Binding>) -> Seq<BindingView> {
    s.map_values(|b: Binding| b@)
}

/// The bindings that `segs` makes on `comps`, in segment order.
pub fn bindings_exec(segs: &Vec<Segment>, comps: &Vec<Vec<u8>>) -> (r: Vec<Binding>)
    requires
        matches(seg_views(segs@), views(comps@)),
    ensures
        binding_views(r@) == bindings(seg_views(segs@), views(comps@)),
{
    let ghost sv = seg_views(segs@);
    let ghost cv = views(comps@);
    let mut out: Vec<Binding> = Vec::new();
    let mut i: usize = 0;
    while i < segs.len()
        invariant
            i <= segs@.len() <= comps@.len(),
            sv == seg_views(segs@),
            cv == views(comps@),
            binding_views(out@) == bindings_upto(sv, cv, i as int),
        decreases segs@.len() - i,
    {
        proof {
            assert(sv[i as int] == segs@[i as int]@);
            assert(cv[i as int] == comps@[i as int]@);
        }
        let ghost before = out@;
        match &segs[i] {
            Segment::Static(_) => {},
            Segment::Param(name) => {
                let b = Binding { name: copy_bytes(name), value: copy_bytes(&comps[i]) };
                out.push(b);
                proof {
                    assert(binding_views(out@) =~= binding_views(before).push(b@));
                }
            },
            Segment::Wildcard(name) => {
                let b = Binding { name: copy_bytes(name), value: join_from(comps, i) };
                out.push(b);
                proof {
                    assert(binding_views(out@) =~= binding_views(before).push(b@));
                }
            },
        }
        i = i + 1;
    }
    out
}


/// A successful lookup: the route id and the bindings, in pattern order.
pub struct Match {
    pub route_id: u64,
    pub params: Vec<Binding>,
}

impl View for Match {
    type V = (u64, Seq<BindingView>);

    open spec fn view(&self) -> (u64, Seq<BindingView>) {
        (self.route_id, binding_views(self.params@))
    }
}

/// The result of a lookup as a mathematical value.
pub open spec fn match_view(r: Option<Match>) -> Option<(u64, Seq<BindingView>)> {
    match r {
        Some(m) => Some(m@),
        None => None,
    }
}

/// The number of leading static segments of `segs` from position `i` on.
pub open spec fn static_len_from(segs: Seq<SegmentView>, i: int) -> int
    decreases segs.len() - i,
{
    if 0 <= i < segs.len() && segs[i] is Static {
        static_len_from(segs, i + 1)
    } else {
        i
    }
}

/// The texts of the leading static segments of a pattern: the key under
/// which the prefix tree lists it.
pub open spec fn static_prefix(segs: Seq<SegmentView>) -> Seq<Seq<u8>> {
    Seq::new(static_len_from(segs, 0) as nat, |i: int| segs[i]->Static_0)
}

proof fn lemma_static_len(segs: Seq<SegmentView>, i: int)
    requires
        0 <= i <= segs.len(),
    ensures
        i <= static_len_from(segs, i) <= segs.len(),
        forall|k: int| i <= k < static_len_from(segs, i) ==> (#[trigger] segs[k]) is Static,
    decreases segs.len() - i,
{
    if i < segs.len() && segs[i] is Static {
        lemma_static_len(segs, i + 1);
    }
}

/// A pattern that matches some components is listed under a prefix of them.
proof fn lemma_static_prefix_of_match(segs: Seq<SegmentView>, comps: Seq<Seq<u8>>)
    requires
        matches(segs, comps),
    ensures
        static_len_from(segs, 0) <= comps.len(),
        static_prefix(segs) == comps.subrange(0, static_len_from(segs, 0)),
{
    lemma_static_len(segs, 0);
    let n = static_len_from(segs, 0);
    assert forall|k: int| 0 <= k < n implies static_prefix(segs)[k] == comps.subrange(0, n)[k] by {
        assert(segs[k] is Static);
    }
    assert(static_prefix(segs) =~= comps.subrange(0, n));
}

/// Whether a segment is static.
fn is_static(g: &Segment) -> (r: bool)
    ensures
        r == (g@ is Static),
{
    match g {
        Segment::Static(_) => true,
        _ => false,
    }
}

/// The texts of the leading static segments of `segs`.
fn static_prefix_exec(segs: &Vec<Segment>) -> (r: Vec<Vec<u8>>)
    ensures
        views(r@) == static_prefix(seg_views(segs@)),
{
    let ghost sv = seg_views(segs@);
    proof {
        lemma_static_len(sv, 0);
    }
    let mut out: Vec<Vec<u8>> = Vec::new();
    let mut i: usize = 0;
    while i < segs.len() && is_static(&segs[i])
        invariant
            i <= segs@.len(),
            sv == seg_views(segs@),
            static_len_from(sv, i as int) == static_len_from(sv, 0),
            forall|k: int| 0 <= k < i ==> (#[trigger] sv[k]) is Static,
            out@.len() == i,
            forall|k: int| 0 <= k < i ==> (#[trigger] out@[k])@ == sv[k]->Static_0,
        decreases segs@.len() - i,
    {
        proof {
            assert(sv[i as int] == segs@[i as int]@);
        }
        match &segs[i] {
            Segment::Static(t) => {
                out.push(copy_bytes(t));
            },
            _ => {},
        }
        i = i + 1;
    }
    proof {
        if i < segs@.len() {
            assert(sv[i as int] == segs@[i as int]@);
        }
        assert(views(out@) =~= static_prefix(sv));
    }
    out
}

/// The prefix tree lists every route under its leading static texts, and
/// lists nothing but routes.
pub open spec fn indexed(routes: Seq<Route>, t: Seq<NodeView>) -> bool {
    &&& trie_wf(t)
    &&& listed_below(t, routes.len() as int)
    &&& forall|k: int|
        0 <= k < routes.len() ==> holds(t, static_prefix((#[trigger] routes[k]).pattern@), k)
}

/// Looks `comps` up in `routes`, comparing only the routes that the prefix
/// tree lists along the path.
fn lookup_in(routes: &Vec<Route>, trie: &Trie, comps: &Vec<Vec<u8>>) -> (r: Option<Match>)
    requires
        table_wf(route_views(routes@)),
        indexed(routes@, trie@),
    ensures
        match_view(r) == lookup_spec(route_views(routes@), views(comps@)),
{
    let ghost t = route_views(routes@);
    let ghost cv = views(comps@);
    let cands = trie.collect(comps);
    proof {
        assert(listed_below(trie@, routes@.len() as int));
    }
    let mut best: Option<usize> = None;
    let mut i: usize = 0;
    while i < cands.len()
        invariant
            i <= cands@.len(),
            t == route_views(routes@),
            cv == views(comps@),
            forall|a: int| 0 <= a < cands@.len() ==> #[trigger] cands@[a] < routes@.len(),
            match best {
                Some(b) => b < routes@.len() && matches(t[b as int].0, cv) && forall|a: int|
                    0 <= a < i && matches(#[trigger] t[cands@[a] as int].0, cv) ==> !precedes(
                        t[cands@[a] as int].0,
                        t[b as int].0,
                    ),
                None => forall|a: int| 0 <= a < i ==> !matches(#[trigger] t[cands@[a] as int].0, cv),
            },
        decreases cands@.len() - i,
    {
        let c = cands[i];
        proof {
            assert(t[c as int].0 == routes@[c as int].pattern@);
            lemma_precedes_irreflexive(t[c as int].0, 0);
        }
        let segs = &routes[c].pattern.segments;
        if matches_exec(segs, comps) {
            match best {
                None => {
                    best = Some(c);
                },
                Some(b) => {
                    proof {
                        assert(t[b as int].0 == routes@[b as int].pattern@);
                    }
                    if precedes_exec(segs, &routes[b].pattern.segments) {
                        proof {
                            assert forall|a: int|
                                0 <= a < i + 1 && matches(#[trigger] t[cands@[a] as int].0, cv) implies !precedes(
                                t[cands@[a] as int].0,
                                t[c as int].0,
                            ) by {
                                if a < i && precedes(t[cands@[a] as int].0, t[c as int].0) {
                                    lemma_precedes_transitive(
                                        t[cands@[a] as int].0,
                                        t[c as int].0,
                                        t[b as int].0,
                                        0,
                                    );
                                }
                            }
                        }
                        best = Some(c);
                    }
                },
            }
        }
        i = i + 1;
    }
    proof {
        lemma_best(t, cv, t.len() as int);
        assert forall|j: int| 0 <= j < t.len() && matches(#[trigger] t[j].0, cv) implies exists|a: int|
            0 <= a < cands@.len() && cands@[a] as int == j by {
            assert(t[j].0 == routes@[j].pattern@);
            lemma_static_prefix_of_match(t[j].0, cv);
            let n = static_len_from(t[j].0, 0);
            lemma_static_len(t[j].0, 0);
            assert(cv.len() == comps@.len());
            assert(0 <= n <= comps@.len());
            assert(holds(trie@, static_prefix(routes@[j].pattern@), j));
            assert(holds(trie@, cv.subrange(0, n), j));
        }
        match best {
            Some(b) => {
                let k = chosen(t, cv)->0;
                let ak = choose|a: int| 0 <= a < cands@.len() && cands@[a] as int == k;
                assert(matches(t[cands@[ak] as int].0, cv));
                lemma_unique_shape(t, cv, k, b as int);
            },
            None => {
                if chosen(t, cv) is Some {
                    let k = chosen(t, cv)->0;
                    let ak = choose|a: int| 0 <= a < cands@.len() && cands@[a] as int == k;
                    assert(matches(t[cands@[ak] as int].0, cv));
                }
            },
        }
    }
    match best {
        None => None,
        Some(b) => {
            let route = &routes[b];
            proof {
                assert(t[b as int] == (route.pattern@, route.id));
            }
            let params = bindings_exec(&route.pattern.segments, comps);
            Some(Match { route_id: route.id, params })
        },
    }
}

/// Finds the first registered pattern that `p` collides with.
fn find_conflict(routes: &Vec<Route>, p: &RoutePattern) -> (r: Option<InsertError>)
    ensures
        r == first_conflict(route_views(routes@), p@, routes@.len() as int),
{
    let ghost t = route_views(routes@);
    let mut k: usize = 0;
    while k < routes.len()
        invariant
            k <= routes@.len(),
            t == route_views(routes@),
            first_conflict(t, p@, k as int) is None,
        decreases routes@.len() - k,
    {
        proof {
            assert(t[k as int].0 == routes@[k as int].pattern@);
        }
        let c = conflict_exec(&routes[k].pattern.segments, &p.segments);
        if c.is_some() {
            proof {
                lemma_first_conflict_stable(t, p@, k + 1, routes@.len() as int);
            }
            return c;
        }
        k = k + 1;
    }
    None
}

/// The route table under construction: the registered routes, and a
/// prefix tree over their leading static components.
pub struct Router {
    routes: Vec<Route>,
    trie: Trie,
}

impl View for Router {
    type V = Seq<RouteView>;

    closed spec fn view(&self) -> Seq<RouteView> {
        route_views(self.routes@)
    }
}

impl Router {
    /// The routes collide with none other and the prefix tree lists them.
    pub closed spec fn wf(&self) -> bool {
        table_wf(route_views(self.routes@)) && indexed(self.routes@, self.trie@)
    }
}

/// The finished route table, read-only from here on.
pub struct RouteTable {
    routes: Vec<Route>,
    trie: Trie,
}

impl View for RouteTable {
    type V = Seq<RouteView>;

    closed spec fn view(&self) -> Seq<RouteView> {
        route_views(self.routes@)
    }
}

impl RouteTable {
    /// The routes collide with none other and the prefix tree lists them.
    pub closed spec fn wf(&self) -> bool {
        table_wf(route_views(self.routes@)) && indexed(self.routes@, self.trie@)
    }
}

impl Router {
    /// An empty table.
    pub fn new() -> (r: Router)
        ensures
            r@ == Seq::<RouteView>::empty(),
            table_wf(r@),
            r.wf(),
    {
        let r = Router { routes: Vec::new(), trie: Trie::new() };
        proof {
            assert(r@ =~= Seq::<RouteView>::empty());
        }
        r
    }

    /// Adds a parsed pattern under `id`, unless it collides with a
    /// registered one; then the first such collision is reported and the
    /// table is left as it was.
    pub fn insert(&mut self, pattern: RoutePattern, id: u64) -> (r: Result<(), InsertError>)
        requires
            pattern_wf(pattern@),
            old(self).wf(),
            old(self)@.len() < usize::MAX,
        ensures
            match first_conflict(old(self)@, pattern@, old(self)@.len() as int) {
                Some(e) => r == Err::<(), InsertError>(e) && final(self)@ == old(self)@,
                None => r is Ok && final(self)@ == old(self)@.push((pattern@, id)),
            },
            table_wf(final(self)@),
            final(self).wf(),
    {
        let c = find_conflict(&self.routes, &pattern);
        match c {
            Some(e) => Err(e),
            None => {
                let key = static_prefix_exec(&pattern.segments);
                let k = self.routes.len();
                let ghost t0 = self.trie@;
                self.trie.add(&key, k);
                let ghost pv = pattern@;
                let ghost before = self.routes@;
                self.routes.push(Route { pattern, id });
                proof {
                    assert(route_views(self.routes@) =~= route_views(before).push((pv, id)));
                    lemma_push_wf(route_views(before), pv, id);
                    assert(listed_below(t0, before.len() as int));
                    assert(listed_below(self.trie@, self.routes@.len() as int));
                    assert forall|j: int| 0 <= j < self.routes@.len() implies holds(
                        self.trie@,
                        static_prefix((#[trigger] self.routes@[j]).pattern@),
                        j,
                    ) by {
                        if j < before.len() {
                            assert(self.routes@[j] == before[j]);
                            assert(holds(t0, static_prefix(before[j].pattern@), j));
                        }
                    }
                }
                Ok(())
            },
        }
    }

    /// Parses `pattern` and adds it under `id`.
    pub fn register(&mut self, pattern: &str, id: u64) -> (r: Result<(), RouteError>)
        requires
            old(self).wf(),
            old(self)@.len() < usize::MAX,
        ensures
            match parse_spec(pattern.spec_bytes()) {
                Err(e) => r == Err::<(), RouteError>(RouteError::Parse(e)) && final(self)@ == old(
                    self,
                )@,
                Ok(segs) => match first_conflict(old(self)@, segs, old(self)@.len() as int) {
                    Some(e) => r == Err::<(), RouteError>(RouteError::Insert(e)) && final(self)@
                        == old(self)@,
                    None => r is Ok && final(self)@ == old(self)@.push((segs, id)),
                },
            },
            table_wf(final(self)@),
            final(self).wf(),
    {
        match parse(pattern) {
            Err(e) => Err(RouteError::Parse(e)),
            Ok(p) => match self.insert(p, id) {
                Err(e) => Err(RouteError::Insert(e)),
                Ok(()) => Ok(()),
            },
        }
    }

    /// Freezes the table.
    pub fn finalize(self) -> (r: RouteTable)
        requires
            self.wf(),
        ensures
            r@ == self@,
            r.wf(),
    {
        RouteTable { routes: self.routes, trie: self.trie }
    }
}

impl RouteTable {
    /// The number of registered routes.
    pub fn len(&self) -> (r: usize)
        ensures
            r == self@.len(),
    {
        self.routes.len()
    }

    /// Looks a request path up: the matching route of highest precedence and
    /// its bindings, or `None`. The prefix tree is walked one component at a
    /// time, and only the routes listed along the way are compared.
    pub fn match_path(&self, path: &str) -> (r: Option<Match>)
        requires
            self.wf(),
        ensures
            match_view(r) == lookup_spec(self@, components(path.spec_bytes())),
    {
        let comps = split_components(path.as_bytes());
        lookup_in(&self.routes, &self.trie, &comps)
    }
}

/// Once a collision is found, later routes do not change it.
proof fn lemma_first_conflict_stable(t: Seq<RouteView>, p: Seq<SegmentView>, k: int, m: int)
    requires
        0 <= k <= m,
        first_conflict(t, p, k) is Some,
    ensures
        first_conflict(t, p, m) == first_conflict(t, p, k),
    decreases m - k,
{
    if m > k {
        lemma_first_conflict_stable(t, p, k, m - 1);
    }
}

proof fn lemma_precedes_irreflexive(a: Seq<SegmentView>, i: int)
    requires
        0 <= i,
    ensures
        !precedes_from(a, a, i),
    decreases a.len() - i,
{
    if i < a.len() {
        lemma_precedes_irreflexive(a, i + 1);
    }
}

proof fn lemma_precedes_transitive(
    a: Seq<SegmentView>,
    b: Seq<SegmentView>,
    c: Seq<SegmentView>,
    i: int,
)
    requires
        0 <= i,
        precedes_from(a, b, i),
        precedes_from(b, c, i),
    ensures
        precedes_from(a, c, i),
    decreases a.len() - i,
{
    if i < a.len() && i < b.len() && i < c.len() && rank(a[i]) == rank(b[i]) && rank(b[i])
        == rank(c[i]) {
        lemma_precedes_transitive(a, b, c, i + 1);
    }
}

/// Two patterns of which neither precedes the other have the same kinds.
proof fn lemma_precedes_total(a: Seq<SegmentView>, b: Seq<SegmentView>, i: int)
    requires
        0 <= i <= a.len(),
        i <= b.len(),
        !precedes_from(a, b, i),
        !precedes_from(b, a, i),
    ensures
        a.len() == b.len(),
        forall|k: int| i <= k < a.len() ==> rank(#[trigger] a[k]) == rank(b[k]),
    decreases a.len() - i,
{
    if i < a.len() && i < b.len() {
        lemma_precedes_total(a, b, i + 1);
    }
}

/// What `best_upto` picks: a matching route that no matching route precedes,
/// or nothing when none matches.
proof fn lemma_best(t: Seq<RouteView>, c: Seq<Seq<u8>>, n: int)
    requires
        0 <= n <= t.len(),
    ensures
        match best_upto(t, c, n) {
            Some(k) => 0 <= k < n && matches(t[k].0, c) && forall|j: int|
                0 <= j < n && matches(#[trigger] t[j].0, c) ==> !precedes(t[j].0, t[k].0),
            None => forall|j: int| 0 <= j < n ==> !matches(#[trigger] t[j].0, c),
        },
    decreases n,
{
    if n > 0 {
        lemma_best(t, c, n - 1);
        let prev = best_upto(t, c, n - 1);
        lemma_precedes_irreflexive(t[n - 1].0, 0);
        match best_upto(t, c, n) {
            Some(k) => {
                if k == n - 1 {
                    if prev is Some {
                        let q = prev->0;
                        assert forall|j: int|
                            0 <= j < n && matches(#[trigger] t[j].0, c) implies !precedes(
                            t[j].0,
                            t[k].0,
                        ) by {
                            if j < n - 1 && precedes(t[j].0, t[k].0) {
                                lemma_precedes_transitive(t[j].0, t[k].0, t[q].0, 0);
                            }
                        }
                    }
                }
            },
            None => {},
        }
    }
}


/// Collision is symmetric.
proof fn lemma_conflict_symmetric(a: Seq<SegmentView>, b: Seq<SegmentView>, i: int)
    requires
        0 <= i,
    ensures
        conflict_from(a, b, i) is Some <==> conflict_from(b, a, i) is Some,
    decreases a.len() - i,
{
    if i < a.len() && i < b.len() {
        lemma_conflict_symmetric(a, b, i + 1);
    }
}

/// Two patterns with the same kinds that match the same components collide.
proof fn lemma_same_shape_conflicts(
    a: Seq<SegmentView>,
    b: Seq<SegmentView>,
    c: Seq<Seq<u8>>,
    i: int,
)
    requires
        0 <= i <= a.len(),
        a.len() == b.len(),
        forall|k: int| 0 <= k < a.len() ==> rank(#[trigger] a[k]) == rank(b[k]),
        matches(a, c),
        matches(b, c),
    ensures
        conflict_from(a, b, i) is Some,
    decreases a.len() - i,
{
    if i < a.len() {
        assert(rank(a[i]) == rank(b[i]));
        lemma_same_shape_conflicts(a, b, c, i + 1);
    }
}

/// In a table without collisions, two routes that match the same
/// components with the same kinds are the same route.
proof fn lemma_unique_shape(t: Seq<RouteView>, c: Seq<Seq<u8>>, i: int, j: int)
    requires
        table_wf(t),
        0 <= i < t.len(),
        0 <= j < t.len(),
        matches(t[i].0, c),
        matches(t[j].0, c),
        !precedes(t[i].0, t[j].0),
        !precedes(t[j].0, t[i].0),
    ensures
        i == j,
{
    lemma_precedes_total(t[i].0, t[j].0, 0);
    lemma_same_shape_conflicts(t[i].0, t[j].0, c, 0);
    lemma_conflict_symmetric(t[i].0, t[j].0, 0);
    if i < j {
        assert(conflict(t[i].0, t[j].0) is None);
    } else if j < i {
        assert(conflict(t[j].0, t[i].0) is None);
    }
}

/// A lookup returns the route of highest precedence among those that match:
/// no other matching route precedes it, and it is `None` only when no route
/// matches.
pub proof fn lemma_lookup_picks_highest_precedence(t: Seq<RouteView>, comps: Seq<Seq<u8>>)
    ensures
        match chosen(t, comps) {
            Some(k) => 0 <= k < t.len() && matches(t[k].0, comps) && lookup_spec(t, comps) == Some(
                (t[k].1, bindings(t[k].0, comps)),
            ) && forall|j: int|
                0 <= j < t.len() && matches(#[trigger] t[j].0, comps) ==> !precedes(
                    t[j].0,
                    t[k].0,
                ),
            None => lookup_spec(t, comps) is None && forall|j: int|
                0 <= j < t.len() ==> !matches(#[trigger] t[j].0, comps),
        },
{
    lemma_best(t, comps, t.len() as int);
}

/// A static segment wins over a parameter at the same position: when two
/// matching routes have the same kinds before position `pos`, and there the
/// first is static and the second a parameter, the lookup does not pick the
/// second.
pub proof fn lemma_static_beats_param(
    t: Seq<RouteView>,
    comps: Seq<Seq<u8>>,
    i: int,
    j: int,
    pos: int,
)
    requires
        0 <= i < t.len(),
        0 <= j < t.len(),
        matches(t[i].0, comps),
        matches(t[j].0, comps),
        0 <= pos < t[i].0.len(),
        pos < t[j].0.len(),
        forall|k: int| 0 <= k < pos ==> rank(#[trigger] t[i].0[k]) == rank(t[j].0[k]),
        t[i].0[pos] is Static,
        t[j].0[pos] is Param,
    ensures
        chosen(t, comps) != Some(j),
{
    lemma_best(t, comps, t.len() as int);
    lemma_prefix_decides(t[i].0, t[j].0, 0, pos);
}

/// Equal kinds up to `pos` and a smaller kind at `pos` decide precedence.
proof fn lemma_prefix_decides(a: Seq<SegmentView>, b: Seq<SegmentView>, i: int, pos: int)
    requires
        0 <= i <= pos < a.len(),
        pos < b.len(),
        forall|k: int| 0 <= k < pos ==> rank(#[trigger] a[k]) == rank(b[k]),
        rank(a[pos]) < rank(b[pos]),
    ensures
        precedes_from(a, b, i),
    decreases pos - i,
{
    if i < pos {
        lemma_prefix_decides(a, b, i + 1, pos);
    }
}

/// When exactly one route of a well-formed table matches the components, the
/// lookup returns that route's id and the values it binds.
pub proof fn lemma_lookup_unique_match(t: Seq<RouteView>, comps: Seq<Seq<u8>>, k: int)
    requires
        table_wf(t),
        0 <= k < t.len(),
        matches(t[k].0, comps),
        forall|j: int| 0 <= j < t.len() && j != k ==> !matches(#[trigger] t[j].0, comps),
    ensures
        lookup_spec(t, comps) == Some((t[k].1, bindings(t[k].0, comps))),
{
    lemma_best(t, comps, t.len() as int);
}

/// The lookup depends on which routes a well-formed table holds, not on the
/// order in which they were registered.
pub proof fn lemma_lookup_order_independent(
    t1: Seq<RouteView>,
    t2: Seq<RouteView>,
    comps: Seq<Seq<u8>>,
)
    requires
        table_wf(t1),
        table_wf(t2),
        forall|r: RouteView| t1.contains(r) <==> t2.contains(r),
    ensures
        lookup_spec(t1, comps) == lookup_spec(t2, comps),
{
    lemma_best(t1, comps, t1.len() as int);
    lemma_best(t2, comps, t2.len() as int);
    match chosen(t1, comps) {
        Some(k1) => {
            let e1 = t1[k1];
            assert(t1.contains(e1));
            let j2 = choose|j: int| 0 <= j < t2.len() && t2[j] == e1;
            assert(matches(t2[j2].0, comps));
            let k2 = chosen(t2, comps)->0;
            let e2 = t2[k2];
            assert(t2.contains(e2));
            let j1 = choose|j: int| 0 <= j < t1.len() && t1[j] == e2;
            assert(matches(t1[j1].0, comps));
            lemma_unique_shape(t1, comps, k1, j1);
        },
        None => {
            match chosen(t2, comps) {
                Some(k2) => {
                    let e2 = t2[k2];
                    assert(t2.contains(e2));
                    let j1 = choose|j: int| 0 <= j < t1.len() && t1[j] == e2;
                    assert(matches(t1[j1].0, comps));
                },
                None => {},
            }
        },
    }
}


/// A pattern meets no collision in `t[..n]` exactly when it collides with
/// none of those routes.
proof fn lemma_first_conflict_iff(t: Seq<RouteView>, p: Seq<SegmentView>, n: int)
    requires
        0 <= n <= t.len(),
    ensures
        first_conflict(t, p, n) is None <==> forall|i: int|
            0 <= i < n ==> conflict(#[trigger] t[i].0, p) is None,
    decreases n,
{
    if n > 0 {
        lemma_first_conflict_iff(t, p, n - 1);
    }
}

/// Adding a well-formed pattern that meets no collision keeps a table
/// well-formed.
proof fn lemma_push_wf(t: Seq<RouteView>, p: Seq<SegmentView>, id: u64)
    requires
        table_wf(t),
        pattern_wf(p),
        first_conflict(t, p, t.len() as int) is None,
    ensures
        table_wf(t.push((p, id))),
{
    lemma_first_conflict_iff(t, p, t.len() as int);
    let u = t.push((p, id));
    assert forall|i: int, j: int| 0 <= i < j < u.len() implies conflict(
        #[trigger] u[i].0,
        #[trigger] u[j].0,
    ) is None by {
        if j == t.len() {
            assert(conflict(t[i].0, p) is None);
        } else {
            assert(conflict(t[i].0, t[j].0) is None);
        }
    }
    assert forall|i: int| 0 <= i < u.len() implies pattern_wf(#[trigger] u[i].0) by {
        if i < t.len() {
            assert(pattern_wf(t[i].0));
        }
    }
}

/// Whether `insert` accepts `p` into `t`.
pub open spec fn accepts(t: Seq<RouteView>, p: Seq<SegmentView>) -> bool {
    first_conflict(t, p, t.len() as int) is None
}

/// Registering two patterns in either order into a well-formed table: both
/// orders accept both or neither does, and when both are accepted every
/// lookup gives the same result.
pub proof fn lemma_registration_order_independent(
    t: Seq<RouteView>,
    a: Seq<SegmentView>,
    ia: u64,
    b: Seq<SegmentView>,
    ib: u64,
    comps: Seq<Seq<u8>>,
)
    requires
        table_wf(t),
        pattern_wf(a),
        pattern_wf(b),
    ensures
        (accepts(t, a) && accepts(t.push((a, ia)), b)) <==> (accepts(t, b) && accepts(
            t.push((b, ib)),
            a,
        )),
        accepts(t, a) && accepts(t.push((a, ia)), b) ==> lookup_spec(
            t.push((a, ia)).push((b, ib)),
            comps,
        ) == lookup_spec(t.push((b, ib)).push((a, ia)), comps),
{
    let ta = t.push((a, ia));
    let tb = t.push((b, ib));
    lemma_first_conflict_iff(t, a, t.len() as int);
    lemma_first_conflict_iff(t, b, t.len() as int);
    lemma_first_conflict_iff(ta, b, ta.len() as int);
    lemma_first_conflict_iff(tb, a, tb.len() as int);
    lemma_conflict_symmetric(a, b, 0);
    assert(ta[t.len() as int].0 == a);
    assert(tb[t.len() as int].0 == b);
    assert(accepts(ta, b) <==> accepts(t, b) && conflict(a, b) is None) by {
        assert forall|i: int| 0 <= i < t.len() implies ta[i] == t[i] by {}
    }
    assert(accepts(tb, a) <==> accepts(t, a) && conflict(b, a) is None) by {
        assert forall|i: int| 0 <= i < t.len() implies tb[i] == t[i] by {}
    }
    if accepts(t, a) && accepts(ta, b) {
        lemma_push_wf(t, a, ia);
        lemma_push_wf(ta, b, ib);
        lemma_push_wf(t, b, ib);
        lemma_push_wf(tb, a, ia);
        let u1 = ta.push((b, ib));
        let u2 = tb.push((a, ia));
        assert forall|r: RouteView| u1.contains(r) <==> u2.contains(r) by {
            if u1.contains(r) {
                let i = choose|i: int| 0 <= i < u1.len() && u1[i] == r;
                if i < t.len() {
                    assert(u2[i] == r);
                } else if i == t.len() {
                    assert(u2[i + 1] == r);
                } else {
                    assert(u2[i - 1] == r);
                }
            }
            if u2.contains(r) {
                let i = choose|i: int| 0 <= i < u2.len() && u2[i] == r;
                if i < t.len() {
                    assert(u1[i] == r);
                } else if i == t.len() {
                    assert(u1[i + 1] == r);
                } else {
                    assert(u1[i - 1] == r);
                }
            }
        }
        lemma_lookup_order_independent(u1, u2, comps);
    }
}


/// Whether `c` is a possible path component: non-empty and free of `/`.
pub open spec fn is_component(c: Seq<u8>) -> bool {
    c.len() > 0 && forall|k: int| 0 <= k < c.len() ==> c[k] != SLASH
}

/// Appending bytes other than `/` extends the component being scanned.
proof fn lemma_scan_append_plain(s: Seq<u8>, c: Seq<u8>)
    requires
        forall|k: int| 0 <= k < c.len() ==> c[k] != SLASH,
    ensures
        scan(s + c) == (scan(s).0, scan(s).1 + c),
    decreases c.len(),
{
    if c.len() == 0 {
        assert(s + c =~= s);
        assert(scan(s).1 + c =~= scan(s).1);
    } else {
        lemma_scan_append_plain(s, c.drop_last());
        assert((s + c).drop_last() =~= s + c.drop_last());
        assert((scan(s).1 + c.drop_last()).push(c.last()) =~= scan(s).1 + c);
    }
}

/// The empty path and `/` scan to nothing.
proof fn lemma_scan_slash()
    ensures
        scan(Seq::<u8>::empty()) == (Seq::<Seq<u8>>::empty(), Seq::<u8>::empty()),
        scan(seq![SLASH]) == (Seq::<Seq<u8>>::empty(), Seq::<u8>::empty()),
        components(Seq::<u8>::empty()) == Seq::<Seq<u8>>::empty(),
        components(seq![SLASH]) == Seq::<Seq<u8>>::empty(),
{
    let sl: Seq<u8> = seq![SLASH];
    assert(sl.drop_last() =~= Seq::<u8>::empty());
    assert(sl.last() == SLASH);
    assert(scan(Seq::<u8>::empty()) == (Seq::<Seq<u8>>::empty(), Seq::<u8>::empty()));
}

/// `/` followed by joined components scans to all but the last component,
/// with the last one still open.
proof fn lemma_scan_path(cs: Seq<Seq<u8>>)
    requires
        cs.len() >= 1,
        forall|i: int| 0 <= i < cs.len() ==> is_component(#[trigger] cs[i]),
    ensures
        scan(seq![SLASH] + join(cs)) == (cs.drop_last(), cs.last()),
    decreases cs.len(),
{
    let sl: Seq<u8> = seq![SLASH];
    lemma_scan_slash();
    assert(is_component(cs.last()));
    if cs.len() == 1 {
        lemma_scan_append_plain(sl, cs[0]);
        assert(Seq::<u8>::empty() + cs[0] =~= cs[0]);
        assert(cs.drop_last() =~= Seq::<Seq<u8>>::empty());
    } else {
        let rest = cs.drop_last();
        assert forall|i: int| 0 <= i < rest.len() implies is_component(#[trigger] rest[i]) by {
            assert(rest[i] == cs[i]);
        }
        lemma_scan_path(rest);
        let u = sl + join(rest);
        assert(is_component(rest.last()));
        assert(u.push(SLASH).drop_last() =~= u);
        assert(rest.drop_last().push(rest.last()) =~= rest);
        assert(scan(u.push(SLASH)) == (rest, Seq::<u8>::empty()));
        lemma_scan_append_plain(u.push(SLASH), cs.last());
        assert(sl + join(cs) =~= u.push(SLASH) + cs.last());
        assert(Seq::<u8>::empty() + cs.last() =~= cs.last());
    }
}

/// Splitting `/` followed by components joined with `/` gives the components
/// back.
pub proof fn lemma_components_of_path(cs: Seq<Seq<u8>>)
    requires
        forall|i: int| 0 <= i < cs.len() ==> is_component(#[trigger] cs[i]),
    ensures
        components(seq![SLASH] + join(cs)) == cs,
{
    if cs.len() == 0 {
        let sl: Seq<u8> = seq![SLASH];
        lemma_scan_slash();
        assert(sl + join(cs) =~= sl);
    } else {
        lemma_scan_path(cs);
        assert(cs.drop_last().push(cs.last()) =~= cs);
    }
}

/// A path made by putting concrete components into a registered pattern, and
/// matched by no other route, resolves to that route with the substituted
/// values as bindings.
pub proof fn lemma_substituted_path_resolves(t: Seq<RouteView>, k: int, cs: Seq<Seq<u8>>)
    requires
        table_wf(t),
        0 <= k < t.len(),
        forall|i: int| 0 <= i < cs.len() ==> is_component(#[trigger] cs[i]),
        matches(t[k].0, cs),
        forall|j: int| 0 <= j < t.len() && j != k ==> !matches(#[trigger] t[j].0, cs),
    ensures
        lookup_spec(t, components(seq![SLASH] + join(cs))) == Some((t[k].1, bindings(t[k].0, cs))),
{
    lemma_components_of_path(cs);
    lemma_lookup_unique_match(t, cs, k);
}

/// The empty path and `/` have no components, so they match nothing unless
/// a route for `/` itself is registered.
pub proof fn lemma_root_paths_unmatched(t: Seq<RouteView>, p: Seq<u8>)
    requires
        p == Seq::<u8>::empty() || p == seq![SLASH],
        forall|i: int| 0 <= i < t.len() ==> (#[trigger] t[i].0).len() > 0,
    ensures
        components(p) == Seq::<Seq<u8>>::empty(),
        lookup_spec(t, components(p)) is None,
{
    lemma_scan_slash();
    assert forall|j: int| 0 <= j < t.len() implies !matches(
        #[trigger] t[j].0,
        Seq::<Seq<u8>>::empty(),
    ) by {
        assert(t[j].0.len() > 0);
    }
    lemma_best(t, components(p), t.len() as int);
}

/// A pattern ending in a catch-all matches any components that agree with
/// its static segments and leave at least one for the catch-all, which binds
/// the rest joined with `/`.
pub proof fn lemma_wildcard_takes_remainder(segs: Seq<SegmentView>, comps: Seq<Seq<u8>>)
    requires
        ends_in_wildcard(segs),
        comps.len() >= segs.len(),
        forall|i: int|
            0 <= i < segs.len() && (#[trigger] segs[i]) is Static ==> comps[i] == segs[i]->Static_0,
    ensures
        matches(segs, comps),
        bindings(segs, comps).last() == (
            segs.last()->Wildcard_0,
            join(comps.subrange(segs.len() - 1, comps.len() as int)),
        ),
{
}

} // verus!
