use vstd::prelude::*;

verus! {

/// One triangle of a triangulation of the walkable area: its corners by
/// vertex id, counterclockwise, and for each edge `k` (from corner `k` to
/// corner `k + 1`) the index of the triangle on the other side, when that
/// triangle is part of the walkable area too.
#[derive(Clone, Copy, Debug, PartialEq, Eq)]
pub struct FaceTopology {
    pub vertices: [u32; 3],
    pub neighbors: [Option<u32>; 3],
}

/// Where a link of a navigation-mesh triangle leads: into another triangle
/// of the same chunk, or across one of the four sides of the chunk.
#[derive(Clone, Copy, Debug, PartialEq, Eq, Structural)]
pub enum LinkKind {
    Internal,
    PosX,
    NegX,
    PosY,
    NegY,
}

/// A crossing from one triangle into a neighbouring one: the shared edge
/// `segment` (vertex ids, in the order of this triangle), the index of that
/// edge in this triangle, the neighbouring triangle, the index of the link
/// back in the neighbour's list of links, and the index of the shared edge
/// in the neighbour.
#[derive(Clone, Copy, Debug, PartialEq, Eq)]
pub struct TriangleLink {
    pub segment: [u32; 2],
    pub edge: u8,
    pub opposite_triangle: u32,
    pub opposite_link: u8,
    pub opposite_edge: u8,
}

/// The corner after corner `k`, counterclockwise.
pub open spec fn next_corner(k: int) -> int {
    if k == 2 {
        0
    } else {
        k + 1
    }
}

/// Whether the walk around a triangle's pivot corner keeps the triangle:
/// each entry tells whether the edge is a constraint leaving the corner and
/// whether it is one entering it. The first edge that is a constraint in one
/// direction only decides: one that enters the corner drops the triangle.
pub open spec fn face_kept(around_pivot: Seq<(bool, bool)>) -> bool
    decreases around_pivot.len(),
{
    if around_pivot.len() == 0 {
        true
    } else if around_pivot[0].0 != around_pivot[0].1 {
        !around_pivot[0].1
    } else {
        face_kept(around_pivot.drop_first())
    }
}

/// The first edge around the pivot that is a constraint in one direction
/// only decides: the triangle is kept exactly when that edge does not enter
/// the corner.
pub proof fn lemma_face_kept_first_difference(s: Seq<(bool, bool)>, i: int)
    requires
        0 <= i < s.len(),
        s[i].0 != s[i].1,
        forall|j: int| 0 <= j < i ==> s[j].0 == s[j].1,
    ensures
        face_kept(s) == !s[i].1,
    decreases i,
{
    if i > 0 {
        assert(s[0].0 == s[0].1);
        let t = s.drop_first();
        assert forall|j: int| 0 <= j < i - 1 implies t[j].0 == t[j].1 by {
            assert(t[j] == s[j + 1]);
        }
        lemma_face_kept_first_difference(t, i - 1);
    }
}

/// With no edge that is a constraint in one direction only, the triangle is
/// kept.
pub proof fn lemma_face_kept_no_difference(s: Seq<(bool, bool)>)
    requires
        forall|j: int| 0 <= j < s.len() ==> s[j].0 == s[j].1,
    ensures
        face_kept(s),
    decreases s.len(),
{
    if s.len() > 0 {
        assert(s[0].0 == s[0].1);
        let t = s.drop_first();
        assert forall|j: int| 0 <= j < t.len() implies t[j].0 == t[j].1 by {
            assert(t[j] == s[j + 1]);
        }
        lemma_face_kept_no_difference(t);
    }
}

/// Decides whether a triangle lies inside the walkable area, from the
/// constraint edges met around its pivot corner (see `face_kept`).
pub fn keep_face(around_pivot: &[(bool, bool)]) -> (r: bool)
    ensures
        r == face_kept(around_pivot@),
        forall|i: int|
            0 <= i < around_pivot@.len() && around_pivot@[i].0 != around_pivot@[i].1 && (forall|j: int|
                0 <= j < i ==> around_pivot@[j].0 == around_pivot@[j].1) ==> r == !#[trigger] around_pivot@[i].1,
        (forall|j: int| 0 <= j < around_pivot@.len() ==> around_pivot@[j].0 == around_pivot@[j].1) ==> r,
{
    proof {
        assert forall|i: int|
            0 <= i < around_pivot@.len() && around_pivot@[i].0 != around_pivot@[i].1 && (forall|j: int|
                0 <= j < i ==> around_pivot@[j].0 == around_pivot@[j].1) implies face_kept(around_pivot@)
            == !#[trigger] around_pivot@[i].1 by {
            lemma_face_kept_first_difference(around_pivot@, i);
        }
        if forall|j: int| 0 <= j < around_pivot@.len() ==> around_pivot@[j].0 == around_pivot@[j].1 {
            lemma_face_kept_no_difference(around_pivot@);
        }
    }
    let mut i: usize = 0;
    assert(around_pivot@.skip(0) =~= around_pivot@);
    while i < around_pivot.len()
        invariant
            0 <= i <= around_pivot.len(),
            face_kept(around_pivot@) == face_kept(around_pivot@.skip(i as int)),
            forall|i: int|
                0 <= i < around_pivot@.len() && around_pivot@[i].0 != around_pivot@[i].1 && (forall|j: int|
                    0 <= j < i ==> around_pivot@[j].0 == around_pivot@[j].1) ==> face_kept(around_pivot@)
                    == !#[trigger] around_pivot@[i].1,
            (forall|j: int| 0 <= j < around_pivot@.len() ==> around_pivot@[j].0 == around_pivot@[j].1)
                ==> face_kept(around_pivot@),
        decreases around_pivot.len() - i,
    {
        let (outgoing, incoming) = around_pivot[i];
        proof {
            let s = around_pivot@.skip(i as int);
            assert(s[0] == around_pivot@[i as int]);
            assert(s.drop_first() =~= around_pivot@.skip(i + 1));
        }
        if outgoing != incoming {
            return !incoming;
        }
        i += 1;
    }
    proof {
        assert(around_pivot@.skip(i as int).len() == 0);
    }
    true
}

/// The links of one triangle, held inline (up to three, one per edge) in a
/// `smallvec::SmallVec`. Its contents are named by [`link_list_items`].
#[verifier::external_body]
#[derive(Debug)]
pub struct LinkList {
    inner: smallvec::SmallVec<[TriangleLink; 3]>,
}

/// The links held by a [`LinkList`], in order.
pub uninterp spec fn link_list_items(l: LinkList) -> Seq<TriangleLink>;

impl LinkList {
    /// The links held, in order.
    pub open spec fn view(&self) -> Seq<TriangleLink> {
        link_list_items(*self)
    }

    /// `SmallVec::new`: an empty list.
    #[verifier::external_body]
    fn new() -> (r: LinkList)
        ensures
            link_list_items(r) == Seq::<TriangleLink>::empty(),
    {
        LinkList { inner: smallvec::SmallVec::new() }
    }

    /// `SmallVec::push`: appends `l` after the links held.
    #[verifier::external_body]
    fn push(&mut self, l: TriangleLink)
        ensures
            link_list_items(*final(self)) == link_list_items(*old(self)).push(l),
    {
        self.inner.push(l);
    }

    /// `SmallVec::len`: the number of links held.
    #[verifier::external_body]
    fn len(&self) -> (r: usize)
        ensures
            r == link_list_items(*self).len(),
    {
        self.inner.len()
    }

    /// `SmallVec::as_slice`: the links held, as a slice.
    #[verifier::external_body]
    fn as_slice(&self) -> (r: &[TriangleLink])
        ensures
            r@ == link_list_items(*self),
    {
        self.inner.as_slice()
    }

    /// The `p`-th link held.
    fn get(&self, p: usize) -> (r: TriangleLink)
        requires
            p < self@.len(),
        ensures
            r == self@[p as int],
    {
        self.as_slice()[p]
    }

    /// The links held, in order.
    pub fn links(&self) -> (r: &[TriangleLink])
        ensures
            r@ == self@,
    {
        self.as_slice()
    }

    /// Appends the links of `v`, in order.
    fn extend_from(&mut self, v: &Vec<TriangleLink>)
        ensures
            final(self)@ == old(self)@ + v@,
    {
        let mut k: usize = 0;
        while k < v.len()
            invariant
                k <= v@.len(),
                self@ == old(self)@ + v@.subrange(0, k as int),
            decreases v.len() - k,
        {
            self.push(v[k]);
            proof {
                assert(v@.subrange(0, k + 1) =~= v@.subrange(0, k as int).push(v@[k as int]));
            }
            k = k + 1;
        }
        proof {
            assert(v@.subrange(0, v@.len() as int) =~= v@);
        }
    }
}

/// Whether some link of `links` lies on edge `k`.
pub open spec fn covers_edge(links: Seq<TriangleLink>, k: int) -> bool {
    exists|p: int| 0 <= p < links.len() && links[p].edge as int == k
}

fn has_link_on_edge(links: &LinkList, k: u8) -> (r: bool)
    ensures
        r == covers_edge(links@, k as int),
{
    let mut p: usize = 0;
    while p < links.len()
        invariant
            0 <= p <= links@.len(),
            forall|q: int| 0 <= q < p ==> links@[q].edge != k,
        decreases links@.len() - p,
    {
        if links.get(p).edge == k {
            return true;
        }
        p += 1;
    }
    false
}

/// The position of the first link of `links` into triangle `target`.
fn find_link_to(links: &LinkList, target: u32) -> (r: Option<usize>)
    ensures
        match r {
            Some(p) => p < links@.len() && links@[p as int].opposite_triangle == target && forall|q: int|
                0 <= q < p ==> links@[q].opposite_triangle != target,
            None => forall|q: int| 0 <= q < links@.len() ==> links@[q].opposite_triangle != target,
        },
{
    let mut p: usize = 0;
    while p < links.len()
        invariant
            0 <= p <= links@.len(),
            forall|q: int| 0 <= q < p ==> links@[q].opposite_triangle != target,
        decreases links@.len() - p,
    {
        if links.get(p).opposite_triangle == target {
            return Some(p);
        }
        p += 1;
    }
    None
}

/// The first corner of `vertices` that is vertex `v`.
fn corner_of(vertices: &[u32; 3], v: u32) -> (r: Option<usize>)
    ensures
        match r {
            Some(c) => c < 3 && vertices@[c as int] == v && forall|d: int| 0 <= d < c ==> vertices@[d] != v,
            None => forall|d: int| 0 <= d < 3 ==> vertices@[d] != v,
        },
{
    let mut c: usize = 0;
    while c < 3
        invariant
            0 <= c <= 3,
            forall|d: int| 0 <= d < c ==> vertices@[d] != v,
        decreases 3 - c,
    {
        if vertices[c] == v {
            return Some(c);
        }
        c += 1;
    }
    None
}

/// Every neighbour index names one of the faces.
pub open spec fn neighbors_in_range(faces: Seq<FaceTopology>) -> bool {
    forall|i: int, k: int|
        0 <= i < faces.len() && 0 <= k < 3 && (#[trigger] faces[i].neighbors[k]) is Some
            ==> faces[i].neighbors[k]->0 < faces.len()
}

/// The first edge of `face` that borders triangle `j` (edge 2 when neither
/// of the first two does).
pub open spec fn edge_facing(face: FaceTopology, j: u32) -> int {
    if face.neighbors[0] == Some(j) {
        0
    } else if face.neighbors[1] == Some(j) {
        1
    } else {
        2
    }
}

/// A proper triangle: three different corners, and a different neighbour
/// across each edge that has one.
pub open spec fn face_wf(face: FaceTopology) -> bool {
    &&& face.vertices[0] != face.vertices[1]
    &&& face.vertices[0] != face.vertices[2]
    &&& face.vertices[1] != face.vertices[2]
    &&& face.neighbors[0] is Some ==> face.neighbors[0] != face.neighbors[1] && face.neighbors[0]
        != face.neighbors[2]
    &&& face.neighbors[1] is Some ==> face.neighbors[1] != face.neighbors[2]
}

/// Edge `k` of face `i` is shared the right way: the neighbour is another
/// face, it borders `i` in turn, and along the same two vertices taken the
/// other way round.
pub open spec fn shared_edge_wf(faces: Seq<FaceTopology>, i: int, k: int) -> bool {
    let j = faces[i].neighbors[k]->0 as int;
    let k2 = edge_facing(faces[j], i as u32);
    &&& j != i
    &&& faces[j].neighbors[k2] == Some(i as u32)
    &&& faces[j].vertices[k2] == faces[i].vertices[next_corner(k)]
    &&& faces[j].vertices[next_corner(k2)] == faces[i].vertices[k]
}

/// The faces form a triangulation: proper triangles whose neighbour
/// relation is symmetric along shared edges.
pub open spec fn faces_wf(faces: Seq<FaceTopology>) -> bool {
    &&& faces.len() <= u32::MAX
    &&& neighbors_in_range(faces)
    &&& forall|i: int| 0 <= i < faces.len() ==> face_wf(#[trigger] faces[i])
    &&& forall|i: int, k: int|
        0 <= i < faces.len() && 0 <= k < 3 && (#[trigger] faces[i].neighbors[k]) is Some
            ==> shared_edge_wf(faces, i, k)
}

/// Link `l` of triangle `t` lies on an edge of `t` that borders the linked
/// triangle, and names the edge of that triangle which borders `t`.
pub open spec fn link_on_edge(faces: Seq<FaceTopology>, t: int, l: TriangleLink) -> bool {
    let k = l.edge as int;
    &&& k < 3
    &&& faces[t].neighbors[k] == Some(l.opposite_triangle)
    &&& l.segment[0] == faces[t].vertices[k]
    &&& l.segment[1] == faces[t].vertices[next_corner(k)]
    &&& l.opposite_edge as int == edge_facing(faces[l.opposite_triangle as int], t as u32)
}

/// Link `p` of triangle `t` and the link it names in the other triangle
/// name each other.
pub open spec fn link_paired(ls: Seq<Seq<TriangleLink>>, t: int, p: int) -> bool {
    let l = ls[t][p];
    let j = l.opposite_triangle as int;
    let q = l.opposite_link as int;
    &&& j < ls.len()
    &&& q < ls[j].len()
    &&& ls[j][q].opposite_triangle as int == t
    &&& ls[j][q].opposite_link as int == p
}

/// The order of the links of triangle `t`: first those into triangles that
/// come before `t`, by triangle; then those into later triangles, by edge.
pub open spec fn link_before(t: int, a: TriangleLink, b: TriangleLink) -> bool {
    ||| a.opposite_triangle < t && b.opposite_triangle < t && a.opposite_triangle
        < b.opposite_triangle
    ||| a.opposite_triangle < t && b.opposite_triangle > t
    ||| a.opposite_triangle > t && b.opposite_triangle > t && a.edge < b.edge
}

/// The links of every triangle, as sequences.
pub open spec fn links_view(v: Seq<LinkList>) -> Seq<Seq<TriangleLink>> {
    v.map_values(|x: LinkList| x@)
}

/// The links after the first `m` triangles have been handled: every link
/// lies on the right edge and is paired with the link back; an edge carries
/// a link exactly when one of its two triangles was handled; the links of a
/// triangle are in order; and a triangle not yet handled only has links into
/// handled ones.
pub open spec fn linked_upto(faces: Seq<FaceTopology>, ls: Seq<Seq<TriangleLink>>, m: int) -> bool {
    &&& ls.len() == faces.len()
    &&& forall|t: int, p: int|
        0 <= t < ls.len() && 0 <= p < ls[t].len() ==> link_on_edge(faces, t, #[trigger] ls[t][p])
    &&& forall|t: int, p: int|
        0 <= t < ls.len() && 0 <= p < ls[t].len() ==> #[trigger] link_paired(ls, t, p)
    &&& forall|t: int, k: int|
        #![trigger faces[t].neighbors[k], ls[t]]
        #![trigger covers_edge(ls[t], k)]
        0 <= t < ls.len() && 0 <= k < 3 && faces[t].neighbors[k] is Some ==> (covers_edge(ls[t], k) <==> (
        t < m || faces[t].neighbors[k]->0 < m))
    &&& forall|t: int, p: int, q: int|
        0 <= t < ls.len() && 0 <= p < q < ls[t].len() ==> link_before(t, #[trigger] ls[t][p], #[trigger] ls[t][q])
    &&& forall|t: int, p: int|
        0 <= t < ls.len() && m <= t && 0 <= p < ls[t].len() ==> (#[trigger] ls[t][p]).opposite_triangle < m
}

/// Every triangle is linked to each of its neighbours, once, with paired
/// links, in the order of `link_before`.
pub open spec fn triangles_linked(faces: Seq<FaceTopology>, ls: Seq<Seq<TriangleLink>>) -> bool {
    &&& ls.len() == faces.len()
    &&& forall|t: int, p: int|
        0 <= t < ls.len() && 0 <= p < ls[t].len() ==> link_on_edge(faces, t, #[trigger] ls[t][p])
            && link_paired(ls, t, p)
    &&& forall|t: int, k: int|
        0 <= t < ls.len() && 0 <= k < 3 && (#[trigger] faces[t].neighbors[k]) is Some ==> covers_edge(
            ls[t],
            k,
        )
    &&& forall|t: int, p: int, q: int|
        0 <= t < ls.len() && 0 <= p < q < ls[t].len() ==> link_before(t, #[trigger] ls[t][p], #[trigger] ls[t][q])
}

/// The links that triangle `i` makes for itself: one for each edge whose
/// neighbour comes later, in edge order, on the right edge.
spec fn fresh_links(faces: Seq<FaceTopology>, i: int, nl: Seq<TriangleLink>) -> bool {
    &&& nl.len() <= 3
    &&& forall|a: int|
        0 <= a < nl.len() ==> {
            let l = #[trigger] nl[a];
            &&& l.edge < 3
            &&& faces[i].neighbors[l.edge as int] == Some(l.opposite_triangle)
            &&& l.opposite_triangle > i
            &&& l.segment[0] == faces[i].vertices[l.edge as int]
            &&& l.segment[1] == faces[i].vertices[next_corner(l.edge as int)]
        }
    &&& forall|a: int, b: int| 0 <= a < b < nl.len() ==> (#[trigger] nl[a]).edge < (#[trigger] nl[b]).edge
    &&& forall|k: int|
        0 <= k < 3 && (#[trigger] faces[i].neighbors[k]) is Some && faces[i].neighbors[k]->0 > i
            ==> covers_edge(nl, k)
}

/// `b` is the link back from the neighbour into triangle `i` for link `l`,
/// which sits at position `idx` of triangle `i`.
spec fn is_back_link(faces: Seq<FaceTopology>, i: int, l: TriangleLink, idx: int, b: TriangleLink) -> bool {
    &&& b.segment[0] == l.segment[1]
    &&& b.segment[1] == l.segment[0]
    &&& b.edge as int == edge_facing(faces[l.opposite_triangle as int], i as u32)
    &&& b.opposite_triangle as int == i
    &&& b.opposite_link as int == idx
    &&& b.opposite_edge == l.edge
}

/// The neighbour of fresh link `a` got its link back.
spec fn pushed_back(
    faces: Seq<FaceTopology>,
    i: int,
    ls0: Seq<Seq<TriangleLink>>,
    ls: Seq<Seq<TriangleLink>>,
    nl0: Seq<TriangleLink>,
    a: int,
) -> bool {
    let j = nl0[a].opposite_triangle as int;
    &&& ls[j].len() == ls0[j].len() + 1
    &&& forall|q: int| 0 <= q < ls0[j].len() ==> #[trigger] ls[j][q] == ls0[j][q]
    &&& is_back_link(faces, i, nl0[a], ls0[i].len() + a, ls[j][ls0[j].len() as int])
}

/// Fresh link `l0` of triangle `i`, completed into `l1` once its link back
/// was made.
spec fn completed(faces: Seq<FaceTopology>, i: int, ls0: Seq<Seq<TriangleLink>>, l0: TriangleLink, l1: TriangleLink) -> bool {
    &&& l1.segment == l0.segment
    &&& l1.edge == l0.edge
    &&& l1.opposite_triangle == l0.opposite_triangle
    &&& l1.opposite_link as int == ls0[l0.opposite_triangle as int].len()
    &&& l1.opposite_edge as int == edge_facing(faces[l0.opposite_triangle as int], i as u32)
}

/// Two links of a handled triangle never share an edge.
proof fn lemma_distinct_edges(faces: Seq<FaceTopology>, ls: Seq<Seq<TriangleLink>>, m: int, t: int, p: int, q: int)
    requires
        faces_wf(faces),
        linked_upto(faces, ls, m),
        0 <= t < ls.len(),
        0 <= p < q < ls[t].len(),
    ensures
        ls[t][p].edge != ls[t][q].edge,
{
    let a = ls[t][p];
    let b = ls[t][q];
    assert(link_on_edge(faces, t, a));
    assert(link_on_edge(faces, t, b));
    assert(link_before(t, a, b));
    assert(face_wf(faces[t]));
}

/// A triangle has at most three links.
proof fn lemma_at_most_three(faces: Seq<FaceTopology>, ls: Seq<Seq<TriangleLink>>, m: int, t: int)
    requires
        faces_wf(faces),
        linked_upto(faces, ls, m),
        0 <= t < ls.len(),
    ensures
        ls[t].len() <= 3,
{
    if ls[t].len() > 3 {
        lemma_distinct_edges(faces, ls, m, t, 0, 1);
        lemma_distinct_edges(faces, ls, m, t, 0, 2);
        lemma_distinct_edges(faces, ls, m, t, 0, 3);
        lemma_distinct_edges(faces, ls, m, t, 1, 2);
        lemma_distinct_edges(faces, ls, m, t, 1, 3);
        lemma_distinct_edges(faces, ls, m, t, 2, 3);
        assert(link_on_edge(faces, t, ls[t][0]));
        assert(link_on_edge(faces, t, ls[t][1]));
        assert(link_on_edge(faces, t, ls[t][2]));
        assert(link_on_edge(faces, t, ls[t][3]));
    }
}

/// The edge of a proper triangle that borders `j` is the one whose
/// neighbour is `j`.
proof fn lemma_edge_facing(face: FaceTopology, k: int, j: u32)
    requires
        face_wf(face),
        0 <= k < 3,
        face.neighbors[k] == Some(j),
    ensures
        edge_facing(face, j) == k,
{
}

/// Fresh links go into different triangles.
proof fn lemma_fresh_targets_distinct(faces: Seq<FaceTopology>, i: int, nl: Seq<TriangleLink>, a: int, b: int)
    requires
        faces_wf(faces),
        0 <= i < faces.len(),
        fresh_links(faces, i, nl),
        0 <= a < b < nl.len(),
    ensures
        nl[a].opposite_triangle != nl[b].opposite_triangle,
{
    assert(face_wf(faces[i]));
    let la = nl[a];
    let lb = nl[b];
    assert(la.edge < lb.edge);
}

/// Some fresh link of `nl` goes into triangle `t`.
spec fn fresh_target(nl: Seq<TriangleLink>, t: int) -> bool {
    exists|a: int| 0 <= a < nl.len() && nl[a].opposite_triangle as int == t
}

/// How the links look once triangle `i` is handled: every list only grew
/// at its end; triangle `i` got its completed fresh links; each target of a
/// fresh link got one link back into `i`; nothing else changed.
spec fn step_shape(
    faces: Seq<FaceTopology>,
    i: int,
    ls0: Seq<Seq<TriangleLink>>,
    nl0: Seq<TriangleLink>,
    nl1: Seq<TriangleLink>,
    ls2: Seq<Seq<TriangleLink>>,
) -> bool {
    let base = ls0[i].len();
    &&& ls2.len() == ls0.len()
    &&& nl1.len() == nl0.len()
    &&& forall|t: int, q: int|
        0 <= t < ls0.len() && 0 <= q < ls0[t].len() ==> ls0[t].len() <= ls2[t].len() && #[trigger] ls2[t][q]
            == ls0[t][q]
    &&& ls2[i].len() == base + nl0.len()
    &&& forall|a: int|
        0 <= a < nl0.len() ==> ls2[i][base + a] == #[trigger] nl1[a] && completed(faces, i, ls0, nl0[a], nl1[a])
    &&& forall|a: int|
        0 <= a < nl0.len() ==> {
            let j = (#[trigger] nl0[a]).opposite_triangle as int;
            &&& i < j < ls0.len()
            &&& ls2[j].len() == ls0[j].len() + 1
            &&& link_on_edge(faces, j, ls2[j][ls0[j].len() as int])
            &&& ls2[j][ls0[j].len() as int].opposite_triangle as int == i
            &&& ls2[j][ls0[j].len() as int].opposite_link as int == base + a
        }
    &&& forall|t: int| 0 <= t < ls0.len() && t != i && !fresh_target(nl0, t) ==> #[trigger] ls2[t] == ls0[t]
}

/// Handling triangle `i` gives links of the shape of `step_shape`.
proof fn lemma_step_shape(
    faces: Seq<FaceTopology>,
    i: int,
    ls0: Seq<Seq<TriangleLink>>,
    nl0: Seq<TriangleLink>,
    ls1: Seq<Seq<TriangleLink>>,
    nl1: Seq<TriangleLink>,
)
    requires
        faces_wf(faces),
        0 <= i < faces.len(),
        linked_upto(faces, ls0, i),
        fresh_links(faces, i, nl0),
        nl1.len() == nl0.len(),
        ls1.len() == ls0.len(),
        ls1[i] == ls0[i],
        forall|a: int| 0 <= a < nl0.len() ==> pushed_back(faces, i, ls0, ls1, nl0, a),
        forall|t: int|
            0 <= t < ls0.len() && (forall|a: int| 0 <= a < nl0.len() ==> nl0[a].opposite_triangle != t)
                ==> ls1[t] == ls0[t],
        forall|a: int| 0 <= a < nl0.len() ==> completed(faces, i, ls0, nl0[a], #[trigger] nl1[a]),
    ensures
        step_shape(faces, i, ls0, nl0, nl1, ls1.update(i, ls0[i] + nl1)),
{
    let ls2 = ls1.update(i, ls0[i] + nl1);
    let base = ls0[i].len();
    let n = faces.len();
    assert(face_wf(faces[i]));
    assert forall|t: int, q: int| 0 <= t < n && 0 <= q < ls0[t].len() implies ls0[t].len() <= ls2[t].len()
        && #[trigger] ls2[t][q] == ls0[t][q] by {
        if t == i {
        } else if fresh_target(nl0, t) {
            let a = choose|a: int| 0 <= a < nl0.len() && nl0[a].opposite_triangle as int == t;
            assert(pushed_back(faces, i, ls0, ls1, nl0, a));
        } else {
            assert(ls1[t] == ls0[t]);
        }
    }
    assert forall|a: int| 0 <= a < nl0.len() implies ls2[i][base + a] == #[trigger] nl1[a] && completed(
        faces,
        i,
        ls0,
        nl0[a],
        nl1[a],
    ) by {
    }
    assert forall|a: int| 0 <= a < nl0.len() implies {
        let j = (#[trigger] nl0[a]).opposite_triangle as int;
        &&& i < j < ls0.len()
        &&& ls2[j].len() == ls0[j].len() + 1
        &&& link_on_edge(faces, j, ls2[j][ls0[j].len() as int])
        &&& ls2[j][ls0[j].len() as int].opposite_triangle as int == i
        &&& ls2[j][ls0[j].len() as int].opposite_link as int == base + a
    } by {
        let l = nl0[a];
        let j = l.opposite_triangle as int;
        let k = l.edge as int;
        assert(pushed_back(faces, i, ls0, ls1, nl0, a));
        assert(shared_edge_wf(faces, i, k));
        assert(face_wf(faces[j]));
        lemma_edge_facing(faces[i], k, j as u32);
        let k2 = edge_facing(faces[j], i as u32);
        assert(0 <= k2 < 3);
        assert(ls2[j] == ls1[j]);
    }
    assert forall|t: int| 0 <= t < n && t != i && !fresh_target(nl0, t) implies #[trigger] ls2[t] == ls0[t] by {
        if exists|a: int| 0 <= a < nl0.len() && nl0[a].opposite_triangle == t {
            let a = choose|a: int| 0 <= a < nl0.len() && nl0[a].opposite_triangle == t;
            assert(fresh_target(nl0, t));
        }
        assert(ls1[t] == ls0[t]);
    }
}

/// After handling triangle `i`, every link lies on the right edge and is
/// paired.
proof fn lemma_step_on_edge_paired(
    faces: Seq<FaceTopology>,
    i: int,
    ls0: Seq<Seq<TriangleLink>>,
    nl0: Seq<TriangleLink>,
    nl1: Seq<TriangleLink>,
    ls2: Seq<Seq<TriangleLink>>,
)
    requires
        faces_wf(faces),
        0 <= i < faces.len(),
        linked_upto(faces, ls0, i),
        fresh_links(faces, i, nl0),
        step_shape(faces, i, ls0, nl0, nl1, ls2),
    ensures
        forall|t: int, p: int|
            0 <= t < ls2.len() && 0 <= p < ls2[t].len() ==> link_on_edge(faces, t, #[trigger] ls2[t][p]),
        forall|t: int, p: int| 0 <= t < ls2.len() && 0 <= p < ls2[t].len() ==> #[trigger] link_paired(ls2, t, p),
{
    let base = ls0[i].len();
    assert forall|t: int, p: int| 0 <= t < ls2.len() && 0 <= p < ls2[t].len() implies link_on_edge(
        faces,
        t,
        #[trigger] ls2[t][p],
    ) && link_paired(ls2, t, p) by {
        if p < ls0[t].len() {
            assert(link_on_edge(faces, t, ls0[t][p]));
            assert(link_paired(ls0, t, p));
            let l = ls0[t][p];
            let j = l.opposite_triangle as int;
            let q = l.opposite_link as int;
            assert(ls2[j][q] == ls0[j][q]);
        } else if t == i {
            let a = p - base;
            assert(nl1[a] == ls2[i][p]);
            assert(completed(faces, i, ls0, nl0[a], nl1[a]));
            let l = nl0[a];
            let j = l.opposite_triangle as int;
            assert(ls2[j][ls0[j].len() as int].opposite_link as int == base + a);
        } else if fresh_target(nl0, t) {
            let a = choose|a: int| 0 <= a < nl0.len() && nl0[a].opposite_triangle as int == t;
            let l = nl0[a];
            assert(ls2[t].len() == ls0[t].len() + 1);
            assert(p == ls0[t].len());
            assert(nl1[a] == ls2[i][base + a]);
            assert(completed(faces, i, ls0, nl0[a], nl1[a]));
        } else {
            assert(ls2[t] == ls0[t]);
        }
    }
}

/// After handling triangle `i`, an edge carries a link exactly when one of
/// its two triangles has been handled.
proof fn lemma_step_covers(
    faces: Seq<FaceTopology>,
    i: int,
    ls0: Seq<Seq<TriangleLink>>,
    nl0: Seq<TriangleLink>,
    nl1: Seq<TriangleLink>,
    ls2: Seq<Seq<TriangleLink>>,
)
    requires
        faces_wf(faces),
        0 <= i < faces.len(),
        linked_upto(faces, ls0, i),
        fresh_links(faces, i, nl0),
        step_shape(faces, i, ls0, nl0, nl1, ls2),
    ensures
        forall|t: int, k: int|
            #![trigger faces[t].neighbors[k], ls2[t]]
            #![trigger covers_edge(ls2[t], k)]
            0 <= t < ls2.len() && 0 <= k < 3 && faces[t].neighbors[k] is Some ==> (covers_edge(ls2[t], k)
                <==> (t < i + 1 || faces[t].neighbors[k]->0 < i + 1)),
{
    let base = ls0[i].len();
    assert forall|t: int, k: int|
        0 <= t < ls2.len() && 0 <= k < 3 && faces[t].neighbors[k] is Some implies (covers_edge(ls2[t], k)
        <==> (t < i + 1 || faces[t].neighbors[k]->0 < i + 1)) by {
        let y = faces[t].neighbors[k]->0 as int;
        assert(shared_edge_wf(faces, t, k));
        assert(face_wf(faces[t]));
        if t == i {
            if y < i {
                assert(covers_edge(ls0[t], k));
                let p = choose|p: int| 0 <= p < ls0[t].len() && ls0[t][p].edge as int == k;
                assert(ls2[t][p] == ls0[t][p]);
            } else {
                assert(covers_edge(nl0, k));
                let a = choose|a: int| 0 <= a < nl0.len() && nl0[a].edge as int == k;
                assert(nl1[a] == ls2[i][base + a]);
                assert(completed(faces, i, ls0, nl0[a], nl1[a]));
            }
            assert(covers_edge(ls2[t], k));
        } else if t < i {
            assert(covers_edge(ls0[t], k));
            let p = choose|p: int| 0 <= p < ls0[t].len() && ls0[t][p].edge as int == k;
            assert(ls2[t][p] == ls0[t][p]);
            assert(covers_edge(ls2[t], k));
        } else if fresh_target(nl0, t) {
            let a = choose|a: int| 0 <= a < nl0.len() && nl0[a].opposite_triangle as int == t;
            let l = nl0[a];
            let back = ls2[t][ls0[t].len() as int];
            assert(link_on_edge(faces, t, back));
            if y == i {
                lemma_edge_facing(faces[t], k, i as u32);
                assert(covers_edge(ls2[t], k));
            } else {
                assert(back.edge as int != k);
                if covers_edge(ls2[t], k) {
                    let p = choose|p: int| 0 <= p < ls2[t].len() && ls2[t][p].edge as int == k;
                    assert(ls2[t][p] == ls0[t][p]);
                    assert(covers_edge(ls0[t], k));
                }
                if covers_edge(ls0[t], k) {
                    let p = choose|p: int| 0 <= p < ls0[t].len() && ls0[t][p].edge as int == k;
                    assert(ls2[t][p] == ls0[t][p]);
                }
            }
        } else {
            assert(ls2[t] == ls0[t]);
            if y == i {
                let k2 = edge_facing(faces[i], t as u32);
                assert(faces[i].neighbors[k2] == Some(t as u32));
                assert(covers_edge(nl0, k2));
                let a = choose|a: int| 0 <= a < nl0.len() && nl0[a].edge as int == k2;
                assert(nl0[a].opposite_triangle == t);
                assert(fresh_target(nl0, t));
            }
        }
    }
}

/// After handling triangle `i`, the links of every triangle are in order,
/// and triangles not handled yet only link into handled ones.
proof fn lemma_step_order(
    faces: Seq<FaceTopology>,
    i: int,
    ls0: Seq<Seq<TriangleLink>>,
    nl0: Seq<TriangleLink>,
    nl1: Seq<TriangleLink>,
    ls2: Seq<Seq<TriangleLink>>,
)
    requires
        faces_wf(faces),
        0 <= i < faces.len(),
        linked_upto(faces, ls0, i),
        fresh_links(faces, i, nl0),
        step_shape(faces, i, ls0, nl0, nl1, ls2),
    ensures
        forall|t: int, p: int, q: int|
            0 <= t < ls2.len() && 0 <= p < q < ls2[t].len() ==> link_before(t, #[trigger] ls2[t][p], #[trigger] ls2[t][q]),
        forall|t: int, p: int|
            0 <= t < ls2.len() && i + 1 <= t && 0 <= p < ls2[t].len() ==> (#[trigger] ls2[t][p]).opposite_triangle
                < i + 1,
{
    let base = ls0[i].len();
    assert forall|t: int, p: int, q: int| 0 <= t < ls2.len() && 0 <= p < q < ls2[t].len() implies link_before(
        t,
        #[trigger] ls2[t][p],
        #[trigger] ls2[t][q],
    ) by {
        if q < ls0[t].len() {
            assert(link_before(t, ls0[t][p], ls0[t][q]));
        } else if t == i {
            let b = q - base;
            assert(nl1[b] == ls2[i][q]);
            assert(completed(faces, i, ls0, nl0[b], nl1[b]));
            if p < base {
                assert(ls0[i][p].opposite_triangle < i);
            } else {
                let a = p - base;
                assert(nl1[a] == ls2[i][p]);
                assert(completed(faces, i, ls0, nl0[a], nl1[a]));
                assert(nl0[a].edge < nl0[b].edge);
            }
        } else if fresh_target(nl0, t) {
            let a = choose|a: int| 0 <= a < nl0.len() && nl0[a].opposite_triangle as int == t;
            let l = nl0[a];
            assert(ls0[t][p].opposite_triangle < i);
        } else {
            assert(ls2[t] == ls0[t]);
        }
    }
    assert forall|t: int, p: int| 0 <= t < ls2.len() && i + 1 <= t && 0 <= p < ls2[t].len() implies (
    #[trigger] ls2[t][p]).opposite_triangle < i + 1 by {
        if p < ls0[t].len() {
            assert(ls0[t][p].opposite_triangle < i);
        } else if fresh_target(nl0, t) {
            let a = choose|a: int| 0 <= a < nl0.len() && nl0[a].opposite_triangle as int == t;
            let l = nl0[a];
        } else {
            assert(ls2[t] == ls0[t]);
        }
    }
}

/// Handling triangle `i` keeps the links in the shape of `linked_upto`.
proof fn lemma_step(
    faces: Seq<FaceTopology>,
    i: int,
    ls0: Seq<Seq<TriangleLink>>,
    nl0: Seq<TriangleLink>,
    ls1: Seq<Seq<TriangleLink>>,
    nl1: Seq<TriangleLink>,
)
    requires
        faces_wf(faces),
        0 <= i < faces.len(),
        linked_upto(faces, ls0, i),
        fresh_links(faces, i, nl0),
        nl1.len() == nl0.len(),
        ls1.len() == ls0.len(),
        ls1[i] == ls0[i],
        forall|a: int| 0 <= a < nl0.len() ==> pushed_back(faces, i, ls0, ls1, nl0, a),
        forall|t: int|
            0 <= t < ls0.len() && (forall|a: int| 0 <= a < nl0.len() ==> nl0[a].opposite_triangle != t)
                ==> ls1[t] == ls0[t],
        forall|a: int| 0 <= a < nl0.len() ==> completed(faces, i, ls0, nl0[a], #[trigger] nl1[a]),
    ensures
        linked_upto(faces, ls1.update(i, ls0[i] + nl1), i + 1),
{
    let ls2 = ls1.update(i, ls0[i] + nl1);
    lemma_step_shape(faces, i, ls0, nl0, ls1, nl1);
    lemma_step_on_edge_paired(faces, i, ls0, nl0, nl1, ls2);
    lemma_step_covers(faces, i, ls0, nl0, nl1, ls2);
    lemma_step_order(faces, i, ls0, nl0, nl1, ls2);
}

/// The links that triangle `i` has made for itself after looking at its
/// first `k` edges.
spec fn fresh_links_upto(faces: Seq<FaceTopology>, i: int, nl: Seq<TriangleLink>, k: int) -> bool {
    &&& nl.len() <= k
    &&& forall|a: int|
        0 <= a < nl.len() ==> {
            let l = #[trigger] nl[a];
            &&& l.edge < k
            &&& faces[i].neighbors[l.edge as int] == Some(l.opposite_triangle)
            &&& l.opposite_triangle > i
            &&& l.segment[0] == faces[i].vertices[l.edge as int]
            &&& l.segment[1] == faces[i].vertices[next_corner(l.edge as int)]
        }
    &&& forall|a: int, b: int| 0 <= a < b < nl.len() ==> (#[trigger] nl[a]).edge < (#[trigger] nl[b]).edge
    &&& forall|k2: int|
        0 <= k2 < k && (#[trigger] faces[i].neighbors[k2]) is Some && faces[i].neighbors[k2]->0 > i
            ==> covers_edge(nl, k2)
}

/// Links each triangle to its neighbours across shared edges. Triangles are
/// taken in order; a triangle gets a link for each of its edges that has a
/// neighbour and no link yet, and the neighbour gets the link back unless it
/// already has one into this triangle. On a triangulation every triangle
/// ends up linked once to each neighbour, with links that name each other.
#[verifier::spinoff_prover]
pub fn link_triangles(faces: &[FaceTopology]) -> (r: Vec<LinkList>)
    requires
        faces@.len() <= u32::MAX,
        neighbors_in_range(faces@),
    ensures
        r@.len() == faces@.len(),
        faces_wf(faces@) ==> triangles_linked(faces@, links_view(r@)),
{
    let ghost wf = faces_wf(faces@);
    let n = faces.len();
    let mut links: Vec<LinkList> = Vec::new();
    let mut t: usize = 0;
    while t < n
        invariant
            0 <= t <= n,
            n == faces@.len(),
            links@.len() == t,
            forall|u: int| 0 <= u < t ==> (#[trigger] links@[u])@.len() == 0,
        decreases n - t,
    {
        links.push(LinkList::new());
        t += 1;
    }
    proof {
        if wf {
            let ls = links_view(links@);
            assert forall|u: int| 0 <= u < n implies (#[trigger] ls[u]).len() == 0 by {
                assert(ls[u] == links@[u]@);
            }
            assert forall|u: int, k: int| 0 <= u < n && 0 <= k < 3 implies !covers_edge(ls[u], k) by {
                assert(ls[u] == links@[u]@);
            }
        }
    }
    let mut i: usize = 0;
    while i < n
        invariant
            0 <= i <= n,
            n == faces@.len(),
            n <= u32::MAX,
            links@.len() == n,
            neighbors_in_range(faces@),
            wf == faces_wf(faces@),
            wf ==> linked_upto(faces@, links_view(links@), i as int),
        decreases n - i,
    {
        let ghost ls0 = links_view(links@);
        proof {
            assert(ls0[i as int] == links@[i as int]@);
        }
        let face = faces[i];
        let mut new_links: Vec<TriangleLink> = Vec::new();
        let mut k: usize = 0;
        while k < 3
            invariant
                0 <= k <= 3,
                0 <= i < n,
                n == faces@.len(),
                face == faces@[i as int],
                links@.len() == n,
                links_view(links@) == ls0,
                ls0[i as int] == links@[i as int]@,
                neighbors_in_range(faces@),
                forall|a: int| 0 <= a < new_links@.len() ==> new_links@[a].opposite_triangle < n,
                wf == faces_wf(faces@),
                wf ==> linked_upto(faces@, ls0, i as int),
                wf ==> fresh_links_upto(faces@, i as int, new_links@, k as int),
            decreases 3 - k,
        {
            let covered = has_link_on_edge(&links[i], k as u8);
            if !covered {
                match face.neighbors[k] {
                    Some(j) => {
                        let next: usize = if k == 2 {
                            0
                        } else {
                            k + 1
                        };
                        let ghost before = new_links@;
                        let l = TriangleLink {
                            segment: [face.vertices[k], face.vertices[next]],
                            edge: k as u8,
                            opposite_triangle: j,
                            opposite_link: 0,
                            opposite_edge: 0,
                        };
                        new_links.push(l);
                        proof {
                            if wf {
                                assert(faces@[i as int].neighbors[k as int] is Some);
                                assert(shared_edge_wf(faces@, i as int, k as int));
                                assert(!(j < i));
                                let nl = new_links@;
                                assert(nl[nl.len() - 1] == l);
                                assert forall|a: int| 0 <= a < nl.len() implies {
                                    let m = #[trigger] nl[a];
                                    &&& m.edge < k + 1
                                    &&& faces@[i as int].neighbors[m.edge as int] == Some(m.opposite_triangle)
                                    &&& m.opposite_triangle > i
                                    &&& m.segment[0] == faces@[i as int].vertices[m.edge as int]
                                    &&& m.segment[1] == faces@[i as int].vertices[next_corner(m.edge as int)]
                                } by {
                                    if a < before.len() {
                                        assert(nl[a] == before[a]);
                                    }
                                }
                                assert forall|a: int, b: int| 0 <= a < b < nl.len() implies (#[trigger] nl[a]).edge
                                    < (#[trigger] nl[b]).edge by {
                                    assert(nl[a] == before[a]);
                                    if b < before.len() {
                                        assert(nl[b] == before[b]);
                                    }
                                }
                                assert forall|k2: int|
                                    0 <= k2 < k + 1 && (#[trigger] faces@[i as int].neighbors[k2]) is Some
                                        && faces@[i as int].neighbors[k2]->0 > i implies covers_edge(nl, k2) by {
                                    if k2 < k {
                                        assert(covers_edge(before, k2));
                                        let a = choose|a: int| 0 <= a < before.len() && before[a].edge as int == k2;
                                        assert(nl[a] == before[a]);
                                    } else {
                                        assert(nl[nl.len() - 1].edge as int == k2);
                                    }
                                }
                            }
                        }
                    },
                    None => {},
                }
            } else {
                proof {
                    if wf {
                        assert(covers_edge(ls0[i as int], k as int));
                    }
                }
            }
            k += 1;
        }
        let ghost nl0 = new_links@;
        proof {
            if wf {
                lemma_at_most_three(faces@, ls0, i as int, i as int);
            }
        }
        let mut li: usize = 0;
        while li < new_links.len()
            invariant
                0 <= li <= new_links@.len(),
                0 <= i < n,
                n == faces@.len(),
                n <= u32::MAX,
                links@.len() == n,
                new_links@.len() == nl0.len(),
                forall|a: int| 0 <= a < new_links@.len() ==> new_links@[a].opposite_triangle < n,
                wf == faces_wf(faces@),
                wf ==> linked_upto(faces@, ls0, i as int),
                wf ==> fresh_links(faces@, i as int, nl0),
                wf ==> ls0[i as int].len() <= 3,
                wf ==> links_view(links@)[i as int] == ls0[i as int],
                wf ==> forall|a: int| 0 <= a < li ==> pushed_back(faces@, i as int, ls0, links_view(links@), nl0, a),
                wf ==> forall|u: int|
                    0 <= u < n && (forall|a: int| 0 <= a < li ==> nl0[a].opposite_triangle != u)
                        ==> #[trigger] links_view(links@)[u] == ls0[u],
                wf ==> forall|a: int| 0 <= a < li ==> completed(faces@, i as int, ls0, nl0[a], #[trigger] new_links@[a]),
                wf ==> forall|a: int| li <= a < nl0.len() ==> #[trigger] new_links@[a] == nl0[a],
            decreases new_links@.len() - li,
        {
            let mut link = new_links[li];
            let ghost lsc = links_view(links@);
            let link_idx: u8 = (links[i].len() as u8).wrapping_add(li as u8);
            let j = link.opposite_triangle as usize;
            proof {
                if wf {
                    assert(lsc[i as int] == links@[i as int]@);
                    assert(lsc[j as int] == links@[j as int]@);
                    assert forall|a: int| 0 <= a < li implies nl0[a].opposite_triangle != j by {
                        lemma_fresh_targets_distinct(faces@, i as int, nl0, a, li as int);
                    }
                    assert(lsc[j as int] == ls0[j as int]);
                    assert(link_idx as int == ls0[i as int].len() + li) by {
                        let x = ls0[i as int].len();
                        assert(x <= 3 && li < 3);
                    }
                }
            }
            match find_link_to(&links[j], i as u32) {
                Some(p) => {
                    proof {
                        if wf {
                            assert(ls0[j as int][p as int] == links@[j as int]@[p as int]);
                            assert(ls0[j as int][p as int].opposite_triangle < i);
                        }
                    }
                    link.opposite_link = p as u8;
                    link.opposite_edge = links[j].get(p).edge;
                },
                None => {
                    let e: u8 = match corner_of(&faces[j].vertices, link.segment[1]) {
                        Some(c) => c as u8,
                        None => 0,
                    };
                    let back = TriangleLink {
                        segment: [link.segment[1], link.segment[0]],
                        edge: e,
                        opposite_triangle: i as u32,
                        opposite_link: link_idx,
                        opposite_edge: link.edge,
                    };
                    proof {
                        if wf {
                            let l = nl0[li as int];
                            assert(l == link);
                            let kk = l.edge as int;
                            assert(shared_edge_wf(faces@, i as int, kk));
                            assert(face_wf(faces@[j as int]));
                            let k2 = edge_facing(faces@[j as int], i as u32);
                            assert(e as int == k2);
                        }
                    }
                    link.opposite_link = links[j].len() as u8;
                    link.opposite_edge = e;
                    links[j].push(back);
                    proof {
                        if wf {
                            lemma_at_most_three(faces@, ls0, i as int, j as int);
                            let lsn = links_view(links@);
                            assert(lsn =~= lsc.update(j as int, ls0[j as int].push(back)));
                            assert forall|a: int| 0 <= a < li + 1 implies pushed_back(
                                faces@,
                                i as int,
                                ls0,
                                lsn,
                                nl0,
                                a,
                            ) by {
                                if a < li {
                                    assert(pushed_back(faces@, i as int, ls0, lsc, nl0, a));
                                    lemma_fresh_targets_distinct(faces@, i as int, nl0, a, li as int);
                                }
                            }
                            assert forall|u: int|
                                0 <= u < n && (forall|a: int| 0 <= a < li + 1 ==> nl0[a].opposite_triangle != u)
                                    implies #[trigger] lsn[u] == ls0[u] by {
                                assert(nl0[li as int].opposite_triangle != u);
                                assert(lsc[u] == ls0[u]);
                            }
                        }
                    }
                },
            }
            new_links.set(li, link);
            li += 1;
        }
        let ghost ls1 = links_view(links@);
        let ghost nl1 = new_links@;
        proof {
            if wf {
                assert(ls1[i as int] == links@[i as int]@);
            }
        }
        links[i].extend_from(&new_links);
        proof {
            if wf {
                assert(links_view(links@) =~= ls1.update(i as int, ls0[i as int] + nl1));
                lemma_step(faces@, i as int, ls0, nl0, ls1, nl1);
            }
        }
        i += 1;
    }
    proof {
        if wf {
            let ls = links_view(links@);
            assert forall|u: int, k: int|
                0 <= u < ls.len() && 0 <= k < 3 && (#[trigger] faces@[u].neighbors[k]) is Some implies covers_edge(
                ls[u],
                k,
            ) by {
            }
        }
    }
    links
}

/// In a linked triangulation a link and the link it names agree on the
/// shared edge: each lies on the edge that the other names, and the two
/// segments are the same vertices the other way round.
pub proof fn lemma_paired_links_agree(faces: Seq<FaceTopology>, ls: Seq<Seq<TriangleLink>>, t: int, p: int)
    requires
        faces_wf(faces),
        triangles_linked(faces, ls),
        0 <= t < ls.len(),
        0 <= p < ls[t].len(),
    ensures
        ({
            let l = ls[t][p];
            let back = ls[l.opposite_triangle as int][l.opposite_link as int];
            &&& back.edge == l.opposite_edge
            &&& back.opposite_edge == l.edge
            &&& back.segment[0] == l.segment[1]
            &&& back.segment[1] == l.segment[0]
        }),
{
    let l = ls[t][p];
    let j = l.opposite_triangle as int;
    let q = l.opposite_link as int;
    assert(link_on_edge(faces, t, l) && link_paired(ls, t, p));
    let back = ls[j][q];
    assert(link_on_edge(faces, j, back));
    assert(face_wf(faces[j]));
    assert(face_wf(faces[t]));
    lemma_edge_facing(faces[j], back.edge as int, t as u32);
    lemma_edge_facing(faces[t], l.edge as int, j as u32);
    assert(faces[t].neighbors[l.edge as int] is Some);
    assert(shared_edge_wf(faces, t, l.edge as int));
}

/// In a linked triangulation the links of a triangle lie on different
/// edges and lead into different triangles, so a triangle has at most three
/// links; and both ends of a link's segment are corners of its own triangle
/// and of the triangle it leads into.
pub proof fn lemma_links_of_triangle(faces: Seq<FaceTopology>, ls: Seq<Seq<TriangleLink>>, t: int)
    requires
        faces_wf(faces),
        triangles_linked(faces, ls),
        0 <= t < ls.len(),
    ensures
        ls[t].len() <= 3,
        forall|p: int, q: int|
            0 <= p < q < ls[t].len() ==> (#[trigger] ls[t][p]).edge != (#[trigger] ls[t][q]).edge
                && ls[t][p].opposite_triangle != ls[t][q].opposite_triangle,
        forall|p: int|
            0 <= p < ls[t].len() ==> {
                let l = #[trigger] ls[t][p];
                let o = faces[l.opposite_triangle as int];
                &&& l.opposite_triangle < faces.len()
                &&& faces[t].vertices@.contains(l.segment[0])
                &&& faces[t].vertices@.contains(l.segment[1])
                &&& o.vertices@.contains(l.segment[0])
                &&& o.vertices@.contains(l.segment[1])
            },
{
    let links = ls[t];
    assert(face_wf(faces[t]));
    assert forall|p: int, q: int| 0 <= p < q < links.len() implies (#[trigger] links[p]).edge != (
    #[trigger] links[q]).edge && links[p].opposite_triangle != links[q].opposite_triangle by {
        let a = links[p];
        let b = links[q];
        assert(link_on_edge(faces, t, a));
        assert(link_on_edge(faces, t, b));
        assert(link_before(t, a, b));
    }
    if links.len() > 3 {
        assert(link_on_edge(faces, t, links[0]));
        assert(link_on_edge(faces, t, links[1]));
        assert(link_on_edge(faces, t, links[2]));
        assert(link_on_edge(faces, t, links[3]));
        assert(links[0].edge != links[1].edge);
        assert(links[0].edge != links[2].edge);
        assert(links[0].edge != links[3].edge);
        assert(links[1].edge != links[2].edge);
        assert(links[1].edge != links[3].edge);
        assert(links[2].edge != links[3].edge);
    }
    assert forall|p: int| 0 <= p < links.len() implies {
        let l = #[trigger] links[p];
        let o = faces[l.opposite_triangle as int];
        &&& l.opposite_triangle < faces.len()
        &&& faces[t].vertices@.contains(l.segment[0])
        &&& faces[t].vertices@.contains(l.segment[1])
        &&& o.vertices@.contains(l.segment[0])
        &&& o.vertices@.contains(l.segment[1])
    } by {
        let l = links[p];
        let k = l.edge as int;
        assert(link_on_edge(faces, t, l));
        assert(faces[t].neighbors[k] is Some);
        assert(shared_edge_wf(faces, t, k));
        let j = l.opposite_triangle as int;
        let k2 = edge_facing(faces[j], t as u32);
        assert(faces[t].vertices@[k] == l.segment[0]);
        assert(faces[t].vertices@[next_corner(k)] == l.segment[1]);
        assert(faces[j].vertices@[k2] == l.segment[1]);
        assert(faces[j].vertices@[next_corner(k2)] == l.segment[0]);
    }
}

} // verus!
