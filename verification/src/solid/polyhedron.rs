//! The pointer types of the half-edge polyhedron model.
use vstd::prelude::*;
use crate::data::pool::Pool;
use crate::text::{decimal, push_decimal};
use vstd::string::StringExecFns;
use std::collections::HashSet;
use rand::seq::IndexedRandom;

verus! {

/// A pointer to a vertex, an edge or a face: an index into its pool.
pub type VertPtr = usize;

pub type EdgePtr = usize;

pub type FacePtr = usize;

/// The kind of element that a pointer points to.
#[derive(Debug, Clone, Copy, PartialEq, Eq, Structural)]
pub enum PtrKind {
    Vert,
    Edge,
    Face,
}

/// A half edge of the graph. Looking from above, from the edge's `from`
/// vertex towards its end, its face and next edge lie on the left side (so
/// that faces run counter clockwise), its twin on the right side.
#[derive(Debug, Clone, Copy, PartialEq, Eq, Structural)]
pub struct HalfEdge {
    /// The origin vertex.
    pub from: VertPtr,
    /// An edge always has a next edge.
    pub next: EdgePtr,
    /// An edge always has a twin.
    pub twin: EdgePtr,
    /// Not every loop is filled.
    pub face: Option<FacePtr>,
}

/// A pointer that did not resolve: what it should point to, and its value.
#[derive(Debug, Clone, Copy, PartialEq, Eq, Structural)]
pub struct PtrError {
    pub kind: PtrKind,
    pub expected: usize,
}

impl PtrError {
    pub fn new(kind: PtrKind, expected: usize) -> (e: Self)
        ensures
            e.kind == kind,
            e.expected == expected,
    {
        Self { kind, expected }
    }

    /// The message of the error: `Polyhedron ptr error: `, the kind, ` ptr
    /// expected: ` and the pointer in decimal.
    pub open spec fn message(&self) -> Seq<char> {
        "Polyhedron ptr error: "@ + kind_name(self.kind) + " ptr expected: "@ + decimal(self.expected as nat)
    }

    /// The message of the error, as `message` spells it.
    pub fn to_string(&self) -> (text: String)
        ensures
            text@ == self.message(),
    {
        let mut text = String::new();
        text.append("Polyhedron ptr error: ");
        match self.kind {
            PtrKind::Vert => text.append("Vert"),
            PtrKind::Edge => text.append("Edge"),
            PtrKind::Face => text.append("Face"),
        }
        text.append(" ptr expected: ");
        push_decimal(&mut text, self.expected);
        text
    }
}

/// The name of a pointer kind.
pub open spec fn kind_name(kind: PtrKind) -> Seq<char> {
    match kind {
        PtrKind::Vert => "Vert"@,
        PtrKind::Edge => "Edge"@,
        PtrKind::Face => "Face"@,
    }
}


} // verus!

verus! {

/// A vertex of the graph, at position `pos`; `edge` is one of its outgoing
/// half edges.
#[derive(Debug, Clone, Copy)]
pub struct Vert<P> {
    pub pos: P,
    pub edge: Option<EdgePtr>,
}

/// A face of the graph, bordered by the loop of `edge`.
#[derive(Debug, Clone, Copy)]
pub struct Face<P> {
    pub edge: EdgePtr,
    pub center: P,
    pub normal: P,
}

/// A graph / polyhedron model, implemented as a half edge mesh; `P` is the
/// type of its positions. Despite the name, the model can also be used as a
/// planar partition: it all depends on the normals used to determine the
/// edge ordering around a vertex.
#[derive(Debug, Clone)]
pub struct Polyhedron<P> {
    pub verts: Pool<Vert<P>>,
    pub edges: Pool<HalfEdge>,
    pub faces: Pool<Face<P>>,
}

impl<P: Copy> Polyhedron<P> {
    /// Slot `e` of the edges holds a half edge.
    pub open spec fn edge_live(&self, e: int) -> bool {
        0 <= e < self.edges@.len() && self.edges@[e] is Some
    }

    pub open spec fn vert_live(&self, v: int) -> bool {
        0 <= v < self.verts@.len() && self.verts@[v] is Some
    }

    pub open spec fn face_live(&self, f: int) -> bool {
        0 <= f < self.faces@.len() && self.faces@[f] is Some
    }

    /// The half edge in slot `e`.
    pub open spec fn he(&self, e: int) -> HalfEdge {
        self.edges@[e]->0
    }

    pub open spec fn vx(&self, v: int) -> Vert<P> {
        self.verts@[v]->0
    }

    pub open spec fn fc(&self, f: int) -> Face<P> {
        self.faces@[f]->0
    }

    /// The pools are sound, and every pointer held by a vertex, an edge or
    /// a face points to an element that exists.
    pub open spec fn wf(&self) -> bool {
        &&& self.verts.wf()
        &&& self.edges.wf()
        &&& self.faces.wf()
        &&& forall|e: int|
            #![trigger self.he(e)]
            self.edge_live(e) ==> {
                &&& self.vert_live(self.he(e).from as int)
                &&& self.edge_live(self.he(e).next as int)
                &&& self.edge_live(self.he(e).twin as int)
                &&& (self.he(e).face matches Some(f) ==> self.face_live(f as int))
            }
        &&& forall|v: int|
            #![trigger self.vx(v)]
            self.vert_live(v) ==> (self.vx(v).edge matches Some(e) ==> self.edge_live(e as int))
        &&& forall|f: int| #![trigger self.fc(f)] self.face_live(f) ==> self.edge_live(self.fc(f).edge as int)
    }

    /// The edge `next` leads to, `k` times over.
    pub open spec fn next_pow(&self, e: int, k: nat) -> int
        decreases k,
    {
        if k == 0 {
            e
        } else {
            self.he(self.next_pow(e, (k - 1) as nat)).next as int
        }
    }

    pub fn new() -> (hedron: Self)
        ensures
            hedron.wf(),
            hedron.verts@.len() == 0,
            hedron.edges@.len() == 0,
            hedron.faces@.len() == 0,
            hedron.verts.free_stack().len() == 0,
            hedron.edges.free_stack().len() == 0,
            hedron.faces.free_stack().len() == 0,
    {
        Polyhedron { verts: Pool::new(), edges: Pool::new(), faces: Pool::new() }
    }

    /// The half edge at `ep`.
    pub fn edge(&self, ep: EdgePtr) -> (e: &HalfEdge)
        requires
            self.edge_live(ep as int),
        ensures
            *e == self.he(ep as int),
    {
        self.edges.get(ep).unwrap()
    }

    /// The vertex at `vp`.
    pub fn vert(&self, vp: VertPtr) -> (v: &Vert<P>)
        requires
            self.vert_live(vp as int),
        ensures
            *v == self.vx(vp as int),
    {
        self.verts.get(vp).unwrap()
    }

    /// The face at `fp`.
    pub fn face(&self, fp: FacePtr) -> (f: &Face<P>)
        requires
            self.face_live(fp as int),
        ensures
            *f == self.fc(fp as int),
    {
        self.faces.get(fp).unwrap()
    }

    /// Mutable access to the half edge at `ep`: what is written through it
    /// lands in its slot, and nothing else changes.
    pub fn mut_edge(&mut self, ep: EdgePtr) -> (e: &mut HalfEdge)
        requires
            old(self).edges.wf(),
            old(self).edge_live(ep as int),
        ensures
            *e == old(self).he(ep as int),
            final(self).edges.wf(),
            final(self).edges@ == old(self).edges@.update(ep as int, Some(*final(e))),
            final(self).verts == old(self).verts,
            final(self).faces == old(self).faces,
    {
        self.edges.get_mut(ep).unwrap()
    }

    /// Mutable access to the vertex at `vp`: what is written through it
    /// lands in its slot, and nothing else changes.
    pub fn mut_vert(&mut self, vp: VertPtr) -> (v: &mut Vert<P>)
        requires
            old(self).verts.wf(),
            old(self).vert_live(vp as int),
        ensures
            *v == old(self).vx(vp as int),
            final(self).verts.wf(),
            final(self).verts@ == old(self).verts@.update(vp as int, Some(*final(v))),
            final(self).edges == old(self).edges,
            final(self).faces == old(self).faces,
    {
        self.verts.get_mut(vp).unwrap()
    }

    /// Adds a vertex without edges at `pos`.
    pub fn add_vert(&mut self, pos: P) -> (vp: VertPtr)
        requires
            old(self).wf(),
        ensures
            final(self).wf(),
            final(self).vert_live(vp as int),
            final(self).vx(vp as int) == (Vert { pos, edge: None }),
            final(self).edges == old(self).edges,
            final(self).faces == old(self).faces,
            forall|v: int| #[trigger] old(self).vert_live(v) ==> final(self).vert_live(v) && final(self).vx(v) == old(self).vx(v) && v != vp,
            forall|v: int| #[trigger] final(self).vert_live(v) ==> old(self).vert_live(v) || v == vp,
            vp == old(self).verts.next_slot(0),
            final(self).verts@ == old(self).verts.slots_after_push(Vert { pos, edge: None }),
            forall|n: nat| #[trigger] final(self).verts.next_slot(n) == old(self).verts.next_slot(n + 1),
    {
        let ghost before = *self;
        proof {
            crate::data::pool::law_len_is_slots_minus_freed(before.verts);
        }
        let vp = self.verts.push(Vert { pos, edge: None });
        proof {
            assert(vp < before.verts@.len() ==> before.verts@[vp as int] is None) by {
                if before.verts.free_stack().len() > 0 {
                    let k = before.verts.free_stack().len() - 1;
                    assert(before.verts@[before.verts.free_stack()[k] as int] is None);
                }
            }
            assert forall|v: int| #[trigger] before.vert_live(v) implies self.vert_live(v) && self.vx(v) == before.vx(v) && v != vp by {
            }
            assert forall|v: int| #[trigger] self.vert_live(v) implies before.vert_live(v) || v == vp by {
                if v != vp && v < before.verts@.len() {
                    assert(self.verts@[v] == before.verts@[v]);
                }
            }
            assert forall|e: int| #![trigger self.he(e)] self.edge_live(e) implies {
                &&& self.vert_live(self.he(e).from as int)
                &&& self.edge_live(self.he(e).next as int)
                &&& self.edge_live(self.he(e).twin as int)
                &&& (self.he(e).face matches Some(f) ==> self.face_live(f as int))
            } by {
                assert(before.he(e) == self.he(e));
                assert(before.vert_live(self.he(e).from as int));
            }
            assert forall|v: int| #![trigger self.vx(v)] self.vert_live(v) implies (self.vx(v).edge matches Some(e) ==> self.edge_live(e as int)) by {
                if v != vp {
                    assert(before.vert_live(v));
                    assert(before.vx(v) == self.vx(v));
                }
            }
            assert forall|f: int| #![trigger self.fc(f)] self.face_live(f) implies self.edge_live(self.fc(f).edge as int) by {
                assert(before.face_live(f));
                assert(before.fc(f) == self.fc(f));
            }
        }
        vp
    }
}

} // verus!

verus! {

/// The half edge in slot `e` of the edge slots `es`.
pub open spec fn edge_in(es: Seq<Option<HalfEdge>>, e: int) -> HalfEdge {
    es[e]->0
}

/// In the edge slots `es`: the next outgoing edge around the start vertex
/// of `e`, the edge after its twin.
pub open spec fn rot_in(es: Seq<Option<HalfEdge>>, e: int) -> int {
    edge_in(es, edge_in(es, e).twin as int).next as int
}

/// `rot_in`, `k` times over.
pub open spec fn rot_pow_in(es: Seq<Option<HalfEdge>>, e: int, k: nat) -> int
    decreases k,
{
    if k == 0 {
        e
    } else {
        rot_in(es, rot_pow_in(es, e, (k - 1) as nat))
    }
}

/// In the edge slots `es`: walking around from `s` comes back to `s`.
pub open spec fn orbit_closes_in(es: Seq<Option<HalfEdge>>, s: int) -> bool {
    exists|k: nat| k >= 1 && #[trigger] rot_pow_in(es, s, k) == s
}

/// Walking `a` steps, then `b` more, is walking `a + b` steps.
proof fn lemma_rot_pow_add(es: Seq<Option<HalfEdge>>, s: int, a: nat, b: nat)
    ensures
        rot_pow_in(es, rot_pow_in(es, s, a), b) == rot_pow_in(es, s, a + b),
    decreases b,
{
    if b > 0 {
        lemma_rot_pow_add(es, s, a, (b - 1) as nat);
        assert((a + b - 1) as nat == a + (b - 1) as nat);
    }
}

/// Once the walk from `s` meets the same edge after `i` and after `j`
/// steps, every later step lands on an edge of the steps from `i` to `j`.
proof fn lemma_rot_pow_periodic(es: Seq<Option<HalfEdge>>, s: int, i: nat, j: nat, k: nat) -> (t: nat)
    requires
        i < j,
        i <= k,
        rot_pow_in(es, s, i) == rot_pow_in(es, s, j),
    ensures
        i <= t < j,
        rot_pow_in(es, s, k) == rot_pow_in(es, s, t),
    decreases k,
{
    if k < j {
        k
    } else {
        let back = (k - (j - i)) as nat;
        lemma_rot_pow_add(es, s, j, (k - j) as nat);
        lemma_rot_pow_add(es, s, i, (k - j) as nat);
        assert(j + (k - j) as nat == k);
        assert(i + (k - j) as nat == back);
        lemma_rot_pow_periodic(es, s, i, j, back)
    }
}

/// Where every step of the walk from `s` lands on a filled slot, two of its
/// first `n + 1` edges are the same, `n` being the number of filled slots.
proof fn lemma_rot_pow_repeats(es: Seq<Option<HalfEdge>>, s: int, n: nat) -> (ij: (nat, nat))
    requires
        es.len() <= usize::MAX,
        n == crate::data::pool::present(es).len(),
        forall|k: nat| k <= n ==> 0 <= #[trigger] rot_pow_in(es, s, k) < es.len() && es[rot_pow_in(es, s, k)] is Some,
    ensures
        ij.0 < ij.1 <= n,
        rot_pow_in(es, s, ij.0) == rot_pow_in(es, s, ij.1),
{
    broadcast use vstd::seq_lib::seq_to_set_is_finite;

    let q = Seq::new(n + 1, |k: int| rot_pow_in(es, s, k as nat) as usize);
    if q.no_duplicates() {
        let ids = crate::data::pool::present_ids(es);
        crate::data::pool::lemma_present_ids_props(es);
        assert(ids.no_duplicates()) by {
            assert forall|a: int, b: int| 0 <= a < ids.len() && 0 <= b < ids.len() && a != b implies ids[a] != ids[b] by {
                if a < b {
                    assert(ids[a] < ids[b]);
                } else {
                    assert(ids[b] < ids[a]);
                }
            }
        }
        ids.unique_seq_to_set();
        q.unique_seq_to_set();
        assert forall|x: usize| q.to_set().contains(x) implies ids.to_set().contains(x) by {
            let k = choose|k: int| 0 <= k < q.len() && q[k] == x;
            assert(rot_pow_in(es, s, k as nat) < es.len() && es[rot_pow_in(es, s, k as nat)] is Some);
            assert(ids.contains(x));
        }
        vstd::set_lib::lemma_len_subset(q.to_set(), ids.to_set());
        assert(false);
        (0, 0)
    } else {
        let (a, b) = choose|a: int, b: int| 0 <= a < q.len() && 0 <= b < q.len() && a != b && q[a] == q[b];
        assert(rot_pow_in(es, s, a as nat) < es.len() && es[rot_pow_in(es, s, a as nat)] is Some);
        assert(rot_pow_in(es, s, b as nat) < es.len() && es[rot_pow_in(es, s, b as nat)] is Some);
        if a < b {
            (a as nat, b as nat)
        } else {
            (b as nat, a as nat)
        }
    }
}

impl<P: Copy> Polyhedron<P> {
    /// The number of half edges.
    pub open spec fn edge_count(&self) -> nat {
        crate::data::pool::present(self.edges@).len()
    }

    /// The next outgoing edge around the start vertex of `e`: the edge after
    /// its twin.
    pub open spec fn rot(&self, e: int) -> int {
        self.he(self.he(e).twin as int).next as int
    }

    /// `rot`, `k` times over.
    pub open spec fn rot_pow(&self, e: int, k: nat) -> int
        decreases k,
    {
        if k == 0 {
            e
        } else {
            self.rot(self.rot_pow(e, (k - 1) as nat))
        }
    }

    /// Walking around vertex `vp` comes back to where it started.
    pub open spec fn disk_closes(&self, vp: int) -> bool {
        self.vx(vp).edge matches Some(s) ==> exists|k: nat| k >= 1 && #[trigger] self.rot_pow(s as int, k) == s
    }

    /// The disk of outgoing edges around a vertex, from `s`, has `m` edges.
    pub open spec fn disk_size(&self, s: int, m: nat) -> bool {
        &&& m >= 1
        &&& self.rot_pow(s, m) == s
        &&& forall|j: nat| 1 <= j < m ==> #[trigger] self.rot_pow(s, j) != s
    }

    /// The number of outgoing edges around a vertex, from `s`.
    pub open spec fn disk_count(&self, s: int) -> nat {
        choose|m: nat| self.disk_size(s, m)
    }

    /// `rot_pow` is `rot_pow_in` on the edge slots.
    pub proof fn lemma_rot_pow_in(&self, e: int, k: nat)
        ensures
            self.rot_pow(e, k) == rot_pow_in(self.edges@, e, k),
        decreases k,
    {
        if k > 0 {
            self.lemma_rot_pow_in(e, (k - 1) as nat);
        }
    }

    /// A vertex's disk closes where the walk from its edge closes in the
    /// edge slots.
    pub proof fn lemma_disk_closes_in(&self, vp: int)
        ensures
            self.disk_closes(vp) <==> (self.vx(vp).edge matches Some(s) ==> orbit_closes_in(self.edges@, s as int)),
    {
        if let Some(s) = self.vx(vp).edge {
            if self.disk_closes(vp) {
                let k = choose|k: nat| k >= 1 && #[trigger] self.rot_pow(s as int, k) == s;
                self.lemma_rot_pow_in(s as int, k);
            }
            if orbit_closes_in(self.edges@, s as int) {
                let k = choose|k: nat| k >= 1 && #[trigger] rot_pow_in(self.edges@, s as int, k) == s;
                self.lemma_rot_pow_in(s as int, k);
            }
        }
    }

    /// A disk has one size.
    pub proof fn lemma_disk_count(&self, s: int, m: nat)
        requires
            self.disk_size(s, m),
        ensures
            self.disk_count(s) == m,
    {
        let c = self.disk_count(s);
        assert(self.disk_size(s, c));
        if c < m {
            assert(self.rot_pow(s, c) != s);
        } else if m < c {
            assert(self.rot_pow(s, m) != s);
        }
    }

    pub(crate) proof fn lemma_next_pow_live(&self, e: int, k: nat)
        requires
            self.wf(),
            self.edge_live(e),
        ensures
            self.edge_live(self.next_pow(e, k)),
        decreases k,
    {
        if k > 0 {
            self.lemma_next_pow_live(e, (k - 1) as nat);
        }
    }

    proof fn lemma_rot_pow_live(&self, e: int, k: nat)
        requires
            self.wf(),
            self.edge_live(e),
        ensures
            self.edge_live(self.rot_pow(e, k)),
            self.edge_live(self.he(self.rot_pow(e, k)).twin as int),
        decreases k,
    {
        if k > 0 {
            self.lemma_rot_pow_live(e, (k - 1) as nat);
        }
        let r = self.rot_pow(e, k);
        assert(self.edge_live(r)) by {
            if k > 0 {
                let p = self.rot_pow(e, (k - 1) as nat);
                assert(self.edge_live(self.he(p).twin as int));
            }
        }
    }

    /// The loop of half edges that following `next` from `ep` walks, `ep`
    /// first; it stops when it comes back to `ep`, and in any case after as
    /// many steps as there are half edges.
    pub fn get_loop(&self, ep: EdgePtr) -> (my_loop: Vec<EdgePtr>)
        requires
            self.wf(),
            self.edge_live(ep as int),
        ensures
            1 <= my_loop.len() <= self.edge_count() + 1,
            forall|k: int| 0 <= k < my_loop.len() ==> #[trigger] my_loop@[k] == self.next_pow(ep as int, k as nat),
            forall|k: int| 1 <= k < my_loop.len() ==> #[trigger] my_loop@[k] != ep,
            my_loop.len() <= self.edge_count() ==> self.next_pow(ep as int, my_loop.len() as nat) == ep,
            my_loop@ == self.loop_seq(ep as int),
    {
        let mut my_loop: Vec<EdgePtr> = Vec::new();
        let mut cursor = ep;
        my_loop.push(cursor);
        let n = self.edges.len();
        let mut i: usize = 0;
        while i < n
            invariant
                self.wf(),
                self.edge_live(ep as int),
                n == self.edge_count(),
                i <= n,
                my_loop.len() == i + 1,
                cursor == my_loop@[i as int],
                forall|k: int| 0 <= k < my_loop.len() ==> #[trigger] my_loop@[k] == self.next_pow(ep as int, k as nat),
                forall|k: int| 1 <= k < my_loop.len() ==> #[trigger] my_loop@[k] != ep,
            decreases n - i,
        {
            proof {
                self.lemma_next_pow_live(ep as int, i as nat);
            }
            cursor = self.edge(cursor).next;
            if cursor == ep {
                proof {
                    self.lemma_loop_is_loop_seq(ep as int, my_loop@);
                }
                return my_loop;
            }
            my_loop.push(cursor);
            i = i + 1;
        }
        proof {
            self.lemma_loop_is_loop_seq(ep as int, my_loop@);
        }
        my_loop
    }

    /// A walk along `next` from `e` that stops as `get_loop` does is the
    /// loop of `e`.
    proof fn lemma_loop_is_loop_seq(&self, e: int, walk: Seq<usize>)
        requires
            1 <= walk.len() <= self.edge_count() + 1,
            forall|k: int| 0 <= k < walk.len() ==> #[trigger] walk[k] == self.next_pow(e, k as nat),
            forall|k: int| 1 <= k < walk.len() ==> #[trigger] walk[k] != e,
            walk.len() <= self.edge_count() ==> self.next_pow(e, walk.len() as nat) == e,
        ensures
            walk == self.loop_seq(e),
    {
        assert forall|i: nat| 1 <= i < walk.len() implies #[trigger] self.next_pow(e, i) != e by {
            assert(walk[i as int] != e);
        }
        self.lemma_first_return(e, 1, self.edge_count(), walk.len() as nat);
        assert(walk =~= self.loop_seq(e));
    }

    /// The half edges around vertex `vp`, as a disk: each outgoing edge
    /// followed by its twin, starting with the edge that the vertex points
    /// to. Empty for a vertex without edges.
    pub fn get_disk(&self, vp: VertPtr) -> (disk: Vec<EdgePtr>)
        requires
            self.wf(),
            self.vert_live(vp as int),
            self.disk_closes(vp as int),
        ensures
            match self.vx(vp as int).edge {
                None => disk.len() == 0,
                Some(s) => {
                    &&& disk.len() % 2 == 0
                    &&& self.disk_size(s as int, disk.len() as nat / 2)
                    &&& forall|j: int|
                        0 <= j < disk.len() / 2 ==> #[trigger] disk@[2 * j] == self.rot_pow(s as int, j as nat)
                            && disk@[2 * j + 1] == self.he(self.rot_pow(s as int, j as nat)).twin
                },
            },
    {
        let start = match self.vert(vp).edge {
            Some(s) => s,
            None => {
                return Vec::new();
            },
        };
        let ghost m = choose|k: nat| k >= 1 && #[trigger] self.rot_pow(start as int, k) == start;
        let mut disk: Vec<EdgePtr> = Vec::new();
        let mut cursor = start;
        let ghost mut j: nat = 0;
        loop
            invariant_except_break
                self.wf(),
                self.edge_live(start as int),
                m >= 1,
                self.rot_pow(start as int, m) == start,
                j < m,
                cursor == self.rot_pow(start as int, j),
                disk.len() == 2 * j,
                forall|i: nat| 1 <= i <= j ==> #[trigger] self.rot_pow(start as int, i) != start,
                forall|i: int|
                    0 <= i < j ==> #[trigger] disk@[2 * i] == self.rot_pow(start as int, i as nat)
                        && disk@[2 * i + 1] == self.he(self.rot_pow(start as int, i as nat)).twin,
            ensures
                disk.len() % 2 == 0,
                self.disk_size(start as int, disk.len() as nat / 2),
                forall|i: int|
                    0 <= i < disk.len() / 2 ==> #[trigger] disk@[2 * i] == self.rot_pow(start as int, i as nat)
                        && disk@[2 * i + 1] == self.he(self.rot_pow(start as int, i as nat)).twin,
            decreases m - j,
        {
            proof {
                self.lemma_rot_pow_live(start as int, j);
            }
            let outc = self.edge(cursor);
            let inc = self.edge(outc.twin);
            disk.push(cursor);
            disk.push(outc.twin);
            cursor = inc.next;
            proof {
                assert(cursor == self.rot_pow(start as int, j + 1));
                assert forall|i: int|
                    0 <= i < j + 1 implies #[trigger] disk@[2 * i] == self.rot_pow(start as int, i as nat)
                        && disk@[2 * i + 1] == self.he(self.rot_pow(start as int, i as nat)).twin by {
                    if i < j {
                        assert(disk@[2 * i] == self.rot_pow(start as int, i as nat));
                    } else {
                        assert(2 * i == 2 * j);
                    }
                }
                j = j + 1;
            }
            if cursor == start {
                break;
            }
        }
        disk
    }
}

} // verus!

verus! {

impl<P: Copy> Polyhedron<P> {
    /// The vertices next to `vp`, in disk order: where its incoming edges
    /// come from.
    pub fn get_vert_neighbors(&self, vp: VertPtr) -> (neighbors: Vec<VertPtr>)
        requires
            self.wf(),
            self.vert_live(vp as int),
            self.disk_closes(vp as int),
        ensures
            match self.vx(vp as int).edge {
                None => neighbors.len() == 0,
                Some(s) => {
                    &&& self.disk_size(s as int, neighbors.len() as nat)
                    &&& forall|j: int|
                        0 <= j < neighbors.len() ==> #[trigger] neighbors@[j] == self.he(
                            self.he(self.rot_pow(s as int, j as nat)).twin as int,
                        ).from
                },
            },
    {
        if self.vert(vp).edge.is_none() {
            return Vec::new();
        }
        let disk = self.get_disk(vp);
        let mut neighbors: Vec<VertPtr> = Vec::new();
        let mut j: usize = 0;
        while j < disk.len() / 2
            invariant
                self.wf(),
                self.vert_live(vp as int),
                self.vx(vp as int).edge is Some,
                disk.len() % 2 == 0,
                j <= disk.len() / 2,
                neighbors.len() == j,
                forall|i: int|
                    0 <= i < disk.len() / 2 ==> #[trigger] disk@[2 * i] == self.rot_pow(self.vx(vp as int).edge->0 as int, i as nat)
                        && disk@[2 * i + 1] == self.he(self.rot_pow(self.vx(vp as int).edge->0 as int, i as nat)).twin,
                forall|i: int|
                    0 <= i < j ==> #[trigger] neighbors@[i] == self.he(
                        self.he(self.rot_pow(self.vx(vp as int).edge->0 as int, i as nat)).twin as int,
                    ).from,
            decreases disk.len() / 2 - j,
        {
            proof {
                assert(disk@[2 * (j as int)] == self.rot_pow(self.vx(vp as int).edge->0 as int, j as nat));
                assert(disk@[2 * (j as int) + 1] == self.he(self.rot_pow(self.vx(vp as int).edge->0 as int, j as nat)).twin);
                self.lemma_rot_pow_live(self.vx(vp as int).edge->0 as int, j as nat);
            }
            let inc = disk[2 * j + 1];
            neighbors.push(self.edge(inc).from);
            j = j + 1;
        }
        neighbors
    }
}

} // verus!

verus! {

impl<P: Copy> Polyhedron<P> {
    /// The faces of the first `j` outgoing edges around a vertex, from `s`,
    /// skipping the edges without a face.
    pub open spec fn disk_faces(&self, s: int, j: nat) -> Seq<FacePtr>
        decreases j,
    {
        if j == 0 {
            Seq::empty()
        } else {
            let rest = self.disk_faces(s, (j - 1) as nat);
            match self.he(self.rot_pow(s, (j - 1) as nat)).face {
                Some(f) => rest.push(f),
                None => rest,
            }
        }
    }

    /// The incoming edge of the disk, from `s`, at position `j`.
    pub open spec fn incoming(&self, s: int, j: nat) -> int {
        self.he(self.rot_pow(s, j)).twin as int
    }

    /// The faces around vertex `vp`, in disk order.
    pub fn get_vert_faces(&self, vp: VertPtr) -> (faces: Vec<FacePtr>)
        requires
            self.wf(),
            self.vert_live(vp as int),
            self.disk_closes(vp as int),
        ensures
            match self.vx(vp as int).edge {
                None => faces.len() == 0,
                Some(s) => faces@ == self.disk_faces(s as int, self.disk_count(s as int)),
            },
    {
        let start = match self.vert(vp).edge {
            Some(s) => s,
            None => {
                return Vec::new();
            },
        };
        let disk = self.get_disk(vp);
        let ghost m = disk.len() as nat / 2;
        proof {
            self.lemma_disk_count(start as int, m);
        }
        let mut faces: Vec<FacePtr> = Vec::new();
        let mut j: usize = 0;
        while j < disk.len() / 2
            invariant
                self.wf(),
                self.edge_live(start as int),
                disk.len() % 2 == 0,
                m == disk.len() / 2,
                j <= m,
                forall|i: int|
                    0 <= i < disk.len() / 2 ==> #[trigger] disk@[2 * i] == self.rot_pow(start as int, i as nat),
                faces@ == self.disk_faces(start as int, j as nat),
            decreases disk.len() / 2 - j,
        {
            proof {
                assert(disk@[2 * (j as int)] == self.rot_pow(start as int, j as nat));
                self.lemma_rot_pow_live(start as int, j as nat);
            }
            let out = disk[2 * j];
            if let Some(f) = self.edge(out).face {
                faces.push(f);
            }
            j = j + 1;
        }
        faces
    }

    /// The edge from `va` to `vb`: the twin of the first incoming edge of
    /// `va` that comes from `vb`.
    pub fn get_edge_between(&self, va: VertPtr, vb: VertPtr) -> (res: Option<EdgePtr>)
        requires
            self.wf(),
            self.vert_live(va as int),
            self.disk_closes(va as int),
        ensures
            match self.vx(va as int).edge {
                None => res is None,
                Some(s) => match res {
                    Some(e) => exists|j: nat|
                        j < self.disk_count(s as int) && #[trigger] self.he(self.incoming(s as int, j)).from == vb && e == self.he(
                            self.incoming(s as int, j),
                        ).twin && forall|i: nat| i < j ==> #[trigger] self.he(self.incoming(s as int, i)).from != vb,
                    None => forall|i: nat| i < self.disk_count(s as int) ==> #[trigger] self.he(self.incoming(s as int, i)).from != vb,
                },
            },
    {
        let start = match self.vert(va).edge {
            Some(s) => s,
            None => {
                return None;
            },
        };
        let disk = self.get_disk(va);
        let ghost m = disk.len() as nat / 2;
        proof {
            self.lemma_disk_count(start as int, m);
        }
        let mut j: usize = 0;
        while j < disk.len() / 2
            invariant
                self.wf(),
                self.edge_live(start as int),
                self.vx(va as int).edge == Some(start),
                disk.len() % 2 == 0,
                m == disk.len() / 2,
                self.disk_size(start as int, m),
                j <= m,
                forall|i: int|
                    0 <= i < disk.len() / 2 ==> #[trigger] disk@[2 * i] == self.rot_pow(start as int, i as nat)
                        && disk@[2 * i + 1] == self.incoming(start as int, i as nat),
                forall|i: nat| i < j ==> #[trigger] self.he(self.incoming(start as int, i)).from != vb,
            decreases disk.len() / 2 - j,
        {
            proof {
                assert(disk@[2 * (j as int)] == self.rot_pow(start as int, j as nat));
                self.lemma_rot_pow_live(start as int, j as nat);
            }
            let ep = disk[2 * j + 1];
            if self.edge(ep).from == vb {
                proof {
                    assert(disk@[2 * (j as int) + 1] == self.incoming(start as int, j as nat));
                    let jj = j as nat;
                    assert(jj < m && self.he(self.incoming(start as int, jj)).from == vb && self.he(ep as int).twin == self.he(
                        self.incoming(start as int, jj),
                    ).twin && forall|i: nat| i < jj ==> #[trigger] self.he(self.incoming(start as int, i)).from != vb);
                    assert(self.disk_size(start as int, m));
                }
                return Some(self.edge(ep).twin);
            }
            j = j + 1;
        }
        None
    }

    /// Whether some half edge around `start` (outgoing or incoming) starts at
    /// `end`. NOTE: `a - b` is a different half edge than `b - a`.
    #[verifier::spinoff_prover]
    pub fn has_half_edge(&self, start: VertPtr, end: VertPtr) -> (res: bool)
        requires
            self.wf(),
            self.vert_live(start as int),
            self.disk_closes(start as int),
        ensures
            match self.vx(start as int).edge {
                None => !res,
                Some(s) => res == exists|j: nat|
                    j < self.disk_count(s as int) && (#[trigger] self.he(self.rot_pow(s as int, j)).from == end || self.he(
                        self.incoming(s as int, j),
                    ).from == end),
            },
    {
        let first = match self.vert(start).edge {
            Some(s) => s,
            None => {
                return false;
            },
        };
        let disk = self.get_disk(start);
        let ghost m = disk.len() as nat / 2;
        proof {
            self.lemma_disk_count(first as int, m);
        }
        let mut j: usize = 0;
        while j < disk.len() / 2
            invariant
                self.wf(),
                self.edge_live(first as int),
                self.vx(start as int).edge == Some(first),
                disk.len() % 2 == 0,
                m == disk.len() / 2,
                self.disk_size(first as int, m),
                j <= m,
                forall|i: int|
                    0 <= i < disk.len() / 2 ==> #[trigger] disk@[2 * i] == self.rot_pow(first as int, i as nat)
                        && disk@[2 * i + 1] == self.incoming(first as int, i as nat),
                forall|i: nat|
                    i < j ==> #[trigger] self.he(self.rot_pow(first as int, i)).from != end && self.he(
                        self.incoming(first as int, i),
                    ).from != end,
            decreases disk.len() / 2 - j,
        {
            proof {
                assert(disk@[2 * (j as int)] == self.rot_pow(first as int, j as nat));
                assert(disk@[2 * (j as int) + 1] == self.incoming(first as int, j as nat));
                self.lemma_rot_pow_live(first as int, j as nat);
            }
            let out = disk[2 * j];
            let inc = disk[2 * j + 1];
            if self.edge(out).from == end || self.edge(inc).from == end {
                proof {
                    assert(disk@[2 * (j as int) + 1] == self.incoming(first as int, j as nat));
                    let jj = j as nat;
                    assert(jj < m && (self.he(self.rot_pow(first as int, jj)).from == end || self.he(
                        self.incoming(first as int, jj),
                    ).from == end));
                    assert(self.disk_size(first as int, m));
                }
                return true;
            }
            proof {
                assert(self.he(self.rot_pow(first as int, j as nat)).from != end && self.he(
                    self.incoming(first as int, j as nat),
                ).from != end);
                assert forall|i: nat| i < j + 1 implies #[trigger] self.he(self.rot_pow(first as int, i)).from != end && self.he(
                    self.incoming(first as int, i),
                ).from != end by {
                    if i < j {
                    }
                }
            }
            j = j + 1;
        }
        false
    }

    /// The live edges whose twin lies in an earlier slot: one half edge of
    /// each pair, in slot order.
    pub open spec fn unique_edges(&self) -> Seq<usize> {
        crate::data::pool::present_ids(self.edges@).filter(|i: usize| self.he(i as int).twin < i)
    }

    /// One half edge of each pair of twins: those whose twin lies in an
    /// earlier slot, in slot order.
    pub fn all_unique_edges(&self) -> (res: Vec<EdgePtr>)
        requires
            self.wf(),
        ensures
            res@ == self.unique_edges(),
            forall|k: int| 0 <= k < res.len() ==> self.edge_live(#[trigger] res@[k] as int) && self.he(res@[k] as int).twin < res@[k],
    {
        let entries = self.edges.iter_enum();
        let ghost ids = crate::data::pool::present_ids(self.edges@);
        let ghost pred = |i: usize| self.he(i as int).twin < i;
        let mut res: Vec<EdgePtr> = Vec::new();
        let mut k: usize = 0;
        proof {
            crate::data::pool::law_len_is_slots_minus_freed(self.edges);
            crate::data::pool::lemma_present_ids_props(self.edges@);
        }
        while k < entries.len()
            invariant
                k <= entries.len(),
                entries.len() == ids.len(),
                ids == crate::data::pool::present_ids(self.edges@),
                pred == (|i: usize| self.he(i as int).twin < i),
                forall|i: int| 0 <= i < entries.len() ==> (#[trigger] entries@[i]).0 == ids[i]
                    && *entries@[i].1 == crate::data::pool::present(self.edges@)[i],
                forall|i: int| 0 <= i < ids.len() ==> #[trigger] ids[i] < self.edges@.len()
                    && self.edges@[ids[i] as int] == Some(crate::data::pool::present(self.edges@)[i]),
                res@ == ids.take(k as int).filter(pred),
            decreases entries.len() - k,
        {
            let (i, e) = entries[k];
            proof {
                assert(ids.take(k + 1) == ids.take(k as int).push(ids[k as int]));
                ids.take(k as int).lemma_filter_push(ids[k as int], pred);
                assert(self.he(i as int) == *e);
            }
            if e.twin < i {
                res.push(i);
            }
            k = k + 1;
        }
        proof {
            assert(ids.take(k as int) == ids);
            assert forall|a: int| 0 <= a < res.len() implies self.edge_live(#[trigger] res@[a] as int) && self.he(res@[a] as int).twin < res@[a] by {
                ids.lemma_filter_contains_rev(pred, res@[a]);
                ids.lemma_filter_pred(pred, a);
                let j = choose|j: int| 0 <= j < ids.len() && ids[j] == res@[a];
                assert(ids[j] < self.edges@.len());
            }
        }
        res
    }
}

} // verus!

verus! {

impl<P: Copy> Polyhedron<P> {
    /// Some half edge around `start` (outgoing or incoming) starts at `end`.
    pub open spec fn half_edge_around(&self, start: int, end: usize) -> bool {
        match self.vx(start).edge {
            None => false,
            Some(s) => exists|j: nat|
                j < self.disk_count(s as int) && (#[trigger] self.he(self.rot_pow(s as int, j)).from == end
                    || self.he(self.incoming(s as int, j)).from == end),
        }
    }

    /// Builds the two twins of a new edge between `a` and `b`, pointing only
    /// to each other; the vertices and all other edges stay as they were.
    /// Nothing is built where a half edge between `a` and `b` exists (in
    /// either direction, as `has_half_edge` sees it).
    pub fn add_dangling_twins(&mut self, a: VertPtr, b: VertPtr) -> (res: Option<(EdgePtr, EdgePtr)>)
        requires
            old(self).wf(),
            old(self).vert_live(a as int),
            old(self).vert_live(b as int),
            old(self).disk_closes(a as int),
            old(self).disk_closes(b as int),
        ensures
            final(self).wf(),
            res is None <==> old(self).half_edge_around(a as int, b) || old(self).half_edge_around(b as int, a),
            res is None ==> *final(self) == *old(self),
            res matches Some((fa, fb)) ==> {
                &&& fa == old(self).edges.next_slot(0)
                &&& fb == old(self).edges.next_slot(1)
                &&& forall|n: nat| #[trigger] final(self).edges.next_slot(n) == old(self).edges.next_slot(n + 2)
                &&& fa != fb
                &&& !old(self).edge_live(fa as int)
                &&& !old(self).edge_live(fb as int)
                &&& final(self).edge_live(fa as int)
                &&& final(self).edge_live(fb as int)
                &&& final(self).he(fa as int) == (HalfEdge { from: a, next: fb, twin: fb, face: None })
                &&& final(self).he(fb as int) == (HalfEdge { from: b, next: fa, twin: fa, face: None })
                &&& forall|e: int|
                    #[trigger] final(self).edge_live(e) ==> old(self).edge_live(e) || e == fa || e == fb
            },
            forall|e: int|
                #[trigger] old(self).edge_live(e) ==> final(self).edge_live(e) && final(self).he(e) == old(self).he(e),
            final(self).verts == old(self).verts,
            final(self).faces == old(self).faces,
    {
        if self.has_half_edge(a, b) || self.has_half_edge(b, a) {
            return None;
        }
        let ghost s0 = self.edges@;
        let ghost p0 = *self;
        proof {
            crate::data::pool::law_len_is_slots_minus_freed(self.edges);
        }
        let from_a: EdgePtr = self.edges.push(HalfEdge { from: a, next: 0, twin: 0, face: None });
        let ghost s1 = self.edges@;
        proof {
            crate::data::pool::law_len_is_slots_minus_freed(self.edges);
        }
        let from_b = self.edges.push(HalfEdge { from: b, next: from_a, twin: from_a, face: None });
        let ghost s2 = self.edges@;
        self.edges.set(from_a, HalfEdge { from: a, next: from_b, twin: from_b, face: None });
        proof {
            assert(from_a != from_b);
            let old_self = Polyhedron { verts: self.verts, edges: self.edges, faces: self.faces };
            assert forall|e: int| 0 <= e < s0.len() && #[trigger] s0[e] is Some implies self.edges@[e] == s0[e] by {
                assert(e != from_a);
                assert(e != from_b);
                assert(s1[e] == s0[e]);
                assert(s2[e] == s1[e]);
            }
            assert forall|e: int| #![trigger self.he(e)] self.edge_live(e) implies {
                &&& self.vert_live(self.he(e).from as int)
                &&& self.edge_live(self.he(e).next as int)
                &&& self.edge_live(self.he(e).twin as int)
                &&& (self.he(e).face matches Some(f) ==> self.face_live(f as int))
            } by {
                if e != from_a && e != from_b {
                    assert(e < s0.len());
                    assert(s1[e] == s0[e]);
                    assert(s2[e] == s1[e]);
                    assert(s0[e] is Some);
                    let h = s0[e]->0;
                    assert(p0.edge_live(e));
                    assert(p0.he(e) == h);
                    assert(0 <= h.next < s0.len() && s0[h.next as int] is Some);
                    assert(0 <= h.twin < s0.len() && s0[h.twin as int] is Some);
                }
            }
            assert forall|v: int| #![trigger self.vx(v)] self.vert_live(v) implies (self.vx(v).edge matches Some(e) ==> self.edge_live(e as int)) by {
                assert(p0.vert_live(v));
                assert(p0.vx(v) == self.vx(v));
                if let Some(e) = self.vx(v).edge {
                    assert(0 <= e < s0.len() && s0[e as int] is Some);
                }
            }
            assert forall|f: int| #![trigger self.fc(f)] self.face_live(f) implies self.edge_live(self.fc(f).edge as int) by {
                assert(p0.face_live(f));
                assert(p0.fc(f) == self.fc(f));
                let e = self.fc(f).edge;
                assert(0 <= e < s0.len() && s0[e as int] is Some);
            }
        }
        Some((from_a, from_b))
    }
}

} // verus!

verus! {

/// The half edge `h`, leading to `next`.
pub open spec fn with_next(h: HalfEdge, next: EdgePtr) -> HalfEdge {
    HalfEdge { from: h.from, next, twin: h.twin, face: h.face }
}

impl<P: Copy> Polyhedron<P> {
    /// Changes the `next` of live edge `e`.
    fn set_next(&mut self, e: EdgePtr, next: EdgePtr)
        requires
            old(self).wf(),
            old(self).edge_live(e as int),
            old(self).edge_live(next as int),
        ensures
            final(self).wf(),
            final(self).edges@ == old(self).edges@.update(e as int, Some(with_next(old(self).he(e as int), next))),
            final(self).verts == old(self).verts,
            final(self).faces == old(self).faces,
    {
        let ghost p0 = *self;
        let h = *self.edge(e);
        self.edges.set(e, HalfEdge { from: h.from, next, twin: h.twin, face: h.face });
        proof {
            assert forall|x: int| #![trigger self.he(x)] self.edge_live(x) implies {
                &&& self.vert_live(self.he(x).from as int)
                &&& self.edge_live(self.he(x).next as int)
                &&& self.edge_live(self.he(x).twin as int)
                &&& (self.he(x).face matches Some(f) ==> self.face_live(f as int))
            } by {
                assert(p0.edge_live(x));
                assert(p0.he(x).twin == self.he(x).twin);
            }
            assert forall|v: int| #![trigger self.vx(v)] self.vert_live(v) implies (self.vx(v).edge matches Some(x) ==> self.edge_live(x as int)) by {
                assert(p0.vx(v) == self.vx(v));
            }
            assert forall|f: int| #![trigger self.fc(f)] self.face_live(f) implies self.edge_live(self.fc(f).edge as int) by {
                assert(p0.fc(f) == self.fc(f));
            }
        }
    }

    /// The two edges of the disk of `vp` between which a new edge goes,
    /// given the positions `between` (as `Vectors::get_between` finds them)
    /// of the two incoming edges around it: the first incoming edge, and the
    /// edge after it, provided that this edge's twin is the second incoming
    /// edge.
    pub fn get_disk_neighbors_edges(&self, vp: VertPtr, between: Option<(usize, usize)>) -> (res: Option<(EdgePtr, EdgePtr)>)
        requires
            self.wf(),
            self.vert_live(vp as int),
            self.disk_closes(vp as int),
            between matches Some((i, j)) ==> self.vx(vp as int).edge matches Some(s) && i < self.disk_count(s as int) && j < self.disk_count(s as int),
        ensures
            match between {
                None => res is None,
                Some((i, j)) => {
                    let s = self.vx(vp as int).edge->0 as int;
                    let b0 = self.incoming(s, i as nat);
                    let b1 = self.incoming(s, j as nat);
                    if self.he(self.he(b0).next as int).twin == b1 {
                        res == Some((b0 as usize, self.he(b0).next))
                    } else {
                        res is None
                    }
                },
            },
    {
        let (i, j) = match between {
            Some(ids) => ids,
            None => {
                return None;
            },
        };
        let disk = self.get_disk(vp);
        let ghost s = self.vx(vp as int).edge->0 as int;
        proof {
            self.lemma_disk_count(s, disk.len() as nat / 2);
            assert(disk@[2 * (i as int)] == self.rot_pow(s, i as nat));
            assert(disk@[2 * (j as int)] == self.rot_pow(s, j as nat));
            self.lemma_rot_pow_live(s, i as nat);
            self.lemma_rot_pow_live(s, j as nat);
        }
        let b0 = disk[2 * i + 1];
        let b1 = disk[2 * j + 1];
        let b0_next = self.edge(b0).next;
        if self.edge(b0_next).twin == b1 {
            Some((b0, b0_next))
        } else {
            None
        }
    }

    /// Sets the `next` of edges so that the edge `ep` joins the disk of its
    /// start vertex, between the incoming edges at positions `between` (see
    /// `get_disk_neighbors_edges`). The first edge of a vertex without edges
    /// becomes the edge that the vertex points to, and its twin leads back to
    /// it.
    pub fn add_edge_to_vertex(&mut self, ep: EdgePtr, between: Option<(usize, usize)>)
        requires
            old(self).wf(),
            old(self).edge_live(ep as int),
            old(self).disk_closes(old(self).he(ep as int).from as int),
            between matches Some((i, j)) ==> old(self).vx(old(self).he(ep as int).from as int).edge matches Some(s) && i
                < old(self).disk_count(s as int) && j < old(self).disk_count(s as int),
        ensures
            final(self).wf(),
            final(self).faces == old(self).faces,
            ({
                let vp = old(self).he(ep as int).from as int;
                let inward = old(self).he(ep as int).twin as int;
                match old(self).vx(vp).edge {
                    None => {
                        &&& final(self).verts@ == old(self).verts@.update(vp, Some(Vert { pos: old(self).vx(vp).pos, edge: Some(ep) }))
                        &&& final(self).edges@ == old(self).edges@.update(inward, Some(with_next(old(self).he(inward), ep)))
                    },
                    Some(_) => {
                        &&& final(self).verts == old(self).verts
                        &&& match old(self).get_disk_neighbors_spec(vp, between) {
                            None => final(self).edges == old(self).edges,
                            Some((nb_in, nb_out)) => {
                                let mid = old(self).edges@.update(inward, Some(with_next(old(self).he(inward), nb_out)));
                                final(self).edges@ == mid.update(nb_in as int, Some(with_next(mid[nb_in as int]->0, ep)))
                            },
                        }
                    },
                }
            }),
    {
        let vp = self.edge(ep).from;
        let ep_inwards = self.edge(ep).twin;
        if self.vert(vp).edge.is_none() {
            let ghost p0 = *self;
            let v = *self.vert(vp);
            self.verts.set(vp, Vert { pos: v.pos, edge: Some(ep) });
            proof {
                assert forall|x: int| #![trigger self.he(x)] self.edge_live(x) implies {
                    &&& self.vert_live(self.he(x).from as int)
                    &&& self.edge_live(self.he(x).next as int)
                    &&& self.edge_live(self.he(x).twin as int)
                    &&& (self.he(x).face matches Some(f) ==> self.face_live(f as int))
                } by {
                    assert(p0.he(x) == self.he(x));
                }
                assert forall|w: int| #![trigger self.vx(w)] self.vert_live(w) implies (self.vx(w).edge matches Some(x) ==> self.edge_live(x as int)) by {
                    if w != vp {
                        assert(p0.vx(w) == self.vx(w));
                    }
                }
                assert forall|f: int| #![trigger self.fc(f)] self.face_live(f) implies self.edge_live(self.fc(f).edge as int) by {
                    assert(p0.fc(f) == self.fc(f));
                }
            }
            self.set_next(ep_inwards, ep);
        } else {
            let found = self.get_disk_neighbors_edges(vp, between);
            match found {
                None => {},
                Some((nb_in, nb_out)) => {
                    proof {
                        let s = self.vx(vp as int).edge->0 as int;
                        let (i, j) = between->0;
                        self.lemma_rot_pow_live(s, i as nat);
                        let b0 = self.incoming(s, i as nat);
                        assert(self.edge_live(self.he(b0).next as int));
                    }
                    self.set_next(ep_inwards, nb_out);
                    self.set_next(nb_in, ep);
                },
            }
        }
    }

    /// What `get_disk_neighbors_edges` returns.
    pub open spec fn get_disk_neighbors_spec(&self, vp: int, between: Option<(usize, usize)>) -> Option<(EdgePtr, EdgePtr)> {
        match between {
            None => None,
            Some((i, j)) => {
                let s = self.vx(vp).edge->0 as int;
                let b0 = self.incoming(s, i as nat);
                let b1 = self.incoming(s, j as nat);
                if self.he(self.he(b0).next as int).twin == b1 {
                    Some((b0 as usize, self.he(b0).next))
                } else {
                    None
                }
            },
        }
    }
}

} // verus!

verus! {

impl<P: Copy> Polyhedron<P> {
    /// The first step from `k` on, up to step `n`, at which following `next`
    /// from `e` comes back to `e`; `n + 1` where none does.
    pub open spec fn first_return(&self, e: int, k: nat, n: nat) -> nat
        decreases n + 1 - k,
    {
        if k > n {
            n + 1
        } else if self.next_pow(e, k) == e {
            k
        } else {
            self.first_return(e, k + 1, n)
        }
    }

    /// The loop of `e`, as `get_loop` walks it: `e`, then the edges that
    /// following `next` reaches, until it comes back to `e` or has taken as
    /// many steps as there are half edges.
    pub open spec fn loop_seq(&self, e: int) -> Seq<usize> {
        Seq::new(self.first_return(e, 1, self.edge_count()), |k: int| self.next_pow(e, k as nat) as usize)
    }

    /// A step that comes back to `e`, with none before it, is the first return.
    proof fn lemma_first_return(&self, e: int, k: nat, n: nat, l: nat)
        requires
            1 <= k <= l <= n + 1,
            forall|i: nat| k <= i < l ==> #[trigger] self.next_pow(e, i) != e,
            l <= n ==> self.next_pow(e, l) == e,
        ensures
            self.first_return(e, k, n) == l,
        decreases l - k,
    {
        if k < l {
            self.lemma_first_return(e, k + 1, n, l);
        }
    }

    /// The loops gathered from the edges `ids`, in order: the loop of each
    /// edge that no loop before it (nor `passed`) holds.
    pub open spec fn loops_from(&self, ids: Seq<usize>, passed: Set<usize>) -> Seq<Seq<usize>>
        decreases ids.len(),
    {
        if ids.len() == 0 {
            Seq::empty()
        } else if passed.contains(ids[0]) {
            self.loops_from(ids.drop_first(), passed)
        } else {
            let lp = self.loop_seq(ids[0] as int);
            seq![lp] + self.loops_from(ids.drop_first(), passed + lp.to_set())
        }
    }

    /// All loops of the half-edge structure: going through the half edges in
    /// slot order, the loop of each half edge that no loop found before
    /// holds.
    pub fn get_loops(&self) -> (loops: Vec<Vec<EdgePtr>>)
        requires
            self.wf(),
        ensures
            loops@.map_values(|l: Vec<EdgePtr>| l@) == self.loops_from(
                crate::data::pool::present_ids(self.edges@),
                Set::empty(),
            ),
    {
        broadcast use vstd::std_specs::hash::group_hash_axioms;

        let ids = self.edges.all_ids();
        let ghost all = ids@;
        let mut loops: Vec<Vec<EdgePtr>> = Vec::new();
        let mut passed: HashSet<usize> = HashSet::new();
        let mut k: usize = 0;
        proof {
            crate::data::pool::law_len_is_slots_minus_freed(self.edges);
            crate::data::pool::lemma_present_ids_props(self.edges@);
            assert(all.skip(0) =~= all);
            assert(loops@.map_values(|l: Vec<EdgePtr>| l@) + self.loops_from(all, Set::empty()) =~= self.loops_from(
                all,
                Set::empty(),
            ));
        }
        while k < ids.len()
            invariant
                self.wf(),
                all == ids@,
                all == crate::data::pool::present_ids(self.edges@),
                forall|i: int| 0 <= i < all.len() ==> #[trigger] self.edge_live(all[i] as int),
                k <= ids.len(),
                loops@.map_values(|l: Vec<EdgePtr>| l@) + self.loops_from(all.skip(k as int), passed@)
                    == self.loops_from(all, Set::empty()),
            decreases ids.len() - k,
        {
            let ep = ids[k];
            proof {
                assert(all.skip(k as int).drop_first() == all.skip(k + 1));
                assert(all.skip(k as int)[0] == ep);
            }
            if passed.contains(&ep) {
                k = k + 1;
                continue;
            }
            let my_loop = self.get_loop(ep);
            let ghost passed0 = passed@;
            let mut j: usize = 0;
            while j < my_loop.len()
                invariant
                    j <= my_loop.len(),
                    passed@ == passed0 + my_loop@.take(j as int).to_set(),
                decreases my_loop.len() - j,
            {
                proof {
                    assert(my_loop@.take(j + 1) == my_loop@.take(j as int).push(my_loop@[j as int]));
                    my_loop@.take(j as int).lemma_push_to_set_commute(my_loop@[j as int]);
                }
                passed.insert(my_loop[j]);
                proof {
                    assert(passed@ =~= passed0 + my_loop@.take(j + 1).to_set());
                }
                j = j + 1;
            }
            let ghost before = loops@.map_values(|l: Vec<EdgePtr>| l@);
            loops.push(my_loop);
            proof {
                assert(my_loop@.take(j as int) == my_loop@);
                let lp = self.loop_seq(ep as int);
                assert(loops@.map_values(|l: Vec<EdgePtr>| l@) =~= before.push(lp));
                assert(self.loops_from(all.skip(k as int), passed0) == seq![lp] + self.loops_from(
                    all.skip(k + 1),
                    passed@,
                ));
                assert(before.push(lp) + self.loops_from(all.skip(k + 1), passed@) =~= before + (seq![lp]
                    + self.loops_from(all.skip(k + 1), passed@)));
            }
            k = k + 1;
        }
        proof {
            assert(all.skip(k as int) == Seq::<usize>::empty());
            assert(loops@.map_values(|l: Vec<EdgePtr>| l@) + Seq::<Seq<usize>>::empty() =~= loops@.map_values(
                |l: Vec<EdgePtr>| l@,
            ));
        }
        loops
    }

    /// The loop of each face, in slot order.
    pub fn get_face_loops(&self) -> (loops: Vec<Vec<EdgePtr>>)
        requires
            self.wf(),
        ensures
            loops.len() == crate::data::pool::present(self.faces@).len(),
            forall|k: int|
                0 <= k < loops.len() ==> (#[trigger] loops@[k])@ == self.loop_seq(
                    crate::data::pool::present(self.faces@)[k].edge as int,
                ),
    {
        let faces = self.faces.iter();
        let mut loops: Vec<Vec<EdgePtr>> = Vec::new();
        let mut k: usize = 0;
        proof {
            crate::data::pool::law_len_is_slots_minus_freed(self.faces);
            crate::data::pool::lemma_present_ids_props(self.faces@);
        }
        while k < faces.len()
            invariant
                self.wf(),
                k <= faces.len(),
                faces.len() == crate::data::pool::present(self.faces@).len(),
                forall|i: int| 0 <= i < faces.len() ==> *(#[trigger] faces@[i]) == crate::data::pool::present(self.faces@)[i],
                loops.len() == k,
                forall|i: int|
                    0 <= i < k ==> (#[trigger] loops@[i])@ == self.loop_seq(
                        crate::data::pool::present(self.faces@)[i].edge as int,
                    ),
            decreases faces.len() - k,
        {
            proof {
                crate::data::pool::law_len_is_slots_minus_freed(self.faces);
                crate::data::pool::lemma_present_ids_props(self.faces@);
                let ids = crate::data::pool::present_ids(self.faces@);
                let f = ids[k as int] as int;
                assert(self.face_live(f));
                assert(self.fc(f) == crate::data::pool::present(self.faces@)[k as int]);
            }
            let lp = self.get_loop(faces[k].edge);
            loops.push(lp);
            k = k + 1;
        }
        loops
    }
}

} // verus!

verus! {

/// The half edge `h`, leading to `next`, with twin `twin`.
pub open spec fn with_links(h: HalfEdge, next: EdgePtr, twin: EdgePtr) -> HalfEdge {
    HalfEdge { from: h.from, next, twin, face: h.face }
}

impl<P: Copy> Polyhedron<P> {
    /// Every pointer that the half edge `h` holds points to an element that
    /// exists.
    pub open spec fn links_live(&self, h: HalfEdge) -> bool {
        &&& self.vert_live(h.from as int)
        &&& self.edge_live(h.next as int)
        &&& self.edge_live(h.twin as int)
        &&& (h.face matches Some(f) ==> self.face_live(f as int))
    }

    /// The positions of all vertices, in slot order.
    pub fn all_verts(&self) -> (pts: Vec<P>)
        ensures
            pts@ == crate::data::pool::present(self.verts@).map_values(|v: Vert<P>| v.pos),
    {
        let verts = self.verts.iter();
        let mut pts: Vec<P> = Vec::new();
        let mut k: usize = 0;
        while k < verts.len()
            invariant
                k <= verts.len(),
                verts.len() == crate::data::pool::present(self.verts@).len(),
                forall|i: int| 0 <= i < verts.len() ==> *(#[trigger] verts@[i]) == crate::data::pool::present(self.verts@)[i],
                pts@ == crate::data::pool::present(self.verts@).take(k as int).map_values(|v: Vert<P>| v.pos),
            decreases verts.len() - k,
        {
            pts.push(verts[k].pos);
            proof {
                assert(crate::data::pool::present(self.verts@).take(k + 1) == crate::data::pool::present(self.verts@).take(
                    k as int,
                ).push(crate::data::pool::present(self.verts@)[k as int]));
                assert(pts@ =~= crate::data::pool::present(self.verts@).take(k + 1).map_values(|v: Vert<P>| v.pos));
            }
            k = k + 1;
        }
        proof {
            assert(crate::data::pool::present(self.verts@).take(k as int) == crate::data::pool::present(self.verts@));
        }
        pts
    }

    /// The positions of the start and the end of the half edge `ep`.
    pub fn edge_verts(&self, ep: EdgePtr) -> (ends: (P, P))
        requires
            self.wf(),
            self.edge_live(ep as int),
        ensures
            ends == (
                self.vx(self.he(ep as int).from as int).pos,
                self.vx(self.he(self.he(ep as int).twin as int).from as int).pos,
            ),
    {
        let e = self.edge(ep);
        let t = self.edge(e.twin);
        (self.vert(e.from).pos, self.vert(t.from).pos)
    }

    /// The positions of the start vertices of `edges`.
    pub fn edges_to_verts(&self, edges: &[EdgePtr]) -> (pts: Vec<P>)
        requires
            self.wf(),
            forall|k: int| 0 <= k < edges@.len() ==> self.edge_live(#[trigger] edges@[k] as int),
        ensures
            pts.len() == edges@.len(),
            forall|k: int| 0 <= k < pts.len() ==> #[trigger] pts@[k] == self.vx(self.he(edges@[k] as int).from as int).pos,
    {
        let mut pts: Vec<P> = Vec::new();
        let mut k: usize = 0;
        while k < edges.len()
            invariant
                self.wf(),
                forall|i: int| 0 <= i < edges@.len() ==> self.edge_live(#[trigger] edges@[i] as int),
                k <= edges.len(),
                pts.len() == k,
                forall|i: int| 0 <= i < k ==> #[trigger] pts@[i] == self.vx(self.he(edges@[i] as int).from as int).pos,
            decreases edges.len() - k,
        {
            let e = self.edge(edges[k]);
            pts.push(self.vert(e.from).pos);
            k = k + 1;
        }
        pts
    }

    /// Stores the half edge `h` in a free slot.
    fn push_edge(&mut self, h: HalfEdge) -> (ep: EdgePtr)
        requires
            old(self).wf(),
            old(self).links_live(h),
        ensures
            final(self).wf(),
            !old(self).edge_live(ep as int),
            final(self).edge_live(ep as int),
            final(self).he(ep as int) == h,
            forall|e: int| #[trigger] final(self).edge_live(e) <==> old(self).edge_live(e) || e == ep,
            forall|e: int| old(self).edge_live(e) ==> #[trigger] final(self).he(e) == old(self).he(e),
            final(self).verts == old(self).verts,
            final(self).faces == old(self).faces,
            ep == old(self).edges.next_slot(0),
            forall|n: nat| #[trigger] final(self).edges.next_slot(n) == old(self).edges.next_slot(n + 1),
    {
        let ghost p0 = *self;
        proof {
            crate::data::pool::law_len_is_slots_minus_freed(self.edges);
        }
        let ep = self.edges.push(h);
        proof {
            let s0 = p0.edges@;
            let s1 = self.edges@;
            assert(s1.len() == s0.len() || (s1.len() == s0.len() + 1 && ep == s0.len()));
            assert forall|e: int| 0 <= e < s0.len() && #[trigger] s0[e] is Some implies s1[e] == s0[e] by {}
            assert forall|x: int| #![trigger self.he(x)] self.edge_live(x) implies self.links_live(self.he(x)) by {
                if x != ep {
                    assert(s1[x] == s0[x]);
                    assert(p0.edge_live(x));
                    let hx = p0.he(x);
                    assert(p0.links_live(hx));
                    assert(s0[hx.next as int] is Some);
                    assert(s0[hx.twin as int] is Some);
                }
            }
            assert forall|v: int| #![trigger self.vx(v)] self.vert_live(v) implies (self.vx(v).edge matches Some(x) ==> self.edge_live(x as int)) by {
                assert(p0.vx(v) == self.vx(v));
                if let Some(x) = self.vx(v).edge {
                    assert(s0[x as int] is Some);
                }
            }
            assert forall|f: int| #![trigger self.fc(f)] self.face_live(f) implies self.edge_live(self.fc(f).edge as int) by {
                assert(p0.fc(f) == self.fc(f));
                assert(s0[self.fc(f).edge as int] is Some);
            }
            assert forall|e: int| #[trigger] self.edge_live(e) <==> p0.edge_live(e) || e == ep by {
                if e != ep && 0 <= e < s0.len() {
                    assert(s1[e] == s0[e]);
                }
            }
            assert forall|e: int| p0.edge_live(e) implies #[trigger] self.he(e) == p0.he(e) by {
                assert(s1[e] == s0[e]);
            }
        }
        ep
    }

    /// Replaces the live half edge at `ep` by `h`.
    fn set_edge(&mut self, ep: EdgePtr, h: HalfEdge)
        requires
            old(self).wf(),
            old(self).edge_live(ep as int),
            old(self).links_live(h),
        ensures
            final(self).wf(),
            final(self).edges@ == old(self).edges@.update(ep as int, Some(h)),
            final(self).verts == old(self).verts,
            final(self).faces == old(self).faces,
            forall|n: nat| #[trigger] final(self).edges.next_slot(n) == old(self).edges.next_slot(n),
    {
        let ghost p0 = *self;
        self.edges.set(ep, h);
        proof {
            assert forall|x: int| #![trigger self.he(x)] self.edge_live(x) implies self.links_live(self.he(x)) by {
                if x != ep {
                    assert(p0.edge_live(x));
                    assert(p0.links_live(p0.he(x)));
                }
            }
            assert forall|v: int| #![trigger self.vx(v)] self.vert_live(v) implies (self.vx(v).edge matches Some(x) ==> self.edge_live(x as int)) by {
                assert(p0.vx(v) == self.vx(v));
            }
            assert forall|f: int| #![trigger self.fc(f)] self.face_live(f) implies self.edge_live(self.fc(f).edge as int) by {
                assert(p0.fc(f) == self.fc(f));
            }
        }
    }

    /// Points the live vertex `vp` to the edge `edge`.
    fn set_vert_edge(&mut self, vp: VertPtr, edge: Option<EdgePtr>)
        requires
            old(self).wf(),
            old(self).vert_live(vp as int),
            edge matches Some(e) ==> old(self).edge_live(e as int),
        ensures
            final(self).wf(),
            final(self).verts@ == old(self).verts@.update(vp as int, Some(Vert { pos: old(self).vx(vp as int).pos, edge })),
            final(self).edges == old(self).edges,
            final(self).faces == old(self).faces,
            forall|n: nat| #[trigger] final(self).verts.next_slot(n) == old(self).verts.next_slot(n),
    {
        let ghost p0 = *self;
        let pos = self.vert(vp).pos;
        self.verts.set(vp, Vert { pos, edge });
        proof {
            assert forall|x: int| #![trigger self.he(x)] self.edge_live(x) implies self.links_live(self.he(x)) by {
                assert(p0.links_live(p0.he(x)));
            }
            assert forall|w: int| #![trigger self.vx(w)] self.vert_live(w) implies (self.vx(w).edge matches Some(x) ==> self.edge_live(x as int)) by {
                if w != vp {
                    assert(p0.vx(w) == self.vx(w));
                }
            }
            assert forall|f: int| #![trigger self.fc(f)] self.face_live(f) implies self.edge_live(self.fc(f).edge as int) by {
                assert(p0.fc(f) == self.fc(f));
            }
        }
    }
}


impl<P: Copy> Polyhedron<P> {
    /// Splits the edge `ep` (and its twin) at a new vertex at `pos`: `ep`
    /// now ends at the new vertex, where a new half edge continues it along
    /// the old loop; the same goes for the twin. Returns the new vertex and
    /// the two new half edges (the one continuing `ep` first); the new
    /// vertex points to the first.
    pub fn split_edge(&mut self, ep: EdgePtr, pos: P) -> (res: (VertPtr, EdgePtr, EdgePtr))
        requires
            old(self).wf(),
            old(self).edge_live(ep as int),
        ensures
            final(self).wf(),
            ({
                let (vp, top, bottom) = res;
                let h = old(self).he(ep as int);
                let tw = h.twin as int;
                let th = old(self).he(tw);
                &&& vp == old(self).verts.next_slot(0)
                &&& top == old(self).edges.next_slot(0)
                &&& bottom == old(self).edges.next_slot(1)
                &&& !old(self).vert_live(vp as int)
                &&& final(self).vert_live(vp as int)
                &&& final(self).vx(vp as int) == (Vert { pos, edge: Some(top) })
                &&& forall|v: int| #[trigger] final(self).vert_live(v) <==> old(self).vert_live(v) || v == vp
                &&& forall|v: int| old(self).vert_live(v) ==> #[trigger] final(self).vx(v) == old(self).vx(v)
                &&& top != bottom
                &&& !old(self).edge_live(top as int)
                &&& !old(self).edge_live(bottom as int)
                &&& forall|e: int| #[trigger] final(self).edge_live(e) <==> old(self).edge_live(e) || e == top || e == bottom
                &&& final(self).he(top as int) == (HalfEdge { from: vp, next: h.next, twin: h.twin, face: h.face })
                &&& final(self).he(bottom as int) == (HalfEdge { from: vp, next: th.next, twin: ep, face: th.face })
                &&& tw != ep ==> {
                    &&& final(self).he(ep as int) == with_links(h, top, bottom)
                    &&& final(self).he(tw) == with_links(th, bottom, top)
                }
                &&& tw == ep ==> final(self).he(ep as int) == with_links(h, bottom, top)
                &&& forall|e: int|
                    old(self).edge_live(e) && e != ep && e != tw ==> #[trigger] final(self).he(e) == old(self).he(e)
            }),
            final(self).faces == old(self).faces,
    {
        let ghost p0 = *self;
        let h = *self.edge(ep);
        let bottom = h.twin;
        let th = *self.edge(bottom);
        let vp = self.add_vert(pos);
        let ghost p1 = *self;
        proof {
            assert(self.links_live(HalfEdge { from: vp, next: h.next, twin: bottom, face: h.face })) by {
                assert(p0.links_live(h));
            }
        }
        let ep_top = self.push_edge(HalfEdge { from: vp, next: h.next, twin: bottom, face: h.face });
        let ghost p2 = *self;
        proof {
            assert(p0.links_live(th));
            assert(self.links_live(HalfEdge { from: vp, next: th.next, twin: ep, face: th.face }));
        }
        let ep_bottom = self.push_edge(HalfEdge { from: vp, next: th.next, twin: ep, face: th.face });
        let ghost p3 = *self;
        let cur = *self.edge(ep);
        self.set_edge(ep, HalfEdge { from: cur.from, next: ep_top, twin: ep_bottom, face: cur.face });
        let ghost p4 = *self;
        proof {
            assert(p3.edge_live(ep_top as int));
            assert(ep_top != ep && ep_bottom != ep);
            assert(self.edge_live(ep_top as int));
            assert(self.edge_live(ep_bottom as int));
        }
        let cur = *self.edge(bottom);
        self.set_edge(bottom, HalfEdge { from: cur.from, next: ep_bottom, twin: ep_top, face: cur.face });
        let ghost p5 = *self;
        proof {
            assert(ep_top != bottom);
            assert(self.edge_live(ep_top as int));
            assert(self.vert_live(vp as int));
        }
        self.set_vert_edge(vp, Some(ep_top));
        proof {
            assert(p1.edges == p0.edges);
            assert(p4.verts == p1.verts);
            assert(self.verts@.len() == p1.verts@.len());
            assert forall|v: int| #[trigger] self.vert_live(v) <==> p0.vert_live(v) || v == vp by {
                if v != vp && 0 <= v < self.verts@.len() {
                    assert(self.verts@[v] == p1.verts@[v]);
                }
                assert(p1.vert_live(v) ==> p0.vert_live(v) || v == vp);
                assert(p0.vert_live(v) ==> p1.vert_live(v));
            }
            assert forall|v: int| p0.vert_live(v) implies #[trigger] self.vx(v) == p0.vx(v) by {
                assert(p1.vert_live(v) && p1.vx(v) == p0.vx(v) && v != vp);
                assert(self.verts@[v] == p1.verts@[v]);
            }
            assert forall|e: int| #[trigger] self.edge_live(e) <==> p0.edge_live(e) || e == ep_top || e == ep_bottom by {
                assert(p4.edge_live(e) == p3.edge_live(e));
                assert(p3.edge_live(e) == (p2.edge_live(e) || e == ep_bottom));
                assert(p2.edge_live(e) == (p1.edge_live(e) || e == ep_top));
            }
            assert(p3.he(ep_top as int) == p2.he(ep_top as int));
            assert forall|e: int| p0.edge_live(e) && e != ep && e != bottom implies #[trigger] self.he(e) == p0.he(e) by {
                assert(p1.edge_live(e));
                assert(p2.he(e) == p1.he(e));
                assert(p2.edge_live(e));
                assert(p3.he(e) == p2.he(e));
                assert(p3.edge_live(e));
                assert(p3.edge_live(ep as int));
                assert(p4.edges@ == p3.edges@.update(ep as int, p4.edges@[ep as int]));
                assert(p4.edges@[e] == p3.edges@[e]);
                assert(p4.edge_live(bottom as int));
                assert(p5.edges@ == p4.edges@.update(bottom as int, p5.edges@[bottom as int]));
                assert(p5.edges@[e] == p4.edges@[e]);
                assert(self.edges == p5.edges);
                assert(self.edges@[e] == p4.edges@[e]);
            }
            if bottom != ep {
                assert(p3.he(bottom as int) == th);
                assert(p3.he(ep as int) == h);
            } else {
                assert(p3.he(ep as int) == h);
            }
        }
        (vp, ep_top, ep_bottom)
    }
}


/// The half edge `h`, bordering face `face`.
pub open spec fn with_face(h: HalfEdge, face: Option<FacePtr>) -> HalfEdge {
    HalfEdge { from: h.from, next: h.next, twin: h.twin, face }
}

impl<P: Copy> Polyhedron<P> {
    /// Stores the face `f`, whose edge exists, in a free slot.
    fn push_face(&mut self, f: Face<P>) -> (fp: FacePtr)
        requires
            old(self).wf(),
            old(self).edge_live(f.edge as int),
        ensures
            final(self).wf(),
            !old(self).face_live(fp as int),
            final(self).face_live(fp as int),
            final(self).fc(fp as int) == f,
            forall|g: int| #[trigger] final(self).face_live(g) <==> old(self).face_live(g) || g == fp,
            forall|g: int| old(self).face_live(g) ==> #[trigger] final(self).fc(g) == old(self).fc(g),
            final(self).verts == old(self).verts,
            final(self).edges == old(self).edges,
            fp == old(self).faces.next_slot(0),
            forall|n: nat| #[trigger] final(self).faces.next_slot(n) == old(self).faces.next_slot(n + 1),
    {
        let ghost p0 = *self;
        proof {
            crate::data::pool::law_len_is_slots_minus_freed(self.faces);
        }
        let fp = self.faces.push(f);
        proof {
            let s0 = p0.faces@;
            let s1 = self.faces@;
            assert(s1.len() == s0.len() || (s1.len() == s0.len() + 1 && fp == s0.len()));
            assert forall|x: int| #![trigger self.he(x)] self.edge_live(x) implies self.links_live(self.he(x)) by {
                assert(p0.links_live(p0.he(x)));
                if let Some(g) = self.he(x).face {
                    assert(s1[g as int] == s0[g as int]);
                }
            }
            assert forall|v: int| #![trigger self.vx(v)] self.vert_live(v) implies (self.vx(v).edge matches Some(x) ==> self.edge_live(x as int)) by {
                assert(p0.vx(v) == self.vx(v));
            }
            assert forall|g: int| #![trigger self.fc(g)] self.face_live(g) implies self.edge_live(self.fc(g).edge as int) by {
                if g != fp {
                    assert(s1[g] == s0[g]);
                    assert(p0.face_live(g));
                    assert(p0.fc(g) == self.fc(g));
                }
            }
            assert forall|g: int| #[trigger] self.face_live(g) <==> p0.face_live(g) || g == fp by {
                if g != fp && 0 <= g < s0.len() {
                    assert(s1[g] == s0[g]);
                }
            }
            assert forall|g: int| p0.face_live(g) implies #[trigger] self.fc(g) == p0.fc(g) by {
                assert(s1[g] == s0[g]);
            }
        }
        fp
    }

    /// Caps the loop `lp` with a new face at `center` with `normal`: its
    /// first edge becomes the face's edge, and every edge of the loop
    /// borders it. Nothing happens to a loop of fewer than three edges, nor
    /// to one whose first edge already borders a face.
    pub fn cap_loop(&mut self, lp: &Vec<EdgePtr>, center: P, normal: P) -> (res: Option<FacePtr>)
        requires
            old(self).wf(),
            forall|k: int| 0 <= k < lp.len() ==> old(self).edge_live(#[trigger] lp@[k] as int),
        ensures
            final(self).wf(),
            res is None <==> lp.len() < 3 || old(self).he(lp@[0] as int).face is Some,
            res is None ==> *final(self) == *old(self),
            res matches Some(fp) ==> {
                &&& fp == old(self).faces.next_slot(0)
                &&& !old(self).face_live(fp as int)
                &&& final(self).face_live(fp as int)
                &&& final(self).fc(fp as int) == (Face { edge: lp@[0], center, normal })
                &&& forall|g: int| #[trigger] final(self).face_live(g) <==> old(self).face_live(g) || g == fp
                &&& forall|g: int| old(self).face_live(g) ==> #[trigger] final(self).fc(g) == old(self).fc(g)
                &&& forall|e: int| #[trigger] final(self).edge_live(e) <==> old(self).edge_live(e)
                &&& forall|e: int|
                    old(self).edge_live(e) ==> #[trigger] final(self).he(e) == if lp@.contains(e as usize) {
                        with_face(old(self).he(e), Some(fp))
                    } else {
                        old(self).he(e)
                    }
                &&& final(self).verts == old(self).verts
            },
    {
        if lp.len() < 3 {
            return None;
        }
        if self.edge(lp[0]).face.is_some() {
            return None;
        }
        let ghost p0 = *self;
        let fp = self.push_face(Face { edge: lp[0], center, normal });
        let ghost p1 = *self;
        let mut k: usize = 0;
        while k < lp.len()
            invariant
                self.wf(),
                p1.wf(),
                p1.face_live(fp as int),
                forall|j: int| 0 <= j < lp.len() ==> p1.edge_live(#[trigger] lp@[j] as int),
                self.verts == p1.verts,
                self.faces == p1.faces,
                k <= lp.len(),
                forall|e: int| #[trigger] self.edge_live(e) <==> p1.edge_live(e),
                forall|e: int|
                    p1.edge_live(e) ==> #[trigger] self.he(e) == if lp@.take(k as int).contains(e as usize) {
                        with_face(p1.he(e), Some(fp))
                    } else {
                        p1.he(e)
                    },
            decreases lp.len() - k,
        {
            let e = lp[k];
            let ghost q = *self;
            proof {
                assert(p1.edge_live(lp@[k as int] as int));
                assert(q.edge_live(e as int));
            }
            let h = *self.edge(e);
            proof {
                assert(self.links_live(h));
            }
            self.set_edge(e, HalfEdge { from: h.from, next: h.next, twin: h.twin, face: Some(fp) });
            proof {
                crate::data::pool::law_len_is_slots_minus_freed(q.edges);
                assert(self.edges@ == q.edges@.update(e as int, Some(with_face(h, Some(fp)))));
                assert(lp@.take(k + 1) == lp@.take(k as int).push(e));
                assert forall|x: int| #[trigger] self.edge_live(x) <==> p1.edge_live(x) by {
                    assert(q.edge_live(x) <==> p1.edge_live(x));
                }
                assert forall|x: int| p1.edge_live(x) implies #[trigger] self.he(x) == if lp@.take(k + 1).contains(
                    x as usize,
                ) {
                    with_face(p1.he(x), Some(fp))
                } else {
                    p1.he(x)
                } by {
                    assert(q.edge_live(x));
                    let qx = q.he(x);
                    if x == e as int {
                        assert(lp@.take(k + 1)[k as int] == e);
                        assert(h == q.he(e as int));
                    } else {
                        assert(self.edges@[x] == q.edges@[x]);
                        assert(self.he(x) == qx);
                        assert((x as usize) != e);
                        assert(lp@.take(k + 1).contains(x as usize) == lp@.take(k as int).contains(x as usize)) by {
                            broadcast use vstd::seq_lib::group_seq_properties;
                        }
                    }
                }
            }
            k = k + 1;
        }
        proof {
            assert(lp@.take(k as int) == lp@);
            assert(p1.edges == p0.edges);
            assert forall|e: int| #[trigger] self.edge_live(e) <==> p0.edge_live(e) by {
                assert(p1.edge_live(e) == p0.edge_live(e));
            }
            assert forall|e: int|
                p0.edge_live(e) implies #[trigger] self.he(e) == if lp@.contains(e as usize) {
                    with_face(p0.he(e), Some(fp))
                } else {
                    p0.he(e)
                } by {
                assert(p1.edge_live(e));
                assert(p1.he(e) == p0.he(e));
            }
            assert forall|g: int| #[trigger] self.face_live(g) <==> p0.face_live(g) || g == fp by {
                assert(p1.face_live(g) <==> p0.face_live(g) || g == fp);
            }
            assert forall|g: int| p0.face_live(g) implies #[trigger] self.fc(g) == p0.fc(g) by {
                assert(p1.fc(g) == p0.fc(g));
            }
        }
        Some(fp)
    }
}


impl<P: Copy> Polyhedron<P> {
    proof fn lemma_first_return_at_least(&self, e: int, k: nat, n: nat)
        ensures
            k <= n + 1 ==> self.first_return(e, k, n) >= k,
        decreases n + 1 - k,
    {
        if k <= n && self.next_pow(e, k) != e {
            self.lemma_first_return_at_least(e, k + 1, n);
        }
    }

    proof fn lemma_loops_from_cover(&self, ids: Seq<usize>, passed: Set<usize>)
        ensures
            forall|x: usize|
                #[trigger] ids.contains(x) ==> passed.contains(x) || exists|i: int|
                    0 <= i < self.loops_from(ids, passed).len() && #[trigger] self.loops_from(ids, passed)[i].contains(x),
        decreases ids.len(),
    {
        if ids.len() > 0 {
            let rest = ids.drop_first();
            let e = ids[0];
            if passed.contains(e) {
                self.lemma_loops_from_cover(rest, passed);
                assert(self.loops_from(ids, passed) == self.loops_from(rest, passed));
                assert forall|x: usize| #[trigger] ids.contains(x) implies passed.contains(x) || exists|i: int|
                    0 <= i < self.loops_from(ids, passed).len() && #[trigger] self.loops_from(ids, passed)[i].contains(x) by {
                    if x != e {
                        let j = choose|j: int| 0 <= j < ids.len() && ids[j] == x;
                        assert(rest[j - 1] == x);
                        assert(rest.contains(x));
                    }
                }
            } else {
                let lp = self.loop_seq(e as int);
                let more = passed + lp.to_set();
                self.lemma_loops_from_cover(rest, more);
                self.lemma_first_return_at_least(e as int, 1, self.edge_count());
                assert(lp[0] == e);
                let all = self.loops_from(ids, passed);
                assert(all == seq![lp] + self.loops_from(rest, more));
                assert forall|x: usize| #[trigger] ids.contains(x) implies passed.contains(x) || exists|i: int|
                    0 <= i < all.len() && #[trigger] all[i].contains(x) by {
                    if x == e {
                        assert(all[0] == lp);
                        assert(lp.contains(x));
                    } else if !passed.contains(x) {
                        let j = choose|j: int| 0 <= j < ids.len() && ids[j] == x;
                        assert(rest[j - 1] == x);
                        assert(rest.contains(x));
                        if lp.to_set().contains(x) {
                            assert(all[0] == lp);
                        } else {
                            let i = choose|i: int|
                                0 <= i < self.loops_from(rest, more).len() && #[trigger] self.loops_from(rest, more)[i].contains(x);
                            assert(all[i + 1] == self.loops_from(rest, more)[i]);
                        }
                    }
                }
            }
        }
    }
}

/// Every half edge lies on one of the loops that `get_loops` gathers.
pub proof fn law_loops_cover_edges<P: Copy>(hedron: Polyhedron<P>, e: usize)
    requires
        hedron.wf(),
        hedron.edge_live(e as int),
    ensures
        exists|i: int|
            0 <= i < hedron.loops_from(crate::data::pool::present_ids(hedron.edges@), Set::empty()).len()
                && #[trigger] hedron.loops_from(crate::data::pool::present_ids(hedron.edges@), Set::empty())[i].contains(e),
{
    crate::data::pool::law_len_is_slots_minus_freed(hedron.edges);
    crate::data::pool::lemma_present_ids_props(hedron.edges@);
    hedron.lemma_loops_from_cover(crate::data::pool::present_ids(hedron.edges@), Set::empty());
    assert(crate::data::pool::present_ids(hedron.edges@).contains(e));
}

/// In the edge slots `es`: the disk of outgoing edges around a vertex, from
/// `s`, has `m` edges.
pub open spec fn disk_size_in(es: Seq<Option<HalfEdge>>, s: int, m: nat) -> bool {
    &&& m >= 1
    &&& rot_pow_in(es, s, m) == s
    &&& forall|j: nat| 1 <= j < m ==> #[trigger] rot_pow_in(es, s, j) != s
}

/// In the edge slots `es`: the number of outgoing edges around a vertex,
/// from `s`.
pub open spec fn disk_count_in(es: Seq<Option<HalfEdge>>, s: int) -> nat {
    choose|m: nat| disk_size_in(es, s, m)
}

/// In the edge slots `es`: the half edge at position `p` of the disk from
/// `s` (as `get_disk` lists it: each outgoing edge, then its twin).
pub open spec fn disk_elem(es: Seq<Option<HalfEdge>>, s: int, p: int) -> int {
    if p % 2 == 0 {
        rot_pow_in(es, s, (p / 2) as nat)
    } else {
        edge_in(es, rot_pow_in(es, s, (p / 2) as nat)).twin as int
    }
}

/// In the edge slots `es`: the first half edge of the disk from `s`, from
/// position `p` up to position `n`, that leads to `target`.
pub open spec fn find_leading(es: Seq<Option<HalfEdge>>, s: int, target: usize, p: int, n: int) -> Option<int>
    decreases n - p,
{
    if p >= n {
        None
    } else if edge_in(es, disk_elem(es, s, p)).next == target {
        Some(disk_elem(es, s, p))
    } else {
        find_leading(es, s, target, p + 1, n)
    }
}

/// The edge slots `es` after the first half edge of the disk from `start`
/// (where there is a start) that leads to `target` is made to lead to
/// `new_next` instead.
pub open spec fn relinked(es: Seq<Option<HalfEdge>>, start: Option<usize>, target: usize, new_next: usize) -> Seq<Option<HalfEdge>> {
    match start {
        None => es,
        Some(s) => match find_leading(es, s as int, target, 0, (2 * disk_count_in(es, s as int)) as int) {
            None => es,
            Some(d) => es.update(d, Some(with_next(edge_in(es, d), new_next))),
        },
    }
}

proof fn lemma_find_leading(es: Seq<Option<HalfEdge>>, s: int, target: usize, p: int, n: int, q: int)
    requires
        0 <= p <= q <= n,
        forall|i: int| p <= i < q ==> edge_in(es, #[trigger] disk_elem(es, s, i)).next != target,
        q < n ==> edge_in(es, disk_elem(es, s, q)).next == target,
    ensures
        find_leading(es, s, target, p, n) == if q < n { Some(disk_elem(es, s, q)) } else { None::<int> },
    decreases q - p,
{
    if p < q {
        assert(edge_in(es, disk_elem(es, s, p)).next != target);
        lemma_find_leading(es, s, target, p + 1, n, q);
    }
}

impl<P: Copy> Polyhedron<P> {
    /// A disk's size counts it in the edge slots as well.
    proof fn lemma_disk_count_in(&self, s: int, m: nat)
        requires
            self.disk_size(s, m),
        ensures
            disk_count_in(self.edges@, s) == m,
    {
        self.lemma_rot_pow_in(s, m);
        assert forall|j: nat| 1 <= j < m implies #[trigger] rot_pow_in(self.edges@, s, j) != s by {
            self.lemma_rot_pow_in(s, j);
        }
        assert(disk_size_in(self.edges@, s, m));
        let c = disk_count_in(self.edges@, s);
        assert(disk_size_in(self.edges@, s, c));
        if c < m {
            assert(rot_pow_in(self.edges@, s, c) != s);
        } else if m < c {
            assert(rot_pow_in(self.edges@, s, m) != s);
        }
    }

    /// Makes the first half edge of the disk of `vp` that leads to `target`
    /// lead to `new_next` instead.
    fn relink_leading(&mut self, vp: VertPtr, target: EdgePtr, new_next: EdgePtr)
        requires
            old(self).wf(),
            old(self).vert_live(vp as int),
            old(self).disk_closes(vp as int),
            old(self).edge_live(new_next as int),
        ensures
            final(self).wf(),
            final(self).edges@ == relinked(old(self).edges@, old(self).vx(vp as int).edge, target, new_next),
            final(self).verts == old(self).verts,
            final(self).faces == old(self).faces,
            forall|e: int| #[trigger] final(self).edge_live(e) <==> old(self).edge_live(e),
    {
        let ghost es = self.edges@;
        let ghost p0 = *self;
        let disk = self.get_disk(vp);
        let ghost start = self.vx(vp as int).edge;
        proof {
            if let Some(s) = start {
                self.lemma_disk_count_in(s as int, disk.len() as nat / 2);
                assert forall|p: int| 0 <= p < disk.len() implies #[trigger] disk@[p] == disk_elem(es, s as int, p) by {
                    let j = p / 2;
                    assert(0 <= j < disk.len() / 2);
                    assert(disk@[2 * j] == self.rot_pow(s as int, j as nat));
                    self.lemma_rot_pow_in(s as int, j as nat);
                    if p % 2 == 0 {
                        assert(p == 2 * j);
                    } else {
                        assert(p == 2 * j + 1);
                    }
                }
                assert forall|p: int| 0 <= p < disk.len() implies self.edge_live(#[trigger] disk@[p] as int) by {
                    let j = p / 2;
                    assert(disk@[2 * j] == self.rot_pow(s as int, j as nat));
                    self.lemma_rot_pow_live(s as int, j as nat);
                    if p % 2 == 0 {
                        assert(p == 2 * j);
                    } else {
                        assert(p == 2 * j + 1);
                    }
                }
            }
        }
        let mut p: usize = 0;
        while p < disk.len()
            invariant_except_break
                self.wf(),
                self.edges@ == es,
                self.edge_live(new_next as int),
                p <= disk.len(),
                forall|i: int| 0 <= i < p ==> edge_in(es, #[trigger] disk@[i] as int).next != target,
            invariant
                self.verts == p0.verts,
                self.faces == p0.faces,
                start is None ==> disk.len() == 0,
                start matches Some(s) ==> forall|i: int| 0 <= i < disk.len() ==> #[trigger] disk@[i] == disk_elem(es, s as int, i),
                start matches Some(s) ==> forall|i: int| 0 <= i < disk.len() ==> self.edge_live(#[trigger] disk@[i] as int),
            ensures
                self.wf(),
                p <= disk.len(),
                forall|i: int| 0 <= i < p ==> edge_in(es, #[trigger] disk@[i] as int).next != target,
                p < disk.len() ==> edge_in(es, disk@[p as int] as int).next == target && self.edges@ == es.update(
                    disk@[p as int] as int,
                    Some(with_next(edge_in(es, disk@[p as int] as int), new_next)),
                ),
                p == disk.len() ==> self.edges@ == es,
            decreases disk.len() - p,
        {
            let d = disk[p];
            if self.edge(d).next == target {
                self.set_next(d, new_next);
                break;
            }
            p = p + 1;
        }
        proof {
            if let Some(s) = start {
                let n = 2 * disk_count_in(es, s as int);
                assert forall|i: int| 0 <= i < p implies edge_in(es, #[trigger] disk_elem(es, s as int, i)).next != target by {
                    assert(disk@[i] == disk_elem(es, s as int, i));
                }
                lemma_find_leading(es, s as int, target, 0, n as int, p as int);
            }
            assert forall|e: int| #[trigger] self.edge_live(e) <==> p0.edge_live(e) by {
                if p < disk.len() {
                    let d = disk@[p as int] as int;
                    assert(p0.edge_live(d));
                    if e != d && 0 <= e < es.len() {
                        assert(self.edges@[e] == es[e]);
                    }
                }
            }
        }
    }
}

impl<P: Copy> Polyhedron<P> {
    /// Some element holds a pointer to the edge slot `p`.
    pub open spec fn holds_edge(&self, p: usize) -> bool {
        ||| exists|e: int| self.edge_live(e) && (#[trigger] self.he(e).next == p || self.he(e).twin == p)
        ||| exists|v: int| self.vert_live(v) && #[trigger] self.vx(v).edge == Some(p)
        ||| exists|f: int| self.face_live(f) && #[trigger] self.fc(f).edge == p
    }

    /// The vertex slots after `delete_edge(ep)`: the start vertex of the
    /// twin points to the edge after `ep` (or to no edge, where that is the
    /// twin), then the start vertex of `ep` to the edge after the twin (or to
    /// no edge, where that is `ep`).
    pub open spec fn verts_after_delete(&self, ep: int) -> Seq<Option<Vert<P>>> {
        let h = self.he(ep);
        let th = self.he(h.twin as int);
        let (va, vb) = (th.from as int, h.from as int);
        let a_edge = if h.next == h.twin { None } else { Some(h.next) };
        let b_edge = if th.next == ep { None } else { Some(th.next) };
        let v1 = self.verts@.update(va, Some(Vert { pos: self.vx(va).pos, edge: a_edge }));
        v1.update(vb, Some(Vert { pos: v1[vb]->0.pos, edge: b_edge }))
    }

    /// The edge slots after `delete_edge(ep)` has relinked the disk of the
    /// twin's start around the edge after `ep`, before it relinks the disk
    /// of `ep`'s start.
    pub open spec fn edges_relinked_a(&self, ep: int) -> Seq<Option<HalfEdge>> {
        let h = self.he(ep);
        let th = self.he(h.twin as int);
        relinked(self.edges@, self.verts_after_delete(ep)[th.from as int]->0.edge, h.twin, h.next)
    }

    /// The edge slots after `delete_edge(ep)` has relinked both disks.
    pub open spec fn edges_relinked(&self, ep: int) -> Seq<Option<HalfEdge>> {
        let h = self.he(ep);
        let th = self.he(h.twin as int);
        relinked(self.edges_relinked_a(ep), self.verts_after_delete(ep)[h.from as int]->0.edge, ep as usize, th.next)
    }

    /// Deletes the half edge `ep` and its twin, neither of which borders a
    /// face: the vertices at their ends point to the edges after them, and
    /// in the disk of each end, the first half edge that led to the deleted
    /// one leads to the edge after it. The result is sound exactly where no
    /// element still points to either deleted half edge.
    pub fn delete_edge(&mut self, ep: EdgePtr)
        requires
            old(self).wf(),
            old(self).edge_live(ep as int),
            old(self).he(ep as int).twin != ep,
            old(self).he(ep as int).face is None,
            old(self).he(old(self).he(ep as int).twin as int).face is None,
            old(self).verts_after_delete(ep as int)[old(self).he(old(self).he(ep as int).twin as int).from as int]->0.edge matches Some(
                s,
            ) ==> orbit_closes_in(old(self).edges@, s as int),
            old(self).verts_after_delete(ep as int)[old(self).he(ep as int).from as int]->0.edge matches Some(s)
                ==> orbit_closes_in(old(self).edges_relinked_a(ep as int), s as int),
        ensures
            final(self).verts.wf(),
            final(self).edges.wf(),
            final(self).faces.wf(),
            final(self).verts@ == old(self).verts_after_delete(ep as int),
            final(self).edges@ == old(self).edges_relinked(ep as int).update(ep as int, None).update(
                old(self).he(ep as int).twin as int,
                None,
            ),
            final(self).faces == old(self).faces,
            final(self).wf() <==> !final(self).holds_edge(ep) && !final(self).holds_edge(old(self).he(ep as int).twin),
    {
        let ghost p0 = *self;
        let h = *self.edge(ep);
        let twin = h.twin;
        let ep_next = h.next;
        let th = *self.edge(twin);
        let twin_next = th.next;
        let vert_a = th.from;
        let vert_b = h.from;
        if ep_next == twin {
            self.set_vert_edge(vert_a, None);
        } else {
            self.set_vert_edge(vert_a, Some(ep_next));
        }
        if twin_next == ep {
            self.set_vert_edge(vert_b, None);
        } else {
            self.set_vert_edge(vert_b, Some(twin_next));
        }
        proof {
            assert(self.verts@ =~= p0.verts_after_delete(ep as int));
            assert(self.edges == p0.edges);
            self.lemma_disk_closes_in(vert_a as int);
        }
        self.relink_leading(vert_a, twin, ep_next);
        proof {
            assert(self.edges@ == p0.edges_relinked_a(ep as int));
            self.lemma_disk_closes_in(vert_b as int);
            assert(p0.edge_live(twin_next as int));
            assert(self.edge_live(twin_next as int));
        }
        self.relink_leading(vert_b, ep, twin_next);
        proof {
            assert(self.edges@ == p0.edges_relinked(ep as int));
            assert(p0.edge_live(ep as int));
            assert(self.edge_live(ep as int));
            assert(p0.edge_live(twin as int));
            assert(self.edge_live(twin as int));
        }
        self.drop_twins(ep, twin);
    }

    /// Deletes the half edges `ep` and `twin` from their pool; nothing else
    /// changes. The result is sound exactly where no element still points
    /// to either.
    fn drop_twins(&mut self, ep: EdgePtr, twin: EdgePtr)
        requires
            old(self).wf(),
            old(self).edge_live(ep as int),
            old(self).edge_live(twin as int),
            ep != twin,
        ensures
            final(self).verts.wf(),
            final(self).edges.wf(),
            final(self).faces.wf(),
            final(self).verts == old(self).verts,
            final(self).faces == old(self).faces,
            final(self).edges@ == old(self).edges@.update(ep as int, None).update(twin as int, None),
            final(self).wf() <==> !final(self).holds_edge(ep) && !final(self).holds_edge(twin),
    {
        let ghost p3 = *self;
        self.edges.delete(ep);
        proof {
            assert(self.edges@[twin as int] == p3.edges@[twin as int]);
        }
        self.edges.delete(twin);
        proof {
            assert forall|e: int| #![trigger self.he(e)] self.edge_live(e) implies p3.edge_live(e) && self.he(e) == p3.he(e) by {}
            assert forall|v: int| #![trigger self.vx(v)] self.vert_live(v) implies p3.vert_live(v) && self.vx(v) == p3.vx(v) by {}
            assert forall|f: int| #![trigger self.fc(f)] self.face_live(f) implies p3.face_live(f) && self.fc(f) == p3.fc(f) by {}
            if !self.holds_edge(ep) && !self.holds_edge(twin) {
                assert forall|x: int| #![trigger self.he(x)] self.edge_live(x) implies self.links_live(self.he(x)) by {
                    assert(p3.links_live(p3.he(x)));
                    assert(!(self.he(x).next == ep || self.he(x).twin == ep));
                    assert(!(self.he(x).next == twin || self.he(x).twin == twin));
                }
                assert forall|v: int| #![trigger self.vx(v)] self.vert_live(v) implies (self.vx(v).edge matches Some(x)
                    ==> self.edge_live(x as int)) by {
                    assert(p3.vx(v) == self.vx(v));
                    if let Some(x) = self.vx(v).edge {
                        assert(x != ep && x != twin);
                    }
                }
                assert forall|f: int| #![trigger self.fc(f)] self.face_live(f) implies self.edge_live(self.fc(f).edge as int) by {
                    assert(p3.fc(f) == self.fc(f));
                }
            }
            if self.wf() {
                assert(!self.edge_live(ep as int));
                assert(!self.edge_live(twin as int));
                if self.holds_edge(ep) || self.holds_edge(twin) {
                    if exists|e: int| self.edge_live(e) && (#[trigger] self.he(e).next == ep || self.he(e).twin == ep) {
                        let e = choose|e: int| self.edge_live(e) && (#[trigger] self.he(e).next == ep || self.he(e).twin == ep);
                        assert(self.links_live(self.he(e)));
                    }
                    if exists|e: int| self.edge_live(e) && (#[trigger] self.he(e).next == twin || self.he(e).twin == twin) {
                        let e = choose|e: int| self.edge_live(e) && (#[trigger] self.he(e).next == twin || self.he(e).twin == twin);
                        assert(self.links_live(self.he(e)));
                    }
                    if exists|v: int| self.vert_live(v) && #[trigger] self.vx(v).edge == Some(ep) {
                        let v = choose|v: int| self.vert_live(v) && #[trigger] self.vx(v).edge == Some(ep);
                        assert(self.vert_live(v));
                    }
                    if exists|v: int| self.vert_live(v) && #[trigger] self.vx(v).edge == Some(twin) {
                        let v = choose|v: int| self.vert_live(v) && #[trigger] self.vx(v).edge == Some(twin);
                        assert(self.vert_live(v));
                    }
                    if exists|f: int| self.face_live(f) && #[trigger] self.fc(f).edge == ep {
                        let f = choose|f: int| self.face_live(f) && #[trigger] self.fc(f).edge == ep;
                        assert(self.face_live(f));
                    }
                    if exists|f: int| self.face_live(f) && #[trigger] self.fc(f).edge == twin {
                        let f = choose|f: int| self.face_live(f) && #[trigger] self.fc(f).edge == twin;
                        assert(self.face_live(f));
                    }
                }
            }
        }
    }
}

impl<P: Copy> Polyhedron<P> {
    /// Whether some element points to the half edge `p` (see `holds_edge`).
    fn holds_edge_check(&self, p: EdgePtr) -> (res: bool)
        requires
            self.verts.wf(),
            self.edges.wf(),
            self.faces.wf(),
        ensures
            res == self.holds_edge(p),
    {
        proof {
            crate::data::pool::law_len_is_slots_minus_freed(self.edges);
            crate::data::pool::law_len_is_slots_minus_freed(self.verts);
            crate::data::pool::law_len_is_slots_minus_freed(self.faces);
            crate::data::pool::lemma_present_ids_props(self.edges@);
            crate::data::pool::lemma_present_ids_props(self.verts@);
            crate::data::pool::lemma_present_ids_props(self.faces@);
        }
        let es = self.edges.all_ids();
        let mut k: usize = 0;
        while k < es.len()
            invariant
                k <= es.len(),
                es@ == crate::data::pool::present_ids(self.edges@),
                forall|i: int| 0 <= i < es.len() ==> #[trigger] es@[i] < self.edges@.len() && self.edges@[es@[i] as int] is Some,
                forall|i: int| 0 <= i < k ==> !(#[trigger] self.he(es@[i] as int).next == p || self.he(es@[i] as int).twin == p),
            decreases es.len() - k,
        {
            let h = self.edge(es[k]);
            if h.next == p || h.twin == p {
                proof {
                    assert(self.edge_live(es@[k as int] as int));
                }
                return true;
            }
            k = k + 1;
        }
        let vs = self.verts.all_ids();
        let mut k: usize = 0;
        while k < vs.len()
            invariant
                k <= vs.len(),
                vs@ == crate::data::pool::present_ids(self.verts@),
                forall|i: int| 0 <= i < vs.len() ==> #[trigger] vs@[i] < self.verts@.len() && self.verts@[vs@[i] as int] is Some,
                forall|i: int| 0 <= i < k ==> #[trigger] self.vx(vs@[i] as int).edge != Some(p),
            decreases vs.len() - k,
        {
            if self.vert(vs[k]).edge == Some(p) {
                proof {
                    assert(self.vert_live(vs@[k as int] as int));
                }
                return true;
            }
            k = k + 1;
        }
        let fs = self.faces.all_ids();
        let mut k: usize = 0;
        while k < fs.len()
            invariant
                k <= fs.len(),
                fs@ == crate::data::pool::present_ids(self.faces@),
                forall|i: int| 0 <= i < fs.len() ==> #[trigger] fs@[i] < self.faces@.len() && self.faces@[fs@[i] as int] is Some,
                forall|i: int| 0 <= i < k ==> #[trigger] self.fc(fs@[i] as int).edge != p,
            decreases fs.len() - k,
        {
            if self.face(fs[k]).edge == p {
                proof {
                    assert(self.face_live(fs@[k as int] as int));
                }
                return true;
            }
            k = k + 1;
        }
        proof {
            assert forall|e: int| self.edge_live(e) implies !(#[trigger] self.he(e).next == p || self.he(e).twin == p) by {
                assert(es@.contains(e as usize));
                let i = choose|i: int| 0 <= i < es.len() && es@[i] == e as usize;
                assert(!(self.he(es@[i] as int).next == p || self.he(es@[i] as int).twin == p));
            }
            assert forall|v: int| self.vert_live(v) implies #[trigger] self.vx(v).edge != Some(p) by {
                assert(vs@.contains(v as usize));
                let i = choose|i: int| 0 <= i < vs.len() && vs@[i] == v as usize;
                assert(self.vx(vs@[i] as int).edge != Some(p));
            }
            assert forall|f: int| self.face_live(f) implies #[trigger] self.fc(f).edge != p by {
                assert(fs@.contains(f as usize));
                let i = choose|i: int| 0 <= i < fs.len() && fs@[i] == f as usize;
                assert(self.fc(fs@[i] as int).edge != p);
            }
        }
        false
    }

    /// Whether walking around from the half edge `s` comes back to it (see
    /// `orbit_closes_in`).
    pub fn orbit_closes_check(&self, s: EdgePtr) -> (res: bool)
        requires
            self.wf(),
            self.edge_live(s as int),
        ensures
            res == orbit_closes_in(self.edges@, s as int),
    {
        let ghost es = self.edges@;
        let n = self.edges.len();
        let mut cursor = s;
        let mut k: usize = 0;
        while k < n
            invariant
                self.wf(),
                es == self.edges@,
                k <= n,
                n == crate::data::pool::present(es).len(),
                self.edge_live(cursor as int),
                cursor == rot_pow_in(es, s as int, k as nat),
                forall|j: nat| 1 <= j <= k ==> #[trigger] rot_pow_in(es, s as int, j) != s,
            decreases n - k,
        {
            let twin = self.edge(cursor).twin;
            proof {
                assert(self.links_live(self.he(cursor as int)));
            }
            cursor = self.edge(twin).next;
            proof {
                assert(self.links_live(self.he(twin as int)));
            }
            k = k + 1;
            proof {
                assert(cursor == rot_pow_in(es, s as int, k as nat));
            }
            if cursor == s {
                proof {
                    let j: nat = k as nat;
                    assert(rot_pow_in(es, s as int, j) == s && j >= 1);
                }
                return true;
            }
        }
        proof {
            if orbit_closes_in(es, s as int) {
                let big = choose|big: nat| big >= 1 && #[trigger] rot_pow_in(es, s as int, big) == s;
                crate::data::pool::law_len_is_slots_minus_freed(self.edges);
                assert forall|j: nat| j <= n implies 0 <= #[trigger] rot_pow_in(es, s as int, j) < es.len()
                    && es[rot_pow_in(es, s as int, j)] is Some by {
                    self.lemma_rot_pow_live(s as int, j);
                    self.lemma_rot_pow_in(s as int, j);
                }
                let (i, j) = lemma_rot_pow_repeats(es, s as int, n as nat);
                if i == 0 {
                    assert(rot_pow_in(es, s as int, j) == s);
                } else if big <= n {
                    assert(rot_pow_in(es, s as int, big) != s);
                } else {
                    let t = lemma_rot_pow_periodic(es, s as int, i, j, big);
                    assert(rot_pow_in(es, s as int, t) == s);
                }
            }
        }
        false
    }

    /// Whether walking around the vertex `vp`, from its edge, comes back to
    /// where it started (see `disk_closes`).
    pub fn disk_closes_check(&self, vp: VertPtr) -> (res: bool)
        requires
            self.wf(),
            self.vert_live(vp as int),
        ensures
            res == self.disk_closes(vp as int),
    {
        proof {
            self.lemma_disk_closes_in(vp as int);
        }
        match self.vert(vp).edge {
            None => true,
            Some(s) => self.orbit_closes_check(s),
        }
    }
}

impl<P: Copy> Polyhedron<P> {
    /// The half edge `e` lies between two triangles: its loop and its
    /// twin's loop have three edges each. It counts for its pair of twins
    /// where its twin lies in a later slot.
    pub open spec fn between_triangles(&self, e: usize) -> bool {
        let twin = self.he(e as int).twin;
        e < twin && self.loop_seq(e as int).len() == 3 && self.loop_seq(twin as int).len() == 3
    }

    /// One half edge of each pair of twins that lies between two
    /// triangles, in slot order.
    pub fn edges_between_triangles(&self) -> (res: Vec<EdgePtr>)
        requires
            self.wf(),
        ensures
            res@ == crate::data::pool::present_ids(self.edges@).filter(|e: usize| self.between_triangles(e)),
    {
        let ids = self.edges.all_ids();
        let ghost pred = |e: usize| self.between_triangles(e);
        let mut res: Vec<EdgePtr> = Vec::new();
        let mut k: usize = 0;
        proof {
            crate::data::pool::law_len_is_slots_minus_freed(self.edges);
            crate::data::pool::lemma_present_ids_props(self.edges@);
        }
        while k < ids.len()
            invariant
                self.wf(),
                ids@ == crate::data::pool::present_ids(self.edges@),
                forall|i: int| 0 <= i < ids.len() ==> #[trigger] self.edge_live(ids@[i] as int),
                pred == (|e: usize| self.between_triangles(e)),
                k <= ids.len(),
                res@ == ids@.take(k as int).filter(pred),
            decreases ids.len() - k,
        {
            let ep = ids[k];
            proof {
                assert(ids@.take(k + 1) == ids@.take(k as int).push(ep));
                ids@.take(k as int).lemma_filter_push(ep, pred);
                assert(self.edge_live(ep as int));
            }
            let twin = self.edge(ep).twin;
            if ep < twin && self.get_loop(ep).len() == 3 && self.get_loop(twin).len() == 3 {
                res.push(ep);
            }
            k = k + 1;
        }
        proof {
            assert(ids@.take(k as int) == ids@);
        }
        res
    }
}

/// One of `items`, drawn by rand's `IndexedRandom::choose` with the
/// thread-local generator: `None` exactly for an empty list, else an entry of
/// the list. Which entry comes back is up to the generator, and left open.
#[verifier::external_body]
fn choose_random(items: &Vec<usize>) -> (r: Option<usize>)
    ensures
        r is None <==> items.len() == 0,
        r matches Some(x) ==> items@.contains(x),
{
    items.choose(&mut rand::rng()).copied()
}

impl<P: Copy> Polyhedron<P> {
    /// A half edge between two triangles (see `edges_between_triangles`),
    /// drawn at random; `None` where there is none.
    pub fn random_quad_candidate(&self) -> (res: Option<EdgePtr>)
        requires
            self.wf(),
        ensures
            res is None <==> self.quad_candidates().len() == 0,
            res matches Some(e) ==> self.edge_live(e as int) && self.between_triangles(e),
    {
        let candidates = self.edges_between_triangles();
        let res = choose_random(&candidates);
        proof {
            if let Some(e) = res {
                let ids = crate::data::pool::present_ids(self.edges@);
                let pred = |x: usize| self.between_triangles(x);
                ids.lemma_filter_contains_rev(pred, e);
                crate::data::pool::law_len_is_slots_minus_freed(self.edges);
                crate::data::pool::lemma_present_ids_props(self.edges@);
                let j = choose|j: int| 0 <= j < ids.len() && ids[j] == e;
                assert(self.edge_live(ids[j] as int));
                let k = choose|k: int| 0 <= k < candidates.len() && candidates@[k] == e;
                ids.lemma_filter_pred(pred, k);
            }
        }
        res
    }
}
impl<P: Copy> Polyhedron<P> {
    /// A copy of the polyhedron, slot for slot.
    fn copy(&self) -> (c: Self)
        ensures
            c.verts@ == self.verts@,
            c.edges@ == self.edges@,
            c.faces@ == self.faces@,
            c.verts.wf() == self.verts.wf(),
            c.edges.wf() == self.edges.wf(),
            c.faces.wf() == self.faces.wf(),
            c.wf() == self.wf(),
    {
        let c = Polyhedron { verts: self.verts.copy(), edges: self.edges.copy(), faces: self.faces.copy() };
        proof {
            assert forall|e: int| #[trigger] c.he(e) == self.he(e) && (c.edge_live(e) <==> self.edge_live(e)) by {}
            assert forall|v: int| #[trigger] c.vx(v) == self.vx(v) && (c.vert_live(v) <==> self.vert_live(v)) by {}
            assert forall|f: int| #[trigger] c.fc(f) == self.fc(f) && (c.face_live(f) <==> self.face_live(f)) by {}
            if self.wf() {
                assert forall|e: int| #![trigger c.he(e)] c.edge_live(e) implies c.links_live(c.he(e)) by {
                    assert(self.links_live(self.he(e)));
                }
                assert forall|v: int| #![trigger c.vx(v)] c.vert_live(v) implies (c.vx(v).edge matches Some(x) ==> c.edge_live(x as int)) by {
                    assert(self.vx(v) == c.vx(v));
                }
                assert forall|f: int| #![trigger c.fc(f)] c.face_live(f) implies c.edge_live(c.fc(f).edge as int) by {
                    assert(self.fc(f) == c.fc(f));
                }
            }
            if c.wf() {
                assert forall|e: int| #![trigger self.he(e)] self.edge_live(e) implies self.links_live(self.he(e)) by {
                    assert(c.links_live(c.he(e)));
                }
                assert forall|v: int| #![trigger self.vx(v)] self.vert_live(v) implies (self.vx(v).edge matches Some(x) ==> self.edge_live(x as int)) by {
                    assert(self.vx(v) == c.vx(v));
                }
                assert forall|f: int| #![trigger self.fc(f)] self.face_live(f) implies self.edge_live(self.fc(f).edge as int) by {
                    assert(self.fc(f) == c.fc(f));
                }
            }
        }
        c
    }

    /// The half edges between two triangles, one of each pair of twins, in
    /// slot order (see `between_triangles`).
    pub open spec fn quad_candidates(&self) -> Seq<usize> {
        crate::data::pool::present_ids(self.edges@).filter(|e: usize| self.between_triangles(e))
    }

    /// `delete_edge(ep)` can be called: `ep` is not its own twin, neither
    /// it nor its twin borders a face, and the disks that the deletion
    /// relinks close, each in the state in which it is relinked.
    pub open spec fn deletable(&self, ep: int) -> bool {
        let h = self.he(ep);
        let th = self.he(h.twin as int);
        &&& h.twin != ep
        &&& h.face is None
        &&& th.face is None
        &&& (self.verts_after_delete(ep)[th.from as int]->0.edge matches Some(s) ==> orbit_closes_in(
            self.edges@,
            s as int,
        ))
        &&& (self.verts_after_delete(ep)[h.from as int]->0.edge matches Some(s) ==> orbit_closes_in(
            self.edges_relinked_a(ep),
            s as int,
        ))
    }

    /// Whether `delete_edge(ep)` can be called (see `deletable`).
    pub fn deletable_check(&self, ep: EdgePtr) -> (res: bool)
        requires
            self.wf(),
            self.edge_live(ep as int),
        ensures
            res == self.deletable(ep as int),
    {
        let h = *self.edge(ep);
        let twin = h.twin;
        proof {
            assert(self.links_live(self.he(ep as int)));
        }
        let th = *self.edge(twin);
        proof {
            assert(self.links_live(self.he(twin as int)));
        }
        if twin == ep || h.face.is_some() || th.face.is_some() {
            return false;
        }
        let va = th.from;
        let vb = h.from;
        let mut probe = self.copy();
        if h.next == twin {
            probe.set_vert_edge(va, None);
        } else {
            probe.set_vert_edge(va, Some(h.next));
        }
        if th.next == ep {
            probe.set_vert_edge(vb, None);
        } else {
            probe.set_vert_edge(vb, Some(th.next));
        }
        proof {
            assert(probe.verts@ =~= self.verts_after_delete(ep as int));
            probe.lemma_disk_closes_in(va as int);
        }
        if !probe.disk_closes_check(va) {
            return false;
        }
        probe.relink_leading(va, twin, h.next);
        proof {
            assert(probe.edges@ == self.edges_relinked_a(ep as int));
            probe.lemma_disk_closes_in(vb as int);
        }
        probe.disk_closes_check(vb)
    }

    /// `b` is `a` after `delete_edge(ep)` for a half edge `ep` of `a` that
    /// lies between two triangles and can be deleted.
    pub open spec fn quad_step(a: Polyhedron<P>, b: Polyhedron<P>) -> bool {
        exists|ep: usize|
            #[trigger] a.edge_live(ep as int) && a.wf() && a.between_triangles(ep) && a.deletable(ep as int)
                && b.verts@ == a.verts_after_delete(ep as int) && b.edges@ == a.edges_relinked(ep as int).update(
                ep as int,
                None,
            ).update(a.he(ep as int).twin as int, None) && b.faces@ == a.faces@
    }

    /// `b` comes from `a` by `n` quad steps (see `quad_step`).
    pub open spec fn quad_steps(a: Polyhedron<P>, b: Polyhedron<P>, n: nat) -> bool
        decreases n,
    {
        if n == 0 {
            a.verts@ == b.verts@ && a.edges@ == b.edges@ && a.faces@ == b.faces@
        } else {
            exists|mid: Polyhedron<P>| Self::quad_steps(a, mid, (n - 1) as nat) && #[trigger] Self::quad_step(mid, b)
        }
    }

    /// Deletes random half edges between two triangles, with their twins,
    /// one pair at a time with `delete_edge`, until none is left, and
    /// returns how many pairs it deleted; `None` if a million deletions were
    /// not enough. It also stops with `None` where the drawn edge cannot be
    /// deleted (see `deletable`), and where an element still points to a
    /// deleted half edge afterwards.
    pub fn make_random_quads(&mut self) -> (res: Option<usize>)
        requires
            old(self).wf(),
        ensures
            old(self).quad_candidates().len() == 0 ==> res == Some(0usize) && *final(self) == *old(self),
            res matches Some(i) ==> {
                &&& final(self).wf()
                &&& i < 1_000_000
                &&& Self::quad_steps(*old(self), *final(self), i as nat)
                &&& final(self).quad_candidates().len() == 0
            },
            res is None ==> {
                ||| final(self).wf() && Self::quad_steps(*old(self), *final(self), 1_000_000)
                ||| final(self).wf() && (exists|k: nat| k < 1_000_000 && Self::quad_steps(*old(self), *final(self), k))
                    && (exists|e: usize|
                    #[trigger] final(self).edge_live(e as int) && final(self).between_triangles(e)
                        && !final(self).deletable(e as int))
                ||| !final(self).wf() && exists|k: nat| 1 <= k <= 1_000_000 && Self::quad_steps(*old(self), *final(self), k)
            },
    {
        let ghost start = *self;
        let mut i: usize = 0;
        while i < 1_000_000
            invariant
                self.wf(),
                i <= 1_000_000,
                Self::quad_steps(start, *self, i as nat),
                i == 0 ==> *self == start,
                start.quad_candidates().len() == 0 ==> i == 0,
                start == *old(self),
            decreases 1_000_000 - i,
        {
            let ep = match self.random_quad_candidate() {
                None => {
                    return Some(i);
                },
                Some(ep) => ep,
            };
            if !self.deletable_check(ep) {
                proof {
                    let k: nat = i as nat;
                    assert(k < 1_000_000 && Self::quad_steps(start, *self, k));
                }
                return None;
            }
            let twin = self.edge(ep).twin;
            let ghost before = *self;
            self.delete_edge(ep);
            proof {
                assert(before.edge_live(ep as int) && before.wf() && before.between_triangles(ep) && before.deletable(ep as int));
                assert(Self::quad_step(before, *self));
                assert(Self::quad_steps(start, before, i as nat) && Self::quad_step(before, *self));
                assert(Self::quad_steps(start, *self, (i + 1) as nat));
            }
            if self.holds_edge_check(ep) || self.holds_edge_check(twin) {
                proof {
                    let k: nat = (i + 1) as nat;
                    assert(1 <= k <= 1_000_000 && Self::quad_steps(start, *self, k));
                }
                return None;
            }
            i = i + 1;
        }
        None
    }
}

} // verus!
