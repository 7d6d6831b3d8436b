//! Moving the elements of a polyhedron to other slots: every pointer that
//! the elements hold moves with them.
use vstd::prelude::*;
use std::collections::HashMap;
use crate::data::pool::{Pool, present, present_ids, refactor_map};
use crate::solid::polyhedron::{EdgePtr, Face, HalfEdge, Polyhedron, PtrError, PtrKind, Vert};

verus! {

/// The vertex `v`, its edge pointer moved by `em`.
pub open spec fn remap_vert<P>(v: Vert<P>, em: Map<usize, usize>) -> Vert<P> {
    Vert {
        pos: v.pos,
        edge: match v.edge {
            Some(e) => Some(em[e]),
            None => None,
        },
    }
}

/// The half edge `h`, its pointers moved by `vm`, `em` and `fm`.
pub open spec fn remap_edge(h: HalfEdge, vm: Map<usize, usize>, em: Map<usize, usize>, fm: Map<usize, usize>) -> HalfEdge {
    HalfEdge {
        from: vm[h.from],
        next: em[h.next],
        twin: em[h.twin],
        face: match h.face {
            Some(f) => Some(fm[f]),
            None => None,
        },
    }
}

/// The face `f`, its edge pointer moved by `em`.
pub open spec fn remap_face<P>(f: Face<P>, em: Map<usize, usize>) -> Face<P> {
    Face { edge: em[f.edge], center: f.center, normal: f.normal }
}

/// Every pointer that the half edge `h` holds is a key of its map.
pub open spec fn edge_resolves(h: HalfEdge, vm: Map<usize, usize>, em: Map<usize, usize>, fm: Map<usize, usize>) -> bool {
    &&& vm.contains_key(h.from)
    &&& em.contains_key(h.next)
    &&& em.contains_key(h.twin)
    &&& (h.face matches Some(f) ==> fm.contains_key(f))
}

/// The half edge `h` holds the pointer that `err` names, and its map lacks
/// it.
pub open spec fn edge_misses(h: HalfEdge, err: PtrError, vm: Map<usize, usize>, em: Map<usize, usize>, fm: Map<usize, usize>) -> bool {
    match err.kind {
        PtrKind::Vert => h.from == err.expected && !vm.contains_key(err.expected),
        PtrKind::Edge => (h.next == err.expected || h.twin == err.expected) && !em.contains_key(err.expected),
        PtrKind::Face => h.face == Some(err.expected) && !fm.contains_key(err.expected),
    }
}

/// The edge pointer of the vertex `v`, where it has one, is a key of `em`.
pub open spec fn vert_resolves<P>(v: Vert<P>, em: Map<usize, usize>) -> bool {
    v.edge matches Some(e) ==> em.contains_key(e)
}

/// The first pointer of the half edge `h`, in the order `from`, `next`,
/// `twin`, `face`, that its map lacks, as the error that names it.
pub open spec fn edge_first_miss(h: HalfEdge, vm: Map<usize, usize>, em: Map<usize, usize>, fm: Map<usize, usize>) -> PtrError {
    if !vm.contains_key(h.from) {
        PtrError { kind: PtrKind::Vert, expected: h.from }
    } else if !em.contains_key(h.next) {
        PtrError { kind: PtrKind::Edge, expected: h.next }
    } else if !em.contains_key(h.twin) {
        PtrError { kind: PtrKind::Edge, expected: h.twin }
    } else {
        PtrError { kind: PtrKind::Face, expected: h.face->0 }
    }
}

/// Position `k` holds the first vertex of `s` whose edge pointer `em` lacks.
pub open spec fn first_vert_miss<P>(s: Seq<Vert<P>>, em: Map<usize, usize>, k: int) -> bool {
    &&& 0 <= k < s.len()
    &&& !vert_resolves(s[k], em)
    &&& forall|j: int| 0 <= j < k ==> vert_resolves(#[trigger] s[j], em)
}

/// Position `k` holds the first half edge of `s` with a pointer that a map
/// lacks.
pub open spec fn first_edge_miss(s: Seq<HalfEdge>, vm: Map<usize, usize>, em: Map<usize, usize>, fm: Map<usize, usize>, k: int) -> bool {
    &&& 0 <= k < s.len()
    &&& !edge_resolves(s[k], vm, em, fm)
    &&& forall|j: int| 0 <= j < k ==> edge_resolves(#[trigger] s[j], vm, em, fm)
}

/// Position `k` holds the first face of `s` whose edge pointer `em` lacks.
pub open spec fn first_face_miss<P>(s: Seq<Face<P>>, em: Map<usize, usize>, k: int) -> bool {
    &&& 0 <= k < s.len()
    &&& !em.contains_key(s[k].edge)
    &&& forall|j: int| 0 <= j < k ==> em.contains_key(#[trigger] s[j].edge)
}

/// The half edge `h` leads to `p`, as its next edge or its twin.
pub open spec fn leads_to(h: HalfEdge, p: EdgePtr) -> bool {
    h.next == p || h.twin == p
}

/// Some slot of `s` is empty.
pub open spec fn has_hole<T>(s: Seq<Option<T>>) -> bool {
    exists|i: int| 0 <= i < s.len() && #[trigger] s[i] is None
}

/// The value of key `k` in `m`, if it is there.
fn lookup(m: &HashMap<usize, usize>, k: usize) -> (r: Option<usize>)
    ensures
        r == (if m@.contains_key(k) { Some(m@[k]) } else { None }),
{
    broadcast use vstd::std_specs::hash::group_hash_axioms;

    match m.get(&k) {
        Some(v) => Some(*v),
        None => None,
    }
}

/// Moves the edge pointer of each vertex of `verts` (all slots filled) by
/// `em`, in slot order; stops at the first one that `em` lacks.
fn remap_verts<P: Copy>(verts: &mut Pool<Vert<P>>, em: &HashMap<usize, usize>) -> (res: Result<(), PtrError>)
    requires
        old(verts).wf(),
        forall|k: int| 0 <= k < old(verts)@.len() ==> #[trigger] old(verts)@[k] is Some,
    ensures
        final(verts).wf(),
        res is Ok <==> forall|k: int|
            0 <= k < old(verts)@.len() ==> (#[trigger] old(verts)@[k]->0.edge matches Some(e) ==> em@.contains_key(e)),
        res is Ok ==> final(verts)@ == old(verts)@.map_values(|o: Option<Vert<P>>| Some(remap_vert(o->0, em@))),
        res matches Err(err) ==> err.kind == PtrKind::Edge && !em@.contains_key(err.expected) && exists|k: int|
            0 <= k < old(verts)@.len() && #[trigger] old(verts)@[k]->0.edge == Some(err.expected),
        res matches Err(err) ==> exists|k: int|
            first_vert_miss(old(verts)@.map_values(|o: Option<Vert<P>>| o->0), em@, k)
                && err == (PtrError { kind: PtrKind::Edge, expected: (#[trigger] old(verts)@[k])->0.edge->0 }),
{
    let ghost s = verts@;
    let n = verts.len();
    proof {
        crate::data::pool::law_len_is_slots_minus_freed(*verts);
        if verts.free_stack().len() > 0 {
            assert(verts@[verts.free_stack()[0] as int] is None);
        }
    }
    let mut i: usize = 0;
    while i < n
        invariant
            verts.wf(),
            s == old(verts)@,
            n == s.len(),
            verts@.len() == n,
            i <= n,
            forall|k: int| 0 <= k < n ==> #[trigger] s[k] is Some,
            forall|k: int| 0 <= k < i ==> #[trigger] verts@[k] == Some(remap_vert(s[k]->0, em@)),
            forall|k: int| i <= k < n ==> #[trigger] verts@[k] == s[k],
            forall|k: int| 0 <= k < i ==> (#[trigger] s[k]->0.edge matches Some(e) ==> em@.contains_key(e)),
        decreases n - i,
    {
        let v = *verts.get(i).unwrap();
        proof {
            assert(verts@[i as int] == s[i as int]);
        }
        let edge = match v.edge {
            Some(e) => match lookup(em, e) {
                Some(p) => Some(p),
                None => {
                    proof {
                        assert(s[i as int]->0.edge == Some(e));
                        let t = s.map_values(|o: Option<Vert<P>>| o->0);
                        assert(first_vert_miss(t, em@, i as int));
                    }
                    return Err(PtrError::new(PtrKind::Edge, e));
                },
            },
            None => None,
        };
        verts.set(i, Vert { pos: v.pos, edge });
        i = i + 1;
    }
    proof {
        assert(verts@ =~= s.map_values(|o: Option<Vert<P>>| Some(remap_vert(o->0, em@))));
    }
    Ok(())
}

/// Moves the pointers of each half edge of `edges` (all slots filled) by
/// `vm`, `em` and `fm`, in slot order; stops at the first one that a map
/// lacks.
fn remap_edges(
    edges: &mut Pool<HalfEdge>,
    vm: &HashMap<usize, usize>,
    em: &HashMap<usize, usize>,
    fm: &HashMap<usize, usize>,
) -> (res: Result<(), PtrError>)
    requires
        old(edges).wf(),
        forall|k: int| 0 <= k < old(edges)@.len() ==> #[trigger] old(edges)@[k] is Some,
    ensures
        final(edges).wf(),
        res is Ok <==> forall|k: int|
            0 <= k < old(edges)@.len() ==> edge_resolves(#[trigger] old(edges)@[k]->0, vm@, em@, fm@),
        res is Ok ==> final(edges)@ == old(edges)@.map_values(
            |o: Option<HalfEdge>| Some(remap_edge(o->0, vm@, em@, fm@)),
        ),
        res matches Err(err) ==> exists|k: int|
            0 <= k < old(edges)@.len() && #[trigger] edge_misses(old(edges)@[k]->0, err, vm@, em@, fm@),
        res matches Err(err) ==> exists|k: int|
            first_edge_miss(old(edges)@.map_values(|o: Option<HalfEdge>| o->0), vm@, em@, fm@, k)
                && err == edge_first_miss((#[trigger] old(edges)@[k])->0, vm@, em@, fm@),
{
    let ghost s = edges@;
    let n = edges.len();
    proof {
        crate::data::pool::law_len_is_slots_minus_freed(*edges);
        if edges.free_stack().len() > 0 {
            assert(edges@[edges.free_stack()[0] as int] is None);
        }
    }
    let mut i: usize = 0;
    while i < n
        invariant
            edges.wf(),
            s == old(edges)@,
            n == s.len(),
            edges@.len() == n,
            i <= n,
            forall|k: int| 0 <= k < n ==> #[trigger] s[k] is Some,
            forall|k: int| 0 <= k < i ==> #[trigger] edges@[k] == Some(remap_edge(s[k]->0, vm@, em@, fm@)),
            forall|k: int| i <= k < n ==> #[trigger] edges@[k] == s[k],
            forall|k: int| 0 <= k < i ==> edge_resolves(#[trigger] s[k]->0, vm@, em@, fm@),
        decreases n - i,
    {
        let h = *edges.get(i).unwrap();
        proof {
            assert(edges@[i as int] == s[i as int]);
            assert(s[i as int]->0 == h);
        }
        let from = match lookup(vm, h.from) {
            Some(p) => p,
            None => {
                let err = PtrError::new(PtrKind::Vert, h.from);
                proof {
                    assert(edge_misses(s[i as int]->0, err, vm@, em@, fm@));
                    let t = s.map_values(|o: Option<HalfEdge>| o->0);
                    assert(first_edge_miss(t, vm@, em@, fm@, i as int));
                }
                return Err(err);
            },
        };
        let next = match lookup(em, h.next) {
            Some(p) => p,
            None => {
                let err = PtrError::new(PtrKind::Edge, h.next);
                proof {
                    assert(edge_misses(s[i as int]->0, err, vm@, em@, fm@));
                    let t = s.map_values(|o: Option<HalfEdge>| o->0);
                    assert(first_edge_miss(t, vm@, em@, fm@, i as int));
                }
                return Err(err);
            },
        };
        let twin = match lookup(em, h.twin) {
            Some(p) => p,
            None => {
                let err = PtrError::new(PtrKind::Edge, h.twin);
                proof {
                    assert(edge_misses(s[i as int]->0, err, vm@, em@, fm@));
                    let t = s.map_values(|o: Option<HalfEdge>| o->0);
                    assert(first_edge_miss(t, vm@, em@, fm@, i as int));
                }
                return Err(err);
            },
        };
        let face = match h.face {
            Some(f) => match lookup(fm, f) {
                Some(p) => Some(p),
                None => {
                    let err = PtrError::new(PtrKind::Face, f);
                    proof {
                        assert(edge_misses(s[i as int]->0, err, vm@, em@, fm@));
                        let t = s.map_values(|o: Option<HalfEdge>| o->0);
                        assert(first_edge_miss(t, vm@, em@, fm@, i as int));
                    }
                    return Err(err);
                },
            },
            None => None,
        };
        edges.set(i, HalfEdge { from, next, twin, face });
        i = i + 1;
    }
    proof {
        assert(edges@ =~= s.map_values(|o: Option<HalfEdge>| Some(remap_edge(o->0, vm@, em@, fm@))));
    }
    Ok(())
}

/// Moves the edge pointer of each face of `faces` (all slots filled) by
/// `em`, in slot order; stops at the first one that `em` lacks.
fn remap_faces<P: Copy>(faces: &mut Pool<Face<P>>, em: &HashMap<usize, usize>) -> (res: Result<(), PtrError>)
    requires
        old(faces).wf(),
        forall|k: int| 0 <= k < old(faces)@.len() ==> #[trigger] old(faces)@[k] is Some,
    ensures
        final(faces).wf(),
        res is Ok <==> forall|k: int| 0 <= k < old(faces)@.len() ==> em@.contains_key(#[trigger] old(faces)@[k]->0.edge),
        res is Ok ==> final(faces)@ == old(faces)@.map_values(|o: Option<Face<P>>| Some(remap_face(o->0, em@))),
        res matches Err(err) ==> err.kind == PtrKind::Edge && !em@.contains_key(err.expected) && exists|k: int|
            0 <= k < old(faces)@.len() && #[trigger] old(faces)@[k]->0.edge == err.expected,
        res matches Err(err) ==> exists|k: int|
            first_face_miss(old(faces)@.map_values(|o: Option<Face<P>>| o->0), em@, k)
                && err == (PtrError { kind: PtrKind::Edge, expected: (#[trigger] old(faces)@[k])->0.edge }),
{
    let ghost s = faces@;
    let n = faces.len();
    proof {
        crate::data::pool::law_len_is_slots_minus_freed(*faces);
        if faces.free_stack().len() > 0 {
            assert(faces@[faces.free_stack()[0] as int] is None);
        }
    }
    let mut i: usize = 0;
    while i < n
        invariant
            faces.wf(),
            s == old(faces)@,
            n == s.len(),
            faces@.len() == n,
            i <= n,
            forall|k: int| 0 <= k < n ==> #[trigger] s[k] is Some,
            forall|k: int| 0 <= k < i ==> #[trigger] faces@[k] == Some(remap_face(s[k]->0, em@)),
            forall|k: int| i <= k < n ==> #[trigger] faces@[k] == s[k],
            forall|k: int| 0 <= k < i ==> em@.contains_key(#[trigger] s[k]->0.edge),
        decreases n - i,
    {
        let f = *faces.get(i).unwrap();
        proof {
            assert(faces@[i as int] == s[i as int]);
        }
        let edge = match lookup(em, f.edge) {
            Some(p) => p,
            None => {
                proof {
                    assert(s[i as int]->0.edge == f.edge);
                    let t = s.map_values(|o: Option<Face<P>>| o->0);
                    assert(first_face_miss(t, em@, i as int));
                }
                return Err(PtrError::new(PtrKind::Edge, f.edge));
            },
        };
        faces.set(i, Face { edge, center: f.center, normal: f.normal });
        i = i + 1;
    }
    proof {
        assert(faces@ =~= s.map_values(|o: Option<Face<P>>| Some(remap_face(o->0, em@))));
    }
    Ok(())
}


/// A filled slot of `s` is a key of its refactor mapping, which sends it
/// below the number of items.
proof fn lemma_moved_below<T>(s: Seq<Option<T>>, x: usize)
    requires
        s.len() <= usize::MAX,
    ensures
        refactor_map(s).contains_key(x) <==> x < s.len() && s[x as int] is Some,
        refactor_map(s).contains_key(x) ==> refactor_map(s)[x] < present(s).len(),
{
    if x < s.len() && s[x as int] is Some {
        crate::data::pool::lemma_present_rank(s, x as int);
    }
}

/// The refactor mapping sends a filled slot to the position of its item.
proof fn lemma_moved_to<T>(s: Seq<Option<T>>, p: usize)
    requires
        s.len() <= usize::MAX,
        p < s.len(),
        s[p as int] is Some,
    ensures
        refactor_map(s).contains_key(p),
        refactor_map(s)[p] < present(s).len(),
        present(s)[refactor_map(s)[p] as int] == s[p as int]->0,
{
    crate::data::pool::lemma_present_rank(s, p as int);
    crate::data::pool::lemma_present_ids_len(s.take(p as int));
}

impl<P: Copy> Polyhedron<P> {
    /// Every pointer held by a vertex, an edge or a face points to an
    /// element that exists.
    pub open spec fn links_resolve(&self) -> bool {
        &&& forall|e: int| #![trigger self.he(e)] self.edge_live(e) ==> self.links_live(self.he(e))
        &&& forall|v: int|
            #![trigger self.vx(v)]
            self.vert_live(v) ==> (self.vx(v).edge matches Some(e) ==> self.edge_live(e as int))
        &&& forall|f: int| #![trigger self.fc(f)] self.face_live(f) ==> self.edge_live(self.fc(f).edge as int)
    }

    /// `err` names a pointer that some element holds, of the kind it names,
    /// and that points to no element.
    pub open spec fn bad_ptr(&self, err: PtrError) -> bool {
        let p = err.expected;
        match err.kind {
            PtrKind::Vert => !self.vert_live(p as int) && exists|e: int| self.edge_live(e) && #[trigger] self.he(e).from == p,
            PtrKind::Edge => !self.edge_live(p as int) && ((exists|v: int|
                self.vert_live(v) && #[trigger] self.vx(v).edge == Some(p)) || (exists|e: int|
                self.edge_live(e) && #[trigger] leads_to(self.he(e), p)) || (exists|f: int|
                self.face_live(f) && #[trigger] self.fc(f).edge == p)),
            PtrKind::Face => !self.face_live(p as int) && exists|e: int|
                self.edge_live(e) && #[trigger] self.he(e).face == Some(p),
        }
    }

    /// `err` names the first pointer, in the order in which `refactor`
    /// moves them, that points to no element: the vertices' edge pointers
    /// first, then each half edge's `from`, `next`, `twin` and `face`, then
    /// the faces' edge pointers, each pool taken in slot order.
    pub open spec fn first_bad_ptr(&self, err: PtrError) -> bool {
        let vm = refactor_map(self.verts@);
        let em = refactor_map(self.edges@);
        let fm = refactor_map(self.faces@);
        let pv = present(self.verts@);
        let pe = present(self.edges@);
        let pf = present(self.faces@);
        let verts_ok = forall|k: int| 0 <= k < pv.len() ==> vert_resolves(#[trigger] pv[k], em);
        let edges_ok = forall|k: int| 0 <= k < pe.len() ==> edge_resolves(#[trigger] pe[k], vm, em, fm);
        ||| exists|k: int|
            first_vert_miss(pv, em, k) && err == (PtrError { kind: PtrKind::Edge, expected: (#[trigger] pv[k]).edge->0 })
        ||| verts_ok && exists|k: int|
            first_edge_miss(pe, vm, em, fm, k) && err == edge_first_miss(#[trigger] pe[k], vm, em, fm)
        ||| verts_ok && edges_ok && exists|k: int|
            first_face_miss(pf, em, k) && err == (PtrError { kind: PtrKind::Edge, expected: (#[trigger] pf[k]).edge })
    }

    /// Some pool has an empty slot.
    pub open spec fn fragmented(&self) -> bool {
        has_hole(self.verts@) || has_hole(self.edges@) || has_hole(self.faces@)
    }

    /// Whether some pool has an empty slot.
    pub fn data_is_fragmented(&self) -> (res: bool)
        requires
            self.verts.wf(),
            self.edges.wf(),
            self.faces.wf(),
        ensures
            res == self.fragmented(),
    {
        self.verts.is_fragmented() || self.edges.is_fragmented() || self.faces.is_fragmented()
    }

    /// Cleans up all empty slots of the three pools, where there are any:
    /// the elements move to the front, in order, and every pointer they hold
    /// moves with what it points to. Fails, naming a pointer that points to
    /// no element, if there is such a pointer (and an empty slot).
    pub fn refactor(self) -> (res: Result<Self, PtrError>)
        requires
            self.verts.wf(),
            self.edges.wf(),
            self.faces.wf(),
        ensures
            res is Ok <==> !self.fragmented() || self.links_resolve(),
            !self.fragmented() ==> res == Ok::<Self, PtrError>(self),
            res matches Err(err) ==> self.bad_ptr(err),
            res matches Err(err) ==> self.first_bad_ptr(err),
            res matches Ok(h) ==> self.wf() ==> h.wf(),
            res matches Ok(h) ==> self.fragmented() ==> {
                let vm = refactor_map(self.verts@);
                let em = refactor_map(self.edges@);
                let fm = refactor_map(self.faces@);
                &&& h.wf()
                &&& h.verts@ == present(self.verts@).map_values(|v: Vert<P>| Some(remap_vert(v, em)))
                &&& h.edges@ == present(self.edges@).map_values(|e: HalfEdge| Some(remap_edge(e, vm, em, fm)))
                &&& h.faces@ == present(self.faces@).map_values(|f: Face<P>| Some(remap_face(f, em)))
                &&& forall|v: usize|
                    self.vert_live(v as int) ==> h.vert_live(#[trigger] vm[v] as int) && h.vx(vm[v] as int)
                        == remap_vert(self.vx(v as int), em)
                &&& forall|e: usize|
                    self.edge_live(e as int) ==> h.edge_live(#[trigger] em[e] as int) && h.he(em[e] as int)
                        == remap_edge(self.he(e as int), vm, em, fm)
                &&& forall|f: usize|
                    self.face_live(f as int) ==> h.face_live(#[trigger] fm[f] as int) && h.fc(fm[f] as int)
                        == remap_face(self.fc(f as int), em)
            },
    {
        if !self.data_is_fragmented() {
            return Ok(self);
        }
        let ghost old_self = self;
        let vm = self.verts.get_refactor_mapping();
        let em = self.edges.get_refactor_mapping();
        let fm = self.faces.get_refactor_mapping();
        let mut h = self;
        h.verts.refactor();
        h.edges.refactor();
        h.faces.refactor();
        let ghost cv = h.verts@;
        let ghost ce = h.edges@;
        let ghost cf = h.faces@;
        proof {
            crate::data::pool::law_refactor_keeps_items(old_self.verts@);
            crate::data::pool::law_refactor_keeps_items(old_self.edges@);
            crate::data::pool::law_refactor_keeps_items(old_self.faces@);
        }
        match remap_verts(&mut h.verts, &em) {
            Ok(()) => {},
            Err(err) => {
                proof {
                    old_self.lemma_vert_miss(err);
                    let t = cv.map_values(|o: Option<Vert<P>>| o->0);
                    assert(t =~= present(old_self.verts@)) by {
                        assert forall|k: int| 0 <= k < t.len() implies t[k] == present(old_self.verts@)[k] by {
                            assert(cv[k]->0 == present(old_self.verts@)[k]);
                        }
                    }
                    let k = choose|k: int|
                        first_vert_miss(t, em@, k) && err == (PtrError { kind: PtrKind::Edge, expected: (#[trigger] cv[k])->0.edge->0 });
                    assert(present(old_self.verts@)[k] == cv[k]->0);
                }
                return Err(err);
            },
        }
        match remap_edges(&mut h.edges, &vm, &em, &fm) {
            Ok(()) => {},
            Err(err) => {
                proof {
                    old_self.lemma_edge_miss(err);
                    let t = ce.map_values(|o: Option<HalfEdge>| o->0);
                    assert(t =~= present(old_self.edges@)) by {
                        assert forall|k: int| 0 <= k < t.len() implies t[k] == present(old_self.edges@)[k] by {
                            assert(ce[k]->0 == present(old_self.edges@)[k]);
                        }
                    }
                    assert forall|k: int| 0 <= k < present(old_self.verts@).len() implies vert_resolves(
                        #[trigger] present(old_self.verts@)[k],
                        em@,
                    ) by {
                        assert(cv[k]->0 == present(old_self.verts@)[k]);
                    }
                    let k = choose|k: int|
                        first_edge_miss(t, vm@, em@, fm@, k) && err == edge_first_miss((#[trigger] ce[k])->0, vm@, em@, fm@);
                    assert(present(old_self.edges@)[k] == ce[k]->0);
                }
                return Err(err);
            },
        }
        match remap_faces(&mut h.faces, &em) {
            Ok(()) => {},
            Err(err) => {
                proof {
                    old_self.lemma_face_miss(err);
                    let t = cf.map_values(|o: Option<Face<P>>| o->0);
                    assert(t =~= present(old_self.faces@)) by {
                        assert forall|k: int| 0 <= k < t.len() implies t[k] == present(old_self.faces@)[k] by {
                            assert(cf[k]->0 == present(old_self.faces@)[k]);
                        }
                    }
                    assert forall|k: int| 0 <= k < present(old_self.verts@).len() implies vert_resolves(
                        #[trigger] present(old_self.verts@)[k],
                        em@,
                    ) by {
                        assert(cv[k]->0 == present(old_self.verts@)[k]);
                    }
                    assert forall|k: int| 0 <= k < present(old_self.edges@).len() implies edge_resolves(
                        #[trigger] present(old_self.edges@)[k],
                        vm@,
                        em@,
                        fm@,
                    ) by {
                        assert(ce[k]->0 == present(old_self.edges@)[k]);
                    }
                    let k = choose|k: int|
                        first_face_miss(t, em@, k) && err == (PtrError { kind: PtrKind::Edge, expected: (#[trigger] cf[k])->0.edge });
                    assert(present(old_self.faces@)[k] == cf[k]->0);
                }
                return Err(err);
            },
        }
        proof {
            assert forall|k: int| 0 <= k < present(old_self.verts@).len() implies (#[trigger] present(
                old_self.verts@,
            )[k].edge matches Some(e) ==> em@.contains_key(e)) by {
                assert(cv[k]->0 == present(old_self.verts@)[k]);
            }
            assert forall|k: int| 0 <= k < present(old_self.edges@).len() implies edge_resolves(
                #[trigger] present(old_self.edges@)[k],
                vm@,
                em@,
                fm@,
            ) by {
                assert(ce[k]->0 == present(old_self.edges@)[k]);
            }
            assert forall|k: int| 0 <= k < present(old_self.faces@).len() implies em@.contains_key(
                #[trigger] present(old_self.faces@)[k].edge,
            ) by {
                assert(cf[k]->0 == present(old_self.faces@)[k]);
            }
            old_self.lemma_all_resolve();
            assert(h.verts@ =~= present(old_self.verts@).map_values(|v: Vert<P>| Some(remap_vert(v, em@))));
            assert(h.edges@ =~= present(old_self.edges@).map_values(|e: HalfEdge| Some(remap_edge(e, vm@, em@, fm@))));
            assert(h.faces@ =~= present(old_self.faces@).map_values(|f: Face<P>| Some(remap_face(f, em@))));
            old_self.lemma_refactored_wf(h);
            crate::data::pool::law_len_is_slots_minus_freed(old_self.verts);
            crate::data::pool::law_len_is_slots_minus_freed(old_self.edges);
            crate::data::pool::law_len_is_slots_minus_freed(old_self.faces);
            assert forall|v: usize| old_self.vert_live(v as int) implies h.vert_live(#[trigger] refactor_map(old_self.verts@)[v] as int) && h.vx(
                refactor_map(old_self.verts@)[v] as int,
            ) == remap_vert(old_self.vx(v as int), refactor_map(old_self.edges@)) by {
                lemma_moved_to(old_self.verts@, v);
            }
            assert forall|e: usize| old_self.edge_live(e as int) implies h.edge_live(#[trigger] refactor_map(old_self.edges@)[e] as int) && h.he(
                refactor_map(old_self.edges@)[e] as int,
            ) == remap_edge(old_self.he(e as int), refactor_map(old_self.verts@), refactor_map(old_self.edges@), refactor_map(old_self.faces@)) by {
                lemma_moved_to(old_self.edges@, e);
            }
            assert forall|f: usize| old_self.face_live(f as int) implies h.face_live(#[trigger] refactor_map(old_self.faces@)[f] as int) && h.fc(
                refactor_map(old_self.faces@)[f] as int,
            ) == remap_face(old_self.fc(f as int), refactor_map(old_self.edges@)) by {
                lemma_moved_to(old_self.faces@, f);
            }
        }
        Ok(h)
    }
}


impl<P: Copy> Polyhedron<P> {
    /// The `k`-th item of a pool is held by a live slot.
    proof fn lemma_item_slot<T>(s: Seq<Option<T>>, k: int) -> (i: int)
        requires
            s.len() <= usize::MAX,
            0 <= k < present(s).len(),
        ensures
            0 <= i < s.len(),
            s[i] == Some(present(s)[k]),
            i == present_ids(s)[k],
    {
        crate::data::pool::lemma_present_ids_len(s);
        present_ids(s)[k] as int
    }

    /// A live slot holds some item of its pool.
    proof fn lemma_slot_item<T>(s: Seq<Option<T>>, i: int) -> (k: int)
        requires
            s.len() <= usize::MAX,
            0 <= i < s.len(),
            s[i] is Some,
        ensures
            0 <= k < present(s).len(),
            s[i] == Some(present(s)[k]),
    {
        crate::data::pool::lemma_present_ids_props(s);
        let k = choose|k: int| 0 <= k < present_ids(s).len() && present_ids(s)[k] == i as usize;
        k
    }

    proof fn lemma_bad_ptr_breaks(&self, err: PtrError)
        requires
            self.bad_ptr(err),
        ensures
            !self.links_resolve(),
    {
        let p = err.expected;
        match err.kind {
            PtrKind::Vert => {
                let e = choose|e: int| self.edge_live(e) && #[trigger] self.he(e).from == p;
                assert(!self.links_live(self.he(e)));
            },
            PtrKind::Edge => {
                if exists|v: int| self.vert_live(v) && #[trigger] self.vx(v).edge == Some(p) {
                    let v = choose|v: int| self.vert_live(v) && #[trigger] self.vx(v).edge == Some(p);
                    assert(self.vert_live(v));
                } else if exists|e: int| self.edge_live(e) && #[trigger] leads_to(self.he(e), p) {
                    let e = choose|e: int| self.edge_live(e) && #[trigger] leads_to(self.he(e), p);
                    assert(!self.edge_live(p as int));
                    if self.he(e).next == p {
                        assert(!self.edge_live(self.he(e).next as int));
                    } else {
                        assert(!self.edge_live(self.he(e).twin as int));
                    }
                    assert(!self.links_live(self.he(e)));
                } else {
                    let f = choose|f: int| self.face_live(f) && #[trigger] self.fc(f).edge == p;
                    assert(self.face_live(f));
                }
            },
            PtrKind::Face => {
                let e = choose|e: int| self.edge_live(e) && #[trigger] self.he(e).face == Some(p);
                assert(!self.links_live(self.he(e)));
            },
        }
    }

    /// A vertex whose edge pointer has no new slot names a bad pointer.
    proof fn lemma_vert_miss(&self, err: PtrError)
        requires
            self.verts.wf(),
            self.edges.wf(),
            err.kind == PtrKind::Edge,
            !refactor_map(self.edges@).contains_key(err.expected),
            exists|k: int|
                0 <= k < present(self.verts@).len() && #[trigger] present(self.verts@)[k].edge == Some(err.expected),
        ensures
            self.bad_ptr(err),
            !self.links_resolve(),
    {
        crate::data::pool::law_len_is_slots_minus_freed(self.verts);
        crate::data::pool::law_len_is_slots_minus_freed(self.edges);
        let k = choose|k: int|
            0 <= k < present(self.verts@).len() && #[trigger] present(self.verts@)[k].edge == Some(err.expected);
        let v = Self::lemma_item_slot(self.verts@, k);
        lemma_moved_below(self.edges@, err.expected);
        assert(self.vert_live(v) && self.vx(v).edge == Some(err.expected));
        self.lemma_bad_ptr_breaks(err);
    }

    /// A face whose edge pointer has no new slot names a bad pointer.
    proof fn lemma_face_miss(&self, err: PtrError)
        requires
            self.faces.wf(),
            self.edges.wf(),
            err.kind == PtrKind::Edge,
            !refactor_map(self.edges@).contains_key(err.expected),
            exists|k: int|
                0 <= k < present(self.faces@).len() && #[trigger] present(self.faces@)[k].edge == err.expected,
        ensures
            self.bad_ptr(err),
            !self.links_resolve(),
    {
        crate::data::pool::law_len_is_slots_minus_freed(self.faces);
        crate::data::pool::law_len_is_slots_minus_freed(self.edges);
        let k = choose|k: int|
            0 <= k < present(self.faces@).len() && #[trigger] present(self.faces@)[k].edge == err.expected;
        let f = Self::lemma_item_slot(self.faces@, k);
        lemma_moved_below(self.edges@, err.expected);
        assert(self.face_live(f) && self.fc(f).edge == err.expected);
        self.lemma_bad_ptr_breaks(err);
    }

    /// A half edge with a pointer that has no new slot names a bad pointer.
    proof fn lemma_edge_miss(&self, err: PtrError)
        requires
            self.verts.wf(),
            self.edges.wf(),
            self.faces.wf(),
            exists|k: int|
                0 <= k < present(self.edges@).len() && #[trigger] edge_misses(
                    present(self.edges@)[k],
                    err,
                    refactor_map(self.verts@),
                    refactor_map(self.edges@),
                    refactor_map(self.faces@),
                ),
        ensures
            self.bad_ptr(err),
            !self.links_resolve(),
    {
        crate::data::pool::law_len_is_slots_minus_freed(self.verts);
        crate::data::pool::law_len_is_slots_minus_freed(self.edges);
        crate::data::pool::law_len_is_slots_minus_freed(self.faces);
        let k = choose|k: int|
            0 <= k < present(self.edges@).len() && #[trigger] edge_misses(
                present(self.edges@)[k],
                err,
                refactor_map(self.verts@),
                refactor_map(self.edges@),
                refactor_map(self.faces@),
            );
        let e = Self::lemma_item_slot(self.edges@, k);
        assert(self.edge_live(e) && self.he(e) == present(self.edges@)[k]);
        lemma_moved_below(self.verts@, err.expected);
        lemma_moved_below(self.edges@, err.expected);
        lemma_moved_below(self.faces@, err.expected);
        match err.kind {
            PtrKind::Vert => assert(self.he(e).from == err.expected),
            PtrKind::Edge => assert(leads_to(self.he(e), err.expected)),
            PtrKind::Face => assert(self.he(e).face == Some(err.expected)),
        }
        self.lemma_bad_ptr_breaks(err);
    }

    /// Where every pointer of every item has a new slot, every pointer
    /// resolves.
    proof fn lemma_all_resolve(&self)
        requires
            self.verts.wf(),
            self.edges.wf(),
            self.faces.wf(),
            forall|k: int|
                0 <= k < present(self.verts@).len() ==> (#[trigger] present(self.verts@)[k].edge matches Some(e)
                    ==> refactor_map(self.edges@).contains_key(e)),
            forall|k: int|
                0 <= k < present(self.edges@).len() ==> edge_resolves(
                    #[trigger] present(self.edges@)[k],
                    refactor_map(self.verts@),
                    refactor_map(self.edges@),
                    refactor_map(self.faces@),
                ),
            forall|k: int|
                0 <= k < present(self.faces@).len() ==> refactor_map(self.edges@).contains_key(
                    #[trigger] present(self.faces@)[k].edge,
                ),
        ensures
            self.links_resolve(),
    {
        crate::data::pool::law_len_is_slots_minus_freed(self.verts);
        crate::data::pool::law_len_is_slots_minus_freed(self.edges);
        crate::data::pool::law_len_is_slots_minus_freed(self.faces);
        assert forall|e: int| #![trigger self.he(e)] self.edge_live(e) implies self.links_live(self.he(e)) by {
            let k = Self::lemma_slot_item(self.edges@, e);
            let h = present(self.edges@)[k];
            assert(edge_resolves(h, refactor_map(self.verts@), refactor_map(self.edges@), refactor_map(self.faces@)));
            lemma_moved_below(self.verts@, h.from);
            lemma_moved_below(self.edges@, h.next);
            lemma_moved_below(self.edges@, h.twin);
            if let Some(f) = h.face {
                lemma_moved_below(self.faces@, f);
            }
        }
        assert forall|v: int| #![trigger self.vx(v)] self.vert_live(v) implies (self.vx(v).edge matches Some(e)
            ==> self.edge_live(e as int)) by {
            let k = Self::lemma_slot_item(self.verts@, v);
            assert(present(self.verts@)[k] == self.vx(v));
            if let Some(e) = self.vx(v).edge {
                lemma_moved_below(self.edges@, e);
            }
        }
        assert forall|f: int| #![trigger self.fc(f)] self.face_live(f) implies self.edge_live(self.fc(f).edge as int) by {
            let k = Self::lemma_slot_item(self.faces@, f);
            assert(present(self.faces@)[k] == self.fc(f));
            lemma_moved_below(self.edges@, self.fc(f).edge);
        }
    }

    /// The refactored polyhedron is sound where the old one's pointers
    /// resolve.
    proof fn lemma_refactored_wf(&self, h: Self)
        requires
            self.verts.wf(),
            self.edges.wf(),
            self.faces.wf(),
            self.links_resolve(),
            h.verts.wf(),
            h.edges.wf(),
            h.faces.wf(),
            h.verts@ == present(self.verts@).map_values(|v: Vert<P>| Some(remap_vert(v, refactor_map(self.edges@)))),
            h.edges@ == present(self.edges@).map_values(
                |e: HalfEdge|
                    Some(remap_edge(e, refactor_map(self.verts@), refactor_map(self.edges@), refactor_map(self.faces@))),
            ),
            h.faces@ == present(self.faces@).map_values(|f: Face<P>| Some(remap_face(f, refactor_map(self.edges@)))),
        ensures
            h.wf(),
    {
        let vm = refactor_map(self.verts@);
        let em = refactor_map(self.edges@);
        let fm = refactor_map(self.faces@);
        crate::data::pool::law_len_is_slots_minus_freed(self.verts);
        crate::data::pool::law_len_is_slots_minus_freed(self.edges);
        crate::data::pool::law_len_is_slots_minus_freed(self.faces);
        assert forall|x: int| #![trigger h.he(x)] h.edge_live(x) implies h.links_live(h.he(x)) by {
            let e = Self::lemma_item_slot(self.edges@, x);
            let o = present(self.edges@)[x];
            assert(self.edge_live(e) && self.he(e) == o);
            assert(self.links_live(o));
            lemma_moved_below(self.verts@, o.from);
            lemma_moved_below(self.edges@, o.next);
            lemma_moved_below(self.edges@, o.twin);
            assert(h.he(x) == remap_edge(o, vm, em, fm));
            if let Some(f) = o.face {
                lemma_moved_below(self.faces@, f);
            }
        }
        assert forall|w: int| #![trigger h.vx(w)] h.vert_live(w) implies (h.vx(w).edge matches Some(x) ==> h.edge_live(
            x as int,
        )) by {
            let v = Self::lemma_item_slot(self.verts@, w);
            let o = present(self.verts@)[w];
            assert(self.vert_live(v) && self.vx(v) == o);
            assert(h.vx(w) == remap_vert(o, em));
            if let Some(e) = o.edge {
                lemma_moved_below(self.edges@, e);
            }
        }
        assert forall|g: int| #![trigger h.fc(g)] h.face_live(g) implies h.edge_live(h.fc(g).edge as int) by {
            let f = Self::lemma_item_slot(self.faces@, g);
            let o = present(self.faces@)[g];
            assert(self.face_live(f) && self.fc(f) == o);
            assert(h.fc(g) == remap_face(o, em));
            lemma_moved_below(self.edges@, o.edge);
        }
    }
}

/// The vertex `v`, its edge pointer shifted by `eo`.
pub open spec fn shift_vert<P>(v: Vert<P>, eo: int) -> Vert<P> {
    Vert {
        pos: v.pos,
        edge: match v.edge {
            Some(e) => Some((e + eo) as usize),
            None => None,
        },
    }
}

/// The half edge `h`, its pointers shifted by `vo`, `eo` and `fo`.
pub open spec fn shift_edge(h: HalfEdge, vo: int, eo: int, fo: int) -> HalfEdge {
    HalfEdge {
        from: (h.from + vo) as usize,
        next: (h.next + eo) as usize,
        twin: (h.twin + eo) as usize,
        face: match h.face {
            Some(f) => Some((f + fo) as usize),
            None => None,
        },
    }
}

/// The face `f`, its edge pointer shifted by `eo`.
pub open spec fn shift_face<P>(f: Face<P>, eo: int) -> Face<P> {
    Face { edge: (f.edge + eo) as usize, center: f.center, normal: f.normal }
}

/// The pointers of `h`, shifted by `vo`, `eo` and `fo`, are `usize` values.
pub open spec fn shift_fits(h: HalfEdge, vo: int, eo: int, fo: int) -> bool {
    &&& h.from + vo <= usize::MAX
    &&& h.next + eo <= usize::MAX
    &&& h.twin + eo <= usize::MAX
    &&& (h.face matches Some(f) ==> f + fo <= usize::MAX)
}

/// Every slot of `s` is filled.
pub open spec fn all_filled<T>(s: Seq<Option<T>>) -> bool {
    forall|k: int| 0 <= k < s.len() ==> #[trigger] s[k] is Some
}

/// Pushes the vertices of `src` (all slots filled) onto `dst` (no free
/// slot), their edge pointers shifted by `eo`.
fn append_verts<P: Copy>(dst: &mut Pool<Vert<P>>, src: &Pool<Vert<P>>, eo: usize)
    requires
        old(dst).wf(),
        old(dst).free_stack().len() == 0,
        src.wf(),
        all_filled(src@),
        old(dst)@.len() + src@.len() <= usize::MAX,
        forall|k: int| 0 <= k < src@.len() ==> (#[trigger] src@[k]->0.edge matches Some(e) ==> e + eo <= usize::MAX),
    ensures
        final(dst).wf(),
        final(dst).free_stack().len() == 0,
        final(dst)@ == old(dst)@ + src@.map_values(|o: Option<Vert<P>>| Some(shift_vert(o->0, eo as int))),
{
    let ghost d0 = dst@;
    proof {
        crate::data::pool::law_len_is_slots_minus_freed(*src);
        if src.free_stack().len() > 0 {
            assert(src@[src.free_stack()[0] as int] is None);
        }
    }
    let n = src.len();
    let mut i: usize = 0;
    while i < n
        invariant
            dst.wf(),
            dst.free_stack().len() == 0,
            all_filled(src@),
            n == src@.len(),
            d0 == old(dst)@,
            d0.len() + n <= usize::MAX,
            forall|k: int| 0 <= k < src@.len() ==> (#[trigger] src@[k]->0.edge matches Some(e) ==> e + eo <= usize::MAX),
            i <= n,
            dst@ == d0 + src@.take(i as int).map_values(|o: Option<Vert<P>>| Some(shift_vert(o->0, eo as int))),
        decreases n - i,
    {
        let v = *src.get(i).unwrap();
        proof {
            assert(src@[i as int]->0 == v);
        }
        let edge = match v.edge {
            Some(e) => Some(e + eo),
            None => None,
        };
        dst.push(Vert { pos: v.pos, edge });
        proof {
            assert(src@.take(i + 1) == src@.take(i as int).push(src@[i as int]));
            assert(dst@ =~= d0 + src@.take(i + 1).map_values(|o: Option<Vert<P>>| Some(shift_vert(o->0, eo as int))));
        }
        i = i + 1;
    }
    proof {
        assert(src@.take(n as int) == src@);
    }
}

/// Pushes the half edges of `src` (all slots filled) onto `dst` (no free
/// slot), their pointers shifted by `vo`, `eo` and `fo`.
fn append_edges(dst: &mut Pool<HalfEdge>, src: &Pool<HalfEdge>, vo: usize, eo: usize, fo: usize)
    requires
        old(dst).wf(),
        old(dst).free_stack().len() == 0,
        src.wf(),
        all_filled(src@),
        old(dst)@.len() + src@.len() <= usize::MAX,
        forall|k: int| 0 <= k < src@.len() ==> shift_fits(#[trigger] src@[k]->0, vo as int, eo as int, fo as int),
    ensures
        final(dst).wf(),
        final(dst).free_stack().len() == 0,
        final(dst)@ == old(dst)@ + src@.map_values(
            |o: Option<HalfEdge>| Some(shift_edge(o->0, vo as int, eo as int, fo as int)),
        ),
{
    let ghost d0 = dst@;
    proof {
        crate::data::pool::law_len_is_slots_minus_freed(*src);
        if src.free_stack().len() > 0 {
            assert(src@[src.free_stack()[0] as int] is None);
        }
    }
    let n = src.len();
    let mut i: usize = 0;
    while i < n
        invariant
            dst.wf(),
            dst.free_stack().len() == 0,
            all_filled(src@),
            n == src@.len(),
            d0 == old(dst)@,
            d0.len() + n <= usize::MAX,
            forall|k: int| 0 <= k < src@.len() ==> shift_fits(#[trigger] src@[k]->0, vo as int, eo as int, fo as int),
            i <= n,
            dst@ == d0 + src@.take(i as int).map_values(
                |o: Option<HalfEdge>| Some(shift_edge(o->0, vo as int, eo as int, fo as int)),
            ),
        decreases n - i,
    {
        let h = *src.get(i).unwrap();
        proof {
            assert(src@[i as int]->0 == h);
        }
        let face = match h.face {
            Some(f) => Some(f + fo),
            None => None,
        };
        dst.push(HalfEdge { from: h.from + vo, next: h.next + eo, twin: h.twin + eo, face });
        proof {
            assert(src@.take(i + 1) == src@.take(i as int).push(src@[i as int]));
            assert(dst@ =~= d0 + src@.take(i + 1).map_values(
                |o: Option<HalfEdge>| Some(shift_edge(o->0, vo as int, eo as int, fo as int)),
            ));
        }
        i = i + 1;
    }
    proof {
        assert(src@.take(n as int) == src@);
    }
}

/// Pushes the faces of `src` (all slots filled) onto `dst` (no free slot),
/// their edge pointers shifted by `eo`.
fn append_faces<P: Copy>(dst: &mut Pool<Face<P>>, src: &Pool<Face<P>>, eo: usize)
    requires
        old(dst).wf(),
        old(dst).free_stack().len() == 0,
        src.wf(),
        all_filled(src@),
        old(dst)@.len() + src@.len() <= usize::MAX,
        forall|k: int| 0 <= k < src@.len() ==> #[trigger] src@[k]->0.edge + eo <= usize::MAX,
    ensures
        final(dst).wf(),
        final(dst).free_stack().len() == 0,
        final(dst)@ == old(dst)@ + src@.map_values(|o: Option<Face<P>>| Some(shift_face(o->0, eo as int))),
{
    let ghost d0 = dst@;
    proof {
        crate::data::pool::law_len_is_slots_minus_freed(*src);
        if src.free_stack().len() > 0 {
            assert(src@[src.free_stack()[0] as int] is None);
        }
    }
    let n = src.len();
    let mut i: usize = 0;
    while i < n
        invariant
            dst.wf(),
            dst.free_stack().len() == 0,
            all_filled(src@),
            n == src@.len(),
            d0 == old(dst)@,
            d0.len() + n <= usize::MAX,
            forall|k: int| 0 <= k < src@.len() ==> #[trigger] src@[k]->0.edge + eo <= usize::MAX,
            i <= n,
            dst@ == d0 + src@.take(i as int).map_values(|o: Option<Face<P>>| Some(shift_face(o->0, eo as int))),
        decreases n - i,
    {
        let f = *src.get(i).unwrap();
        proof {
            assert(src@[i as int]->0 == f);
        }
        dst.push(Face { edge: f.edge + eo, center: f.center, normal: f.normal });
        proof {
            assert(src@.take(i + 1) == src@.take(i as int).push(src@[i as int]));
            assert(dst@ =~= d0 + src@.take(i + 1).map_values(|o: Option<Face<P>>| Some(shift_face(o->0, eo as int))));
        }
        i = i + 1;
    }
    proof {
        assert(src@.take(n as int) == src@);
    }
}

impl<P: Copy> Polyhedron<P> {
    /// The vertex slots after `refactor`.
    pub open spec fn packed_verts(&self) -> Seq<Option<Vert<P>>> {
        if self.fragmented() {
            present(self.verts@).map_values(|v: Vert<P>| Some(remap_vert(v, refactor_map(self.edges@))))
        } else {
            self.verts@
        }
    }

    /// The edge slots after `refactor`.
    pub open spec fn packed_edges(&self) -> Seq<Option<HalfEdge>> {
        if self.fragmented() {
            present(self.edges@).map_values(
                |e: HalfEdge|
                    Some(remap_edge(e, refactor_map(self.verts@), refactor_map(self.edges@), refactor_map(self.faces@))),
            )
        } else {
            self.edges@
        }
    }

    /// The face slots after `refactor`.
    pub open spec fn packed_faces(&self) -> Seq<Option<Face<P>>> {
        if self.fragmented() {
            present(self.faces@).map_values(|f: Face<P>| Some(remap_face(f, refactor_map(self.edges@))))
        } else {
            self.faces@
        }
    }

    /// The number of elements.
    pub open spec fn element_count(&self) -> nat {
        present(self.verts@).len() + present(self.edges@).len() + present(self.faces@).len()
    }

    /// A sound polyhedron after `refactor`: no empty slot, and its slots
    /// are the packed ones.
    proof fn lemma_packed(&self, h: Self)
        requires
            self.wf(),
            h.wf(),
            !self.fragmented() ==> h == *self,
            self.fragmented() ==> {
                &&& h.verts@ == self.packed_verts()
                &&& h.edges@ == self.packed_edges()
                &&& h.faces@ == self.packed_faces()
            },
        ensures
            h.verts@ == self.packed_verts(),
            h.edges@ == self.packed_edges(),
            h.faces@ == self.packed_faces(),
            all_filled(h.verts@),
            all_filled(h.edges@),
            all_filled(h.faces@),
            h.verts@.len() == present(self.verts@).len(),
            h.edges@.len() == present(self.edges@).len(),
            h.faces@.len() == present(self.faces@).len(),
            h.verts.free_stack().len() == 0,
            h.edges.free_stack().len() == 0,
            h.faces.free_stack().len() == 0,
    {
        crate::data::pool::law_len_is_slots_minus_freed(self.verts);
        crate::data::pool::law_len_is_slots_minus_freed(self.edges);
        crate::data::pool::law_len_is_slots_minus_freed(self.faces);
        crate::data::pool::law_len_is_slots_minus_freed(h.verts);
        crate::data::pool::law_len_is_slots_minus_freed(h.edges);
        crate::data::pool::law_len_is_slots_minus_freed(h.faces);
        if !self.fragmented() {
            assert forall|k: int| 0 <= k < h.verts@.len() implies #[trigger] h.verts@[k] is Some by {
                if h.verts@[k] is None {
                    assert(has_hole(self.verts@));
                }
            }
            assert forall|k: int| 0 <= k < h.edges@.len() implies #[trigger] h.edges@[k] is Some by {
                if h.edges@[k] is None {
                    assert(has_hole(self.edges@));
                }
            }
            assert forall|k: int| 0 <= k < h.faces@.len() implies #[trigger] h.faces@[k] is Some by {
                if h.faces@[k] is None {
                    assert(has_hole(self.faces@));
                }
            }
        }
        if h.verts.free_stack().len() > 0 {
            assert(h.verts@[h.verts.free_stack()[0] as int] is None);
        }
        if h.edges.free_stack().len() > 0 {
            assert(h.edges@[h.edges.free_stack()[0] as int] is None);
        }
        if h.faces.free_stack().len() > 0 {
            assert(h.faces@[h.faces.free_stack()[0] as int] is None);
        }
    }

    /// Adds two graphs: the elements of `other` follow those of `self`, each
    /// pointer of `other` shifted by the number of elements of `self` of the
    /// kind it points to. Both are refactored first where they are
    /// fragmented.
    pub fn add(self, other: Self) -> (res: Result<Self, PtrError>)
        requires
            self.wf(),
            other.wf(),
            self.element_count() + other.element_count() <= usize::MAX,
        ensures
            res matches Ok(h) && {
                let (av, ae, af) = (self.packed_verts(), self.packed_edges(), self.packed_faces());
                let (bv, be, bf) = (other.packed_verts(), other.packed_edges(), other.packed_faces());
                &&& h.verts@ == av + bv.map_values(|o: Option<Vert<P>>| Some(shift_vert(o->0, ae.len() as int)))
                &&& h.edges@ == ae + be.map_values(
                    |o: Option<HalfEdge>| Some(shift_edge(o->0, av.len() as int, ae.len() as int, af.len() as int)),
                )
                &&& h.faces@ == af + bf.map_values(|o: Option<Face<P>>| Some(shift_face(o->0, ae.len() as int)))
            },
    {
        let ghost s0 = self;
        let ghost o0 = other;
        let mut me = self;
        if me.data_is_fragmented() {
            me = match me.refactor() {
                Ok(h) => h,
                Err(e) => {
                    return Err(e);
                },
            };
        }
        let mut other = other;
        if other.data_is_fragmented() {
            other = match other.refactor() {
                Ok(h) => h,
                Err(e) => {
                    return Err(e);
                },
            };
        }
        proof {
            s0.lemma_packed(me);
            o0.lemma_packed(other);
        }
        let vert_offset = me.verts.len();
        let edge_offset = me.edges.len();
        let face_offset = me.faces.len();
        proof {
            crate::data::pool::law_len_is_slots_minus_freed(me.verts);
            crate::data::pool::law_len_is_slots_minus_freed(me.edges);
            crate::data::pool::law_len_is_slots_minus_freed(me.faces);
            assert forall|k: int| 0 <= k < other.verts@.len() implies (#[trigger] other.verts@[k]->0.edge matches Some(e)
                ==> e + edge_offset <= usize::MAX) by {
                assert(other.vert_live(k));
                let v = other.vx(k);
                if let Some(e) = v.edge {
                    assert(other.edge_live(e as int));
                }
            }
            assert forall|k: int| 0 <= k < other.edges@.len() implies shift_fits(
                #[trigger] other.edges@[k]->0,
                vert_offset as int,
                edge_offset as int,
                face_offset as int,
            ) by {
                assert(other.edge_live(k));
                assert(other.links_live(other.he(k)));
            }
            assert forall|k: int| 0 <= k < other.faces@.len() implies #[trigger] other.faces@[k]->0.edge + edge_offset
                <= usize::MAX by {
                assert(other.face_live(k));
                let f = other.fc(k);
                assert(other.edge_live(f.edge as int));
            }
        }
        append_verts(&mut me.verts, &other.verts, edge_offset);
        append_edges(&mut me.edges, &other.edges, vert_offset, edge_offset, face_offset);
        append_faces(&mut me.faces, &other.faces, edge_offset);
        Ok(me)
    }
}

impl<P: Copy> Polyhedron<P> {
    /// The triangles of the first `n` of `faces` whose loops have three
    /// edges, each as the packed pointers (see `refactor`) of its corners.
    pub open spec fn face_tri_upto(&self, faces: Seq<Face<P>>, n: nat) -> Seq<usize>
        decreases n,
    {
        if n == 0 {
            Seq::empty()
        } else {
            let lp = self.loop_seq(faces[n - 1].edge as int);
            self.face_tri_upto(faces, (n - 1) as nat) + if lp.len() == 3 {
                lp.map_values(|e: usize| refactor_map(self.verts@)[self.he(e as int).from])
            } else {
                Seq::empty()
            }
        }
    }

    /// Corner `j` of the loop of face `f`, as the packed pointer (see
    /// `refactor`) of the vertex it starts from.
    pub open spec fn face_corner(&self, f: Face<P>, j: int) -> usize {
        refactor_map(self.verts@)[self.he(self.loop_seq(f.edge as int)[j] as int).from]
    }

    /// Triangle `q` of `tri` is the triangle of the face `f`: its three
    /// corners, in loop order.
    pub open spec fn is_face_triangle(&self, tri: Seq<usize>, q: int, f: Face<P>) -> bool {
        &&& 0 <= q
        &&& 3 * q + 2 < tri.len()
        &&& tri[3 * q] == self.face_corner(f, 0)
        &&& tri[3 * q + 1] == self.face_corner(f, 1)
        &&& tri[3 * q + 2] == self.face_corner(f, 2)
    }

    /// Triangle `q` of `tri` is the triangle of one of the first `n` faces
    /// of `faces`, one whose loop has exactly three half edges.
    pub open spec fn from_triangular_face(&self, tri: Seq<usize>, q: int, faces: Seq<Face<P>>, n: nat) -> bool {
        exists|k: int|
            0 <= k < n && self.loop_seq(faces[k].edge as int).len() == 3 && #[trigger] self.is_face_triangle(tri, q, faces[k])
    }

    /// Only faces with three edges become triangles: the list holds whole
    /// triangles, each one the triangle of a face among the first `n` whose
    /// loop has exactly three half edges, and each such face has its
    /// triangle in the list. A face with a loop of any other length adds
    /// nothing.
    pub proof fn law_face_triangles_are_triangular_faces(&self, faces: Seq<Face<P>>, n: nat)
        requires
            n <= faces.len(),
        ensures
            self.face_tri_upto(faces, n).len() % 3 == 0,
            forall|q: int|
                0 <= q < self.face_tri_upto(faces, n).len() / 3 ==> #[trigger] self.from_triangular_face(
                    self.face_tri_upto(faces, n),
                    q,
                    faces,
                    n,
                ),
            forall|k: int|
                0 <= k < n && #[trigger] self.loop_seq(faces[k].edge as int).len() == 3 ==> exists|q: int|
                    self.is_face_triangle(self.face_tri_upto(faces, n), q, faces[k]),
        decreases n,
    {
        if n > 0 {
            self.law_face_triangles_are_triangular_faces(faces, (n - 1) as nat);
            let pre = self.face_tri_upto(faces, (n - 1) as nat);
            let t = self.face_tri_upto(faces, n);
            let f = faces[n - 1];
            let lp = self.loop_seq(f.edge as int);
            let add = if lp.len() == 3 {
                lp.map_values(|e: usize| refactor_map(self.verts@)[self.he(e as int).from])
            } else {
                Seq::empty()
            };
            assert(t == pre + add);
            assert forall|q: int, g: Face<P>| 0 <= q < pre.len() / 3 && #[trigger] self.is_face_triangle(pre, q, g) implies self.is_face_triangle(
                t,
                q,
                g,
            ) by {
                assert(t[3 * q] == pre[3 * q]);
                assert(t[3 * q + 1] == pre[3 * q + 1]);
                assert(t[3 * q + 2] == pre[3 * q + 2]);
            }
            let q0: int = (pre.len() / 3) as int;
            if lp.len() == 3 {
                assert(self.is_face_triangle(t, q0, f)) by {
                    assert(t[3 * q0] == add[0]);
                    assert(t[3 * q0 + 1] == add[1]);
                    assert(t[3 * q0 + 2] == add[2]);
                }
            }
            assert forall|q: int| 0 <= q < t.len() / 3 implies #[trigger] self.from_triangular_face(t, q, faces, n) by {
                if q < pre.len() / 3 {
                    assert(self.from_triangular_face(pre, q, faces, (n - 1) as nat));
                    let k = choose|k: int|
                        0 <= k < n - 1 && self.loop_seq(faces[k].edge as int).len() == 3 && #[trigger] self.is_face_triangle(
                            pre,
                            q,
                            faces[k],
                        );
                    assert(self.is_face_triangle(t, q, faces[k]));
                } else {
                    assert(q == q0);
                    assert(self.is_face_triangle(t, q, faces[n - 1]));
                }
            }
            assert forall|k: int| 0 <= k < n && #[trigger] self.loop_seq(faces[k].edge as int).len() == 3 implies exists|q: int|
                self.is_face_triangle(t, q, faces[k]) by {
                if k < n - 1 {
                    let q = choose|q: int| self.is_face_triangle(pre, q, faces[k]);
                    assert(q < pre.len() / 3);
                    assert(self.is_face_triangle(t, q, faces[k]));
                } else {
                    assert(self.is_face_triangle(t, q0, faces[k]));
                }
            }
        }
    }

    /// The triangle index list of the faces with three edges, in face
    /// order, each corner as the packed pointer of its vertex.
    pub fn face_triangles(&self) -> (tri: Vec<usize>)
        requires
            self.wf(),
        ensures
            tri@ == self.face_tri_upto(present(self.faces@), present(self.faces@).len()),
            tri.len() % 3 == 0,
            forall|q: int|
                0 <= q < tri.len() / 3 ==> #[trigger] self.from_triangular_face(
                    tri@,
                    q,
                    present(self.faces@),
                    present(self.faces@).len(),
                ),
            forall|k: int|
                0 <= k < present(self.faces@).len() && #[trigger] self.loop_seq(present(self.faces@)[k].edge as int).len()
                    == 3 ==> exists|q: int| self.is_face_triangle(tri@, q, present(self.faces@)[k]),
    {
        proof {
            self.law_face_triangles_are_triangular_faces(present(self.faces@), present(self.faces@).len());
        }
        let remapper = self.verts.get_refactor_mapping();
        let loops = self.get_face_loops();
        let ghost faces = present(self.faces@);
        let mut tri: Vec<usize> = Vec::new();
        let mut k: usize = 0;
        proof {
            crate::data::pool::law_len_is_slots_minus_freed(self.faces);
            crate::data::pool::law_len_is_slots_minus_freed(self.verts);
        }
        while k < loops.len()
            invariant
                self.wf(),
                self.verts@.len() <= usize::MAX,
                self.faces@.len() <= usize::MAX,
                remapper@ == refactor_map(self.verts@),
                faces == present(self.faces@),
                loops.len() == faces.len(),
                forall|i: int| 0 <= i < loops.len() ==> (#[trigger] loops@[i])@ == self.loop_seq(faces[i].edge as int),
                k <= loops.len(),
                tri@ == self.face_tri_upto(faces, k as nat),
            decreases loops.len() - k,
        {
            let ghost before = tri@;
            let lp = &loops[k];
            proof {
                assert(lp@ == self.loop_seq(faces[k as int].edge as int));
            }
            let ghost f = Self::lemma_item_slot(self.faces@, k as int);
            proof {
                assert(self.face_live(f) && self.fc(f) == faces[k as int]);
                assert(self.edge_live(faces[k as int].edge as int));
            }
            if lp.len() == 3 {
                let mut j: usize = 0;
                while j < 3
                    invariant
                        self.wf(),
                        self.verts@.len() <= usize::MAX,
                        remapper@ == refactor_map(self.verts@),
                        lp.len() == 3,
                        lp@ == self.loop_seq(faces[k as int].edge as int),
                        self.edge_live(faces[k as int].edge as int),
                        j <= 3,
                        tri@ == before + lp@.take(j as int).map_values(
                            |e: usize| refactor_map(self.verts@)[self.he(e as int).from],
                        ),
                    decreases 3 - j,
                {
                    proof {
                        self.lemma_next_pow_live(faces[k as int].edge as int, j as nat);
                        assert(lp@[j as int] == self.next_pow(faces[k as int].edge as int, j as nat) as usize);
                    }
                    let from = self.edge(lp[j]).from;
                    proof {
                        lemma_moved_below(self.verts@, from);
                    }
                    let id = lookup(&remapper, from).unwrap();
                    tri.push(id);
                    proof {
                        assert(lp@.take(j + 1) == lp@.take(j as int).push(lp@[j as int]));
                        assert(tri@ =~= before + lp@.take(j + 1).map_values(
                            |e: usize| refactor_map(self.verts@)[self.he(e as int).from],
                        ));
                    }
                    j = j + 1;
                }
                proof {
                    assert(lp@.take(3) == lp@);
                }
            }
            proof {
                assert(tri@ =~= self.face_tri_upto(faces, (k + 1) as nat));
            }
            k = k + 1;
        }
        tri
    }
}

/// The items before slot `i` are no more than those before slot `j`, and
/// fewer where a filled slot lies between.
proof fn lemma_rank_mono<T>(s: Seq<Option<T>>, i: int, j: int)
    requires
        0 <= i <= j <= s.len(),
    ensures
        present(s.take(i)).len() <= present(s.take(j)).len(),
        i < j && s[i] is Some ==> present(s.take(i)).len() < present(s.take(j)).len(),
    decreases j - i,
{
    if i < j {
        lemma_rank_mono(s, i, j - 1);
        crate::data::pool::lemma_present_take(s, j - 1);
        if i < j - 1 && s[i] is Some {
            lemma_rank_mono(s, i + 1, j - 1);
            crate::data::pool::lemma_present_take(s, i);
        }
    }
}

/// Two filled slots go to different slots under the refactor mapping.
proof fn lemma_moved_apart<T>(s: Seq<Option<T>>, x: usize, y: usize)
    requires
        s.len() <= usize::MAX,
        x < s.len() && s[x as int] is Some,
        y < s.len() && s[y as int] is Some,
        x != y,
    ensures
        refactor_map(s)[x] != refactor_map(s)[y],
{
    lemma_moved_to(s, x);
    lemma_moved_to(s, y);
    crate::data::pool::lemma_present_ids_len(s.take(x as int));
    crate::data::pool::lemma_present_ids_len(s.take(y as int));
    let (rx, ry) = (present(s.take(x as int)).len(), present(s.take(y as int)).len());
    assert(refactor_map(s)[x] == rx as usize);
    assert(refactor_map(s)[y] == ry as usize);
    if x < y {
        lemma_rank_mono(s, x as int, y as int);
    } else {
        lemma_rank_mono(s, y as int, x as int);
    }
    assert(rx != ry);
    assert(rx <= usize::MAX && ry <= usize::MAX);
}

impl<P: Copy> Polyhedron<P> {
    /// `after` holds the half edges of `self`, moved and relinked as
    /// `refactor` moves them.
    pub open spec fn relinked_to(&self, after: Self) -> bool {
        after.edges@ == present(self.edges@).map_values(
            |e: HalfEdge| Some(remap_edge(e, refactor_map(self.verts@), refactor_map(self.edges@), refactor_map(self.faces@))),
        )
    }

    proof fn lemma_relinked_next_pow(&self, after: Self, e: int, k: nat)
        requires
            self.wf(),
            self.relinked_to(after),
            self.edge_live(e),
        ensures
            self.edge_live(self.next_pow(e, k)),
            after.next_pow(refactor_map(self.edges@)[e as usize] as int, k) == refactor_map(self.edges@)[self.next_pow(
                e,
                k,
            ) as usize],
        decreases k,
    {
        crate::data::pool::law_len_is_slots_minus_freed(self.edges);
        self.lemma_next_pow_live(e, k);
        if k > 0 {
            self.lemma_relinked_next_pow(after, e, (k - 1) as nat);
            let x = self.next_pow(e, (k - 1) as nat);
            self.lemma_next_pow_live(e, (k - 1) as nat);
            lemma_moved_to(self.edges@, x as usize);
            let em = refactor_map(self.edges@);
            assert(after.edges@[em[x as usize] as int] == Some(
                remap_edge(self.he(x), refactor_map(self.verts@), em, refactor_map(self.faces@)),
            ));
        }
    }

    proof fn lemma_relinked_first_return(&self, after: Self, e: int, k: nat, n: nat)
        requires
            self.wf(),
            self.relinked_to(after),
            self.edge_live(e),
        ensures
            after.first_return(refactor_map(self.edges@)[e as usize] as int, k, n) == self.first_return(e, k, n),
        decreases n + 1 - k,
    {
        if k <= n {
            let em = refactor_map(self.edges@);
            self.lemma_relinked_next_pow(after, e, k);
            crate::data::pool::law_len_is_slots_minus_freed(self.edges);
            let x = self.next_pow(e, k);
            if x != e {
                lemma_moved_apart(self.edges@, x as usize, e as usize);
            }
            assert((after.next_pow(em[e as usize] as int, k) == em[e as usize] as int) == (x == e));
            self.lemma_relinked_first_return(after, e, k + 1, n);
        }
    }
}

/// At most one error is the first bad pointer of a polyhedron: the error of
/// a failed `refactor` is determined by the polyhedron alone.
pub proof fn law_first_bad_ptr_unique<P: Copy>(p: Polyhedron<P>, a: PtrError, b: PtrError)
    requires
        p.first_bad_ptr(a),
        p.first_bad_ptr(b),
    ensures
        a == b,
{
    let em = refactor_map(p.edges@);
    let vm = refactor_map(p.verts@);
    let fm = refactor_map(p.faces@);
    let pv = present(p.verts@);
    let pe = present(p.edges@);
    let pf = present(p.faces@);
    if exists|k: int| first_vert_miss(pv, em, k) {
        let k = choose|k: int| first_vert_miss(pv, em, k);
        assert forall|x: PtrError| #[trigger] p.first_bad_ptr(x) implies x == (PtrError {
            kind: PtrKind::Edge,
            expected: pv[k].edge->0,
        }) by {
            let j = choose|j: int|
                first_vert_miss(pv, em, j) && x == (PtrError { kind: PtrKind::Edge, expected: (#[trigger] pv[j]).edge->0 });
            if j < k {
                assert(vert_resolves(pv[j], em));
            } else if k < j {
                assert(vert_resolves(pv[k], em));
            }
        }
    } else if exists|k: int| first_edge_miss(pe, vm, em, fm, k) {
        let k = choose|k: int| first_edge_miss(pe, vm, em, fm, k);
        assert forall|x: PtrError| #[trigger] p.first_bad_ptr(x) implies x == edge_first_miss(pe[k], vm, em, fm) by {
            if exists|j: int| first_vert_miss(pv, em, j) {
            } else {
                let j = choose|j: int| first_edge_miss(pe, vm, em, fm, j) && x == edge_first_miss(#[trigger] pe[j], vm, em, fm);
                if j < k {
                    assert(edge_resolves(pe[j], vm, em, fm));
                } else if k < j {
                    assert(edge_resolves(pe[k], vm, em, fm));
                }
            }
        }
    } else {
        assert forall|x: PtrError, y: PtrError| #[trigger] p.first_bad_ptr(x) && #[trigger] p.first_bad_ptr(y) implies x == y by {
            let i = choose|i: int| first_face_miss(pf, em, i) && x == (PtrError { kind: PtrKind::Edge, expected: (#[trigger] pf[i]).edge });
            let j = choose|j: int| first_face_miss(pf, em, j) && y == (PtrError { kind: PtrKind::Edge, expected: (#[trigger] pf[j]).edge });
            if i < j {
                assert(em.contains_key(pf[i].edge));
            } else if j < i {
                assert(em.contains_key(pf[j].edge));
            }
        }
    }
}

/// `refactor` keeps the loops: the loop of a moved half edge is the moved
/// loop of the half edge.
pub proof fn law_refactor_keeps_loops<P: Copy>(before: Polyhedron<P>, after: Polyhedron<P>, e: usize)
    requires
        before.wf(),
        after.wf(),
        before.relinked_to(after),
        before.edge_live(e as int),
    ensures
        after.loop_seq(refactor_map(before.edges@)[e] as int) == before.loop_seq(e as int).map_values(
            |x: usize| refactor_map(before.edges@)[x],
        ),
{
    let em = refactor_map(before.edges@);
    crate::data::pool::law_len_is_slots_minus_freed(before.edges);
    crate::data::pool::law_len_is_slots_minus_freed(after.edges);
    if after.edges.free_stack().len() > 0 {
        assert(after.edges@[after.edges.free_stack()[0] as int] is None);
    }
    let n = before.edge_count();
    assert(after.edge_count() == n);
    before.lemma_relinked_first_return(after, e as int, 1, n);
    let l = before.loop_seq(e as int);
    assert forall|k: int| 0 <= k < l.len() implies #[trigger] after.loop_seq(em[e] as int)[k] == em[l[k]] by {
        before.lemma_relinked_next_pow(after, e as int, k as nat);
    }
    assert(after.loop_seq(em[e] as int) =~= l.map_values(|x: usize| em[x]));
}

impl<P: Copy> Polyhedron<P> {
    /// The dual links of the half edges `lp`: for each one with a face on
    /// both sides, the packed pointers (see `refactor`) of its face and of
    /// its twin's face.
    pub open spec fn dual_links_of(&self, lp: Seq<usize>) -> Seq<(usize, usize)>
        decreases lp.len(),
    {
        if lp.len() == 0 {
            Seq::empty()
        } else {
            let e = lp.last() as int;
            let rest = self.dual_links_of(lp.drop_last());
            match (self.he(e).face, self.he(self.he(e).twin as int).face) {
                (Some(fa), Some(fb)) => rest.push((refactor_map(self.faces@)[fa], refactor_map(self.faces@)[fb])),
                _ => rest,
            }
        }
    }

    /// The dual links of the loops of the first `n` of `faces`.
    pub open spec fn dual_links_upto(&self, faces: Seq<Face<P>>, n: nat) -> Seq<(usize, usize)>
        decreases n,
    {
        if n == 0 {
            Seq::empty()
        } else {
            self.dual_links_upto(faces, (n - 1) as nat) + self.dual_links_of(self.loop_seq(faces[n - 1].edge as int))
        }
    }

    /// The edges of the dual graph, as pairs of its vertices (the packed
    /// pointers of this graph's faces): going around the loop of each face,
    /// in face order, one pair for each half edge with a face on both
    /// sides.
    pub fn dual_links(&self) -> (links: Vec<(usize, usize)>)
        requires
            self.wf(),
        ensures
            links@ == self.dual_links_upto(present(self.faces@), present(self.faces@).len()),
    {
        let face_to_vert = self.faces.get_refactor_mapping();
        let loops = self.get_face_loops();
        let ghost faces = present(self.faces@);
        let mut links: Vec<(usize, usize)> = Vec::new();
        let mut k: usize = 0;
        proof {
            crate::data::pool::law_len_is_slots_minus_freed(self.faces);
        }
        while k < loops.len()
            invariant
                self.wf(),
                self.faces@.len() <= usize::MAX,
                face_to_vert@ == refactor_map(self.faces@),
                faces == present(self.faces@),
                loops.len() == faces.len(),
                forall|i: int| 0 <= i < loops.len() ==> (#[trigger] loops@[i])@ == self.loop_seq(faces[i].edge as int),
                k <= loops.len(),
                links@ == self.dual_links_upto(faces, k as nat),
            decreases loops.len() - k,
        {
            let ghost before = links@;
            let lp = &loops[k];
            let ghost f = Self::lemma_item_slot(self.faces@, k as int);
            proof {
                assert(lp@ == self.loop_seq(faces[k as int].edge as int));
                assert(self.face_live(f) && self.fc(f) == faces[k as int]);
                assert(self.edge_live(faces[k as int].edge as int));
            }
            let mut j: usize = 0;
            while j < lp.len()
                invariant
                    self.wf(),
                    self.faces@.len() <= usize::MAX,
                    face_to_vert@ == refactor_map(self.faces@),
                    lp@ == self.loop_seq(faces[k as int].edge as int),
                    self.edge_live(faces[k as int].edge as int),
                    j <= lp.len(),
                    links@ == before + self.dual_links_of(lp@.take(j as int)),
                decreases lp.len() - j,
            {
                proof {
                    self.lemma_next_pow_live(faces[k as int].edge as int, j as nat);
                    assert(lp@[j as int] == self.next_pow(faces[k as int].edge as int, j as nat) as usize);
                    assert(lp@.take(j + 1).drop_last() == lp@.take(j as int));
                }
                let edge = lp[j];
                let twin = self.edge(edge).twin;
                let ghost links0 = links@;
                if let (Some(fa), Some(fb)) = (self.edge(edge).face, self.edge(twin).face) {
                    proof {
                        lemma_moved_below(self.faces@, fa);
                        lemma_moved_below(self.faces@, fb);
                    }
                    let va = lookup(&face_to_vert, fa).unwrap();
                    let vb = lookup(&face_to_vert, fb).unwrap();
                    links.push((va, vb));
                }
                proof {
                    assert(links@ =~= before + self.dual_links_of(lp@.take(j + 1)));
                }
                j = j + 1;
            }
            proof {
                assert(lp@.take(j as int) == lp@);
                assert(links@ =~= self.dual_links_upto(faces, (k + 1) as nat));
            }
            k = k + 1;
        }
        links
    }
}

} // verus!
