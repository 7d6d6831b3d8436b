//! The indexing models of triangle meshes.
use vstd::prelude::*;

verus! {

/// A corner of a triangle face: indices of its vertex, uv and normal.
#[derive(Debug, Clone, Copy, PartialEq, Eq, Structural)]
pub struct TriCorner {
    v: usize,
    uv: usize,
    n: usize,
}

impl TriCorner {
    /// The index of the vertex.
    pub closed spec fn vertex(&self) -> usize {
        self.v
    }

    /// The index of the uv.
    pub closed spec fn texture(&self) -> usize {
        self.uv
    }

    /// The index of the normal.
    pub closed spec fn normal(&self) -> usize {
        self.n
    }

    pub fn new(v: usize, uv: usize, n: usize) -> (c: Self)
        ensures
            c.vertex() == v,
            c.texture() == uv,
            c.normal() == n,
    {
        Self { v, uv, n }
    }

    /// The corner whose vertex, uv and normal share the index `i`.
    pub closed spec fn spec_uniform(i: usize) -> Self {
        TriCorner { v: i, uv: i, n: i }
    }

    /// A corner whose vertex, uv and normal share the index `i`.
    pub fn uniform(i: usize) -> (c: Self)
        ensures
            c.vertex() == i,
            c.texture() == i,
            c.normal() == i,
            c == Self::spec_uniform(i),
    {
        Self { v: i, uv: i, n: i }
    }

    /// The normal shared by all three corners of a face: a face normal. `None`
    /// where the corners point to different normals.
    pub fn try_get_face_normal(face: &(TriCorner, TriCorner, TriCorner)) -> (res: Option<usize>)
        ensures
            res == (if face.0.normal() == face.1.normal() && face.0.normal() == face.2.normal() {
                Some(face.0.normal())
            } else {
                None
            }),
    {
        let (a, b, c) = face;
        if a.n == b.n && a.n == c.n {
            return Some(a.n);
        }
        return None;
    }

    /// The index of the vertex.
    pub fn v(&self) -> (res: usize)
        ensures
            res == self.vertex(),
    {
        self.v
    }

    /// The index of the uv.
    pub fn uv(&self) -> (res: usize)
        ensures
            res == self.texture(),
    {
        self.uv
    }

    /// The index of the normal.
    pub fn n(&self) -> (res: usize)
        ensures
            res == self.normal(),
    {
        self.n
    }

    /// This corner, pointing to normal `n`.
    pub fn with_n(&self, n: usize) -> (c: Self)
        ensures
            c.vertex() == self.vertex(),
            c.texture() == self.texture(),
            c.normal() == n,
    {
        Self { v: self.v, uv: self.uv, n }
    }
}

/// The mesh indexing model used.
#[derive(Debug, Clone)]
pub enum Indexing {
    /// Linear, non-indexed model.
    Linear,
    /// Uniform indexing: one index per corner, for vertex, uv and normal.
    Uniform(Vec<usize>),
    /// Different vertices, normals, and uvs per triangle corner.
    Hetero(Vec<TriCorner>),
}

impl Indexing {
    pub fn uniform(&self) -> (res: Option<&Vec<usize>>)
        ensures
            match self {
                Indexing::Uniform(u) => res == Some(u),
                _ => res.is_none(),
            },
    {
        match self {
            Indexing::Uniform(uniform) => Some(uniform),
            _ => None,
        }
    }

    pub fn uniform_mut(&mut self) -> (res: Option<&mut Vec<usize>>)
        ensures
            match *old(self) {
                Indexing::Uniform(u) => {
                    &&& res is Some
                    &&& *res.unwrap() == u
                    &&& *final(self) == Indexing::Uniform(*final(res.unwrap()))
                },
                _ => res is None && *final(self) == *old(self),
            },
    {
        match self {
            Indexing::Uniform(uniform) => Some(uniform),
            _ => None,
        }
    }

    pub fn hetero(&self) -> (res: Option<&Vec<TriCorner>>)
        ensures
            match self {
                Indexing::Hetero(h) => res == Some(h),
                _ => res.is_none(),
            },
    {
        match self {
            Indexing::Hetero(hetero) => Some(hetero),
            _ => None,
        }
    }

    pub fn hetero_mut(&mut self) -> (res: Option<&mut Vec<TriCorner>>)
        ensures
            match *old(self) {
                Indexing::Hetero(h) => {
                    &&& res is Some
                    &&& *res.unwrap() == h
                    &&& *final(self) == Indexing::Hetero(*final(res.unwrap()))
                },
                _ => res is None && *final(self) == *old(self),
            },
    {
        match self {
            Indexing::Hetero(hetero) => Some(hetero),
            _ => None,
        }
    }
}


/// A value shared by all corners, or one value per index.
#[derive(Debug, Clone)]
pub enum OneOrMany<T> {
    One(T),
    Many(Vec<T>),
}

impl<T: Copy> OneOrMany<T> {
    /// Index `i` has a value: always for `One`, within the list for `Many`.
    pub open spec fn has(&self, i: int) -> bool {
        match self {
            OneOrMany::One(_) => true,
            OneOrMany::Many(v) => 0 <= i < v.len(),
        }
    }

    /// The value of index `i`: the one, or item `i` of the list.
    pub open spec fn at(&self, i: int) -> T {
        match self {
            OneOrMany::One(t) => *t,
            OneOrMany::Many(v) => v@[i],
        }
    }

    /// `res` is this value picked at `ids`: the same one, or the list of
    /// the items at `ids`, in order.
    pub open spec fn picked_as(&self, ids: Seq<usize>, res: OneOrMany<T>) -> bool {
        match self {
            OneOrMany::One(t) => res == OneOrMany::One(*t),
            OneOrMany::Many(v) => res matches OneOrMany::Many(w) && w@ == ids.map_values(|i: usize| v@[i as int]),
        }
    }

    /// The value of index `i`, or `None` past the end of the list.
    pub fn get(&self, i: usize) -> (res: Option<&T>)
        ensures
            res is Some <==> self.has(i as int),
            res matches Some(t) ==> *t == self.at(i as int),
    {
        match self {
            OneOrMany::One(t) => Some(t),
            OneOrMany::Many(v) => {
                if i < v.len() {
                    Some(&v[i])
                } else {
                    None
                }
            },
        }
    }

    /// This value picked at `ids` (see `picked_as`).
    pub fn pick(&self, ids: &Vec<usize>) -> (res: OneOrMany<T>)
        requires
            forall|k: int| 0 <= k < ids.len() ==> self.has(#[trigger] ids@[k] as int),
        ensures
            self.picked_as(ids@, res),
    {
        match self {
            OneOrMany::One(t) => OneOrMany::One(*t),
            OneOrMany::Many(v) => OneOrMany::Many(gather(v, ids)),
        }
    }
}

/// The items of `data` at `ids`, in order.
pub fn gather<T: Copy>(data: &Vec<T>, ids: &Vec<usize>) -> (res: Vec<T>)
    requires
        forall|k: int| 0 <= k < ids.len() ==> #[trigger] ids@[k] < data.len(),
    ensures
        res@ == ids@.map_values(|i: usize| data@[i as int]),
{
    let mut res: Vec<T> = Vec::new();
    let mut k: usize = 0;
    while k < ids.len()
        invariant
            k <= ids.len(),
            forall|j: int| 0 <= j < ids.len() ==> #[trigger] ids@[j] < data.len(),
            res@ == ids@.take(k as int).map_values(|i: usize| data@[i as int]),
        decreases ids.len() - k,
    {
        res.push(data[ids[k]]);
        k = k + 1;
        proof {
            assert(res@ =~= ids@.take(k as int).map_values(|i: usize| data@[i as int]));
        }
    }
    proof {
        assert(ids@.take(k as int) == ids@);
    }
    res
}

/// Which of the three indices of a corner.
pub enum CornerPart {
    Vertex,
    Texture,
    Normal,
}

/// The index that `part` names of the corner `c`.
pub open spec fn corner_index(c: TriCorner, part: CornerPart) -> usize {
    match part {
        CornerPart::Vertex => c.vertex(),
        CornerPart::Texture => c.texture(),
        CornerPart::Normal => c.normal(),
    }
}

/// The index that `part` names of each corner of `corners`, in order.
pub fn corner_indices(corners: &Vec<TriCorner>, part: CornerPart) -> (ids: Vec<usize>)
    ensures
        ids@ == corners@.map_values(|c: TriCorner| corner_index(c, part)),
{
    let mut ids: Vec<usize> = Vec::new();
    let mut k: usize = 0;
    while k < corners.len()
        invariant
            k <= corners.len(),
            ids@ == corners@.take(k as int).map_values(|c: TriCorner| corner_index(c, part)),
        decreases corners.len() - k,
    {
        let c = corners[k];
        let i = match part {
            CornerPart::Vertex => c.v(),
            CornerPart::Texture => c.uv(),
            CornerPart::Normal => c.n(),
        };
        ids.push(i);
        k = k + 1;
        proof {
            assert(ids@ =~= corners@.take(k as int).map_values(|c: TriCorner| corner_index(c, part)));
        }
    }
    proof {
        assert(corners@.take(k as int) == corners@);
    }
    ids
}

/// The vertices that `similar` maps to themselves, in order: those with no
/// earlier similar vertex.
pub open spec fn kept_ids(similar: Seq<usize>) -> Seq<usize>
    decreases similar.len(),
{
    if similar.len() == 0 {
        Seq::empty()
    } else {
        let n = similar.len() - 1;
        kept_ids(similar.drop_last()) + if similar.last() == n {
            seq![n as usize]
        } else {
            Seq::empty()
        }
    }
}

proof fn lemma_kept_ids_below(similar: Seq<usize>)
    ensures
        forall|k: int| 0 <= k < kept_ids(similar).len() ==> #[trigger] kept_ids(similar)[k] < similar.len(),
    decreases similar.len(),
{
    if similar.len() > 0 {
        let d = similar.drop_last();
        lemma_kept_ids_below(d);
        let kd = kept_ids(d);
        let ks = kept_ids(similar);
        assert forall|k: int| 0 <= k < ks.len() implies #[trigger] ks[k] < similar.len() by {
            if k < kd.len() {
                assert(ks[k] == kd[k]);
            }
        }
    }
}

/// The vertices that `similar` maps to themselves (see `kept_ids`).
pub fn keep_ids(similar: &Vec<usize>) -> (ids: Vec<usize>)
    ensures
        ids@ == kept_ids(similar@),
{
    let mut ids: Vec<usize> = Vec::new();
    let mut i: usize = 0;
    while i < similar.len()
        invariant
            i <= similar.len(),
            ids@ == kept_ids(similar@.take(i as int)),
        decreases similar.len() - i,
    {
        proof {
            assert(similar@.take(i + 1).drop_last() == similar@.take(i as int));
        }
        if similar[i] == i {
            ids.push(i);
        }
        i = i + 1;
    }
    proof {
        assert(similar@.take(i as int) == similar@);
    }
    ids
}

/// A triangle mesh: vertices of type `V`, uvs of type `U`, normals of type
/// `N`, and the indexing model that forms the triangles from them.
#[derive(Debug, Clone)]
pub struct TriMesh<V, U, N> {
    pub verts: Vec<V>,
    pub tri: Indexing,
    pub uvs: OneOrMany<U>,
    pub normals: OneOrMany<N>,
    /// Given triangle `(a, b, c)`, the neighbor of corner `a` is adjacent
    /// to `(b, c)`.
    pub neighbors: Option<Vec<usize>>,
}

impl<V: Copy, U: Copy, N: Copy> TriMesh<V, U, N> {
    pub fn new(
        verts: Vec<V>,
        tri: Indexing,
        uvs: OneOrMany<U>,
        normals: OneOrMany<N>,
        neighbors: Option<Vec<usize>>,
    ) -> (mesh: Self)
        ensures
            mesh == (TriMesh { verts, tri, uvs, normals, neighbors }),
    {
        Self { verts, tri, uvs, normals, neighbors }
    }

    /// The vertex, uv and normal index of each corner, in order: a uniform
    /// index serves all three; a linear mesh has none.
    pub open spec fn corner_ids(&self, part: CornerPart) -> Seq<usize> {
        match self.tri {
            Indexing::Linear => Seq::empty(),
            Indexing::Uniform(u) => u@,
            Indexing::Hetero(h) => h@.map_values(|c: TriCorner| corner_index(c, part)),
        }
    }

    /// Every corner's indices point into the vertices, uvs and normals.
    pub open spec fn indices_in_range(&self) -> bool {
        &&& forall|k: int| 0 <= k < self.corner_ids(CornerPart::Vertex).len() ==> #[trigger] self.corner_ids(CornerPart::Vertex)[k] < self.verts.len()
        &&& forall|k: int| 0 <= k < self.corner_ids(CornerPart::Texture).len() ==> self.uvs.has(#[trigger] self.corner_ids(CornerPart::Texture)[k] as int)
        &&& forall|k: int| 0 <= k < self.corner_ids(CornerPart::Normal).len() ==> self.normals.has(#[trigger] self.corner_ids(CornerPart::Normal)[k] as int)
    }

    /// The number of triangles, as the indexing model counts it: a third of
    /// the vertices of a linear mesh, and the length of the index list of
    /// an indexed one.
    pub fn tri_count(&self) -> (n: usize)
        ensures
            n == match self.tri {
                Indexing::Linear => self.verts.len() / 3,
                Indexing::Uniform(u) => u.len(),
                Indexing::Hetero(h) => h.len(),
            },
    {
        match &self.tri {
            Indexing::Linear => self.verts.len() / 3,
            Indexing::Uniform(tri) => tri.len(),
            Indexing::Hetero(tri) => tri.len(),
        }
    }

    /// The mesh without reuse: each corner gets its own vertex, uv and
    /// normal, gathered by its indices; a shared uv or normal stays shared.
    pub fn to_linear(self) -> (res: Self)
        requires
            self.indices_in_range(),
        ensures
            self.tri is Linear ==> res == self,
            !(self.tri is Linear) ==> {
                &&& res.tri is Linear
                &&& res.neighbors is None
                &&& res.verts@ == self.corner_ids(CornerPart::Vertex).map_values(|i: usize| self.verts@[i as int])
                &&& self.uvs.picked_as(self.corner_ids(CornerPart::Texture), res.uvs)
                &&& self.normals.picked_as(self.corner_ids(CornerPart::Normal), res.normals)
            },
    {
        let ghost s0 = self;
        let TriMesh { verts, tri, uvs, normals, neighbors } = self;
        match tri {
            Indexing::Linear => TriMesh { verts, tri: Indexing::Linear, uvs, normals, neighbors },
            Indexing::Uniform(uni) => {
                proof {
                    assert forall|k: int| 0 <= k < uni.len() implies #[trigger] uni@[k] < verts.len() && normals.has(
                        uni@[k] as int,
                    ) && uvs.has(uni@[k] as int) by {
                        assert(s0.corner_ids(CornerPart::Vertex)[k] == uni@[k]);
                        assert(s0.corner_ids(CornerPart::Texture)[k] == uni@[k]);
                        assert(s0.corner_ids(CornerPart::Normal)[k] == uni@[k]);
                    }
                }
                let new_verts = gather(&verts, &uni);
                let new_normals = normals.pick(&uni);
                let new_uvs = uvs.pick(&uni);
                TriMesh { verts: new_verts, tri: Indexing::Linear, uvs: new_uvs, normals: new_normals, neighbors: None }
            },
            Indexing::Hetero(hetero) => {
                let vs = corner_indices(&hetero, CornerPart::Vertex);
                let ts = corner_indices(&hetero, CornerPart::Texture);
                let ns = corner_indices(&hetero, CornerPart::Normal);
                proof {
                    assert(vs@ == s0.corner_ids(CornerPart::Vertex));
                    assert(ts@ == s0.corner_ids(CornerPart::Texture));
                    assert(ns@ == s0.corner_ids(CornerPart::Normal));
                    assert forall|k: int| 0 <= k < vs.len() implies #[trigger] vs@[k] < verts.len() by {
                        assert(s0.corner_ids(CornerPart::Vertex)[k] == vs@[k]);
                    }
                    assert forall|k: int| 0 <= k < ns.len() implies normals.has(#[trigger] ns@[k] as int) by {
                        assert(s0.corner_ids(CornerPart::Normal)[k] == ns@[k]);
                    }
                    assert forall|k: int| 0 <= k < ts.len() implies uvs.has(#[trigger] ts@[k] as int) by {
                        assert(s0.corner_ids(CornerPart::Texture)[k] == ts@[k]);
                    }
                }
                let new_verts = gather(&verts, &vs);
                let new_normals = normals.pick(&ns);
                let new_uvs = uvs.pick(&ts);
                TriMesh { verts: new_verts, tri: Indexing::Linear, uvs: new_uvs, normals: new_normals, neighbors: None }
            },
        }
    }

    /// The mesh with one index per corner: a hetero mesh keeps the vertex
    /// index of each corner; its vertices, uvs and normals stay as they are.
    fn indexed_to_uniform(self) -> (res: Self)
        requires
            !(self.tri is Linear),
        ensures
            self.tri is Uniform ==> res == self,
            self.tri is Hetero ==> {
                &&& res.tri matches Indexing::Uniform(u) && u@ == self.corner_ids(CornerPart::Vertex)
                &&& res.verts == self.verts
                &&& res.uvs == self.uvs
                &&& res.normals == self.normals
                &&& res.neighbors is None
            },
    {
        let TriMesh { verts, tri, uvs, normals, neighbors } = self;
        match tri {
            Indexing::Hetero(hetero) => {
                let uni = corner_indices(&hetero, CornerPart::Vertex);
                TriMesh { verts, tri: Indexing::Uniform(uni), uvs, normals, neighbors: None }
            },
            other => TriMesh { verts, tri: other, uvs, normals, neighbors },
        }
    }

    /// The mesh with a corner per index: each uniform index becomes a
    /// corner pointing to that index for vertex, uv and normal.
    fn indexed_to_hetero(self) -> (res: Self)
        requires
            !(self.tri is Linear),
        ensures
            self.tri is Hetero ==> res == self,
            self.tri matches Indexing::Uniform(u) ==> {
                &&& res.tri matches Indexing::Hetero(h) && h@ == u@.map_values(|i: usize| TriCorner::spec_uniform(i))
                &&& res.verts == self.verts
                &&& res.uvs == self.uvs
                &&& res.normals == self.normals
                &&& res.neighbors is None
            },
    {
        let TriMesh { verts, tri, uvs, normals, neighbors } = self;
        match tri {
            Indexing::Uniform(uni) => {
                let mut hetero: Vec<TriCorner> = Vec::new();
                let mut k: usize = 0;
                while k < uni.len()
                    invariant
                        k <= uni.len(),
                        hetero@ == uni@.take(k as int).map_values(|i: usize| TriCorner::spec_uniform(i)),
                    decreases uni.len() - k,
                {
                    hetero.push(TriCorner::uniform(uni[k]));
                    k = k + 1;
                    proof {
                        assert(hetero@ =~= uni@.take(k as int).map_values(|i: usize| TriCorner::spec_uniform(i)));
                    }
                }
                proof {
                    assert(uni@.take(k as int) == uni@);
                }
                TriMesh { verts, tri: Indexing::Hetero(hetero), uvs, normals, neighbors: None }
            },
            other => TriMesh { verts, tri: other, uvs, normals, neighbors },
        }
    }

    /// The mesh a linear mesh becomes with one index per kept vertex (see
    /// `kept_ids`): the kept vertices in order, the uniform index list of
    /// their old indices, their uvs and normals picked the same way (a
    /// shared one stays shared), and no neighbors.
    pub open spec fn uniform_of_linear(&self, similar: Seq<usize>, res: Self) -> bool {
        let kept = kept_ids(similar);
        &&& res.tri matches Indexing::Uniform(u) && u@ == kept
        &&& res.verts@ == kept.map_values(|i: usize| self.verts@[i as int])
        &&& self.uvs.picked_as(kept, res.uvs)
        &&& self.normals.picked_as(kept, res.normals)
        &&& res.neighbors is None
    }

    /// What a linear mesh needs for `to_uniform`: a similar vertex for each
    /// vertex, and a uv and a normal for each vertex that is kept.
    pub open spec fn linear_ready(&self, similar: Seq<usize>) -> bool {
        &&& similar.len() == self.verts.len()
        &&& forall|k: int| 0 <= k < kept_ids(similar).len() ==> self.uvs.has(#[trigger] kept_ids(similar)[k] as int)
            && self.normals.has(kept_ids(similar)[k] as int)
    }

    fn linear_to_uniform(self, similar: &Vec<usize>) -> (res: Self)
        requires
            self.linear_ready(similar@),
        ensures
            self.uniform_of_linear(similar@, res),
    {
        let ghost s0 = self;
        let ids = keep_ids(similar);
        proof {
            lemma_kept_ids_below(similar@);
        }
        let TriMesh { verts, tri, uvs, normals, neighbors } = self;
        let new_verts = gather(&verts, &ids);
        let new_uvs = uvs.pick(&ids);
        let new_normals = normals.pick(&ids);
        TriMesh { verts: new_verts, tri: Indexing::Uniform(ids), uvs: new_uvs, normals: new_normals, neighbors: None }
    }

    /// The mesh with one index per corner. A hetero mesh keeps the vertex
    /// index of each corner, with its vertices, uvs and normals as they are;
    /// a linear mesh keeps each vertex that `similar` (the earlier similar
    /// vertex of each vertex, or itself) maps to itself (see
    /// `uniform_of_linear`).
    pub fn to_uniform(self, similar: &Vec<usize>) -> (res: Self)
        requires
            self.tri is Linear ==> self.linear_ready(similar@),
        ensures
            self.tri is Uniform ==> res == self,
            self.tri is Hetero ==> {
                &&& res.tri matches Indexing::Uniform(u) && u@ == self.corner_ids(CornerPart::Vertex)
                &&& res.verts == self.verts
                &&& res.uvs == self.uvs
                &&& res.normals == self.normals
                &&& res.neighbors is None
            },
            self.tri is Linear ==> self.uniform_of_linear(similar@, res),
    {
        if let Indexing::Linear = self.tri {
            self.linear_to_uniform(similar)
        } else {
            self.indexed_to_uniform()
        }
    }

    /// The mesh with a corner per index: each uniform index becomes a
    /// corner pointing to that index for vertex, uv and normal; a linear
    /// mesh is first made uniform (see `to_uniform`).
    pub fn to_hetero(self, similar: &Vec<usize>) -> (res: Self)
        requires
            self.tri is Linear ==> self.linear_ready(similar@),
        ensures
            self.tri is Hetero ==> res == self,
            self.tri matches Indexing::Uniform(u) ==> {
                &&& res.tri matches Indexing::Hetero(h) && h@ == u@.map_values(|i: usize| TriCorner::spec_uniform(i))
                &&& res.verts == self.verts
                &&& res.uvs == self.uvs
                &&& res.normals == self.normals
                &&& res.neighbors is None
            },
            self.tri is Linear ==> exists|mid: Self| #[trigger] self.uniform_of_linear(similar@, mid) && {
                &&& res.tri matches Indexing::Hetero(h) && h@ == kept_ids(similar@).map_values(
                    |i: usize| TriCorner::spec_uniform(i),
                )
                &&& res.verts == mid.verts
                &&& res.uvs == mid.uvs
                &&& res.normals == mid.normals
                &&& res.neighbors is None
            },
    {
        if let Indexing::Linear = self.tri {
            let mid = self.linear_to_uniform(similar);
            let ghost m = mid;
            let res = mid.indexed_to_hetero();
            proof {
                assert(self.uniform_of_linear(similar@, m));
            }
            res
        } else {
            self.indexed_to_hetero()
        }
    }
}

} // verus!
