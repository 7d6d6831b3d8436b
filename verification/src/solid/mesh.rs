//! The index logic of triangle meshes: a mesh's triangles are the triples
//! of its index list `tri`, each index pointing to a vertex.
use vstd::prelude::*;
use vstd::multiset::Multiset;

verus! {

/// A triangle, as three vertex indices.
pub type Tri = (usize, usize, usize);

/// Triangle `k` of the index list `tri`.
pub open spec fn tri_at(tri: Seq<usize>, k: int) -> Tri {
    (tri[3 * k], tri[3 * k + 1], tri[3 * k + 2])
}

/// The triangles of the index list `tri`.
pub open spec fn triangles_of(tri: Seq<usize>) -> Seq<Tri> {
    Seq::new(tri.len() / 3, |k: int| tri_at(tri, k))
}

/// The index list of the triangles `ts`.
pub open spec fn flat_tris(ts: Seq<Tri>) -> Seq<usize>
    decreases ts.len(),
{
    if ts.len() == 0 {
        Seq::empty()
    } else {
        let t = ts.last();
        flat_tris(ts.drop_last()).push(t.0).push(t.1).push(t.2)
    }
}

/// Two corners of the triangle share a vertex.
pub open spec fn degenerate(t: Tri) -> bool {
    t.0 == t.1 || t.1 == t.2 || t.2 == t.0
}

/// The vertices of the triangle in ascending order.
pub open spec fn sorted_key(t: Tri) -> Tri {
    let lo = if t.0 <= t.1 && t.0 <= t.2 {
        t.0
    } else if t.1 <= t.2 {
        t.1
    } else {
        t.2
    };
    let hi = if t.0 >= t.1 && t.0 >= t.2 {
        t.0
    } else if t.1 >= t.2 {
        t.1
    } else {
        t.2
    };
    (lo, (t.0 + t.1 + t.2 - lo - hi) as usize, hi)
}

/// The triangles of `ts` that `clean_triangles` keeps: those with three
/// distinct vertices, once per set of vertices (the first one).
pub open spec fn kept_tris(ts: Seq<Tri>) -> Seq<Tri>
    decreases ts.len(),
{
    if ts.len() == 0 {
        Seq::empty()
    } else {
        let rest = kept_tris(ts.drop_last());
        let t = ts.last();
        if degenerate(t) || exists|j: int|
            0 <= j < rest.len() && #[trigger] sorted_key(rest[j]) == sorted_key(t) {
            rest
        } else {
            rest.push(t)
        }
    }
}

/// The number of triangles.
pub fn count_triangles(tri: &Vec<usize>) -> (n: usize)
    ensures
        n == tri.len() / 3,
{
    tri.len() / 3
}

/// The triangles of the index list, in order.
pub fn iter_triangles(tri: &Vec<usize>) -> (ts: Vec<Tri>)
    requires
        tri.len() % 3 == 0,
    ensures
        ts@ == triangles_of(tri@),
{
    let mut ts: Vec<Tri> = Vec::new();
    let mut i: usize = 0;
    while i < tri.len()
        invariant
            tri.len() % 3 == 0,
            i % 3 == 0,
            i <= tri.len(),
            ts.len() == i / 3,
            forall|k: int| 0 <= k < ts.len() ==> #[trigger] ts@[k] == tri_at(tri@, k),
        decreases tri.len() - i,
    {
        ts.push((tri[i], tri[i + 1], tri[i + 2]));
        i = i + 3;
    }
    proof {
        assert(ts@ =~= triangles_of(tri@));
    }
    ts
}

/// Edges `3k` to `3k + 2` are those of triangle `k`.
pub open spec fn edges_of_tri(edges: Seq<(usize, usize)>, tri: Seq<usize>, k: int) -> bool {
    &&& edges[3 * k] == (tri[3 * k], tri[3 * k + 1])
    &&& edges[3 * k + 1] == (tri[3 * k + 1], tri[3 * k + 2])
    &&& edges[3 * k + 2] == (tri[3 * k + 2], tri[3 * k])
}

/// The three edges `(a, b)`, `(b, c)`, `(c, a)` of each triangle, in order.
pub fn iter_edges(tri: &Vec<usize>) -> (edges: Vec<(usize, usize)>)
    requires
        tri.len() % 3 == 0,
    ensures
        edges.len() == tri.len(),
        forall|k: int| 0 <= k && 3 * k < tri.len() ==> #[trigger] edges_of_tri(edges@, tri@, k),
{
    let mut edges: Vec<(usize, usize)> = Vec::new();
    let mut i: usize = 0;
    while i < tri.len()
        invariant
            tri.len() % 3 == 0,
            i % 3 == 0,
            i <= tri.len(),
            edges.len() == i,
            forall|k: int|
                0 <= k && 3 * k < i ==> #[trigger] edges_of_tri(edges@, tri@, k),
        decreases tri.len() - i,
    {
        let ghost before = edges@;
        let (a, b, c) = (tri[i], tri[i + 1], tri[i + 2]);
        edges.push((a, b));
        edges.push((b, c));
        edges.push((c, a));
        let ghost i0 = i;
        i = i + 3;
        proof {
            assert forall|k: int| 0 <= k && 3 * k < i implies #[trigger] edges_of_tri(edges@, tri@, k) by {
                if 3 * k < i0 {
                    assert(edges_of_tri(before, tri@, k));
                    assert(3 * k + 2 < i0);
                } else {
                    assert(3 * k == i0);
                }
            }
        }
    }
    edges
}

/// The vertices of a triangle with distinct vertices, in ascending order.
fn sort(a: usize, b: usize, c: usize) -> (key: Tri)
    requires
        !degenerate((a, b, c)),
    ensures
        key == sorted_key((a, b, c)),
{
    if a < b && a < c {
        if b < c {
            (a, b, c)
        } else {
            (a, c, b)
        }
    } else if b < a && b < c {
        if a < c {
            (b, a, c)
        } else {
            (b, c, a)
        }
    } else {
        if a < b {
            (c, a, b)
        } else {
            (c, b, a)
        }
    }
}

/// Whether `keys` holds `key`.
fn holds_key(keys: &Vec<Tri>, key: Tri) -> (res: bool)
    ensures
        res == keys@.contains(key),
{
    let mut i: usize = 0;
    while i < keys.len()
        invariant
            i <= keys.len(),
            forall|j: int| 0 <= j < i ==> keys@[j] != key,
        decreases keys.len() - i,
    {
        let k = keys[i];
        if k.0 == key.0 && k.1 == key.1 && k.2 == key.2 {
            return true;
        }
        i = i + 1;
    }
    false
}

/// Removes the triangles with a repeated vertex, and every triangle over the
/// same three vertices as an earlier one.
pub fn clean_triangles(tri: &mut Vec<usize>)
    requires
        old(tri).len() % 3 == 0,
    ensures
        final(tri)@ == flat_tris(kept_tris(triangles_of(old(tri)@))),
{
    let ts = iter_triangles(tri);
    let mut cleaned_tri: Vec<usize> = Vec::new();
    let mut existing_tri: Vec<Tri> = Vec::new();
    let mut k: usize = 0;
    while k < ts.len()
        invariant
            k <= ts.len(),
            cleaned_tri@ == flat_tris(kept_tris(ts@.take(k as int))),
            existing_tri@ == kept_tris(ts@.take(k as int)).map_values(|t: Tri| sorted_key(t)),
        decreases ts.len() - k,
    {
        let (a, b, c) = ts[k];
        let ghost prefix = ts@.take(k as int);
        let ghost kept = kept_tris(prefix);
        proof {
            assert(ts@.take(k + 1).drop_last() == prefix);
            assert(ts@.take(k + 1).last() == (a, b, c));
        }
        if a == b || b == c || c == a {
            proof {
                assert(kept_tris(ts@.take(k + 1)) == kept);
            }
            k = k + 1;
            continue;
        }
        let hash = sort(a, b, c);
        if holds_key(&existing_tri, hash) {
            proof {
                let j = choose|j: int| 0 <= j < existing_tri.len() && existing_tri@[j] == hash;
                assert(sorted_key(kept[j]) == sorted_key((a, b, c)));
                assert(kept_tris(ts@.take(k + 1)) == kept);
            }
            k = k + 1;
            continue;
        }
        proof {
            assert forall|j: int| 0 <= j < kept.len() implies #[trigger] sorted_key(kept[j])
                != sorted_key((a, b, c)) by {
                assert(existing_tri@[j] == sorted_key(kept[j]));
            }
        }
        existing_tri.push(hash);
        cleaned_tri.push(a);
        cleaned_tri.push(b);
        cleaned_tri.push(c);
        proof {
            assert(kept_tris(ts@.take(k + 1)) == kept.push((a, b, c)));
            assert(kept.push((a, b, c)).drop_last() == kept);
            assert(existing_tri@ =~= kept.push((a, b, c)).map_values(|t: Tri| sorted_key(t)));
        }
        k = k + 1;
    }
    proof {
        assert(ts@.take(ts.len() as int) == ts@);
    }
    *tri = cleaned_tri;
}

} // verus!

verus! {

/// An edge without its direction: its ends in ascending order.
pub open spec fn undirected(e: (usize, usize)) -> (usize, usize) {
    if e.0 <= e.1 {
        e
    } else {
        (e.1, e.0)
    }
}

/// The undirected edges between consecutive entries of the chain `l`.
pub open spec fn links(l: Seq<usize>) -> Seq<(usize, usize)> {
    Seq::new((if l.len() == 0 { 0 } else { l.len() - 1 }) as nat, |k: int| undirected((l[k], l[k + 1])))
}

/// The links of all chains `ls`, one chain after the other.
pub open spec fn all_links(ls: Seq<Vec<usize>>) -> Seq<(usize, usize)>
    decreases ls.len(),
{
    if ls.len() == 0 {
        Seq::empty()
    } else {
        all_links(ls.drop_last()) + links(ls.last()@)
    }
}

/// The undirected edges of `edges`, counted with their multiplicity.
pub open spec fn edge_bag(edges: Seq<(usize, usize)>) -> Multiset<(usize, usize)> {
    edges.map_values(|e: (usize, usize)| undirected(e)).to_multiset()
}

/// Moving one element between the parts of a sum of bags keeps the sum.
proof fn lemma_bag_move(a: Multiset<(usize, usize)>, b: Multiset<(usize, usize)>, c: Multiset<(usize, usize)>, x: (usize, usize))
    ensures
        a.insert(x).add(b).add(c) == a.add(b).add(c.insert(x)),
{
    broadcast use vstd::multiset::group_multiset_axioms;

    assert(a.insert(x).add(b).add(c) =~= a.add(b).add(c.insert(x)));
}

/// Adding the bags of two sequences is taking the bag of both together.
proof fn lemma_bag_concat(a: Seq<(usize, usize)>, b: Seq<(usize, usize)>)
    ensures
        (a + b).to_multiset() == a.to_multiset().add(b.to_multiset()),
{
    vstd::seq_lib::lemma_multiset_commutative(a, b);
}

proof fn lemma_links_push(l: Seq<usize>, x: usize)
    requires
        l.len() > 0,
    ensures
        links(l.push(x)) == links(l).push(undirected((l.last(), x))),
{
    assert(links(l.push(x)) =~= links(l).push(undirected((l.last(), x))));
}

/// The position of the first edge of `edges`, from position `i` on, that
/// touches the vertex `v`.
pub open spec fn first_touching(edges: Seq<(usize, usize)>, v: usize, i: int) -> Option<int>
    decreases edges.len() - i,
{
    if i >= edges.len() {
        None
    } else if edges[i].0 == v || edges[i].1 == v {
        Some(i)
    } else {
        first_touching(edges, v, i + 1)
    }
}

/// The chain that the dominoes grow from `chain` (which started at `start`)
/// with the loose end `cursor`, taking edges from `rest`: the chain, and the
/// edges left.
pub open spec fn grow_chain(rest: Seq<(usize, usize)>, start: usize, cursor: usize, chain: Seq<usize>) -> (
    Seq<usize>,
    Seq<(usize, usize)>,
)
    decreases rest.len(),
{
    let grown = chain.push(cursor);
    match first_touching(rest, cursor, 0) {
        None => (grown, rest),
        Some(i) => {
            let edge = rest[i];
            let left = rest.remove(i);
            let next = if cursor == edge.0 { edge.1 } else { edge.0 };
            if next == start {
                (grown.push(start), left)
            } else {
                proof {
                    lemma_first_touching_range(rest, cursor, 0);
                }
                grow_chain(left, start, next, grown)
            }
        },
    }
}

/// The chains that the dominoes make of `edges`: the last edge starts a
/// chain, which grows until no edge touches its loose end or it closes.
pub open spec fn dominoes(edges: Seq<(usize, usize)>) -> Seq<Seq<usize>>
    decreases edges.len(),
{
    if edges.len() == 0 {
        Seq::empty()
    } else {
        let first = edges.last();
        let (chain, rest) = grow_chain(edges.drop_last(), first.0, first.1, seq![first.0]);
        proof {
            lemma_grow_chain_len(edges.drop_last(), first.0, first.1, seq![first.0]);
        }
        seq![chain] + dominoes(rest)
    }
}

pub proof fn lemma_grow_chain_len(rest: Seq<(usize, usize)>, start: usize, cursor: usize, chain: Seq<usize>)
    ensures
        grow_chain(rest, start, cursor, chain).1.len() <= rest.len(),
    decreases rest.len(),
{
    match first_touching(rest, cursor, 0) {
        None => {},
        Some(i) => {
            lemma_first_touching_range(rest, cursor, 0);
            let edge = rest[i];
            let next = if cursor == edge.0 { edge.1 } else { edge.0 };
            if next != start {
                lemma_grow_chain_len(rest.remove(i), start, next, chain.push(cursor));
            }
        },
    }
}

pub proof fn lemma_first_touching_range(edges: Seq<(usize, usize)>, v: usize, i: int)
    requires
        0 <= i,
    ensures
        first_touching(edges, v, i) matches Some(j) ==> i <= j < edges.len() && (edges[j].0 == v || edges[j].1 == v),
    decreases edges.len() - i,
{
    if i < edges.len() && !(edges[i].0 == v || edges[i].1 == v) {
        lemma_first_touching_range(edges, v, i + 1);
    }
}

proof fn lemma_first_touching(edges: Seq<(usize, usize)>, v: usize, i: int, j: int)
    requires
        0 <= i <= j <= edges.len(),
        forall|k: int| i <= k < j ==> edges[k].0 != v && edges[k].1 != v,
        j < edges.len() ==> edges[j].0 == v || edges[j].1 == v,
    ensures
        first_touching(edges, v, i) == if j < edges.len() { Some(j) } else { None::<int> },
    decreases j - i,
{
    if i < j {
        lemma_first_touching(edges, v, i + 1, j);
    }
}

/// The first edge of `edges` that touches the vertex `v`.
fn position_touching(edges: &Vec<(usize, usize)>, v: usize) -> (res: Option<usize>)
    ensures
        match res {
            Some(i) => i < edges.len() && (edges@[i as int].0 == v || edges@[i as int].1 == v)
                && forall|j: int| 0 <= j < i ==> edges@[j].0 != v && edges@[j].1 != v,
            None => forall|j: int| 0 <= j < edges.len() ==> edges@[j].0 != v && edges@[j].1 != v,
        },
        match res {
            Some(i) => first_touching(edges@, v, 0) == Some(i as int),
            None => first_touching(edges@, v, 0) is None,
        },
{
    let mut i: usize = 0;
    while i < edges.len()
        invariant
            i <= edges.len(),
            forall|j: int| 0 <= j < i ==> edges@[j].0 != v && edges@[j].1 != v,
        decreases edges.len() - i,
    {
        if edges[i].0 == v || edges[i].1 == v {
            proof {
                lemma_first_touching(edges@, v, 0, i as int);
            }
            return Some(i);
        }
        i = i + 1;
    }
    proof {
        lemma_first_touching(edges@, v, 0, edges.len() as int);
    }
    None
}

/// Joins consecutive edges into chains, playing dominoes: take the last
/// edge, then keep following the first remaining edge that touches the end
/// of the chain. A chain that comes back to its start is closed, and then
/// ends with its first vertex again.
///
/// Every chain has at least two vertices, and the links between consecutive
/// vertices of all chains are exactly the edges given, each used once.
pub fn aggregate_edges(edges: Vec<(usize, usize)>) -> (loops: Vec<Vec<usize>>)
    ensures
        loops@.map_values(|l: Vec<usize>| l@) == dominoes(edges@),
        forall|i: int| 0 <= i < loops.len() ==> (#[trigger] loops@[i]).len() >= 2,
        edge_bag(edges@) == all_links(loops@).to_multiset(),
{
    broadcast use vstd::seq_lib::group_to_multiset_ensures;

    let ghost bag = edge_bag(edges@);
    let ghost all = edges@;
    let mut edges = edges;
    let mut loops: Vec<Vec<usize>> = Vec::new();
    proof {
        assert(loops@.map_values(|l: Vec<usize>| l@) + dominoes(edges@) =~= dominoes(all));
    }
    while edges.len() > 0
        invariant
            bag == edge_bag(edges@).add(all_links(loops@).to_multiset()),
            forall|i: int| 0 <= i < loops.len() ==> (#[trigger] loops@[i]).len() >= 2,
            loops@.map_values(|l: Vec<usize>| l@) + dominoes(edges@) == dominoes(all),
        decreases edges.len(),
    {
        let ghost before = edges@;
        let ghost target = grow_chain(before.drop_last(), before.last().0, before.last().1, seq![before.last().0]);
        let first_edge = edges.pop().unwrap();
        proof {
            assert(before.map_values(|e: (usize, usize)| undirected(e)) == edges@.map_values(
                |e: (usize, usize)| undirected(e),
            ).push(undirected(first_edge)));
        }
        let ghost n0 = edges.len();
        let mut this_loop: Vec<usize> = vec![first_edge.0];
        let mut cursor = first_edge.1;
        proof {
            let u = undirected(first_edge);
            assert(links(this_loop@.push(cursor)) =~= Seq::<(usize, usize)>::empty().push(u));
            Seq::<(usize, usize)>::empty().to_multiset_ensures();
            assert(Seq::<(usize, usize)>::empty().to_multiset() =~= Multiset::empty()) by {
                broadcast use vstd::multiset::group_multiset_axioms;
            }
            assert(Seq::<(usize, usize)>::empty().push(u).to_multiset() =~= Multiset::empty().insert(u));
            edges@.map_values(|e: (usize, usize)| undirected(e)).to_multiset_ensures();
            assert(edge_bag(before) == edge_bag(edges@).insert(u));
            lemma_bag_move(edge_bag(edges@), all_links(loops@).to_multiset(), Multiset::empty(), u);
            assert(edge_bag(edges@).add(all_links(loops@).to_multiset()).add(Multiset::empty())
                =~= edge_bag(edges@).add(all_links(loops@).to_multiset())) by {
                broadcast use vstd::multiset::group_multiset_axioms;
            }
        }
        proof {
            assert(this_loop@ == seq![first_edge.0]);
            assert(edges@ == before.drop_last());
        }
        loop
            invariant_except_break
                this_loop.len() >= 1,
                edges.len() <= n0,
                bag == edge_bag(edges@).add(all_links(loops@).to_multiset()).add(
                    links(this_loop@.push(cursor)).to_multiset(),
                ),
                grow_chain(edges@, first_edge.0, cursor, this_loop@) == target,
            ensures
                this_loop.len() >= 2,
                edges.len() <= n0,
                bag == edge_bag(edges@).add(all_links(loops@).to_multiset()).add(
                    links(this_loop@).to_multiset(),
                ),
                this_loop@ == target.0,
                edges@ == target.1,
            decreases edges.len(),
        {
            this_loop.push(cursor);
            let found = position_touching(&edges, cursor);
            match found {
                None => {
                    break ;
                },
                Some(index) => {
                    let ghost rest = edges@;
                    let edge = edges.remove(index);
                    let prev = cursor;
                    if cursor == edge.0 {
                        cursor = edge.1;
                    } else {
                        cursor = edge.0;
                    }
                    proof {
                        let m = rest.map_values(|e: (usize, usize)| undirected(e));
                        let u = m[index as int];
                        assert(edges@.map_values(|e: (usize, usize)| undirected(e)) =~= m.remove(
                            index as int,
                        ));
                        assert(undirected((prev, cursor)) == u);
                        m.to_multiset_ensures();
                        links(this_loop@).to_multiset_ensures();
                        assert(m.remove(index as int).to_multiset() =~= m.to_multiset().remove(u));
                        assert(m.to_multiset().count(u) > 0) by {
                            assert(m.contains(u));
                        }
                        assert(edge_bag(rest) =~= edge_bag(edges@).insert(u)) by {
                            broadcast use vstd::multiset::group_multiset_axioms;
                        }
                        lemma_links_push(this_loop@, cursor);
                        assert(links(this_loop@.push(cursor)).to_multiset() =~= links(this_loop@).to_multiset().insert(u));
                        lemma_bag_move(edge_bag(edges@), all_links(loops@).to_multiset(), links(this_loop@).to_multiset(), u);
                    }
                    if cursor == first_edge.0 {
                        this_loop.push(first_edge.0);
                        break ;
                    }
                },
            }
        }
        let ghost old_loops = loops@;
        loops.push(this_loop);
        proof {
            assert(dominoes(before) == seq![target.0] + dominoes(target.1));
            assert(loops@.map_values(|l: Vec<usize>| l@) =~= old_loops.map_values(|l: Vec<usize>| l@).push(target.0));
            assert(loops@.map_values(|l: Vec<usize>| l@) + dominoes(edges@) =~= old_loops.map_values(
                |l: Vec<usize>| l@,
            ) + dominoes(before));
            assert(loops@.drop_last() == old_loops);
            assert(all_links(loops@) == all_links(old_loops) + links(this_loop@));
            lemma_bag_concat(all_links(old_loops), links(this_loop@));
            assert(edge_bag(edges@).add(all_links(old_loops).to_multiset()).add(
                links(this_loop@).to_multiset(),
            ) =~= edge_bag(edges@).add(all_links(loops@).to_multiset())) by {
                broadcast use vstd::multiset::group_multiset_axioms;
            }
        }
    }
    proof {
        assert(dominoes(edges@) == Seq::<Seq<usize>>::empty());
        assert(loops@.map_values(|l: Vec<usize>| l@) + Seq::<Seq<usize>>::empty() =~= loops@.map_values(
            |l: Vec<usize>| l@,
        ));
        assert(edges@.map_values(|e: (usize, usize)| undirected(e)) =~= Seq::empty());
        assert(edge_bag(edges@) =~= Multiset::empty());
        assert(Multiset::<(usize, usize)>::empty().add(all_links(loops@).to_multiset()) =~= all_links(loops@).to_multiset()) by {
            broadcast use vstd::multiset::group_multiset_axioms;
        }
    }
    loops
}

} // verus!

verus! {

/// An edge, and the triangles on its sides: the first one, and the last one
/// after it, if any.
pub type EdgeSides = ((usize, usize), (usize, Option<usize>));

/// Corner `i` of the index list and the corner after it in its triangle.
pub open spec fn corner_edge(tri: Seq<usize>, i: int) -> (usize, usize) {
    if i % 3 == 2 {
        (tri[i], tri[i - 2])
    } else {
        (tri[i], tri[i + 1])
    }
}

/// Each edge of each triangle, undirected, with the index of its triangle.
pub open spec fn edge_occurrences(tri: Seq<usize>) -> Seq<((usize, usize), usize)> {
    Seq::new(tri.len(), |i: int| (undirected(corner_edge(tri, i)), (i / 3) as usize))
}

/// The edges of the occurrences `occ`, in the order in which they first
/// occur, each with the triangle of its first occurrence and that of its
/// last later occurrence.
pub open spec fn neighborized(occ: Seq<((usize, usize), usize)>) -> Seq<EdgeSides>
    decreases occ.len(),
{
    if occ.len() == 0 {
        Seq::empty()
    } else {
        let r = neighborized(occ.drop_last());
        let (k, t) = occ.last();
        if exists|j: int| 0 <= j < r.len() && (#[trigger] r[j]).0 == k {
            let j = choose|j: int| 0 <= j < r.len() && (#[trigger] r[j]).0 == k;
            r.update(j, (k, (r[j].1.0, Some(t))))
        } else {
            r.push((k, (t, None)))
        }
    }
}

/// The keys of the entries are distinct.
pub open spec fn distinct_keys(r: Seq<EdgeSides>) -> bool {
    forall|a: int, b: int| 0 <= a < r.len() && 0 <= b < r.len() && a != b ==> (#[trigger] r[a]).0 != (#[trigger] r[b]).0
}

/// The edges of `r` that border one triangle only.
pub open spec fn naked(r: Seq<EdgeSides>) -> Seq<(usize, usize)>
    decreases r.len(),
{
    if r.len() == 0 {
        Seq::empty()
    } else {
        let rest = naked(r.drop_last());
        if r.last().1.1 is None {
            rest.push(r.last().0)
        } else {
            rest
        }
    }
}

/// Where every index of `tri` is at most `b`, so are both ends of every
/// naked edge.
pub proof fn lemma_naked_bounded(tri: Seq<usize>, b: int)
    requires
        tri.len() % 3 == 0,
        forall|k: int| 0 <= k < tri.len() ==> #[trigger] tri[k] <= b,
    ensures
        forall|k: int| 0 <= k < naked(neighborized(edge_occurrences(tri))).len() ==> {
            let e = #[trigger] naked(neighborized(edge_occurrences(tri)))[k];
            e.0 <= b && e.1 <= b
        },
{
    let occ = edge_occurrences(tri);
    assert forall|i: int| 0 <= i < occ.len() implies (#[trigger] occ[i]).0.0 <= b && occ[i].0.1 <= b by {
        if i % 3 == 2 {
            assert(tri[i - 2] <= b);
        } else {
            assert(tri[i + 1] <= b);
        }
        assert(tri[i] <= b);
    }
    lemma_neighborized_bounded(occ, b);
    lemma_naked_keys_bounded(neighborized(occ), b);
}

proof fn lemma_neighborized_bounded(occ: Seq<((usize, usize), usize)>, b: int)
    requires
        forall|i: int| 0 <= i < occ.len() ==> (#[trigger] occ[i]).0.0 <= b && occ[i].0.1 <= b,
    ensures
        forall|j: int| 0 <= j < neighborized(occ).len() ==> (#[trigger] neighborized(occ)[j]).0.0 <= b
            && neighborized(occ)[j].0.1 <= b,
    decreases occ.len(),
{
    if occ.len() > 0 {
        let o = occ.drop_last();
        assert forall|i: int| 0 <= i < o.len() implies (#[trigger] o[i]).0.0 <= b && o[i].0.1 <= b by {
            assert(o[i] == occ[i]);
        }
        lemma_neighborized_bounded(o, b);
        assert(occ.last() == occ[occ.len() - 1]);
        let r = neighborized(o);
        let n = neighborized(occ);
        let (k, t) = occ.last();
        if exists|j: int| 0 <= j < r.len() && (#[trigger] r[j]).0 == k {
            let j = choose|j: int| 0 <= j < r.len() && (#[trigger] r[j]).0 == k;
            assert(n == r.update(j, (k, (r[j].1.0, Some(t)))));
            assert forall|i: int| 0 <= i < n.len() implies (#[trigger] n[i]).0.0 <= b && n[i].0.1 <= b by {
                if i != j {
                    assert(n[i] == r[i]);
                }
            }
        } else {
            assert(n == r.push((k, (t, None))));
            assert forall|i: int| 0 <= i < n.len() implies (#[trigger] n[i]).0.0 <= b && n[i].0.1 <= b by {
                if i < r.len() {
                    assert(n[i] == r[i]);
                }
            }
        }
    }
}

proof fn lemma_naked_keys_bounded(r: Seq<EdgeSides>, b: int)
    requires
        forall|j: int| 0 <= j < r.len() ==> (#[trigger] r[j]).0.0 <= b && r[j].0.1 <= b,
    ensures
        forall|k: int| 0 <= k < naked(r).len() ==> (#[trigger] naked(r)[k]).0 <= b && naked(r)[k].1 <= b,
    decreases r.len(),
{
    if r.len() > 0 {
        let d = r.drop_last();
        assert forall|j: int| 0 <= j < d.len() implies (#[trigger] d[j]).0.0 <= b && d[j].0.1 <= b by {
            assert(d[j] == r[j]);
        }
        lemma_naked_keys_bounded(d, b);
        assert(r.last() == r[r.len() - 1]);
        let rest = naked(d);
        let n = naked(r);
        assert forall|k: int| 0 <= k < n.len() implies (#[trigger] n[k]).0 <= b && n[k].1 <= b by {
            if k < rest.len() {
                assert(n[k] == rest[k]);
            }
        }
    }
}

proof fn lemma_neighborized_distinct(occ: Seq<((usize, usize), usize)>)
    ensures
        distinct_keys(neighborized(occ)),
    decreases occ.len(),
{
    if occ.len() > 0 {
        lemma_neighborized_distinct(occ.drop_last());
    }
}

/// The entry of `r` with key `k`, if any.
fn find_key(r: &Vec<EdgeSides>, k: (usize, usize)) -> (res: Option<usize>)
    ensures
        match res {
            Some(j) => j < r.len() && r@[j as int].0 == k,
            None => forall|j: int| 0 <= j < r.len() ==> (#[trigger] r@[j]).0 != k,
        },
{
    let mut j: usize = 0;
    while j < r.len()
        invariant
            j <= r.len(),
            forall|i: int| 0 <= i < j ==> (#[trigger] r@[i]).0 != k,
        decreases r.len() - j,
    {
        let key = r[j].0;
        if key.0 == k.0 && key.1 == k.1 {
            return Some(j);
        }
        j = j + 1;
    }
    None
}

/// For each edge of the mesh, the triangles on its sides: the first
/// triangle that has it, and the last later one, if any. The edges come in
/// the order in which the triangles first have them.
pub fn get_neighborized_edges(tri: &Vec<usize>) -> (res: Vec<EdgeSides>)
    requires
        tri.len() % 3 == 0,
    ensures
        res@ == neighborized(edge_occurrences(tri@)),
{
    let mut res: Vec<EdgeSides> = Vec::new();
    let ghost occ = edge_occurrences(tri@);
    let mut i: usize = 0;
    while i < tri.len()
        invariant
            tri.len() % 3 == 0,
            i <= tri.len(),
            occ == edge_occurrences(tri@),
            res@ == neighborized(occ.take(i as int)),
        decreases tri.len() - i,
    {
        let triangle_index = i / 3;
        let a = tri[i];
        let b = if i % 3 == 2 {
            tri[i - 2]
        } else {
            tri[i + 1]
        };
        let key = if a < b {
            (a, b)
        } else {
            (b, a)
        };
        proof {
            assert(occ.take(i + 1).drop_last() == occ.take(i as int));
            assert(occ.take(i + 1).last() == (key, triangle_index));
            lemma_neighborized_distinct(occ.take(i as int));
        }
        let found = find_key(&res, key);
        match found {
            Some(j) => {
                let first = res[j].1.0;
                res.set(j, (key, (first, Some(triangle_index))));
                proof {
                    let r = neighborized(occ.take(i as int));
                    let c = choose|c: int| 0 <= c < r.len() && (#[trigger] r[c]).0 == key;
                    assert(c == j);
                }
            },
            None => {
                res.push((key, (triangle_index, None)));
            },
        }
        i = i + 1;
    }
    proof {
        assert(occ.take(tri.len() as int) == occ);
    }
    res
}

/// The edges of the mesh that border one triangle only.
pub fn iter_naked_edges(tri: &Vec<usize>) -> (edges: Vec<(usize, usize)>)
    requires
        tri.len() % 3 == 0,
    ensures
        edges@ == naked(neighborized(edge_occurrences(tri@))),
{
    let sides = get_neighborized_edges(tri);
    let mut edges: Vec<(usize, usize)> = Vec::new();
    let mut j: usize = 0;
    while j < sides.len()
        invariant
            j <= sides.len(),
            edges@ == naked(sides@.take(j as int)),
        decreases sides.len() - j,
    {
        proof {
            assert(sides@.take(j + 1).drop_last() == sides@.take(j as int));
        }
        let (key, (_t1, t2)) = sides[j];
        if t2.is_none() {
            edges.push(key);
        }
        j = j + 1;
    }
    proof {
        assert(sides@.take(sides.len() as int) == sides@);
    }
    edges
}

} // verus!
