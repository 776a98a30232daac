//! Cellular sheaves over graphs: a stalk dimension at every node and a
//! restriction matrix on every edge.
//!
//! Matrix entries are of any copyable type `T`; constructors that need an
//! identity matrix are handed the zero and the one of `T`.

use vstd::prelude::*;
use crate::error::SheafError;
use crate::cover::pair_before;

verus! {

/// A cellular sheaf over a graph: `graph[i]` lists the neighbours of node
/// `i`, `stalk_dims[i]` is the dimension of its stalk, and each entry
/// `(source, target, matrix)` of `restriction_maps` maps the stalk of
/// `source` to that of `target`.
#[derive(Debug, Clone)]
pub struct CellularSheaf<T> {
    pub graph: Vec<Vec<usize>>,
    pub stalk_dims: Vec<usize>,
    pub restriction_maps: Vec<(usize, usize, Vec<Vec<T>>)>,
}

/// The rows of a matrix stored as a vector of rows.
pub open spec fn rows_of<T>(m: Vec<Vec<T>>) -> Seq<Seq<T>> {
    m@.map_values(|row: Vec<T>| row@)
}

/// The `n × n` identity matrix over `T`, given its zero and its one.
pub open spec fn identity_rows<T>(n: nat, zero: T, one: T) -> Seq<Seq<T>> {
    Seq::new(n, |r: int| Seq::new(n, |c: int| if r == c { one } else { zero }))
}

/// Law: the identity matrix is square with `one` exactly on the diagonal
/// and `zero` everywhere else, so every restriction map that
/// `identity_matrix` (and `path`, `cycle`, `complete`) builds leaves each
/// coordinate where it is.
pub proof fn law_identity_is_diagonal<T>(n: nat, zero: T, one: T)
    requires
        zero != one,
    ensures
        identity_rows(n, zero, one).len() == n,
        forall|r: int| 0 <= r < n ==> (#[trigger] identity_rows(n, zero, one)[r]).len() == n,
        forall|r: int, c: int| 0 <= r < n && 0 <= c < n ==> (#[trigger] identity_rows(n, zero, one)[r][c] == one <==> r == c),
        forall|r: int, c: int| 0 <= r < n && 0 <= c < n && r != c ==> #[trigger] identity_rows(n, zero, one)[r][c] == zero,
{
}

/// Number of columns a matrix reports: the length of its first row, or 0
/// when it has no rows.
pub open spec fn first_row_len<T>(m: Seq<Vec<T>>) -> nat {
    if m.len() == 0 {
        0
    } else {
        m[0]@.len()
    }
}

/// The restriction map `m` fits the stalks: both nodes exist, and the
/// matrix has as many rows as the target stalk's dimension and (by its first
/// row) as many columns as the source stalk's.
pub open spec fn map_fits<T>(dims: Seq<usize>, m: (usize, usize, Vec<Vec<T>>)) -> bool {
    &&& m.0 < dims.len()
    &&& m.1 < dims.len()
    &&& m.2@.len() == dims[m.1 as int]
    &&& first_row_len(m.2@) == dims[m.0 as int]
}

/// The error that `validate` reports for a map that does not fit.
pub open spec fn map_error<T>(dims: Seq<usize>, m: (usize, usize, Vec<Vec<T>>)) -> SheafError {
    if m.0 >= dims.len() || m.1 >= dims.len() {
        SheafError::InvalidEdge(m.0, m.1)
    } else {
        SheafError::DimensionMismatch {
            edge: (m.0, m.1),
            expected_rows: dims[m.1 as int],
            expected_cols: dims[m.0 as int],
            got_rows: m.2@.len() as usize,
            got_cols: first_row_len(m.2@) as usize,
        }
    }
}

/// The maps checked in order: the error of the first one that does not fit.
pub open spec fn first_misfit<T>(dims: Seq<usize>, maps: Seq<(usize, usize, Vec<Vec<T>>)>) -> Result<(), SheafError>
    decreases maps.len(),
{
    if maps.len() == 0 {
        Ok(())
    } else if !map_fits(dims, maps[0]) {
        Err(map_error(dims, maps[0]))
    } else {
        first_misfit(dims, maps.drop_first())
    }
}

/// What `validate` returns: `EmptySheaf` when there are no nodes, else the
/// error of the first restriction map that does not fit.
pub open spec fn validation<T>(dims: Seq<usize>, maps: Seq<(usize, usize, Vec<Vec<T>>)>) -> Result<(), SheafError> {
    if dims.len() == 0 {
        Err(SheafError::EmptySheaf)
    } else {
        first_misfit(dims, maps)
    }
}

/// The checks pass exactly when every map fits.
pub proof fn lemma_first_misfit_ok<T>(dims: Seq<usize>, maps: Seq<(usize, usize, Vec<Vec<T>>)>)
    ensures
        first_misfit(dims, maps) is Ok <==> forall|t: int| 0 <= t < maps.len() ==> map_fits(dims, #[trigger] maps[t]),
    decreases maps.len(),
{
    if maps.len() > 0 {
        lemma_first_misfit_ok(dims, maps.drop_first());
        if forall|t: int| 0 <= t < maps.drop_first().len() ==> map_fits(dims, #[trigger] maps.drop_first()[t]) {
            if map_fits(dims, maps[0]) {
                assert forall|t: int| 0 <= t < maps.len() implies map_fits(dims, #[trigger] maps[t]) by {
                    if t > 0 {
                        assert(maps[t] == maps.drop_first()[t - 1]);
                    }
                }
            }
        } else {
            let t = choose|t: int| 0 <= t < maps.drop_first().len() && !map_fits(dims, #[trigger] maps.drop_first()[t]);
            assert(maps[t + 1] == maps.drop_first()[t]);
        }
    }
}

/// Sum of the stalk dimensions.
pub open spec fn dims_total(dims: Seq<usize>) -> int
    decreases dims.len(),
{
    if dims.len() == 0 {
        0
    } else {
        dims_total(dims.drop_last()) + dims.last()
    }
}

/// The `n × n` identity matrix, from the zero and the one of `T`.
pub fn identity_matrix<T: Copy>(n: usize, zero: T, one: T) -> (r: Vec<Vec<T>>)
    ensures
        rows_of(r) == identity_rows(n as nat, zero, one),
{
    let mut m: Vec<Vec<T>> = Vec::new();
    let mut i: usize = 0;
    while i < n
        invariant
            i <= n,
            m@.len() == i,
            forall|r: int| 0 <= r < i ==> (#[trigger] m@[r])@ == identity_rows(n as nat, zero, one)[r],
        decreases n - i,
    {
        let mut row: Vec<T> = Vec::new();
        let mut c: usize = 0;
        while c < n
            invariant
                c <= n,
                i < n,
                row@.len() == c,
                forall|k: int| 0 <= k < c ==> #[trigger] row@[k] == (if i == k { one } else { zero }),
            decreases n - c,
        {
            if c == i {
                row.push(one);
            } else {
                row.push(zero);
            }
            c += 1;
        }
        assert(row@ =~= identity_rows(n as nat, zero, one)[i as int]);
        m.push(row);
        i += 1;
    }
    assert(rows_of(m) =~= identity_rows(n as nat, zero, one));
    m
}

/// Adjacency lists by their contents.
pub open spec fn lists_of(g: Seq<Vec<usize>>) -> Seq<Seq<usize>> {
    g.map_values(|v: Vec<usize>| v@)
}

/// Restriction maps with each matrix by its rows.
pub open spec fn maps_of<T>(maps: Seq<(usize, usize, Vec<Vec<T>>)>) -> Seq<(usize, usize, Seq<Seq<T>>)> {
    maps.map_values(|m: (usize, usize, Vec<Vec<T>>)| (m.0, m.1, rows_of(m.2)))
}

/// Neighbours of node `v` once the path edges `(t, t + 1)` for `t < edges`
/// are in: its predecessor, then its successor.
pub open spec fn path_lists(edges: int, v: int) -> Seq<usize> {
    (if 0 < v <= edges {
        seq![(v - 1) as usize]
    } else {
        Seq::empty()
    }) + (if 0 <= v < edges {
        seq![(v + 1) as usize]
    } else {
        Seq::empty()
    })
}

/// Neighbours of node `v` in the complete graph on `n` nodes: every other
/// node, in increasing order.
pub open spec fn complete_lists(n: int, v: int) -> Seq<usize> {
    Seq::new(v as nat, |u: int| u as usize) + Seq::new((n - v - 1) as nat, |t: int| (v + 1 + t) as usize)
}

/// Neighbours of node `v` in the cycle on `n` nodes: those on the path,
/// then the closing edge `(n - 1, 0)`.
pub open spec fn cycle_lists(n: int, v: int) -> Seq<usize> {
    path_lists(n - 1, v) + (if v == n - 1 {
        seq![0usize]
    } else if v == 0 {
        seq![(n - 1) as usize]
    } else {
        Seq::empty()
    })
}

/// Adjacency lists of the complete graph on `n` nodes while its edges are
/// added: all edges `(a, b)` with `a < i`, and `(i, b)` with `b < j`.
spec fn complete_partial(n: int, i: int, j: int, v: int) -> Seq<usize> {
    if v < i {
        complete_lists(n, v)
    } else if v == i {
        Seq::new(i as nat, |u: int| u as usize) + Seq::new((j - i - 1) as nat, |t: int| (i + 1 + t) as usize)
    } else if v < j {
        Seq::new((i + 1) as nat, |u: int| u as usize)
    } else {
        Seq::new(i as nat, |u: int| u as usize)
    }
}

/// Some map of `maps` goes from `a` to `b`.
pub open spec fn lists_map<T>(maps: Seq<(usize, usize, Seq<Seq<T>>)>, a: usize, b: usize) -> bool {
    exists|t: int| 0 <= t < maps.len() && maps[t].0 == a && maps[t].1 == b
}

/// `maps` holds the edges `(a, b)`, `a < b < n`, with `a < i` or
/// (`a == i` and `b < j`), each once, in lexicographic order, each with
/// matrix `m`.
pub open spec fn edge_maps_below<T>(maps: Seq<(usize, usize, Seq<Seq<T>>)>, n: int, i: int, j: int, m: Seq<Seq<T>>) -> bool {
    &&& forall|t: int|
        0 <= t < maps.len() ==> {
            let e = #[trigger] maps[t];
            &&& e.0 < e.1 < n
            &&& e.2 == m
            &&& (e.0 < i || (e.0 == i && e.1 < j))
        }
    &&& forall|s: int, t: int|
        0 <= s < t < maps.len() ==> pair_before((maps[s].0, maps[s].1), (maps[t].0, maps[t].1))
    &&& forall|a: usize, b: usize|
        a < b < n && (a < i || (a == i && b < j)) ==> #[trigger] lists_map(maps, a, b)
}

/// `n` empty adjacency lists.
fn empty_lists(n: usize) -> (r: Vec<Vec<usize>>)
    ensures
        lists_of(r@) == Seq::new(n as nat, |v: int| Seq::<usize>::empty()),
{
    let mut g: Vec<Vec<usize>> = Vec::new();
    let mut i: usize = 0;
    while i < n
        invariant
            i <= n,
            g@.len() == i,
            lists_of(g@) == Seq::new(i as nat, |v: int| Seq::<usize>::empty()),
        decreases n - i,
    {
        let ghost before = g@;
        let e: Vec<usize> = Vec::new();
        g.push(e);
        i += 1;
        assert forall|k: int| 0 <= k < i implies #[trigger] lists_of(g@)[k] == Seq::<usize>::empty() by {
            if k < i - 1 {
                assert(g@[k] == before[k]);
                assert(lists_of(before)[k] == Seq::<usize>::empty());
            }
        }
        assert(lists_of(g@) =~= Seq::new(i as nat, |v: int| Seq::<usize>::empty()));
    }
    g
}

/// `n` copies of `d`.
fn repeated(n: usize, d: usize) -> (r: Vec<usize>)
    ensures
        r@ == Seq::new(n as nat, |v: int| d),
{
    let mut out: Vec<usize> = Vec::new();
    let mut i: usize = 0;
    while i < n
        invariant
            i <= n,
            out@ == Seq::new(i as nat, |v: int| d),
        decreases n - i,
    {
        out.push(d);
        i += 1;
        assert(out@ =~= Seq::new(i as nat, |v: int| d));
    }
    out
}

/// Append `u` to the adjacency list of `v`.
fn add_neighbor(graph: &mut Vec<Vec<usize>>, v: usize, u: usize)
    requires
        v < old(graph)@.len(),
    ensures
        final(graph)@.len() == old(graph)@.len(),
        lists_of(final(graph)@) == lists_of(old(graph)@).update(v as int, lists_of(old(graph)@)[v as int].push(u)),
{
    let mut row = crate::sorted::copy_indices(graph[v].as_slice());
    row.push(u);
    graph.set(v, row);
    assert(lists_of(graph@) =~= lists_of(old(graph)@).update(v as int, lists_of(old(graph)@)[v as int].push(u)));
}

/// An identity matrix has as many rows as columns.
pub proof fn lemma_identity_fits<T>(m: Vec<Vec<T>>, n: nat, zero: T, one: T)
    requires
        rows_of(m) == identity_rows(n, zero, one),
    ensures
        m@.len() == n,
        first_row_len(m@) == n,
{
    assert(rows_of(m).len() == n);
    if n > 0 {
        assert(m@[0]@ == identity_rows(n, zero, one)[0]);
    }
}

impl<T> CellularSheaf<T> {
    /// The adjacency lists.
    pub open spec fn adjacency(&self) -> Seq<Seq<usize>> {
        self.graph@.map_values(|v: Vec<usize>| v@)
    }

    /// The restriction maps, each matrix by its rows.
    pub open spec fn maps(&self) -> Seq<(usize, usize, Seq<Seq<T>>)> {
        self.restriction_maps@.map_values(|m: (usize, usize, Vec<Vec<T>>)| (m.0, m.1, rows_of(m.2)))
    }

    /// A sheaf of `n` isolated nodes with stalks of dimension `stalk_dim`;
    /// `EmptySheaf` when `n` is 0.
    pub fn constant(n: usize, stalk_dim: usize) -> (r: Result<Self, SheafError>)
        ensures
            n == 0 ==> r matches Err(SheafError::EmptySheaf),
            n > 0 ==> (r matches Ok(s) && s.adjacency() == Seq::new(n as nat, |v: int| Seq::<usize>::empty())
                && s.stalk_dims@ == Seq::new(n as nat, |v: int| stalk_dim) && s.restriction_maps@.len() == 0),
            r matches Ok(s) ==> validation(s.stalk_dims@, s.restriction_maps@) is Ok,
    {
        if n == 0 {
            return Err(SheafError::EmptySheaf);
        }
        let graph = empty_lists(n);
        let stalk_dims = repeated(n, stalk_dim);
        let s = CellularSheaf { graph, stalk_dims, restriction_maps: Vec::new() };
        assert(s.adjacency() =~= lists_of(s.graph@));
        Ok(s)
    }

    /// A sheaf on the path `0 — 1 — … — (n-1)`: stalks of dimension
    /// `stalk_dim`, identity restriction maps on the edges `(i, i + 1)`;
    /// `EmptySheaf` when `n` is 0.
    pub fn path(n: usize, stalk_dim: usize, zero: T, one: T) -> (r: Result<Self, SheafError>)
        where T: Copy,
        ensures
            n == 0 ==> r matches Err(SheafError::EmptySheaf),
            n > 0 ==> (r matches Ok(s) && s.adjacency() == Seq::new(n as nat, |v: int| path_lists(n - 1, v))
                && s.stalk_dims@ == Seq::new(n as nat, |v: int| stalk_dim)
                && s.maps() == Seq::new((n - 1) as nat, |t: int| (t as usize, (t + 1) as usize, identity_rows(stalk_dim as nat, zero, one)))),
            r matches Ok(s) ==> validation(s.stalk_dims@, s.restriction_maps@) is Ok,
    {
        if n == 0 {
            return Err(SheafError::EmptySheaf);
        }
        let mut graph = empty_lists(n);
        let mut maps: Vec<(usize, usize, Vec<Vec<T>>)> = Vec::new();
        let mut i: usize = 0;
        assert(lists_of(graph@) =~= Seq::new(n as nat, |v: int| path_lists(0, v)));
        while i + 1 < n
            invariant
                n > 0,
                i < n,
                graph@.len() == n,
                lists_of(graph@) == Seq::new(n as nat, |v: int| path_lists(i as int, v)),
                maps_of(maps@) == Seq::new(i as nat, |t: int| (t as usize, (t + 1) as usize, identity_rows(stalk_dim as nat, zero, one))),
            decreases n - i,
        {
            add_neighbor(&mut graph, i, i + 1);
            add_neighbor(&mut graph, i + 1, i);
            let identity = identity_matrix(stalk_dim, zero, one);
            let ghost before = maps@;
            maps.push((i, i + 1, identity));
            assert(maps@ == before.push((i, (i + 1) as usize, identity)));
            assert(maps_of(maps@) =~= maps_of(before).push((i, (i + 1) as usize, rows_of(identity))));
            i += 1;
            assert(lists_of(graph@) =~= Seq::new(n as nat, |v: int| path_lists(i as int, v)));
            assert(maps_of(maps@) =~= Seq::new(i as nat, |t: int| (t as usize, (t + 1) as usize, identity_rows(stalk_dim as nat, zero, one))));
        }
        let stalk_dims = repeated(n, stalk_dim);
        let s = CellularSheaf { graph, stalk_dims, restriction_maps: maps };
        proof {
            assert(s.adjacency() =~= lists_of(s.graph@));
            assert forall|t: int| 0 <= t < s.restriction_maps@.len() implies map_fits(s.stalk_dims@, #[trigger] s.restriction_maps@[t]) by {
                assert(maps_of(s.restriction_maps@)[t] == (t as usize, (t + 1) as usize, identity_rows(stalk_dim as nat, zero, one)));
                lemma_identity_fits(s.restriction_maps@[t].2, stalk_dim as nat, zero, one);
            }
            lemma_first_misfit_ok(s.stalk_dims@, s.restriction_maps@);
        }
        Ok(s)
    }

    /// A sheaf on the cycle `0 — 1 — … — (n-1) — 0`: the path with the
    /// closing edge `(n - 1, 0)`; `EmptySheaf` when `n < 3`.
    pub fn cycle(n: usize, stalk_dim: usize, zero: T, one: T) -> (r: Result<Self, SheafError>)
        where T: Copy,
        ensures
            n < 3 ==> r matches Err(SheafError::EmptySheaf),
            n >= 3 ==> (r matches Ok(s) && s.adjacency() == Seq::new(n as nat, |v: int| cycle_lists(n as int, v))
                && s.stalk_dims@ == Seq::new(n as nat, |v: int| stalk_dim)
                && s.maps() == Seq::new((n - 1) as nat, |t: int| (t as usize, (t + 1) as usize, identity_rows(stalk_dim as nat, zero, one)))
                    .push(((n - 1) as usize, 0usize, identity_rows(stalk_dim as nat, zero, one)))),
            r matches Ok(s) ==> validation(s.stalk_dims@, s.restriction_maps@) is Ok,
    {
        if n < 3 {
            return Err(SheafError::EmptySheaf);
        }
        let mut sheaf = match Self::path(n, stalk_dim, zero, one) {
            Ok(s) => s,
            Err(e) => return Err(e),
        };
        let ghost path_maps = sheaf.restriction_maps@;
        let ghost path_adj = lists_of(sheaf.graph@);
        assert(sheaf.graph@.len() == path_adj.len());
        let identity = identity_matrix(stalk_dim, zero, one);
        add_neighbor(&mut sheaf.graph, n - 1, 0);
        add_neighbor(&mut sheaf.graph, 0, n - 1);
        sheaf.restriction_maps.push((n - 1, 0, identity));
        proof {
            assert forall|v: int| 0 <= v < n implies #[trigger] sheaf.adjacency()[v] == cycle_lists(n as int, v) by {
                assert(path_adj[v] == path_lists(n - 1, v));
                if v == n - 1 {
                    assert(path_adj[v].push(0usize) =~= cycle_lists(n as int, v));
                } else if v == 0 {
                    assert(path_adj[v].push((n - 1) as usize) =~= cycle_lists(n as int, v));
                } else {
                    assert(path_adj[v] =~= cycle_lists(n as int, v));
                }
            }
            assert(sheaf.adjacency() =~= Seq::new(n as nat, |v: int| cycle_lists(n as int, v)));
            assert(sheaf.restriction_maps@ == path_maps.push(((n - 1) as usize, 0usize, identity)));
            assert(sheaf.maps() =~= maps_of(path_maps).push(((n - 1) as usize, 0usize, rows_of(identity))));
            lemma_first_misfit_ok(sheaf.stalk_dims@, path_maps);
            lemma_identity_fits(identity, stalk_dim as nat, zero, one);
            assert forall|t: int| 0 <= t < sheaf.restriction_maps@.len() implies map_fits(sheaf.stalk_dims@, #[trigger] sheaf.restriction_maps@[t]) by {
                if t < path_maps.len() {
                    assert(sheaf.restriction_maps@[t] == path_maps[t]);
                }
            }
            lemma_first_misfit_ok(sheaf.stalk_dims@, sheaf.restriction_maps@);
        }
        Ok(sheaf)
    }

    /// A sheaf on the complete graph on `n` nodes: identity restriction
    /// maps on every edge `(i, j)`, `i < j`, in lexicographic order;
    /// `EmptySheaf` when `n` is 0.
    pub fn complete(n: usize, stalk_dim: usize, zero: T, one: T) -> (r: Result<Self, SheafError>)
        where T: Copy,
        ensures
            n == 0 ==> r matches Err(SheafError::EmptySheaf),
            n > 0 ==> (r matches Ok(s) && s.adjacency() == Seq::new(n as nat, |v: int| complete_lists(n as int, v))
                && s.stalk_dims@ == Seq::new(n as nat, |v: int| stalk_dim)
                && edge_maps_below(s.maps(), n as int, n as int, n as int, identity_rows(stalk_dim as nat, zero, one))),
            r matches Ok(s) ==> validation(s.stalk_dims@, s.restriction_maps@) is Ok,
    {
        if n == 0 {
            return Err(SheafError::EmptySheaf);
        }
        let ghost id = identity_rows(stalk_dim as nat, zero, one);
        let mut graph = empty_lists(n);
        let mut maps: Vec<(usize, usize, Vec<Vec<T>>)> = Vec::new();
        let mut i: usize = 0;
        assert forall|v: int| 0 <= v < n implies #[trigger] lists_of(graph@)[v] == complete_partial(n as int, 0, 1, v) by {
            assert(complete_partial(n as int, 0, 1, v) =~= Seq::<usize>::empty());
        }
        assert(lists_of(graph@) =~= Seq::new(n as nat, |v: int| complete_partial(n as int, 0, 1, v)));
        while i < n
            invariant
                i <= n,
                graph@.len() == n,
                lists_of(graph@) == Seq::new(n as nat, |v: int| complete_partial(n as int, i as int, i + 1, v)),
                edge_maps_below(maps_of(maps@), n as int, i as int, i + 1, id),
                id == identity_rows(stalk_dim as nat, zero, one),
            decreases n - i,
        {
            let mut j: usize = i + 1;
            while j < n
                invariant
                    i < n,
                    i < j <= n,
                    graph@.len() == n,
                    lists_of(graph@) == Seq::new(n as nat, |v: int| complete_partial(n as int, i as int, j as int, v)),
                    edge_maps_below(maps_of(maps@), n as int, i as int, j as int, id),
                    id == identity_rows(stalk_dim as nat, zero, one),
                decreases n - j,
            {
                let ghost before = maps_of(maps@);
                let ghost adj = lists_of(graph@);
                add_neighbor(&mut graph, i, j);
                add_neighbor(&mut graph, j, i);
                let identity = identity_matrix(stalk_dim, zero, one);
                maps.push((i, j, identity));
                proof {
                    assert(maps_of(maps@) =~= before.push((i, j, id)));
                    let after = maps_of(maps@);
                    assert forall|a: usize, b: usize|
                        a < b < n && (a < i || (a == i && b < j + 1)) implies #[trigger] lists_map(after, a, b) by {
                        if a == i && b == j {
                            assert(after[before.len() as int] == (i, j, id));
                        } else {
                            assert(lists_map(before, a, b));
                            let t = choose|t: int| 0 <= t < before.len() && before[t].0 == a && before[t].1 == b;
                            assert(after[t] == before[t]);
                        }
                    }
                }
                proof {
                    let ni = n as int;
                    let (ii, jj) = (i as int, j as int);
                    assert forall|v: int| 0 <= v < n implies #[trigger] lists_of(graph@)[v] == complete_partial(ni, ii, jj + 1, v) by {
                        assert(adj[v] == complete_partial(ni, ii, jj, v));
                        if v == ii {
                            assert(adj[v].push(j) =~= complete_partial(ni, ii, jj + 1, v));
                        } else if v == jj {
                            assert(adj[v].push(i) =~= complete_partial(ni, ii, jj + 1, v));
                        } else {
                            assert(adj[v] =~= complete_partial(ni, ii, jj + 1, v));
                        }
                    }
                }
                j += 1;
                assert(lists_of(graph@) =~= Seq::new(n as nat, |v: int| complete_partial(n as int, i as int, j as int, v)));
            }
            i += 1;
            assert(lists_of(graph@) =~= Seq::new(n as nat, |v: int| complete_partial(n as int, i as int, i + 1, v)));
        }
        let stalk_dims = repeated(n, stalk_dim);
        let s = CellularSheaf { graph, stalk_dims, restriction_maps: maps };
        proof {
            assert(s.adjacency() =~= Seq::new(n as nat, |v: int| complete_lists(n as int, v)));
            assert forall|t: int| 0 <= t < s.restriction_maps@.len() implies map_fits(s.stalk_dims@, #[trigger] s.restriction_maps@[t]) by {
                assert(maps_of(s.restriction_maps@)[t].2 == id);
                lemma_identity_fits(s.restriction_maps@[t].2, stalk_dim as nat, zero, one);
            }
            lemma_first_misfit_ok(s.stalk_dims@, s.restriction_maps@);
        }
        Ok(s)
    }

    /// An empty builder, to which nodes and edges are added.
    pub fn builder() -> (r: SheafBuilder<T>)
        ensures
            r.adjacency() == Seq::<Seq<usize>>::empty(),
            r.dims() == Seq::<usize>::empty(),
            r.maps() == Seq::<(usize, usize, Vec<Vec<T>>)>::empty(),
    {
        SheafBuilder::default()
    }

    /// The first restriction map on the edge between `i` and `j`, in either
    /// direction.
    pub fn get_restriction_map(&self, i: usize, j: usize) -> (r: Option<&Vec<Vec<T>>>)
        ensures
            r is None <==> forall|t: int| 0 <= t < self.restriction_maps@.len() ==> !joins(#[trigger] self.restriction_maps@[t], i, j),
            r matches Some(m) ==> exists|t: int|
                0 <= t < self.restriction_maps@.len() && joins(self.restriction_maps@[t], i, j)
                    && (forall|q: int| 0 <= q < t ==> !joins(#[trigger] self.restriction_maps@[q], i, j))
                    && *m == self.restriction_maps@[t].2,
    {
        let mut t: usize = 0;
        while t < self.restriction_maps.len()
            invariant
                t <= self.restriction_maps@.len(),
                forall|q: int| 0 <= q < t ==> !joins(#[trigger] self.restriction_maps@[q], i, j),
            decreases self.restriction_maps@.len() - t,
        {
            let src = self.restriction_maps[t].0;
            let tgt = self.restriction_maps[t].1;
            if (src == i && tgt == j) || (src == j && tgt == i) {
                return Some(&self.restriction_maps[t].2);
            }
            t += 1;
        }
        None
    }

    /// Number of nodes.
    pub fn node_count(&self) -> (r: usize)
        ensures
            r == self.stalk_dims@.len(),
    {
        self.stalk_dims.len()
    }

    /// Total dimension of the global section space: the sum of the stalk
    /// dimensions.
    pub fn total_dim(&self) -> (r: usize)
        requires
            dims_total(self.stalk_dims@) <= usize::MAX,
        ensures
            r == dims_total(self.stalk_dims@),
    {
        let mut total: usize = 0;
        let mut i: usize = 0;
        while i < self.stalk_dims.len()
            invariant
                i <= self.stalk_dims@.len(),
                total == dims_total(self.stalk_dims@.take(i as int)),
                dims_total(self.stalk_dims@) <= usize::MAX,
            decreases self.stalk_dims@.len() - i,
        {
            proof {
                assert(self.stalk_dims@.take(i + 1).drop_last() =~= self.stalk_dims@.take(i as int));
                lemma_dims_total_prefix(self.stalk_dims@, i + 1);
            }
            total = total + self.stalk_dims[i];
            i += 1;
        }
        assert(self.stalk_dims@.take(i as int) =~= self.stalk_dims@);
        total
    }

    /// Where each node's block starts in the flattened stalk space: the sum
    /// of the stalk dimensions before it.
    pub fn block_offsets(&self) -> (r: Vec<usize>)
        requires
            dims_total(self.stalk_dims@) <= usize::MAX,
        ensures
            r@.len() == self.stalk_dims@.len(),
            forall|i: int| 0 <= i < r@.len() ==> #[trigger] r@[i] == dims_total(self.stalk_dims@.take(i)),
    {
        let mut offsets: Vec<usize> = Vec::new();
        let mut off: usize = 0;
        let mut i: usize = 0;
        assert(self.stalk_dims@.take(0) =~= Seq::<usize>::empty());
        while i < self.stalk_dims.len()
            invariant
                i <= self.stalk_dims@.len(),
                offsets@.len() == i,
                off == dims_total(self.stalk_dims@.take(i as int)),
                dims_total(self.stalk_dims@) <= usize::MAX,
                forall|k: int| 0 <= k < i ==> #[trigger] offsets@[k] == dims_total(self.stalk_dims@.take(k)),
            decreases self.stalk_dims@.len() - i,
        {
            offsets.push(off);
            proof {
                lemma_dims_total_prefix(self.stalk_dims@, i + 1);
            }
            off = off + self.stalk_dims[i];
            i += 1;
        }
        offsets
    }

    /// Check the sheaf: it has a node, and every restriction map joins two
    /// existing nodes with a matrix of the stalks' dimensions.
    pub fn validate(&self) -> (r: Result<(), SheafError>)
        ensures
            r == validation(self.stalk_dims@, self.restriction_maps@),
    {
        if self.stalk_dims.len() == 0 {
            return Err(SheafError::EmptySheaf);
        }
        let ghost dims = self.stalk_dims@;
        let ghost maps = self.restriction_maps@;
        let max = self.stalk_dims.len();
        let mut t: usize = 0;
        assert(maps.skip(0) =~= maps);
        while t < self.restriction_maps.len()
            invariant
                dims == self.stalk_dims@,
                maps == self.restriction_maps@,
                max == dims.len(),
                max > 0,
                t <= maps.len(),
                first_misfit(dims, maps) == first_misfit(dims, maps.skip(t as int)),
            decreases maps.len() - t,
        {
            let i = self.restriction_maps[t].0;
            let j = self.restriction_maps[t].1;
            let mat = &self.restriction_maps[t].2;
            proof {
                assert(maps.skip(t as int)[0] == maps[t as int]);
                assert(maps.skip(t as int).drop_first() =~= maps.skip(t + 1));
            }
            if i >= max || j >= max {
                proof {
                    let rest = maps.skip(t as int);
                    assert(rest.len() > 0 && !map_fits(dims, rest[0]));
                    assert(first_misfit(dims, rest) == Err::<(), SheafError>(map_error(dims, rest[0])));
                }
                return Err(SheafError::InvalidEdge(i, j));
            }
            let expected_rows = self.stalk_dims[j];
            let expected_cols = self.stalk_dims[i];
            let got_rows = mat.len();
            let got_cols = if mat.len() == 0 {
                0
            } else {
                mat[0].len()
            };
            if got_rows != expected_rows || got_cols != expected_cols {
                return Err(
                    SheafError::DimensionMismatch {
                        edge: (i, j),
                        expected_rows,
                        expected_cols,
                        got_rows,
                        got_cols,
                    },
                );
            }
            t += 1;
        }
        assert(maps.skip(t as int) =~= Seq::<(usize, usize, Vec<Vec<T>>)>::empty());
        Ok(())
    }
}

/// The map `m` lies on the edge between `i` and `j`, in either direction.
pub open spec fn joins<T>(m: (usize, usize, Vec<Vec<T>>), i: usize, j: usize) -> bool {
    (m.0 == i && m.1 == j) || (m.0 == j && m.1 == i)
}

/// Adjacency lists after adding the edge `(i, j)`: `j` joins the list of
/// `i`, then `i` the list of `j`.
pub open spec fn with_edge(adj: Seq<Seq<usize>>, i: usize, j: usize) -> Seq<Seq<usize>> {
    let first = adj.update(i as int, adj[i as int].push(j));
    first.update(j as int, first[j as int].push(i))
}

/// Builds a `CellularSheaf` node by node and edge by edge.
#[derive(Debug)]
pub struct SheafBuilder<T> {
    graph: Vec<Vec<usize>>,
    stalk_dims: Vec<usize>,
    restriction_maps: Vec<(usize, usize, Vec<Vec<T>>)>,
}

impl<T> Default for SheafBuilder<T> {
    fn default() -> (r: Self)
        ensures
            r.adjacency() == Seq::<Seq<usize>>::empty(),
            r.dims() == Seq::<usize>::empty(),
            r.maps() == Seq::<(usize, usize, Vec<Vec<T>>)>::empty(),
    {
        let r = SheafBuilder { graph: Vec::new(), stalk_dims: Vec::new(), restriction_maps: Vec::new() };
        assert(r.adjacency() =~= Seq::<Seq<usize>>::empty());
        r
    }
}

impl<T> SheafBuilder<T> {
    /// The adjacency lists built so far.
    pub closed spec fn adjacency(&self) -> Seq<Seq<usize>> {
        lists_of(self.graph@)
    }

    /// The stalk dimensions of the nodes added so far.
    pub closed spec fn dims(&self) -> Seq<usize> {
        self.stalk_dims@
    }

    /// The restriction maps added so far.
    pub closed spec fn maps(&self) -> Seq<(usize, usize, Vec<Vec<T>>)> {
        self.restriction_maps@
    }

    /// Add a node with a stalk of dimension `stalk_dim` and no neighbours.
    pub fn add_node(self, stalk_dim: usize) -> (r: Self)
        ensures
            r.adjacency() == self.adjacency().push(Seq::empty()),
            r.dims() == self.dims().push(stalk_dim),
            r.maps() == self.maps(),
    {
        let mut b = self;
        let ghost before = b.graph@;
        b.graph.push(Vec::new());
        b.stalk_dims.push(stalk_dim);
        assert(lists_of(b.graph@) =~= lists_of(before).push(Seq::empty()));
        b
    }

    /// Add the edge `(i, j)` with restriction map `map`, when both nodes
    /// exist; otherwise the builder is unchanged.
    pub fn add_edge(self, i: usize, j: usize, map: Vec<Vec<T>>) -> (r: Self)
        ensures
            r.dims() == self.dims(),
            i < self.adjacency().len() && j < self.adjacency().len() ==> r.adjacency() == with_edge(self.adjacency(), i, j)
                && r.maps() == self.maps().push((i, j, map)),
            !(i < self.adjacency().len() && j < self.adjacency().len()) ==> r.adjacency() == self.adjacency()
                && r.maps() == self.maps(),
    {
        let mut b = self;
        assert(b.graph@.len() == lists_of(b.graph@).len());
        if i < b.graph.len() && j < b.graph.len() {
            add_neighbor(&mut b.graph, i, j);
            add_neighbor(&mut b.graph, j, i);
            b.restriction_maps.push((i, j, map));
        }
        b
    }

    /// The sheaf built: the result of `validate` on it, which fails with
    /// `EmptySheaf` when no node was added.
    pub fn build(self) -> (r: Result<CellularSheaf<T>, SheafError>)
        ensures
            validation(self.dims(), self.maps()) matches Err(e) ==> r == Err::<CellularSheaf<T>, SheafError>(e),
            validation(self.dims(), self.maps()) is Ok ==> (r matches Ok(s) && s.adjacency() == self.adjacency()
                && s.stalk_dims@ == self.dims() && s.restriction_maps@ == self.maps()),
    {
        if self.stalk_dims.len() == 0 {
            return Err(SheafError::EmptySheaf);
        }
        let sheaf = CellularSheaf {
            graph: self.graph,
            stalk_dims: self.stalk_dims,
            restriction_maps: self.restriction_maps,
        };
        match sheaf.validate() {
            Ok(()) => Ok(sheaf),
            Err(e) => Err(e),
        }
    }
}

/// The total of a prefix grows by the next dimension.
proof fn lemma_dims_total_prefix(dims: Seq<usize>, n: int)
    requires
        0 < n <= dims.len(),
    ensures
        dims_total(dims.take(n)) == dims_total(dims.take(n - 1)) + dims[n - 1],
        dims_total(dims.take(n)) <= dims_total(dims),
    decreases dims.len() - n,
{
    assert(dims.take(n).drop_last() =~= dims.take(n - 1));
    if n < dims.len() {
        lemma_dims_total_prefix(dims, n + 1);
    } else {
        assert(dims.take(n) =~= dims);
    }
}

} // verus!
