//! Merging a set of schema files into one script, each file after the files
//! it imports, unrelated files in the order of their paths.
use vstd::prelude::*;

use crate::graph::{
    add_edge, add_node, graph_edges, graph_nodes, has_neighbors, has_topological_order,
    is_topological_order, lemma_move_after, lemma_move_to_front, lemma_topological_order_renamed,
    new_graph, topological_sort,
};
use crate::imports::{directive_targets, import_targets};
use petgraph::graphmap::DiGraphMap;
use crate::path::{resolve_import, resolve_import_path};
use crate::text::{
    join_strings, join_with, lemma_lex_asymmetric, lemma_lex_irreflexive, lemma_lex_total,
    lemma_lex_transitive, lex_less, lex_lt, views,
};

verus! {

/// A set of schema files as (path, content) pairs.
pub open spec fn file_views(files: Seq<(String, String)>) -> Seq<(Seq<char>, Seq<char>)> {
    files.map_values(|f: (String, String)| (f.0@, f.1@))
}

/// No two files share a path.
pub open spec fn keys_distinct(fs: Seq<(Seq<char>, Seq<char>)>) -> bool {
    forall|i: int, j: int| 0 <= i < fs.len() && 0 <= j < fs.len() && i != j ==> fs[i].0 != fs[j].0
}

/// `p` is the path of one of the files.
pub open spec fn is_key(fs: Seq<(Seq<char>, Seq<char>)>, p: Seq<char>) -> bool {
    exists|i: int| 0 <= i < fs.len() && fs[i].0 == p
}

/// The paths that a file imports, resolved against its own path.
pub open spec fn file_imports(path: Seq<char>, content: Seq<char>) -> Seq<Seq<char>> {
    directive_targets(content).map_values(|t: Seq<char>| resolve_import(path, t))
}

/// Among the first `count` files, the one at path `b` imports `a`.
pub open spec fn imported_among(
    fs: Seq<(Seq<char>, Seq<char>)>,
    count: int,
    a: Seq<char>,
    b: Seq<char>,
) -> bool {
    exists|i: int|
        0 <= i < count && i < fs.len() && fs[i].0 == b && #[trigger] file_imports(
            fs[i].0,
            fs[i].1,
        ).contains(a)
}

/// `a` must come before `b`: the file at path `b` imports `a`.
pub open spec fn import_edge(fs: Seq<(Seq<char>, Seq<char>)>, a: Seq<char>, b: Seq<char>) -> bool {
    imported_among(fs, fs.len() as int, a, b)
}

/// Some file imports `p`.
pub open spec fn is_imported(fs: Seq<(Seq<char>, Seq<char>)>, p: Seq<char>) -> bool {
    exists|b: Seq<char>| import_edge(fs, p, b)
}

/// The import edges of a set of files.
pub open spec fn import_edges(fs: Seq<(Seq<char>, Seq<char>)>) -> Set<(Seq<char>, Seq<char>)> {
    Set::new(|e: (Seq<char>, Seq<char>)| import_edge(fs, e.0, e.1))
}

/// A file that no import edge touches.
pub open spec fn is_isolated(fs: Seq<(Seq<char>, Seq<char>)>, k: Seq<char>) -> bool {
    &&& is_key(fs, k)
    &&& forall|m: Seq<char>| !#[trigger] import_edge(fs, m, k)
    &&& forall|m: Seq<char>| !#[trigger] import_edge(fs, k, m)
}

/// `b` is the path that follows `a` among the files' paths in lexicographic
/// order.
pub open spec fn next_key(fs: Seq<(Seq<char>, Seq<char>)>, a: Seq<char>, b: Seq<char>) -> bool {
    &&& is_key(fs, a)
    &&& is_key(fs, b)
    &&& lex_lt(a, b)
    &&& forall|c: Seq<char>| is_key(fs, c) ==> !(lex_lt(a, c) && #[trigger] lex_lt(c, b))
}

/// `a` is the lexicographically least path of the files.
pub open spec fn is_first_key(fs: Seq<(Seq<char>, Seq<char>)>, a: Seq<char>) -> bool {
    &&& is_key(fs, a)
    &&& forall|c: Seq<char>| is_key(fs, c) ==> !#[trigger] lex_lt(c, a)
}

/// The edges that fix the place of files that no import edge touches: such a
/// file comes right after the path before it, and the least path, when it is
/// such a file, right before the path after it.
pub open spec fn order_edge(fs: Seq<(Seq<char>, Seq<char>)>, a: Seq<char>, b: Seq<char>) -> bool {
    &&& next_key(fs, a, b)
    &&& (is_isolated(fs, b) || (is_isolated(fs, a) && is_first_key(fs, a)))
}

/// The nodes of the dependency graph: the files' paths and every path that
/// some file imports.
pub open spec fn dependency_nodes(fs: Seq<(Seq<char>, Seq<char>)>) -> Set<Seq<char>> {
    Set::new(|p: Seq<char>| is_key(fs, p) || is_imported(fs, p))
}

/// The edges of the dependency graph: import edges and order edges.
pub open spec fn dependency_edges(fs: Seq<(Seq<char>, Seq<char>)>) -> Set<(Seq<char>, Seq<char>)> {
    Set::new(|e: (Seq<char>, Seq<char>)| import_edge(fs, e.0, e.1) || order_edge(fs, e.0, e.1))
}

/// Whether the files can be merged: a single file always can, more only when
/// the dependency graph has no cycle.
pub open spec fn mergeable(fs: Seq<(Seq<char>, Seq<char>)>) -> bool {
    fs.len() == 1 || has_topological_order(dependency_nodes(fs), dependency_edges(fs))
}

/// `p` lists every file (by index) once, and the source of each dependency
/// edge between two files before its target.
pub open spec fn is_file_order(fs: Seq<(Seq<char>, Seq<char>)>, p: Seq<int>) -> bool {
    &&& p.no_duplicates()
    &&& forall|k: int| 0 <= k < p.len() ==> 0 <= #[trigger] p[k] < fs.len()
    &&& forall|i: int| 0 <= i < fs.len() ==> #[trigger] p.contains(i)
    &&& forall|x: int, y: int|
        0 <= x < p.len() && 0 <= y < p.len() && #[trigger] dependency_edges(fs).contains(
            (fs[p[x]].0, fs[p[y]].0),
        ) ==> x < y
}

/// The files' contents in the order `p`, one after the other with a line
/// break between each two.
pub open spec fn joined(fs: Seq<(Seq<char>, Seq<char>)>, p: Seq<int>) -> Seq<char> {
    join_with(contents_of(fs, p), '\n')
}

/// The contents of the files listed by `p`.
pub open spec fn contents_of(fs: Seq<(Seq<char>, Seq<char>)>, p: Seq<int>) -> Seq<Seq<char>> {
    p.map_values(|i: int| fs[i].1)
}

/// `out` is a merge of the files: a single file's content unchanged, or the
/// contents in an order that respects the dependency graph.
pub open spec fn merge_admits(fs: Seq<(Seq<char>, Seq<char>)>, out: Seq<char>) -> bool {
    if fs.len() == 1 {
        out == fs[0].1
    } else {
        exists|p: Seq<int>| is_file_order(fs, p) && out == joined(fs, p)
    }
}

/// Indices `0..n` of `names` in increasing lexicographic order of the names.
fn sort_by_name(names: &Vec<String>, n: usize) -> (order: Vec<usize>)
    requires
        n <= names.len(),
        forall|i: int, j: int| 0 <= i < n && 0 <= j < n && i != j ==> names@[i]@ != names@[j]@,
    ensures
        order.len() == n,
        forall|k: int| 0 <= k < n ==> order@[k] < n,
        forall|i: int| 0 <= i < n ==> #[trigger] order@.contains(i as usize),
        forall|a: int, b: int|
            0 <= a < b < n ==> lex_lt(names@[order@[a] as int]@, names@[order@[b] as int]@),
{
    let mut order: Vec<usize> = Vec::new();
    let mut i: usize = 0;
    while i < n
        invariant
            i <= n <= names.len(),
            forall|x: int, y: int| 0 <= x < n && 0 <= y < n && x != y ==> names@[x]@ != names@[y]@,
            order.len() == i,
            forall|k: int| 0 <= k < i ==> order@[k] < i,
            forall|x: int| 0 <= x < i ==> #[trigger] order@.contains(x as usize),
            forall|a: int, b: int|
                0 <= a < b < i ==> lex_lt(names@[order@[a] as int]@, names@[order@[b] as int]@),
        decreases n - i,
    {
        let mut pos: usize = 0;
        while pos < order.len() && !lex_less(names[i].as_str(), names[order[pos]].as_str())
            invariant
                i < n <= names.len(),
                order.len() == i,
                pos <= i,
                forall|k: int| 0 <= k < i ==> order@[k] < i,
                forall|a: int| 0 <= a < pos ==> !lex_lt(names@[i as int]@, names@[order@[a] as int]@),
            decreases i - pos,
        {
            pos = pos + 1;
        }
        let ghost before = order@;
        order.insert(pos, i);
        proof {
            before.insert_ensures(pos as int, i);
            assert forall|a: int| 0 <= a < pos implies lex_lt(
                names@[before[a] as int]@,
                names@[i as int]@,
            ) by {
                lemma_lex_total(names@[before[a] as int]@, names@[i as int]@);
            }
            if pos < i {
                assert(lex_lt(names@[i as int]@, names@[before[pos as int] as int]@));
            }
            assert forall|a: int, b: int| 0 <= a < b < i + 1 implies lex_lt(
                names@[order@[a] as int]@,
                names@[order@[b] as int]@,
            ) by {
                if a < pos && b == pos {
                } else if a < pos && b > pos {
                    assert(order@[b] == before[b - 1]);
                    if b - 1 > pos {
                        assert(lex_lt(names@[before[pos as int] as int]@, names@[before[b - 1] as int]@));
                        lemma_lex_transitive(
                            names@[i as int]@,
                            names@[before[pos as int] as int]@,
                            names@[before[b - 1] as int]@,
                        );
                    }
                    lemma_lex_transitive(
                        names@[before[a] as int]@,
                        names@[i as int]@,
                        names@[before[b - 1] as int]@,
                    );
                } else if a == pos {
                    assert(order@[b] == before[b - 1]);
                    if b - 1 > pos {
                        lemma_lex_transitive(
                            names@[i as int]@,
                            names@[before[pos as int] as int]@,
                            names@[before[b - 1] as int]@,
                        );
                    }
                } else if a > pos {
                    assert(order@[a] == before[a - 1]);
                    assert(order@[b] == before[b - 1]);
                }
            }
            assert forall|x: int| 0 <= x < i + 1 implies #[trigger] order@.contains(x as usize) by {
                if x == i {
                    assert(order@[pos as int] == i);
                } else {
                    assert(before.contains(x as usize));
                    let k = choose|k: int| 0 <= k < before.len() && before[k] == x as usize;
                    if k < pos {
                        assert(order@[k] == x as usize);
                    } else {
                        assert(order@[k + 1] == x as usize);
                    }
                }
            }
        }
        i = i + 1;
    }
    order
}


/// The number under which `p` stands in `names`; `p` is added at the end when
/// it is not there yet.
fn node_for(names: &mut Vec<String>, p: String) -> (id: usize)
    ensures
        id < final(names).len(),
        final(names)@[id as int]@ == p@,
        id < old(names).len() ==> final(names)@ == old(names)@,
        id >= old(names).len() ==> id == old(names).len() && final(names)@ == old(names)@.push(p)
            && forall|k: int| 0 <= k < old(names).len() ==> old(names)@[k]@ != p@,
{
    let mut k: usize = 0;
    while k < names.len()
        invariant
            k <= names.len(),
            names@ == old(names)@,
            forall|j: int| 0 <= j < k ==> names@[j]@ != p@,
        decreases names.len() - k,
    {
        if names[k] == p {
            return k;
        }
        k = k + 1;
    }
    names.push(p);
    k
}

/// The graph state once the import edges of the first `count` files are in:
/// node `k` stands for `names[k]`, the first nodes for the files.
spec fn import_graph(
    fs: Seq<(Seq<char>, Seq<char>)>,
    names: Seq<String>,
    g: DiGraphMap<usize, ()>,
    count: int,
) -> bool {
    &&& fs.len() <= names.len()
    &&& forall|k: int| 0 <= k < fs.len() ==> #[trigger] names[k]@ == fs[k].0
    &&& forall|a: int, b: int|
        0 <= a < names.len() && 0 <= b < names.len() && a != b ==> names[a]@ != names[b]@
    &&& forall|k: int| fs.len() <= k < names.len() ==> is_imported(fs, #[trigger] names[k]@)
    &&& forall|id: usize| #[trigger] graph_nodes(g).contains(id) <==> id < names.len()
    &&& forall|a: usize, b: usize|
        #[trigger] graph_edges(g).contains((a, b)) <==> a < names.len() && b < names.len()
            && imported_among(fs, count, names[a as int]@, names[b as int]@)
    &&& forall|p: Seq<char>, q: Seq<char>|
        #[trigger] imported_among(fs, count, p, q) ==> exists|id: int|
            0 <= id < names.len() && #[trigger] names[id]@ == p
}

/// Builds the graph of import edges: a node for every file and for every
/// imported path that is no file.
fn import_graph_of(files: &Vec<(String, String)>) -> (res: (Vec<String>, DiGraphMap<usize, ()>))
    requires
        keys_distinct(file_views(files@)),
    ensures
        import_graph(file_views(files@), res.0@, res.1, files.len() as int),
{
    let ghost fs = file_views(files@);
    let n = files.len();
    let mut names: Vec<String> = Vec::new();
    let mut g = new_graph();
    let mut i: usize = 0;
    while i < n
        invariant
            n == files.len(),
            fs == file_views(files@),
            keys_distinct(fs),
            i <= n,
            names.len() == i,
            forall|k: int| 0 <= k < i ==> #[trigger] names@[k]@ == fs[k].0,
            forall|id: usize| #[trigger] graph_nodes(g).contains(id) <==> id < i,
            forall|a: usize, b: usize| !#[trigger] graph_edges(g).contains((a, b)),
        decreases n - i,
    {
        names.push(files[i].0.clone());
        add_node(&mut g, i);
        i = i + 1;
    }
    assert(import_graph(fs, names@, g, 0));
    let mut i: usize = 0;
    while i < n
        invariant
            n == files.len(),
            fs == file_views(files@),
            keys_distinct(fs),
            i <= n,
            import_graph(fs, names@, g, i as int),
        decreases n - i,
    {
        let targets = import_targets(files[i].1.as_str());
        let ghost imports = file_imports(fs[i as int].0, fs[i as int].1);
        assert(imports.len() == targets.len());
        assert(fs.len() == n);
        assert(imports.subrange(0, 0) =~= Seq::<Seq<char>>::empty());
        let mut t: usize = 0;
        while t < targets.len()
            invariant
                n == files.len(),
                fs == file_views(files@),
                keys_distinct(fs),
                i < n,
                t <= targets.len(),
                imports == file_imports(fs[i as int].0, fs[i as int].1),
                views(targets@) == directive_targets(fs[i as int].1),
                n <= names.len(),
                forall|k: int| 0 <= k < n ==> #[trigger] names@[k]@ == fs[k].0,
                forall|a: int, b: int|
                    0 <= a < names.len() && 0 <= b < names.len() && a != b ==> names@[a]@
                        != names@[b]@,
                forall|k: int| n <= k < names.len() ==> is_imported(fs, #[trigger] names@[k]@),
                forall|id: usize| #[trigger] graph_nodes(g).contains(id) <==> id < names.len(),
                forall|a: usize, b: usize|
                    #[trigger] graph_edges(g).contains((a, b)) <==> a < names.len() && b
                        < names.len() && (imported_among(
                        fs,
                        i as int,
                        names@[a as int]@,
                        names@[b as int]@,
                    ) || (b == i && imports.subrange(0, t as int).contains(names@[a as int]@))),
                forall|p: Seq<char>, q: Seq<char>|
                    #[trigger] imported_among(fs, i as int, p, q) ==> exists|id: int|
                        0 <= id < names.len() && #[trigger] names@[id]@ == p,
                forall|x: int|
                    #![trigger imports[x]]
                    0 <= x < t ==> exists|id: int|
                        0 <= id < names.len() && #[trigger] names@[id]@ == imports[x],
            decreases targets.len() - t,
        {
            let r = resolve_import_path(files[i].0.as_str(), targets[t].as_str());
            assert(r@ == imports[t as int]);
            let ghost before = names@;
            let ghost old_g = g;
            let id = node_for(&mut names, r);
            proof {
                assert(imports.contains(r@));
                assert(import_edge(fs, r@, fs[i as int].0));
                assert forall|k: int| 0 <= k < before.len() implies names@[k] == before[k] by {}
                assert forall|k: int| n <= k < names.len() implies is_imported(
                    fs,
                    #[trigger] names@[k]@,
                ) by {
                    if k < before.len() {
                        assert(names@[k] == before[k]);
                    } else {
                        assert(names@[k]@ == r@);
                        assert(import_edge(fs, names@[k]@, fs[i as int].0));
                    }
                }
            }
            add_edge(&mut g, id, i);
            proof {
                assert(names@[i as int]@ == fs[i as int].0);
                let sub0 = imports.subrange(0, t as int);
                let sub1 = imports.subrange(0, t + 1);
                assert(sub1 =~= sub0.push(imports[t as int]));
                assert forall|a: usize, b: usize| #[trigger]
                    graph_edges(g).contains((a, b)) implies a < names.len() && b < names.len() && (
                imported_among(fs, i as int, names@[a as int]@, names@[b as int]@) || (b == i
                    && sub1.contains(names@[a as int]@))) by {
                    if graph_edges(old_g).contains((a, b)) {
                        assert(a < before.len() && b < before.len());
                        assert(names@[a as int] == before[a as int]);
                        assert(names@[b as int] == before[b as int]);
                        if !imported_among(fs, i as int, before[a as int]@, before[b as int]@) {
                            assert(sub0.contains(before[a as int]@));
                            let x = choose|x: int| 0 <= x < sub0.len() && sub0[x] == before[a as int]@;
                            assert(sub1[x] == sub0[x]);
                        }
                    } else {
                        assert(a == id && b == i);
                        assert(sub1[t as int] == r@);
                    }
                }
                assert forall|a: usize, b: usize|
                    a < names.len() && b < names.len() && (imported_among(
                        fs,
                        i as int,
                        names@[a as int]@,
                        names@[b as int]@,
                    ) || (b == i && sub1.contains(names@[a as int]@))) implies #[trigger]
                    graph_edges(g).contains((a, b)) by {
                    if a == id && b == i {
                    } else {
                        if imported_among(fs, i as int, names@[a as int]@, names@[b as int]@) {
                            let w = choose|w: int| 0 <= w < names.len() && #[trigger] names@[w]@ == names@[a as int]@;
                            let j = choose|j: int| 0 <= j < before.len() && #[trigger] before[j]@ == names@[a as int]@;
                            assert(names@[j] == before[j]);
                            assert(j == a);
                            if b >= before.len() {
                                assert(b == id);
                                assert(is_key(fs, names@[b as int]@));
                                let kk = choose|kk: int| 0 <= kk < fs.len() && fs[kk].0 == names@[b as int]@;
                                assert(names@[kk]@ == fs[kk].0);
                            }
                            assert(names@[b as int] == before[b as int]);
                        } else {
                            assert(b == i);
                            if !sub0.contains(names@[a as int]@) {
                                let x = choose|x: int| 0 <= x < sub1.len() && sub1[x] == names@[a as int]@;
                                assert(x == t);
                                assert(names@[a as int]@ == r@);
                                assert(a == id);
                            } else {
                                let x = choose|x: int| 0 <= x < sub0.len() && sub0[x] == names@[a as int]@;
                                assert(imports[x] == sub0[x]);
                                let j = choose|j: int| 0 <= j < before.len() && #[trigger] before[j]@ == imports[x];
                                assert(names@[j] == before[j]);
                                assert(j == a);
                                assert(names@[a as int] == before[a as int]);
                            }
                        }
                    }
                }
                assert forall|x: int| #![trigger imports[x]] 0 <= x < t + 1 implies exists|id: int|
                    0 <= id < names.len() && #[trigger] names@[id]@ == imports[x] by {
                    if x < t {
                        let j = choose|j: int| 0 <= j < before.len() && #[trigger] before[j]@ == imports[x];
                        assert(names@[j] == before[j]);
                    } else {
                        assert(names@[id as int]@ == imports[x]);
                    }
                }
                assert forall|p: Seq<char>, q: Seq<char>|
                    #[trigger] imported_among(fs, i as int, p, q) implies exists|id: int|
                        0 <= id < names.len() && #[trigger] names@[id]@ == p by {
                    let j = choose|j: int| 0 <= j < before.len() && #[trigger] before[j]@ == p;
                    assert(names@[j] == before[j]);
                }
            }
            t = t + 1;
        }
        proof {
            assert(imports.subrange(0, t as int) =~= imports);
            assert forall|p: Seq<char>, q: Seq<char>|
                imported_among(fs, i + 1, p, q) <==> imported_among(fs, i as int, p, q) || (q
                    == fs[i as int].0 && imports.contains(p)) by {
                if imported_among(fs, i + 1, p, q) && !imported_among(fs, i as int, p, q) {
                    let j = choose|j: int|
                        0 <= j < i + 1 && j < fs.len() && fs[j].0 == q && #[trigger] file_imports(
                            fs[j].0,
                            fs[j].1,
                        ).contains(p);
                    assert(j == i);
                }
            }
            assert forall|a: usize, b: usize|
                #[trigger] graph_edges(g).contains((a, b)) <==> a < names.len() && b < names.len()
                    && imported_among(fs, i + 1, names@[a as int]@, names@[b as int]@) by {
                if b < names.len() && names@[b as int]@ == fs[i as int].0 {
                    assert(names@[i as int]@ == fs[i as int].0);
                    assert(b == i);
                }
            }
            assert forall|p: Seq<char>, q: Seq<char>|
                #[trigger] imported_among(fs, i + 1, p, q) implies exists|id: int|
                    0 <= id < names.len() && #[trigger] names@[id]@ == p by {
                if !imported_among(fs, i as int, p, q) {
                    let x = choose|x: int| 0 <= x < imports.len() && imports[x] == p;
                    assert(exists|id: int| 0 <= id < names.len() && #[trigger] names@[id]@ == imports[x]);
                }
            }
        }
        i = i + 1;
    }
    (names, g)
}


/// `order` lists the files by index in increasing order of their paths.
spec fn sorted_files(fs: Seq<(Seq<char>, Seq<char>)>, order: Seq<usize>) -> bool {
    &&& fs.len() <= usize::MAX
    &&& order.len() == fs.len()
    &&& forall|k: int| 0 <= k < fs.len() ==> #[trigger] order[k] < fs.len()
    &&& forall|i: int| 0 <= i < fs.len() ==> #[trigger] order.contains(i as usize)
    &&& forall|a: int, b: int|
        0 <= a < b < fs.len() ==> lex_lt(fs[order[a] as int].0, fs[order[b] as int].0)
}

/// The order edge that the sorted position `j` adds, when its file is isolated.
spec fn order_edge_at(order: Seq<usize>, iso: Seq<bool>, j: int, a: usize, b: usize) -> bool {
    &&& iso[j]
    &&& if j == 0 {
        a == order[0] && b == order[1]
    } else {
        a == order[j - 1] && b == order[j]
    }
}

proof fn lemma_sorted_position(fs: Seq<(Seq<char>, Seq<char>)>, order: Seq<usize>, x: int, y: int)
    requires
        keys_distinct(fs),
        sorted_files(fs, order),
        0 <= x < fs.len(),
        0 <= y < fs.len(),
        lex_lt(fs[order[x] as int].0, fs[order[y] as int].0),
    ensures
        x < y,
{
    if x == y {
        lemma_lex_irreflexive(fs[order[x] as int].0);
    } else if y < x {
        lemma_lex_asymmetric(fs[order[x] as int].0, fs[order[y] as int].0);
    }
}

/// The order edges added along the sorted positions are exactly `order_edge`.
proof fn lemma_order_edges(
    fs: Seq<(Seq<char>, Seq<char>)>,
    order: Seq<usize>,
    iso: Seq<bool>,
    a: usize,
    b: usize,
)
    requires
        keys_distinct(fs),
        fs.len() >= 2,
        sorted_files(fs, order),
        iso.len() == fs.len(),
        forall|k: int| 0 <= k < fs.len() ==> #[trigger] iso[k] == is_isolated(fs, fs[order[k] as int].0),
        a < fs.len(),
        b < fs.len(),
    ensures
        (exists|j: int| 0 <= j < fs.len() && #[trigger] order_edge_at(order, iso, j, a, b))
            <==> order_edge(fs, fs[a as int].0, fs[b as int].0),
{
    let ka = fs[a as int].0;
    let kb = fs[b as int].0;
    assert(order.contains((a as int) as usize) && order.contains((b as int) as usize));
    let p = choose|p: int| 0 <= p < order.len() && order[p] == a;
    let q = choose|q: int| 0 <= q < order.len() && order[q] == b;
    assert forall|x: int, y: int| 0 <= x < fs.len() && 0 <= y < fs.len() && order[x] == order[y] implies x == y by {
        if x < y {
            lemma_lex_irreflexive(fs[order[x] as int].0);
        } else if y < x {
            lemma_lex_irreflexive(fs[order[x] as int].0);
        }
    }
    // The keys next to each other in sorted order are those of `next_key`.
    assert forall|x: int| 0 <= x < fs.len() - 1 implies #[trigger] next_key(
        fs,
        fs[order[x] as int].0,
        fs[order[x + 1] as int].0,
    ) by {
        let kx = fs[order[x] as int].0;
        let ky = fs[order[x + 1] as int].0;
        assert(is_key(fs, kx) && is_key(fs, ky));
        assert forall|c: Seq<char>| is_key(fs, c) implies !(lex_lt(kx, c) && #[trigger] lex_lt(c, ky)) by {
            let ci = choose|ci: int| 0 <= ci < fs.len() && fs[ci].0 == c;
            assert(order.contains(ci as usize));
            let m = choose|m: int| 0 <= m < order.len() && order[m] == ci as usize;
            assert(fs[order[m] as int].0 == c);
            if lex_lt(kx, c) && lex_lt(c, ky) {
                lemma_sorted_position(fs, order, x, m);
                lemma_sorted_position(fs, order, m, x + 1);
            }
        }
    }
    assert(is_key(fs, fs[order[0] as int].0));
    assert forall|c: Seq<char>| is_key(fs, c) implies !#[trigger] lex_lt(c, fs[order[0] as int].0) by {
        let ci = choose|ci: int| 0 <= ci < fs.len() && fs[ci].0 == c;
        assert(order.contains(ci as usize));
        let m = choose|m: int| 0 <= m < order.len() && order[m] == ci as usize;
        assert(fs[order[m] as int].0 == c);
        if lex_lt(c, fs[order[0] as int].0) {
            lemma_sorted_position(fs, order, m, 0);
        }
    }
    assert(is_first_key(fs, fs[order[0] as int].0));
    if exists|j: int| 0 <= j < fs.len() && #[trigger] order_edge_at(order, iso, j, a, b) {
        let j = choose|j: int| 0 <= j < fs.len() && #[trigger] order_edge_at(order, iso, j, a, b);
        if j == 0 {
            assert(next_key(fs, fs[order[0] as int].0, fs[order[1] as int].0));
        } else {
            let x = j - 1;
            assert(next_key(fs, fs[order[x] as int].0, fs[order[x + 1] as int].0));
            assert(x + 1 == j);
        }
    }
    if order_edge(fs, ka, kb) {
        assert(order[p] == a && order[q] == b);
        lemma_sorted_position(fs, order, p, q);
        if q > p + 1 {
            assert(is_key(fs, fs[order[p + 1] as int].0));
            assert(lex_lt(fs[order[p] as int].0, fs[order[p + 1] as int].0));
            assert(lex_lt(fs[order[p + 1] as int].0, fs[order[q] as int].0));
        }
        assert(q == p + 1);
        if is_isolated(fs, kb) {
            assert(iso[q]);
            assert(order_edge_at(order, iso, q, a, b));
        } else {
            if p > 0 {
                assert(lex_lt(fs[order[0] as int].0, fs[order[p] as int].0));
            }
            assert(p == 0);
            assert(iso[0]);
            assert(order_edge_at(order, iso, 0, a, b));
        }
    }
}


/// The import edges, and the order edges of the sorted positions before `j`.
spec fn edges_upto(
    fs: Seq<(Seq<char>, Seq<char>)>,
    order: Seq<usize>,
    iso: Seq<bool>,
    j: int,
) -> Set<(Seq<char>, Seq<char>)> {
    Set::new(
        |e: (Seq<char>, Seq<char>)|
            import_edge(fs, e.0, e.1) || exists|k: int, a: usize, b: usize|
                0 <= k < j && a < fs.len() && b < fs.len() && #[trigger] order_edge_at(
                    order,
                    iso,
                    k,
                    a,
                    b,
                ) && e == (fs[a as int].0, fs[b as int].0),
    )
}

/// Order edges add no cycle: each one leads into a file that no import edge
/// touches, or out of the first such file.
proof fn lemma_order_edges_acyclic(
    fs: Seq<(Seq<char>, Seq<char>)>,
    order: Seq<usize>,
    iso: Seq<bool>,
    j: int,
)
    requires
        keys_distinct(fs),
        fs.len() >= 2,
        sorted_files(fs, order),
        iso.len() == fs.len(),
        forall|k: int| 0 <= k < fs.len() ==> #[trigger] iso[k] == is_isolated(fs, fs[order[k] as int].0),
        0 <= j <= fs.len(),
        has_topological_order(dependency_nodes(fs), import_edges(fs)),
    ensures
        has_topological_order(dependency_nodes(fs), edges_upto(fs, order, iso, j)),
    decreases j,
{
    let nodes = dependency_nodes(fs);
    let n = fs.len();
    assert forall|x: int, y: int| 0 <= x < n && 0 <= y < n && order[x] == order[y] implies x == y by {
        if x < y {
            lemma_lex_irreflexive(fs[order[x] as int].0);
        } else if y < x {
            lemma_lex_irreflexive(fs[order[x] as int].0);
        }
    }
    assert forall|x: int, y: int| 0 <= x < n && 0 <= y < n && fs[order[x] as int].0 == fs[order[y] as int].0 implies x == y by {
        assert(order[x] == order[y]);
    }
    if j == 0 {
        assert(edges_upto(fs, order, iso, 0) =~= import_edges(fs));
    } else {
        let k = j - 1;
        lemma_order_edges_acyclic(fs, order, iso, k);
        let prev = edges_upto(fs, order, iso, k);
        let t = choose|t: Seq<Seq<char>>| is_topological_order(t, nodes, prev);
        if !iso[k] {
            assert forall|e: (Seq<char>, Seq<char>)| edges_upto(fs, order, iso, j).contains(e) <==> prev.contains(e) by {
                if edges_upto(fs, order, iso, j).contains(e) && !import_edge(fs, e.0, e.1) {
                    let (k2, a, b) = choose|k2: int, a: usize, b: usize|
                        0 <= k2 < j && a < fs.len() && b < fs.len() && #[trigger] order_edge_at(order, iso, k2, a, b)
                            && e == (fs[a as int].0, fs[b as int].0);
                    assert(k2 != k);
                }
            }
            assert(edges_upto(fs, order, iso, j) =~= prev);
            assert(is_topological_order(t, nodes, edges_upto(fs, order, iso, j)));
        } else {
            let vi = order[k];
            let v = fs[vi as int].0;
            assert(is_isolated(fs, v));
            assert(is_key(fs, v));
            assert(nodes.contains(v));
            let (ui, wi) = if k == 0 {
                (order[0], order[1])
            } else {
                (order[k - 1], order[k])
            };
            assert(order_edge_at(order, iso, k, ui, wi));
            let new_edge = (fs[ui as int].0, fs[wi as int].0);
            assert forall|e: (Seq<char>, Seq<char>)| edges_upto(fs, order, iso, j).contains(e) <==> prev.insert(new_edge).contains(e) by {
                if edges_upto(fs, order, iso, j).contains(e) && !import_edge(fs, e.0, e.1) {
                    let (k2, a, b) = choose|k2: int, a: usize, b: usize|
                        0 <= k2 < j && a < fs.len() && b < fs.len() && #[trigger] order_edge_at(order, iso, k2, a, b)
                            && e == (fs[a as int].0, fs[b as int].0);
                    if k2 < k {
                        assert(prev.contains(e));
                    } else {
                        assert(e == new_edge);
                    }
                }
                if e == new_edge {
                    assert(order_edge_at(order, iso, k, ui, wi));
                }
            }
            assert(edges_upto(fs, order, iso, j) =~= prev.insert(new_edge));
            // The edges of `prev` that touch `v`.
            assert forall|x: Seq<char>| prev.contains((x, v)) implies k > 0 && x == fs[ui as int].0 by {
                assert(!import_edge(fs, x, v));
                let (k2, a, b) = choose|k2: int, a: usize, b: usize|
                    0 <= k2 < k && a < fs.len() && b < fs.len() && #[trigger] order_edge_at(order, iso, k2, a, b)
                        && (x, v) == (fs[a as int].0, fs[b as int].0);
                assert(fs[b as int].0 == fs[vi as int].0);
                assert(b == vi);
                if k2 == 0 {
                    assert(order[1] == order[k]);
                } else {
                    assert(order[k2] == order[k]);
                }
            }
            assert forall|x: Seq<char>| !prev.contains((v, x)) by {
                if prev.contains((v, x)) {
                    assert(!import_edge(fs, v, x));
                    let (k2, a, b) = choose|k2: int, a: usize, b: usize|
                        0 <= k2 < k && a < fs.len() && b < fs.len() && #[trigger] order_edge_at(order, iso, k2, a, b)
                            && (v, x) == (fs[a as int].0, fs[b as int].0);
                    assert(fs[a as int].0 == fs[vi as int].0);
                    assert(a == vi);
                    if k2 == 0 {
                        assert(order[0] == order[k]);
                    } else {
                        assert(order[k2 - 1] == order[k]);
                    }
                }
            }
            if k == 0 {
                assert(is_key(fs, fs[order[1] as int].0));
                assert(fs[order[0] as int].0 != fs[order[1] as int].0);
                lemma_move_to_front(t, nodes, prev, v, fs[wi as int].0);
            } else {
                assert(is_key(fs, fs[ui as int].0));
                assert(nodes.contains(fs[ui as int].0));
                assert(fs[order[k - 1] as int].0 != fs[order[k] as int].0);
                lemma_move_after(t, nodes, prev, fs[ui as int].0, v);
            }
        }
    }
}

/// Why a schema could not be resolved into one script.
#[derive(Clone, PartialEq, Eq, Debug)]
pub enum SchemaError {
    /// No commit answers to this revision.
    RevisionNotFound(String),
    /// The file at this path is not UTF-8 text.
    EncodingError(String),
    /// The import directives form a cycle.
    DependencyCycle,
}

/// For each sorted position, whether its file is isolated in the import graph.
fn isolation_flags(
    g: &DiGraphMap<usize, ()>,
    order: &Vec<usize>,
    Ghost(fs): Ghost<Seq<(Seq<char>, Seq<char>)>>,
    Ghost(names): Ghost<Seq<String>>,
) -> (iso: Vec<bool>)
    requires
        import_graph(fs, names, *g, fs.len() as int),
        names.len() <= usize::MAX,
        keys_distinct(fs),
        sorted_files(fs, order@),
    ensures
        iso.len() == fs.len(),
        forall|k: int| 0 <= k < fs.len() ==> #[trigger] iso@[k] == is_isolated(fs, fs[order@[k] as int].0),
{
    let n = order.len();
    let mut iso: Vec<bool> = Vec::new();
    let mut k: usize = 0;
    while k < n
        invariant
            n == order.len(),
            n == fs.len(),
            import_graph(fs, names, *g, fs.len() as int),
            names.len() <= usize::MAX,
            keys_distinct(fs),
            sorted_files(fs, order@),
            k <= n,
            iso.len() == k,
            forall|j: int| 0 <= j < k ==> #[trigger] iso@[j] == is_isolated(fs, fs[order@[j] as int].0),
        decreases n - k,
    {
        let a = order[k];
        let incoming = has_neighbors(g, a, true);
        let outgoing = has_neighbors(g, a, false);
        proof {
            let key = fs[a as int].0;
            assert(names[a as int]@ == key);
            assert(is_key(fs, key));
            if incoming {
                let m = choose|m: usize| graph_edges(*g).contains((m, a));
                assert(import_edge(fs, names[m as int]@, key));
            }
            if outgoing {
                let m = choose|m: usize| graph_edges(*g).contains((a, m));
                assert(import_edge(fs, key, names[m as int]@));
            }
            if exists|m: Seq<char>| #[trigger] import_edge(fs, m, key) {
                let m = choose|m: Seq<char>| #[trigger] import_edge(fs, m, key);
                assert(imported_among(fs, fs.len() as int, m, key));
                let id = choose|id: int| 0 <= id < names.len() && #[trigger] names[id]@ == m;
                assert(graph_edges(*g).contains((id as usize, a)));
            }
            if exists|m: Seq<char>| #[trigger] import_edge(fs, key, m) {
                let m = choose|m: Seq<char>| #[trigger] import_edge(fs, key, m);
                let j = choose|j: int|
                    0 <= j < fs.len() && fs[j].0 == m && #[trigger] file_imports(
                        fs[j].0,
                        fs[j].1,
                    ).contains(key);
                assert(names[j]@ == m);
                assert(graph_edges(*g).contains((a, j as usize)));
            }
        }
        iso.push(!incoming && !outgoing);
        k = k + 1;
    }
    iso
}

/// The contents of the files in the order in which `order` lists them,
/// skipping the nodes that stand for no file.
fn contents_in_order(files: &Vec<(String, String)>, order: &Vec<usize>) -> (res: (
    Vec<String>,
    Ghost<Seq<int>>,
    Ghost<Seq<int>>,
))
    requires
        order@.no_duplicates(),
    ensures
        ({
            let (parts, p, pos) = res;
            &&& views(parts@) == contents_of(file_views(files@), p@)
            &&& p@.len() == pos@.len()
            &&& forall|x: int|
                0 <= x < p@.len() ==> 0 <= #[trigger] pos@[x] < order.len() && order@[pos@[x]] == p@[x]
            &&& forall|x: int| 0 <= x < p@.len() ==> 0 <= #[trigger] p@[x] < files.len()
            &&& forall|x: int, y: int| 0 <= x < y < p@.len() ==> pos@[x] < pos@[y]
            &&& p@.no_duplicates()
            &&& forall|j: int|
                0 <= j < order.len() && order@[j] < files.len() ==> p@.contains(order@[j] as int)
        }),
{
    let ghost fs = file_views(files@);
    let n = files.len();
    let mut parts: Vec<String> = Vec::new();
    let ghost mut p: Seq<int> = Seq::empty();
    let ghost mut pos: Seq<int> = Seq::empty();
    let mut k: usize = 0;
    while k < order.len()
        invariant
            n == files.len(),
            fs == file_views(files@),
            order@.no_duplicates(),
            k <= order.len(),
            views(parts@) == contents_of(fs, p),
            p.len() == pos.len(),
            forall|x: int| 0 <= x < p.len() ==> 0 <= #[trigger] pos[x] < k && order@[pos[x]] == p[x],
            forall|x: int| 0 <= x < p.len() ==> 0 <= #[trigger] p[x] < n,
            forall|x: int, y: int| 0 <= x < y < p.len() ==> pos[x] < pos[y],
            p.no_duplicates(),
            forall|j: int| 0 <= j < k && order@[j] < n ==> p.contains(order@[j] as int),
        decreases order.len() - k,
    {
        let id = order[k];
        if id < n {
            let ghost before = p;
            let ghost old_parts = parts@;
            let content = files[id].1.clone();
            assert(content@ == fs[id as int].1);
            parts.push(content);
            proof {
                assert forall|x: int| 0 <= x < before.len() implies before[x] != id as int by {
                    assert(order@[pos[x]] == before[x]);
                    assert(pos[x] < k);
                }
                assert(fs[id as int].1 == files@[id as int].1@);
                p = p.push(id as int);
                pos = pos.push(k as int);
                assert(parts@ == old_parts.push(content));
                assert(views(parts@) =~= views(old_parts).push(content@));
                assert(contents_of(fs, p) =~= contents_of(fs, before).push(fs[id as int].1));
                assert forall|j: int| 0 <= j < k + 1 && order@[j] < n implies p.contains(
                    order@[j] as int,
                ) by {
                    if j < k {
                        assert(before.contains(order@[j] as int));
                        let x = choose|x: int| 0 <= x < before.len() && before[x] == order@[j] as int;
                        assert(p[x] == before[x]);
                    } else {
                        assert(p[p.len() - 1] == id as int);
                    }
                }
            }
        }
        k = k + 1;
    }
    (parts, Ghost(p), Ghost(pos))
}

/// Merges schema files into one script: each file's content once, after the
/// contents of the files it imports, files unrelated by imports in
/// lexicographic order of their paths, with a line break between each two. A
/// single file is returned as it is.
pub fn merge_sql_scripts(files: &Vec<(String, String)>) -> (r: Result<String, SchemaError>)
    requires
        keys_distinct(file_views(files@)),
    ensures
        r is Ok <==> mergeable(file_views(files@)),
        files.len() != 1 ==> (r is Ok <==> has_topological_order(
            dependency_nodes(file_views(files@)),
            import_edges(file_views(files@)),
        )),
        r matches Ok(out) ==> merge_admits(file_views(files@), out@),
        r matches Err(e) ==> e == SchemaError::DependencyCycle,
{
    let ghost fs = file_views(files@);
    let n = files.len();
    if n == 1 {
        return Ok(files[0].1.clone());
    }
    let (names, mut g) = import_graph_of(files);
    let order = sort_by_name(&names, n);
    proof {
        assert forall|a: int, b: int| 0 <= a < b < n implies lex_lt(
            fs[order@[a] as int].0,
            fs[order@[b] as int].0,
        ) by {
            assert(names@[order@[a] as int]@ == fs[order@[a] as int].0);
            assert(names@[order@[b] as int]@ == fs[order@[b] as int].0);
        }
        assert(sorted_files(fs, order@));
    }
    let total = names.len();
    assert(names@.len() == total);
    let iso = isolation_flags(&g, &order, Ghost(fs), Ghost(names@));
    proof {
        if has_topological_order(dependency_nodes(fs), dependency_edges(fs)) {
            let s = choose|s: Seq<Seq<char>>|
                is_topological_order(s, dependency_nodes(fs), dependency_edges(fs));
            assert forall|i: int, j: int|
                0 <= i < s.len() && 0 <= j < s.len() && #[trigger] import_edges(fs).contains(
                    (s[i], s[j]),
                ) implies i < j by {
                assert(dependency_edges(fs).contains((s[i], s[j])));
            }
            assert(is_topological_order(s, dependency_nodes(fs), import_edges(fs)));
        }
        if n == 0 {
            assert(dependency_nodes(fs) =~= Set::empty());
            assert(Seq::<Seq<char>>::empty().to_set() =~= Set::empty());
            assert(is_topological_order(
                Seq::<Seq<char>>::empty(),
                dependency_nodes(fs),
                dependency_edges(fs),
            ));
        } else if has_topological_order(dependency_nodes(fs), import_edges(fs)) {
            lemma_order_edges_acyclic(fs, order@, iso@, n as int);
            assert forall|e: (Seq<char>, Seq<char>)| dependency_edges(fs).contains(e) <==> edges_upto(
                fs,
                order@,
                iso@,
                n as int,
            ).contains(e) by {
                if order_edge(fs, e.0, e.1) {
                    let ia = choose|i: int| 0 <= i < fs.len() && fs[i].0 == e.0;
                    let ib = choose|i: int| 0 <= i < fs.len() && fs[i].0 == e.1;
                    lemma_order_edges(fs, order@, iso@, ia as usize, ib as usize);
                    let k = choose|k: int| 0 <= k < fs.len() && #[trigger] order_edge_at(order@, iso@, k, ia as usize, ib as usize);
                    assert(order_edge_at(order@, iso@, k, ia as usize, ib as usize));
                }
                if edges_upto(fs, order@, iso@, n as int).contains(e) && !import_edge(fs, e.0, e.1) {
                    let (k, a, b) = choose|k: int, a: usize, b: usize|
                        0 <= k < n && a < fs.len() && b < fs.len() && #[trigger] order_edge_at(order@, iso@, k, a, b)
                            && e == (fs[a as int].0, fs[b as int].0);
                    lemma_order_edges(fs, order@, iso@, a, b);
                }
            }
            assert(dependency_edges(fs) =~= edges_upto(fs, order@, iso@, n as int));
        }
    }
    let ghost import_g = g;
    let mut k: usize = 0;
    while k < n
        invariant
            n == files.len(),
            n != 1,
            fs == file_views(files@),
            keys_distinct(fs),
            import_graph(fs, names@, import_g, n as int),
            sorted_files(fs, order@),
            iso.len() == n,
            k <= n,
            graph_nodes(g) == graph_nodes(import_g),
            forall|a: usize, b: usize|
                #[trigger] graph_edges(g).contains((a, b)) <==> graph_edges(import_g).contains(
                    (a, b),
                ) || exists|j: int| 0 <= j < k && #[trigger] order_edge_at(order@, iso@, j, a, b),
        decreases n - k,
    {
        let ghost before = g;
        if iso[k] {
            let a = if k == 0 {
                order[0]
            } else {
                order[k - 1]
            };
            let b = if k == 0 {
                order[1]
            } else {
                order[k]
            };
            add_edge(&mut g, a, b);
            proof {
                assert(order_edge_at(order@, iso@, k as int, a, b));
                assert(graph_nodes(g) =~= graph_nodes(before));
            }
        }
        proof {
            assert forall|a: usize, b: usize|
                #[trigger] graph_edges(g).contains((a, b)) <==> graph_edges(import_g).contains(
                    (a, b),
                ) || exists|j: int| 0 <= j < k + 1 && #[trigger] order_edge_at(order@, iso@, j, a, b) by {
                if exists|j: int| 0 <= j < k + 1 && #[trigger] order_edge_at(order@, iso@, j, a, b) {
                    let j = choose|j: int| 0 <= j < k + 1 && #[trigger] order_edge_at(order@, iso@, j, a, b);
                    if j < k {
                        assert(graph_edges(before).contains((a, b)));
                    }
                }
            }
        }
        k = k + 1;
    }
    let ghost name = |id: usize| names@[id as int]@;
    let ghost ids = Set::new(|id: usize| id < names.len());
    proof {
        assert(graph_nodes(g) =~= ids);
        assert forall|a: usize| ids.contains(a) && a >= n implies !is_key(fs, #[trigger] name(a)) by {
            if is_key(fs, name(a)) {
                let j = choose|j: int| 0 <= j < fs.len() && fs[j].0 == name(a);
                assert(names@[j]@ == fs[j].0);
            }
        }
        assert forall|a: usize| ids.contains(a) implies dependency_nodes(fs).contains(
            #[trigger] name(a),
        ) by {
            if a < n {
                assert(names@[a as int]@ == fs[a as int].0);
            }
        }
        assert forall|x: Seq<char>| dependency_nodes(fs).contains(x) implies exists|a: usize|
            ids.contains(a) && name(a) == x by {
            if is_key(fs, x) {
                let j = choose|j: int| 0 <= j < fs.len() && fs[j].0 == x;
                assert(names@[j]@ == fs[j].0);
                assert(ids.contains(j as usize) && name(j as usize) == x);
            } else {
                let b = choose|b: Seq<char>| import_edge(fs, x, b);
                assert(imported_among(fs, n as int, x, b));
                let id = choose|id: int| 0 <= id < names.len() && #[trigger] names@[id]@ == x;
                assert(ids.contains(id as usize) && name(id as usize) == x);
            }
        }
        assert forall|a: usize, b: usize| ids.contains(a) && ids.contains(b) implies (graph_edges(
            g,
        ).contains((a, b)) <==> dependency_edges(fs).contains((name(a), name(b)))) by {
            if a < n && b < n && n >= 2 {
                assert(names@[a as int]@ == fs[a as int].0);
                assert(names@[b as int]@ == fs[b as int].0);
                lemma_order_edges(fs, order@, iso@, a, b);
            } else {
                if exists|j: int| 0 <= j < n && #[trigger] order_edge_at(order@, iso@, j, a, b) {
                    let j = choose|j: int| 0 <= j < n && #[trigger] order_edge_at(order@, iso@, j, a, b);
                    if j == 0 {
                        assert(order@[0] < n && order@[1] < n);
                    } else {
                        assert(order@[j - 1] < n && order@[j] < n);
                    }
                }
                if order_edge(fs, name(a), name(b)) {
                    assert(is_key(fs, name(a)) && is_key(fs, name(b)));
                }
            }
        }
        lemma_topological_order_renamed(ids, graph_edges(g), name, dependency_nodes(fs), dependency_edges(fs));
    }
    match topological_sort(&g) {
        None => Err(SchemaError::DependencyCycle),
        Some(v) => {
            let (parts, Ghost(p), Ghost(pos)) = contents_in_order(files, &v);
            proof {
                assert forall|i: int| 0 <= i < fs.len() implies #[trigger] p.contains(i) by {
                    assert(graph_nodes(g).contains(i as usize));
                    assert(v@.to_set().contains(i as usize));
                    let j = choose|j: int| 0 <= j < v@.len() && v@[j] == i as usize;
                }
                assert forall|x: int, y: int|
                    0 <= x < p.len() && 0 <= y < p.len() && #[trigger] dependency_edges(fs).contains(
                        (fs[p[x]].0, fs[p[y]].0),
                    ) implies x < y by {
                    let a = v@[pos[x]];
                    let b = v@[pos[y]];
                    assert(names@[a as int]@ == fs[p[x]].0);
                    assert(names@[b as int]@ == fs[p[y]].0);
                    assert(ids.contains(a) && ids.contains(b));
                    assert(graph_edges(g).contains((a, b)));
                    if x >= y {
                        if x > y {
                            assert(pos[y] < pos[x]);
                        }
                    }
                }
                assert(p.no_duplicates());
                assert(forall|k: int| 0 <= k < p.len() ==> 0 <= #[trigger] p[k] < fs.len());
                assert(is_file_order(fs, p));
                reveal_strlit("\n");
            }
            let out = join_strings(&parts, "\n");
            Ok(out)
        },
    }
}


/// When the imports form no cycle (and `merge_sql_scripts` then succeeds),
/// every merge lists each file's content exactly once, the content of an
/// imported file before that of the file that imports it.
pub proof fn lemma_acyclic_merge_keeps_imports_first(fs: Seq<(Seq<char>, Seq<char>)>, out: Seq<char>)
    requires
        keys_distinct(fs),
        has_topological_order(dependency_nodes(fs), import_edges(fs)),
    ensures
        merge_admits(fs, out) ==> exists|p: Seq<int>|
            {
                &&& is_file_order(fs, p)
                &&& out == joined(fs, p)
                &&& forall|x: int, y: int|
                    0 <= x < p.len() && 0 <= y < p.len() && #[trigger] import_edge(
                        fs,
                        fs[p[x]].0,
                        fs[p[y]].0,
                    ) ==> x < y
            },
{
    if merge_admits(fs, out) {
        if fs.len() == 1 {
            let p = seq![0int];
            assert forall|x: int, y: int|
                0 <= x < p.len() && 0 <= y < p.len() && #[trigger] dependency_edges(fs).contains(
                    (fs[p[x]].0, fs[p[y]].0),
                ) implies x < y by {
                let s = choose|s: Seq<Seq<char>>|
                    is_topological_order(s, dependency_nodes(fs), import_edges(fs));
                assert(is_key(fs, fs[0].0));
                assert(dependency_nodes(fs).contains(fs[0].0));
                assert(s.to_set().contains(fs[0].0));
                let i = choose|i: int| 0 <= i < s.len() && s[i] == fs[0].0;
                if order_edge(fs, fs[0].0, fs[0].0) {
                    lemma_lex_irreflexive(fs[0].0);
                }
                assert(import_edges(fs).contains((fs[p[x]].0, fs[p[y]].0)));
            }
            assert(p[0] == 0);
            assert(p.contains(0));
            assert(is_file_order(fs, p));
            assert(contents_of(fs, p) =~= seq![fs[0].1]);
            assert(out == joined(fs, p));
            assert forall|x: int, y: int|
                0 <= x < p.len() && 0 <= y < p.len() && #[trigger] import_edge(
                    fs,
                    fs[p[x]].0,
                    fs[p[y]].0,
                ) implies x < y by {
                assert(dependency_edges(fs).contains((fs[p[x]].0, fs[p[y]].0)));
            }
        } else {
            let p = choose|p: Seq<int>| is_file_order(fs, p) && out == joined(fs, p);
            assert forall|x: int, y: int|
                0 <= x < p.len() && 0 <= y < p.len() && #[trigger] import_edge(
                    fs,
                    fs[p[x]].0,
                    fs[p[y]].0,
                ) implies x < y by {
                assert(dependency_edges(fs).contains((fs[p[x]].0, fs[p[y]].0)));
            }
        }
    }
}

/// Two different files that import each other form a cycle: they cannot be
/// merged.
pub proof fn lemma_mutual_imports_cannot_merge(
    fs: Seq<(Seq<char>, Seq<char>)>,
    a: Seq<char>,
    b: Seq<char>,
)
    requires
        keys_distinct(fs),
        a != b,
        import_edge(fs, a, b),
        import_edge(fs, b, a),
    ensures
        !mergeable(fs),
{
    assert(is_key(fs, a) && is_key(fs, b));
    let ia = choose|i: int| 0 <= i < fs.len() && fs[i].0 == a;
    let ib = choose|i: int| 0 <= i < fs.len() && fs[i].0 == b;
    assert(fs.len() != 1);
    if has_topological_order(dependency_nodes(fs), dependency_edges(fs)) {
        let s = choose|s: Seq<Seq<char>>|
            is_topological_order(s, dependency_nodes(fs), dependency_edges(fs));
        assert(dependency_nodes(fs).contains(a) && dependency_nodes(fs).contains(b));
        assert(s.to_set().contains(a) && s.to_set().contains(b));
        let i = choose|i: int| 0 <= i < s.len() && s[i] == a;
        let j = choose|j: int| 0 <= j < s.len() && s[j] == b;
        assert(dependency_edges(fs).contains((s[i], s[j])));
        assert(dependency_edges(fs).contains((s[j], s[i])));
    }
}


/// `sorted` lists every file once, in increasing lexicographic order of paths.
pub open spec fn lists_by_path(fs: Seq<(Seq<char>, Seq<char>)>, sorted: Seq<int>) -> bool {
    &&& sorted.len() == fs.len()
    &&& forall|k: int| 0 <= k < sorted.len() ==> 0 <= #[trigger] sorted[k] < fs.len()
    &&& forall|i: int| 0 <= i < fs.len() ==> #[trigger] sorted.contains(i)
    &&& forall|a: int, b: int|
        0 <= a < b < sorted.len() ==> lex_lt(fs[sorted[a]].0, fs[sorted[b]].0)
}

proof fn lemma_path_order_position(fs: Seq<(Seq<char>, Seq<char>)>, sorted: Seq<int>, x: int, y: int)
    requires
        lists_by_path(fs, sorted),
        0 <= x < sorted.len(),
        0 <= y < sorted.len(),
        lex_lt(fs[sorted[x]].0, fs[sorted[y]].0),
    ensures
        x < y,
{
    if x == y {
        lemma_lex_irreflexive(fs[sorted[x]].0);
    } else if y < x {
        lemma_lex_asymmetric(fs[sorted[x]].0, fs[sorted[y]].0);
    }
}

proof fn lemma_path_order_next(fs: Seq<(Seq<char>, Seq<char>)>, sorted: Seq<int>, x: int)
    requires
        lists_by_path(fs, sorted),
        0 <= x < sorted.len() - 1,
    ensures
        next_key(fs, fs[sorted[x]].0, fs[sorted[x + 1]].0),
{
    let kx = fs[sorted[x]].0;
    let ky = fs[sorted[x + 1]].0;
    assert(is_key(fs, kx) && is_key(fs, ky));
    assert forall|c: Seq<char>| is_key(fs, c) implies !(lex_lt(kx, c) && #[trigger] lex_lt(c, ky)) by {
        let ci = choose|ci: int| 0 <= ci < fs.len() && fs[ci].0 == c;
        assert(sorted.contains(ci));
        let m = choose|m: int| 0 <= m < sorted.len() && sorted[m] == ci;
        if lex_lt(kx, c) && lex_lt(c, ky) {
            lemma_path_order_position(fs, sorted, x, m);
            lemma_path_order_position(fs, sorted, m, x + 1);
        }
    }
}

proof fn lemma_no_imports_no_edges(fs: Seq<(Seq<char>, Seq<char>)>, a: Seq<char>, b: Seq<char>)
    requires
        forall|i: int| 0 <= i < fs.len() ==> (#[trigger] directive_targets(fs[i].1)).len() == 0,
    ensures
        !import_edge(fs, a, b),
{
    if import_edge(fs, a, b) {
        let i = choose|i: int|
            0 <= i < fs.len() && fs[i].0 == b && #[trigger] file_imports(fs[i].0, fs[i].1).contains(a);
        assert(directive_targets(fs[i].1).len() == 0);
    }
}

spec fn taken(f: Seq<int>, x: int) -> bool {
    exists|m: int| 0 <= m < f.len() && f[m] == x
}

/// Where `f[k]` is the place of `sorted[k]` in an order that keeps the
/// dependency edges, and every place is taken, `f[k] == k`.
proof fn lemma_places_are_positions(f: Seq<int>, len: int, k: int)
    requires
        0 <= k < f.len(),
        forall|a: int| 0 <= a < f.len() ==> 0 <= #[trigger] f[a] < len,
        forall|a: int| 0 <= a < f.len() - 1 ==> #[trigger] f[a] < f[a + 1],
        forall|x: int| 0 <= x < len ==> #[trigger] taken(f, x),
    ensures
        f[k] == k,
    decreases k,
{
    assert forall|a: int, b: int| 0 <= a < b < f.len() implies f[a] < f[b] by {
        lemma_increasing(f, a, b);
    }
    if k == 0 {
        assert(taken(f, 0));
        let m = choose|m: int| 0 <= m < f.len() && #[trigger] f[m] == 0;
        if m > 0 {
            assert(f[0] < f[m]);
        }
    } else {
        lemma_places_are_positions(f, len, k - 1);
        assert(f[k - 1] < f[k]);
        let x = k;
        if x < len {
            assert(taken(f, x));
            let m = choose|m: int| 0 <= m < f.len() && #[trigger] f[m] == x;
            if m < k {
                if m < k - 1 {
                    assert(f[m] < f[k - 1]);
                }
            } else if m > k {
                assert(f[k] < f[m]);
            }
        }
    }
}

proof fn lemma_increasing(f: Seq<int>, a: int, b: int)
    requires
        0 <= a < b < f.len(),
        forall|i: int| 0 <= i < f.len() - 1 ==> #[trigger] f[i] < f[i + 1],
    ensures
        f[a] < f[b],
    decreases b - a,
{
    if b > a + 1 {
        lemma_increasing(f, a, b - 1);
        assert(f[b - 1] < f[b]);
    } else {
        assert(f[a] < f[a + 1]);
    }
}

/// Files without import directives merge in the lexicographic order of their
/// paths: a merge is possible, and it is the contents in that order.
pub proof fn lemma_plain_files_merge_in_path_order(
    fs: Seq<(Seq<char>, Seq<char>)>,
    sorted: Seq<int>,
    out: Seq<char>,
)
    requires
        keys_distinct(fs),
        forall|i: int| 0 <= i < fs.len() ==> (#[trigger] directive_targets(fs[i].1)).len() == 0,
        lists_by_path(fs, sorted),
    ensures
        mergeable(fs),
        merge_admits(fs, out) <==> out == joined(fs, sorted),
{
    let n = fs.len();
    assert forall|a: Seq<char>, b: Seq<char>| !#[trigger] import_edge(fs, a, b) by {
        lemma_no_imports_no_edges(fs, a, b);
    }
    assert(sorted.no_duplicates()) by {
        assert forall|x: int, y: int| 0 <= x < sorted.len() && 0 <= y < sorted.len() && x != y implies sorted[x] != sorted[y] by {
            if x < y {
                assert(lex_lt(fs[sorted[x]].0, fs[sorted[y]].0));
            } else {
                assert(lex_lt(fs[sorted[y]].0, fs[sorted[x]].0));
            }
            if sorted[x] == sorted[y] {
                lemma_lex_irreflexive(fs[sorted[x]].0);
            }
        }
    }
    assert forall|x: int, y: int|
        0 <= x < sorted.len() && 0 <= y < sorted.len() && #[trigger] dependency_edges(fs).contains(
            (fs[sorted[x]].0, fs[sorted[y]].0),
        ) implies x < y by {
        lemma_path_order_position(fs, sorted, x, y);
    }
    assert(is_file_order(fs, sorted));
    let s = sorted.map_values(|i: int| fs[i].0);
    assert forall|x: Seq<char>| s.to_set().contains(x) <==> dependency_nodes(fs).contains(x) by {
        if s.to_set().contains(x) {
            let k = choose|k: int| 0 <= k < s.len() && s[k] == x;
            assert(is_key(fs, fs[sorted[k]].0));
        }
        if dependency_nodes(fs).contains(x) {
            assert(!is_imported(fs, x));
            let i = choose|i: int| 0 <= i < fs.len() && fs[i].0 == x;
            assert(sorted.contains(i));
            let k = choose|k: int| 0 <= k < sorted.len() && sorted[k] == i;
            assert(s[k] == x);
        }
    }
    assert(s.to_set() =~= dependency_nodes(fs));
    assert forall|x: int, y: int| 0 <= x < s.len() && 0 <= y < s.len() && x != y implies s[x] != s[y] by {
        assert(sorted[x] != sorted[y]);
    }
    assert forall|x: int, y: int|
        0 <= x < s.len() && 0 <= y < s.len() && #[trigger] dependency_edges(fs).contains(
            (s[x], s[y]),
        ) implies x < y by {
        assert(dependency_edges(fs).contains((fs[sorted[x]].0, fs[sorted[y]].0)));
    }
    assert(is_topological_order(s, dependency_nodes(fs), dependency_edges(fs)));
    if n == 1 {
        assert(sorted[0] == 0);
        assert(contents_of(fs, sorted) =~= seq![fs[0].1]);
    } else {
        if merge_admits(fs, out) {
            let q = choose|q: Seq<int>| is_file_order(fs, q) && out == joined(fs, q);
            let f = Seq::new(n, |k: int| choose|x: int| 0 <= x < q.len() && q[x] == sorted[k]);
            assert forall|k: int| 0 <= k < n implies 0 <= #[trigger] f[k] < q.len() && q[f[k]] == sorted[k] by {
                assert(q.contains(sorted[k]));
            }
            assert forall|k: int| 0 <= k < f.len() - 1 implies #[trigger] f[k] < f[k + 1] by {
                lemma_path_order_next(fs, sorted, k);
                assert(is_isolated(fs, fs[sorted[k + 1]].0));
                assert(order_edge(fs, fs[sorted[k]].0, fs[sorted[k + 1]].0));
                assert(dependency_edges(fs).contains((fs[q[f[k]]].0, fs[q[f[k + 1]]].0)));
            }
            assert forall|x: int| 0 <= x < q.len() implies #[trigger] taken(f, x) by {
                assert(sorted.contains(q[x]));
                let m = choose|m: int| 0 <= m < sorted.len() && sorted[m] == q[x];
                assert(q[f[m]] == q[x]);
            }
            assert forall|k: int| 0 <= k < n implies #[trigger] f[k] == k by {
                lemma_places_are_positions(f, q.len() as int, k);
            }
            if q.len() > n {
                assert(taken(f, n as int));
                let m = choose|m: int| 0 <= m < f.len() && #[trigger] f[m] == n;
            }
            if n > 0 {
                assert(f[n - 1] == n - 1);
            } else if q.len() > 0 {
                assert(0 <= q[0] < fs.len());
            }
            assert(q.len() == n);
            assert forall|k: int| 0 <= k < n implies q[k] == sorted[k] by {
                assert(f[k] == k);
            }
            assert(q =~= sorted);
        }
    }
}

} // verus!
