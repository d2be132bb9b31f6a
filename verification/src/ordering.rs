//! Why the evaluation order is the one the module specification asks for.
//!
//! [`crate::ModuleGraph::evaluation_order`] is proved equal to a depth-first post-order walk,
//! [`evaluation_order_of`]. The laws here say what that walk gives: every module that the
//! entry reaches, each once, nothing else, the entry last, and every import before its
//! importer unless the import reaches the importer back, which is a cycle.

use vstd::prelude::*;

use crate::graph::{
    count_unvisited, dfs_imports, dfs_visit, evaluation_order_of, grows, imports_of, lemma_count_grows,
    lemma_count_mark, lemma_dfs_visit_grows, ModuleGraph, ModuleId,
};

verus! {

broadcast use {vstd::seq_lib::lemma_seq_concat_contains_all_elements, vstd::seq_lib::lemma_seq_contains_after_push};

// ---- reachability ---------------------------------------------------------------------------

/// `path` is a walk through the graph: at least one module, every one of them a module of
/// the graph, and each imported by the one before it.
pub open spec fn is_walk(edges: Seq<Seq<ModuleId>>, path: Seq<ModuleId>) -> bool {
    &&& path.len() >= 1
    &&& forall|i: int| 0 <= i < path.len() ==> (#[trigger] path[i]).0 < edges.len()
    &&& forall|i: int|
        0 <= i < path.len() - 1 ==> imports_of(edges, #[trigger] path[i]).contains(path[i + 1])
}

/// `to` can be reached from `from` by following imports, in none or more steps.
pub open spec fn reaches(edges: Seq<Seq<ModuleId>>, from: ModuleId, to: ModuleId) -> bool {
    exists|path: Seq<ModuleId>| #[trigger] is_walk(edges, path) && path[0] == from && path.last() == to
}

/// A module of the graph reaches itself.
pub proof fn lemma_reaches_itself(edges: Seq<Seq<ModuleId>>, module: ModuleId)
    requires
        (module.0 as int) < edges.len(),
    ensures
        reaches(edges, module, module),
{
    let path = seq![module];
    assert(is_walk(edges, path));
}

/// An import of `from` that reaches `to` lets `from` reach it too.
proof fn lemma_reaches_through(
    edges: Seq<Seq<ModuleId>>,
    from: ModuleId,
    step: ModuleId,
    to: ModuleId,
)
    requires
        (from.0 as int) < edges.len(),
        imports_of(edges, from).contains(step),
        reaches(edges, step, to),
    ensures
        reaches(edges, from, to),
{
    let tail = choose|path: Seq<ModuleId>| #[trigger] is_walk(edges, path) && path[0] == step && path.last() == to;
    let path = seq![from] + tail;
    assert forall|i: int| 0 <= i < path.len() implies (#[trigger] path[i]).0 < edges.len() by {
        if i > 0 {
            assert(path[i] == tail[i - 1]);
        }
    }
    assert forall|i: int| 0 <= i < path.len() - 1 implies imports_of(edges, #[trigger] path[i]).contains(path[i + 1]) by {
        if i > 0 {
            assert(path[i] == tail[i - 1]);
            assert(path[i + 1] == tail[i]);
        }
    }
    assert(is_walk(edges, path));
}

/// Reaching is transitive.
pub proof fn lemma_reaches_trans(edges: Seq<Seq<ModuleId>>, a: ModuleId, b: ModuleId, c: ModuleId)
    requires
        reaches(edges, a, b),
        reaches(edges, b, c),
    ensures
        reaches(edges, a, c),
{
    let first = choose|path: Seq<ModuleId>| #[trigger] is_walk(edges, path) && path[0] == a && path.last() == b;
    let second = choose|path: Seq<ModuleId>| #[trigger] is_walk(edges, path) && path[0] == b && path.last() == c;
    let path = first + second.skip(1);
    assert forall|i: int| 0 <= i < path.len() implies (#[trigger] path[i]).0 < edges.len() by {
        if i >= first.len() {
            assert(path[i] == second[i - first.len() + 1]);
        }
    }
    assert forall|i: int| 0 <= i < path.len() - 1 implies imports_of(edges, #[trigger] path[i]).contains(path[i + 1]) by {
        if i < first.len() - 1 {
            assert(path[i + 1] == first[i + 1]);
        } else if i == first.len() - 1 {
            assert(path[i] == b);
            assert(second[0] == b);
            assert(path[i + 1] == second[1]);
        } else {
            assert(path[i] == second[i - first.len() + 1]);
            assert(path[i + 1] == second[i - first.len() + 2]);
        }
    }
    if second.len() == 1 {
        assert(path =~= first);
    } else {
        assert(path.last() == second.last());
    }
    assert(is_walk(edges, path));
}

/// A module imported by `from` is reached from it.
pub proof fn lemma_reaches_import(edges: Seq<Seq<ModuleId>>, from: ModuleId, to: ModuleId)
    requires
        (from.0 as int) < edges.len(),
        (to.0 as int) < edges.len(),
        imports_of(edges, from).contains(to),
    ensures
        reaches(edges, from, to),
{
    let path = seq![from, to];
    assert(is_walk(edges, path));
}

// ---- what a walk marks and emits -------------------------------------------------------------

/// `module` is marked in `after` and was not in `before`.
pub open spec fn newly_marked(before: Seq<bool>, after: Seq<bool>, module: ModuleId) -> bool {
    &&& (module.0 as int) < after.len()
    &&& after[module.0 as int]
    &&& !before[module.0 as int]
}

/// A walk over imports emits each module it newly marks, once, and nothing else.
proof fn lemma_imports_emit(
    edges: Seq<Seq<ModuleId>>,
    module: ModuleId,
    next: int,
    visited: Seq<bool>,
)
    requires
        visited.len() == edges.len(),
    ensures
        ({
            let (after, out) = dfs_imports(edges, module, next, visited);
            &&& grows(visited, after)
            &&& out.no_duplicates()
            &&& forall|x: ModuleId| #[trigger] out.contains(x) <==> newly_marked(visited, after, x)
        }),
    decreases count_unvisited(visited), 0int, imports_of(edges, module).len() - next,
{
    let imports = imports_of(edges, module);
    if next < 0 || next >= imports.len() {
        assert(grows(visited, visited));
    } else {
        let child = imports[next];
        let at = child.0 as int;
        if at >= edges.len() || visited[at] {
            lemma_imports_emit(edges, module, next + 1, visited);
        } else {
            let marked = visited.update(at, true);
            lemma_count_mark(visited, at);
            lemma_visit_emits(edges, child, marked);
            let below = dfs_visit(edges, child, marked);
            assert(grows(visited, below.0)) by {
                assert forall|k: int| 0 <= k < visited.len() && #[trigger] visited[k] implies below.0[k] by {
                    assert(marked[k]);
                }
            }
            lemma_count_grows(visited, below.0);
            lemma_imports_emit(edges, module, next + 1, below.0);
            let rest = dfs_imports(edges, module, next + 1, below.0);
            assert(dfs_imports(edges, module, next, visited) == (rest.0, below.1 + rest.1));
            assert(below.0[at]) by {
                assert(marked[at]);
            }
            assert(rest.0[at]) by {
                assert(below.0[at]);
            }
            assert forall|x: ModuleId| #[trigger] below.1.contains(x) implies (x.0 as int) < below.0.len()
                && below.0[x.0 as int] by {
                if x != child {
                    assert(newly_marked(marked, below.0, x));
                }
            }
            assert forall|i: int, j: int| 0 <= i < below.1.len() && 0 <= j < rest.1.len() implies below.1[i] != rest.1[j] by {
                assert(below.1.contains(below.1[i]));
                assert(rest.1.contains(rest.1[j]));
                assert(newly_marked(below.0, rest.0, rest.1[j]));
            }
            vstd::seq_lib::lemma_no_dup_in_concat(below.1, rest.1);
            assert forall|x: ModuleId| #[trigger] (below.1 + rest.1).contains(x) <==> newly_marked(visited, rest.0, x) by {
                let k = x.0 as int;
                if below.1.contains(x) {
                    assert(below.0[k]);
                    assert(rest.0[k]);
                    if x != child {
                        assert(newly_marked(marked, below.0, x));
                        assert(!marked[k]);
                    }
                }
                if rest.1.contains(x) {
                    assert(newly_marked(below.0, rest.0, x));
                    if visited[k] {
                        assert(below.0[k]);
                    }
                }
                if newly_marked(visited, rest.0, x) {
                    if below.0[k] {
                        if k == at {
                            assert(x == child);
                        } else {
                            assert(!marked[k]);
                            assert(newly_marked(marked, below.0, x));
                        }
                    } else {
                        assert(newly_marked(below.0, rest.0, x));
                    }
                }
            }
        }
    }
}

/// A walk from a marked module emits each module it newly marks, then the module itself.
proof fn lemma_visit_emits(edges: Seq<Seq<ModuleId>>, module: ModuleId, visited: Seq<bool>)
    requires
        visited.len() == edges.len(),
        (module.0 as int) < edges.len(),
        visited[module.0 as int],
    ensures
        ({
            let (after, out) = dfs_visit(edges, module, visited);
            &&& grows(visited, after)
            &&& out.no_duplicates()
            &&& out.len() >= 1
            &&& out.last() == module
            &&& forall|x: ModuleId|
                #[trigger] out.contains(x) <==> newly_marked(visited, after, x) || x == module
        }),
    decreases count_unvisited(visited), 1int, 0int,
{
    lemma_imports_emit(edges, module, 0, visited);
    let inner = dfs_imports(edges, module, 0, visited);
    assert(!inner.1.contains(module));
    assert forall|i: int, j: int| 0 <= i < inner.1.len() && 0 <= j < seq![module].len() implies inner.1[i] != seq![module][j] by {
        assert(inner.1.contains(inner.1[i]));
    }
    vstd::seq_lib::lemma_no_dup_in_concat(inner.1, seq![module]);
    assert(inner.1 + seq![module] =~= inner.1.push(module));
}


// ---- a finished module has its imports marked ------------------------------------------------

/// Every import of `module` from position `from` on that names a module is marked.
pub open spec fn imports_marked(
    edges: Seq<Seq<ModuleId>>,
    marks: Seq<bool>,
    module: ModuleId,
    from: int,
) -> bool {
    forall|k: int|
        0 <= from <= k < imports_of(edges, module).len() && (#[trigger] imports_of(
            edges,
            module,
        )[k]).0 < edges.len() ==> marks[imports_of(edges, module)[k].0 as int]
}

/// Marks only grow, so marked imports stay marked.
proof fn lemma_imports_stay_marked(
    edges: Seq<Seq<ModuleId>>,
    earlier: Seq<bool>,
    later: Seq<bool>,
    module: ModuleId,
    from: int,
)
    requires
        imports_marked(edges, earlier, module, from),
        grows(earlier, later),
        earlier.len() == edges.len(),
    ensures
        imports_marked(edges, later, module, from),
{
    assert forall|k: int|
        0 <= from <= k < imports_of(edges, module).len() && (#[trigger] imports_of(
            edges,
            module,
        )[k]).0 < edges.len() implies later[imports_of(edges, module)[k].0 as int] by {
        assert(earlier[imports_of(edges, module)[k].0 as int]);
    }
}

/// A walk over imports from `next` on marks each of them, and every module it emits has all
/// its imports marked.
proof fn lemma_imports_close(
    edges: Seq<Seq<ModuleId>>,
    module: ModuleId,
    next: int,
    visited: Seq<bool>,
)
    requires
        visited.len() == edges.len(),
        next >= 0,
    ensures
        ({
            let (after, out) = dfs_imports(edges, module, next, visited);
            &&& imports_marked(edges, after, module, next)
            &&& forall|x: ModuleId| #[trigger] out.contains(x) ==> imports_marked(edges, after, x, 0)
        }),
    decreases count_unvisited(visited), 0int, imports_of(edges, module).len() - next,
{
    let imports = imports_of(edges, module);
    lemma_imports_emit(edges, module, next, visited);
    if next >= imports.len() {
    } else {
        let child = imports[next];
        let at = child.0 as int;
        if at >= edges.len() || visited[at] {
            lemma_imports_close(edges, module, next + 1, visited);
            let after = dfs_imports(edges, module, next + 1, visited).0;
            if at < edges.len() {
                assert(after[at]);
            }
        } else {
            let marked = visited.update(at, true);
            lemma_count_mark(visited, at);
            lemma_visit_emits(edges, child, marked);
            lemma_visit_closes(edges, child, marked);
            let below = dfs_visit(edges, child, marked);
            assert(grows(visited, below.0)) by {
                assert forall|k: int| 0 <= k < visited.len() && #[trigger] visited[k] implies below.0[k] by {
                    assert(marked[k]);
                }
            }
            lemma_count_grows(visited, below.0);
            lemma_imports_emit(edges, module, next + 1, below.0);
            lemma_imports_close(edges, module, next + 1, below.0);
            let rest = dfs_imports(edges, module, next + 1, below.0);
            assert(dfs_imports(edges, module, next, visited) == (rest.0, below.1 + rest.1));
            assert(below.0[at]) by {
                assert(marked[at]);
            }
            assert(rest.0[at]);
            assert forall|x: ModuleId| #[trigger] (below.1 + rest.1).contains(x) implies imports_marked(edges, rest.0, x, 0) by {
                if below.1.contains(x) {
                    lemma_imports_stay_marked(edges, below.0, rest.0, x, 0);
                }
            }
        }
    }
}

/// A walk from a marked module leaves every module it emits with all its imports marked.
proof fn lemma_visit_closes(edges: Seq<Seq<ModuleId>>, module: ModuleId, visited: Seq<bool>)
    requires
        visited.len() == edges.len(),
        (module.0 as int) < edges.len(),
        visited[module.0 as int],
    ensures
        ({
            let (after, out) = dfs_visit(edges, module, visited);
            forall|x: ModuleId| #[trigger] out.contains(x) ==> imports_marked(edges, after, x, 0)
        }),
    decreases count_unvisited(visited), 1int, 0int,
{
    lemma_imports_close(edges, module, 0, visited);
}

// ---- everything a walk emits is reachable ------------------------------------------------------

/// Every module a walk over `module`'s imports emits is reachable from `module`.
proof fn lemma_imports_reach(
    edges: Seq<Seq<ModuleId>>,
    module: ModuleId,
    next: int,
    visited: Seq<bool>,
)
    requires
        visited.len() == edges.len(),
        (module.0 as int) < edges.len(),
    ensures
        ({
            let out = dfs_imports(edges, module, next, visited).1;
            forall|x: ModuleId| #[trigger] out.contains(x) ==> reaches(edges, module, x)
        }),
    decreases count_unvisited(visited), 0int, imports_of(edges, module).len() - next,
{
    let imports = imports_of(edges, module);
    if next < 0 || next >= imports.len() {
    } else {
        let child = imports[next];
        let at = child.0 as int;
        if at >= edges.len() || visited[at] {
            lemma_imports_reach(edges, module, next + 1, visited);
            assert(dfs_imports(edges, module, next, visited) == dfs_imports(
                edges,
                module,
                next + 1,
                visited,
            ));
        } else {
            let marked = visited.update(at, true);
            lemma_count_mark(visited, at);
            lemma_visit_reaches(edges, child, marked);
            lemma_dfs_visit_grows(edges, child, marked);
            let below = dfs_visit(edges, child, marked);
            assert(grows(visited, below.0)) by {
                assert forall|k: int| 0 <= k < visited.len() && #[trigger] visited[k] implies below.0[k] by {
                    assert(marked[k]);
                }
            }
            lemma_count_grows(visited, below.0);
            lemma_imports_reach(edges, module, next + 1, below.0);
            let rest = dfs_imports(edges, module, next + 1, below.0);
            assert(dfs_imports(edges, module, next, visited) == (rest.0, below.1 + rest.1));
            assert(imports.contains(child)) by {
                assert(imports[next] == child);
            }
            assert forall|x: ModuleId| #[trigger] (below.1 + rest.1).contains(x) implies reaches(edges, module, x) by {
                if below.1.contains(x) {
                    lemma_reaches_through(edges, module, child, x);
                }
            }
        }
    }
}

/// Every module a walk from `module` emits is reachable from `module`.
proof fn lemma_visit_reaches(edges: Seq<Seq<ModuleId>>, module: ModuleId, visited: Seq<bool>)
    requires
        visited.len() == edges.len(),
        (module.0 as int) < edges.len(),
    ensures
        ({
            let out = dfs_visit(edges, module, visited).1;
            forall|x: ModuleId| #[trigger] out.contains(x) ==> reaches(edges, module, x)
        }),
    decreases count_unvisited(visited), 1int, 0int,
{
    lemma_imports_reach(edges, module, 0, visited);
    lemma_reaches_itself(edges, module);
    let inner = dfs_imports(edges, module, 0, visited).1;
    assert(dfs_visit(edges, module, visited).1 == inner.push(module));
    assert forall|x: ModuleId| #[trigger] inner.push(module).contains(x) implies reaches(edges, module, x) by {
        if x != module {
            assert(inner.contains(x));
        }
    }
}


// ---- imports come first, unless they close a cycle -------------------------------------------

/// `module` occurs in `out` before position `i`.
pub open spec fn emitted_before(out: Seq<ModuleId>, i: int, module: ModuleId) -> bool {
    exists|j: int| 0 <= j < i && out[j] == module
}

/// Each import of each module in `out` was marked in `before`, or comes earlier in `out`, or
/// reaches the module that imports it.
spec fn settled(edges: Seq<Seq<ModuleId>>, before: Seq<bool>, out: Seq<ModuleId>) -> bool {
    forall|i: int, k: int|
        0 <= i < out.len() && 0 <= k < imports_of(edges, out[i]).len() && (#[trigger] imports_of(
            edges,
            out[i],
        )[k]).0 < edges.len() ==> {
            let import = imports_of(edges, out[i])[k];
            before[import.0 as int] || emitted_before(out, i, import) || reaches(edges, import, out[i])
        }
}

/// A walk over `module`'s imports leaves what it emits settled.
proof fn lemma_imports_settle(
    edges: Seq<Seq<ModuleId>>,
    module: ModuleId,
    next: int,
    visited: Seq<bool>,
)
    requires
        visited.len() == edges.len(),
    ensures
        settled(edges, visited, dfs_imports(edges, module, next, visited).1),
    decreases count_unvisited(visited), 0int, imports_of(edges, module).len() - next,
{
    let imports = imports_of(edges, module);
    if next < 0 || next >= imports.len() {
    } else {
        let child = imports[next];
        let at = child.0 as int;
        if at >= edges.len() || visited[at] {
            lemma_imports_settle(edges, module, next + 1, visited);
            assert(dfs_imports(edges, module, next, visited) == dfs_imports(
                edges,
                module,
                next + 1,
                visited,
            ));
        } else {
            let marked = visited.update(at, true);
            lemma_count_mark(visited, at);
            lemma_visit_emits(edges, child, marked);
            lemma_visit_reaches(edges, child, marked);
            lemma_visit_settles(edges, child, marked);
            let below = dfs_visit(edges, child, marked);
            assert(grows(visited, below.0)) by {
                assert forall|k: int| 0 <= k < visited.len() && #[trigger] visited[k] implies below.0[k] by {
                    assert(marked[k]);
                }
            }
            lemma_count_grows(visited, below.0);
            lemma_imports_settle(edges, module, next + 1, below.0);
            let rest = dfs_imports(edges, module, next + 1, below.0);
            let out = below.1 + rest.1;
            assert(dfs_imports(edges, module, next, visited) == (rest.0, out));
            assert forall|i: int, k: int|
                0 <= i < out.len() && 0 <= k < imports_of(edges, out[i]).len() && (
                #[trigger] imports_of(edges, out[i])[k]).0 < edges.len() implies {
                    let import = imports_of(edges, out[i])[k];
                    visited[import.0 as int] || emitted_before(out, i, import) || reaches(
                        edges,
                        import,
                        out[i],
                    )
                } by {
                let import = imports_of(edges, out[i])[k];
                let c = import.0 as int;
                if i < below.1.len() {
                    assert(out[i] == below.1[i]);
                    assert(imports_of(edges, below.1[i])[k] == import);
                    if emitted_before(below.1, i, import) {
                        let j = choose|j: int| 0 <= j < i && below.1[j] == import;
                        assert(out[j] == import);
                    } else if marked[c] && !visited[c] {
                        assert(import == child);
                        assert(below.1.contains(out[i]));
                    }
                } else {
                    let i2 = i - below.1.len();
                    assert(out[i] == rest.1[i2]);
                    assert(imports_of(edges, rest.1[i2])[k] == import);
                    if emitted_before(rest.1, i2, import) {
                        let j = choose|j: int| 0 <= j < i2 && rest.1[j] == import;
                        assert(out[j + below.1.len()] == import);
                    } else if below.0[c] && !visited[c] {
                        if import != child {
                            assert(!marked[c]);
                            assert(newly_marked(marked, below.0, import));
                        }
                        assert(below.1.contains(import));
                        let j = choose|j: int| 0 <= j < below.1.len() && below.1[j] == import;
                        assert(out[j] == import);
                    }
                }
            }
        }
    }
}

/// A walk from a marked module leaves what it emits settled.
proof fn lemma_visit_settles(edges: Seq<Seq<ModuleId>>, module: ModuleId, visited: Seq<bool>)
    requires
        visited.len() == edges.len(),
        (module.0 as int) < edges.len(),
        visited[module.0 as int],
    ensures
        settled(edges, visited, dfs_visit(edges, module, visited).1),
    decreases count_unvisited(visited), 1int, 0int,
{
    lemma_imports_emit(edges, module, 0, visited);
    lemma_imports_close(edges, module, 0, visited);
    lemma_imports_settle(edges, module, 0, visited);
    let inner = dfs_imports(edges, module, 0, visited);
    let out = inner.1.push(module);
    assert(dfs_visit(edges, module, visited).1 == out);
    assert forall|i: int, k: int|
        0 <= i < out.len() && 0 <= k < imports_of(edges, out[i]).len() && (#[trigger] imports_of(
            edges,
            out[i],
        )[k]).0 < edges.len() implies {
            let import = imports_of(edges, out[i])[k];
            visited[import.0 as int] || emitted_before(out, i, import) || reaches(
                edges,
                import,
                out[i],
            )
        } by {
        let import = imports_of(edges, out[i])[k];
        let c = import.0 as int;
        if i < inner.1.len() {
            assert(out[i] == inner.1[i]);
            assert(imports_of(edges, inner.1[i])[k] == import);
            if emitted_before(inner.1, i, import) {
                let j = choose|j: int| 0 <= j < i && inner.1[j] == import;
                assert(out[j] == import);
            }
        } else {
            assert(out[i] == module);
            assert(inner.0[c]);
            if !visited[c] {
                assert(newly_marked(visited, inner.0, import));
                assert(inner.1.contains(import));
                let j = choose|j: int| 0 <= j < inner.1.len() && inner.1[j] == import;
                assert(out[j] == import);
            }
        }
    }
}

// ---- the laws ---------------------------------------------------------------------------------

/// The marks a walk from `entry` starts with: `entry` alone.
spec fn entry_marks(edges: Seq<Seq<ModuleId>>, entry: ModuleId) -> Seq<bool> {
    Seq::new(edges.len(), |k: int| k == entry.0 as int)
}

/// A walk whose every module is marked, in marks closed under imports, stays marked.
proof fn lemma_walk_stays_marked(
    edges: Seq<Seq<ModuleId>>,
    marks: Seq<bool>,
    path: Seq<ModuleId>,
)
    requires
        marks.len() == edges.len(),
        is_walk(edges, path),
        marks[path[0].0 as int],
        forall|x: ModuleId|
            (x.0 as int) < edges.len() && #[trigger] marks[x.0 as int] ==> imports_marked(
                edges,
                marks,
                x,
                0,
            ),
    ensures
        marks[path.last().0 as int],
    decreases path.len(),
{
    if path.len() > 1 {
        let shorter = path.drop_last();
        assert(is_walk(edges, shorter)) by {
            assert forall|i: int| 0 <= i < shorter.len() implies (#[trigger] shorter[i]).0 < edges.len() by {
                assert(shorter[i] == path[i]);
            }
            assert forall|i: int| 0 <= i < shorter.len() - 1 implies imports_of(edges, #[trigger] shorter[i]).contains(shorter[i + 1]) by {
                assert(shorter[i] == path[i]);
                assert(shorter[i + 1] == path[i + 1]);
            }
        }
        lemma_walk_stays_marked(edges, marks, shorter);
        let last = shorter.last();
        let i = path.len() - 2;
        assert(last == path[i]);
        assert(path[i].0 < edges.len());
        assert(imports_of(edges, path[i]).contains(path[i + 1]));
        let k = choose|k: int| 0 <= k < imports_of(edges, last).len() && imports_of(edges, last)[k] == path.last();
        assert(marks[last.0 as int]);
        assert(imports_marked(edges, marks, last, 0));
        assert(path.last().0 < edges.len());
        assert(marks[imports_of(edges, last)[k].0 as int]);
    }
}

/// Everything a walk from `entry` says about the order it gives.
proof fn lemma_evaluation_order(graph: &ModuleGraph, entry: ModuleId)
    requires
        graph.wf(),
        (entry.0 as int) < graph.edges().len(),
    ensures
        ({
            let edges = graph.edges();
            let order = evaluation_order_of(edges, entry);
            &&& order.no_duplicates()
            &&& order.len() >= 1
            &&& order.last() == entry
            &&& forall|x: ModuleId| #[trigger] order.contains(x) <==> reaches(edges, entry, x)
            &&& settled(edges, entry_marks(edges, entry), order)
        }),
{
    let edges = graph.edges();
    let start = entry_marks(edges, entry);
    lemma_visit_emits(edges, entry, start);
    lemma_visit_closes(edges, entry, start);
    lemma_visit_reaches(edges, entry, start);
    lemma_visit_settles(edges, entry, start);
    let (after, order) = dfs_visit(edges, entry, start);
    assert(evaluation_order_of(edges, entry) == order);
    assert forall|x: ModuleId|
        (x.0 as int) < edges.len() && #[trigger] after[x.0 as int] implies imports_marked(edges, after, x, 0) by {
        if x != entry {
            assert(!start[x.0 as int]);
            assert(newly_marked(start, after, x));
        }
        assert(order.contains(x));
    }
    assert forall|x: ModuleId| #[trigger] order.contains(x) <==> reaches(edges, entry, x) by {
        if reaches(edges, entry, x) {
            let path = choose|path: Seq<ModuleId>| #[trigger] is_walk(edges, path) && path[0] == entry && path.last() == x;
            assert(after[entry.0 as int]) by {
                assert(start[entry.0 as int]);
            }
            lemma_walk_stays_marked(edges, after, path);
            assert(path.last().0 < edges.len());
            if x != entry {
                assert(x.0 != entry.0);
                assert(newly_marked(start, after, x));
            }
        }
    }
}

/// Each module evaluates at most once: the order never names a module twice.
pub proof fn law_each_module_evaluates_once(graph: &ModuleGraph, entry: ModuleId)
    requires
        graph.wf(),
    ensures
        evaluation_order_of(graph.edges(), entry).no_duplicates(),
{
    if (entry.0 as int) < graph.edges().len() {
        lemma_evaluation_order(graph, entry);
    }
}

/// The modules that evaluate are exactly those `entry` reaches through imports, itself
/// included; an `entry` that names no module evaluates nothing.
pub proof fn law_evaluates_what_the_entry_reaches(
    graph: &ModuleGraph,
    entry: ModuleId,
    module: ModuleId,
)
    requires
        graph.wf(),
    ensures
        evaluation_order_of(graph.edges(), entry).contains(module) <==> reaches(
            graph.edges(),
            entry,
            module,
        ),
{
    if (entry.0 as int) < graph.edges().len() {
        lemma_evaluation_order(graph, entry);
    } else if reaches(graph.edges(), entry, module) {
        let path = choose|path: Seq<ModuleId>| #[trigger] is_walk(graph.edges(), path) && path[0] == entry && path.last() == module;
        assert(path[0].0 < graph.edges().len());
    }
}

/// The entry evaluates last, after everything it imports.
pub proof fn law_the_entry_evaluates_last(graph: &ModuleGraph, entry: ModuleId)
    requires
        graph.wf(),
        (entry.0 as int) < graph.edges().len(),
    ensures
        evaluation_order_of(graph.edges(), entry).len() >= 1,
        evaluation_order_of(graph.edges(), entry).last() == entry,
{
    lemma_evaluation_order(graph, entry);
}

/// An import evaluates before the module that imports it, unless the import reaches that
/// module back, which makes the two part of one cycle.
pub proof fn law_imports_evaluate_first(
    graph: &ModuleGraph,
    entry: ModuleId,
    position: int,
    import: ModuleId,
)
    requires
        graph.wf(),
        0 <= position < evaluation_order_of(graph.edges(), entry).len(),
        imports_of(graph.edges(), evaluation_order_of(graph.edges(), entry)[position]).contains(
            import,
        ),
        (import.0 as int) < graph.edges().len(),
        !reaches(graph.edges(), import, evaluation_order_of(graph.edges(), entry)[position]),
    ensures
        exists|earlier: int|
            0 <= earlier < position && evaluation_order_of(graph.edges(), entry)[earlier]
                == import,
{
    let edges = graph.edges();
    let order = evaluation_order_of(edges, entry);
    lemma_evaluation_order(graph, entry);
    let module = order[position];
    let k = choose|k: int| 0 <= k < imports_of(edges, module).len() && imports_of(edges, module)[k] == import;
    assert(imports_of(edges, order[position])[k] == import);
    if entry_marks(edges, entry)[import.0 as int] {
        assert(import == entry);
        assert(order.contains(module));
        assert(reaches(edges, entry, module));
    }
    assert(emitted_before(order, position, import));
}

} // verus!
