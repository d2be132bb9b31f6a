//! The module graph: what imports what, and in what order it runs.
//!
//! Cycles are legal in ES modules: they are instantiated together and evaluated in
//! depth-first post-order, so [`ModuleGraph::evaluation_order`] never fails, and
//! [`ModuleGraph::cycles`] only reports which modules take part in one.

use vstd::prelude::*;
use vstd::hash_map::StringHashMap;

use crate::tarjan::{tarjan_cycles, Tarjan};

verus! {

/// Identifies a module.
#[derive(Clone, Copy, Debug, PartialEq, Eq, Structural, PartialOrd, Ord, Hash)]
pub struct ModuleId(pub u32);

impl ModuleId {
    /// The index, for a caller keeping a side table.
    pub fn index(self) -> (index: u32)
        ensures
            index == self.0,
    {
        self.0
    }

    /// Rebuilds an id from [`ModuleId::index`].
    ///
    /// Valid only for an index the graph handed out; a larger one refers to no module, and
    /// every accessor answers nothing for it rather than panicking.
    pub fn from_index(index: u32) -> (id: Self)
        ensures
            id.0 == index,
    {
        ModuleId(index)
    }
}

/// One module: the specifier it was interned under and its imports in source order.
struct Module {
    specifier: String,
    imports: Vec<ModuleId>,
}

/// Every module in a program, and the edges between them.
pub struct ModuleGraph {
    modules: Vec<Module>,
    by_specifier: StringHashMap<ModuleId>,
}

// ---- the model ------------------------------------------------------------------------------

/// What `module` imports in `edges`, or nothing when the id names no module.
pub open spec fn imports_of(edges: Seq<Seq<ModuleId>>, module: ModuleId) -> Seq<ModuleId> {
    if (module.0 as int) < edges.len() {
        edges[module.0 as int]
    } else {
        Seq::empty()
    }
}

/// Every import names a module of the graph.
pub open spec fn imports_in_range(edges: Seq<Seq<ModuleId>>) -> bool {
    forall|from: int, k: int|
        0 <= from < edges.len() && 0 <= k < edges[from].len() ==> (#[trigger] edges[from][k]).0
            < edges.len()
}

/// How many modules `visited` has not marked yet.
pub open spec fn count_unvisited(visited: Seq<bool>) -> nat
    decreases visited.len(),
{
    if visited.len() == 0 {
        0
    } else {
        count_unvisited(visited.drop_last()) + if visited.last() {
            0nat
        } else {
            1nat
        }
    }
}

/// `later` marks everything `earlier` marks, over the same modules.
pub open spec fn grows(earlier: Seq<bool>, later: Seq<bool>) -> bool {
    &&& earlier.len() == later.len()
    &&& forall|k: int| 0 <= k < earlier.len() && #[trigger] earlier[k] ==> later[k]
}

/// Depth-first post-order from `module`, which `visited` already marks: its unvisited
/// imports in source order, each followed by the walk below it, then `module` itself.
///
/// Returns the marks afterwards and the modules in the order they finish.
pub open spec fn dfs_visit(edges: Seq<Seq<ModuleId>>, module: ModuleId, visited: Seq<bool>) -> (
    Seq<bool>,
    Seq<ModuleId>,
)
    decreases count_unvisited(visited), 1int, 0int,
{
    let rest = dfs_imports(edges, module, 0, visited);
    (rest.0, rest.1.push(module))
}

/// The walk over `module`'s imports from position `next` on.
///
/// An import that names no module, or one already marked, is passed over: a module already
/// marked is either finished or still open further up the walk, which is what closes a
/// cycle.
pub open spec fn dfs_imports(
    edges: Seq<Seq<ModuleId>>,
    module: ModuleId,
    next: int,
    visited: Seq<bool>,
) -> (Seq<bool>, Seq<ModuleId>)
    decreases count_unvisited(visited), 0int, imports_of(edges, module).len() - next,
{
    let imports = imports_of(edges, module);
    if visited.len() != edges.len() || next < 0 || next >= imports.len() {
        (visited, Seq::empty())
    } else {
        let child = imports[next];
        let at = child.0 as int;
        if at >= edges.len() || visited[at] {
            dfs_imports(edges, module, next + 1, visited)
        } else {
            let marked = visited.update(at, true);
            proof {
                lemma_count_mark(visited, at);
            }
            let below = dfs_visit(edges, child, marked);
            if grows(visited, below.0) {
                proof {
                    lemma_count_grows(visited, below.0);
                }
                let after = dfs_imports(edges, module, next + 1, below.0);
                (after.0, below.1 + after.1)
            } else {
                below
            }
        }
    }
}

/// The order modules evaluate in from `entry`: depth-first post-order, each module once,
/// imports in source order, and nothing that `entry` does not reach.
pub open spec fn evaluation_order_of(edges: Seq<Seq<ModuleId>>, entry: ModuleId) -> Seq<ModuleId> {
    if (entry.0 as int) < edges.len() {
        dfs_visit(edges, entry, Seq::new(edges.len(), |k: int| k == entry.0 as int)).1
    } else {
        Seq::empty()
    }
}

/// Marking one more module leaves one fewer unvisited.
pub proof fn lemma_count_mark(visited: Seq<bool>, at: int)
    requires
        0 <= at < visited.len(),
        !visited[at],
    ensures
        count_unvisited(visited.update(at, true)) + 1 == count_unvisited(visited),
    decreases visited.len(),
{
    let marked = visited.update(at, true);
    if at == visited.len() - 1 {
        assert(marked.drop_last() =~= visited.drop_last());
    } else {
        assert(marked.drop_last() =~= visited.drop_last().update(at, true));
        lemma_count_mark(visited.drop_last(), at);
    }
}

/// More marks never means more unvisited modules.
pub proof fn lemma_count_grows(earlier: Seq<bool>, later: Seq<bool>)
    requires
        grows(earlier, later),
    ensures
        count_unvisited(later) <= count_unvisited(earlier),
    decreases earlier.len(),
{
    if earlier.len() > 0 {
        lemma_count_grows(earlier.drop_last(), later.drop_last());
    }
}


/// The rest of a walk held as an explicit stack of `(module, next import)` frames, the top
/// frame last: each frame finishes its imports from `next` on, then emits its module, and
/// hands the marks to the frame below.
pub open spec fn dfs_frames(
    edges: Seq<Seq<ModuleId>>,
    stack: Seq<(ModuleId, usize)>,
    visited: Seq<bool>,
) -> (Seq<bool>, Seq<ModuleId>)
    decreases stack.len(),
{
    if stack.len() == 0 {
        (visited, Seq::empty())
    } else {
        let top = stack.last();
        let mine = dfs_imports(edges, top.0, top.1 as int, visited);
        let below = dfs_frames(edges, stack.drop_last(), mine.0);
        (below.0, mine.1.push(top.0) + below.1)
    }
}

/// What is left of a frame: its remaining imports, and emitting its module.
pub open spec fn frame_weight(edges: Seq<Seq<ModuleId>>, frame: (ModuleId, usize)) -> nat {
    let remaining = imports_of(edges, frame.0).len() - frame.1;
    if remaining > 0 {
        (remaining + 1) as nat
    } else {
        1nat
    }
}

/// What is left of a whole stack of frames.
pub open spec fn stack_weight(edges: Seq<Seq<ModuleId>>, stack: Seq<(ModuleId, usize)>) -> nat
    decreases stack.len(),
{
    if stack.len() == 0 {
        0
    } else {
        stack_weight(edges, stack.drop_last()) + frame_weight(edges, stack.last())
    }
}

/// A walk only ever adds marks.
pub proof fn lemma_dfs_visit_grows(edges: Seq<Seq<ModuleId>>, module: ModuleId, visited: Seq<bool>)
    requires
        visited.len() == edges.len(),
    ensures
        grows(visited, dfs_visit(edges, module, visited).0),
    decreases count_unvisited(visited), 1int, 0int,
{
    lemma_dfs_imports_grows(edges, module, 0, visited);
}

/// A walk over imports only ever adds marks.
pub proof fn lemma_dfs_imports_grows(
    edges: Seq<Seq<ModuleId>>,
    module: ModuleId,
    next: int,
    visited: Seq<bool>,
)
    requires
        visited.len() == edges.len(),
    ensures
        grows(visited, dfs_imports(edges, module, next, visited).0),
    decreases count_unvisited(visited), 0int, imports_of(edges, module).len() - next,
{
    let imports = imports_of(edges, module);
    if next < 0 || next >= imports.len() {
    } else {
        let child = imports[next];
        let at = child.0 as int;
        if at >= edges.len() || visited[at] {
            lemma_dfs_imports_grows(edges, module, next + 1, visited);
        } else {
            let marked = visited.update(at, true);
            lemma_count_mark(visited, at);
            lemma_dfs_visit_grows(edges, child, marked);
            let below = dfs_visit(edges, child, marked);
            assert(grows(visited, marked));
            assert forall|k: int| 0 <= k < visited.len() && #[trigger] visited[k] implies below.0[k] by {
                assert(marked[k]);
            }
            lemma_count_grows(visited, below.0);
            lemma_dfs_imports_grows(edges, module, next + 1, below.0);
        }
    }
}


impl ModuleGraph {
    /// The specifiers, indexed by module.
    pub closed spec fn specifiers(&self) -> Seq<Seq<char>> {
        self.modules@.map_values(|module: Module| module.specifier@)
    }

    /// Each module's imports in source order, indexed by module.
    pub closed spec fn edges(&self) -> Seq<Seq<ModuleId>> {
        self.modules@.map_values(|module: Module| module.imports@)
    }

    /// The lookup by specifier agrees with the module list, and every id fits in a `u32`.
    pub closed spec fn wf(&self) -> bool {
        &&& self.modules@.len() <= u32::MAX + 1
        &&& forall|name: Seq<char>| #[trigger]
            self.by_specifier@.contains_key(name) ==> {
                let at = self.by_specifier@[name].0 as int;
                &&& 0 <= at < self.modules@.len()
                &&& self.modules@[at].specifier@ == name
            }
        &&& forall|at: int|
            0 <= at < self.modules@.len() ==> {
                &&& self.by_specifier@.contains_key(#[trigger] self.modules@[at].specifier@)
                &&& self.by_specifier@[self.modules@[at].specifier@].0 == at
            }
    }

    /// A well-formed graph never holds two modules under one specifier.
    pub proof fn lemma_specifiers_distinct(&self)
        requires
            self.wf(),
        ensures
            self.specifiers().no_duplicates(),
            self.specifiers().len() == self.edges().len(),
            self.specifiers().len() <= u32::MAX + 1,
    {
        assert forall|i: int, j: int|
            0 <= i < self.specifiers().len() && 0 <= j < self.specifiers().len() && i != j
            implies self.specifiers()[i] != self.specifiers()[j] by {
            let a = self.modules@[i];
            let b = self.modules@[j];
            assert(self.by_specifier@[a.specifier@].0 == i);
            assert(self.by_specifier@[b.specifier@].0 == j);
        }
    }

    /// One specifier names one module: interning a specifier the graph already holds gives
    /// back the module it was first interned as.
    pub proof fn law_one_module_per_specifier(&self, first: ModuleId, second: ModuleId)
        requires
            self.wf(),
            (first.0 as int) < self.specifiers().len(),
            (second.0 as int) < self.specifiers().len(),
            self.specifiers()[first.0 as int] == self.specifiers()[second.0 as int],
        ensures
            first == second,
    {
        self.lemma_specifiers_distinct();
    }

    /// An empty graph.
    pub fn new() -> (graph: Self)
        ensures
            graph.wf(),
            graph.specifiers() == Seq::<Seq<char>>::empty(),
            graph.edges() == Seq::<Seq<ModuleId>>::empty(),
    {
        let graph = ModuleGraph { modules: Vec::new(), by_specifier: StringHashMap::new() };
        assert(graph.specifiers() =~= Seq::<Seq<char>>::empty());
        assert(graph.edges() =~= Seq::<Seq<ModuleId>>::empty());
        graph
    }

    /// The id for `specifier`, adding it if it is new.
    ///
    /// Idempotent, because the same module is reached from every importer of it and each
    /// one asks for it by name.
    pub fn intern(&mut self, specifier: &str) -> (id: ModuleId)
        requires
            old(self).wf(),
            old(self).specifiers().contains(specifier@) || old(self).specifiers().len() <= u32::MAX,
        ensures
            final(self).wf(),
            (id.0 as int) < final(self).specifiers().len(),
            final(self).specifiers()[id.0 as int] == specifier@,
            old(self).specifiers().contains(specifier@) ==> {
                &&& final(self).specifiers() == old(self).specifiers()
                &&& final(self).edges() == old(self).edges()
            },
            !old(self).specifiers().contains(specifier@) ==> {
                &&& id.0 == old(self).specifiers().len()
                &&& final(self).specifiers() == old(self).specifiers().push(specifier@)
                &&& final(self).edges() == old(self).edges().push(Seq::empty())
            },
    {
        proof {
            self.lemma_specifiers_distinct();
        }
        match self.by_specifier.get(specifier) {
            Some(existing) => {
                let id = *existing;
                proof {
                    assert(self.specifiers()[id.0 as int] == specifier@);
                }
                return id;
            },
            None => {},
        }
        proof {
            if self.specifiers().contains(specifier@) {
                let at = choose|at: int| 0 <= at < self.specifiers().len() && self.specifiers()[at] == specifier@;
                assert(self.modules@[at].specifier@ == specifier@);
                assert(self.by_specifier@.contains_key(self.modules@[at].specifier@));
            }
        }
        let ghost before = self.modules@;
        let id = ModuleId(self.modules.len() as u32);
        self.modules.push(Module { specifier: specifier.to_owned(), imports: Vec::new() });
        self.by_specifier.insert(specifier.to_owned(), id);
        proof {
            assert(self.modules@ == before.push(self.modules@.last()));
            assert forall|name: Seq<char>| #[trigger]
                self.by_specifier@.contains_key(name) implies {
                    let at = self.by_specifier@[name].0 as int;
                    &&& 0 <= at < self.modules@.len()
                    &&& self.modules@[at].specifier@ == name
                } by {
                if name != specifier@ {
                    assert(self.modules@[self.by_specifier@[name].0 as int] == before[self.by_specifier@[name].0 as int]);
                }
            }
            assert forall|at: int| 0 <= at < self.modules@.len() implies {
                &&& self.by_specifier@.contains_key(#[trigger] self.modules@[at].specifier@)
                &&& self.by_specifier@[self.modules@[at].specifier@].0 == at
            } by {
                if at < before.len() {
                    assert(self.modules@[at] == before[at]);
                    assert(before[at].specifier@ != specifier@);
                }
            }
            assert(self.specifiers() =~= old(self).specifiers().push(specifier@));
            assert(self.edges() =~= old(self).edges().push(Seq::empty()));
        }
        id
    }

    /// Records that `from` imports `to`.
    ///
    /// Duplicates are kept rather than merged: two import records of one module are two
    /// records, and evaluation visits the module once regardless.
    pub fn add_import(&mut self, from: ModuleId, to: ModuleId)
        requires
            old(self).wf(),
            (from.0 as int) < old(self).specifiers().len(),
        ensures
            final(self).wf(),
            final(self).specifiers() == old(self).specifiers(),
            final(self).edges() == old(self).edges().update(
                from.0 as int,
                old(self).edges()[from.0 as int].push(to),
            ),
    {
        let at = from.0 as usize;
        let ghost before = self.modules@;
        self.modules[at].imports.push(to);
        proof {
            assert(self.modules@ =~= before.update(at as int, self.modules@[at as int]));
            assert forall|k: int| 0 <= k < self.modules@.len() && k != at implies self.modules@[k] == before[k] by {}
            assert(self.specifiers() =~= old(self).specifiers());
            assert(self.edges() =~= old(self).edges().update(
                from.0 as int,
                old(self).edges()[from.0 as int].push(to),
            ));
        }
    }

    /// The specifier a module was interned under, or `None` for an id that names no module.
    pub fn specifier(&self, module: ModuleId) -> (specifier: Option<&str>)
        requires
            self.wf(),
        ensures
            match specifier {
                Some(text) => (module.0 as int) < self.specifiers().len() && text@
                    == self.specifiers()[module.0 as int],
                None => (module.0 as int) >= self.specifiers().len(),
            },
    {
        let at = module.0 as usize;
        if at < self.modules.len() {
            Some(self.modules[at].specifier.as_str())
        } else {
            None
        }
    }

    /// What a module imports, in source order; nothing for an id that names no module.
    pub fn imports(&self, module: ModuleId) -> (imports: &[ModuleId])
        requires
            self.wf(),
        ensures
            imports@ == imports_of(self.edges(), module),
    {
        let at = module.0 as usize;
        if at < self.modules.len() {
            self.modules[at].imports.as_slice()
        } else {
            &[]
        }
    }

    /// How many modules there are.
    pub fn len(&self) -> (count: usize)
        requires
            self.wf(),
        ensures
            count == self.specifiers().len(),
    {
        self.modules.len()
    }

    /// The order modules evaluate in, starting from `entry`.
    ///
    /// Depth-first post-order: a module's imports evaluate before it does, each module once,
    /// imports visited in source order. A cycle is ordered rather than rejected: the module
    /// that closes it is already marked when it is reached again. Modules `entry` does not
    /// reach are not included, and an `entry` that names no module evaluates nothing.
    ///
    /// Iterative rather than recursive, so a deep dependency chain cannot overflow the
    /// stack.
    pub fn evaluation_order(&self, entry: ModuleId) -> (order: Vec<ModuleId>)
        requires
            self.wf(),
        ensures
            order@ == evaluation_order_of(self.edges(), entry),
    {
        let ghost edges = self.edges();
        let count = self.modules.len();
        let mut order: Vec<ModuleId> = Vec::with_capacity(count);
        let start = entry.0 as usize;
        if start >= count {
            return order;
        }
        let mut visited: Vec<bool> = vec![false; count];
        visited[start] = true;
        proof {
            assert(visited@ =~= Seq::new(edges.len(), |k: int| k == entry.0 as int));
        }
        let mut stack: Vec<(ModuleId, usize)> = Vec::new();
        stack.push((entry, 0));
        proof {
            let initial = Seq::new(edges.len(), |k: int| k == entry.0 as int);
            assert(stack@.drop_last() =~= Seq::<(ModuleId, usize)>::empty());
            assert(stack@.last() == (entry, 0usize));
            assert(visited@ == initial);
            let mine = dfs_imports(edges, entry, 0, visited@);
            assert(dfs_frames(edges, stack@.drop_last(), mine.0).1 =~= Seq::<ModuleId>::empty());
            assert(dfs_frames(edges, stack@, visited@).1 == mine.1.push(entry) + Seq::<ModuleId>::empty());
            assert(mine.1.push(entry) + Seq::<ModuleId>::empty() =~= mine.1.push(entry));
            assert(dfs_frames(edges, stack@, visited@).1 =~= dfs_visit(edges, entry, initial).1);
        }

        loop
            invariant
                edges == self.edges(),
                self.wf(),
                count == edges.len(),
                visited@.len() == count,
                forall|j: int|
                    0 <= j < stack@.len() ==> (#[trigger] stack@[j]).1 <= imports_of(edges, stack@[j].0).len(),
                evaluation_order_of(edges, entry) == order@ + dfs_frames(edges, stack@, visited@).1,
            ensures
                evaluation_order_of(edges, entry) == order@,
            decreases count_unvisited(visited@), stack_weight(edges, stack@),
        {
            let ghost before = stack@;
            let ghost marks = visited@;
            match stack.pop() {
                None => {
                    proof {
                        assert(before.len() == 0);
                        assert(order@ + Seq::<ModuleId>::empty() =~= order@);
                    }
                    break;
                },
                Some(frame) => {
                    let (module, next) = frame;
                    proof {
                        assert(before.drop_last() =~= stack@);
                    }
                    let imports = self.imports(module);
                    if next < imports.len() {
                        stack.push((module, next + 1));
                        let child = imports[next];
                        let at = child.0 as usize;
                        if at < count && !visited[at] {
                            visited[at] = true;
                            stack.push((child, 0));
                            proof {
                                lemma_step_descend(edges, before, marks, at as int);
                            }
                        } else {
                            proof {
                                lemma_step_skip(edges, before, marks);
                            }
                        }
                    } else {
                        order.push(module);
                        proof {
                            lemma_step_emit(edges, before, marks);
                            assert(stack_weight(edges, before) == stack_weight(edges, stack@) + frame_weight(edges, frame));
                        }
                    }
                },
            }
        }
        order
    }

    /// The modules that take part in a cycle, grouped.
    ///
    /// Tarjan's strongly connected components, in the order they close, each listed oldest
    /// module first, minus the components of one module that does not import itself: a
    /// module that merely appears in the graph is not a cycle. Reported rather than rejected.
    /// Iterative, for the same reason the evaluation walk is.
    pub fn cycles(&self) -> (groups: Vec<Vec<ModuleId>>)
        requires
            self.wf(),
            imports_in_range(self.edges()),
            self.specifiers().len() <= u32::MAX,
        ensures
            groups@.map_values(|group: Vec<ModuleId>| group@) == tarjan_cycles(self.edges()),
    {
        Tarjan::new(self).run()
    }

    /// Whether `module` is in a cycle.
    pub fn in_cycle(&self, module: ModuleId) -> (found: bool)
        requires
            self.wf(),
            imports_in_range(self.edges()),
            self.specifiers().len() <= u32::MAX,
        ensures
            found == exists|i: int, j: int|
                0 <= i < tarjan_cycles(self.edges()).len() && 0 <= j < tarjan_cycles(
                    self.edges(),
                )[i].len() && #[trigger] tarjan_cycles(self.edges())[i][j] == module,
    {
        let groups = self.cycles();
        let ghost view = groups@.map_values(|group: Vec<ModuleId>| group@);
        assert(view.len() == groups@.len());
        let mut i: usize = 0;
        while i < groups.len()
            invariant
                0 <= i <= groups@.len(),
                view == groups@.map_values(|group: Vec<ModuleId>| group@),
                view == tarjan_cycles(self.edges()),
                view.len() == groups@.len(),
                forall|a: int, b: int|
                    0 <= a < i && 0 <= b < view[a].len() ==> #[trigger] view[a][b] != module,
            decreases groups@.len() - i,
        {
            let group = &groups[i];
            let mut j: usize = 0;
            while j < group.len()
                invariant
                    0 <= j <= group@.len(),
                    i < groups@.len(),
                    view.len() == groups@.len(),
                    view == tarjan_cycles(self.edges()),
                    group@ == view[i as int],
                    forall|b: int| 0 <= b < j ==> group@[b] != module,
                decreases group@.len() - j,
            {
                if group[j] == module {
                    proof {
                        assert(view[i as int][j as int] == module);
                    }
                    return true;
                }
                j = j + 1;
            }
            i = i + 1;
        }
        false
    }

    /// Whether the graph holds nothing.
    pub fn is_empty(&self) -> (empty: bool)
        requires
            self.wf(),
        ensures
            empty == (self.specifiers().len() == 0),
    {
        self.modules.len() == 0
    }
}


/// A frame whose next import names no module, or an already marked one, moves past it.
proof fn lemma_step_skip(edges: Seq<Seq<ModuleId>>, stack: Seq<(ModuleId, usize)>, visited: Seq<bool>)
    requires
        stack.len() > 0,
        visited.len() == edges.len(),
        stack.last().1 < imports_of(edges, stack.last().0).len(),
        stack.last().1 < usize::MAX,
        ({
            let child = imports_of(edges, stack.last().0)[stack.last().1 as int];
            child.0 as int >= edges.len() || visited[child.0 as int]
        }),
    ensures
        ({
            let top = stack.last();
            let moved = stack.drop_last().push((top.0, (top.1 + 1) as usize));
            &&& dfs_frames(edges, moved, visited) == dfs_frames(edges, stack, visited)
            &&& stack_weight(edges, moved) < stack_weight(edges, stack)
        }),
{
    let top = stack.last();
    let moved = stack.drop_last().push((top.0, (top.1 + 1) as usize));
    assert(moved.drop_last() =~= stack.drop_last());
}

/// A frame whose imports are done emits its module.
proof fn lemma_step_emit(edges: Seq<Seq<ModuleId>>, stack: Seq<(ModuleId, usize)>, visited: Seq<bool>)
    requires
        stack.len() > 0,
        visited.len() == edges.len(),
        stack.last().1 >= imports_of(edges, stack.last().0).len(),
    ensures
        dfs_frames(edges, stack, visited).1 == seq![stack.last().0] + dfs_frames(
            edges,
            stack.drop_last(),
            visited,
        ).1,
        dfs_frames(edges, stack.drop_last(), visited).0 == dfs_frames(edges, stack, visited).0,
{
    let top = stack.last();
    assert(dfs_imports(edges, top.0, top.1 as int, visited).1 =~= Seq::<ModuleId>::empty());
    assert(Seq::<ModuleId>::empty().push(top.0) =~= seq![top.0]);
}

/// A frame whose next import is an unmarked module marks it and opens a frame for it.
proof fn lemma_step_descend(
    edges: Seq<Seq<ModuleId>>,
    stack: Seq<(ModuleId, usize)>,
    visited: Seq<bool>,
    at: int,
)
    requires
        stack.len() > 0,
        visited.len() == edges.len(),
        stack.last().1 < imports_of(edges, stack.last().0).len(),
        stack.last().1 < usize::MAX,
        imports_of(edges, stack.last().0)[stack.last().1 as int].0 as int == at,
        0 <= at < edges.len(),
        !visited[at],
    ensures
        ({
            let top = stack.last();
            let child = imports_of(edges, top.0)[top.1 as int];
            let pushed = stack.drop_last().push((top.0, (top.1 + 1) as usize)).push((child, 0usize));
            &&& dfs_frames(edges, pushed, visited.update(at, true)).1 == dfs_frames(edges, stack, visited).1
            &&& count_unvisited(visited.update(at, true)) < count_unvisited(visited)
        }),
{
    let top = stack.last();
    let child = imports_of(edges, top.0)[top.1 as int];
    let moved = stack.drop_last().push((top.0, (top.1 + 1) as usize));
    let pushed = moved.push((child, 0usize));
    let marked = visited.update(at, true);
    lemma_count_mark(visited, at);
    assert(pushed.drop_last() =~= moved);
    assert(moved.drop_last() =~= stack.drop_last());
    lemma_dfs_visit_grows(edges, child, marked);
    let below = dfs_visit(edges, child, marked);
    assert(grows(visited, marked));
    assert forall|k: int| 0 <= k < visited.len() && #[trigger] visited[k] implies below.0[k] by {
        assert(marked[k]);
    }
    let inner = dfs_imports(edges, child, 0, marked);
    assert(below.0 == inner.0);
    let after = dfs_imports(edges, top.0, top.1 + 1, below.0);
    let rest = dfs_frames(edges, stack.drop_last(), after.0);
    assert(dfs_imports(edges, top.0, top.1 as int, visited) == (after.0, below.1 + after.1));
    assert(dfs_frames(edges, moved, below.0) == (rest.0, after.1.push(top.0) + rest.1));
    assert(dfs_frames(edges, pushed, marked) == (rest.0, inner.1.push(child) + (after.1.push(top.0) + rest.1)));
    assert(below.1 == inner.1.push(child));
    assert(inner.1.push(child) + (after.1.push(top.0) + rest.1) =~= (below.1 + after.1).push(top.0) + rest.1);
}

} // verus!
