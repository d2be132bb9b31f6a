//! Tarjan's strongly connected components over the module graph, walked iteratively.
//!
//! The specification is the textbook recursive algorithm, written over plain sequences;
//! the executable walk keeps its own stack of frames, so a deep dependency chain cannot
//! overflow the call stack, and is proved to compute exactly what the recursion does.

use vstd::prelude::*;

use crate::graph::{frame_weight, imports_in_range, imports_of, stack_weight, ModuleGraph, ModuleId};

verus! {

/// The whole state of the algorithm, as plain sequences indexed by module.
pub struct TarjanState {
    /// The visit number each module was given, once it has one.
    pub index: Seq<Option<u32>>,
    /// The smallest visit number known to be reachable from each module and still open.
    pub low: Seq<u32>,
    /// Whether each module is on the component stack.
    pub on_stack: Seq<bool>,
    /// Modules visited but not yet assigned to a component, oldest first.
    pub stack: Seq<ModuleId>,
    /// The next visit number to hand out.
    pub next_index: u32,
    /// The cycles reported so far, in the order their components closed.
    pub out: Seq<Seq<ModuleId>>,
}

/// How many modules have no visit number yet.
pub open spec fn count_unnumbered(index: Seq<Option<u32>>) -> nat
    decreases index.len(),
{
    if index.len() == 0 {
        0
    } else {
        count_unnumbered(index.drop_last()) + if index.last() is Some {
            0nat
        } else {
            1nat
        }
    }
}

/// `later` keeps every visit number `earlier` handed out, over the same modules.
pub open spec fn keeps_numbers(earlier: Seq<Option<u32>>, later: Seq<Option<u32>>) -> bool {
    &&& earlier.len() == later.len()
    &&& forall|k: int| 0 <= k < earlier.len() && (#[trigger] earlier[k]) is Some ==> later[k] is Some
}

/// The state's sequences all cover the `count` modules of the graph.
pub open spec fn shaped(state: TarjanState, count: int) -> bool {
    &&& state.index.len() == count
    &&& state.low.len() == count
    &&& state.on_stack.len() == count
}

/// The smaller of two visit numbers.
pub open spec fn min_u32(a: u32, b: u32) -> u32 {
    if a <= b {
        a
    } else {
        b
    }
}

/// Gives `module` the next visit number and puts it on the component stack.
pub open spec fn tarjan_enter(state: TarjanState, module: ModuleId) -> TarjanState {
    let at = module.0 as int;
    TarjanState {
        index: state.index.update(at, Some(state.next_index)),
        low: state.low.update(at, state.next_index),
        on_stack: state.on_stack.update(at, true),
        stack: state.stack.push(module),
        next_index: (state.next_index + 1) as u32,
        out: state.out,
    }
}

/// Lowers `parent`'s low-link to `value` when that is smaller.
pub open spec fn tarjan_lower(state: TarjanState, parent: ModuleId, value: u32) -> TarjanState {
    let at = parent.0 as int;
    TarjanState { low: state.low.update(at, min_u32(state.low[at], value)), ..state }
}

/// Pops the component stack down to and including `root`, collecting what was popped, most
/// recent first.
pub open spec fn tarjan_pop(
    stack: Seq<ModuleId>,
    on_stack: Seq<bool>,
    group: Seq<ModuleId>,
    root: ModuleId,
) -> (Seq<ModuleId>, Seq<bool>, Seq<ModuleId>)
    decreases stack.len(),
{
    if stack.len() == 0 {
        (stack, on_stack, group)
    } else {
        let top = stack.last();
        let cleared = if (top.0 as int) < on_stack.len() {
            on_stack.update(top.0 as int, false)
        } else {
            on_stack
        };
        if top == root {
            (stack.drop_last(), cleared, group.push(top))
        } else {
            tarjan_pop(stack.drop_last(), cleared, group.push(top), root)
        }
    }
}

/// Whether a component is a cycle: more than one module, or one that imports itself.
pub open spec fn is_cycle(edges: Seq<Seq<ModuleId>>, group: Seq<ModuleId>) -> bool {
    group.len() > 1 || (group.len() == 1 && imports_of(edges, group[0]).contains(group[0]))
}

/// Closes the component rooted at `root`, reporting it, oldest module first, when it is
/// a cycle.
pub open spec fn tarjan_close(edges: Seq<Seq<ModuleId>>, root: ModuleId, state: TarjanState) -> TarjanState {
    let popped = tarjan_pop(state.stack, state.on_stack, Seq::empty(), root);
    TarjanState {
        stack: popped.0,
        on_stack: popped.1,
        out: if is_cycle(edges, popped.2) {
            state.out.push(popped.2.reverse())
        } else {
            state.out
        },
        ..state
    }
}

/// Closes `module`'s component if `module` is its root.
pub open spec fn tarjan_finish(edges: Seq<Seq<ModuleId>>, module: ModuleId, state: TarjanState) -> TarjanState {
    if state.index[module.0 as int] == Some(state.low[module.0 as int]) {
        tarjan_close(edges, module, state)
    } else {
        state
    }
}

/// Tarjan's `strongconnect(module)`: number it, walk its imports, close its component if
/// it is the root of one. A module that already has a number is left alone.
pub open spec fn tarjan_visit(edges: Seq<Seq<ModuleId>>, module: ModuleId, state: TarjanState) -> TarjanState
    decreases count_unnumbered(state.index), 0int, 0int,
{
    let at = module.0 as int;
    if !shaped(state, edges.len() as int) || at >= edges.len() || state.index[at] is Some {
        state
    } else {
        proof {
            lemma_count_number(state.index, at, state.next_index);
        }
        let walked = tarjan_imports(edges, module, 0, tarjan_enter(state, module));
        tarjan_finish(edges, module, walked)
    }
}

/// The walk over `module`'s imports from position `next` on: an unnumbered import is
/// visited and its low-link folded into `module`'s; one still on the component stack
/// lowers `module`'s low-link to its number; anything else is passed over.
pub open spec fn tarjan_imports(
    edges: Seq<Seq<ModuleId>>,
    module: ModuleId,
    next: int,
    state: TarjanState,
) -> TarjanState
    decreases count_unnumbered(state.index), 0int, imports_of(edges, module).len() - next,
{
    let imports = imports_of(edges, module);
    if !shaped(state, edges.len() as int) || (module.0 as int) >= edges.len() || next < 0 || next
        >= imports.len() {
        state
    } else {
        let child = imports[next];
        let at = child.0 as int;
        if at >= edges.len() {
            tarjan_imports(edges, module, next + 1, state)
        } else if state.index[at] is None {
            let after = tarjan_visit(edges, child, state);
            if shaped(after, edges.len() as int) && keeps_numbers(state.index, after.index) {
                proof {
                    lemma_count_keeps(state.index, after.index);
                }
                tarjan_imports(edges, module, next + 1, tarjan_lower(after, module, after.low[at]))
            } else {
                after
            }
        } else if state.on_stack[at] {
            tarjan_imports(
                edges,
                module,
                next + 1,
                tarjan_lower(state, module, state.index[at]->0),
            )
        } else {
            tarjan_imports(edges, module, next + 1, state)
        }
    }
}

/// The outer loop: every module from `from` on that has no number yet starts a walk.
pub open spec fn tarjan_from(edges: Seq<Seq<ModuleId>>, from: int, state: TarjanState) -> TarjanState
    decreases edges.len() - from,
{
    if from < 0 || from >= edges.len() {
        state
    } else {
        let next = if shaped(state, edges.len() as int) && state.index[from] is None {
            tarjan_visit(edges, ModuleId(from as u32), state)
        } else {
            state
        };
        tarjan_from(edges, from + 1, next)
    }
}

/// Nothing numbered, nothing on the stack, nothing reported.
pub open spec fn tarjan_initial(count: nat) -> TarjanState {
    TarjanState {
        index: Seq::new(count, |k: int| None),
        low: Seq::new(count, |k: int| 0u32),
        on_stack: Seq::new(count, |k: int| false),
        stack: Seq::empty(),
        next_index: 0,
        out: Seq::empty(),
    }
}

/// The cycles of a graph: Tarjan's components, in the order they close, each listed
/// oldest module first, keeping only those with more than one module or a self-import.
pub open spec fn tarjan_cycles(edges: Seq<Seq<ModuleId>>) -> Seq<Seq<ModuleId>> {
    tarjan_from(edges, 0, tarjan_initial(edges.len())).out
}

/// Numbering one more module leaves one fewer unnumbered.
pub proof fn lemma_count_number(index: Seq<Option<u32>>, at: int, value: u32)
    requires
        0 <= at < index.len(),
        index[at] is None,
    ensures
        count_unnumbered(index.update(at, Some(value))) + 1 == count_unnumbered(index),
    decreases index.len(),
{
    let numbered = index.update(at, Some(value));
    if at == index.len() - 1 {
        assert(numbered.drop_last() =~= index.drop_last());
    } else {
        assert(numbered.drop_last() =~= index.drop_last().update(at, Some(value)));
        lemma_count_number(index.drop_last(), at, value);
    }
}

/// Keeping every number never means more unnumbered modules.
pub proof fn lemma_count_keeps(earlier: Seq<Option<u32>>, later: Seq<Option<u32>>)
    requires
        keeps_numbers(earlier, later),
    ensures
        count_unnumbered(later) <= count_unnumbered(earlier),
    decreases earlier.len(),
{
    if earlier.len() > 0 {
        lemma_count_keeps(earlier.drop_last(), later.drop_last());
    }
}


/// The rest of a walk held as an explicit stack of `(module, next import)` frames, the top
/// frame last: each frame finishes its imports from `next` on, closes its component if it
/// is the root of one, and folds its low-link into the frame below.
pub open spec fn tarjan_frames(
    edges: Seq<Seq<ModuleId>>,
    work: Seq<(ModuleId, usize)>,
    state: TarjanState,
) -> TarjanState
    decreases work.len(),
{
    if work.len() == 0 {
        state
    } else {
        let top = work.last();
        let rest = work.drop_last();
        let walked = tarjan_imports(edges, top.0, top.1 as int, state);
        let finished = tarjan_finish(edges, top.0, walked);
        let handed = if rest.len() > 0 {
            tarjan_lower(finished, rest.last().0, finished.low[top.0.0 as int])
        } else {
            finished
        };
        tarjan_frames(edges, rest, handed)
    }
}

/// Popping the component stack keeps the length of the on-stack marks.
pub proof fn lemma_pop_shape(
    stack: Seq<ModuleId>,
    on_stack: Seq<bool>,
    group: Seq<ModuleId>,
    root: ModuleId,
)
    ensures
        tarjan_pop(stack, on_stack, group, root).1.len() == on_stack.len(),
    decreases stack.len(),
{
    if stack.len() > 0 {
        let top = stack.last();
        let cleared = if (top.0 as int) < on_stack.len() {
            on_stack.update(top.0 as int, false)
        } else {
            on_stack
        };
        if top != root {
            lemma_pop_shape(stack.drop_last(), cleared, group.push(top), root);
        }
    }
}

/// Closing a component touches neither numbers nor low-links.
pub proof fn lemma_finish_keeps(edges: Seq<Seq<ModuleId>>, module: ModuleId, state: TarjanState)
    ensures
        tarjan_finish(edges, module, state).index == state.index,
        tarjan_finish(edges, module, state).low == state.low,
        tarjan_finish(edges, module, state).next_index == state.next_index,
        tarjan_finish(edges, module, state).on_stack.len() == state.on_stack.len(),
{
    lemma_pop_shape(state.stack, state.on_stack, Seq::empty(), module);
}

/// A visit keeps the shape of the state and every number already handed out.
pub proof fn lemma_visit_keeps(edges: Seq<Seq<ModuleId>>, module: ModuleId, state: TarjanState)
    requires
        shaped(state, edges.len() as int),
    ensures
        shaped(tarjan_visit(edges, module, state), edges.len() as int),
        keeps_numbers(state.index, tarjan_visit(edges, module, state).index),
    decreases count_unnumbered(state.index), 0int, 0int,
{
    let at = module.0 as int;
    if at >= edges.len() || state.index[at] is Some {
    } else {
        lemma_count_number(state.index, at, state.next_index);
        let entered = tarjan_enter(state, module);
        lemma_imports_keep(edges, module, 0, entered);
        let walked = tarjan_imports(edges, module, 0, entered);
        lemma_finish_keeps(edges, module, walked);
        assert forall|k: int| 0 <= k < state.index.len() && (#[trigger] state.index[k]) is Some implies walked.index[k] is Some by {
            assert(entered.index[k] is Some);
        }
    }
}

/// A walk over imports keeps the shape of the state and every number already handed out.
pub proof fn lemma_imports_keep(
    edges: Seq<Seq<ModuleId>>,
    module: ModuleId,
    next: int,
    state: TarjanState,
)
    requires
        shaped(state, edges.len() as int),
    ensures
        shaped(tarjan_imports(edges, module, next, state), edges.len() as int),
        keeps_numbers(state.index, tarjan_imports(edges, module, next, state).index),
    decreases count_unnumbered(state.index), 0int, imports_of(edges, module).len() - next,
{
    let imports = imports_of(edges, module);
    if (module.0 as int) >= edges.len() || next < 0 || next >= imports.len() {
    } else {
        let child = imports[next];
        let at = child.0 as int;
        if at >= edges.len() {
            lemma_imports_keep(edges, module, next + 1, state);
        } else if state.index[at] is None {
            lemma_visit_keeps(edges, child, state);
            let after = tarjan_visit(edges, child, state);
            lemma_count_keeps(state.index, after.index);
            let lowered = tarjan_lower(after, module, after.low[at]);
            lemma_imports_keep(edges, module, next + 1, lowered);
            let end = tarjan_imports(edges, module, next + 1, lowered);
            assert forall|k: int| 0 <= k < state.index.len() && (#[trigger] state.index[k]) is Some implies end.index[k] is Some by {
                assert(after.index[k] is Some);
                assert(lowered.index[k] is Some);
            }
        } else if state.on_stack[at] {
            lemma_imports_keep(edges, module, next + 1, tarjan_lower(state, module, state.index[at]->0));
        } else {
            lemma_imports_keep(edges, module, next + 1, state);
        }
    }
}


/// The walk's working state over one graph.
pub struct Tarjan<'graph> {
    graph: &'graph ModuleGraph,
    index: Vec<Option<u32>>,
    low: Vec<u32>,
    on_stack: Vec<bool>,
    stack: Vec<ModuleId>,
    next_index: u32,
    out: Vec<Vec<ModuleId>>,
}

impl<'graph> Tarjan<'graph> {
    /// The state as plain sequences.
    pub closed spec fn state(&self) -> TarjanState {
        TarjanState {
            index: self.index@,
            low: self.low@,
            on_stack: self.on_stack@,
            stack: self.stack@,
            next_index: self.next_index,
            out: self.out@.map_values(|group: Vec<ModuleId>| group@),
        }
    }

    /// The graph being walked.
    pub closed spec fn edges(&self) -> Seq<Seq<ModuleId>> {
        self.graph.edges()
    }

    /// What every step relies on: a sound graph, state covering every module, visit
    /// numbers that cannot overflow, and a component stack of real modules.
    pub closed spec fn ready(&self) -> bool {
        let count = self.graph.edges().len();
        &&& self.graph.wf()
        &&& imports_in_range(self.graph.edges())
        &&& count <= u32::MAX
        &&& count == self.graph.specifiers().len()
        &&& shaped(self.state(), count as int)
        &&& self.next_index + count_unnumbered(self.index@) == count
        &&& forall|k: int| 0 <= k < self.stack@.len() ==> ((#[trigger] self.stack@[k]).0 as int) < count
    }

    /// Nothing numbered yet.
    pub fn new(graph: &'graph ModuleGraph) -> (tarjan: Self)
        requires
            graph.wf(),
            imports_in_range(graph.edges()),
            graph.specifiers().len() <= u32::MAX,
        ensures
            tarjan.ready(),
            tarjan.edges() == graph.edges(),
            tarjan.state() == tarjan_initial(graph.edges().len()),
    {
        proof {
            graph.lemma_specifiers_distinct();
        }
        let count = graph.len();
        let mut index: Vec<Option<u32>> = Vec::with_capacity(count);
        let mut low: Vec<u32> = Vec::with_capacity(count);
        let mut on_stack: Vec<bool> = Vec::with_capacity(count);
        let mut k: usize = 0;
        while k < count
            invariant
                0 <= k <= count,
                index@ == Seq::new(k as nat, |i: int| None::<u32>),
                low@ == Seq::new(k as nat, |i: int| 0u32),
                on_stack@ == Seq::new(k as nat, |i: int| false),
            decreases count - k,
        {
            index.push(None);
            low.push(0);
            on_stack.push(false);
            k = k + 1;
            proof {
                assert(index@ =~= Seq::new(k as nat, |i: int| None::<u32>));
                assert(low@ =~= Seq::new(k as nat, |i: int| 0u32));
                assert(on_stack@ =~= Seq::new(k as nat, |i: int| false));
            }
        }
        let tarjan = Tarjan {
            graph,
            index,
            low,
            on_stack,
            stack: Vec::new(),
            next_index: 0,
            out: Vec::new(),
        };
        proof {
            lemma_count_all_unnumbered(count as nat);
            assert(tarjan.state().out =~= Seq::<Seq<ModuleId>>::empty());
            assert(tarjan.state() == tarjan_initial(graph.edges().len()));
        }
        tarjan
    }

    /// Numbers `module` and puts it on the component stack.
    fn enter(&mut self, module: ModuleId)
        requires
            old(self).ready(),
            (module.0 as int) < old(self).edges().len(),
            old(self).index@[module.0 as int] is None,
        ensures
            final(self).ready(),
            final(self).graph == old(self).graph,
            final(self).state() == tarjan_enter(old(self).state(), module),
    {
        let at = module.0 as usize;
        proof {
            lemma_count_number(self.index@, at as int, self.next_index);
        }
        let number = self.next_index;
        self.index[at] = Some(number);
        self.low[at] = number;
        self.next_index = number + 1;
        self.stack.push(module);
        self.on_stack[at] = true;
        proof {
            assert(self.state() == tarjan_enter(old(self).state(), module));
        }
    }

    /// Lowers `module`'s low-link to `value` when that is smaller.
    fn lower(&mut self, module: ModuleId, value: u32)
        requires
            old(self).ready(),
            (module.0 as int) < old(self).edges().len(),
        ensures
            final(self).ready(),
            final(self).graph == old(self).graph,
            final(self).state() == tarjan_lower(old(self).state(), module, value),
    {
        let at = module.0 as usize;
        if value < self.low[at] {
            self.low[at] = value;
        }
        proof {
            assert(self.low@ =~= old(self).low@.update(at as int, min_u32(old(self).low@[at as int], value)));
            assert(self.state() == tarjan_lower(old(self).state(), module, value));
        }
    }

    /// Pops the component rooted at `root` and reports it when it is a cycle.
    fn close(&mut self, root: ModuleId)
        requires
            old(self).ready(),
        ensures
            final(self).ready(),
            final(self).graph == old(self).graph,
            final(self).state() == tarjan_close(old(self).edges(), root, old(self).state()),
    {
        let ghost start = self.state();
        let mut group: Vec<ModuleId> = Vec::new();
        loop
            invariant_except_break
                self.ready(),
                self.graph == old(self).graph,
                tarjan_pop(start.stack, start.on_stack, Seq::empty(), root) == tarjan_pop(
                    self.stack@,
                    self.on_stack@,
                    group@,
                    root,
                ),
                self.index@ == start.index,
                self.low@ == start.low,
                self.next_index == start.next_index,
                self.out@ == old(self).out@,
            ensures
                self.ready(),
                self.graph == old(self).graph,
                tarjan_pop(start.stack, start.on_stack, Seq::empty(), root) == (
                    self.stack@,
                    self.on_stack@,
                    group@,
                ),
                self.index@ == start.index,
                self.low@ == start.low,
                self.next_index == start.next_index,
                self.out@ == old(self).out@,
            decreases self.stack@.len(),
        {
            let ghost before = (self.stack@, self.on_stack@, group@);
            match self.stack.pop() {
                None => {
                    break;
                },
                Some(module) => {
                    proof {
                        assert(before.0.drop_last() =~= self.stack@);
                        assert((before.0.last().0 as int) < self.on_stack@.len());
                    }
                    self.on_stack[module.0 as usize] = false;
                    group.push(module);
                    if module == root {
                        break;
                    }
                },
            }
        }
        let cycle = if group.len() > 1 {
            true
        } else if group.len() == 1 {
            holds(self.graph.imports(group[0]), group[0])
        } else {
            false
        };
        if cycle {
            let reversed = reverse_of(&group);
            self.out.push(reversed);
        }
        proof {
            let popped = tarjan_pop(start.stack, start.on_stack, Seq::empty(), root);
            assert(is_cycle(self.edges(), popped.2) == cycle);
            if cycle {
                assert(self.state().out =~= start.out.push(popped.2.reverse()));
            } else {
                assert(self.state().out =~= start.out);
            }
            assert(self.state() == tarjan_close(old(self).edges(), root, start));
        }
    }

    /// Tarjan's `strongconnect(root)`, with an explicit stack of frames.
    fn walk(&mut self, root: ModuleId)
        requires
            old(self).ready(),
            (root.0 as int) < old(self).edges().len(),
            old(self).index@[root.0 as int] is None,
        ensures
            final(self).ready(),
            final(self).graph == old(self).graph,
            final(self).state() == tarjan_visit(old(self).edges(), root, old(self).state()),
    {
        let ghost edges = self.edges();
        let ghost goal = tarjan_visit(edges, root, self.state());
        let ghost start = self.state();
        self.enter(root);
        let mut work: Vec<(ModuleId, usize)> = Vec::new();
        work.push((root, 0));
        proof {
            assert(work@.drop_last() =~= Seq::<(ModuleId, usize)>::empty());
            assert(work@.last() == (root, 0usize));
            let walked = tarjan_imports(edges, root, 0, self.state());
            assert(goal == tarjan_finish(edges, root, walked));
            assert(tarjan_frames(edges, Seq::<(ModuleId, usize)>::empty(), tarjan_finish(edges, root, walked)) == tarjan_finish(edges, root, walked));
            assert(tarjan_frames(edges, work@, self.state()) == goal);
        }
        loop
            invariant
                self.ready(),
                self.graph == old(self).graph,
                edges == self.edges(),
                goal == tarjan_frames(edges, work@, self.state()),
                forall|j: int|
                    0 <= j < work@.len() ==> {
                        &&& ((#[trigger] work@[j]).0.0 as int) < edges.len()
                        &&& work@[j].1 <= imports_of(edges, work@[j].0).len()
                        &&& self.index@[work@[j].0.0 as int] is Some
                    },
                forall|i: int, j: int| 0 <= i < j < work@.len() ==> (#[trigger] work@[i]).0 != (#[trigger] work@[j]).0,
            ensures
                self.ready(),
                self.graph == old(self).graph,
                goal == self.state(),
            decreases count_unnumbered(self.index@), stack_weight(edges, work@),
        {
            let ghost frames = work@;
            let ghost current = self.state();
            match work.pop() {
                None => {
                    break;
                },
                Some(frame) => {
                    let (module, next) = frame;
                    let at = module.0 as usize;
                    proof {
                        assert(frames.drop_last() =~= work@);
                        assert(frames.last() == frame);
                    }
                    let imports = self.graph.imports(module);
                    if next < imports.len() {
                        work.push((module, next + 1));
                        let child = imports[next];
                        let child_at = child.0 as usize;
                        proof {
                            assert(imports@ == edges[at as int]);
                            assert(child_at < edges.len());
                        }
                        if self.index[child_at].is_none() {
                            self.enter(child);
                            work.push((child, 0));
                            proof {
                                lemma_step_descend(edges, frames, current);
                                assert(work@ =~= frames.drop_last().push((module, (next + 1) as usize)).push((child, 0usize)));
                            }
                        } else if self.on_stack[child_at] {
                            let number = match self.index[child_at] {
                                Some(number) => number,
                                None => u32::MAX,
                            };
                            self.lower(module, number);
                            proof {
                                lemma_step_lower(edges, frames, current);
                                assert(work@ =~= frames.drop_last().push((module, (next + 1) as usize)));
                            }
                        } else {
                            proof {
                                lemma_step_pass(edges, frames, current);
                                assert(work@ =~= frames.drop_last().push((module, (next + 1) as usize)));
                            }
                        }
                    } else {
                        // Finished with this module: fold its low-link into its parent's,
                        // then close a component if this is its root.
                        let len = work.len();
                        if len > 0 {
                            let parent = work[len - 1].0;
                            let value = self.low[at];
                            self.lower(parent, value);
                        }
                        let closes = match self.index[at] {
                            Some(number) => number == self.low[at],
                            None => false,
                        };
                        if closes {
                            self.close(module);
                        }
                        proof {
                            lemma_step_finish(edges, frames, current);
                            assert(stack_weight(edges, frames) == stack_weight(edges, work@) + frame_weight(edges, frame));
                        }
                    }
                },
            }
        }
    }

    /// Walks every module that is not numbered yet, in module order, and hands back the
    /// cycles found.
    pub fn run(self) -> (groups: Vec<Vec<ModuleId>>)
        requires
            self.ready(),
            self.state() == tarjan_initial(self.edges().len()),
        ensures
            groups@.map_values(|group: Vec<ModuleId>| group@) == tarjan_cycles(self.edges()),
    {
        let mut tarjan = self;
        let ghost edges = tarjan.edges();
        let count = tarjan.graph.len();
        let mut raw: usize = 0;
        while raw < count
            invariant
                tarjan.ready(),
                edges == tarjan.edges(),
                count == edges.len(),
                0 <= raw <= count,
                tarjan_cycles(edges) == tarjan_from(edges, raw as int, tarjan.state()).out,
            decreases count - raw,
        {
            if tarjan.index[raw].is_none() {
                tarjan.walk(ModuleId(raw as u32));
            }
            raw = raw + 1;
        }
        tarjan.out
    }
}

/// Whether `ids` holds `id`.
fn holds(ids: &[ModuleId], id: ModuleId) -> (found: bool)
    ensures
        found == ids@.contains(id),
{
    let mut k: usize = 0;
    while k < ids.len()
        invariant
            0 <= k <= ids@.len(),
            forall|j: int| 0 <= j < k ==> ids@[j] != id,
        decreases ids@.len() - k,
    {
        if ids[k] == id {
            return true;
        }
        k = k + 1;
    }
    false
}

/// `ids` back to front.
fn reverse_of(ids: &Vec<ModuleId>) -> (reversed: Vec<ModuleId>)
    ensures
        reversed@ == ids@.reverse(),
{
    let count = ids.len();
    let mut reversed: Vec<ModuleId> = Vec::with_capacity(count);
    let mut k: usize = 0;
    while k < count
        invariant
            0 <= k <= count,
            count == ids@.len(),
            reversed@.len() == k,
            forall|j: int| 0 <= j < k ==> reversed@[j] == ids@[count - 1 - j],
        decreases count - k,
    {
        reversed.push(ids[count - 1 - k]);
        k = k + 1;
    }
    proof {
        assert(reversed@ =~= ids@.reverse());
    }
    reversed
}

/// A frame passes over an import that is numbered and no longer on the component stack.
proof fn lemma_step_pass(edges: Seq<Seq<ModuleId>>, frames: Seq<(ModuleId, usize)>, current: TarjanState)
    requires
        frames.len() > 0,
        shaped(current, edges.len() as int),
        (frames.last().0.0 as int) < edges.len(),
        frames.last().1 < imports_of(edges, frames.last().0).len(),
        frames.last().1 < usize::MAX,
        ({
            let child = imports_of(edges, frames.last().0)[frames.last().1 as int];
            &&& (child.0 as int) < edges.len()
            &&& current.index[child.0 as int] is Some
            &&& !current.on_stack[child.0 as int]
        }),
    ensures
        ({
            let top = frames.last();
            let moved = frames.drop_last().push((top.0, (top.1 + 1) as usize));
            &&& tarjan_frames(edges, moved, current) == tarjan_frames(edges, frames, current)
            &&& stack_weight(edges, moved) < stack_weight(edges, frames)
        }),
{
    let top = frames.last();
    let moved = frames.drop_last().push((top.0, (top.1 + 1) as usize));
    assert(moved.drop_last() =~= frames.drop_last());
}

/// A frame lowers its low-link to an import still on the component stack.
proof fn lemma_step_lower(edges: Seq<Seq<ModuleId>>, frames: Seq<(ModuleId, usize)>, current: TarjanState)
    requires
        frames.len() > 0,
        shaped(current, edges.len() as int),
        (frames.last().0.0 as int) < edges.len(),
        frames.last().1 < imports_of(edges, frames.last().0).len(),
        frames.last().1 < usize::MAX,
        ({
            let child = imports_of(edges, frames.last().0)[frames.last().1 as int];
            &&& (child.0 as int) < edges.len()
            &&& current.index[child.0 as int] is Some
            &&& current.on_stack[child.0 as int]
        }),
    ensures
        ({
            let top = frames.last();
            let child = imports_of(edges, top.0)[top.1 as int];
            let moved = frames.drop_last().push((top.0, (top.1 + 1) as usize));
            let lowered = tarjan_lower(current, top.0, current.index[child.0 as int]->0);
            &&& tarjan_frames(edges, moved, lowered) == tarjan_frames(edges, frames, current)
            &&& stack_weight(edges, moved) < stack_weight(edges, frames)
            &&& lowered.index == current.index
        }),
{
    let top = frames.last();
    let moved = frames.drop_last().push((top.0, (top.1 + 1) as usize));
    assert(moved.drop_last() =~= frames.drop_last());
}

/// A frame reaching an unnumbered import numbers it and opens a frame for it.
proof fn lemma_step_descend(edges: Seq<Seq<ModuleId>>, frames: Seq<(ModuleId, usize)>, current: TarjanState)
    requires
        frames.len() > 0,
        shaped(current, edges.len() as int),
        (frames.last().0.0 as int) < edges.len(),
        frames.last().1 < imports_of(edges, frames.last().0).len(),
        frames.last().1 < usize::MAX,
        ({
            let child = imports_of(edges, frames.last().0)[frames.last().1 as int];
            &&& (child.0 as int) < edges.len()
            &&& current.index[child.0 as int] is None
        }),
    ensures
        ({
            let top = frames.last();
            let child = imports_of(edges, top.0)[top.1 as int];
            let pushed = frames.drop_last().push((top.0, (top.1 + 1) as usize)).push((child, 0usize));
            &&& tarjan_frames(edges, pushed, tarjan_enter(current, child)) == tarjan_frames(edges, frames, current)
            &&& count_unnumbered(tarjan_enter(current, child).index) < count_unnumbered(current.index)
        }),
{
    let top = frames.last();
    let child = imports_of(edges, top.0)[top.1 as int];
    let at = child.0 as int;
    let moved = frames.drop_last().push((top.0, (top.1 + 1) as usize));
    let pushed = moved.push((child, 0usize));
    let entered = tarjan_enter(current, child);
    lemma_count_number(current.index, at, current.next_index);
    assert(pushed.drop_last() =~= moved);
    assert(moved.drop_last() =~= frames.drop_last());
    lemma_visit_keeps(edges, child, current);
    let after = tarjan_visit(edges, child, current);
    let walked = tarjan_imports(edges, child, 0, entered);
    assert(after == tarjan_finish(edges, child, walked));
    lemma_finish_keeps(edges, child, walked);
    let lowered = tarjan_lower(after, top.0, after.low[at]);
    assert(tarjan_imports(edges, top.0, top.1 as int, current) == tarjan_imports(edges, top.0, top.1 + 1, lowered));
    assert(pushed.last() == (child, 0usize));
    assert(moved.last() == (top.0, (top.1 + 1) as usize));
    assert(tarjan_frames(edges, pushed, entered) == tarjan_frames(edges, moved, lowered));
    let rest = frames.drop_last();
    let walked2 = tarjan_imports(edges, top.0, top.1 + 1, lowered);
    let finished2 = tarjan_finish(edges, top.0, walked2);
    let handed2 = if rest.len() > 0 {
        tarjan_lower(finished2, rest.last().0, finished2.low[top.0.0 as int])
    } else {
        finished2
    };
    assert(tarjan_frames(edges, moved, lowered) == tarjan_frames(edges, rest, handed2));
    assert(tarjan_frames(edges, frames, current) == tarjan_frames(edges, rest, handed2));
}

/// A frame whose imports are done hands its low-link down and closes its component if it
/// is the root; handing down first is the same as closing first, because the two touch
/// different modules' state.
proof fn lemma_step_finish(edges: Seq<Seq<ModuleId>>, frames: Seq<(ModuleId, usize)>, current: TarjanState)
    requires
        frames.len() > 0,
        shaped(current, edges.len() as int),
        (frames.last().0.0 as int) < edges.len(),
        frames.last().1 >= imports_of(edges, frames.last().0).len(),
        frames.len() > 1 ==> {
            &&& (frames.drop_last().last().0.0 as int) < edges.len()
            &&& frames.drop_last().last().0 != frames.last().0
        },
    ensures
        ({
            let top = frames.last();
            let rest = frames.drop_last();
            let at = top.0.0 as int;
            let handed = if rest.len() > 0 {
                tarjan_finish(edges, top.0, tarjan_lower(current, rest.last().0, current.low[at]))
            } else {
                tarjan_finish(edges, top.0, current)
            };
            tarjan_frames(edges, frames, current) == tarjan_frames(edges, rest, handed)
        }),
{
    let top = frames.last();
    let rest = frames.drop_last();
    let at = top.0.0 as int;
    assert(tarjan_imports(edges, top.0, top.1 as int, current) == current);
    let finished = tarjan_finish(edges, top.0, current);
    lemma_finish_keeps(edges, top.0, current);
    if rest.len() > 0 {
        let parent = rest.last().0;
        let lowered = tarjan_lower(current, parent, current.low[at]);
        assert(lowered.low[at] == current.low[at]);
        assert(lowered.index[at] == current.index[at]);
        let left = tarjan_lower(finished, parent, finished.low[at]);
        let right = tarjan_finish(edges, top.0, lowered);
        assert(left.low =~= right.low);
        assert(left == right);
    }
}

/// A fresh state has every module unnumbered.
proof fn lemma_count_all_unnumbered(count: nat)
    ensures
        count_unnumbered(Seq::new(count, |k: int| None::<u32>)) == count,
    decreases count,
{
    if count > 0 {
        lemma_count_all_unnumbered((count - 1) as nat);
        assert(Seq::new(count, |k: int| None::<u32>).drop_last() =~= Seq::new((count - 1) as nat, |k: int| None::<u32>));
    }
}

} // verus!
