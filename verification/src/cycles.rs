//! Why every module [`crate::ModuleGraph::cycles`] reports lies on a cycle.
//!
//! The reported groups are the components Tarjan's walk closes, keeping those with more than
//! one module or a self-import. Both halves are proved: every module of a reported group
//! reaches every other module of that group, so each lies on a cycle; and every module that
//! lies on a cycle is in some reported group.
//!
//! The walk keeps four facts as it goes. The component stack is ordered by visit number, and
//! `on_stack` marks exactly its modules. Each module on the stack reaches a module on the
//! stack whose number is its low-link. Each module still being visited reaches every module
//! above it on the stack. And a module that has finished but stays on the stack has a
//! low-link below its own number, never below the low-link of the nearest module still being
//! visited beneath it. When a root closes, these say that everything above it reaches it.
//!
//! For the other half the walk also keeps that a finished module's imports are numbered and,
//! while on the stack, no lower than its low-link; that a closed module imports only closed
//! ones, so nothing closed reaches anything still open; and that a closed module on a cycle
//! has been reported.

use vstd::prelude::*;

use crate::graph::{imports_in_range, imports_of, ModuleGraph, ModuleId};
use crate::ordering::{lemma_reaches_import, lemma_reaches_itself, lemma_reaches_trans, reaches};
use crate::tarjan::{
    count_unnumbered, is_cycle, keeps_numbers, lemma_count_keeps, lemma_count_number, shaped,
    tarjan_close, tarjan_cycles, tarjan_enter, tarjan_from, tarjan_imports, tarjan_initial,
    tarjan_lower, tarjan_pop, tarjan_visit, TarjanState,
};

verus! {

// ---- popping a component ---------------------------------------------------------------------

/// Some entry of `stack` from position `from` on is module `k`.
pub open spec fn popped_mark(stack: Seq<ModuleId>, from: int, k: int) -> bool {
    exists|i: int| from <= i < stack.len() && stack[i].0 as int == k
}

/// Popping down to `root`, found at `at` with nothing above it equal to it, leaves what was
/// below it, clears the marks of what was popped, and collects what was popped, most recent
/// first.
proof fn lemma_pop(
    stack: Seq<ModuleId>,
    on_stack: Seq<bool>,
    group: Seq<ModuleId>,
    root: ModuleId,
    at: int,
)
    requires
        0 <= at < stack.len(),
        stack[at] == root,
        forall|i: int| at < i < stack.len() ==> stack[i] != root,
    ensures
        ({
            let popped = tarjan_pop(stack, on_stack, group, root);
            &&& popped.0 == stack.take(at)
            &&& popped.2 == group + stack.skip(at).reverse()
            &&& popped.1.len() == on_stack.len()
            &&& forall|k: int|
                0 <= k < on_stack.len() ==> #[trigger] popped.1[k] == (on_stack[k]
                    && !popped_mark(stack, at, k))
        }),
    decreases stack.len(),
{
    let top = stack.last();
    let cleared = if (top.0 as int) < on_stack.len() {
        on_stack.update(top.0 as int, false)
    } else {
        on_stack
    };
    let popped = tarjan_pop(stack, on_stack, group, root);
    if top == root {
        assert(at == stack.len() - 1);
        assert(stack.skip(at) =~= seq![top]);
        assert(stack.skip(at).reverse() =~= seq![top]);
        assert(group.push(top) =~= group + seq![top]);
        assert(stack.drop_last() =~= stack.take(at));
        assert forall|k: int| 0 <= k < on_stack.len() implies #[trigger] popped.1[k] == (on_stack[k]
            && !popped_mark(stack, at, k)) by {
            if popped_mark(stack, at, k) {
                let i = choose|i: int| at <= i < stack.len() && stack[i].0 as int == k;
                assert(i == at);
            }
            if top.0 as int == k {
                assert(popped_mark(stack, at, k));
            }
        }
    } else {
        let rest = stack.drop_last();
        lemma_pop(rest, cleared, group.push(top), root, at);
        assert(rest.take(at) =~= stack.take(at));
        assert(group.push(top) + rest.skip(at).reverse() =~= group + stack.skip(at).reverse()) by {
            assert(stack.skip(at) =~= rest.skip(at).push(top));
        }
        assert forall|k: int| 0 <= k < on_stack.len() implies #[trigger] popped.1[k] == (on_stack[k]
            && !popped_mark(stack, at, k)) by {
            if popped_mark(rest, at, k) {
                let i = choose|i: int| at <= i < rest.len() && rest[i].0 as int == k;
                assert(stack[i] == rest[i]);
            }
            if popped_mark(stack, at, k) && !popped_mark(rest, at, k) {
                let i = choose|i: int| at <= i < stack.len() && stack[i].0 as int == k;
                if i < rest.len() {
                    assert(rest[i] == stack[i]);
                }
                assert(top.0 as int == k);
            }
            if top.0 as int == k {
                assert(stack[stack.len() - 1] == top);
            }
        }
    }
}


// ---- what the walk keeps ---------------------------------------------------------------------

/// The visit number of `module`.
pub open spec fn num(state: TarjanState, module: ModuleId) -> int {
    match state.index[module.0 as int] {
        Some(n) => n as int,
        None => -1,
    }
}

/// Module `k` is somewhere on `stack`.
pub open spec fn in_stack(stack: Seq<ModuleId>, k: int) -> bool {
    exists|i: int| 0 <= i < stack.len() && stack[i].0 as int == k
}

/// The component stack holds numbered modules in the order they were numbered, and
/// `on_stack` marks exactly them; every number handed out is below the next one, which
/// counts the modules numbered so far.
#[verifier::opaque]
pub open spec fn stack_ok(edges: Seq<Seq<ModuleId>>, state: TarjanState) -> bool {
    let n = edges.len() as int;
    &&& shaped(state, n)
    &&& state.next_index + count_unnumbered(state.index) == n
    &&& forall|i: int|
        0 <= i < state.stack.len() ==> {
            let v = #[trigger] state.stack[i];
            &&& (v.0 as int) < n
            &&& state.index[v.0 as int] is Some
            &&& state.on_stack[v.0 as int]
        }
    &&& forall|i: int, j: int|
        0 <= i < j < state.stack.len() ==> num(state, #[trigger] state.stack[i]) < num(
            state,
            #[trigger] state.stack[j],
        )
    &&& forall|k: int| 0 <= k < n && #[trigger] state.on_stack[k] ==> in_stack(state.stack, k)
    &&& forall|k: int|
        0 <= k < n && (#[trigger] state.index[k]) is Some ==> (state.index[k]->0) < state.next_index
}

/// `module`'s low-link is at most its own number, and is the number of a module on the
/// stack that it reaches.
pub open spec fn low_witnessed(edges: Seq<Seq<ModuleId>>, state: TarjanState, module: ModuleId) -> bool {
    &&& state.low[module.0 as int] as int <= num(state, module)
    &&& exists|j: int|
        0 <= j < state.stack.len() && num(state, #[trigger] state.stack[j]) == state.low[module.0 as int] as int
            && reaches(edges, module, state.stack[j])
}

/// Every module on the stack has a witnessed low-link.
#[verifier::opaque]
pub open spec fn lows_ok(edges: Seq<Seq<ModuleId>>, state: TarjanState) -> bool {
    forall|i: int| 0 <= i < state.stack.len() ==> low_witnessed(edges, state, #[trigger] state.stack[i])
}

/// `path` is the chain of modules still being visited, oldest first: it starts at the bottom
/// of the stack, each of its modules reaches every module above it on the stack, a finished
/// module still on the stack has a low-link below its number, and no lower than the
/// low-link of the nearest module of `path` beneath it.
#[verifier::opaque]
pub open spec fn path_ok(edges: Seq<Seq<ModuleId>>, state: TarjanState, path: Seq<ModuleId>) -> bool {
    &&& (path.len() == 0 <==> state.stack.len() == 0)
    &&& path.len() > 0 ==> state.stack[0] == path[0]
    &&& forall|i: int| 0 <= i < path.len() ==> in_stack(state.stack, (#[trigger] path[i]).0 as int)
    &&& forall|i: int, j: int|
        0 <= i < j < path.len() ==> num(state, #[trigger] path[i]) < num(state, #[trigger] path[j])
    &&& forall|i: int, k: int|
        0 <= i < path.len() && 0 <= k < state.stack.len() && num(state, #[trigger] path[i]) <= num(
            state,
            #[trigger] state.stack[k],
        ) ==> reaches(edges, path[i], state.stack[k])
    &&& forall|k: int|
        0 <= k < state.stack.len() && !path.contains(#[trigger] state.stack[k]) ==> (state.low[state.stack[k].0 as int] as int)
            < num(state, state.stack[k])
    &&& forall|i: int, k: int|
        0 <= i < path.len() && 0 <= k < state.stack.len() && !path.contains(#[trigger] state.stack[k])
            && num(state, #[trigger] path[i]) < num(state, state.stack[k]) && (i + 1 == path.len()
            || num(state, state.stack[k]) < num(state, path[i + 1])) ==> state.low[path[i].0 as int]
            <= state.low[state.stack[k].0 as int]
}

/// A group whose modules all reach each other, and which is a cycle.
pub open spec fn component_ok(edges: Seq<Seq<ModuleId>>, group: Seq<ModuleId>) -> bool {
    &&& is_cycle(edges, group)
    &&& group.no_duplicates()
    &&& forall|a: int, b: int|
        0 <= a < group.len() && 0 <= b < group.len() ==> reaches(edges, #[trigger] group[a], #[trigger] group[b])
}

/// Every group reported so far is a cycle whose modules all reach each other.
#[verifier::opaque]
pub open spec fn out_ok(edges: Seq<Seq<ModuleId>>, out: Seq<Seq<ModuleId>>) -> bool {
    forall|g: int| 0 <= g < out.len() ==> component_ok(edges, #[trigger] out[g])
}

/// Everything the walk keeps, with `path` the modules still being visited.
pub open spec fn walk_ok(edges: Seq<Seq<ModuleId>>, state: TarjanState, path: Seq<ModuleId>) -> bool {
    &&& imports_in_range(edges)
    &&& edges.len() <= u32::MAX
    &&& stack_ok(edges, state)
    &&& lows_ok(edges, state)
    &&& path_ok(edges, state, path)
    &&& out_ok(edges, state.out)
}

/// Numbers once handed out never change.
pub open spec fn same_numbers(earlier: Seq<Option<u32>>, later: Seq<Option<u32>>) -> bool {
    &&& earlier.len() == later.len()
    &&& forall|k: int| 0 <= k < earlier.len() && (#[trigger] earlier[k]) is Some ==> later[k] == earlier[k]
}


/// A well-formed stack comes with a state of the graph's shape.
proof fn lemma_stack_shaped(edges: Seq<Seq<ModuleId>>, state: TarjanState)
    requires
        stack_ok(edges, state),
    ensures
        shaped(state, edges.len() as int),
        state.next_index + count_unnumbered(state.index) == edges.len(),
{
    reveal(stack_ok);
}

// ---- entering a module -------------------------------------------------------------------------

/// A module on the stack is found at some position of it.
proof fn lemma_stack_position(stack: Seq<ModuleId>, module: ModuleId) -> (at: int)
    requires
        in_stack(stack, module.0 as int),
    ensures
        0 <= at < stack.len(),
        stack[at] == module,
{
    let at = choose|i: int| 0 <= i < stack.len() && stack[i].0 as int == module.0 as int;
    assert(stack[at].0 == module.0);
    at
}

/// What entering keeps of the older stack: its entries, their numbers and low-links.
proof fn lemma_enter_keeps(state: TarjanState, module: ModuleId, n: int)
    requires
        shaped(state, n),
        0 <= module.0 < n,
        state.index[module.0 as int] is None,
        forall|i: int|
            0 <= i < state.stack.len() ==> state.index[(#[trigger] state.stack[i]).0 as int] is Some
                && (state.stack[i].0 as int) < n,
    ensures
        ({
            let entered = tarjan_enter(state, module);
            &&& forall|i: int|
                0 <= i < state.stack.len() ==> (#[trigger] state.stack[i]).0 != module.0
                    && entered.stack[i] == state.stack[i] && num(entered, state.stack[i]) == num(
                    state,
                    state.stack[i],
                ) && entered.low[state.stack[i].0 as int] == state.low[state.stack[i].0 as int]
            &&& entered.stack[state.stack.len() as int] == module
            &&& entered.stack.len() == state.stack.len() + 1
            &&& num(entered, module) == state.next_index
        }),
{
    let entered = tarjan_enter(state, module);
    assert forall|i: int| 0 <= i < state.stack.len() implies (#[trigger] state.stack[i]).0 != module.0
        && entered.stack[i] == state.stack[i] && num(entered, state.stack[i]) == num(
        state,
        state.stack[i],
    ) && entered.low[state.stack[i].0 as int] == state.low[state.stack[i].0 as int] by {
        assert(state.index[state.stack[i].0 as int] is Some);
    }
}

/// Entering keeps the stack well formed.
#[verifier::spinoff_prover]
proof fn lemma_enter_stack(edges: Seq<Seq<ModuleId>>, state: TarjanState, module: ModuleId)
    requires
        stack_ok(edges, state),
        edges.len() <= u32::MAX,
        (module.0 as int) < edges.len(),
        state.index[module.0 as int] is None,
    ensures
        stack_ok(edges, tarjan_enter(state, module)),
        state.next_index < u32::MAX,
{
    reveal(stack_ok);
    let n = edges.len() as int;
    let at = module.0 as int;
    let entered = tarjan_enter(state, module);
    lemma_count_number(state.index, at, state.next_index);
    lemma_enter_keeps(state, module, n);
    assert forall|i: int| 0 <= i < entered.stack.len() implies {
        let v = #[trigger] entered.stack[i];
        &&& (v.0 as int) < n
        &&& entered.index[v.0 as int] is Some
        &&& entered.on_stack[v.0 as int]
    } by {
        if i < state.stack.len() {
            assert(entered.stack[i] == state.stack[i]);
        }
    }
    assert forall|i: int, j: int| 0 <= i < j < entered.stack.len() implies num(entered, #[trigger] entered.stack[i]) < num(
        entered,
        #[trigger] entered.stack[j],
    ) by {
        assert(entered.stack[i] == state.stack[i]);
        if j < state.stack.len() {
            assert(entered.stack[j] == state.stack[j]);
        } else {
            assert(state.index[state.stack[i].0 as int] is Some);
        }
    }
    assert forall|k: int| 0 <= k < n && #[trigger] entered.on_stack[k] implies in_stack(entered.stack, k) by {
        if k == at {
            assert(entered.stack[state.stack.len() as int] == module);
        } else {
            assert(state.on_stack[k]);
            let i = choose|i: int| 0 <= i < state.stack.len() && state.stack[i].0 as int == k;
            assert(entered.stack[i] == state.stack[i]);
        }
    }
    assert forall|k: int| 0 <= k < n && (#[trigger] entered.index[k]) is Some implies (entered.index[k]->0)
        < entered.next_index by {
        if k != at {
            assert(state.index[k] is Some);
        }
    }
}

/// Entering keeps every low-link witnessed: the new module's is its own number.
proof fn lemma_enter_lows(edges: Seq<Seq<ModuleId>>, state: TarjanState, module: ModuleId)
    requires
        stack_ok(edges, state),
        lows_ok(edges, state),
        (module.0 as int) < edges.len(),
        state.index[module.0 as int] is None,
    ensures
        lows_ok(edges, tarjan_enter(state, module)),
{
    reveal(stack_ok);
    reveal(lows_ok);
    let entered = tarjan_enter(state, module);
    lemma_enter_keeps(state, module, edges.len() as int);
    lemma_reaches_itself(edges, module);
    assert forall|i: int| 0 <= i < entered.stack.len() implies low_witnessed(edges, entered, #[trigger] entered.stack[i]) by {
        if i < state.stack.len() {
            let v = state.stack[i];
            assert(low_witnessed(edges, state, v));
            let j = choose|j: int|
                0 <= j < state.stack.len() && num(state, #[trigger] state.stack[j]) == state.low[v.0 as int] as int
                    && reaches(edges, v, state.stack[j]);
            assert(entered.stack[j] == state.stack[j]);
        } else {
            assert(entered.stack[i] == module);
        }
    }
}

/// Entering makes the new module the newest one being visited.
#[verifier::spinoff_prover]
proof fn lemma_enter_path(edges: Seq<Seq<ModuleId>>, state: TarjanState, path: Seq<ModuleId>, module: ModuleId)
    requires
        stack_ok(edges, state),
        path_ok(edges, state, path),
        (module.0 as int) < edges.len(),
        state.index[module.0 as int] is None,
        path.len() > 0 ==> reaches(edges, path.last(), module),
    ensures
        path_ok(edges, tarjan_enter(state, module), path.push(module)),
{
    reveal(stack_ok);
    reveal(path_ok);
    let entered = tarjan_enter(state, module);
    let extended = path.push(module);
    lemma_enter_keeps(state, module, edges.len() as int);
    lemma_reaches_itself(edges, module);
    // The path.
    assert forall|i: int| 0 <= i < extended.len() implies in_stack(entered.stack, (#[trigger] extended[i]).0 as int) by {
        if i < path.len() {
            assert(extended[i] == path[i]);
            let j = choose|j: int| 0 <= j < state.stack.len() && state.stack[j].0 as int == path[i].0 as int;
            assert(entered.stack[j] == state.stack[j]);
        } else {
            assert(entered.stack[state.stack.len() as int] == module);
        }
    }
    assert forall|i: int, j: int| 0 <= i < j < extended.len() implies num(entered, #[trigger] extended[i]) < num(
        entered,
        #[trigger] extended[j],
    ) by {
        assert(extended[i] == path[i]);
        let p = lemma_stack_position(state.stack, path[i]);
        assert(entered.stack[p] == state.stack[p]);
        if j < path.len() {
            assert(extended[j] == path[j]);
            let q = lemma_stack_position(state.stack, path[j]);
            assert(entered.stack[q] == state.stack[q]);
        }
    }
    assert forall|i: int, k: int|
        0 <= i < extended.len() && 0 <= k < entered.stack.len() && num(entered, #[trigger] extended[i]) <= num(
            entered,
            #[trigger] entered.stack[k],
        ) implies reaches(edges, extended[i], entered.stack[k]) by {
        if i < path.len() {
            assert(extended[i] == path[i]);
            let p = lemma_stack_position(state.stack, path[i]);
            assert(entered.stack[p] == state.stack[p]);
            if k < state.stack.len() {
                assert(entered.stack[k] == state.stack[k]);
            } else {
                assert(entered.stack[k] == module);
                let last = lemma_stack_position(state.stack, path.last());
                assert(path[path.len() - 1] == path.last());
                if i < path.len() - 1 {
                    assert(num(state, path[i]) < num(state, path[path.len() - 1]));
                }
                assert(reaches(edges, path[i], state.stack[last]));
                lemma_reaches_trans(edges, path[i], path.last(), module);
            }
        } else {
            assert(extended[i] == module);
            if k < state.stack.len() {
                assert(entered.stack[k] == state.stack[k]);
            }
        }
    }
    assert forall|k: int|
        0 <= k < entered.stack.len() && !extended.contains(#[trigger] entered.stack[k]) implies (entered.low[entered.stack[k].0 as int] as int)
            < num(entered, entered.stack[k]) by {
        if k < state.stack.len() {
            assert(entered.stack[k] == state.stack[k]);
            if path.contains(state.stack[k]) {
                let i = choose|i: int| 0 <= i < path.len() && path[i] == state.stack[k];
                assert(extended[i] == path[i]);
            }
        } else {
            assert(entered.stack[k] == module);
            assert(extended[path.len() as int] == module);
        }
    }
    assert forall|i: int, k: int|
        0 <= i < extended.len() && 0 <= k < entered.stack.len() && !extended.contains(#[trigger] entered.stack[k])
            && num(entered, #[trigger] extended[i]) < num(entered, entered.stack[k]) && (i + 1
            == extended.len() || num(entered, entered.stack[k]) < num(entered, extended[i + 1]))
        implies entered.low[extended[i].0 as int] <= entered.low[entered.stack[k].0 as int] by {
        if k < state.stack.len() {
            assert(entered.stack[k] == state.stack[k]);
            assert(i < path.len()) by {
                if i == path.len() {
                    assert(extended[i] == module);
                }
            }
            assert(extended[i] == path[i]);
            let p = lemma_stack_position(state.stack, path[i]);
            assert(entered.stack[p] == state.stack[p]);
            if path.contains(state.stack[k]) {
                let j = choose|j: int| 0 <= j < path.len() && path[j] == state.stack[k];
                assert(extended[j] == path[j]);
            }
            if i + 1 < path.len() {
                assert(extended[i + 1] == path[i + 1]);
                let q = lemma_stack_position(state.stack, path[i + 1]);
                assert(entered.stack[q] == state.stack[q]);
            }
        } else {
            assert(entered.stack[k] == module);
            assert(extended[path.len() as int] == module);
        }
    }
}


/// Entering an unnumbered module numbers it above everything, pushes it, and makes it the
/// newest module being visited.
proof fn lemma_enter(edges: Seq<Seq<ModuleId>>, state: TarjanState, path: Seq<ModuleId>, module: ModuleId)
    requires
        walk_ok(edges, state, path),
        (module.0 as int) < edges.len(),
        state.index[module.0 as int] is None,
        path.len() > 0 ==> reaches(edges, path.last(), module),
    ensures
        ({
            let entered = tarjan_enter(state, module);
            &&& walk_ok(edges, entered, path.push(module))
            &&& same_numbers(state.index, entered.index)
            &&& entered.index[module.0 as int] == Some(state.next_index)
            &&& entered.stack == state.stack.push(module)
            &&& entered.out == state.out
        }),
{
    lemma_enter_stack(edges, state, module);
    lemma_enter_lows(edges, state, module);
    lemma_enter_path(edges, state, path, module);
    lemma_stack_shaped(edges, state);
    let entered = tarjan_enter(state, module);
    assert(entered.index == state.index.update(module.0 as int, Some(state.next_index)));
    assert forall|k: int| 0 <= k < state.index.len() && (#[trigger] state.index[k]) is Some implies entered.index[k]
        == state.index[k] by {
        assert(k != module.0 as int);
    }
    assert(entered.stack =~= state.stack.push(module));
}


// ---- lowering a low-link -----------------------------------------------------------------------

/// The stack's shape does not depend on the low-links.
proof fn lemma_stack_ok_ignores_lows(edges: Seq<Seq<ModuleId>>, state: TarjanState, low: Seq<u32>)
    requires
        low.len() == state.low.len(),
    ensures
        stack_ok(edges, TarjanState { low, ..state }) == stack_ok(edges, state),
{
    reveal(stack_ok);
    let other = TarjanState { low, ..state };
    assert forall|v: ModuleId| num(other, v) == num(state, v) by {}
}

/// Two places of a well-formed stack hold the same module only if they are one place.
proof fn lemma_stack_distinct(edges: Seq<Seq<ModuleId>>, state: TarjanState, a: int, b: int)
    requires
        stack_ok(edges, state),
        0 <= a < state.stack.len(),
        0 <= b < state.stack.len(),
        state.stack[a].0 == state.stack[b].0,
    ensures
        a == b,
{
    reveal(stack_ok);
    if a < b {
        assert(num(state, state.stack[a]) < num(state, state.stack[b]));
    } else if b < a {
        assert(num(state, state.stack[b]) < num(state, state.stack[a]));
    }
}

/// An entry of a well-formed stack is a numbered module of the graph, marked as on it.
proof fn lemma_stack_entry(edges: Seq<Seq<ModuleId>>, state: TarjanState, i: int)
    requires
        stack_ok(edges, state),
        0 <= i < state.stack.len(),
    ensures
        (state.stack[i].0 as int) < edges.len(),
        state.index[state.stack[i].0 as int] is Some,
        state.on_stack[state.stack[i].0 as int],
{
    reveal(stack_ok);
}

/// A well-formed stack is ordered by number.
proof fn lemma_stack_order(edges: Seq<Seq<ModuleId>>, state: TarjanState, i: int, j: int)
    requires
        stack_ok(edges, state),
        0 <= i < j < state.stack.len(),
    ensures
        num(state, state.stack[i]) < num(state, state.stack[j]),
{
    reveal(stack_ok);
}

/// Lowering `module`'s low-link to `value` keeps every low-link witnessed, when `value` is
/// the number of a module on the stack that `module` reaches.
#[verifier::spinoff_prover]
proof fn lemma_lower_lows(
    edges: Seq<Seq<ModuleId>>,
    state: TarjanState,
    module: ModuleId,
    value: u32,
    witness: int,
)
    requires
        stack_ok(edges, state),
        lows_ok(edges, state),
        in_stack(state.stack, module.0 as int),
        0 <= witness < state.stack.len(),
        num(state, state.stack[witness]) == value as int,
        reaches(edges, module, state.stack[witness]),
    ensures
        lows_ok(edges, tarjan_lower(state, module, value)),
{
    reveal(lows_ok);
    let at = module.0 as int;
    let lowered = tarjan_lower(state, module, value);
    let m_pos = lemma_stack_position(state.stack, module);
    lemma_stack_entry(edges, state, m_pos);
    lemma_stack_shaped(edges, state);
    assert forall|v: ModuleId| #[trigger] num(lowered, v) == num(state, v) by {}
    assert forall|i: int| 0 <= i < lowered.stack.len() implies low_witnessed(edges, lowered, #[trigger] lowered.stack[i]) by {
        let v = state.stack[i];
        assert(low_witnessed(edges, state, v));
        lemma_stack_entry(edges, state, i);
        if v.0 as int == at {
            lemma_stack_distinct(edges, state, i, m_pos);
            if value < state.low[at] {
                assert(lowered.stack[witness] == state.stack[witness]);
            } else {
                let j = choose|j: int|
                    0 <= j < state.stack.len() && num(state, #[trigger] state.stack[j]) == state.low[v.0 as int] as int
                        && reaches(edges, v, state.stack[j]);
                assert(lowered.stack[j] == state.stack[j]);
            }
        } else {
            let j = choose|j: int|
                0 <= j < state.stack.len() && num(state, #[trigger] state.stack[j]) == state.low[v.0 as int] as int
                    && reaches(edges, v, state.stack[j]);
            assert(lowered.stack[j] == state.stack[j]);
        }
    }
}

/// Lowering the newest visited module's low-link keeps the path's facts.
#[verifier::spinoff_prover]
proof fn lemma_lower_path(
    edges: Seq<Seq<ModuleId>>,
    state: TarjanState,
    path: Seq<ModuleId>,
    module: ModuleId,
    value: u32,
)
    requires
        stack_ok(edges, state),
        path_ok(edges, state, path),
        path.len() > 0,
        path.last() == module,
    ensures
        path_ok(edges, tarjan_lower(state, module, value), path),
{
    reveal(path_ok);
    let at = module.0 as int;
    let lowered = tarjan_lower(state, module, value);
    lemma_stack_shaped(edges, state);
    assert(path[path.len() - 1] == module);
    let m_pos = lemma_stack_position(state.stack, module);
    lemma_stack_entry(edges, state, m_pos);
    assert forall|v: ModuleId| #[trigger] num(lowered, v) == num(state, v) by {}
    assert forall|k: int|
        0 <= k < lowered.stack.len() && !path.contains(#[trigger] lowered.stack[k]) implies (lowered.low[lowered.stack[k].0 as int] as int)
            < num(lowered, lowered.stack[k]) by {
        lemma_stack_entry(edges, state, k);
        if lowered.stack[k].0 as int == at {
            lemma_stack_distinct(edges, state, k, m_pos);
            assert(path.contains(module));
        }
    }
    assert forall|i: int, k: int|
        0 <= i < path.len() && 0 <= k < lowered.stack.len() && !path.contains(#[trigger] lowered.stack[k])
            && num(lowered, #[trigger] path[i]) < num(lowered, lowered.stack[k]) && (i + 1 == path.len()
            || num(lowered, lowered.stack[k]) < num(lowered, path[i + 1])) implies lowered.low[path[i].0 as int]
            <= lowered.low[lowered.stack[k].0 as int] by {
        lemma_stack_entry(edges, state, k);
        if lowered.stack[k].0 as int == at {
            lemma_stack_distinct(edges, state, k, m_pos);
            assert(path.contains(module));
        }
        let p = lemma_stack_position(state.stack, path[i]);
        lemma_stack_entry(edges, state, p);
        if path[i].0 as int == at && i + 1 < path.len() {
            lemma_stack_distinct(edges, state, p, m_pos);
            assert(num(state, path[i]) < num(state, path[path.len() - 1]));
        }
    }
}

/// Lowering the newest visited module's low-link to the number of an import still on the
/// stack keeps everything.
proof fn lemma_lower_back(
    edges: Seq<Seq<ModuleId>>,
    state: TarjanState,
    path: Seq<ModuleId>,
    module: ModuleId,
    child: ModuleId,
)
    requires
        walk_ok(edges, state, path),
        path.len() > 0,
        path.last() == module,
        (child.0 as int) < edges.len(),
        state.on_stack[child.0 as int],
        imports_of(edges, module).contains(child),
    ensures
        walk_ok(edges, tarjan_lower(state, module, state.index[child.0 as int]->0), path),
{
    let value = state.index[child.0 as int]->0;
    let lowered = tarjan_lower(state, module, value);
    lemma_stack_shaped(edges, state);
    lemma_stack_ok_ignores_lows(edges, state, lowered.low);
    assert(lowered == TarjanState { low: lowered.low, ..state });
    reveal(stack_ok);
    let c_pos = lemma_stack_position(state.stack, child);
    assert(path[path.len() - 1] == module);
    reveal(path_ok);
    let m_pos = lemma_stack_position(state.stack, module);
    lemma_stack_entry(edges, state, m_pos);
    lemma_reaches_import(edges, module, child);
    lemma_lower_lows(edges, state, module, value, c_pos);
    lemma_lower_path(edges, state, path, module, value);
}


/// Once an import finishes without closing, folding its low-link into the newest visited
/// module keeps the path's facts, with the import now among the finished.
#[verifier::rlimit(30)]
#[verifier::spinoff_prover]
proof fn lemma_retire(
    edges: Seq<Seq<ModuleId>>,
    state: TarjanState,
    path: Seq<ModuleId>,
    module: ModuleId,
    child: ModuleId,
)
    requires
        stack_ok(edges, state),
        path_ok(edges, state, path.push(child)),
        path.len() > 0,
        path.last() == module,
        (state.low[child.0 as int] as int) < num(state, child),
    ensures
        path_ok(edges, tarjan_lower(state, module, state.low[child.0 as int]), path),
{
    reveal(path_ok);
    let extended = path.push(child);
    let at = module.0 as int;
    let value = state.low[child.0 as int];
    let lowered = tarjan_lower(state, module, value);
    lemma_stack_shaped(edges, state);
    assert(extended[path.len() - 1] == module);
    assert(extended[path.len() as int] == child);
    let m_pos = lemma_stack_position(state.stack, module);
    let c_pos = lemma_stack_position(state.stack, child);
    lemma_stack_entry(edges, state, m_pos);
    lemma_stack_entry(edges, state, c_pos);
    assert(num(state, module) < num(state, child));
    assert forall|v: ModuleId| #[trigger] num(lowered, v) == num(state, v) by {}
    assert(lowered.low[child.0 as int] == value) by {
        if child.0 as int == at {
            lemma_stack_distinct(edges, state, c_pos, m_pos);
        }
    }
    assert forall|i: int| 0 <= i < path.len() implies in_stack(lowered.stack, (#[trigger] path[i]).0 as int) by {
        assert(extended[i] == path[i]);
    }
    assert forall|i: int, j: int| 0 <= i < j < path.len() implies num(lowered, #[trigger] path[i]) < num(
        lowered,
        #[trigger] path[j],
    ) by {
        assert(extended[i] == path[i]);
        assert(extended[j] == path[j]);
    }
    assert forall|i: int, k: int|
        0 <= i < path.len() && 0 <= k < lowered.stack.len() && num(lowered, #[trigger] path[i]) <= num(
            lowered,
            #[trigger] lowered.stack[k],
        ) implies reaches(edges, path[i], lowered.stack[k]) by {
        assert(extended[i] == path[i]);
    }
    assert forall|k: int|
        0 <= k < lowered.stack.len() && !path.contains(#[trigger] lowered.stack[k]) implies (lowered.low[lowered.stack[k].0 as int] as int)
            < num(lowered, lowered.stack[k]) by {
        let v = state.stack[k];
        lemma_stack_entry(edges, state, k);
        if v.0 as int == at {
            lemma_stack_distinct(edges, state, k, m_pos);
            assert(path.contains(module));
        }
        if v != child && extended.contains(v) {
            let i = choose|i: int| 0 <= i < extended.len() && extended[i] == v;
            assert(path[i] == v);
        }
    }
    assert forall|i: int, k: int|
        0 <= i < path.len() && 0 <= k < lowered.stack.len() && !path.contains(#[trigger] lowered.stack[k])
            && num(lowered, #[trigger] path[i]) < num(lowered, lowered.stack[k]) && (i + 1 == path.len()
            || num(lowered, lowered.stack[k]) < num(lowered, path[i + 1])) implies lowered.low[path[i].0 as int]
            <= lowered.low[lowered.stack[k].0 as int] by {
        let v = state.stack[k];
        lemma_stack_entry(edges, state, k);
        assert(extended[i] == path[i]);
        if v.0 as int == at {
            lemma_stack_distinct(edges, state, k, m_pos);
            assert(path.contains(module));
        }
        let p = lemma_stack_position(state.stack, path[i]);
        lemma_stack_entry(edges, state, p);
        if v != child && extended.contains(v) {
            let j = choose|j: int| 0 <= j < extended.len() && extended[j] == v;
            assert(path[j] == v);
        }
        if i + 1 < path.len() {
            assert(extended[i + 1] == path[i + 1]);
            assert(path[i].0 as int != at) by {
                if path[i].0 as int == at {
                    lemma_stack_distinct(edges, state, p, m_pos);
                    assert(num(state, path[i]) < num(state, extended[path.len() - 1]));
                }
            }
            if v == child {
                assert(num(state, path[i + 1]) <= num(state, module)) by {
                    if i + 1 < path.len() - 1 {
                        assert(num(state, extended[i + 1]) < num(state, extended[path.len() - 1]));
                    }
                }
            }
        } else {
            assert(path[i] == module);
            if v == child {
            } else if num(state, child) < num(state, v) {
                assert(state.low[child.0 as int] <= state.low[v.0 as int]);
            } else {
                assert(num(state, v) != num(state, child)) by {
                    if num(state, v) == num(state, child) {
                        if k < c_pos {
                            lemma_stack_order(edges, state, k, c_pos);
                        } else if c_pos < k {
                            lemma_stack_order(edges, state, c_pos, k);
                        }
                    }
                }
                assert(state.low[module.0 as int] <= state.low[v.0 as int]);
            }
        }
    }
}

/// Folding a finished import's low-link into the newest visited module's keeps everything,
/// with the import now counted as finished.
#[verifier::spinoff_prover]
proof fn lemma_lower_return(
    edges: Seq<Seq<ModuleId>>,
    state: TarjanState,
    path: Seq<ModuleId>,
    module: ModuleId,
    child: ModuleId,
)
    requires
        walk_ok(edges, state, path.push(child)),
        path.len() > 0,
        path.last() == module,
        (state.low[child.0 as int] as int) < num(state, child),
        reaches(edges, module, child),
    ensures
        walk_ok(edges, tarjan_lower(state, module, state.low[child.0 as int]), path),
{
    let value = state.low[child.0 as int];
    let lowered = tarjan_lower(state, module, value);
    let extended = path.push(child);
    lemma_stack_shaped(edges, state);
    lemma_stack_ok_ignores_lows(edges, state, lowered.low);
    assert(lowered == TarjanState { low: lowered.low, ..state });
    reveal(path_ok);
    assert(extended[path.len() - 1] == module);
    assert(extended[path.len() as int] == child);
    let c_pos = lemma_stack_position(state.stack, child);
    assert(in_stack(state.stack, module.0 as int));
    reveal(lows_ok);
    assert(low_witnessed(edges, state, state.stack[c_pos]));
    let j = choose|j: int|
        0 <= j < state.stack.len() && num(state, #[trigger] state.stack[j]) == state.low[child.0 as int] as int
            && reaches(edges, child, state.stack[j]);
    lemma_reaches_trans(edges, module, child, state.stack[j]);
    lemma_lower_lows(edges, state, module, value, j);
    lemma_retire(edges, state, path, module, child);
}


// ---- closing a component -----------------------------------------------------------------------

/// When the newest visited module is a root, everything above it on the stack reaches it.
#[verifier::spinoff_prover]
proof fn lemma_reach_root(
    edges: Seq<Seq<ModuleId>>,
    state: TarjanState,
    path: Seq<ModuleId>,
    module: ModuleId,
    at: int,
    k: int,
)
    requires
        stack_ok(edges, state),
        lows_ok(edges, state),
        path_ok(edges, state, path.push(module)),
        0 <= at <= k < state.stack.len(),
        state.stack[at] == module,
        state.low[module.0 as int] as int == num(state, module),
    ensures
        reaches(edges, state.stack[k], module),
    decreases k,
{
    let extended = path.push(module);
    if k == at {
        lemma_stack_entry(edges, state, at);
        lemma_reaches_itself(edges, module);
    } else {
        reveal(path_ok);
        reveal(lows_ok);
        let v = state.stack[k];
        lemma_stack_order(edges, state, at, k);
        assert(extended[path.len() as int] == module);
        assert(!extended.contains(v)) by {
            if extended.contains(v) {
                let i = choose|i: int| 0 <= i < extended.len() && extended[i] == v;
                if i < path.len() {
                    assert(num(state, extended[i]) < num(state, extended[path.len() as int]));
                }
            }
        }
        assert(state.low[module.0 as int] <= state.low[v.0 as int]);
        assert(low_witnessed(edges, state, v));
        let j = choose|j: int|
            0 <= j < state.stack.len() && num(state, #[trigger] state.stack[j]) == state.low[v.0 as int] as int
                && reaches(edges, v, state.stack[j]);
        assert(at <= j) by {
            if j < at {
                lemma_stack_order(edges, state, j, at);
            }
        }
        assert(j < k) by {
            if k <= j {
                if k < j {
                    lemma_stack_order(edges, state, k, j);
                }
            }
        }
        lemma_reach_root(edges, state, path, module, at, j);
        lemma_reaches_trans(edges, v, state.stack[j], module);
    }
}

/// Closing keeps the stack well formed: what is left is the stack below the root.
#[verifier::spinoff_prover]
proof fn lemma_close_stack(edges: Seq<Seq<ModuleId>>, state: TarjanState, module: ModuleId, at: int)
    requires
        stack_ok(edges, state),
        0 <= at < state.stack.len(),
        state.stack[at] == module,
    ensures
        ({
            let closed = tarjan_close(edges, module, state);
            &&& stack_ok(edges, closed)
            &&& closed.stack == state.stack.take(at)
            &&& closed.index == state.index
            &&& closed.low == state.low
            &&& closed.next_index == state.next_index
        }),
{
    reveal(stack_ok);
    let n = edges.len() as int;
    assert forall|i: int| at < i < state.stack.len() implies state.stack[i] != module by {
        if state.stack[i] == module {
            lemma_stack_distinct(edges, state, i, at);
        }
    }
    lemma_pop(state.stack, state.on_stack, Seq::empty(), module, at);
    let popped = tarjan_pop(state.stack, state.on_stack, Seq::empty(), module);
    let closed = tarjan_close(edges, module, state);
    assert(closed.stack == popped.0);
    assert(closed.on_stack == popped.1);
    assert forall|i: int| 0 <= i < closed.stack.len() implies {
        let v = #[trigger] closed.stack[i];
        &&& (v.0 as int) < n
        &&& closed.index[v.0 as int] is Some
        &&& closed.on_stack[v.0 as int]
    } by {
        let v = state.stack[i];
        assert(closed.stack[i] == v);
        if popped_mark(state.stack, at, v.0 as int) {
            let j = choose|j: int| at <= j < state.stack.len() && state.stack[j].0 as int == v.0 as int;
            lemma_stack_distinct(edges, state, i, j);
        }
    }
    assert forall|i: int, j: int| 0 <= i < j < closed.stack.len() implies num(closed, #[trigger] closed.stack[i]) < num(
        closed,
        #[trigger] closed.stack[j],
    ) by {
        assert(closed.stack[i] == state.stack[i]);
        assert(closed.stack[j] == state.stack[j]);
    }
    assert forall|k: int| 0 <= k < n && #[trigger] closed.on_stack[k] implies in_stack(closed.stack, k) by {
        assert(state.on_stack[k]);
        let i = choose|i: int| 0 <= i < state.stack.len() && state.stack[i].0 as int == k;
        if i >= at {
            assert(popped_mark(state.stack, at, k));
        }
        assert(closed.stack[i] == state.stack[i]);
    }
}


/// Closing keeps every low-link below the root witnessed.
proof fn lemma_close_lows(edges: Seq<Seq<ModuleId>>, state: TarjanState, closed: TarjanState, at: int)
    requires
        stack_ok(edges, state),
        lows_ok(edges, state),
        0 <= at < state.stack.len(),
        closed.stack == state.stack.take(at),
        closed.low == state.low,
        closed.index == state.index,
    ensures
        lows_ok(edges, closed),
{
    reveal(lows_ok);
    assert forall|v: ModuleId| #[trigger] num(closed, v) == num(state, v) by {}
    assert forall|i: int| 0 <= i < closed.stack.len() implies low_witnessed(edges, closed, #[trigger] closed.stack[i]) by {
        let v = state.stack[i];
        assert(closed.stack[i] == v);
        assert(low_witnessed(edges, state, v));
        let j = choose|j: int|
            0 <= j < state.stack.len() && num(state, #[trigger] state.stack[j]) == state.low[v.0 as int] as int
                && reaches(edges, v, state.stack[j]);
        lemma_stack_order(edges, state, i, at);
        if j >= at {
            if at < j {
                lemma_stack_order(edges, state, at, j);
            }
        }
        assert(closed.stack[j] == state.stack[j]);
    }
}

/// Closing the root keeps the facts of the modules still being visited below it.
#[verifier::spinoff_prover]
proof fn lemma_close_path(
    edges: Seq<Seq<ModuleId>>,
    state: TarjanState,
    closed: TarjanState,
    path: Seq<ModuleId>,
    module: ModuleId,
    at: int,
)
    requires
        stack_ok(edges, state),
        path_ok(edges, state, path.push(module)),
        0 <= at < state.stack.len(),
        state.stack[at] == module,
        closed.stack == state.stack.take(at),
        closed.low == state.low,
        closed.index == state.index,
    ensures
        path_ok(edges, closed, path),
{
    reveal(path_ok);
    let extended = path.push(module);
    assert(extended[path.len() as int] == module);
    assert forall|v: ModuleId| #[trigger] num(closed, v) == num(state, v) by {}
    assert forall|i: int| 0 <= i < path.len() implies num(state, #[trigger] path[i]) < num(state, module) by {
        assert(extended[i] == path[i]);
    }
    if path.len() == 0 {
        assert(state.stack[0] == module);
        if at > 0 {
            lemma_stack_distinct(edges, state, 0, at);
        }
    } else {
        assert(extended[0] == path[0]);
        assert(state.stack[0] == path[0]);
        if at == 0 {
            assert(num(state, path[0]) < num(state, module));
        }
    }
    assert forall|i: int| 0 <= i < path.len() implies in_stack(closed.stack, (#[trigger] path[i]).0 as int) by {
        assert(extended[i] == path[i]);
        let p = lemma_stack_position(state.stack, path[i]);
        if p >= at {
            if at < p {
                lemma_stack_order(edges, state, at, p);
            }
        }
        assert(closed.stack[p] == state.stack[p]);
    }
    assert forall|i: int, j: int| 0 <= i < j < path.len() implies num(closed, #[trigger] path[i]) < num(
        closed,
        #[trigger] path[j],
    ) by {
        assert(extended[i] == path[i]);
        assert(extended[j] == path[j]);
    }
    assert forall|i: int, k: int|
        0 <= i < path.len() && 0 <= k < closed.stack.len() && num(closed, #[trigger] path[i]) <= num(
            closed,
            #[trigger] closed.stack[k],
        ) implies reaches(edges, path[i], closed.stack[k]) by {
        assert(extended[i] == path[i]);
        assert(closed.stack[k] == state.stack[k]);
    }
    assert forall|k: int|
        0 <= k < closed.stack.len() && !path.contains(#[trigger] closed.stack[k]) implies (closed.low[closed.stack[k].0 as int] as int)
            < num(closed, closed.stack[k]) by {
        let v = state.stack[k];
        assert(closed.stack[k] == v);
        lemma_stack_order(edges, state, k, at);
        if extended.contains(v) {
            let i = choose|i: int| 0 <= i < extended.len() && extended[i] == v;
            if i < path.len() {
                assert(path[i] == v);
            }
        }
    }
    assert forall|i: int, k: int|
        0 <= i < path.len() && 0 <= k < closed.stack.len() && !path.contains(#[trigger] closed.stack[k])
            && num(closed, #[trigger] path[i]) < num(closed, closed.stack[k]) && (i + 1 == path.len()
            || num(closed, closed.stack[k]) < num(closed, path[i + 1])) implies closed.low[path[i].0 as int]
            <= closed.low[closed.stack[k].0 as int] by {
        let v = state.stack[k];
        assert(closed.stack[k] == v);
        assert(extended[i] == path[i]);
        lemma_stack_order(edges, state, k, at);
        if extended.contains(v) {
            let j = choose|j: int| 0 <= j < extended.len() && extended[j] == v;
            if j < path.len() {
                assert(path[j] == v);
            }
        }
        if i + 1 < path.len() {
            assert(extended[i + 1] == path[i + 1]);
        }
    }
}

/// What is above a place of a well-formed stack holds no module twice.
proof fn lemma_stack_tail_distinct(edges: Seq<Seq<ModuleId>>, state: TarjanState, at: int)
    requires
        stack_ok(edges, state),
        0 <= at <= state.stack.len(),
    ensures
        state.stack.skip(at).no_duplicates(),
{
    let group = state.stack.skip(at);
    assert forall|a: int, b: int| 0 <= a < group.len() && 0 <= b < group.len() && a != b implies group[a] != group[b] by {
        if group[a] == group[b] {
            lemma_stack_distinct(edges, state, at + a, at + b);
        }
    }
}

/// The modules above a root, the root included, all reach each other.
#[verifier::spinoff_prover]
proof fn lemma_group_reaches(
    edges: Seq<Seq<ModuleId>>,
    state: TarjanState,
    path: Seq<ModuleId>,
    module: ModuleId,
    at: int,
)
    requires
        stack_ok(edges, state),
        lows_ok(edges, state),
        path_ok(edges, state, path.push(module)),
        0 <= at < state.stack.len(),
        state.stack[at] == module,
        state.low[module.0 as int] as int == num(state, module),
    ensures
        forall|a: int, b: int|
            0 <= a < state.stack.skip(at).len() && 0 <= b < state.stack.skip(at).len() ==> reaches(
                edges,
                #[trigger] state.stack.skip(at)[a],
                #[trigger] state.stack.skip(at)[b],
            ),
{
    let group = state.stack.skip(at);
    let extended = path.push(module);
    assert forall|a: int, b: int| 0 <= a < group.len() && 0 <= b < group.len() implies reaches(
        edges,
        #[trigger] group[a],
        #[trigger] group[b],
    ) by {
        lemma_reach_root(edges, state, path, module, at, at + a);
        if b > 0 {
            lemma_stack_order(edges, state, at, at + b);
        }
        lemma_path_reaches_above(edges, state, extended, path.len() as int, at + b);
        lemma_reaches_trans(edges, group[a], module, group[b]);
    }
}

/// A module still being visited reaches every module above it on the stack.
proof fn lemma_path_reaches_above(edges: Seq<Seq<ModuleId>>, state: TarjanState, path: Seq<ModuleId>, i: int, k: int)
    requires
        path_ok(edges, state, path),
        0 <= i < path.len(),
        0 <= k < state.stack.len(),
        num(state, path[i]) <= num(state, state.stack[k]),
    ensures
        reaches(edges, path[i], state.stack[k]),
{
    reveal(path_ok);
}

/// The component a root closes is a cycle's worth of modules that all reach each other,
/// whenever it is reported.
#[verifier::spinoff_prover]
proof fn lemma_close_out(
    edges: Seq<Seq<ModuleId>>,
    state: TarjanState,
    path: Seq<ModuleId>,
    module: ModuleId,
    at: int,
)
    requires
        stack_ok(edges, state),
        lows_ok(edges, state),
        path_ok(edges, state, path.push(module)),
        out_ok(edges, state.out),
        0 <= at < state.stack.len(),
        state.stack[at] == module,
        state.low[module.0 as int] as int == num(state, module),
    ensures
        out_ok(edges, tarjan_close(edges, module, state).out),
{
    assert forall|i: int| at < i < state.stack.len() implies state.stack[i] != module by {
        if state.stack[i] == module {
            lemma_stack_distinct(edges, state, i, at);
        }
    }
    lemma_pop(state.stack, state.on_stack, Seq::empty(), module, at);
    let popped = tarjan_pop(state.stack, state.on_stack, Seq::empty(), module);
    let group = state.stack.skip(at);
    assert(popped.2 =~= group.reverse());
    assert(popped.2.reverse() =~= group);
    let closed = tarjan_close(edges, module, state);
    if is_cycle(edges, popped.2) {
        assert(is_cycle(edges, group)) by {
            if group.len() == 1 {
                assert(popped.2[0] == group[0]);
            }
        }
        lemma_group_reaches(edges, state, path, module, at);
        lemma_stack_tail_distinct(edges, state, at);
        assert(component_ok(edges, group));
        assert(closed.out == state.out.push(group));
        reveal(out_ok);
        assert forall|g: int| 0 <= g < closed.out.len() implies component_ok(edges, #[trigger] closed.out[g]) by {
            if g < state.out.len() {
                assert(closed.out[g] == state.out[g]);
            }
        }
    }
}

/// A root closes its component, and everything kept still holds for the modules still being
/// visited below it.
proof fn lemma_close(edges: Seq<Seq<ModuleId>>, state: TarjanState, path: Seq<ModuleId>, module: ModuleId)
    requires
        walk_ok(edges, state, path.push(module)),
        state.index[module.0 as int] == Some(state.low[module.0 as int]),
    ensures
        ({
            let closed = tarjan_close(edges, module, state);
            &&& walk_ok(edges, closed, path)
            &&& closed.index == state.index
            &&& closed.low == state.low
            &&& !closed.on_stack[module.0 as int]
        }),
{
    let extended = path.push(module);
    assert(extended[path.len() as int] == module);
    let at = {
        reveal(path_ok);
        lemma_stack_position(state.stack, module)
    };
    lemma_stack_entry(edges, state, at);
    assert(num(state, module) == state.low[module.0 as int] as int);
    lemma_close_stack(edges, state, module, at);
    let closed = tarjan_close(edges, module, state);
    lemma_close_lows(edges, state, closed, at);
    lemma_close_path(edges, state, closed, path, module, at);
    lemma_close_out(edges, state, path, module, at);
    reveal(stack_ok);
    assert(!closed.on_stack[module.0 as int]) by {
        if closed.on_stack[module.0 as int] {
            let i = choose|i: int| 0 <= i < closed.stack.len() && closed.stack[i].0 as int == module.0 as int;
            assert(closed.stack[i] == state.stack[i]);
            lemma_stack_distinct(edges, state, i, at);
        }
    }
}


// ---- the walk --------------------------------------------------------------------------------

/// Numbering one more module, and keeping the rest, leaves fewer unnumbered.
proof fn lemma_count_strict(earlier: Seq<Option<u32>>, later: Seq<Option<u32>>, at: int)
    requires
        keeps_numbers(earlier, later),
        0 <= at < earlier.len(),
        earlier[at] is None,
        later[at] is Some,
    ensures
        count_unnumbered(later) < count_unnumbered(earlier),
    decreases earlier.len(),
{
    if at == earlier.len() - 1 {
        lemma_count_keeps(earlier.drop_last(), later.drop_last());
    } else {
        lemma_count_strict(earlier.drop_last(), later.drop_last(), at);
    }
}

/// Folding the low-link of an import that closed its own component changes nothing: it is
/// the import's own number, above everything the importer can already reach.
proof fn lemma_root_return(
    edges: Seq<Seq<ModuleId>>,
    state: TarjanState,
    path: Seq<ModuleId>,
    module: ModuleId,
    child: ModuleId,
)
    requires
        walk_ok(edges, state, path),
        path.len() > 0,
        path.last() == module,
        state.low[child.0 as int] as int == num(state, child),
        num(state, module) < num(state, child),
    ensures
        tarjan_lower(state, module, state.low[child.0 as int]) == state,
{
    lemma_stack_shaped(edges, state);
    lemma_path_on_stack(edges, state, path, path.len() - 1);
    assert(path[path.len() - 1] == module);
    let p = lemma_stack_position(state.stack, module);
    lemma_low_below(edges, state, p);
    lemma_stack_entry(edges, state, p);
    let lowered = tarjan_lower(state, module, state.low[child.0 as int]);
    assert(lowered.low =~= state.low);
}

/// A module on the stack has a low-link at most its own number.
proof fn lemma_low_below(edges: Seq<Seq<ModuleId>>, state: TarjanState, i: int)
    requires
        lows_ok(edges, state),
        0 <= i < state.stack.len(),
    ensures
        state.low[state.stack[i].0 as int] as int <= num(state, state.stack[i]),
{
    reveal(lows_ok);
    assert(low_witnessed(edges, state, state.stack[i]));
}

/// The modules still being visited are on the stack.
proof fn lemma_path_on_stack(edges: Seq<Seq<ModuleId>>, state: TarjanState, path: Seq<ModuleId>, i: int)
    requires
        path_ok(edges, state, path),
        0 <= i < path.len(),
    ensures
        in_stack(state.stack, path[i].0 as int),
{
    reveal(path_ok);
}

/// A visit of an unnumbered module keeps everything; afterwards the module is either closed
/// with its component, or finished and waiting for its low-link to be folded into the
/// module that visited it.
#[verifier::spinoff_prover]
proof fn lemma_visit_sound(edges: Seq<Seq<ModuleId>>, module: ModuleId, state: TarjanState, path: Seq<ModuleId>)
    requires
        walk_ok(edges, state, path),
        (module.0 as int) < edges.len(),
        state.index[module.0 as int] is None,
        path.len() > 0 ==> reaches(edges, path.last(), module),
    ensures
        ({
            let visited = tarjan_visit(edges, module, state);
            &&& same_numbers(state.index, visited.index)
            &&& visited.index[module.0 as int] == Some(state.next_index)
            &&& {
                ||| walk_ok(edges, visited, path) && visited.low[module.0 as int] as int == num(visited, module)
                ||| walk_ok(edges, visited, path.push(module)) && (visited.low[module.0 as int] as int) < num(
                    visited,
                    module,
                )
            }
        }),
    decreases count_unnumbered(state.index), 0int, 0int,
{
    let at = module.0 as int;
    lemma_stack_shaped(edges, state);
    lemma_enter(edges, state, path, module);
    lemma_count_number(state.index, at, state.next_index);
    let entered = tarjan_enter(state, module);
    let extended = path.push(module);
    assert(extended.last() == module);
    lemma_imports_sound(edges, module, 0, entered, extended);
    let walked = tarjan_imports(edges, module, 0, entered);
    assert(walked.index[at] == Some(state.next_index));
    if walked.index[at] == Some(walked.low[at]) {
        lemma_close(edges, walked, path, module);
        let closed = tarjan_close(edges, module, walked);
        assert(tarjan_visit(edges, module, state) == closed);
    } else {
        assert(tarjan_visit(edges, module, state) == walked);
        reveal(lows_ok);
        reveal(path_ok);
        let m_pos = lemma_stack_position(walked.stack, module);
        assert(low_witnessed(edges, walked, walked.stack[m_pos]));
    }
    assert forall|k: int| 0 <= k < state.index.len() && (#[trigger] state.index[k]) is Some implies tarjan_visit(
        edges,
        module,
        state,
    ).index[k] == state.index[k] by {
        assert(entered.index[k] == state.index[k]);
    }
}

/// A walk over the newest visited module's imports keeps everything.
#[verifier::spinoff_prover]
proof fn lemma_imports_sound(
    edges: Seq<Seq<ModuleId>>,
    module: ModuleId,
    next: int,
    state: TarjanState,
    path: Seq<ModuleId>,
)
    requires
        walk_ok(edges, state, path),
        path.len() > 0,
        path.last() == module,
    ensures
        walk_ok(edges, tarjan_imports(edges, module, next, state), path),
        same_numbers(state.index, tarjan_imports(edges, module, next, state).index),
    decreases count_unnumbered(state.index), 0int, imports_of(edges, module).len() - next,
{
    let imports = imports_of(edges, module);
    lemma_stack_shaped(edges, state);
    let m_pos = {
        reveal(path_ok);
        assert(path[path.len() - 1] == module);
        lemma_stack_position(state.stack, module)
    };
    lemma_stack_entry(edges, state, m_pos);
    if next < 0 || next >= imports.len() {
    } else {
        let child = imports[next];
        let at = child.0 as int;
        assert(imports.contains(child));
        if at >= edges.len() {
            lemma_imports_sound(edges, module, next + 1, state, path);
        } else if state.index[at] is None {
            lemma_reaches_import(edges, module, child);
            lemma_visit_sound(edges, child, state, path);
            let after = tarjan_visit(edges, child, state);
            lemma_stack_shaped(edges, after);
            assert(keeps_numbers(state.index, after.index));
            lemma_count_strict(state.index, after.index, at);
            let lowered = tarjan_lower(after, module, after.low[at]);
            if walk_ok(edges, after, path) && after.low[at] as int == num(after, child) {
                assert(after.index[module.0 as int] == state.index[module.0 as int]);
                assert(num(state, module) < state.next_index) by {
                    reveal(stack_ok);
                }
                lemma_root_return(edges, after, path, module, child);
            } else {
                lemma_lower_return(edges, after, path, module, child);
            }
            lemma_stack_shaped(edges, lowered);
            lemma_imports_sound(edges, module, next + 1, lowered, path);
            let end = tarjan_imports(edges, module, next + 1, lowered);
            assert forall|k: int| 0 <= k < state.index.len() && (#[trigger] state.index[k]) is Some implies end.index[k]
                == state.index[k] by {
                assert(after.index[k] == state.index[k]);
            }
        } else if state.on_stack[at] {
            lemma_lower_back(edges, state, path, module, child);
            lemma_imports_sound(edges, module, next + 1, tarjan_lower(state, module, state.index[at]->0), path);
        } else {
            lemma_imports_sound(edges, module, next + 1, state, path);
        }
    }
}


/// A module visited from the outer loop, with nothing below it, always closes: its low-link
/// cannot name anything older than itself.
proof fn lemma_top_closes(edges: Seq<Seq<ModuleId>>, state: TarjanState, module: ModuleId)
    requires
        walk_ok(edges, state, seq![module]),
    ensures
        state.low[module.0 as int] as int >= num(state, module),
{
    lemma_path_bottom(edges, state, seq![module]);
    let j = lemma_low_witness(edges, state, 0);
    if j > 0 {
        lemma_stack_order(edges, state, 0, j);
    }
}

/// The oldest module still being visited is at the bottom of the stack.
proof fn lemma_path_bottom(edges: Seq<Seq<ModuleId>>, state: TarjanState, path: Seq<ModuleId>)
    requires
        path_ok(edges, state, path),
        path.len() > 0,
    ensures
        state.stack.len() > 0,
        state.stack[0] == path[0],
{
    reveal(path_ok);
}

/// Where a module's low-link points on the stack.
proof fn lemma_low_witness(edges: Seq<Seq<ModuleId>>, state: TarjanState, i: int) -> (j: int)
    requires
        lows_ok(edges, state),
        0 <= i < state.stack.len(),
    ensures
        0 <= j < state.stack.len(),
        num(state, state.stack[j]) == state.low[state.stack[i].0 as int] as int,
        reaches(edges, state.stack[i], state.stack[j]),
{
    reveal(lows_ok);
    assert(low_witnessed(edges, state, state.stack[i]));
    choose|j: int|
        0 <= j < state.stack.len() && num(state, #[trigger] state.stack[j]) == state.low[state.stack[i].0 as int] as int
            && reaches(edges, state.stack[i], state.stack[j])
}

/// The outer loop keeps everything, with nothing left being visited between its walks.
proof fn lemma_from_sound(edges: Seq<Seq<ModuleId>>, from: int, state: TarjanState)
    requires
        walk_ok(edges, state, Seq::empty()),
    ensures
        walk_ok(edges, tarjan_from(edges, from, state), Seq::empty()),
    decreases edges.len() - from,
{
    if from < 0 || from >= edges.len() {
    } else {
        lemma_stack_shaped(edges, state);
        let next = if shaped(state, edges.len() as int) && state.index[from] is None {
            let module = ModuleId(from as u32);
            lemma_visit_sound(edges, module, state, Seq::empty());
            let visited = tarjan_visit(edges, module, state);
            if !(walk_ok(edges, visited, Seq::empty()) && visited.low[module.0 as int] as int == num(
                visited,
                module,
            )) {
                assert(Seq::<ModuleId>::empty().push(module) =~= seq![module]);
                lemma_top_closes(edges, visited, module);
            }
            visited
        } else {
            state
        };
        lemma_from_sound(edges, from + 1, next);
    }
}

/// Nothing numbered leaves every module unnumbered.
proof fn lemma_count_initial(count: nat)
    ensures
        count_unnumbered(Seq::new(count, |k: int| None::<u32>)) == count,
    decreases count,
{
    if count > 0 {
        let all = Seq::new(count, |k: int| None::<u32>);
        assert(all.drop_last() =~= Seq::new((count - 1) as nat, |k: int| None::<u32>));
        lemma_count_initial((count - 1) as nat);
    }
}

/// The walk starts with everything kept: nothing numbered, nothing on the stack.
proof fn lemma_initial_sound(edges: Seq<Seq<ModuleId>>)
    requires
        imports_in_range(edges),
        edges.len() <= u32::MAX,
    ensures
        walk_ok(edges, tarjan_initial(edges.len()), Seq::empty()),
{
    let initial = tarjan_initial(edges.len());
    lemma_count_initial(edges.len());
    reveal(stack_ok);
    reveal(lows_ok);
    reveal(path_ok);
    reveal(out_ok);
}

/// A group of modules that all reach each other and is a cycle puts each of its modules on
/// a cycle.
proof fn lemma_member_on_cycle(edges: Seq<Seq<ModuleId>>, group: Seq<ModuleId>, a: int)
    requires
        component_ok(edges, group),
        0 <= a < group.len(),
    ensures
        on_cycle(edges, group[a]),
{
    let x = group[a];
    if group.len() == 1 {
        assert(imports_of(edges, group[0]).contains(group[0]));
        assert(reaches(edges, x, x));
    } else {
        let b = if a == 0 {
            1int
        } else {
            0int
        };
        let y = group[b];
        assert(reaches(edges, x, y));
        assert(reaches(edges, y, x));
        let path = choose|path: Seq<ModuleId>| #[trigger] crate::ordering::is_walk(edges, path) && path[0] == x && path.last() == y;
        assert(x != y);
        assert(path.len() >= 2) by {
            if path.len() == 1 {
                assert(path[0] == path.last());
            }
        }
        let tail = path.skip(1);
        assert(crate::ordering::is_walk(edges, tail)) by {
            assert forall|i: int| 0 <= i < tail.len() implies (#[trigger] tail[i]).0 < edges.len() by {
                assert(tail[i] == path[i + 1]);
            }
            assert forall|i: int| 0 <= i < tail.len() - 1 implies imports_of(edges, #[trigger] tail[i]).contains(tail[i + 1]) by {
                assert(tail[i] == path[i + 1]);
                assert(tail[i + 1] == path[i + 2]);
            }
        }
        assert(tail.last() == y);
        assert(reaches(edges, path[1], y));
        assert(imports_of(edges, path[0]).contains(path[1]));
        lemma_reaches_trans(edges, path[1], y, x);
    }
}

/// `module` lies on a cycle: it imports a module that reaches it back.
pub open spec fn on_cycle(edges: Seq<Seq<ModuleId>>, module: ModuleId) -> bool {
    exists|step: ModuleId| #[trigger] imports_of(edges, module).contains(step) && reaches(edges, step, module)
}

/// Every reported cycle is a cycle: each of its modules reaches every other, and each lies
/// on a cycle through its imports. Nothing outside a cycle is ever reported as one.
pub proof fn law_reported_cycles_are_cycles(graph: &ModuleGraph, group: int, a: int, b: int)
    requires
        graph.wf(),
        imports_in_range(graph.edges()),
        graph.edges().len() <= u32::MAX,
        0 <= group < tarjan_cycles(graph.edges()).len(),
        0 <= a < tarjan_cycles(graph.edges())[group].len(),
        0 <= b < tarjan_cycles(graph.edges())[group].len(),
    ensures
        reaches(graph.edges(), tarjan_cycles(graph.edges())[group][a], tarjan_cycles(graph.edges())[group][b]),
        on_cycle(graph.edges(), tarjan_cycles(graph.edges())[group][a]),
{
    let edges = graph.edges();
    lemma_initial_sound(edges);
    lemma_from_sound(edges, 0, tarjan_initial(edges.len()));
    let out = tarjan_cycles(edges);
    reveal(out_ok);
    assert(component_ok(edges, out[group]));
    lemma_member_on_cycle(edges, out[group], a);
}


/// A module is in a reported cycle exactly when it lies on a cycle: what
/// [`ModuleGraph::in_cycle`] answers.
pub proof fn law_in_cycle_exactly_when_on_a_cycle(graph: &ModuleGraph, module: ModuleId)
    requires
        graph.wf(),
        imports_in_range(graph.edges()),
        graph.edges().len() <= u32::MAX,
    ensures
        reported(tarjan_cycles(graph.edges()), module) <==> on_cycle(graph.edges(), module),
{
    if reported(tarjan_cycles(graph.edges()), module) {
        let (group, member) = choose|group: int, member: int|
            0 <= group < tarjan_cycles(graph.edges()).len() && 0 <= member < tarjan_cycles(
                graph.edges(),
            )[group].len() && #[trigger] tarjan_cycles(graph.edges())[group][member] == module;
        law_reported_cycles_are_cycles(graph, group, member, member);
    }
    if on_cycle(graph.edges(), module) {
        law_every_cycle_is_reported(graph, module);
    }
}

// ---- completeness: nothing on a cycle is missed ----------------------------------------------

/// Module `k` has been numbered and taken off the stack: its component is closed.
pub open spec fn popped(state: TarjanState, k: int) -> bool {
    state.index[k] is Some && !state.on_stack[k]
}

/// `module` is in one of the reported groups.
pub open spec fn reported(out: Seq<Seq<ModuleId>>, module: ModuleId) -> bool {
    exists|g: int, i: int| 0 <= g < out.len() && 0 <= i < out[g].len() && #[trigger] out[g][i] == module
}

/// `module`'s imports before position `upto` are all numbered, and each still on the stack
/// has a number no lower than `module`'s low-link.
pub open spec fn imports_settled(edges: Seq<Seq<ModuleId>>, state: TarjanState, module: ModuleId, upto: int) -> bool {
    forall|j: int|
        0 <= j < upto && j < imports_of(edges, module).len() && (#[trigger] imports_of(edges, module)[j].0 as int)
            < edges.len() ==> {
            let b = imports_of(edges, module)[j].0 as int;
            &&& state.index[b] is Some
            &&& state.on_stack[b] ==> state.low[module.0 as int] as int <= num(state, imports_of(edges, module)[j])
        }
}

/// What completeness keeps: finished modules on the stack have settled imports, the imports of
/// a closed module are closed, and a closed module that lies on a cycle has been reported.
#[verifier::opaque]
pub open spec fn complete_ok(edges: Seq<Seq<ModuleId>>, state: TarjanState, path: Seq<ModuleId>) -> bool {
    let n = edges.len() as int;
    &&& forall|k: int|
        0 <= k < state.stack.len() && !path.contains(#[trigger] state.stack[k]) ==> imports_settled(
            edges,
            state,
            state.stack[k],
            imports_of(edges, state.stack[k]).len() as int,
        )
    &&& imports_closed(edges, state)
    &&& forall|c: int|
        0 <= c < n && #[trigger] popped(state, c) && on_cycle(edges, ModuleId(c as u32)) ==> reported(
            state.out,
            ModuleId(c as u32),
        )
    &&& groups_ok(edges, state)
}

/// The imports of a closed module are closed.
pub open spec fn imports_closed(edges: Seq<Seq<ModuleId>>, state: TarjanState) -> bool {
    let n = edges.len() as int;
    forall|c: int, j: int|
        0 <= c < n && popped(state, c) && 0 <= j < imports_of(edges, ModuleId(c as u32)).len() && (
        #[trigger] imports_of(edges, ModuleId(c as u32))[j].0 as int) < n ==> popped(
            state,
            imports_of(edges, ModuleId(c as u32))[j].0 as int,
        )
}

/// The reported groups hold closed modules of the graph, no module is in two of them, and a
/// module that reaches a member of a group and is reached from it is in that group too.
pub open spec fn groups_ok(edges: Seq<Seq<ModuleId>>, state: TarjanState) -> bool {
    let out = state.out;
    &&& forall|g: int, i: int|
        0 <= g < out.len() && 0 <= i < out[g].len() ==> ((#[trigger] out[g][i]).0 as int) < edges.len()
            && popped(state, out[g][i].0 as int)
    &&& forall|g: int, h: int, i: int, j: int|
        0 <= g < h < out.len() && 0 <= i < out[g].len() && 0 <= j < out[h].len() ==> #[trigger] out[g][i]
            != #[trigger] out[h][j]
    &&& forall|g: int, i: int, y: ModuleId|
        0 <= g < out.len() && 0 <= i < out[g].len() && reaches(edges, #[trigger] out[g][i], y)
            && #[trigger] reaches(edges, y, out[g][i]) ==> out[g].contains(y)
}

/// How a walk that starts from `before` leaves what was below it: the same numbers, the same
/// stack up to `base`, the same low-links there but `except`'s, closed modules still closed,
/// and the earlier reports still in place.
pub open spec fn kept_below(before: TarjanState, after: TarjanState, base: int, except: ModuleId) -> bool {
    &&& same_numbers(before.index, after.index)
    &&& before.on_stack.len() == after.on_stack.len()
    &&& base <= before.stack.len()
    &&& base <= after.stack.len()
    &&& after.stack.take(base) == before.stack.take(base)
    &&& forall|i: int|
        0 <= i < base && #[trigger] before.stack[i] != except ==> after.low[before.stack[i].0 as int]
            == before.low[before.stack[i].0 as int]
    &&& forall|k: int| 0 <= k < before.on_stack.len() && #[trigger] popped(before, k) ==> popped(after, k)
    &&& before.out.len() <= after.out.len()
    &&& after.out.take(before.out.len() as int) == before.out
}

/// Reports once made stay made.
proof fn lemma_reported_kept(before: Seq<Seq<ModuleId>>, after: Seq<Seq<ModuleId>>, module: ModuleId)
    requires
        reported(before, module),
        before.len() <= after.len(),
        after.take(before.len() as int) == before,
    ensures
        reported(after, module),
{
    let (g, i) = choose|g: int, i: int| 0 <= g < before.len() && 0 <= i < before[g].len() && #[trigger] before[g][i] == module;
    assert(after.take(before.len() as int)[g] == after[g]);
}

/// Keeping what is below composes.
proof fn lemma_kept_trans(
    a: TarjanState,
    b: TarjanState,
    c: TarjanState,
    base: int,
    except: ModuleId,
)
    requires
        kept_below(a, b, base, except),
        kept_below(b, c, base, except),
    ensures
        kept_below(a, c, base, except),
{
    assert forall|i: int| 0 <= i < base && #[trigger] a.stack[i] != except implies c.low[a.stack[i].0 as int]
        == a.low[a.stack[i].0 as int] by {
        assert(a.stack.take(base)[i] == a.stack[i]);
        assert(b.stack.take(base)[i] == b.stack[i]);
    }
    assert(c.out.take(a.out.len() as int) =~= a.out) by {
        assert forall|g: int| 0 <= g < a.out.len() implies c.out[g] == a.out[g] by {
            assert(c.out.take(b.out.len() as int)[g] == c.out[g]);
            assert(b.out.take(a.out.len() as int)[g] == b.out[g]);
        }
    }
    assert forall|k: int| 0 <= k < a.index.len() && (#[trigger] a.index[k]) is Some implies c.index[k] == a.index[k] by {
        assert(b.index[k] == a.index[k]);
    }
}

/// Nothing changes below anything.
proof fn lemma_kept_refl(state: TarjanState, base: int, except: ModuleId)
    requires
        0 <= base <= state.stack.len(),
    ensures
        kept_below(state, state, base, except),
{
    assert(state.out.take(state.out.len() as int) =~= state.out);
}

/// Keeping what is below a base keeps what is below a lower one.
proof fn lemma_kept_lower_base(before: TarjanState, after: TarjanState, base: int, lower: int, except: ModuleId)
    requires
        kept_below(before, after, base, except),
        0 <= lower <= base,
    ensures
        kept_below(before, after, lower, except),
{
    assert(after.stack.take(lower) =~= after.stack.take(base).take(lower));
    assert(before.stack.take(lower) =~= before.stack.take(base).take(lower));
}

/// When the exception is not below the base, any other exception does as well.
proof fn lemma_kept_any_except(before: TarjanState, after: TarjanState, base: int, except: ModuleId, other: ModuleId)
    requires
        kept_below(before, after, base, except),
        forall|i: int| 0 <= i < base ==> before.stack[i] != except,
    ensures
        kept_below(before, after, base, other),
{
}

/// Entering keeps everything below the old top.
proof fn lemma_enter_kept(edges: Seq<Seq<ModuleId>>, state: TarjanState, module: ModuleId, except: ModuleId)
    requires
        stack_ok(edges, state),
        (module.0 as int) < edges.len(),
        state.index[module.0 as int] is None,
    ensures
        kept_below(state, tarjan_enter(state, module), state.stack.len() as int, except),
{
    lemma_stack_shaped(edges, state);
    let entered = tarjan_enter(state, module);
    assert(entered.stack.take(state.stack.len() as int) =~= state.stack);
    assert(state.stack.take(state.stack.len() as int) =~= state.stack);
    assert forall|i: int| 0 <= i < state.stack.len() && #[trigger] state.stack[i] != except implies entered.low[state.stack[i].0 as int]
        == state.low[state.stack[i].0 as int] by {
        lemma_stack_entry(edges, state, i);
    }
    assert forall|k: int| 0 <= k < state.index.len() && (#[trigger] state.index[k]) is Some implies entered.index[k]
        == state.index[k] by {}
    assert(entered.out.take(state.out.len() as int) =~= state.out);
}

/// Lowering a module above the base keeps everything below it.
proof fn lemma_lower_kept(
    edges: Seq<Seq<ModuleId>>,
    state: TarjanState,
    module: ModuleId,
    value: u32,
    base: int,
    except: ModuleId,
)
    requires
        stack_ok(edges, state),
        0 <= base <= state.stack.len(),
        (module.0 as int) < edges.len(),
        module == except || forall|i: int| 0 <= i < base ==> state.stack[i] != module,
    ensures
        kept_below(state, tarjan_lower(state, module, value), base, except),
{
    lemma_stack_shaped(edges, state);
    let lowered = tarjan_lower(state, module, value);
    assert(lowered.out.take(state.out.len() as int) =~= state.out);
    assert forall|i: int| 0 <= i < base && #[trigger] state.stack[i] != except implies lowered.low[state.stack[i].0 as int]
        == state.low[state.stack[i].0 as int] by {
        lemma_stack_entry(edges, state, i);
        if state.stack[i].0 == module.0 {
            assert(state.stack[i] == module);
        }
    }
}

/// Closing a root at or above the base keeps everything below it.
proof fn lemma_close_kept(
    edges: Seq<Seq<ModuleId>>,
    state: TarjanState,
    module: ModuleId,
    at: int,
    base: int,
    except: ModuleId,
)
    requires
        stack_ok(edges, state),
        0 <= base <= at < state.stack.len(),
        state.stack[at] == module,
    ensures
        kept_below(state, tarjan_close(edges, module, state), base, except),
{
    lemma_stack_shaped(edges, state);
    lemma_close_stack(edges, state, module, at);
    let closed = tarjan_close(edges, module, state);
    assert forall|i: int| at < i < state.stack.len() implies state.stack[i] != module by {
        if state.stack[i] == module {
            lemma_stack_distinct(edges, state, i, at);
        }
    }
    lemma_pop(state.stack, state.on_stack, Seq::empty(), module, at);
    assert(closed.stack.take(base) =~= state.stack.take(base));
    assert forall|k: int| 0 <= k < state.on_stack.len() && #[trigger] popped(state, k) implies popped(closed, k) by {}
    assert(closed.out.take(state.out.len() as int) =~= state.out);
}

/// What is reachable from a closed module is closed.
proof fn lemma_popped_reach(
    edges: Seq<Seq<ModuleId>>,
    state: TarjanState,
    walk: Seq<ModuleId>,
)
    requires
        imports_closed(edges, state),
        crate::ordering::is_walk(edges, walk),
        popped(state, walk[0].0 as int),
        edges.len() <= u32::MAX + 1,
    ensures
        popped(state, walk.last().0 as int),
    decreases walk.len(),
{
    if walk.len() > 1 {
        let shorter = walk.drop_last();
        assert(crate::ordering::is_walk(edges, shorter)) by {
            assert forall|i: int| 0 <= i < shorter.len() implies (#[trigger] shorter[i]).0 < edges.len() by {
                assert(shorter[i] == walk[i]);
            }
            assert forall|i: int| 0 <= i < shorter.len() - 1 implies imports_of(edges, #[trigger] shorter[i]).contains(shorter[i + 1]) by {
                assert(shorter[i] == walk[i]);
                assert(shorter[i + 1] == walk[i + 1]);
            }
        }
        lemma_popped_reach(edges, state, shorter);
        let i = walk.len() - 2;
        let c = walk[i];
        assert(shorter.last() == c);
        assert(imports_of(edges, walk[i]).contains(walk[i + 1]));
        let j = choose|j: int| 0 <= j < imports_of(edges, c).len() && imports_of(edges, c)[j] == walk.last();
        assert(c.0 < edges.len());
        assert(ModuleId(c.0 as int as u32) == c);
        assert(walk.last().0 < edges.len());
        assert(imports_of(edges, ModuleId(c.0 as int as u32))[j] == walk.last());
    }
}

/// Entering a module keeps what completeness needs.
proof fn lemma_enter_complete(edges: Seq<Seq<ModuleId>>, state: TarjanState, path: Seq<ModuleId>, module: ModuleId)
    requires
        walk_ok(edges, state, path),
        complete_ok(edges, state, path),
        (module.0 as int) < edges.len(),
        state.index[module.0 as int] is None,
    ensures
        complete_ok(edges, tarjan_enter(state, module), path.push(module)),
{
    reveal(complete_ok);
    lemma_stack_shaped(edges, state);
    let entered = tarjan_enter(state, module);
    let extended = path.push(module);
    let at = module.0 as int;
    assert forall|k: int|
        0 <= k < entered.stack.len() && !extended.contains(#[trigger] entered.stack[k]) implies imports_settled(
            edges,
            entered,
            entered.stack[k],
            imports_of(edges, entered.stack[k]).len() as int,
        ) by {
        if k == state.stack.len() {
            assert(extended[path.len() as int] == module);
        } else {
            let a = state.stack[k];
            assert(entered.stack[k] == a);
            lemma_stack_entry(edges, state, k);
            assert(!path.contains(a)) by {
                if path.contains(a) {
                    let i = choose|i: int| 0 <= i < path.len() && path[i] == a;
                    assert(extended[i] == a);
                }
            }
            assert(imports_settled(edges, state, a, imports_of(edges, a).len() as int));
            assert forall|j: int|
                0 <= j < imports_of(edges, a).len() && j < imports_of(edges, a).len() && (#[trigger] imports_of(edges, a)[j].0 as int)
                    < edges.len() implies {
                    let b = imports_of(edges, a)[j].0 as int;
                    &&& entered.index[b] is Some
                    &&& entered.on_stack[b] ==> entered.low[a.0 as int] as int <= num(entered, imports_of(edges, a)[j])
                } by {
                let b = imports_of(edges, a)[j].0 as int;
                assert(state.index[b] is Some);
                assert(b != at);
            }
        }
    }
    assert forall|c: int| 0 <= c < edges.len() && #[trigger] popped(entered, c) implies popped(state, c) by {}
}

/// Passing over an import that names no module, or one already closed, settles it.
proof fn lemma_skip_settled(edges: Seq<Seq<ModuleId>>, state: TarjanState, module: ModuleId, next: int)
    requires
        imports_settled(edges, state, module, next),
        0 <= next < imports_of(edges, module).len(),
        ({
            let b = imports_of(edges, module)[next].0 as int;
            b >= edges.len() || (state.index[b] is Some && !state.on_stack[b])
        }),
    ensures
        imports_settled(edges, state, module, next + 1),
{
}

/// Lowering the newest visited module to an import still on the stack settles that import
/// and keeps what completeness needs.
proof fn lemma_lower_back_complete(
    edges: Seq<Seq<ModuleId>>,
    state: TarjanState,
    path: Seq<ModuleId>,
    module: ModuleId,
    next: int,
)
    requires
        walk_ok(edges, state, path),
        complete_ok(edges, state, path),
        path.len() > 0,
        path.last() == module,
        imports_settled(edges, state, module, next),
        0 <= next < imports_of(edges, module).len(),
        (imports_of(edges, module)[next].0 as int) < edges.len(),
        state.on_stack[imports_of(edges, module)[next].0 as int],
    ensures
        ({
            let child = imports_of(edges, module)[next];
            let lowered = tarjan_lower(state, module, state.index[child.0 as int]->0);
            &&& complete_ok(edges, lowered, path)
            &&& imports_settled(edges, lowered, module, next + 1)
        }),
{
    reveal(complete_ok);
    lemma_stack_shaped(edges, state);
    let child = imports_of(edges, module)[next];
    let value = state.index[child.0 as int]->0;
    let lowered = tarjan_lower(state, module, value);
    let at = module.0 as int;
    lemma_path_on_stack(edges, state, path, path.len() - 1);
    assert(path[path.len() - 1] == module);
    let m_pos = lemma_stack_position(state.stack, module);
    lemma_stack_entry(edges, state, m_pos);
    reveal(stack_ok);
    let c_pos = lemma_stack_position(state.stack, child);
    assert(state.index[child.0 as int] is Some) by {
        lemma_stack_entry(edges, state, c_pos);
    }
    assert forall|k: int|
        0 <= k < lowered.stack.len() && !path.contains(#[trigger] lowered.stack[k]) implies imports_settled(
            edges,
            lowered,
            lowered.stack[k],
            imports_of(edges, lowered.stack[k]).len() as int,
        ) by {
        let a = state.stack[k];
        lemma_stack_entry(edges, state, k);
        assert(a.0 as int != at) by {
            if a.0 as int == at {
                lemma_stack_distinct(edges, state, k, m_pos);
                assert(path.contains(module));
            }
        }
        assert(imports_settled(edges, state, a, imports_of(edges, a).len() as int));
    }
    assert forall|c: int| 0 <= c < edges.len() && #[trigger] popped(lowered, c) implies popped(state, c) by {}
    assert(imports_settled(edges, lowered, module, next + 1));
}

/// After an import's visit, the imports settled before stay settled: the importer's low-link
/// is untouched, and an import on the stack now was on it before.
proof fn lemma_settled_after_visit(
    edges: Seq<Seq<ModuleId>>,
    state: TarjanState,
    after: TarjanState,
    module: ModuleId,
    next: int,
    child: ModuleId,
)
    requires
        stack_ok(edges, state),
        imports_settled(edges, state, module, next),
        kept_below(state, after, state.stack.len() as int, child),
        in_stack(state.stack, module.0 as int),
        state.index[child.0 as int] is None,
        after.low.len() == state.low.len(),
    ensures
        imports_settled(edges, after, module, next),
        after.low[module.0 as int] == state.low[module.0 as int],
{
    lemma_stack_shaped(edges, state);
    let m_pos = lemma_stack_position(state.stack, module);
    lemma_stack_entry(edges, state, m_pos);
    assert(state.stack[m_pos] != child);
    assert(after.low[module.0 as int] == state.low[module.0 as int]);
    assert forall|j: int|
        0 <= j < next && j < imports_of(edges, module).len() && (#[trigger] imports_of(edges, module)[j].0 as int)
            < edges.len() implies {
            let b = imports_of(edges, module)[j].0 as int;
            &&& after.index[b] is Some
            &&& after.on_stack[b] ==> after.low[module.0 as int] as int <= num(after, imports_of(edges, module)[j])
        } by {
        let b = imports_of(edges, module)[j].0 as int;
        assert(state.index[b] is Some);
        assert(after.index[b] == state.index[b]);
        if !state.on_stack[b] {
            assert(popped(state, b));
            assert(popped(after, b));
        }
    }
}

/// Folding in the low-link of an import that finished without closing settles it, and the
/// import, now finished, has its own imports settled.
proof fn lemma_return_complete(
    edges: Seq<Seq<ModuleId>>,
    after: TarjanState,
    path: Seq<ModuleId>,
    module: ModuleId,
    next: int,
    child: ModuleId,
)
    requires
        walk_ok(edges, after, path.push(child)),
        complete_ok(edges, after, path.push(child)),
        imports_settled(edges, after, child, imports_of(edges, child).len() as int),
        imports_settled(edges, after, module, next),
        path.len() > 0,
        path.last() == module,
        0 <= next < imports_of(edges, module).len(),
        imports_of(edges, module)[next] == child,
        (after.low[child.0 as int] as int) < num(after, child),
    ensures
        ({
            let lowered = tarjan_lower(after, module, after.low[child.0 as int]);
            &&& complete_ok(edges, lowered, path)
            &&& imports_settled(edges, lowered, module, next + 1)
        }),
{
    reveal(complete_ok);
    lemma_stack_shaped(edges, after);
    let extended = path.push(child);
    let lowered = tarjan_lower(after, module, after.low[child.0 as int]);
    let at = module.0 as int;
    assert(extended[path.len() - 1] == module);
    assert(extended[path.len() as int] == child);
    lemma_path_on_stack(edges, after, extended, path.len() - 1);
    lemma_path_on_stack(edges, after, extended, path.len() as int);
    let m_pos = lemma_stack_position(after.stack, module);
    let c_pos = lemma_stack_position(after.stack, child);
    lemma_stack_entry(edges, after, m_pos);
    lemma_stack_entry(edges, after, c_pos);
    assert(child.0 as int != at) by {
        if child.0 as int == at {
            lemma_stack_distinct(edges, after, c_pos, m_pos);
            reveal(path_ok);
            assert(num(after, extended[path.len() - 1]) < num(after, extended[path.len() as int]));
        }
    }
    lemma_low_below(edges, after, c_pos);
    assert forall|k: int|
        0 <= k < lowered.stack.len() && !path.contains(#[trigger] lowered.stack[k]) implies imports_settled(
            edges,
            lowered,
            lowered.stack[k],
            imports_of(edges, lowered.stack[k]).len() as int,
        ) by {
        let a = after.stack[k];
        lemma_stack_entry(edges, after, k);
        assert(a.0 as int != at) by {
            if a.0 as int == at {
                lemma_stack_distinct(edges, after, k, m_pos);
                assert(path.contains(module));
            }
        }
        if a != child {
            assert(!extended.contains(a)) by {
                if extended.contains(a) {
                    let i = choose|i: int| 0 <= i < extended.len() && extended[i] == a;
                    assert(path[i] == a);
                }
            }
        }
        assert(imports_settled(edges, after, a, imports_of(edges, a).len() as int));
    }
    assert forall|c: int| 0 <= c < edges.len() && #[trigger] popped(lowered, c) implies popped(after, c) by {}
    assert(imports_settled(edges, lowered, module, next + 1));
}

/// An import of a module in a closing component is closed afterwards: it was closed already,
/// or it is in the component.
#[verifier::spinoff_prover]
proof fn lemma_close_import_closed(
    edges: Seq<Seq<ModuleId>>,
    state: TarjanState,
    path: Seq<ModuleId>,
    root: ModuleId,
    at: int,
    i: int,
    b: int,
)
    requires
        walk_ok(edges, state, path.push(root)),
        0 <= at <= i < state.stack.len(),
        state.stack[at] == root,
        state.low[root.0 as int] as int == num(state, root),
        0 <= b < edges.len(),
        state.index[b] is Some,
        state.on_stack[b] ==> state.low[state.stack[i].0 as int] as int <= num(state, ModuleId(b as u32)),
    ensures
        !state.on_stack[b] || popped_mark(state.stack, at, b),
{
    if state.on_stack[b] {
        reveal(stack_ok);
        let p = choose|p: int| 0 <= p < state.stack.len() && state.stack[p].0 as int == b;
        assert(state.stack[p] == ModuleId(b as u32));
        if p < at {
            lemma_stack_order(edges, state, p, at);
            if i == at {
            } else {
                let extended = path.push(root);
                lemma_stack_order(edges, state, at, i);
                reveal(path_ok);
                assert(extended[path.len() as int] == root);
                let v = state.stack[i];
                assert(!extended.contains(v)) by {
                    if extended.contains(v) {
                        let q = choose|q: int| 0 <= q < extended.len() && extended[q] == v;
                        if q < path.len() {
                            assert(num(state, extended[q]) < num(state, extended[path.len() as int]));
                        }
                    }
                }
                assert(state.low[root.0 as int] <= state.low[v.0 as int]);
            }
        }
    }
}

/// Closing a root whose imports are settled keeps what completeness needs: what it pops is
/// closed together with its imports, and a popped module on a cycle is in the reported group.
#[verifier::spinoff_prover]
#[verifier::rlimit(40)]
proof fn lemma_close_complete(
    edges: Seq<Seq<ModuleId>>,
    state: TarjanState,
    path: Seq<ModuleId>,
    root: ModuleId,
)
    requires
        walk_ok(edges, state, path.push(root)),
        complete_ok(edges, state, path.push(root)),
        imports_settled(edges, state, root, imports_of(edges, root).len() as int),
        state.index[root.0 as int] == Some(state.low[root.0 as int]),
    ensures
        complete_ok(edges, tarjan_close(edges, root, state), path),
{
    let extended = path.push(root);
    let n = edges.len() as int;
    assert(extended[path.len() as int] == root);
    let at = {
        reveal(path_ok);
        lemma_stack_position(state.stack, root)
    };
    lemma_stack_entry(edges, state, at);
    lemma_stack_shaped(edges, state);
    lemma_close_stack(edges, state, root, at);
    assert forall|i: int| at < i < state.stack.len() implies state.stack[i] != root by {
        if state.stack[i] == root {
            lemma_stack_distinct(edges, state, i, at);
        }
    }
    lemma_pop(state.stack, state.on_stack, Seq::empty(), root, at);
    let taken = tarjan_pop(state.stack, state.on_stack, Seq::empty(), root);
    let closed = tarjan_close(edges, root, state);
    assert(closed.on_stack == taken.1);
    assert(taken.2 =~= state.stack.skip(at).reverse());
    reveal(complete_ok);
    // The modules above the root have all finished their visits.
    assert forall|i: int| at < i < state.stack.len() implies !extended.contains(#[trigger] state.stack[i]) by {
        let v = state.stack[i];
        lemma_stack_order(edges, state, at, i);
        if extended.contains(v) {
            let q = choose|q: int| 0 <= q < extended.len() && extended[q] == v;
            reveal(path_ok);
            if q < path.len() {
                assert(num(state, extended[q]) < num(state, extended[path.len() as int]));
            }
        }
    }
    // Every import of a popped module is closed afterwards.
    assert forall|i: int, j: int|
        at <= i < state.stack.len() && 0 <= j < imports_of(edges, state.stack[i]).len() && (
        #[trigger] imports_of(edges, state.stack[i])[j].0 as int) < n implies popped(
        closed,
        imports_of(edges, state.stack[i])[j].0 as int,
    ) by {
        let v = state.stack[i];
        let b = imports_of(edges, v)[j].0 as int;
        assert(imports_settled(edges, state, v, imports_of(edges, v).len() as int));
        assert(ModuleId(b as u32) == imports_of(edges, v)[j]);
        lemma_close_import_closed(edges, state, path, root, at, i, b);
    }
    // Finished modules left on the stack keep their imports settled.
    assert forall|k: int|
        0 <= k < closed.stack.len() && !path.contains(#[trigger] closed.stack[k]) implies imports_settled(
        edges,
        closed,
        closed.stack[k],
        imports_of(edges, closed.stack[k]).len() as int,
    ) by {
        let a = state.stack[k];
        assert(closed.stack[k] == a);
        assert(a != root) by {
            if a == root {
                lemma_stack_distinct(edges, state, k, at);
            }
        }
        assert(!extended.contains(a)) by {
            if extended.contains(a) {
                let q = choose|q: int| 0 <= q < extended.len() && extended[q] == a;
                assert(path[q] == a);
            }
        }
        assert(imports_settled(edges, state, a, imports_of(edges, a).len() as int));
    }
    // The imports of a closed module are closed.
    assert forall|c: int, j: int|
        0 <= c < n && popped(closed, c) && 0 <= j < imports_of(edges, ModuleId(c as u32)).len() && (
        #[trigger] imports_of(edges, ModuleId(c as u32))[j].0 as int) < n implies popped(
        closed,
        imports_of(edges, ModuleId(c as u32))[j].0 as int,
    ) by {
        if !popped(state, c) {
            assert(popped_mark(state.stack, at, c));
            let i = choose|i: int| at <= i < state.stack.len() && state.stack[i].0 as int == c;
            assert(state.stack[i] == ModuleId(c as u32));
            assert(imports_of(edges, state.stack[i])[j] == imports_of(edges, ModuleId(c as u32))[j]);
        }
    }
    assert(imports_closed(edges, closed));
    lemma_close_groups(edges, state, path, root, at);
    // A closed module on a cycle has been reported.
    assert(closed.out.take(state.out.len() as int) =~= state.out);
    assert forall|c: int|
        0 <= c < n && #[trigger] popped(closed, c) && on_cycle(edges, ModuleId(c as u32)) implies reported(
        closed.out,
        ModuleId(c as u32),
    ) by {
        if popped(state, c) {
            lemma_reported_kept(state.out, closed.out, ModuleId(c as u32));
        } else {
            assert(popped_mark(state.stack, at, c));
            let i = choose|i: int| at <= i < state.stack.len() && state.stack[i].0 as int == c;
            assert(state.stack[i] == ModuleId(c as u32));
            lemma_close_reports(edges, state, path, root, at, i);
        }
    }
}

/// Closing a root keeps the reported groups apart and whole: the group it adds is exactly the
/// modules it pops, none of them closed before, and everything that reaches one of them and
/// is reached from it is popped with it.
#[verifier::spinoff_prover]
#[verifier::rlimit(40)]
proof fn lemma_close_groups(
    edges: Seq<Seq<ModuleId>>,
    state: TarjanState,
    path: Seq<ModuleId>,
    root: ModuleId,
    at: int,
)
    requires
        walk_ok(edges, state, path.push(root)),
        complete_ok(edges, state, path.push(root)),
        0 <= at < state.stack.len(),
        state.stack[at] == root,
        imports_closed(edges, tarjan_close(edges, root, state)),
    ensures
        groups_ok(edges, tarjan_close(edges, root, state)),
{
    let n = edges.len() as int;
    reveal(complete_ok);
    lemma_stack_shaped(edges, state);
    lemma_close_stack(edges, state, root, at);
    assert forall|i: int| at < i < state.stack.len() implies state.stack[i] != root by {
        if state.stack[i] == root {
            lemma_stack_distinct(edges, state, i, at);
        }
    }
    lemma_pop(state.stack, state.on_stack, Seq::empty(), root, at);
    let taken = tarjan_pop(state.stack, state.on_stack, Seq::empty(), root);
    let closed = tarjan_close(edges, root, state);
    let top = state.stack.skip(at);
    assert(closed.on_stack == taken.1);
    assert(taken.2 =~= top.reverse());
    assert(taken.2.reverse() =~= top);
    assert forall|k: int| 0 <= k < n && #[trigger] popped(state, k) implies popped(closed, k) by {}
    assert forall|q: int| 0 <= q < top.len() implies ((#[trigger] top[q]).0 as int) < n && popped(
        closed,
        top[q].0 as int,
    ) && !popped(state, top[q].0 as int) by {
        assert(top[q] == state.stack[at + q]);
        lemma_stack_entry(edges, state, at + q);
        assert(popped_mark(state.stack, at, top[q].0 as int));
    }
    if is_cycle(edges, taken.2) {
        let last = state.out.len() as int;
        assert(closed.out == state.out.push(top));
        assert forall|g: int, i: int|
            0 <= g < closed.out.len() && 0 <= i < closed.out[g].len() implies ((#[trigger] closed.out[g][i]).0 as int)
            < n && popped(closed, closed.out[g][i].0 as int) by {
            if g < last {
                assert(closed.out[g] == state.out[g]);
                assert(state.out[g][i] == closed.out[g][i]);
            } else {
                assert(closed.out[g][i] == top[i]);
            }
        }
        assert forall|g: int, h: int, i: int, j: int|
            0 <= g < h < closed.out.len() && 0 <= i < closed.out[g].len() && 0 <= j < closed.out[h].len()
                implies #[trigger] closed.out[g][i] != #[trigger] closed.out[h][j] by {
            assert(closed.out[g] == state.out[g]);
            assert(state.out[g][i] == closed.out[g][i]);
            if h < last {
                assert(closed.out[h] == state.out[h]);
                assert(state.out[h][j] == closed.out[h][j]);
            } else {
                assert(closed.out[h][j] == top[j]);
                assert(popped(state, state.out[g][i].0 as int));
            }
        }
        assert forall|g: int, i: int, y: ModuleId|
            0 <= g < closed.out.len() && 0 <= i < closed.out[g].len() && reaches(
                edges,
                #[trigger] closed.out[g][i],
                y,
            ) && #[trigger] reaches(edges, y, closed.out[g][i]) implies closed.out[g].contains(y) by {
            if g < last {
                assert(closed.out[g] == state.out[g]);
                assert(state.out[g][i] == closed.out[g][i]);
            } else {
                let x = top[i];
                assert(closed.out[g][i] == x);
                let there = choose|walk: Seq<ModuleId>|
                    #[trigger] crate::ordering::is_walk(edges, walk) && walk[0] == x && walk.last() == y;
                let back = choose|walk: Seq<ModuleId>|
                    #[trigger] crate::ordering::is_walk(edges, walk) && walk[0] == y && walk.last() == x;
                lemma_popped_reach(edges, closed, there);
                assert(y.0 < n) by {
                    assert(there[there.len() - 1].0 < n);
                }
                if popped(state, y.0 as int) {
                    lemma_popped_reach(edges, state, back);
                }
                assert(popped_mark(state.stack, at, y.0 as int));
                let q = choose|q: int| at <= q < state.stack.len() && state.stack[q].0 as int == y.0 as int;
                assert(state.stack[q] == y);
                assert(top[q - at] == y);
            }
        }
    } else {
        assert(closed.out == state.out);
    }
}

/// A module popped with a closing root that lies on a cycle is in the group reported.
#[verifier::spinoff_prover]
proof fn lemma_close_reports(
    edges: Seq<Seq<ModuleId>>,
    state: TarjanState,
    path: Seq<ModuleId>,
    root: ModuleId,
    at: int,
    i: int,
)
    requires
        walk_ok(edges, state, path.push(root)),
        complete_ok(edges, state, path.push(root)),
        0 <= at <= i < state.stack.len(),
        state.stack[at] == root,
        forall|k: int| at < k < state.stack.len() ==> state.stack[k] != root,
        on_cycle(edges, state.stack[i]),
        forall|j: int|
            0 <= j < imports_of(edges, root).len() && (#[trigger] imports_of(edges, root)[j].0 as int)
                < edges.len() ==> popped(tarjan_close(edges, root, state), imports_of(edges, root)[j].0 as int),
    ensures
        reported(tarjan_close(edges, root, state).out, state.stack[i]),
{
    let n = edges.len() as int;
    lemma_close_stack(edges, state, root, at);
    lemma_pop(state.stack, state.on_stack, Seq::empty(), root, at);
    let taken = tarjan_pop(state.stack, state.on_stack, Seq::empty(), root);
    let group = taken.2;
    let closed = tarjan_close(edges, root, state);
    assert(group =~= state.stack.skip(at).reverse());
    lemma_stack_shaped(edges, state);
    lemma_stack_entry(edges, state, at);
    assert(is_cycle(edges, group)) by {
        if group.len() == 1 {
            assert(i == at);
            assert(group[0] == root);
            let step = choose|step: ModuleId| #[trigger] imports_of(edges, root).contains(step) && reaches(edges, step, root);
            let walk = choose|walk: Seq<ModuleId>|
                #[trigger] crate::ordering::is_walk(edges, walk) && walk[0] == step && walk.last() == root;
            assert(walk[0].0 < n);
            let j = choose|j: int| 0 <= j < imports_of(edges, root).len() && imports_of(edges, root)[j] == step;
            assert(popped(closed, step.0 as int));
            if step != root {
                if state.on_stack[step.0 as int] {
                    assert(popped_mark(state.stack, at, step.0 as int));
                    let q = choose|q: int| at <= q < state.stack.len() && state.stack[q].0 as int == step.0 as int;
                    assert(q == at);
                } else {
                    reveal(complete_ok);
                    lemma_popped_reach(edges, state, walk);
                }
            }
        }
    }
    assert(closed.out == state.out.push(group.reverse()));
    assert(group.reverse() =~= state.stack.skip(at));
    let g = state.out.len() as int;
    assert(closed.out[g][i - at] == state.stack[i]);
}

/// A visit of an unnumbered module keeps what completeness needs and what was below it;
/// a module left open has its imports settled.
#[verifier::spinoff_prover]
proof fn lemma_visit_complete(edges: Seq<Seq<ModuleId>>, module: ModuleId, state: TarjanState, path: Seq<ModuleId>)
    requires
        walk_ok(edges, state, path),
        complete_ok(edges, state, path),
        (module.0 as int) < edges.len(),
        state.index[module.0 as int] is None,
        path.len() > 0 ==> reaches(edges, path.last(), module),
    ensures
        ({
            let visited = tarjan_visit(edges, module, state);
            &&& kept_below(state, visited, state.stack.len() as int, module)
            &&& visited.low[module.0 as int] as int == num(visited, module) ==> complete_ok(edges, visited, path)
            &&& (visited.low[module.0 as int] as int) < num(visited, module) ==> {
                &&& complete_ok(edges, visited, path.push(module))
                &&& imports_settled(edges, visited, module, imports_of(edges, module).len() as int)
            }
        }),
    decreases count_unnumbered(state.index), 0int, 0int,
{
    let at = module.0 as int;
    let base = state.stack.len() as int;
    lemma_stack_shaped(edges, state);
    lemma_enter(edges, state, path, module);
    lemma_count_number(state.index, at, state.next_index);
    let entered = tarjan_enter(state, module);
    let extended = path.push(module);
    assert(extended.last() == module);
    lemma_enter_complete(edges, state, path, module);
    lemma_enter_kept(edges, state, module, module);
    lemma_imports_sound(edges, module, 0, entered, extended);
    lemma_imports_complete(edges, module, 0, entered, extended);
    let walked = tarjan_imports(edges, module, 0, entered);
    lemma_kept_lower_base(entered, walked, entered.stack.len() as int, base, module);
    lemma_kept_trans(state, entered, walked, base, module);
    if walked.index[at] == Some(walked.low[at]) {
        assert(walked.stack[base] == module) by {
            assert(walked.stack.take(entered.stack.len() as int)[base] == walked.stack[base]);
            assert(entered.stack[base] == module);
        }
        lemma_close(edges, walked, path, module);
        let closed = tarjan_close(edges, module, walked);
        lemma_close_kept(edges, walked, module, base, base, module);
        lemma_kept_trans(state, walked, closed, base, module);
        lemma_close_complete(edges, walked, path, module);
        assert(tarjan_visit(edges, module, state) == closed);
    } else {
        assert(tarjan_visit(edges, module, state) == walked);
    }
}

/// A walk over the newest visited module's imports keeps what completeness needs and what
/// was below it, and settles every import it passes.
#[verifier::spinoff_prover]
#[verifier::rlimit(30)]
proof fn lemma_imports_complete(
    edges: Seq<Seq<ModuleId>>,
    module: ModuleId,
    next: int,
    state: TarjanState,
    path: Seq<ModuleId>,
)
    requires
        walk_ok(edges, state, path),
        complete_ok(edges, state, path),
        path.len() > 0,
        path.last() == module,
        0 <= next,
        imports_settled(edges, state, module, next),
    ensures
        ({
            let end = tarjan_imports(edges, module, next, state);
            &&& complete_ok(edges, end, path)
            &&& imports_settled(edges, end, module, imports_of(edges, module).len() as int)
            &&& kept_below(state, end, state.stack.len() as int, module)
        }),
    decreases count_unnumbered(state.index), 0int, imports_of(edges, module).len() - next,
{
    let imports = imports_of(edges, module);
    let base = state.stack.len() as int;
    lemma_stack_shaped(edges, state);
    assert(path[path.len() - 1] == module);
    lemma_path_on_stack(edges, state, path, path.len() - 1);
    let m_pos = lemma_stack_position(state.stack, module);
    lemma_stack_entry(edges, state, m_pos);
    if next >= imports.len() {
        lemma_kept_refl(state, base, module);
    } else {
        let child = imports[next];
        let at = child.0 as int;
        assert(imports.contains(child));
        if at >= edges.len() {
            lemma_skip_settled(edges, state, module, next);
            lemma_imports_complete(edges, module, next + 1, state, path);
        } else if state.index[at] is None {
            lemma_reaches_import(edges, module, child);
            lemma_visit_sound(edges, child, state, path);
            lemma_visit_complete(edges, child, state, path);
            let after = tarjan_visit(edges, child, state);
            lemma_stack_shaped(edges, after);
            assert(keeps_numbers(state.index, after.index));
            lemma_count_strict(state.index, after.index, at);
            lemma_settled_after_visit(edges, state, after, module, next, child);
            let lowered = tarjan_lower(after, module, after.low[at]);
            assert(num(state, module) < state.next_index) by {
                reveal(stack_ok);
            }
            if walk_ok(edges, after, path) && after.low[at] as int == num(after, child) {
                assert(after.index[module.0 as int] == state.index[module.0 as int]);
                lemma_root_return(edges, after, path, module, child);
                lemma_low_below(edges, state, m_pos);
                assert(imports_settled(edges, after, module, next + 1));
            } else {
                lemma_lower_return(edges, after, path, module, child);
                lemma_return_complete(edges, after, path, module, next, child);
            }
            assert forall|i: int| 0 <= i < base implies state.stack[i] != child by {
                lemma_stack_entry(edges, state, i);
            }
            lemma_kept_any_except(state, after, base, child, module);
            lemma_lower_kept(edges, after, module, after.low[at], base, module);
            lemma_kept_trans(state, after, lowered, base, module);
            lemma_stack_shaped(edges, lowered);
            lemma_imports_complete(edges, module, next + 1, lowered, path);
            let end = tarjan_imports(edges, module, next + 1, lowered);
            lemma_kept_lower_base(lowered, end, lowered.stack.len() as int, base, module);
            lemma_kept_trans(state, lowered, end, base, module);
        } else if state.on_stack[at] {
            let lowered = tarjan_lower(state, module, state.index[at]->0);
            lemma_lower_back(edges, state, path, module, child);
            lemma_lower_back_complete(edges, state, path, module, next);
            lemma_lower_kept(edges, state, module, state.index[at]->0, base, module);
            lemma_imports_complete(edges, module, next + 1, lowered, path);
            let end = tarjan_imports(edges, module, next + 1, lowered);
            lemma_kept_lower_base(lowered, end, lowered.stack.len() as int, base, module);
            lemma_kept_trans(state, lowered, end, base, module);
        } else {
            lemma_skip_settled(edges, state, module, next);
            lemma_imports_complete(edges, module, next + 1, state, path);
        }
    }
}

/// The outer loop keeps what completeness needs, and numbers every module.
proof fn lemma_from_complete(edges: Seq<Seq<ModuleId>>, from: int, state: TarjanState)
    requires
        walk_ok(edges, state, Seq::empty()),
        complete_ok(edges, state, Seq::empty()),
        0 <= from,
        forall|k: int| 0 <= k < from && k < edges.len() ==> (#[trigger] state.index[k]) is Some,
    ensures
        complete_ok(edges, tarjan_from(edges, from, state), Seq::empty()),
        forall|k: int| 0 <= k < edges.len() ==> (#[trigger] tarjan_from(edges, from, state).index[k]) is Some,
    decreases edges.len() - from,
{
    if from < edges.len() {
        lemma_stack_shaped(edges, state);
        let next = if state.index[from] is None {
            let module = ModuleId(from as u32);
            lemma_visit_sound(edges, module, state, Seq::empty());
            lemma_visit_complete(edges, module, state, Seq::empty());
            let visited = tarjan_visit(edges, module, state);
            if !(walk_ok(edges, visited, Seq::empty()) && visited.low[module.0 as int] as int == num(
                visited,
                module,
            )) {
                assert(Seq::<ModuleId>::empty().push(module) =~= seq![module]);
                lemma_top_closes(edges, visited, module);
            }
            visited
        } else {
            state
        };
        assert forall|k: int| 0 <= k < from + 1 && k < edges.len() implies (#[trigger] next.index[k]) is Some by {
            if k < from {
                assert(state.index[k] is Some);
            }
        }
        lemma_from_complete(edges, from + 1, next);
    }
}

/// The walk ends with every module closed and what completeness keeps in place.
proof fn lemma_final(edges: Seq<Seq<ModuleId>>)
    requires
        imports_in_range(edges),
        edges.len() <= u32::MAX,
    ensures
        complete_ok(edges, tarjan_from(edges, 0, tarjan_initial(edges.len())), Seq::empty()),
        forall|c: int|
            0 <= c < edges.len() ==> #[trigger] popped(tarjan_from(edges, 0, tarjan_initial(edges.len())), c),
{
    let initial = tarjan_initial(edges.len());
    lemma_initial_sound(edges);
    assert(complete_ok(edges, initial, Seq::empty())) by {
        reveal(complete_ok);
    }
    lemma_from_complete(edges, 0, initial);
    lemma_from_sound(edges, 0, initial);
    let last = tarjan_from(edges, 0, initial);
    assert forall|c: int| 0 <= c < edges.len() implies #[trigger] popped(last, c) by {
        assert(last.index[c] is Some);
        reveal(stack_ok);
        reveal(path_ok);
    }
}

/// The final state's groups are the reported cycles.
proof fn lemma_final_groups(edges: Seq<Seq<ModuleId>>)
    requires
        imports_in_range(edges),
        edges.len() <= u32::MAX,
    ensures
        groups_ok(edges, tarjan_from(edges, 0, tarjan_initial(edges.len()))),
        tarjan_from(edges, 0, tarjan_initial(edges.len())).out == tarjan_cycles(edges),
{
    lemma_final(edges);
    reveal(complete_ok);
}

/// Every module that lies on a cycle is in some reported cycle: no cycle is missed.
pub proof fn law_every_cycle_is_reported(graph: &ModuleGraph, module: ModuleId)
    requires
        graph.wf(),
        imports_in_range(graph.edges()),
        graph.edges().len() <= u32::MAX,
        on_cycle(graph.edges(), module),
    ensures
        reported(tarjan_cycles(graph.edges()), module),
{
    let edges = graph.edges();
    let n = edges.len() as int;
    let step = choose|step: ModuleId| #[trigger] imports_of(edges, module).contains(step) && reaches(edges, step, module);
    let walk = choose|walk: Seq<ModuleId>|
        #[trigger] crate::ordering::is_walk(edges, walk) && walk[0] == step && walk.last() == module;
    assert(walk[walk.len() - 1].0 < n);
    lemma_final(edges);
    let c = module.0 as int;
    assert(ModuleId(c as u32) == module);
    assert(popped(tarjan_from(edges, 0, tarjan_initial(edges.len())), c));
    reveal(complete_ok);
}

/// Each reported cycle is a nonempty group of distinct modules, and no module is in two of
/// them.
pub proof fn law_cycle_groups_are_disjoint(graph: &ModuleGraph, g: int, h: int, i: int, j: int)
    requires
        graph.wf(),
        imports_in_range(graph.edges()),
        graph.edges().len() <= u32::MAX,
        0 <= g < tarjan_cycles(graph.edges()).len(),
        0 <= h < tarjan_cycles(graph.edges()).len(),
        0 <= i < tarjan_cycles(graph.edges())[g].len(),
        0 <= j < tarjan_cycles(graph.edges())[h].len(),
    ensures
        tarjan_cycles(graph.edges())[g].len() >= 1,
        tarjan_cycles(graph.edges())[g].no_duplicates(),
        g != h ==> tarjan_cycles(graph.edges())[g][i] != tarjan_cycles(graph.edges())[h][j],
{
    let edges = graph.edges();
    let out = tarjan_cycles(edges);
    lemma_initial_sound(edges);
    lemma_from_sound(edges, 0, tarjan_initial(edges.len()));
    reveal(out_ok);
    assert(component_ok(edges, out[g]));
    lemma_final_groups(edges);
    if g > h {
        assert(out[h][j] != out[g][i]);
    }
}

/// Every reported cycle holds at least one module, and a group of one is a module that
/// imports itself.
pub proof fn law_cycle_groups_are_nonempty(graph: &ModuleGraph, g: int)
    requires
        graph.wf(),
        imports_in_range(graph.edges()),
        graph.edges().len() <= u32::MAX,
        0 <= g < tarjan_cycles(graph.edges()).len(),
    ensures
        tarjan_cycles(graph.edges())[g].len() >= 1,
        tarjan_cycles(graph.edges())[g].len() == 1 ==> imports_of(
            graph.edges(),
            tarjan_cycles(graph.edges())[g][0],
        ).contains(tarjan_cycles(graph.edges())[g][0]),
{
    let edges = graph.edges();
    lemma_initial_sound(edges);
    lemma_from_sound(edges, 0, tarjan_initial(edges.len()));
    reveal(out_ok);
    assert(component_ok(edges, tarjan_cycles(edges)[g]));
}

/// Two modules that reach each other through imports are reported in one cycle together.
pub proof fn law_mutually_reaching_modules_share_a_cycle(graph: &ModuleGraph, m: ModuleId, n: ModuleId)
    requires
        graph.wf(),
        imports_in_range(graph.edges()),
        graph.edges().len() <= u32::MAX,
        m != n,
        reaches(graph.edges(), m, n),
        reaches(graph.edges(), n, m),
    ensures
        exists|g: int|
            0 <= g < tarjan_cycles(graph.edges()).len() && (#[trigger] tarjan_cycles(graph.edges())[g]).contains(m)
                && tarjan_cycles(graph.edges())[g].contains(n),
{
    let edges = graph.edges();
    let path = choose|path: Seq<ModuleId>| #[trigger] crate::ordering::is_walk(edges, path) && path[0] == m && path.last() == n;
    assert(path.len() >= 2) by {
        if path.len() == 1 {
            assert(path[0] == path.last());
        }
    }
    let tail = path.skip(1);
    assert(crate::ordering::is_walk(edges, tail)) by {
        assert forall|i: int| 0 <= i < tail.len() implies (#[trigger] tail[i]).0 < edges.len() by {
            assert(tail[i] == path[i + 1]);
        }
        assert forall|i: int| 0 <= i < tail.len() - 1 implies imports_of(edges, #[trigger] tail[i]).contains(tail[i + 1]) by {
            assert(tail[i] == path[i + 1]);
            assert(tail[i + 1] == path[i + 2]);
        }
    }
    assert(tail.last() == n);
    assert(reaches(edges, path[1], n));
    assert(imports_of(edges, path[0]).contains(path[1]));
    lemma_reaches_trans(edges, path[1], n, m);
    assert(on_cycle(edges, m));
    law_every_cycle_is_reported(graph, m);
    let out = tarjan_cycles(edges);
    let (g, i) = choose|g: int, i: int| 0 <= g < out.len() && 0 <= i < out[g].len() && #[trigger] out[g][i] == m;
    lemma_final_groups(edges);
    assert(out[g].contains(n)) by {
        assert(reaches(edges, out[g][i], n));
        assert(reaches(edges, n, out[g][i]));
    }
    assert(out[g].contains(m)) by {
        assert(out[g][i] == m);
    }
}

} // verus!
