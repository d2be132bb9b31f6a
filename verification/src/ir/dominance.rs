//! Which blocks dominate each block.
//!
//! The iterative algorithm: the entry is dominated by itself alone, and every other block by
//! itself and by everything that dominates all of its predecessors, run to a fixed point from
//! "dominated by everything". Unreachable code is not reported against: a block no source
//! reaches keeps whatever the fixed point leaves it with, which is as much as is consistent.
//!
//! The result is stated over paths: `d` dominates `b` when every path into `b` from a source
//! (the entry, or a block nothing jumps to) passes through `d`.

use vstd::prelude::*;

use crate::ir::function::{successors_of, BlockId, Function};

verus! {

/// `from` can jump to `to`.
pub open spec fn jumps_to(function: Function, from: int, to: int) -> bool {
    &&& 0 <= from < function.blocks@.len()
    &&& 0 <= to < function.blocks@.len()
    &&& successors_of(function.blocks@[from].terminator).contains(BlockId(to as u32))
}

/// Where a walk into a block may start: the entry, or a block nothing jumps to.
pub open spec fn is_source(function: Function, block: int) -> bool {
    block == function.entry.0 as int || !exists|from: int| #[trigger] jumps_to(function, from, block)
}

/// `path` follows jumps between blocks of `function`.
pub open spec fn is_path(function: Function, path: Seq<int>) -> bool {
    &&& path.len() > 0
    &&& forall|k: int| 0 <= k < path.len() ==> 0 <= #[trigger] path[k] < function.blocks@.len()
    &&& forall|k: int| 0 <= k < path.len() - 1 ==> #[trigger] jumps_to(function, path[k], path[k + 1])
}

/// `dominator` dominates `block`: it is the block itself, or every path into `block` from a
/// source passes through it.
pub open spec fn dominates(function: Function, dominator: int, block: int) -> bool {
    dominator == block || forall|path: Seq<int>|
        #![trigger is_path(function, path), path.last()]
        is_path(function, path) && is_source(function, path[0]) && path.last() == block
            ==> path.contains(dominator)
}

/// One step of the iteration for a block other than the entry: itself, and everything that
/// dominates every predecessor; only itself when it has none.
pub open spec fn step_for(function: Function, sets: Seq<Seq<bool>>, block: int, dominator: int) -> bool {
    dominator == block || ((exists|from: int| #[trigger] jumps_to(function, from, block))
        && forall|from: int| #[trigger] jumps_to(function, from, block) ==> sets[from][dominator])
}

/// `sets` covers every block with one mark per block.
pub open spec fn square(sets: Seq<Seq<bool>>, count: int) -> bool {
    &&& sets.len() == count
    &&& forall|b: int| 0 <= b < count ==> (#[trigger] sets[b]).len() == count
}

/// How many marks are set in all of `sets`.
pub open spec fn marks(sets: Seq<Seq<bool>>) -> nat
    decreases sets.len(),
{
    if sets.len() == 0 {
        0
    } else {
        marks(sets.drop_last()) + set_count(sets.last())
    }
}

/// How many marks are set in one set.
pub open spec fn set_count(set: Seq<bool>) -> nat
    decreases set.len(),
{
    if set.len() == 0 {
        0
    } else {
        set_count(set.drop_last()) + if set.last() {
            1nat
        } else {
            0nat
        }
    }
}

/// A set that only loses marks has no more of them, and strictly fewer if it lost one.
proof fn lemma_set_count_shrinks(before: Seq<bool>, after: Seq<bool>)
    requires
        before.len() == after.len(),
        forall|k: int| 0 <= k < after.len() && #[trigger] after[k] ==> before[k],
    ensures
        set_count(after) <= set_count(before),
        after != before ==> set_count(after) < set_count(before),
    decreases before.len(),
{
    if before.len() == 0 {
        assert(after =~= before);
    } else {
        assert(after[after.len() - 1] ==> before[before.len() - 1]);
        lemma_set_count_shrinks(before.drop_last(), after.drop_last());
        if after != before && after.last() == before.last() && after.drop_last() == before.drop_last() {
            assert forall|k: int| 0 <= k < after.len() implies after[k] == before[k] by {
                if k < after.len() - 1 {
                    assert(after.drop_last()[k] == before.drop_last()[k]);
                }
            }
            assert(after =~= before);
        }
    }
}

/// Replacing one set by one with no more marks lowers the total accordingly.
proof fn lemma_marks_update(sets: Seq<Seq<bool>>, at: int, set: Seq<bool>)
    requires
        0 <= at < sets.len(),
        set_count(set) <= set_count(sets[at]),
    ensures
        marks(sets.update(at, set)) + set_count(sets[at]) == marks(sets) + set_count(set),
    decreases sets.len(),
{
    let updated = sets.update(at, set);
    if at == sets.len() - 1 {
        assert(updated.drop_last() =~= sets.drop_last());
    } else {
        assert(updated.drop_last() =~= sets.drop_last().update(at, set));
        lemma_marks_update(sets.drop_last(), at, set);
    }
}

/// A fixed point of the iteration contains only real dominators: a path from a source into
/// `path.last()` that avoided a marked dominator would have to leave the fixed point.
proof fn lemma_fixpoint_sound(function: Function, sets: Seq<Seq<bool>>, path: Seq<int>, dominator: int)
    requires
        square(sets, function.blocks@.len() as int),
        is_path(function, path),
        is_source(function, path[0]),
        0 <= dominator < function.blocks@.len(),
        sets[path.last()][dominator],
        (function.entry.0 as int) < function.blocks@.len() ==> forall|d: int|
            0 <= d < function.blocks@.len() ==> (#[trigger] sets[function.entry.0 as int][d]
                == (d == function.entry.0 as int)),
        forall|b: int, d: int|
            0 <= b < function.blocks@.len() && 0 <= d < function.blocks@.len() && b
                != function.entry.0 as int ==> (#[trigger] sets[b][d] == step_for(function, sets, b, d)),
    ensures
        path.contains(dominator),
    decreases path.len(),
{
    let last = path.last();
    if dominator == last {
        assert(path[path.len() - 1] == dominator);
    } else if last == function.entry.0 as int {
    } else if path.len() == 1 {
        assert(path[0] == last);
        assert(is_source(function, last));
        assert(!exists|from: int| #[trigger] jumps_to(function, from, last));
    } else {
        let before = path.drop_last();
        let k = path.len() - 2;
        assert(jumps_to(function, path[k], path[k + 1]));
        assert(path[k + 1] == last);
        assert(jumps_to(function, path[path.len() - 2], last));
        assert(before.last() == path[path.len() - 2]);
        assert(0 <= path[path.len() - 1] < function.blocks@.len());
        assert(sets[last][dominator] == step_for(function, sets, last, dominator));
        assert(step_for(function, sets, last, dominator));
        assert(sets[before.last()][dominator]);
        assert forall|k: int| 0 <= k < before.len() - 1 implies #[trigger] jumps_to(function, before[k], before[k + 1]) by {
            assert(jumps_to(function, path[k], path[k + 1]));
        }
        lemma_fixpoint_sound(function, sets, before, dominator);
        let k = choose|k: int| 0 <= k < before.len() && before[k] == dominator;
        assert(path[k] == dominator);
    }
}

/// What every dominator of a predecessor that is not `block` itself also dominates.
proof fn lemma_dominates_through(function: Function, from: int, block: int, dominator: int)
    requires
        jumps_to(function, from, block),
        dominates(function, dominator, block),
        dominator != block,
        block != function.entry.0 as int,
    ensures
        dominates(function, dominator, from),
{
    assert forall|path: Seq<int>|
        is_path(function, path) && is_source(function, path[0]) && path.last() == from
        implies path.contains(dominator) by {
        let longer = path.push(block);
        assert(longer[0] == path[0]);
        assert forall|k: int| 0 <= k < longer.len() - 1 implies #[trigger] jumps_to(function, longer[k], longer[k + 1]) by {
            if k < path.len() - 1 {
                assert(jumps_to(function, path[k], path[k + 1]));
            }
        }
        assert(is_path(function, longer));
        assert(longer.last() == block);
        assert(longer.contains(dominator));
        let k = choose|k: int| 0 <= k < longer.len() && longer[k] == dominator;
        assert(k < path.len());
        assert(path[k] == dominator);
    }
}

/// The blocks that dominate each block, as one mark per block: `sets[b][d]` holds exactly
/// when `d` dominates `b`.
pub fn dominators(function: &Function) -> (sets: Vec<Vec<bool>>)
    requires
        function.blocks@.len() <= u32::MAX + 1,
    ensures
        sets@.len() == function.blocks@.len(),
        forall|b: int| 0 <= b < function.blocks@.len() ==> (#[trigger] sets@[b])@.len() == function.blocks@.len(),
        forall|b: int, d: int|
            0 <= b < function.blocks@.len() && 0 <= d < function.blocks@.len() ==> (
            #[trigger] sets@[b]@[d] == dominates(*function, d, b)),
{
    let count = function.blocks.len();
    let ghost f = *function;

    // Predecessors of every block, from every in-range successor edge.
    let mut predecessors: Vec<Vec<usize>> = Vec::with_capacity(count);
    let mut k: usize = 0;
    while k < count
        invariant
            0 <= k <= count,
            predecessors@.len() == k,
            forall|b: int| 0 <= b < k ==> (#[trigger] predecessors@[b])@.len() == 0,
        decreases count - k,
    {
        predecessors.push(Vec::new());
        k = k + 1;
    }
    let mut raw: usize = 0;
    while raw < count
        invariant
            0 <= raw <= count,
            count == f.blocks@.len(),
            count <= u32::MAX + 1,
            f == *function,
            predecessors@.len() == count,
            forall|b: int, j: int|
                0 <= b < count && 0 <= j < predecessors@[b]@.len() ==> {
                    &&& (#[trigger] predecessors@[b]@[j]) < raw
                    &&& jumps_to(f, predecessors@[b]@[j] as int, b)
                },
            forall|b: int, from: int|
                0 <= b < count && 0 <= from < raw && #[trigger] jumps_to(f, from, b) ==> predecessors@[b]@.contains(
                    from as usize,
                ),
        decreases count - raw,
    {
        let successors = function.blocks[raw].terminator.successors();
        let mut s: usize = 0;
        while s < successors.len()
            invariant
                0 <= raw < count,
                count == f.blocks@.len(),
                count <= u32::MAX + 1,
                f == *function,
                successors@ == successors_of(f.blocks@[raw as int].terminator),
                0 <= s <= successors@.len(),
                predecessors@.len() == count,
                forall|b: int, j: int|
                    0 <= b < count && 0 <= j < predecessors@[b]@.len() ==> {
                        &&& (#[trigger] predecessors@[b]@[j]) <= raw
                        &&& jumps_to(f, predecessors@[b]@[j] as int, b)
                    },
                forall|b: int, from: int|
                    0 <= b < count && 0 <= from < raw && #[trigger] jumps_to(f, from, b) ==> predecessors@[b]@.contains(
                        from as usize,
                    ),
                forall|b: int|
                    0 <= b < count && #[trigger] successors@.subrange(0, s as int).contains(BlockId(b as u32))
                        ==> predecessors@[b]@.contains(raw),
            decreases successors@.len() - s,
        {
            let target = successors[s].0 as usize;
            if target < count {
                let ghost before = predecessors@;
                predecessors[target].push(raw);
                proof {
                    assert forall|b: int, j: int|
                        0 <= b < count && 0 <= j < predecessors@[b]@.len() implies {
                            &&& (#[trigger] predecessors@[b]@[j]) <= raw
                            &&& jumps_to(f, predecessors@[b]@[j] as int, b)
                        } by {
                        if b == target as int && j == before[b]@.len() {
                            assert(successors@[s as int] == BlockId(b as u32));
                            assert(successors_of(f.blocks@[raw as int].terminator).contains(BlockId(b as u32)));
                        } else {
                            assert(predecessors@[b]@[j] == before[b]@[j]);
                        }
                    }
                    assert forall|b: int, from: int|
                        0 <= b < count && 0 <= from < raw && #[trigger] jumps_to(f, from, b) implies predecessors@[b]@.contains(
                            from as usize,
                        ) by {
                        assert(before[b]@.contains(from as usize));
                        let j = choose|j: int| 0 <= j < before[b]@.len() && before[b]@[j] == from as usize;
                        assert(predecessors@[b]@[j] == from as usize);
                    }
                    assert forall|b: int|
                        0 <= b < count && #[trigger] successors@.subrange(0, s + 1).contains(BlockId(b as u32))
                        implies predecessors@[b]@.contains(raw) by {
                        let j = choose|j: int| 0 <= j < s + 1 && #[trigger] successors@.subrange(0, s + 1)[j] == BlockId(b as u32);
                        if j < s {
                            assert(successors@.subrange(0, s as int)[j] == BlockId(b as u32));
                            assert(successors@.subrange(0, s as int).contains(BlockId(b as u32)));
                            assert(before[b]@.contains(raw));
                            let i = choose|i: int| 0 <= i < before[b]@.len() && before[b]@[i] == raw;
                            assert(predecessors@[b]@[i] == raw);
                        } else {
                            assert(successors@[s as int] == BlockId(b as u32));
                            assert(b == target as int);
                            assert(predecessors@[b]@[before[b]@.len() as int] == raw);
                        }
                    }
                }
            } else {
                proof {
                    assert forall|b: int|
                        0 <= b < count && #[trigger] successors@.subrange(0, s + 1).contains(BlockId(b as u32))
                        implies predecessors@[b]@.contains(raw) by {
                        let j = choose|j: int| 0 <= j < s + 1 && #[trigger] successors@.subrange(0, s + 1)[j] == BlockId(b as u32);
                        if j < s {
                            assert(successors@.subrange(0, s + 1)[j] == successors@.subrange(0, s as int)[j]);
                            assert(successors@.subrange(0, s as int).contains(BlockId(b as u32)));
                        } else {
                            assert(successors@.subrange(0, s + 1)[j] == successors@[s as int]);
                            assert(successors@[s as int].0 == b as u32);
                            assert((b as u32) as int == b);
                            assert(false);
                        }
                    }
                }
            }
            s = s + 1;
        }
        proof {
            assert(successors@.subrange(0, successors@.len() as int) =~= successors@);
            assert forall|b: int, from: int|
                0 <= b < count && 0 <= from < raw + 1 && #[trigger] jumps_to(f, from, b) implies predecessors@[b]@.contains(
                    from as usize,
                ) by {
                if from == raw {
                    assert(successors@.contains(BlockId(b as u32)));
                }
            }
        }
        raw = raw + 1;
    }

    // Every set starts full, except the entry's, which is the entry alone.
    let entry = function.entry.0 as usize;
    let mut sets: Vec<Vec<bool>> = Vec::with_capacity(count);
    let mut b: usize = 0;
    while b < count
        invariant
            0 <= b <= count,
            sets@.len() == b,
            forall|i: int| 0 <= i < b ==> (#[trigger] sets@[i])@.len() == count,
            forall|i: int, d: int|
                0 <= i < b && 0 <= d < count ==> (#[trigger] sets@[i]@[d] == if i == entry as int {
                    d == entry as int
                } else {
                    true
                }),
        decreases count - b,
    {
        let mut set: Vec<bool> = Vec::with_capacity(count);
        let mut d: usize = 0;
        while d < count
            invariant
                0 <= d <= count,
                set@.len() == d,
                forall|j: int| 0 <= j < d ==> (#[trigger] set@[j] == if b == entry {
                    j == entry as int
                } else {
                    true
                }),
            decreases count - d,
        {
            set.push(if b == entry { d == entry } else { true });
            d = d + 1;
        }
        sets.push(set);
        b = b + 1;
    }
    proof {
        assert forall|bb: int, d: int|
            0 <= bb < count && 0 <= d < count && #[trigger] dominates(f, d, bb) implies sets@[bb]@[d] by {
            if bb == entry as int && d != bb {
                let path = seq![bb];
                assert(is_path(f, path));
                assert(path.last() == bb);
                assert(!path.contains(d));
            }
        }
    }

    let mut changed = true;
    while changed
        invariant
            count == f.blocks@.len(),
            f == *function,
            entry == f.entry.0 as int,
            sets@.len() == count,
            forall|i: int| 0 <= i < count ==> (#[trigger] sets@[i])@.len() == count,
            predecessors@.len() == count,
            forall|bb: int, j: int|
                0 <= bb < count && 0 <= j < predecessors@[bb]@.len() ==> {
                    &&& (#[trigger] predecessors@[bb]@[j]) < count
                    &&& jumps_to(f, predecessors@[bb]@[j] as int, bb)
                },
            forall|bb: int, from: int|
                0 <= bb < count && #[trigger] jumps_to(f, from, bb) ==> predecessors@[bb]@.contains(from as usize),
            entry < count ==> forall|d: int| 0 <= d < count ==> (#[trigger] sets@[entry as int]@[d] == (d == entry as int)),
            forall|bb: int, d: int|
                0 <= bb < count && 0 <= d < count && #[trigger] dominates(f, d, bb) ==> sets@[bb]@[d],
            forall|bb: int, d: int|
                0 <= bb < count && 0 <= d < count && bb != entry as int && step_for(
                    f,
                    sets@.map_values(|set: Vec<bool>| set@),
                    bb,
                    d,
                ) ==> #[trigger] sets@[bb]@[d],
            !changed ==> forall|bb: int, d: int|
                0 <= bb < count && 0 <= d < count && bb != entry as int ==> (#[trigger] sets@[bb]@[d]
                    == step_for(f, sets@.map_values(|set: Vec<bool>| set@), bb, d)),
        decreases marks(sets@.map_values(|set: Vec<bool>| set@)), if changed {
            1int
        } else {
            0int
        },
    {
        changed = false;
        let ghost pass_start = marks(sets@.map_values(|set: Vec<bool>| set@));
        let mut raw: usize = 0;
        while raw < count
            invariant
                0 <= raw <= count,
                count == f.blocks@.len(),
                f == *function,
                entry == f.entry.0 as int,
                sets@.len() == count,
                forall|i: int| 0 <= i < count ==> (#[trigger] sets@[i])@.len() == count,
                predecessors@.len() == count,
                forall|bb: int, j: int|
                    0 <= bb < count && 0 <= j < predecessors@[bb]@.len() ==> {
                        &&& (#[trigger] predecessors@[bb]@[j]) < count
                        &&& jumps_to(f, predecessors@[bb]@[j] as int, bb)
                    },
                forall|bb: int, from: int|
                    0 <= bb < count && #[trigger] jumps_to(f, from, bb) ==> predecessors@[bb]@.contains(
                        from as usize,
                    ),
                entry < count ==> forall|d: int|
                    0 <= d < count ==> (#[trigger] sets@[entry as int]@[d] == (d == entry as int)),
                forall|bb: int, d: int|
                    0 <= bb < count && 0 <= d < count && #[trigger] dominates(f, d, bb) ==> sets@[bb]@[d],
                forall|bb: int, d: int|
                    0 <= bb < count && 0 <= d < count && bb != entry as int && step_for(
                        f,
                        sets@.map_values(|set: Vec<bool>| set@),
                        bb,
                        d,
                    ) ==> #[trigger] sets@[bb]@[d],
                !changed ==> forall|bb: int, d: int|
                    0 <= bb < raw && 0 <= d < count && bb != entry as int ==> (
                    #[trigger] sets@[bb]@[d] == step_for(
                        f,
                        sets@.map_values(|set: Vec<bool>| set@),
                        bb,
                        d,
                    )),
                !changed ==> marks(sets@.map_values(|set: Vec<bool>| set@)) == pass_start,
                changed ==> marks(sets@.map_values(|set: Vec<bool>| set@)) < pass_start,
            decreases count - raw,
        {
            if raw != entry {
                let ghost view = sets@.map_values(|set: Vec<bool>| set@);
                // Everything that dominates every predecessor.
                let preds = &predecessors[raw];
                let mut next: Vec<bool> = Vec::with_capacity(count);
                let mut d: usize = 0;
                while d < count
                    invariant
                        0 <= d <= count,
                        next@.len() == d,
                        0 <= raw < count,
                        sets@.len() == count,
                        forall|i: int| 0 <= i < count ==> (#[trigger] sets@[i])@.len() == count,
                        *preds == predecessors@[raw as int],
                        forall|j: int| 0 <= j < preds@.len() ==> (#[trigger] preds@[j]) < count,
                        forall|e: int|
                            0 <= e < d ==> (#[trigger] next@[e] == (e == raw as int || (preds@.len() > 0
                                && forall|j: int| 0 <= j < preds@.len() ==> #[trigger] sets@[preds@[j] as int]@[e]))),
                    decreases count - d,
                {
                    let mut all = preds.len() > 0;
                    let mut j: usize = 0;
                    while j < preds.len()
                        invariant
                            0 <= j <= preds@.len(),
                            0 <= d < count,
                            sets@.len() == count,
                            forall|i: int| 0 <= i < count ==> (#[trigger] sets@[i])@.len() == count,
                            forall|i: int| 0 <= i < preds@.len() ==> (#[trigger] preds@[i]) < count,
                            all == (preds@.len() > 0 && forall|i: int| 0 <= i < j ==> #[trigger] sets@[preds@[i] as int]@[d as int]),
                        decreases preds@.len() - j,
                    {
                        if !sets[preds[j]][d] {
                            all = false;
                        }
                        j = j + 1;
                    }
                    next.push(d == raw || all);
                    d = d + 1;
                }
                proof {
                    assert forall|e: int| 0 <= e < count implies #[trigger] next@[e] == step_for(f, view, raw as int, e) by {
                        if e != raw as int {
                            if next@[e] {
                                assert forall|from: int| #[trigger] jumps_to(f, from, raw as int) implies view[from][e] by {
                                    assert(predecessors@[raw as int]@.contains(from as usize));
                                    let j = choose|j: int| 0 <= j < preds@.len() && preds@[j] == from as usize;
                                    assert(sets@[preds@[j] as int]@[e]);
                                }
                                assert(jumps_to(f, preds@[0] as int, raw as int));
                            }
                            if step_for(f, view, raw as int, e) {
                                let from = choose|from: int| #[trigger] jumps_to(f, from, raw as int);
                                assert(predecessors@[raw as int]@.contains(from as usize));
                                assert(preds@.len() > 0);
                                assert forall|j: int| 0 <= j < preds@.len() implies #[trigger] sets@[preds@[j] as int]@[e] by {
                                    assert(jumps_to(f, preds@[j] as int, raw as int));
                                    assert(view[preds@[j] as int][e] == sets@[preds@[j] as int]@[e]);
                                }
                            }
                        }
                    }
                }
                let mut differs = false;
                let mut e: usize = 0;
                while e < count
                    invariant
                        0 <= e <= count,
                        0 <= raw < count,
                        sets@.len() == count,
                        next@.len() == count,
                        sets@[raw as int]@.len() == count,
                        differs == exists|i: int| 0 <= i < e && next@[i] != #[trigger] sets@[raw as int]@[i],
                    decreases count - e,
                {
                    if next[e] != sets[raw][e] {
                        differs = true;
                    }
                    e = e + 1;
                }
                if differs {
                    let ghost old_sets = sets@;
                    proof {
                        // The new set only loses marks: the invariant keeps every set above
                        // its step.
                        assert forall|i: int| 0 <= i < count && #[trigger] next@[i] implies old_sets[raw as int]@[i] by {
                            assert(next@[i] == step_for(f, view, raw as int, i));
                        }
                        assert(next@ != old_sets[raw as int]@) by {
                            let i = choose|i: int| 0 <= i < count && next@[i] != #[trigger] old_sets[raw as int]@[i];
                        }
                        lemma_set_count_shrinks(old_sets[raw as int]@, next@);
                        lemma_marks_update(view, raw as int, next@);
                        assert forall|d: int| 0 <= d < count && #[trigger] dominates(f, d, raw as int) implies next@[d] by {
                            if d != raw as int {
                                if !exists|from: int| #[trigger] jumps_to(f, from, raw as int) {
                                    let path = seq![raw as int];
                                    assert(is_path(f, path));
                                    assert(path.last() == raw as int);
                                    assert(!path.contains(d));
                                }
                                assert forall|from: int| #[trigger] jumps_to(f, from, raw as int) implies view[from][d] by {
                                    lemma_dominates_through(f, from, raw as int, d);
                                }
                            }
                        }
                    }
                    sets[raw] = next;
                    changed = true;
                    proof {
                        let new_view = sets@.map_values(|set: Vec<bool>| set@);
                        assert(new_view =~= view.update(raw as int, next@));
                        assert forall|bb: int, d: int|
                            0 <= bb < count && 0 <= d < count && bb != entry as int && step_for(f, new_view, bb, d)
                            implies #[trigger] sets@[bb]@[d] by {
                            if d != bb {
                                assert forall|from: int| #[trigger] jumps_to(f, from, bb) implies view[from][d] by {
                                    assert(new_view[from][d]);
                                    if from == raw as int {
                                        assert(old_sets[raw as int]@[d]);
                                    }
                                }
                                assert(step_for(f, view, bb, d));
                            }
                        }
                    }
                } else {
                    proof {
                        assert forall|i: int| 0 <= i < count implies next@[i] == #[trigger] sets@[raw as int]@[i] by {}
                    }
                }
            }
            raw = raw + 1;
        }
    }
    proof {
        let view = sets@.map_values(|set: Vec<bool>| set@);
        assert forall|bb: int, d: int|
            0 <= bb < count && 0 <= d < count implies (#[trigger] sets@[bb]@[d] == dominates(f, d, bb)) by {
            if sets@[bb]@[d] && d != bb {
                assert forall|path: Seq<int>|
                    #![trigger is_path(f, path), path.last()]
                    is_path(f, path) && is_source(f, path[0]) && path.last() == bb
                    implies path.contains(d) by {
                    assert(view[path.last()][d]);
                    lemma_fixpoint_sound(f, view, path, d);
                }
            }
        }
    }
    sets
}

} // verus!
