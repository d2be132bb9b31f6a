//! Walking a real module tree: which files to read, in what order, and what each resolved
//! or unresolved import does to the graph.
//!
//! Reading a file, parsing it and resolving a specifier all touch the world; the walk in
//! between is a set of decisions, and those are here. A caller reads the file the walk hands
//! out, reports what the file asked for, and reports where each request resolved to.
//!
//! Both module systems count: `import` and `require("…")` requests of one file are put back
//! into one order, by source position, and that order is the order of the file's imports.

use vstd::prelude::*;
use vstd::hash_set::StringHashSet;

use crate::graph::{imports_of, ModuleGraph, ModuleId};
use crate::text::{decimal, push_decimal};

verus! {

broadcast use {vstd::seq_lib::to_multiset_build, vstd::seq_lib::to_multiset_insert};

/// A specifier a file asked for, and where in the file it asked.
#[derive(Clone, Debug, PartialEq, Eq)]
pub struct Request {
    /// The text between the quotes.
    pub specifier: String,
    /// Byte offset in the source, used to put `import` and `require` requests back into one
    /// order.
    pub at: u32,
}

/// A specifier that could not be resolved.
#[derive(Clone, Debug, PartialEq, Eq)]
pub struct Unresolved {
    /// The file that asked.
    pub importer: String,
    /// What it asked for.
    pub specifier: String,
    /// What the resolver said.
    pub reason: String,
}

// ---- source order ---------------------------------------------------------------------------

/// `sorted` with `request` placed after every request at or before its position: the
/// requests after it move up by one, and the relative order of equal positions is kept.
pub open spec fn settle(sorted: Seq<Request>, request: Request) -> Seq<Request>
    decreases sorted.len(),
{
    if sorted.len() == 0 || sorted.last().at <= request.at {
        sorted.push(request)
    } else {
        settle(sorted.drop_last(), request).push(sorted.last())
    }
}

/// `requests` in source order: by position, and in their given order where positions tie.
pub open spec fn in_order_of_position(requests: Seq<Request>) -> Seq<Request>
    decreases requests.len(),
{
    if requests.len() == 0 {
        Seq::empty()
    } else {
        settle(in_order_of_position(requests.drop_last()), requests.last())
    }
}

/// No request comes after one at a later position.
pub open spec fn by_position(requests: Seq<Request>) -> bool {
    forall|i: int, j: int| 0 <= i < j < requests.len() ==> requests[i].at <= requests[j].at
}

/// Settling a request into a sorted run keeps it sorted, and adds exactly that request.
proof fn lemma_settle(sorted: Seq<Request>, request: Request)
    requires
        by_position(sorted),
    ensures
        by_position(settle(sorted, request)),
        settle(sorted, request).to_multiset() == sorted.to_multiset().insert(request),
        forall|x: Request| #[trigger] settle(sorted, request).contains(x) ==> sorted.contains(x) || x == request,
    decreases sorted.len(),
{
    if sorted.len() == 0 || sorted.last().at <= request.at {
        assert forall|x: Request| #[trigger] sorted.push(request).contains(x) implies sorted.contains(x) || x == request by {
            let k = choose|k: int| 0 <= k < sorted.len() + 1 && sorted.push(request)[k] == x;
            if k < sorted.len() {
                assert(sorted[k] == x);
            }
        }
    } else {
        let rest = sorted.drop_last();
        let last = sorted.last();
        assert(by_position(rest));
        lemma_settle(rest, request);
        let settled = settle(rest, request);
        assert forall|i: int, j: int| 0 <= i < j < settled.push(last).len() implies settled.push(last)[i].at <= settled.push(last)[j].at by {
            if j == settled.len() {
                let x = settled[i];
                assert(settled.contains(x));
                if rest.contains(x) {
                    let k = choose|k: int| 0 <= k < rest.len() && rest[k] == x;
                    assert(sorted[k] == x);
                }
            }
        }
        assert forall|x: Request| #[trigger] settled.push(last).contains(x) implies sorted.contains(x) || x == request by {
            let k = choose|k: int| 0 <= k < settled.len() + 1 && settled.push(last)[k] == x;
            if k < settled.len() {
                assert(settled.contains(x));
                if rest.contains(x) {
                    let m = choose|m: int| 0 <= m < rest.len() && rest[m] == x;
                    assert(sorted[m] == x);
                }
            } else {
                assert(sorted[sorted.len() - 1] == x);
            }
        }
        assert(sorted =~= rest.push(last));
    }
}

/// Putting requests in source order leaves them sorted by position.
pub proof fn law_source_order_is_sorted(requests: Seq<Request>)
    ensures
        by_position(in_order_of_position(requests)),
        in_order_of_position(requests).to_multiset() == requests.to_multiset(),
    decreases requests.len(),
{
    if requests.len() == 0 {
        assert(requests =~= Seq::<Request>::empty());
    } else {
        law_source_order_is_sorted(requests.drop_last());
        lemma_settle(in_order_of_position(requests.drop_last()), requests.last());
        assert(requests =~= requests.drop_last().push(requests.last()));
        assert(requests.drop_last().push(requests.last()).to_multiset() =~= requests.drop_last().to_multiset().insert(requests.last()));
        assert(in_order_of_position(requests) == settle(in_order_of_position(requests.drop_last()), requests.last()));
        assert(in_order_of_position(requests).to_multiset() == requests.drop_last().to_multiset().insert(requests.last()));
    }
}

/// Puts a file's requests into source order: sorted by position, stable where positions tie.
///
/// `import` requests come from a table whose order is not the source's, and `require`
/// requests from a separate walk; the source order is what decides evaluation.
pub fn in_source_order(requests: Vec<Request>) -> (ordered: Vec<Request>)
    ensures
        ordered@ == in_order_of_position(requests@),
{
    let ghost given = requests@;
    let mut requests = requests;
    let mut reversed: Vec<Request> = Vec::new();
    while requests.len() > 0
        invariant
            requests@.len() <= given.len(),
            requests@ == given.take(requests@.len() as int),
            reversed@ == given.skip(requests@.len() as int).reverse(),
        decreases requests@.len(),
    {
        let ghost before = requests@;
        let request = requests.pop().unwrap();
        reversed.push(request);
        proof {
            assert(requests@ =~= given.take(requests@.len() as int));
            assert(reversed@ =~= given.skip(requests@.len() as int).reverse());
        }
    }
    let mut ordered: Vec<Request> = Vec::new();
    let ghost mut taken: int = 0;
    proof {
        assert(given.take(0) =~= Seq::<Request>::empty());
        assert(given.skip(0) =~= given);
    }
    while reversed.len() > 0
        invariant
            0 <= taken <= given.len(),
            reversed@ == given.skip(taken).reverse(),
            ordered@ == in_order_of_position(given.take(taken)),
        decreases reversed@.len(),
    {
        let request = reversed.pop().unwrap();
        proof {
            assert(request == given[taken]);
        }
        let mut place = ordered.len();
        let ghost sorted = ordered@;
        proof {
            assert(sorted.take(sorted.len() as int) =~= sorted);
            assert(sorted.skip(sorted.len() as int) =~= Seq::<Request>::empty());
            assert(settle(sorted, request) + Seq::<Request>::empty() =~= settle(sorted, request));
        }
        while place > 0 && ordered[place - 1].at > request.at
            invariant
                place <= sorted.len(),
                ordered@ == sorted,
                settle(sorted, request) == settle(sorted.take(place as int), request) + sorted.skip(
                    place as int,
                ),
            decreases place,
        {
            proof {
                let shorter = sorted.take(place as int);
                assert(shorter.drop_last() =~= sorted.take(place - 1));
                assert(shorter.last() == sorted[place - 1]);
                assert(settle(shorter, request) == settle(sorted.take(place - 1), request).push(
                    sorted[place - 1],
                ));
                assert(sorted.skip(place - 1) =~= seq![sorted[place - 1]] + sorted.skip(
                    place as int,
                ));
                assert(settle(sorted.take(place - 1), request).push(sorted[place - 1])
                    + sorted.skip(place as int) =~= settle(sorted.take(place - 1), request)
                    + sorted.skip(place - 1));
            }
            place = place - 1;
        }
        proof {
            assert(settle(sorted.take(place as int), request) == sorted.take(place as int).push(
                request,
            )) by {
                if place > 0 {
                    assert(sorted.take(place as int).last() == sorted[place - 1]);
                }
            }
        }
        ordered.insert(place, request);
        proof {
            assert(ordered@ =~= sorted.take(place as int).push(request) + sorted.skip(place as int));
            assert(given.take(taken + 1).drop_last() =~= given.take(taken));
            assert(given.take(taken + 1).last() == given[taken]);
            taken = taken + 1;
            assert(reversed@ =~= given.skip(taken).reverse());
        }
    }
    proof {
        assert(given.take(taken) =~= given);
    }
    ordered
}

// ---- the walk -------------------------------------------------------------------------------

/// Interning one module and adding one import of `from`'s leaves every other module's
/// imports as they were.
proof fn lemma_other_imports_kept(
    before: Seq<Seq<ModuleId>>,
    interned: Seq<Seq<ModuleId>>,
    after: Seq<Seq<ModuleId>>,
    from: ModuleId,
    id: ModuleId,
    new: bool,
)
    requires
        new ==> interned == before.push(Seq::<ModuleId>::empty()),
        !new ==> interned == before,
        (from.0 as int) < before.len(),
        after.len() <= u32::MAX + 1,
        after == interned.update(from.0 as int, interned[from.0 as int].push(id)),
    ensures
        forall|m: int|
            0 <= m < after.len() && m != from.0 ==> after[m] == imports_of(
                before,
                ModuleId(m as u32),
            ),
{
    assert forall|m: int| 0 <= m < after.len() && m != from.0 implies after[m] == imports_of(
        before,
        ModuleId(m as u32),
    ) by {
        assert(after[m] == interned[m]);
        assert((m as u32) as int == m);
        if m < before.len() {
            assert(interned[m] == before[m]);
        } else {
            assert(new);
            assert(interned[m] == Seq::<ModuleId>::empty());
        }
    }
}

/// What loading has found across every walk: the graph, the files parsed, and what could not
/// be resolved or read.
pub struct Findings {
    /// The graph built so far.
    pub graph: ModuleGraph,
    /// Specifiers that did not resolve.
    pub unresolved: Vec<Unresolved>,
    /// Files parsed.
    pub parsed: usize,
    /// Files that could not be read, or that the parser recovered from, with why.
    pub parse_errors: Vec<(String, String)>,
}

/// One walk from an entry: the files queued so far, and those still to read.
pub struct Walk {
    seen: StringHashSet,
    queue: Vec<(String, ModuleId)>,
}

impl Walk {
    /// The files queued so far, by path.
    pub closed spec fn seen(&self) -> Set<Seq<char>> {
        self.seen@
    }

    /// The files still to read, most recently queued last, each with its module.
    pub closed spec fn queue(&self) -> Seq<(Seq<char>, ModuleId)> {
        self.queue@.map_values(|entry: (String, ModuleId)| (entry.0@, entry.1))
    }

    /// The next file to read: the most recently queued one, or `None` when the walk is done.
    pub fn next_file(&mut self) -> (file: Option<(String, ModuleId)>)
        ensures
            final(self).seen() == old(self).seen(),
            match file {
                Some(file) => {
                    &&& old(self).queue().len() > 0
                    &&& (file.0@, file.1) == old(self).queue().last()
                    &&& final(self).queue() == old(self).queue().drop_last()
                },
                None => old(self).queue().len() == 0 && final(self).queue() == old(self).queue(),
            },
    {
        let file = self.queue.pop();
        proof {
            assert(self.queue() =~= old(self).queue().take(self.queue@.len() as int));
            if file is Some {
                assert(self.queue() =~= old(self).queue().drop_last());
            }
        }
        file
    }
}

impl Findings {
    /// Nothing found yet: an empty graph.
    pub fn new() -> (findings: Self)
        ensures
            findings.graph.wf(),
            findings.graph.specifiers() == Seq::<Seq<char>>::empty(),
            findings.graph.edges() == Seq::<Seq<ModuleId>>::empty(),
            findings.unresolved@.len() == 0,
            findings.parsed == 0,
            findings.parse_errors@.len() == 0,
    {
        Findings {
            graph: ModuleGraph::new(),
            unresolved: Vec::new(),
            parsed: 0,
            parse_errors: Vec::new(),
        }
    }

    /// Starts a walk from the file at `entry`: interns it, and queues it as the only file to
    /// read.
    pub fn begin(&mut self, entry: &str) -> (started: (Walk, ModuleId))
        requires
            old(self).graph.wf(),
            old(self).graph.specifiers().contains(entry@) || old(self).graph.specifiers().len()
                <= u32::MAX,
        ensures
            final(self).graph.wf(),
            (started.1.0 as int) < final(self).graph.specifiers().len(),
            final(self).graph.specifiers()[started.1.0 as int] == entry@,
            old(self).graph.specifiers().contains(entry@) ==> final(self).graph.specifiers()
                == old(self).graph.specifiers(),
            !old(self).graph.specifiers().contains(entry@) ==> final(self).graph.specifiers()
                == old(self).graph.specifiers().push(entry@),
            final(self).graph.edges().len() == final(self).graph.specifiers().len(),
            forall|m: int|
                0 <= m < old(self).graph.edges().len() ==> final(self).graph.edges()[m]
                    == old(self).graph.edges()[m],
            started.0.seen() == Set::<Seq<char>>::empty().insert(entry@),
            started.0.queue() == seq![(entry@, started.1)],
            final(self).unresolved == old(self).unresolved,
            final(self).parsed == old(self).parsed,
            final(self).parse_errors == old(self).parse_errors,
    {
        let root = self.graph.intern(entry);
        proof {
            self.graph.lemma_specifiers_distinct();
        }
        let mut seen = StringHashSet::new();
        seen.insert(entry.to_owned());
        let mut queue: Vec<(String, ModuleId)> = Vec::new();
        queue.push((entry.to_owned(), root));
        let walk = Walk { seen, queue };
        proof {
            assert(walk.queue() =~= seq![(entry@, root)]);
        }
        (walk, root)
    }

    /// Records that the file at `path` could not be read.
    pub fn unreadable(&mut self, path: String)
        ensures
            final(self).parse_errors@.len() == old(self).parse_errors@.len() + 1,
            final(self).parse_errors@.drop_last() == old(self).parse_errors@,
            final(self).parse_errors@.last().0 == path,
            final(self).parse_errors@.last().1@ == "could not be read"@,
            final(self).graph == old(self).graph,
            final(self).unresolved == old(self).unresolved,
            final(self).parsed == old(self).parsed,
    {
        self.parse_errors.push((path, "could not be read".to_owned()));
        proof {
            assert(self.parse_errors@.drop_last() =~= old(self).parse_errors@);
        }
    }

    /// Records that the file at `path` was parsed, with `syntax_errors` errors the parser
    /// recovered from: a file with a syntax error still has imports worth knowing about.
    pub fn parsed_file(&mut self, path: String, syntax_errors: usize)
        requires
            old(self).parsed < usize::MAX,
        ensures
            final(self).parsed == old(self).parsed + 1,
            final(self).graph == old(self).graph,
            final(self).unresolved == old(self).unresolved,
            syntax_errors == 0 ==> final(self).parse_errors == old(self).parse_errors,
            syntax_errors > 0 ==> {
                &&& final(self).parse_errors@.len() == old(self).parse_errors@.len() + 1
                &&& final(self).parse_errors@.drop_last() == old(self).parse_errors@
                &&& final(self).parse_errors@.last().0 == path
                &&& final(self).parse_errors@.last().1@ == decimal(syntax_errors as nat)
                    + " syntax errors"@
            },
    {
        self.parsed = self.parsed + 1;
        if syntax_errors > 0 {
            let mut message = String::new();
            push_decimal(&mut message, syntax_errors as u64);
            message.append(" syntax errors");
            self.parse_errors.push((path, message));
            proof {
                assert(self.parse_errors@.drop_last() =~= old(self).parse_errors@);
            }
        }
    }

    /// Records that a request of `from`'s resolved to the file at `target`: the target is
    /// interned, `from` imports it, and it is queued unless this walk has queued it before.
    pub fn resolved(&mut self, walk: &mut Walk, from: ModuleId, target: &str) -> (id: ModuleId)
        requires
            old(self).graph.wf(),
            (from.0 as int) < old(self).graph.specifiers().len(),
            old(self).graph.specifiers().contains(target@) || old(self).graph.specifiers().len()
                <= u32::MAX,
        ensures
            final(self).graph.wf(),
            (id.0 as int) < final(self).graph.specifiers().len(),
            final(self).graph.specifiers()[id.0 as int] == target@,
            old(self).graph.specifiers().contains(target@) ==> final(self).graph.specifiers()
                == old(self).graph.specifiers(),
            !old(self).graph.specifiers().contains(target@) ==> final(self).graph.specifiers()
                == old(self).graph.specifiers().push(target@),
            imports_of(final(self).graph.edges(), from) == imports_of(old(self).graph.edges(), from).push(id),
            forall|m: int|
                0 <= m < final(self).graph.edges().len() && m != from.0 ==> final(self).graph.edges()[m]
                    == imports_of(old(self).graph.edges(), ModuleId(m as u32)),
            final(walk).seen() == old(walk).seen().insert(target@),
            old(walk).seen().contains(target@) ==> final(walk).queue() == old(walk).queue(),
            !old(walk).seen().contains(target@) ==> final(walk).queue() == old(walk).queue().push(
                (target@, id),
            ),
            final(self).unresolved == old(self).unresolved,
            final(self).parsed == old(self).parsed,
            final(self).parse_errors == old(self).parse_errors,
    {
        proof {
            old(self).graph.lemma_specifiers_distinct();
        }
        let id = self.graph.intern(target);
        let ghost interned = self.graph.edges();
        self.graph.add_import(from, id);
        proof {
            self.graph.lemma_specifiers_distinct();
            lemma_other_imports_kept(
                old(self).graph.edges(),
                interned,
                self.graph.edges(),
                from,
                id,
                !old(self).graph.specifiers().contains(target@),
            );
            self.graph.lemma_specifiers_distinct();
        }
        let fresh = walk.seen.insert(target.to_owned());
        if fresh {
            walk.queue.push((target.to_owned(), id));
            proof {
                assert(walk.queue() =~= old(walk).queue().push((target@, id)));
            }
        }
        id
    }

    /// Records that `specifier`, asked for by the file at `importer`, did not resolve.
    pub fn unresolvable(&mut self, importer: String, specifier: String, reason: String)
        ensures
            final(self).unresolved@ == old(self).unresolved@.push(
                Unresolved { importer, specifier, reason },
            ),
            final(self).graph == old(self).graph,
            final(self).parsed == old(self).parsed,
            final(self).parse_errors == old(self).parse_errors,
    {
        self.unresolved.push(Unresolved { importer, specifier, reason });
    }
}

} // verus!
