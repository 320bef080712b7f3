//! Resolving a tree: every node's entry is fetched, inflated and handed to an
//! inspection, base before delta, chunk of roots by chunk of roots; a reducer
//! adds up what each chunk resolved and stops the walk when asked to.
use crate::eager::{flatten, lemma_flatten_append, well_chunked};
use crate::tree::{
    chunk_views, forest, is_child, is_root, lemma_closed_holds_all, lemma_distinct_bounded,
    lemma_visits_concat, levels_ok, nodes, roots_ok,
    visits_subtrees, EntrySlice, Item, Tree,
};
use vstd::prelude::*;

verus! {

/// Why resolving a tree stopped.
#[derive(Debug, PartialEq, Eq)]
pub enum Error<E> {
    /// The bytes of the entry at this pack offset could not be inflated.
    ZlibInflate(u64),
    /// The bytes of the entry at this pack offset could not be had.
    ResolveFailed(u64),
    /// An inspection failed with this error.
    Inspect(E),
    /// The walk was asked to stop.
    Interrupted,
}

/// What an inspection learns of the one node it is called for.
pub struct Context<'a, S> {
    /// Where the node's entry lies in the pack.
    pub entry: EntrySlice,
    /// The offset just past the entry.
    pub entry_end: u64,
    /// The entry's inflated bytes.
    pub decompressed: &'a [u8],
    /// The state of the walk that calls the inspection.
    pub state: &'a mut S,
    /// The node's distance from its root.
    pub level: u16,
}

/// The work done for each node, supplied by the caller.
pub trait Visitor<T, S, E> {
    /// Puts the raw bytes of the entry at `slice` into `out`; `false` when
    /// they cannot be had.
    fn resolve(&mut self, slice: EntrySlice, out: &mut Vec<u8>) -> bool;

    /// Inflates `compressed` into `out`; `false` when it is not valid.
    fn decompress(&mut self, compressed: &[u8], out: &mut Vec<u8>) -> bool;

    /// Turns a node's inflated entry into its payload.
    fn inspect(&mut self, data: &mut T, context: Context<'_, S>) -> Result<(), E>;

    /// Whether the walk has been asked to stop.
    fn is_interrupted(&mut self) -> bool;
}

/// The outcome of one node, from the answers of the visitor: whether the
/// entry's bytes were had, whether they inflated, and what the inspection
/// returned. Each later answer counts only if the earlier ones succeeded.
pub fn node_outcome<E>(
    entry: EntrySlice,
    resolved: bool,
    inflated: bool,
    inspected: Result<(), E>,
) -> (r: Result<(), Error<E>>)
    ensures
        !resolved ==> r == Err::<(), Error<E>>(Error::ResolveFailed(entry.start)),
        resolved && !inflated ==> r == Err::<(), Error<E>>(Error::ZlibInflate(entry.start)),
        resolved && inflated && inspected is Ok ==> r is Ok,
        resolved && inflated && inspected is Err ==> r == Err::<(), Error<E>>(
            Error::Inspect(inspected->Err_0),
        ),
{
    if !resolved {
        Err(Error::ResolveFailed(entry.start))
    } else if !inflated {
        Err(Error::ZlibInflate(entry.start))
    } else {
        match inspected {
            Ok(()) => Ok(()),
            Err(e) => Err(Error::Inspect(e)),
        }
    }
}

/// `res` is an outcome that [`node_outcome`] can give for `entry`.
pub open spec fn step_outcome<E>(entry: EntrySlice, res: Result<(), Error<E>>) -> bool {
    match res {
        Ok(()) => true,
        Err(Error::ResolveFailed(off)) => off == entry.start,
        Err(Error::ZlibInflate(off)) => off == entry.start,
        Err(Error::Inspect(_)) => true,
        Err(Error::Interrupted) => false,
    }
}

/// The inspection was called for a node with outcome `res`.
pub open spec fn inspected<E>(res: Result<(), Error<E>>) -> bool {
    res is Ok || res->Err_0 is Inspect
}

/// A walk of one chunk in the order `vo` (node and level), of which the
/// nodes in `log` were handled, with those outcomes, before it ended with
/// `r`: every node of `vo` while all succeed, up to the first failure, which
/// is `r`.
pub open spec fn chunk_calls<E>(
    ch: Seq<Seq<usize>>,
    entries: Seq<EntrySlice>,
    roots: Seq<usize>,
    vo: Seq<(usize, u16)>,
    log: Seq<Result<(), Error<E>>>,
    r: Result<usize, Error<E>>,
) -> bool {
    &&& visits_subtrees(ch, roots, nodes(vo))
    &&& levels_ok(ch, roots, vo, vo)
    &&& log.len() <= vo.len()
    &&& forall|k: int| 0 <= k < log.len() ==> step_outcome(entries[vo[k].0 as int], #[trigger] log[k])
    &&& forall|k: int| 0 <= k < log.len() - 1 ==> (#[trigger] log[k]) is Ok
    &&& r is Ok <==> (log.len() == vo.len() && forall|k: int| 0 <= k < log.len() ==> (#[trigger] log[k]) is Ok)
    &&& r is Ok ==> r->Ok_0 == vo.len()
    &&& r is Err ==> log.len() > 0 && log.last() == Err::<(), Error<E>>(r->Err_0)
}

/// [`chunk_calls`], with the payloads kept one per node.
pub open spec fn chunk_run<T, E>(
    ch: Seq<Seq<usize>>,
    entries: Seq<EntrySlice>,
    before: Seq<T>,
    after: Seq<T>,
    roots: Seq<usize>,
    vo: Seq<(usize, u16)>,
    log: Seq<Result<(), Error<E>>>,
    r: Result<usize, Error<E>>,
) -> bool {
    &&& chunk_calls(ch, entries, roots, vo, log, r)
    &&& after.len() == before.len()
}

/// `vo` is a visiting order from `roots`, with its levels.
#[verifier::opaque]
spec fn walk_facts(ch: Seq<Seq<usize>>, roots: Seq<usize>, vo: Seq<(usize, u16)>) -> bool {
    visits_subtrees(ch, roots, nodes(vo)) && levels_ok(ch, roots, vo, vo)
}

proof fn lemma_chunk_run<T, E>(
    ch: Seq<Seq<usize>>,
    entries: Seq<EntrySlice>,
    before: Seq<T>,
    after: Seq<T>,
    roots: Seq<usize>,
    vo: Seq<(usize, u16)>,
    log: Seq<Result<(), Error<E>>>,
    r: Result<usize, Error<E>>,
)
    requires
        walk_facts(ch, roots, vo),
        log.len() <= vo.len(),
        forall|k: int| 0 <= k < log.len() ==> step_outcome(entries[vo[k].0 as int], #[trigger] log[k]),
        forall|k: int| 0 <= k < log.len() - 1 ==> (#[trigger] log[k]) is Ok,
        r is Ok ==> log.len() == vo.len() && r->Ok_0 == vo.len() && forall|k: int|
            0 <= k < log.len() ==> (#[trigger] log[k]) is Ok,
        r is Err ==> log.len() > 0 && log.last() == Err::<(), Error<E>>(r->Err_0),
        after.len() == before.len(),
    ensures
        chunk_run(ch, entries, before, after, roots, vo, log, r),
{
    reveal(walk_facts);
}

proof fn lemma_chunk_stop<T, E>(
    ch: Seq<Seq<usize>>,
    entries: Seq<EntrySlice>,
    before: Seq<T>,
    after: Seq<T>,
    roots: Seq<usize>,
    vo: Seq<(usize, u16)>,
    done: Seq<Result<(), Error<E>>>,
    step: Result<(), Error<E>>,
)
    requires
        walk_facts(ch, roots, vo),
        done.len() < vo.len(),
        forall|k: int| 0 <= k < done.len() ==> (#[trigger] done[k]) is Ok,
        step_outcome(entries[vo[done.len() as int].0 as int], step),
        step is Err,
        after.len() == before.len(),
    ensures
        chunk_run(ch, entries, before, after, roots, vo, done.push(step), Err::<usize, Error<E>>(step->Err_0)),
{
    let log = done.push(step);
    assert forall|k: int| 0 <= k < log.len() implies step_outcome(entries[vo[k].0 as int], #[trigger] log[k]) by {
        if k < done.len() {
            assert(log[k] == done[k]);
        }
    }
    lemma_chunk_run(ch, entries, before, after, roots, vo, log, Err::<usize, Error<E>>(step->Err_0));
}

/// Handles node `x`, reached at `level`: fetches its entry's bytes into
/// `bytes`, inflates them into `inflated`, and lets the inspection fill the
/// node's payload, each step only if the one before succeeded.
fn visit_node<T: Default, S, E, V: Visitor<T, S, E>>(
    tree: &mut Tree<T>,
    x: usize,
    level: u16,
    bytes: &mut Vec<u8>,
    inflated: &mut Vec<u8>,
    state: &mut S,
    visitor: &mut V,
) -> (r: Result<(), Error<E>>)
    requires
        old(tree).wf(),
        x < old(tree).len(),
    ensures
        final(tree).wf(),
        final(tree).entry_list() == old(tree).entry_list(),
        final(tree).child_lists() == old(tree).child_lists(),
        final(tree).root_list() == old(tree).root_list(),
        final(tree).payloads().len() == old(tree).payloads().len(),
        step_outcome(old(tree).entry_list()[x as int], r),
        forall|j: int|
            0 <= j < old(tree).payloads().len() && j != x ==> #[trigger] final(tree).payloads()[j]
                == old(tree).payloads()[j],
        !inspected(r) ==> final(tree).payloads() == old(tree).payloads(),
{
    proof {
        tree.lemma_wf_len();
    }
    let entry = tree.entry(x);
    let resolved = visitor.resolve(entry, bytes);
    let decompressed = resolved && visitor.decompress(bytes.as_slice(), inflated);
    let inspection = if decompressed {
        let mut data = tree.swap_payload(x, T::default());
        let context = Context {
            entry,
            entry_end: entry.end,
            decompressed: inflated.as_slice(),
            state,
            level,
        };
        let outcome = visitor.inspect(&mut data, context);
        let _ = tree.swap_payload(x, data);
        outcome
    } else {
        Ok(())
    };
    proof {
        tree.lemma_wf_len();
    }
    node_outcome(entry, resolved, decompressed, inspection)
}

/// Resolves the nodes reachable from `roots`, depth first and base before
/// delta: for each node, fetches the entry's bytes, inflates them, and lets
/// the inspection fill the node's payload, each step only if the one before
/// succeeded. Returns how many nodes were resolved, or the first failure,
/// which ends the walk.
#[verifier::rlimit(100)]
#[verifier::spinoff_prover]
pub fn deltas<T: Default, S, E, V: Visitor<T, S, E>>(
    tree: &mut Tree<T>,
    roots: &[usize],
    state: &mut S,
    visitor: &mut V,
) -> (r: Result<usize, Error<E>>)
    requires
        old(tree).wf(),
        roots_ok(old(tree).child_lists(), roots@),
    ensures
        final(tree).wf(),
        final(tree).entry_list() == old(tree).entry_list(),
        final(tree).child_lists() == old(tree).child_lists(),
        final(tree).root_list() == old(tree).root_list(),
        exists|vo: Seq<(usize, u16)>, log: Seq<Result<(), Error<E>>>|
            #[trigger] chunk_run(
                old(tree).child_lists(),
                old(tree).entry_list(),
                old(tree).payloads(),
                final(tree).payloads(),
                roots@,
                vo,
                log,
                r,
            ),
{
    let order = tree.visit_order(roots);
    let ghost vo = order@;
    let ghost o = nodes(order@);
    let ghost mut log: Seq<Result<(), Error<E>>> = Seq::empty();
    proof {
        reveal(walk_facts);
        tree.lemma_wf_len();
        old(tree).lemma_wf_len();
        if roots@.len() == 0 {
            if o.len() > 0 {
                assert(o.contains(o[0]));
                let j = choose|j: int| 0 <= j < 0 && is_child(old(tree).child_lists(), #[trigger] o[j], o[0]);
            }
        }
    }
    let mut bytes: Vec<u8> = Vec::with_capacity(4096);
    let mut inflated: Vec<u8> = Vec::with_capacity(4096);
    let mut i: usize = 0;
    while i < order.len()
        invariant
            tree.wf(),
            tree.entry_list() == old(tree).entry_list(),
            tree.child_lists() == old(tree).child_lists(),
            tree.root_list() == old(tree).root_list(),
            vo == order@,
            o == nodes(order@),
            o.len() == order@.len(),
            tree.payloads().len() == old(tree).payloads().len(),
            old(tree).payloads().len() == old(tree).len(),
            walk_facts(old(tree).child_lists(), roots@, vo),
            forall|k: int| 0 <= k < o.len() ==> #[trigger] o[k] < old(tree).len(),
            i <= order@.len(),
            log.len() == i,
            forall|k: int| 0 <= k < log.len() ==> (#[trigger] log[k]) is Ok,
        decreases order@.len() - i,
    {
        let (x, level) = order[i];
        assert(o[i as int] == x);
        assert(vo[i as int].0 == x);
        proof {
            tree.lemma_wf_len();
        }
        let step = visit_node(tree, x, level, &mut bytes, &mut inflated, state, visitor);
        proof {
            tree.lemma_wf_len();
        }
        match step {
            Ok(()) => {},
            Err(e) => {
                let r = Err(e);
                proof {
                    lemma_chunk_stop(old(tree).child_lists(), old(tree).entry_list(), old(tree).payloads(), tree.payloads(), roots@, vo, log, step);
                    log = log.push(step);
                }
                return r;
            },
        }
        proof {
            log = log.push(step);
        }
        i += 1;
    }
    let r = Ok(order.len());
    proof {
        assert(o.subrange(0, i as int) =~= o);
        lemma_chunk_run(old(tree).child_lists(), old(tree).entry_list(), old(tree).payloads(), tree.payloads(), roots@, vo, log, r);
    }
    r
}

/// Adds up the nodes resolved by each chunk, and stops the walk on the first
/// failure or when asked to.
pub struct Reducer {
    item_count: usize,
    num_objects: u32,
}

impl Reducer {
    /// The number of nodes resolved so far.
    pub closed spec fn count(&self) -> nat {
        self.item_count as nat
    }

    /// The number of nodes of the whole tree.
    pub closed spec fn total(&self) -> u32 {
        self.num_objects
    }

    pub fn new(num_objects: u32) -> (r: Self)
        ensures
            r.count() == 0,
            r.total() == num_objects,
    {
        Reducer { item_count: 0, num_objects }
    }

    /// Takes the outcome of one chunk. A failure is passed on and counts
    /// nothing; a success adds its count, and then the walk stops with
    /// `Interrupted` if `interrupted` is set.
    pub fn feed<E>(&mut self, input: Result<usize, Error<E>>, interrupted: bool) -> (r: Result<(), Error<E>>)
        requires
            input is Ok ==> old(self).count() + input->Ok_0 <= usize::MAX,
        ensures
            final(self).total() == old(self).total(),
            input is Err ==> r == Err::<(), Error<E>>(input->Err_0) && final(self).count() == old(self).count(),
            input is Ok ==> {
                &&& final(self).count() == old(self).count() + input->Ok_0
                &&& interrupted ==> r == Err::<(), Error<E>>(Error::Interrupted)
                &&& !interrupted ==> r is Ok
            },
    {
        match input {
            Err(e) => Err(e),
            Ok(n) => {
                self.item_count = self.item_count + n;
                if interrupted {
                    Err(Error::Interrupted)
                } else {
                    Ok(())
                }
            },
        }
    }

    /// The number of nodes resolved so far.
    pub fn item_count(&self) -> (r: usize)
        ensures
            r == self.count(),
    {
        self.item_count
    }

    /// The number of nodes of the whole tree.
    pub fn num_objects(&self) -> (r: u32)
        ensures
            r == self.total(),
    {
        self.num_objects
    }

    /// Ends the reduction; returns the number of nodes resolved, for the
    /// throughput report.
    pub fn finalize(self) -> (r: usize)
        ensures
            r == self.count(),
    {
        self.item_count
    }
}

/// The roots of chunk `i`, and those of the chunks before it, are roots of
/// the forest without repeats, and the two share none.
proof fn lemma_chunk_roots(ch: Seq<Seq<usize>>, roots: Seq<usize>, cs: Seq<Seq<usize>>, i: int)
    requires
        roots_ok(ch, roots),
        flatten(cs) == roots,
        0 <= i < cs.len(),
    ensures
        roots_ok(ch, cs[i]),
        roots_ok(ch, flatten(cs.subrange(0, i))),
        forall|y: usize| flatten(cs.subrange(0, i)).contains(y) ==> !cs[i].contains(y),
        flatten(cs.subrange(0, i + 1)) == flatten(cs.subrange(0, i)) + cs[i],
{
    let head = cs.subrange(0, i + 1);
    let rest = cs.subrange(i + 1, cs.len() as int);
    assert(cs =~= head + rest);
    lemma_flatten_append(head, rest);
    assert(head.drop_last() =~= cs.subrange(0, i));
    let a = flatten(cs.subrange(0, i));
    let b = cs[i];
    let p = flatten(head);
    assert(p == a + b);
    assert forall|k: int| 0 <= k < p.len() implies #[trigger] p[k] == roots[k] by {
        assert(roots == p + flatten(rest));
    }
    assert forall|k: int| 0 <= k < a.len() implies #[trigger] a[k] == roots[k] by {
        assert(p[k] == a[k]);
    }
    assert forall|k: int| 0 <= k < b.len() implies #[trigger] b[k] == roots[a.len() + k] by {
        assert(p[a.len() + k] == b[k]);
    }
    assert forall|k: int, l: int| 0 <= k < a.len() && 0 <= l < a.len() && k != l implies a[k] != a[l] by {
        assert(roots[k] != roots[l]);
    }
    assert forall|k: int, l: int| 0 <= k < b.len() && 0 <= l < b.len() && k != l implies b[k] != b[l] by {
        assert(roots[a.len() + k] != roots[a.len() + l]);
    }
    assert forall|k: int| 0 <= k < a.len() implies #[trigger] a[k] < ch.len() && is_root(ch, a[k]) by {
        assert(roots[k] < ch.len() && is_root(ch, roots[k]));
    }
    assert forall|k: int| 0 <= k < b.len() implies #[trigger] b[k] < ch.len() && is_root(ch, b[k]) by {
        let t = a.len() + k;
        assert(roots[t] < ch.len() && is_root(ch, roots[t]));
    }
    assert forall|y: usize| a.contains(y) implies !b.contains(y) by {
        if b.contains(y) {
            let k = choose|k: int| 0 <= k < a.len() && a[k] == y;
            let l = choose|l: int| 0 <= l < b.len() && b[l] == y;
            assert(roots[k] == roots[a.len() + l]);
        }
    }
}

/// The traversal as seen from the chunks `cs` of the roots: for each chunk
/// walked, its visiting order, the outcomes of its nodes, its own outcome
/// and, after a success, the answer to whether to stop (`false` where it was
/// not asked). The walk goes on while chunks succeed
/// and no stop is asked for; `r` is the first failure, or `Interrupted` after
/// a stop, or success once every chunk succeeded.
pub open spec fn traverse_calls<T, E>(
    ch: Seq<Seq<usize>>,
    entries: Seq<EntrySlice>,
    roots: Seq<usize>,
    chunk_size: nat,
    cs: Seq<Seq<usize>>,
    clog: Seq<(Seq<(usize, u16)>, Seq<Result<(), Error<E>>>, Result<usize, Error<E>>, bool)>,
    r: Result<Vec<Item<T>>, Error<E>>,
) -> bool {
    &&& flatten(cs) == roots
    &&& well_chunked(cs, chunk_size)
    &&& clog.len() <= cs.len()
    &&& forall|k: int|
        0 <= k < clog.len() ==> chunk_calls(ch, entries, cs[k], (#[trigger] clog[k]).0, clog[k].1, clog[k].2)
    &&& forall|k: int| 0 <= k < clog.len() && (#[trigger] clog[k]).2 is Err ==> !clog[k].3
    &&& forall|k: int| 0 <= k < clog.len() - 1 ==> (#[trigger] clog[k]).2 is Ok && !clog[k].3
    &&& r is Ok <==> (clog.len() == cs.len() && forall|k: int|
        0 <= k < clog.len() ==> (#[trigger] clog[k]).2 is Ok && !clog[k].3)
    &&& r is Err ==> {
        &&& clog.len() > 0
        &&& clog.last().2 is Err ==> r->Err_0 == clog.last().2->Err_0
        &&& clog.last().2 is Ok ==> clog.last().3 && r->Err_0 is Interrupted
    }
    &&& r matches Err(Error::Interrupted) ==> clog.last().2 is Ok && clog.last().3
}

impl<T: Default> Tree<T> {
    /// Resolves every node: the roots go in chunks of `chunk_size` to
    /// [`deltas`], and each chunk's outcome to a [`Reducer`]; after each
    /// successful chunk `visitor` is asked whether to stop. Returns the nodes
    /// in index order, each with the payload its inspection left, or the
    /// first failure.
    pub fn traverse<S, E, V: Visitor<T, S, E>>(
        self,
        chunk_size: usize,
        state: &mut S,
        visitor: &mut V,
    ) -> (r: Result<Vec<Item<T>>, Error<E>>)
        requires
            self.wf(),
            chunk_size > 0,
        ensures
            self.len() == 0 ==> r is Ok && r->Ok_0@.len() == 0,
            exists|cs: Seq<Seq<usize>>, clog: Seq<(Seq<(usize, u16)>, Seq<Result<(), Error<E>>>, Result<usize, Error<E>>, bool)>|
                #[trigger] traverse_calls(
                    self.child_lists(),
                    self.entry_list(),
                    self.root_list(),
                    chunk_size as nat,
                    cs,
                    clog,
                    r,
                ),
            r is Ok ==> {
                let items = r->Ok_0@;
                &&& items.len() == self.len()
                &&& forall|i: int|
                    0 <= i < items.len() ==> (#[trigger] items[i]).offset == self.entry_list()[i].start
                        && items[i].next_offset == self.entry_list()[i].end
                &&& exists|o: Seq<usize>|
                    visits_subtrees(self.child_lists(), self.root_list(), o) && forall|x: usize|
                        x < self.len() ==> #[trigger] o.contains(x)
            },
    {
        let ghost ch = self.child_lists();
        let ghost entries = self.entry_list();
        let ghost all_roots = self.root_list();
        proof {
            self.lemma_wf_len();
            self.lemma_roots_ok();
        }
        let mut tree = self;
        let n = tree.num_items();
        let chunks = tree.root_chunks(chunk_size);
        let ghost cs = chunk_views(chunks@);
        proof {
            if n == 0 && cs.len() > 0 {
                assert(cs.drop_last() + seq![cs.last()] =~= cs);
                assert(flatten(cs) == flatten(cs.drop_last()) + cs.last());
                assert(cs[cs.len() - 1].len() > 0);
                assert(all_roots.len() > 0);
                assert(all_roots[0] < n);
            }
        }
        let mut reducer = Reducer::new(#[verifier::truncate] (n as u32));
        let ghost mut seen: Seq<usize> = Seq::empty();
        let ghost mut clog: Seq<(Seq<(usize, u16)>, Seq<Result<(), Error<E>>>, Result<usize, Error<E>>, bool)> = Seq::empty();
        assert(cs.subrange(0, 0) =~= Seq::<Seq<usize>>::empty());
        let mut i: usize = 0;
        while i < chunks.len()
            invariant
                tree.wf(),
                tree.child_lists() == ch,
                tree.entry_list() == entries,
                tree.root_list() == all_roots,
                self.entry_list() == entries,
                self.child_lists() == ch,
                self.root_list() == all_roots,
                forest(ch),
                ch.len() == entries.len(),
                n == entries.len(),
                n == 0 ==> chunks@.len() == 0,
                roots_ok(ch, all_roots),
                cs == chunk_views(chunks@),
                flatten(cs) == all_roots,
                well_chunked(cs, chunk_size as nat),
                i <= chunks@.len(),
                reducer.count() == seen.len(),
                visits_subtrees(ch, flatten(cs.subrange(0, i as int)), seen),
                clog.len() == i,
                forall|k: int| 0 <= k < clog.len() ==> (#[trigger] clog[k]).2 is Ok && !clog[k].3,
                forall|k: int|
                    0 <= k < clog.len() ==> chunk_calls(ch, entries, cs[k], (#[trigger] clog[k]).0, clog[k].1, clog[k].2),
            decreases chunks@.len() - i,
        {
            proof {
                lemma_chunk_roots(ch, all_roots, cs, i as int);
            }
            let ghost before = tree.payloads();
            assert(chunks@[i as int]@ == cs[i as int]);
            let outcome = deltas(&mut tree, chunks[i].as_slice(), state, visitor);
            let ghost (vo, log) = choose|vo: Seq<(usize, u16)>, log: Seq<Result<(), Error<E>>>|
                #[trigger] chunk_run(ch, entries, before, tree.payloads(), cs[i as int], vo, log, outcome);
            let ghost o = nodes(vo);
            let ghost prefix = flatten(cs.subrange(0, i as int));
            proof {
                assert(chunk_calls(ch, entries, cs[i as int], vo, log, outcome));
                lemma_visits_concat(ch, prefix, cs[i as int], seen, o);
                let both = seen + o;
                lemma_distinct_bounded(both, n as int);
            }
            let asked = if outcome.is_ok() {
                visitor.is_interrupted()
            } else {
                false
            };
            let fed = reducer.feed(outcome, asked);
            proof {
                let old_clog = clog;
                clog = clog.push((vo, log, outcome, asked));
                assert forall|k: int|
                    0 <= k < clog.len() implies chunk_calls(ch, entries, cs[k], (#[trigger] clog[k]).0, clog[k].1, clog[k].2) by {
                    if k < i {
                        assert(clog[k] == old_clog[k]);
                    }
                }
                assert forall|k: int| 0 <= k < clog.len() - 1 implies (#[trigger] clog[k]).2 is Ok && !clog[k].3 by {
                    assert(clog[k] == old_clog[k]);
                }
            }
            match fed {
                Ok(()) => {},
                Err(e) => {
                    let r = Err(e);
                    proof {
                        if outcome is Err {
                            assert(outcome->Err_0 == e);
                            assert(log.len() > 0);
                            assert(log.last() == Err::<(), Error<E>>(e));
                            assert(step_outcome(entries[vo[log.len() - 1].0 as int], log[log.len() - 1]));
                        }
                        assert(traverse_calls(ch, entries, all_roots, chunk_size as nat, cs, clog, r));
                    }
                    return r;
                },
            }
            proof {
                seen = seen + o;
            }
            i += 1;
        }
        proof {
            assert(cs.subrange(0, i as int) =~= cs);
            assert forall|p: usize, c: usize| seen.contains(p) && #[trigger] is_child(ch, p, c) implies seen.contains(c) by {
                let a = choose|a: int| 0 <= a < seen.len() && seen[a] == p;
                assert(is_child(ch, seen[a], c));
            }
            lemma_closed_holds_all(ch, seen);
        }
        let _ = reducer.finalize();
        let items = tree.into_items();
        let r = Ok(items);
        proof {
            assert(traverse_calls(ch, entries, all_roots, chunk_size as nat, cs, clog, r));
        }
        r
    }
}

} // verus!
