//! An iterator that reads ahead of its consumer in chunks, and a switch that
//! either uses it or passes the source through unchanged.
//!
//! The producing side groups items into chunks with [`Chunker`]; the chunks
//! travel through a bounded channel to the consuming side, an [`EagerIter`].
use std::collections::VecDeque;
use std::sync::mpsc::Receiver;
use vstd::prelude::*;
use vstd::std_specs::iter::IteratorSpec;

verus! {

/// The items of a sequence of chunks, one chunk after the other.
pub open spec fn flatten<T>(chunks: Seq<Seq<T>>) -> Seq<T>
    decreases chunks.len(),
{
    if chunks.len() == 0 {
        Seq::empty()
    } else {
        flatten(chunks.drop_last()) + chunks.last()
    }
}

/// Flattening two runs of chunks one after the other gives the flattening of
/// each, one after the other.
pub proof fn lemma_flatten_append<T>(a: Seq<Seq<T>>, b: Seq<Seq<T>>)
    ensures
        flatten(a + b) == flatten(a) + flatten(b),
    decreases b.len(),
{
    if b.len() == 0 {
        assert(a + b =~= a);
        assert(flatten(a) + flatten(b) =~= flatten(a));
    } else {
        let c = a + b;
        assert(c.drop_last() =~= a + b.drop_last());
        lemma_flatten_append(a, b.drop_last());
        assert(c.last() == b.last());
        assert(flatten(a) + flatten(b) =~= flatten(a) + flatten(b.drop_last()) + b.last());
    }
}

/// Every chunk holds between one and `size` items, and all but the last hold
/// exactly `size`.
pub open spec fn well_chunked<T>(chunks: Seq<Seq<T>>, size: nat) -> bool {
    forall|i: int|
        0 <= i < chunks.len() ==> {
            &&& 0 < #[trigger] chunks[i].len() <= size
            &&& i < chunks.len() - 1 ==> chunks[i].len() == size
        }
}

/// Groups items into chunks of a fixed size, in the order they are pushed.
pub struct Chunker<T> {
    out: Vec<T>,
    chunk_size: usize,
    /// The chunks handed out so far.
    emitted: Ghost<Seq<Seq<T>>>,
    /// Every item pushed so far.
    pushed: Ghost<Seq<T>>,
}

impl<T> Chunker<T> {
    /// The items pushed and not yet handed out in a chunk.
    pub closed spec fn pending(&self) -> Seq<T> {
        self.out@
    }

    pub closed spec fn size(&self) -> nat {
        self.chunk_size as nat
    }

    pub closed spec fn emitted(&self) -> Seq<Seq<T>> {
        self.emitted@
    }

    pub closed spec fn pushed(&self) -> Seq<T> {
        self.pushed@
    }

    pub closed spec fn wf(&self) -> bool {
        &&& self.chunk_size > 0
        &&& self.out@.len() < self.chunk_size
        &&& flatten(self.emitted@) + self.out@ == self.pushed@
        &&& forall|i: int|
            0 <= i < self.emitted@.len() ==> (#[trigger] self.emitted@[i]).len() == self.chunk_size
    }

    pub fn new(chunk_size: usize) -> (r: Self)
        requires
            chunk_size > 0,
        ensures
            r.wf(),
            r.size() == chunk_size,
            r.pending() == Seq::<T>::empty(),
            r.emitted() == Seq::<Seq<T>>::empty(),
            r.pushed() == Seq::<T>::empty(),
    {
        Chunker {
            out: Vec::new(),
            chunk_size,
            emitted: Ghost(Seq::empty()),
            pushed: Ghost(Seq::empty()),
        }
    }

    /// Adds `item`; hands out the pending items as one chunk once there are
    /// `chunk_size` of them.
    pub fn push(&mut self, item: T) -> (r: Option<Vec<T>>)
        requires
            old(self).wf(),
        ensures
            final(self).wf(),
            final(self).size() == old(self).size(),
            final(self).pushed() == old(self).pushed().push(item),
            old(self).pending().len() + 1 == old(self).size() ==> {
                &&& r is Some && r->Some_0@ == old(self).pending().push(item)
                &&& final(self).pending() == Seq::<T>::empty()
                &&& final(self).emitted() == old(self).emitted().push(r->Some_0@)
            },
            old(self).pending().len() + 1 != old(self).size() ==> {
                &&& r is None
                &&& final(self).pending() == old(self).pending().push(item)
                &&& final(self).emitted() == old(self).emitted()
            },
    {
        self.out.push(item);
        self.pushed = Ghost(self.pushed@.push(item));
        if self.out.len() == self.chunk_size {
            let mut full = Vec::new();
            std::mem::swap(&mut full, &mut self.out);
            self.emitted = Ghost(self.emitted@.push(full@));
            proof {
                let e = self.emitted@;
                assert(e.drop_last() =~= old(self).emitted@);
            }
            Some(full)
        } else {
            None
        }
    }

    /// Ends the sequence: hands out the pending items as a last chunk, if
    /// there are any. All chunks handed out then hold, in order, exactly the
    /// items pushed.
    pub fn finish(self) -> (r: Option<Vec<T>>)
        requires
            self.wf(),
        ensures
            r is None <==> self.pending().len() == 0,
            r is Some ==> r->Some_0@ == self.pending(),
            ({
                let all = if r is Some {
                    self.emitted().push(r->Some_0@)
                } else {
                    self.emitted()
                };
                &&& flatten(all) == self.pushed()
                &&& well_chunked(all, self.size())
            }),
    {
        if self.out.len() == 0 {
            assert(self.out@ =~= Seq::<T>::empty());
            assert(flatten(self.emitted@) + self.out@ =~= flatten(self.emitted@));
            None
        } else {
            let last = self.out;
            proof {
                let all = self.emitted@.push(last@);
                assert(all.drop_last() =~= self.emitted@);
            }
            Some(last)
        }
    }
}

#[verifier::external_type_specification]
#[verifier::external_body]
#[verifier::reject_recursive_types(T)]
pub struct ExReceiver<T>(Receiver<T>);

/// Relies on `std::sync::mpsc::Receiver::recv`: blocks until a value arrives,
/// and fails once the queue is empty and the sending side is gone. What
/// arrives is up to the sender, so nothing is stated of it.
#[verifier::external_body]
fn receive<T>(receiver: &Receiver<Vec<T>>) -> (r: Option<Vec<T>>) {
    receiver.recv().ok()
}

/// The consuming side of a read-ahead iterator: takes chunks from a bounded
/// channel, whose producer runs elsewhere, and yields their items one by one.
#[verifier::reject_recursive_types(T)]
pub struct EagerIter<T> {
    receiver: Receiver<Vec<T>>,
    chunk: VecDeque<T>,
    size_hint: (usize, Option<usize>),
}

impl<T> EagerIter<T> {
    /// The items of the current chunk that are still to be yielded.
    pub closed spec fn pending(&self) -> Seq<T> {
        self.chunk@
    }

    /// The size hint of the source, taken when the producer was set up.
    pub closed spec fn hint(&self) -> (usize, Option<usize>) {
        self.size_hint
    }

    /// Consumes the chunks sent through `receiver`; `size_hint` is that of
    /// the source that the producer reads.
    pub fn new(receiver: Receiver<Vec<T>>, size_hint: (usize, Option<usize>)) -> (r: Self)
        ensures
            r.pending() == Seq::<T>::empty(),
            r.hint() == size_hint,
    {
        EagerIter { receiver, chunk: VecDeque::new(), size_hint }
    }

    /// Makes `received`, the outcome of waiting for the next chunk, the
    /// current chunk, and yields its first item. `None` means that the
    /// producer is done, and so does an empty chunk, which it never sends.
    pub fn take_chunk(&mut self, received: Option<Vec<T>>) -> (r: Option<T>)
        ensures
            final(self).hint() == old(self).hint(),
            received is None ==> r is None && final(self).pending() == Seq::<T>::empty(),
            received is Some ==> {
                let v = received->Some_0@;
                &&& v.len() == 0 ==> r is None && final(self).pending() == Seq::<T>::empty()
                &&& v.len() > 0 ==> r == Some(v[0]) && final(self).pending() == v.drop_first()
            },
    {
        let mut queue: VecDeque<T> = VecDeque::new();
        match received {
            None => {},
            Some(mut v) => {
                let ghost all = v@;
                while v.len() > 0
                    invariant
                        all.len() == v@.len() + queue@.len(),
                        v@ == all.subrange(0, v@.len() as int),
                        queue@ == all.subrange(v@.len() as int, all.len() as int),
                    decreases v@.len(),
                {
                    let item = v.pop().unwrap();
                    queue.push_front(item);
                }
                assert(queue@ =~= all);
            },
        }
        let r = queue.pop_front();
        self.chunk = queue;
        r
    }

    /// Waits for the next chunk and yields its first item; `None` once the
    /// producer is done.
    pub fn fill_buf_and_pop(&mut self) -> (r: Option<T>)
        ensures
            final(self).hint() == old(self).hint(),
            r is None ==> final(self).pending() == Seq::<T>::empty(),
    {
        let received = receive(&self.receiver);
        self.take_chunk(received)
    }

    /// The next item: from the current chunk while it lasts, then from the
    /// next chunk to arrive.
    pub fn next(&mut self) -> (r: Option<T>)
        ensures
            final(self).hint() == old(self).hint(),
            old(self).pending().len() > 0 ==> {
                &&& r == Some(old(self).pending()[0])
                &&& final(self).pending() == old(self).pending().drop_first()
            },
            r is None ==> final(self).pending() == Seq::<T>::empty(),
    {
        if self.chunk.len() > 0 {
            self.chunk.pop_front()
        } else {
            self.fill_buf_and_pop()
        }
    }

    /// The size hint of the source.
    pub fn size_hint(&self) -> (r: (usize, Option<usize>))
        ensures
            r == self.hint(),
    {
        self.size_hint
    }
}

/// Relies on `Iterator::size_hint`: the source's own estimate of how many
/// items remain, of which nothing is stated here.
#[verifier::external_body]
fn source_size_hint<I: Iterator>(iter: &I) -> (usize, Option<usize>) {
    iter.size_hint()
}

/// A sequence that reads ahead of its consumer, or that is the source itself,
/// as was decided once when it was made.
pub enum EagerIterIf<I: Iterator> {
    Eager(EagerIter<I::Item>),
    OnDemand(I),
}

impl<I: Iterator> EagerIterIf<I> {
    /// Asks `condition` once: if it holds, `make_eager` turns `iter` into a
    /// read-ahead iterator; if not, `iter` is kept as it is.
    pub fn new(
        condition: impl FnOnce() -> bool,
        iter: I,
        make_eager: impl FnOnce(I) -> EagerIter<I::Item>,
    ) -> (r: Self)
        requires
            condition.requires(()),
            make_eager.requires((iter,)),
        ensures
            exists|c: bool|
                {
                    &&& condition.ensures((), c)
                    &&& c ==> r is Eager && make_eager.ensures((iter,), r->Eager_0)
                    &&& !c ==> r == EagerIterIf::OnDemand(iter)
                },
    {
        let c = condition();
        if c {
            EagerIterIf::Eager(make_eager(iter))
        } else {
            EagerIterIf::OnDemand(iter)
        }
    }

    /// The next item of whichever sequence this is.
    pub fn next(&mut self) -> (r: Option<I::Item>)
        ensures
            (*old(self) is Eager) == (*final(self) is Eager),
            *old(self) is Eager ==> {
                let (o, f) = (old(self)->Eager_0, final(self)->Eager_0);
                &&& f.hint() == o.hint()
                &&& o.pending().len() > 0 ==> r == Some(o.pending()[0]) && f.pending()
                    == o.pending().drop_first()
            },
            *old(self) is OnDemand ==> {
                let (o, f) = (old(self)->OnDemand_0, final(self)->OnDemand_0);
                o.obeys_prophetic_iter_laws() ==> if o.remaining().len() > 0 {
                    r == Some(o.remaining()[0]) && f.remaining() == o.remaining().drop_first()
                } else {
                    r is None
                }
            },
    {
        match self {
            EagerIterIf::OnDemand(i) => i.next(),
            EagerIterIf::Eager(i) => i.next(),
        }
    }

    /// The size hint of the source, whichever sequence this is.
    pub fn size_hint(&self) -> (r: (usize, Option<usize>))
        ensures
            *self is Eager ==> r == self->Eager_0.hint(),
    {
        match self {
            EagerIterIf::OnDemand(i) => source_size_hint(i),
            EagerIterIf::Eager(i) => i.size_hint(),
        }
    }
}

} // verus!
