//! A ring of samples with one producer and one consumer.
//!
//! Both ends are held by audio callbacks, so nothing here grows once it is built. A push
//! into a full ring and a pop from an empty one give up and count the samples they could
//! not move, because stalling an IO thread costs far more than the audio it would save.
use vstd::prelude::*;

verus! {

/// The ring itself, from which each end can be taken exactly once at a time.
#[derive(Debug)]
pub struct Shared<T> {
    /// The room for samples.
    pub data: Vec<T>,
    /// Where the oldest sample is.
    pub start: usize,
    /// How many samples are queued.
    pub count: usize,
    /// How many samples could not be queued.
    pub lost: usize,
    pub producer_taken: bool,
    pub consumer_taken: bool,
}

/// The writing end.
#[derive(Debug)]
pub struct Producer {
    out: bool,
}

/// The reading end.
#[derive(Debug)]
pub struct Consumer {
    out: bool,
}

/// Where the sample `i` places behind `start` lies in a ring of `capacity`.
pub open spec fn slot(start: int, i: int, capacity: int) -> int {
    if start + i < capacity {
        start + i
    } else {
        start + i - capacity
    }
}

/// The smaller of two numbers.
pub open spec fn least(a: int, b: int) -> int {
    if a <= b {
        a
    } else {
        b
    }
}

impl<T> Shared<T> {
    /// What every operation keeps.
    pub open spec fn wf(&self) -> bool {
        &&& self.data@.len() > 0
        &&& self.start < self.data@.len()
        &&& self.count <= self.data@.len()
    }

    /// The samples that are queued, oldest first.
    pub open spec fn view(&self) -> Seq<T> {
        Seq::new(
            self.count as nat,
            |i: int| self.data@[slot(self.start as int, i, self.data@.len() as int)],
        )
    }

    /// How many samples it holds at most.
    pub open spec fn capacity(&self) -> int {
        self.data@.len() as int
    }
}

/// Creates a ring holding `capacity` samples.
pub fn ring<T: Copy>(capacity: usize, blank: T) -> (r: Shared<T>)
    requires
        capacity > 0,
    ensures
        r.wf(),
        r@ == Seq::<T>::empty(),
        r.capacity() == capacity,
        r.lost == 0,
        !r.producer_taken,
        !r.consumer_taken,
{
    let mut data: Vec<T> = Vec::new();
    for i in 0..capacity
        invariant
            data@.len() == i,
    {
        data.push(blank);
    }
    let r = Shared {
        data,
        start: 0,
        count: 0,
        lost: 0,
        producer_taken: false,
        consumer_taken: false,
    };
    assert(r@ =~= Seq::<T>::empty());
    r
}

impl<T: Copy> Shared<T> {
    /// The writing end, or nothing while one is already out. Handing out a second
    /// producer would break the single-writer rule the ring is built on.
    pub fn producer(&mut self) -> (r: Option<Producer>)
        requires
            old(self).wf(),
        ensures
            r is Some == !old(self).producer_taken,
            *final(self) == (Shared { producer_taken: true, ..*old(self) }),
    {
        if self.producer_taken {
            None
        } else {
            self.producer_taken = true;
            Some(Producer { out: true })
        }
    }

    /// The reading end, or nothing while one is already out.
    pub fn consumer(&mut self) -> (r: Option<Consumer>)
        requires
            old(self).wf(),
        ensures
            r is Some == !old(self).consumer_taken,
            *final(self) == (Shared { consumer_taken: true, ..*old(self) }),
    {
        if self.consumer_taken {
            None
        } else {
            self.consumer_taken = true;
            Some(Consumer { out: true })
        }
    }

    /// Gives the writing end back.
    pub fn return_producer(&mut self, end: Producer)
        ensures
            *final(self) == (Shared { producer_taken: false, ..*old(self) }),
    {
        self.producer_taken = false;
    }

    /// Gives the reading end back.
    pub fn return_consumer(&mut self, end: Consumer)
        ensures
            *final(self) == (Shared { consumer_taken: false, ..*old(self) }),
    {
        self.consumer_taken = false;
    }

    /// How many samples could not be queued.
    pub fn lost(&self) -> (r: usize)
        ensures
            r == self.lost,
    {
        self.lost
    }

    /// How many samples are queued.
    pub fn queued(&self) -> (r: usize)
        ensures
            r == self@.len(),
    {
        self.count
    }

    /// Throws away everything queued.
    pub fn clear(&mut self)
        requires
            old(self).wf(),
        ensures
            final(self).wf(),
            final(self)@ == Seq::<T>::empty(),
            final(self).capacity() == old(self).capacity(),
            final(self).lost == old(self).lost,
            final(self).producer_taken == old(self).producer_taken,
            final(self).consumer_taken == old(self).consumer_taken,
    {
        self.count = 0;
        assert(self@ =~= Seq::<T>::empty());
    }

    fn put(&mut self, sample: T)
        requires
            old(self).wf(),
            old(self)@.len() < old(self).capacity(),
        ensures
            final(self).wf(),
            final(self)@ == old(self)@.push(sample),
            final(self).capacity() == old(self).capacity(),
            final(self).lost == old(self).lost,
            final(self).producer_taken == old(self).producer_taken,
            final(self).consumer_taken == old(self).consumer_taken,
    {
        let room = self.data.len() - self.start;
        let at: usize = if self.count < room {
            self.start + self.count
        } else {
            self.count - room
        };
        let ghost before = self@;
        self.data.set(at, sample);
        self.count = self.count + 1;
        assert(self@ =~= before.push(sample));
    }

    fn drop_oldest(&mut self, n: usize)
        requires
            old(self).wf(),
            n <= old(self)@.len(),
        ensures
            final(self).wf(),
            final(self)@ == old(self)@.skip(n as int),
            final(self).capacity() == old(self).capacity(),
            final(self).lost == old(self).lost,
            final(self).producer_taken == old(self).producer_taken,
            final(self).consumer_taken == old(self).consumer_taken,
    {
        let ghost before = *self;
        let room = self.data.len() - self.start;
        self.start = if n < room {
            self.start + n
        } else {
            n - room
        };
        self.count = self.count - n;
        assert(self@ =~= before@.skip(n as int));
    }
}

impl Producer {
    /// Writes what fits and returns how much that was.
    pub fn push<T: Copy>(&mut self, ring: &mut Shared<T>, src: &[T]) -> (r: usize)
        requires
            old(ring).wf(),
        ensures
            final(ring).wf(),
            r == least(src@.len() as int, old(ring).capacity() - old(ring)@.len()),
            final(ring)@ == old(ring)@ + src@.take(r as int),
            final(ring).lost == old(ring).lost.wrapping_add((src@.len() - r) as usize),
            final(ring).capacity() == old(ring).capacity(),
            final(ring).producer_taken == old(ring).producer_taken,
            final(ring).consumer_taken == old(ring).consumer_taken,
    {
        let ghost before = ring@;
        let ghost missed = ring.lost;
        let ghost cap = ring.capacity();
        let ghost taken = (ring.producer_taken, ring.consumer_taken);
        let free = ring.data.len() - ring.count;
        let n: usize = if src.len() <= free {
            src.len()
        } else {
            free
        };
        assert(before + src@.take(0) =~= before);
        for i in 0..n
            invariant
                ring.wf(),
                ring.capacity() == cap,
                ring.lost == missed,
                (ring.producer_taken, ring.consumer_taken) == taken,
                n <= src@.len(),
                n <= cap - before.len(),
                ring@ == before + src@.take(i as int),
        {
            ring.put(src[i]);
            assert(before + src@.take(i + 1) =~= (before + src@.take(i as int)).push(
                src@[i as int],
            ));
        }
        ring.lost = ring.lost.wrapping_add(src.len() - n);
        assert(ring@ =~= before + src@.take(n as int));
        n
    }
}

impl Consumer {
    /// Reads what is there into `dst` from place `from` up to place `to` and returns how
    /// much that was. The rest of `dst` is left untouched.
    pub fn pop_at<T: Copy>(
        &mut self,
        ring: &mut Shared<T>,
        dst: &mut Vec<T>,
        from: usize,
        to: usize,
    ) -> (r: usize)
        requires
            old(ring).wf(),
            from <= to <= old(dst)@.len(),
        ensures
            final(ring).wf(),
            r == least(to - from, old(ring)@.len() as int),
            final(ring)@ == old(ring)@.skip(r as int),
            final(dst)@ == old(dst)@.take(from as int) + old(ring)@.take(r as int) + old(
                dst,
            )@.skip(from + r),
            final(ring).lost == old(ring).lost,
            final(ring).capacity() == old(ring).capacity(),
            final(ring).producer_taken == old(ring).producer_taken,
            final(ring).consumer_taken == old(ring).consumer_taken,
    {
        let ghost queue = ring@;
        let ghost whole = dst@;
        let n: usize = if to - from <= ring.count {
            to - from
        } else {
            ring.count
        };
        assert(whole =~= whole.take(from as int) + queue.take(0) + whole.skip(from as int));
        for i in 0..n
            invariant
                ring.wf(),
                ring@ == queue,
                n <= queue.len(),
                from + n <= whole.len(),
                dst.len() == whole.len(),
                dst@ == whole.take(from as int) + queue.take(i as int) + whole.skip(from + i),
        {
            let room = ring.data.len() - ring.start;
            let at: usize = if i < room {
                ring.start + i
            } else {
                i - room
            };
            let sample = ring.data[at];
            assert(sample == queue[i as int]);
            dst.set(from + i, sample);
            assert(dst@ =~= whole.take(from as int) + queue.take(i + 1) + whole.skip(
                from + i + 1,
            ));
        }
        ring.drop_oldest(n);
        n
    }

    /// Reads what is there and returns how much that was. The rest of `dst` is left
    /// untouched.
    pub fn pop<T: Copy>(&mut self, ring: &mut Shared<T>, dst: &mut Vec<T>) -> (r: usize)
        requires
            old(ring).wf(),
        ensures
            final(ring).wf(),
            r == least(old(dst)@.len() as int, old(ring)@.len() as int),
            final(ring)@ == old(ring)@.skip(r as int),
            final(dst)@ == old(ring)@.take(r as int) + old(dst)@.skip(r as int),
            final(ring).lost == old(ring).lost,
            final(ring).capacity() == old(ring).capacity(),
            final(ring).producer_taken == old(ring).producer_taken,
            final(ring).consumer_taken == old(ring).consumer_taken,
    {
        let len = dst.len();
        let ghost whole = dst@;
        let ghost queue = ring@;
        let n = self.pop_at(ring, dst, 0, len);
        assert(whole.take(0) + queue.take(n as int) + whole.skip(0 + n) =~= queue.take(n as int)
            + whole.skip(n as int));
        n
    }

    /// Throws away the oldest samples, returning how many went. Used to drop a backlog
    /// in one go rather than playing it out.
    pub fn skip<T: Copy>(&mut self, ring: &mut Shared<T>, samples: usize) -> (r: usize)
        requires
            old(ring).wf(),
        ensures
            final(ring).wf(),
            r == least(samples as int, old(ring)@.len() as int),
            final(ring)@ == old(ring)@.skip(r as int),
            final(ring).lost == old(ring).lost,
            final(ring).capacity() == old(ring).capacity(),
            final(ring).producer_taken == old(ring).producer_taken,
            final(ring).consumer_taken == old(ring).consumer_taken,
    {
        let n: usize = if samples <= ring.count {
            samples
        } else {
            ring.count
        };
        ring.drop_oldest(n);
        n
    }

    /// How many samples are queued.
    pub fn len<T: Copy>(&self, ring: &Shared<T>) -> (r: usize)
        ensures
            r == ring@.len(),
    {
        ring.queued()
    }
}

/// What is queued once a block was pushed.
pub open spec fn pushed<T>(queue: Seq<T>, capacity: int, src: Seq<T>) -> Seq<T> {
    queue + src.take(least(src.len() as int, capacity - queue.len()))
}

/// Samples come out in the order they went in: once all that was queued before is read,
/// what is read next is what was pushed, as far as it fitted.
pub proof fn law_what_goes_in_comes_out_in_order<T>(queue: Seq<T>, capacity: int, src: Seq<T>)
    requires
        queue.len() <= capacity,
    ensures
        ({
            let after = pushed(queue, capacity, src);
            &&& after.take(queue.len() as int) == queue
            &&& after.skip(queue.len() as int) == src.take(
                least(src.len() as int, capacity - queue.len()),
            )
            &&& after.len() <= capacity
            &&& queue.len() + src.len() <= capacity ==> after == queue + src
        }),
{
    let n = least(src.len() as int, capacity - queue.len());
    let after = pushed(queue, capacity, src);
    assert(after.take(queue.len() as int) =~= queue);
    assert(after.skip(queue.len() as int) =~= src.take(n));
    if queue.len() + src.len() <= capacity {
        assert(src.take(n) =~= src);
    }
}

} // verus!
