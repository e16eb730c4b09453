use vstd::prelude::*;
use crate::slots::Slots;
use crate::stack::{PopError, PushError};
use crate::text::{
    nat_decimal, parse_usize, split_words, string_views, usize_literal, usize_to_string, words,
};

verus! {

/// A first-in-first-out container of bounded capacity.
pub trait Queue<T>: Sized {
    /// The values held, oldest first.
    spec fn items(&self) -> Seq<T>;

    /// How many more values `enqueue` accepts, if nothing is dequeued.
    spec fn room(&self) -> nat;

    /// Whether each dequeue frees one more place for an enqueue.
    spec fn reuses_cells(&self) -> bool;

    /// Well-formedness of the representation.
    spec fn inv(&self) -> bool;

    /// Appends `x` at the tail, unless the queue has no room left.
    fn enqueue(&mut self, x: T) -> (r: Result<(), PushError>)
        requires
            old(self).inv(),
        ensures
            final(self).inv(),
            final(self).reuses_cells() == old(self).reuses_cells(),
            old(self).room() == 0 ==> r == Err::<(), PushError>(PushError::IsFull)
                && *final(self) == *old(self),
            old(self).room() > 0 ==> r == Ok::<(), PushError>(())
                && final(self).items() == old(self).items().push(x)
                && final(self).room() == old(self).room() - 1,
    ;

    /// Removes and returns the value at the head, unless the queue is empty.
    fn dequeue(&mut self) -> (r: Result<T, PopError>)
        requires
            old(self).inv(),
        ensures
            final(self).inv(),
            final(self).reuses_cells() == old(self).reuses_cells(),
            old(self).items().len() == 0 ==> r == Err::<T, PopError>(PopError::IsEmpty)
                && *final(self) == *old(self),
            old(self).items().len() > 0 ==> r == Ok::<T, PopError>(old(self).items()[0])
                && final(self).items() == old(self).items().drop_first()
                && final(self).room() >= old(self).room(),
            old(self).items().len() > 0 && old(self).reuses_cells()
                ==> final(self).room() == old(self).room() + 1,
    ;

    /// Whether the queue holds no value.
    fn is_empty(&self) -> (r: bool)
        requires
            self.inv(),
        ensures
            r == (self.items().len() == 0),
    ;

    /// Whether `enqueue` would fail.
    fn is_full(&self) -> (r: bool)
        requires
            self.inv(),
        ensures
            r == (self.room() == 0),
    ;

    /// The number of values held.
    fn len(&self) -> (r: usize)
        requires
            self.inv(),
        ensures
            r == self.items().len(),
    ;
}

/// A queue whose values live in a vector, holding at most the capacity given
/// at construction; a dequeue frees a place.
pub struct VecQueue<T> {
    items: Vec<T>,
    cap: usize,
}

impl<T> VecQueue<T> {
    /// An empty queue that holds at most `capacity` values at a time.
    pub fn new(capacity: usize) -> (r: Self)
        ensures
            r.inv(),
            r.items() == Seq::<T>::empty(),
            r.room() == capacity,
            r.reuses_cells(),
    {
        VecQueue { items: Vec::with_capacity(capacity), cap: capacity }
    }
}

impl<T> Queue<T> for VecQueue<T> {
    closed spec fn items(&self) -> Seq<T> {
        self.items@
    }

    closed spec fn room(&self) -> nat {
        (self.cap - self.items@.len()) as nat
    }

    closed spec fn reuses_cells(&self) -> bool {
        true
    }

    closed spec fn inv(&self) -> bool {
        self.items@.len() <= self.cap
    }

    fn enqueue(&mut self, x: T) -> (r: Result<(), PushError>) {
        if self.items.len() >= self.cap {
            return Err(PushError::IsFull);
        }
        self.items.push(x);
        Ok(())
    }

    fn dequeue(&mut self) -> (r: Result<T, PopError>) {
        if self.items.len() == 0 {
            return Err(PopError::IsEmpty);
        }
        Ok(self.items.remove(0))
    }

    fn is_empty(&self) -> (r: bool) {
        self.items.len() == 0
    }

    fn is_full(&self) -> (r: bool) {
        self.items.len() >= self.cap
    }

    fn len(&self) -> (r: usize) {
        self.items.len()
    }
}

/// The capacity of an [`ArrayQueue`].
pub const ARRAY_QUEUE_SIZE: usize = 256;

/// A queue over a fixed block of [`ARRAY_QUEUE_SIZE`] slots.
///
/// The cells from `head` up to `tail` are occupied, oldest first, and the
/// others empty. Neither index wraps around: `tail` counts every enqueue the
/// queue has ever accepted, so it accepts [`ARRAY_QUEUE_SIZE`] in its whole
/// lifetime, however many have been dequeued since.
pub struct ArrayQueue<T> {
    slots: Slots<T>,
    head: usize,
    tail: usize,
}

impl<T> ArrayQueue<T> {
    /// An empty queue that accepts [`ARRAY_QUEUE_SIZE`] enqueues.
    pub fn new() -> (r: Self)
        ensures
            r.inv(),
            r.items() == Seq::<T>::empty(),
            r.room() == ARRAY_QUEUE_SIZE,
            !r.reuses_cells(),
    {
        let r = ArrayQueue { slots: Slots::new(ARRAY_QUEUE_SIZE), head: 0, tail: 0 };
        assert(r.items() =~= Seq::<T>::empty());
        r
    }
}

impl<T> Queue<T> for ArrayQueue<T> {
    closed spec fn items(&self) -> Seq<T> {
        Seq::new((self.tail - self.head) as nat, |i: int| self.slots@[self.head + i]->Some_0)
    }

    closed spec fn room(&self) -> nat {
        (ARRAY_QUEUE_SIZE - self.tail) as nat
    }

    closed spec fn reuses_cells(&self) -> bool {
        false
    }

    closed spec fn inv(&self) -> bool {
        &&& self.slots@.len() == ARRAY_QUEUE_SIZE
        &&& self.head <= self.tail <= ARRAY_QUEUE_SIZE
        &&& forall|i: int|
            0 <= i < ARRAY_QUEUE_SIZE ==> ((#[trigger] self.slots@[i]) is Some <==> self.head <= i
                < self.tail)
    }

    fn enqueue(&mut self, x: T) -> (r: Result<(), PushError>) {
        if self.tail >= self.slots.len() {
            return Err(PushError::IsFull);
        }
        let ghost before = self.items();
        self.slots.write(self.tail, x);
        self.tail = self.tail + 1;
        assert(self.items() =~= before.push(x));
        Ok(())
    }

    fn dequeue(&mut self) -> (r: Result<T, PopError>) {
        if self.head == self.tail {
            return Err(PopError::IsEmpty);
        }
        let ghost before = self.items();
        let v = self.slots.take(self.head);
        self.head = self.head + 1;
        assert(self.items() =~= before.drop_first());
        Ok(v)
    }

    fn is_empty(&self) -> (r: bool) {
        self.tail == self.head
    }

    fn is_full(&self) -> (r: bool) {
        self.tail >= ARRAY_QUEUE_SIZE
    }

    fn len(&self) -> (r: usize) {
        self.tail - self.head
    }
}

/// One call on a queue, for stating laws over sequences of calls.
pub enum QueueOp<T> {
    Enqueue(T),
    Dequeue,
}

/// The values that the `Enqueue` calls among `ops` hand in, in order.
pub open spec fn enqueued<T>(ops: Seq<QueueOp<T>>) -> Seq<T>
    decreases ops.len(),
{
    if ops.len() == 0 {
        Seq::empty()
    } else {
        match ops.last() {
            QueueOp::Enqueue(x) => enqueued(ops.drop_last()).push(x),
            QueueOp::Dequeue => enqueued(ops.drop_last()),
        }
    }
}

/// The state after the calls `ops` on a fresh queue that accepts `cap`
/// enqueues in its lifetime: the values held, the values dequeued so far in
/// the order they came out, and the number of enqueues accepted. A call that
/// fails changes nothing.
pub open spec fn replay<T>(ops: Seq<QueueOp<T>>, cap: nat) -> (Seq<T>, Seq<T>, nat)
    decreases ops.len(),
{
    if ops.len() == 0 {
        (Seq::empty(), Seq::empty(), 0)
    } else {
        let (held, out, accepted) = replay(ops.drop_last(), cap);
        match ops.last() {
            QueueOp::Enqueue(x) => if accepted < cap {
                (held.push(x), out, accepted + 1)
            } else {
                (held, out, accepted)
            },
            QueueOp::Dequeue => if held.len() > 0 {
                (held.drop_first(), out.push(held[0]), accepted)
            } else {
                (held, out, accepted)
            },
        }
    }
}

/// First in, first out: as long as no more than `cap` values are enqueued in
/// all, however enqueues and dequeues interleave, the values dequeued so far
/// followed by those still held are exactly the values enqueued, in order.
pub proof fn lemma_fifo<T>(ops: Seq<QueueOp<T>>, cap: nat)
    requires
        enqueued(ops).len() <= cap,
    ensures
        replay(ops, cap).1 + replay(ops, cap).0 == enqueued(ops),
        replay(ops, cap).2 == enqueued(ops).len(),
    decreases ops.len(),
{
    if ops.len() > 0 {
        let prev = ops.drop_last();
        assert(enqueued(prev).len() <= enqueued(ops).len());
        lemma_fifo(prev, cap);
        let (held, out, accepted) = replay(prev, cap);
        match ops.last() {
            QueueOp::Enqueue(x) => {
                assert(out + held.push(x) =~= (out + held).push(x));
            },
            QueueOp::Dequeue => {
                if held.len() > 0 {
                    assert(out.push(held[0]) + held.drop_first() =~= out + held);
                }
            },
        }
    }
}

/// A process of the round-robin simulation: its name, the run time it still
/// needs, and the clock value at which it finished.
#[derive(Debug, Eq, PartialEq, Clone, Default, Hash)]
pub struct Process {
    pub name: String,
    pub time: usize,
    pub elapsed: usize,
}

impl Process {
    /// A process that needs `time` units of run time and has not finished.
    pub fn new(name: String, time: usize) -> (r: Self)
        ensures
            r.name == name,
            r.time == time,
            r.elapsed == 0,
    {
        Process { name, time, elapsed: 0 }
    }
}

/// The run time that the processes `ps` still need in all.
pub open spec fn total_time(ps: Seq<Process>) -> nat
    decreases ps.len(),
{
    if ps.len() == 0 {
        0
    } else {
        ps[0].time as nat + total_time(ps.drop_first())
    }
}

proof fn lemma_total_time_push(ps: Seq<Process>, p: Process)
    ensures
        total_time(ps.push(p)) == total_time(ps) + p.time,
    decreases ps.len(),
{
    if ps.len() > 0 {
        assert(ps.push(p).drop_first() =~= ps.drop_first().push(p));
        lemma_total_time_push(ps.drop_first(), p);
    } else {
        assert(ps.push(p).drop_first() =~= Seq::<Process>::empty());
        assert(total_time(Seq::<Process>::empty()) == 0);
    }
}

/// `p` once it has run for one full quantum without finishing.
pub open spec fn after_slice(p: Process, quantum: nat) -> Process {
    Process { name: p.name, time: (p.time - quantum) as usize, elapsed: p.elapsed }
}

/// `p` once it has finished at clock value `at`.
pub open spec fn finished_at(p: Process, at: int) -> Process {
    Process { name: p.name, time: p.time, elapsed: at as usize }
}

/// The processes that finish, in the order they finish, when the processes
/// `ready` run round-robin in slices of `quantum`, starting at clock value
/// `clock`: the head runs for a quantum, or less if it needs less; a process
/// that is not done goes back to the tail.
pub open spec fn round_robin(ready: Seq<Process>, quantum: nat, clock: nat) -> Seq<Process>
    decreases total_time(ready), ready.len(),
    via round_robin_decreases
{
    if ready.len() == 0 || quantum == 0 {
        Seq::empty()
    } else {
        let p = ready[0];
        if p.time <= quantum {
            seq![finished_at(p, clock + p.time)] + round_robin(
                ready.drop_first(),
                quantum,
                clock + p.time as nat,
            )
        } else {
            round_robin(
                ready.drop_first().push(after_slice(p, quantum)),
                quantum,
                clock + quantum,
            )
        }
    }
}

/// How many times a process goes back to the tail in [`round_robin`].
pub open spec fn requeues(ready: Seq<Process>, quantum: nat) -> nat
    decreases total_time(ready), ready.len(),
    via requeues_decreases
{
    if ready.len() == 0 || quantum == 0 {
        0
    } else {
        let p = ready[0];
        if p.time <= quantum {
            requeues(ready.drop_first(), quantum)
        } else {
            1 + requeues(ready.drop_first().push(after_slice(p, quantum)), quantum)
        }
    }
}

proof fn lemma_slice_shrinks(ready: Seq<Process>, quantum: nat)
    requires
        ready.len() > 0,
        quantum > 0,
        ready[0].time > quantum,
    ensures
        total_time(ready.drop_first().push(after_slice(ready[0], quantum))) == total_time(ready)
            - quantum,
{
    lemma_total_time_push(ready.drop_first(), after_slice(ready[0], quantum));
}

#[via_fn]
proof fn round_robin_decreases(ready: Seq<Process>, quantum: nat, clock: nat) {
    if ready.len() > 0 && quantum > 0 && ready[0].time > quantum {
        lemma_slice_shrinks(ready, quantum);
    }
}

#[via_fn]
proof fn requeues_decreases(ready: Seq<Process>, quantum: nat) {
    if ready.len() > 0 && quantum > 0 && ready[0].time > quantum {
        lemma_slice_shrinks(ready, quantum);
    }
}

/// Runs the processes held in `queue` round-robin in slices of `quantom` and
/// returns them in the order they finish, each with the clock value at which
/// it finished.
///
/// A process that is not done goes back into `queue`; if the queue refuses it,
/// the run stops with that error. That never happens when the queue frees a
/// place on each dequeue or has room for every return to the tail.
pub fn compute<Q: Queue<Process>>(queue: &mut Q, quantom: usize) -> (r: Result<
    Vec<Process>,
    PushError,
>)
    requires
        old(queue).inv(),
        quantom > 0,
        total_time(old(queue).items()) <= usize::MAX,
    ensures
        final(queue).inv(),
        r is Ok ==> r->Ok_0@ == round_robin(old(queue).items(), quantom as nat, 0),
        r is Ok ==> final(queue).items().len() == 0,
        r is Err ==> r == Err::<Vec<Process>, PushError>(PushError::IsFull),
        old(queue).reuses_cells() ==> r is Ok,
        requeues(old(queue).items(), quantom as nat) <= old(queue).room() ==> r is Ok,
{
    let ghost q = quantom as nat;
    let ghost total = total_time(queue.items());
    let ghost start = round_robin(queue.items(), q, 0);
    let ghost enough = queue.reuses_cells() || requeues(queue.items(), q) <= queue.room();
    let mut result: Vec<Process> = Vec::new();
    let mut now_time: usize = 0;
    loop
        invariant
            queue.inv(),
            q == quantom as nat,
            quantom > 0,
            total <= usize::MAX,
            now_time + total_time(queue.items()) == total,
            result@ + round_robin(queue.items(), q, now_time as nat) == start,
            enough == (old(queue).reuses_cells() || requeues(old(queue).items(), q)
                <= old(queue).room()),
            enough ==> queue.reuses_cells() || requeues(queue.items(), q) <= queue.room(),
        ensures
            queue.items().len() == 0,
        decreases total_time(queue.items()), queue.items().len(),
    {
        let ghost before = queue.items();
        let mut ps = match queue.dequeue() {
            Ok(p) => p,
            Err(_) => break,
        };
        if ps.time <= quantom {
            now_time = now_time + ps.time;
            ps.elapsed = now_time;
            proof {
                assert(ps == finished_at(before[0], now_time as int));
                assert(result@.push(ps) + round_robin(queue.items(), q, now_time as nat) =~= result@
                    + round_robin(before, q, (now_time - before[0].time) as nat));
            }
            result.push(ps);
        } else {
            proof {
                lemma_slice_shrinks(before, q);
            }
            ps.time = ps.time - quantom;
            now_time = now_time + quantom;
            assert(ps == after_slice(before[0], q));
            assert(enough ==> queue.room() > 0) by {
                if enough && !queue.reuses_cells() {
                    assert(requeues(before, q) == 1 + requeues(queue.items().push(ps), q));
                }
            }
            if queue.enqueue(ps).is_err() {
                return Err(PushError::IsFull);
            }
        }
    }
    assert(result@ + Seq::<Process>::empty() =~= result@);
    Ok(result)
}

/// The simulation depends on its input alone: equal processes and quanta
/// give equal completion traces.
pub proof fn lemma_round_robin_deterministic(
    a: Seq<Process>,
    b: Seq<Process>,
    qa: nat,
    qb: nat,
)
    requires
        a == b,
        qa == qb,
    ensures
        round_robin(a, qa, 0) == round_robin(b, qb, 0),
{
}

/// Why a scheduling input cannot be run.
#[derive(Debug, PartialEq, Eq, Structural, Hash, Copy, Clone)]
pub enum ScheduleError {
    /// The text is not a header of two numbers, a positive quantum second,
    /// followed by pairs of a name and a run time.
    Malformed,
    /// The run times add up to more than `usize` can count.
    Overflow,
}

/// Whether the words `ws` are a count, a positive quantum and then pairs of a
/// name and a run time, every number in decimal.
pub open spec fn schedule_well_formed(ws: Seq<Seq<char>>) -> bool {
    &&& ws.len() >= 2
    &&& ws.len() % 2 == 0
    &&& usize_literal(ws[0]) is Some
    &&& usize_literal(ws[1]) is Some
    &&& usize_literal(ws[1])->Some_0 > 0
    &&& forall|k: int| 0 <= k < (ws.len() - 2) / 2 ==> (#[trigger] usize_literal(ws[2 * k + 3])) is Some
}

/// Whether `ps` are the processes, in order and not yet run, that the words
/// `ws` list after their header.
pub open spec fn describes(ps: Seq<Process>, ws: Seq<Seq<char>>) -> bool {
    &&& ws.len() == 2 * ps.len() + 2
    &&& forall|k: int|
        0 <= k < ps.len() ==> {
            &&& (#[trigger] ps[k]).name@ == ws[2 * k + 2]
            &&& usize_literal(ws[2 * k + 3]) == Some(ps[k].time)
            &&& ps[k].elapsed == 0
        }
}

/// One line per process, in order: its name, a space, and the clock value at
/// which it finished.
pub open spec fn report(ps: Seq<Process>) -> Seq<char>
    decreases ps.len(),
{
    if ps.len() == 0 {
        Seq::empty()
    } else {
        report(ps.drop_last()) + ps.last().name@ + seq![' '] + nat_decimal(
            ps.last().elapsed as nat,
        ) + seq!['\n']
    }
}

fn format_report(ps: &Vec<Process>) -> (r: String)
    ensures
        r@ == report(ps@),
{
    let mut out = String::new();
    let mut i: usize = 0;
    while i < ps.len()
        invariant
            i <= ps@.len(),
            out@ == report(ps@.take(i as int)),
        decreases ps.len() - i,
    {
        proof {
            reveal_strlit(" ");
            reveal_strlit("\n");
        }
        let ghost before = out@;
        assert(ps@.take(i + 1).drop_last() =~= ps@.take(i as int));
        assert(ps@.take(i + 1).last() == ps@[i as int]);
        out.append(ps[i].name.as_str());
        out.append(" ");
        out.append(usize_to_string(ps[i].elapsed).as_str());
        out.append("\n");
        assert(out@ =~= before + ps@[i as int].name@ + seq![' '] + nat_decimal(
            ps@[i as int].elapsed as nat,
        ) + seq!['\n']);
        i = i + 1;
    }
    assert(ps@.take(ps@.len() as int) =~= ps@);
    out
}

/// Reads a count, a quantum, and then a name and a run time per process, all
/// separated by whitespace; runs the processes round-robin on a
/// [`VecQueue`]; and reports them in the order they finish, one line each
/// with the clock value at which it finished.
pub fn input_queue(input: &str) -> (r: Result<String, ScheduleError>)
    ensures
        !schedule_well_formed(words(input@)) <==> r == Err::<String, ScheduleError>(
            ScheduleError::Malformed,
        ),
        r == Err::<String, ScheduleError>(ScheduleError::Overflow) ==> exists|ps: Seq<Process>|
            describes(ps, words(input@)) && total_time(ps) > usize::MAX,
        r is Ok ==> exists|ps: Seq<Process>|
            describes(ps, words(input@)) && total_time(ps) <= usize::MAX && r->Ok_0@ == report(
                round_robin(ps, usize_literal(words(input@)[1])->Some_0 as nat, 0),
            ),
{
    let ws = split_words(input);
    let ghost wv = string_views(ws@);
    assert(wv.len() == ws@.len());
    assert(forall|k: int| 0 <= k < ws@.len() ==> wv[k] == (#[trigger] ws@[k])@);
    if ws.len() < 2 || ws.len() % 2 != 0 {
        return Err(ScheduleError::Malformed);
    }
    if parse_usize(ws[0].as_str()).is_none() {
        return Err(ScheduleError::Malformed);
    }
    let quantum = match parse_usize(ws[1].as_str()) {
        Some(q) => q,
        None => {
            return Err(ScheduleError::Malformed);
        },
    };
    if quantum == 0 {
        return Err(ScheduleError::Malformed);
    }
    let n = (ws.len() - 2) / 2;
    assert(ws@.len() == 2 * n + 2);
    let mut queue: VecQueue<Process> = VecQueue::new(n);
    let mut total: usize = 0;
    let mut overflow = false;
    let mut k: usize = 0;
    while k < n
        invariant
            wv == words(input@),
            wv.len() == ws@.len(),
            forall|j: int| 0 <= j < ws@.len() ==> wv[j] == (#[trigger] ws@[j])@,
            ws@.len() == 2 * n + 2,
            k <= n,
            queue.inv(),
            queue.reuses_cells(),
            queue.items().len() == k,
            queue.room() == n - k,
            forall|j: int| 0 <= j < k ==> (#[trigger] usize_literal(wv[2 * j + 3])) is Some,
            describes(queue.items(), wv.take(2 * k + 2)),
            !overflow ==> total == total_time(queue.items()),
            overflow ==> total_time(queue.items()) > usize::MAX,
        decreases n - k,
    {
        assert(2 * k + 3 < ws@.len());
        assert(ws@.len() == ws.len());
        let time = match parse_usize(ws[2 * k + 3].as_str()) {
            Some(t) => t,
            None => {
                assert(!schedule_well_formed(wv)) by {
                    assert(usize_literal(wv[2 * k + 3]) is None);
                }
                return Err(ScheduleError::Malformed);
            },
        };
        let p = Process::new(ws[2 * k + 2].clone(), time);
        let ghost before = queue.items();
        proof {
            lemma_total_time_push(before, p);
        }
        if !overflow {
            match total.checked_add(time) {
                Some(t) => total = t,
                None => overflow = true,
            }
        }
        let _ = queue.enqueue(p);
        assert(describes(queue.items(), wv.take(2 * k + 4))) by {
            assert forall|j: int| 0 <= j < k + 1 implies {
                &&& (#[trigger] queue.items()[j]).name@ == wv.take(2 * k + 4)[2 * j + 2]
                &&& usize_literal(wv.take(2 * k + 4)[2 * j + 3]) == Some(queue.items()[j].time)
                &&& queue.items()[j].elapsed == 0
            } by {
                if j < k {
                    assert(queue.items()[j] == before[j]);
                    assert(wv.take(2 * k + 2)[2 * j + 2] == wv[2 * j + 2]);
                    assert(wv.take(2 * k + 2)[2 * j + 3] == wv[2 * j + 3]);
                }
            }
        }
        k = k + 1;
    }
    assert(wv.take(2 * n + 2) =~= wv);
    let ghost ps = queue.items();
    if overflow {
        return Err(ScheduleError::Overflow);
    }
    match compute(&mut queue, quantum) {
        Ok(done) => Ok(format_report(&done)),
        Err(_) => Err(ScheduleError::Overflow),
    }
}

} // verus!
