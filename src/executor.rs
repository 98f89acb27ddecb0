//! Cooperative round-robin executor: process descriptors, a ready queue and
//! one FIFO mailbox per process.
use crate::paging::{frame_of, translation, vpn, PageTable};
use std::collections::VecDeque;
use vstd::prelude::*;

verus! {

/// Size of a process's kernel stack, in bytes.
pub const STACK_SIZE: u64 = 4096;

/// The value of `currently_executing` before any process has run: an id
/// that is never handed out.
pub const NO_PROCESS: u64 = u64::MAX;

/// `ready` without `id`, if it holds it.
pub open spec fn unqueued(ready: Seq<u64>, id: u64) -> Seq<u64> {
    if ready.contains(id) {
        ready.remove(ready.index_of(id))
    } else {
        ready
    }
}

/// What a process does with each message delivered to it.
pub trait Process<M> {
    /// The messages the process has been handed so far, oldest first.
    spec fn received(&self) -> Seq<M>;

    /// Handles one message.
    fn process_message(&mut self, message: M)
        ensures
            final(self).received() == old(self).received().push(message),
    ;
}

/// A message handler with nothing to state about what it does.
pub trait Handler<M> {
    fn handle(&mut self, message: M);
}

/// A process built from a plain handler: it keeps the record of what it
/// was handed and passes each message on to the handler.
pub struct HandlerProcess<H, M> {
    handler: H,
    log: Ghost<Seq<M>>,
}

impl<H: Handler<M>, M> HandlerProcess<H, M> {
    /// A process around `handler` that has received nothing yet.
    pub fn new(handler: H) -> (r: Self)
        ensures
            r.received() == Seq::<M>::empty(),
            r.spec_handler() == handler,
    {
        HandlerProcess { handler, log: Ghost(Seq::empty()) }
    }

    pub closed spec fn spec_handler(&self) -> H {
        self.handler
    }

    /// The wrapped handler.
    pub fn handler(&self) -> (r: &H)
        ensures
            *r == self.spec_handler(),
    {
        &self.handler
    }
}

impl<H: Handler<M>, M> Process<M> for HandlerProcess<H, M> {
    closed spec fn received(&self) -> Seq<M> {
        self.log@
    }

    fn process_message(&mut self, message: M) {
        self.log = Ghost(self.log@.push(message));
        self.handler.handle(message);
    }
}

/// Lifecycle of a process.
#[derive(Clone, Copy, Debug, PartialEq, Eq, Structural)]
pub enum ProcessState {
    New,
    Running,
    Finished,
}

/// The registers saved when a process is interrupted.
#[derive(Clone, Copy, Debug, PartialEq, Eq, Structural)]
pub struct ProcessRegisters {
    pub instruction_pointer: u64,
    pub stack_pointer: u64,
    pub cpu_flags: u64,
}

impl ProcessRegisters {
    /// All registers zero.
    pub fn zero() -> (r: ProcessRegisters)
        ensures
            r == (ProcessRegisters { instruction_pointer: 0, stack_pointer: 0, cpu_flags: 0 }),
    {
        ProcessRegisters { instruction_pointer: 0, stack_pointer: 0, cpu_flags: 0 }
    }
}

/// What a descriptor holds, apart from the handler object.
pub struct ProcessView<M> {
    pub id: u64,
    pub mailbox: Seq<M>,
    pub children: Seq<u64>,
    pub state: ProcessState,
    pub registers: ProcessRegisters,
    pub stack_address: u64,
    /// The messages its handler has been handed, oldest first.
    pub received: Seq<M>,
}

/// One process: its handler, mailbox, lifecycle state and saved registers.
pub struct ProcessDescriptor<P, M> {
    id: u64,
    process: P,
    stack_address: u64,
    mailbox: VecDeque<M>,
    children: Vec<u64>,
    state: ProcessState,
    registers: ProcessRegisters,
}

impl<P: Process<M>, M> ProcessDescriptor<P, M> {
    pub closed spec fn view(&self) -> ProcessView<M> {
        ProcessView {
            id: self.id,
            mailbox: self.mailbox@,
            children: self.children@,
            state: self.state,
            registers: self.registers,
            stack_address: self.stack_address,
            received: self.process.received(),
        }
    }

    fn new(id: u64, process: P, stack_address: u64) -> (r: Self)
        ensures
            r@ == (ProcessView::<M> {
                id,
                mailbox: Seq::empty(),
                children: Seq::empty(),
                state: ProcessState::New,
                registers: ProcessRegisters { instruction_pointer: 0, stack_pointer: 0, cpu_flags: 0 },
                stack_address,
                received: process.received(),
            }),
            r.handler() == process,
    {
        let r = ProcessDescriptor {
            id,
            process,
            stack_address,
            mailbox: VecDeque::new(),
            children: Vec::new(),
            state: ProcessState::New,
            registers: ProcessRegisters::zero(),
        };
        assert(r.mailbox@ =~= Seq::empty());
        assert(r.children@ =~= Seq::empty());
        r
    }

    pub fn id(&self) -> (r: u64)
        ensures
            r == self@.id,
    {
        self.id
    }

    pub fn registers(&self) -> (r: &ProcessRegisters)
        ensures
            *r == self@.registers,
    {
        &self.registers
    }

    pub fn state(&self) -> (r: &ProcessState)
        ensures
            *r == self@.state,
    {
        &self.state
    }

    /// Base address of the process's one-page kernel stack.
    pub fn stack_address(&self) -> (r: u64)
        ensures
            r == self@.stack_address,
    {
        self.stack_address
    }

    /// Address of the guard page just below the stack, which the kernel
    /// leaves unmapped so that a stack overflow faults.
    pub fn guard_address(&self) -> (r: u64)
        requires
            STACK_SIZE <= self@.stack_address,
        ensures
            r == self@.stack_address - STACK_SIZE,
    {
        self.stack_address - STACK_SIZE
    }

    /// Unmaps the guard page below the stack, so that a stack overflow
    /// faults instead of writing over whatever lies below; no other page's
    /// mapping changes.
    pub fn create_guard(&self, page_table: &mut PageTable)
        requires
            STACK_SIZE <= self@.stack_address,
            old(page_table).wf(),
        ensures
            final(page_table).wf(),
            translation(final(page_table)@, (self@.stack_address - STACK_SIZE) as u64) is None,
            forall|m: nat|
                m != vpn((self@.stack_address - STACK_SIZE) as u64) ==> #[trigger] frame_of(final(page_table)@, m)
                    == frame_of(old(page_table)@, m),
    {
        page_table.unmap_page(self.guard_address());
    }

    /// Number of messages waiting in the mailbox.
    pub fn pending_messages(&self) -> (r: usize)
        ensures
            r == self@.mailbox.len(),
    {
        self.mailbox.len()
    }

    /// The handler object.
    pub closed spec fn handler(&self) -> P {
        self.process
    }

    /// The handler object.
    pub fn process(&self) -> (r: &P)
        ensures
            *r == self.handler(),
    {
        &self.process
    }

    /// Hands the oldest message in the mailbox to the handler; the process is
    /// then running. Does nothing when the mailbox is empty.
    pub fn process_front_message(&mut self)
        ensures
            old(self)@.mailbox.len() == 0 ==> final(self)@ == old(self)@ && final(self).handler() == old(
                self,
            ).handler(),
            old(self)@.mailbox.len() > 0 ==> final(self)@ == (ProcessView {
                mailbox: old(self)@.mailbox.drop_first(),
                state: ProcessState::Running,
                received: old(self)@.received.push(old(self)@.mailbox[0]),
                ..old(self)@
            }),
    {
        if let Some(message) = self.mailbox.pop_front() {
            self.state = ProcessState::Running;
            self.process.process_message(message);
        }
    }
}


/// What the executor holds: the id counter, the running process, the ready
/// queue and the descriptors by id.
pub struct ExecutorView<M> {
    pub id_counter: u64,
    pub currently_executing: u64,
    pub ready: Seq<u64>,
    pub procs: Map<u64, ProcessView<M>>,
}

impl<M> ExecutorView<M> {
    /// The ready queue once the current process, if it still exists, has
    /// been put back at its tail.
    pub open spec fn line(self) -> Seq<u64> {
        if self.procs.contains_key(self.currently_executing) {
            self.ready.push(self.currently_executing)
        } else {
            self.ready
        }
    }

    /// The round-robin step: the head of `line` becomes the current process;
    /// with no process at all nothing changes.
    pub open spec fn rotated(self) -> Self {
        if self.line().len() > 0 {
            ExecutorView { ready: self.line().drop_first(), currently_executing: self.line()[0], ..self }
        } else {
            self
        }
    }

    /// Every process but the current one waits in the ready queue exactly
    /// once, and nothing else does.
    pub open spec fn queue_ok(self) -> bool {
        &&& forall|i: int, j: int| 0 <= i < j < self.ready.len() ==> self.ready[i] != self.ready[j]
        &&& forall|i: int|
            0 <= i < self.ready.len() ==> self.procs.contains_key(#[trigger] self.ready[i]) && self.ready[i]
                != self.currently_executing
        &&& forall|id: u64|
            #[trigger] self.procs.contains_key(id) && id != self.currently_executing ==> self.ready.contains(id)
    }

    /// The registers of the current process replaced by `regs`, if it is running.
    pub open spec fn saved(self, regs: ProcessRegisters) -> Self {
        let cur = self.currently_executing;
        if self.procs.contains_key(cur) && self.procs[cur].state == ProcessState::Running {
            ExecutorView {
                procs: self.procs.insert(cur, ProcessView { registers: regs, ..self.procs[cur] }),
                ..self
            }
        } else {
            self
        }
    }

    /// The current process dropped if it has finished.
    pub open spec fn reaped(self) -> Self {
        let cur = self.currently_executing;
        if self.procs.contains_key(cur) && self.procs[cur].state == ProcessState::Finished {
            ExecutorView { procs: self.procs.remove(cur), ..self }
        } else {
            self
        }
    }

    /// The whole timer interrupt: save the interrupted registers, drop a
    /// finished process, rotate, and set up a new process to start.
    pub open spec fn ticked(self, interrupted: ProcessRegisters, entry_point: u64) -> Self {
        self.saved(interrupted).reaped().rotated().started(entry_point, interrupted.cpu_flags)
    }

    /// The oldest message of process `id` handed to its handler, which has
    /// then received it.
    pub open spec fn delivered(self, id: u64) -> Self {
        if self.procs.contains_key(id) && self.procs[id].mailbox.len() > 0 {
            ExecutorView {
                procs: self.procs.insert(
                    id,
                    ProcessView {
                        mailbox: self.procs[id].mailbox.drop_first(),
                        state: ProcessState::Running,
                        received: self.procs[id].received.push(self.procs[id].mailbox[0]),
                        ..self.procs[id]
                    },
                ),
                ..self
            }
        } else {
            self
        }
    }

    /// A new current process set up to enter at `entry_point` on the top of
    /// its stack, with flags `cpu_flags`, and marked running.
    pub open spec fn started(self, entry_point: u64, cpu_flags: u64) -> Self {
        let cur = self.currently_executing;
        if self.procs.contains_key(cur) && self.procs[cur].state == ProcessState::New {
            ExecutorView {
                procs: self.procs.insert(
                    cur,
                    ProcessView {
                        state: ProcessState::Running,
                        registers: ProcessRegisters {
                            instruction_pointer: entry_point,
                            stack_pointer: (self.procs[cur].stack_address + STACK_SIZE) as u64,
                            cpu_flags,
                        },
                        ..self.procs[cur]
                    },
                ),
                ..self
            }
        } else {
            self
        }
    }

    /// One scheduling round: rotate, then the new current process handles
    /// its oldest message.
    pub open spec fn round(self) -> Self {
        self.rotated().delivered(self.rotated().currently_executing)
    }

    /// `n` scheduling rounds.
    pub open spec fn rounds(self, n: nat) -> Self
        decreases n,
    {
        if n == 0 {
            self
        } else {
            self.rounds((n - 1) as nat).round()
        }
    }
}

/// The queue invariant depends only on which ids exist.
proof fn lemma_queue_same_ids<M>(a: ExecutorView<M>, b: ExecutorView<M>)
    requires
        a.queue_ok(),
        b.ready == a.ready,
        b.currently_executing == a.currently_executing,
        forall|k: u64| #[trigger] b.procs.contains_key(k) == a.procs.contains_key(k),
    ensures
        b.queue_ok(),
{
}

/// Taking an id out of a queue without repeats keeps every other id, once.
proof fn lemma_unqueued(ready: Seq<u64>, id: u64)
    requires
        forall|i: int, j: int| 0 <= i < j < ready.len() ==> ready[i] != ready[j],
    ensures
        forall|x: u64| #[trigger] unqueued(ready, id).contains(x) <==> ready.contains(x) && x != id,
        forall|i: int, j: int|
            0 <= i < j < unqueued(ready, id).len() ==> unqueued(ready, id)[i] != unqueued(ready, id)[j],
{
    if ready.contains(id) {
        let k = ready.index_of(id);
        let r = ready.remove(k);
        assert forall|x: u64| #[trigger] r.contains(x) <==> ready.contains(x) && x != id by {
            if r.contains(x) {
                let i = r.index_of(x);
                if i < k {
                    assert(ready[i] == x);
                } else {
                    assert(ready[i + 1] == x);
                }
            }
            if ready.contains(x) && x != id {
                let i = ready.index_of(x);
                assert(i != k);
                if i < k {
                    assert(r[i] == x);
                } else {
                    assert(r[i - 1] == x);
                }
            }
        }
        assert forall|i: int, j: int| 0 <= i < j < r.len() implies r[i] != r[j] by {
            let ii = if i < k { i } else { i + 1 };
            let jj = if j < k { j } else { j + 1 };
            assert(r[i] == ready[ii] && r[j] == ready[jj]);
        }
    }
}

/// Round-robin scheduler over processes that exchange messages of type `M`.
pub struct Executor<P, M> {
    id_counter: u64,
    currently_executing: u64,
    execution_line: VecDeque<u64>,
    existing: Vec<ProcessDescriptor<P, M>>,
}

impl<P: Process<M>, M> Executor<P, M> {
    spec fn has(&self, id: u64) -> bool {
        exists|i: int| 0 <= i < self.existing@.len() && (#[trigger] self.existing@[i])@.id == id
    }

    spec fn index_of(&self, id: u64) -> int {
        choose|i: int| 0 <= i < self.existing@.len() && (#[trigger] self.existing@[i])@.id == id
    }

    /// The handler object of process `id`.
    pub closed spec fn handler_of(&self, id: u64) -> P {
        self.existing@[self.index_of(id)].handler()
    }

    pub closed spec fn view(&self) -> ExecutorView<M> {
        ExecutorView {
            id_counter: self.id_counter,
            currently_executing: self.currently_executing,
            ready: self.execution_line@,
            procs: Map::new(|id: u64| self.has(id), |id: u64| self.existing@[self.index_of(id)]@),
        }
    }

    /// Number of descriptors held.
    pub closed spec fn size(&self) -> nat {
        self.existing@.len()
    }

    /// Ids are unique, in increasing order, and below the counter; every stack
    /// has room for its guard page below it and ends below the top of the
    /// address space.
    pub closed spec fn ids_ok(&self) -> bool {
        &&& forall|i: int, j: int|
            0 <= i < j < self.existing@.len() ==> (#[trigger] self.existing@[i])@.id
                < (#[trigger] self.existing@[j])@.id
        &&& forall|i: int|
            0 <= i < self.existing@.len() ==> (#[trigger] self.existing@[i])@.id < self.id_counter
        &&& forall|i: int|
            0 <= i < self.existing@.len() ==> STACK_SIZE <= (#[trigger] self.existing@[i])@.stack_address
                <= u64::MAX - STACK_SIZE
    }

    /// The descriptors are in order, the counter never reaches `NO_PROCESS`,
    /// the current id was handed out (or is `NO_PROCESS`), and the ready
    /// queue holds every other process exactly once.
    pub closed spec fn wf(&self) -> bool {
        &&& self.ids_ok()
        &&& self.id_counter < NO_PROCESS
        &&& (self.currently_executing == NO_PROCESS || self.currently_executing < self.id_counter)
        &&& self@.queue_ok()
    }

    proof fn lemma_index_of(&self, i: int)
        requires
            self.ids_ok(),
            0 <= i < self.existing@.len(),
        ensures
            self.has(self.existing@[i]@.id),
            self.index_of(self.existing@[i]@.id) == i,
    {
        let id = self.existing@[i]@.id;
        assert(self.has(id));
        let k = self.index_of(id);
        if k < i {
            assert(self.existing@[k]@.id < self.existing@[i]@.id);
        } else if k > i {
            assert(self.existing@[i]@.id < self.existing@[k]@.id);
        }
    }

    /// Position of the descriptor with `id`, if there is one.
    fn find(&self, id: u64) -> (r: Option<usize>)
        requires
            self.ids_ok(),
        ensures
            match r {
                Some(i) => i < self.existing@.len() && self.existing@[i as int]@.id == id
                    && self.has(id) && self.index_of(id) == i,
                None => !self.has(id),
            },
    {
        let mut i: usize = 0;
        while i < self.existing.len()
            invariant
                self.ids_ok(),
                i <= self.existing@.len(),
                forall|j: int| 0 <= j < i ==> (#[trigger] self.existing@[j])@.id != id,
            decreases self.existing@.len() - i,
        {
            if self.existing[i].id == id {
                proof {
                    self.lemma_index_of(i as int);
                }
                return Some(i);
            }
            i = i + 1;
        }
        None
    }

    /// Descriptors that keep their ids keep the lookup of every id.
    proof fn lemma_same_ids(a: &Self, b: &Self)
        requires
            a.ids_ok(),
            b.ids_ok(),
            a.existing@.len() == b.existing@.len(),
            forall|j: int| 0 <= j < a.existing@.len() ==> (#[trigger] a.existing@[j])@.id == b.existing@[j]@.id,
        ensures
            forall|k: u64| #[trigger] b.has(k) == a.has(k),
            forall|k: u64| a.has(k) ==> #[trigger] b.index_of(k) == a.index_of(k),
    {
        assert forall|k: u64| #[trigger] b.has(k) == a.has(k) by {
            if a.has(k) {
                let j = a.index_of(k);
                assert(b.existing@[j]@.id == k);
            }
            if b.has(k) {
                let j = b.index_of(k);
                assert(a.existing@[j]@.id == k);
            }
        }
        assert forall|k: u64| a.has(k) implies #[trigger] b.index_of(k) == a.index_of(k) by {
            let j = a.index_of(k);
            a.lemma_index_of(j);
            b.lemma_index_of(j);
        }
    }

    /// Removing a descriptor removes its id and keeps every other lookup.
    proof fn lemma_removed(a: &Self, b: &Self, i: int)
        requires
            a.ids_ok(),
            0 <= i < a.existing@.len(),
            b.existing@ == a.existing@.remove(i),
        ensures
            forall|k: u64| #[trigger] b.has(k) == (a.has(k) && k != a.existing@[i]@.id),
            forall|k: u64| b.has(k) ==> #[trigger] b.existing@[b.index_of(k)]@ == a.existing@[a.index_of(k)]@,
    {
        let id = a.existing@[i]@.id;
        assert forall|k: u64| #[trigger] b.has(k) == (a.has(k) && k != id) by {
            if a.has(k) && k != id {
                let j = a.index_of(k);
                a.lemma_index_of(j);
                if j < i {
                    assert(b.existing@[j]@.id == k);
                } else {
                    assert(j != i);
                    assert(b.existing@[j - 1]@.id == k);
                }
            }
            if b.has(k) {
                let j = b.index_of(k);
                if j < i {
                    assert(a.existing@[j]@.id == k);
                } else {
                    assert(a.existing@[j + 1]@.id == k);
                    if k == id {
                        assert(a.existing@[i]@.id < a.existing@[j + 1]@.id);
                    }
                }
            }
        }
        assert forall|k: u64| b.has(k) implies #[trigger] b.existing@[b.index_of(k)]@ == a.existing@[a.index_of(k)]@ by {
            let j = b.index_of(k);
            if j < i {
                a.lemma_index_of(j);
            } else {
                a.lemma_index_of(j + 1);
            }
        }
    }

    /// An executor with no processes.
    pub fn new() -> (r: Self)
        ensures
            r.wf(),
            r@.id_counter == 0,
            r@.currently_executing == NO_PROCESS,
            r@.ready == Seq::<u64>::empty(),
            r@.procs == Map::<u64, ProcessView<M>>::empty(),
    {
        let r = Executor {
            id_counter: 0,
            currently_executing: NO_PROCESS,
            execution_line: VecDeque::new(),
            existing: Vec::new(),
        };
        assert(r@.ready =~= Seq::<u64>::empty());
        assert(r@.procs =~= Map::<u64, ProcessView<M>>::empty());
        r
    }

    /// Appends `message` to the mailbox of process `id`; does nothing when
    /// there is no such process.
    pub fn post_message(&mut self, id: u64, message: M)
        requires
            old(self).wf(),
        ensures
            final(self).wf(),
            final(self)@.id_counter == old(self)@.id_counter,
            final(self)@.currently_executing == old(self)@.currently_executing,
            final(self)@.ready == old(self)@.ready,
            !old(self)@.procs.contains_key(id) ==> final(self)@.procs == old(self)@.procs,
            old(self)@.procs.contains_key(id) ==> final(self)@.procs == old(self)@.procs.insert(
                id,
                ProcessView { mailbox: old(self)@.procs[id].mailbox.push(message), ..old(self)@.procs[id] },
            ),
    {
        if let Some(i) = self.find(id) {
            let ghost old_existing = self.existing@;
            self.existing[i].mailbox.push_back(message);
            proof {
                Self::lemma_same_ids(old(self), self);
                lemma_queue_same_ids(old(self)@, self@);
                assert(self@.procs =~= old(self)@.procs.insert(
                    id,
                    ProcessView { mailbox: old(self)@.procs[id].mailbox.push(message), ..old(self)@.procs[id] },
                ));
            }
        }
    }
}


impl<P: Process<M>, M> Executor<P, M> {
    /// Registers a new process in state `New` with an empty mailbox, appends
    /// it to the ready queue and returns its id, the next value of the counter.
    #[verifier::spinoff_prover]
    pub fn create_process(&mut self, process: P, stack_address: u64) -> (r: u64)
        requires
            old(self).wf(),
            old(self)@.id_counter < NO_PROCESS - 1,
            STACK_SIZE <= stack_address <= u64::MAX - STACK_SIZE,
        ensures
            final(self).wf(),
            r == old(self)@.id_counter,
            !old(self)@.procs.contains_key(r),
            final(self)@.id_counter == old(self)@.id_counter + 1,
            final(self)@.currently_executing == old(self)@.currently_executing,
            final(self)@.ready == old(self)@.ready.push(r),
            final(self)@.procs == old(self)@.procs.insert(
                r,
                ProcessView {
                    id: r,
                    mailbox: Seq::empty(),
                    children: Seq::empty(),
                    state: ProcessState::New,
                    registers: ProcessRegisters { instruction_pointer: 0, stack_pointer: 0, cpu_flags: 0 },
                    stack_address,
                    received: process.received(),
                },
            ),
            final(self).handler_of(r) == process,
            forall|k: u64| #[trigger] old(self)@.procs.contains_key(k) ==> final(self).handler_of(k) == old(self).handler_of(k),
    {
        let id = self.id_counter;
        let node = ProcessDescriptor::new(id, process, stack_address);
        let ghost old_existing = self.existing@;
        self.existing.push(node);
        self.execution_line.push_back(id);
        self.id_counter = self.id_counter + 1;
        proof {
            let n = old_existing.len() as int;
            assert(self.existing@[n]@.id == id);
            assert(!old(self).has(id));
            assert forall|k: u64| #[trigger] self.has(k) == (old(self).has(k) || k == id) by {
                if old(self).has(k) {
                    let j = old(self).index_of(k);
                    assert(self.existing@[j] == old_existing[j]);
                }
                if self.has(k) && k != id {
                    let j = self.index_of(k);
                    assert(self.existing@[j] == old_existing[j]);
                }
            }
            assert forall|k: u64| old(self).has(k) implies #[trigger] self.index_of(k) == old(self).index_of(k) by {
                let j = old(self).index_of(k);
                old(self).lemma_index_of(j);
                assert(self.existing@[j] == old_existing[j]);
                self.lemma_index_of(j);
            }
            self.lemma_index_of(n);
            assert(self@.procs =~= old(self)@.procs.insert(id, self.existing@[n]@));
            let ov = old(self)@;
            assert(!ov.ready.contains(id));
            assert(id != ov.currently_executing);
            assert forall|i: int, j: int| 0 <= i < j < self@.ready.len() implies self@.ready[i] != self@.ready[j] by {
                if j == ov.ready.len() {
                    assert(ov.ready.contains(ov.ready[i]));
                }
            }
            assert forall|k: u64| #[trigger] self@.procs.contains_key(k) && k != self@.currently_executing implies self@.ready.contains(k) by {
                if k == id {
                    assert(self@.ready[ov.ready.len() as int] == id);
                } else {
                    let i = ov.ready.index_of(k);
                    assert(self@.ready[i] == k);
                }
            }
        }
        id
    }

    /// Saves the registers of the interrupted process, but only when the
    /// currently executing process exists and is running.
    pub fn update_current_process(&mut self, interrupted_process_state: ProcessRegisters)
        requires
            old(self).wf(),
        ensures
            final(self).wf(),
            final(self)@ == old(self)@.saved(interrupted_process_state),
    {
        if let Some(i) = self.find(self.currently_executing) {
            if self.existing[i].state == ProcessState::Running {
                self.existing[i].registers = interrupted_process_state;
                proof {
                    Self::lemma_same_ids(old(self), self);
                    assert(self@.procs =~= old(self)@.procs.insert(
                        self.currently_executing,
                        ProcessView { registers: interrupted_process_state, ..old(self)@.procs[self.currently_executing] },
                    ));
                    lemma_queue_same_ids(old(self)@, self@);
                }
            }
        }
    }

    /// Round robin: puts the current process at the tail of the ready queue,
    /// takes the head as the new current process and returns its id, or
    /// `None` when that process no longer exists.
    #[verifier::spinoff_prover]
    pub fn schedule_next(&mut self) -> (r: Option<u64>)
        requires
            old(self).wf(),
        ensures
            final(self).wf(),
            final(self)@ == old(self)@.rotated(),
            r == if old(self)@.line().len() > 0 {
                Some(old(self)@.line()[0])
            } else {
                None
            },
            r matches Some(id) ==> final(self)@.procs.contains_key(id),
    {
        let ghost ov = self@;
        if self.find(self.currently_executing).is_some() {
            self.execution_line.push_back(self.currently_executing);
        }
        proof {
            assert(self@.ready == ov.line());
        }
        let head = self.execution_line.pop_front();
        match head {
            Some(head_id) => {
                self.currently_executing = head_id;
                proof {
                    let line = ov.line();
                    assert(self@.procs =~= ov.procs);
                    assert(self@.ready =~= line.drop_first());
                    assert forall|i: int, j: int| 0 <= i < j < line.len() implies line[i] != line[j] by {
                        if j == ov.ready.len() {
                            assert(ov.ready.contains(ov.ready[i]));
                        }
                    }
                    assert forall|i: int| 0 <= i < line.len() implies ov.procs.contains_key(#[trigger] line[i]) by {}
                    assert forall|k: u64| #[trigger] self@.procs.contains_key(k) && k != head_id implies self@.ready.contains(k) by {
                        let i: int = if k == ov.currently_executing { ov.ready.len() as int } else { ov.ready.index_of(k) };
                        assert(line[i] == k);
                        assert(i != 0);
                        assert(self@.ready[i - 1] == k);
                    }
                    assert forall|i: int| 0 <= i < self@.ready.len() implies self@.ready[i] != head_id by {
                        assert(line[i + 1] != line[0]);
                    }
                    assert(line[0] == head_id);
                    assert(ov.procs.contains_key(head_id));
                }
                Some(head_id)
            },
            None => {
                proof {
                    assert(self@.ready =~= ov.ready);
                    assert(self@.procs =~= ov.procs);
                    assert(self@ == ov);
                }
                None
            },
        }
    }

    /// Delivers the oldest message of process `id` to its handler.
    pub fn process_front_message(&mut self, id: u64)
        requires
            old(self).wf(),
        ensures
            final(self).wf(),
            final(self)@ == old(self)@.delivered(id),
            forall|k: u64| #[trigger] old(self)@.procs.contains_key(k) && (k != id || old(self)@.procs[k].mailbox.len() == 0)
                ==> final(self).handler_of(k) == old(self).handler_of(k),
    {
        if let Some(i) = self.find(id) {
            self.existing[i].process_front_message();
            proof {
                Self::lemma_same_ids(old(self), self);
                lemma_queue_same_ids(old(self)@, self@);
                assert(self@.procs =~= old(self)@.procs.insert(id, self.existing@[i as int]@));
                if old(self)@.procs[id].mailbox.len() == 0 {
                    assert(self@.procs =~= old(self)@.procs);
                }
            }
        }
    }

    /// Id of the process the scheduler last chose.
    pub fn current_process(&self) -> (r: u64)
        ensures
            r == self@.currently_executing,
    {
        self.currently_executing
    }

    /// Number of ids waiting in the ready queue.
    pub fn ready_count(&self) -> (r: usize)
        ensures
            r == self@.ready.len(),
    {
        self.execution_line.len()
    }

    /// The descriptor of process `id`, if it exists.
    pub fn descriptor(&self, id: u64) -> (r: Option<&ProcessDescriptor<P, M>>)
        requires
            self.wf(),
        ensures
            match r {
                Some(d) => self@.procs.contains_key(id) && d@ == self@.procs[id],
                None => !self@.procs.contains_key(id),
            },
    {
        match self.find(id) {
            Some(i) => Some(&self.existing[i]),
            None => None,
        }
    }
}

impl<P: Process<M>, M> Executor<P, M> {
    /// Takes `id` out of the ready queue, if it is there.
    fn unqueue(&mut self, id: u64)
        requires
            forall|i: int, j: int|
                0 <= i < j < old(self).execution_line@.len() ==> old(self).execution_line@[i]
                    != old(self).execution_line@[j],
        ensures
            final(self).id_counter == old(self).id_counter,
            final(self).currently_executing == old(self).currently_executing,
            final(self).existing == old(self).existing,
            final(self).execution_line@ == unqueued(old(self).execution_line@, id),
    {
        let mut i: usize = 0;
        while i < self.execution_line.len()
            invariant
                *self == *old(self),
                forall|a: int, b: int|
                    0 <= a < b < self.execution_line@.len() ==> self.execution_line@[a] != self.execution_line@[b],
                i <= self.execution_line@.len(),
                forall|j: int| 0 <= j < i ==> self.execution_line@[j] != id,
            decreases self.execution_line@.len() - i,
        {
            if self.execution_line[i] == id {
                let ghost q = self.execution_line@;
                proof {
                    assert(q.contains(id));
                    let k = q.index_of(id);
                    assert(q[k] == id);
                    assert(k >= i);
                }
                self.execution_line.remove(i);
                proof {
                    let k = q.index_of(id);
                    assert(k == i as int);
                }
                return;
            }
            i = i + 1;
        }
    }

    /// Drops process `id`, from the processes and from the ready queue; does
    /// nothing when there is no such process.
    #[verifier::spinoff_prover]
    pub fn remove_process(&mut self, id: u64)
        requires
            old(self).wf(),
        ensures
            final(self).wf(),
            final(self)@ == (ExecutorView {
                procs: old(self)@.procs.remove(id),
                ready: unqueued(old(self)@.ready, id),
                ..old(self)@
            }),
    {
        if let Some(i) = self.find(id) {
            let ghost a = *self;
            let _node = self.existing.remove(i);
            proof {
                assert(self.execution_line@ == old(self)@.ready);
            }
            self.unqueue(id);
            proof {
                Self::lemma_removed(&a, self, i as int);
                assert forall|x: int, y: int| 0 <= x < y < self.existing@.len() implies
                    (#[trigger] self.existing@[x])@.id < (#[trigger] self.existing@[y])@.id by {
                    if x >= i {
                        assert(a.existing@[x + 1]@.id < a.existing@[y + 1]@.id);
                    } else if y >= i {
                        assert(a.existing@[x]@.id < a.existing@[y + 1]@.id);
                    }
                }
                assert(self@.procs =~= old(self)@.procs.remove(id));
                lemma_unqueued(old(self)@.ready, id);
                let r = self@.ready;
                assert forall|j: int| 0 <= j < r.len() implies self@.procs.contains_key(#[trigger] r[j])
                    && r[j] != self@.currently_executing by {
                    assert(r.contains(r[j]));
                    let oj = old(self)@.ready.index_of(r[j]);
                    assert(old(self)@.ready[oj] == r[j]);
                }
                assert forall|k: u64| #[trigger] self@.procs.contains_key(k) && k != self@.currently_executing implies r.contains(k) by {
                    assert(old(self)@.ready.contains(k));
                }
            }
        } else {
            proof {
                assert(self@.procs =~= old(self)@.procs.remove(id));
                assert(!old(self)@.ready.contains(id)) by {
                    if old(self)@.ready.contains(id) {
                        let j = old(self)@.ready.index_of(id);
                        assert(old(self)@.procs.contains_key(old(self)@.ready[j]));
                    }
                }
            }
        }
    }

    /// Marks the current process finished when `fault_address` lies in the
    /// guard page just below its stack, and says whether it did; any other
    /// page fault is not the executor's to handle.
    pub fn handle_page_fault(&mut self, fault_address: u64) -> (r: bool)
        requires
            old(self).wf(),
        ensures
            final(self).wf(),
            ({
                let cur = old(self)@.currently_executing;
                let hit = old(self)@.procs.contains_key(cur)
                    && old(self)@.procs[cur].stack_address - STACK_SIZE <= fault_address
                    < old(self)@.procs[cur].stack_address;
                &&& r == hit
                &&& hit ==> final(self)@ == (ExecutorView {
                    procs: old(self)@.procs.insert(
                        cur,
                        ProcessView { state: ProcessState::Finished, ..old(self)@.procs[cur] },
                    ),
                    ..old(self)@
                })
                &&& !hit ==> final(self)@ == old(self)@
            }),
    {
        match self.find(self.currently_executing) {
            Some(i) => {
                let stack = self.existing[i].stack_address;
                if stack - STACK_SIZE <= fault_address && fault_address < stack {
                    self.existing[i].state = ProcessState::Finished;
                    proof {
                        Self::lemma_same_ids(old(self), self);
                        assert(self@.procs =~= old(self)@.procs.insert(
                            self.currently_executing,
                            ProcessView { state: ProcessState::Finished, ..old(self)@.procs[self.currently_executing] },
                        ));
                    }
                    true
                } else {
                    false
                }
            },
            None => false,
        }
    }

    /// The timer interrupt: saves the interrupted registers into the current
    /// process if it is running, drops it if it has finished, rotates the
    /// ready queue, and sets up the chosen process to start at `entry_point`
    /// on top of its stack if it is new. Returns the registers to resume, or
    /// `None` when the chosen id no longer names a process.
    #[verifier::spinoff_prover]
    pub fn tick(&mut self, interrupted: ProcessRegisters, entry_point: u64) -> (r: Option<ProcessRegisters>)
        requires
            old(self).wf(),
        ensures
            final(self).wf(),
            final(self)@ == old(self)@.ticked(interrupted, entry_point),
            ({
                let cur = old(self)@.currently_executing;
                old(self)@.procs.contains_key(cur) && old(self)@.procs[cur].state == ProcessState::Finished
                    ==> !final(self)@.procs.contains_key(cur) && !final(self)@.ready.contains(cur)
            }),
            ({
                let v = final(self)@;
                let cur = v.currently_executing;
                r == if v.procs.contains_key(cur) { Some(v.procs[cur].registers) } else { None }
            }),
    {
        let ghost cur = self.currently_executing;
        self.update_current_process(interrupted);
        if let Some(i) = self.find(self.currently_executing) {
            if self.existing[i].state == ProcessState::Finished {
                self.remove_process(self.currently_executing);
            }
        }
        proof {
            assert(self@ == old(self)@.saved(interrupted).reaped());
        }
        match self.schedule_next() {
            Some(id) => {
                let i = self.find(id).unwrap();
                let ghost b = *self;
                if self.existing[i].state == ProcessState::New {
                    let top = self.existing[i].stack_address + STACK_SIZE;
                    self.existing[i].registers = ProcessRegisters {
                        instruction_pointer: entry_point,
                        stack_pointer: top,
                        cpu_flags: interrupted.cpu_flags,
                    };
                    self.existing[i].state = ProcessState::Running;
                    proof {
                        Self::lemma_same_ids(&b, self);
                        assert(self@.procs =~= b@.started(entry_point, interrupted.cpu_flags).procs);
                    }
                }
                Some(self.existing[i].registers)
            },
            None => None,
        }
    }
}

/// In every well-formed executor each process but the current one waits in
/// the ready queue exactly once, and nothing else waits there.
pub proof fn lemma_queue_ok<P: Process<M>, M>(e: &Executor<P, M>)
    requires
        e.wf(),
    ensures
        e@.queue_ok(),
{
}

/// Every process, and the current one unless none has run, has an id below
/// the counter; as `create_process` hands out the counter and raises it, an
/// id that has left the executor never comes back.
pub proof fn lemma_ids_below_counter<P: Process<M>, M>(e: &Executor<P, M>)
    requires
        e.wf(),
    ensures
        forall|k: u64| #[trigger] e@.procs.contains_key(k) ==> k < e@.id_counter,
        e@.currently_executing == NO_PROCESS || e@.currently_executing < e@.id_counter,
        e@.id_counter < NO_PROCESS,
{
    assert forall|k: u64| #[trigger] e@.procs.contains_key(k) implies k < e@.id_counter by {
        let i = e.index_of(k);
        assert(e.existing@[i]@.id == k);
    }
}

impl<P: Process<M>, M> Executor<P, M> {
    /// Drops process `id` and, after it, each of its children with their own
    /// descendants. Nothing else is dropped but what those calls drop, and
    /// every process that remains is unchanged.
    #[verifier::spinoff_prover]
    #[verifier::rlimit(40)]
    pub fn remove_process_with_children(&mut self, id: u64)
        requires
            old(self).wf(),
        ensures
            final(self).wf(),
            final(self)@.id_counter == old(self)@.id_counter,
            final(self)@.currently_executing == old(self)@.currently_executing,
            final(self)@.queue_ok(),
            final(self).size() <= old(self).size(),
            !final(self)@.procs.contains_key(id),
            !old(self)@.procs.contains_key(id) ==> final(self)@ == old(self)@,
            forall|k: u64| #[trigger] final(self)@.procs.contains_key(k) ==> old(self)@.procs.contains_key(k)
                && final(self)@.procs[k] == old(self)@.procs[k],
            forall|k: u64, c: u64|
                old(self)@.procs.contains_key(k) && !final(self)@.procs.contains_key(k)
                    && (#[trigger] old(self)@.procs[k].children.contains(c))
                    ==> !#[trigger] final(self)@.procs.contains_key(c),
            forall|k: u64|
                #[trigger] old(self)@.procs.contains_key(k) && !final(self)@.procs.contains_key(k) ==> k == id
                    || exists|p: u64|
                    old(self)@.procs.contains_key(p) && !final(self)@.procs.contains_key(p)
                        && #[trigger] old(self)@.procs[p].children.contains(k),
        decreases old(self).size(),
    {
        if let Some(i) = self.find(id) {
            let ghost a = *self;
            let node = self.existing.remove(i);
            proof {
                assert(self.execution_line@ == old(self)@.ready);
            }
            self.unqueue(id);
            proof {
                Self::lemma_removed(&a, self, i as int);
                assert forall|x: int, y: int| 0 <= x < y < self.existing@.len() implies
                    (#[trigger] self.existing@[x])@.id < (#[trigger] self.existing@[y])@.id by {
                    if x >= i {
                        assert(a.existing@[x + 1]@.id < a.existing@[y + 1]@.id);
                    } else if y >= i {
                        assert(a.existing@[x]@.id < a.existing@[y + 1]@.id);
                    }
                }
                assert(self@.procs =~= old(self)@.procs.remove(id));
                lemma_unqueued(old(self)@.ready, id);
                let r = self@.ready;
                assert forall|j: int| 0 <= j < r.len() implies self@.procs.contains_key(#[trigger] r[j])
                    && r[j] != self@.currently_executing by {
                    assert(r.contains(r[j]));
                    let oj = old(self)@.ready.index_of(r[j]);
                    assert(old(self)@.ready[oj] == r[j]);
                }
                assert forall|k: u64| #[trigger] self@.procs.contains_key(k) && k != self@.currently_executing implies r.contains(k) by {
                    assert(old(self)@.ready.contains(k));
                }
            }
            let children = node.children;
            assert(children@ == old(self)@.procs[id].children);
            let mut j: usize = 0;
            while j < children.len()
                invariant
                    self.wf(),
                    j <= children@.len(),
                    old(self)@.procs.contains_key(id),
                    children@ == old(self)@.procs[id].children,
                    self.existing@.len() < old(self).existing@.len(),
                    self@.id_counter == old(self)@.id_counter,
                    self@.currently_executing == old(self)@.currently_executing,
                    !self@.procs.contains_key(id),
                    forall|k: u64| #[trigger] self@.procs.contains_key(k) ==> old(self)@.procs.contains_key(k)
                        && self@.procs[k] == old(self)@.procs[k],
                    forall|jj: int| 0 <= jj < j ==> !self@.procs.contains_key(#[trigger] children@[jj]),
                    forall|k: u64, c: u64|
                        old(self)@.procs.contains_key(k) && !self@.procs.contains_key(k) && k != id
                            && (#[trigger] old(self)@.procs[k].children.contains(c))
                            ==> !#[trigger] self@.procs.contains_key(c),
                    forall|k: u64|
                        #[trigger] old(self)@.procs.contains_key(k) && !self@.procs.contains_key(k) ==> k == id
                            || exists|p: u64|
                            old(self)@.procs.contains_key(p) && !self@.procs.contains_key(p)
                                && #[trigger] old(self)@.procs[p].children.contains(k),
                decreases children@.len() - j,
            {
                let ghost before = self@;
                self.remove_process_with_children(children[j]);
                proof {
                    lemma_removal_step(old(self)@.procs, before.procs, self@.procs, id, children@[j as int]);
                }
                j = j + 1;
            }
            proof {
                assert forall|c: u64| #[trigger] old(self)@.procs[id].children.contains(c) implies
                    !self@.procs.contains_key(c) by {
                    let jj = children@.index_of(c);
                    assert(children@[jj] == c);
                }
            }
        } else {
            proof {
                assert(self@.procs =~= old(self)@.procs);
            }
        }
    }
}

/// What is dropped while the children of a dropped process `id` are
/// dropped one by one is `id` or has a dropped parent.
proof fn lemma_removal_step<M>(
    o: Map<u64, ProcessView<M>>,
    before: Map<u64, ProcessView<M>>,
    after: Map<u64, ProcessView<M>>,
    id: u64,
    c: u64,
)
    requires
        o.contains_key(id),
        o[id].children.contains(c),
        forall|k: u64| #[trigger] before.contains_key(k) ==> o.contains_key(k) && before[k] == o[k],
        forall|k: u64| #[trigger] after.contains_key(k) ==> before.contains_key(k) && after[k] == before[k],
        forall|k: u64|
            #[trigger] o.contains_key(k) && !before.contains_key(k) ==> k == id || exists|p: u64|
                o.contains_key(p) && !before.contains_key(p) && #[trigger] o[p].children.contains(k),
        forall|k: u64|
            #[trigger] before.contains_key(k) && !after.contains_key(k) ==> k == c || exists|p: u64|
                before.contains_key(p) && !after.contains_key(p) && #[trigger] before[p].children.contains(k),
        !before.contains_key(id),
    ensures
        forall|k: u64|
            #[trigger] o.contains_key(k) && !after.contains_key(k) ==> k == id || exists|p: u64|
                o.contains_key(p) && !after.contains_key(p) && #[trigger] o[p].children.contains(k),
{
    assert forall|k: u64| #[trigger] o.contains_key(k) && !after.contains_key(k) implies k == id || exists|p: u64|
        o.contains_key(p) && !after.contains_key(p) && #[trigger] o[p].children.contains(k) by {
        if before.contains_key(k) {
            if k == c {
                assert(o.contains_key(id) && !after.contains_key(id) && o[id].children.contains(k));
            } else {
                let p = choose|p: u64| before.contains_key(p) && !after.contains_key(p) && #[trigger] before[p].children.contains(k);
                assert(o.contains_key(p) && !after.contains_key(p) && o[p].children.contains(k));
            }
        } else if k != id {
            let p = choose|p: u64| o.contains_key(p) && !before.contains_key(p) && #[trigger] o[p].children.contains(k);
            assert(o.contains_key(p) && !after.contains_key(p) && o[p].children.contains(k));
        }
    }
}

proof fn lemma_rounds_progress<M>(v: ExecutorView<M>, n: nat, k: nat)
    requires
        k <= n,
        v.ready.len() >= n,
        forall|j: int| 0 <= j < n ==> v.ready[j] == j,
        forall|id: u64| id < n ==> #[trigger] v.procs.contains_key(id),
        forall|id: u64| id < n ==> (#[trigger] v.procs[id]).mailbox.len() == 1,
    ensures
        v.rounds(k).ready.len() >= n - k,
        forall|j: int| 0 <= j < n - k ==> #[trigger] v.rounds(k).ready[j] == k + j,
        forall|id: u64| id < n ==> #[trigger] v.rounds(k).procs.contains_key(id),
        forall|id: u64| id < k ==> (#[trigger] v.rounds(k).procs[id]).mailbox.len() == 0,
        forall|id: u64| id < k ==> (#[trigger] v.rounds(k).procs[id]).state == ProcessState::Running,
        forall|id: u64| k <= id < n ==> (#[trigger] v.rounds(k).procs[id]) == v.procs[id],
        forall|id: u64|
            id < k ==> (#[trigger] v.rounds(k).procs[id]).received == v.procs[id].received.push(v.procs[id].mailbox[0]),
    decreases k,
{
    if k > 0 {
        lemma_rounds_progress(v, n, (k - 1) as nat);
        let w = v.rounds((k - 1) as nat);
        let r = w.rotated();
        assert(w.ready[0] == k - 1);
        assert(r.currently_executing == k - 1);
        assert forall|j: int| 0 <= j < n - k implies #[trigger] r.ready[j] == k + j by {
            assert(w.ready[j + 1] == k - 1 + j + 1);
        }
        let cur = (k - 1) as u64;
        assert(r.procs.contains_key(cur));
        assert(r.procs[cur].mailbox.len() == 1);
        assert(v.rounds(k) == r.delivered(cur));
        assert(r.procs[cur] == v.procs[cur]);
        assert forall|id: u64| k <= id < n implies (#[trigger] v.rounds(k).procs[id]) == v.procs[id] by {
            assert(id != cur);
            assert(w.procs[id] == v.procs[id]);
        }
        assert forall|id: u64| id < k implies (#[trigger] v.rounds(k).procs[id]).received == v.procs[id].received.push(
            v.procs[id].mailbox[0],
        ) by {
            if id != cur {
                assert(w.procs[id].received == v.procs[id].received.push(v.procs[id].mailbox[0]));
            }
        }
    }
}

/// Round-robin fairness: when the ready queue starts with the processes
/// `0, 1, ..., n - 1` in that order and each of them has one message waiting,
/// then after `n` scheduling rounds every one of them has run, every one of
/// their mailboxes is empty, and every handler has received its message.
pub proof fn lemma_round_robin_fairness<M>(v: ExecutorView<M>, n: nat)
    requires
        v.ready.len() >= n,
        forall|j: int| 0 <= j < n ==> v.ready[j] == j,
        forall|id: u64| id < n ==> #[trigger] v.procs.contains_key(id),
        forall|id: u64| id < n ==> (#[trigger] v.procs[id]).mailbox.len() == 1,
    ensures
        forall|id: u64| id < n ==> #[trigger] v.rounds(n).procs.contains_key(id),
        forall|id: u64| id < n ==> (#[trigger] v.rounds(n).procs[id]).mailbox.len() == 0,
        forall|id: u64| id < n ==> (#[trigger] v.rounds(n).procs[id]).state == ProcessState::Running,
        forall|id: u64|
            id < n ==> (#[trigger] v.rounds(n).procs[id]).received == v.procs[id].received.push(v.procs[id].mailbox[0]),
{
    lemma_rounds_progress(v, n, n);
}

} // verus!
