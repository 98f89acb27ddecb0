use kernel_core::buddy::BuddyAllocator;
use kernel_core::paging::{PageTable, PRESENT};
use kernel_core::executor::{Executor, Handler, HandlerProcess, Process, ProcessRegisters, ProcessState, NO_PROCESS};

struct Recorder {
    seen: Vec<u32>,
}

impl Process<u32> for Recorder {
    fn received(&self) -> vstd::seq::Seq<u32> {
        vstd::view::View::view(&self.seen)
    }

    fn process_message(&mut self, message: u32) {
        self.seen.push(message);
    }
}

fn recorder() -> Recorder {
    Recorder { seen: Vec::new() }
}

fn frame() -> ProcessRegisters {
    ProcessRegisters { instruction_pointer: 0x1000, stack_pointer: 0x2000, cpu_flags: 0x202 }
}

/// One timer tick followed by the chosen process handling its oldest message.
fn run_tick(executor: &mut Executor<Recorder, u32>) -> u64 {
    executor.tick(frame(), 0xABCD);
    let current = executor.current_process();
    executor.process_front_message(current);
    current
}

#[test]
fn create_process_hands_out_increasing_ids() {
    let mut executor: Executor<Recorder, u32> = Executor::new();
    assert_eq!(executor.create_process(recorder(), 0x10000), 0);
    assert_eq!(executor.create_process(recorder(), 0x20000), 1);
    assert_eq!(executor.create_process(recorder(), 0x30000), 2);
    assert_eq!(executor.ready_count(), 3);
    let d = executor.descriptor(1).unwrap();
    assert_eq!(*d.state(), ProcessState::New);
    assert_eq!(d.stack_address(), 0x20000);
    assert_eq!(d.guard_address(), 0x1F000);
}

#[test]
fn post_message_to_unknown_process_is_ignored() {
    let mut executor: Executor<Recorder, u32> = Executor::new();
    executor.create_process(recorder(), 0x10000);
    executor.post_message(7, 5);
    executor.post_message(0, 6);
    assert_eq!(executor.descriptor(0).unwrap().pending_messages(), 1);
    assert!(executor.descriptor(7).is_none());
}

#[test]
fn executor_round_robin() {
    let mut executor: Executor<Recorder, u32> = Executor::new();
    let a = executor.create_process(recorder(), 0x10000);
    let b = executor.create_process(recorder(), 0x20000);
    let c = executor.create_process(recorder(), 0x30000);
    executor.post_message(b, 1);
    executor.post_message(b, 2);
    let order: Vec<u64> = (0..3).map(|_| run_tick(&mut executor)).collect();
    assert_eq!(order, vec![a, b, c]);
    assert_eq!(executor.descriptor(b).unwrap().process().seen, vec![1]);
    let order: Vec<u64> = (0..3).map(|_| run_tick(&mut executor)).collect();
    assert_eq!(order, vec![a, b, c]);
    assert_eq!(executor.descriptor(b).unwrap().process().seen, vec![1, 2]);
}

#[test]
fn executor_fairness_every_mailbox_drains() {
    let n: u64 = 6;
    let mut executor: Executor<Recorder, u32> = Executor::new();
    for i in 0..n {
        let id = executor.create_process(recorder(), 0x10000 * (i + 1));
        executor.post_message(id, id as u32 + 100);
    }
    for _ in 0..n {
        run_tick(&mut executor);
    }
    for id in 0..n {
        let d = executor.descriptor(id).unwrap();
        assert_eq!(d.pending_messages(), 0);
        assert_eq!(*d.state(), ProcessState::Running);
        assert_eq!(d.process().seen, vec![id as u32 + 100]);
    }
}

#[test]
fn schedule_next_rotates_the_ready_queue() {
    let mut executor: Executor<Recorder, u32> = Executor::new();
    executor.create_process(recorder(), 0x10000);
    executor.create_process(recorder(), 0x20000);
    assert_eq!(executor.current_process(), NO_PROCESS);
    assert_eq!(executor.schedule_next(), Some(0));
    assert_eq!(executor.ready_count(), 1);
    assert_eq!(executor.schedule_next(), Some(1));
    assert_eq!(executor.schedule_next(), Some(0));
    assert_eq!(executor.current_process(), 0);
    assert_eq!(executor.ready_count(), 1);
}

#[test]
fn new_process_starts_on_top_of_its_stack() {
    let mut executor: Executor<Recorder, u32> = Executor::new();
    executor.create_process(recorder(), 0x10000);
    let regs = executor.tick(frame(), 0xABCD).unwrap();
    assert_eq!(regs.instruction_pointer, 0xABCD);
    assert_eq!(regs.stack_pointer, 0x11000);
    assert_eq!(regs.cpu_flags, 0x202);
    assert_eq!(*executor.descriptor(0).unwrap().state(), ProcessState::Running);
}

#[test]
fn registers_saved_only_for_running_process() {
    let mut executor: Executor<Recorder, u32> = Executor::new();
    executor.create_process(recorder(), 0x10000);
    executor.update_current_process(frame());
    assert_eq!(executor.descriptor(0).unwrap().registers().instruction_pointer, 0);
    executor.tick(frame(), 0xABCD);
    let saved = ProcessRegisters { instruction_pointer: 0x7777, stack_pointer: 0x10F00, cpu_flags: 0x2 };
    executor.update_current_process(saved);
    assert_eq!(*executor.descriptor(0).unwrap().registers(), saved);
}

#[test]
fn guard_page_fault_finishes_the_process() {
    let mut executor: Executor<Recorder, u32> = Executor::new();
    let a = executor.create_process(recorder(), 0x10000);
    let b = executor.create_process(recorder(), 0x20000);
    executor.post_message(b, 9);
    assert_eq!(run_tick(&mut executor), a);
    let stack_top: u64 = 0x10000 + 4096;
    assert!(executor.handle_page_fault(stack_top - 4097));
    assert_eq!(*executor.descriptor(a).unwrap().state(), ProcessState::Finished);
    assert_eq!(run_tick(&mut executor), b);
    assert!(executor.descriptor(a).is_none());
    assert_eq!(executor.ready_count(), 0);
    assert_eq!(executor.descriptor(b).unwrap().process().seen, vec![9]);
    assert_eq!(run_tick(&mut executor), b);
    assert_eq!(run_tick(&mut executor), b);
}

#[test]
fn page_fault_elsewhere_is_not_handled() {
    let mut executor: Executor<Recorder, u32> = Executor::new();
    executor.create_process(recorder(), 0x10000);
    run_tick(&mut executor);
    assert!(!executor.handle_page_fault(0x10000));
    assert!(!executor.handle_page_fault(0x5000));
    assert_eq!(*executor.descriptor(0).unwrap().state(), ProcessState::Running);
}

#[test]
fn remove_process_with_children_drops_it() {
    let mut executor: Executor<Recorder, u32> = Executor::new();
    executor.create_process(recorder(), 0x10000);
    executor.create_process(recorder(), 0x20000);
    executor.remove_process_with_children(0);
    assert!(executor.descriptor(0).is_none());
    assert!(executor.descriptor(1).is_some());
    assert_eq!(executor.ready_count(), 1);
    assert_eq!(executor.schedule_next(), Some(1));
    executor.remove_process(1);
    assert!(executor.descriptor(1).is_none());
}

#[test]
fn guard_page_is_unmapped() {
    let mut buddy = BuddyAllocator::new(0x100000, 0x200000);
    let mut table = PageTable::new(0x300000);
    let mut executor: Executor<Recorder, u32> = Executor::new();
    let id = executor.create_process(recorder(), 0x40_1000);
    assert_eq!(table.map_page(0x40_0000, 0x40_0000, PRESENT, &mut buddy), Ok(()));
    assert_eq!(table.map_page(0x40_1000, 0x40_1000, PRESENT, &mut buddy), Ok(()));
    executor.descriptor(id).unwrap().create_guard(&mut table);
    assert_eq!(table.translate(0x40_0010), None);
    assert_eq!(table.translate(0x40_1010), Some(0x40_1010));
}

struct Counter {
    total: u32,
}

impl Handler<u32> for Counter {
    fn handle(&mut self, message: u32) {
        self.total += message;
    }
}

#[test]
fn handler_process_passes_messages_on() {
    let mut executor: Executor<HandlerProcess<Counter, u32>, u32> = Executor::new();
    let id = executor.create_process(HandlerProcess::new(Counter { total: 0 }), 0x10000);
    executor.post_message(id, 5);
    executor.post_message(id, 7);
    executor.tick(frame(), 0xABCD);
    executor.process_front_message(id);
    assert_eq!(executor.descriptor(id).unwrap().process().handler().total, 5);
    executor.process_front_message(id);
    assert_eq!(executor.descriptor(id).unwrap().process().handler().total, 12);
    executor.process_front_message(id);
    assert_eq!(executor.descriptor(id).unwrap().process().handler().total, 12);
}
