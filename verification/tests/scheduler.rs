use kernel::task::{
    init, kernel_stack_layout, prepare_task_switch, sched_exit, sched_sleep, sched_yield,
    kernel_stack_plan, stack_flags, stack_page_flags, task_switch, time_now, time_tick, user_stack_bounds, Scheduler, ShortVec,
    Task, TaskState, Tasks, FLAG_IDLE, FLAG_KERNEL, TASK_RUN_TIME,
};
use kernel::gdt::Tss;
use kernel::memory::{FLAGS_DEFAULT_RO, FLAGS_DEFAULT_RW, FLAG_USER};
use std::collections::VecDeque;

fn state(s: &Scheduler, id: usize) -> TaskState {
    s.get(id).unwrap().state
}

#[test]
fn round_robin_with_sleep_and_exit() {
    let mut s = Scheduler::new();
    assert_eq!(s.current(), usize::MAX);
    let idle = s.add_to_tasks(Task::new_kernel(0x1000, 0, true), false);
    assert_eq!(idle, 0);
    s.start(idle);
    let main = init(&mut s, Task::new_kernel(0x2000, 0x1000, false));
    assert_eq!(main, 1);
    assert_eq!(s.current(), 1);
    assert_eq!(s.get(1).unwrap().time, TASK_RUN_TIME);
    assert_eq!(state(&s, 1), TaskState::Running);
    let side = s.add_to_tasks(Task::new_kernel(0x3000, 0x2000, false), true);
    assert_eq!(side, 2);
    assert_eq!(s.get(2).unwrap().id, 2);
    assert_eq!(state(&s, 2), TaskState::Ready);

    assert_eq!(sched_yield(&mut s), Some(2));
    assert_eq!(s.current(), 2);
    assert_eq!(sched_yield(&mut s), Some(1));
    assert_eq!(s.current(), 1);

    for _ in 0..9 {
        assert_eq!(time_tick(&mut s), None);
    }
    assert_eq!(time_now(&s), 9);
    assert_eq!(time_tick(&mut s), Some(2));
    assert_eq!(s.get(2).unwrap().time, 20);

    assert_eq!(sched_sleep(&mut s, 5), Some(1));
    assert_eq!(state(&s, 2), TaskState::Blocked);
    for _ in 0..9 {
        assert_eq!(time_tick(&mut s), None);
    }
    assert_eq!(time_tick(&mut s), Some(2));
    assert_eq!(time_now(&s), 20);
    assert_eq!(state(&s, 2), TaskState::Running);

    assert_eq!(sched_exit(&mut s), Some(1));
    assert_eq!(state(&s, 2), TaskState::Terminated);
    assert_eq!(sched_exit(&mut s), Some(0));
    assert_eq!(s.current(), 0);
    assert_eq!(sched_yield(&mut s), None);
    assert_eq!(s.current(), 0);
}

#[test]
fn sleeping_no_time_does_nothing() {
    let mut s = Scheduler::new();
    let id = init(&mut s, Task::new_kernel(0x2000, 0x1000, false));
    assert_eq!(sched_sleep(&mut s, 0), None);
    assert_eq!(s.current(), id);
    assert_eq!(state(&s, id), TaskState::Running);
}

#[test]
fn ticks_before_start_only_count() {
    let mut s = Scheduler::new();
    assert_eq!(time_tick(&mut s), None);
    assert_eq!(time_tick(&mut s), None);
    assert_eq!(time_now(&s), 2);
}

#[test]
fn switching_to_the_running_task_changes_nothing() {
    let mut s = Scheduler::new();
    let id = init(&mut s, Task::new_kernel(0x2000, 0x1000, false));
    assert!(task_switch(&mut s, id).is_ok());
    assert_eq!(s.get(id).unwrap().time, TASK_RUN_TIME);
}

#[test]
fn tasks_fill_the_first_empty_slot() {
    let mut t = Tasks::new();
    assert_eq!(t.insert(Task::new_kernel(1, 0, false)), 0);
    assert_eq!(t.insert(Task::new_kernel(2, 0, false)), 1);
    assert_eq!(t.add_to_tasks(Task::new_kernel(3, 0, false), true), 2);
    assert_eq!(t.get(1).unwrap().kernel_stack, 2);
    assert_eq!(t.get(1).unwrap().id, 1);
    assert!(t.get(3).is_none());
}

#[test]
fn task_records() {
    let k = Task::new_kernel(0x5000, 0x4000, false);
    assert_eq!(k.flags, FLAG_KERNEL);
    assert_eq!(k.kernel_stack_start, 0x5000);
    assert_eq!(k.user_stack, 0);
    let i = Task::new_kernel(0x5000, 0x4000, true);
    assert_eq!(i.flags, FLAG_KERNEL | FLAG_IDLE);
    let u = Task::new_user(0x5000, 0x4000, 0x9000, 0x8000);
    assert_eq!(u.flags, 0);
    assert_eq!(u.user_stack, 0x9000);
    assert_eq!(u.user_stack_base, 0x8000);
    assert_eq!(u.state, TaskState::Ready);
}

#[test]
fn kernel_stack_starts_with_the_entry_frame() {
    let (top, words) = kernel_stack_layout(0x2000, Some((0xaaaa, 0xbbbb)), 0xcccc);
    assert_eq!(top, 0x2000 - 10);
    assert_eq!(words, [0xbbbb, 0xaaaa, 0xcccc, 0]);
    let (top, words) = kernel_stack_layout(10, None, 0xcccc);
    assert_eq!(top, 0);
    assert_eq!(words, [0, 0, 0xcccc, 0]);
}

#[test]
fn stacks_have_a_read_only_guard_page() {
    assert_eq!(stack_page_flags(0, false), FLAGS_DEFAULT_RO);
    assert_eq!(stack_page_flags(1, false), FLAGS_DEFAULT_RW);
    assert_eq!(stack_page_flags(0, true), FLAGS_DEFAULT_RO | FLAG_USER);
    assert_eq!(stack_page_flags(3, true), FLAGS_DEFAULT_RW | FLAG_USER);
    assert_eq!(user_stack_bounds(0x40_0000, 0x1800), (0x40_2000, 0x40_0000));
}

#[test]
fn a_switch_installs_the_task_kernel_stack() {
    let mut t = Task::new_kernel(0x7000, 0x6000, false);
    let mut tss = Tss::default();
    prepare_task_switch(&mut t, &mut tss, 3);
    assert_eq!(t.core, 3);
    assert_eq!(tss.rsp[0], 0x7000);
}

#[test]
fn short_vec_keeps_order() {
    let mut v = ShortVec::new(1usize);
    v.push(2);
    v.push(3);
    let mut q = VecDeque::new();
    q.push_back(0usize);
    v.extend_to(&mut q);
    assert_eq!(q, VecDeque::from(vec![0, 1, 2, 3]));
}

#[test]
fn stack_flags_guard_the_lowest_page() {
    assert_eq!(stack_flags(3, false), vec![FLAGS_DEFAULT_RO, FLAGS_DEFAULT_RW, FLAGS_DEFAULT_RW]);
    assert_eq!(stack_flags(2, true), vec![FLAGS_DEFAULT_RO | FLAG_USER, FLAGS_DEFAULT_RW | FLAG_USER]);
    assert!(stack_flags(0, false).is_empty());
}

#[test]
fn kernel_stack_plan_places_the_first_words() {
    let plan = kernel_stack_plan(0x1_0000, 0xffff_f000_0000_0000, Some((0xaaaa, 0xbbbb)), 0xcccc);
    assert_eq!(plan.pages, 16);
    assert_eq!(plan.flags.len(), 16);
    assert_eq!(plan.flags[0], FLAGS_DEFAULT_RO);
    assert_eq!(plan.flags[15], FLAGS_DEFAULT_RW);
    assert_eq!(plan.top, 0xffff_f000_0000_0000 + 0x1_0000 - 80);
    assert_eq!(plan.init, [0xbbbb, 0xaaaa, 0xcccc, 0]);
    let idle = kernel_stack_plan(0x1001 * 8, 0x1000, None, 7);
    assert_eq!(idle.pages, 9);
    assert_eq!(idle.init, [0, 0, 7, 0]);
}
