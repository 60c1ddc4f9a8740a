use os_core::abi::{TaskInfo, TimeVal};
use os_core::config::{INIT_PID, PAGE_SIZE, SYSCALL_GET_TIME, SYSCALL_TASK_INFO, SYSCALL_WRITE};
use os_core::mm::{MapPermission, Page};
use os_core::process::{
    sys_exec, sys_exit, sys_fork, sys_get_time, sys_getpid, sys_mmap, sys_munmap, sys_sbrk,
    sys_spawn, sys_task_info, sys_waitpid, sys_yield,
};
use os_core::task::{ExitOutcome, Kernel, ProgramImage, TaskStatus, REG_A0, REG_SP};

const CODE_VPN: usize = 0x10;
const DATA_VPN: usize = 0x11;

fn page(vpn: usize, r: bool, w: bool, x: bool, fill: u8) -> Page {
    Page { vpn, perm: MapPermission { r, w, x, u: true }, data: vec![fill; PAGE_SIZE] }
}

fn image(entry: usize) -> ProgramImage {
    ProgramImage {
        pages: vec![page(CODE_VPN, true, false, true, 0x13), page(DATA_VPN, true, true, false, 0)],
        entry,
    }
}

/// A kernel with init loaded and running.
fn booted() -> Kernel {
    let mut k = Kernel::new(image(CODE_VPN * PAGE_SIZE)).unwrap();
    assert_eq!(k.schedule(0), Some(INIT_PID));
    k
}

fn data_addr(off: usize) -> usize {
    DATA_VPN * PAGE_SIZE + off
}

fn status(k: &Kernel, pid: usize) -> TaskStatus {
    k.tasks[pid].as_ref().unwrap().task_status
}

fn running_count(k: &Kernel) -> usize {
    k.tasks
        .iter()
        .filter(|t| matches!(t, Some(t) if t.task_status == TaskStatus::Running))
        .count()
}

fn read_i32(k: &Kernel, addr: usize) -> i32 {
    let b = k.read_user(addr, 4).unwrap();
    i32::from_le_bytes([b[0], b[1], b[2], b[3]])
}

#[test]
fn boot_runs_init_alone() {
    let k = booted();
    assert_eq!(k.current, Some(INIT_PID));
    assert_eq!(status(&k, INIT_PID), TaskStatus::Running);
    assert!(k.ready_queue.is_empty());
    let t = k.tasks[INIT_PID].as_ref().unwrap();
    assert_eq!(t.trap_cx.sepc, CODE_VPN * PAGE_SIZE);
    // code, data, guard page at 0x12, two stack pages
    assert_eq!(t.heap_bottom, 0x15 * PAGE_SIZE);
    assert_eq!(t.trap_cx.x[REG_SP], 0x15 * PAGE_SIZE);
    assert_eq!(t.program_brk, t.heap_bottom);
    assert!(t.memory_set.translate(0x12).is_none());
    assert!(t.memory_set.translate(0x13).is_some());
    assert!(t.memory_set.translate(0x14).is_some());
    assert!(t.memory_set.translate(0x15).is_none());
    assert_eq!(sys_getpid(&k), 0);
}

#[test]
fn bad_images_are_refused() {
    let dup = ProgramImage { pages: vec![page(3, true, false, false, 0), page(3, true, false, false, 0)], entry: 0 };
    assert!(Kernel::new(dup).is_err());
    let short = ProgramImage {
        pages: vec![Page { vpn: 3, perm: MapPermission { r: true, w: false, x: false, u: true }, data: vec![0; 10] }],
        entry: 0,
    };
    assert!(Kernel::new(short).is_err());
}

#[test]
fn at_most_one_task_runs() {
    let mut k = booted();
    let a = sys_fork(&mut k);
    let b = sys_fork(&mut k);
    assert_eq!((a, b), (1, 2));
    assert_eq!(running_count(&k), 1);
    for _ in 0..5 {
        assert_eq!(sys_yield(&mut k, 10), 0);
        assert_eq!(running_count(&k), 1);
        let c = k.current.unwrap();
        assert_eq!(status(&k, c), TaskStatus::Running);
    }
}

#[test]
fn yield_is_round_robin() {
    let mut k = booted();
    sys_fork(&mut k);
    sys_fork(&mut k);
    assert_eq!(k.ready_queue, vec![1, 2]);
    sys_yield(&mut k, 0);
    assert_eq!(k.current, Some(1));
    assert_eq!(k.ready_queue, vec![2, 0]);
    sys_yield(&mut k, 0);
    assert_eq!(k.current, Some(2));
    sys_yield(&mut k, 0);
    assert_eq!(k.current, Some(0));
}

#[test]
fn yield_alone_keeps_running() {
    let mut k = booted();
    assert_eq!(sys_yield(&mut k, 5), 0);
    assert_eq!(k.current, Some(INIT_PID));
    assert_eq!(status(&k, INIT_PID), TaskStatus::Running);
}

#[test]
fn waitpid_without_children_is_minus_one() {
    let mut k = booted();
    assert_eq!(sys_waitpid(&mut k, -1, data_addr(0)), -1);
    assert_eq!(sys_waitpid(&mut k, 5, data_addr(0)), -1);
}

#[test]
fn waitpid_with_live_children_is_minus_two() {
    let mut k = booted();
    let child = sys_fork(&mut k);
    assert_eq!(sys_waitpid(&mut k, -1, data_addr(0)), -2);
    assert_eq!(sys_waitpid(&mut k, child, data_addr(0)), -2);
    assert_eq!(sys_waitpid(&mut k, child + 1, data_addr(0)), -1);
}

#[test]
fn reaping_removes_one_child_once() {
    let mut k = booted();
    let c1 = sys_fork(&mut k);
    let c2 = sys_fork(&mut k);
    sys_yield(&mut k, 0);
    assert_eq!(k.current, Some(c1 as usize));
    assert!(matches!(sys_exit(&mut k, 3, 0), ExitOutcome::Switched { next: Some(2) }));
    sys_yield(&mut k, 0);
    assert_eq!(k.current, Some(INIT_PID));
    assert_eq!(sys_waitpid(&mut k, -1, data_addr(0)), c1);
    assert_eq!(read_i32(&k, data_addr(0)), 3);
    assert!(k.tasks[c1 as usize].is_none());
    assert_eq!(k.tasks[INIT_PID].as_ref().unwrap().children, vec![c2 as usize]);
    assert_eq!(sys_waitpid(&mut k, c1, data_addr(0)), -1);
    assert_eq!(sys_waitpid(&mut k, -1, data_addr(0)), -2);
}

#[test]
fn waitpid_to_bad_address_reaps_nothing() {
    let mut k = booted();
    let c = sys_fork(&mut k);
    sys_yield(&mut k, 0);
    sys_exit(&mut k, 1, 0);
    assert_eq!(k.current, Some(INIT_PID));
    assert_eq!(sys_waitpid(&mut k, c, 0x9999_0000), -1);
    assert_eq!(status(&k, c as usize), TaskStatus::Zombie);
    assert_eq!(sys_waitpid(&mut k, c, data_addr(8)), c);
}

#[test]
fn fork_returns_zero_in_child() {
    let mut k = booted();
    let pid = sys_fork(&mut k);
    assert_eq!(pid, 1);
    let child = k.tasks[1].as_ref().unwrap();
    assert_eq!(child.trap_cx.x[REG_A0], 0);
    assert_eq!(child.parent, Some(INIT_PID));
    assert_eq!(child.task_status, TaskStatus::Ready);
    assert_eq!(k.tasks[0].as_ref().unwrap().children, vec![1]);
}

#[test]
fn fork_copies_memory_deeply() {
    let mut k = booted();
    k.write_user(data_addr(100), &vec![1, 2, 3]).unwrap();
    let child = sys_fork(&mut k) as usize;
    k.write_user(data_addr(100), &vec![9, 9, 9]).unwrap();
    sys_yield(&mut k, 0);
    assert_eq!(k.current, Some(child));
    assert_eq!(k.read_user(data_addr(100), 3).unwrap(), vec![1, 2, 3]);
    k.write_user(data_addr(100), &vec![4, 4, 4]).unwrap();
    sys_yield(&mut k, 0);
    assert_eq!(k.current, Some(INIT_PID));
    assert_eq!(k.read_user(data_addr(100), 3).unwrap(), vec![9, 9, 9]);
}

#[test]
fn mmap_then_munmap_restores_space() {
    let mut k = booted();
    let start = 0x1000_0000;
    let vpn = start / PAGE_SIZE;
    assert_eq!(sys_mmap(&mut k, start, 2 * PAGE_SIZE, 3), 0);
    assert_eq!(k.check_page_validity(vpn), 0);
    assert_eq!(k.check_page_validity(vpn + 1), 0);
    assert_eq!(k.check_page_validity(vpn + 2), 1);
    k.write_user(start + PAGE_SIZE - 2, &vec![7, 8, 9, 10]).unwrap();
    assert_eq!(sys_munmap(&mut k, start, 2 * PAGE_SIZE), 0);
    assert_eq!(k.check_page_validity(vpn), 1);
    assert_eq!(k.check_page_validity(vpn + 1), 1);
    assert!(k.read_user(start, 1).is_err());
}

#[test]
fn mmap_over_mapped_page_fails() {
    let mut k = booted();
    let start = 0x1000_0000;
    assert_eq!(sys_mmap(&mut k, start, PAGE_SIZE, 1), 0);
    assert_eq!(sys_mmap(&mut k, start - PAGE_SIZE, 2 * PAGE_SIZE, 1), -1);
    assert_eq!(k.check_page_validity(start / PAGE_SIZE - 1), 1);
    assert_eq!(sys_mmap(&mut k, DATA_VPN * PAGE_SIZE, 10, 3), -1);
}

#[test]
fn munmap_of_unmapped_page_fails() {
    let mut k = booted();
    let start = 0x1000_0000;
    assert_eq!(sys_munmap(&mut k, start, PAGE_SIZE), -1);
    assert_eq!(sys_mmap(&mut k, start, PAGE_SIZE, 2), 0);
    assert_eq!(sys_munmap(&mut k, start, 2 * PAGE_SIZE), -1);
    assert_eq!(k.check_page_validity(start / PAGE_SIZE), 0);
}

#[test]
fn mmap_checks_alignment_and_prot() {
    let mut k = booted();
    assert_eq!(sys_mmap(&mut k, 0x1000_0001, PAGE_SIZE, 3), -1);
    assert_eq!(sys_mmap(&mut k, 0x1000_0000, PAGE_SIZE, 0), -1);
    assert_eq!(sys_mmap(&mut k, 0x1000_0000, PAGE_SIZE, 8), -1);
    assert_eq!(sys_mmap(&mut k, 0x1000_0000, PAGE_SIZE, 7), 0);
    assert_eq!(sys_munmap(&mut k, 0x1000_0001, PAGE_SIZE), -1);
}

#[test]
fn mmap_rights_follow_prot() {
    let mut k = booted();
    assert_eq!(sys_mmap(&mut k, 0x2000_0000, 1, 5), 0);
    let t = k.tasks[0].as_ref().unwrap();
    let p = t.memory_set.translate(0x2000_0000 / PAGE_SIZE).unwrap();
    assert_eq!(p, MapPermission { r: true, w: false, x: true, u: true });
}

#[test]
fn time_val_across_page_boundary_round_trips() {
    let mut k = booted();
    // the last 8 bytes of the data page and the first 8 of the guard-free stack are not contiguous,
    // so map two fresh adjacent pages and straddle them
    let start = 0x3000_0000;
    assert_eq!(sys_mmap(&mut k, start, 2 * PAGE_SIZE, 3), 0);
    let at = start + PAGE_SIZE - 7;
    assert_eq!(sys_get_time(&mut k, at, 3_250_017), 0);
    let bytes = k.read_user(at, 16).unwrap();
    let tv = TimeVal::from_bytes(&bytes).unwrap();
    assert_eq!(tv, TimeVal { sec: 3, usec: 250_017 });
}

#[test]
fn get_time_to_unmapped_address_fails() {
    let mut k = booted();
    // the guard page below the stack is never mapped
    assert_eq!(sys_get_time(&mut k, 0x12 * PAGE_SIZE, 1), -1);
    // a range running off the end of the data page into the guard page
    assert_eq!(sys_get_time(&mut k, data_addr(PAGE_SIZE - 8), 1), -1);
}

#[test]
fn task_info_counts_itself() {
    let mut k = booted();
    let at = data_addr(0);
    for _ in 0..3 {
        k.add_syscall_num(SYSCALL_GET_TIME);
    }
    k.add_syscall_num(SYSCALL_TASK_INFO);
    assert_eq!(sys_task_info(&mut k, at, 2_500_000), 0);
    let b = k.read_user(at, 2016).unwrap();
    let count = |id: usize| u32::from_le_bytes([b[4 + 4 * id], b[5 + 4 * id], b[6 + 4 * id], b[7 + 4 * id]]);
    assert_eq!(u32::from_le_bytes([b[0], b[1], b[2], b[3]]), 2);
    assert_eq!(count(SYSCALL_TASK_INFO), 1);
    assert_eq!(count(SYSCALL_GET_TIME), 3);
    assert_eq!(count(SYSCALL_WRITE), 0);
    let time = u64::from_le_bytes([b[2008], b[2009], b[2010], b[2011], b[2012], b[2013], b[2014], b[2015]]);
    assert_eq!(time, 2500);
    k.add_syscall_num(SYSCALL_WRITE);
    k.add_syscall_num(SYSCALL_WRITE);
    k.add_syscall_num(SYSCALL_TASK_INFO);
    assert_eq!(sys_task_info(&mut k, at, 2_600_000), 0);
    let b = k.read_user(at, 2016).unwrap();
    let count = |id: usize| u32::from_le_bytes([b[4 + 4 * id], b[5 + 4 * id], b[6 + 4 * id], b[7 + 4 * id]]);
    assert_eq!(count(SYSCALL_TASK_INFO), 2);
    assert_eq!(count(SYSCALL_WRITE), 2);
}

#[test]
fn task_info_time_is_in_milliseconds() {
    let mut k = booted();
    assert_eq!(sys_task_info(&mut k, data_addr(0), 65_537_123_456), 0);
    let b = k.read_user(data_addr(2008), 8).unwrap();
    let time = u64::from_le_bytes([b[0], b[1], b[2], b[3], b[4], b[5], b[6], b[7]]);
    assert_eq!(time, 65_537_123);
}

#[test]
fn exited_task_stays_reapable_and_stamped() {
    let mut k = booted();
    let c = sys_fork(&mut k) as usize;
    sys_yield(&mut k, 0);
    sys_exit(&mut k, 4, 777);
    let t = k.tasks[c].as_ref().unwrap();
    assert_eq!(t.timer, 777);
    assert_eq!(k.tasks[INIT_PID].as_ref().unwrap().children, vec![c]);
}

#[test]
fn yield_keeps_task_data() {
    let mut k = booted();
    k.write_user(data_addr(0), &vec![42]).unwrap();
    sys_fork(&mut k);
    sys_yield(&mut k, 0);
    let init = k.tasks[INIT_PID].as_ref().unwrap();
    assert_eq!(init.task_status, TaskStatus::Ready);
    assert_eq!(init.children, vec![1]);
    assert_eq!(init.fd_table.len(), 3);
    sys_yield(&mut k, 0);
    assert_eq!(k.read_user(data_addr(0), 1).unwrap(), vec![42]);
}

#[test]
fn spawned_child_starts_with_clear_registers() {
    let mut k = booted();
    let pid = sys_spawn(&mut k, Some(image(0x1000))) as usize;
    let t = k.tasks[pid].as_ref().unwrap();
    assert_eq!(t.trap_cx.x[REG_A0], 0);
    assert_eq!(t.trap_cx.x[REG_SP], t.heap_bottom);
}

#[test]
fn get_task_info_reports_running() {
    let mut k = booted();
    k.add_syscall_num(SYSCALL_WRITE);
    let (counts, us, st) = k.get_task_info(42);
    assert_eq!(counts[SYSCALL_WRITE], 1);
    assert_eq!(us, 42);
    assert_eq!(st, TaskStatus::Running);
    let info = TaskInfo { status: st, syscall_times: counts, time: 7 };
    assert_eq!(info.to_bytes().len(), 2016);
}

#[test]
fn fork_wait_exit_scenario() {
    let mut k = booted();
    let b = sys_fork(&mut k);
    let code_at = data_addr(64);
    assert_eq!(sys_waitpid(&mut k, b, code_at), -2);
    sys_yield(&mut k, 0);
    assert_eq!(k.current, Some(b as usize));
    assert_eq!(
        sys_exit(&mut k, 7, 0),
        ExitOutcome::Switched { next: Some(INIT_PID) }
    );
    assert_eq!(status(&k, b as usize), TaskStatus::Zombie);
    assert_eq!(sys_waitpid(&mut k, b, code_at), b);
    assert_eq!(read_i32(&k, code_at), 7);
}

#[test]
fn sbrk_grows_then_shrinks_back() {
    let mut k = booted();
    let p = sys_sbrk(&mut k, 4096);
    assert_eq!(p, (0x15 * PAGE_SIZE) as isize);
    k.write_user(p as usize + 10, &vec![1]).unwrap();
    assert_eq!(sys_sbrk(&mut k, -4096), p + 4096);
    assert_eq!(k.tasks[0].as_ref().unwrap().program_brk, p as usize);
    assert!(k.read_user(p as usize + 10, 1).is_err());
}

#[test]
fn sbrk_below_heap_bottom_fails() {
    let mut k = booted();
    assert_eq!(sys_sbrk(&mut k, -1), -1);
    let p = sys_sbrk(&mut k, 10);
    assert_eq!(sys_sbrk(&mut k, -11), -1);
    assert_eq!(sys_sbrk(&mut k, -10), p + 10);
}

#[test]
fn sbrk_into_mapping_fails() {
    let mut k = booted();
    assert_eq!(sys_mmap(&mut k, 0x16 * PAGE_SIZE, PAGE_SIZE, 3), 0);
    assert_eq!(sys_sbrk(&mut k, 4096), (0x15 * PAGE_SIZE) as isize);
    assert_eq!(sys_sbrk(&mut k, 4096), -1);
}

#[test]
fn exit_gives_children_to_init() {
    let mut k = booted();
    let a = sys_fork(&mut k) as usize;
    sys_yield(&mut k, 0);
    assert_eq!(k.current, Some(a));
    let g1 = sys_fork(&mut k) as usize;
    let g2 = sys_fork(&mut k) as usize;
    let before = k.tasks[INIT_PID].as_ref().unwrap().children.len();
    assert!(matches!(sys_exit(&mut k, 0, 9), ExitOutcome::Switched { .. }));
    let init = k.tasks[INIT_PID].as_ref().unwrap();
    assert_eq!(init.children.len(), before + 2);
    assert_eq!(init.children, vec![a, g1, g2]);
    assert_eq!(k.tasks[g1].as_ref().unwrap().parent, Some(INIT_PID));
    assert_eq!(k.tasks[g2].as_ref().unwrap().parent, Some(INIT_PID));
    let dead = k.tasks[a].as_ref().unwrap();
    assert!(dead.children.is_empty());
    assert_eq!(dead.exit_code, 0);
    assert!(dead.memory_set.pages.is_empty());
}

#[test]
fn init_exit_shuts_down() {
    let mut k = booted();
    assert_eq!(sys_exit(&mut k, 0, 0), ExitOutcome::Shutdown { failure: false });
    assert_eq!(sys_exit(&mut k, -1, 0), ExitOutcome::Shutdown { failure: true });
    assert_eq!(k.current, Some(INIT_PID));
}

#[test]
fn exec_replaces_program_keeps_pid() {
    let mut k = booted();
    let c = sys_fork(&mut k) as usize;
    sys_yield(&mut k, 0);
    let img = ProgramImage { pages: vec![page(0x40, true, false, true, 1)], entry: 0x40 * PAGE_SIZE };
    assert_eq!(sys_exec(&mut k, Some(img)), 0);
    assert_eq!(sys_getpid(&k), c as isize);
    let t = k.tasks[c].as_ref().unwrap();
    assert_eq!(t.trap_cx.sepc, 0x40 * PAGE_SIZE);
    assert!(t.memory_set.translate(DATA_VPN).is_none());
    assert_eq!(t.heap_bottom, 0x44 * PAGE_SIZE);
    assert_eq!(sys_exec(&mut k, None), -1);
}

#[test]
fn spawn_starts_child_from_image() {
    let mut k = booted();
    let pid = sys_spawn(&mut k, Some(image(0x1234)));
    assert_eq!(pid, 1);
    let t = k.tasks[1].as_ref().unwrap();
    assert_eq!(t.parent, Some(INIT_PID));
    assert_eq!(t.trap_cx.sepc, 0x1234);
    assert_eq!(k.ready_queue, vec![1]);
    assert_eq!(sys_spawn(&mut k, None), -1);
}

#[test]
fn reaped_pid_is_reused() {
    let mut k = booted();
    let c = sys_fork(&mut k);
    sys_yield(&mut k, 0);
    sys_exit(&mut k, 0, 0);
    assert_eq!(sys_waitpid(&mut k, c, data_addr(0)), c);
    assert_eq!(sys_fork(&mut k), c);
}

#[test]
fn syscall_time_is_accumulated() {
    let mut k = booted();
    k.syscall_enter(SYSCALL_GET_TIME, 1_000);
    k.syscall_leave(1_250);
    k.syscall_enter(SYSCALL_GET_TIME, 2_000);
    k.syscall_leave(2_100);
    let t = k.tasks[INIT_PID].as_ref().unwrap();
    assert_eq!(t.kernel_time, 350);
    assert_eq!(t.syscall_times[SYSCALL_GET_TIME], 2);
    // a clock read that went backwards adds nothing
    k.syscall_enter(SYSCALL_GET_TIME, 5_000);
    k.syscall_leave(4_000);
    assert_eq!(k.tasks[INIT_PID].as_ref().unwrap().kernel_time, 350);
}

#[test]
fn counters_saturate_and_ignore_unknown_ids() {
    let mut k = booted();
    k.add_syscall_num(100_000);
    let (counts, _, _) = k.get_task_info(0);
    assert!(counts.iter().all(|c| *c == 0));
}

#[test]
fn time_in_ready_queue_is_not_run_time() {
    let mut k = booted();
    sys_fork(&mut k);
    sys_yield(&mut k, 100);
    assert_eq!(k.current, Some(1));
    sys_yield(&mut k, 300);
    assert_eq!(k.current, Some(INIT_PID));
    assert_eq!(k.tasks[1].as_ref().unwrap().my_time, 200);
    let (_, us, _) = k.get_task_info(350);
    assert_eq!(us, 150);
}
