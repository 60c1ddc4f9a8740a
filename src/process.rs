//! Syscalls of the process tree, memory and time, on the Running task.
use vstd::prelude::*;
use crate::abi::{i32_bytes, task_info_bytes, time_val_bytes, TaskInfo, TimeVal};
use crate::config::PAGE_SIZE;
use crate::mm::{
    accessible, range_mapped, range_unmapped, with_range_mapped, with_range_unmapped, written,
    MapPermission, PageView, lemma_map_then_unmap_restores,
};
use crate::task::{
    brk_ok, brk_space, elapsed, exit_effect, image_ok, image_top, image_view, keeps_bookkeeping,
    keeps_process, keeps_times, same_but_space,
    page_ceil, same_but_status, ExitOutcome, Kernel, ProgramImage, TaskStatus, REG_A0, REG_SP, TRAP_REGS,
    USER_STACK_PAGES,
};

verus! {

/// `prot` asks for at least one of read, write and execute, and nothing
/// else.
pub open spec fn prot_ok(prot: usize) -> bool {
    0 < prot <= 7
}

/// The rights `prot` asks for, reachable from user mode.
pub open spec fn prot_perm(prot: usize) -> MapPermission {
    MapPermission { r: prot % 2 == 1, w: (prot / 2) % 2 == 1, x: (prot / 4) % 2 == 1, u: true }
}

/// `[start, start + len)` is page-aligned at its start and its page
/// numbers can be computed.
pub open spec fn range_ok(start: usize, len: usize) -> bool {
    start % PAGE_SIZE == 0 && start + len <= usize::MAX - PAGE_SIZE
}

pub open spec fn first_vpn(start: usize) -> int {
    start as int / (PAGE_SIZE as int)
}

pub open spec fn end_vpn(start: usize, len: usize) -> int {
    (start + len + PAGE_SIZE - 1) / (PAGE_SIZE as int)
}

/// Run time in milliseconds as `task_info` reports it.
pub open spec fn task_time_ms(us: int) -> int {
    us / 1000
}

/// Ends the Running task; see `Kernel::exit_current_and_run_next`.
pub fn sys_exit(k: &mut Kernel, exit_code: i32, now: usize) -> (r: ExitOutcome)
    requires
        old(k).wf(),
        old(k).current is Some,
    ensures
        final(k).wf(),
        old(k).current_pid() == crate::config::INIT_PID ==> r == (ExitOutcome::Shutdown {
            failure: exit_code != 0,
        }),
        old(k).current_pid() == crate::config::INIT_PID ==> *final(k) == *old(k),
        old(k).current_pid() != crate::config::INIT_PID ==> exit_effect(*old(k), *final(k), r, exit_code, now as int),
{
    k.exit_current_and_run_next(exit_code, now)
}

/// Gives up the processor; the caller goes to the back of the queue.
pub fn sys_yield(k: &mut Kernel, now: usize) -> (r: isize)
    requires
        old(k).wf(),
        old(k).current is Some,
    ensures
        final(k).wf(),
        r == 0,
        final(k).current == Some(old(k).ready_queue@.push(old(k).current->Some_0)[0]),
        final(k).ready_queue@ == old(k).ready_queue@.push(old(k).current->Some_0).drop_first(),
        final(k).tasks@.len() == old(k).tasks@.len(),
        forall|q: int|
            #[trigger] old(k).live(q) ==> final(k).live(q) && same_but_status(old(k).tcb(q), final(k).tcb(q)),
        final(k).tcb(old(k).current_pid()).my_time == elapsed(old(k).cur(), now as int),
        final(k).tcb(old(k).current_pid()).timer == now,
{
    k.suspend_current_and_run_next(now);
    0
}

/// Stores the time `now_us`, given in microseconds, as a `TimeVal` at user
/// address `ts`. Returns 0, or -1 when `ts` cannot take it.
pub fn sys_get_time(k: &mut Kernel, ts: usize, now_us: usize) -> (r: isize)
    requires
        old(k).wf(),
        old(k).current is Some,
    ensures
        final(k).wf(),
        final(k).only_current_changed(old(k)),
        r == 0 || r == -1,
        (r == 0) <==> accessible(old(k).cur_space(), ts as int, 16),
        same_but_space(old(k).cur(), final(k).cur()),
        r == -1 ==> final(k).tasks@ == old(k).tasks@,
        r == 0 ==> written(
            old(k).cur_space(),
            final(k).cur_space(),
            ts as int,
            time_val_bytes(TimeVal { sec: (now_us / 1_000_000) as u64, usec: (now_us % 1_000_000) as u64 }),
        ),
{
    let time = TimeVal::from_us(now_us);
    let bytes = time.to_bytes();
    proof {
        crate::abi::lemma_time_val_round_trip(time);
    }
    match k.write_user(ts, &bytes) {
        Ok(()) => 0,
        Err(_) => -1,
    }
}

/// The Running task's pid.
pub fn sys_getpid(k: &Kernel) -> (r: isize)
    requires
        k.wf(),
        k.current is Some,
    ensures
        r as int == k.current_pid(),
{
    let c = k.current_task();
    assert(k.live(c as int));
    c as isize
}

/// Forks the Running task. The child's saved return register is set to 0,
/// so the call returns 0 in the child; the parent gets the child's pid, or
/// -1 when the process table is full.
pub fn sys_fork(k: &mut Kernel) -> (r: isize)
    requires
        old(k).wf(),
        old(k).current is Some,
    ensures
        final(k).wf(),
        r == -1 <==> old(k).table_full(),
        r == -1 ==> *final(k) == *old(k),
        r != -1 ==> {
            &&& r >= 0
            &&& !old(k).live(r as int)
            &&& final(k).live(r as int)
            &&& final(k).current == old(k).current
            &&& final(k).ready_queue@ == old(k).ready_queue@.push(r as usize)
            &&& final(k).cur().children@ == old(k).cur().children@.push(r as usize)
            &&& final(k).cur().trap_cx == old(k).cur().trap_cx
            &&& final(k).cur().fd_table == old(k).cur().fd_table
            &&& final(k).cur().memory_set == old(k).cur().memory_set
            &&& final(k).cur().task_status == old(k).cur().task_status
            &&& final(k).tcb(r as int).fd_table@ == old(k).cur().fd_table@
            &&& final(k).tcb(r as int).program_brk == old(k).cur().program_brk
            &&& final(k).tcb(r as int).heap_bottom == old(k).cur().heap_bottom
            &&& final(k).tcb(r as int).trap_cx.x@ == old(k).cur().trap_cx.x@.update(REG_A0 as int, 0)
            &&& final(k).tcb(r as int).trap_cx.sepc == old(k).cur().trap_cx.sepc
            &&& final(k).tcb(r as int).memory_set@ == old(k).cur_space()
            &&& final(k).tcb(r as int).parent == Some(old(k).current_pid() as usize)
            &&& final(k).tcb(r as int).task_status == TaskStatus::Ready
        },
{
    let pid = match k.fork() {
        Some(pid) => pid,
        None => {
            return -1;
        },
    };
    let ghost k1 = *k;
    k.set_trap_reg(pid, REG_A0, 0);
    proof {
        assert(k1.live(pid as int));
        assert(pid != k1.current_pid());
    }
    pid as isize
}

/// Replaces the Running task's program. `image` is the program found at
/// the requested path, or `None` when there was none. Returns 0, or -1
/// with nothing changed.
pub fn sys_exec(k: &mut Kernel, image: Option<ProgramImage>) -> (r: isize)
    requires
        old(k).wf(),
        old(k).current is Some,
    ensures
        final(k).wf(),
        final(k).only_current_changed(old(k)),
        keeps_process(old(k).cur(), final(k).cur()),
        keeps_times(old(k).cur(), final(k).cur()),
        r == 0 || r == -1,
        (r == 0) <==> (image matches Some(img) && image_ok(img.pages@)),
        r == -1 ==> final(k).tasks@ == old(k).tasks@,
        r == 0 ==> {
            &&& final(k).cur_space() == image_view(image->Some_0.pages@)
            &&& final(k).cur().trap_cx.sepc == image->Some_0.entry
            &&& final(k).cur().trap_cx.x@[REG_SP as int] == final(k).cur().heap_bottom
            &&& forall|i: int| 0 <= i < TRAP_REGS && i != REG_SP ==> #[trigger] final(k).cur().trap_cx.x@[i] == 0
            &&& final(k).cur().heap_bottom == (image_top(image->Some_0.pages@) + 1 + USER_STACK_PAGES) * PAGE_SIZE
            &&& final(k).cur().program_brk == final(k).cur().heap_bottom
            &&& final(k).cur().fd_table == old(k).cur().fd_table
        },
{
    match image {
        Some(img) => {
            match k.exec(img) {
                Ok(()) => 0,
                Err(_) => -1,
            }
        },
        None => -1,
    }
}

/// Starts the program `image` (the one found at the requested path, or
/// `None`) as a new child of the Running task. Returns its pid, or -1 with
/// nothing changed.
pub fn sys_spawn(k: &mut Kernel, image: Option<ProgramImage>) -> (r: isize)
    requires
        old(k).wf(),
        old(k).current is Some,
    ensures
        final(k).wf(),
        (r == -1) <==> (image is None || !image_ok(image->Some_0.pages@) || old(k).table_full()),
        r == -1 ==> final(k).tasks@ == old(k).tasks@ && final(k).ready_queue == old(k).ready_queue
            && final(k).current == old(k).current,
        r != -1 ==> {
            &&& r >= 0
            &&& final(k).current == old(k).current
            &&& final(k).cur().memory_set == old(k).cur().memory_set
            &&& final(k).cur().fd_table == old(k).cur().fd_table
            &&& final(k).tcb(r as int).task_status == TaskStatus::Ready
            &&& final(k).tcb(r as int).trap_cx.sepc == image->Some_0.entry
            &&& forall|i: int| 0 <= i < TRAP_REGS && i != REG_SP ==> #[trigger] final(k).tcb(r as int).trap_cx.x@[i] == 0
            &&& !old(k).live(r as int)
            &&& final(k).live(r as int)
            &&& final(k).cur().children@ == old(k).cur().children@.push(r as usize)
            &&& final(k).ready_queue@ == old(k).ready_queue@.push(r as usize)
            &&& final(k).tcb(r as int).memory_set@ == image_view(image->Some_0.pages@)
            &&& final(k).tcb(r as int).parent == Some(old(k).current_pid() as usize)
        },
{
    match image {
        Some(img) => {
            match k.spawn(img) {
                Some(pid) => pid as isize,
                None => -1,
            }
        },
        None => -1,
    }
}

/// Waits for a child; see `Kernel::waitpid`. Returns the reaped child's
/// pid, -1 when no child is named by `pid` (or the code cannot be stored),
/// -2 when the named children are all alive.
pub fn sys_waitpid(k: &mut Kernel, pid: isize, exit_code_ptr: usize) -> (r: isize)
    requires
        old(k).wf(),
        old(k).current is Some,
    ensures
        final(k).wf(),
        (r == -1) <==> (forall|j: int| !#[trigger] old(k).child_matches(pid, j)) || (exists|j: int|
            #[trigger] old(k).zombie_match(pid, j)) && !accessible(
            old(k).cur_space(),
            exit_code_ptr as int,
            4,
        ),
        (r == -2) <==> (exists|j: int| #[trigger] old(k).child_matches(pid, j)) && (forall|j: int|
            !#[trigger] old(k).zombie_match(pid, j)),
        r == -1 || r == -2 || r >= 0,
        r < 0 ==> final(k).tasks@ == old(k).tasks@,
        r >= 0 ==> exists|j: int|
            {
                &&& #[trigger] old(k).first_zombie_match(pid, j)
                &&& r as int == old(k).cur().children@[j] as int
                &&& final(k).cur().children@ == old(k).cur().children@.remove(j)
                &&& final(k).cur().pid == old(k).cur().pid
                &&& final(k).cur().task_status == old(k).cur().task_status
                &&& final(k).cur().parent == old(k).cur().parent
                &&& final(k).cur().fd_table == old(k).cur().fd_table
                &&& final(k).cur().syscall_times == old(k).cur().syscall_times
                &&& final(k).cur().exit_code == old(k).cur().exit_code
                &&& final(k).cur().trap_cx == old(k).cur().trap_cx
                &&& final(k).cur().heap_bottom == old(k).cur().heap_bottom
                &&& final(k).cur().program_brk == old(k).cur().program_brk
                &&& keeps_times(old(k).cur(), final(k).cur())
                &&& !final(k).live(r as int)
                &&& written(
                    old(k).cur_space(),
                    final(k).cur_space(),
                    exit_code_ptr as int,
                    i32_bytes(old(k).tcb(r as int).exit_code),
                )
            },
{
    k.waitpid(pid, exit_code_ptr)
}

/// Moves the program break by `size` bytes; returns the old break, or -1
/// with nothing changed (see `Kernel::change_program_brk`).
pub fn sys_sbrk(k: &mut Kernel, size: i32) -> (r: isize)
    requires
        old(k).wf(),
        old(k).current is Some,
    ensures
        final(k).wf(),
        final(k).only_current_changed(old(k)),
        keeps_process(old(k).cur(), final(k).cur()),
        keeps_times(old(k).cur(), final(k).cur()),
        final(k).cur().trap_cx == old(k).cur().trap_cx,
        final(k).cur().heap_bottom == old(k).cur().heap_bottom,
        brk_ok(old(k).cur_space(), old(k).cur().program_brk as int, old(k).cur().heap_bottom as int, size as int)
            ==> r == old(k).cur().program_brk && final(k).cur().program_brk == old(k).cur().program_brk
            + size && final(k).cur_space() == brk_space(old(k).cur_space(), old(k).cur().program_brk as int, size as int),
        !brk_ok(old(k).cur_space(), old(k).cur().program_brk as int, old(k).cur().heap_bottom as int, size as int)
            ==> r == -1 && final(k).tasks@ == old(k).tasks@,
{
    match k.change_program_brk(size) {
        Some(old_brk) => old_brk as isize,
        None => -1,
    }
}

/// Stores a `TaskInfo` for the Running task at user address `ti`: status
/// Running, its syscall counters (this call included, when the dispatcher
/// counted it), and its run time in milliseconds up to `now`. Returns 0,
/// or -1 when `ti` cannot take the record.
pub fn sys_task_info(k: &mut Kernel, ti: usize, now: usize) -> (r: isize)
    requires
        old(k).wf(),
        old(k).current is Some,
    ensures
        final(k).wf(),
        final(k).only_current_changed(old(k)),
        r == 0 || r == -1,
        (r == 0) <==> accessible(old(k).cur_space(), ti as int, crate::abi::TASK_INFO_SIZE as int),
        keeps_bookkeeping(old(k).cur(), final(k).cur()),
        final(k).cur().started == old(k).cur().started,
        final(k).cur().kernel_time == old(k).cur().kernel_time,
        final(k).cur().syscall_entered_at == old(k).cur().syscall_entered_at,
        final(k).cur().my_time == elapsed(old(k).cur(), now as int),
        final(k).cur().timer == now,
        r == -1 ==> final(k).cur_space() == old(k).cur_space(),
        r == 0 ==> written(
            old(k).cur_space(),
            final(k).cur_space(),
            ti as int,
            task_info_bytes(
                TaskStatus::Running,
                old(k).cur().syscall_times@,
                task_time_ms(elapsed(old(k).cur(), now as int)) as usize,
            ),
        ),
{
    let (syscall_times, my_time, status) = k.get_task_info(now);
    let time = my_time / 1000;
    let info = TaskInfo { status, syscall_times, time };
    let bytes = info.to_bytes();
    proof {
        lemma_task_info_size(status, info.syscall_times@, time);
    }
    match k.write_user(ti, &bytes) {
        Ok(()) => 0,
        Err(_) => -1,
    }
}

proof fn lemma_task_info_size(status: TaskStatus, counts: Seq<u32>, time: usize)
    requires
        counts.len() == crate::config::MAX_SYSCALL_NUM,
    ensures
        task_info_bytes(status, counts, time).len() == crate::abi::TASK_INFO_SIZE,
{
    crate::abi::lemma_le_bytes_len(crate::abi::status_code(status), 4);
    crate::abi::lemma_le_bytes_len(0, 4);
    crate::abi::lemma_le_bytes_len(time as nat, 8);
    crate::abi::lemma_counts_bytes_len(counts);
}

/// Maps `[start, start + len)` for the Running task with the rights in
/// `prot` plus user access. Returns 0, or -1 with nothing changed when
/// `start` is not page-aligned, `prot` is not a non-empty subset of
/// read/write/execute, the range leaves the address width, or one of its
/// pages is already mapped.
pub fn sys_mmap(k: &mut Kernel, start: usize, len: usize, prot: usize) -> (r: isize)
    requires
        old(k).wf(),
        old(k).current is Some,
    ensures
        final(k).wf(),
        final(k).only_current_changed(old(k)),
        same_but_space(old(k).cur(), final(k).cur()),
        r == 0 || r == -1,
        (r == 0) <==> mmap_ok(old(k).cur_space(), start, len, prot),
        r == -1 ==> final(k).tasks@ == old(k).tasks@,
        r == 0 ==> final(k).cur_space() == with_range_mapped(
            old(k).cur_space(),
            first_vpn(start),
            end_vpn(start, len),
            prot_perm(prot),
        ),
{
    if start % PAGE_SIZE != 0 || prot == 0 || prot > 7 || start > usize::MAX - PAGE_SIZE || len > usize::MAX - PAGE_SIZE - start {
        return -1;
    }
    let s_vpn = start / PAGE_SIZE;
    let e_vpn = (start + len + PAGE_SIZE - 1) / PAGE_SIZE;
    let perm = MapPermission {
        r: prot % 2 == 1,
        w: (prot / 2) % 2 == 1,
        x: (prot / 4) % 2 == 1,
        u: true,
    };
    if k.insert_framed_area(s_vpn, e_vpn, perm) {
        0
    } else {
        -1
    }
}

/// Unmaps `[start, start + len)` for the Running task. Returns 0, or -1
/// with nothing changed when `start` is not page-aligned, the range leaves
/// the address width, or one of its pages is not mapped.
pub fn sys_munmap(k: &mut Kernel, start: usize, len: usize) -> (r: isize)
    requires
        old(k).wf(),
        old(k).current is Some,
    ensures
        final(k).wf(),
        final(k).only_current_changed(old(k)),
        same_but_space(old(k).cur(), final(k).cur()),
        r == 0 || r == -1,
        (r == 0) <==> munmap_ok(old(k).cur_space(), start, len),
        r == -1 ==> final(k).tasks@ == old(k).tasks@,
        r == 0 ==> final(k).cur_space() == with_range_unmapped(
            old(k).cur_space(),
            first_vpn(start),
            end_vpn(start, len),
        ),
{
    if start % PAGE_SIZE != 0 || start > usize::MAX - PAGE_SIZE || len > usize::MAX - PAGE_SIZE - start {
        return -1;
    }
    let s_vpn = start / PAGE_SIZE;
    let e_vpn = (start + len + PAGE_SIZE - 1) / PAGE_SIZE;
    if k.unmap_range(s_vpn, e_vpn) {
        0
    } else {
        -1
    }
}

/// When `mmap(start, len, prot)` succeeds on address space `m`.
pub open spec fn mmap_ok(m: Map<int, PageView>, start: usize, len: usize, prot: usize) -> bool {
    range_ok(start, len) && prot_ok(prot) && range_unmapped(m, first_vpn(start), end_vpn(start, len))
}

/// When `munmap(start, len)` succeeds on address space `m`.
pub open spec fn munmap_ok(m: Map<int, PageView>, start: usize, len: usize) -> bool {
    range_ok(start, len) && range_mapped(m, first_vpn(start), end_vpn(start, len))
}

/// Law: after a successful `mmap(start, len, prot)`, `munmap(start, len)`
/// succeeds and leaves no mapping in the range: the address space is the
/// one before the `mmap`. A second `mmap` of the range fails, and so does
/// an `munmap` of a range that was never mapped.
pub proof fn lemma_mmap_then_munmap(m: Map<int, PageView>, start: usize, len: usize, prot: usize)
    requires
        mmap_ok(m, start, len, prot),
    ensures
        munmap_ok(
            with_range_mapped(m, first_vpn(start), end_vpn(start, len), prot_perm(prot)),
            start,
            len,
        ),
        with_range_unmapped(
            with_range_mapped(m, first_vpn(start), end_vpn(start, len), prot_perm(prot)),
            first_vpn(start),
            end_vpn(start, len),
        ) == m,
        first_vpn(start) < end_vpn(start, len) ==> !mmap_ok(
            with_range_mapped(m, first_vpn(start), end_vpn(start, len), prot_perm(prot)),
            start,
            len,
            prot,
        ),
        first_vpn(start) < end_vpn(start, len) ==> !munmap_ok(m, start, len),
{
    let s = first_vpn(start);
    let e = end_vpn(start, len);
    lemma_map_then_unmap_restores(m, s, e, prot_perm(prot));
    if s < e {
        let mid = with_range_mapped(m, s, e, prot_perm(prot));
        assert(mid.contains_key(s));
        assert(!m.contains_key(s));
    }
}

/// Law: when `sbrk(delta)` with `delta > 0` succeeds on break `brk` and
/// address space `m`, an immediate `sbrk(-delta)` succeeds too, returns
/// `brk + delta`, and brings back break `brk` and address space `m`.
pub proof fn lemma_sbrk_grow_then_shrink(m: Map<int, PageView>, brk: int, bottom: int, delta: i32)
    requires
        delta > 0,
        bottom <= brk,
        brk_ok(m, brk, bottom, delta as int),
    ensures
        brk_ok(brk_space(m, brk, delta as int), brk + delta, bottom, -delta),
        brk + delta + (-delta) == brk,
        brk_space(brk_space(m, brk, delta as int), brk + delta, -delta) == m,
{
    let lo = page_ceil(brk);
    let hi = page_ceil(brk + delta);
    lemma_map_then_unmap_restores(m, lo, hi, crate::task::user_rw());
}

/// Law: for `waitpid(-1, _)`, a caller without children has no child
/// named (so the call returns -1), and a caller whose children are all
/// alive has one named and none a Zombie (so it returns -2).
pub proof fn lemma_waitpid_any(k: Kernel)
    requires
        k.wf(),
        k.current is Some,
    ensures
        k.cur().children@.len() == 0 ==> forall|j: int| !#[trigger] k.child_matches(-1isize, j),
        k.cur().children@.len() > 0 && (forall|j: int|
            0 <= j < k.cur().children@.len() ==> k.tcb(#[trigger] k.cur().children@[j] as int).task_status
                != TaskStatus::Zombie) ==> (exists|j: int| #[trigger] k.child_matches(-1isize, j)) && (forall|j: int|
            !#[trigger] k.zombie_match(-1isize, j)),
{
    if k.cur().children@.len() > 0 {
        assert(k.child_matches(-1isize, 0));
    }
}

/// Law: a reaped pid is no longer a child of anyone, so no later
/// `waitpid` returns it until the pid is handed to a new task.
pub proof fn lemma_reaped_is_no_child(k: Kernel, r: usize)
    requires
        k.wf(),
        !k.live(r as int),
    ensures
        forall|p: int, j: int|
            k.live(p) && 0 <= j < k.tcb(p).children@.len() ==> #[trigger] k.tcb(p).children@[j] != r,
{
    assert forall|p: int, j: int| k.live(p) && 0 <= j < k.tcb(p).children@.len() implies #[trigger] k.tcb(
        p,
    ).children@[j] != r by {
        assert(k.live(k.tcb(p).children@[j] as int));
    }
}

} // verus!
