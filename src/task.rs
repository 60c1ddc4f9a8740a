//! Task control blocks, the process table and the FIFO scheduler.
use vstd::prelude::*;
use crate::abi::{i32_bytes, i32_to_bytes};
use crate::config::{INIT_PID, MAX_SYSCALL_NUM, PAGE_SIZE};
use crate::mm::{
    accessible, byte_of, c_string_at, no_c_string_at, range_mapped, range_unmapped, with_range_mapped,
    with_range_unmapped, written, MapPermission, MemError, MemorySet, Page, PageView, zero_page,
};

verus! {

/// Number of general-purpose registers saved in a trap context.
pub const TRAP_REGS: usize = 32;

/// Register that carries a syscall's return value.
pub const REG_A0: usize = 10;

/// Register that holds the user stack pointer.
pub const REG_SP: usize = 2;

/// Size of the process table: pids stay below this bound.
pub const PID_LIMIT: usize = 0x10_0000;

/// Pages of user stack given to every program.
pub const USER_STACK_PAGES: usize = 2;

/// The highest address the program break can take: `sbrk` hands the old
/// break back in a signed register, and the page above the break must have
/// a page number.
pub open spec fn break_max() -> int {
    isize::MAX - PAGE_SIZE
}

/// Page numbers of a program image stay below this bound, so that the guard
/// page and the user stack above the image end below `break_max()`.
pub open spec fn max_image_vpn() -> int {
    break_max() / (PAGE_SIZE as int) - 2 - USER_STACK_PAGES
}

pub fn break_max_value() -> (r: usize)
    ensures
        r == break_max(),
{
    (isize::MAX as usize) - PAGE_SIZE
}

pub fn max_image_vpn_value() -> (r: usize)
    ensures
        r == max_image_vpn(),
{
    break_max_value() / PAGE_SIZE - 2 - USER_STACK_PAGES
}

/// Lifecycle state of a task.
#[derive(Clone, Copy, PartialEq, Eq, Structural, Debug)]
pub enum TaskStatus {
    UnInit,
    Ready,
    Running,
    Zombie,
}

/// An open file as the descriptor table holds it: the filesystem's handle
/// and the rights it was opened with.
#[derive(Clone, Copy, PartialEq, Eq, Structural, Debug)]
pub struct OpenFile {
    pub inode: usize,
    pub readable: bool,
    pub writable: bool,
}

/// User registers saved on a trap, and the user program counter.
pub struct TrapContext {
    pub x: Vec<usize>,
    pub sepc: usize,
}

/// A program ready to load: its pages and its entry point.
pub struct ProgramImage {
    pub pages: Vec<Page>,
    pub entry: usize,
}

/// Why a program image cannot be loaded.
#[derive(Clone, Copy, PartialEq, Eq, Structural, Debug)]
pub enum LoadError {
    /// A page is not page-sized, a page number repeats, or a page lies at
    /// or above `max_image_vpn()`.
    BadImage,
}

/// Per-process kernel state.
pub struct TaskControlBlock {
    pub pid: usize,
    pub task_status: TaskStatus,
    pub trap_cx: TrapContext,
    pub memory_set: MemorySet,
    pub heap_bottom: usize,
    pub program_brk: usize,
    pub parent: Option<usize>,
    pub children: Vec<usize>,
    pub exit_code: i32,
    pub fd_table: Vec<Option<OpenFile>>,
    pub syscall_times: Vec<u32>,
    pub my_time: usize,
    pub timer: usize,
    pub started: bool,
    pub kernel_time: usize,
    pub syscall_entered_at: usize,
}

/// No element occurs twice.
pub open spec fn distinct(s: Seq<usize>) -> bool {
    forall|i: int, j: int| 0 <= i < s.len() && 0 <= j < s.len() && i != j ==> s[i] != s[j]
}

/// Every page of a loaded image is page-sized and numbered once, and
/// there is room above it for a guard page and the user stack.
pub open spec fn image_ok(pages: Seq<Page>) -> bool {
    &&& forall|i: int|
        0 <= i < pages.len() ==> (#[trigger] pages[i]).data@.len() == PAGE_SIZE && pages[i].vpn
            < max_image_vpn()
    &&& crate::mm::unique_vpns(pages)
}

/// The first page number above every page of the image.
pub open spec fn image_top(pages: Seq<Page>) -> int
    decreases pages.len(),
{
    if pages.len() == 0 {
        0
    } else {
        let rest = image_top(pages.drop_last());
        if pages.last().vpn + 1 > rest {
            pages.last().vpn + 1
        } else {
            rest
        }
    }
}

/// The pages of an image as an address space.
pub open spec fn image_map(pages: Seq<Page>) -> Map<int, PageView>
    decreases pages.len(),
{
    if pages.len() == 0 {
        Map::empty()
    } else {
        image_map(pages.drop_last()).insert(
            pages.last().vpn as int,
            (pages.last().perm, pages.last().data@),
        )
    }
}

/// What a loaded image maps: its pages and, above a guard page, the user
/// stack.
pub open spec fn image_view(pages: Seq<Page>) -> Map<int, PageView> {
    crate::mm::with_range_mapped(
        image_map(pages),
        image_top(pages) + 1,
        image_top(pages) + 1 + USER_STACK_PAGES,
        user_rw(),
    )
}

proof fn lemma_image_map_keys(pages: Seq<Page>, v: int)
    ensures
        image_map(pages).contains_key(v) <==> exists|j: int| 0 <= j < pages.len() && #[trigger] pages[j].vpn == v,
        image_map(pages).contains_key(v) ==> v < image_top(pages),
    decreases pages.len(),
{
    if pages.len() > 0 {
        let rest = pages.drop_last();
        lemma_image_map_keys(rest, v);
        if image_map(rest).contains_key(v) {
            let j = choose|j: int| 0 <= j < rest.len() && #[trigger] rest[j].vpn == v;
            assert(pages[j].vpn == v);
        }
        if exists|j: int| 0 <= j < pages.len() && #[trigger] pages[j].vpn == v {
            let j = choose|j: int| 0 <= j < pages.len() && #[trigger] pages[j].vpn == v;
            if j < pages.len() - 1 {
                assert(rest[j].vpn == v);
            }
        }
    }
}

/// The number of the first page boundary at or above `x`.
pub open spec fn page_ceil(x: int) -> int {
    (x + PAGE_SIZE - 1) / (PAGE_SIZE as int)
}

/// When moving the break from `brk` by `delta` succeeds on address space
/// `m` with heap bottom `bottom`: the new break stays between the bottom
/// and the limit, the pages gained are all free, the pages lost all mapped.
pub open spec fn brk_ok(m: Map<int, PageView>, brk: int, bottom: int, delta: int) -> bool {
    let lo = page_ceil(brk);
    let hi = page_ceil(brk + delta);
    &&& bottom <= brk + delta <= break_max()
    &&& delta >= 0 ==> range_unmapped(m, lo, hi)
    &&& delta < 0 ==> range_mapped(m, hi, lo)
}

/// The address space after the break moved from `brk` by `delta`.
pub open spec fn brk_space(m: Map<int, PageView>, brk: int, delta: int) -> Map<int, PageView> {
    let lo = page_ceil(brk);
    let hi = page_ceil(brk + delta);
    if delta >= 0 {
        with_range_mapped(m, lo, hi, user_rw())
    } else {
        with_range_unmapped(m, hi, lo)
    }
}

pub open spec fn user_rw() -> MapPermission {
    MapPermission { r: true, w: true, x: false, u: true }
}

/// Whether `pages` can be loaded.
pub fn image_is_ok(pages: &Vec<Page>) -> (r: bool)
    ensures
        r == image_ok(pages@),
{
    let mut i: usize = 0;
    while i < pages.len()
        invariant
            i <= pages@.len(),
            forall|a: int| 0 <= a < i ==> (#[trigger] pages@[a]).data@.len() == PAGE_SIZE
                && pages@[a].vpn < max_image_vpn(),
            forall|a: int, b: int| 0 <= a < i && 0 <= b < i && a != b ==> (#[trigger] pages@[a]).vpn
                != (#[trigger] pages@[b]).vpn,
        decreases pages@.len() - i,
    {
        if pages[i].data.len() != PAGE_SIZE || pages[i].vpn >= max_image_vpn_value() {
            assert(!image_ok(pages@)) by {
                assert(pages@[i as int] == pages@[i as int]);
            }
            return false;
        }
        let mut j: usize = 0;
        while j < i
            invariant
                i < pages@.len(),
                j <= i,
                forall|b: int| 0 <= b < j ==> (#[trigger] pages@[b]).vpn != pages@[i as int].vpn,
            decreases i - j,
        {
            if pages[j].vpn == pages[i].vpn {
                assert(!crate::mm::unique_vpns(pages@)) by {
                    assert(pages@[j as int].vpn == pages@[i as int].vpn);
                }
                return false;
            }
            j = j + 1;
        }
        i = i + 1;
    }
    true
}

/// Builds the address space of a program: its pages, a guard page, then
/// the user stack. Returns the space and the initial stack pointer.
pub fn load_image(pages: Vec<Page>) -> (r: Result<(MemorySet, usize), LoadError>)
    ensures
        r is Ok <==> image_ok(pages@),
        r matches Ok((ms, sp)) ==> ms.wf() && ms@ == image_view(pages@) && sp == (image_top(pages@)
            + 1 + USER_STACK_PAGES) * PAGE_SIZE && sp <= break_max(),
{
    let ghost all = pages@;
    let mut ms = MemorySet::new_bare();
    let mut top: usize = 0;
    let mut rest = pages;
    let mut rev: Vec<Page> = Vec::new();
    // Pages are taken from the back; reverse first so they are mapped in order.
    while rest.len() > 0
        invariant
            rev@ + rest@.reverse() == all.reverse(),
            all == pages@,
        decreases rest@.len(),
    {
        let ghost before = rest@;
        let p = rest.pop().unwrap();
        proof {
            assert(before == rest@.push(p));
            assert(before.reverse() =~= seq![p] + rest@.reverse());
            assert(rev@.push(p) + rest@.reverse() =~= rev@ + before.reverse());
        }
        rev.push(p);
    }
    assert(rev@ =~= all.reverse());
    let mut i: usize = 0;
    let n = rev.len();
    while rev.len() > 0
        invariant
            ms.wf(),
            n == all.len(),
            i + rev@.len() == n,
            rev@ == all.subrange(i as int, n as int).reverse(),
            ms@ == image_map(all.subrange(0, i as int)),
            top == image_top(all.subrange(0, i as int)),
            image_ok(all.subrange(0, i as int)),
            top <= max_image_vpn(),
            all == pages@,
        decreases rev@.len(),
    {
        let p = rev.pop().unwrap();
        proof {
            assert(p == all[i as int]);
            assert(rev@ =~= all.subrange(i + 1, n as int).reverse());
            assert(all.subrange(0, i + 1).drop_last() =~= all.subrange(0, i as int));
        }
        if p.data.len() != PAGE_SIZE || p.vpn >= max_image_vpn_value() {
            proof {
                assert(!image_ok(all)) by {
                    assert(all[i as int] == p);
                }
            }
            return Err(LoadError::BadImage);
        }
        if ms.find(p.vpn).is_some() {
            proof {
                lemma_image_map_keys(all.subrange(0, i as int), p.vpn as int);
                let j = choose|j: int| 0 <= j < i && #[trigger] all.subrange(0, i as int)[j].vpn == p.vpn;
                assert(all[j].vpn == all[i as int].vpn);
            }
            return Err(LoadError::BadImage);
        }
        if p.vpn + 1 > top {
            top = p.vpn + 1;
        }
        let ghost ms_before = ms;
        ms.pages.push(p);
        proof {
            MemorySet::lemma_push_view(&ms_before, &ms, p);
            let sub = all.subrange(0, i + 1);
            assert(sub.last() == p);
            assert forall|a: int, b: int| 0 <= a < sub.len() && 0 <= b < sub.len() && a != b
                implies (#[trigger] sub[a]).vpn != (#[trigger] sub[b]).vpn by {
                if a == i || b == i {
                    let o = if a == i { b } else { a };
                    lemma_image_map_keys(all.subrange(0, i as int), sub[o].vpn as int);
                    assert(all.subrange(0, i as int)[o].vpn == sub[o].vpn);
                } else {
                    assert(all.subrange(0, i as int)[a] == sub[a]);
                    assert(all.subrange(0, i as int)[b] == sub[b]);
                }
            }
            assert forall|a: int| 0 <= a < sub.len() implies (#[trigger] sub[a]).data@.len() == PAGE_SIZE
                && sub[a].vpn < max_image_vpn() by {
                if a < i {
                    assert(all.subrange(0, i as int)[a] == sub[a]);
                }
            }
        }
        i = i + 1;
    }
    proof {
        assert(all.subrange(0, n as int) =~= all);
    }
    let stack_bottom = top + 1;
    let stack_top = stack_bottom + USER_STACK_PAGES;
    proof {
        assert forall|v: int| stack_bottom <= v < stack_top implies !#[trigger] ms@.contains_key(v) by {
            lemma_image_map_keys(all, v);
        }
    }
    let mapped = ms.insert_framed_area(stack_bottom, stack_top, user_rw_exec());
    assert(mapped);
    proof {
        vstd::arithmetic::div_mod::lemma_fundamental_div_mod(break_max(), PAGE_SIZE as int);
    }
    Ok((ms, stack_top * PAGE_SIZE))
}

/// Read and write rights in user mode.
pub fn user_rw_exec() -> (r: MapPermission)
    ensures
        r == user_rw(),
{
    MapPermission { r: true, w: true, x: false, u: true }
}

/// Descriptor handle of the console input.
pub const STDIN_HANDLE: usize = 0;

/// Descriptor handle of the console output.
pub const STDOUT_HANDLE: usize = 1;

/// Descriptors 0, 1 and 2: console input, output, and output again.
pub open spec fn standard_fds() -> Seq<Option<OpenFile>> {
    seq![
        Some(OpenFile { inode: STDIN_HANDLE, readable: true, writable: false }),
        Some(OpenFile { inode: STDOUT_HANDLE, readable: false, writable: true }),
        Some(OpenFile { inode: STDOUT_HANDLE, readable: false, writable: true }),
    ]
}

pub open spec fn zero_counts() -> Seq<u32> {
    Seq::new(MAX_SYSCALL_NUM as nat, |i: int| 0u32)
}

fn new_fd_table() -> (r: Vec<Option<OpenFile>>)
    ensures
        r@ == standard_fds(),
{
    let r = vec![
        Some(OpenFile { inode: STDIN_HANDLE, readable: true, writable: false }),
        Some(OpenFile { inode: STDOUT_HANDLE, readable: false, writable: true }),
        Some(OpenFile { inode: STDOUT_HANDLE, readable: false, writable: true }),
    ];
    assert(r@ =~= standard_fds());
    r
}

fn new_counts() -> (r: Vec<u32>)
    ensures
        r@ == zero_counts(),
{
    let mut r: Vec<u32> = Vec::new();
    let mut i: usize = 0;
    while i < MAX_SYSCALL_NUM
        invariant
            i <= MAX_SYSCALL_NUM,
            r@ == Seq::new(i as nat, |j: int| 0u32),
        decreases MAX_SYSCALL_NUM - i,
    {
        r.push(0u32);
        i = i + 1;
        assert(r@ =~= Seq::new(i as nat, |j: int| 0u32));
    }
    r
}

/// A trap context that enters user mode at `entry` with stack `sp`.
fn new_trap_cx(entry: usize, sp: usize) -> (r: TrapContext)
    ensures
        r.x@.len() == TRAP_REGS,
        r.x@[REG_SP as int] == sp,
        forall|i: int| 0 <= i < TRAP_REGS && i != REG_SP ==> #[trigger] r.x@[i] == 0,
        r.sepc == entry,
{
    let mut x: Vec<usize> = Vec::new();
    let mut i: usize = 0;
    while i < TRAP_REGS
        invariant
            i <= TRAP_REGS,
            x@.len() == i,
            i > REG_SP ==> x@[REG_SP as int] == sp,
            forall|j: int| 0 <= j < i && j != REG_SP ==> #[trigger] x@[j] == 0,
        decreases TRAP_REGS - i,
    {
        if i == REG_SP {
            x.push(sp);
        } else {
            x.push(0);
        }
        i = i + 1;
    }
    TrapContext { x, sepc: entry }
}

proof fn lemma_contains_push(s: Seq<usize>, x: usize, q: usize)
    ensures
        s.push(x).contains(x),
        s.contains(q) ==> s.push(x).contains(q),
{
    assert(s.push(x)[s.len() as int] == x);
    if s.contains(q) {
        let i = choose|i: int| 0 <= i < s.len() && s[i] == q;
        assert(s.push(x)[i] == q);
    }
}

/// `b` is `a` with possibly another status, exit code, or time accounting.
pub open spec fn same_but_status(a: TaskControlBlock, b: TaskControlBlock) -> bool {
    &&& b.pid == a.pid
    &&& b.trap_cx == a.trap_cx
    &&& b.memory_set == a.memory_set
    &&& b.heap_bottom == a.heap_bottom
    &&& b.program_brk == a.program_brk
    &&& b.parent == a.parent
    &&& b.children == a.children
    &&& b.fd_table == a.fd_table
    &&& b.syscall_times == a.syscall_times
}

/// `b` is `a` with the same identity, state and place in the process tree.
pub open spec fn same_links(a: TaskControlBlock, b: TaskControlBlock) -> bool {
    &&& b.pid == a.pid
    &&& b.task_status == a.task_status
    &&& b.parent == a.parent
    &&& b.children == a.children
}

/// Counters after one more call of `id`: saturating, and only for ids that
/// have a slot.
pub open spec fn count_call(counts: Seq<u32>, id: int) -> Seq<u32> {
    if 0 <= id < counts.len() && counts[id] < u32::MAX {
        counts.update(id, (counts[id] + 1) as u32)
    } else {
        counts
    }
}

/// The task's time once brought up to `now`: the time since its last
/// accounting point is added, saturating.
pub open spec fn elapsed(t: TaskControlBlock, now: int) -> int {
    let d = if now >= t.timer { now - t.timer } else { 0 };
    if t.my_time + d > usize::MAX {
        usize::MAX as int
    } else {
        t.my_time + d
    }
}

/// The task's time in syscalls once the one entered at
/// `syscall_entered_at` returns at `now`, saturating.
pub open spec fn in_syscall_time(t: TaskControlBlock, now: int) -> int {
    let d = if now >= t.syscall_entered_at { now - t.syscall_entered_at } else { 0 };
    if t.kernel_time + d > usize::MAX {
        usize::MAX as int
    } else {
        t.kernel_time + d
    }
}

fn copy_counts(src: &Vec<u32>) -> (r: Vec<u32>)
    ensures
        r@ == src@,
{
    let mut d: Vec<u32> = Vec::new();
    let mut i: usize = 0;
    while i < src.len()
        invariant
            i <= src@.len(),
            d@ == src@.subrange(0, i as int),
        decreases src@.len() - i,
    {
        d.push(src[i]);
        i = i + 1;
        assert(d@ =~= src@.subrange(0, i as int));
    }
    assert(d@ =~= src@);
    d
}

fn copy_regs(src: &Vec<usize>) -> (r: Vec<usize>)
    ensures
        r@ == src@,
{
    let mut d: Vec<usize> = Vec::new();
    let mut i: usize = 0;
    while i < src.len()
        invariant
            i <= src@.len(),
            d@ == src@.subrange(0, i as int),
        decreases src@.len() - i,
    {
        d.push(src[i]);
        i = i + 1;
        assert(d@ =~= src@.subrange(0, i as int));
    }
    assert(d@ =~= src@);
    d
}

fn copy_fds(src: &Vec<Option<OpenFile>>) -> (r: Vec<Option<OpenFile>>)
    ensures
        r@ == src@,
{
    let mut d: Vec<Option<OpenFile>> = Vec::new();
    let mut i: usize = 0;
    while i < src.len()
        invariant
            i <= src@.len(),
            d@ == src@.subrange(0, i as int),
        decreases src@.len() - i,
    {
        let f = match src[i] {
            Some(f) => Some(f),
            None => None,
        };
        d.push(f);
        i = i + 1;
        assert(d@ =~= src@.subrange(0, i as int));
    }
    assert(d@ =~= src@);
    d
}

/// `b` is `a` with the same identity, tree links, descriptors, syscall
/// counters and exit code.
pub open spec fn keeps_process(a: TaskControlBlock, b: TaskControlBlock) -> bool {
    &&& same_links(a, b)
    &&& b.fd_table == a.fd_table
    &&& b.syscall_times == a.syscall_times
    &&& b.exit_code == a.exit_code
}

/// `b` is `a` with at most its address space and time accounting changed.
pub open spec fn keeps_bookkeeping(a: TaskControlBlock, b: TaskControlBlock) -> bool {
    &&& keeps_process(a, b)
    &&& b.trap_cx == a.trap_cx
    &&& b.heap_bottom == a.heap_bottom
    &&& b.program_brk == a.program_brk
}

/// `b` has the time accounting of `a`.
pub open spec fn keeps_times(a: TaskControlBlock, b: TaskControlBlock) -> bool {
    &&& b.my_time == a.my_time
    &&& b.timer == a.timer
    &&& b.started == a.started
    &&& b.kernel_time == a.kernel_time
    &&& b.syscall_entered_at == a.syscall_entered_at
}

/// `b` is `a` with at most its address space changed.
pub open spec fn same_but_space(a: TaskControlBlock, b: TaskControlBlock) -> bool {
    keeps_bookkeeping(a, b) && keeps_times(a, b)
}

/// `b` is `a` with at most its descriptor table changed.
pub open spec fn same_but_fds(a: TaskControlBlock, b: TaskControlBlock) -> bool {
    &&& same_links(a, b)
    &&& b.memory_set == a.memory_set
    &&& b.trap_cx == a.trap_cx
    &&& b.heap_bottom == a.heap_bottom
    &&& b.program_brk == a.program_brk
    &&& b.syscall_times == a.syscall_times
    &&& b.exit_code == a.exit_code
    &&& keeps_times(a, b)
}

impl TaskControlBlock {
    pub open spec fn wf(&self) -> bool {
        &&& self.memory_set.wf()
        &&& self.trap_cx.x@.len() == TRAP_REGS
        &&& self.syscall_times@.len() == MAX_SYSCALL_NUM
        &&& self.heap_bottom <= self.program_brk
        &&& self.program_brk <= break_max()
        &&& distinct(self.children@)
    }

    /// A new task of pid `pid` running `image`, Ready, with the standard
    /// descriptors open and every counter at zero.
    pub fn new(pid: usize, image: ProgramImage) -> (r: Result<TaskControlBlock, LoadError>)
        ensures
            r is Ok <==> image_ok(image.pages@),
            r matches Ok(t) ==> {
                &&& t.wf()
                &&& t.pid == pid
                &&& t.task_status == TaskStatus::Ready
                &&& t.memory_set@ == image_view(image.pages@)
                &&& t.trap_cx.sepc == image.entry
                &&& t.trap_cx.x@[REG_SP as int] == t.heap_bottom
                &&& forall|i: int| 0 <= i < TRAP_REGS && i != REG_SP ==> #[trigger] t.trap_cx.x@[i] == 0
                &&& t.heap_bottom == (image_top(image.pages@) + 1 + USER_STACK_PAGES) * PAGE_SIZE
                &&& t.program_brk == t.heap_bottom
                &&& t.parent is None
                &&& t.children@.len() == 0
                &&& t.exit_code == 0
                &&& t.fd_table@ == standard_fds()
                &&& t.syscall_times@ == zero_counts()
                &&& t.my_time == 0
                &&& !t.started
                &&& t.kernel_time == 0
            },
    {
        let (memory_set, sp) = match load_image(image.pages) {
            Ok(loaded) => loaded,
            Err(e) => {
                return Err(e);
            },
        };
        Ok(TaskControlBlock {
            pid,
            task_status: TaskStatus::Ready,
            trap_cx: new_trap_cx(image.entry, sp),
            memory_set,
            heap_bottom: sp,
            program_brk: sp,
            parent: None,
            children: Vec::new(),
            exit_code: 0,
            fd_table: new_fd_table(),
            syscall_times: new_counts(),
            my_time: 0,
            timer: 0,
            started: false,
            kernel_time: 0,
            syscall_entered_at: 0,
        })
    }

    /// A child with pid `pid`: an address space of its own
    /// holding the same bytes, the same registers and descriptors, fresh
    /// counters, Ready.
    pub fn fork(&self, pid: usize) -> (r: TaskControlBlock)
        requires
            self.wf(),
        ensures
            r.wf(),
            r.pid == pid,
            r.task_status == TaskStatus::Ready,
            r.memory_set@ == self.memory_set@,
            r.trap_cx.x@ == self.trap_cx.x@,
            r.trap_cx.sepc == self.trap_cx.sepc,
            r.heap_bottom == self.heap_bottom,
            r.program_brk == self.program_brk,
            r.parent == Some(self.pid),
            r.children@.len() == 0,
            r.exit_code == 0,
            r.fd_table@ == self.fd_table@,
            r.syscall_times@ == zero_counts(),
            r.my_time == 0,
            !r.started,
            r.kernel_time == 0,
    {
        TaskControlBlock {
            pid,
            task_status: TaskStatus::Ready,
            trap_cx: TrapContext { x: copy_regs(&self.trap_cx.x), sepc: self.trap_cx.sepc },
            memory_set: self.memory_set.clone_space(),
            heap_bottom: self.heap_bottom,
            program_brk: self.program_brk,
            parent: Some(self.pid),
            children: Vec::new(),
            exit_code: 0,
            fd_table: copy_fds(&self.fd_table),
            syscall_times: new_counts(),
            my_time: 0,
            timer: 0,
            started: false,
            kernel_time: 0,
            syscall_entered_at: 0,
        }
    }

    pub fn getpid(&self) -> (r: usize)
        ensures
            r == self.pid,
    {
        self.pid
    }

    pub fn is_zombie(&self) -> (r: bool)
        ensures
            r == (self.task_status == TaskStatus::Zombie),
    {
        self.task_status == TaskStatus::Zombie
    }
}

/// What the processor does after the Running task exits.
#[derive(Clone, Copy, PartialEq, Eq, Structural, Debug)]
pub enum ExitOutcome {
    /// Init exited: the machine shuts down, reporting failure or success.
    Shutdown { failure: bool },
    /// Another task exited; `next` is the task now Running, if any.
    Switched { next: Option<usize> },
}

/// Every task but `c` is still there and keeps its children, in order, at
/// the front of its list.
pub open spec fn children_kept(before: Kernel, after: Kernel, c: int) -> bool {
    &&& forall|q: int|
        #[trigger] before.live(q) && q != c ==> after.live(q) && after.tcb(q).children@.len()
            >= before.tcb(q).children@.len()
    &&& forall|q: int, n: int|
        #![trigger before.tcb(q).children@[n]]
        before.live(q) && q != c && 0 <= n < before.tcb(q).children@.len() ==> after.tcb(
            q,
        ).children@[n] == before.tcb(q).children@[n]
}

/// What exiting with `exit_code` at `now` does to a task other than init:
/// it becomes a Zombie holding the code, with no frames and no children;
/// its children join init's list, in order, and point at init; its time
/// is brought up to `now`; the head of the ready queue runs next.
pub open spec fn exit_effect(before: Kernel, after: Kernel, r: ExitOutcome, exit_code: i32, now: int) -> bool {
    let c = before.current_pid();
    let kids = before.cur().children@;
    &&& r == (ExitOutcome::Switched {
        next: if before.ready_queue@.len() > 0 {
            Some(before.ready_queue@[0])
        } else {
            None
        },
    })
    &&& after.current == r->next
    &&& after.ready_queue@ == if before.ready_queue@.len() > 0 {
        before.ready_queue@.drop_first()
    } else {
        before.ready_queue@
    }
    &&& after.tasks@.len() == before.tasks@.len()
    &&& after.live(c)
    &&& after.tcb(c).task_status == TaskStatus::Zombie
    &&& after.tcb(c).exit_code == exit_code
    &&& after.tcb(c).children@.len() == 0
    &&& after.tcb(c).memory_set@ == Map::<int, PageView>::empty()
    &&& after.tcb(c).my_time == elapsed(before.cur(), now)
    &&& after.tcb(c).timer == now
    &&& after.tcb(c).pid == c
    &&& children_kept(before, after, c)
    &&& after.tcb(INIT_PID as int).children@ == before.tcb(
        INIT_PID as int,
    ).children@ + kids
    &&& forall|j: int| 0 <= j < kids.len() ==> after.tcb(#[trigger] kids[j] as int).parent
        == Some(INIT_PID)
}

/// The process table, the ready queue and the processor's current slot.
pub struct Kernel {
    pub tasks: Vec<Option<TaskControlBlock>>,
    pub ready_queue: Vec<usize>,
    pub current: Option<usize>,
}

impl Kernel {
    pub open spec fn live(&self, p: int) -> bool {
        0 <= p < self.tasks@.len() && self.tasks@[p] is Some
    }

    pub open spec fn tcb(&self, p: int) -> TaskControlBlock {
        self.tasks@[p]->Some_0
    }

    /// The kernel's invariants: slots hold their own pid; init exists, has
    /// no parent and never becomes a zombie; the current task is the one
    /// Running task; the ready queue holds the Ready tasks, each once; children
    /// are live and point back at their parent; zombies have no children.
    pub open spec fn wf(&self) -> bool {
        &&& forall|p: int|
            #[trigger] self.live(p) ==> self.tcb(p).pid == p && self.tcb(p).wf()
                && self.tcb(p).task_status != TaskStatus::UnInit
        &&& self.tasks@.len() <= PID_LIMIT
        &&& self.live(INIT_PID as int)
        &&& self.tcb(INIT_PID as int).parent is None
        &&& self.tcb(INIT_PID as int).task_status != TaskStatus::Zombie
        &&& self.current matches Some(c) ==> self.live(c as int) && self.tcb(c as int).task_status
            == TaskStatus::Running
        &&& forall|p: int|
            #[trigger] self.live(p) && self.tcb(p).task_status == TaskStatus::Running
                ==> self.current == Some(p as usize)
        &&& forall|i: int|
            0 <= i < self.ready_queue@.len() ==> self.live(#[trigger] self.ready_queue@[i] as int)
                && self.tcb(self.ready_queue@[i] as int).task_status == TaskStatus::Ready
        &&& distinct(self.ready_queue@)
        &&& forall|p: int|
            #[trigger] self.live(p) && self.tcb(p).task_status == TaskStatus::Ready
                ==> self.ready_queue@.contains(p as usize)
        &&& forall|p: int, i: int|
            #![trigger self.tcb(p).children@[i]]
            self.live(p) && 0 <= i < self.tcb(p).children@.len() ==> self.live(
                self.tcb(p).children@[i] as int,
            ) && self.tcb(self.tcb(p).children@[i] as int).parent == Some(p as usize)
        &&& forall|p: int|
            #[trigger] self.live(p) && self.tcb(p).task_status == TaskStatus::Zombie ==> self.tcb(
                p,
            ).children@.len() == 0
    }

    /// Every pid is taken.
    pub open spec fn table_full(&self) -> bool {
        &&& self.tasks@.len() >= PID_LIMIT
        &&& forall|q: int| 0 <= q < self.tasks@.len() ==> #[trigger] self.live(q)
    }

    /// The pid of the task on the processor.
    pub open spec fn current_pid(&self) -> int {
        self.current->Some_0 as int
    }

    /// Puts a control block back into the empty slot of its pid.
    fn put_task(&mut self, pid: usize, t: TaskControlBlock)
        requires
            pid < old(self).tasks@.len(),
        ensures
            final(self).tasks@ == old(self).tasks@.update(pid as int, Some(t)),
            final(self).ready_queue == old(self).ready_queue,
            final(self).current == old(self).current,
    {
        self.tasks[pid] = Some(t);
    }

    /// A kernel whose only task is the init process, loaded from `init`
    /// and waiting in the ready queue.
    pub fn new(init: ProgramImage) -> (r: Result<Kernel, LoadError>)
        ensures
            r is Ok <==> image_ok(init.pages@),
            r matches Ok(k) ==> {
                &&& k.wf()
                &&& k.tasks@.len() == 1
                &&& k.ready_queue@ == seq![INIT_PID]
                &&& k.current is None
                &&& k.tcb(INIT_PID as int).task_status == TaskStatus::Ready
                &&& k.tcb(INIT_PID as int).memory_set@ == image_view(init.pages@)
            },
    {
        let t = match TaskControlBlock::new(INIT_PID, init) {
            Ok(t) => t,
            Err(e) => {
                return Err(e);
            },
        };
        let mut tasks: Vec<Option<TaskControlBlock>> = Vec::new();
        tasks.push(Some(t));
        let mut ready_queue: Vec<usize> = Vec::new();
        ready_queue.push(INIT_PID);
        let k = Kernel { tasks, ready_queue, current: None };
        assert(k.ready_queue@ =~= seq![INIT_PID]);
        assert(k.live(INIT_PID as int));
        assert(k.ready_queue@[0] == INIT_PID);
        Ok(k)
    }

    /// The processor's idle loop, one step: takes the task at the head of
    /// the ready queue and makes it the Running one. Returns its pid, or
    /// `None` when nothing is ready.
    pub fn schedule(&mut self, now: usize) -> (r: Option<usize>)
        requires
            old(self).wf(),
            old(self).current is None,
        ensures
            final(self).wf(),
            r is None <==> old(self).ready_queue@.len() == 0,
            r is None ==> *final(self) == *old(self),
            r matches Some(p) ==> {
                &&& p == old(self).ready_queue@[0]
                &&& final(self).ready_queue@ == old(self).ready_queue@.drop_first()
                &&& final(self).current == Some(p)
                &&& final(self).tasks@.len() == old(self).tasks@.len()
                &&& final(self).live(p as int)
                &&& final(self).tcb(p as int).task_status == TaskStatus::Running
                &&& forall|q: int|
                    0 <= q < old(self).tasks@.len() && q != p ==> final(self).tasks@[q] == old(
                        self,
                    ).tasks@[q]
                &&& same_but_status(old(self).tcb(p as int), final(self).tcb(p as int))
                &&& final(self).tcb(p as int).timer == now
                &&& final(self).tcb(p as int).my_time == old(self).tcb(p as int).my_time
                &&& final(self).tcb(p as int).kernel_time == old(self).tcb(p as int).kernel_time
            },
    {
        if self.ready_queue.len() == 0 {
            return None;
        }
        let p = self.ready_queue.remove(0);
        let ghost mid = *self;
        let mut t = self.take_task(p);
        t.task_status = TaskStatus::Running;
        t.timer = now;
        t.started = true;
        self.put_task(p, t);
        self.current = Some(p);
        proof {
            assert(mid.ready_queue@ == old(self).ready_queue@.drop_first());
            assert forall|i: int| 0 <= i < self.ready_queue@.len() implies self.ready_queue@[i] != p by {
                assert(self.ready_queue@[i] == old(self).ready_queue@[i + 1]);
            }
            assert forall|q: int| #[trigger] self.live(q) && self.tcb(q).task_status == TaskStatus::Running
                implies self.current == Some(q as usize) by {
                if q != p {
                    assert(old(self).live(q));
                }
            }
            assert forall|q: int| #[trigger] self.live(q) && self.tcb(q).task_status == TaskStatus::Ready
                implies self.ready_queue@.contains(q as usize) by {
                assert(old(self).live(q));
                let i = choose|i: int| 0 <= i < old(self).ready_queue@.len() && old(self).ready_queue@[i] == q as usize;
                assert(i != 0);
                assert(self.ready_queue@[i - 1] == q as usize);
            }
            self.lemma_wf_after_status(old(self), p as int);
        }
        Some(p)
    }

    /// Re-establishes the invariants after task `p` changed status only,
    /// together with the queue and the current slot.
    proof fn lemma_wf_after_status(&self, before: &Kernel, p: int)
        requires
            before.wf(),
            before.live(p),
            self.tasks@.len() == before.tasks@.len(),
            self.live(p),
            forall|q: int| 0 <= q < before.tasks@.len() && q != p ==> self.tasks@[q] == before.tasks@[q],
            same_but_status(before.tcb(p), self.tcb(p)),
            self.tcb(p).task_status != TaskStatus::UnInit,
            p == INIT_PID ==> self.tcb(p).task_status != TaskStatus::Zombie,
            self.tcb(p).task_status == TaskStatus::Zombie ==> self.tcb(p).children@.len() == 0,
            self.current matches Some(c) ==> self.live(c as int) && self.tcb(c as int).task_status
                == TaskStatus::Running,
            forall|q: int|
                #[trigger] self.live(q) && self.tcb(q).task_status == TaskStatus::Running
                    ==> self.current == Some(q as usize),
            forall|i: int|
                0 <= i < self.ready_queue@.len() ==> self.live(#[trigger] self.ready_queue@[i] as int)
                    && self.tcb(self.ready_queue@[i] as int).task_status == TaskStatus::Ready,
            distinct(self.ready_queue@),
            forall|q: int|
                #[trigger] self.live(q) && self.tcb(q).task_status == TaskStatus::Ready
                    ==> self.ready_queue@.contains(q as usize),
        ensures
            self.wf(),
    {
        assert forall|q: int| #[trigger] self.live(q) implies self.tcb(q).pid == q && self.tcb(q).wf()
            && self.tcb(q).task_status != TaskStatus::UnInit by {
            assert(before.live(q));
        }
        assert forall|q: int, i: int|
            #![trigger self.tcb(q).children@[i]]
            self.live(q) && 0 <= i < self.tcb(q).children@.len() implies self.live(
                self.tcb(q).children@[i] as int,
            ) && self.tcb(self.tcb(q).children@[i] as int).parent == Some(q as usize) by {
            assert(before.live(q));
            assert(before.tcb(q).children@[i] == self.tcb(q).children@[i]);
        }
        assert forall|q: int|
            #[trigger] self.live(q) && self.tcb(q).task_status == TaskStatus::Zombie implies self.tcb(
                q,
            ).children@.len() == 0 by {
            assert(before.live(q));
        }
    }

    /// Puts the Running task back at the tail of the ready queue and runs
    /// the task at the head.
    pub fn suspend_current_and_run_next(&mut self, now: usize) -> (r: Option<usize>)
        requires
            old(self).wf(),
            old(self).current is Some,
        ensures
            final(self).wf(),
            r == Some(old(self).ready_queue@.push(old(self).current->Some_0)[0]),
            final(self).current == r,
            final(self).ready_queue@ == old(self).ready_queue@.push(old(self).current->Some_0).drop_first(),
            final(self).tasks@.len() == old(self).tasks@.len(),
            forall|q: int|
                #[trigger] old(self).live(q) ==> final(self).live(q) && same_but_status(
                    old(self).tcb(q),
                    final(self).tcb(q),
                ),
            final(self).tcb(old(self).current_pid()).my_time == elapsed(old(self).cur(), now as int),
            final(self).tcb(old(self).current_pid()).timer == now,
    {
        let c = match self.current {
            Some(c) => c,
            None => vstd::pervasive::unreached(),
        };
        let mut t = self.take_task(c);
        t.task_status = TaskStatus::Ready;
        t.my_time = t.my_time.saturating_add(now.saturating_sub(t.timer));
        t.timer = now;
        self.put_task(c, t);
        self.current = None;
        self.ready_queue.push(c);
        proof {
            assert forall|i: int| 0 <= i < old(self).ready_queue@.len() implies old(self).ready_queue@[i] != c by {
                assert(old(self).live(old(self).ready_queue@[i] as int));
            }
            assert forall|i: int| 0 <= i < self.ready_queue@.len() implies self.live(#[trigger] self.ready_queue@[i] as int)
                && self.tcb(self.ready_queue@[i] as int).task_status == TaskStatus::Ready by {
                if i < old(self).ready_queue@.len() {
                    assert(self.ready_queue@[i] == old(self).ready_queue@[i]);
                }
            }
            assert forall|q: int| #[trigger] self.live(q) && self.tcb(q).task_status == TaskStatus::Running
                implies self.current == Some(q as usize) by {
                if q != c {
                    assert(old(self).live(q));
                }
            }
            assert forall|q: int| #[trigger] self.live(q) && self.tcb(q).task_status == TaskStatus::Ready
                implies self.ready_queue@.contains(q as usize) by {
                lemma_contains_push(old(self).ready_queue@, c, q as usize);
                if q != c {
                    assert(old(self).live(q));
                }
            }
            self.lemma_wf_after_status(old(self), c as int);
        }
        let ghost mid = *self;
        let r = self.schedule(now);
        proof {
            assert forall|q: int| #[trigger] old(self).live(q) implies self.live(q) && same_but_status(
                old(self).tcb(q),
                self.tcb(q),
            ) by {
                assert(mid.live(q));
            }
        }
        r
    }

    /// Law: at any instant at most one task is Running, and it is the one
    /// on the processor.
    pub proof fn lemma_at_most_one_running(&self, p: int, q: int)
        requires
            self.wf(),
            self.live(p),
            self.live(q),
            self.tcb(p).task_status == TaskStatus::Running,
            self.tcb(q).task_status == TaskStatus::Running,
        ensures
            p == q,
            self.current == Some(p as usize),
    {
    }

    /// A task is in the ready queue exactly when it is live and Ready, and
    /// then it is not the one on the processor.
    pub proof fn lemma_ready_queue_membership(&self, p: usize)
        requires
            self.wf(),
        ensures
            self.ready_queue@.contains(p) <==> self.live(p as int) && self.tcb(p as int).task_status
                == TaskStatus::Ready,
            self.ready_queue@.contains(p) ==> self.current != Some(p),
    {
        if self.ready_queue@.contains(p) {
            let i = choose|i: int| 0 <= i < self.ready_queue@.len() && self.ready_queue@[i] == p;
            assert(self.live(self.ready_queue@[i] as int));
        }
    }

    /// Re-establishes the invariants after task `p` changed in anything but
    /// its pid, status, parent and children.
    proof fn lemma_wf_after_update(&self, before: &Kernel, p: int)
        requires
            before.wf(),
            before.live(p),
            self.tasks@ == before.tasks@.update(p, Some(self.tcb(p))),
            same_links(before.tcb(p), self.tcb(p)),
            self.tcb(p).wf(),
            self.ready_queue == before.ready_queue,
            self.current == before.current,
        ensures
            self.wf(),
    {
        assert(self.live(p));
        assert forall|q: int| #[trigger] self.live(q) implies self.tcb(q).pid == q && self.tcb(q).wf()
            && self.tcb(q).task_status != TaskStatus::UnInit by {
            assert(before.live(q));
        }
        assert forall|q: int| #[trigger] self.live(q) && self.tcb(q).task_status == TaskStatus::Running
            implies self.current == Some(q as usize) by {
            assert(before.live(q));
        }
        assert forall|q: int| #[trigger] self.live(q) && self.tcb(q).task_status == TaskStatus::Ready
            implies self.ready_queue@.contains(q as usize) by {
            assert(before.live(q));
        }
        assert forall|i: int|
            0 <= i < self.ready_queue@.len() implies self.live(#[trigger] self.ready_queue@[i] as int)
                && self.tcb(self.ready_queue@[i] as int).task_status == TaskStatus::Ready by {
            assert(before.live(before.ready_queue@[i] as int));
        }
        assert forall|q: int, i: int|
            #![trigger self.tcb(q).children@[i]]
            self.live(q) && 0 <= i < self.tcb(q).children@.len() implies self.live(
                self.tcb(q).children@[i] as int,
            ) && self.tcb(self.tcb(q).children@[i] as int).parent == Some(q as usize) by {
            assert(before.live(q));
            assert(before.tcb(q).children@[i] == self.tcb(q).children@[i]);
            assert(before.live(before.tcb(q).children@[i] as int));
        }
        assert forall|q: int|
            #[trigger] self.live(q) && self.tcb(q).task_status == TaskStatus::Zombie implies self.tcb(
                q,
            ).children@.len() == 0 by {
            assert(before.live(q));
        }
    }

    /// The pid of the Running task.
    pub fn current_task(&self) -> (r: usize)
        requires
            self.current is Some,
        ensures
            r == self.current_pid(),
    {
        match self.current {
            Some(c) => c,
            None => vstd::pervasive::unreached(),
        }
    }

    /// Counts one more call of syscall `id` for the Running task; ids
    /// without a slot in the table, and a counter at its maximum, are left
    /// as they are.
    pub fn add_syscall_num(&mut self, id: usize)
        requires
            old(self).wf(),
            old(self).current is Some,
        ensures
            final(self).wf(),
            final(self).current == old(self).current,
            final(self).ready_queue == old(self).ready_queue,
            final(self).tasks@.len() == old(self).tasks@.len(),
            forall|q: int|
                0 <= q < old(self).tasks@.len() && q != old(self).current_pid() ==> final(self).tasks@[q] == old(self).tasks@[q],
            same_links(old(self).tcb(old(self).current_pid()), final(self).tcb(old(self).current_pid())),
            final(self).tcb(old(self).current_pid()).memory_set == old(self).tcb(old(self).current_pid()).memory_set,
            final(self).tcb(old(self).current_pid()).syscall_times@ == count_call(
                old(self).tcb(old(self).current_pid()).syscall_times@,
                id as int,
            ),
            final(self).tcb(old(self).current_pid()).kernel_time == old(self).tcb(
                old(self).current_pid(),
            ).kernel_time,
    {
        let c = self.current_task();
        let mut t = self.take_task(c);
        if id < MAX_SYSCALL_NUM && t.syscall_times[id] < u32::MAX {
            let n = t.syscall_times[id] + 1;
            t.syscall_times[id] = n;
        }
        self.put_task(c, t);
        proof {
            assert(self.tasks@ =~= old(self).tasks@.update(c as int, Some(self.tcb(c as int))));
            self.lemma_wf_after_update(old(self), c as int);
        }
    }

    /// Entry of the Running task into syscall `id` at time `now`: the call
    /// is counted (see `add_syscall_num`) before any handler runs, and the
    /// time is noted.
    pub fn syscall_enter(&mut self, id: usize, now: usize)
        requires
            old(self).wf(),
            old(self).current is Some,
        ensures
            final(self).wf(),
            final(self).only_current_changed(old(self)),
            final(self).cur().memory_set == old(self).cur().memory_set,
            final(self).cur().syscall_times@ == count_call(old(self).cur().syscall_times@, id as int),
            final(self).cur().syscall_entered_at == now,
            final(self).cur().kernel_time == old(self).cur().kernel_time,
    {
        self.add_syscall_num(id);
        let ghost k1 = *self;
        let c = self.current_task();
        let mut t = self.take_task(c);
        t.syscall_entered_at = now;
        self.put_task(c, t);
        proof {
            assert(self.tasks@ =~= k1.tasks@.update(c as int, Some(self.tcb(c as int))));
            self.lemma_wf_after_update(&k1, c as int);
        }
    }

    /// Return of the Running task from a syscall at time `now`: the time
    /// since entry is added, saturating, to the time it spent in syscalls.
    pub fn syscall_leave(&mut self, now: usize)
        requires
            old(self).wf(),
            old(self).current is Some,
        ensures
            final(self).wf(),
            final(self).only_current_changed(old(self)),
            final(self).cur().memory_set == old(self).cur().memory_set,
            final(self).cur().syscall_times == old(self).cur().syscall_times,
            final(self).cur().kernel_time == in_syscall_time(old(self).cur(), now as int),
    {
        let c = self.current_task();
        let mut t = self.take_task(c);
        t.kernel_time = t.kernel_time.saturating_add(now.saturating_sub(t.syscall_entered_at));
        self.put_task(c, t);
        proof {
            assert(self.tasks@ =~= old(self).tasks@.update(c as int, Some(self.tcb(c as int))));
            self.lemma_wf_after_update(old(self), c as int);
        }
    }

    /// Brings the Running task's time up to `now` and returns its syscall
    /// counters, its accumulated time in microseconds and its status.
    pub fn get_task_info(&mut self, now: usize) -> (r: (Vec<u32>, usize, TaskStatus))
        requires
            old(self).wf(),
            old(self).current is Some,
        ensures
            final(self).wf(),
            final(self).current == old(self).current,
            final(self).ready_queue == old(self).ready_queue,
            final(self).tasks@.len() == old(self).tasks@.len(),
            forall|q: int|
                0 <= q < old(self).tasks@.len() && q != old(self).current_pid() ==> final(self).tasks@[q] == old(self).tasks@[q],
            same_links(old(self).tcb(old(self).current_pid()), final(self).tcb(old(self).current_pid())),
            final(self).tcb(old(self).current_pid()).memory_set == old(self).tcb(old(self).current_pid()).memory_set,
            final(self).tcb(old(self).current_pid()).syscall_times == old(self).tcb(old(self).current_pid()).syscall_times,
            keeps_bookkeeping(old(self).cur(), final(self).cur()),
            final(self).cur().started == old(self).cur().started,
            final(self).cur().kernel_time == old(self).cur().kernel_time,
            final(self).cur().syscall_entered_at == old(self).cur().syscall_entered_at,
            final(self).cur().timer == now,
            r.0@ == old(self).tcb(old(self).current_pid()).syscall_times@,
            r.1 == final(self).tcb(old(self).current_pid()).my_time,
            r.1 == elapsed(old(self).tcb(old(self).current_pid()), now as int),
            r.2 == TaskStatus::Running,
    {
        let c = self.current_task();
        let mut t = self.take_task(c);
        t.my_time = t.my_time.saturating_add(now.saturating_sub(t.timer));
        t.timer = now;
        let counts = copy_counts(&t.syscall_times);
        let my_time = t.my_time;
        let status = t.task_status;
        self.put_task(c, t);
        proof {
            assert(self.tasks@ =~= old(self).tasks@.update(c as int, Some(self.tcb(c as int))));
            self.lemma_wf_after_update(old(self), c as int);
        }
        (counts, my_time, status)
    }

    /// The address space of the Running task.
    pub open spec fn cur_space(&self) -> Map<int, PageView> {
        self.tcb(self.current_pid()).memory_set@
    }

    pub open spec fn cur(&self) -> TaskControlBlock {
        self.tcb(self.current_pid())
    }

    /// `self` is `before` where only the Running task's own data (not its
    /// status or place in the tree) may differ.
    pub open spec fn only_current_changed(&self, before: &Kernel) -> bool {
        &&& self.current == before.current
        &&& self.ready_queue == before.ready_queue
        &&& self.tasks@.len() == before.tasks@.len()
        &&& forall|q: int|
            0 <= q < before.tasks@.len() && q != before.current_pid() ==> self.tasks@[q]
                == before.tasks@[q]
        &&& self.live(before.current_pid())
        &&& same_links(before.cur(), self.cur())
    }

    /// 1 when page `vpn` of the Running task is free, 0 when it is mapped.
    pub fn check_page_validity(&self, vpn: usize) -> (r: usize)
        requires
            self.wf(),
            self.current is Some,
        ensures
            r == (if self.cur_space().contains_key(vpn as int) { 0usize } else { 1usize }),
    {
        let c = self.current_task();
        match &self.tasks[c] {
            Some(t) => {
                match t.memory_set.translate(vpn) {
                    Some(_) => 0,
                    None => 1,
                }
            },
            None => vstd::pervasive::unreached(),
        }
    }

    /// Maps `[start_vpn, end_vpn)` for the Running task with fresh zeroed
    /// frames; nothing happens, and false comes back, when a page of the
    /// range is already mapped.
    pub fn insert_framed_area(&mut self, start_vpn: usize, end_vpn: usize, perm: MapPermission) -> (r:
        bool)
        requires
            old(self).wf(),
            old(self).current is Some,
        ensures
            final(self).wf(),
            final(self).only_current_changed(old(self)),
            same_but_space(old(self).cur(), final(self).cur()),
            r == range_unmapped(old(self).cur_space(), start_vpn as int, end_vpn as int),
            final(self).cur_space() == if r {
                with_range_mapped(old(self).cur_space(), start_vpn as int, end_vpn as int, perm)
            } else {
                old(self).cur_space()
            },
            final(self).cur().program_brk == old(self).cur().program_brk,
            final(self).cur().heap_bottom == old(self).cur().heap_bottom,
            !r ==> final(self).tasks@ == old(self).tasks@,
    {
        let c = self.current_task();
        let mut t = self.take_task(c);
        let r = t.memory_set.insert_framed_area(start_vpn, end_vpn, perm);
        self.put_task(c, t);
        proof {
            assert(self.tasks@ =~= old(self).tasks@.update(c as int, Some(self.tcb(c as int))));
            self.lemma_wf_after_update(old(self), c as int);
            if !r {
                assert(self.tasks@ =~= old(self).tasks@);
            }
        }
        r
    }

    /// Unmaps `[start_vpn, end_vpn)` for the Running task and frees its
    /// frames; nothing happens, and false comes back, when a page of the
    /// range is not mapped.
    pub fn unmap_range(&mut self, start_vpn: usize, end_vpn: usize) -> (r: bool)
        requires
            old(self).wf(),
            old(self).current is Some,
        ensures
            final(self).wf(),
            final(self).only_current_changed(old(self)),
            same_but_space(old(self).cur(), final(self).cur()),
            r == range_mapped(old(self).cur_space(), start_vpn as int, end_vpn as int),
            final(self).cur_space() == if r {
                with_range_unmapped(old(self).cur_space(), start_vpn as int, end_vpn as int)
            } else {
                old(self).cur_space()
            },
            final(self).cur().program_brk == old(self).cur().program_brk,
            final(self).cur().heap_bottom == old(self).cur().heap_bottom,
            !r ==> final(self).tasks@ == old(self).tasks@,
    {
        let c = self.current_task();
        let mut t = self.take_task(c);
        let r = t.memory_set.unmap_range(start_vpn, end_vpn);
        self.put_task(c, t);
        proof {
            assert(self.tasks@ =~= old(self).tasks@.update(c as int, Some(self.tcb(c as int))));
            self.lemma_wf_after_update(old(self), c as int);
            if !r {
                assert(self.tasks@ =~= old(self).tasks@);
            }
        }
        r
    }

    /// Stores `bytes` at user address `ptr` of the Running task.
    pub fn write_user(&mut self, ptr: usize, bytes: &Vec<u8>) -> (r: Result<(), MemError>)
        requires
            old(self).wf(),
            old(self).current is Some,
        ensures
            final(self).wf(),
            final(self).only_current_changed(old(self)),
            same_but_space(old(self).cur(), final(self).cur()),
            r is Ok <==> accessible(old(self).cur_space(), ptr as int, bytes@.len() as int),
            r is Err ==> final(self).tasks@ == old(self).tasks@,
            r is Ok ==> written(old(self).cur_space(), final(self).cur_space(), ptr as int, bytes@),
            final(self).cur().program_brk == old(self).cur().program_brk,
            final(self).cur().heap_bottom == old(self).cur().heap_bottom,
            final(self).cur().syscall_times == old(self).cur().syscall_times,
            final(self).cur().trap_cx == old(self).cur().trap_cx,
            keeps_bookkeeping(old(self).cur(), final(self).cur()),
            final(self).cur().my_time == old(self).cur().my_time,
            final(self).cur().timer == old(self).cur().timer,
    {
        let c = self.current_task();
        let mut t = self.take_task(c);
        let r = t.memory_set.copy_out(ptr, bytes);
        self.put_task(c, t);
        proof {
            assert(self.tasks@ =~= old(self).tasks@.update(c as int, Some(self.tcb(c as int))));
            self.lemma_wf_after_update(old(self), c as int);
            if r is Err {
                assert(self.tasks@ =~= old(self).tasks@);
            }
        }
        r
    }

    /// Reads `len` bytes at user address `ptr` of the Running task.
    pub fn read_user(&self, ptr: usize, len: usize) -> (r: Result<Vec<u8>, MemError>)
        requires
            self.wf(),
            self.current is Some,
        ensures
            r is Ok <==> accessible(self.cur_space(), ptr as int, len as int),
            r matches Ok(bytes) ==> bytes@.len() == len && forall|k: int|
                0 <= k < len ==> #[trigger] bytes@[k] == byte_of(self.cur_space(), ptr + k),
    {
        let c = self.current_task();
        match &self.tasks[c] {
            Some(t) => t.memory_set.copy_in(ptr, len),
            None => vstd::pervasive::unreached(),
        }
    }

    /// Reads the zero-terminated string at user address `ptr` of the
    /// Running task.
    pub fn read_user_str(&self, ptr: usize) -> (r: Result<Vec<u8>, MemError>)
        requires
            self.wf(),
            self.current is Some,
        ensures
            r matches Ok(s) ==> c_string_at(self.cur_space(), ptr as int, s@),
            r is Err ==> no_c_string_at(self.cur_space(), ptr as int),
    {
        let c = self.current_task();
        match &self.tasks[c] {
            Some(t) => t.memory_set.translated_str(ptr),
            None => vstd::pervasive::unreached(),
        }
    }

    /// A free pid: the first empty slot of the table, or a new one.
    fn alloc_pid(&mut self) -> (r: Option<usize>)
        requires
            old(self).wf(),
        ensures
            final(self).wf(),
            r is None <==> old(self).table_full(),
            r is None ==> *final(self) == *old(self),
            r matches Some(p) ==> {
                &&& p < final(self).tasks@.len()
                &&& final(self).tasks@[p as int] is None
                &&& p != INIT_PID
                &&& final(self).tasks@.len() >= old(self).tasks@.len()
                &&& forall|q: int| 0 <= q < old(self).tasks@.len() ==> final(self).tasks@[q] == old(self).tasks@[q]
                &&& forall|q: int| old(self).tasks@.len() <= q < final(self).tasks@.len() ==> final(self).tasks@[q] is None
            },
            final(self).ready_queue == old(self).ready_queue,
            final(self).current == old(self).current,
    {
        let mut i: usize = 0;
        while i < self.tasks.len()
            invariant
                i <= self.tasks@.len(),
                *self == *old(self),
                old(self).wf(),
                forall|q: int| 0 <= q < i ==> #[trigger] old(self).live(q),
            decreases self.tasks@.len() - i,
        {
            if self.tasks[i].is_none() {
                assert(i != INIT_PID);
                assert(!old(self).live(i as int));
                return Some(i);
            }
            i = i + 1;
        }
        if self.tasks.len() >= PID_LIMIT {
            return None;
        }
        self.tasks.push(None);
        proof {
            assert forall|q: int| #[trigger] self.live(q) <==> old(self).live(q) by {}
            assert forall|q: int| old(self).live(q) implies #[trigger] self.tcb(q) == old(self).tcb(q) by {}
            assert(self.live(INIT_PID as int));
            assert forall|p: int, j: int|
                #![trigger self.tcb(p).children@[j]]
                self.live(p) && 0 <= j < self.tcb(p).children@.len() implies self.live(
                    self.tcb(p).children@[j] as int,
                ) && self.tcb(self.tcb(p).children@[j] as int).parent == Some(p as usize) by {
                assert(old(self).live(old(self).tcb(p).children@[j] as int));
            }
            assert forall|j: int|
                0 <= j < self.ready_queue@.len() implies self.live(#[trigger] self.ready_queue@[j] as int)
                    && self.tcb(self.ready_queue@[j] as int).task_status == TaskStatus::Ready by {
                assert(old(self).live(old(self).ready_queue@[j] as int));
            }
        }
        Some(i)
    }

    /// Installs `child` in the free slot `pid` as a new child of the
    /// Running task and queues it.
    #[verifier::spinoff_prover]
    #[verifier::rlimit(50)]
    fn link_child(&mut self, pid: usize, child: TaskControlBlock)
        requires
            old(self).wf(),
            old(self).current is Some,
            pid < old(self).tasks@.len(),
            old(self).tasks@[pid as int] is None,
            child.wf(),
            child.pid == pid,
            child.task_status == TaskStatus::Ready,
            child.parent == Some(old(self).current_pid() as usize),
            child.children@.len() == 0,
        ensures
            final(self).wf(),
            final(self).live(pid as int),
            final(self).tcb(pid as int) == child,
            final(self).current == old(self).current,
            final(self).ready_queue@ == old(self).ready_queue@.push(pid),
            final(self).tasks@.len() == old(self).tasks@.len(),
            forall|q: int|
                0 <= q < old(self).tasks@.len() && q != old(self).current_pid() && q != pid
                    ==> final(self).tasks@[q] == old(self).tasks@[q],
            final(self).cur().children@ == old(self).cur().children@.push(pid),
            final(self).cur().pid == old(self).cur().pid,
            final(self).cur().task_status == old(self).cur().task_status,
            final(self).cur().parent == old(self).cur().parent,
            final(self).cur().memory_set == old(self).cur().memory_set,
            final(self).cur().trap_cx == old(self).cur().trap_cx,
            final(self).cur().syscall_times == old(self).cur().syscall_times,
            final(self).cur().fd_table == old(self).cur().fd_table,
            final(self).cur().program_brk == old(self).cur().program_brk,
            final(self).cur().heap_bottom == old(self).cur().heap_bottom,
    {
        let c = self.current_task();
        let ghost k1 = *self;
        assert(pid != c);
        let mut parent = self.take_task(c);
        parent.children.push(pid);
        self.put_task(c, parent);
        self.put_task(pid, child);
        self.ready_queue.push(pid);
        proof {
            assert(self.live(pid as int));
            assert(self.live(c as int));
            assert(self.tcb(c as int).children@ == k1.tcb(c as int).children@.push(pid));
            assert forall|q: int| #[trigger] self.live(q) && q != pid implies k1.live(q) && self.tcb(q).children == k1.tcb(q).children || q == c by {}
            // pid was free, so it is nobody's child and not queued
            assert forall|q: int, j: int| #![trigger k1.tcb(q).children@[j]] k1.live(q) && 0 <= j < k1.tcb(q).children@.len() implies k1.tcb(q).children@[j] != pid by {
                assert(k1.live(k1.tcb(q).children@[j] as int));
            }
            assert forall|j: int| 0 <= j < k1.ready_queue@.len() implies #[trigger] k1.ready_queue@[j] != pid by {
                assert(k1.live(k1.ready_queue@[j] as int));
            }
            assert(distinct(self.tcb(c as int).children@)) by {
                assert forall|a: int, b: int| 0 <= a < self.tcb(c as int).children@.len() && 0 <= b < self.tcb(c as int).children@.len() && a != b
                    implies self.tcb(c as int).children@[a] != self.tcb(c as int).children@[b] by {
                    if a < k1.tcb(c as int).children@.len() && b < k1.tcb(c as int).children@.len() {
                    } else if a < k1.tcb(c as int).children@.len() {
                        assert(k1.tcb(c as int).children@[a] != pid);
                    } else if b < k1.tcb(c as int).children@.len() {
                        assert(k1.tcb(c as int).children@[b] != pid);
                    }
                }
            }
            assert(distinct(self.ready_queue@)) by {
                assert forall|a: int, b: int| 0 <= a < self.ready_queue@.len() && 0 <= b < self.ready_queue@.len() && a != b
                    implies self.ready_queue@[a] != self.ready_queue@[b] by {
                    if a < k1.ready_queue@.len() {
                        assert(k1.ready_queue@[a] != pid);
                    }
                    if b < k1.ready_queue@.len() {
                        assert(k1.ready_queue@[b] != pid);
                    }
                }
            }
            assert forall|q: int| #[trigger] self.live(q) implies self.tcb(q).pid == q && self.tcb(q).wf()
                && self.tcb(q).task_status != TaskStatus::UnInit by {
                if q != pid {
                    assert(k1.live(q));
                }
            }
            assert forall|q: int| #[trigger] self.live(q) && self.tcb(q).task_status == TaskStatus::Running
                implies self.current == Some(q as usize) by {
                if q != pid {
                    assert(k1.live(q));
                }
            }
            assert forall|q: int| #[trigger] self.live(q) && self.tcb(q).task_status == TaskStatus::Ready
                implies self.ready_queue@.contains(q as usize) by {
                lemma_contains_push(k1.ready_queue@, pid, q as usize);
                if q != pid {
                    assert(k1.live(q));
                }
            }
            assert forall|j: int|
                0 <= j < self.ready_queue@.len() implies self.live(#[trigger] self.ready_queue@[j] as int)
                    && self.tcb(self.ready_queue@[j] as int).task_status == TaskStatus::Ready by {
                if j < k1.ready_queue@.len() {
                    assert(self.ready_queue@[j] == k1.ready_queue@[j]);
                    assert(k1.live(k1.ready_queue@[j] as int));
                }
            }
            assert forall|q: int, j: int|
                #![trigger self.tcb(q).children@[j]]
                self.live(q) && 0 <= j < self.tcb(q).children@.len() implies self.live(
                    self.tcb(q).children@[j] as int,
                ) && self.tcb(self.tcb(q).children@[j] as int).parent == Some(q as usize) by {
                if q == c as int {
                    if j < k1.tcb(c as int).children@.len() {
                        assert(self.tcb(q).children@[j] == k1.tcb(q).children@[j]);
                        assert(k1.live(k1.tcb(q).children@[j] as int));
                    }
                } else if q != pid {
                    assert(k1.live(q));
                    assert(self.tcb(q).children@[j] == k1.tcb(q).children@[j]);
                    assert(k1.live(k1.tcb(q).children@[j] as int));
                }
            }
            assert forall|q: int|
                #[trigger] self.live(q) && self.tcb(q).task_status == TaskStatus::Zombie implies self.tcb(
                    q,
                ).children@.len() == 0 by {
                if q != pid {
                    assert(k1.live(q));
                }
            }
        }
    }

    /// Sets register `reg` of the saved trap context of task `pid`.
    pub fn set_trap_reg(&mut self, pid: usize, reg: usize, value: usize)
        requires
            old(self).wf(),
            old(self).live(pid as int),
            reg < TRAP_REGS,
        ensures
            final(self).wf(),
            final(self).current == old(self).current,
            final(self).ready_queue == old(self).ready_queue,
            final(self).tasks@.len() == old(self).tasks@.len(),
            forall|q: int|
                0 <= q < old(self).tasks@.len() && q != pid ==> final(self).tasks@[q] == old(self).tasks@[q],
            final(self).live(pid as int),
            final(self).tcb(pid as int).trap_cx.x@ == old(self).tcb(pid as int).trap_cx.x@.update(reg as int, value),
            final(self).tcb(pid as int).trap_cx.sepc == old(self).tcb(pid as int).trap_cx.sepc,
            same_links(old(self).tcb(pid as int), final(self).tcb(pid as int)),
            final(self).tcb(pid as int).memory_set == old(self).tcb(pid as int).memory_set,
            final(self).tcb(pid as int).fd_table == old(self).tcb(pid as int).fd_table,
            final(self).tcb(pid as int).syscall_times == old(self).tcb(pid as int).syscall_times,
            final(self).tcb(pid as int).heap_bottom == old(self).tcb(pid as int).heap_bottom,
            final(self).tcb(pid as int).program_brk == old(self).tcb(pid as int).program_brk,
            final(self).tcb(pid as int).exit_code == old(self).tcb(pid as int).exit_code,
    {
        let mut t = self.take_task(pid);
        t.trap_cx.x[reg] = value;
        self.put_task(pid, t);
        proof {
            assert(self.tasks@ =~= old(self).tasks@.update(pid as int, Some(self.tcb(pid as int))));
            self.lemma_wf_after_update(old(self), pid as int);
        }
    }

    /// Creates a child of the Running task (see `TaskControlBlock::fork`),
    /// links it into the tree and queues it. Returns the child's pid.
    pub fn fork(&mut self) -> (r: Option<usize>)
        requires
            old(self).wf(),
            old(self).current is Some,
        ensures
            final(self).wf(),
            r is None <==> old(self).table_full(),
            r is None ==> *final(self) == *old(self),
            r matches Some(r) ==> {
                &&& !old(self).live(r as int)
                &&& final(self).live(r as int)
                &&& r != old(self).current_pid()
                &&& final(self).current == old(self).current
                &&& final(self).ready_queue@ == old(self).ready_queue@.push(r)
                &&& final(self).tasks@.len() >= old(self).tasks@.len()
                &&& forall|q: int|
                    0 <= q < old(self).tasks@.len() && q != old(self).current_pid() && q != r
                        ==> final(self).tasks@[q] == old(self).tasks@[q]
                &&& forall|q: int|
                    old(self).tasks@.len() <= q < final(self).tasks@.len() && q != r ==> final(self).tasks@[q] is None
                &&& final(self).cur().children@ == old(self).cur().children@.push(r)
                &&& final(self).cur().pid == old(self).cur().pid
                &&& final(self).cur().task_status == old(self).cur().task_status
                &&& final(self).cur().parent == old(self).cur().parent
                &&& final(self).cur().memory_set == old(self).cur().memory_set
                &&& final(self).cur().trap_cx == old(self).cur().trap_cx
                &&& final(self).cur().syscall_times == old(self).cur().syscall_times
                &&& final(self).cur().fd_table == old(self).cur().fd_table
                &&& final(self).cur().program_brk == old(self).cur().program_brk
                &&& final(self).cur().heap_bottom == old(self).cur().heap_bottom
                &&& final(self).tcb(r as int).task_status == TaskStatus::Ready
                &&& final(self).tcb(r as int).parent == Some(old(self).current_pid() as usize)
                &&& final(self).tcb(r as int).children@.len() == 0
                &&& final(self).tcb(r as int).memory_set@ == old(self).cur_space()
                &&& final(self).tcb(r as int).trap_cx.x@ == old(self).cur().trap_cx.x@
                &&& final(self).tcb(r as int).trap_cx.sepc == old(self).cur().trap_cx.sepc
                &&& final(self).tcb(r as int).fd_table@ == old(self).cur().fd_table@
                &&& final(self).tcb(r as int).program_brk == old(self).cur().program_brk
                &&& final(self).tcb(r as int).heap_bottom == old(self).cur().heap_bottom
                &&& final(self).tcb(r as int).syscall_times@ == zero_counts()
            },
    {
        let c = self.current_task();
        let pid = match self.alloc_pid() {
            Some(pid) => pid,
            None => {
                return None;
            },
        };
        let child = match &self.tasks[c] {
            Some(parent) => parent.fork(pid),
            None => vstd::pervasive::unreached(),
        };
        self.link_child(pid, child);
        Some(pid)
    }

    /// Gives child `kid` of the exited task `c` to init.
    #[verifier::spinoff_prover]
    #[verifier::rlimit(50)]
    fn reparent_to_init(&mut self, kid: usize, Ghost(c): Ghost<int>)
        requires
            old(self).wf(),
            old(self).live(kid as int),
            old(self).live(c),
            c != INIT_PID,
            old(self).tcb(c).children@.len() == 0,
            old(self).tcb(kid as int).parent == Some(c as usize),
        ensures
            final(self).wf(),
            final(self).current == old(self).current,
            final(self).ready_queue == old(self).ready_queue,
            final(self).tasks@.len() == old(self).tasks@.len(),
            forall|q: int|
                0 <= q < old(self).tasks@.len() && q != kid && q != INIT_PID ==> final(self).tasks@[q]
                    == old(self).tasks@[q],
            final(self).live(kid as int),
            final(self).tcb(kid as int).parent == Some(INIT_PID),
            final(self).tcb(kid as int).task_status == old(self).tcb(kid as int).task_status,
            final(self).tcb(kid as int).exit_code == old(self).tcb(kid as int).exit_code,
            final(self).tcb(kid as int).children == old(self).tcb(kid as int).children,
            final(self).tcb(kid as int).memory_set == old(self).tcb(kid as int).memory_set,
            final(self).tcb(kid as int).my_time == old(self).tcb(kid as int).my_time,
            final(self).tcb(kid as int).timer == old(self).tcb(kid as int).timer,
            final(self).tcb(kid as int).pid == old(self).tcb(kid as int).pid,
            final(self).tcb(INIT_PID as int).children@ == old(self).tcb(INIT_PID as int).children@.push(kid),
            final(self).tcb(INIT_PID as int).task_status == old(self).tcb(INIT_PID as int).task_status,
            final(self).tcb(INIT_PID as int).parent == old(self).tcb(INIT_PID as int).parent,
    {
        let ghost k0 = *self;
        let mut kt = self.take_task(kid);
        kt.parent = Some(INIT_PID);
        self.put_task(kid, kt);
        let mut it = self.take_task(INIT_PID);
        it.children.push(kid);
        self.put_task(INIT_PID, it);
        proof {
            assert(kid != INIT_PID);
            let init = INIT_PID as int;
            assert(self.live(kid as int) && self.live(init));
            // kid sat in no children list: only c could hold it, and c holds none
            assert forall|q: int, j: int| #![trigger k0.tcb(q).children@[j]] k0.live(q) && 0 <= j < k0.tcb(q).children@.len()
                implies k0.tcb(q).children@[j] != kid by {
                if k0.tcb(q).children@[j] == kid {
                    assert(k0.tcb(kid as int).parent == Some(q as usize));
                }
            }
            let ic = self.tcb(init).children@;
            assert(ic == k0.tcb(init).children@.push(kid));
            assert(distinct(ic)) by {
                assert forall|a: int, b: int| 0 <= a < ic.len() && 0 <= b < ic.len() && a != b implies ic[a] != ic[b] by {
                    if a < ic.len() - 1 {
                        assert(k0.tcb(init).children@[a] != kid);
                    }
                    if b < ic.len() - 1 {
                        assert(k0.tcb(init).children@[b] != kid);
                    }
                }
            }
            assert forall|q: int| #[trigger] self.live(q) implies self.tcb(q).pid == q && self.tcb(q).wf()
                && self.tcb(q).task_status != TaskStatus::UnInit by {
                assert(k0.live(q));
            }
            assert forall|q: int| #[trigger] self.live(q) && self.tcb(q).task_status == TaskStatus::Running
                implies self.current == Some(q as usize) by {
                assert(k0.live(q));
            }
            assert forall|q: int| #[trigger] self.live(q) && self.tcb(q).task_status == TaskStatus::Ready
                implies self.ready_queue@.contains(q as usize) by {
                assert(k0.live(q));
            }
            assert forall|j: int|
                0 <= j < self.ready_queue@.len() implies self.live(#[trigger] self.ready_queue@[j] as int)
                    && self.tcb(self.ready_queue@[j] as int).task_status == TaskStatus::Ready by {
                assert(k0.live(k0.ready_queue@[j] as int));
            }
            assert forall|q: int, j: int|
                #![trigger self.tcb(q).children@[j]]
                self.live(q) && 0 <= j < self.tcb(q).children@.len() implies self.live(
                    self.tcb(q).children@[j] as int,
                ) && self.tcb(self.tcb(q).children@[j] as int).parent == Some(q as usize) by {
                assert(k0.live(q));
                if q == init {
                    if j < k0.tcb(init).children@.len() {
                        assert(self.tcb(q).children@[j] == k0.tcb(q).children@[j]);
                        assert(k0.live(k0.tcb(q).children@[j] as int));
                    }
                } else {
                    assert(self.tcb(q).children@[j] == k0.tcb(q).children@[j]);
                    assert(k0.tcb(q).children@[j] != kid);
                    assert(k0.live(k0.tcb(q).children@[j] as int));
                }
            }
            assert forall|q: int|
                #[trigger] self.live(q) && self.tcb(q).task_status == TaskStatus::Zombie implies self.tcb(
                    q,
                ).children@.len() == 0 by {
                assert(k0.live(q));
            }
        }
    }

    /// Ends the Running task with `exit_code`. Init's exit stops the
    /// machine, with failure when the code is not 0, and changes nothing
    /// here. Any other task becomes a Zombie holding its exit code; its
    /// children move to init, its frames are freed, its time is brought up
    /// to `now`, and the next ready task runs.
    #[verifier::spinoff_prover]
    #[verifier::rlimit(50)]
    pub fn exit_current_and_run_next(&mut self, exit_code: i32, now: usize) -> (r: ExitOutcome)
        requires
            old(self).wf(),
            old(self).current is Some,
        ensures
            final(self).wf(),
            old(self).current_pid() == INIT_PID ==> r == (ExitOutcome::Shutdown {
                failure: exit_code != 0,
            }) && *final(self) == *old(self),
            old(self).current_pid() != INIT_PID ==> exit_effect(*old(self), *final(self), r, exit_code, now as int),
    {
        let c = self.current_task();
        if c == INIT_PID {
            return ExitOutcome::Shutdown { failure: exit_code != 0 };
        }
        let ghost k0 = *self;
        let mut t = self.take_task(c);
        let mut kids: Vec<usize> = Vec::new();
        std::mem::swap(&mut kids, &mut t.children);
        t.task_status = TaskStatus::Zombie;
        t.exit_code = exit_code;
        t.memory_set.recycle_data_pages();
        t.my_time = t.my_time.saturating_add(now.saturating_sub(t.timer));
        t.timer = now;
        self.put_task(c, t);
        self.current = None;
        proof {
            assert(kids@ == k0.cur().children@);
            assert(self.live(c as int));
            assert forall|j: int| 0 <= j < k0.ready_queue@.len() implies #[trigger] k0.ready_queue@[j] != c by {
                assert(k0.live(k0.ready_queue@[j] as int));
            }
            assert forall|q: int| #[trigger] self.live(q) implies self.tcb(q).pid == q && self.tcb(q).wf()
                && self.tcb(q).task_status != TaskStatus::UnInit by {
                assert(k0.live(q));
            }
            assert forall|q: int| #[trigger] self.live(q) && self.tcb(q).task_status == TaskStatus::Running
                implies self.current == Some(q as usize) by {
                assert(k0.live(q));
            }
            assert forall|q: int| #[trigger] self.live(q) && self.tcb(q).task_status == TaskStatus::Ready
                implies self.ready_queue@.contains(q as usize) by {
                assert(k0.live(q));
            }
            assert forall|j: int|
                0 <= j < self.ready_queue@.len() implies self.live(#[trigger] self.ready_queue@[j] as int)
                    && self.tcb(self.ready_queue@[j] as int).task_status == TaskStatus::Ready by {
                assert(k0.live(k0.ready_queue@[j] as int));
            }
            assert forall|q: int, j: int|
                #![trigger self.tcb(q).children@[j]]
                self.live(q) && 0 <= j < self.tcb(q).children@.len() implies self.live(
                    self.tcb(q).children@[j] as int,
                ) && self.tcb(self.tcb(q).children@[j] as int).parent == Some(q as usize) by {
                assert(k0.live(q));
                assert(self.tcb(q).children@[j] == k0.tcb(q).children@[j]);
                assert(k0.live(k0.tcb(q).children@[j] as int));
            }
            assert forall|q: int|
                #[trigger] self.live(q) && self.tcb(q).task_status == TaskStatus::Zombie implies self.tcb(
                    q,
                ).children@.len() == 0 by {
                assert(k0.live(q));
            }
            assert forall|j: int| 0 <= j < kids@.len() implies self.live(#[trigger] kids@[j] as int)
                && self.tcb(kids@[j] as int).parent == Some(c) by {
                assert(k0.tcb(c as int).children@[j] == kids@[j]);
                assert(k0.live(kids@[j] as int));
            }
        }
        let ghost k1 = *self;
        let ghost init_kids = k0.tcb(INIT_PID as int).children@;
        let mut i: usize = 0;
        while i < kids.len()
            invariant
                self.wf(),
                c != INIT_PID,
                distinct(kids@),
                self.current is None,
                self.ready_queue == k1.ready_queue,
                self.tasks@.len() == k1.tasks@.len(),
                i <= kids@.len(),
                self.live(c as int),
                self.tcb(c as int) == k1.tcb(c as int) || (self.tcb(c as int).parent == Some(INIT_PID)
                    && self.tcb(c as int).task_status == k1.tcb(c as int).task_status
                    && self.tcb(c as int).exit_code == k1.tcb(c as int).exit_code
                    && self.tcb(c as int).children == k1.tcb(c as int).children
                    && self.tcb(c as int).memory_set == k1.tcb(c as int).memory_set
                    && self.tcb(c as int).my_time == k1.tcb(c as int).my_time
                    && self.tcb(c as int).timer == k1.tcb(c as int).timer
                    && self.tcb(c as int).pid == k1.tcb(c as int).pid),
                children_kept(k0, *self, c as int),
                k1.tcb(c as int).children@.len() == 0,
                forall|j: int| i <= j < kids@.len() ==> self.live(#[trigger] kids@[j] as int)
                    && self.tcb(kids@[j] as int).parent == Some(c),
                forall|j: int| 0 <= j < i ==> self.live(#[trigger] kids@[j] as int)
                    && self.tcb(kids@[j] as int).parent == Some(INIT_PID),
                self.tcb(INIT_PID as int).children@ == init_kids + kids@.subrange(0, i as int),
            decreases kids@.len() - i,
        {
            let kid = kids[i];
            let ghost before = *self;
            self.reparent_to_init(kid, Ghost(c as int));
            proof {
                assert forall|j: int| i + 1 <= j < kids@.len() implies self.live(#[trigger] kids@[j] as int)
                    && self.tcb(kids@[j] as int).parent == Some(c) by {
                    assert(kids@[j] != kid);
                    assert(before.live(kids@[j] as int));
                    assert(kids@[j] != INIT_PID) by {
                        assert(before.tcb(INIT_PID as int).parent is None);
                    }
                }
                assert forall|j: int| 0 <= j < i + 1 implies self.live(#[trigger] kids@[j] as int)
                    && self.tcb(kids@[j] as int).parent == Some(INIT_PID) by {
                    if j < i {
                        assert(before.live(kids@[j] as int));
                        assert(kids@[j] != INIT_PID) by {
                            assert(before.tcb(INIT_PID as int).parent is None);
                        }
                    }
                }
                assert forall|q: int| #[trigger] k0.live(q) && q != c implies self.live(q)
                    && self.tcb(q).children@.len() >= k0.tcb(q).children@.len() by {
                    assert(before.live(q));
                }
                assert forall|q: int, j: int|
                    #![trigger k0.tcb(q).children@[j]]
                    k0.live(q) && q != c && 0 <= j < k0.tcb(q).children@.len() implies self.tcb(q).children@[j]
                        == k0.tcb(q).children@[j] by {
                    let kq = k0.tcb(q).children@[j];
                    assert(before.live(q));
                    if q == INIT_PID {
                        assert(self.tcb(q).children@ == before.tcb(q).children@.push(kid));
                    } else if q != kid {
                        assert(self.tasks@[q] == before.tasks@[q]);
                    }
                }
                assert(kids@.subrange(0, i + 1) =~= kids@.subrange(0, i as int).push(kid));
                assert(init_kids + kids@.subrange(0, i + 1) =~= (init_kids + kids@.subrange(0, i as int)).push(kid));
            }
            i = i + 1;
        }
        proof {
            assert(kids@.subrange(0, kids@.len() as int) =~= kids@);
        }
        let next = self.schedule(now);
        proof {
            assert(self.live(c as int));
        }
        ExitOutcome::Switched { next }
    }

    /// Child `j` of the Running task is named by `pid` (-1 names any).
    pub open spec fn child_matches(&self, pid: isize, j: int) -> bool {
        let kids = self.cur().children@;
        0 <= j < kids.len() && (pid == -1 || (pid >= 0 && pid as int == kids[j] as int))
    }

    pub open spec fn zombie_match(&self, pid: isize, j: int) -> bool {
        self.child_matches(pid, j) && self.tcb(self.cur().children@[j] as int).task_status
            == TaskStatus::Zombie
    }

    /// `j` is the first child named by `pid` that is a Zombie.
    pub open spec fn first_zombie_match(&self, pid: isize, j: int) -> bool {
        self.zombie_match(pid, j) && forall|i: int| 0 <= i < j ==> !#[trigger] self.zombie_match(pid, i)
    }

    /// Reaps a Zombie child of the Running task named by `pid` (-1 names
    /// any): stores its exit code at user address `exit_code_ptr`, drops it
    /// from the child list and frees its slot, and returns its pid. Returns
    /// -1 when no child is named by `pid` or the address cannot take the
    /// code, and -2 when the named children are all still alive; nothing
    /// changes then.
    #[verifier::spinoff_prover]
    #[verifier::rlimit(50)]
    pub fn waitpid(&mut self, pid: isize, exit_code_ptr: usize) -> (r: isize)
        requires
            old(self).wf(),
            old(self).current is Some,
        ensures
            final(self).wf(),
            final(self).current == old(self).current,
            final(self).ready_queue == old(self).ready_queue,
            (r == -1) <==> (forall|j: int| !#[trigger] old(self).child_matches(pid, j)) || (exists|j: int|
                #[trigger] old(self).zombie_match(pid, j)) && !accessible(
                old(self).cur_space(),
                exit_code_ptr as int,
                4,
            ),
            (r == -2) <==> (exists|j: int| #[trigger] old(self).child_matches(pid, j)) && (forall|j: int|
                !#[trigger] old(self).zombie_match(pid, j)),
            r == -1 || r == -2 || r >= 0,
            r < 0 ==> final(self).tasks@ == old(self).tasks@,
            r >= 0 ==> exists|j: int|
                {
                    &&& #[trigger] old(self).first_zombie_match(pid, j)
                    &&& r as int == old(self).cur().children@[j] as int
                    &&& final(self).cur().children@ == old(self).cur().children@.remove(j)
                    &&& final(self).cur().pid == old(self).cur().pid
                    &&& final(self).cur().task_status == old(self).cur().task_status
                    &&& final(self).cur().parent == old(self).cur().parent
                    &&& final(self).cur().fd_table == old(self).cur().fd_table
                    &&& final(self).cur().syscall_times == old(self).cur().syscall_times
                    &&& final(self).cur().exit_code == old(self).cur().exit_code
                    &&& final(self).cur().trap_cx == old(self).cur().trap_cx
                    &&& final(self).cur().heap_bottom == old(self).cur().heap_bottom
                    &&& final(self).cur().program_brk == old(self).cur().program_brk
                    &&& keeps_times(old(self).cur(), final(self).cur())
                    &&& !final(self).live(r as int)
                    &&& written(
                        old(self).cur_space(),
                        final(self).cur_space(),
                        exit_code_ptr as int,
                        i32_bytes(old(self).tcb(r as int).exit_code),
                    )
                    &&& final(self).tasks@.len() == old(self).tasks@.len()
                    &&& forall|q: int|
                        0 <= q < old(self).tasks@.len() && q != r && q != old(self).current_pid()
                            ==> final(self).tasks@[q] == old(self).tasks@[q]
                },
    {
        let c = self.current_task();
        let ghost k0 = *self;
        let mut any = false;
        let mut found: Option<usize> = None;
        let mut j: usize = 0;
        let n = match &self.tasks[c] {
            Some(t) => t.children.len(),
            None => vstd::pervasive::unreached(),
        };
        while j < n && found.is_none()
            invariant
                *self == k0,
                k0.wf(),
                k0.current == Some(c),
                n == k0.cur().children@.len(),
                j <= n,
                any <==> exists|i: int| 0 <= i < j && #[trigger] k0.child_matches(pid, i),
                found is None ==> forall|i: int| 0 <= i < j ==> !#[trigger] k0.zombie_match(pid, i),
                found matches Some(f) ==> f < j && k0.first_zombie_match(pid, f as int),
            decreases n - j,
        {
            let kid = match &self.tasks[c] {
                Some(t) => t.children[j],
                None => vstd::pervasive::unreached(),
            };
            proof {
                assert(k0.live(kid as int));
            }
            let named = pid == -1 || (pid >= 0 && pid as usize == kid);
            if named {
                any = true;
                assert(k0.child_matches(pid, j as int));
                let zombie = match &self.tasks[kid] {
                    Some(t) => t.is_zombie(),
                    None => vstd::pervasive::unreached(),
                };
                if zombie {
                    found = Some(j);
                    assert(k0.first_zombie_match(pid, j as int));
                }
            }
            j = j + 1;
        }
        proof {
            if found is None {
                assert forall|i: int| !#[trigger] k0.zombie_match(pid, i) by {
                    if 0 <= i < j {
                    }
                }
                if !any {
                    assert forall|i: int| !#[trigger] k0.child_matches(pid, i) by {
                        if 0 <= i < j {
                        }
                    }
                }
            } else {
                let f = found->Some_0;
                assert(k0.zombie_match(pid, f as int));
            }
        }
        let j = match found {
            Some(j) => j,
            None => {
                if !any {
                    return -1;
                }
                return -2;
            },
        };
        assert(k0.first_zombie_match(pid, j as int));
        let kid = match &self.tasks[c] {
            Some(t) => t.children[j],
            None => vstd::pervasive::unreached(),
        };
        proof {
            assert(k0.live(kid as int));
        }
        let code = match &self.tasks[kid] {
            Some(t) => t.exit_code,
            None => vstd::pervasive::unreached(),
        };
        let bytes = i32_to_bytes(code);
        assert(k0.child_matches(pid, j as int));
        assert(k0.zombie_match(pid, j as int));
        match self.write_user(exit_code_ptr, &bytes) {
            Ok(()) => {},
            Err(_) => {
                return -1;
            },
        }
        let ghost k1 = *self;
        let mut t = self.take_task(c);
        t.children.remove(j);
        self.put_task(c, t);
        let gone = self.take_task(kid);
        proof {
            assert(kid != c) by {
                assert(k0.tcb(kid as int).task_status == TaskStatus::Zombie);
            }
            assert(kid != INIT_PID) by {
                assert(k0.tcb(INIT_PID as int).parent is None);
            }
            assert(self.live(c as int));
            assert(k1.tcb(kid as int) == k0.tcb(kid as int));
            // the reaped child sits in no other list and is neither queued nor running
            assert forall|q: int, i: int| #![trigger k1.tcb(q).children@[i]] k1.live(q) && q != c && 0 <= i < k1.tcb(q).children@.len()
                implies k1.tcb(q).children@[i] != kid by {
                if k1.tcb(q).children@[i] == kid {
                    assert(k1.tcb(kid as int).parent == Some(q as usize));
                    assert(k1.tcb(c as int).children@[j as int] == kid);
                }
            }
            let kc = k1.tcb(c as int).children@;
            assert forall|i: int| 0 <= i < self.tcb(c as int).children@.len() implies #[trigger] self.tcb(c as int).children@[i] != kid by {
                if i < j {
                    assert(self.tcb(c as int).children@[i] == kc[i]);
                } else {
                    assert(self.tcb(c as int).children@[i] == kc[i + 1]);
                }
            }
            assert forall|i: int| 0 <= i < self.ready_queue@.len() implies #[trigger] self.ready_queue@[i] != kid by {
                assert(k1.live(k1.ready_queue@[i] as int));
            }
            assert forall|q: int| #[trigger] self.live(q) implies self.tcb(q).pid == q && self.tcb(q).wf()
                && self.tcb(q).task_status != TaskStatus::UnInit by {
                assert(k1.live(q));
                if q == c {
                    assert(distinct(self.tcb(c as int).children@)) by {
                        assert forall|a: int, b: int| 0 <= a < self.tcb(c as int).children@.len() && 0 <= b < self.tcb(c as int).children@.len() && a != b
                            implies self.tcb(c as int).children@[a] != self.tcb(c as int).children@[b] by {
                            let oa = if a < j { a } else { a + 1 };
                            let ob = if b < j { b } else { b + 1 };
                            assert(self.tcb(c as int).children@[a] == kc[oa]);
                            assert(self.tcb(c as int).children@[b] == kc[ob]);
                        }
                    }
                }
            }
            assert forall|q: int| #[trigger] self.live(q) && self.tcb(q).task_status == TaskStatus::Running
                implies self.current == Some(q as usize) by {
                assert(k1.live(q));
            }
            assert forall|q: int| #[trigger] self.live(q) && self.tcb(q).task_status == TaskStatus::Ready
                implies self.ready_queue@.contains(q as usize) by {
                assert(k1.live(q));
            }
            assert forall|i: int|
                0 <= i < self.ready_queue@.len() implies self.live(#[trigger] self.ready_queue@[i] as int)
                    && self.tcb(self.ready_queue@[i] as int).task_status == TaskStatus::Ready by {
                assert(k1.live(k1.ready_queue@[i] as int));
            }
            assert forall|q: int, i: int|
                #![trigger self.tcb(q).children@[i]]
                self.live(q) && 0 <= i < self.tcb(q).children@.len() implies self.live(
                    self.tcb(q).children@[i] as int,
                ) && self.tcb(self.tcb(q).children@[i] as int).parent == Some(q as usize) by {
                assert(k1.live(q));
                if q == c {
                    let oi = if i < j { i } else { i + 1 };
                    assert(self.tcb(q).children@[i] == kc[oi]);
                    assert(k1.live(kc[oi] as int));
                } else {
                    assert(self.tcb(q).children@[i] == k1.tcb(q).children@[i]);
                    assert(k1.live(k1.tcb(q).children@[i] as int));
                }
            }
            assert forall|q: int|
                #[trigger] self.live(q) && self.tcb(q).task_status == TaskStatus::Zombie implies self.tcb(
                    q,
                ).children@.len() == 0 by {
                assert(k1.live(q));
            }
            assert(self.cur_space() == k1.cur_space());
            assert(self.cur().children@ =~= k0.cur().children@.remove(j as int));
        }
        kid as isize
    }

    /// Replaces the Running task's program by `image`: a new address space,
    /// a trap context entering it, a fresh heap. Pid, tree links and
    /// descriptors stay. A bad image changes nothing.
    pub fn exec(&mut self, image: ProgramImage) -> (r: Result<(), LoadError>)
        requires
            old(self).wf(),
            old(self).current is Some,
        ensures
            final(self).wf(),
            final(self).only_current_changed(old(self)),
            keeps_process(old(self).cur(), final(self).cur()),
            keeps_times(old(self).cur(), final(self).cur()),
            r is Ok <==> image_ok(image.pages@),
            r is Err ==> final(self).tasks@ == old(self).tasks@,
            r is Ok ==> {
                &&& final(self).cur_space() == image_view(image.pages@)
                &&& final(self).cur().trap_cx.sepc == image.entry
                &&& final(self).cur().trap_cx.x@[REG_SP as int] == final(self).cur().heap_bottom
                &&& forall|i: int| 0 <= i < TRAP_REGS && i != REG_SP ==> #[trigger] final(self).cur().trap_cx.x@[i] == 0
                &&& final(self).cur().heap_bottom == (image_top(image.pages@) + 1 + USER_STACK_PAGES)
                    * PAGE_SIZE
                &&& final(self).cur().program_brk == final(self).cur().heap_bottom
                &&& final(self).cur().fd_table == old(self).cur().fd_table
            },
    {
        let c = self.current_task();
        let entry = image.entry;
        let (memory_set, sp) = match load_image(image.pages) {
            Ok(loaded) => loaded,
            Err(e) => {
                return Err(e);
            },
        };
        let mut t = self.take_task(c);
        t.memory_set = memory_set;
        t.trap_cx = new_trap_cx(entry, sp);
        t.heap_bottom = sp;
        t.program_brk = sp;
        self.put_task(c, t);
        proof {
            assert(self.tasks@ =~= old(self).tasks@.update(c as int, Some(self.tcb(c as int))));
            self.lemma_wf_after_update(old(self), c as int);
        }
        Ok(())
    }

    /// Moves the Running task's program break by `delta` bytes, mapping or
    /// unmapping the heap pages it gains or loses, and returns the old
    /// break. Fails, changing nothing, when the break would fall below the
    /// heap's bottom or leave the address width, when growing meets a
    /// mapped page, or when shrinking meets an unmapped one.
    #[verifier::spinoff_prover]
    #[verifier::rlimit(50)]
    pub fn change_program_brk(&mut self, delta: i32) -> (r: Option<usize>)
        requires
            old(self).wf(),
            old(self).current is Some,
        ensures
            final(self).wf(),
            final(self).only_current_changed(old(self)),
            keeps_process(old(self).cur(), final(self).cur()),
            keeps_times(old(self).cur(), final(self).cur()),
            final(self).cur().trap_cx == old(self).cur().trap_cx,
            r is Some <==> brk_ok(
                old(self).cur_space(),
                old(self).cur().program_brk as int,
                old(self).cur().heap_bottom as int,
                delta as int,
            ),
            r is None ==> final(self).tasks@ == old(self).tasks@,
            r is Some ==> {
                &&& r == Some(old(self).cur().program_brk)
                &&& final(self).cur().program_brk == old(self).cur().program_brk + delta
                &&& final(self).cur().heap_bottom == old(self).cur().heap_bottom
                &&& final(self).cur_space() == brk_space(
                    old(self).cur_space(),
                    old(self).cur().program_brk as int,
                    delta as int,
                )
            },
    {
        let c = self.current_task();
        let (old_brk, bottom) = match &self.tasks[c] {
            Some(t) => (t.program_brk, t.heap_bottom),
            None => vstd::pervasive::unreached(),
        };
        let top = break_max_value();
        assert(old(self).live(c as int));
        let new_brk: usize = if delta >= 0 {
            let d = delta as usize;
            if d > top - old_brk {
                return None;
            }
            old_brk + d
        } else {
            let d = (-(delta as i64)) as usize;
            if d > old_brk || old_brk - d < bottom {
                return None;
            }
            old_brk - d
        };
        if new_brk < bottom || new_brk > top {
            return None;
        }
        let lo = (old_brk + PAGE_SIZE - 1) / PAGE_SIZE;
        let hi = (new_brk + PAGE_SIZE - 1) / PAGE_SIZE;
        let ok = if delta >= 0 {
            self.insert_framed_area(lo, hi, user_rw_exec())
        } else {
            self.unmap_range(hi, lo)
        };
        if !ok {
            return None;
        }
        let ghost k1 = *self;
        let mut t = self.take_task(c);
        t.program_brk = new_brk;
        self.put_task(c, t);
        proof {
            assert(self.tasks@ =~= k1.tasks@.update(c as int, Some(self.tcb(c as int))));
            self.lemma_wf_after_update(&k1, c as int);
        }
        Some(old_brk)
    }

    /// The open file behind descriptor `fd` of the Running task.
    pub fn fd_file(&self, fd: usize) -> (r: Option<OpenFile>)
        requires
            self.wf(),
            self.current is Some,
        ensures
            r == (if fd < self.cur().fd_table@.len() {
                self.cur().fd_table@[fd as int]
            } else {
                None
            }),
    {
        let c = self.current_task();
        match &self.tasks[c] {
            Some(t) => {
                if fd < t.fd_table.len() {
                    t.fd_table[fd]
                } else {
                    None
                }
            },
            None => vstd::pervasive::unreached(),
        }
    }

    /// Installs `file` in the lowest free descriptor of the Running task,
    /// growing the table when none is free; returns the descriptor.
    pub fn alloc_fd(&mut self, file: OpenFile) -> (r: usize)
        requires
            old(self).wf(),
            old(self).current is Some,
        ensures
            final(self).wf(),
            final(self).only_current_changed(old(self)),
            same_but_fds(old(self).cur(), final(self).cur()),
            final(self).cur_space() == old(self).cur_space(),
            final(self).cur().fd_table@ == if r < old(self).cur().fd_table@.len() {
                old(self).cur().fd_table@.update(r as int, Some(file))
            } else {
                old(self).cur().fd_table@.push(Some(file))
            },
            r <= old(self).cur().fd_table@.len(),
            r < old(self).cur().fd_table@.len() ==> old(self).cur().fd_table@[r as int] is None,
            forall|i: int| 0 <= i < r && i < old(self).cur().fd_table@.len() ==> #[trigger] old(self).cur().fd_table@[i] is Some,
    {
        let c = self.current_task();
        let mut t = self.take_task(c);
        let mut fd: usize = 0;
        while fd < t.fd_table.len() && t.fd_table[fd].is_some()
            invariant
                fd <= t.fd_table@.len(),
                t == old(self).tcb(c as int),
                forall|i: int| 0 <= i < fd ==> #[trigger] t.fd_table@[i] is Some,
            decreases t.fd_table@.len() - fd,
        {
            fd = fd + 1;
        }
        if fd < t.fd_table.len() {
            t.fd_table[fd] = Some(file);
        } else {
            t.fd_table.push(Some(file));
        }
        self.put_task(c, t);
        proof {
            assert(self.tasks@ =~= old(self).tasks@.update(c as int, Some(self.tcb(c as int))));
            self.lemma_wf_after_update(old(self), c as int);
        }
        fd
    }

    /// Clears descriptor `fd` of the Running task; false, with nothing
    /// changed, when it is out of range or already free.
    pub fn close_fd(&mut self, fd: usize) -> (r: bool)
        requires
            old(self).wf(),
            old(self).current is Some,
        ensures
            final(self).wf(),
            final(self).only_current_changed(old(self)),
            same_but_fds(old(self).cur(), final(self).cur()),
            final(self).cur_space() == old(self).cur_space(),
            r == (fd < old(self).cur().fd_table@.len() && old(self).cur().fd_table@[fd as int] is Some),
            r ==> final(self).cur().fd_table@ == old(self).cur().fd_table@.update(fd as int, None),
            !r ==> final(self).tasks@ == old(self).tasks@,
    {
        let c = self.current_task();
        let open = match &self.tasks[c] {
            Some(t) => fd < t.fd_table.len() && t.fd_table[fd].is_some(),
            None => vstd::pervasive::unreached(),
        };
        if !open {
            return false;
        }
        let mut t = self.take_task(c);
        t.fd_table[fd] = None;
        self.put_task(c, t);
        proof {
            assert(self.tasks@ =~= old(self).tasks@.update(c as int, Some(self.tcb(c as int))));
            self.lemma_wf_after_update(old(self), c as int);
        }
        true
    }

    /// Starts `image` as a new child of the Running task, Ready and queued,
    /// without copying the caller's address space. Returns the child's pid,
    /// or `None`, with nothing changed, for a bad image or a full table.
    pub fn spawn(&mut self, image: ProgramImage) -> (r: Option<usize>)
        requires
            old(self).wf(),
            old(self).current is Some,
        ensures
            final(self).wf(),
            r is None <==> !image_ok(image.pages@) || old(self).table_full(),
            r is None ==> final(self).tasks@ == old(self).tasks@ && final(self).ready_queue
                == old(self).ready_queue && final(self).current == old(self).current,
            r matches Some(r) ==> {
                &&& !old(self).live(r as int)
                &&& final(self).live(r as int)
                &&& final(self).current == old(self).current
                &&& final(self).ready_queue@ == old(self).ready_queue@.push(r)
                &&& final(self).cur().children@ == old(self).cur().children@.push(r)
                &&& final(self).cur().memory_set == old(self).cur().memory_set
                &&& final(self).cur().fd_table == old(self).cur().fd_table
                &&& final(self).cur().task_status == old(self).cur().task_status
                &&& final(self).tcb(r as int).task_status == TaskStatus::Ready
                &&& final(self).tcb(r as int).parent == Some(old(self).current_pid() as usize)
                &&& final(self).tcb(r as int).memory_set@ == image_view(image.pages@)
                &&& final(self).tcb(r as int).trap_cx.sepc == image.entry
                &&& forall|i: int| 0 <= i < TRAP_REGS && i != REG_SP ==> #[trigger] final(self).tcb(r as int).trap_cx.x@[i] == 0
            },
    {
        if !image_is_ok(&image.pages) {
            return None;
        }
        let c = self.current_task();
        let ghost k0 = *self;
        let pid = match self.alloc_pid() {
            Some(pid) => pid,
            None => {
                return None;
            },
        };
        let mut child = match TaskControlBlock::new(pid, image) {
            Ok(t) => t,
            Err(_) => vstd::pervasive::unreached(),
        };
        child.parent = Some(c);
        proof {
            assert(!k0.live(pid as int));
        }
        self.link_child(pid, child);
        Some(pid)
    }

    /// Takes the control block of `pid` out of its slot.
    fn take_task(&mut self, pid: usize) -> (t: TaskControlBlock)
        requires
            old(self).live(pid as int),
        ensures
            t == old(self).tcb(pid as int),
            final(self).tasks@ == old(self).tasks@.update(pid as int, None),
            final(self).ready_queue == old(self).ready_queue,
            final(self).current == old(self).current,
    {
        let mut slot: Option<TaskControlBlock> = None;
        std::mem::swap(&mut self.tasks[pid], &mut slot);
        match slot {
            Some(t) => t,
            None => vstd::pervasive::unreached(),
        }
    }
}

} // verus!
