//! Records copied between kernel and user memory, as little-endian bytes
//! in the layout a C compiler gives them on a 64-bit target.
use vstd::prelude::*;
use crate::config::MAX_SYSCALL_NUM;
use crate::task::TaskStatus;

verus! {

/// Wall-clock time: seconds and microseconds.
#[derive(Clone, Copy, PartialEq, Eq, Structural, Debug)]
pub struct TimeVal {
    pub sec: u64,
    pub usec: u64,
}

/// What `task_info` reports: the caller's status, how often it made each
/// syscall, and how long it has run in milliseconds.
pub struct TaskInfo {
    pub status: TaskStatus,
    pub syscall_times: Vec<u32>,
    pub time: usize,
}

/// File status as `fstat` reports it.
#[derive(Clone, Copy, PartialEq, Eq, Structural, Debug)]
pub struct Stat {
    pub ino: u64,
    pub mode: u32,
    pub nlink: u32,
    pub size: u64,
}

/// The `n` low bytes of `x`, least significant first.
pub open spec fn le_bytes(x: nat, n: nat) -> Seq<u8>
    decreases n,
{
    if n == 0 {
        Seq::empty()
    } else {
        seq![(x % 256) as u8] + le_bytes(x / 256, (n - 1) as nat)
    }
}

/// The number whose little-endian bytes are `s`.
pub open spec fn le_value(s: Seq<u8>) -> nat
    decreases s.len(),
{
    if s.len() == 0 {
        0
    } else {
        (s[0] + 256 * le_value(s.drop_first())) as nat
    }
}

pub open spec fn pow256(n: nat) -> nat
    decreases n,
{
    if n == 0 {
        1
    } else {
        256 * pow256((n - 1) as nat)
    }
}

pub open spec fn status_code(s: TaskStatus) -> nat {
    match s {
        TaskStatus::UnInit => 0,
        TaskStatus::Ready => 1,
        TaskStatus::Running => 2,
        TaskStatus::Zombie => 3,
    }
}

/// The bytes of `v`, as `i32` stores them.
pub open spec fn i32_bytes(v: i32) -> Seq<u8> {
    le_bytes(v as u32 as nat, 4)
}

pub open spec fn time_val_bytes(t: TimeVal) -> Seq<u8> {
    le_bytes(t.sec as nat, 8) + le_bytes(t.usec as nat, 8)
}

pub open spec fn stat_bytes(s: Stat) -> Seq<u8> {
    le_bytes(s.ino as nat, 8) + le_bytes(s.mode as nat, 4) + le_bytes(s.nlink as nat, 4) + le_bytes(
        s.size as nat,
        8,
    )
}

/// The counters one after another, four bytes each.
pub open spec fn counts_bytes(c: Seq<u32>) -> Seq<u8>
    decreases c.len(),
{
    if c.len() == 0 {
        Seq::empty()
    } else {
        counts_bytes(c.drop_last()) + le_bytes(c.last() as nat, 4)
    }
}

/// Status (four bytes), the counters, four bytes of padding, the time.
pub open spec fn task_info_bytes(status: TaskStatus, counts: Seq<u32>, time: usize) -> Seq<u8> {
    le_bytes(status_code(status), 4) + counts_bytes(counts) + le_bytes(0, 4) + le_bytes(
        time as nat,
        8,
    )
}

/// Size in bytes of a stored `TimeVal`.
pub const TIME_VAL_SIZE: usize = 16;

/// Size in bytes of a stored `Stat`.
pub const STAT_SIZE: usize = 24;

/// Size in bytes of a stored `TaskInfo`.
pub const TASK_INFO_SIZE: usize = 2016;

/// Appends the `n` low bytes of `x`, least significant first.
pub fn push_le(out: &mut Vec<u8>, x: u64, n: usize)
    ensures
        final(out)@ == old(out)@ + le_bytes(x as nat, n as nat),
{
    let mut cur = x;
    let mut i: usize = 0;
    while i < n
        invariant
            i <= n,
            old(out)@ + le_bytes(x as nat, n as nat) == out@ + le_bytes(cur as nat, (n - i) as nat),
        decreases n - i,
    {
        let ghost before = out@;
        out.push((cur % 256) as u8);
        proof {
            assert(le_bytes(cur as nat, (n - i) as nat) == seq![(cur % 256) as u8] + le_bytes(
                (cur / 256) as nat,
                (n - i - 1) as nat,
            ));
            assert(out@ + le_bytes((cur / 256) as nat, (n - i - 1) as nat) =~= before + le_bytes(
                cur as nat,
                (n - i) as nat,
            ));
        }
        cur = cur / 256;
        i = i + 1;
    }
    assert(out@ + le_bytes(cur as nat, 0) =~= out@);
}

/// Reads `n` little-endian bytes of `s` from `at`.
pub fn read_le(s: &Vec<u8>, at: usize, n: usize) -> (r: u64)
    requires
        at + n <= s@.len(),
        n <= 8,
    ensures
        r == le_value(s@.subrange(at as int, at + n)),
{
    let mut r: u64 = 0;
    let mut i: usize = n;
    // taking the length tells the loop that it fits in usize
    let _len = s.len();
    while i > 0
        invariant
            i <= n,
            s@.len() <= usize::MAX,
            n <= 8,
            at + n <= s@.len(),
            r == le_value(s@.subrange(at + i, at + n)),
            le_value(s@.subrange(at + i, at + n)) < pow256((n - i) as nat),
        decreases i,
    {
        let ghost tail = s@.subrange(at + i, at + n);
        let b = s[at + i - 1];
        proof {
            let whole = s@.subrange(at + i - 1, at + n);
            assert(whole.drop_first() =~= tail);
            assert(whole[0] == b);
            lemma_pow256_bound((n - i) as nat);
            assert(pow256((n - i + 1) as nat) == 256 * pow256((n - i) as nat));
        }
        r = b as u64 + 256 * r;
        i = i - 1;
    }
    r
}

/// The powers of 256 up to the eighth.
proof fn lemma_pow256_values()
    ensures
        pow256(0) == 1,
        pow256(1) == 0x100,
        pow256(2) == 0x1_0000,
        pow256(3) == 0x100_0000,
        pow256(4) == 0x1_0000_0000,
        pow256(5) == 0x100_0000_0000,
        pow256(6) == 0x1_0000_0000_0000,
        pow256(7) == 0x100_0000_0000_0000,
        pow256(8) == 0x1_0000_0000_0000_0000,
{
    assert(pow256(0) == 1);
    assert(pow256(1) == 0x100);
    assert(pow256(2) == 0x1_0000);
    assert(pow256(3) == 0x100_0000);
    assert(pow256(4) == 0x1_0000_0000);
    assert(pow256(5) == 0x100_0000_0000);
    assert(pow256(6) == 0x1_0000_0000_0000);
    assert(pow256(7) == 0x100_0000_0000_0000);
    assert(pow256(8) == 0x1_0000_0000_0000_0000);
}

proof fn lemma_pow256_bound(n: nat)
    requires
        n <= 7,
    ensures
        256 * pow256(n) <= 0x1_0000_0000_0000_0000,
{
    lemma_pow256_values();
}

/// Law: reading back the `n` bytes written for `x` gives `x` again, when
/// `x` fits in `n` bytes.
pub proof fn lemma_le_round_trip(x: nat, n: nat)
    requires
        x < pow256(n),
    ensures
        le_bytes(x, n).len() == n,
        le_value(le_bytes(x, n)) == x,
    decreases n,
{
    if n > 0 {
        assert(x / 256 < pow256((n - 1) as nat));
        lemma_le_round_trip(x / 256, (n - 1) as nat);
        let s = le_bytes(x, n);
        assert(s.drop_first() =~= le_bytes(x / 256, (n - 1) as nat));
    }
}

pub proof fn lemma_le_bytes_len(x: nat, n: nat)
    ensures
        le_bytes(x, n).len() == n,
    decreases n,
{
    if n > 0 {
        lemma_le_bytes_len(x / 256, (n - 1) as nat);
    }
}

pub proof fn lemma_counts_bytes_len(c: Seq<u32>)
    ensures
        counts_bytes(c).len() == 4 * c.len(),
    decreases c.len(),
{
    if c.len() > 0 {
        lemma_counts_bytes_len(c.drop_last());
        lemma_le_bytes_len(c.last() as nat, 4);
    }
}

/// The stored form of an `i32`.
pub fn i32_to_bytes(v: i32) -> (r: Vec<u8>)
    ensures
        r@ == i32_bytes(v),
        r@.len() == 4,
{
    proof {
        lemma_le_bytes_len(v as u32 as nat, 4);
    }
    let mut out: Vec<u8> = Vec::new();
    push_le(&mut out, v as u32 as u64, 4);
    assert(out@ =~= i32_bytes(v));
    out
}

impl TimeVal {
    /// A time given in microseconds, split into seconds and microseconds.
    pub fn from_us(us: usize) -> (r: TimeVal)
        ensures
            r.sec == us / 1_000_000,
            r.usec == us % 1_000_000,
    {
        TimeVal { sec: (us / 1_000_000) as u64, usec: (us % 1_000_000) as u64 }
    }

    pub fn to_bytes(&self) -> (r: Vec<u8>)
        ensures
            r@ == time_val_bytes(*self),
    {
        let mut out: Vec<u8> = Vec::new();
        push_le(&mut out, self.sec, 8);
        push_le(&mut out, self.usec, 8);
        assert(out@ =~= time_val_bytes(*self));
        out
    }

    /// The record stored in `b`, when `b` has a record's size.
    pub fn from_bytes(b: &Vec<u8>) -> (r: Option<TimeVal>)
        ensures
            r is Some <==> b@.len() == TIME_VAL_SIZE,
            r matches Some(t) ==> t.sec == le_value(b@.subrange(0, 8)) && t.usec == le_value(
                b@.subrange(8, 16),
            ),
    {
        if b.len() != TIME_VAL_SIZE {
            return None;
        }
        let sec = read_le(b, 0, 8);
        let usec = read_le(b, 8, 8);
        Some(TimeVal { sec, usec })
    }
}

impl Stat {
    pub fn to_bytes(&self) -> (r: Vec<u8>)
        ensures
            r@ == stat_bytes(*self),
    {
        let mut out: Vec<u8> = Vec::new();
        push_le(&mut out, self.ino, 8);
        push_le(&mut out, self.mode as u64, 4);
        push_le(&mut out, self.nlink as u64, 4);
        push_le(&mut out, self.size, 8);
        assert(out@ =~= stat_bytes(*self));
        out
    }

    /// The record stored in `b`, when `b` has a record's size.
    pub fn from_bytes(b: &Vec<u8>) -> (r: Option<Stat>)
        ensures
            r is Some <==> b@.len() == STAT_SIZE,
            r matches Some(st) ==> st.ino == le_value(b@.subrange(0, 8)) && st.mode == le_value(
                b@.subrange(8, 12),
            ) && st.nlink == le_value(b@.subrange(12, 16)) && st.size == le_value(b@.subrange(16, 24)),
    {
        if b.len() != STAT_SIZE {
            return None;
        }
        let ino = read_le(b, 0, 8);
        let mode = read_le(b, 8, 4);
        let nlink = read_le(b, 12, 4);
        let size = read_le(b, 16, 8);
        proof {
            lemma_le_value_bound(b@.subrange(8, 12));
            lemma_le_value_bound(b@.subrange(12, 16));
            lemma_pow256_values();
        }
        Some(Stat { ino, mode: mode as u32, nlink: nlink as u32, size })
    }
}

impl TaskInfo {
    pub fn to_bytes(&self) -> (r: Vec<u8>)
        ensures
            r@ == task_info_bytes(self.status, self.syscall_times@, self.time),
    {
        let mut out: Vec<u8> = Vec::new();
        push_le(&mut out, status_number(self.status), 4);
        let mut i: usize = 0;
        let ghost head = out@;
        while i < self.syscall_times.len()
            invariant
                i <= self.syscall_times@.len(),
                out@ == head + counts_bytes(self.syscall_times@.subrange(0, i as int)),
            decreases self.syscall_times@.len() - i,
        {
            push_le(&mut out, self.syscall_times[i] as u64, 4);
            proof {
                let sub = self.syscall_times@.subrange(0, i + 1);
                assert(sub.drop_last() =~= self.syscall_times@.subrange(0, i as int));
                assert(out@ =~= head + counts_bytes(sub));
            }
            i = i + 1;
        }
        assert(self.syscall_times@.subrange(0, i as int) =~= self.syscall_times@);
        push_le(&mut out, 0, 4);
        push_le(&mut out, self.time as u64, 8);
        assert(out@ =~= task_info_bytes(self.status, self.syscall_times@, self.time));
        out
    }
}

/// The stored number of a status.
pub fn status_number(s: TaskStatus) -> (r: u64)
    ensures
        r == status_code(s),
{
    match s {
        TaskStatus::UnInit => 0,
        TaskStatus::Ready => 1,
        TaskStatus::Running => 2,
        TaskStatus::Zombie => 3,
    }
}

proof fn lemma_le_value_bound(s: Seq<u8>)
    ensures
        le_value(s) < pow256(s.len()),
    decreases s.len(),
{
    if s.len() > 0 {
        lemma_le_value_bound(s.drop_first());
        assert(pow256(s.len()) == 256 * pow256((s.len() - 1) as nat));
    }
}

proof fn lemma_u64_fits(x: nat)
    requires
        x <= u64::MAX,
    ensures
        x < pow256(8),
{
    lemma_pow256_values();
}

proof fn lemma_u32_fits(x: nat)
    requires
        x <= u32::MAX,
    ensures
        x < pow256(4),
{
    lemma_pow256_values();
}

/// Law: the bytes stored for a `TimeVal` read back as the same value.
pub proof fn lemma_time_val_round_trip(t: TimeVal)
    ensures
        time_val_bytes(t).len() == TIME_VAL_SIZE,
        le_value(time_val_bytes(t).subrange(0, 8)) == t.sec,
        le_value(time_val_bytes(t).subrange(8, 16)) == t.usec,
{
    lemma_u64_fits(t.sec as nat);
    lemma_u64_fits(t.usec as nat);
    lemma_le_round_trip(t.sec as nat, 8);
    lemma_le_round_trip(t.usec as nat, 8);
    let b = time_val_bytes(t);
    assert(b.subrange(0, 8) =~= le_bytes(t.sec as nat, 8));
    assert(b.subrange(8, 16) =~= le_bytes(t.usec as nat, 8));
}

/// Law: the bytes stored for a `Stat` read back as the same value.
pub proof fn lemma_stat_round_trip(st: Stat)
    ensures
        stat_bytes(st).len() == STAT_SIZE,
        le_value(stat_bytes(st).subrange(0, 8)) == st.ino,
        le_value(stat_bytes(st).subrange(8, 12)) == st.mode,
        le_value(stat_bytes(st).subrange(12, 16)) == st.nlink,
        le_value(stat_bytes(st).subrange(16, 24)) == st.size,
{
    lemma_u64_fits(st.ino as nat);
    lemma_u32_fits(st.mode as nat);
    lemma_u32_fits(st.nlink as nat);
    lemma_u64_fits(st.size as nat);
    lemma_le_round_trip(st.ino as nat, 8);
    lemma_le_round_trip(st.mode as nat, 4);
    lemma_le_round_trip(st.nlink as nat, 4);
    lemma_le_round_trip(st.size as nat, 8);
    let b = stat_bytes(st);
    assert(b.subrange(0, 8) =~= le_bytes(st.ino as nat, 8));
    assert(b.subrange(8, 12) =~= le_bytes(st.mode as nat, 4));
    assert(b.subrange(12, 16) =~= le_bytes(st.nlink as nat, 4));
    assert(b.subrange(16, 24) =~= le_bytes(st.size as nat, 8));
}

/// The four bytes of counter `j` are those of `c[j]`.
pub proof fn lemma_counts_bytes_at(c: Seq<u32>, j: int)
    requires
        0 <= j < c.len(),
    ensures
        counts_bytes(c).len() == 4 * c.len(),
        counts_bytes(c).subrange(4 * j, 4 * j + 4) == le_bytes(c[j] as nat, 4),
    decreases c.len(),
{
    lemma_counts_bytes_len(c);
    let rest = c.drop_last();
    lemma_counts_bytes_len(rest);
    lemma_le_bytes_len(c.last() as nat, 4);
    if j < c.len() - 1 {
        lemma_counts_bytes_at(rest, j);
        assert(counts_bytes(c).subrange(4 * j, 4 * j + 4) =~= counts_bytes(rest).subrange(4 * j, 4 * j + 4));
    } else {
        assert(counts_bytes(c).subrange(4 * j, 4 * j + 4) =~= le_bytes(c.last() as nat, 4));
    }
}

/// Law: the bytes stored for a `TaskInfo` read back as the same status
/// code, counters and time.
pub proof fn lemma_task_info_round_trip(status: TaskStatus, c: Seq<u32>, time: usize)
    requires
        c.len() == MAX_SYSCALL_NUM,
    ensures
        task_info_bytes(status, c, time).len() == TASK_INFO_SIZE,
        le_value(task_info_bytes(status, c, time).subrange(0, 4)) == status_code(status),
        forall|j: int|
            0 <= j < MAX_SYSCALL_NUM ==> #[trigger] le_value(
                task_info_bytes(status, c, time).subrange(4 + 4 * j, 8 + 4 * j),
            ) == c[j],
        le_value(task_info_bytes(status, c, time).subrange(2008, 2016)) == time,
{
    let b = task_info_bytes(status, c, time);
    let head = le_bytes(status_code(status), 4);
    let body = counts_bytes(c);
    lemma_le_bytes_len(status_code(status), 4);
    lemma_counts_bytes_len(c);
    lemma_le_bytes_len(0, 4);
    lemma_le_bytes_len(time as nat, 8);
    lemma_u32_fits(status_code(status));
    lemma_le_round_trip(status_code(status), 4);
    assert(b.subrange(0, 4) =~= head);
    lemma_u64_fits(time as nat);
    lemma_le_round_trip(time as nat, 8);
    assert(b.subrange(2008, 2016) =~= le_bytes(time as nat, 8));
    assert forall|j: int| 0 <= j < MAX_SYSCALL_NUM implies #[trigger] le_value(
        b.subrange(4 + 4 * j, 8 + 4 * j),
    ) == c[j] by {
        lemma_counts_bytes_at(c, j);
        assert(b.subrange(4 + 4 * j, 8 + 4 * j) =~= body.subrange(4 * j, 4 * j + 4));
        lemma_u32_fits(c[j] as nat);
        lemma_le_round_trip(c[j] as nat, 4);
    }
}

impl TaskInfo {
    /// The record stored in `b`, when `b` has a record's size, a known
    /// status code, and a time that fits in `usize`.
    pub fn from_bytes(b: &Vec<u8>) -> (r: Option<TaskInfo>)
        ensures
            r is Some ==> b@.len() == TASK_INFO_SIZE,
            b@.len() == TASK_INFO_SIZE && le_value(b@.subrange(0, 4)) <= 3 && le_value(b@.subrange(2008, 2016)) <= usize::MAX
                ==> r is Some,
            r matches Some(t) ==> {
                &&& status_code(t.status) == le_value(b@.subrange(0, 4))
                &&& t.syscall_times@.len() == MAX_SYSCALL_NUM
                &&& forall|j: int|
                    0 <= j < MAX_SYSCALL_NUM ==> #[trigger] t.syscall_times@[j] == le_value(
                        b@.subrange(4 + 4 * j, 8 + 4 * j),
                    )
                &&& t.time == le_value(b@.subrange(2008, 2016))
            },
    {
        if b.len() != TASK_INFO_SIZE {
            return None;
        }
        let code = read_le(b, 0, 4);
        let status = if code == 0 {
            TaskStatus::UnInit
        } else if code == 1 {
            TaskStatus::Ready
        } else if code == 2 {
            TaskStatus::Running
        } else if code == 3 {
            TaskStatus::Zombie
        } else {
            return None;
        };
        let time = read_le(b, 2008, 8);
        if time > usize::MAX as u64 {
            return None;
        }
        let mut counts: Vec<u32> = Vec::new();
        let mut j: usize = 0;
        while j < MAX_SYSCALL_NUM
            invariant
                j <= MAX_SYSCALL_NUM,
                b@.len() == TASK_INFO_SIZE,
                counts@.len() == j,
                forall|i: int|
                    0 <= i < j ==> #[trigger] counts@[i] == le_value(b@.subrange(4 + 4 * i, 8 + 4 * i)),
            decreases MAX_SYSCALL_NUM - j,
        {
            let v = read_le(b, 4 + 4 * j, 4);
            proof {
                lemma_le_value_bound(b@.subrange(4 + 4 * j, 8 + 4 * j));
                lemma_pow256_values();
            }
            counts.push(v as u32);
            j = j + 1;
        }
        Some(TaskInfo { status, syscall_times: counts, time: time as usize })
    }
}

} // verus!
