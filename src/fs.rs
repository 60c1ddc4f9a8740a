//! Syscalls on the descriptor table. The filesystem itself is outside the
//! kernel core: these functions check descriptors and user buffers, hand
//! the filesystem the bytes and paths it needs, and take its answers back.
use vstd::prelude::*;
use crate::abi::{stat_bytes, Stat};
use crate::mm::{accessible, byte_of, c_string_at, no_c_string_at, written};
use crate::task::{same_but_fds, same_but_space, Kernel, OpenFile};

verus! {

/// Descriptor `fd` of the Running task is open.
pub open spec fn fd_open(k: Kernel, fd: usize) -> bool {
    fd < k.cur().fd_table@.len() && k.cur().fd_table@[fd as int] is Some
}

pub open spec fn fd_entry(k: Kernel, fd: usize) -> OpenFile {
    k.cur().fd_table@[fd as int]->Some_0
}

/// The zero-terminated path at user address `ptr`, without its terminator;
/// -1 when no such string lies in user pages.
pub fn translated_path(k: &Kernel, ptr: usize) -> (r: Result<Vec<u8>, isize>)
    requires
        k.wf(),
        k.current is Some,
    ensures
        r matches Ok(s) ==> c_string_at(k.cur_space(), ptr as int, s@),
        r matches Err(e) ==> e == -1 && no_c_string_at(k.cur_space(), ptr as int),
{
    match k.read_user_str(ptr) {
        Ok(s) => Ok(s),
        Err(_) => Err(-1),
    }
}

/// Checks a write of `len` bytes from user address `buf` to descriptor
/// `fd` and gathers the bytes. Gives the open file and the bytes to hand
/// to it, or -1 when `fd` is not open for writing or the buffer is not in
/// user pages.
pub fn sys_write(k: &Kernel, fd: usize, buf: usize, len: usize) -> (r: Result<(OpenFile, Vec<u8>), isize>)
    requires
        k.wf(),
        k.current is Some,
    ensures
        r is Ok <==> fd_open(*k, fd) && fd_entry(*k, fd).writable && accessible(
            k.cur_space(),
            buf as int,
            len as int,
        ),
        r matches Err(e) ==> e == -1,
        r matches Ok((f, bytes)) ==> f == fd_entry(*k, fd) && bytes@.len() == len && forall|i: int|
            0 <= i < len ==> #[trigger] bytes@[i] == byte_of(k.cur_space(), buf + i),
{
    let file = match k.fd_file(fd) {
        Some(f) => f,
        None => {
            return Err(-1);
        },
    };
    if !file.writable {
        return Err(-1);
    }
    match k.read_user(buf, len) {
        Ok(bytes) => Ok((file, bytes)),
        Err(_) => Err(-1),
    }
}

/// Checks a read into `len` bytes at user address `buf` from descriptor
/// `fd`. Gives the open file to read from, or -1 when `fd` is not open for
/// reading or the buffer is not in user pages.
pub fn sys_read(k: &Kernel, fd: usize, buf: usize, len: usize) -> (r: Result<OpenFile, isize>)
    requires
        k.wf(),
        k.current is Some,
    ensures
        r is Ok <==> fd_open(*k, fd) && fd_entry(*k, fd).readable && accessible(
            k.cur_space(),
            buf as int,
            len as int,
        ),
        r matches Err(e) ==> e == -1,
        r matches Ok(f) ==> f == fd_entry(*k, fd),
{
    let file = match k.fd_file(fd) {
        Some(f) => f,
        None => {
            return Err(-1);
        },
    };
    if !file.readable {
        return Err(-1);
    }
    match k.read_user(buf, len) {
        Ok(_) => Ok(file),
        Err(_) => Err(-1),
    }
}

/// Stores the bytes a file read produced at user address `buf`, where the
/// caller asked for `len` bytes; returns their count, or -1, with nothing
/// stored, when the file handed back more than `len` bytes or the buffer
/// cannot take them.
pub fn complete_read(k: &mut Kernel, buf: usize, len: usize, data: &Vec<u8>) -> (r: isize)
    requires
        old(k).wf(),
        old(k).current is Some,
        data@.len() <= isize::MAX,
    ensures
        final(k).wf(),
        final(k).only_current_changed(old(k)),
        same_but_space(old(k).cur(), final(k).cur()),
        (r == -1) <==> data@.len() > len || !accessible(old(k).cur_space(), buf as int, data@.len() as int),
        r != -1 ==> r == data@.len() && written(old(k).cur_space(), final(k).cur_space(), buf as int, data@),
        r == -1 ==> final(k).tasks@ == old(k).tasks@,
{
    if data.len() > len {
        return -1;
    }
    match k.write_user(buf, data) {
        Ok(()) => data.len() as isize,
        Err(_) => -1,
    }
}

/// Reads the path of an `open` at user address `path`. Gives the path for
/// the filesystem, or -1 when no string lies there.
pub fn sys_open(k: &Kernel, path: usize) -> (r: Result<Vec<u8>, isize>)
    requires
        k.wf(),
        k.current is Some,
    ensures
        r matches Ok(s) ==> c_string_at(k.cur_space(), path as int, s@),
        r matches Err(e) ==> e == -1 && no_c_string_at(k.cur_space(), path as int),
{
    translated_path(k, path)
}

/// Takes the filesystem's answer to an `open`: installs the file in the
/// lowest free descriptor and returns it, or returns -1 when the file could
/// not be opened.
pub fn install_fd(k: &mut Kernel, file: Option<OpenFile>) -> (r: isize)
    requires
        old(k).wf(),
        old(k).current is Some,
        old(k).cur().fd_table@.len() < isize::MAX,
    ensures
        final(k).wf(),
        final(k).only_current_changed(old(k)),
        same_but_fds(old(k).cur(), final(k).cur()),
        (r == -1) <==> file is None,
        file is None ==> final(k).tasks@ == old(k).tasks@,
        file matches Some(f) ==> final(k).cur().fd_table@ == if r < old(k).cur().fd_table@.len() {
            old(k).cur().fd_table@.update(r as int, Some(f))
        } else {
            old(k).cur().fd_table@.push(Some(f))
        },
        file matches Some(f) ==> r >= 0 && r <= old(k).cur().fd_table@.len() && fd_open(*final(k), r as usize) && fd_entry(*final(k), r as usize) == f
            && (r < old(k).cur().fd_table@.len() ==> !fd_open(*old(k), r as usize))
            && forall|i: int| 0 <= i < r ==> fd_open(*old(k), #[trigger] (i as usize)),
{
    match file {
        Some(f) => {
            let fd = k.alloc_fd(f);
            proof {
                assert forall|i: int| 0 <= i < fd implies fd_open(*old(k), #[trigger] (i as usize)) by {
                    assert(old(k).cur().fd_table@[i] is Some);
                }
            }
            fd as isize
        },
        None => -1,
    }
}

/// Closes descriptor `fd`: 0, or -1 with nothing changed when it is out of
/// range or not open.
pub fn sys_close(k: &mut Kernel, fd: usize) -> (r: isize)
    requires
        old(k).wf(),
        old(k).current is Some,
    ensures
        final(k).wf(),
        final(k).only_current_changed(old(k)),
        same_but_fds(old(k).cur(), final(k).cur()),
        r == 0 || r == -1,
        (r == 0) <==> fd_open(*old(k), fd),
        r == 0 ==> final(k).cur().fd_table@ == old(k).cur().fd_table@.update(fd as int, None),
        r == -1 ==> final(k).tasks@ == old(k).tasks@,
{
    if k.close_fd(fd) {
        0
    } else {
        -1
    }
}

/// Stores `stat`, the filesystem's status of the file behind `fd`, at user
/// address `st`. Returns 0, or -1 with nothing changed when `fd` is not
/// open or `st` cannot take the record.
pub fn sys_fstat(k: &mut Kernel, fd: usize, st: usize, stat: Stat) -> (r: isize)
    requires
        old(k).wf(),
        old(k).current is Some,
    ensures
        final(k).wf(),
        final(k).only_current_changed(old(k)),
        r == 0 || r == -1,
        (r == 0) <==> fd_open(*old(k), fd) && accessible(old(k).cur_space(), st as int, crate::abi::STAT_SIZE as int),
        same_but_space(old(k).cur(), final(k).cur()),
        r == 0 ==> written(old(k).cur_space(), final(k).cur_space(), st as int, stat_bytes(stat)),
        r == -1 ==> final(k).tasks@ == old(k).tasks@,
{
    if k.fd_file(fd).is_none() {
        return -1;
    }
    let bytes = stat.to_bytes();
    proof {
        crate::abi::lemma_stat_round_trip(stat);
    }
    match k.write_user(st, &bytes) {
        Ok(()) => 0,
        Err(_) => -1,
    }
}

/// Reads the two paths of a `linkat`. Gives them for the filesystem, or -1
/// when either is not a string in user pages or both are the same.
pub fn sys_linkat(k: &Kernel, old_name: usize, new_name: usize) -> (r: Result<(Vec<u8>, Vec<u8>), isize>)
    requires
        k.wf(),
        k.current is Some,
    ensures
        r matches Ok((a, b)) ==> c_string_at(k.cur_space(), old_name as int, a@) && c_string_at(
            k.cur_space(),
            new_name as int,
            b@,
        ) && a@ != b@,
        r matches Err(e) ==> e == -1,
        r is Err ==> no_c_string_at(k.cur_space(), old_name as int) || no_c_string_at(
            k.cur_space(),
            new_name as int,
        ) || exists|s: Seq<u8>|
            c_string_at(k.cur_space(), old_name as int, s) && #[trigger] c_string_at(
                k.cur_space(),
                new_name as int,
                s,
            ),
{
    let old_path = match translated_path(k, old_name) {
        Ok(p) => p,
        Err(e) => {
            return Err(e);
        },
    };
    let new_path = match translated_path(k, new_name) {
        Ok(p) => p,
        Err(e) => {
            return Err(e);
        },
    };
    if same_bytes(&old_path, &new_path) {
        assert(c_string_at(k.cur_space(), new_name as int, old_path@));
        return Err(-1);
    }
    Ok((old_path, new_path))
}

/// Reads the path of an `unlinkat`; -1 when it is not a string in user
/// pages.
pub fn sys_unlinkat(k: &Kernel, name: usize) -> (r: Result<Vec<u8>, isize>)
    requires
        k.wf(),
        k.current is Some,
    ensures
        r matches Ok(s) ==> c_string_at(k.cur_space(), name as int, s@),
        r matches Err(e) ==> e == -1 && no_c_string_at(k.cur_space(), name as int),
{
    translated_path(k, name)
}

/// Whether `a` and `b` hold the same bytes.
pub fn same_bytes(a: &Vec<u8>, b: &Vec<u8>) -> (r: bool)
    ensures
        r == (a@ == b@),
{
    if a.len() != b.len() {
        return false;
    }
    let mut i: usize = 0;
    while i < a.len()
        invariant
            i <= a@.len(),
            a@.len() == b@.len(),
            forall|j: int| 0 <= j < i ==> a@[j] == b@[j],
        decreases a@.len() - i,
    {
        if a[i] != b[i] {
            return false;
        }
        i = i + 1;
    }
    assert(a@ =~= b@);
    true
}

/// Whether removing a name whose inode has `links` links leaves the inode
/// without names, so that its data must be cleared.
pub fn unlink_clears_inode(links: u32) -> (r: bool)
    ensures
        r == (links == 1),
{
    links == 1
}

} // verus!
