use os_core::abi::Stat;
use os_core::config::{INIT_PID, PAGE_SIZE};
use os_core::fs::{
    complete_read, install_fd, same_bytes, unlink_clears_inode, sys_close, sys_fstat, sys_linkat, sys_open, sys_read,
    sys_unlinkat, sys_write,
};
use os_core::mm::{MapPermission, Page};
use os_core::task::{Kernel, OpenFile, ProgramImage};

const DATA: usize = 0x11 * PAGE_SIZE;

fn booted() -> Kernel {
    let pages = vec![
        Page { vpn: 0x10, perm: MapPermission { r: true, w: false, x: true, u: true }, data: vec![0; PAGE_SIZE] },
        Page { vpn: 0x11, perm: MapPermission { r: true, w: true, x: false, u: true }, data: vec![0; PAGE_SIZE] },
    ];
    let mut k = Kernel::new(ProgramImage { pages, entry: 0x10 * PAGE_SIZE }).unwrap();
    assert_eq!(k.schedule(0), Some(INIT_PID));
    k
}

fn file(inode: usize) -> OpenFile {
    OpenFile { inode, readable: true, writable: true }
}

#[test]
fn write_gathers_user_bytes() {
    let mut k = booted();
    k.write_user(DATA + 5, &b"hey".to_vec()).unwrap();
    let (f, bytes) = sys_write(&k, 1, DATA + 5, 3).unwrap();
    assert!(f.writable);
    assert_eq!(bytes, b"hey".to_vec());
    assert_eq!(sys_write(&k, 0, DATA, 3), Err(-1));
    assert_eq!(sys_write(&k, 9, DATA, 3), Err(-1));
    assert_eq!(sys_write(&k, 1, 0x12 * PAGE_SIZE, 3), Err(-1));
}

#[test]
fn read_checks_descriptor_then_stores() {
    let mut k = booted();
    assert_eq!(sys_read(&k, 1, DATA, 4), Err(-1));
    let f = sys_read(&k, 0, DATA, 4).unwrap();
    assert!(f.readable);
    assert_eq!(complete_read(&mut k, DATA, 4, &b"abcd".to_vec()), 4);
    assert_eq!(k.read_user(DATA, 4).unwrap(), b"abcd".to_vec());
    assert_eq!(complete_read(&mut k, 0x12 * PAGE_SIZE, 1, &b"a".to_vec()), -1);
    assert_eq!(complete_read(&mut k, DATA, 2, &b"xyz".to_vec()), -1);
    assert_eq!(k.read_user(DATA, 4).unwrap(), b"abcd".to_vec());
}

#[test]
fn open_installs_lowest_free_descriptor() {
    let mut k = booted();
    k.write_user(DATA, &b"notes\0".to_vec()).unwrap();
    assert_eq!(sys_open(&k, DATA).unwrap(), b"notes".to_vec());
    assert_eq!(install_fd(&mut k, Some(file(7))), 3);
    assert_eq!(install_fd(&mut k, Some(file(8))), 4);
    assert_eq!(sys_close(&mut k, 3), 0);
    assert_eq!(install_fd(&mut k, Some(file(9))), 3);
    assert_eq!(k.fd_file(3), Some(file(9)));
    assert_eq!(install_fd(&mut k, None), -1);
}

#[test]
fn close_twice_fails() {
    let mut k = booted();
    assert_eq!(sys_close(&mut k, 2), 0);
    assert_eq!(sys_close(&mut k, 2), -1);
    assert_eq!(sys_close(&mut k, 100), -1);
}

#[test]
fn fstat_stores_record() {
    let mut k = booted();
    let st = Stat { ino: 5, mode: 1, nlink: 1, size: 0 };
    assert_eq!(sys_fstat(&mut k, 1, DATA + 8, st), 0);
    assert_eq!(Stat::from_bytes(&k.read_user(DATA + 8, 24).unwrap()), Some(st));
    assert_eq!(sys_fstat(&mut k, 42, DATA, st), -1);
    assert_eq!(sys_fstat(&mut k, 1, DATA + PAGE_SIZE - 4, st), -1);
}

#[test]
fn linkat_refuses_same_name() {
    let mut k = booted();
    k.write_user(DATA, &b"a\0b\0".to_vec()).unwrap();
    let (a, b) = sys_linkat(&k, DATA, DATA + 2).unwrap();
    assert_eq!((a, b), (b"a".to_vec(), b"b".to_vec()));
    assert_eq!(sys_linkat(&k, DATA, DATA), Err(-1));
    assert_eq!(sys_unlinkat(&k, DATA + 2).unwrap(), b"b".to_vec());
    assert_eq!(sys_unlinkat(&k, 0x12 * PAGE_SIZE), Err(-1));
    assert!(same_bytes(&vec![1, 2], &vec![1, 2]));
    assert!(!same_bytes(&vec![1, 2], &vec![1]));
}

#[test]
fn unlink_clears_only_the_last_link() {
    assert!(unlink_clears_inode(1));
    assert!(!unlink_clears_inode(2));
    assert!(!unlink_clears_inode(0));
}
