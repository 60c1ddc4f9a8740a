use os_core::abi::{Stat, TimeVal, TaskInfo, i32_to_bytes};
use os_core::config::PAGE_SIZE;
use os_core::mm::{MapPermission, MemorySet};
use os_core::task::TaskStatus;

fn rw() -> MapPermission {
    MapPermission { r: true, w: true, x: false, u: true }
}

#[test]
fn segments_split_at_page_boundaries() {
    let mut m = MemorySet::new_bare();
    assert!(m.insert_framed_area(4, 7, rw()));
    let segs = m.translated_byte_buffer(4 * PAGE_SIZE + 100, 2 * PAGE_SIZE).unwrap();
    assert_eq!(segs.len(), 3);
    assert_eq!((segs[0].vpn, segs[0].start, segs[0].end), (4, 100, PAGE_SIZE));
    assert_eq!((segs[1].vpn, segs[1].start, segs[1].end), (5, 0, PAGE_SIZE));
    assert_eq!((segs[2].vpn, segs[2].start, segs[2].end), (6, 0, 100));
    assert!(m.translated_byte_buffer(4 * PAGE_SIZE, 0).unwrap().is_empty());
    assert!(m.translated_byte_buffer(6 * PAGE_SIZE + 4000, 200).is_err());
}

#[test]
fn kernel_only_pages_are_not_user_memory() {
    let mut m = MemorySet::new_bare();
    assert!(m.insert_framed_area(1, 2, MapPermission { r: true, w: true, x: false, u: false }));
    assert!(m.copy_in(PAGE_SIZE, 4).is_err());
    assert!(m.copy_out(PAGE_SIZE, &vec![1]).is_err());
}

#[test]
fn bytes_round_trip_across_pages() {
    let mut m = MemorySet::new_bare();
    assert!(m.insert_framed_area(8, 10, rw()));
    let src: Vec<u8> = (0..50u8).collect();
    let at = 9 * PAGE_SIZE - 20;
    m.copy_out(at, &src).unwrap();
    assert_eq!(m.copy_in(at, 50).unwrap(), src);
    assert_eq!(m.copy_in(at - 1, 1).unwrap(), vec![0]);
    assert_eq!(m.copy_in(at + 50, 1).unwrap(), vec![0]);
}

#[test]
fn stat_round_trips_across_pages() {
    let mut m = MemorySet::new_bare();
    assert!(m.insert_framed_area(2, 4, rw()));
    let st = Stat { ino: 0x0102_0304_0506_0708, mode: 0o100644, nlink: 2, size: 12345 };
    let at = 3 * PAGE_SIZE - 5;
    m.copy_out(at, &st.to_bytes()).unwrap();
    let back = Stat::from_bytes(&m.copy_in(at, 24).unwrap()).unwrap();
    assert_eq!(back, st);
    assert!(Stat::from_bytes(&vec![0; 23]).is_none());
}

#[test]
fn time_val_layout() {
    let tv = TimeVal::from_us(1_000_001);
    assert_eq!(tv, TimeVal { sec: 1, usec: 1 });
    let b = tv.to_bytes();
    assert_eq!(b.len(), 16);
    assert_eq!(b[0], 1);
    assert_eq!(b[8], 1);
    assert_eq!(TimeVal::from_bytes(&b), Some(tv));
    assert!(TimeVal::from_bytes(&vec![0; 15]).is_none());
}

#[test]
fn task_info_round_trips_across_pages() {
    let mut m = MemorySet::new_bare();
    assert!(m.insert_framed_area(2, 4, rw()));
    let mut counts = vec![0u32; 500];
    counts[64] = 2;
    counts[410] = 1;
    let info = TaskInfo { status: TaskStatus::Running, syscall_times: counts, time: 99 };
    let at = 3 * PAGE_SIZE - 1000;
    m.copy_out(at, &info.to_bytes()).unwrap();
    let back = m.copy_in(at, 2016).unwrap();
    assert_eq!(back, info.to_bytes());
    assert_eq!(u32::from_le_bytes([back[4 + 4 * 410], back[5 + 4 * 410], back[6 + 4 * 410], back[7 + 4 * 410]]), 1);
    let decoded = TaskInfo::from_bytes(&back).unwrap();
    assert_eq!(decoded.status, TaskStatus::Running);
    assert_eq!(decoded.syscall_times, info.syscall_times);
    assert_eq!(decoded.time, 99);
    assert!(TaskInfo::from_bytes(&vec![9; 2016]).is_none());
    assert!(TaskInfo::from_bytes(&vec![0; 2015]).is_none());
}

#[test]
fn exit_code_bytes_are_little_endian() {
    assert_eq!(i32_to_bytes(7), vec![7, 0, 0, 0]);
    assert_eq!(i32_to_bytes(-1), vec![255, 255, 255, 255]);
}

#[test]
fn c_strings_cross_pages() {
    let mut m = MemorySet::new_bare();
    assert!(m.insert_framed_area(1, 3, rw()));
    let at = 2 * PAGE_SIZE - 3;
    m.copy_out(at, &b"hello\0".to_vec()).unwrap();
    assert_eq!(m.translated_str(at).unwrap(), b"hello".to_vec());
    m.copy_out(3 * PAGE_SIZE - 2, &vec![b'x', b'y']).unwrap();
    assert!(m.translated_str(3 * PAGE_SIZE - 2).is_err());
}

#[test]
fn unmap_frees_and_clone_is_deep() {
    let mut m = MemorySet::new_bare();
    assert!(m.insert_framed_area(1, 4, rw()));
    assert!(!m.insert_framed_area(3, 5, rw()));
    assert!(m.translate(4).is_none());
    m.copy_out(PAGE_SIZE, &vec![5]).unwrap();
    let c = m.clone_space();
    m.copy_out(PAGE_SIZE, &vec![6]).unwrap();
    assert_eq!(c.copy_in(PAGE_SIZE, 1).unwrap(), vec![5]);
    assert!(m.unmap_range(2, 4));
    assert!(!m.unmap_range(2, 3));
    assert!(m.translate(1).is_some());
    assert!(m.translate(2).is_none());
    m.recycle_data_pages();
    assert!(m.translate(1).is_none());
}
