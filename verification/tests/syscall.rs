use easy_fs::syscall::{
    sys_get_time, sys_mmap, sys_munmap, sys_sbrk, sys_set_priority, sys_task_info, sys_waitpid,
    Child, Heap, MapArea, MemorySet, TaskInfo, TaskStatus, TimeVal, MAX_SYSCALL_NUM,
};

#[test]
fn time_is_split_into_seconds_and_microseconds() {
    let mut ts = TimeVal { sec: 9, usec: 9 };
    assert_eq!(sys_get_time(&mut ts, 0, 3_000_001), 0);
    assert_eq!(ts, TimeVal { sec: 3, usec: 1 });
    assert_eq!(sys_get_time(&mut ts, 0, 999_999), 0);
    assert_eq!(ts, TimeVal { sec: 0, usec: 999_999 });
    assert_eq!(sys_get_time(&mut ts, 0, 0), 0);
    assert_eq!(ts, TimeVal { sec: 0, usec: 0 });
}

#[test]
fn a_new_task_is_running_and_has_made_no_call() {
    let t = TaskInfo::new(1234);
    assert_eq!(t.status, TaskStatus::Running);
    assert_eq!(t.time, 1234);
    assert_eq!(t.syscall_times.len(), MAX_SYSCALL_NUM);
    assert!(t.syscall_times.iter().all(|&n| n == 0));
}

#[test]
fn task_info_reports_the_run_time_in_milliseconds() {
    let mut task = TaskInfo::new(5_000);
    task.syscall_times[64] = 3;
    task.syscall_times[169] = 1;
    task.status = TaskStatus::Ready;
    let mut out = TaskInfo::new(0);
    assert_eq!(sys_task_info(&mut out, &task, 1_237_999), 0);
    assert_eq!(out.status, TaskStatus::Running);
    assert_eq!(out.time, 1_232);
    assert_eq!(out.syscall_times[64], 3);
    assert_eq!(out.syscall_times[169], 1);
    assert_eq!(out.syscall_times[0], 0);
}

#[test]
fn mmap_of_nothing_succeeds_whatever_the_arguments() {
    let mut mem = MemorySet::new();
    assert_eq!(sys_mmap(&mut mem, 12345, 0, 0), 0);
    assert!(mem.areas.is_empty());
}

#[test]
fn mmap_rejects_bad_ports_and_unaligned_starts() {
    let mut mem = MemorySet::new();
    assert_eq!(sys_mmap(&mut mem, 0x1000, 4096, 0), -1);
    assert_eq!(sys_mmap(&mut mem, 0x1000, 4096, 8), -1);
    assert_eq!(sys_mmap(&mut mem, 0x1000, 4096, 9), -1);
    assert_eq!(sys_mmap(&mut mem, 0x1001, 4096, 3), -1);
    assert!(mem.areas.is_empty());
}

#[test]
fn mmap_maps_whole_pages_with_the_permissions_asked_for() {
    let mut mem = MemorySet::new();
    assert_eq!(sys_mmap(&mut mem, 0x10000, 4097, 3), 0);
    assert_eq!(mem.areas, vec![MapArea { start_vpn: 0x10, end_vpn: 0x12, perm: 16 | 2 | 4 }]);
    assert_eq!(sys_mmap(&mut mem, 0x20000, 4096, 4), 0);
    assert_eq!(mem.areas[1], MapArea { start_vpn: 0x20, end_vpn: 0x21, perm: 16 | 8 });
    assert_eq!(sys_mmap(&mut mem, 0x30000, 1, 7), 0);
    assert_eq!(mem.areas[2], MapArea { start_vpn: 0x30, end_vpn: 0x31, perm: 16 | 2 | 4 | 8 });
    assert_eq!(sys_mmap(&mut mem, 0x40000, 1, 1), 0);
    assert_eq!(mem.areas[3].perm, 16 | 2);
}

#[test]
fn mmap_rejects_a_range_that_is_mapped_already() {
    let mut mem = MemorySet::new();
    assert_eq!(sys_mmap(&mut mem, 0x10000, 0x3000, 1), 0);
    assert_eq!(sys_mmap(&mut mem, 0x12000, 0x1000, 1), -1);
    assert_eq!(sys_mmap(&mut mem, 0xf000, 0x1001, 1), -1);
    assert_eq!(sys_mmap(&mut mem, 0xe000, 0x10000, 1), -1);
    assert_eq!(mem.areas.len(), 1);
    // The neighbours are free.
    assert_eq!(sys_mmap(&mut mem, 0xf000, 0x1000, 1), 0);
    assert_eq!(sys_mmap(&mut mem, 0x13000, 0x1000, 1), 0);
    assert_eq!(mem.areas.len(), 3);
    assert!(mem.check_maparea(0x10000, 0x10001));
    assert!(!mem.check_maparea(0x14000, 0x15000));
}

#[test]
fn munmap_removes_exactly_one_mapped_range() {
    let mut mem = MemorySet::new();
    sys_mmap(&mut mem, 0x10000, 0x2000, 3);
    sys_mmap(&mut mem, 0x20000, 0x1000, 1);
    assert_eq!(sys_munmap(&mut mem, 0x10000, 0x1000), -1);
    assert_eq!(sys_munmap(&mut mem, 0x10001, 0x2000), -1);
    assert_eq!(sys_munmap(&mut mem, 0x30000, 0x1000), -1);
    assert_eq!(mem.areas.len(), 2);
    assert_eq!(sys_munmap(&mut mem, 0x10000, 0x2000), 0);
    assert_eq!(mem.areas, vec![MapArea { start_vpn: 0x20, end_vpn: 0x21, perm: 16 | 2 }]);
    assert_eq!(sys_munmap(&mut mem, 0x10000, 0x2000), -1);
    assert_eq!(sys_munmap(&mut mem, 0x20000, 0xfff), 0);
    assert!(mem.areas.is_empty());
}

fn children() -> Vec<Child> {
    vec![
        Child { pid: 3, zombie: false, exit_code: 0 },
        Child { pid: 5, zombie: true, exit_code: -7 },
        Child { pid: 8, zombie: true, exit_code: 42 },
    ]
}

#[test]
fn waitpid_without_a_child_that_is_meant_returns_minus_one() {
    let mut c = children();
    let mut code = 1;
    assert_eq!(sys_waitpid(&mut c, 4, &mut code), -1);
    assert_eq!(sys_waitpid(&mut c, -2, &mut code), -1);
    assert_eq!(c, children());
    assert_eq!(code, 1);
    let mut none: Vec<Child> = Vec::new();
    assert_eq!(sys_waitpid(&mut none, -1, &mut code), -1);
}

#[test]
fn waitpid_for_a_running_child_returns_minus_two() {
    let mut c = children();
    let mut code = 1;
    assert_eq!(sys_waitpid(&mut c, 3, &mut code), -2);
    assert_eq!(c, children());
    assert_eq!(code, 1);
}

#[test]
fn waitpid_takes_the_first_child_that_has_exited() {
    let mut c = children();
    let mut code = 1;
    assert_eq!(sys_waitpid(&mut c, -1, &mut code), 5);
    assert_eq!(code, -7);
    assert_eq!(c.len(), 2);
    assert_eq!(c[0].pid, 3);
    assert_eq!(c[1].pid, 8);
    assert_eq!(sys_waitpid(&mut c, 8, &mut code), 8);
    assert_eq!(code, 42);
    assert_eq!(c, vec![Child { pid: 3, zombie: false, exit_code: 0 }]);
    assert_eq!(sys_waitpid(&mut c, -1, &mut code), -2);
}

#[test]
fn a_priority_below_two_is_refused() {
    let mut p = 16usize;
    assert_eq!(sys_set_priority(&mut p, 1), -1);
    assert_eq!(sys_set_priority(&mut p, 0), -1);
    assert_eq!(sys_set_priority(&mut p, -5), -1);
    assert_eq!(p, 16);
    assert_eq!(sys_set_priority(&mut p, 2), 2);
    assert_eq!(p, 2);
    assert_eq!(sys_set_priority(&mut p, 1000), 1000);
    assert_eq!(p, 1000);
}

#[test]
fn sbrk_moves_the_end_of_the_heap_and_returns_where_it_was() {
    let mut heap = Heap { heap_bottom: 0x1000, program_brk: 0x1000 };
    assert_eq!(sys_sbrk(&mut heap, 0), 0x1000);
    assert_eq!(sys_sbrk(&mut heap, 0x300), 0x1000);
    assert_eq!(heap, Heap { heap_bottom: 0x1000, program_brk: 0x1300 });
    assert_eq!(sys_sbrk(&mut heap, -0x100), 0x1300);
    assert_eq!(heap.program_brk, 0x1200);
    assert_eq!(sys_sbrk(&mut heap, -0x201), -1);
    assert_eq!(heap.program_brk, 0x1200);
    assert_eq!(sys_sbrk(&mut heap, -0x200), 0x1200);
    assert_eq!(heap.program_brk, 0x1000);
}
