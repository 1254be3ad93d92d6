//! The decisions of the process system calls.
//!
//! A system call reads and changes a few things of the calling task: its
//! mapped address ranges, its heap, its children, its priority, its
//! accounting. The functions here take those as values and say what the call
//! returns and what it changes; fetching them from the running task, the
//! clock and the memory of the caller is left to the kernel around them.

use vstd::prelude::*;

verus! {

/// The number of system calls that are counted.
pub const MAX_SYSCALL_NUM: usize = 500;

/// The number of bytes of a page.
pub const PAGE_SIZE: usize = 4096;

/// A page may be read.
pub const PERM_R: u8 = 2;

/// A page may be written.
pub const PERM_W: u8 = 4;

/// A page may be executed.
pub const PERM_X: u8 = 8;

/// A page may be used in user mode.
pub const PERM_U: u8 = 16;

/// A time: seconds and microseconds.
#[derive(Debug, Clone, Copy, PartialEq, Eq, Structural)]
pub struct TimeVal {
    pub sec: usize,
    pub usec: usize,
}

/// The status of a task.
#[derive(Debug, Clone, Copy, PartialEq, Eq, Structural)]
pub enum TaskStatus {
    Ready,
    Running,
    Zombie,
}

/// The accounting of a task: its status, how often it made each system call,
/// and a time, which is the time of its start while the task keeps the
/// record, and the time that it has run, in milliseconds, in a report.
#[derive(Clone, Copy)]
pub struct TaskInfo {
    pub status: TaskStatus,
    pub syscall_times: [u32; MAX_SYSCALL_NUM],
    pub time: usize,
}

/// What a task knows of a child: its pid, whether it has exited, and the code
/// that it exited with.
#[derive(Debug, Clone, Copy, PartialEq, Eq, Structural)]
pub struct Child {
    pub pid: usize,
    pub zombie: bool,
    pub exit_code: i32,
}

/// A mapped range of pages, from `start_vpn` up to but not including
/// `end_vpn`, with its permissions.
#[derive(Debug, Clone, Copy, PartialEq, Eq, Structural)]
pub struct MapArea {
    pub start_vpn: usize,
    pub end_vpn: usize,
    pub perm: u8,
}

/// The mapped ranges of a task.
pub struct MemorySet {
    pub areas: Vec<MapArea>,
}

/// The heap of a task: where it starts and where it ends now.
#[derive(Debug, Clone, Copy, PartialEq, Eq, Structural)]
pub struct Heap {
    pub heap_bottom: usize,
    pub program_brk: usize,
}

/// The page that holds address `va`.
pub open spec fn floor_vpn(va: int) -> int {
    va / 4096
}

/// The first page that begins at or after address `va`.
pub open spec fn ceil_vpn(va: int) -> int {
    (va + 4095) / 4096
}

/// Whether a child of pid `child` is meant by the argument `pid` of a wait:
/// -1 means every child.
pub open spec fn waited_for(pid: int, child: int) -> bool {
    pid == -1 || pid == child
}

/// The permissions that the three low bits of `port` ask for, for a page of
/// user mode: bit 0 for reading, bit 1 for writing, bit 2 for executing.
pub open spec fn perm_of(port: usize) -> u8 {
    (PERM_U | (if port & 1 != 0 {
        PERM_R
    } else {
        0u8
    }) | (if port & 2 != 0 {
        PERM_W
    } else {
        0u8
    }) | (if port & 4 != 0 {
        PERM_X
    } else {
        0u8
    })) as u8
}

fn page_floor(va: usize) -> (r: usize)
    ensures
        r == floor_vpn(va as int),
{
    va / PAGE_SIZE
}

fn page_ceil(va: usize) -> (r: usize)
    ensures
        r == ceil_vpn(va as int),
{
    if va % PAGE_SIZE == 0 {
        va / PAGE_SIZE
    } else {
        va / PAGE_SIZE + 1
    }
}

impl TaskInfo {
    /// The accounting of a task that starts to run at time `now_us`, in
    /// microseconds: it is running and has made no system call.
    pub fn new(now_us: usize) -> (t: TaskInfo)
        ensures
            t.status == TaskStatus::Running,
            t.time == now_us,
            forall|i: int| 0 <= i < MAX_SYSCALL_NUM ==> t.syscall_times@[i] == 0,
    {
        TaskInfo { status: TaskStatus::Running, syscall_times: [0u32; MAX_SYSCALL_NUM], time: now_us }
    }
}

impl MemorySet {
    /// Whether a mapped range has a page in common with the pages from
    /// `start_vpn` up to `end_vpn`.
    pub open spec fn overlaps(&self, start_vpn: int, end_vpn: int) -> bool {
        exists|i: int|
            0 <= i < self.areas@.len() && (#[trigger] self.areas@[i]).start_vpn < end_vpn
                && start_vpn < self.areas@[i].end_vpn
    }

    /// Range `i` is the first that is exactly the pages from `start_vpn` up
    /// to `end_vpn`.
    pub open spec fn first_exact(&self, start_vpn: int, end_vpn: int, i: int) -> bool {
        &&& 0 <= i < self.areas@.len()
        &&& self.areas@[i].start_vpn == start_vpn
        &&& self.areas@[i].end_vpn == end_vpn
        &&& forall|j: int|
            0 <= j < i ==> !((#[trigger] self.areas@[j]).start_vpn == start_vpn
                && self.areas@[j].end_vpn == end_vpn)
    }

    /// Whether a mapped range is exactly the pages from `start_vpn` up to
    /// `end_vpn`.
    pub open spec fn has_exact(&self, start_vpn: int, end_vpn: int) -> bool {
        exists|i: int|
            0 <= i < self.areas@.len() && (#[trigger] self.areas@[i]).start_vpn == start_vpn
                && self.areas@[i].end_vpn == end_vpn
    }

    /// No mapped range.
    pub fn new() -> (m: MemorySet)
        ensures
            m.areas@.len() == 0,
    {
        MemorySet { areas: Vec::new() }
    }

    /// Whether a mapped range has a page in common with the pages that the
    /// addresses from `start_va` up to `end_va` lie in.
    pub fn check_maparea(&self, start_va: usize, end_va: usize) -> (r: bool)
        ensures
            r == self.overlaps(floor_vpn(start_va as int), ceil_vpn(end_va as int)),
    {
        let start = page_floor(start_va);
        let end = page_ceil(end_va);
        let mut i: usize = 0;
        while i < self.areas.len()
            invariant
                i <= self.areas@.len(),
                start == floor_vpn(start_va as int),
                end == ceil_vpn(end_va as int),
                forall|j: int|
                    0 <= j < i ==> !((#[trigger] self.areas@[j]).start_vpn < end && start
                        < self.areas@[j].end_vpn),
            decreases self.areas@.len() - i,
        {
            if self.areas[i].start_vpn < end && start < self.areas[i].end_vpn {
                proof {
                    assert(self.areas@[i as int].start_vpn < end && start
                        < self.areas@[i as int].end_vpn);
                }
                return true;
            }
            i += 1;
        }
        false
    }

    /// Maps the pages that the addresses from `start_va` up to `end_va` lie
    /// in, with the permissions `perm`.
    pub fn add_maparea(&mut self, start_va: usize, end_va: usize, perm: u8)
        ensures
            final(self).areas@ == old(self).areas@.push(
                (MapArea {
                    start_vpn: floor_vpn(start_va as int) as usize,
                    end_vpn: ceil_vpn(end_va as int) as usize,
                    perm,
                }),
            ),
    {
        let area = MapArea { start_vpn: page_floor(start_va), end_vpn: page_ceil(end_va), perm };
        self.areas.push(area);
    }

    /// Unmaps the first mapped range that is exactly the pages that the
    /// addresses from `start_va` up to `end_va` lie in, and returns 0;
    /// returns -1, and changes nothing, where there is none.
    pub fn remove_maparea(&mut self, start_va: usize, end_va: usize) -> (r: isize)
        ensures
            r == 0 || r == -1,
            r == 0 <==> old(self).has_exact(floor_vpn(start_va as int), ceil_vpn(end_va as int)),
            r == -1 ==> final(self).areas@ == old(self).areas@,
            r == 0 ==> exists|i: int|
                #![trigger old(self).areas@.remove(i)]
                old(self).first_exact(floor_vpn(start_va as int), ceil_vpn(end_va as int), i)
                    && final(self).areas@ == old(self).areas@.remove(i),
    {
        let start = page_floor(start_va);
        let end = page_ceil(end_va);
        let mut i: usize = 0;
        while i < self.areas.len()
            invariant
                i <= self.areas@.len(),
                start == floor_vpn(start_va as int),
                end == ceil_vpn(end_va as int),
                self.areas@ == old(self).areas@,
                forall|j: int|
                    0 <= j < i ==> !((#[trigger] self.areas@[j]).start_vpn == start
                        && self.areas@[j].end_vpn == end),
            decreases self.areas@.len() - i,
        {
            if self.areas[i].start_vpn == start && self.areas[i].end_vpn == end {
                proof {
                    assert(old(self).areas@[i as int].start_vpn == start && old(
                        self,
                    ).areas@[i as int].end_vpn == end);
                    assert(old(self).first_exact(start as int, end as int, i as int));
                    assert(old(self).has_exact(start as int, end as int));
                }
                self.areas.remove(i);
                proof {
                    assert(self.areas@ == old(self).areas@.remove(i as int));
                }
                return 0;
            }
            i += 1;
        }
        -1
    }
}

/// Reports the time `now_us`, in microseconds, as seconds and microseconds.
pub fn sys_get_time(ts: &mut TimeVal, _tz: usize, now_us: usize) -> (r: isize)
    ensures
        r == 0,
        final(ts).sec == now_us / 1_000_000,
        final(ts).usec == now_us % 1_000_000,
{
    *ts = TimeVal { sec: now_us / 1_000_000, usec: now_us % 1_000_000 };
    0
}

/// Reports the accounting of the running task `task` at time `now_us`, in
/// microseconds: it is running, has made the system calls that were counted,
/// and has run for the milliseconds since its start.
pub fn sys_task_info(ti: &mut TaskInfo, task: &TaskInfo, now_us: usize) -> (r: isize)
    requires
        task.time <= now_us,
    ensures
        r == 0,
        final(ti).status == TaskStatus::Running,
        final(ti).syscall_times == task.syscall_times,
        final(ti).time == (now_us - task.time) / 1000,
{
    *ti = TaskInfo {
        status: TaskStatus::Running,
        syscall_times: task.syscall_times,
        time: (now_us - task.time) / 1000,
    };
    0
}

/// Whether the arguments of a mapping are in order: only the three low bits
/// of `port` are used and one of them is set, and `start` is the address of
/// a page.
pub open spec fn mmap_args_ok(start: usize, port: usize) -> bool {
    port & !0x7usize == 0 && port & 0x7 != 0 && start % PAGE_SIZE == 0
}

/// Maps `len` bytes from address `start` on, with the permissions that
/// `port` asks for. Returns 0 where the range was mapped, or `len` is 0 and
/// there is nothing to map; returns -1, and changes nothing, where the
/// arguments are not in order or a page of the range is mapped already.
pub fn sys_mmap(mem: &mut MemorySet, start: usize, len: usize, port: usize) -> (r: isize)
    requires
        start + len <= usize::MAX,
    ensures
        r == 0 || r == -1,
        len == 0 ==> r == 0 && final(mem).areas@ == old(mem).areas@,
        len != 0 ==> (r == 0 <==> mmap_args_ok(start, port) && !old(mem).overlaps(
            floor_vpn(start as int),
            ceil_vpn(start + len),
        )),
        r == -1 ==> final(mem).areas@ == old(mem).areas@,
        len != 0 && r == 0 ==> final(mem).areas@ == old(mem).areas@.push(
            (MapArea {
                start_vpn: floor_vpn(start as int) as usize,
                end_vpn: ceil_vpn(start + len) as usize,
                perm: perm_of(port),
            }),
        ),
{
    if len == 0 {
        return 0;
    }
    if port & !0x7 != 0 || port & 0x7 == 0 {
        return -1;
    }
    let end = start + len;
    if start % PAGE_SIZE != 0 {
        return -1;
    }
    if mem.check_maparea(start, end) {
        return -1;
    }
    let mut map_perm = PERM_U;
    if 1 & port != 0 {
        map_perm = map_perm | PERM_R;
    }
    if 2 & port != 0 {
        map_perm = map_perm | PERM_W;
    }
    if 4 & port != 0 {
        map_perm = map_perm | PERM_X;
    }
    proof {
        assert(1usize & port == port & 1usize) by (bit_vector);
        assert(2usize & port == port & 2usize) by (bit_vector);
        assert(4usize & port == port & 4usize) by (bit_vector);
        assert(16u8 | 0u8 == 16u8) by (bit_vector);
        let a: u8 = if port & 1 != 0 {
            PERM_R
        } else {
            0u8
        };
        let b: u8 = if port & 2 != 0 {
            PERM_W
        } else {
            0u8
        };
        let c: u8 = if port & 4 != 0 {
            PERM_X
        } else {
            0u8
        };
        assert(map_perm == PERM_U | a | b | c) by (bit_vector)
            requires
                (a == 0u8 || a == 2u8) && (b == 0u8 || b == 4u8) && (c == 0u8 || c == 8u8),
                map_perm == (if c == 8u8 {
                    (if b == 4u8 {
                        (if a == 2u8 {
                            16u8 | 2u8
                        } else {
                            16u8
                        }) | 4u8
                    } else {
                        (if a == 2u8 {
                            16u8 | 2u8
                        } else {
                            16u8
                        })
                    }) | 8u8
                } else {
                    (if b == 4u8 {
                        (if a == 2u8 {
                            16u8 | 2u8
                        } else {
                            16u8
                        }) | 4u8
                    } else {
                        (if a == 2u8 {
                            16u8 | 2u8
                        } else {
                            16u8
                        })
                    })
                }),
        ;
    }
    mem.add_maparea(start, end, map_perm);
    0
}

/// Unmaps the `len` bytes from address `start` on, where they are exactly one
/// mapped range. Returns 0 where the range was unmapped; returns -1, and
/// changes nothing, where `start` is not the address of a page or no mapped
/// range is exactly these pages.
pub fn sys_munmap(mem: &mut MemorySet, start: usize, len: usize) -> (r: isize)
    requires
        start + len <= usize::MAX,
    ensures
        r == 0 || r == -1,
        r == 0 <==> start % PAGE_SIZE == 0 && old(mem).has_exact(
            floor_vpn(start as int),
            ceil_vpn(start + len),
        ),
        r == -1 ==> final(mem).areas@ == old(mem).areas@,
        r == 0 ==> exists|i: int|
            #![trigger old(mem).areas@.remove(i)]
            old(mem).first_exact(floor_vpn(start as int), ceil_vpn(start + len), i)
                && final(mem).areas@ == old(mem).areas@.remove(i),
{
    let end = start + len;
    if start % PAGE_SIZE != 0 {
        return -1;
    }
    mem.remove_maparea(start, end)
}

/// Child `i` is the first child that has exited and is meant by `pid`.
pub open spec fn first_exited(children: Seq<Child>, pid: int, i: int) -> bool {
    &&& 0 <= i < children.len()
    &&& children[i].zombie
    &&& waited_for(pid, children[i].pid as int)
    &&& forall|j: int|
        0 <= j < i ==> !((#[trigger] children[j]).zombie && waited_for(pid, children[j].pid as int))
}

/// Waits for a child: `pid` is the pid of the child that is meant, or -1 for
/// any child. Returns -1 where no child is meant by `pid`. Otherwise takes
/// the first child that is meant and has exited out of `children`, reports
/// its exit code and returns its pid; returns -2, and changes nothing, where
/// none of them has exited.
pub fn sys_waitpid(children: &mut Vec<Child>, pid: isize, exit_code: &mut i32) -> (r: isize)
    requires
        forall|i: int| 0 <= i < old(children)@.len() ==> (#[trigger] old(children)@[i]).pid
            <= isize::MAX,
    ensures
        r == -1 <==> forall|i: int|
            0 <= i < old(children)@.len() ==> !waited_for(
                pid as int,
                (#[trigger] old(children)@[i]).pid as int,
            ),
        r == -2 <==> (exists|i: int|
            0 <= i < old(children)@.len() && waited_for(
                pid as int,
                (#[trigger] old(children)@[i]).pid as int,
            )) && forall|i: int|
            0 <= i < old(children)@.len() ==> !((#[trigger] old(children)@[i]).zombie
                && waited_for(pid as int, old(children)@[i].pid as int)),
        r == -1 || r == -2 ==> final(children)@ == old(children)@ && *final(exit_code) == *old(exit_code),
        r != -1 && r != -2 ==> exists|i: int|
            #![trigger old(children)@.remove(i)]
            first_exited(old(children)@, pid as int, i) && r == old(children)@[i].pid
                && *final(exit_code) == old(children)@[i].exit_code
                && final(children)@ == old(children)@.remove(i),
{
    let n = children.len();
    let mut any = false;
    let mut i: usize = 0;
    while i < n
        invariant
            i <= n,
            n == children@.len(),
            children@ == old(children)@,
            forall|x: int| 0 <= x < children@.len() ==> (#[trigger] children@[x]).pid <= isize::MAX,
            any <==> exists|j: int|
                0 <= j < i && waited_for(pid as int, (#[trigger] children@[j]).pid as int),
        decreases n - i,
    {
        if pid == -1 || (pid >= 0 && pid as usize == children[i].pid) {
            any = true;
            proof {
                assert(waited_for(pid as int, children@[i as int].pid as int));
            }
        } else {
            proof {
                assert(!waited_for(pid as int, children@[i as int].pid as int));
            }
        }
        i += 1;
    }
    if !any {
        return -1;
    }
    proof {
        let j = choose|j: int|
            0 <= j < n && waited_for(pid as int, (#[trigger] children@[j]).pid as int);
        assert(waited_for(pid as int, old(children)@[j].pid as int));
    }
    let mut k: usize = 0;
    while k < n
        invariant
            k <= n,
            n == children@.len(),
            children@ == old(children)@,
            *exit_code == *old(exit_code),
            forall|x: int| 0 <= x < children@.len() ==> (#[trigger] children@[x]).pid <= isize::MAX,
            exists|j: int|
                0 <= j < n && waited_for(pid as int, (#[trigger] old(children)@[j]).pid as int),
            forall|j: int|
                0 <= j < k ==> !((#[trigger] children@[j]).zombie && waited_for(
                    pid as int,
                    children@[j].pid as int,
                )),
        decreases n - k,
    {
        if children[k].zombie && (pid == -1 || (pid >= 0 && pid as usize == children[k].pid)) {
            proof {
                assert(old(children)@[k as int].zombie && waited_for(
                    pid as int,
                    old(children)@[k as int].pid as int,
                ));
                assert(first_exited(old(children)@, pid as int, k as int));
            }
            let child = children.remove(k);
            *exit_code = child.exit_code;
            proof {
                assert(children@ == old(children)@.remove(k as int));
                assert(child == old(children)@[k as int]);
            }
            return child.pid as isize;
        }
        k += 1;
    }
    -2
}

/// Sets the priority of a task to `prio` and returns it; returns -1, and
/// changes nothing, where `prio` is less than 2.
pub fn sys_set_priority(priority: &mut usize, prio: isize) -> (r: isize)
    ensures
        prio < 2 ==> r == -1 && *final(priority) == *old(priority),
        prio >= 2 ==> r == prio && *final(priority) == prio,
{
    if prio < 2 {
        return -1;
    }
    *priority = prio as usize;
    prio
}

/// Moves the end of the heap by `size` bytes and returns where it was;
/// returns -1, and changes nothing, where the end would come to lie before
/// the start of the heap.
pub fn sys_sbrk(heap: &mut Heap, size: i32) -> (r: isize)
    requires
        old(heap).heap_bottom <= old(heap).program_brk <= isize::MAX,
        old(heap).program_brk + size <= isize::MAX,
    ensures
        old(heap).program_brk + size < old(heap).heap_bottom ==> r == -1 && *final(heap) == *old(heap),
        old(heap).program_brk + size >= old(heap).heap_bottom ==> r == old(heap).program_brk
            && final(heap).program_brk == old(heap).program_brk + size && final(heap).heap_bottom
            == old(heap).heap_bottom,
{
    let old_brk = heap.program_brk;
    let new_brk = old_brk as isize + size as isize;
    if new_brk < heap.heap_bottom as isize {
        return -1;
    }
    heap.program_brk = new_brk as usize;
    old_brk as isize
}

} // verus!
