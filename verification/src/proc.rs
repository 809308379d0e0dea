//! Process records and the process tree that is built from them.

pub mod linux_proc;

use vstd::prelude::*;

verus! {

/// A source of process trees. `get_process_tree` answers a query for the
/// subtree rooted at `pid`, or `None` when that pid was never observed.
pub trait ProcProvider {
    fn get_process_tree(self, pid: u32) -> Option<Process>;
}

/// One flat process record, as read from the per-process `stat` file.
#[derive(Debug, Clone)]
pub struct ProcessStat {
    pub pid: u32,
    pub name: String,
    pub state: char,
    /// The pid of the parent of this process.
    pub ppid: u32,
    /// The process group id of the process.
    pub pgrp: u32,
    /// The session id of the process.
    pub session: u32,
    /// The controlling terminal of the process.
    pub tty_nr: u32,
    /// The id of the foreground process group of the controlling terminal.
    pub tpgid: i32,
    /// The kernel flags word of the process.
    pub flags: u64,
    /// Minor faults not requiring a page load from disk.
    pub minflt: u64,
    /// Minor faults of waited-for children.
    pub cminflt: u64,
    /// Major faults requiring a page load from disk.
    pub majflt: u64,
    /// Major faults of waited-for children.
    pub cmajflt: u64,
    /// Time scheduled in user mode.
    pub utime: u64,
    pub cutime: u64,
    /// Time scheduled in kernel mode.
    pub stime: u64,
    pub cstime: u64,
    pub priority: u64,
    pub nice: u64,
    pub nthreads: u64,
}

impl Default for ProcessStat {
    fn default() -> (r: Self)
        ensures
            r.pid == 0,
            r.name@ == Seq::<char>::empty(),
            r.state == '\0',
            r.ppid == 0,
            r.pgrp == 0,
            r.session == 0,
            r.tty_nr == 0,
            r.tpgid == 0,
            r.flags == 0,
            r.minflt == 0,
            r.cminflt == 0,
            r.majflt == 0,
            r.cmajflt == 0,
            r.utime == 0,
            r.cutime == 0,
            r.stime == 0,
            r.cstime == 0,
            r.priority == 0,
            r.nice == 0,
            r.nthreads == 0,
    {
        ProcessStat {
            pid: 0,
            name: String::new(),
            state: '\0',
            ppid: 0,
            pgrp: 0,
            session: 0,
            tty_nr: 0,
            tpgid: 0,
            flags: 0,
            minflt: 0,
            cminflt: 0,
            majflt: 0,
            cmajflt: 0,
            utime: 0,
            cutime: 0,
            stime: 0,
            cstime: 0,
            priority: 0,
            nice: 0,
            nthreads: 0,
        }
    }
}

/// One node of the process tree: a record together with the nodes of the
/// processes whose reported parent it is.
#[derive(Debug)]
pub struct Process {
    pub name: String,
    pub stat: ProcessStat,
    pub children: Vec<Process>,
}

impl Process {
    /// The process's name.
    pub fn name(&self) -> (r: &str)
        ensures
            r@ == self.name@,
    {
        self.name.as_str()
    }

    /// The process's children.
    pub fn children(&self) -> (r: &[Process])
        ensures
            r@ == self.children@,
    {
        self.children.as_slice()
    }

    pub fn pid(&self) -> (r: u32)
        ensures
            r == self.stat.pid,
    {
        self.stat.pid
    }

    /// The pid of the process's parent.
    pub fn ppid(&self) -> (r: u32)
        ensures
            r == self.stat.ppid,
    {
        self.stat.ppid
    }

    /// Replace the process's children.
    pub fn set_children(&mut self, children: Vec<Process>)
        ensures
            final(self).children == children,
            final(self).name == old(self).name,
            final(self).stat == old(self).stat,
    {
        self.children = children;
    }
}

impl Default for Process {
    fn default() -> (r: Self)
        ensures
            r.name@ == Seq::<char>::empty(),
            r.stat.pid == 0,
            r.stat.ppid == 0,
            r.children@ == Seq::<Process>::empty(),
    {
        Process { name: String::new(), stat: ProcessStat::default(), children: Vec::new() }
    }
}

} // verus!
