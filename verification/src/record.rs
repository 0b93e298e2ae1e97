use vstd::prelude::*;

verus! {

/// One scanned process: its pid, its parent's pid (0 meaning "no parent"),
/// and its name as read from the status text.
pub struct ProcessInfo {
    pub pid: u32,
    pub ppid: u32,
    pub name: String,
}

impl ProcessInfo {
    pub fn new(pid: u32, ppid: u32, name: String) -> (r: ProcessInfo)
        ensures
            r.pid == pid,
            r.ppid == ppid,
            r.name == name,
    {
        ProcessInfo { pid, ppid, name }
    }

    /// A field-for-field copy; written by hand so that the contract can say
    /// that nothing changes.
    pub fn duplicate(&self) -> (r: ProcessInfo)
        ensures
            r == *self,
    {
        ProcessInfo { pid: self.pid, ppid: self.ppid, name: self.name.clone() }
    }
}

} // verus!
