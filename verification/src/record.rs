//! One observed process: its command name, its id and the id of its parent.

use vstd::prelude::*;

verus! {

/// The mathematical value of a [`ProcessRecord`].
pub struct RecordView {
    pub name: Seq<char>,
    pub pid: i32,
    pub ppid: i32,
}

/// One observed process. A record exists only when all three fields were read.
#[derive(Debug)]
pub struct ProcessRecord {
    pub name: String,
    pub pid: i32,
    pub ppid: i32,
}

impl View for ProcessRecord {
    type V = RecordView;

    open spec fn view(&self) -> RecordView {
        RecordView { name: self.name@, pid: self.pid, ppid: self.ppid }
    }
}

impl DeepView for ProcessRecord {
    type V = RecordView;

    open spec fn deep_view(&self) -> RecordView {
        self@
    }
}

impl Clone for ProcessRecord {
    fn clone(&self) -> (copy: Self)
        ensures
            copy@ == self@,
    {
        ProcessRecord { name: self.name.clone(), pid: self.pid, ppid: self.ppid }
    }
}

} // verus!
