//! Where the records of a run go: one directory for each call of the scheduler.

use crate::model::order_item::{append_digits, digits};
use vstd::prelude::*;

verus! {

/// The observer that keeps what the scheduler was given and what it planned,
/// call by call. It names the files; writing them is left to its user.
pub struct LogDispatchCallback {
    name: String,
    iteration: usize,
}

/// The place of a file of the run `name` at the call number `iteration`:
/// `logs/<name>/<iteration>/<filename>`.
pub open spec fn log_path(name: Seq<char>, iteration: nat, filename: Seq<char>) -> Seq<char> {
    "logs"@ + seq!['/'] + name + seq!['/'] + digits(iteration) + seq!['/'] + filename
}

impl LogDispatchCallback {
    /// The name of the run.
    pub closed spec fn name(&self) -> Seq<char> {
        self.name@
    }

    /// The number of calls of the scheduler that have been recorded.
    pub closed spec fn iteration(&self) -> nat {
        self.iteration as nat
    }

    /// An observer for the run `name`, before the first call of the scheduler.
    pub fn new(name: String) -> (r: Self)
        ensures
            r.name() == name@,
            r.iteration() == 0,
    {
        LogDispatchCallback { name, iteration: 0 }
    }

    /// The path of the file `filename` for the current call of the scheduler.
    pub fn get_file(&self, filename: &str) -> (path: String)
        ensures
            path@ == log_path(self.name(), self.iteration(), filename@),
    {
        proof {
            reveal_strlit("/");
        }
        assert("/"@ =~= seq!['/']);
        let mut path = String::from_str("logs");
        path.append("/");
        path.append(self.name.as_str());
        path.append("/");
        append_digits(&mut path, self.iteration as u64);
        path.append("/");
        path.append(filename);
        assert(path@ =~= log_path(self.name(), self.iteration(), filename@));
        path
    }

    /// The path of the record of what the scheduler is given.
    pub fn dispatch_input_file(&self) -> (path: String)
        ensures
            path@ == log_path(self.name(), self.iteration(), "dispatch_input.json"@),
    {
        self.get_file("dispatch_input.json")
    }

    /// The path of the record of what the scheduler planned.
    pub fn dispatch_output_file(&self) -> (path: String)
        ensures
            path@ == log_path(self.name(), self.iteration(), "dispatch_output.json"@),
    {
        self.get_file("dispatch_output.json")
    }

    /// Goes on to the next call of the scheduler. The count stays where it
    /// is once it has reached the largest number the machine can hold.
    pub fn finish_iteration(&mut self)
        ensures
            final(self).name() == old(self).name(),
            final(self).iteration() == if old(self).iteration() < usize::MAX {
                old(self).iteration() + 1
            } else {
                old(self).iteration()
            },
    {
        if self.iteration < usize::MAX {
            self.iteration = self.iteration + 1;
        }
    }
}

impl Clone for LogDispatchCallback {
    /// The copy records under the name of the observer it was made from,
    /// with `_cloned` behind it, so that the two do not write to the same files.
    fn clone(&self) -> (r: Self)
        ensures
            r.name() == self.name() + "_cloned"@,
            r.iteration() == self.iteration(),
    {
        let mut name = self.name.clone();
        name.append("_cloned");
        LogDispatchCallback { name, iteration: self.iteration }
    }
}

} // verus!
