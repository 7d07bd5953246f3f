//! A request whose name is no command of this server.

use vstd::prelude::*;

verus! {

/// A request with the name `command_name`, which no command has.
#[derive(Debug, PartialEq)]
pub struct Unknown {
    command_name: String,
}

impl View for Unknown {
    type V = Seq<char>;

    /// The name as it was sent.
    closed spec fn view(&self) -> Seq<char> {
        self.command_name@
    }
}

impl Unknown {
    pub fn new(command_name: String) -> (cmd: Unknown)
        ensures
            cmd@ == command_name@,
    {
        Unknown { command_name }
    }

    pub fn get_name(&self) -> (name: &str)
        ensures
            name@ == self@,
    {
        self.command_name.as_str()
    }
}

} // verus!
