//! Builders for the developer commands the task runner invokes: `make` and
//! `gdb` invocations, assembled as plain data. Spawning the resulting
//! processes is the binary's business, not the library's.

use vstd::prelude::*;

verus! {

/// A `make` invocation: a target, an optional working directory, and
/// `NAME=VALUE` variable assignments.
#[derive(Debug)]
pub struct Make {
    pub target: String,
    pub directory: Option<String>,
    pub variables: Vec<(String, String)>,
}

/// Starts building a `make` command for the given target.
pub fn make(target: String) -> (m: Make)
    ensures
        m.target@ == target@,
        m.directory is None,
        m.variables@.len() == 0,
{
    Make { target, directory: None, variables: Vec::new() }
}

impl Make {
    /// Runs `make` in `directory` (the `-C` flag).
    pub fn directory(&mut self, directory: String)
        ensures
            final(self).target == old(self).target,
            final(self).directory == Some(directory),
            final(self).variables == old(self).variables,
    {
        self.directory = Some(directory);
    }

    /// Passes `name=value` on the `make` command line.
    pub fn variable(&mut self, name: String, value: String)
        ensures
            final(self).target == old(self).target,
            final(self).directory == old(self).directory,
            final(self).variables@ == old(self).variables@.push((name, value)),
    {
        self.variables.push((name, value));
    }
}

/// A `gdb` invocation: flags followed by the binary to debug.
#[derive(Debug)]
pub struct Gdb {
    pub binary: String,
    pub args: Vec<String>,
}

/// Starts building a `gdb` command for the given binary.
pub fn gdb(binary: String) -> (g: Gdb)
    ensures
        g.binary@ == binary@,
        g.args@.len() == 0,
{
    Gdb { binary, args: Vec::new() }
}

impl Gdb {
    /// Passes one flag ahead of the binary.
    pub fn arg(&mut self, arg: String)
        ensures
            final(self).binary == old(self).binary,
            final(self).args@ == old(self).args@.push(arg),
    {
        self.args.push(arg);
    }
}

} // verus!
