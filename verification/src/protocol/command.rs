use vstd::prelude::*;

verus! {

/// The operation carried by a command.
#[derive(Debug, PartialEq, Eq)]
pub enum Op {
    Put { key: String, value: String },
    Delete { key: String },
}

/// A command submitted by a client and replicated through the Raft log.
#[derive(Debug, PartialEq, Eq)]
pub struct Command {
    pub op: Op,
}

impl Clone for Op {
    fn clone(&self) -> (res: Self)
        ensures
            res == *self,
    {
        match self {
            Op::Put { key, value } => Op::Put { key: key.clone(), value: value.clone() },
            Op::Delete { key } => Op::Delete { key: key.clone() },
        }
    }
}

impl Clone for Command {
    fn clone(&self) -> (res: Self)
        ensures
            res == *self,
    {
        Command { op: self.op.clone() }
    }
}

impl Command {
    /// A command that binds `key` to `value`.
    pub fn set(key: &str, value: &str) -> (cmd: Command)
        ensures
            cmd.op matches Op::Put { key: k, value: v } && k@ == key@ && v@ == value@,
    {
        Command { op: Op::Put { key: key.to_owned(), value: value.to_owned() } }
    }

    /// A command that removes `key`.
    pub fn delete(key: &str) -> (cmd: Command)
        ensures
            cmd.op matches Op::Delete { key: k } && k@ == key@,
    {
        Command { op: Op::Delete { key: key.to_owned() } }
    }
}

impl Default for Command {
    /// The placeholder command `set("key", "value")`.
    fn default() -> (cmd: Command)
        ensures
            cmd.op matches Op::Put { key: k, value: v } && k@ == "key"@ && v@ == "value"@,
    {
        Command::set("key", "value")
    }
}

} // verus!
