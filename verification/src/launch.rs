//! The shape of a launch configuration: named commands with arguments,
//! and the substitutable argument defaults they draw on.

use vstd::prelude::*;

verus! {

/// One command to run: a display name, the executable, and its arguments.
#[derive(Clone, Debug)]
pub struct Cmd {
    pub name: String,
    pub command: String,
    pub args: Vec<String>,
}

/// A substitutable launch argument and its default value.
#[derive(Clone, Debug)]
pub struct Arg {
    pub name: String,
    pub default: String,
}

/// A whole launch: the declared arguments and the commands to run.
#[derive(Clone, Debug)]
pub struct Launch {
    pub arg: Vec<Arg>,
    pub cmd: Vec<Cmd>,
}

} // verus!
