//! What the interactive shell does with one line the user typed, after
//! surrounding whitespace was trimmed.

use vstd::prelude::*;
use vstd::string::StringSliceAdditionalSpecFns;

verus! {

/// What the shell does with a line.
#[derive(Debug, PartialEq, Eq, Structural)]
pub enum ShellAction {
    /// An empty line: prompt again.
    Skip,
    /// `.exit` or `.quit`: leave the shell.
    Exit,
    /// `.help`: show the commands.
    Help,
    /// `.version`: show the version.
    Version,
    /// `.clear`: clear the screen.
    Clear,
    /// Anything else: report an unknown command.
    Unknown,
}

/// `.exit`
pub open spec fn dot_exit() -> Seq<u8> {
    seq![46u8, 101, 120, 105, 116]
}

/// `.quit`
pub open spec fn dot_quit() -> Seq<u8> {
    seq![46u8, 113, 117, 105, 116]
}

/// `.help`
pub open spec fn dot_help() -> Seq<u8> {
    seq![46u8, 104, 101, 108, 112]
}

/// `.version`
pub open spec fn dot_version() -> Seq<u8> {
    seq![46u8, 118, 101, 114, 115, 105, 111, 110]
}

/// `.clear`
pub open spec fn dot_clear() -> Seq<u8> {
    seq![46u8, 99, 108, 101, 97, 114]
}

/// The action for a trimmed line, given by its bytes.
pub open spec fn shell_action_of(line: Seq<u8>) -> ShellAction {
    if line.len() == 0 {
        ShellAction::Skip
    } else if line == dot_exit() || line == dot_quit() {
        ShellAction::Exit
    } else if line == dot_help() {
        ShellAction::Help
    } else if line == dot_version() {
        ShellAction::Version
    } else if line == dot_clear() {
        ShellAction::Clear
    } else {
        ShellAction::Unknown
    }
}

fn bytes_eq(a: &[u8], b: &[u8]) -> (eq: bool)
    ensures
        eq == (a@ == b@),
{
    if a.len() != b.len() {
        return false;
    }
    let mut i: usize = 0;
    while i < a.len()
        invariant
            a@.len() == b@.len(),
            0 <= i <= a@.len(),
            forall|j: int| 0 <= j < i ==> a@[j] == b@[j],
        decreases a@.len() - i,
    {
        if a[i] != b[i] {
            return false;
        }
        i = i + 1;
    }
    assert(a@ =~= b@);
    true
}

/// What the shell does with `line`, already trimmed of surrounding
/// whitespace.
pub fn shell_action(line: &str) -> (a: ShellAction)
    ensures
        a == shell_action_of(line.spec_bytes()),
{
    let b = line.as_bytes();
    if b.len() == 0 {
        return ShellAction::Skip;
    }
    let exit: [u8; 5] = [46, 101, 120, 105, 116];
    let quit: [u8; 5] = [46, 113, 117, 105, 116];
    let help: [u8; 5] = [46, 104, 101, 108, 112];
    let version: [u8; 8] = [46, 118, 101, 114, 115, 105, 111, 110];
    let clear: [u8; 6] = [46, 99, 108, 101, 97, 114];
    assert(exit@ =~= dot_exit());
    assert(quit@ =~= dot_quit());
    assert(help@ =~= dot_help());
    assert(version@ =~= dot_version());
    assert(clear@ =~= dot_clear());
    if bytes_eq(b, exit.as_slice()) || bytes_eq(b, quit.as_slice()) {
        ShellAction::Exit
    } else if bytes_eq(b, help.as_slice()) {
        ShellAction::Help
    } else if bytes_eq(b, version.as_slice()) {
        ShellAction::Version
    } else if bytes_eq(b, clear.as_slice()) {
        ShellAction::Clear
    } else {
        ShellAction::Unknown
    }
}

} // verus!
