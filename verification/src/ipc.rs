//! Commands to the daemon, and where it listens for them.

use vstd::prelude::*;

verus! {

/// A command to the daemon.
#[derive(Debug, Clone, Copy, PartialEq, Eq, Structural)]
pub enum Command {
    /// Open the grid, or close whatever is open.
    ToggleGrid,
    /// Show hints, or close whatever is open.
    ToggleHints,
    /// Open the menu, or close whatever is open.
    ToggleMenu,
    /// Stop the daemon.
    Quit,
}

/// Where the socket is if there is no directory for such things.
pub const FALLBACK_DIR: &'static str = "/tmp";

/// The name of the socket.
pub const SOCKET_NAME: &'static str = "omakeys.sock";

pub const SEPARATOR: &'static str = "/";

/// A name in a directory.
pub open spec fn joined(dir: Seq<char>, name: Seq<char>) -> Seq<char> {
    if dir.len() == 0 || dir.last() == '/' {
        dir + name
    } else {
        dir + SEPARATOR@ + name
    }
}

/// The path of the socket: in the given directory for sockets of the user, or in a common one if
/// there is none.
pub fn socket_path(runtime_dir: Option<String>) -> (path: String)
    ensures
        path@ == joined(
            match runtime_dir {
                Some(dir) => dir@,
                None => FALLBACK_DIR@,
            },
            SOCKET_NAME@,
        ),
{
    let mut path: String = match runtime_dir {
        Some(dir) => dir,
        None => FALLBACK_DIR.to_owned(),
    };
    let n: usize = path.as_str().unicode_len();
    if n > 0 && path.as_str().get_char(n - 1) != '/' {
        path.append(SEPARATOR);
    }
    path.append(SOCKET_NAME);
    path
}

/// What became of a connection to the socket.
#[derive(Debug, Clone, Copy, PartialEq, Eq, Structural)]
pub enum Connection {
    /// It could not be accepted.
    Refused,
    /// Nothing could be read from it.
    Unreadable,
    /// What was read is no command.
    Malformed,
    /// A command came in.
    Received(Command),
}

/// What the listener does with a connection.
#[derive(Debug, Clone, Copy, PartialEq, Eq, Structural)]
pub enum ListenerAction {
    /// Wait for the next one.
    Next,
    /// Wait for the next one, and say that the message was not understood.
    Warn,
    /// Hand the command on, and stop if nobody takes it.
    Forward(Command),
}

/// What the listener does with a connection: one that fails is passed over.
pub fn listen(connection: Connection) -> (a: ListenerAction)
    ensures
        a == match connection {
            Connection::Refused | Connection::Unreadable => ListenerAction::Next,
            Connection::Malformed => ListenerAction::Warn,
            Connection::Received(command) => ListenerAction::Forward(command),
        },
{
    match connection {
        Connection::Refused => ListenerAction::Next,
        Connection::Unreadable => ListenerAction::Next,
        Connection::Malformed => ListenerAction::Warn,
        Connection::Received(command) => ListenerAction::Forward(command),
    }
}

/// A name in a directory is the directory, a slash, and the name, with no second slash where the
/// directory ends with one.
pub proof fn names_follow_a_slash(dir: Seq<char>, name: Seq<char>)
    ensures
        dir.len() > 0 && dir.last() != '/' ==> joined(dir, name) == dir.push('/') + name,
        dir.len() > 0 && dir.last() == '/' ==> joined(dir, name) == dir + name,
        dir.len() == 0 ==> joined(dir, name) == name,
{
    reveal_strlit("/");
    assert(SEPARATOR@ =~= seq!['/']);
    if dir.len() > 0 && dir.last() != '/' {
        assert(joined(dir, name) =~= dir.push('/') + name);
    }
    if dir.len() == 0 {
        assert(joined(dir, name) =~= name);
    }
}

} // verus!
