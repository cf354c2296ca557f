//! The commands that the server knows, and the way from a command's name to its handler.

use super::echo::EchoCommand;
use super::get::GetCommand;
use super::info::InfoCommand;
use super::ping::PingCommand;
use super::reply::Reply;
use super::set::SetCommand;
use super::word::is_word;
use super::word::lowered;
use crate::db::Entry;
use crate::db::DB;
use crate::resp::value::views;
use crate::resp::value::SpecValue;
use crate::resp::value::Value;
use vstd::prelude::*;
use vstd::string::StringExecFns;

verus! {

/// A command, with its handler.
pub enum Command {
    Ping(PingCommand),
    Echo(EchoCommand),
    Get(GetCommand),
    SetKey(SetCommand),
    Info(InfoCommand),
}

/// Why a command is refused.
#[derive(Debug, PartialEq, Eq)]
pub enum CommandError {
    /// No command has the given name.
    InValidCommand(String),
    /// The time to live given to `SET` is not an unsigned decimal number that a `u64` holds.
    InvalidExpiry,
}

impl CommandError {
    /// The text that describes the error.
    pub open spec fn text(self) -> Seq<char> {
        match self {
            CommandError::InValidCommand(name) => "command not found: "@ + name@,
            CommandError::InvalidExpiry => "failed to parse PX option"@,
        }
    }

    /// Describes the error in words.
    pub fn to_string(&self) -> (out: String)
        ensures
            out@ == self.text(),
    {
        match self {
            CommandError::InValidCommand(name) => {
                let mut out = "command not found: ".to_owned();
                out.append(name.as_str());
                out
            },
            CommandError::InvalidExpiry => "failed to parse PX option".to_owned(),
        }
    }
}

impl Command {
    /// The command that a name stands for. The case of letters makes no difference.
    pub open spec fn named(name: Seq<char>) -> Option<Command> {
        let word = lowered(name);
        if word == "ping"@ {
            Some(Command::Ping(PingCommand))
        } else if word == "echo"@ {
            Some(Command::Echo(EchoCommand))
        } else if word == "get"@ {
            Some(Command::Get(GetCommand))
        } else if word == "set"@ {
            Some(Command::SetKey(SetCommand))
        } else if word == "info"@ {
            Some(Command::Info(InfoCommand))
        } else {
            None
        }
    }

    /// Finds the command that a name stands for.
    pub fn from_str(s: &str) -> (r: Result<Command, CommandError>)
        ensures
            match Command::named(s@) {
                Some(command) => r matches Ok(found) && found == command,
                None => r matches Err(CommandError::InValidCommand(name)) && name@ == s@,
            },
    {
        proof {
            reveal_strlit("ping");
            reveal_strlit("echo");
            reveal_strlit("get");
            reveal_strlit("set");
            reveal_strlit("info");
        }
        if is_word(s, "ping") {
            Ok(Command::Ping(PingCommand))
        } else if is_word(s, "echo") {
            Ok(Command::Echo(EchoCommand))
        } else if is_word(s, "get") {
            Ok(Command::Get(GetCommand))
        } else if is_word(s, "set") {
            Ok(Command::SetKey(SetCommand))
        } else if is_word(s, "info") {
            Ok(Command::Info(InfoCommand))
        } else {
            Err(CommandError::InValidCommand(s.to_owned()))
        }
    }

    /// The reply to the command named `cmd` with the arguments `args`, and the entries of the
    /// store afterwards, for a store `db` whose clock shows the time `now`. A name that stands
    /// for no command is answered with an error value, and the store stays as it is.
    pub open spec fn reply_spec(cmd: Seq<char>, args: Seq<SpecValue>, db: DB, now: nat) -> (
        SpecValue,
        Map<Seq<char>, Entry>,
    ) {
        match Command::named(cmd) {
            None => (SpecValue::Error("command not found: "@ + cmd), db@),
            Some(Command::Ping(handler)) => handler.reply_spec(args, db, now),
            Some(Command::Echo(handler)) => handler.reply_spec(args, db, now),
            Some(Command::Get(handler)) => handler.reply_spec(args, db, now),
            Some(Command::SetKey(handler)) => handler.reply_spec(args, db, now),
            Some(Command::Info(handler)) => handler.reply_spec(args, db, now),
        }
    }

    /// Runs the command named `cmd` with the arguments `args` on the store, and gives the
    /// reply. The reply and the entries of the store afterwards are those of `reply_spec` for
    /// the latest time read from the clock of the store, which never runs backwards; the
    /// identity of the node stays as it is.
    pub fn reply(cmd: &str, args: Vec<Value>, db: &mut DB) -> (out: Value)
        ensures
            final(db).same_node(old(db)),
            old(db).clock() <= final(db).clock(),
            (out@, final(db)@) == Command::reply_spec(
                cmd@,
                views(args@),
                *old(db),
                final(db).clock(),
            ),
    {
        match Command::from_str(cmd) {
            Err(err) => Value::Error(err.to_string()),
            Ok(command) => match command {
                Command::Ping(ping_command) => ping_command.reply(args, db),
                Command::Echo(echo_command) => echo_command.reply(args, db),
                Command::Get(get_command) => get_command.reply(args, db),
                Command::SetKey(set_command) => set_command.reply(args, db),
                Command::Info(info_command) => info_command.reply(args, db),
            },
        }
    }
}

/// A value that `SET` wrote without a time to live is what `GET` replies for the key, at
/// whatever time it is asked, and asking leaves the store as it is.
pub proof fn lemma_set_then_get(
    before: DB,
    after: DB,
    key: Seq<char>,
    value: Seq<char>,
    set_time: nat,
    get_time: nat,
)
    requires
        Command::reply_spec(
            "SET"@,
            seq![SpecValue::BulkString(key), SpecValue::BulkString(value)],
            before,
            set_time,
        ) == (SpecValue::SimpleString("OK"@), after@),
    ensures
        Command::reply_spec("GET"@, seq![SpecValue::BulkString(key)], after, get_time) == (
            SpecValue::SimpleString(value),
            after@,
        ),
{
    reveal_strlit("SET");
    reveal_strlit("GET");
    reveal_strlit("ping");
    reveal_strlit("echo");
    reveal_strlit("get");
    reveal_strlit("set");
    assert(lowered("SET"@) =~= "set"@);
    assert(lowered("GET"@) =~= "get"@);
    assert("set"@.len() == 3 && "get"@.len() == 3 && "ping"@.len() == 4 && "echo"@.len() == 4);
    assert("set"@[0] == 's' && "get"@[0] == 'g');
    assert(Command::named("SET"@) == Some(Command::SetKey(SetCommand)));
    assert(Command::named("GET"@) == Some(Command::Get(GetCommand)));
}

} // verus!
