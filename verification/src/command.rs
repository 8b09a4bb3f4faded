//! What the service is asked to do on its command line.
use crate::text;
use vstd::prelude::*;
use vstd::string::*;

verus! {

/// Configuration file where none is named.
pub const DEFAULT_CONFIG: &'static str = "/etc/house-automation/config.toml";

/// State database where none is named.
pub const DEFAULT_STATE: &'static str = "/var/lib/house-automation/state.sqlite3";

#[derive(Debug, PartialEq, Eq)]
pub enum Command {
    Run { config: String, state: String },
    Backup { database: String, destination: String },
}

/// The arguments ask for nothing that is known.
#[derive(Debug, Clone, Copy, PartialEq, Eq)]
pub struct UsageError;

impl UsageError {
    pub fn message(self) -> (text: &'static str)
        ensures
            text@
                == "usage: house-automationd [--config <config.toml> --state <state.sqlite3>]\n       house-automationd backup --database <state.sqlite3> --destination <backup.sqlite3>"@,
    {
        "usage: house-automationd [--config <config.toml> --state <state.sqlite3>]\n       house-automationd backup --database <state.sqlite3> --destination <backup.sqlite3>"
    }
}

/// A command with its texts by characters.
pub enum Asked {
    Run { config: Seq<char>, state: Seq<char> },
    Backup { database: Seq<char>, destination: Seq<char> },
}

impl Command {
    pub open spec fn view(&self) -> Asked {
        match *self {
            Command::Run { config, state } => Asked::Run { config: config@, state: state@ },
            Command::Backup { database, destination } => Asked::Backup {
                database: database@,
                destination: destination@,
            },
        }
    }
}

/// What the arguments ask for.
pub open spec fn asked(arguments: Seq<Seq<char>>) -> Option<Asked> {
    if arguments.len() == 0 {
        Some(Asked::Run { config: DEFAULT_CONFIG@, state: DEFAULT_STATE@ })
    } else if arguments.len() == 4 && arguments[0] == "--config"@ && arguments[2] == "--state"@ {
        Some(Asked::Run { config: arguments[1], state: arguments[3] })
    } else if arguments.len() == 5 && arguments[0] == "backup"@ && arguments[1] == "--database"@
        && arguments[3] == "--destination"@ {
        Some(Asked::Backup { database: arguments[2], destination: arguments[4] })
    } else {
        None
    }
}

pub fn parse_arguments(arguments: Vec<String>) -> (result: Result<Command, UsageError>)
    ensures
        match asked(text::views(arguments@)) {
            Some(command) => result matches Ok(found) && found@ == command,
            None => result is Err,
        },
{
    let ghost views = text::views(arguments@);
    if arguments.len() == 0 {
        return Ok(
            Command::Run {
                config: String::from_str(DEFAULT_CONFIG),
                state: String::from_str(DEFAULT_STATE),
            },
        );
    }
    if arguments.len() == 4 {
        assert(views[0] == arguments@[0]@ && views[1] == arguments@[1]@);
        assert(views[2] == arguments@[2]@ && views[3] == arguments@[3]@);
        if text::text_equals(arguments[0].as_str(), "--config") && text::text_equals(
            arguments[2].as_str(),
            "--state",
        ) {
            return Ok(
                Command::Run { config: arguments[1].clone(), state: arguments[3].clone() },
            );
        }
    }
    if arguments.len() == 5 {
        assert(views[0] == arguments@[0]@ && views[1] == arguments@[1]@);
        assert(views[2] == arguments@[2]@ && views[3] == arguments@[3]@);
        assert(views[4] == arguments@[4]@);
        if text::text_equals(arguments[0].as_str(), "backup") && text::text_equals(
            arguments[1].as_str(),
            "--database",
        ) && text::text_equals(arguments[3].as_str(), "--destination") {
            return Ok(
                Command::Backup {
                    database: arguments[2].clone(),
                    destination: arguments[4].clone(),
                },
            );
        }
    }
    Err(UsageError)
}

} // verus!
