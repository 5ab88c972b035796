//! The interactive console's command handling: what one line of input
//! asks for. Reading lines, printing, and forwarding queries are the
//! caller's I/O; classifying the line is decided here.

use vstd::prelude::*;

use crate::query_parser::{spec_looks_like_query, QueryParser};
use crate::text::{lower, spec_trim, str_eq, to_lowercase, trim};

verus! {

/// A command for the console itself.
#[derive(Debug)]
pub enum ReplCommand {
    Quit,
    Help,
}

/// What one console line asks for: a console command, or a raw database
/// query to forward as it stands.
#[derive(Debug)]
pub enum Command {
    ReplCommand(ReplCommand),
    DBCommand(String),
}

/// The spec-level classification of a console line.
pub ghost enum CommandModel {
    Quit,
    Help,
    DB,
}

/// What a console line denotes: trimmed and lowered, `q`, `quit` and
/// `exit` quit, `h`, `?` and `help` ask for help; any other line whose
/// first character names a query kind is forwarded; the rest denote
/// nothing.
pub open spec fn spec_command_of(s: Seq<char>) -> Option<CommandModel> {
    let l = lower(spec_trim(s));
    if l == "q"@ || l == "quit"@ || l == "exit"@ {
        Some(CommandModel::Quit)
    } else if l == "h"@ || l == "?"@ || l == "help"@ {
        Some(CommandModel::Help)
    } else if spec_looks_like_query(s) {
        Some(CommandModel::DB)
    } else {
        None
    }
}

/// The built command carries what the line denotes; a forwarded query is
/// the line itself, untrimmed.
pub open spec fn spec_command_matches(c: Command, m: CommandModel, raw: Seq<char>) -> bool {
    match (c, m) {
        (Command::ReplCommand(ReplCommand::Quit), CommandModel::Quit) => true,
        (Command::ReplCommand(ReplCommand::Help), CommandModel::Help) => true,
        (Command::DBCommand(s), CommandModel::DB) => s@ == raw,
        _ => false,
    }
}

/// Classifies one console line. Fails exactly when the line denotes
/// nothing; the caller reports it and reads on.
pub fn parse_command(command: &String) -> (r: Result<Command, ()>)
    ensures
        r is Ok <==> spec_command_of(command@) is Some,
        r matches Ok(c) ==> ({
            &&& spec_command_of(command@) matches Some(m)
            &&& spec_command_matches(c, m, command@)
        }),
{
    let lowered = to_lowercase(trim(command.as_str()));
    let l = lowered.as_str();
    if str_eq(l, "q") || str_eq(l, "quit") || str_eq(l, "exit") {
        return Ok(Command::ReplCommand(ReplCommand::Quit));
    }
    if str_eq(l, "h") || str_eq(l, "?") || str_eq(l, "help") {
        return Ok(Command::ReplCommand(ReplCommand::Help));
    }
    if QueryParser::looks_like_query(command) {
        return Ok(Command::DBCommand(command.clone()));
    }
    Err(())
}

/// The console's help text, one command per line.
pub open spec fn spec_help_text() -> Seq<char> {
    "Command list:\n"@ + "\tQUIT\n"@ + "\tHELP\n"@
        + "\tCreate table: + TABLENAME (FIELDNAME TYPE)+\n"@
        + "\tSelect query: ? (FIELD_NAME)+ > TABLENAME (: (FIELD_NAME OP VALUE)+)\n"@
        + "\tInsert query: > TABLENAME (FIELD_NAME VALUE)+\n"@ + "\tDescribe database: :db\n"@
}

/// Renders the console's help text for the caller to print.
pub fn help_text() -> (r: String)
    ensures
        r@ == spec_help_text(),
{
    let mut out = String::new();
    out.append("Command list:\n");
    out.append("\tQUIT\n");
    out.append("\tHELP\n");
    out.append("\tCreate table: + TABLENAME (FIELDNAME TYPE)+\n");
    out.append("\tSelect query: ? (FIELD_NAME)+ > TABLENAME (: (FIELD_NAME OP VALUE)+)\n");
    out.append("\tInsert query: > TABLENAME (FIELD_NAME VALUE)+\n");
    out.append("\tDescribe database: :db\n");
    out
}

/// The interactive console front-end. The loop that reads lines and
/// forwards queries belongs to the caller; this type classifies its
/// input.
#[derive(Debug)]
pub struct Repl {}

impl Repl {
    /// A fresh console.
    pub fn new() -> (r: Repl) {
        Repl {  }
    }
}

} // verus!
