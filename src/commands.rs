//! The commands that the explorer carries out, and the checks made on a
//! command's arguments.
use crate::grammar::{parse_table_query, table_query_spec, TableIdQuery};
use vstd::prelude::*;
use vstd::string::*;
use vstd::utf8::encode_utf8;

verus! {

#[derive(Debug, Clone, PartialEq, Eq)]
pub enum Command {
    Refresh,
    FulltextSearch(String),
    DescribeTable { query: TableIdQuery, etl_config: bool, raw: bool },
}

#[derive(Debug, Clone, PartialEq, Eq)]
pub struct ExplorerCommand {
    pub command: Command,
    pub verbose: bool,
}

/// Why a command's arguments were refused.
#[derive(Debug, Clone, PartialEq, Eq)]
pub enum CommandError {
    /// The text is not a table id.
    InvalidTableId(String),
    /// A table is described by its full code, prefix included.
    PrefixRequired,
}

/// Makes the command that describes a table from its id text; the text must
/// read as a table id query, and name a prefix.
pub fn describe_command(text: &str, etl_config: bool, raw: bool, verbose: bool) -> (r: Result<
    ExplorerCommand,
    CommandError,
>)
    ensures
        table_query_spec(encode_utf8(text@)) is Err ==> (r matches Err(CommandError::InvalidTableId(t))
            && t@ == text@),
        table_query_spec(encode_utf8(text@)) matches Ok((q, _)) ==> (q.prefix is None ==> r
            == Err::<ExplorerCommand, CommandError>(CommandError::PrefixRequired)) && (
        q.prefix is Some ==> (r matches Ok(c) && c.verbose == verbose && (c.command matches Command::DescribeTable { query, etl_config: e, raw: w } && query@ == q && e == etl_config && w == raw))),
{
    let query = match parse_table_query(text.as_bytes()) {
        Ok((_, q)) => q,
        Err(_) => {
            return Err(CommandError::InvalidTableId(String::from_str(text)));
        },
    };
    if query.prefix.is_none() {
        return Err(CommandError::PrefixRequired);
    }
    Ok(ExplorerCommand { command: Command::DescribeTable { query, etl_config, raw }, verbose })
}

} // verus!
