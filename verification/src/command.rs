//! Commands of the system: what is asked, what comes back, and what a reply
//! means.

use vstd::prelude::*;
use vstd::string::StringExecFns;

use crate::order::views;
use crate::text::{chars_of, from_utf8_lossy, lossy_text, string_of, trim, trimmed};

verus! {

/// What a finished command left behind.
pub struct CommandOutput {
    pub success: bool,
    pub status: String,
    pub stdout: Vec<u8>,
    pub stderr: Vec<u8>,
}

/// A command: the program, its arguments, and whether it runs as root.
#[verifier::ext_equal]
pub struct CommandView {
    pub program: Seq<char>,
    pub args: Seq<Seq<char>>,
    pub requires_root: bool,
}

/// What can come back of a command.
pub enum ReplyView {
    /// It ran to its end.
    Finished { success: bool, status: Seq<char>, stdout: Seq<u8>, stderr: Seq<u8> },
    /// It could not be run, for this reason.
    Failed { reason: Seq<char> },
}

/// What came back of a command.
pub open spec fn reply_view(reply: Result<CommandOutput, String>) -> ReplyView {
    match reply {
        Ok(output) => ReplyView::Finished {
            success: output.success,
            status: output.status@,
            stdout: output.stdout@,
            stderr: output.stderr@,
        },
        Err(reason) => ReplyView::Failed { reason: reason@ },
    }
}

/// Something that runs commands.
pub trait CommandRunner {
    /// Whether this runner can answer `command` with `reply`. A runner that does not
    /// say so can give any reply.
    open spec fn may_reply(&self, command: CommandView, reply: ReplyView) -> bool {
        true
    }

    /// Whether this runner may be handed `command`. One that does not say so may be
    /// handed any. Whoever is handed a runner can run the commands that they know it
    /// to allow, and no others.
    open spec fn may_run(&self, command: CommandView) -> bool {
        true
    }

    /// Runs a command.
    fn run(&self, program: &str, args: &[String], requires_root: bool) -> (reply: Result<CommandOutput, String>)
        requires
            self.may_run(CommandView { program: program@, args: views(args@), requires_root }),
        ensures
            self.may_reply(
                CommandView { program: program@, args: views(args@), requires_root },
                reply_view(reply),
            ),
    ;
}

/// A command that only asks, and needs no rights.
pub struct Query {
    pub program: &'static str,
    pub args: Vec<String>,
}

impl View for Query {
    type V = CommandView;

    open spec fn view(&self) -> CommandView {
        CommandView { program: self.program@, args: views(self.args@), requires_root: false }
    }
}

/// The query of `program` with `args`.
pub open spec fn query_view(program: Seq<char>, args: Seq<Seq<char>>) -> CommandView {
    CommandView { program, args, requires_root: false }
}

impl Query {
    /// A query without arguments.
    pub fn new(program: &'static str) -> (query: Query)
        ensures
            query@ == query_view(program@, Seq::empty()),
    {
        let query = Query { program, args: Vec::new() };
        assert(views(query.args@) =~= Seq::empty());
        query
    }

    /// The query with one more argument.
    pub fn arg(self, value: &str) -> (query: Query)
        ensures
            query@ == query_view(self@.program, self@.args.push(value@)),
    {
        let mut args = self.args;
        let ghost before = views(args@);
        args.push(value.to_owned());
        assert(views(args@) =~= before.push(value@));
        Query { program: self.program, args }
    }

    /// Hands the query to `runner`.
    pub fn ask<R: CommandRunner>(&self, runner: &R) -> (reply: Result<CommandOutput, String>)
        requires
            runner.may_run(self@),
        ensures
            runner.may_reply(self@, reply_view(reply)),
    {
        runner.run(self.program, self.args.as_slice(), false)
    }
}

/// The words with a space between any two.
pub open spec fn spaced(words: Seq<Seq<char>>) -> Seq<char>
    decreases words.len(),
{
    if words.len() == 0 {
        Seq::empty()
    } else if words.len() == 1 {
        words[0]
    } else {
        spaced(words.drop_last()) + " "@ + words.last()
    }
}

fn space_out(words: &Vec<String>) -> (text: String)
    ensures
        text@ == spaced(views(words@)),
{
    let mut text = String::new();
    let ghost all = views(words@);
    assert(text@ =~= spaced(all.take(0)));
    for i in 0..words.len()
        invariant
            all == views(words@),
            text@ == spaced(all.take(i as int)),
    {
        let ghost upto = all.take(i + 1);
        assert(upto.drop_last() =~= all.take(i as int));
        assert(upto.last() == words@[i as int]@);
        let ghost before = text@;
        if i > 0 {
            text.append(" ");
        }
        text.append(words[i].as_str());
        assert(text@ =~= spaced(upto));
    }
    assert(all.take(all.len() as int) =~= all);
    text
}

/// The complaint about a command that ran and failed.
pub open spec fn failure_text(command: CommandView, status: Seq<char>, stderr: Seq<u8>) -> Seq<char> {
    command.program + " "@ + spaced(command.args) + " exited with "@ + status + ": "@ + trimmed(
        lossy_text(stderr),
    )
}

/// What a reply means: what the command printed, where it succeeded, else why it
/// did not.
pub open spec fn outcome_of(command: CommandView, reply: ReplyView) -> Result<Seq<char>, Seq<char>> {
    match reply {
        ReplyView::Failed { reason } => Err(reason),
        ReplyView::Finished { success, status, stdout, stderr } => if success {
            Ok(lossy_text(stdout))
        } else {
            Err(failure_text(command, status, stderr))
        },
    }
}

/// A result of texts, as what these say.
pub open spec fn text_result(result: Result<String, String>) -> Result<Seq<char>, Seq<char>> {
    match result {
        Ok(text) => Ok(text@),
        Err(text) => Err(text@),
    }
}

/// What the reply to `query` means.
pub fn settle(query: &Query, reply: Result<CommandOutput, String>) -> (outcome: Result<String, String>)
    ensures
        text_result(outcome) == outcome_of(query@, reply_view(reply)),
{
    match reply {
        Err(reason) => Err(reason),
        Ok(output) => {
            if output.success {
                Ok(from_utf8_lossy(output.stdout.as_slice()))
            } else {
                let detail = chars_of(from_utf8_lossy(output.stderr.as_slice()).as_str());
                let mut text = query.program.to_owned();
                text.append(" ");
                text.append(space_out(&query.args).as_str());
                text.append(" exited with ");
                text.append(output.status.as_str());
                text.append(": ");
                text.append(string_of(trim(detail.as_slice())).as_str());
                Err(text)
            }
        },
    }
}

/// What a command printed, whether or not it succeeded; nothing where it could
/// not be run.
pub open spec fn printed(reply: ReplyView) -> Option<Seq<char>> {
    match reply {
        ReplyView::Failed { .. } => None,
        ReplyView::Finished { stdout, .. } => Some(lossy_text(stdout)),
    }
}

/// What a command printed, whether or not it succeeded.
pub fn printed_text(reply: Result<CommandOutput, String>) -> (text: Option<String>)
    ensures
        match text {
            Some(t) => printed(reply_view(reply)) == Some(t@),
            None => printed(reply_view(reply)) is None,
        },
{
    match reply {
        Err(_) => None,
        Ok(output) => Some(from_utf8_lossy(output.stdout.as_slice())),
    }
}

} // verus!
