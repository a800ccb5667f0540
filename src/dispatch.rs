//! Start-up and the choice between running a script, running one command
//! and the interactive loop.
use vstd::prelude::*;

use crate::error::DriverError;

verus! {

/// The prompt template used when the environment gives none.
pub open spec fn default_ps1() -> Seq<char> {
    "{display_cwd}{git_branch}$ "@
}

/// The `PS1` template of a new session: an inherited value wins, the
/// default stands in when there is none.
pub fn prompt_template(inherited: Option<String>) -> (r: String)
    ensures
        match inherited {
            Some(v) => r@ == v@,
            None => r@ == default_ps1(),
        },
{
    match inherited {
        Some(v) => v,
        None => String::from_str("{display_cwd}{git_branch}$ "),
    }
}

/// The script that sources the rc file at `rc_path`, when it is to be
/// sourced (it exists and sourcing is not switched off): the line
/// `source '<path>'`, reported under the rc file's path.
pub fn rc_source_line(norc: bool, rc_path: &str, rc_exists: bool) -> (r: Option<Script>)
    ensures
        r is Some <==> (!norc && rc_exists),
        r matches Some(s) ==> s.text@ == "source '"@ + rc_path@ + "'"@,
        r matches Some(s) ==> (s.filename matches Some(f) && f@ == rc_path@),
{
    if norc || !rc_exists {
        return None;
    }
    let mut c = String::from_str("source '");
    c.append(rc_path);
    c.append("'");
    Some(Script { text: c, filename: Some(String::from_str(rc_path)) })
}

/// The exit code that sourcing the rc file left, or the start-up failure.
pub fn rc_outcome(result: Result<i32, String>) -> (r: Result<i32, DriverError>)
    ensures
        match result {
            Ok(code) => r == Ok::<i32, DriverError>(code),
            Err(e) => r == Err::<i32, DriverError>(DriverError::RcFailed(e)),
        },
{
    match result {
        Ok(code) => Ok(code),
        Err(e) => Err(DriverError::RcFailed(e)),
    }
}

/// Where the script text comes from.
pub enum ScriptSource {
    File(String),
    Inline(String),
}

/// How the shell runs.
pub enum Mode {
    Interactive,
    Script(ScriptSource),
}

/// Interactive without a file or a command; otherwise a script, the file
/// before the command when both are given.
pub fn choose_mode(file: Option<String>, command: Option<String>) -> (r: Mode)
    ensures
        match (file, command) {
            (Some(p), _) => r == Mode::Script(ScriptSource::File(p)),
            (None, Some(c)) => r == Mode::Script(ScriptSource::Inline(c)),
            (None, None) => r == Mode::Interactive,
        },
{
    match (file, command) {
        (Some(p), _) => Mode::Script(ScriptSource::File(p)),
        (None, Some(c)) => Mode::Script(ScriptSource::Inline(c)),
        (None, None) => Mode::Interactive,
    }
}

/// A script's text, and the file name it is reported under.
pub struct Script {
    pub text: String,
    pub filename: Option<String>,
}

/// The script read from the file at `path`, or the failure to read it.
pub fn file_script(path: String, read: Result<String, String>) -> (r: Result<Script, DriverError>)
    ensures
        match read {
            Ok(t) => r == Ok::<Script, DriverError>(Script { text: t, filename: Some(path) }),
            Err(e) => r == Err::<Script, DriverError>(DriverError::ScriptRead(e)),
        },
{
    match read {
        Ok(text) => Ok(Script { text, filename: Some(path) }),
        Err(e) => Err(DriverError::ScriptRead(e)),
    }
}

/// A command given on the command line: its text, with no file name.
pub fn inline_script(command: String) -> (r: Script)
    ensures
        r == (Script { text: command, filename: None }),
{
    Script { text: command, filename: None }
}

/// What is done with a script.
pub enum Run {
    /// Print the parse tree only; nothing runs.
    Inspect(String),
    /// Run it through the interpreter.
    Execute(Script),
}

/// In debug mode the script is only inspected; otherwise it runs.
pub fn plan_run(script: Script, debug: bool) -> (r: Run)
    ensures
        debug ==> r == Run::Inspect(script.text),
        !debug ==> r == Run::Execute(script),
{
    if debug {
        Run::Inspect(script.text)
    } else {
        Run::Execute(script)
    }
}

} // verus!
