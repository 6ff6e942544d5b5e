use vstd::prelude::*;
use vstd::string::StringExecFns;
use crate::enums::{
    history_file_missing, history_flag_of, is_builtin_name, redirects_stdout, usize_of, Commands,
    ShellError, SpecialTokens,
};
use crate::structs::texts;
use crate::text::{decimal, join, push_char, push_decimal, push_joined};

verus! {

broadcast use vstd::string::group_string_axioms;

/// What `echo` prints: its arguments separated by spaces, then a newline.
pub open spec fn echo_text(args: Seq<Seq<char>>) -> Seq<char> {
    join(args, seq![' ']).push('\n')
}

/// The output of the `echo` builtin.
pub fn command_echo(args: &[String]) -> (out: String)
    ensures
        out@ == echo_text(texts(args@)),
{
    let mut out = String::new();
    push_joined(&mut out, args);
    push_char(&mut out, '\n');
    out
}

/// What `type` found out about a command name.
#[derive(Debug)]
pub enum TypeReport {
    /// The name is a builtin; the text is the line to print.
    Builtin(String),
    /// The name is no builtin's; it is to be looked for on the search path.
    Lookup(String),
    /// The builtin's arguments were refused.
    Failed(ShellError),
}

/// Why the builtin named by `args[0]` refuses the arguments after it, if it
/// does: `cd` needs a path, and `history` a count or a flag.
pub open spec fn builtin_refusal(args: Seq<String>) -> Option<Seq<char>> {
    if args[0]@ == "cd"@ && args.len() == 1 {
        Some("cd: missing argument"@)
    } else if args[0]@ == "history"@ && args.len() > 1 && history_flag_of(args[1]@) is None
        && usize_of(args[1]@) is None {
        Some("history: invalid argument: "@ + args[1]@)
    } else {
        None
    }
}

/// The decisions of the `type` builtin on its arguments, the first of which
/// names the command asked about: a builtin is reported as such, in a line to
/// print; another name is to be looked up on the search path. The name is read
/// together with the arguments after it, so a builtin that refuses them
/// reports its error instead.
pub fn command_type(args: &[String]) -> (r: TypeReport)
    requires
        args.len() > 0,
        !history_file_missing(args[0]@, args@.skip(1)),
    ensures
        !is_builtin_name(args[0]@) ==> (r matches TypeReport::Lookup(name) && name@ == args[0]@),
        is_builtin_name(args[0]@) && builtin_refusal(args@) is None ==> (r matches TypeReport::Builtin(line)
            && line@ == args[0]@ + " is a shell builtin\n"@),
        builtin_refusal(args@) matches Some(m) ==> (r matches TypeReport::Failed(
            ShellError::InvalidArguments(e),
        ) && e@ == m),
{
    proof {
        crate::enums::lemma_builtin_names_distinct();
    }
    let command = args[0].as_str();
    let rest = slice_skip_first(args);
    match Commands::from_str(command, rest) {
        Ok(Some(cmd)) => {
            let mut line = cmd.to_string();
            line.append(" is a shell builtin\n");
            TypeReport::Builtin(line)
        },
        Ok(None) => TypeReport::Lookup(args[0].clone()),
        Err(e) => TypeReport::Failed(e),
    }
}

/// The slice without its first element.
fn slice_skip_first(args: &[String]) -> (r: &[String])
    requires
        args.len() > 0,
    ensures
        r@ == args@.skip(1),
{
    let (_, rest) = args.split_at(1);
    rest
}

/// How `cd` finds the directory that a path names.
#[derive(Debug, Clone, Copy, PartialEq, Eq, Structural)]
pub enum CdTarget {
    /// The path starts at the root and is used as it is.
    Absolute,
    /// The path's first component is `~`: the home directory is meant.
    Home,
    /// The path is taken relative to the current directory.
    Relative,
}

/// Where `cd` looks for a path: a path that starts with `/` is absolute; one
/// whose first component is `~` (the path `~` itself, or `~/` and more) means
/// the home directory; any other is relative.
pub open spec fn cd_target_of(path: Seq<char>) -> CdTarget {
    if path.len() > 0 && path[0] == '/' {
        CdTarget::Absolute
    } else if path.len() > 0 && path[0] == '~' && (path.len() == 1 || path[1] == '/') {
        CdTarget::Home
    } else {
        CdTarget::Relative
    }
}

/// Decides how `cd` resolves its argument.
pub fn cd_target(path: &str) -> (r: CdTarget)
    ensures
        r == cd_target_of(path@),
{
    let cs = crate::text::chars_of(path);
    if cs.len() > 0 && cs[0] == '/' {
        CdTarget::Absolute
    } else if cs.len() > 0 && cs[0] == '~' && (cs.len() == 1 || cs[1] == '/') {
        CdTarget::Home
    } else {
        CdTarget::Relative
    }
}

/// The complaint of `cd` about a directory that does not exist.
pub fn cd_missing_message(path: &str) -> (m: String)
    ensures
        m@ == "cd: "@ + path@ + ": No such file or directory\n"@,
{
    let mut m = "cd: ".to_owned();
    m.append(path);
    m.append(": No such file or directory\n");
    m
}

/// The permission bits that mark a file as executable by someone.
pub const PERMISSIONS_EXECUTABLE: u32 = 0o111;

/// Whether a file with these permission bits is executable by someone.
pub fn is_executable(mode: u32) -> (r: bool)
    ensures
        r == (mode & PERMISSIONS_EXECUTABLE != 0),
{
    mode & PERMISSIONS_EXECUTABLE != 0
}

/// Where an output stream of a command goes.
#[derive(Debug, Clone, Copy, PartialEq, Eq, Structural)]
pub enum Sink {
    /// The shell's own stream.
    Terminal,
    /// The next command of the pipeline.
    Pipe,
    /// The file of the stage's redirection.
    File,
    /// Nowhere.
    Discard,
}

/// Where a builtin's standard output and standard error go. A builtin that
/// is not last feeds its standard output to the next command and loses its
/// standard error, whatever its redirection says; the last one sends the
/// redirected stream to the file and the other to the terminal.
pub open spec fn builtin_sinks_of(is_last: bool, redirect: Option<SpecialTokens>) -> (Sink, Sink) {
    if !is_last {
        (Sink::Pipe, Sink::Discard)
    } else {
        match redirect {
            Some(t) => if redirects_stdout(t) {
                (Sink::File, Sink::Terminal)
            } else {
                (Sink::Terminal, Sink::File)
            },
            None => (Sink::Terminal, Sink::Terminal),
        }
    }
}

/// Where an outside program's standard output and standard error go: the
/// redirected stream to the file; standard output otherwise to the next
/// command, or to the terminal for the last one; standard error otherwise to
/// the terminal.
pub open spec fn external_sinks_of(is_last: bool, redirect: Option<SpecialTokens>) -> (Sink, Sink) {
    let out = if !is_last {
        Sink::Pipe
    } else {
        Sink::Terminal
    };
    match redirect {
        Some(t) => if redirects_stdout(t) {
            (Sink::File, Sink::Terminal)
        } else {
            (out, Sink::File)
        },
        None => (out, Sink::Terminal),
    }
}

/// Where a builtin's two output streams go.
pub fn builtin_sinks(is_last: bool, redirect: Option<SpecialTokens>) -> (r: (Sink, Sink))
    ensures
        r == builtin_sinks_of(is_last, redirect),
{
    if !is_last {
        (Sink::Pipe, Sink::Discard)
    } else {
        match redirect {
            Some(t) => if t.is_stdout_redirect() {
                (Sink::File, Sink::Terminal)
            } else {
                (Sink::Terminal, Sink::File)
            },
            None => (Sink::Terminal, Sink::Terminal),
        }
    }
}

/// Where an outside program's two output streams go.
pub fn external_sinks(is_last: bool, redirect: Option<SpecialTokens>) -> (r: (Sink, Sink))
    ensures
        r == external_sinks_of(is_last, redirect),
{
    let out = if !is_last {
        Sink::Pipe
    } else {
        Sink::Terminal
    };
    match redirect {
        Some(t) => if t.is_stdout_redirect() {
            (Sink::File, Sink::Terminal)
        } else {
            (out, Sink::File)
        },
        None => (out, Sink::Terminal),
    }
}

/// A background job as the `jobs` builtin lists it.
pub struct JobEntry {
    pub num: usize,
    pub command: String,
    pub args: Vec<String>,
}

/// The state of a background job's process.
#[derive(Debug, Clone, Copy, PartialEq, Eq, Structural)]
pub enum JobStatus {
    Running,
    Done,
    /// Its state could not be learned.
    Unknown,
}

/// The mark of the job listed at `position` (counting from 1) of `total`:
/// `+` for the last, `-` for the one before it, a space otherwise.
pub open spec fn job_marker(position: int, total: int) -> char {
    if total == position {
        '+'
    } else if total - 1 == position {
        '-'
    } else {
        ' '
    }
}

/// The line that `jobs` prints for a job that is running or done.
pub open spec fn job_line(e: JobEntry, running: bool, position: int, total: int) -> Seq<char> {
    seq!['['] + decimal(e.num as nat) + seq![']', job_marker(position, total)] + (if running {
        "  Running                 "@
    } else {
        "  Done                 "@
    }) + e.command@ + seq![' '] + join(texts(e.args@), seq![' ']) + (if running {
        " &\n"@
    } else {
        "\n"@
    })
}

/// The lines that `jobs` prints for the first `k` jobs, and the position that
/// the next listed job takes: jobs whose state is unknown are neither listed
/// nor counted.
pub open spec fn jobs_lines(jobs: Seq<JobEntry>, statuses: Seq<JobStatus>, k: int) -> (
    Seq<char>,
    int,
)
    decreases k,
{
    if k <= 0 {
        (seq![], 1)
    } else {
        let (text, pos) = jobs_lines(jobs, statuses, k - 1);
        match statuses[k - 1] {
            JobStatus::Running => (
                text + job_line(jobs[k - 1], true, pos, jobs.len() as int),
                pos + 1,
            ),
            JobStatus::Done => (
                text + job_line(jobs[k - 1], false, pos, jobs.len() as int),
                pos + 1,
            ),
            JobStatus::Unknown => (text, pos),
        }
    }
}

/// What `jobs` prints and which jobs it keeps.
pub struct JobsReport {
    pub text: String,
    /// One flag for each job: whether it stays in the list.
    pub keep: Vec<bool>,
}

/// The `jobs` builtin on the list of background jobs and the states of their
/// processes: it lists running and finished jobs, numbering their marks
/// among the listed ones, and keeps only the running ones.
pub fn jobs_report(jobs: &Vec<JobEntry>, statuses: &Vec<JobStatus>) -> (r: JobsReport)
    requires
        statuses.len() == jobs.len(),
    ensures
        r.text@ == jobs_lines(jobs@, statuses@, jobs.len() as int).0,
        r.keep.len() == jobs.len(),
        forall|k: int| 0 <= k < jobs.len() ==> r.keep[k] == (statuses[k] == JobStatus::Running),
{
    let total = jobs.len();
    let mut text = String::new();
    let mut keep: Vec<bool> = Vec::new();
    let mut listed: usize = 0;
    let mut k: usize = 0;
    while k < total
        invariant
            total == jobs.len(),
            statuses.len() == total,
            k <= total,
            listed <= k,
            (text@, listed + 1) == jobs_lines(jobs@, statuses@, k as int),
            keep.len() == k,
            forall|j: int| 0 <= j < k ==> keep[j] == (statuses[j] == JobStatus::Running),
        decreases total - k,
    {
        match statuses[k] {
            JobStatus::Unknown => {
                keep.push(false);
            },
            status => {
                let running = status == JobStatus::Running;
                push_job_line(&mut text, &jobs[k], running, listed + 1, total);
                keep.push(running);
                listed = listed + 1;
            },
        }
        k = k + 1;
    }
    JobsReport { text, keep }
}

/// Appends the line that `jobs` prints for one job.
fn push_job_line(text: &mut String, job: &JobEntry, running: bool, position: usize, total: usize)
    requires
        1 <= position <= total,
    ensures
        final(text)@ == old(text)@ + job_line(*job, running, position as int, total as int),
{
    push_char(text, '[');
    push_decimal(text, job.num);
    push_char(text, ']');
    let mark = if total == position {
        '+'
    } else if total - 1 == position {
        '-'
    } else {
        ' '
    };
    push_char(text, mark);
    if running {
        text.append("  Running                 ");
    } else {
        text.append("  Done                 ");
    }
    text.append(job.command.as_str());
    push_char(text, ' ');
    push_joined(text, job.args.as_slice());
    if running {
        text.append(" &\n");
    } else {
        text.append("\n");
    }
}

/// The last command of a pipeline sends its output to the same places,
/// builtin or not.
pub proof fn lemma_last_stage_sinks_agree(redirect: Option<SpecialTokens>)
    ensures
        builtin_sinks_of(true, redirect) == external_sinks_of(true, redirect),
{
}

/// A stage that is not last feeds the next one with its standard output
/// unless a builtin's or a redirection's rule says otherwise: a builtin
/// always does, an outside program unless its standard output goes to a file.
pub proof fn lemma_inner_stage_feeds_pipe(redirect: Option<SpecialTokens>)
    ensures
        builtin_sinks_of(false, redirect).0 == Sink::Pipe,
        external_sinks_of(false, redirect).0 == Sink::Pipe <==> !(redirect matches Some(t)
            && redirects_stdout(t)),
{
}

/// A `2>` or `2>>` redirection sends standard error, never standard output,
/// to its file: for an outside program wherever it stands in the pipeline, for
/// a builtin when it is last (a builtin that is not last feeds the next
/// command and loses its standard error). A `>`, `1>`, `>>` or `1>>`
/// redirection sends standard output, never standard error, to its file,
/// for an outside program and for the last command.
pub proof fn lemma_redirect_chooses_stream(is_last: bool, t: SpecialTokens)
    ensures
        t == SpecialTokens::StdErr || t == SpecialTokens::ErrAppend ==> {
            &&& builtin_sinks_of(is_last, Some(t)).0 != Sink::File
            &&& external_sinks_of(is_last, Some(t)).0 != Sink::File
            &&& external_sinks_of(is_last, Some(t)).1 == Sink::File
            &&& is_last ==> builtin_sinks_of(is_last, Some(t)).1 == Sink::File
            &&& external_sinks_of(is_last, Some(t)).0 == (if is_last {
                Sink::Terminal
            } else {
                Sink::Pipe
            })
        },
        t == SpecialTokens::StdOut || t == SpecialTokens::StdOutExtended || t
            == SpecialTokens::StdAppend || t == SpecialTokens::StdAppendExtended ==> {
            &&& external_sinks_of(is_last, Some(t)) == (Sink::File, Sink::Terminal)
            &&& is_last ==> builtin_sinks_of(is_last, Some(t)) == (Sink::File, Sink::Terminal)
        },
        builtin_sinks_of(is_last, None).1 != Sink::File && builtin_sinks_of(is_last, None).0
            != Sink::File,
        external_sinks_of(is_last, None).1 != Sink::File && external_sinks_of(is_last, None).0
            != Sink::File,
{
}

/// The length of all the words together.
pub open spec fn total_len(ws: Seq<Seq<char>>) -> nat
    decreases ws.len(),
{
    if ws.len() == 0 {
        0
    } else {
        total_len(ws.drop_last()) + ws.last().len()
    }
}

/// What `echo` prints holds every argument, in order, with one space between
/// neighbours and a newline at the end: with no argument it is the newline
/// alone; an argument more adds a space and that argument before the newline;
/// so for `k >= 1` arguments its length is theirs together plus `k`, and it
/// ends with the last argument and the newline.
pub proof fn lemma_echo_text(args: Seq<Seq<char>>)
    ensures
        args.len() == 0 ==> echo_text(args) == seq!['\n'],
        args.len() == 1 ==> echo_text(args) == args[0].push('\n'),
        args.len() >= 2 ==> echo_text(args) == echo_text(args.drop_last()).drop_last() + seq![' ']
            + args.last().push('\n'),
        args.len() >= 1 ==> echo_text(args).len() == total_len(args) + args.len(),
        args.len() >= 1 ==> echo_text(args).subrange(
            echo_text(args).len() - args.last().len() - 1,
            echo_text(args).len() as int,
        ) == args.last().push('\n'),
    decreases args.len(),
{
    if args.len() == 0 {
        assert(echo_text(args) =~= seq!['\n']);
    } else if args.len() == 1 {
        assert(args.drop_last() =~= Seq::<Seq<char>>::empty());
        let e = echo_text(args);
        assert(e.subrange(e.len() - args.last().len() - 1, e.len() as int) =~= args.last().push('\n'));
    } else {
        let p = args.drop_last();
        lemma_echo_text(p);
        let j = join(p, seq![' ']);
        assert(echo_text(p).drop_last() =~= j);
        let e = echo_text(args);
        assert(e =~= j + seq![' '] + args.last().push('\n'));
        assert(e.subrange(e.len() - args.last().len() - 1, e.len() as int) =~= args.last().push('\n'));
    }
}

} // verus!
