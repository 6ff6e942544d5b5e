use vstd::prelude::*;
use vstd::string::StringExecFns;
use crate::text::{chars_of, str_eq};

verus! {

broadcast use vstd::string::group_string_axioms;

/// Flags of the `history` builtin that name a file.
#[derive(Debug, Clone, Copy, PartialEq, Eq, Structural)]
pub enum HistoryFlags {
    Read,
    Write,
    Append,
}

/// The flag that a word names, if it names one.
pub open spec fn history_flag_of(s: Seq<char>) -> Option<HistoryFlags> {
    if s == "-r"@ {
        Some(HistoryFlags::Read)
    } else if s == "-w"@ {
        Some(HistoryFlags::Write)
    } else if s == "-a"@ {
        Some(HistoryFlags::Append)
    } else {
        None
    }
}

/// The word that spells a flag.
pub open spec fn history_flag_text(f: HistoryFlags) -> Seq<char> {
    match f {
        HistoryFlags::Read => "-r"@,
        HistoryFlags::Write => "-w"@,
        HistoryFlags::Append => "-a"@,
    }
}

impl HistoryFlags {
    /// Reads a flag of `history`: `-r`, `-w` or `-a`.
    pub fn from_str(flag: &str) -> (r: Result<HistoryFlags, ShellError>)
        ensures
            history_flag_of(flag@) matches Some(f) ==> r == Ok::<HistoryFlags, ShellError>(f),
            history_flag_of(flag@) is None ==> (r matches Err(ShellError::InvalidFlag(s))
                && s@ == flag@),
    {
        if str_eq(flag, "-r") {
            Ok(HistoryFlags::Read)
        } else if str_eq(flag, "-w") {
            Ok(HistoryFlags::Write)
        } else if str_eq(flag, "-a") {
            Ok(HistoryFlags::Append)
        } else {
            Err(ShellError::InvalidFlag(flag.to_owned()))
        }
    }

    /// The flag as it is written on the command line.
    pub fn to_string(&self) -> (s: String)
        ensures
            s@ == history_flag_text(*self),
    {
        match self {
            HistoryFlags::Read => "-r".to_owned(),
            HistoryFlags::Write => "-w".to_owned(),
            HistoryFlags::Append => "-a".to_owned(),
        }
    }
}

/// What `history` was asked to do.
#[derive(Debug)]
pub enum HistoryArgs {
    /// List only the last that many lines.
    Limit(usize),
    /// Read, write or append the history file at the path.
    File(HistoryFlags, String),
    /// List every line.
    PrintAll,
}

/// The shell's builtin commands, with their arguments.
#[derive(Debug)]
pub enum Commands {
    Echo(Vec<String>),
    Type(Vec<String>),
    Exit,
    Pwd,
    Cd(String),
    History(HistoryArgs),
    Jobs,
}

/// Errors of the shell.
#[derive(Debug)]
pub enum ShellError {
    /// An input or output operation failed; the text describes the failure.
    IoError(String),
    /// No program of that name was found.
    CommandNotFound(String),
    /// A builtin refused its arguments; the text says why.
    InvalidArguments(String),
    /// A word is no flag of `history`.
    InvalidFlag(String),
}

/// The value of a string of decimal digits.
pub open spec fn decimal_value(s: Seq<char>) -> nat
    decreases s.len(),
{
    if s.len() == 0 {
        0
    } else {
        decimal_value(s.drop_last()) * 10 + ((s.last() as u32) - ('0' as u32)) as nat
    }
}

/// Whether `c` is one of the decimal digits `0` to `9`.
pub open spec fn is_digit(c: char) -> bool {
    '0' <= c && c <= '9'
}

/// Whether every character of `s` is a decimal digit.
pub open spec fn all_digits(s: Seq<char>) -> bool {
    forall|i: int| 0 <= i < s.len() ==> is_digit(#[trigger] s[i])
}

/// What `str::parse::<usize>` gives: an optional `+` followed by at least one
/// decimal digit, and nothing else, whose value fits in `usize`.
pub open spec fn usize_of(s: Seq<char>) -> Option<usize> {
    let digits = if s.len() > 0 && s[0] == '+' {
        s.drop_first()
    } else {
        s
    };
    if digits.len() > 0 && all_digits(digits) && decimal_value(digits) <= usize::MAX {
        Some(decimal_value(digits) as usize)
    } else {
        None
    }
}

proof fn lemma_decimal_value_grows(s: Seq<char>, k: int)
    requires
        0 <= k <= s.len(),
        all_digits(s),
    ensures
        decimal_value(s.take(k)) <= decimal_value(s),
    decreases s.len() - k,
{
    if k < s.len() {
        lemma_decimal_value_grows(s, k + 1);
        assert(s.take(k + 1).drop_last() == s.take(k));
        assert(is_digit(s[k]));
    } else {
        assert(s.take(k) == s);
    }
}

/// Reads a `usize` the way `str::parse::<usize>` does.
pub fn parse_usize(text: &str) -> (r: Option<usize>)
    ensures
        r == usize_of(text@),
{
    let cs = chars_of(text);
    let mut i: usize = 0;
    if cs.len() > 0 && cs[0] == '+' {
        i = 1;
    }
    let start = i;
    let ghost digits = if cs@.len() > 0 && cs@[0] == '+' {
        cs@.drop_first()
    } else {
        cs@
    };
    assert(digits == cs@.skip(start as int));
    if start >= cs.len() {
        return None;
    }
    let mut value: usize = 0;
    while i < cs.len()
        invariant
            start <= i <= cs.len(),
            cs@ == text@,
            digits == cs@.skip(start as int),
            digits == (if cs@.len() > 0 && cs@[0] == '+' {
                cs@.drop_first()
            } else {
                cs@
            }),
            start < cs.len(),
            all_digits(digits.take(i - start)),
            value == decimal_value(digits.take(i - start)),
        decreases cs.len() - i,
    {
        let c = cs[i];
        assert(digits[i - start] == c);
        if !('0' <= c && c <= '9') {
            assert(!is_digit(digits[i - start]));
            assert(!all_digits(digits));
            assert(usize_of(cs@) is None);
            return None;
        }
        let d = (c as u32 - '0' as u32) as usize;
        assert(digits.take(i - start + 1).drop_last() == digits.take(i - start));
        let next = match value.checked_mul(10) {
            Some(t) => t.checked_add(d),
            None => None,
        };
        match next {
            Some(v) => {
                value = v;
                i = i + 1;
                assert(all_digits(digits.take(i - start)));
            },
            None => {
                proof {
                    let k = i - start + 1;
                    assert(decimal_value(digits.take(k)) == value * 10 + d);
                    assert(decimal_value(digits.take(k)) > usize::MAX);
                    if all_digits(digits) {
                        lemma_decimal_value_grows(digits, k);
                    }
                    assert(usize_of(cs@) is None);
                }
                return None;
            },
        }
    }
    assert(digits.take(i - start) == digits);
    Some(value)
}

/// Copies a slice of strings into a vector.
fn clone_strings(args: &[String]) -> (v: Vec<String>)
    ensures
        v@ == args@,
{
    let mut v: Vec<String> = Vec::new();
    let mut i: usize = 0;
    while i < args.len()
        invariant
            i <= args.len(),
            v@ == args@.take(i as int),
        decreases args.len() - i,
    {
        v.push(args[i].clone());
        i = i + 1;
        assert(v@ == args@.take(i as int));
    }
    assert(args@.take(args.len() as int) == args@);
    v
}

/// Where `Commands::from_str` cannot decide: `history` with a file flag and
/// no file after it.
pub open spec fn history_file_missing(command: Seq<char>, args: Seq<String>) -> bool {
    command == "history"@ && args.len() == 1 && history_flag_of(args[0]@) is Some
}

/// The builtin names differ from one another.
pub proof fn lemma_builtin_names_distinct()
    ensures
        "echo"@ != "type"@,
        "echo"@ != "exit"@,
        "echo"@ != "pwd"@,
        "echo"@ != "cd"@,
        "echo"@ != "history"@,
        "echo"@ != "jobs"@,
        "type"@ != "exit"@,
        "type"@ != "pwd"@,
        "type"@ != "cd"@,
        "type"@ != "history"@,
        "type"@ != "jobs"@,
        "exit"@ != "pwd"@,
        "exit"@ != "cd"@,
        "exit"@ != "history"@,
        "exit"@ != "jobs"@,
        "pwd"@ != "cd"@,
        "pwd"@ != "history"@,
        "pwd"@ != "jobs"@,
        "cd"@ != "history"@,
        "cd"@ != "jobs"@,
        "history"@ != "jobs"@,
{
    reveal_strlit("echo");
    reveal_strlit("type");
    reveal_strlit("exit");
    reveal_strlit("pwd");
    reveal_strlit("cd");
    reveal_strlit("history");
    reveal_strlit("jobs");
    assert("echo"@[0] == 'e' && "echo"@[1] == 'c');
    assert("type"@[0] == 't');
    assert("exit"@[0] == 'e' && "exit"@[1] == 'x');
    assert("jobs"@[0] == 'j');
    assert("pwd"@.len() == 3);
    assert("cd"@.len() == 2);
    assert("history"@.len() == 7);
}

impl Commands {
    /// The builtin that a command name and its arguments denote; `Ok(None)`
    /// where the name is no builtin's.
    pub fn from_str(command: &str, args: &[String]) -> (r: Result<Option<Commands>, ShellError>)
        requires
            !history_file_missing(command@, args@),
        ensures
            command@ == "echo"@ ==> (r matches Ok(Some(Commands::Echo(v))) && v@ == args@),
            command@ == "type"@ ==> (r matches Ok(Some(Commands::Type(v))) && v@ == args@),
            command@ == "exit"@ ==> r matches Ok(Some(Commands::Exit)),
            command@ == "pwd"@ ==> r matches Ok(Some(Commands::Pwd)),
            command@ == "cd"@ && args.len() > 0 ==> (r matches Ok(Some(Commands::Cd(p))) && p
                == args[0]),
            command@ == "cd"@ && args.len() == 0 ==> (r matches Err(ShellError::InvalidArguments(m))
                && m@ == "cd: missing argument"@),
            command@ == "history"@ && args.len() == 0 ==> r matches Ok(
                Some(Commands::History(HistoryArgs::PrintAll)),
            ),
            command@ == "history"@ && args.len() > 0 && history_flag_of(args[0]@) is Some ==> (r matches Ok(
                Some(Commands::History(HistoryArgs::File(g, p))),
            ) && Some(g) == history_flag_of(args[0]@) && p == args[1]),
            command@ == "history"@ && args.len() > 0 && history_flag_of(args[0]@) is None
                && usize_of(args[0]@) is Some ==> (r matches Ok(
                Some(Commands::History(HistoryArgs::Limit(m))),
            ) && Some(m) == usize_of(args[0]@)),
            command@ == "history"@ && args.len() > 0 && history_flag_of(args[0]@) is None
                && usize_of(args[0]@) is None ==> (r matches Err(ShellError::InvalidArguments(m))
                && m@ == "history: invalid argument: "@ + args[0]@),
            command@ == "jobs"@ ==> r matches Ok(Some(Commands::Jobs)),
            !is_builtin_name(command@) ==> r matches Ok(None),
    {
        proof {
            lemma_builtin_names_distinct();
        }
        if str_eq(command, "echo") {
            Ok(Some(Commands::Echo(clone_strings(args))))
        } else if str_eq(command, "type") {
            Ok(Some(Commands::Type(clone_strings(args))))
        } else if str_eq(command, "exit") {
            Ok(Some(Commands::Exit))
        } else if str_eq(command, "pwd") {
            Ok(Some(Commands::Pwd))
        } else if str_eq(command, "cd") {
            if args.len() > 0 {
                Ok(Some(Commands::Cd(args[0].clone())))
            } else {
                Err(ShellError::InvalidArguments("cd: missing argument".to_owned()))
            }
        } else if str_eq(command, "history") {
            if args.len() > 0 {
                let value = &args[0];
                match HistoryFlags::from_str(value.as_str()) {
                    Ok(flag) => Ok(Some(Commands::History(HistoryArgs::File(flag, args[1].clone())))),
                    Err(_) => match parse_usize(value.as_str()) {
                        Some(n) => Ok(Some(Commands::History(HistoryArgs::Limit(n)))),
                        None => {
                            let mut m = "history: invalid argument: ".to_owned();
                            m.append(value.as_str());
                            Err(ShellError::InvalidArguments(m))
                        },
                    },
                }
            } else {
                Ok(Some(Commands::History(HistoryArgs::PrintAll)))
            }
        } else if str_eq(command, "jobs") {
            Ok(Some(Commands::Jobs))
        } else {
            Ok(None)
        }
    }

    /// The builtin's name, as the shell prints it.
    pub fn to_string(&self) -> (s: String)
        ensures
            s@ == command_name(*self),
    {
        match self {
            Commands::Echo(_) => "echo".to_owned(),
            Commands::Type(_) => "type".to_owned(),
            Commands::Exit => "exit".to_owned(),
            Commands::Pwd => "pwd".to_owned(),
            Commands::Cd(_) => "cd".to_owned(),
            Commands::History(_) => "history".to_owned(),
            Commands::Jobs => "jobs".to_owned(),
        }
    }
}

/// Whether a word names one of the builtins.
pub open spec fn is_builtin_name(s: Seq<char>) -> bool {
    ||| s == "echo"@
    ||| s == "type"@
    ||| s == "exit"@
    ||| s == "pwd"@
    ||| s == "cd"@
    ||| s == "history"@
    ||| s == "jobs"@
}

/// The name of a builtin.
pub open spec fn command_name(c: Commands) -> Seq<char> {
    match c {
        Commands::Echo(_) => "echo"@,
        Commands::Type(_) => "type"@,
        Commands::Exit => "exit"@,
        Commands::Pwd => "pwd"@,
        Commands::Cd(_) => "cd"@,
        Commands::History(_) => "history"@,
        Commands::Jobs => "jobs"@,
    }
}

/// The operators that the shell reads in a command line.
#[derive(Debug, Clone, Copy, PartialEq, Eq, Structural)]
pub enum SpecialTokens {
    StdOut,
    StdOutExtended,
    StdErr,
    StdAppend,
    StdAppendExtended,
    ErrAppend,
    Pipe,
}

/// How an operator is written.
pub open spec fn special_token_text(t: SpecialTokens) -> Seq<char> {
    match t {
        SpecialTokens::StdOut => ">"@,
        SpecialTokens::StdOutExtended => "1>"@,
        SpecialTokens::StdErr => "2>"@,
        SpecialTokens::StdAppend => ">>"@,
        SpecialTokens::StdAppendExtended => "1>>"@,
        SpecialTokens::ErrAppend => "2>>"@,
        SpecialTokens::Pipe => "|"@,
    }
}

/// The redirection operator that a word spells, if it spells one.
pub open spec fn redirect_token_of(s: Seq<char>) -> Option<SpecialTokens> {
    if s == ">"@ {
        Some(SpecialTokens::StdOut)
    } else if s == "1>"@ {
        Some(SpecialTokens::StdOutExtended)
    } else if s == "2>"@ {
        Some(SpecialTokens::StdErr)
    } else if s == ">>"@ {
        Some(SpecialTokens::StdAppend)
    } else if s == "1>>"@ {
        Some(SpecialTokens::StdAppendExtended)
    } else if s == "2>>"@ {
        Some(SpecialTokens::ErrAppend)
    } else {
        None
    }
}

/// Whether an operator sends standard output (rather than standard error) to a file.
pub open spec fn redirects_stdout(t: SpecialTokens) -> bool {
    t == SpecialTokens::StdOut || t == SpecialTokens::StdOutExtended || t
        == SpecialTokens::StdAppend || t == SpecialTokens::StdAppendExtended
}

/// Whether an operator appends to its file (rather than truncating it).
pub open spec fn appends(t: SpecialTokens) -> bool {
    t == SpecialTokens::StdAppend || t == SpecialTokens::StdAppendExtended || t
        == SpecialTokens::ErrAppend
}

/// The redirection operators are spelled differently from one another.
pub proof fn lemma_redirect_texts_distinct()
    ensures
        ">"@ != "1>"@,
        ">"@ != "2>"@,
        ">"@ != ">>"@,
        ">"@ != "1>>"@,
        ">"@ != "2>>"@,
        "1>"@ != "2>"@,
        "1>"@ != ">>"@,
        "1>"@ != "1>>"@,
        "1>"@ != "2>>"@,
        "2>"@ != ">>"@,
        "2>"@ != "1>>"@,
        "2>"@ != "2>>"@,
        ">>"@ != "1>>"@,
        ">>"@ != "2>>"@,
        "1>>"@ != "2>>"@,
        "|"@ != ">"@,
{
    reveal_strlit(">");
    reveal_strlit("1>");
    reveal_strlit("2>");
    reveal_strlit(">>");
    reveal_strlit("1>>");
    reveal_strlit("2>>");
    reveal_strlit("|");
    assert(">"@.len() == 1 && "|"@.len() == 1 && ">"@[0] == '>' && "|"@[0] == '|');
    assert("1>"@.len() == 2 && "1>"@[0] == '1');
    assert("2>"@.len() == 2 && "2>"@[0] == '2');
    assert(">>"@.len() == 2 && ">>"@[0] == '>');
    assert("1>>"@.len() == 3 && "1>>"@[0] == '1');
    assert("2>>"@.len() == 3 && "2>>"@[0] == '2');
}

/// The redirection operator that a word spells, if it spells one.
pub fn redirect_token(word: &str) -> (r: Option<SpecialTokens>)
    ensures
        r == redirect_token_of(word@),
{
    if str_eq(word, ">") {
        Some(SpecialTokens::StdOut)
    } else if str_eq(word, "1>") {
        Some(SpecialTokens::StdOutExtended)
    } else if str_eq(word, "2>") {
        Some(SpecialTokens::StdErr)
    } else if str_eq(word, ">>") {
        Some(SpecialTokens::StdAppend)
    } else if str_eq(word, "1>>") {
        Some(SpecialTokens::StdAppendExtended)
    } else if str_eq(word, "2>>") {
        Some(SpecialTokens::ErrAppend)
    } else {
        None
    }
}

impl SpecialTokens {
    /// Whether the operator sends standard output to its file.
    pub fn is_stdout_redirect(&self) -> (r: bool)
        ensures
            r == redirects_stdout(*self),
    {
        match self {
            SpecialTokens::StdOut | SpecialTokens::StdOutExtended | SpecialTokens::StdAppend
            | SpecialTokens::StdAppendExtended => true,
            _ => false,
        }
    }

    /// Whether the operator opens its file for appending.
    pub fn should_append(&self) -> (r: bool)
        ensures
            r == appends(*self),
    {
        match self {
            SpecialTokens::StdAppend | SpecialTokens::StdAppendExtended
            | SpecialTokens::ErrAppend => true,
            _ => false,
        }
    }

    /// The operator as it is written.
    pub fn to_string(&self) -> (s: String)
        ensures
            s@ == special_token_text(*self),
    {
        match self {
            SpecialTokens::StdOut => ">".to_owned(),
            SpecialTokens::StdOutExtended => "1>".to_owned(),
            SpecialTokens::StdErr => "2>".to_owned(),
            SpecialTokens::StdAppend => ">>".to_owned(),
            SpecialTokens::StdAppendExtended => "1>>".to_owned(),
            SpecialTokens::ErrAppend => "2>>".to_owned(),
            SpecialTokens::Pipe => "|".to_owned(),
        }
    }
}

/// How an error is shown to the user.
pub open spec fn error_text(e: ShellError) -> Seq<char> {
    match e {
        ShellError::IoError(s) => "IO error: "@ + s@,
        ShellError::CommandNotFound(s) => s@ + ": not found"@,
        ShellError::InvalidArguments(s) => "Invalid arguments: "@ + s@,
        ShellError::InvalidFlag(s) => "Invalid flag: "@ + s@,
    }
}

impl ShellError {
    /// The error as it is shown to the user.
    pub fn to_string(&self) -> (s: String)
        ensures
            s@ == error_text(*self),
    {
        match self {
            ShellError::IoError(e) => {
                let mut m = "IO error: ".to_owned();
                m.append(e.as_str());
                m
            },
            ShellError::CommandNotFound(c) => {
                let mut m = c.clone();
                m.append(": not found");
                m
            },
            ShellError::InvalidArguments(a) => {
                let mut m = "Invalid arguments: ".to_owned();
                m.append(a.as_str());
                m
            },
            ShellError::InvalidFlag(f) => {
                let mut m = "Invalid flag: ".to_owned();
                m.append(f.as_str());
                m
            },
        }
    }
}

/// Reading back the text of a flag gives the flag.
pub proof fn lemma_history_flag_roundtrip(f: HistoryFlags)
    ensures
        history_flag_of(history_flag_text(f)) == Some(f),
{
    reveal_strlit("-r");
    reveal_strlit("-w");
    reveal_strlit("-a");
    assert("-r"@[1] == 'r' && "-w"@[1] == 'w' && "-a"@[1] == 'a');
}

/// Every builtin's name is recognized as a builtin's name.
pub proof fn lemma_builtin_name_recognized(c: Commands)
    ensures
        is_builtin_name(command_name(c)),
{
}

/// Reading back the text of a redirection operator gives the operator; the
/// pipe is no redirection.
pub proof fn lemma_redirect_roundtrip(t: SpecialTokens)
    ensures
        t != SpecialTokens::Pipe ==> redirect_token_of(special_token_text(t)) == Some(t),
        t == SpecialTokens::Pipe ==> redirect_token_of(special_token_text(t)) is None,
{
    lemma_redirect_texts_distinct();
    reveal_strlit("|");
    reveal_strlit(">");
    reveal_strlit("1>");
    reveal_strlit("2>");
    reveal_strlit(">>");
    reveal_strlit("1>>");
    reveal_strlit("2>>");
    assert("|"@[0] == '|' && "|"@.len() == 1 && ">"@[0] == '>');
    assert("1>"@.len() == 2 && "2>"@.len() == 2 && ">>"@.len() == 2);
    assert("1>>"@.len() == 3 && "2>>"@.len() == 3);
}

/// Only the operators of standard error neither write standard output nor
/// are the pipe; appending is the business of the three `>>` operators.
pub proof fn lemma_redirect_kinds(t: SpecialTokens)
    ensures
        t != SpecialTokens::Pipe && !redirects_stdout(t) <==> (t == SpecialTokens::StdErr || t
            == SpecialTokens::ErrAppend),
        appends(t) ==> t != SpecialTokens::Pipe,
{
}

proof fn lemma_digit_value(d: nat)
    requires
        d < 10,
    ensures
        is_digit(crate::text::digit_char(d)),
        ((crate::text::digit_char(d) as u32) - ('0' as u32)) as nat == d,
{
    let b = (d + 48) as u8;
    assert(b as u32 == d + 48);
    assert((b as char) as u32 == b as u32) by {
        vstd::utf8::char_u32_cast(b as char, b as u32);
    }
}

/// The decimal notation of a number is all digits, and its value is the number.
pub proof fn lemma_decimal_value(n: nat)
    ensures
        all_digits(crate::text::decimal(n)),
        decimal_value(crate::text::decimal(n)) == n,
        crate::text::decimal(n).len() > 0,
    decreases n,
{
    let s = crate::text::decimal(n);
    if n < 10 {
        lemma_digit_value(n);
        assert(s.drop_last() =~= Seq::<char>::empty());
        assert(s.last() == crate::text::digit_char(n));
        assert(decimal_value(s.drop_last()) == 0);
        assert(decimal_value(s) == decimal_value(s.drop_last()) * 10 + ((s.last() as u32) - ('0' as u32)) as nat);
    } else {
        lemma_decimal_value(n / 10);
        lemma_digit_value(n % 10);
        let p = crate::text::decimal(n / 10);
        assert(s.drop_last() =~= p);
        assert(s.last() == crate::text::digit_char(n % 10));
        assert(n == (n / 10) * 10 + n % 10) by (nonlinear_arith);
        assert(decimal_value(s) == decimal_value(p) * 10 + ((s.last() as u32) - ('0' as u32)) as nat);
        assert forall|i: int| 0 <= i < s.len() implies is_digit(#[trigger] s[i]) by {
            if i < p.len() {
                assert(s[i] == p[i]);
            }
        }
    }
}

/// Reading a number's decimal notation with `str::parse::<usize>` gives the
/// number back: the numbers that `history` prints are the ones it accepts.
pub proof fn lemma_parse_decimal(n: usize)
    ensures
        usize_of(crate::text::decimal(n as nat)) == Some(n),
{
    lemma_decimal_value(n as nat);
    let s = crate::text::decimal(n as nat);
    assert(is_digit(s[0]));
}

} // verus!
