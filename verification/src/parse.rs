use vstd::prelude::*;
use crate::enums::{redirect_token, redirect_token_of, SpecialTokens};
use crate::structs::{stage_views, texts, PipelineStage, Redirect, StageView};
use crate::text::{chars_of, push_char, remove_pairs, trim, trim_chars, without_pairs};

verus! {

broadcast use vstd::string::group_string_axioms;

/// What reading the arguments of a command has found so far.
#[verifier::ext_equal]
pub struct ArgsScan {
    /// The arguments before the first redirection operator.
    pub args: Seq<Seq<char>>,
    /// The last redirection operator.
    pub token: Option<SpecialTokens>,
    /// The last word after the first redirection operator that is no operator.
    pub target: Option<Seq<char>>,
    /// Whether a redirection operator has been seen.
    pub seen: bool,
}

/// Reads a command's arguments from left to right.
pub open spec fn scan_args(a: Seq<Seq<char>>) -> ArgsScan
    decreases a.len(),
{
    if a.len() == 0 {
        ArgsScan { args: seq![], token: None, target: None, seen: false }
    } else {
        let st = scan_args(a.drop_last());
        let x = a.last();
        match redirect_token_of(x) {
            Some(t) => ArgsScan { args: st.args, token: Some(t), target: st.target, seen: true },
            None => if st.seen {
                ArgsScan { args: st.args, token: st.token, target: Some(x), seen: st.seen }
            } else {
                ArgsScan { args: st.args.push(x), token: st.token, target: st.target, seen: st.seen }
            },
        }
    }
}

/// The stage that a non-empty list of words makes: the first word is the
/// command; a redirection takes the last operator and the last word after the
/// first operator, and exists only where both do.
pub open spec fn stage_of(tokens: Seq<Seq<char>>) -> StageView {
    let st = scan_args(tokens.drop_first());
    StageView {
        command: tokens[0],
        args: st.args,
        redirect: if st.token is Some && st.target is Some {
            Some((st.token->0, st.target->0))
        } else {
            None
        },
    }
}

/// Builds a pipeline stage from the words of one command.
pub fn tokens_to_stage(tokens: Vec<String>) -> (r: PipelineStage)
    requires
        tokens.len() > 0,
    ensures
        r@ == stage_of(texts(tokens@)),
{
    let ghost all = texts(tokens@);
    let ghost rest = all.drop_first();
    let mut special_token: Option<SpecialTokens> = None;
    let mut special_token_arg: Option<usize> = None;
    let mut command_args: Vec<String> = Vec::new();
    let mut has_special_token = false;
    let n = tokens.len();
    let mut i: usize = 1;
    assert(rest.take(0) == Seq::<Seq<char>>::empty());
    while i < n
        invariant
            n == tokens.len(),
            1 <= i <= n,
            all == texts(tokens@),
            rest == all.drop_first(),
            ({
                let st = scan_args(rest.take(i - 1));
                &&& texts(command_args@) == st.args
                &&& special_token == st.token
                &&& has_special_token == st.seen
                &&& match special_token_arg {
                    Some(k) => 1 <= k < i && st.target == Some(tokens@[k as int]@),
                    None => st.target is None,
                }
            }),
        decreases n - i,
    {
        let arg = &tokens[i];
        assert(rest.take(i as int).drop_last() == rest.take(i - 1));
        assert(rest.take(i as int).last() == arg@);
        match redirect_token(arg.as_str()) {
            Some(t) => {
                special_token = Some(t);
                has_special_token = true;
            },
            None => {
                if has_special_token {
                    special_token_arg = Some(i);
                } else {
                    command_args.push(arg.clone());
                    assert(texts(command_args@) == texts(command_args@.drop_last()).push(arg@));
                }
            },
        }
        i = i + 1;
    }
    assert(rest.take(n - 1) == rest);
    let redirect = match (special_token, special_token_arg) {
        (Some(token), Some(k)) => Some(Redirect { token, target: tokens[k].clone() }),
        _ => None,
    };
    PipelineStage { command: tokens[0].clone(), args: command_args, redirect }
}

/// The state of reading a command line one character at a time.
#[verifier::ext_equal]
pub struct ScanState {
    /// The word being read.
    pub token: Seq<char>,
    /// The finished words of the command being read.
    pub tokens: Seq<Seq<char>>,
    /// The finished commands.
    pub stages: Seq<StageView>,
    /// Inside single quotes.
    pub single: bool,
    /// Inside double quotes.
    pub double: bool,
    /// After a backslash that takes the next character literally.
    pub escape: bool,
    /// A `|` came where no command stood before it.
    pub broken: bool,
}

/// The state before the first character: nothing read, outside quotes.
pub open spec fn scan_start() -> ScanState {
    ScanState {
        token: seq![],
        tokens: seq![],
        stages: seq![],
        single: false,
        double: false,
        escape: false,
        broken: false,
    }
}

/// `st` with `c` added to the word being read.
pub open spec fn with_char(st: ScanState, c: char) -> ScanState {
    ScanState { token: st.token.push(c), ..st }
}

/// Reads one character: a backslash takes the next character literally
/// (but not inside single quotes), quotes of one kind are literal inside
/// quotes of the other, a space ends a word outside quotes, and a `|` outside
/// quotes ends a command.
pub open spec fn scan_step(st: ScanState, c: char) -> ScanState {
    if st.broken {
        st
    } else if st.escape {
        ScanState { escape: false, ..with_char(st, c) }
    } else if c == ' ' {
        if st.single || st.double {
            with_char(st, c)
        } else if st.token.len() > 0 {
            ScanState { token: seq![], tokens: st.tokens.push(st.token), ..st }
        } else {
            st
        }
    } else if c == '\'' {
        if st.double {
            with_char(st, c)
        } else {
            ScanState { single: !st.single, ..st }
        }
    } else if c == '"' {
        if st.single {
            with_char(st, c)
        } else {
            ScanState { double: !st.double, ..st }
        }
    } else if c == '\\' {
        if st.single {
            with_char(st, c)
        } else {
            ScanState { escape: true, ..st }
        }
    } else if c == '|' {
        if st.single || st.double {
            with_char(st, c)
        } else {
            let words = if st.token.len() > 0 {
                st.tokens.push(st.token)
            } else {
                st.tokens
            };
            if words.len() == 0 {
                ScanState { broken: true, ..st }
            } else {
                ScanState {
                    token: seq![],
                    tokens: seq![],
                    stages: st.stages.push(stage_of(words)),
                    single: false,
                    double: false,
                    escape: false,
                    broken: false,
                }
            }
        }
    } else {
        with_char(st, c)
    }
}

/// Reads a sequence of characters, starting in state `st`.
pub open spec fn run(st: ScanState, s: Seq<char>) -> ScanState
    decreases s.len(),
{
    if s.len() == 0 {
        st
    } else {
        scan_step(run(st, s.drop_last()), s.last())
    }
}

/// Reads a whole command line.
pub open spec fn scan(s: Seq<char>) -> ScanState {
    run(scan_start(), s)
}

/// The stages after the last character: the command being read is kept
/// only where a word is being read.
pub open spec fn finish_stages(st: ScanState) -> Seq<StageView> {
    if st.token.len() > 0 {
        st.stages.push(stage_of(st.tokens.push(st.token)))
    } else {
        st.stages
    }
}

/// The command line that is read: empty quote pairs `''` and then `""` are
/// removed, then surrounding whitespace.
pub open spec fn cleaned(input: Seq<char>) -> Seq<char> {
    trim(without_pairs(without_pairs(input, '\''), '"'))
}

/// The pipeline that a command line denotes; `None` where a `|` stands with
/// no command before it.
pub open spec fn parse_spec(input: Seq<char>) -> Option<Seq<StageView>> {
    let st = scan(cleaned(input));
    if st.broken {
        None
    } else {
        Some(finish_stages(st))
    }
}

/// The view of the executable scanning state.
pub open spec fn state_view(
    token: String,
    tokens: Seq<String>,
    stages: Seq<PipelineStage>,
    single: bool,
    double: bool,
    escape: bool,
) -> ScanState {
    ScanState {
        token: token@,
        tokens: texts(tokens),
        stages: stage_views(stages),
        single,
        double,
        escape,
        broken: false,
    }
}

/// Splits a command line into pipeline stages, or `None` where a `|` stands
/// with no command before it.
pub fn try_parse_input(input: &str) -> (r: Option<Vec<PipelineStage>>)
    ensures
        match r {
            Some(v) => parse_spec(input@) == Some(stage_views(v@)),
            None => parse_spec(input@) is None,
        },
{
    let raw = chars_of(input);
    let no_single = remove_pairs(&raw, '\'');
    let no_double = remove_pairs(&no_single, '"');
    let cs = trim_chars(&no_double);
    let ghost clean = cleaned(input@);
    assert(cs@ == clean);
    let mut stages: Vec<PipelineStage> = Vec::new();
    let mut tokens: Vec<String> = Vec::new();
    let mut token = String::new();
    let mut inside_single_quote = false;
    let mut inside_double_quote = false;
    let mut escape_next = false;
    let n = cs.len();
    let mut i: usize = 0;
    assert(clean.take(0) == Seq::<char>::empty());
    assert(texts(tokens@) =~= Seq::<Seq<char>>::empty());
    assert(stage_views(stages@) =~= Seq::<StageView>::empty());
    while i < n
        invariant
            n == cs.len(),
            i <= n,
            cs@ == clean,
            clean == cleaned(input@),
            scan(clean.take(i as int)) == state_view(
                token,
                tokens@,
                stages@,
                inside_single_quote,
                inside_double_quote,
                escape_next,
            ),
        decreases n - i,
    {
        let c = cs[i];
        assert(clean.take(i + 1).drop_last() == clean.take(i as int));
        assert(clean.take(i + 1).last() == c);
        let ghost before = state_view(
            token,
            tokens@,
            stages@,
            inside_single_quote,
            inside_double_quote,
            escape_next,
        );
        assert(scan(clean.take(i + 1)) == scan_step(before, c));
        if escape_next {
            push_char(&mut token, c);
            escape_next = false;
        } else if c == ' ' {
            if inside_single_quote || inside_double_quote {
                push_char(&mut token, c);
            } else if !token.as_str().is_empty() {
                tokens.push(token);
                token = String::new();
                assert(texts(tokens@) == before.tokens.push(before.token));
            }
        } else if c == '\'' {
            if inside_double_quote {
                push_char(&mut token, c);
            } else {
                inside_single_quote = !inside_single_quote;
            }
        } else if c == '"' {
            if inside_single_quote {
                push_char(&mut token, c);
            } else {
                inside_double_quote = !inside_double_quote;
            }
        } else if c == '\\' {
            if inside_single_quote {
                push_char(&mut token, c);
            } else {
                escape_next = true;
            }
        } else if c == '|' {
            if inside_single_quote || inside_double_quote {
                push_char(&mut token, c);
            } else {
                if !token.as_str().is_empty() {
                    tokens.push(token);
                    token = String::new();
                    assert(texts(tokens@) == before.tokens.push(before.token));
                }
                if tokens.len() == 0 {
                    proof {
                        lemma_broken_stays(clean, i + 1);
                    }
                    return None;
                }
                let stage = tokens_to_stage(tokens);
                stages.push(stage);
                assert(stage_views(stages@) == before.stages.push(stage@));
                tokens = Vec::new();
                inside_single_quote = false;
                inside_double_quote = false;
                escape_next = false;
                assert(texts(tokens@) == Seq::<Seq<char>>::empty());
            }
        } else {
            push_char(&mut token, c);
        }
        assert(state_view(
            token,
            tokens@,
            stages@,
            inside_single_quote,
            inside_double_quote,
            escape_next,
        ) == scan_step(before, c));
        i = i + 1;
    }
    assert(clean.take(n as int) == clean);
    if !token.as_str().is_empty() {
        let ghost st = scan(clean);
        tokens.push(token);
        assert(texts(tokens@) == st.tokens.push(st.token));
        let stage = tokens_to_stage(tokens);
        stages.push(stage);
        assert(stage_views(stages@) == st.stages.push(stage@));
    }
    Some(stages)
}

/// Once a `|` has come with no command before it, the reading stays broken.
proof fn lemma_broken_stays(s: Seq<char>, k: int)
    requires
        0 <= k <= s.len(),
        scan(s.take(k)).broken,
    ensures
        scan(s).broken,
    decreases s.len() - k,
{
    if k < s.len() {
        assert(s.take(k + 1).drop_last() == s.take(k));
        lemma_broken_stays(s, k + 1);
    } else {
        assert(s.take(k) == s);
    }
}

/// Splits a command line into pipeline stages.
pub fn parse_input(input: &str) -> (r: Vec<PipelineStage>)
    requires
        parse_spec(input@) is Some,
    ensures
        parse_spec(input@) == Some(stage_views(r@)),
{
    match try_parse_input(input) {
        Some(v) => v,
        None => Vec::new(),
    }
}

/// Every word of a stage is non-empty.
pub open spec fn stage_words_nonempty(st: StageView) -> bool {
    &&& st.command.len() > 0
    &&& forall|i: int| 0 <= i < st.args.len() ==> #[trigger] st.args[i].len() > 0
    &&& st.redirect matches Some((_, target)) ==> target.len() > 0
}

/// Every word of the scanning state is non-empty.
pub open spec fn scan_words_nonempty(st: ScanState) -> bool {
    &&& forall|i: int| 0 <= i < st.tokens.len() ==> #[trigger] st.tokens[i].len() > 0
    &&& forall|i: int| 0 <= i < st.stages.len() ==> stage_words_nonempty(#[trigger] st.stages[i])
}

/// The arguments of a command are the words after its name up to the first
/// redirection operator.
pub proof fn lemma_args_before_first_operator(a: Seq<Seq<char>>)
    ensures
        ({
            let st = scan_args(a);
            let k = st.args.len() as int;
            &&& k <= a.len()
            &&& st.args == a.take(k)
            &&& forall|i: int| 0 <= i < k ==> redirect_token_of(#[trigger] a[i]) is None
            &&& k < a.len() ==> redirect_token_of(a[k]) is Some
            &&& st.seen == (k < a.len())
        }),
    decreases a.len(),
{
    if a.len() > 0 {
        let p = a.drop_last();
        lemma_args_before_first_operator(p);
        let st = scan_args(p);
        let k = st.args.len() as int;
        assert forall|i: int| 0 <= i < k implies redirect_token_of(#[trigger] a[i]) is None by {
            assert(a[i] == p[i]);
        }
        if k < p.len() {
            assert(a[k] == p[k]);
        }
        assert(a.take(k) =~= p.take(k));
        if !st.seen && redirect_token_of(a.last()) is None {
            assert(st.args.push(a.last()) =~= a.take(k + 1));
        }
    } else {
        assert(a.take(0) =~= Seq::<Seq<char>>::empty());
    }
}

/// What reading arguments keeps of non-empty words is non-empty.
proof fn lemma_scan_args_nonempty(a: Seq<Seq<char>>)
    requires
        forall|i: int| 0 <= i < a.len() ==> #[trigger] a[i].len() > 0,
    ensures
        forall|i: int| 0 <= i < scan_args(a).args.len() ==> #[trigger] scan_args(a).args[i].len() > 0,
        scan_args(a).target matches Some(t) ==> t.len() > 0,
    decreases a.len(),
{
    if a.len() > 0 {
        let p = a.drop_last();
        assert forall|i: int| 0 <= i < p.len() implies #[trigger] p[i].len() > 0 by {
            assert(p[i] == a[i]);
        }
        lemma_scan_args_nonempty(p);
        assert(a.last() == a[a.len() - 1]);
    }
}

/// A stage built from non-empty words has only non-empty words.
proof fn lemma_stage_of_nonempty(words: Seq<Seq<char>>)
    requires
        words.len() > 0,
        forall|i: int| 0 <= i < words.len() ==> #[trigger] words[i].len() > 0,
    ensures
        stage_words_nonempty(stage_of(words)),
{
    let rest = words.drop_first();
    assert forall|i: int| 0 <= i < rest.len() implies #[trigger] rest[i].len() > 0 by {
        assert(rest[i] == words[i + 1]);
    }
    lemma_scan_args_nonempty(rest);
    assert(words[0].len() > 0);
}

proof fn lemma_scan_nonempty(s: Seq<char>)
    ensures
        scan_words_nonempty(scan(s)),
        scan(s).token.len() > 0 || scan(s).token == Seq::<char>::empty(),
    decreases s.len(),
{
    if s.len() > 0 {
        lemma_scan_nonempty(s.drop_last());
        let st = scan(s.drop_last());
        let c = s.last();
        let words = if st.token.len() > 0 {
            st.tokens.push(st.token)
        } else {
            st.tokens
        };
        assert forall|i: int| 0 <= i < words.len() implies #[trigger] words[i].len() > 0 by {
            if i < st.tokens.len() {
                assert(words[i] == st.tokens[i]);
            }
        }
        if words.len() > 0 {
            lemma_stage_of_nonempty(words);
        }
        let nx = scan(s);
        assert forall|i: int| 0 <= i < nx.stages.len() implies stage_words_nonempty(
            #[trigger] nx.stages[i],
        ) by {
            if i < st.stages.len() {
                assert(nx.stages[i] == st.stages[i]);
            }
        }
        assert forall|i: int| 0 <= i < nx.tokens.len() implies #[trigger] nx.tokens[i].len() > 0 by {
            if i < st.tokens.len() {
                assert(nx.tokens[i] == st.tokens[i]);
            }
        }
    }
}

/// Every command, argument and redirection target that the parser yields is
/// a non-empty word.
pub proof fn lemma_parsed_words_nonempty(input: Seq<char>)
    ensures
        parse_spec(input) matches Some(stages) ==> forall|i: int|
            0 <= i < stages.len() ==> stage_words_nonempty(#[trigger] stages[i]),
{
    let st = scan(cleaned(input));
    lemma_scan_nonempty(cleaned(input));
    if st.token.len() > 0 {
        let words = st.tokens.push(st.token);
        assert forall|i: int| 0 <= i < words.len() implies #[trigger] words[i].len() > 0 by {
            if i < st.tokens.len() {
                assert(words[i] == st.tokens[i]);
            }
        }
        lemma_stage_of_nonempty(words);
        let fin = finish_stages(st);
        assert forall|i: int| 0 <= i < fin.len() implies stage_words_nonempty(#[trigger] fin[i]) by {
            if i < st.stages.len() {
                assert(fin[i] == st.stages[i]);
            }
        }
    }
}

proof fn lemma_scan_without_pipe(s: Seq<char>)
    requires
        !s.contains('|'),
    ensures
        !scan(s).broken,
        scan(s).stages.len() == 0,
    decreases s.len(),
{
    if s.len() > 0 {
        let p = s.drop_last();
        assert(!p.contains('|')) by {
            if p.contains('|') {
                let i = choose|i: int| 0 <= i < p.len() && p[i] == '|';
                assert(s[i] == '|');
            }
        }
        lemma_scan_without_pipe(p);
        assert(s.last() == s[s.len() - 1]);
    }
}

proof fn lemma_without_pairs_keeps_out(s: Seq<char>, q: char, c: char)
    requires
        !s.contains(c),
    ensures
        !without_pairs(s, q).contains(c),
    decreases s.len(),
{
    if s.len() > 0 {
        if s.len() >= 2 && s[0] == q && s[1] == q {
            assert(!s.skip(2).contains(c)) by {
                if s.skip(2).contains(c) {
                    let i = choose|i: int| 0 <= i < s.skip(2).len() && s.skip(2)[i] == c;
                    assert(s[i + 2] == c);
                }
            }
            lemma_without_pairs_keeps_out(s.skip(2), q, c);
        } else {
            assert(!s.skip(1).contains(c)) by {
                if s.skip(1).contains(c) {
                    let i = choose|i: int| 0 <= i < s.skip(1).len() && s.skip(1)[i] == c;
                    assert(s[i + 1] == c);
                }
            }
            lemma_without_pairs_keeps_out(s.skip(1), q, c);
            let r = seq![s[0]] + without_pairs(s.skip(1), q);
            assert(!r.contains(c)) by {
                if r.contains(c) {
                    let i = choose|i: int| 0 <= i < r.len() && r[i] == c;
                    if i == 0 {
                        assert(s[0] == c);
                    } else {
                        assert(without_pairs(s.skip(1), q)[i - 1] == c);
                    }
                }
            }
        }
    }
}

proof fn lemma_trim_keeps_out(s: Seq<char>, c: char)
    requires
        !s.contains(c),
    ensures
        !crate::text::trim_start(s).contains(c),
        !crate::text::trim_end(s).contains(c),
    decreases s.len(),
{
    if s.len() > 0 {
        assert(!s.drop_first().contains(c)) by {
            if s.drop_first().contains(c) {
                let i = choose|i: int| 0 <= i < s.drop_first().len() && s.drop_first()[i] == c;
                assert(s[i + 1] == c);
            }
        }
        assert(!s.drop_last().contains(c)) by {
            if s.drop_last().contains(c) {
                let i = choose|i: int| 0 <= i < s.drop_last().len() && s.drop_last()[i] == c;
                assert(s[i] == c);
            }
        }
        lemma_trim_keeps_out(s.drop_first(), c);
        lemma_trim_keeps_out(s.drop_last(), c);
    }
}

/// A command line without `|` is never refused and gives at most one stage.
pub proof fn lemma_no_pipe_single_stage(input: Seq<char>)
    requires
        !input.contains('|'),
    ensures
        parse_spec(input) matches Some(stages) && stages.len() <= 1,
{
    lemma_without_pairs_keeps_out(input, '\'', '|');
    lemma_without_pairs_keeps_out(without_pairs(input, '\''), '"', '|');
    let w = without_pairs(without_pairs(input, '\''), '"');
    lemma_trim_keeps_out(w, '|');
    lemma_trim_keeps_out(crate::text::trim_start(w), '|');
    lemma_scan_without_pipe(cleaned(input));
}

/// Reading `a` and then `b` is reading `a + b`.
pub proof fn lemma_run_concat(st: ScanState, a: Seq<char>, b: Seq<char>)
    ensures
        run(st, a + b) == run(run(st, a), b),
    decreases b.len(),
{
    if b.len() == 0 {
        assert(a + b =~= a);
    } else {
        lemma_run_concat(st, a, b.drop_last());
        assert((a + b).drop_last() =~= a + b.drop_last());
        assert((a + b).last() == b.last());
    }
}

/// Reading one character is one step.
pub proof fn lemma_run_one(st: ScanState, c: char)
    ensures
        run(st, seq![c]) == scan_step(st, c),
{
    let s = seq![c];
    assert(s.drop_last() =~= Seq::<char>::empty());
    assert(run(st, s.drop_last()) == st);
    assert(s.last() == c);
}

/// A reading state outside quotes, after no backslash, before any failure.
pub open spec fn plain_state(st: ScanState) -> bool {
    !st.broken && !st.escape && !st.single && !st.double
}

proof fn lemma_inside_single_quotes(st: ScanState, w: Seq<char>)
    requires
        !st.broken,
        !st.escape,
        st.single,
        !w.contains('\''),
    ensures
        run(st, w) == (ScanState { token: st.token + w, ..st }),
    decreases w.len(),
{
    if w.len() == 0 {
        assert(st.token + w =~= st.token);
    } else {
        let p = w.drop_last();
        assert(!p.contains('\'')) by {
            if p.contains('\'') {
                let i = choose|i: int| 0 <= i < p.len() && p[i] == '\'';
                assert(w[i] == '\'');
            }
        }
        lemma_inside_single_quotes(st, p);
        assert(w.last() != '\'') by {
            assert(w[w.len() - 1] == w.last());
        }
        assert(st.token + p + seq![w.last()] =~= st.token + w);
    }
}

/// Inside single quotes every character is taken literally: a quoted piece
/// without `'` adds exactly its characters to the word being read.
pub proof fn lemma_single_quotes_literal(st: ScanState, w: Seq<char>)
    requires
        plain_state(st),
        !w.contains('\''),
    ensures
        run(st, seq!['\''] + w + seq!['\'']) == (ScanState { token: st.token + w, ..st }),
{
    let open = ScanState { single: true, ..st };
    lemma_run_one(st, '\'');
    lemma_inside_single_quotes(open, w);
    lemma_run_concat(st, seq!['\''], w);
    lemma_run_concat(st, seq!['\''] + w, seq!['\'']);
    lemma_run_one(ScanState { token: st.token + w, ..open }, '\'');
}

proof fn lemma_inside_double_quotes(st: ScanState, w: Seq<char>)
    requires
        !st.broken,
        !st.escape,
        !st.single,
        st.double,
        !w.contains('"'),
        !w.contains('\\'),
    ensures
        run(st, w) == (ScanState { token: st.token + w, ..st }),
    decreases w.len(),
{
    if w.len() == 0 {
        assert(st.token + w =~= st.token);
    } else {
        let p = w.drop_last();
        assert(!p.contains('"') && !p.contains('\\')) by {
            if p.contains('"') {
                let i = choose|i: int| 0 <= i < p.len() && p[i] == '"';
                assert(w[i] == '"');
            }
            if p.contains('\\') {
                let i = choose|i: int| 0 <= i < p.len() && p[i] == '\\';
                assert(w[i] == '\\');
            }
        }
        lemma_inside_double_quotes(st, p);
        assert(w.last() != '"' && w.last() != '\\') by {
            assert(w[w.len() - 1] == w.last());
        }
        assert(st.token + p + seq![w.last()] =~= st.token + w);
    }
}

/// Inside double quotes every character but `"` and `\` is taken literally:
/// spaces, `'`, `|` and operators among them belong to the word.
pub proof fn lemma_double_quotes_literal(st: ScanState, w: Seq<char>)
    requires
        plain_state(st),
        !w.contains('"'),
        !w.contains('\\'),
    ensures
        run(st, seq!['"'] + w + seq!['"']) == (ScanState { token: st.token + w, ..st }),
{
    let open = ScanState { double: true, ..st };
    lemma_run_one(st, '"');
    lemma_inside_double_quotes(open, w);
    lemma_run_concat(st, seq!['"'], w);
    lemma_run_concat(st, seq!['"'] + w, seq!['"']);
    lemma_run_one(ScanState { token: st.token + w, ..open }, '"');
}

/// Outside single quotes a backslash makes the next character, whatever it
/// is, part of the word.
pub proof fn lemma_backslash_escapes(st: ScanState, c: char)
    requires
        !st.broken,
        !st.escape,
        !st.single,
    ensures
        run(st, seq!['\\', c]) == with_char(st, c),
{
    lemma_run_one(st, '\\');
    lemma_run_concat(st, seq!['\\'], seq![c]);
    assert(seq!['\\'] + seq![c] =~= seq!['\\', c]);
    lemma_run_one(ScanState { escape: true, ..st }, c);
}

/// Outside quotes a space ends the word being read, if any.
pub proof fn lemma_space_ends_word(st: ScanState)
    requires
        plain_state(st),
    ensures
        run(st, seq![' ']) == (if st.token.len() > 0 {
            ScanState { token: seq![], tokens: st.tokens.push(st.token), ..st }
        } else {
            st
        }),
{
    lemma_run_one(st, ' ');
}

/// The words of the command being read, including the word being read.
pub open spec fn pending_words(st: ScanState) -> Seq<Seq<char>> {
    if st.token.len() > 0 {
        st.tokens.push(st.token)
    } else {
        st.tokens
    }
}

/// An unquoted `|` ends the command being read: the stage it adds is the one
/// that `tokens_to_stage` builds from the command's words, redirection
/// included, and reading starts afresh after it. The stage is the same one
/// that the end of the line would add.
pub proof fn lemma_pipe_ends_stage(st: ScanState)
    requires
        plain_state(st),
        pending_words(st).len() > 0,
    ensures
        run(st, seq!['|']) == (ScanState {
            token: seq![],
            tokens: seq![],
            stages: st.stages.push(stage_of(pending_words(st))),
            single: false,
            double: false,
            escape: false,
            broken: false,
        }),
        st.token.len() > 0 ==> run(st, seq!['|']).stages == finish_stages(st),
{
    lemma_run_one(st, '|');
}

proof fn lemma_scan_args_plain(a: Seq<Seq<char>>)
    requires
        forall|i: int| 0 <= i < a.len() ==> redirect_token_of(#[trigger] a[i]) is None,
    ensures
        scan_args(a) == (ArgsScan { args: a, token: None, target: None, seen: false }),
    decreases a.len(),
{
    if a.len() > 0 {
        let p = a.drop_last();
        assert forall|i: int| 0 <= i < p.len() implies redirect_token_of(#[trigger] p[i]) is None by {
            assert(p[i] == a[i]);
        }
        lemma_scan_args_plain(p);
        assert(redirect_token_of(a[a.len() - 1]) is None);
        assert(p.push(a.last()) =~= a);
    }
}

/// A command written as its name, arguments without operators, then one
/// redirection operator and its file, is that command with those arguments
/// and that redirection.
pub proof fn lemma_stage_with_redirect(
    command: Seq<char>,
    args: Seq<Seq<char>>,
    t: SpecialTokens,
    target: Seq<char>,
)
    requires
        t != SpecialTokens::Pipe,
        forall|i: int| 0 <= i < args.len() ==> redirect_token_of(#[trigger] args[i]) is None,
        redirect_token_of(target) is None,
    ensures
        stage_of(seq![command] + args + seq![crate::enums::special_token_text(t), target]) == (
        StageView { command, args, redirect: Some((t, target)) }),
{
    crate::enums::lemma_redirect_roundtrip(t);
    let words = seq![command] + args + seq![crate::enums::special_token_text(t), target];
    let rest = args + seq![crate::enums::special_token_text(t), target];
    assert(words.drop_first() =~= rest);
    assert(words[0] == command);
    assert(rest.drop_last() =~= args.push(crate::enums::special_token_text(t)));
    assert(rest.last() == target);
    let with_op = args.push(crate::enums::special_token_text(t));
    assert(with_op.drop_last() =~= args);
    assert(with_op.last() == crate::enums::special_token_text(t));
    lemma_scan_args_plain(args);
    let st1 = scan_args(with_op);
    assert(st1 == (ArgsScan { args, token: Some(t), target: None, seen: true }));
    let st2 = scan_args(rest);
    assert(st2 == (ArgsScan { args, token: Some(t), target: Some(target), seen: true }));
}

/// A command without redirection operators keeps all its words after the
/// name as arguments and has no redirection.
pub proof fn lemma_stage_without_redirect(command: Seq<char>, args: Seq<Seq<char>>)
    requires
        forall|i: int| 0 <= i < args.len() ==> redirect_token_of(#[trigger] args[i]) is None,
    ensures
        stage_of(seq![command] + args) == (StageView { command, args, redirect: None }),
{
    let words = seq![command] + args;
    assert(words.drop_first() =~= args);
    lemma_scan_args_plain(args);
}

} // verus!
