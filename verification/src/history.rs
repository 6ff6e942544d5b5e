use vstd::prelude::*;
use vstd::string::StringExecFns;
use rustyline::history::FileHistory;
use crate::structs::texts;
use crate::text::{decimal, is_whitespace, push_char, push_decimal};

verus! {

broadcast use vstd::string::group_string_axioms;

/// rustyline's `FileHistory`, the line editor's history.
#[verifier::external_type_specification]
#[verifier::external_body]
pub struct ExFileHistory(FileHistory);

/// The lines that a line editor's history holds, oldest first.
pub uninterp spec fn history_entries(h: FileHistory) -> Seq<Seq<char>>;

/// The number of lines that a history keeps at most.
pub uninterp spec fn history_max_len(h: FileHistory) -> nat;

/// Whether a history refuses lines that start with whitespace.
pub uninterp spec fn history_ignores_space(h: FileHistory) -> bool;

/// Whether a history refuses a line equal to its last one.
pub uninterp spec fn history_ignores_dups(h: FileHistory) -> bool;

/// Whether a history with these settings refuses `line`.
pub open spec fn history_refuses(
    entries: Seq<Seq<char>>,
    line: Seq<char>,
    max_len: nat,
    ignores_space: bool,
    ignores_dups: bool,
) -> bool {
    ||| max_len == 0
    ||| line.len() == 0
    ||| ignores_space && is_whitespace(line[0])
    ||| ignores_dups && entries.len() > 0 && entries.last() == line
}

/// The lines of a history after it was offered `line`: a refused line changes
/// nothing; an accepted one goes last, and the oldest line leaves where the
/// history was full.
pub open spec fn history_after_add(
    entries: Seq<Seq<char>>,
    line: Seq<char>,
    max_len: nat,
    ignores_space: bool,
    ignores_dups: bool,
) -> Seq<Seq<char>> {
    if history_refuses(entries, line, max_len, ignores_space, ignores_dups) {
        entries
    } else if entries.len() == max_len {
        entries.drop_first().push(line)
    } else {
        entries.push(line)
    }
}

/// Whether two histories have the same settings.
pub open spec fn same_settings(a: FileHistory, b: FileHistory) -> bool {
    &&& history_max_len(a) == history_max_len(b)
    &&& history_ignores_space(a) == history_ignores_space(b)
    &&& history_ignores_dups(a) == history_ignores_dups(b)
}

/// Number of lines in the history (`History::len` of `FileHistory`): the
/// contract claims that it is the number of its lines.
#[verifier::external_body]
fn history_len(h: &FileHistory) -> (n: usize)
    ensures
        n == history_entries(*h).len(),
{
    rustyline::history::History::len(h)
}

/// The lines of the history, oldest first, copied out of `FileHistory::iter`:
/// the contract claims that they are the history's lines in order.
#[verifier::external_body]
fn history_lines(h: &FileHistory) -> (v: Vec<String>)
    ensures
        texts(v@) == history_entries(*h),
{
    h.iter().map(|s| s.clone()).collect()
}

/// Empties the history (`History::clear` of `FileHistory`, which never fails):
/// the contract claims that no line is left and the settings stay. The count
/// of lines not yet saved to a file, which the history also keeps, is not
/// described.
#[verifier::external_body]
fn history_clear(h: &mut FileHistory)
    ensures
        history_entries(*final(h)) == Seq::<Seq<char>>::empty(),
        same_settings(*old(h), *final(h)),
{
    let _ = rustyline::history::History::clear(h);
}

/// Offers a line to the history (`History::add` of `FileHistory`, which never
/// fails): the contract claims that the line is refused where the history's
/// limit is zero lines, the line is empty, starts with whitespace while
/// such lines are ignored, or repeats the last line while repeats are
/// ignored; that an accepted line goes last, after the oldest line left where
/// the history was full; and that the result says whether the line was
/// accepted. The count of lines not yet saved to a file, which the history
/// also keeps, is not described.
#[verifier::external_body]
fn history_add(h: &mut FileHistory, line: &str) -> (added: bool)
    ensures
        added == !history_refuses(
            history_entries(*old(h)),
            line@,
            history_max_len(*old(h)),
            history_ignores_space(*old(h)),
            history_ignores_dups(*old(h)),
        ),
        history_entries(*final(h)) == history_after_add(
            history_entries(*old(h)),
            line@,
            history_max_len(*old(h)),
            history_ignores_space(*old(h)),
            history_ignores_dups(*old(h)),
        ),
        same_settings(*old(h), *final(h)),
{
    match rustyline::history::History::add(h, line) {
        Ok(b) => b,
        Err(_) => false,
    }
}

/// The lines that offering `lines` one by one to an empty history with these
/// settings leaves.
pub open spec fn readded(
    lines: Seq<Seq<char>>,
    max_len: nat,
    ignores_space: bool,
    ignores_dups: bool,
) -> Seq<Seq<char>>
    decreases lines.len(),
{
    if lines.len() == 0 {
        seq![]
    } else {
        history_after_add(
            readded(lines.drop_last(), max_len, ignores_space, ignores_dups),
            lines.last(),
            max_len,
            ignores_space,
            ignores_dups,
        )
    }
}

/// Empties the history and offers it its old lines again, oldest first, as
/// `history -r` does after reading the file: the history's rules on what it
/// refuses apply to them anew.
pub fn reload_history(history: &mut FileHistory)
    ensures
        history_entries(*final(history)) == readded(
            history_entries(*old(history)),
            history_max_len(*old(history)),
            history_ignores_space(*old(history)),
            history_ignores_dups(*old(history)),
        ),
        same_settings(*old(history), *final(history)),
{
    let existing = history_lines(history);
    let ghost lines = texts(existing@);
    history_clear(history);
    let mut i: usize = 0;
    assert(lines.take(0) == Seq::<Seq<char>>::empty());
    while i < existing.len()
        invariant
            i <= existing.len(),
            lines == texts(existing@),
            lines == history_entries(*old(history)),
            same_settings(*old(history), *history),
            history_entries(*history) == readded(
                lines.take(i as int),
                history_max_len(*old(history)),
                history_ignores_space(*old(history)),
                history_ignores_dups(*old(history)),
            ),
        decreases existing.len() - i,
    {
        assert(lines.take(i + 1).drop_last() == lines.take(i as int));
        assert(lines.take(i + 1).last() == existing[i as int]@);
        let _ = history_add(history, existing[i].as_str());
        i = i + 1;
    }
    assert(lines.take(existing.len() as int) == lines);
}

/// The line that `history` prints for the entry at `index` (counted from 0).
pub open spec fn listing_line(index: int, entry: Seq<char>) -> Seq<char> {
    "    "@ + decimal((index + 1) as nat) + "  "@ + entry + "\n"@
}

/// The lines that `history` prints for the entries from `first` up to `end`.
pub open spec fn listing(entries: Seq<Seq<char>>, first: int, end: int) -> Seq<char>
    decreases end - first,
{
    if end <= first {
        seq![]
    } else {
        listing(entries, first, end - 1) + listing_line(end - 1, entries[end - 1])
    }
}

/// The listing of `history`: every line numbered from 1, or, given a limit,
/// only the last that many lines, still numbered by their place in the whole
/// history.
pub fn history_listing(history: &FileHistory, limit: Option<usize>) -> (text: String)
    requires
        limit matches Some(m) ==> m <= history_entries(*history).len(),
    ensures
        text@ == listing(
            history_entries(*history),
            match limit {
                Some(m) => history_entries(*history).len() - m,
                None => 0,
            },
            history_entries(*history).len() as int,
        ),
{
    let lines = history_lines(history);
    let ghost entries = texts(lines@);
    let n = lines.len();
    let first = match limit {
        Some(m) => n - m,
        None => 0,
    };
    let mut text = String::new();
    let mut i = first;
    while i < n
        invariant
            n == lines.len(),
            entries == texts(lines@),
            first <= i <= n,
            text@ == listing(entries, first as int, i as int),
        decreases n - i,
    {
        text.append("    ");
        push_decimal(&mut text, i + 1);
        text.append("  ");
        text.append(lines[i].as_str());
        push_char(&mut text, '\n');
        proof {
            reveal_strlit("\n");
        }
        i = i + 1;
    }
    text
}

/// The entries followed each by a newline.
pub open spec fn lines_text(entries: Seq<Seq<char>>) -> Seq<char>
    decreases entries.len(),
{
    if entries.len() == 0 {
        seq![]
    } else {
        lines_text(entries.drop_last()) + entries.last() + seq!['\n']
    }
}

/// What `history -w`, `history -a` and `exit` write to a history file: each
/// line of the history followed by a newline.
pub fn history_file_text(history: &FileHistory) -> (text: String)
    ensures
        text@ == lines_text(history_entries(*history)),
{
    let lines = history_lines(history);
    let ghost entries = texts(lines@);
    let mut text = String::new();
    let mut i: usize = 0;
    assert(entries.take(0) == Seq::<Seq<char>>::empty());
    while i < lines.len()
        invariant
            i <= lines.len(),
            entries == texts(lines@),
            text@ == lines_text(entries.take(i as int)),
        decreases lines.len() - i,
    {
        assert(entries.take(i + 1).drop_last() == entries.take(i as int));
        text.append(lines[i].as_str());
        push_char(&mut text, '\n');
        i = i + 1;
    }
    assert(entries.take(lines.len() as int) == entries);
    text
}

/// The listing of `history` for an optional limit, or `None` where the limit
/// exceeds the number of lines (there `history N` has no answer).
pub fn try_history_listing(history: &FileHistory, limit: Option<usize>) -> (r: Option<String>)
    ensures
        match r {
            Some(text) => (limit matches Some(m) ==> m <= history_entries(*history).len())
                && text@ == listing(
                history_entries(*history),
                match limit {
                    Some(m) => history_entries(*history).len() - m,
                    None => 0,
                },
                history_entries(*history).len() as int,
            ),
            None => limit matches Some(m) && m > history_entries(*history).len(),
        },
{
    match limit {
        Some(m) => {
            if m > history_len(history) {
                return None;
            }
        },
        None => {},
    }
    Some(history_listing(history, limit))
}

/// Whether a history with these settings would refuse none of `lines` when
/// they are offered in order: within the limit, none empty, none starting with
/// whitespace where that is refused, none repeating the one before it where
/// repeats are refused.
pub open spec fn acceptable_lines(
    lines: Seq<Seq<char>>,
    max_len: nat,
    ignores_space: bool,
    ignores_dups: bool,
) -> bool {
    &&& lines.len() <= max_len
    &&& forall|i: int| 0 <= i < lines.len() ==> #[trigger] lines[i].len() > 0
    &&& ignores_space ==> forall|i: int|
        0 <= i < lines.len() ==> !is_whitespace(#[trigger] lines[i][0])
    &&& ignores_dups ==> forall|i: int| 0 < i < lines.len() ==> #[trigger] lines[i] != lines[i - 1]
}

/// Reading the history back keeps it as it is, oldest first, where it refuses
/// none of its own lines.
pub proof fn lemma_reload_keeps_lines(
    lines: Seq<Seq<char>>,
    max_len: nat,
    ignores_space: bool,
    ignores_dups: bool,
)
    requires
        acceptable_lines(lines, max_len, ignores_space, ignores_dups),
    ensures
        readded(lines, max_len, ignores_space, ignores_dups) == lines,
    decreases lines.len(),
{
    if lines.len() > 0 {
        let p = lines.drop_last();
        assert forall|i: int| 0 <= i < p.len() implies #[trigger] p[i].len() > 0 by {
            assert(p[i] == lines[i]);
        }
        if ignores_space {
            assert forall|i: int| 0 <= i < p.len() implies !is_whitespace(#[trigger] p[i][0]) by {
                assert(p[i] == lines[i]);
            }
        }
        if ignores_dups {
            assert forall|i: int| 0 < i < p.len() implies #[trigger] p[i] != p[i - 1] by {
                assert(p[i] == lines[i]);
                assert(p[i - 1] == lines[i - 1]);
            }
        }
        lemma_reload_keeps_lines(p, max_len, ignores_space, ignores_dups);
        let last = lines[lines.len() - 1];
        assert(last.len() > 0);
        if ignores_space {
            assert(!is_whitespace(last[0]));
        }
        if ignores_dups && p.len() > 0 {
            assert(p.last() == lines[lines.len() - 2]);
        }
        assert(!history_refuses(p, lines.last(), max_len, ignores_space, ignores_dups));
        assert(p.push(lines.last()) =~= lines);
    }
}

/// A listing splits at any entry: the lines for `first..end` are those for
/// `first..mid` followed by those for `mid..end`.
pub proof fn lemma_listing_split(entries: Seq<Seq<char>>, first: int, mid: int, end: int)
    requires
        first <= mid <= end,
    ensures
        listing(entries, first, end) == listing(entries, first, mid) + listing(entries, mid, end),
    decreases end - mid,
{
    if mid == end {
        assert(listing(entries, mid, end) == Seq::<char>::empty());
        assert(listing(entries, first, mid) + Seq::<char>::empty() =~= listing(entries, first, mid));
    } else {
        lemma_listing_split(entries, first, mid, end - 1);
        if mid == end - 1 {
            assert(listing(entries, mid, end - 1) == Seq::<char>::empty());
            assert(listing(entries, mid, end) =~= listing_line(end - 1, entries[end - 1]));
        }
        assert(listing(entries, first, end) =~= listing(entries, first, mid) + listing(
            entries,
            mid,
            end,
        ));
    }
}

/// A listing has one line for each listed entry: the lines for `first..end`
/// are the line of entry `first` (numbered `first + 1`) followed by those for
/// `first + 1..end`; the lines for a single entry are its own line; and the
/// lines hold as many line ends as entries where no entry holds one.
pub proof fn lemma_listing_lines(entries: Seq<Seq<char>>, first: int, end: int)
    ensures
        first < end ==> listing(entries, first, end) == listing_line(first, entries[first])
            + listing(entries, first + 1, end),
        first < end ==> listing(entries, first, first + 1) == listing_line(first, entries[first]),
        end <= first ==> listing(entries, first, end) == Seq::<char>::empty(),
        0 <= first && end <= entries.len() && (forall|i: int|
            0 <= i < entries.len() ==> !(#[trigger] entries[i]).contains('\n')) ==> newlines(
            listing(entries, first, end),
        ) == if end > first {
            end - first
        } else {
            0
        },
    decreases end - first,
{
    if first < end {
        lemma_listing_split(entries, first, first + 1, end);
        assert(listing(entries, first, first) == Seq::<char>::empty());
        assert(listing(entries, first, first + 1) =~= listing_line(first, entries[first]));
        if 0 <= first && end <= entries.len() && (forall|i: int|
            0 <= i < entries.len() ==> !(#[trigger] entries[i]).contains('\n')) {
            lemma_listing_lines(entries, first + 1, end);
            lemma_newlines_concat(listing_line(first, entries[first]), listing(entries, first + 1, end));
            lemma_listing_line_one_newline(first, entries[first]);
        }
    }
}

/// The number of line ends in `s`.
pub open spec fn newlines(s: Seq<char>) -> nat
    decreases s.len(),
{
    if s.len() == 0 {
        0
    } else {
        newlines(s.drop_last()) + if s.last() == '\n' {
            1nat
        } else {
            0nat
        }
    }
}

proof fn lemma_newlines_concat(a: Seq<char>, b: Seq<char>)
    ensures
        newlines(a + b) == newlines(a) + newlines(b),
    decreases b.len(),
{
    if b.len() == 0 {
        assert(a + b =~= a);
    } else {
        lemma_newlines_concat(a, b.drop_last());
        assert((a + b).drop_last() =~= a + b.drop_last());
        assert((a + b).last() == b.last());
    }
}

proof fn lemma_newlines_none(s: Seq<char>)
    requires
        !s.contains('\n'),
    ensures
        newlines(s) == 0,
    decreases s.len(),
{
    if s.len() > 0 {
        assert(!s.drop_last().contains('\n')) by {
            if s.drop_last().contains('\n') {
                let i = choose|i: int| 0 <= i < s.drop_last().len() && s.drop_last()[i] == '\n';
                assert(s[i] == '\n');
            }
        }
        lemma_newlines_none(s.drop_last());
        assert(s.last() == s[s.len() - 1]);
    }
}

proof fn lemma_decimal_no_newline(n: nat)
    ensures
        !decimal(n).contains('\n'),
    decreases n,
{
    crate::enums::lemma_decimal_value(n);
    let d = decimal(n);
    if d.contains('\n') {
        let i = choose|i: int| 0 <= i < d.len() && d[i] == '\n';
        assert(crate::enums::is_digit(d[i]));
    }
}

proof fn lemma_listing_line_one_newline(index: int, entry: Seq<char>)
    requires
        !entry.contains('\n'),
    ensures
        newlines(listing_line(index, entry)) == 1,
{
    reveal_strlit("    ");
    reveal_strlit("  ");
    reveal_strlit("\n");
    let d = decimal((index + 1) as nat);
    lemma_decimal_no_newline((index + 1) as nat);
    let head = "    "@ + d + "  "@ + entry;
    assert(!"    "@.contains('\n')) by {
        assert("    "@ =~= seq![' ', ' ', ' ', ' ']);
    }
    assert(!"  "@.contains('\n')) by {
        assert("  "@ =~= seq![' ', ' ']);
    }
    assert(!head.contains('\n')) by {
        if head.contains('\n') {
            let i = choose|i: int| 0 <= i < head.len() && head[i] == '\n';
            if i < 4 {
                assert("    "@[i] == '\n');
            } else if i < 4 + d.len() {
                assert(d[i - 4] == '\n');
            } else if i < 6 + d.len() {
                assert("  "@[i - 4 - d.len()] == '\n');
            } else {
                assert(entry[i - 6 - d.len()] == '\n');
            }
        }
    }
    lemma_newlines_none(head);
    assert("\n"@ =~= seq!['\n']);
    assert(listing_line(index, entry) =~= head.push('\n'));
    assert(head.push('\n').drop_last() =~= head);
}

} // verus!
