use vstd::prelude::*;
use vstd::string::StringExecFns;
use vstd::utf8::encode_utf8;
use crate::order::{char_views, lex_order, sort_chars};
use crate::structs::texts;
use crate::text::{chars_of, push_char, str_eq, string_of};

verus! {

broadcast use vstd::string::group_string_axioms;

/// Completes command names and paths at the shell's prompt.
pub struct ShellCompleter;

/// The index just after the last `c` in `s`, or 0 where `s` holds no `c`.
pub open spec fn after_last(s: Seq<char>, c: char) -> int
    decreases s.len(),
{
    if s.len() == 0 {
        0
    } else if s.last() == c {
        s.len() as int
    } else {
        after_last(s.drop_last(), c)
    }
}

/// Whether `s` begins with `p`.
pub open spec fn starts_with(s: Seq<char>, p: Seq<char>) -> bool {
    p.len() <= s.len() && s.subrange(0, p.len() as int) == p
}

/// UTF-8 encoding is compatible with concatenation.
proof fn lemma_encode_concat(a: Seq<char>, b: Seq<char>)
    ensures
        encode_utf8(a + b) == encode_utf8(a) + encode_utf8(b),
    decreases a.len(),
{
    if a.len() == 0 {
        assert(a + b =~= b);
        assert(encode_utf8(a) =~= Seq::<u8>::empty());
        assert(encode_utf8(a) + encode_utf8(b) =~= encode_utf8(b));
    } else {
        lemma_encode_concat(a.drop_first(), b);
        assert((a + b).drop_first() =~= a.drop_first() + b);
        assert((a + b)[0] == a[0]);
        assert(encode_utf8(a + b) =~= encode_utf8(a) + encode_utf8(b));
    }
}

/// The position just after the last `c` in a vector of characters.
fn find_after_last(cs: &Vec<char>, c: char) -> (k: usize)
    ensures
        k == after_last(cs@, c),
        k <= cs.len(),
{
    let mut i = cs.len();
    assert(cs@.take(i as int) == cs@);
    while i > 0 && cs[i - 1] != c
        invariant
            i <= cs.len(),
            after_last(cs@, c) == after_last(cs@.take(i as int), c),
        decreases i,
    {
        assert(cs@.take(i as int).drop_last() == cs@.take(i - 1));
        i = i - 1;
    }
    i
}

/// Whether the characters of `s` begin with those of `p`.
fn chars_start_with(s: &Vec<char>, p: &Vec<char>) -> (r: bool)
    ensures
        r == starts_with(s@, p@),
{
    if p.len() > s.len() {
        return false;
    }
    let mut i: usize = 0;
    while i < p.len()
        invariant
            p.len() <= s.len(),
            i <= p.len(),
            s@.subrange(0, i as int) == p@.take(i as int),
        decreases p.len() - i,
    {
        if s[i] != p[i] {
            assert(s@.subrange(0, p.len() as int)[i as int] != p@[i as int]);
            return false;
        }
        i = i + 1;
        assert(s@.subrange(0, i as int) =~= p@.take(i as int));
    }
    assert(p@.take(p.len() as int) == p@);
    true
}

/// The names that complete a command: the builtins the shell offers.
pub open spec fn builtin_completions() -> Seq<Seq<char>> {
    seq!["echo"@, "type"@, "exit"@, "pwd"@, "cd"@]
}

/// `base` followed by those of `extra` that it does not hold yet, each once,
/// in the order in which they come.
pub open spec fn names_with(base: Seq<Seq<char>>, extra: Seq<Seq<char>>) -> Seq<Seq<char>>
    decreases extra.len(),
{
    if extra.len() == 0 {
        base
    } else {
        let r = names_with(base, extra.drop_last());
        if r.contains(extra.last()) {
            r
        } else {
            r.push(extra.last())
        }
    }
}

/// The names that begin with `prefix`, each followed by a space.
pub open spec fn matching_words(names: Seq<Seq<char>>, prefix: Seq<char>) -> Seq<Seq<char>>
    decreases names.len(),
{
    if names.len() == 0 {
        seq![]
    } else {
        let r = matching_words(names.drop_last(), prefix);
        if starts_with(names.last(), prefix) {
            r.push(names.last().push(' '))
        } else {
            r
        }
    }
}

/// The candidates for a command name: the builtins and then the programs on
/// the search path, each name once, those that begin with the word typed,
/// each followed by a space, in lexicographic order.
pub open spec fn command_completions(path_names: Seq<Seq<char>>, prefix: Seq<char>) -> Seq<
    Seq<char>,
> {
    matching_words(names_with(builtin_completions(), path_names), prefix).sort_by(lex_order())
}

/// The directory in which a path being typed is completed: what stands
/// before its last `/`, or `./` where that is empty.
pub open spec fn dir_part(prefix: Seq<char>) -> Seq<char> {
    let k = after_last(prefix, '/');
    let raw = if k > 0 {
        prefix.take(k - 1)
    } else {
        seq![]
    };
    if raw.len() == 0 {
        "./"@
    } else {
        raw
    }
}

/// The part of a path being typed after its last `/`.
pub open spec fn name_part(prefix: Seq<char>) -> Seq<char> {
    prefix.skip(after_last(prefix, '/'))
}

/// How a directory entry is offered: a directory ends in `/`, anything else
/// in a space; outside `./` the directory is written before it.
pub open spec fn path_completion(dir: Seq<char>, name: Seq<char>, is_dir: bool) -> Seq<char> {
    let end = if is_dir {
        '/'
    } else {
        ' '
    };
    if dir == "./"@ {
        name.push(end)
    } else {
        dir + seq!['/'] + name.push(end)
    }
}

/// The candidates among the entries of a directory, in the directory's order.
pub open spec fn path_completions(
    dir: Seq<char>,
    stem: Seq<char>,
    names: Seq<Seq<char>>,
    dirs: Seq<bool>,
) -> Seq<Seq<char>>
    decreases names.len(),
{
    if names.len() == 0 {
        seq![]
    } else {
        let r = path_completions(dir, stem, names.drop_last(), dirs.take(names.len() - 1));
        if starts_with(names.last(), stem) {
            r.push(path_completion(dir, names.last(), dirs[names.len() - 1]))
        } else {
            r
        }
    }
}

/// Whether `names` holds a string equal to `x`.
fn contains_string(names: &Vec<String>, x: &String) -> (r: bool)
    ensures
        r == texts(names@).contains(x@),
{
    let mut i: usize = 0;
    while i < names.len()
        invariant
            i <= names.len(),
            forall|k: int| 0 <= k < i ==> names@[k]@ != x@,
        decreases names.len() - i,
    {
        if names[i] == *x {
            assert(texts(names@)[i as int] == x@);
            return true;
        }
        i = i + 1;
    }
    assert forall|k: int| 0 <= k < texts(names@).len() implies texts(names@)[k] != x@ by {
        assert(names@[k]@ != x@);
    }
    false
}

impl ShellCompleter {
    /// The word under completion in `word`, the line up to the cursor: what
    /// follows the last space. Gives its start as a byte offset into the line,
    /// and the word itself.
    pub fn current_word(&self, word: &str) -> (r: (usize, String))
        ensures
            r.1@ == word@.skip(after_last(word@, ' ')),
            r.0 == encode_utf8(word@.take(after_last(word@, ' '))).len(),
    {
        let cs = chars_of(word);
        let k = find_after_last(&cs, ' ');
        let mut rest: Vec<char> = Vec::new();
        let mut i = k;
        while i < cs.len()
            invariant
                k <= i <= cs.len(),
                rest@ == cs@.subrange(k as int, i as int),
            decreases cs.len() - i,
        {
            rest.push(cs[i]);
            i = i + 1;
            assert(rest@ =~= cs@.subrange(k as int, i as int));
        }
        assert(rest@ == word@.skip(k as int));
        let prefix = string_of(&rest);
        proof {
            assert(word@ =~= word@.take(k as int) + word@.skip(k as int));
            lemma_encode_concat(word@.take(k as int), word@.skip(k as int));
        }
        let word_bytes = word.as_bytes().len();
        let prefix_bytes = prefix.as_str().as_bytes().len();
        let start = word_bytes - prefix_bytes;
        (start, prefix)
    }

    /// The candidates for a command name beginning with `prefix`, given the
    /// names of the programs found on the search path, in the order found.
    pub fn command_candidates(&self, path_names: &Vec<String>, prefix: &str) -> (r: Vec<String>)
        ensures
            texts(r@) == command_completions(texts(path_names@), prefix@),
    {
        let mut names: Vec<String> = Vec::new();
        names.push("echo".to_owned());
        names.push("type".to_owned());
        names.push("exit".to_owned());
        names.push("pwd".to_owned());
        names.push("cd".to_owned());
        let ghost extra = texts(path_names@);
        assert(texts(names@) =~= builtin_completions());
        assert(extra.take(0) =~= Seq::<Seq<char>>::empty());
        let mut i: usize = 0;
        while i < path_names.len()
            invariant
                i <= path_names.len(),
                extra == texts(path_names@),
                texts(names@) == names_with(builtin_completions(), extra.take(i as int)),
            decreases path_names.len() - i,
        {
            assert(extra.take(i + 1).drop_last() =~= extra.take(i as int));
            assert(extra.take(i + 1).last() == path_names@[i as int]@);
            if !contains_string(&names, &path_names[i]) {
                names.push(path_names[i].clone());
                assert(texts(names@) =~= texts(names@.drop_last()).push(path_names@[i as int]@));
            }
            i = i + 1;
        }
        assert(extra.take(path_names.len() as int) =~= extra);
        let ghost all = texts(names@);
        let p = chars_of(prefix);
        let mut cands: Vec<Vec<char>> = Vec::new();
        let mut j: usize = 0;
        assert(all.take(0) =~= Seq::<Seq<char>>::empty());
        assert(char_views(cands@) =~= Seq::<Seq<char>>::empty());
        while j < names.len()
            invariant
                j <= names.len(),
                all == texts(names@),
                p@ == prefix@,
                char_views(cands@) == matching_words(all.take(j as int), prefix@),
            decreases names.len() - j,
        {
            assert(all.take(j + 1).drop_last() =~= all.take(j as int));
            assert(all.take(j + 1).last() == names@[j as int]@);
            let mut w = chars_of(names[j].as_str());
            if chars_start_with(&w, &p) {
                let ghost wv = w@;
                w.push(' ');
                cands.push(w);
                assert(char_views(cands@) =~= char_views(cands@.drop_last()).push(wv.push(' ')));
            }
            j = j + 1;
        }
        assert(all.take(names.len() as int) =~= all);
        let sorted = sort_chars(cands);
        let mut out: Vec<String> = Vec::new();
        let mut k: usize = 0;
        while k < sorted.len()
            invariant
                k <= sorted.len(),
                texts(out@) == char_views(sorted@).take(k as int),
            decreases sorted.len() - k,
        {
            let s = string_of(&sorted[k]);
            assert(s@ == char_views(sorted@)[k as int]);
            let ghost prev = texts(out@);
            out.push(s);
            assert(texts(out@) =~= prev.push(s@));
            k = k + 1;
            assert(texts(out@) =~= char_views(sorted@).take(k as int));
        }
        assert(char_views(sorted@).take(sorted.len() as int) =~= char_views(sorted@));
        out
    }

    /// Splits a path being typed into the directory to look in and the
    /// beginning of the entry's name.
    pub fn split_path_prefix(&self, prefix: &str) -> (r: (String, String))
        ensures
            r.0@ == dir_part(prefix@),
            r.1@ == name_part(prefix@),
    {
        let cs = chars_of(prefix);
        let k = find_after_last(&cs, '/');
        let mut dir: Vec<char> = Vec::new();
        let mut i: usize = 0;
        let end = if k > 0 {
            k - 1
        } else {
            0
        };
        while i < end
            invariant
                end <= k <= cs.len(),
                i <= end,
                dir@ == cs@.take(i as int),
            decreases end - i,
        {
            dir.push(cs[i]);
            i = i + 1;
            assert(dir@ =~= cs@.take(i as int));
        }
        let mut stem: Vec<char> = Vec::new();
        let mut j = k;
        while j < cs.len()
            invariant
                k <= j <= cs.len(),
                stem@ == cs@.subrange(k as int, j as int),
            decreases cs.len() - j,
        {
            stem.push(cs[j]);
            j = j + 1;
            assert(stem@ =~= cs@.subrange(k as int, j as int));
        }
        assert(stem@ =~= prefix@.skip(k as int));
        let dir_text = if dir.len() == 0 {
            "./".to_owned()
        } else {
            assert(dir@ =~= prefix@.take(k - 1));
            string_of(&dir)
        };
        proof {
            if k == 0 {
                assert(dir@.len() == 0);
            } else {
                assert(dir@ =~= prefix@.take(k - 1));
            }
        }
        (dir_text, string_of(&stem))
    }

    /// The candidates among a directory's entries: those whose name begins
    /// with `stem`, in the directory's order, a directory ending in `/` and
    /// anything else in a space, written after `dir` unless `dir` is `./`.
    pub fn path_candidates(&self, dir: &str, stem: &str, names: &Vec<String>, dirs: &Vec<bool>) -> (r: Vec<String>)
        requires
            names.len() == dirs.len(),
        ensures
            texts(r@) == path_completions(dir@, stem@, texts(names@), dirs@),
    {
        let here = str_eq(dir, "./");
        let p = chars_of(stem);
        let ghost all = texts(names@);
        let mut out: Vec<String> = Vec::new();
        let mut i: usize = 0;
        assert(all.take(0) =~= Seq::<Seq<char>>::empty());
        assert(texts(out@) =~= Seq::<Seq<char>>::empty());
        while i < names.len()
            invariant
                i <= names.len(),
                names.len() == dirs.len(),
                all == texts(names@),
                p@ == stem@,
                here == (dir@ == "./"@),
                texts(out@) == path_completions(dir@, stem@, all.take(i as int), dirs@.take(i as int)),
            decreases names.len() - i,
        {
            let ghost next = all.take(i + 1);
            assert(next.drop_last() =~= all.take(i as int));
            assert(next.last() == names@[i as int]@);
            assert(dirs@.take(i + 1).take(i as int) =~= dirs@.take(i as int));
            assert(dirs@.take(i + 1)[i as int] == dirs@[i as int]);
            let w = chars_of(names[i].as_str());
            if chars_start_with(&w, &p) {
                let end = if dirs[i] {
                    '/'
                } else {
                    ' '
                };
                let mut c = if here {
                    String::new()
                } else {
                    let mut d = dir.to_owned();
                    push_char(&mut d, '/');
                    d
                };
                c.append(names[i].as_str());
                push_char(&mut c, end);
                let ghost cv = c@;
                assert(cv =~= path_completion(dir@, names@[i as int]@, dirs@[i as int]));
                out.push(c);
                assert(texts(out@) =~= texts(out@.drop_last()).push(cv));
            }
            i = i + 1;
        }
        assert(all.take(names.len() as int) =~= all);
        assert(dirs@.take(names.len() as int) =~= dirs@);
        out
    }
}

/// A word offered for `prefix` begins with it and ends in a space.
pub open spec fn offered_for(x: Seq<char>, prefix: Seq<char>) -> bool {
    starts_with(x, prefix) && x.len() > 0 && x.last() == ' '
}

proof fn lemma_matching_words_offered(names: Seq<Seq<char>>, prefix: Seq<char>)
    ensures
        forall|i: int|
            0 <= i < matching_words(names, prefix).len() ==> offered_for(
                #[trigger] matching_words(names, prefix)[i],
                prefix,
            ),
    decreases names.len(),
{
    if names.len() > 0 {
        lemma_matching_words_offered(names.drop_last(), prefix);
        let r = matching_words(names.drop_last(), prefix);
        let w = names.last();
        if starts_with(w, prefix) {
            let x = w.push(' ');
            assert(x.subrange(0, prefix.len() as int) =~= w.subrange(0, prefix.len() as int));
            assert forall|i: int| 0 <= i < r.push(x).len() implies offered_for(
                #[trigger] r.push(x)[i],
                prefix,
            ) by {
                if i < r.len() {
                    assert(r.push(x)[i] == r[i]);
                }
            }
        }
    }
}

/// Every command name offered begins with the word typed and ends in a space.
pub proof fn lemma_command_completions_offered(path_names: Seq<Seq<char>>, prefix: Seq<char>)
    ensures
        forall|i: int|
            0 <= i < command_completions(path_names, prefix).len() ==> offered_for(
                #[trigger] command_completions(path_names, prefix)[i],
                prefix,
            ),
{
    let m = matching_words(names_with(builtin_completions(), path_names), prefix);
    lemma_matching_words_offered(names_with(builtin_completions(), path_names), prefix);
    crate::order::lemma_lex_total();
    m.lemma_sort_by_ensures(lex_order());
    let sorted = m.sort_by(lex_order());
    assert forall|i: int| 0 <= i < sorted.len() implies offered_for(#[trigger] sorted[i], prefix) by {
        assert(sorted.contains(sorted[i]));
        assert(m.contains(sorted[i]));
        let j = choose|j: int| 0 <= j < m.len() && m[j] == sorted[i];
        assert(offered_for(m[j], prefix));
    }
}

proof fn lemma_names_with_unique(base: Seq<Seq<char>>, extra: Seq<Seq<char>>)
    requires
        base.no_duplicates(),
    ensures
        names_with(base, extra).no_duplicates(),
    decreases extra.len(),
{
    if extra.len() > 0 {
        lemma_names_with_unique(base, extra.drop_last());
        let r = names_with(base, extra.drop_last());
        let x = extra.last();
        if !r.contains(x) {
            assert forall|i: int, j: int| 0 <= i < r.push(x).len() && 0 <= j < r.push(x).len() && i
                != j implies r.push(x)[i] != r.push(x)[j] by {
                if i < r.len() && j < r.len() {
                } else if i < r.len() {
                    assert(r.push(x)[j] == x);
                    assert(r.push(x)[i] == r[i]);
                } else {
                    assert(r.push(x)[i] == x);
                    assert(r.push(x)[j] == r[j]);
                }
            }
        }
    }
}

proof fn lemma_matching_words_unique(names: Seq<Seq<char>>, prefix: Seq<char>)
    requires
        names.no_duplicates(),
    ensures
        matching_words(names, prefix).no_duplicates(),
        forall|i: int|
            0 <= i < matching_words(names, prefix).len() ==> exists|j: int|
                0 <= j < names.len() && #[trigger] matching_words(names, prefix)[i] == names[j].push(
                    ' ',
                ),
    decreases names.len(),
{
    if names.len() > 0 {
        let p = names.drop_last();
        assert(p.no_duplicates());
        lemma_matching_words_unique(p, prefix);
        let r = matching_words(p, prefix);
        let w = names.last();
        assert forall|i: int| 0 <= i < r.len() implies exists|j: int|
            0 <= j < names.len() && #[trigger] r[i] == names[j].push(' ') by {
            let j = choose|j: int| 0 <= j < p.len() && r[i] == p[j].push(' ');
            assert(names[j] == p[j]);
        }
        if starts_with(w, prefix) {
            let x = w.push(' ');
            let r2 = r.push(x);
            assert forall|i: int| 0 <= i < r.len() implies r[i] != x by {
                let j = choose|j: int| 0 <= j < p.len() && r[i] == p[j].push(' ');
                if r[i] == x {
                    assert(p[j].push(' ').drop_last() =~= p[j]);
                    assert(w.push(' ').drop_last() =~= w);
                    assert(names[j] == names[names.len() - 1]);
                }
            }
            assert forall|i: int, j: int| 0 <= i < r2.len() && 0 <= j < r2.len() && i != j implies r2[i]
                != r2[j] by {
                if i < r.len() && j < r.len() {
                } else if i < r.len() {
                    assert(r2[i] == r[i]);
                } else {
                    assert(r2[j] == r[j]);
                }
            }
            assert forall|i: int| 0 <= i < r2.len() implies exists|j: int|
                0 <= j < names.len() && #[trigger] r2[i] == names[j].push(' ') by {
                if i < r.len() {
                    assert(r2[i] == r[i]);
                } else {
                    assert(r2[i] == names[names.len() - 1].push(' '));
                }
            }
        }
    }
}

/// Every command name is offered at most once.
pub proof fn lemma_command_completions_unique(path_names: Seq<Seq<char>>, prefix: Seq<char>)
    ensures
        command_completions(path_names, prefix).no_duplicates(),
{
    crate::enums::lemma_builtin_names_distinct();
    let b = builtin_completions();
    assert(b.no_duplicates()) by {
        assert(b[0] == "echo"@ && b[1] == "type"@ && b[2] == "exit"@ && b[3] == "pwd"@ && b[4]
            == "cd"@);
    }
    lemma_names_with_unique(b, path_names);
    let names = names_with(b, path_names);
    lemma_matching_words_unique(names, prefix);
    let m = matching_words(names, prefix);
    crate::order::lemma_lex_total();
    m.lemma_sort_by_ensures(lex_order());
    m.lemma_multiset_has_no_duplicates();
    let sorted = m.sort_by(lex_order());
    assert forall|x: Seq<char>| sorted.to_multiset().contains(x) implies sorted.to_multiset().count(
        x,
    ) == 1 by {
        assert(m.to_multiset().contains(x));
    }
    sorted.lemma_multiset_has_no_duplicates_conv();
}

} // verus!
