use vstd::prelude::*;
use vstd::relations::{sorted_by, total_ordering};

verus! {

/// Lexicographic order of character sequences by code point, which is the
/// order of `String`s (their UTF-8 bytes compare the same way).
pub open spec fn lex_le(a: Seq<char>, b: Seq<char>) -> bool
    decreases a.len(),
{
    if a.len() == 0 {
        true
    } else if b.len() == 0 {
        false
    } else if a[0] != b[0] {
        a[0] < b[0]
    } else {
        lex_le(a.drop_first(), b.drop_first())
    }
}

/// [`lex_le`] as a relation.
pub open spec fn lex_order() -> spec_fn(Seq<char>, Seq<char>) -> bool {
    |a: Seq<char>, b: Seq<char>| lex_le(a, b)
}

proof fn lemma_lex_reflexive(a: Seq<char>)
    ensures
        lex_le(a, a),
    decreases a.len(),
{
    if a.len() > 0 {
        lemma_lex_reflexive(a.drop_first());
    }
}

proof fn lemma_lex_antisymmetric(a: Seq<char>, b: Seq<char>)
    requires
        lex_le(a, b),
        lex_le(b, a),
    ensures
        a == b,
    decreases a.len(),
{
    if a.len() == 0 {
        assert(b.len() == 0);
        assert(a =~= b);
    } else {
        assert(b.len() > 0);
        assert(a[0] == b[0]);
        lemma_lex_antisymmetric(a.drop_first(), b.drop_first());
        assert(a =~= seq![a[0]] + a.drop_first());
        assert(b =~= seq![b[0]] + b.drop_first());
    }
}

proof fn lemma_lex_transitive(a: Seq<char>, b: Seq<char>, c: Seq<char>)
    requires
        lex_le(a, b),
        lex_le(b, c),
    ensures
        lex_le(a, c),
    decreases a.len(),
{
    if a.len() > 0 && b.len() > 0 && c.len() > 0 {
        if a[0] == b[0] && b[0] == c[0] {
            lemma_lex_transitive(a.drop_first(), b.drop_first(), c.drop_first());
        }
    }
}

proof fn lemma_lex_connected(a: Seq<char>, b: Seq<char>)
    ensures
        lex_le(a, b) || lex_le(b, a),
    decreases a.len(),
{
    if a.len() > 0 && b.len() > 0 && a[0] == b[0] {
        lemma_lex_connected(a.drop_first(), b.drop_first());
    }
}

/// The lexicographic order is a total order.
pub proof fn lemma_lex_total()
    ensures
        total_ordering(lex_order()),
{
    assert forall|a: Seq<char>| #[trigger] lex_order()(a, a) by {
        lemma_lex_reflexive(a);
    }
    assert forall|a: Seq<char>, b: Seq<char>|
        #[trigger] lex_order()(a, b) && #[trigger] lex_order()(b, a) implies a == b by {
        lemma_lex_antisymmetric(a, b);
    }
    assert forall|a: Seq<char>, b: Seq<char>, c: Seq<char>|
        #[trigger] lex_order()(a, b) && #[trigger] lex_order()(b, c) implies lex_order()(a, c) by {
        lemma_lex_transitive(a, b, c);
    }
    assert forall|a: Seq<char>, b: Seq<char>|
        #[trigger] lex_order()(a, b) || #[trigger] lex_order()(b, a) by {
        lemma_lex_connected(a, b);
    }
}

/// Compares two character sequences lexicographically.
pub fn chars_le(a: &Vec<char>, b: &Vec<char>) -> (r: bool)
    ensures
        r == lex_le(a@, b@),
{
    let mut i: usize = 0;
    assert(a@.skip(0) == a@);
    assert(b@.skip(0) == b@);
    while i < a.len() && i < b.len() && a[i] == b[i]
        invariant
            i <= a.len(),
            i <= b.len(),
            lex_le(a@, b@) == lex_le(a@.skip(i as int), b@.skip(i as int)),
        decreases a.len() - i,
    {
        assert(a@.skip(i as int).drop_first() == a@.skip(i + 1));
        assert(b@.skip(i as int).drop_first() == b@.skip(i + 1));
        i = i + 1;
    }
    if i == a.len() {
        true
    } else if i == b.len() {
        false
    } else {
        a[i] < b[i]
    }
}

/// The character sequences of a vector of character vectors.
pub open spec fn char_views(v: Seq<Vec<char>>) -> Seq<Seq<char>> {
    v.map_values(|x: Vec<char>| x@)
}

/// Sorts character sequences in lexicographic order.
pub fn sort_chars(items: Vec<Vec<char>>) -> (r: Vec<Vec<char>>)
    ensures
        char_views(r@) == char_views(items@).sort_by(lex_order()),
{
    let ghost input = char_views(items@);
    let mut sorted: Vec<Vec<char>> = Vec::new();
    let mut i: usize = 0;
    proof {
        lemma_lex_total();
    }
    assert(input.take(0) =~= Seq::<Seq<char>>::empty());
    assert(char_views(sorted@) =~= Seq::<Seq<char>>::empty());
    while i < items.len()
        invariant
            i <= items.len(),
            input == char_views(items@),
            total_ordering(lex_order()),
            sorted_by(char_views(sorted@), lex_order()),
            char_views(sorted@).to_multiset() == input.take(i as int).to_multiset(),
        decreases items.len() - i,
    {
        let x = items[i].clone();
        assert(x@ == input[i as int]);
        let ghost before = char_views(sorted@);
        let mut p: usize = 0;
        while p < sorted.len() && chars_le(&sorted[p], &x)
            invariant
                p <= sorted.len(),
                before == char_views(sorted@),
                forall|k: int| 0 <= k < p ==> lex_le(#[trigger] before[k], x@),
            decreases sorted.len() - p,
        {
            p = p + 1;
        }
        proof {
            if p < sorted.len() {
                lemma_lex_connected(before[p as int], x@);
                assert forall|k: int| p <= k < before.len() implies lex_le(x@, #[trigger] before[k]) by {
                    if k > p {
                        assert(lex_order()(before[p as int], before[k]));
                        lemma_lex_transitive(x@, before[p as int], before[k]);
                    }
                }
            }
        }
        sorted.insert(p, x);
        let ghost after = char_views(sorted@);
        assert(after =~= before.insert(p as int, input[i as int]));
        assert forall|a: int, b: int| 0 <= a < b < after.len() implies #[trigger] lex_order()(
            after[a],
            after[b],
        ) by {
            if b < p {
                assert(lex_order()(before[a], before[b]));
            } else if b == p {
                assert(lex_le(before[a], x@));
            } else if a < p {
                assert(lex_le(before[a], x@));
                assert(lex_le(x@, before[b - 1]));
                lemma_lex_transitive(before[a], x@, before[b - 1]);
            } else if a == p {
                assert(lex_le(x@, before[b - 1]));
            } else {
                assert(lex_order()(before[a - 1], before[b - 1]));
            }
        }
        proof {
            vstd::seq_lib::to_multiset_insert(before, p as int, input[i as int]);
            vstd::seq_lib::to_multiset_build(input.take(i as int), input[i as int]);
            assert(input.take(i + 1) =~= input.take(i as int).push(input[i as int]));
        }
        i = i + 1;
    }
    proof {
        assert(input.take(items.len() as int) =~= input);
        input.lemma_sort_by_ensures(lex_order());
        vstd::seq_lib::lemma_sorted_unique(char_views(sorted@), input.sort_by(lex_order()), lex_order());
    }
    sorted
}

} // verus!
