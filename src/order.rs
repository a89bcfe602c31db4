use vstd::prelude::*;

verus! {

/// Strict lexicographic order on sequences of integers (a proper prefix comes first).
pub open spec fn lex_lt(a: Seq<int>, b: Seq<int>) -> bool
    decreases a.len(),
{
    if a.len() == 0 {
        b.len() > 0
    } else if b.len() == 0 {
        false
    } else if a[0] != b[0] {
        a[0] < b[0]
    } else {
        lex_lt(a.drop_first(), b.drop_first())
    }
}

pub open spec fn chars_key(s: Seq<char>) -> Seq<int> {
    s.map_values(|c: char| c as u32 as int)
}

pub open spec fn indices_key(s: Seq<usize>) -> Seq<int> {
    s.map_values(|x: usize| x as int)
}

pub proof fn lemma_lex_lt_transitive(a: Seq<int>, b: Seq<int>, c: Seq<int>)
    requires
        lex_lt(a, b),
        lex_lt(b, c),
    ensures
        lex_lt(a, c),
    decreases a.len(),
{
    if a.len() > 0 && b.len() > 0 && c.len() > 0 && a[0] == b[0] && b[0] == c[0] {
        lemma_lex_lt_transitive(a.drop_first(), b.drop_first(), c.drop_first());
    }
}

pub proof fn lemma_lex_lt_irreflexive(a: Seq<int>)
    ensures
        !lex_lt(a, a),
    decreases a.len(),
{
    if a.len() > 0 {
        lemma_lex_lt_irreflexive(a.drop_first());
    }
}

/// Two different sequences are ordered one way or the other.
pub proof fn lemma_lex_lt_total(a: Seq<int>, b: Seq<int>)
    ensures
        lex_lt(a, b) || lex_lt(b, a) || a == b,
    decreases a.len(),
{
    if a.len() > 0 && b.len() > 0 && a[0] == b[0] {
        lemma_lex_lt_total(a.drop_first(), b.drop_first());
        if a.drop_first() == b.drop_first() {
            assert(a =~= seq![a[0]] + a.drop_first());
            assert(b =~= seq![b[0]] + b.drop_first());
        }
    } else if a.len() == 0 && b.len() == 0 {
        assert(a =~= b);
    }
}

/// Relies on the `Ord` of `str`: strings compare lexicographically, character
/// by character, by code point (the order of their UTF-8 bytes).
#[verifier::external_body]
pub(crate) fn name_less(a: &String, b: &String) -> (r: bool)
    ensures
        r == lex_lt(chars_key(a@), chars_key(b@)),
{
    a.as_str() < b.as_str()
}

pub fn indices_less(a: &Vec<usize>, b: &Vec<usize>) -> (r: bool)
    ensures
        r == lex_lt(indices_key(a@), indices_key(b@)),
{
    let mut i: usize = 0;
    proof {
        assert(indices_key(a@).skip(0) =~= indices_key(a@));
        assert(indices_key(b@).skip(0) =~= indices_key(b@));
    }
    while i < a.len() && i < b.len()
        invariant
            i <= a@.len(),
            i <= b@.len(),
            lex_lt(indices_key(a@), indices_key(b@)) == lex_lt(
                indices_key(a@).skip(i as int),
                indices_key(b@).skip(i as int),
            ),
        decreases a@.len() - i,
    {
        if a[i] != b[i] {
            return a[i] < b[i];
        }
        proof {
            let sa = indices_key(a@).skip(i as int);
            let sb = indices_key(b@).skip(i as int);
            assert(sa.drop_first() =~= indices_key(a@).skip(i + 1));
            assert(sb.drop_first() =~= indices_key(b@).skip(i + 1));
        }
        i = i + 1;
    }
    i < b.len()
}

} // verus!
