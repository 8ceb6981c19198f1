use vstd::prelude::*;

verus! {

/// Lexicographic order on character sequences, by code point: the order of
/// `str`'s `<`.
pub open spec fn lex_lt(a: Seq<char>, b: Seq<char>) -> bool
    decreases a.len(),
{
    if a.len() == 0 {
        b.len() > 0
    } else if b.len() == 0 {
        false
    } else if a[0] != b[0] {
        a[0] < b[0]
    } else {
        lex_lt(a.drop_first(), b.drop_first())
    }
}

pub proof fn lemma_lex_irreflexive(a: Seq<char>)
    ensures
        !lex_lt(a, a),
    decreases a.len(),
{
    if a.len() > 0 {
        lemma_lex_irreflexive(a.drop_first());
    }
}

pub proof fn lemma_lex_transitive(a: Seq<char>, b: Seq<char>, c: Seq<char>)
    requires
        lex_lt(a, b),
        lex_lt(b, c),
    ensures
        lex_lt(a, c),
    decreases a.len(),
{
    if a.len() > 0 && b.len() > 0 && c.len() > 0 && a[0] == b[0] && b[0] == c[0] {
        lemma_lex_transitive(a.drop_first(), b.drop_first(), c.drop_first());
    }
}

pub proof fn lemma_lex_total(a: Seq<char>, b: Seq<char>)
    requires
        a != b,
    ensures
        lex_lt(a, b) || lex_lt(b, a),
    decreases a.len(),
{
    if a.len() > 0 && b.len() > 0 && a[0] == b[0] {
        if a.drop_first() == b.drop_first() {
            assert(a =~= seq![a[0]] + a.drop_first());
            assert(b =~= seq![b[0]] + b.drop_first());
        }
        lemma_lex_total(a.drop_first(), b.drop_first());
    } else if a.len() == 0 && b.len() == 0 {
        assert(a =~= b);
    } else if a.len() > 0 && b.len() > 0 {
    }
}

/// Whether two strings hold the same characters.
pub fn same_text(a: &str, b: &str) -> (r: bool)
    ensures
        r == (a@ == b@),
{
    let la = a.unicode_len();
    let lb = b.unicode_len();
    if la != lb {
        return false;
    }
    let mut k: usize = 0;
    while k < la
        invariant
            la == a@.len(),
            lb == b@.len(),
            la == lb,
            k <= la,
            forall|j: int| 0 <= j < k ==> a@[j] == b@[j],
        decreases la - k,
    {
        if a.get_char(k) != b.get_char(k) {
            return false;
        }
        k = k + 1;
    }
    assert(a@ =~= b@);
    true
}

/// Whether `a` comes strictly before `b` in lexicographic order.
pub fn text_lt(a: &str, b: &str) -> (r: bool)
    ensures
        r == lex_lt(a@, b@),
{
    let la = a.unicode_len();
    let lb = b.unicode_len();
    let mut k: usize = 0;
    assert(a@.subrange(0, la as int) =~= a@);
    assert(b@.subrange(0, lb as int) =~= b@);
    while k < la && k < lb
        invariant
            la == a@.len(),
            lb == b@.len(),
            k <= la,
            k <= lb,
            lex_lt(a@, b@) == lex_lt(a@.subrange(k as int, la as int), b@.subrange(k as int, lb as int)),
        decreases la - k,
    {
        let ca = a.get_char(k);
        let cb = b.get_char(k);
        let ghost sa = a@.subrange(k as int, la as int);
        let ghost sb = b@.subrange(k as int, lb as int);
        assert(sa[0] == ca && sb[0] == cb);
        if ca != cb {
            return ca < cb;
        }
        assert(sa.drop_first() =~= a@.subrange(k + 1, la as int));
        assert(sb.drop_first() =~= b@.subrange(k + 1, lb as int));
        k = k + 1;
    }
    k < lb && k >= la
}

} // verus!
