use vstd::prelude::*;

use crate::text::{lemma_lex_irreflexive, lemma_lex_total, lemma_lex_transitive, lex_lt, text_lt};

verus! {

/// One category with its cumulative duration in microseconds.
#[derive(Debug, Clone, PartialEq, Eq)]
pub struct CategoryTotal {
    pub name: String,
    pub micros: u64,
}

/// Report order: larger total first; on equal totals, names in ascending
/// lexicographic order.
pub open spec fn ranks_before(a: CategoryTotal, b: CategoryTotal) -> bool {
    a.micros > b.micros || (a.micros == b.micros && lex_lt(a.name@, b.name@))
}

/// The same category and total.
pub open spec fn same_total(a: CategoryTotal, b: CategoryTotal) -> bool {
    a.name@ == b.name@ && a.micros == b.micros
}

pub open spec fn distinct_names(s: Seq<CategoryTotal>) -> bool {
    forall|i: int, j: int| 0 <= i < j < s.len() ==> #[trigger] s[i].name@ != #[trigger] s[j].name@
}

/// `r` holds the entries of `s` rearranged: `idx` sends each place of `r`
/// to the place of `s` whose entry stands there, and `pos` sends each place
/// of `s` to the place of `r` where its entry went.
pub open spec fn arranges(r: Seq<CategoryTotal>, s: Seq<CategoryTotal>, idx: Seq<int>, pos: Seq<int>) -> bool {
    r.len() == s.len() && covers(r, s, s.len() as int, idx, pos)
}

/// The entries of `r` are the first `k` entries of `s`, as `idx` and `pos`
/// match them up.
pub open spec fn covers(r: Seq<CategoryTotal>, s: Seq<CategoryTotal>, k: int, idx: Seq<int>, pos: Seq<int>) -> bool {
    &&& idx.len() == r.len()
    &&& pos.len() == k
    &&& (forall|i: int| 0 <= i < r.len() ==> 0 <= #[trigger] idx[i] < k && same_total(r[i], s[idx[i]]))
    &&& (forall|m: int| 0 <= m < k ==> 0 <= #[trigger] pos[m] < r.len() && same_total(r[pos[m]], s[m]))
}

/// `r` holds exactly the entries of `s`, in some order.
pub open spec fn same_entries(r: Seq<CategoryTotal>, s: Seq<CategoryTotal>) -> bool {
    exists|idx: Seq<int>, pos: Seq<int>| #[trigger] arranges(r, s, idx, pos)
}

/// Where each entry stands after one more, entry `k`, went in at `p`.
pub open spec fn shifted(pos: Seq<int>, p: int, k: int) -> Seq<int> {
    Seq::new((k + 1) as nat, |m: int| if m == k { p } else if pos[m] >= p { pos[m] + 1 } else { pos[m] })
}

proof fn lemma_covered_names(r: Seq<CategoryTotal>, s: Seq<CategoryTotal>, k: int, idx: Seq<int>, pos: Seq<int>)
    requires
        covers(r, s, k, idx, pos),
        distinct_names(s),
        0 <= k < s.len(),
    ensures
        forall|x: int| 0 <= x < r.len() ==> #[trigger] r[x].name@ != s[k].name@,
{
    assert forall|x: int| 0 <= x < r.len() implies #[trigger] r[x].name@ != s[k].name@ by {
        assert(idx[x] < k);
        assert(s[idx[x]].name@ != s[k].name@);
    }
}

pub open spec fn in_report_order(r: Seq<CategoryTotal>) -> bool {
    forall|i: int, j: int| 0 <= i < j < r.len() ==> ranks_before(#[trigger] r[i], #[trigger] r[j])
}

proof fn lemma_ranks_before_transitive(a: CategoryTotal, b: CategoryTotal, c: CategoryTotal)
    requires
        ranks_before(a, b),
        ranks_before(b, c),
    ensures
        ranks_before(a, c),
{
    if a.micros == b.micros && b.micros == c.micros {
        lemma_lex_transitive(a.name@, b.name@, c.name@);
    }
}

proof fn lemma_ranks_before_total(a: CategoryTotal, b: CategoryTotal)
    requires
        a.name@ != b.name@,
    ensures
        ranks_before(a, b) || ranks_before(b, a),
{
    lemma_lex_total(a.name@, b.name@);
}

fn ranks_before_exec(a: &CategoryTotal, b: &CategoryTotal) -> (r: bool)
    ensures
        r == ranks_before(*a, *b),
{
    a.micros > b.micros || (a.micros == b.micros && text_lt(a.name.as_str(), b.name.as_str()))
}

fn copy_total(c: &CategoryTotal) -> (r: CategoryTotal)
    ensures
        same_total(r, *c),
{
    CategoryTotal { name: c.name.clone(), micros: c.micros }
}

/// Inserting an entry after all that rank before it and before the next
/// keeps the report order.
proof fn lemma_insert_order(old_out: Seq<CategoryTotal>, e: CategoryTotal, p: int)
    requires
        0 <= p <= old_out.len(),
        forall|x: int| 0 <= x < p ==> ranks_before(#[trigger] old_out[x], e),
        p < old_out.len() ==> ranks_before(e, old_out[p]),
        in_report_order(old_out),
    ensures
        in_report_order(old_out.insert(p, e)),
{
    let new_out = old_out.insert(p, e);
    assert forall|i: int, j: int| 0 <= i < j < new_out.len() implies ranks_before(new_out[i], new_out[j]) by {
        if j < p {
            assert(new_out[i] == old_out[i] && new_out[j] == old_out[j]);
            assert(ranks_before(old_out[i], old_out[j]));
        } else if j == p {
            assert(new_out[i] == old_out[i]);
        } else if i > p {
            assert(new_out[i] == old_out[i - 1] && new_out[j] == old_out[j - 1]);
            assert(ranks_before(old_out[i - 1], old_out[j - 1]));
        } else if i == p {
            assert(new_out[j] == old_out[j - 1]);
            if j - 1 > p {
                assert(ranks_before(old_out[p], old_out[j - 1]));
                lemma_ranks_before_transitive(e, old_out[p], old_out[j - 1]);
            }
        } else {
            assert(new_out[i] == old_out[i] && new_out[j] == old_out[j - 1]);
            assert(ranks_before(old_out[i], e));
        }
    }
}

/// Inserting entry `k` at `p` extends the match-up by one entry.
proof fn lemma_insert_covers(
    old_out: Seq<CategoryTotal>,
    e: CategoryTotal,
    p: int,
    totals: Seq<CategoryTotal>,
    k: int,
    idx: Seq<int>,
    pos: Seq<int>,
)
    requires
        0 <= k < totals.len(),
        same_total(e, totals[k]),
        0 <= p <= old_out.len(),
        covers(old_out, totals, k, idx, pos),
    ensures
        covers(old_out.insert(p, e), totals, k + 1, idx.insert(p, k), shifted(pos, p, k)),
{
    let new_out = old_out.insert(p, e);
    let idx2 = idx.insert(p, k);
    let pos2 = shifted(pos, p, k);
    assert forall|i: int| 0 <= i < new_out.len() implies 0 <= #[trigger] idx2[i] < k + 1 && same_total(new_out[i], totals[idx2[i]]) by {
        if i < p {
            assert(new_out[i] == old_out[i] && idx2[i] == idx[i]);
        } else if i > p {
            assert(new_out[i] == old_out[i - 1] && idx2[i] == idx[i - 1]);
        }
    }
    assert forall|m: int| 0 <= m < k + 1 implies 0 <= #[trigger] pos2[m] < new_out.len() && same_total(new_out[pos2[m]], totals[m]) by {
        if m < k {
            assert(0 <= pos[m] < old_out.len() && same_total(old_out[pos[m]], totals[m]));
            if pos[m] >= p {
                assert(new_out[pos[m] + 1] == old_out[pos[m]]);
            } else {
                assert(new_out[pos[m]] == old_out[pos[m]]);
            }
        }
    }
}

proof fn lemma_adjacent_order(r: Seq<CategoryTotal>)
    requires
        in_report_order(r),
    ensures
        forall|i: int| 0 <= i < r.len() - 1 ==> #[trigger] r[i].micros >= r[i + 1].micros,
{
    assert forall|i: int| 0 <= i < r.len() - 1 implies #[trigger] r[i].micros >= r[i + 1].micros by {
        assert(ranks_before(r[i], r[i + 1]));
    }
}

/// Where `e` goes in `out`: after every entry that ranks before it, before
/// the first that does not.
fn insert_position(out: &Vec<CategoryTotal>, e: &CategoryTotal) -> (p: usize)
    requires
        forall|x: int| 0 <= x < out@.len() ==> out@[x].name@ != e.name@,
    ensures
        p <= out@.len(),
        forall|x: int| 0 <= x < p ==> ranks_before(#[trigger] out@[x], *e),
        p < out@.len() ==> ranks_before(*e, out@[p as int]),
{
    let mut p: usize = 0;
    while p < out.len() && !ranks_before_exec(e, &out[p])
        invariant
            p <= out@.len(),
            forall|x: int| 0 <= x < p ==> ranks_before(#[trigger] out@[x], *e),
            forall|x: int| 0 <= x < out@.len() ==> out@[x].name@ != e.name@,
        decreases out@.len() - p,
    {
        proof { lemma_ranks_before_total(*e, out@[p as int]); }
        p = p + 1;
    }
    p
}

/// Orders category totals for the report: by total, largest first, and by
/// name on equal totals.
pub fn rank_totals(totals: &Vec<CategoryTotal>) -> (r: Vec<CategoryTotal>)
    requires
        distinct_names(totals@),
    ensures
        same_entries(r@, totals@),
        in_report_order(r@),
        forall|i: int| 0 <= i < r@.len() - 1 ==> #[trigger] r@[i].micros >= r@[i + 1].micros,
{
    let n = totals.len();
    let mut out: Vec<CategoryTotal> = Vec::new();
    let mut k: usize = 0;
    let ghost mut idx: Seq<int> = Seq::empty();
    let ghost mut pos: Seq<int> = Seq::empty();
    while k < n
        invariant
            n == totals@.len(),
            k <= n,
            distinct_names(totals@),
            out@.len() == k,
            covers(out@, totals@, k as int, idx, pos),
            in_report_order(out@),
        decreases n - k,
    {
        let e = copy_total(&totals[k]);
        let ghost old_out = out@;
        proof { lemma_covered_names(out@, totals@, k as int, idx, pos); }
        let p = insert_position(&out, &e);
        assert(p < out@.len() ==> ranks_before(e, out@[p as int]));
        out.insert(p, e);
        proof {
            lemma_insert_order(old_out, e, p as int);
            lemma_insert_covers(old_out, e, p as int, totals@, k as int, idx, pos);
            idx = idx.insert(p as int, k as int);
            pos = shifted(pos, p as int, k as int);
        }
        k = k + 1;
    }
    proof {
        assert(arranges(out@, totals@, idx, pos));
        lemma_adjacent_order(out@);
    }
    out
}

} // verus!
