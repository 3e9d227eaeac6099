//! Statistics of one site: folding the lines of its dump into `SiteStats`,
//! and ranking its tags.
use vstd::prelude::*;
use vstd::multiset::Multiset;
use crate::keyed_table::{get_or, names_of, KeyedTable};
use crate::stats::{DataInputJsonl, SiteStats};
use crate::text::{chars_of, count_words, word_count};
use vstd::string::StrSliceExecFns;
use crate::ranking::{
    entry_ranks_before, lemma_ranks_before_irreflexive, lemma_ranks_before_negative_transitive,
    lemma_ranks_before_total, lemma_ranks_before_transitive, ranks_before, stable_before,
};
use crate::stats::TagStats;

verus! {

broadcast use vstd::seq_lib::group_to_multiset_ensures;

/// A ranking entry taken by its characters.
pub open spec fn entry_view(e: (String, TagStats)) -> (Seq<char>, TagStats) {
    (e.0@, e.1)
}

/// Ranking entries taken by their characters.
pub open spec fn entries_view(v: Seq<(String, TagStats)>) -> Seq<(Seq<char>, TagStats)> {
    v.map_values(|e: (String, TagStats)| entry_view(e))
}

/// The smaller of two numbers.
pub open spec fn min_nat(a: nat, b: nat) -> nat {
    if a <= b {
        a
    } else {
        b
    }
}

/// `r` holds the first `limit` entries of `all` in ranking order: as many as
/// `limit` allows, none ranked after a later one, and every entry of `all`
/// that was left out ranks no higher than each one that was kept.
pub open spec fn is_top_selection(
    r: Seq<(Seq<char>, TagStats)>,
    all: Seq<(Seq<char>, TagStats)>,
    limit: nat,
) -> bool {
    &&& r.len() == min_nat(limit, all.len())
    &&& forall|i: int, j: int| 0 <= i < j < r.len() ==> !ranks_before(r[j], r[i])
    &&& exists|rest: Seq<(Seq<char>, TagStats)>|
        {
            &&& r.to_multiset().add(rest.to_multiset()) == all.to_multiset()
            &&& forall|k: int, i: int|
                0 <= k < rest.len() && 0 <= i < r.len() ==> !ranks_before(rest[k], r[i])
        }
}

/// `r` is the first `limit` entries of `all` in a stable ranking: entry `i`
/// of `r` is the entry at input position `idx[i]`, the positions kept come in
/// stable ranking order, and each is stably before every position left out.
/// Entries that neither ranks before the other keep their input order.
pub open spec fn is_stable_top_selection(
    r: Seq<(Seq<char>, TagStats)>,
    all: Seq<(Seq<char>, TagStats)>,
    limit: nat,
) -> bool {
    exists|idx: Seq<int>| stable_positions(r, all, limit, idx)
}

/// `idx` gives the input positions of the entries of `r`, as
/// `is_stable_top_selection` describes.
pub open spec fn stable_positions(
    r: Seq<(Seq<char>, TagStats)>,
    all: Seq<(Seq<char>, TagStats)>,
    limit: nat,
    idx: Seq<int>,
) -> bool {
    &&& r.len() == min_nat(limit, all.len())
    &&& idx.len() == r.len()
    &&& forall|i: int| 0 <= i < idx.len() ==> 0 <= #[trigger] idx[i] < all.len() && r[i] == all[idx[i]]
    &&& forall|i: int, j: int| 0 <= i < j < idx.len() ==> stable_before(all, #[trigger] idx[i], #[trigger] idx[j])
    &&& forall|p: int, i: int|
        0 <= p < all.len() && 0 <= i < idx.len() && !idx.contains(p) ==> #[trigger] stable_before(
            all,
            idx[i],
            p,
        )
}

proof fn lemma_stable_before_asymmetric(all: Seq<(Seq<char>, TagStats)>, p: int, q: int)
    requires
        stable_before(all, p, q),
    ensures
        !stable_before(all, q, p),
{
    if ranks_before(all[p], all[q]) && ranks_before(all[q], all[p]) {
        lemma_ranks_before_transitive(all[p], all[q], all[p]);
        lemma_ranks_before_irreflexive(all[p]);
    }
}

proof fn lemma_stable_positions_prefix(
    r1: Seq<(Seq<char>, TagStats)>,
    r2: Seq<(Seq<char>, TagStats)>,
    all: Seq<(Seq<char>, TagStats)>,
    limit: nat,
    idx1: Seq<int>,
    idx2: Seq<int>,
    t: int,
)
    requires
        stable_positions(r1, all, limit, idx1),
        stable_positions(r2, all, limit, idx2),
        0 <= t <= idx1.len(),
    ensures
        forall|j: int| 0 <= j < t ==> idx1[j] == idx2[j],
    decreases t,
{
    if t > 0 {
        let s = t - 1;
        lemma_stable_positions_prefix(r1, r2, all, limit, idx1, idx2, s);
        let x = idx1[s];
        let y = idx2[s];
        if x != y {
            if !stable_before(all, x, y) && !stable_before(all, y, x) {
                assert(x < y || y < x);
            }
            if stable_before(all, x, y) {
                // x comes before y, so the second selection must hold it before y
                if idx2.contains(x) {
                    let j = choose|j: int| 0 <= j < idx2.len() && idx2[j] == x;
                    if j < s {
                        assert(idx1[j] == idx2[j]);
                        assert(stable_before(all, idx1[j], idx1[s]));
                        lemma_ranks_before_irreflexive(all[x]);
                    } else if j > s {
                        assert(stable_before(all, idx2[s], idx2[j]));
                        lemma_stable_before_asymmetric(all, x, y);
                    }
                } else {
                    assert(stable_before(all, idx2[s], x));
                    lemma_stable_before_asymmetric(all, x, y);
                }
            } else {
                if idx1.contains(y) {
                    let j = choose|j: int| 0 <= j < idx1.len() && idx1[j] == y;
                    if j < s {
                        assert(idx1[j] == idx2[j]);
                        assert(stable_before(all, idx2[j], idx2[s]));
                        lemma_ranks_before_irreflexive(all[y]);
                    } else if j > s {
                        assert(stable_before(all, idx1[s], idx1[j]));
                        lemma_stable_before_asymmetric(all, y, x);
                    }
                } else {
                    assert(stable_before(all, idx1[s], y));
                    lemma_stable_before_asymmetric(all, y, x);
                }
            }
        }
    }
}

/// A stable ranking is fully determined by its entries: two stable top
/// selections from the same entries, in the same order, are the same
/// sequence, even where entries have the same name and ratio.
pub proof fn lemma_stable_top_selection_unique(
    r1: Seq<(Seq<char>, TagStats)>,
    r2: Seq<(Seq<char>, TagStats)>,
    all: Seq<(Seq<char>, TagStats)>,
    limit: nat,
)
    requires
        is_stable_top_selection(r1, all, limit),
        is_stable_top_selection(r2, all, limit),
    ensures
        r1 == r2,
{
    let idx1 = choose|idx: Seq<int>| stable_positions(r1, all, limit, idx);
    let idx2 = choose|idx: Seq<int>| stable_positions(r2, all, limit, idx);
    lemma_stable_positions_prefix(r1, r2, all, limit, idx1, idx2, idx1.len() as int);
    assert forall|i: int| 0 <= i < r1.len() implies r1[i] == r2[i] by {
        assert(idx1[i] == idx2[i]);
    }
    assert(r1 =~= r2);
}

/// Two entries of a table with distinct names that have the same name are the
/// same entry.
pub proof fn lemma_same_name_same_entry(
    all: Seq<(Seq<char>, TagStats)>,
    x: (Seq<char>, TagStats),
    y: (Seq<char>, TagStats),
)
    requires
        names_of(all).no_duplicates(),
        all.contains(x),
        all.contains(y),
        x.0 == y.0,
    ensures
        x == y,
{
    let ix = choose|i: int| 0 <= i < all.len() && all[i] == x;
    let iy = choose|i: int| 0 <= i < all.len() && all[i] == y;
    assert(names_of(all)[ix] == names_of(all)[iy]);
}

/// An element of `r` or of `rest` is an element of `all` when together they
/// hold what `all` holds, and the other way round.
pub proof fn lemma_split_contains(
    r: Seq<(Seq<char>, TagStats)>,
    rest: Seq<(Seq<char>, TagStats)>,
    all: Seq<(Seq<char>, TagStats)>,
    x: (Seq<char>, TagStats),
)
    requires
        r.to_multiset().add(rest.to_multiset()) == all.to_multiset(),
    ensures
        all.contains(x) <==> (r.contains(x) || rest.contains(x)),
{
    broadcast use vstd::multiset::group_multiset_axioms;
    assert(all.to_multiset().count(x) == r.to_multiset().count(x) + rest.to_multiset().count(x));
}

/// A part of a sequence with no duplicates has none.
proof fn lemma_split_no_duplicates(
    r: Seq<(Seq<char>, TagStats)>,
    rest: Seq<(Seq<char>, TagStats)>,
    all: Seq<(Seq<char>, TagStats)>,
)
    requires
        r.to_multiset().add(rest.to_multiset()) == all.to_multiset(),
        all.no_duplicates(),
    ensures
        r.no_duplicates(),
{
    broadcast use vstd::multiset::group_multiset_axioms;
    all.lemma_multiset_has_no_duplicates();
    assert forall|x: (Seq<char>, TagStats)| r.to_multiset().contains(x) implies r.to_multiset().count(x) == 1 by {
        assert(all.to_multiset().count(x) == r.to_multiset().count(x) + rest.to_multiset().count(x));
    }
    r.lemma_multiset_has_no_duplicates_conv();
}

proof fn lemma_top_selection_prefix(
    r1: Seq<(Seq<char>, TagStats)>,
    rest1: Seq<(Seq<char>, TagStats)>,
    r2: Seq<(Seq<char>, TagStats)>,
    rest2: Seq<(Seq<char>, TagStats)>,
    all: Seq<(Seq<char>, TagStats)>,
    i: int,
)
    requires
        names_of(all).no_duplicates(),
        all.no_duplicates(),
        r1.len() == r2.len(),
        0 <= i <= r1.len(),
        r1.to_multiset().add(rest1.to_multiset()) == all.to_multiset(),
        r2.to_multiset().add(rest2.to_multiset()) == all.to_multiset(),
        r1.no_duplicates(),
        r2.no_duplicates(),
        forall|a: int, b: int| 0 <= a < b < r1.len() ==> !ranks_before(r1[b], r1[a]),
        forall|a: int, b: int| 0 <= a < b < r2.len() ==> !ranks_before(r2[b], r2[a]),
        forall|k: int, a: int| 0 <= k < rest1.len() && 0 <= a < r1.len() ==> !ranks_before(rest1[k], r1[a]),
        forall|k: int, a: int| 0 <= k < rest2.len() && 0 <= a < r2.len() ==> !ranks_before(rest2[k], r2[a]),
    ensures
        forall|j: int| 0 <= j < i ==> r1[j] == r2[j],
    decreases i,
{
    if i > 0 {
        lemma_top_selection_prefix(r1, rest1, r2, rest2, all, i - 1);
        let t = i - 1;
        let x = r1[t];
        let y = r2[t];
        if x != y {
            assert(r1.contains(x));
            assert(r2.contains(y));
            lemma_split_contains(r1, rest1, all, x);
            lemma_split_contains(r2, rest2, all, y);
            lemma_split_contains(r2, rest2, all, x);
            lemma_split_contains(r1, rest1, all, y);
            if x.0 == y.0 {
                lemma_same_name_same_entry(all, x, y);
            }
            lemma_ranks_before_total(x, y);
            if ranks_before(x, y) {
                // x lies in r2 or rest2, and neither place allows it
                if rest2.contains(x) {
                    let k = choose|k: int| 0 <= k < rest2.len() && rest2[k] == x;
                    assert(!ranks_before(rest2[k], r2[t]));
                } else {
                    let j = choose|j: int| 0 <= j < r2.len() && r2[j] == x;
                    if j < t {
                        assert(r1[j] == r2[j]);
                    } else if j > t {
                        assert(!ranks_before(r2[j], r2[t]));
                    }
                }
            } else {
                if rest1.contains(y) {
                    let k = choose|k: int| 0 <= k < rest1.len() && rest1[k] == y;
                    assert(!ranks_before(rest1[k], r1[t]));
                } else {
                    let j = choose|j: int| 0 <= j < r1.len() && r1[j] == y;
                    if j < t {
                        assert(r1[j] == r2[j]);
                    } else if j > t {
                        assert(!ranks_before(r1[j], r1[t]));
                    }
                }
            }
        }
    }
}

/// A ranking does not depend on the order the entries come in: two top
/// selections from the same entries (with distinct names), in whatever order,
/// are the same sequence.
pub proof fn lemma_top_selection_unique(
    r1: Seq<(Seq<char>, TagStats)>,
    all1: Seq<(Seq<char>, TagStats)>,
    r2: Seq<(Seq<char>, TagStats)>,
    all2: Seq<(Seq<char>, TagStats)>,
    limit: nat,
)
    requires
        is_top_selection(r1, all1, limit),
        is_top_selection(r2, all2, limit),
        all1.to_multiset() == all2.to_multiset(),
        names_of(all1).no_duplicates(),
    ensures
        r1 == r2,
{
    let rest1 = choose|rest: Seq<(Seq<char>, TagStats)>|
        {
            &&& r1.to_multiset().add(rest.to_multiset()) == all1.to_multiset()
            &&& forall|k: int, i: int|
                0 <= k < rest.len() && 0 <= i < r1.len() ==> !ranks_before(rest[k], r1[i])
        };
    let rest2 = choose|rest: Seq<(Seq<char>, TagStats)>|
        {
            &&& r2.to_multiset().add(rest.to_multiset()) == all2.to_multiset()
            &&& forall|k: int, i: int|
                0 <= k < rest.len() && 0 <= i < r2.len() ==> !ranks_before(rest[k], r2[i])
        };
    assert(all1.len() == all2.len()) by {
        vstd::seq_lib::to_multiset_len(all1);
        vstd::seq_lib::to_multiset_len(all2);
    }
    assert(all1.no_duplicates()) by {
        assert forall|i: int, j: int| 0 <= i < all1.len() && 0 <= j < all1.len() && i != j implies all1[i]
            != all1[j] by {
            assert(names_of(all1)[i] != names_of(all1)[j]);
        }
    }
    lemma_split_no_duplicates(r1, rest1, all1);
    lemma_split_no_duplicates(r2, rest2, all1);
    lemma_top_selection_prefix(r1, rest1, r2, rest2, all1, r1.len() as int);
    assert(r1 =~= r2);
}

/// A ranking keeps the order: when entry `e` of `all` ranks before entry
/// `r[j]` that the ranking kept, `e` is kept too, at an earlier place.
pub proof fn lemma_top_selection_keeps_order(
    r: Seq<(Seq<char>, TagStats)>,
    all: Seq<(Seq<char>, TagStats)>,
    limit: nat,
    e: (Seq<char>, TagStats),
    j: int,
)
    requires
        is_top_selection(r, all, limit),
        all.contains(e),
        0 <= j < r.len(),
        ranks_before(e, r[j]),
    ensures
        exists|i: int| 0 <= i < j && r[i] == e,
{
    let rest = choose|rest: Seq<(Seq<char>, TagStats)>|
        {
            &&& r.to_multiset().add(rest.to_multiset()) == all.to_multiset()
            &&& forall|k: int, i: int|
                0 <= k < rest.len() && 0 <= i < r.len() ==> !ranks_before(rest[k], r[i])
        };
    lemma_split_contains(r, rest, all, e);
    if rest.contains(e) {
        let k = choose|k: int| 0 <= k < rest.len() && rest[k] == e;
        assert(!ranks_before(rest[k], r[j]));
    } else {
        let i = choose|i: int| 0 <= i < r.len() && r[i] == e;
        if i == j {
            lemma_ranks_before_irreflexive(e);
        } else if i > j {
            assert(!ranks_before(r[i], r[j]));
        }
        assert(0 <= i < j && r[i] == e);
    }
}

/// Between names of equal words/questions ratio, a name ranks before every
/// longer name it is a prefix of: when a ranking keeps `(a + x, s2)`, it
/// keeps `(a, s1)` before it.
pub proof fn lemma_prefix_name_ranks_first(
    r: Seq<(Seq<char>, TagStats)>,
    all: Seq<(Seq<char>, TagStats)>,
    limit: nat,
    a: Seq<char>,
    x: Seq<char>,
    s1: TagStats,
    s2: TagStats,
    j: int,
)
    requires
        is_top_selection(r, all, limit),
        all.contains((a, s1)),
        x.len() > 0,
        s1.questions > 0,
        s2.questions > 0,
        s1.words * s2.questions == s2.words * s1.questions,
        0 <= j < r.len(),
        r[j] == (a + x, s2),
    ensures
        exists|i: int| 0 <= i < j && r[i] == (a, s1),
{
    crate::ranking::lemma_seq_less_prefix(a, x);
    assert(ranks_before((a, s1), r[j]));
    lemma_top_selection_keeps_order(r, all, limit, (a, s1), j);
}

/// The position of the first entry that no other entry ranks before.
fn best_position(v: &Vec<(String, TagStats)>) -> (m: usize)
    requires
        v.len() > 0,
    ensures
        m < v.len(),
        forall|j: int| 0 <= j < v.len() ==> !ranks_before(entry_view(v@[j]), entry_view(v@[m as int])),
        forall|j: int| 0 <= j < m ==> ranks_before(entry_view(v@[m as int]), entry_view(v@[j])),
{
    let mut best: usize = 0;
    let mut j: usize = 1;
    proof {
        lemma_ranks_before_irreflexive(entry_view(v@[0]));
    }
    while j < v.len()
        invariant
            best < j <= v.len(),
            forall|t: int| 0 <= t < j ==> !ranks_before(entry_view(v@[t]), entry_view(v@[best as int])),
            forall|t: int| 0 <= t < best ==> ranks_before(entry_view(v@[best as int]), entry_view(v@[t])),
        decreases v.len() - j,
    {
        if entry_ranks_before(&v[j], &v[best]) {
            proof {
                assert forall|t: int| 0 <= t < j + 1 implies !ranks_before(
                    entry_view(v@[t]),
                    entry_view(v@[j as int]),
                ) by {
                    if t == j {
                        lemma_ranks_before_irreflexive(entry_view(v@[t]));
                    } else if ranks_before(entry_view(v@[t]), entry_view(v@[j as int])) {
                        lemma_ranks_before_transitive(
                            entry_view(v@[t]),
                            entry_view(v@[j as int]),
                            entry_view(v@[best as int]),
                        );
                    }
                }
                assert forall|t: int| 0 <= t < j implies ranks_before(
                    entry_view(v@[j as int]),
                    entry_view(v@[t]),
                ) by {
                    if t < best {
                        lemma_ranks_before_transitive(
                            entry_view(v@[j as int]),
                            entry_view(v@[best as int]),
                            entry_view(v@[t]),
                        );
                    } else if t > best {
                        lemma_ranks_before_negative_transitive(
                            entry_view(v@[j as int]),
                            entry_view(v@[best as int]),
                            entry_view(v@[t]),
                        );
                    }
                }
            }
            best = j;
        }
        j = j + 1;
    }
    best
}

/// Sorts the entries by words per question, highest first, and by name
/// between equal ratios, entries that are equal in both keeping their order,
/// and keeps the first ten.
pub fn sort_vec_and_set_top10(a_vec: &mut Vec<(String, TagStats)>)
    ensures
        is_top_selection(entries_view(final(a_vec)@), entries_view(old(a_vec)@), 10),
        is_stable_top_selection(entries_view(final(a_vec)@), entries_view(old(a_vec)@), 10),
{
    let mut rest: Vec<(String, TagStats)> = Vec::new();
    std::mem::swap(&mut rest, a_vec);
    let ghost all = entries_view(rest@);
    let ghost n = all.len() as int;
    let mut res: Vec<(String, TagStats)> = Vec::new();
    let ghost mut idx: Seq<int> = Seq::empty();
    let ghost mut pos: Seq<int> = Seq::new(n as nat, |k: int| k);
    proof {
        assert(entries_view(res@) =~= Seq::<(Seq<char>, TagStats)>::empty());
        assert(entries_view(res@).to_multiset() =~= Multiset::empty());
        assert(entries_view(res@).to_multiset().add(entries_view(rest@).to_multiset())
            =~= all.to_multiset());
        assert forall|p: int| 0 <= p < n implies idx.contains(p) || pos.contains(p) by {
            assert(pos[p] == p);
        }
    }
    while res.len() < 10 && rest.len() > 0
        invariant
            n == all.len(),
            res.len() <= 10,
            res.len() + rest.len() == all.len(),
            entries_view(res@).to_multiset().add(entries_view(rest@).to_multiset())
                == all.to_multiset(),
            forall|i: int, j: int|
                0 <= i < j < res.len() ==> !ranks_before(
                    entry_view(res@[j]),
                    entry_view(res@[i]),
                ),
            forall|k: int, i: int|
                0 <= k < rest.len() && 0 <= i < res.len() ==> !ranks_before(
                    entry_view(rest@[k]),
                    entry_view(res@[i]),
                ),
            idx.len() == res.len(),
            pos.len() == rest.len(),
            forall|i: int| 0 <= i < idx.len() ==> 0 <= #[trigger] idx[i] < n && entry_view(res@[i]) == all[idx[i]],
            forall|k: int| 0 <= k < pos.len() ==> 0 <= #[trigger] pos[k] < n && entry_view(rest@[k]) == all[pos[k]],
            forall|k1: int, k2: int| 0 <= k1 < k2 < pos.len() ==> #[trigger] pos[k1] < #[trigger] pos[k2],
            forall|p: int| 0 <= p < n ==> idx.contains(p) || pos.contains(p),
            forall|i: int, j: int| 0 <= i < j < idx.len() ==> stable_before(all, #[trigger] idx[i], #[trigger] idx[j]),
            forall|i: int, k: int| 0 <= i < idx.len() && 0 <= k < pos.len() ==> stable_before(all, #[trigger] idx[i], #[trigger] pos[k]),
        decreases rest.len(),
    {
        let m = best_position(&rest);
        let ghost old_res = res@;
        let ghost old_rest = rest@;
        let ghost old_idx = idx;
        let ghost old_pos = pos;
        let e = rest.remove(m);
        res.push(e);
        proof {
            idx = old_idx.push(old_pos[m as int]);
            pos = old_pos.remove(m as int);
            assert(entries_view(rest@) =~= entries_view(old_rest).remove(m as int));
            assert(entries_view(res@) =~= entries_view(old_res).push(entry_view(e)));
            assert(entries_view(old_rest)[m as int] == entry_view(e));
            assert(entries_view(res@).to_multiset().add(entries_view(rest@).to_multiset())
                =~= all.to_multiset());
            assert forall|k: int, i: int|
                0 <= k < rest.len() && 0 <= i < res.len() implies !ranks_before(
                entry_view(rest@[k]),
                entry_view(res@[i]),
            ) by {
                let k0 = if k < m { k } else { k + 1 };
                assert(rest@[k] == old_rest[k0]);
                if i < old_res.len() {
                    assert(res@[i] == old_res[i]);
                }
            }
            assert forall|i: int, j: int| 0 <= i < j < res.len() implies !ranks_before(
                entry_view(res@[j]),
                entry_view(res@[i]),
            ) by {
                assert(res@[i] == old_res[i]);
                if j == old_res.len() {
                    assert(res@[j] == old_rest[m as int]);
                } else {
                    assert(res@[j] == old_res[j]);
                }
            }
            assert forall|i: int| 0 <= i < idx.len() implies 0 <= #[trigger] idx[i] < n && entry_view(res@[i]) == all[idx[i]] by {
                if i < old_idx.len() {
                    assert(res@[i] == old_res[i]);
                } else {
                    assert(res@[i] == old_rest[m as int]);
                }
            }
            assert forall|k: int| 0 <= k < pos.len() implies 0 <= #[trigger] pos[k] < n && entry_view(rest@[k]) == all[pos[k]] by {
                let k0 = if k < m { k } else { k + 1 };
                assert(rest@[k] == old_rest[k0]);
                assert(pos[k] == old_pos[k0]);
            }
            assert forall|k1: int, k2: int| 0 <= k1 < k2 < pos.len() implies #[trigger] pos[k1] < #[trigger] pos[k2] by {
                let a = if k1 < m { k1 } else { k1 + 1 };
                let b = if k2 < m { k2 } else { k2 + 1 };
                assert(pos[k1] == old_pos[a]);
                assert(pos[k2] == old_pos[b]);
            }
            assert forall|p: int| 0 <= p < n implies idx.contains(p) || pos.contains(p) by {
                if old_idx.contains(p) {
                    let i = choose|i: int| 0 <= i < old_idx.len() && old_idx[i] == p;
                    assert(idx[i] == p);
                } else {
                    let k = choose|k: int| 0 <= k < old_pos.len() && old_pos[k] == p;
                    if k == m {
                        assert(idx[old_idx.len() as int] == p);
                    } else if k < m {
                        assert(pos[k] == p);
                    } else {
                        assert(pos[k - 1] == p);
                    }
                }
            }
            let pm = old_pos[m as int];
            assert forall|k: int| 0 <= k < pos.len() implies stable_before(all, pm, #[trigger] pos[k]) by {
                let k0 = if k < m { k } else { k + 1 };
                assert(pos[k] == old_pos[k0]);
                assert(entry_view(old_rest[k0]) == all[old_pos[k0]]);
                assert(entry_view(old_rest[m as int]) == all[pm]);
                if k0 < m {
                    assert(ranks_before(entry_view(old_rest[m as int]), entry_view(old_rest[k0])));
                } else {
                    assert(!ranks_before(entry_view(old_rest[k0]), entry_view(old_rest[m as int])));
                    assert(pm < old_pos[k0]);
                }
            }
            assert forall|i: int, j: int| 0 <= i < j < idx.len() implies stable_before(all, #[trigger] idx[i], #[trigger] idx[j]) by {
                assert(idx[i] == old_idx[i]);
                if j < old_idx.len() {
                    assert(idx[j] == old_idx[j]);
                } else {
                    assert(idx[j] == pm);
                    assert(stable_before(all, old_idx[i], old_pos[m as int]));
                }
            }
            assert forall|i: int, k: int| 0 <= i < idx.len() && 0 <= k < pos.len() implies stable_before(all, #[trigger] idx[i], #[trigger] pos[k]) by {
                let k0 = if k < m { k } else { k + 1 };
                assert(pos[k] == old_pos[k0]);
                if i < old_idx.len() {
                    assert(idx[i] == old_idx[i]);
                    assert(stable_before(all, old_idx[i], old_pos[k0]));
                } else {
                    assert(idx[i] == pm);
                }
            }
        }
    }
    proof {
        let r = entries_view(res@);
        let rs = entries_view(rest@);
        assert forall|k: int, i: int| 0 <= k < rs.len() && 0 <= i < r.len() implies !ranks_before(
            rs[k],
            r[i],
        ) by {
            assert(rs[k] == entry_view(rest@[k]));
            assert(r[i] == entry_view(res@[i]));
        }
        assert forall|i: int, j: int| 0 <= i < j < r.len() implies !ranks_before(r[j], r[i]) by {
            assert(r[i] == entry_view(res@[i]));
            assert(r[j] == entry_view(res@[j]));
        }
        assert forall|i: int| 0 <= i < idx.len() implies 0 <= #[trigger] idx[i] < all.len() && r[i] == all[idx[i]] by {
            assert(r[i] == entry_view(res@[i]));
        }
        assert forall|p: int, i: int|
            0 <= p < all.len() && 0 <= i < idx.len() && !idx.contains(p) implies #[trigger] stable_before(
            all,
            idx[i],
            p,
        ) by {
            let k = choose|k: int| 0 <= k < pos.len() && pos[k] == p;
            assert(stable_before(all, idx[i], pos[k]));
        }
        assert(stable_positions(r, all, 10, idx));
    }
    *a_vec = res;
}

/// The entries of a tag table as ranking entries.
pub fn table_entries(table: &KeyedTable<TagStats>) -> (v: Vec<(String, TagStats)>)
    ensures
        entries_view(v@) == table.entries(),
{
    let mut v: Vec<(String, TagStats)> = Vec::new();
    let mut i: usize = 0;
    while i < table.len()
        invariant
            i <= table.entries().len(),
            entries_view(v@) == table.entries().take(i as int),
        decreases table.entries().len() - i,
    {
        let name = table.name_at(i).clone();
        let stats = *table.value_at(i);
        let ghost prev = v@;
        assert(entry_view((name, stats)) == table.entries()[i as int]);
        v.push((name, stats));
        proof {
            assert(entries_view(v@) =~= entries_view(prev).push(entry_view((name, stats))));
            assert(entries_view(v@) =~= table.entries().take(i + 1));
        }
        i = i + 1;
    }
    proof {
        assert(table.entries().take(i as int) =~= table.entries());
    }
    v
}

/// The ten tags with the highest words per question, highest first.
pub fn get_top10_tags_from_hashmap(hashmap_tag: &KeyedTable<TagStats>) -> (top: Vec<(String, TagStats)>)
    ensures
        is_top_selection(entries_view(top@), hashmap_tag.entries(), 10),
{
    let mut v = table_entries(hashmap_tag);
    sort_vec_and_set_top10(&mut v);
    v
}

/// A sequence of strings taken by their characters.
pub open spec fn strings_view(v: Seq<String>) -> Seq<Seq<char>> {
    v.map_values(|t: String| t@)
}

/// The words that a line adds: the word count of each text, kept in 32 bits
/// as it is stored, summed over the texts.
pub open spec fn words_of_texts(texts: Seq<Seq<char>>) -> int
    decreases texts.len(),
{
    if texts.len() == 0 {
        0
    } else {
        words_of_texts(texts.drop_last()) + (word_count(texts.last()) as u32) as int
    }
}

/// The words of a line.
pub open spec fn line_words(d: DataInputJsonl) -> int {
    words_of_texts(strings_view(d.texts@))
}

/// The tags of a line.
pub open spec fn line_tags(d: DataInputJsonl) -> Seq<Seq<char>> {
    strings_view(d.tags@)
}

/// How many times `k` occurs in `s`.
pub open spec fn count_of(s: Seq<Seq<char>>, k: Seq<char>) -> nat
    decreases s.len(),
{
    if s.len() == 0 {
        0
    } else {
        count_of(s.drop_last(), k) + if s.last() == k {
            1nat
        } else {
            0nat
        }
    }
}

/// Statistics with no question.
pub open spec fn zero_stats() -> TagStats {
    TagStats { questions: 0, words: 0 }
}

/// The tag table after a line whose tags are `tags` and whose words are `w`:
/// each occurrence of a tag adds one question and `w` words to it.
pub open spec fn tags_after_line(m: Map<Seq<char>, TagStats>, tags: Seq<Seq<char>>, w: int) -> Map<
    Seq<char>,
    TagStats,
> {
    Map::new(
        |k: Seq<char>| m.contains_key(k) || tags.contains(k),
        |k: Seq<char>|
            if tags.contains(k) {
                TagStats {
                    questions: (get_or(m, k, zero_stats()).questions + count_of(tags, k)) as u32,
                    words: (get_or(m, k, zero_stats()).words + count_of(tags, k) * w) as u32,
                }
            } else {
                m[k]
            },
    )
}

/// Adding a line of `tags` and `w` words to a site with these counters
/// overflows none of them.
pub open spec fn line_fits(
    questions: int,
    words: int,
    m: Map<Seq<char>, TagStats>,
    texts: Seq<Seq<char>>,
    tags: Seq<Seq<char>>,
) -> bool {
    let w = words_of_texts(texts);
    &&& questions < u32::MAX
    &&& w <= u32::MAX
    &&& words + w <= u32::MAX
    &&& forall|k: Seq<char>|
        #![trigger count_of(tags, k)]
        tags.contains(k) ==> {
            &&& get_or(m, k, zero_stats()).questions + count_of(tags, k) <= u32::MAX
            &&& get_or(m, k, zero_stats()).words + count_of(tags, k) * w <= u32::MAX
        }
}

proof fn lemma_words_of_texts_prefix(texts: Seq<Seq<char>>, i: int)
    requires
        0 <= i <= texts.len(),
    ensures
        0 <= words_of_texts(texts.take(i)) <= words_of_texts(texts),
    decreases texts.len(),
{
    if texts.len() > 0 {
        if i == texts.len() {
            assert(texts.take(i) =~= texts);
            lemma_words_of_texts_prefix(texts.drop_last(), i - 1);
            assert(texts.drop_last().take(i - 1) =~= texts.take(i - 1));
        } else {
            lemma_words_of_texts_prefix(texts.drop_last(), i);
            assert(texts.drop_last().take(i) =~= texts.take(i));
        }
    } else {
        assert(texts.take(i) =~= texts);
    }
}

proof fn lemma_count_of_push(s: Seq<Seq<char>>, x: Seq<char>, k: Seq<char>)
    ensures
        count_of(s.push(x), k) == count_of(s, k) + if x == k {
            1nat
        } else {
            0nat
        },
{
    assert(s.push(x).drop_last() =~= s);
}

proof fn lemma_count_of_prefix(s: Seq<Seq<char>>, i: int, k: Seq<char>)
    requires
        0 <= i <= s.len(),
    ensures
        count_of(s.take(i), k) <= count_of(s, k),
    decreases s.len(),
{
    if s.len() > 0 && i < s.len() {
        lemma_count_of_prefix(s.drop_last(), i, k);
        assert(s.drop_last().take(i) =~= s.take(i));
    } else {
        assert(s.take(i) =~= s);
    }
}

proof fn lemma_count_of_contains(s: Seq<Seq<char>>, k: Seq<char>)
    ensures
        s.contains(k) <==> count_of(s, k) > 0,
    decreases s.len(),
{
    if s.len() > 0 {
        lemma_count_of_contains(s.drop_last(), k);
        if s.drop_last().contains(k) {
            let j = choose|j: int| 0 <= j < s.drop_last().len() && s.drop_last()[j] == k;
            assert(s[j] == k);
        }
        if s.contains(k) && s.last() != k {
            let j = choose|j: int| 0 <= j < s.len() && s[j] == k;
            assert(s.drop_last()[j] == k);
        }
        if s.last() == k {
            assert(s[s.len() - 1] == k);
        }
    }
}

proof fn lemma_tags_after_line_push(
    m: Map<Seq<char>, TagStats>,
    t: Seq<Seq<char>>,
    x: Seq<char>,
    w: int,
)
    requires
        w >= 0,
        get_or(m, x, zero_stats()).questions + count_of(t, x) + 1 <= u32::MAX,
        get_or(m, x, zero_stats()).words + (count_of(t, x) + 1) * w <= u32::MAX,
    ensures
        tags_after_line(m, t.push(x), w) == tags_after_line(m, t, w).insert(
            x,
            TagStats {
                questions: (get_or(tags_after_line(m, t, w), x, zero_stats()).questions + 1) as u32,
                words: (get_or(tags_after_line(m, t, w), x, zero_stats()).words + w) as u32,
            },
        ),
{
    let a = tags_after_line(m, t.push(x), w);
    let p = tags_after_line(m, t, w);
    let b = get_or(m, x, zero_stats());
    let c = count_of(t, x);
    let v = TagStats {
        questions: (get_or(p, x, zero_stats()).questions + 1) as u32,
        words: (get_or(p, x, zero_stats()).words + w) as u32,
    };
    assert forall|k: Seq<char>| #[trigger] t.push(x).contains(k) <==> t.contains(k) || k == x by {
        lemma_count_of_contains(t.push(x), k);
        lemma_count_of_contains(t, k);
        lemma_count_of_push(t, x, k);
    }
    lemma_count_of_push(t, x, x);
    lemma_count_of_contains(t, x);
    assert((c + 1) * w == c * w + w) by (nonlinear_arith);
    assert(c * w >= 0) by (nonlinear_arith)
        requires
            w >= 0,
            c >= 0,
    ;
    assert(a[x] == v) by {
        assert(t.push(x).contains(x));
        assert(a[x].questions == (b.questions + c + 1) as u32);
        assert(a[x].words == (b.words + (c + 1) * w) as u32);
        if t.contains(x) {
            assert(p.contains_key(x));
            assert(get_or(p, x, zero_stats()) == p[x]);
            assert(p[x].questions == b.questions + c);
            assert(p[x].words == b.words + c * w);
            assert(v.questions == b.questions + c + 1);
            assert(v.words == b.words + c * w + w);
        } else {
            assert(c == 0);
            assert(get_or(p, x, zero_stats()) == b);
            assert(v.questions == b.questions + 1);
            assert(v.words == b.words + w);
            assert(c * w == 0) by (nonlinear_arith)
                requires
                    c == 0,
            ;
        }
        assert(count_of(t.push(x), x) == c + 1);
        assert(count_of(t.push(x), x) * w == c * w + w) by (nonlinear_arith)
            requires
                count_of(t.push(x), x) == c + 1,
        ;
        assert(a[x].words == (b.words + count_of(t.push(x), x) * w) as u32);
        assert(a[x].words == b.words + c * w + w);
        assert(v.questions == a[x].questions);
        assert(v.words == a[x].words);
    }
    assert forall|k: Seq<char>| a.contains_key(k) && k != x implies #[trigger] a[k] == p[k] by {
        lemma_count_of_push(t, x, k);
    }
    assert(a =~= p.insert(x, v));
}

/// Adds one line of a dump to the statistics of its site: one question, the
/// words of its texts, and for each tag of the line one question and those
/// words.
pub fn update_hashmaps_stats(jsonl_content: &DataInputJsonl, site_stats: &mut SiteStats)
    requires
        line_fits(
            old(site_stats).questions as int,
            old(site_stats).words as int,
            old(site_stats).tags@,
            strings_view(jsonl_content.texts@),
            line_tags(*jsonl_content),
        ),
    ensures
        final(site_stats).questions == old(site_stats).questions + 1,
        final(site_stats).words == old(site_stats).words + line_words(*jsonl_content),
        final(site_stats).tags@ == tags_after_line(
            old(site_stats).tags@,
            line_tags(*jsonl_content),
            line_words(*jsonl_content),
        ),
        final(site_stats).chatty_tags == old(site_stats).chatty_tags,
{
    let ghost texts = strings_view(jsonl_content.texts@);
    let ghost tags = line_tags(*jsonl_content);
    let ghost w = words_of_texts(texts);
    let ghost m0 = site_stats.tags@;
    let mut number_of_words: u32 = 0;
    let mut i: usize = 0;
    while i < jsonl_content.texts.len()
        invariant
            texts == strings_view(jsonl_content.texts@),
            w == words_of_texts(texts),
            w <= u32::MAX,
            i <= jsonl_content.texts.len(),
            number_of_words == words_of_texts(texts.take(i as int)),
        decreases jsonl_content.texts.len() - i,
    {
        let n = count_words(&jsonl_content.texts[i]);
        proof {
            assert(texts.take(i + 1).drop_last() =~= texts.take(i as int));
            assert(texts.take(i + 1).last() == jsonl_content.texts@[i as int]@);
            lemma_words_of_texts_prefix(texts, i + 1);
        }
        number_of_words = number_of_words + n as u32;
        i = i + 1;
    }
    proof {
        assert(texts.take(i as int) =~= texts);
    }
    site_stats.questions = site_stats.questions + 1;
    site_stats.words = site_stats.words + number_of_words;
    let mut j: usize = 0;
    proof {
        assert(tags_after_line(m0, tags.take(0), w) =~= m0) by {
            assert(tags.take(0) =~= Seq::<Seq<char>>::empty());
            assert forall|k: Seq<char>| !#[trigger] tags.take(0).contains(k) by {}
        }
    }
    while j < jsonl_content.tags.len()
        invariant
            tags == line_tags(*jsonl_content),
            w == number_of_words,
            j <= jsonl_content.tags.len(),
            site_stats.tags@ == tags_after_line(m0, tags.take(j as int), w),
            line_fits(old(site_stats).questions as int, old(site_stats).words as int, m0, texts, tags),
            texts == strings_view(jsonl_content.texts@),
            w == words_of_texts(texts),
            m0 == old(site_stats).tags@,
            site_stats.questions == old(site_stats).questions + 1,
            site_stats.words == old(site_stats).words + w,
            site_stats.chatty_tags == old(site_stats).chatty_tags,
        decreases jsonl_content.tags.len() - j,
    {
        let tag = &jsonl_content.tags[j];
        let ghost k = tag@;
        let ghost pre = tags.take(j as int);
        proof {
            assert(tags[j as int] == k);
            assert(tags.take(j + 1) =~= pre.push(k));
            lemma_count_of_prefix(tags, j + 1, k);
            lemma_count_of_push(pre, k, k);
            lemma_count_of_contains(pre, k);
            assert(tags.contains(k));
            assert(count_of(pre, k) + 1 <= count_of(tags, k));
            let b = get_or(m0, k, zero_stats());
            assert(count_of(pre, k) * w + w <= count_of(tags, k) * w) by (nonlinear_arith)
                requires
                    count_of(pre, k) + 1 <= count_of(tags, k),
                    w >= 0,
            ;
            assert(b.words + count_of(tags, k) * w <= u32::MAX);
            assert(count_of(pre, k) * w >= 0) by (nonlinear_arith)
                requires
                    w >= 0,
            ;
            if !pre.contains(k) {
                assert(count_of(pre, k) == 0);
            }
            assert((count_of(pre, k) + 1) * w == count_of(pre, k) * w + w) by (nonlinear_arith);
            lemma_tags_after_line_push(m0, pre, k, w);
        }
        let current = match site_stats.tags.get(tag) {
            Some(s) => *s,
            None => TagStats { questions: 0, words: 0 },
        };
        let updated = TagStats {
            questions: current.questions + 1,
            words: current.words + number_of_words,
        };
        site_stats.tags.insert(tag.clone(), updated);
        j = j + 1;
    }
    proof {
        assert(tags.take(j as int) =~= tags);
    }
}

/// The counters of a site after the lines `lines`: questions, words and the
/// tag table.
pub open spec fn stats_after_lines(lines: Seq<DataInputJsonl>) -> (int, int, Map<Seq<char>, TagStats>)
    decreases lines.len(),
{
    if lines.len() == 0 {
        (0, 0, Map::empty())
    } else {
        let p = stats_after_lines(lines.drop_last());
        let d = lines.last();
        (p.0 + 1, p.1 + line_words(d), tags_after_line(p.2, line_tags(d), line_words(d)))
    }
}

/// Folding the lines `lines` into a site overflows no counter.
pub open spec fn lines_fit(lines: Seq<DataInputJsonl>) -> bool
    decreases lines.len(),
{
    lines.len() == 0 || {
        let p = stats_after_lines(lines.drop_last());
        let d = lines.last();
        &&& lines_fit(lines.drop_last())
        &&& line_fits(p.0, p.1, p.2, strings_view(d.texts@), line_tags(d))
    }
}

proof fn lemma_lines_fit_prefix(lines: Seq<DataInputJsonl>, i: int)
    requires
        lines_fit(lines),
        0 <= i <= lines.len(),
    ensures
        lines_fit(lines.take(i)),
    decreases lines.len(),
{
    if i == lines.len() {
        assert(lines.take(i) =~= lines);
    } else {
        lemma_lines_fit_prefix(lines.drop_last(), i);
        assert(lines.drop_last().take(i) =~= lines.take(i));
    }
}

/// A site has one question per line of its dump, and the words of all of
/// them.
pub proof fn lemma_site_questions_are_lines(lines: Seq<DataInputJsonl>)
    ensures
        stats_after_lines(lines).0 == lines.len(),
        stats_after_lines(lines).1 >= 0,
    decreases lines.len(),
{
    if lines.len() > 0 {
        lemma_site_questions_are_lines(lines.drop_last());
        lemma_words_of_texts_prefix(strings_view(lines.last().texts@), 0);
    }
}

proof fn lemma_count_of_distinct(s: Seq<Seq<char>>, k: Seq<char>)
    requires
        s.no_duplicates(),
    ensures
        count_of(s, k) <= 1,
    decreases s.len(),
{
    if s.len() > 0 {
        let t = s.drop_last();
        assert(t.no_duplicates()) by {
            assert forall|i: int, j: int| 0 <= i < t.len() && 0 <= j < t.len() && i != j implies t[i] != t[j] by {
                assert(t[i] == s[i] && t[j] == s[j]);
            }
        }
        lemma_count_of_distinct(t, k);
        if s.last() == k {
            lemma_count_of_contains(t, k);
            if t.contains(k) {
                let j = choose|j: int| 0 <= j < t.len() && t[j] == k;
                assert(s[j] == s[s.len() - 1]);
            }
        }
    }
}

/// When no line names a tag twice, no tag has more questions or words than
/// its site: a tag only counts questions of the site and their words.
pub proof fn lemma_tags_within_site(lines: Seq<DataInputJsonl>)
    requires
        lines_fit(lines),
        forall|i: int| 0 <= i < lines.len() ==> (#[trigger] line_tags(lines[i])).no_duplicates(),
    ensures
        forall|k: Seq<char>|
            #[trigger] stats_after_lines(lines).2.contains_key(k) ==> {
                &&& stats_after_lines(lines).2[k].questions <= stats_after_lines(lines).0
                &&& stats_after_lines(lines).2[k].words <= stats_after_lines(lines).1
            },
    decreases lines.len(),
{
    if lines.len() > 0 {
        let prev = lines.drop_last();
        assert forall|i: int| 0 <= i < prev.len() implies (#[trigger] line_tags(prev[i])).no_duplicates() by {
            assert(prev[i] == lines[i]);
        }
        lemma_tags_within_site(prev);
        let p = stats_after_lines(prev);
        let d = lines.last();
        let w = line_words(d);
        let tags = line_tags(d);
        assert(line_tags(lines[lines.len() - 1]).no_duplicates());
        lemma_words_of_texts_prefix(strings_view(d.texts@), 0);
        assert forall|k: Seq<char>| #[trigger] stats_after_lines(lines).2.contains_key(k) implies {
            &&& stats_after_lines(lines).2[k].questions <= stats_after_lines(lines).0
            &&& stats_after_lines(lines).2[k].words <= stats_after_lines(lines).1
        } by {
            let r = stats_after_lines(lines);
            assert(r.0 == p.0 + 1);
            assert(r.1 == p.1 + w);
            assert(r.2 == tags_after_line(p.2, tags, w));
            assert(line_fits(p.0, p.1, p.2, strings_view(d.texts@), tags));
            let b = get_or(p.2, k, zero_stats());
            lemma_site_questions_are_lines(prev);
            assert(b.questions <= p.0 && b.words <= p.1) by {
                if stats_after_lines(prev).2.contains_key(k) {
                    assert(b == p.2[k]);
                }
            }
            if tags.contains(k) {
                lemma_count_of_distinct(tags, k);
                lemma_count_of_contains(tags, k);
                assert(count_of(tags, k) == 1);
                assert(count_of(tags, k) * w == w) by (nonlinear_arith)
                    requires
                        count_of(tags, k) == 1,
                ;
                assert(b.questions + count_of(tags, k) <= u32::MAX);
                assert(b.words + count_of(tags, k) * w <= u32::MAX);
                assert(r.2[k].questions == b.questions + 1);
                assert(r.2[k].words == b.words + w);
            } else {
                assert(r.2[k] == p.2[k]);
            }
        }
    }
}

/// The names of ranking entries, in order.
pub fn entry_names(v: &Vec<(String, TagStats)>) -> (names: Vec<String>)
    ensures
        strings_view(names@) == names_of(entries_view(v@)),
{
    let mut names: Vec<String> = Vec::new();
    let mut i: usize = 0;
    while i < v.len()
        invariant
            i <= v.len(),
            strings_view(names@) == names_of(entries_view(v@)).take(i as int),
        decreases v.len() - i,
    {
        let ghost prev = names@;
        let name = v[i].0.clone();
        names.push(name);
        proof {
            assert(strings_view(names@) =~= strings_view(prev).push(name@));
            assert(names_of(entries_view(v@))[i as int] == v@[i as int].0@);
            assert(strings_view(names@) =~= names_of(entries_view(v@)).take(i + 1));
        }
        i = i + 1;
    }
    proof {
        assert(names_of(entries_view(v@)).take(i as int) =~= names_of(entries_view(v@)));
    }
    names
}

/// The statistics of a site from the lines of its dump, with the ten tags of
/// the highest words per question as its chatty tags.
pub fn get_hashmaps_stats(lines: &Vec<DataInputJsonl>) -> (site_stats: SiteStats)
    requires
        lines_fit(lines@),
    ensures
        site_stats.questions == stats_after_lines(lines@).0,
        site_stats.words == stats_after_lines(lines@).1,
        site_stats.tags@ == stats_after_lines(lines@).2,
        exists|top: Seq<(Seq<char>, TagStats)>|
            {
                &&& is_top_selection(top, site_stats.tags.entries(), 10)
                &&& strings_view(site_stats.chatty_tags@) == names_of(top)
            },
{
    let mut site_stats = SiteStats {
        questions: 0,
        words: 0,
        tags: KeyedTable::new(),
        chatty_tags: Vec::new(),
    };
    let mut i: usize = 0;
    proof {
        assert(lines@.take(0) =~= Seq::<DataInputJsonl>::empty());
    }
    while i < lines.len()
        invariant
            i <= lines.len(),
            lines_fit(lines@),
            site_stats.questions == stats_after_lines(lines@.take(i as int)).0,
            site_stats.words == stats_after_lines(lines@.take(i as int)).1,
            site_stats.tags@ == stats_after_lines(lines@.take(i as int)).2,
        decreases lines.len() - i,
    {
        proof {
            lemma_lines_fit_prefix(lines@, i + 1);
            assert(lines@.take(i + 1).drop_last() =~= lines@.take(i as int));
            assert(lines@.take(i + 1).last() == lines@[i as int]);
        }
        update_hashmaps_stats(&lines[i], &mut site_stats);
        i = i + 1;
    }
    proof {
        assert(lines@.take(i as int) =~= lines@);
    }
    let top = get_top10_tags_from_hashmap(&site_stats.tags);
    site_stats.chatty_tags = entry_names(&top);
    proof {
        assert(is_top_selection(entries_view(top@), site_stats.tags.entries(), 10));
    }
    site_stats
}

/// `name` is the part of `path` after its last '/', or all of `path` when it
/// has none.
pub open spec fn is_last_segment(path: Seq<char>, name: Seq<char>) -> bool {
    &&& name.len() <= path.len()
    &&& name == path.subrange(path.len() - name.len(), path.len() as int)
    &&& forall|i: int| 0 <= i < name.len() ==> name[i] != '/'
    &&& name.len() == path.len() || path[path.len() - name.len() - 1] == '/'
}

/// The name of a site: the file name at the end of the path of its dump.
pub fn site_name_from_path(file_path: &String) -> (name: String)
    ensures
        is_last_segment(file_path@, name@),
{
    let chars = chars_of(file_path);
    let n = chars.len();
    let mut start = n;
    while start > 0 && chars[start - 1] != '/'
        invariant
            chars@ == file_path@,
            n == chars.len(),
            start <= n,
            forall|i: int| start <= i < n ==> file_path@[i] != '/',
        decreases start,
    {
        start = start - 1;
    }
    let name = file_path.as_str().substring_char(start, n).to_owned();
    proof {
        assert forall|i: int| 0 <= i < name@.len() implies name@[i] != '/' by {
            assert(name@[i] == file_path@[start + i]);
        }
    }
    name
}

/// How many strings of `v` equal `k`.
fn count_equal(v: &Vec<String>, k: &String) -> (n: usize)
    ensures
        n == count_of(strings_view(v@), k@),
        n <= v.len(),
{
    let mut n: usize = 0;
    let mut i: usize = 0;
    proof {
        assert(strings_view(v@).take(0) =~= Seq::<Seq<char>>::empty());
    }
    while i < v.len()
        invariant
            i <= v.len(),
            n <= i,
            n == count_of(strings_view(v@).take(i as int), k@),
        decreases v.len() - i,
    {
        proof {
            assert(strings_view(v@).take(i + 1).drop_last() =~= strings_view(v@).take(i as int));
        }
        if v[i] == *k {
            n = n + 1;
        }
        i = i + 1;
    }
    proof {
        assert(strings_view(v@).take(i as int) =~= strings_view(v@));
    }
    n
}

/// The words of a line, or `None` when they do not fit in 32 bits.
fn checked_line_words(line: &DataInputJsonl) -> (w: Option<u32>)
    ensures
        match w {
            Some(w) => w == line_words(*line),
            None => line_words(*line) > u32::MAX,
        },
{
    let ghost texts = strings_view(line.texts@);
    let mut total: u64 = 0;
    let mut i: usize = 0;
    while i < line.texts.len()
        invariant
            texts == strings_view(line.texts@),
            i <= line.texts.len(),
            total == words_of_texts(texts.take(i as int)),
            total <= u32::MAX,
        decreases line.texts.len() - i,
    {
        let n = count_words(&line.texts[i]);
        proof {
            assert(texts.take(i + 1).drop_last() =~= texts.take(i as int));
            assert(texts.take(i + 1).last() == line.texts@[i as int]@);
        }
        total = total + (n as u32) as u64;
        if total > u32::MAX as u64 {
            proof {
                lemma_words_of_texts_prefix(texts, i + 1);
            }
            return None;
        }
        i = i + 1;
    }
    proof {
        assert(texts.take(i as int) =~= texts);
    }
    Some(total as u32)
}

/// Whether adding `line` to a site with these counters overflows none of
/// them.
pub fn line_fits_site(site_stats: &SiteStats, line: &DataInputJsonl) -> (fits: bool)
    ensures
        fits == line_fits(
            site_stats.questions as int,
            site_stats.words as int,
            site_stats.tags@,
            strings_view(line.texts@),
            line_tags(*line),
        ),
{
    let w = match checked_line_words(line) {
        Some(w) => w,
        None => return false,
    };
    if site_stats.questions == u32::MAX || site_stats.words as u64 + w as u64 > u32::MAX as u64 {
        return false;
    }
    let ghost tags = line_tags(*line);
    let mut j: usize = 0;
    while j < line.tags.len()
        invariant
            tags == line_tags(*line),
            j <= line.tags.len(),
            w == line_words(*line),
            forall|i: int|
                0 <= i < j ==> {
                    &&& get_or(site_stats.tags@, #[trigger] tags[i], zero_stats()).questions
                        + count_of(tags, tags[i]) <= u32::MAX
                    &&& get_or(site_stats.tags@, tags[i], zero_stats()).words + count_of(
                        tags,
                        tags[i],
                    ) * w <= u32::MAX
                },
        decreases line.tags.len() - j,
    {
        let c = count_equal(&line.tags, &line.tags[j]);
        let b = match site_stats.tags.get(&line.tags[j]) {
            Some(b) => *b,
            None => TagStats { questions: 0, words: 0 },
        };
        proof {
            assert(tags[j as int] == line.tags@[j as int]@);
        }
        assert((c as u128) * (w as u128) <= u64::MAX * u32::MAX) by (nonlinear_arith)
            requires
                c <= u64::MAX,
                w <= u32::MAX,
        ;
        let cw: u128 = (c as u128) * (w as u128);
        if b.questions as u128 + c as u128 > u32::MAX as u128 || b.words as u128 + cw
            > u32::MAX as u128 {
            proof {
                assert(tags.contains(tags[j as int]));
                lemma_count_of_contains(tags, tags[j as int]);
            }
            return false;
        }
        j = j + 1;
    }
    proof {
        assert forall|k: Seq<char>| #![trigger count_of(tags, k)] tags.contains(k) implies {
            &&& get_or(site_stats.tags@, k, zero_stats()).questions + count_of(tags, k) <= u32::MAX
            &&& get_or(site_stats.tags@, k, zero_stats()).words + count_of(tags, k) * w
                <= u32::MAX
        } by {
            let i = choose|i: int| 0 <= i < tags.len() && tags[i] == k;
        }
    }
    true
}

/// The statistics of a site from the lines of its dump, as
/// `get_hashmaps_stats`, or `None` when a counter would overflow.
pub fn try_get_hashmaps_stats(lines: &Vec<DataInputJsonl>) -> (r: Option<SiteStats>)
    ensures
        r is Some <==> lines_fit(lines@),
        r matches Some(site_stats) ==> {
            &&& site_stats.questions == stats_after_lines(lines@).0
            &&& site_stats.words == stats_after_lines(lines@).1
            &&& site_stats.tags@ == stats_after_lines(lines@).2
            &&& exists|top: Seq<(Seq<char>, TagStats)>|
                {
                    &&& is_top_selection(top, site_stats.tags.entries(), 10)
                    &&& strings_view(site_stats.chatty_tags@) == names_of(top)
                }
        },
{
    let mut stats = SiteStats {
        questions: 0,
        words: 0,
        tags: KeyedTable::new(),
        chatty_tags: Vec::new(),
    };
    let mut i: usize = 0;
    proof {
        assert(lines@.take(0) =~= Seq::<DataInputJsonl>::empty());
    }
    while i < lines.len()
        invariant
            i <= lines.len(),
            lines_fit(lines@.take(i as int)),
            stats.questions == stats_after_lines(lines@.take(i as int)).0,
            stats.words == stats_after_lines(lines@.take(i as int)).1,
            stats.tags@ == stats_after_lines(lines@.take(i as int)).2,
        decreases lines.len() - i,
    {
        proof {
            assert(lines@.take(i + 1).drop_last() =~= lines@.take(i as int));
            assert(lines@.take(i + 1).last() == lines@[i as int]);
        }
        if !line_fits_site(&stats, &lines[i]) {
            proof {
                if lines_fit(lines@) {
                    lemma_lines_fit_prefix(lines@, i + 1);
                }
            }
            return None;
        }
        update_hashmaps_stats(&lines[i], &mut stats);
        i = i + 1;
    }
    proof {
        assert(lines@.take(i as int) =~= lines@);
    }
    let top = get_top10_tags_from_hashmap(&stats.tags);
    stats.chatty_tags = entry_names(&top);
    proof {
        assert(is_top_selection(entries_view(top@), stats.tags.entries(), 10));
    }
    Some(stats)
}

} // verus!
