//! The stock of the ice-cream repository: an order is served only when every
//! taste it asks for is in stock in the amount it asks for.
use vstd::prelude::*;
use vstd::string::StringExecFns;
use crate::keyed_table::{lemma_map_of_dom, lemma_map_of_index, lemma_map_of_push, map_of, names_of, KeyedTable};
use crate::order::{same_but_outcome, Order, OrderStatus};
use crate::text::{decimal, usize_to_string};

verus! {

/// The stock has taste `t.0` in the amount `t.1` at least.
pub open spec fn taste_available(stock: Map<Seq<char>, usize>, t: (Seq<char>, usize)) -> bool {
    stock.contains_key(t.0) && stock[t.0] >= t.1
}

/// Every taste of the order is available.
pub open spec fn all_available(stock: Map<Seq<char>, usize>, tastes: Seq<(Seq<char>, usize)>) -> bool {
    forall|i: int| 0 <= i < tastes.len() ==> taste_available(stock, #[trigger] tastes[i])
}

/// Taste `i` is the first of the order that is not available.
pub open spec fn first_unavailable(
    stock: Map<Seq<char>, usize>,
    tastes: Seq<(Seq<char>, usize)>,
    i: int,
) -> bool {
    &&& 0 <= i < tastes.len()
    &&& !taste_available(stock, tastes[i])
    &&& forall|j: int| 0 <= j < i ==> taste_available(stock, #[trigger] tastes[j])
}

/// The stock after serving an order: each taste of the order loses the
/// amount ordered.
pub open spec fn stock_after(stock: Map<Seq<char>, usize>, ordered: Map<Seq<char>, usize>) -> Map<
    Seq<char>,
    usize,
> {
    Map::new(
        |k: Seq<char>| stock.contains_key(k),
        |k: Seq<char>|
            if ordered.contains_key(k) {
                (stock[k] - ordered[k]) as usize
            } else {
                stock[k]
            },
    )
}

/// Serving an order takes from the stock exactly what was ordered: for each
/// taste ordered, what is left plus what was ordered is what there was, and
/// the other tastes keep their amounts.
pub proof fn lemma_stock_conservation(
    stock: Map<Seq<char>, usize>,
    ordered: Map<Seq<char>, usize>,
    k: Seq<char>,
)
    requires
        forall|t: Seq<char>| #[trigger] ordered.contains_key(t) ==> stock.contains_key(t) && stock[t] >= ordered[t],
        stock.contains_key(k),
    ensures
        stock_after(stock, ordered).contains_key(k),
        ordered.contains_key(k) ==> stock_after(stock, ordered)[k] + ordered[k] == stock[k],
        !ordered.contains_key(k) ==> stock_after(stock, ordered)[k] == stock[k],
{
}

/// The message of an order the repository served.
pub open spec fn shipped_message() -> Seq<char> {
    "Ice cream order successfully shipped"@
}

/// The message of an order with a taste the repository does not know.
pub open spec fn unknown_taste_message() -> Seq<char> {
    "Taste does not exist! File error"@
}

/// The message of an order that asks for `need` of `taste` when the
/// repository has only `have`.
pub open spec fn shortage_message(need: nat, taste: Seq<char>, have: nat) -> Seq<char> {
    "✖️ Not enough taste the order need "@ + decimal(need) + " "@ + taste
        + " and the repository has "@ + decimal(have) + " "@ + taste + " "@
}

fn build_shortage_message(need: usize, taste: &String, have: usize) -> (m: String)
    ensures
        m@ == shortage_message(need as nat, taste@, have as nat),
{
    let mut m = String::from_str("✖️ Not enough taste the order need ");
    m.append(usize_to_string(need).as_str());
    m.append(" ");
    m.append(taste.as_str());
    m.append(" and the repository has ");
    m.append(usize_to_string(have).as_str());
    m.append(" ");
    m.append(taste.as_str());
    m.append(" ");
    m
}

/// Serves `order` from the stock `repository`: when every taste of the order
/// is in stock in the amount ordered, the amounts are taken from the stock and
/// the order is ready to charge; otherwise the stock is left as it was and the
/// order fails, naming the first taste of the order that is missing or short.
pub fn try_to_process_order(repository: &mut KeyedTable<usize>, order: Order) -> (result: Order)
    ensures
        same_but_outcome(order, result),
        all_available(old(repository)@, order.tastes.entries()) ==> result.status
            == OrderStatus::OrderReadyToCharge,
        all_available(old(repository)@, order.tastes.entries()) ==> result.message@
            == shipped_message(),
        all_available(old(repository)@, order.tastes.entries()) ==> final(repository)@
            == stock_after(old(repository)@, order.tastes@),
        forall|i: int|
            #[trigger] first_unavailable(old(repository)@, order.tastes.entries(), i) ==> {
                let t = order.tastes.entries()[i];
                &&& result.status == OrderStatus::Failed
                &&& final(repository)@ == old(repository)@
                &&& result.message@ == if old(repository)@.contains_key(t.0) {
                    shortage_message(t.1 as nat, t.0, old(repository)@[t.0] as nat)
                } else {
                    unknown_taste_message()
                }
            },
{
    let ghost original = order;
    let incoming = order;
    let mut served = Order {
        screen_id: incoming.screen_id,
        order_id: incoming.order_id,
        card_amount: incoming.card_amount,
        total_mass: incoming.total_mass,
        tastes: incoming.tastes,
        status: OrderStatus::Failed,
        message: incoming.message,
    };
    let ghost stock = repository@;
    let ghost tastes = served.tastes.entries();
    let n = served.tastes.len();
    let mut i: usize = 0;
    while i < n
        invariant
            n == tastes.len(),
            tastes == served.tastes.entries(),
            stock == repository@,
            same_but_outcome(original, served),
            original == order,
            stock == old(repository)@,
            served.status == OrderStatus::Failed,
            i <= n,
            forall|j: int| 0 <= j < i ==> taste_available(stock, #[trigger] tastes[j]),
        decreases n - i,
    {
        let taste = served.tastes.name_at(i);
        let necessary_amount = *served.tastes.value_at(i);
        let in_stock: Option<usize> = match repository.get(taste) {
            Some(current) => Some(*current),
            None => None,
        };
        match in_stock {
            Some(current_amount) => {
                if current_amount < necessary_amount {
                    let msg = build_shortage_message(necessary_amount, taste, current_amount);
                    proof {
                        assert(tastes[i as int] == (taste@, necessary_amount));
                        assert(stock[taste@] == current_amount);
                    }
                    served.message = msg;
                    proof {
                        assert(same_but_outcome(original, served));
                        assert(!taste_available(stock, tastes[i as int]));
                        assert(first_unavailable(stock, tastes, i as int));
                        assert forall|x: int| #[trigger] first_unavailable(stock, tastes, x) implies x == i by {
                            if x < i {
                            } else if x > i {
                                assert(!taste_available(stock, tastes[i as int]));
                            }
                        }
                    }
                    return served;
                }
            },
            None => {
                served.message = String::from_str("Taste does not exist! File error");
                proof {
                    assert(!taste_available(stock, tastes[i as int]));
                    assert(first_unavailable(stock, tastes, i as int));
                    assert forall|x: int| #[trigger] first_unavailable(stock, tastes, x) implies x == i by {
                        if x > i {
                            assert(!taste_available(stock, tastes[i as int]));
                        }
                    }
                }
                return served;
            },
        }
        i = i + 1;
    }
    proof {
        assert forall|x: int| !first_unavailable(stock, tastes, x) by {}
    }
    let mut j: usize = 0;
    proof {
        use_type_invariant(&served.tastes);
        assert(map_of(tastes.take(0)) =~= Map::<Seq<char>, usize>::empty());
        assert(stock_after(stock, map_of(tastes.take(0))) =~= stock);
    }
    while j < n
        invariant
            n == tastes.len(),
            tastes == served.tastes.entries(),
            names_of(tastes).no_duplicates(),
            served.tastes@ == map_of(tastes),
            all_available(stock, tastes),
            same_but_outcome(original, served),
            original == order,
            stock == old(repository)@,
            j <= n,
            repository@ == stock_after(stock, map_of(tastes.take(j as int))),
        decreases n - j,
    {
        let taste = served.tastes.name_at(j);
        let amount = *served.tastes.value_at(j);
        let ghost k = taste@;
        let ghost pre = tastes.take(j as int);
        proof {
            assert(tastes[j as int] == (k, amount));
            assert(taste_available(stock, tastes[j as int]));
            assert(names_of(pre) =~= names_of(tastes).take(j as int));
            assert(!names_of(pre).contains(k)) by {
                if names_of(pre).contains(k) {
                    let x = choose|x: int| 0 <= x < names_of(pre).len() && names_of(pre)[x] == k;
                    assert(names_of(tastes)[x] == names_of(tastes)[j as int]);
                }
            }
            assert(names_of(pre).no_duplicates()) by {
                assert forall|a: int, b: int| 0 <= a < b < names_of(pre).len() implies names_of(
                    pre,
                )[a] != names_of(pre)[b] by {
                    assert(names_of(tastes)[a] == names_of(pre)[a]);
                    assert(names_of(tastes)[b] == names_of(pre)[b]);
                }
            }
            lemma_map_of_dom(pre, k);
            lemma_map_of_push(pre, k, amount);
            assert(tastes.take(j + 1) =~= pre.push((k, amount)));
        }
        let current_amount = match repository.get(taste) {
            Some(c) => *c,
            None => 0,
        };
        repository.insert(taste.clone(), current_amount - amount);
        proof {
            let q = map_of(pre.push((k, amount)));
            assert(stock_after(stock, q) =~= repository@);
        }
        j = j + 1;
    }
    proof {
        assert(tastes.take(n as int) =~= tastes);
    }
    served.status = OrderStatus::OrderReadyToCharge;
    served.message = String::from_str("Ice cream order successfully shipped");
    served
}


/// The stock that a text holds, as `serde_json` reads it into a map from
/// taste to grams, or `None` when it does not hold one.
pub uninterp spec fn spec_stock_document(text: Seq<char>) -> Option<Map<Seq<char>, usize>>;

/// Pairs `(taste, grams)` taken by their characters.
pub open spec fn stock_pairs_view(v: Seq<(String, usize)>) -> Seq<(Seq<char>, usize)> {
    v.map_values(|e: (String, usize)| (e.0@, e.1))
}

/// `serde_json::from_str::<HashMap<String, usize>>`, the map handed out as
/// its pairs, in the order the map is walked; an error as its text.
/// Claimed: the text is accepted exactly when the named stock exists; the
/// pairs name each taste once and together are that stock. Their order
/// depends on the hasher and is not stated, nor is the error text.
#[verifier::external_body]
fn stock_pairs_from_text(text: &str) -> (r: Result<Vec<(String, usize)>, String>)
    ensures
        r is Ok <==> spec_stock_document(text@) is Some,
        r matches Ok(v) ==> {
            &&& names_of(stock_pairs_view(v@)).no_duplicates()
            &&& map_of(stock_pairs_view(v@)) == spec_stock_document(text@)->Some_0
        },
{
    match serde_json::from_str::<std::collections::HashMap<String, usize>>(text) {
        Ok(m) => Ok(m.into_iter().collect()),
        Err(e) => Err(e.to_string()),
    }
}

/// The stock that pairs `(taste, grams)` make, a later pair of a taste
/// replacing an earlier one.
pub open spec fn stock_of_pairs(s: Seq<(Seq<char>, usize)>) -> Map<Seq<char>, usize>
    decreases s.len(),
{
    if s.len() == 0 {
        Map::empty()
    } else {
        stock_of_pairs(s.drop_last()).insert(s.last().0, s.last().1)
    }
}

proof fn lemma_stock_of_distinct_pairs(s: Seq<(Seq<char>, usize)>)
    requires
        names_of(s).no_duplicates(),
    ensures
        stock_of_pairs(s) == map_of(s),
    decreases s.len(),
{
    if s.len() == 0 {
        assert(map_of(s) =~= Map::<Seq<char>, usize>::empty());
    } else {
        let pre = s.drop_last();
        let k = s.last().0;
        assert(names_of(pre) =~= names_of(s).drop_last());
        assert(names_of(pre).no_duplicates()) by {
            assert forall|a: int, b: int| 0 <= a < b < names_of(pre).len() implies names_of(pre)[a]
                != names_of(pre)[b] by {
                assert(names_of(s)[a] == names_of(pre)[a]);
                assert(names_of(s)[b] == names_of(pre)[b]);
            }
        }
        assert(!names_of(pre).contains(k)) by {
            if names_of(pre).contains(k) {
                let x = choose|x: int| 0 <= x < names_of(pre).len() && names_of(pre)[x] == k;
                assert(names_of(s)[x] == names_of(s)[s.len() - 1]);
            }
        }
        lemma_stock_of_distinct_pairs(pre);
        lemma_map_of_push(pre, k, s.last().1);
        assert(pre.push((k, s.last().1)) =~= s);
    }
}

/// The stock table that pairs `(taste, grams)` make, in order, a later pair
/// of a taste replacing the grams of an earlier one.
pub fn table_from_pairs(pairs: Vec<(String, usize)>) -> (table: KeyedTable<usize>)
    ensures
        table@ == stock_of_pairs(stock_pairs_view(pairs@)),
{
    let ghost all = stock_pairs_view(pairs@);
    let mut table: KeyedTable<usize> = KeyedTable::new();
    let mut i: usize = 0;
    proof {
        assert(all.take(0) =~= Seq::<(Seq<char>, usize)>::empty());
    }
    while i < pairs.len()
        invariant
            i <= pairs.len(),
            all == stock_pairs_view(pairs@),
            table@ == stock_of_pairs(all.take(i as int)),
        decreases pairs.len() - i,
    {
        proof {
            assert(all.take(i + 1).drop_last() =~= all.take(i as int));
            assert(all.take(i + 1).last() == all[i as int]);
        }
        table.insert(pairs[i].0.clone(), pairs[i].1);
        i = i + 1;
    }
    proof {
        assert(all.take(i as int) =~= all);
    }
    table
}

/// The stock of the repository from the text of its tastes file; the
/// parser's message when the text holds no map from taste to grams.
pub fn parse_stock(text: &str) -> (r: Result<KeyedTable<usize>, String>)
    ensures
        r is Ok <==> spec_stock_document(text@) is Some,
        r matches Ok(t) ==> spec_stock_document(text@) == Some(t@),
{
    match stock_pairs_from_text(text) {
        Ok(pairs) => {
            proof {
                lemma_stock_of_distinct_pairs(stock_pairs_view(pairs@));
            }
            Ok(table_from_pairs(pairs))
        },
        Err(e) => Err(e),
    }
}

} // verus!
