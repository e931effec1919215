//! How kingdoms are chosen for head-to-head matches.

use vstd::prelude::*;
use crate::card::{Card, NUM_CARDS, spec_all_cards, spec_kingdom_cards};
use crate::engine::{sort_cards, sorted_by_index, Game};
use crate::rng::{Rng, shuffle_result};

verus! {

/// How kingdoms are chosen for a match.
pub enum Kingdoms {
    /// The same cards every game.
    Fixed(Vec<Card>),
    /// A fresh random kingdom per seed.
    Random,
    /// Random, but with these cards always present (so both strategies are
    /// playable).
    RandomWith(Vec<Card>),
}

/// The distinct cards of `must`, in canonical order.
pub open spec fn distinct_sorted(must: Seq<Card>) -> Seq<Card> {
    spec_all_cards().filter(|c: Card| must.contains(c))
}

/// The kingdom cards not in `must`, in supply order: the pool that fills up
/// a kingdom around the required cards.
pub open spec fn fill_pool(must: Seq<Card>) -> Seq<Card> {
    spec_kingdom_cards().filter(|c: Card| !must.contains(c))
}

/// The required cards followed by as many cards from the front of the
/// shuffled pool as it takes to reach ten, cut to ten.
pub open spec fn filled(must: Seq<Card>, shuffled: Seq<Card>) -> Seq<Card> {
    let k = distinct_sorted(must);
    let need: int = if k.len() < 10 { 10 - k.len() } else { 0 };
    let take: int = if need < shuffled.len() { need } else { shuffled.len() as int };
    let joined = k + shuffled.take(take);
    joined.take(if joined.len() < 10 { joined.len() as int } else { 10 })
}

/// The distinct cards of `must`, in canonical order.
fn distinct_in_order(must: &Vec<Card>) -> (r: Vec<Card>)
    ensures
        r@ == distinct_sorted(must@),
{
    let ghost all = spec_all_cards();
    let ghost pred = |c: Card| must@.contains(c);
    let mut r: Vec<Card> = Vec::new();
    let mut i: usize = 0;
    while i < NUM_CARDS
        invariant
            i <= NUM_CARDS,
            all == spec_all_cards(),
            pred == (|c: Card| must@.contains(c)),
            r@ == all.take(i as int).filter(pred),
        decreases NUM_CARDS - i,
    {
        let c = Card::from_idx(i);
        assert(all.take((i + 1) as int).drop_last() =~= all.take(i as int));
        assert(all.take((i + 1) as int).last() == c);
        let ghost prev = all.take(i as int).filter(pred);
        proof {
            reveal_with_fuel(Seq::<_>::filter, 1);
        }
        assert(all.take((i + 1) as int).filter(pred) == if pred(c) {
            prev.push(c)
        } else {
            prev
        });
        if crate::engine::contains_card(must, c) {
            r.push(c);
        }
        i = i + 1;
    }
    assert(all.take(NUM_CARDS as int) =~= all);
    r
}

/// The kingdom cards not in `k`, in supply order.
fn pool_without(k: &Vec<Card>) -> (r: Vec<Card>)
    ensures
        r@ == spec_kingdom_cards().filter(|c: Card| !k@.contains(c)),
{
    let ghost all = spec_kingdom_cards();
    let ghost pred = |c: Card| !k@.contains(c);
    let cards = crate::card::kingdom_cards();
    let mut r: Vec<Card> = Vec::new();
    let mut i: usize = 0;
    while i < cards.len()
        invariant
            cards@ == all,
            all == spec_kingdom_cards(),
            pred == (|c: Card| !k@.contains(c)),
            i <= cards@.len(),
            r@ == all.take(i as int).filter(pred),
        decreases cards@.len() - i,
    {
        let c = cards[i];
        assert(all.take((i + 1) as int).drop_last() =~= all.take(i as int));
        assert(all.take((i + 1) as int).last() == c);
        let ghost prev = all.take(i as int).filter(pred);
        proof {
            reveal_with_fuel(Seq::<_>::filter, 1);
        }
        assert(all.take((i + 1) as int).filter(pred) == if pred(c) {
            prev.push(c)
        } else {
            prev
        });
        if !crate::engine::contains_card(k, c) {
            r.push(c);
        }
        i = i + 1;
    }
    assert(all.take(cards@.len() as int) =~= all);
    r
}

impl Kingdoms {
    /// The kingdom for one game: the fixed cards; a random kingdom; or the
    /// required cards topped up to ten from a shuffle of the other kingdom
    /// cards, in canonical order.
    pub fn pick(&self, rng: &mut Rng) -> (r: Vec<Card>)
        ensures
            match self {
                Kingdoms::Fixed(k) => r@ == k@ && *final(rng) == *old(rng),
                Kingdoms::Random => {
                    let sh = shuffle_result(old(rng).state(), spec_kingdom_cards());
                    &&& final(rng).state() == sh.0
                    &&& r@.to_multiset() == sh.1.take(10).to_multiset()
                    &&& sorted_by_index(r@)
                    &&& crate::engine::valid_kingdom(r@)
                },
                Kingdoms::RandomWith(must) => {
                    let sh = shuffle_result(old(rng).state(), fill_pool(must@));
                    &&& final(rng).state() == sh.0
                    &&& r@.to_multiset() == filled(must@, sh.1).to_multiset()
                    &&& sorted_by_index(r@)
                    &&& (forall|i: int| 0 <= i < must@.len() ==> crate::card::is_kingdom(#[trigger] must@[i]))
                        && distinct_sorted(must@).len() <= 10 ==> crate::engine::valid_kingdom(r@)
                        && forall|i: int| 0 <= i < must@.len() ==> r@.contains(#[trigger] must@[i])
                },
            },
    {
        match self {
            Kingdoms::Fixed(k) => {
                let r = k.clone();
                assert(r@ =~= k@);
                r
            },
            Kingdoms::Random => Game::random_kingdom(rng),
            Kingdoms::RandomWith(must) => {
                let mut k = distinct_in_order(must);
                let mut pool = pool_without(&k);
                proof {
                    assert forall|c: Card| k@.contains(c) <==> must@.contains(c) by {
                        crate::card::lemma_filter_all_cards(|c: Card| must@.contains(c), c);
                    }
                    assert((|c: Card| !k@.contains(c)) =~= (|c: Card| !must@.contains(c)));
                }
                let ghost k0 = k@;
                rng.shuffle(&mut pool);
                let ghost shuffled = pool@;
                let need: usize = if k.len() < 10 { 10 - k.len() } else { 0 };
                let mut j: usize = 0;
                while j < need && j < pool.len()
                    invariant
                        pool@ == shuffled,
                        j <= need,
                        j <= pool@.len(),
                        k@ == k0 + shuffled.take(j as int),
                    decreases need - j,
                {
                    k.push(pool[j]);
                    assert(shuffled.take((j + 1) as int) =~= shuffled.take(j as int).push(pool@[j as int]));
                    j = j + 1;
                }
                let ghost joined = k@;
                assert(j as int == if (need as int) < shuffled.len() { need as int } else { shuffled.len() as int });
                k.truncate(10);
                proof {
                    assert(k0 =~= distinct_sorted(must@));
                    assert(k@ =~= joined.take(if joined.len() < 10 { joined.len() as int } else { 10 }));
                    assert(k@ =~= filled(must@, shuffled));
                }
                sort_cards(&mut k);
                proof {
                    if (forall|i: int| 0 <= i < must@.len() ==> crate::card::is_kingdom(#[trigger] must@[i]))
                        && distinct_sorted(must@).len() <= 10 {
                        lemma_required_cards_kept(must@, shuffled, k@);
                    }
                }
                k
            },
        }
    }
}

/// Keeping the distinct cards of `must` gives at most as many cards as
/// `must` has.
pub proof fn lemma_distinct_sorted_len(must: Seq<Card>)
    ensures
        distinct_sorted(must).len() <= must.len(),
{
    broadcast use vstd::seq_lib::seq_to_set_is_finite, vstd::set::group_set_axioms;
    let inm = |c: Card| must.contains(c);
    let ds = distinct_sorted(must);
    lemma_card_lists();
    lemma_filter_no_dups(spec_all_cards(), inm);
    ds.unique_seq_to_set();
    assert forall|c: Card| ds.to_set().contains(c) implies must.to_set().contains(c) by {
        crate::card::lemma_filter_all_cards(inm, c);
    }
    must.lemma_cardinality_of_set();
    vstd::set_lib::lemma_len_subset(ds.to_set(), must.to_set());
}

// ------------------------------------------------------------ laws

/// Filtering by a test and by its negation splits a sequence in two.
proof fn lemma_filter_split_len(s: Seq<Card>, p: spec_fn(Card) -> bool)
    ensures
        s.filter(p).len() + s.filter(|c: Card| !p(c)).len() == s.len(),
    decreases s.len(),
{
    reveal_with_fuel(Seq::<_>::filter, 1);
    if s.len() > 0 {
        lemma_filter_split_len(s.drop_last(), p);
    }
}

/// Filtering keeps a sequence free of duplicates.
proof fn lemma_filter_no_dups(s: Seq<Card>, p: spec_fn(Card) -> bool)
    requires
        s.no_duplicates(),
    ensures
        s.filter(p).no_duplicates(),
    decreases s.len(),
{
    reveal_with_fuel(Seq::<_>::filter, 1);
    if s.len() > 0 {
        let s1 = s.drop_last();
        assert(s1.no_duplicates());
        lemma_filter_no_dups(s1, p);
        if p(s.last()) {
            let f1 = s1.filter(p);
            assert forall|i: int| 0 <= i < f1.len() implies f1[i] != s.last() by {
                assert(f1.contains(f1[i]));
                s1.lemma_filter_contains_rev(p, f1[i]);
                let j = choose|j: int| 0 <= j < s1.len() && s1[j] == f1[i];
                assert(s[j] == s1[j]);
            }
        }
    }
}

/// Nothing passes a test that no element passes.
proof fn lemma_filter_none(s: Seq<Card>, p: spec_fn(Card) -> bool)
    requires
        forall|i: int| 0 <= i < s.len() ==> !p(#[trigger] s[i]),
    ensures
        s.filter(p).len() == 0,
    decreases s.len(),
{
    reveal_with_fuel(Seq::<_>::filter, 1);
    if s.len() > 0 {
        lemma_filter_none(s.drop_last(), p);
    }
}

/// The card lists hold every card once.
proof fn lemma_card_lists()
    ensures
        spec_all_cards() == crate::card::spec_basic_cards() + spec_kingdom_cards(),
        spec_all_cards().no_duplicates(),
        spec_kingdom_cards().no_duplicates(),
{
    let all = spec_all_cards();
    assert(all =~= crate::card::spec_basic_cards() + spec_kingdom_cards());
    assert forall|i: int, j: int| 0 <= i < all.len() && 0 <= j < all.len() && i != j implies all[i] != all[j] by {
        crate::card::lemma_idx_roundtrip(all[i], i as usize);
        crate::card::lemma_idx_roundtrip(all[j], j as usize);
    }
    let k = spec_kingdom_cards();
    assert forall|i: int, j: int| 0 <= i < k.len() && 0 <= j < k.len() && i != j implies k[i] != k[j] by {
        assert(k[i] == all[i + 7]);
        assert(k[j] == all[j + 7]);
    }
}

/// A kingdom built around required cards: when the required cards are all
/// kingdom cards, at most ten distinct ones, the kingdom filled up from a
/// shuffle of the other kingdom cards is legal and holds every required card.
pub proof fn lemma_required_cards_kept(must: Seq<Card>, shuffled: Seq<Card>, r: Seq<Card>)
    requires
        forall|i: int| 0 <= i < must.len() ==> crate::card::is_kingdom(#[trigger] must[i]),
        distinct_sorted(must).len() <= 10,
        shuffled.to_multiset() == fill_pool(must).to_multiset(),
        r.to_multiset() == filled(must, shuffled).to_multiset(),
    ensures
        crate::engine::valid_kingdom(r),
        forall|i: int| 0 <= i < must.len() ==> r.contains(#[trigger] must[i]),
{
    broadcast use vstd::seq_lib::group_to_multiset_ensures, vstd::multiset::group_multiset_axioms, vstd::seq_lib::group_filter_ensures;
    let inm = |c: Card| must.contains(c);
    let outm = |c: Card| !must.contains(c);
    let all = spec_all_cards();
    let basic = crate::card::spec_basic_cards();
    let kc = spec_kingdom_cards();
    let k0 = distinct_sorted(must);
    let pool = fill_pool(must);
    lemma_card_lists();
    // How many cards the pool has.
    assert(k0 == all.filter(inm));
    Seq::filter_distributes_over_add(basic, kc, inm);
    assert forall|i: int| 0 <= i < basic.len() implies !inm(#[trigger] basic[i]) by {
        if must.contains(basic[i]) {
            let j = choose|j: int| 0 <= j < must.len() && must[j] == basic[i];
            assert(crate::card::is_kingdom(must[j]));
            crate::card::lemma_idx_roundtrip(basic[i], i as usize);
        }
    }
    lemma_filter_none(basic, inm);
    assert(k0 =~= kc.filter(inm));
    lemma_filter_split_len(kc, inm);
    assert((|c: Card| !inm(c)) =~= outm);
    assert(pool.len() + k0.len() == 26);
    // No duplicates anywhere.
    lemma_filter_no_dups(all, inm);
    lemma_filter_no_dups(kc, outm);
    pool.lemma_multiset_has_no_duplicates();
    vstd::seq_lib::to_multiset_len(shuffled);
    vstd::seq_lib::to_multiset_len(pool);
    assert forall|x: Card| shuffled.to_multiset().contains(x) implies shuffled.to_multiset().count(x) == 1 by {
    }
    shuffled.lemma_multiset_has_no_duplicates_conv();
    let need: int = 10 - k0.len();
    assert(need <= shuffled.len());
    let tail = shuffled.take(need);
    assert forall|i: int, j: int| 0 <= i < k0.len() && 0 <= j < tail.len() implies k0[i] != tail[j] by {
        assert(k0.contains(k0[i]));
        all.lemma_filter_contains_rev(inm, k0[i]);
        assert(inm(k0[i])) by {
            all.lemma_filter_pred(inm, i);
        }
        assert(shuffled[j] == tail[j]);
        assert(shuffled.to_multiset().count(tail[j]) > 0);
        assert(pool.contains(tail[j]));
        let q = choose|q: int| 0 <= q < pool.len() && pool[q] == tail[j];
        kc.lemma_filter_pred(outm, q);
    }
    assert(tail.no_duplicates()) by {
        assert forall|i: int, j: int| 0 <= i < tail.len() && 0 <= j < tail.len() && i != j implies tail[i] != tail[j] by {
            assert(tail[i] == shuffled[i]);
            assert(tail[j] == shuffled[j]);
        }
    }
    vstd::seq_lib::lemma_no_dup_in_concat(k0, tail);
    let joined = k0 + tail;
    assert(filled(must, shuffled) == joined.take(10));
    assert(joined.take(10) =~= joined);
    // The result is a permutation of the joined cards.
    joined.lemma_multiset_has_no_duplicates();
    assert forall|x: Card| r.to_multiset().contains(x) implies r.to_multiset().count(x) == 1 by {
    }
    r.lemma_multiset_has_no_duplicates_conv();
    vstd::seq_lib::to_multiset_len(r);
    vstd::seq_lib::to_multiset_len(joined);
    assert forall|i: int| 0 <= i < r.len() implies crate::card::is_kingdom(#[trigger] r[i]) by {
        assert(r.to_multiset().count(r[i]) > 0);
        assert(joined.contains(r[i]));
        let q = choose|q: int| 0 <= q < joined.len() && joined[q] == r[i];
        if q < k0.len() {
            assert(k0[q] == r[i]);
            assert(k0.contains(r[i]));
            all.lemma_filter_pred(inm, q);
            let w = choose|w: int| 0 <= w < must.len() && must[w] == r[i];
        } else {
            assert(tail[q - k0.len()] == r[i]);
            assert(shuffled[q - k0.len()] == r[i]);
            assert(shuffled.to_multiset().count(r[i]) > 0);
            assert(pool.contains(r[i]));
            let z = choose|z: int| 0 <= z < pool.len() && pool[z] == r[i];
            assert(pool.contains(pool[z]));
            kc.lemma_filter_contains_rev(outm, pool[z]);
            crate::card::lemma_kingdom_contains(r[i]);
        }
    }
    assert forall|i: int| 0 <= i < must.len() implies r.contains(#[trigger] must[i]) by {
        let c = must[i];
        crate::card::lemma_filter_all_cards(inm, c);
        assert(k0.contains(c));
        let q = choose|q: int| 0 <= q < k0.len() && k0[q] == c;
        assert(joined[q] == c);
        assert(joined.to_multiset().count(c) > 0);
    }
}

} // verus!
