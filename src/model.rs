use vstd::prelude::*;

use crate::types::{AccountId, Balance, ForSale, NftData, TokenId};

verus! {

/// One existing token and the metadata it was minted with.
pub struct TokenEntry {
    pub id: TokenId,
    pub data: NftData,
}

/// One holding: `owner` holds token `id`. The holdings of an account, read in
/// order, are the order in which it acquired its tokens.
#[derive(Clone, Copy)]
pub struct Holding {
    pub owner: AccountId,
    pub id: TokenId,
}

/// No token id occurs twice among the entries.
pub open spec fn entries_unique(s: Seq<TokenEntry>) -> bool {
    forall|i: int, j: int| 0 <= i < j < s.len() ==> s[i].id != s[j].id
}

pub open spec fn holdings_unique(s: Seq<Holding>) -> bool {
    forall|i: int, j: int| 0 <= i < j < s.len() ==> s[i].id != s[j].id
}

pub open spec fn listings_unique(s: Seq<ForSale>) -> bool {
    forall|i: int, j: int| 0 <= i < j < s.len() ==> s[i].id != s[j].id
}

pub open spec fn has_entry(s: Seq<TokenEntry>, id: TokenId) -> bool {
    exists|i: int| 0 <= i < s.len() && s[i].id == id
}

pub open spec fn has_holding(s: Seq<Holding>, id: TokenId) -> bool {
    exists|i: int| 0 <= i < s.len() && s[i].id == id
}

pub open spec fn has_listing(s: Seq<ForSale>, id: TokenId) -> bool {
    exists|i: int| 0 <= i < s.len() && s[i].id == id
}

/// The holder of `id`, read from the last holding of it.
pub open spec fn holder(s: Seq<Holding>, id: TokenId) -> Option<AccountId>
    decreases s.len(),
{
    if s.len() == 0 {
        None
    } else if s.last().id == id {
        Some(s.last().owner)
    } else {
        holder(s.drop_last(), id)
    }
}

/// The metadata of `id`, read from the last entry of it.
pub open spec fn data_of(s: Seq<TokenEntry>, id: TokenId) -> Option<NftData>
    decreases s.len(),
{
    if s.len() == 0 {
        None
    } else if s.last().id == id {
        Some(s.last().data)
    } else {
        data_of(s.drop_last(), id)
    }
}

/// The price of `id`, read from the last listing of it.
pub open spec fn price_of(s: Seq<ForSale>, id: TokenId) -> Option<Balance>
    decreases s.len(),
{
    if s.len() == 0 {
        None
    } else if s.last().id == id {
        Some(s.last().price)
    } else {
        price_of(s.drop_last(), id)
    }
}

/// The ids that `a` holds, in the order of the holdings.
pub open spec fn ids_of(s: Seq<Holding>, a: AccountId) -> Seq<TokenId>
    decreases s.len(),
{
    if s.len() == 0 {
        Seq::empty()
    } else {
        let p = ids_of(s.drop_last(), a);
        if s.last().owner == a {
            p.push(s.last().id)
        } else {
            p
        }
    }
}

pub proof fn lemma_holder(s: Seq<Holding>, id: TokenId)
    requires
        holdings_unique(s),
    ensures
        holder(s, id) is None <==> !has_holding(s, id),
        forall|i: int| 0 <= i < s.len() && s[i].id == id ==> holder(s, id) == Some(s[i].owner),
    decreases s.len(),
{
    if s.len() > 0 {
        let t = s.drop_last();
        lemma_holder(t, id);
        if s.last().id != id {
            if has_holding(s, id) {
                let i = choose|i: int| 0 <= i < s.len() && s[i].id == id;
                assert(t[i].id == id);
            }
        }
    }
}

pub proof fn lemma_data_of(s: Seq<TokenEntry>, id: TokenId)
    requires
        entries_unique(s),
    ensures
        data_of(s, id) is None <==> !has_entry(s, id),
        forall|i: int| 0 <= i < s.len() && s[i].id == id ==> data_of(s, id) == Some(s[i].data),
    decreases s.len(),
{
    if s.len() > 0 {
        let t = s.drop_last();
        lemma_data_of(t, id);
        if s.last().id != id {
            if has_entry(s, id) {
                let i = choose|i: int| 0 <= i < s.len() && s[i].id == id;
                assert(t[i].id == id);
            }
        }
    }
}

pub proof fn lemma_price_of(s: Seq<ForSale>, id: TokenId)
    requires
        listings_unique(s),
    ensures
        price_of(s, id) is None <==> !has_listing(s, id),
        forall|i: int| 0 <= i < s.len() && s[i].id == id ==> price_of(s, id) == Some(s[i].price),
    decreases s.len(),
{
    if s.len() > 0 {
        let t = s.drop_last();
        lemma_price_of(t, id);
        if s.last().id != id {
            if has_listing(s, id) {
                let i = choose|i: int| 0 <= i < s.len() && s[i].id == id;
                assert(t[i].id == id);
            }
        }
    }
}

/// What an account holds splits along a split of the holdings.
pub proof fn lemma_ids_of_concat(x: Seq<Holding>, y: Seq<Holding>, a: AccountId)
    ensures
        ids_of(x + y, a) == ids_of(x, a) + ids_of(y, a),
    decreases y.len(),
{
    if y.len() == 0 {
        assert(x + y =~= x);
        assert(ids_of(x, a) + ids_of(y, a) =~= ids_of(x, a));
    } else {
        lemma_ids_of_concat(x, y.drop_last(), a);
        assert((x + y).drop_last() =~= x + y.drop_last());
        assert((x + y).last() == y.last());
        if y.last().owner == a {
            assert(ids_of(x, a) + ids_of(y.drop_last(), a).push(y.last().id) =~= (ids_of(x, a)
                + ids_of(y.drop_last(), a)).push(y.last().id));
        }
    }
}

/// An id is among what `a` holds exactly when some holding of `a` names it.
pub proof fn lemma_ids_of_contains(s: Seq<Holding>, a: AccountId, id: TokenId)
    ensures
        ids_of(s, a).contains(id) <==> exists|i: int|
            0 <= i < s.len() && s[i].id == id && s[i].owner == a,
    decreases s.len(),
{
    if s.len() > 0 {
        let t = s.drop_last();
        lemma_ids_of_contains(t, a, id);
        let p = ids_of(t, a);
        if ids_of(s, a).contains(id) {
            if s.last().owner == a && s.last().id == id {
                assert(s[s.len() - 1].id == id);
            } else {
                if s.last().owner == a {
                    let k = choose|k: int| 0 <= k < p.push(s.last().id).len() && p.push(s.last().id)[k] == id;
                    assert(p[k] == id);
                }
                let i = choose|i: int| 0 <= i < t.len() && t[i].id == id && t[i].owner == a;
                assert(s[i] == t[i]);
            }
        }
        if exists|i: int| 0 <= i < s.len() && s[i].id == id && s[i].owner == a {
            let i = choose|i: int| 0 <= i < s.len() && s[i].id == id && s[i].owner == a;
            if i == s.len() - 1 {
                assert(ids_of(s, a).last() == id);
            } else {
                assert(t[i] == s[i]);
                assert(p.contains(id));
                let k = choose|k: int| 0 <= k < p.len() && p[k] == id;
                if s.last().owner == a {
                    assert(p.push(s.last().id)[k] == id);
                }
            }
        }
    }
}

/// The ids that one account holds are distinct.
pub proof fn lemma_ids_of_unique(s: Seq<Holding>, a: AccountId)
    requires
        holdings_unique(s),
    ensures
        ids_of(s, a).no_duplicates(),
    decreases s.len(),
{
    if s.len() > 0 {
        let t = s.drop_last();
        lemma_ids_of_unique(t, a);
        if s.last().owner == a {
            lemma_ids_of_contains(t, a, s.last().id);
            if ids_of(t, a).contains(s.last().id) {
                let i = choose|i: int| 0 <= i < t.len() && t[i].id == s.last().id && t[i].owner == a;
                assert(s[i].id == s[s.len() - 1].id);
            }
        }
    }
}

/// Taking out one holding takes its id out of what its owner holds, at the
/// place where it stood, and leaves every other account's ids as they were.
pub proof fn lemma_ids_of_remove(s: Seq<Holding>, i: int, a: AccountId)
    requires
        0 <= i < s.len(),
    ensures
        s[i].owner == a ==> {
            let k = ids_of(s.take(i), a).len() as int;
            &&& 0 <= k < ids_of(s, a).len()
            &&& ids_of(s, a)[k] == s[i].id
            &&& ids_of(s.remove(i), a) == ids_of(s, a).remove(k)
        },
        s[i].owner != a ==> ids_of(s.remove(i), a) == ids_of(s, a),
{
    let x = s.take(i);
    let m = seq![s[i]];
    let y = s.skip(i + 1);
    assert(s =~= x + m + y);
    assert(s.remove(i) =~= x + y);
    lemma_ids_of_concat(x + m, y, a);
    lemma_ids_of_concat(x, m, a);
    lemma_ids_of_concat(x, y, a);
    assert(m.drop_last() =~= Seq::<Holding>::empty());
    assert(ids_of(m.drop_last(), a) == Seq::<TokenId>::empty());
    if s[i].owner == a {
        assert(ids_of(m, a) =~= seq![s[i].id]);
        let k = ids_of(x, a).len() as int;
        assert((ids_of(x, a) + seq![s[i].id] + ids_of(y, a)).remove(k) =~= ids_of(x, a) + ids_of(y, a));
    } else {
        assert(ids_of(m, a) =~= Seq::<TokenId>::empty());
        assert(ids_of(x, a) + ids_of(m, a) =~= ids_of(x, a));
    }
}

/// Appending a holding of a fresh id.
pub proof fn lemma_holdings_push(s: Seq<Holding>, h: Holding)
    requires
        holdings_unique(s),
        !has_holding(s, h.id),
    ensures
        holdings_unique(s.push(h)),
        forall|x: TokenId| has_holding(s.push(h), x) <==> (has_holding(s, x) || x == h.id),
        forall|x: TokenId|
            #[trigger] holder(s.push(h), x) == if x == h.id {
                Some(h.owner)
            } else {
                holder(s, x)
            },
        forall|a: AccountId|
            #[trigger] ids_of(s.push(h), a) == if a == h.owner {
                ids_of(s, a).push(h.id)
            } else {
                ids_of(s, a)
            },
{
    let t = s.push(h);
    assert(t.drop_last() =~= s);
    assert forall|i: int, j: int| 0 <= i < j < t.len() implies t[i].id != t[j].id by {
        if j == s.len() {
            assert(s[i].id == t[i].id);
        }
    }
    assert forall|x: TokenId| has_holding(t, x) <==> (has_holding(s, x) || x == h.id) by {
        if has_holding(t, x) && x != h.id {
            let i = choose|i: int| 0 <= i < t.len() && t[i].id == x;
            assert(s[i].id == x);
        }
        if has_holding(s, x) {
            let i = choose|i: int| 0 <= i < s.len() && s[i].id == x;
            assert(t[i].id == x);
        }
        if x == h.id {
            assert(t[s.len() as int].id == x);
        }
    }
}

/// Taking out the holding at `i`.
pub proof fn lemma_holdings_remove(s: Seq<Holding>, i: int)
    requires
        holdings_unique(s),
        0 <= i < s.len(),
    ensures
        holdings_unique(s.remove(i)),
        forall|x: TokenId| has_holding(s.remove(i), x) <==> (has_holding(s, x) && x != s[i].id),
        forall|x: TokenId| x != s[i].id ==> #[trigger] holder(s.remove(i), x) == holder(s, x),
        holder(s.remove(i), s[i].id) is None,
        forall|k: int|
            0 <= k < s.len() - 1 ==> #[trigger] s.remove(i)[k] == if k < i {
                s[k]
            } else {
                s[k + 1]
            },
{
    let t = s.remove(i);
    assert forall|a: int, b: int| 0 <= a < b < t.len() implies t[a].id != t[b].id by {
        let a2 = if a < i { a } else { a + 1 };
        let b2 = if b < i { b } else { b + 1 };
        assert(t[a] == s[a2] && t[b] == s[b2]);
    }
    assert forall|x: TokenId| has_holding(t, x) <==> (has_holding(s, x) && x != s[i].id) by {
        if has_holding(t, x) {
            let k = choose|k: int| 0 <= k < t.len() && t[k].id == x;
            let k2 = if k < i { k } else { k + 1 };
            assert(t[k] == s[k2]);
        }
        if has_holding(s, x) && x != s[i].id {
            let m = choose|m: int| 0 <= m < s.len() && s[m].id == x;
            if m < i {
                assert(t[m] == s[m]);
            } else {
                assert(t[m - 1] == s[m]);
            }
        }
    }
    assert forall|x: TokenId| x != s[i].id implies #[trigger] holder(t, x) == holder(s, x) by {
        lemma_holder(s, x);
        lemma_holder(t, x);
        if has_holding(s, x) {
            let m = choose|m: int| 0 <= m < s.len() && s[m].id == x;
            if m < i {
                assert(t[m] == s[m]);
            } else {
                assert(t[m - 1] == s[m]);
            }
        }
    }
    lemma_holder(t, s[i].id);
}

/// Appending an entry of a fresh id.
pub proof fn lemma_entries_push(s: Seq<TokenEntry>, e: TokenEntry)
    requires
        entries_unique(s),
        !has_entry(s, e.id),
    ensures
        entries_unique(s.push(e)),
        forall|x: TokenId| has_entry(s.push(e), x) <==> (has_entry(s, x) || x == e.id),
        forall|x: TokenId|
            #[trigger] data_of(s.push(e), x) == if x == e.id {
                Some(e.data)
            } else {
                data_of(s, x)
            },
{
    let t = s.push(e);
    assert(t.drop_last() =~= s);
    assert forall|i: int, j: int| 0 <= i < j < t.len() implies t[i].id != t[j].id by {
        if j == s.len() {
            assert(s[i].id == t[i].id);
        }
    }
    assert forall|x: TokenId| has_entry(t, x) <==> (has_entry(s, x) || x == e.id) by {
        if has_entry(t, x) && x != e.id {
            let i = choose|i: int| 0 <= i < t.len() && t[i].id == x;
            assert(s[i].id == x);
        }
        if has_entry(s, x) {
            let i = choose|i: int| 0 <= i < s.len() && s[i].id == x;
            assert(t[i].id == x);
        }
        if x == e.id {
            assert(t[s.len() as int].id == x);
        }
    }
}

/// Taking out the entry at `i`.
pub proof fn lemma_entries_remove(s: Seq<TokenEntry>, i: int)
    requires
        entries_unique(s),
        0 <= i < s.len(),
    ensures
        entries_unique(s.remove(i)),
        forall|x: TokenId| has_entry(s.remove(i), x) <==> (has_entry(s, x) && x != s[i].id),
        forall|x: TokenId| x != s[i].id ==> #[trigger] data_of(s.remove(i), x) == data_of(s, x),
        data_of(s.remove(i), s[i].id) is None,
{
    let t = s.remove(i);
    assert forall|a: int, b: int| 0 <= a < b < t.len() implies t[a].id != t[b].id by {
        let a2 = if a < i { a } else { a + 1 };
        let b2 = if b < i { b } else { b + 1 };
        assert(t[a] == s[a2] && t[b] == s[b2]);
    }
    assert forall|x: TokenId| has_entry(t, x) <==> (has_entry(s, x) && x != s[i].id) by {
        if has_entry(t, x) {
            let k = choose|k: int| 0 <= k < t.len() && t[k].id == x;
            let k2 = if k < i { k } else { k + 1 };
            assert(t[k] == s[k2]);
        }
        if has_entry(s, x) && x != s[i].id {
            let m = choose|m: int| 0 <= m < s.len() && s[m].id == x;
            if m < i {
                assert(t[m] == s[m]);
            } else {
                assert(t[m - 1] == s[m]);
            }
        }
    }
    assert forall|x: TokenId| x != s[i].id implies #[trigger] data_of(t, x) == data_of(s, x) by {
        lemma_data_of(s, x);
        lemma_data_of(t, x);
        if has_entry(s, x) {
            let m = choose|m: int| 0 <= m < s.len() && s[m].id == x;
            if m < i {
                assert(t[m] == s[m]);
            } else {
                assert(t[m - 1] == s[m]);
            }
        }
    }
    lemma_data_of(t, s[i].id);
}

/// Appending a listing of an id not listed yet.
pub proof fn lemma_listings_push(s: Seq<ForSale>, f: ForSale)
    requires
        listings_unique(s),
        !has_listing(s, f.id),
    ensures
        listings_unique(s.push(f)),
        forall|x: TokenId|
            #[trigger] price_of(s.push(f), x) == if x == f.id {
                Some(f.price)
            } else {
                price_of(s, x)
            },
{
    let t = s.push(f);
    assert(t.drop_last() =~= s);
    assert forall|i: int, j: int| 0 <= i < j < t.len() implies t[i].id != t[j].id by {
        if j == s.len() {
            assert(s[i].id == t[i].id);
        }
    }
}

/// Taking out the listing at `i`.
pub proof fn lemma_listings_remove(s: Seq<ForSale>, i: int)
    requires
        listings_unique(s),
        0 <= i < s.len(),
    ensures
        listings_unique(s.remove(i)),
        forall|x: TokenId| x != s[i].id ==> #[trigger] price_of(s.remove(i), x) == price_of(s, x),
        price_of(s.remove(i), s[i].id) is None,
{
    let t = s.remove(i);
    assert forall|a: int, b: int| 0 <= a < b < t.len() implies t[a].id != t[b].id by {
        let a2 = if a < i { a } else { a + 1 };
        let b2 = if b < i { b } else { b + 1 };
        assert(t[a] == s[a2] && t[b] == s[b2]);
    }
    assert forall|x: TokenId| x != s[i].id implies #[trigger] price_of(t, x) == price_of(s, x) by {
        lemma_price_of(s, x);
        lemma_price_of(t, x);
        if has_listing(s, x) {
            let m = choose|m: int| 0 <= m < s.len() && s[m].id == x;
            if m < i {
                assert(t[m] == s[m]);
            } else {
                assert(t[m - 1] == s[m]);
            }
        }
        if has_listing(t, x) {
            let k = choose|k: int| 0 <= k < t.len() && t[k].id == x;
            let k2 = if k < i { k } else { k + 1 };
            assert(t[k] == s[k2]);
        }
    }
    lemma_price_of(t, s[i].id);
    if has_listing(t, s[i].id) {
        let k = choose|k: int| 0 <= k < t.len() && t[k].id == s[i].id;
        let k2 = if k < i { k } else { k + 1 };
        assert(t[k] == s[k2]);
    }
}

/// Keeping some elements of a sequence without repeats gives a sequence
/// without repeats.
pub proof fn lemma_filter_unique(s: Seq<TokenId>, p: spec_fn(TokenId) -> bool)
    requires
        s.no_duplicates(),
    ensures
        s.filter(p).no_duplicates(),
    decreases s.len(),
{
    reveal(Seq::filter);
    if s.len() > 0 {
        let t = s.drop_last();
        assert(t.no_duplicates());
        lemma_filter_unique(t, p);
        if p(s.last()) && t.filter(p).contains(s.last()) {
            t.lemma_filter_contains_rev(p, s.last());
            let i = choose|i: int| 0 <= i < t.len() && t[i] == s.last();
            assert(s[i] == s[s.len() - 1]);
        }
    }
}

} // verus!
