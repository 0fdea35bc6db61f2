//! The catalogue's governing laws, proved over the model the operation
//! contracts are stated in: what a lookup finds after an add or a remove, and
//! how the borrow relation behaves under borrow and return.

use vstd::prelude::*;

use crate::catalogue::{
    find_item_in, has_item_id, lemma_find_item_at, lemma_find_item_some_index,
    lemma_lookup_borrow_absent, lemma_remove_borrow_membership, lookup_borrow, remove_borrow,
    remove_item_from, set_borrow,
};
use crate::entities::CatalogueItem;

verus! {

/// Law: an added item is found under its identifier, and adding it does not
/// disturb what any other identifier finds. Together with
/// `lemma_find_item_after_remove` and the operation contracts (no other
/// operation touches the item list), an added item is found, exactly as
/// added, until it is removed.
pub proof fn lemma_find_item_after_add(s: Seq<CatalogueItem>, item: CatalogueItem, other: u128)
    requires
        !has_item_id(s, item.id()),
    ensures
        find_item_in(s.push(item), item.id()) == Some(item),
        other != item.id() ==> find_item_in(s.push(item), other) == find_item_in(s, other),
    decreases s.len(),
{
    lemma_find_item_some_index(s, item.id());
    lemma_find_item_at(s.push(item), item.id(), s.len() as int);
    if other != item.id() {
        if s.len() == 0 {
            assert(s.push(item).drop_first() =~= s);
        } else if s[0].id() != other {
            assert(s.push(item).drop_first() =~= s.drop_first().push(item));
            lemma_find_item_after_add(s.drop_first(), item, other);
        }
    }
}

/// Law: removing an item by identifier does not disturb what any other
/// identifier finds.
pub proof fn lemma_find_item_after_remove(s: Seq<CatalogueItem>, uuid: u128, other: u128)
    requires
        other != uuid,
    ensures
        find_item_in(remove_item_from(s, uuid), other) == find_item_in(s, other),
    decreases s.len(),
{
    if s.len() > 0 {
        if s[0].id() == uuid {
            lemma_find_item_after_remove(s.drop_first(), uuid, other);
        } else {
            lemma_find_item_after_remove(s.drop_first(), uuid, other);
            let rest = remove_item_from(s.drop_first(), uuid);
            assert((seq![s[0]] + rest)[0] == s[0]);
            if s[0].id() != other {
                assert((seq![s[0]] + rest).drop_first() =~= rest);
            }
        }
    }
}

/// Removing all entries keyed by an item leaves nothing keyed by it: the
/// relation holds no dangling entry for a removed item.
pub proof fn lemma_remove_borrow_clears(s: Seq<(u128, u128)>, item: u128)
    ensures
        lookup_borrow(remove_borrow(s, item), item) is None,
{
    lemma_remove_borrow_membership(s, item);
    lemma_lookup_borrow_absent(remove_borrow(s, item), item);
}

/// Appending an entry keyed by `item` and then removing by `item` is the
/// same as removing alone.
pub proof fn lemma_remove_borrow_push_same(t: Seq<(u128, u128)>, item: u128, reader: u128)
    ensures
        remove_borrow(t.push((item, reader)), item) == remove_borrow(t, item),
    decreases t.len(),
{
    if t.len() == 0 {
        assert(t.push((item, reader)).drop_first() =~= Seq::<(u128, u128)>::empty());
        assert(remove_borrow(Seq::<(u128, u128)>::empty(), item) =~= Seq::<(u128, u128)>::empty());
    } else {
        assert(t.push((item, reader)).drop_first() =~= t.drop_first().push((item, reader)));
        lemma_remove_borrow_push_same(t.drop_first(), item, reader);
    }
}

/// Removing entries for an item that holds none leaves the relation as it
/// was.
pub proof fn lemma_remove_borrow_noop(s: Seq<(u128, u128)>, item: u128)
    requires
        lookup_borrow(s, item) is None,
    ensures
        remove_borrow(s, item) == s,
    decreases s.len(),
{
    if s.len() == 0 {
        assert(remove_borrow(s, item) =~= s);
    } else {
        lemma_remove_borrow_noop(s.drop_first(), item);
        assert(seq![s[0]] + s.drop_first() =~= s);
    }
}

/// Law: returning an item twice in a row is the same as returning it once.
pub proof fn lemma_return_idempotent(s: Seq<(u128, u128)>, item: u128)
    ensures
        remove_borrow(remove_borrow(s, item), item) == remove_borrow(s, item),
{
    lemma_remove_borrow_clears(s, item);
    lemma_remove_borrow_noop(remove_borrow(s, item), item);
}

/// Removing by one key does not disturb what any other key maps to.
pub proof fn lemma_lookup_remove_other(s: Seq<(u128, u128)>, item: u128, x: u128)
    requires
        x != item,
    ensures
        lookup_borrow(remove_borrow(s, item), x) == lookup_borrow(s, x),
    decreases s.len(),
{
    if s.len() > 0 {
        lemma_lookup_remove_other(s.drop_first(), item, x);
        if s[0].0 != item {
            let rest = remove_borrow(s.drop_first(), item);
            assert((seq![s[0]] + rest)[0] == s[0]);
            if s[0].0 != x {
                assert((seq![s[0]] + rest).drop_first() =~= rest);
            }
        }
    }
}

/// Appending an entry keyed otherwise does not disturb what a key maps to.
pub proof fn lemma_lookup_push_other(t: Seq<(u128, u128)>, e: (u128, u128), x: u128)
    requires
        e.0 != x,
    ensures
        lookup_borrow(t.push(e), x) == lookup_borrow(t, x),
    decreases t.len(),
{
    if t.len() == 0 {
        assert(t.push(e)[0] == e);
        assert(t.push(e).drop_first() =~= Seq::<(u128, u128)>::empty());
        assert(lookup_borrow(t.push(e), x) == lookup_borrow(t.push(e).drop_first(), x));
        assert(lookup_borrow(Seq::<(u128, u128)>::empty(), x) is None);
    } else {
        assert(t.push(e)[0] == t[0]);
        assert(t.push(e).drop_first() =~= t.drop_first().push(e));
        lemma_lookup_push_other(t.drop_first(), e, x);
        if t[0].0 != x {
            assert(lookup_borrow(t.push(e), x) == lookup_borrow(t.drop_first().push(e), x));
            assert(lookup_borrow(t, x) == lookup_borrow(t.drop_first(), x));
        }
    }
}

/// Law: borrowing an item and returning it right away leaves the item
/// available again; if the item was available to begin with, the whole
/// relation is exactly what it was; and the borrow never disturbs what any
/// other item's entry maps to.
pub proof fn lemma_borrow_return_round_trip(s: Seq<(u128, u128)>, item: u128, reader: u128)
    ensures
        remove_borrow(set_borrow(s, item, reader), item) == remove_borrow(s, item),
        lookup_borrow(s, item) is None ==> remove_borrow(set_borrow(s, item, reader), item) == s,
        forall|x: u128|
            x != item ==> #[trigger] lookup_borrow(set_borrow(s, item, reader), x)
                == lookup_borrow(s, x),
{
    lemma_remove_borrow_push_same(remove_borrow(s, item), item, reader);
    lemma_return_idempotent(s, item);
    if lookup_borrow(s, item) is None {
        lemma_remove_borrow_noop(s, item);
    }
    assert forall|x: u128| x != item implies #[trigger] lookup_borrow(
        set_borrow(s, item, reader),
        x,
    ) == lookup_borrow(s, x) by {
        lemma_lookup_push_other(remove_borrow(s, item), (item, reader), x);
        lemma_lookup_remove_other(s, item, x);
    }
}

} // verus!
