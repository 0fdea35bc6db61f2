//! The catalogue store: the authoritative in-memory lists of items and
//! readers, and the borrow relation mapping an item id to the reader that
//! currently holds it.

use vstd::prelude::*;

use crate::entities::{
    books_of, magazines_of, mint_id, readers_view, BookView, CatalogueItem, MagazineView, Reader,
    ReaderView,
};
use crate::errors::DepoError;
use crate::text::{chars_eq, norm_name, normalized_name, trim_back, trim_front};

verus! {

/// First match over the reader list whose normalized name equals the
/// normalized query, in list order.
pub open spec fn find_reader_by_name(s: Seq<Reader>, q: Seq<char>) -> Option<Reader>
    decreases s.len(),
{
    if s.len() == 0 {
        None
    } else if norm_name(s[0].name@) == norm_name(q) {
        Some(s[0])
    } else {
        find_reader_by_name(s.drop_first(), q)
    }
}

/// First match by identifier over an item list, in list order.
pub open spec fn find_item_in(s: Seq<CatalogueItem>, uuid: u128) -> Option<CatalogueItem>
    decreases s.len(),
{
    if s.len() == 0 {
        None
    } else if s[0].id() == uuid {
        Some(s[0])
    } else {
        find_item_in(s.drop_first(), uuid)
    }
}

pub open spec fn has_item_id(s: Seq<CatalogueItem>, uuid: u128) -> bool {
    find_item_in(s, uuid) is Some
}

/// First match by identifier over a reader list, in list order.
pub open spec fn find_reader_in(s: Seq<Reader>, uuid: u128) -> Option<Reader>
    decreases s.len(),
{
    if s.len() == 0 {
        None
    } else if s[0].uuid == uuid {
        Some(s[0])
    } else {
        find_reader_in(s.drop_first(), uuid)
    }
}

pub open spec fn has_reader_id(s: Seq<Reader>, uuid: u128) -> bool {
    find_reader_in(s, uuid) is Some
}

/// First match by key over the borrow relation: the reader holding `item`,
/// if any entry maps `item` to a reader.
pub open spec fn lookup_borrow(s: Seq<(u128, u128)>, item: u128) -> Option<u128>
    decreases s.len(),
{
    if s.len() == 0 {
        None
    } else if s[0].0 == item {
        Some(s[0].1)
    } else {
        lookup_borrow(s.drop_first(), item)
    }
}

/// The borrow relation with every entry keyed by `item` removed.
pub open spec fn remove_borrow(s: Seq<(u128, u128)>, item: u128) -> Seq<(u128, u128)>
    decreases s.len(),
{
    if s.len() == 0 {
        Seq::empty()
    } else if s[0].0 == item {
        remove_borrow(s.drop_first(), item)
    } else {
        seq![s[0]] + remove_borrow(s.drop_first(), item)
    }
}

/// The borrow relation after `item` is borrowed by `reader`: any previous
/// entry for `item` is dropped and the new pair is appended.
pub open spec fn set_borrow(s: Seq<(u128, u128)>, item: u128, reader: u128) -> Seq<(u128, u128)> {
    remove_borrow(s, item).push((item, reader))
}

/// The item list with the first item of identifier `uuid` removed, if one is
/// present.
pub open spec fn remove_item_from(s: Seq<CatalogueItem>, uuid: u128) -> Seq<CatalogueItem>
    decreases s.len(),
{
    if s.len() == 0 {
        Seq::empty()
    } else if s[0].id() == uuid {
        s.drop_first()
    } else {
        seq![s[0]] + remove_item_from(s.drop_first(), uuid)
    }
}

// ---------------------------------------------------------------------------
// Characterization of the first-match scans by index.
// ---------------------------------------------------------------------------

pub proof fn lemma_find_item_at(s: Seq<CatalogueItem>, uuid: u128, k: int)
    requires
        0 <= k < s.len(),
        s[k].id() == uuid,
        forall|j: int| 0 <= j < k ==> s[j].id() != uuid,
    ensures
        find_item_in(s, uuid) == Some(s[k]),
    decreases k,
{
    if k > 0 {
        lemma_find_item_at(s.drop_first(), uuid, k - 1);
    }
}

pub proof fn lemma_find_item_absent(s: Seq<CatalogueItem>, uuid: u128)
    requires
        forall|j: int| 0 <= j < s.len() ==> s[j].id() != uuid,
    ensures
        find_item_in(s, uuid) is None,
    decreases s.len(),
{
    if s.len() > 0 {
        lemma_find_item_absent(s.drop_first(), uuid);
    }
}

pub proof fn lemma_find_reader_at(s: Seq<Reader>, uuid: u128, k: int)
    requires
        0 <= k < s.len(),
        s[k].uuid == uuid,
        forall|j: int| 0 <= j < k ==> s[j].uuid != uuid,
    ensures
        find_reader_in(s, uuid) == Some(s[k]),
    decreases k,
{
    if k > 0 {
        lemma_find_reader_at(s.drop_first(), uuid, k - 1);
    }
}

pub proof fn lemma_find_reader_absent(s: Seq<Reader>, uuid: u128)
    requires
        forall|j: int| 0 <= j < s.len() ==> s[j].uuid != uuid,
    ensures
        find_reader_in(s, uuid) is None,
    decreases s.len(),
{
    if s.len() > 0 {
        lemma_find_reader_absent(s.drop_first(), uuid);
    }
}

pub proof fn lemma_lookup_borrow_at(s: Seq<(u128, u128)>, item: u128, k: int)
    requires
        0 <= k < s.len(),
        s[k].0 == item,
        forall|j: int| 0 <= j < k ==> s[j].0 != item,
    ensures
        lookup_borrow(s, item) == Some(s[k].1),
    decreases k,
{
    if k > 0 {
        lemma_lookup_borrow_at(s.drop_first(), item, k - 1);
    }
}

pub proof fn lemma_lookup_borrow_absent(s: Seq<(u128, u128)>, item: u128)
    requires
        forall|j: int| 0 <= j < s.len() ==> s[j].0 != item,
    ensures
        lookup_borrow(s, item) is None,
    decreases s.len(),
{
    if s.len() > 0 {
        lemma_lookup_borrow_absent(s.drop_first(), item);
    }
}

// ---------------------------------------------------------------------------
// The store.
// ---------------------------------------------------------------------------

/// Commands the presentation layer can be in the middle of issuing.
pub enum AddCommand {
    Idle,
    AddUser,
    AddBook,
    AddMagazine,
}

/// Aggregate root: the item list, the reader list, and the borrow relation.
pub struct Catalogue {
    pub items: Vec<CatalogueItem>,
    pub readers: Vec<Reader>,
    pub borrows: Vec<(u128, u128)>,
}

/// A read-only snapshot of one catalogue item for the presentation layer:
/// the item's fields, and the holding reader when it is borrowed.
pub struct Item {
    pub uuid: u128,
    pub isbn_code: String,
    pub title: String,
    pub year: i32,
    pub super_hero: Option<String>,
    pub reader: Option<u128>,
}

/// The mathematical image of a whole catalogue, with the two item kinds
/// separated as the persisted document separates them.
pub struct CatalogueView {
    pub books: Seq<BookView>,
    pub magazines: Seq<MagazineView>,
    pub borrows: Seq<(u128, u128)>,
    pub readers: Seq<ReaderView>,
}

impl View for Catalogue {
    type V = CatalogueView;

    open spec fn view(&self) -> CatalogueView {
        CatalogueView {
            books: books_of(self.items@),
            magazines: magazines_of(self.items@),
            borrows: self.borrows@,
            readers: readers_view(self.readers@),
        }
    }
}

impl Catalogue {
    /// Well-formedness: identifiers are unique within each list, and every
    /// borrow entry points at an existing item and an existing reader.
    pub open spec fn wf(&self) -> bool {
        &&& forall|i: int, j: int|
            #![trigger self.items@[i], self.items@[j]]
            0 <= i < j < self.items@.len() ==> self.items@[i].id() != self.items@[j].id()
        &&& forall|i: int, j: int|
            #![trigger self.readers@[i], self.readers@[j]]
            0 <= i < j < self.readers@.len() ==> self.readers@[i].uuid != self.readers@[j].uuid
        &&& forall|i: int, j: int|
            #![trigger self.borrows@[i], self.borrows@[j]]
            0 <= i < j < self.borrows@.len() ==> self.borrows@[i].0 != self.borrows@[j].0
        &&& forall|k: int|
            0 <= k < self.borrows@.len() ==> has_item_id(self.items@, #[trigger] self.borrows@[k].0)
        &&& forall|k: int|
            0 <= k < self.borrows@.len() ==> has_reader_id(
                self.readers@,
                #[trigger] self.borrows@[k].1,
            )
    }

    /// An empty catalogue.
    pub fn new() -> (c: Catalogue)
        ensures
            c.wf(),
            c.items@ == Seq::<CatalogueItem>::empty(),
            c.readers@ == Seq::<Reader>::empty(),
            c.borrows@ == Seq::<(u128, u128)>::empty(),
    {
        Catalogue { items: Vec::new(), readers: Vec::new(), borrows: Vec::new() }
    }

    /// Whether an item with this identifier is present.
    pub fn contains_item(&self, uuid: u128) -> (r: bool)
        ensures
            r == has_item_id(self.items@, uuid),
    {
        let n = self.items.len();
        let mut k: usize = 0;
        while k < n
            invariant
                0 <= k <= n,
                n == self.items@.len(),
                forall|j: int| 0 <= j < k ==> self.items@[j].id() != uuid,
            decreases n - k,
        {
            if self.items[k].uuid() == uuid {
                proof {
                    lemma_find_item_at(self.items@, uuid, k as int);
                }
                return true;
            }
            k += 1;
        }
        proof {
            lemma_find_item_absent(self.items@, uuid);
        }
        false
    }

    /// Linear scan by identifier equality: the first item carrying `uuid`.
    pub fn find_item(&self, uuid: u128) -> (r: Option<&CatalogueItem>)
        ensures
            match r {
                Some(it) => find_item_in(self.items@, uuid) == Some(*it),
                None => find_item_in(self.items@, uuid) is None,
            },
    {
        let n = self.items.len();
        let mut k: usize = 0;
        while k < n
            invariant
                0 <= k <= n,
                n == self.items@.len(),
                forall|j: int| 0 <= j < k ==> self.items@[j].id() != uuid,
            decreases n - k,
        {
            if self.items[k].uuid() == uuid {
                proof {
                    lemma_find_item_at(self.items@, uuid, k as int);
                }
                return Some(&self.items[k]);
            }
            k += 1;
        }
        proof {
            lemma_find_item_absent(self.items@, uuid);
        }
        None
    }

    /// Linear scan by identifier equality: the first reader carrying `uuid`.
    pub fn find_reader(&self, uuid: u128) -> (r: Option<&Reader>)
        ensures
            match r {
                Some(rd) => find_reader_in(self.readers@, uuid) == Some(*rd),
                None => find_reader_in(self.readers@, uuid) is None,
            },
    {
        let n = self.readers.len();
        let mut k: usize = 0;
        while k < n
            invariant
                0 <= k <= n,
                n == self.readers@.len(),
                forall|j: int| 0 <= j < k ==> self.readers@[j].uuid != uuid,
            decreases n - k,
        {
            if self.readers[k].uuid == uuid {
                proof {
                    lemma_find_reader_at(self.readers@, uuid, k as int);
                }
                return Some(&self.readers[k]);
            }
            k += 1;
        }
        proof {
            lemma_find_reader_absent(self.readers@, uuid);
        }
        None
    }

    /// The reader currently holding `uuid`, if the item is borrowed.
    pub fn borrower_of(&self, uuid: u128) -> (r: Option<u128>)
        ensures
            r == lookup_borrow(self.borrows@, uuid),
    {
        let n = self.borrows.len();
        let mut k: usize = 0;
        while k < n
            invariant
                0 <= k <= n,
                n == self.borrows@.len(),
                forall|j: int| 0 <= j < k ==> self.borrows@[j].0 != uuid,
            decreases n - k,
        {
            if self.borrows[k].0 == uuid {
                proof {
                    lemma_lookup_borrow_at(self.borrows@, uuid, k as int);
                }
                return Some(self.borrows[k].1);
            }
            k += 1;
        }
        proof {
            lemma_lookup_borrow_absent(self.borrows@, uuid);
        }
        None
    }

    /// Appends an item. The identifier must not be in use: a catalogue never
    /// holds two items with one identifier. The freshly minted random
    /// identifiers of `Book::new` and `Magazine::new` collide only with
    /// negligible probability; a collision is reported, not stored.
    pub fn add_item(&mut self, item: CatalogueItem) -> (r: Result<(), DepoError>)
        requires
            old(self).wf(),
        ensures
            final(self).wf(),
            r is Ok <==> !has_item_id(old(self).items@, item.id()),
            r is Ok ==> final(self).items@ == old(self).items@.push(item),
            r is Err ==> *final(self) == *old(self) && r == Err::<(), DepoError>(
                DepoError::ValidationError,
            ),
            final(self).readers@ == old(self).readers@,
            final(self).borrows@ == old(self).borrows@,
    {
        if self.contains_item(item.uuid()) {
            return Err(DepoError::ValidationError);
        }
        proof {
            lemma_find_item_some_index(self.items@, item.id());
        }
        self.items.push(item);
        proof {
            let s_old = old(self).items@;
            let s_new = self.items@;
            assert forall|k: int| 0 <= k < self.borrows@.len() implies has_item_id(
                s_new,
                #[trigger] self.borrows@[k].0,
            ) by {
                lemma_find_item_extend(s_old, item, self.borrows@[k].0);
            }
        }
        Ok(())
    }

    /// Whether a reader with this identifier is present.
    pub fn contains_reader(&self, uuid: u128) -> (r: bool)
        ensures
            r == has_reader_id(self.readers@, uuid),
    {
        let n = self.readers.len();
        let mut k: usize = 0;
        while k < n
            invariant
                0 <= k <= n,
                n == self.readers@.len(),
                forall|j: int| 0 <= j < k ==> self.readers@[j].uuid != uuid,
            decreases n - k,
        {
            if self.readers[k].uuid == uuid {
                proof {
                    lemma_find_reader_at(self.readers@, uuid, k as int);
                }
                return true;
            }
            k += 1;
        }
        proof {
            lemma_find_reader_absent(self.readers@, uuid);
        }
        false
    }

    /// Appends a reader under a given identifier. The name must not be blank
    /// after trimming, and the identifier must not be in use.
    pub fn add_reader_with_id(&mut self, uuid: u128, name: String) -> (r: Result<(), DepoError>)
        requires
            old(self).wf(),
        ensures
            final(self).wf(),
            r is Ok <==> (trim_back(trim_front(name@)).len() > 0 && !has_reader_id(
                old(self).readers@,
                uuid,
            )),
            r is Ok ==> final(self).readers@ == old(self).readers@.push(Reader { uuid, name }),
            r is Err ==> *final(self) == *old(self) && r == Err::<(), DepoError>(
                DepoError::ValidationError,
            ),
            final(self).items@ == old(self).items@,
            final(self).borrows@ == old(self).borrows@,
    {
        let normed = normalized_name(name.as_str());
        if normed.len() == 0 {
            return Err(DepoError::ValidationError);
        }
        if self.contains_reader(uuid) {
            return Err(DepoError::ValidationError);
        }
        proof {
            lemma_find_reader_some_index(self.readers@, uuid);
        }
        self.readers.push(Reader { uuid, name });
        proof {
            let s_old = old(self).readers@;
            let reader = Reader { uuid, name };
            assert forall|k: int| 0 <= k < self.borrows@.len() implies has_reader_id(
                self.readers@,
                #[trigger] self.borrows@[k].1,
            ) by {
                lemma_find_reader_extend(s_old, reader, self.borrows@[k].1);
            }
        }
        Ok(())
    }

    /// Constructs a reader with a freshly minted identifier and appends it.
    /// A name that is blank after trimming is rejected; so is the minted
    /// identifier in the negligible case that it is already in use. A
    /// nonblank name added to a catalogue with no readers therefore always
    /// succeeds: there is no identifier to collide with.
    pub fn add_reader(&mut self, name: String) -> (r: Result<u128, DepoError>)
        requires
            old(self).wf(),
        ensures
            final(self).wf(),
            final(self).items@ == old(self).items@,
            final(self).borrows@ == old(self).borrows@,
            trim_back(trim_front(name@)).len() == 0 ==> r == Err::<u128, DepoError>(
                DepoError::ValidationError,
            ),
            r is Err ==> trim_back(trim_front(name@)).len() == 0 || old(self).readers@.len() > 0,
            match r {
                Ok(uuid) => {
                    &&& trim_back(trim_front(name@)).len() > 0
                    &&& !has_reader_id(old(self).readers@, uuid)
                    &&& final(self).readers@ == old(self).readers@.push(Reader { uuid, name })
                },
                Err(e) => *final(self) == *old(self) && e == DepoError::ValidationError,
            },
    {
        let uuid = mint_id();
        match self.add_reader_with_id(uuid, name) {
            Ok(()) => Ok(uuid),
            Err(e) => Err(e),
        }
    }

    /// Rebuilds the borrow relation without the entries keyed by `uuid`.
    fn filter_borrows(&mut self, uuid: u128)
        ensures
            final(self).borrows@ == remove_borrow(old(self).borrows@, uuid),
            final(self).items@ == old(self).items@,
            final(self).readers@ == old(self).readers@,
    {
        let s = &self.borrows;
        let n = s.len();
        let mut out: Vec<(u128, u128)> = Vec::new();
        proof {
            assert(s@.subrange(0, n as int) =~= s@);
        }
        let mut k: usize = 0;
        while k < n
            invariant
                0 <= k <= n,
                n == s@.len(),
                s == &old(self).borrows,
                remove_borrow(s@, uuid) == out@ + remove_borrow(
                    s@.subrange(k as int, n as int),
                    uuid,
                ),
            decreases n - k,
        {
            let e = s[k];
            proof {
                assert(s@.subrange(k as int, n as int).drop_first() =~= s@.subrange(
                    k as int + 1,
                    n as int,
                ));
            }
            if e.0 != uuid {
                proof {
                    assert(out@ + (seq![e] + remove_borrow(
                        s@.subrange(k as int + 1, n as int),
                        uuid,
                    )) =~= out@.push(e) + remove_borrow(s@.subrange(k as int + 1, n as int), uuid));
                }
                out.push(e);
            }
            k += 1;
        }
        proof {
            assert(remove_borrow(s@.subrange(n as int, n as int), uuid) =~= Seq::<(
                u128,
                u128,
            )>::empty());
            assert(out@ + Seq::<(u128, u128)>::empty() =~= out@);
        }
        self.borrows = out;
    }

    /// Removes the relation entry for `uuid`, if present. Returning an item
    /// that is already available is a no-op, not an error.
    pub fn return_item(&mut self, uuid: u128)
        requires
            old(self).wf(),
        ensures
            final(self).wf(),
            final(self).borrows@ == remove_borrow(old(self).borrows@, uuid),
            final(self).items@ == old(self).items@,
            final(self).readers@ == old(self).readers@,
            lookup_borrow(final(self).borrows@, uuid) is None,
    {
        self.filter_borrows(uuid);
        proof {
            lemma_remove_borrow_membership(old(self).borrows@, uuid);
            lemma_remove_borrow_distinct(old(self).borrows@, uuid);
            assert forall|j: int| 0 <= j < self.borrows@.len() implies self.borrows@[j].0
                != uuid by {
                assert(remove_borrow(old(self).borrows@, uuid)[j].0 != uuid);
            }
            lemma_lookup_borrow_absent(self.borrows@, uuid);
            assert forall|k: int| 0 <= k < self.borrows@.len() implies has_item_id(
                self.items@,
                #[trigger] self.borrows@[k].0,
            ) && has_reader_id(self.readers@, self.borrows@[k].1) by {
                let i = choose|i: int|
                    0 <= i < old(self).borrows@.len() && remove_borrow(old(self).borrows@, uuid)[k]
                        == old(self).borrows@[i];
                assert(has_item_id(old(self).items@, old(self).borrows@[i].0));
                assert(has_reader_id(old(self).readers@, old(self).borrows@[i].1));
            }
        }
    }

    /// The index of the first item carrying `uuid`, if one is present.
    fn position_of_item(&self, uuid: u128) -> (r: Option<usize>)
        ensures
            match r {
                Some(k) => 0 <= k < self.items@.len() && self.items@[k as int].id() == uuid
                    && forall|j: int| 0 <= j < k ==> self.items@[j].id() != uuid,
                None => forall|j: int| 0 <= j < self.items@.len() ==> self.items@[j].id() != uuid,
            },
    {
        let n = self.items.len();
        let mut k: usize = 0;
        while k < n
            invariant
                0 <= k <= n,
                n == self.items@.len(),
                forall|j: int| 0 <= j < k ==> self.items@[j].id() != uuid,
            decreases n - k,
        {
            if self.items[k].uuid() == uuid {
                return Some(k);
            }
            k += 1;
        }
        None
    }

    /// Removes the item carrying `uuid` from the item list, together with
    /// any borrow entry keyed by it, so no dangling borrow record survives.
    /// An absent identifier leaves the catalogue unchanged.
    pub fn remove_item(&mut self, uuid: u128)
        requires
            old(self).wf(),
        ensures
            final(self).wf(),
            final(self).items@ == remove_item_from(old(self).items@, uuid),
            final(self).borrows@ == remove_borrow(old(self).borrows@, uuid),
            final(self).readers@ == old(self).readers@,
            !has_item_id(final(self).items@, uuid),
            lookup_borrow(final(self).borrows@, uuid) is None,
    {
        let pos = self.position_of_item(uuid);
        match pos {
            Some(idx) => {
                proof {
                    lemma_remove_item_at(self.items@, uuid, idx as int);
                }
                self.items.remove(idx);
                proof {
                    let s_old = old(self).items@;
                    let s_new = self.items@;
                    assert forall|i: int, j: int|
                        #![trigger s_new[i], s_new[j]]
                        0 <= i < j < s_new.len() implies s_new[i].id() != s_new[j].id() by {
                        let oi = if i < idx { i } else { i + 1 };
                        let oj = if j < idx { j } else { j + 1 };
                        assert(s_new[i] == s_old[oi]);
                        assert(s_new[j] == s_old[oj]);
                    }
                    assert forall|j: int| 0 <= j < s_new.len() implies s_new[j].id() != uuid by {
                        if j < idx {
                            assert(s_new[j] == s_old[j]);
                        } else {
                            assert(s_new[j] == s_old[j + 1]);
                            assert(s_old[idx as int].id() != s_old[j + 1].id());
                        }
                    }
                    lemma_find_item_absent(s_new, uuid);
                }
            },
            None => {
                proof {
                    lemma_remove_item_absent(self.items@, uuid);
                    lemma_find_item_absent(self.items@, uuid);
                }
            },
        }
        self.filter_borrows(uuid);
        proof {
            lemma_remove_borrow_membership(old(self).borrows@, uuid);
            lemma_remove_borrow_distinct(old(self).borrows@, uuid);
            assert forall|j: int| 0 <= j < self.borrows@.len() implies self.borrows@[j].0
                != uuid by {
                assert(remove_borrow(old(self).borrows@, uuid)[j].0 != uuid);
            }
            lemma_lookup_borrow_absent(self.borrows@, uuid);
            assert forall|k2: int| 0 <= k2 < self.borrows@.len() implies has_item_id(
                self.items@,
                #[trigger] self.borrows@[k2].0,
            ) && has_reader_id(self.readers@, self.borrows@[k2].1) by {
                assert(remove_borrow(old(self).borrows@, uuid)[k2] == self.borrows@[k2]);
                let e = self.borrows@[k2];
                let i0 = choose|i: int|
                    0 <= i < old(self).borrows@.len() && remove_borrow(old(self).borrows@, uuid)[k2]
                        == old(self).borrows@[i];
                assert(has_item_id(old(self).items@, e.0));
                assert(has_reader_id(old(self).readers@, e.1));
                if pos is Some {
                    let idx = pos.unwrap() as int;
                    lemma_find_item_some_index(old(self).items@, e.0);
                    let m = choose|m: int|
                        0 <= m < old(self).items@.len() && old(self).items@[m].id() == e.0;
                    let nm = if m < idx { m } else { m - 1 };
                    assert(self.items@[nm].id() == e.0);
                    lemma_find_item_exists(self.items@, e.0);
                }
            }
        }
    }

    /// The read-only snapshot the presentation layer consumes: every item,
    /// in list order, with its fields and its borrow state.
    pub fn snapshot_items(&self) -> (r: Vec<Item>)
        ensures
            r@.len() == self.items@.len(),
            forall|k: int|
                0 <= k < r@.len() ==> {
                    let it = self.items@[k];
                    let sn = #[trigger] r@[k];
                    &&& sn.uuid == it.id()
                    &&& sn.reader == lookup_borrow(self.borrows@, it.id())
                    &&& (it matches CatalogueItem::Book(b) ==> sn.isbn_code@ == b.isbn_code@
                        && sn.title@ == b.title@ && sn.year == b.year && sn.super_hero is None)
                    &&& (it matches CatalogueItem::Magazine(m) ==> sn.isbn_code@ == m.isbn_code@
                        && sn.title@ == m.title@ && sn.year == m.year && sn.super_hero is Some
                        && sn.super_hero.unwrap()@ == m.super_hero@)
                },
    {
        let n = self.items.len();
        let mut r: Vec<Item> = Vec::new();
        let mut k: usize = 0;
        while k < n
            invariant
                0 <= k <= n,
                n == self.items@.len(),
                r@.len() == k,
                forall|t: int|
                    0 <= t < k ==> {
                        let it = self.items@[t];
                        let sn = #[trigger] r@[t];
                        &&& sn.uuid == it.id()
                        &&& sn.reader == lookup_borrow(self.borrows@, it.id())
                        &&& (it matches CatalogueItem::Book(b) ==> sn.isbn_code@ == b.isbn_code@
                            && sn.title@ == b.title@ && sn.year == b.year
                            && sn.super_hero is None)
                        &&& (it matches CatalogueItem::Magazine(m) ==> sn.isbn_code@
                            == m.isbn_code@ && sn.title@ == m.title@ && sn.year == m.year
                            && sn.super_hero is Some && sn.super_hero.unwrap()@ == m.super_hero@)
                    },
            decreases n - k,
        {
            let uuid = self.items[k].uuid();
            let reader = self.borrower_of(uuid);
            let sn = match &self.items[k] {
                CatalogueItem::Book(b) => Item {
                    uuid,
                    isbn_code: b.isbn_code.clone(),
                    title: b.title.clone(),
                    year: b.year,
                    super_hero: None,
                    reader,
                },
                CatalogueItem::Magazine(m) => Item {
                    uuid,
                    isbn_code: m.isbn_code.clone(),
                    title: m.title.clone(),
                    year: m.year,
                    super_hero: Some(m.super_hero.clone()),
                    reader,
                },
            };
            r.push(sn);
            k += 1;
        }
        r
    }

    /// Decides well-formedness of an arbitrary state, as after decoding a
    /// persisted document.
    pub fn check_wf(&self) -> (r: bool)
        ensures
            r == self.wf(),
    {
        let n = self.items.len();
        let mut k: usize = 0;
        while k < n
            invariant
                0 <= k <= n,
                n == self.items@.len(),
                forall|i: int, j: int|
                    #![trigger self.items@[i], self.items@[j]]
                    0 <= i < j < k ==> self.items@[i].id() != self.items@[j].id(),
            decreases n - k,
        {
            let mut j: usize = 0;
            while j < k
                invariant
                    0 <= j <= k < n,
                    n == self.items@.len(),
                    forall|t: int| 0 <= t < j ==> self.items@[t].id() != self.items@[k as int].id(),
                decreases k - j,
            {
                if self.items[j].uuid() == self.items[k].uuid() {
                    return false;
                }
                j += 1;
            }
            k += 1;
        }
        let nr = self.readers.len();
        k = 0;
        while k < nr
            invariant
                0 <= k <= nr,
                nr == self.readers@.len(),
                forall|i: int, j: int|
                    #![trigger self.readers@[i], self.readers@[j]]
                    0 <= i < j < k ==> self.readers@[i].uuid != self.readers@[j].uuid,
            decreases nr - k,
        {
            let mut j: usize = 0;
            while j < k
                invariant
                    0 <= j <= k < nr,
                    nr == self.readers@.len(),
                    forall|t: int| 0 <= t < j ==> self.readers@[t].uuid != self.readers@[k as int].uuid,
                decreases k - j,
            {
                if self.readers[j].uuid == self.readers[k].uuid {
                    return false;
                }
                j += 1;
            }
            k += 1;
        }
        let nb = self.borrows.len();
        k = 0;
        while k < nb
            invariant
                0 <= k <= nb,
                nb == self.borrows@.len(),
                forall|i: int, j: int|
                    #![trigger self.borrows@[i], self.borrows@[j]]
                    0 <= i < j < k ==> self.borrows@[i].0 != self.borrows@[j].0,
            decreases nb - k,
        {
            let mut j: usize = 0;
            while j < k
                invariant
                    0 <= j <= k < nb,
                    nb == self.borrows@.len(),
                    forall|t: int| 0 <= t < j ==> self.borrows@[t].0 != self.borrows@[k as int].0,
                decreases k - j,
            {
                if self.borrows[j].0 == self.borrows[k].0 {
                    return false;
                }
                j += 1;
            }
            k += 1;
        }
        k = 0;
        while k < nb
            invariant
                0 <= k <= nb,
                nb == self.borrows@.len(),
                forall|t: int|
                    0 <= t < k ==> has_item_id(self.items@, #[trigger] self.borrows@[t].0)
                        && has_reader_id(self.readers@, self.borrows@[t].1),
            decreases nb - k,
        {
            if !self.contains_item(self.borrows[k].0) {
                return false;
            }
            if !self.contains_reader(self.borrows[k].1) {
                return false;
            }
            proof {
                assert forall|t: int| 0 <= t < k + 1 implies has_item_id(
                    self.items@,
                    #[trigger] self.borrows@[t].0,
                ) && has_reader_id(self.readers@, self.borrows@[t].1) by {
                    if t == k {
                        assert(has_item_id(self.items@, self.borrows@[k as int].0));
                        assert(has_reader_id(self.readers@, self.borrows@[k as int].1));
                    }
                }
            }
            k += 1;
        }
        proof {
            assert(forall|i: int, j: int|
                #![trigger self.items@[i], self.items@[j]]
                0 <= i < j < self.items@.len() ==> self.items@[i].id() != self.items@[j].id());
            assert(forall|i: int, j: int|
                #![trigger self.readers@[i], self.readers@[j]]
                0 <= i < j < self.readers@.len() ==> self.readers@[i].uuid
                    != self.readers@[j].uuid);
            assert(forall|i: int, j: int|
                #![trigger self.borrows@[i], self.borrows@[j]]
                0 <= i < j < self.borrows@.len() ==> self.borrows@[i].0 != self.borrows@[j].0);
            assert(forall|t: int|
                0 <= t < self.borrows@.len() ==> has_item_id(
                    self.items@,
                    #[trigger] self.borrows@[t].0,
                ));
            assert forall|t: int| 0 <= t < self.borrows@.len() implies has_reader_id(
                self.readers@,
                #[trigger] self.borrows@[t].1,
            ) by {
                assert(has_item_id(self.items@, self.borrows@[t].0));
            }
        }
        true
    }

    /// The identifier of the first reader, in list order, whose normalized
    /// name matches the normalized query.
    pub fn find_reader_id_by_name(&self, reader_name: &str) -> (r: Option<u128>)
        ensures
            match r {
                Some(rid) => find_reader_by_name(self.readers@, reader_name@) is Some && rid
                    == find_reader_by_name(self.readers@, reader_name@).unwrap().uuid,
                None => find_reader_by_name(self.readers@, reader_name@) is None,
            },
    {
        let q = normalized_name(reader_name);
        let n = self.readers.len();
        let mut k: usize = 0;
        while k < n
            invariant
                0 <= k <= n,
                n == self.readers@.len(),
                forall|j: int|
                    0 <= j < k ==> norm_name(self.readers@[j].name@) != norm_name(reader_name@),
                q@ == norm_name(reader_name@),
            decreases n - k,
        {
            let rn = normalized_name(self.readers[k].name.as_str());
            if chars_eq(&rn, &q) {
                proof {
                    lemma_find_reader_by_name_at(self.readers@, reader_name@, k as int);
                }
                return Some(self.readers[k].uuid);
            }
            k += 1;
        }
        proof {
            lemma_find_reader_by_name_absent(self.readers@, reader_name@);
        }
        None
    }

    /// Looks the reader up by trimmed, case-folded name (first match in list
    /// order), then records the borrow. A borrow of an item that is already
    /// borrowed overwrites the earlier entry: the last writer wins. On any
    /// failure the catalogue is unchanged.
    pub fn borrow_item(&mut self, uuid: u128, reader_name: &str) -> (r: Result<(), DepoError>)
        requires
            old(self).wf(),
        ensures
            final(self).wf(),
            final(self).items@ == old(self).items@,
            final(self).readers@ == old(self).readers@,
            r is Ok <==> (find_reader_by_name(old(self).readers@, reader_name@) is Some
                && has_item_id(old(self).items@, uuid)),
            r is Ok ==> final(self).borrows@ == set_borrow(
                old(self).borrows@,
                uuid,
                find_reader_by_name(old(self).readers@, reader_name@).unwrap().uuid,
            ),
            r is Ok ==> lookup_borrow(final(self).borrows@, uuid) == Some(
                find_reader_by_name(old(self).readers@, reader_name@).unwrap().uuid,
            ),
            r is Err ==> *final(self) == *old(self),
            r == Err::<(), DepoError>(DepoError::ReaderNotFound) <==> find_reader_by_name(
                old(self).readers@,
                reader_name@,
            ) is None,
            r == Err::<(), DepoError>(DepoError::NotFound) <==> (find_reader_by_name(
                old(self).readers@,
                reader_name@,
            ) is Some && !has_item_id(old(self).items@, uuid)),
    {
        let rid = match self.find_reader_id_by_name(reader_name) {
            Some(rid) => rid,
            None => {
                return Err(DepoError::ReaderNotFound);
            },
        };
        if !self.contains_item(uuid) {
            return Err(DepoError::NotFound);
        }
        self.filter_borrows(uuid);
        proof {
            lemma_remove_borrow_membership(old(self).borrows@, uuid);
            lemma_remove_borrow_distinct(old(self).borrows@, uuid);
        }
        self.borrows.push((uuid, rid));
        proof {
            let prev = remove_borrow(old(self).borrows@, uuid);
            let last = self.borrows@.len() - 1;
            assert forall|j: int| 0 <= j < last implies self.borrows@[j].0 != uuid by {
                assert(prev[j].0 != uuid);
            }
            lemma_lookup_borrow_at(self.borrows@, uuid, last);
            lemma_reader_by_name_present(old(self).readers@, reader_name@);
            assert forall|k2: int| 0 <= k2 < self.borrows@.len() implies has_item_id(
                self.items@,
                #[trigger] self.borrows@[k2].0,
            ) && has_reader_id(self.readers@, self.borrows@[k2].1) by {
                if k2 < last {
                    assert(self.borrows@[k2] == prev[k2]);
                    let i = choose|i: int|
                        0 <= i < old(self).borrows@.len() && prev[k2] == old(self).borrows@[i];
                    assert(has_item_id(old(self).items@, old(self).borrows@[i].0));
                    assert(has_reader_id(old(self).readers@, old(self).borrows@[i].1));
                }
            }
        }
        Ok(())
    }
}

pub proof fn lemma_find_reader_by_name_at(s: Seq<Reader>, q: Seq<char>, k: int)
    requires
        0 <= k < s.len(),
        norm_name(s[k].name@) == norm_name(q),
        forall|j: int| 0 <= j < k ==> norm_name(s[j].name@) != norm_name(q),
    ensures
        find_reader_by_name(s, q) == Some(s[k]),
    decreases k,
{
    if k > 0 {
        lemma_find_reader_by_name_at(s.drop_first(), q, k - 1);
    }
}

pub proof fn lemma_find_reader_by_name_absent(s: Seq<Reader>, q: Seq<char>)
    requires
        forall|j: int| 0 <= j < s.len() ==> norm_name(s[j].name@) != norm_name(q),
    ensures
        find_reader_by_name(s, q) is None,
    decreases s.len(),
{
    if s.len() > 0 {
        lemma_find_reader_by_name_absent(s.drop_first(), q);
    }
}

/// A reader found by name is a reader of the list.
pub proof fn lemma_reader_by_name_present(s: Seq<Reader>, q: Seq<char>)
    requires
        find_reader_by_name(s, q) is Some,
    ensures
        has_reader_id(s, find_reader_by_name(s, q).unwrap().uuid),
    decreases s.len(),
{
    if s.len() > 0 && norm_name(s[0].name@) != norm_name(q) {
        lemma_reader_by_name_present(s.drop_first(), q);
    }
}

/// An identifier carried by some reader of the list is present.
pub proof fn lemma_find_reader_exists(s: Seq<Reader>, uuid: u128)
    requires
        exists|k: int| 0 <= k < s.len() && s[k].uuid == uuid,
    ensures
        has_reader_id(s, uuid),
    decreases s.len(),
{
    let k = choose|k: int| 0 <= k < s.len() && s[k].uuid == uuid;
    if s[0].uuid != uuid {
        assert(s.drop_first()[k - 1].uuid == uuid);
        lemma_find_reader_exists(s.drop_first(), uuid);
    }
}

/// A present reader identifier is carried at some index, and an absent one at
/// none.
pub proof fn lemma_find_reader_some_index(s: Seq<Reader>, uuid: u128)
    ensures
        has_reader_id(s, uuid) ==> exists|k: int| 0 <= k < s.len() && s[k].uuid == uuid,
        !has_reader_id(s, uuid) ==> forall|k: int| 0 <= k < s.len() ==> s[k].uuid != uuid,
    decreases s.len(),
{
    if s.len() > 0 {
        lemma_find_reader_some_index(s.drop_first(), uuid);
        if has_reader_id(s, uuid) && s[0].uuid != uuid {
            let k = choose|k: int| 0 <= k < s.drop_first().len() && s.drop_first()[k].uuid == uuid;
            assert(s[k + 1].uuid == uuid);
        }
        if !has_reader_id(s, uuid) {
            assert forall|k: int| 0 <= k < s.len() implies s[k].uuid != uuid by {
                if k > 0 {
                    assert(s.drop_first()[k - 1].uuid != uuid);
                }
            }
        }
    }
}

/// Appending a reader keeps every already present identifier present.
pub proof fn lemma_find_reader_extend(s: Seq<Reader>, reader: Reader, uuid: u128)
    requires
        has_reader_id(s, uuid),
    ensures
        has_reader_id(s.push(reader), uuid),
    decreases s.len(),
{
    if s.len() > 0 && s[0].uuid != uuid {
        lemma_find_reader_extend(s.drop_first(), reader, uuid);
        assert(s.push(reader).drop_first() =~= s.drop_first().push(reader));
    }
}

/// A present identifier is carried by an item at some index.
pub proof fn lemma_find_item_some_index(s: Seq<CatalogueItem>, uuid: u128)
    ensures
        has_item_id(s, uuid) ==> exists|k: int| 0 <= k < s.len() && s[k].id() == uuid,
        !has_item_id(s, uuid) ==> forall|k: int| 0 <= k < s.len() ==> s[k].id() != uuid,
    decreases s.len(),
{
    if s.len() > 0 {
        lemma_find_item_some_index(s.drop_first(), uuid);
        if has_item_id(s, uuid) && s[0].id() != uuid {
            let k = choose|k: int|
                0 <= k < s.drop_first().len() && s.drop_first()[k].id() == uuid;
            assert(s[k + 1].id() == uuid);
        }
        if !has_item_id(s, uuid) {
            assert forall|k: int| 0 <= k < s.len() implies s[k].id() != uuid by {
                if k > 0 {
                    assert(s.drop_first()[k - 1].id() != uuid);
                }
            }
        }
    }
}

/// When the first match sits at index `k`, removing by identifier is removing
/// that index.
pub proof fn lemma_remove_item_at(s: Seq<CatalogueItem>, uuid: u128, k: int)
    requires
        0 <= k < s.len(),
        s[k].id() == uuid,
        forall|j: int| 0 <= j < k ==> s[j].id() != uuid,
    ensures
        remove_item_from(s, uuid) == s.remove(k),
    decreases k,
{
    if k == 0 {
        assert(s.remove(0) =~= s.drop_first());
    } else {
        lemma_remove_item_at(s.drop_first(), uuid, k - 1);
        assert(seq![s[0]] + s.drop_first().remove(k - 1) =~= s.remove(k));
    }
}

/// Removing an absent identifier leaves the item list unchanged.
pub proof fn lemma_remove_item_absent(s: Seq<CatalogueItem>, uuid: u128)
    requires
        forall|j: int| 0 <= j < s.len() ==> s[j].id() != uuid,
    ensures
        remove_item_from(s, uuid) == s,
    decreases s.len(),
{
    if s.len() > 0 {
        lemma_remove_item_absent(s.drop_first(), uuid);
        assert(seq![s[0]] + s.drop_first() =~= s);
    }
}

/// An item identifier is carried by some item of the list exactly when it is
/// present.
pub proof fn lemma_find_item_exists(s: Seq<CatalogueItem>, uuid: u128)
    requires
        exists|k: int| 0 <= k < s.len() && s[k].id() == uuid,
    ensures
        has_item_id(s, uuid),
    decreases s.len(),
{
    let k = choose|k: int| 0 <= k < s.len() && s[k].id() == uuid;
    if s[0].id() != uuid {
        assert(s.drop_first()[k - 1].id() == uuid);
        lemma_find_item_exists(s.drop_first(), uuid);
    }
}

/// Every entry left by `remove_borrow` has a key other than `item` and is an
/// entry of the original relation.
pub proof fn lemma_remove_borrow_membership(s: Seq<(u128, u128)>, item: u128)
    ensures
        forall|j: int|
            #![trigger remove_borrow(s, item)[j]]
            0 <= j < remove_borrow(s, item).len() ==> remove_borrow(s, item)[j].0 != item && exists|
                i: int,
            | 0 <= i < s.len() && remove_borrow(s, item)[j] == s[i],
    decreases s.len(),
{
    if s.len() > 0 {
        lemma_remove_borrow_membership(s.drop_first(), item);
        let r = remove_borrow(s, item);
        let rd = remove_borrow(s.drop_first(), item);
        if s[0].0 == item {
            assert forall|j: int| 0 <= j < r.len() implies r[j].0 != item && exists|i: int|
                0 <= i < s.len() && r[j] == s[i] by {
                assert(r[j] == rd[j]);
                let i = choose|i: int| 0 <= i < s.drop_first().len() && rd[j] == s.drop_first()[i];
                assert(r[j] == s[i + 1]);
            }
        } else {
            assert forall|j: int| 0 <= j < r.len() implies r[j].0 != item && exists|i: int|
                0 <= i < s.len() && r[j] == s[i] by {
                if j == 0 {
                    assert(r[0] == s[0]);
                } else {
                    assert(r[j] == rd[j - 1]);
                    let i = choose|i: int|
                        0 <= i < s.drop_first().len() && rd[j - 1] == s.drop_first()[i];
                    assert(r[j] == s[i + 1]);
                }
            }
        }
    }
}

/// `remove_borrow` keeps the keys of the relation distinct.
pub proof fn lemma_remove_borrow_distinct(s: Seq<(u128, u128)>, item: u128)
    requires
        forall|i: int, j: int|
            #![trigger s[i], s[j]]
            0 <= i < j < s.len() ==> s[i].0 != s[j].0,
    ensures
        forall|i: int, j: int|
            #![trigger remove_borrow(s, item)[i], remove_borrow(s, item)[j]]
            0 <= i < j < remove_borrow(s, item).len() ==> remove_borrow(s, item)[i].0
                != remove_borrow(s, item)[j].0,
    decreases s.len(),
{
    if s.len() > 0 {
        assert forall|i: int, j: int|
            #![trigger s.drop_first()[i], s.drop_first()[j]]
            0 <= i < j < s.drop_first().len() implies s.drop_first()[i].0
            != s.drop_first()[j].0 by {
            assert(s.drop_first()[i] == s[i + 1]);
            assert(s.drop_first()[j] == s[j + 1]);
        }
        lemma_remove_borrow_distinct(s.drop_first(), item);
        lemma_remove_borrow_membership(s.drop_first(), item);
        let r = remove_borrow(s, item);
        let rd = remove_borrow(s.drop_first(), item);
        if s[0].0 != item {
            assert forall|i: int, j: int| 0 <= i < j < r.len() implies r[i].0 != r[j].0 by {
                if i == 0 {
                    assert(r[j] == rd[j - 1]);
                    let m = choose|m: int|
                        0 <= m < s.drop_first().len() && rd[j - 1] == s.drop_first()[m];
                    assert(s.drop_first()[m] == s[m + 1]);
                    assert(s[0].0 != s[m + 1].0);
                } else {
                    assert(r[i] == rd[i - 1]);
                    assert(r[j] == rd[j - 1]);
                }
            }
        }
    }
}

/// Appending an item keeps every already present identifier present.
pub proof fn lemma_find_item_extend(s: Seq<CatalogueItem>, item: CatalogueItem, uuid: u128)
    requires
        has_item_id(s, uuid),
    ensures
        has_item_id(s.push(item), uuid),
    decreases s.len(),
{
    if s.len() > 0 && s[0].id() != uuid {
        lemma_find_item_extend(s.drop_first(), item, uuid);
        assert(s.push(item).drop_first() =~= s.drop_first().push(item));
    }
}

} // verus!
