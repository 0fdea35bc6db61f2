use book_depo::catalogue::Catalogue;
use book_depo::entities::{Book, CatalogueItem, DepositoryItem, Magazine, Reader};
use book_depo::errors::DepoError;

#[test]
fn added_book_is_found_until_removed() {
    let mut cat = Catalogue::new();
    let book = Book::new("978-3".to_string(), "Solaris".to_string(), 1961);
    let id = book.uuid;
    cat.add_item(CatalogueItem::Book(book)).unwrap();
    let found = cat.find_item(id).expect("the added item must be found");
    assert_eq!(found.get_title(), "Solaris");
    assert_eq!(found.get_isbn_code(), "978-3");
    assert_eq!(found.get_year(), 1961);
    assert_eq!(found.get_uuid(), id);
    cat.remove_item(id);
    assert!(cat.find_item(id).is_none());
}

#[test]
fn find_item_distinguishes_items() {
    let mut cat = Catalogue::new();
    let b1 = Book::new("1".to_string(), "One".to_string(), 2001);
    let b2 = Book::new("2".to_string(), "Two".to_string(), 2002);
    let id1 = b1.uuid;
    let id2 = b2.uuid;
    cat.add_item(CatalogueItem::Book(b1)).unwrap();
    cat.add_item(CatalogueItem::Book(b2)).unwrap();
    assert_eq!(cat.find_item(id1).unwrap().get_title(), "One");
    assert_eq!(cat.find_item(id2).unwrap().get_title(), "Two");
    cat.remove_item(id1);
    assert!(cat.find_item(id1).is_none());
    assert_eq!(cat.find_item(id2).unwrap().get_title(), "Two");
}

#[test]
fn duplicate_identifier_is_rejected() {
    let mut cat = Catalogue::new();
    let b1 = Book {
        uuid: 7,
        isbn_code: "a".to_string(),
        title: "A".to_string(),
        year: 1999,
    };
    let b2 = Book {
        uuid: 7,
        isbn_code: "b".to_string(),
        title: "B".to_string(),
        year: 2000,
    };
    assert_eq!(cat.add_item(CatalogueItem::Book(b1)), Ok(()));
    assert_eq!(
        cat.add_item(CatalogueItem::Book(b2)),
        Err(DepoError::ValidationError)
    );
    assert_eq!(cat.items.len(), 1);
}

#[test]
fn blank_reader_name_is_rejected() {
    let mut cat = Catalogue::new();
    assert_eq!(
        cat.add_reader("   \t ".to_string()),
        Err(DepoError::ValidationError)
    );
    assert_eq!(cat.readers.len(), 0);
}

#[test]
fn borrow_matches_reader_case_insensitively_and_trimmed() {
    let mut cat = Catalogue::new();
    let rid = cat.add_reader("  Alice ".to_string()).unwrap();
    let book = Book::new("978-1".to_string(), "Dune".to_string(), 1965);
    let id = book.uuid;
    cat.add_item(CatalogueItem::Book(book)).unwrap();
    assert_eq!(cat.borrow_item(id, "\tALICE  "), Ok(()));
    assert_eq!(cat.borrower_of(id), Some(rid));
}

#[test]
fn borrow_of_missing_item_fails_and_changes_nothing() {
    let mut cat = Catalogue::new();
    cat.add_reader("Ada".to_string()).unwrap();
    assert_eq!(cat.borrow_item(42, "Ada"), Err(DepoError::NotFound));
    assert_eq!(cat.borrows.len(), 0);
}

#[test]
fn borrow_and_return_round_trip_leaves_item_available() {
    let mut cat = Catalogue::new();
    let rid = cat.add_reader("Ada".to_string()).unwrap();
    let book = Book::new("i".to_string(), "T".to_string(), 2000);
    let other = Book::new("j".to_string(), "U".to_string(), 2001);
    let id = book.uuid;
    let oid = other.uuid;
    cat.add_item(CatalogueItem::Book(book)).unwrap();
    cat.add_item(CatalogueItem::Book(other)).unwrap();
    cat.borrow_item(oid, "Ada").unwrap();
    cat.borrow_item(id, "Ada").unwrap();
    cat.return_item(id);
    assert_eq!(cat.borrower_of(id), None);
    // the other item's entry is untouched
    assert_eq!(cat.borrower_of(oid), Some(rid));
    assert_eq!(cat.items.len(), 2);
    assert_eq!(cat.readers.len(), 1);
}

#[test]
fn returning_twice_equals_returning_once() {
    let mut cat = Catalogue::new();
    cat.add_reader("Ada".to_string()).unwrap();
    let book = Book::new("i".to_string(), "T".to_string(), 2000);
    let id = book.uuid;
    cat.add_item(CatalogueItem::Book(book)).unwrap();
    cat.borrow_item(id, "Ada").unwrap();
    cat.return_item(id);
    let borrows_after_one = cat.borrows.clone();
    cat.return_item(id);
    assert_eq!(cat.borrows, borrows_after_one);
    assert_eq!(cat.borrower_of(id), None);
}

#[test]
fn reborrow_overwrites_with_last_writer() {
    let mut cat = Catalogue::new();
    cat.add_reader("Ada".to_string()).unwrap();
    let bob = cat.add_reader("Bob".to_string()).unwrap();
    let book = Book::new("i".to_string(), "T".to_string(), 2000);
    let id = book.uuid;
    cat.add_item(CatalogueItem::Book(book)).unwrap();
    cat.borrow_item(id, "Ada").unwrap();
    cat.borrow_item(id, "Bob").unwrap();
    assert_eq!(cat.borrower_of(id), Some(bob));
    assert_eq!(cat.borrows.len(), 1);
}

#[test]
fn removing_borrowed_item_removes_its_borrow_entry() {
    let mut cat = Catalogue::new();
    cat.add_reader("Ada".to_string()).unwrap();
    let book = Book::new("i".to_string(), "T".to_string(), 2000);
    let id = book.uuid;
    cat.add_item(CatalogueItem::Book(book)).unwrap();
    cat.borrow_item(id, "Ada").unwrap();
    assert_eq!(cat.borrows.len(), 1);
    cat.remove_item(id);
    assert_eq!(cat.items.len(), 0);
    assert_eq!(cat.borrows.len(), 0);
    assert_eq!(cat.borrower_of(id), None);
}

#[test]
fn removing_missing_item_is_silent() {
    let mut cat = Catalogue::new();
    let book = Book::new("i".to_string(), "T".to_string(), 2000);
    let id = book.uuid;
    cat.add_item(CatalogueItem::Book(book)).unwrap();
    cat.remove_item(id.wrapping_add(1));
    assert_eq!(cat.items.len(), 1);
}

#[test]
fn full_borrow_scenario() {
    let mut cat = Catalogue::new();
    let book = Book::new("978-1".to_string(), "Dune".to_string(), 1965);
    let book_id = book.uuid;
    cat.add_item(CatalogueItem::Book(book)).unwrap();
    assert_eq!(cat.items.len(), 1);
    assert_eq!(cat.borrower_of(book_id), None);
    let alice_id = cat.add_reader("Alice".to_string()).unwrap();
    assert_eq!(cat.readers.len(), 1);
    assert_eq!(cat.borrow_item(book_id, "alice"), Ok(()));
    assert_eq!(cat.borrower_of(book_id), Some(alice_id));
    assert_eq!(
        cat.borrow_item(book_id, "Bob"),
        Err(DepoError::ReaderNotFound)
    );
    assert_eq!(cat.borrower_of(book_id), Some(alice_id));
    cat.return_item(book_id);
    assert_eq!(cat.borrower_of(book_id), None);
    cat.remove_item(book_id);
    assert_eq!(cat.items.len(), 0);
    assert_eq!(cat.borrows.len(), 0);
}

#[test]
fn magazine_carries_featured_character() {
    let mag = Magazine::new(
        "978-9".to_string(),
        "Astounding".to_string(),
        1950,
        "Kimball Kinnison".to_string(),
    );
    assert_eq!(mag.super_hero, "Kimball Kinnison");
    assert_eq!(mag.get_year(), 1950);
    let item = CatalogueItem::Magazine(mag);
    let mut cat = Catalogue::new();
    let id = item.uuid();
    cat.add_item(item).unwrap();
    assert_eq!(cat.find_item(id).unwrap().get_title(), "Astounding");
}

#[test]
fn snapshot_reflects_items_and_borrow_state() {
    let mut cat = Catalogue::new();
    let rid = cat.add_reader("Ada".to_string()).unwrap();
    let book = Book::new("b".to_string(), "B".to_string(), 2000);
    let mag = Magazine::new("m".to_string(), "M".to_string(), 2001, "Hero".to_string());
    let bid = book.uuid;
    cat.add_item(CatalogueItem::Book(book)).unwrap();
    cat.add_item(CatalogueItem::Magazine(mag)).unwrap();
    cat.borrow_item(bid, "ada").unwrap();
    let snap = cat.snapshot_items();
    assert_eq!(snap.len(), 2);
    assert_eq!(snap[0].title, "B");
    assert_eq!(snap[0].reader, Some(rid));
    assert_eq!(snap[0].super_hero, None);
    assert_eq!(snap[1].title, "M");
    assert_eq!(snap[1].reader, None);
    assert_eq!(snap[1].super_hero, Some("Hero".to_string()));
}

#[test]
fn first_matching_reader_wins_on_duplicate_names() {
    let mut cat = Catalogue::new();
    let first = cat.add_reader("Ada".to_string()).unwrap();
    let _second = cat.add_reader("ada".to_string()).unwrap();
    let book = Book::new("i".to_string(), "T".to_string(), 2000);
    let id = book.uuid;
    cat.add_item(CatalogueItem::Book(book)).unwrap();
    cat.borrow_item(id, "ADA").unwrap();
    assert_eq!(cat.borrower_of(id), Some(first));
}

#[test]
fn reader_create_keeps_name() {
    let reader = Reader::create("Marie");
    assert_eq!(reader.name, "Marie");
}
