use book_depo::catalogue::Catalogue;
use book_depo::codec::{deserialize, serialize};
use book_depo::entities::{Book, CatalogueItem, DepositoryItem, Magazine, Reader};
use book_depo::errors::DepoError;

fn sample_catalogue() -> Catalogue {
    Catalogue {
        items: vec![
            CatalogueItem::Book(Book {
                uuid: 5,
                isbn_code: "978-1".to_string(),
                title: "Dune".to_string(),
                year: 1965,
            }),
            CatalogueItem::Magazine(Magazine {
                uuid: 0xa1a2a3a4b1b2c1c2d1d2d3d4d5d6d7d8,
                isbn_code: "978-9".to_string(),
                title: "Astounding".to_string(),
                year: 1950,
                super_hero: "Kimball Kinnison".to_string(),
            }),
        ],
        readers: vec![Reader {
            uuid: 9,
            name: "Alice".to_string(),
        }],
        borrows: vec![(5, 9)],
    }
}

#[test]
fn serialize_produces_the_expected_document() {
    let cat = sample_catalogue();
    let doc = serialize(&cat);
    let expected = "{\"depository_books\":[\
{\"uuid\":\"00000000-0000-0000-0000-000000000005\",\
\"isbn_code\":\"978-1\",\"title\":\"Dune\",\"year\":1965}],\
\"depository_magazines\":[\
{\"uuid\":\"a1a2a3a4-b1b2-c1c2-d1d2-d3d4d5d6d7d8\",\
\"isbn_code\":\"978-9\",\"title\":\"Astounding\",\"year\":1950,\
\"super_hero\":\"Kimball Kinnison\"}],\
\"borrows\":[[\"00000000-0000-0000-0000-000000000005\",\
\"00000000-0000-0000-0000-000000000009\"]],\
\"readers\":[{\"uuid\":\"00000000-0000-0000-0000-000000000009\",\
\"name\":\"Alice\"}]}";
    assert_eq!(doc, expected);
}

#[test]
fn deserialize_undoes_serialize() {
    let cat = sample_catalogue();
    let doc = serialize(&cat);
    let back = deserialize(&doc).expect("a serialized state must decode");
    assert_eq!(back.items.len(), 2);
    assert_eq!(back.readers.len(), 1);
    assert_eq!(back.borrows, vec![(5, 9)]);
    match &back.items[0] {
        CatalogueItem::Book(b) => {
            assert_eq!(b.uuid, 5);
            assert_eq!(b.isbn_code, "978-1");
            assert_eq!(b.title, "Dune");
            assert_eq!(b.year, 1965);
        }
        CatalogueItem::Magazine(_) => panic!("the first item must be the book"),
    }
    match &back.items[1] {
        CatalogueItem::Magazine(m) => {
            assert_eq!(m.uuid, 0xa1a2a3a4b1b2c1c2d1d2d3d4d5d6d7d8);
            assert_eq!(m.title, "Astounding");
            assert_eq!(m.super_hero, "Kimball Kinnison");
        }
        CatalogueItem::Book(_) => panic!("the second item must be the magazine"),
    }
    assert_eq!(back.readers[0].name, "Alice");
}

#[test]
fn round_trip_keeps_awkward_text_and_years() {
    let cat = Catalogue {
        items: vec![CatalogueItem::Book(Book {
            uuid: u128::MAX,
            isbn_code: "".to_string(),
            title: "A \"quoted\" \\ title\nwith\tcontrol chars \u{1} and accents: é π"
                .to_string(),
            year: -44,
        })],
        readers: vec![Reader {
            uuid: 1,
            name: " spaced name ".to_string(),
        }],
        borrows: vec![],
    };
    let doc = serialize(&cat);
    let back = deserialize(&doc).expect("the state must decode");
    match &back.items[0] {
        CatalogueItem::Book(b) => {
            assert_eq!(b.uuid, u128::MAX);
            assert_eq!(b.isbn_code, "");
            assert_eq!(
                b.title,
                "A \"quoted\" \\ title\nwith\tcontrol chars \u{1} and accents: é π"
            );
            assert_eq!(b.year, -44);
        }
        CatalogueItem::Magazine(_) => panic!("the item must be a book"),
    }
    assert_eq!(back.readers[0].name, " spaced name ");
}

#[test]
fn empty_catalogue_round_trips() {
    let cat = Catalogue::new();
    let doc = serialize(&cat);
    assert_eq!(
        doc,
        "{\"depository_books\":[],\"depository_magazines\":[],\"borrows\":[],\"readers\":[]}"
    );
    let back = deserialize(&doc).expect("the empty state must decode");
    assert_eq!(back.items.len(), 0);
    assert_eq!(back.readers.len(), 0);
    assert_eq!(back.borrows.len(), 0);
}

#[test]
fn malformed_documents_are_rejected() {
    assert_eq!(deserialize("").err(), Some(DepoError::StorageError));
    assert_eq!(deserialize("not json at all").err(), Some(DepoError::StorageError));
    assert_eq!(deserialize("{\"depository_books\":[],\"depository_magazines\":[]}").err(), Some(DepoError::StorageError));
    // trailing garbage after a well-formed document
    let mut doc = serialize(&Catalogue::new());
    doc.push(' ');
    assert_eq!(deserialize(&doc).err(), Some(DepoError::StorageError));
}

#[test]
fn dangling_borrow_entry_is_rejected() {
    let cat = Catalogue {
        items: vec![],
        readers: vec![],
        borrows: vec![(5, 9)],
    };
    // the document itself is well shaped, but the relation dangles
    let doc = serialize(&cat);
    assert_eq!(deserialize(&doc).err(), Some(DepoError::StorageError));
}

#[test]
fn duplicate_identifiers_in_document_are_rejected() {
    let cat = Catalogue {
        items: vec![
            CatalogueItem::Book(Book {
                uuid: 5,
                isbn_code: "a".to_string(),
                title: "A".to_string(),
                year: 2000,
            }),
            CatalogueItem::Book(Book {
                uuid: 5,
                isbn_code: "b".to_string(),
                title: "B".to_string(),
                year: 2001,
            }),
        ],
        readers: vec![],
        borrows: vec![],
    };
    let doc = serialize(&cat);
    assert_eq!(deserialize(&doc).err(), Some(DepoError::StorageError));
}

#[test]
fn out_of_range_year_is_rejected() {
    let doc = "{\"depository_books\":[\
{\"uuid\":\"00000000-0000-0000-0000-000000000005\",\
\"isbn_code\":\"a\",\"title\":\"A\",\"year\":99999999999}],\
\"depository_magazines\":[],\"borrows\":[],\"readers\":[]}";
    assert_eq!(deserialize(doc).err(), Some(DepoError::StorageError));
}

#[test]
fn minted_identifiers_are_fresh_per_construction() {
    let a = Book::new("i".to_string(), "T".to_string(), 2000);
    let b = Book::new("i".to_string(), "T".to_string(), 2000);
    // a version-4 identifier is never zero, and two mints collide only with
    // negligible probability
    assert_ne!(a.get_uuid(), 0);
    assert_ne!(a.get_uuid(), b.get_uuid());
}

#[test]
fn short_escapes_in_a_document_are_accepted() {
    let doc = "{\"depository_books\":[\
{\"uuid\":\"00000000-0000-0000-0000-000000000005\",\
\"isbn_code\":\"a\\/b\",\"title\":\"line\\none\\ttab\",\"year\":7}],\
\"depository_magazines\":[],\"borrows\":[],\"readers\":[]}";
    let back = deserialize(doc).expect("short escapes must decode");
    match &back.items[0] {
        CatalogueItem::Book(b) => {
            assert_eq!(b.isbn_code, "a/b");
            assert_eq!(b.title, "line\none\ttab");
        }
        CatalogueItem::Magazine(_) => panic!("the item must be a book"),
    }
}

#[test]
fn extreme_years_round_trip() {
    let cat = Catalogue {
        items: vec![
            CatalogueItem::Book(Book {
                uuid: 1,
                isbn_code: "a".to_string(),
                title: "A".to_string(),
                year: i32::MIN,
            }),
            CatalogueItem::Book(Book {
                uuid: 2,
                isbn_code: "b".to_string(),
                title: "B".to_string(),
                year: i32::MAX,
            }),
        ],
        readers: vec![],
        borrows: vec![],
    };
    let doc = serialize(&cat);
    let back = deserialize(&doc).expect("extreme years must decode");
    match (&back.items[0], &back.items[1]) {
        (CatalogueItem::Book(a), CatalogueItem::Book(b)) => {
            assert_eq!(a.year, i32::MIN);
            assert_eq!(b.year, i32::MAX);
        }
        _ => panic!("both items must be books"),
    }
}
