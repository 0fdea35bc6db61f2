//! Entity model: the two kinds of depository item (book, magazine) and the
//! reader, each carrying a stable 128-bit identifier minted at creation.

use vstd::prelude::*;

verus! {

/// Relies on `uuid::Uuid::new_v4` (read through `as_u128`): a randomly
/// generated 128-bit identifier. Nothing is assumed of the value returned;
/// callers treat collisions as possible and check for them. `new_v4` panics
/// if the operating system's random source fails — an environmental fault,
/// independent of any input, treated like running out of memory.
#[verifier::external_body]
pub(crate) fn mint_id() -> u128 {
    uuid::Uuid::new_v4().as_u128()
}

/// The shared read-only surface of any depository item: identifier, isbn
/// code, title and publication year.
pub trait DepositoryItem {
    spec fn spec_uuid(&self) -> u128;

    spec fn spec_isbn_code(&self) -> Seq<char>;

    spec fn spec_title(&self) -> Seq<char>;

    spec fn spec_year(&self) -> i32;

    fn get_uuid(&self) -> (r: u128)
        ensures
            r == self.spec_uuid(),
    ;

    fn get_isbn_code(&self) -> (r: &str)
        ensures
            r@ == self.spec_isbn_code(),
    ;

    fn get_title(&self) -> (r: &str)
        ensures
            r@ == self.spec_title(),
    ;

    fn get_year(&self) -> (r: i32)
        ensures
            r == self.spec_year(),
    ;
}

pub struct Book {
    pub uuid: u128,
    pub isbn_code: String,
    pub title: String,
    pub year: i32,
}

impl Book {
    /// Constructs a book with a freshly minted identifier.
    pub fn new(isbn_code: String, title: String, year: i32) -> (b: Book)
        ensures
            b.isbn_code == isbn_code,
            b.title == title,
            b.year == year,
    {
        Book { uuid: mint_id(), isbn_code, title, year }
    }
}

impl DepositoryItem for Book {
    open spec fn spec_uuid(&self) -> u128 {
        self.uuid
    }

    open spec fn spec_isbn_code(&self) -> Seq<char> {
        self.isbn_code@
    }

    open spec fn spec_title(&self) -> Seq<char> {
        self.title@
    }

    open spec fn spec_year(&self) -> i32 {
        self.year
    }

    fn get_uuid(&self) -> u128 {
        self.uuid
    }

    fn get_isbn_code(&self) -> &str {
        self.isbn_code.as_str()
    }

    fn get_title(&self) -> &str {
        self.title.as_str()
    }

    fn get_year(&self) -> i32 {
        self.year
    }
}

pub struct Magazine {
    pub uuid: u128,
    pub isbn_code: String,
    pub title: String,
    pub year: i32,
    pub super_hero: String,
}

impl Magazine {
    /// Constructs a magazine with a freshly minted identifier.
    pub fn new(isbn_code: String, title: String, year: i32, super_hero: String) -> (m: Magazine)
        ensures
            m.isbn_code == isbn_code,
            m.title == title,
            m.year == year,
            m.super_hero == super_hero,
    {
        Magazine { uuid: mint_id(), isbn_code, title, year, super_hero }
    }
}

impl DepositoryItem for Magazine {
    open spec fn spec_uuid(&self) -> u128 {
        self.uuid
    }

    open spec fn spec_isbn_code(&self) -> Seq<char> {
        self.isbn_code@
    }

    open spec fn spec_title(&self) -> Seq<char> {
        self.title@
    }

    open spec fn spec_year(&self) -> i32 {
        self.year
    }

    fn get_uuid(&self) -> u128 {
        self.uuid
    }

    fn get_isbn_code(&self) -> &str {
        self.isbn_code.as_str()
    }

    fn get_title(&self) -> &str {
        self.title.as_str()
    }

    fn get_year(&self) -> i32 {
        self.year
    }
}

/// A catalogue item: the tagged union of the two depository item kinds.
pub enum CatalogueItem {
    Book(Book),
    Magazine(Magazine),
}

impl CatalogueItem {
    /// The identifier of the item, whichever kind it is.
    pub open spec fn id(&self) -> u128 {
        match self {
            CatalogueItem::Book(b) => b.uuid,
            CatalogueItem::Magazine(m) => m.uuid,
        }
    }

    pub fn uuid(&self) -> (r: u128)
        ensures
            r == self.id(),
    {
        match self {
            CatalogueItem::Book(b) => b.uuid,
            CatalogueItem::Magazine(m) => m.uuid,
        }
    }
}

impl DepositoryItem for CatalogueItem {
    open spec fn spec_uuid(&self) -> u128 {
        self.id()
    }

    open spec fn spec_isbn_code(&self) -> Seq<char> {
        match self {
            CatalogueItem::Book(b) => b.isbn_code@,
            CatalogueItem::Magazine(m) => m.isbn_code@,
        }
    }

    open spec fn spec_title(&self) -> Seq<char> {
        match self {
            CatalogueItem::Book(b) => b.title@,
            CatalogueItem::Magazine(m) => m.title@,
        }
    }

    open spec fn spec_year(&self) -> i32 {
        match self {
            CatalogueItem::Book(b) => b.year,
            CatalogueItem::Magazine(m) => m.year,
        }
    }

    fn get_uuid(&self) -> u128 {
        self.uuid()
    }

    fn get_isbn_code(&self) -> &str {
        match self {
            CatalogueItem::Book(b) => b.isbn_code.as_str(),
            CatalogueItem::Magazine(m) => m.isbn_code.as_str(),
        }
    }

    fn get_title(&self) -> &str {
        match self {
            CatalogueItem::Book(b) => b.title.as_str(),
            CatalogueItem::Magazine(m) => m.title.as_str(),
        }
    }

    fn get_year(&self) -> i32 {
        match self {
            CatalogueItem::Book(b) => b.year,
            CatalogueItem::Magazine(m) => m.year,
        }
    }
}

pub struct Reader {
    pub uuid: u128,
    pub name: String,
}

/// The mathematical image of a book: plain values only.
pub struct BookView {
    pub uuid: u128,
    pub isbn_code: Seq<char>,
    pub title: Seq<char>,
    pub year: i32,
}

/// The mathematical image of a magazine.
pub struct MagazineView {
    pub uuid: u128,
    pub isbn_code: Seq<char>,
    pub title: Seq<char>,
    pub year: i32,
    pub super_hero: Seq<char>,
}

/// The mathematical image of a reader.
pub struct ReaderView {
    pub uuid: u128,
    pub name: Seq<char>,
}

impl View for Book {
    type V = BookView;

    open spec fn view(&self) -> BookView {
        BookView {
            uuid: self.uuid,
            isbn_code: self.isbn_code@,
            title: self.title@,
            year: self.year,
        }
    }
}

impl View for Magazine {
    type V = MagazineView;

    open spec fn view(&self) -> MagazineView {
        MagazineView {
            uuid: self.uuid,
            isbn_code: self.isbn_code@,
            title: self.title@,
            year: self.year,
            super_hero: self.super_hero@,
        }
    }
}

impl View for Reader {
    type V = ReaderView;

    open spec fn view(&self) -> ReaderView {
        ReaderView { uuid: self.uuid, name: self.name@ }
    }
}

/// The books of an item list, in list order.
pub open spec fn books_of(items: Seq<CatalogueItem>) -> Seq<BookView>
    decreases items.len(),
{
    if items.len() == 0 {
        Seq::empty()
    } else {
        let rest = books_of(items.drop_first());
        match items[0] {
            CatalogueItem::Book(b) => seq![b@] + rest,
            CatalogueItem::Magazine(_) => rest,
        }
    }
}

/// The magazines of an item list, in list order.
pub open spec fn magazines_of(items: Seq<CatalogueItem>) -> Seq<MagazineView>
    decreases items.len(),
{
    if items.len() == 0 {
        Seq::empty()
    } else {
        let rest = magazines_of(items.drop_first());
        match items[0] {
            CatalogueItem::Book(_) => rest,
            CatalogueItem::Magazine(m) => seq![m@] + rest,
        }
    }
}

pub open spec fn readers_view(rs: Seq<Reader>) -> Seq<ReaderView> {
    rs.map_values(|r: Reader| r@)
}

/// Appending a book to the item list appends its view to the books and
/// leaves the magazines as they were.
pub proof fn lemma_of_push_book(s: Seq<CatalogueItem>, b: Book)
    ensures
        books_of(s.push(CatalogueItem::Book(b))) == books_of(s).push(b@),
        magazines_of(s.push(CatalogueItem::Book(b))) == magazines_of(s),
    decreases s.len(),
{
    let it = CatalogueItem::Book(b);
    if s.len() == 0 {
        assert(s.push(it).drop_first() =~= s);
        assert(seq![b@] + books_of(s) =~= books_of(s).push(b@));
    } else {
        assert(s.push(it)[0] == s[0]);
        assert(s.push(it).drop_first() =~= s.drop_first().push(it));
        lemma_of_push_book(s.drop_first(), b);
        match s[0] {
            CatalogueItem::Book(b0) => {
                assert(seq![b0@] + books_of(s.drop_first()).push(b@) =~= (seq![b0@] + books_of(
                    s.drop_first(),
                )).push(b@));
            },
            CatalogueItem::Magazine(_) => {},
        }
    }
}

/// Appending a magazine to the item list appends its view to the magazines
/// and leaves the books as they were.
pub proof fn lemma_of_push_magazine(s: Seq<CatalogueItem>, m: Magazine)
    ensures
        magazines_of(s.push(CatalogueItem::Magazine(m))) == magazines_of(s).push(m@),
        books_of(s.push(CatalogueItem::Magazine(m))) == books_of(s),
    decreases s.len(),
{
    let it = CatalogueItem::Magazine(m);
    if s.len() == 0 {
        assert(s.push(it).drop_first() =~= s);
        assert(seq![m@] + magazines_of(s) =~= magazines_of(s).push(m@));
    } else {
        assert(s.push(it)[0] == s[0]);
        assert(s.push(it).drop_first() =~= s.drop_first().push(it));
        lemma_of_push_magazine(s.drop_first(), m);
        match s[0] {
            CatalogueItem::Magazine(m0) => {
                assert(seq![m0@] + magazines_of(s.drop_first()).push(m@) =~= (seq![m0@]
                    + magazines_of(s.drop_first())).push(m@));
            },
            CatalogueItem::Book(_) => {},
        }
    }
}

impl Reader {
    /// Constructs a reader with a freshly minted identifier.
    pub fn create(name: &str) -> (r: Reader)
        ensures
            r.name@ == name@,
    {
        Reader { uuid: mint_id(), name: name.to_owned() }
    }
}

} // verus!
