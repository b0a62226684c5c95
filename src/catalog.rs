use vstd::prelude::*;

verus! {

/// A book of the catalogue, identified by its ISBN, and who has borrowed it, if anyone.
#[derive(Debug)]
pub struct Book {
    pub title: String,
    pub author: String,
    pub isbn: String,
    pub borrowed_by: Option<String>,
}

impl Book {
    /// A book that nobody has borrowed.
    pub fn new(title: String, author: String, isbn: String) -> (r: Book)
        ensures
            r.title == title,
            r.author == author,
            r.isbn == isbn,
            r.borrowed_by is None,
    {
        Book { title, author, isbn, borrowed_by: None }
    }
}

fn clone_name(name: &Option<String>) -> (r: Option<String>)
    ensures
        r == *name,
{
    match name {
        Some(n) => Some(n.clone()),
        None => None,
    }
}

impl Clone for Book {
    fn clone(&self) -> (r: Book)
        ensures
            r == *self,
    {
        Book {
            title: self.title.clone(),
            author: self.author.clone(),
            isbn: self.isbn.clone(),
            borrowed_by: clone_name(&self.borrowed_by),
        }
    }
}

/// What a catalogue operation can fail with.
#[derive(Debug)]
pub enum LibraryError {
    BookAlreadyExists,
    BookNotFound,
    BookAlreadyBorrowed,
    BookNotBorrowed,
    IoError(String),
    SerdeError(String),
}

impl PartialEq for LibraryError {
    fn eq(&self, other: &LibraryError) -> (r: bool) {
        match (self, other) {
            (LibraryError::BookAlreadyExists, LibraryError::BookAlreadyExists) => true,
            (LibraryError::BookNotFound, LibraryError::BookNotFound) => true,
            (LibraryError::BookAlreadyBorrowed, LibraryError::BookAlreadyBorrowed) => true,
            (LibraryError::BookNotBorrowed, LibraryError::BookNotBorrowed) => true,
            (LibraryError::IoError(a), LibraryError::IoError(b)) => a.eq(b),
            (LibraryError::SerdeError(a), LibraryError::SerdeError(b)) => a.eq(b),
            _ => false,
        }
    }
}

impl vstd::std_specs::cmp::PartialEqSpecImpl for LibraryError {
    open spec fn obeys_eq_spec() -> bool {
        true
    }

    open spec fn eq_spec(&self, other: &LibraryError) -> bool {
        match (*self, *other) {
            (LibraryError::BookAlreadyExists, LibraryError::BookAlreadyExists) => true,
            (LibraryError::BookNotFound, LibraryError::BookNotFound) => true,
            (LibraryError::BookAlreadyBorrowed, LibraryError::BookAlreadyBorrowed) => true,
            (LibraryError::BookNotBorrowed, LibraryError::BookNotBorrowed) => true,
            (LibraryError::IoError(a), LibraryError::IoError(b)) => a@ == b@,
            (LibraryError::SerdeError(a), LibraryError::SerdeError(b)) => a@ == b@,
            _ => false,
        }
    }
}

/// Whether some book of `books` has the ISBN `isbn`.
pub open spec fn has_isbn(books: Seq<Book>, isbn: Seq<char>) -> bool {
    exists|i: int| 0 <= i < books.len() && (#[trigger] books[i]).isbn@ == isbn
}

/// No two books share an ISBN.
pub open spec fn isbns_unique(books: Seq<Book>) -> bool {
    forall|i: int, j: int|
        0 <= i < books.len() && 0 <= j < books.len() && i != j ==> (#[trigger] books[i]).isbn@
            != (#[trigger] books[j]).isbn@
}

/// Whether `b` is lent to `borrower`.
pub open spec fn lent_to(b: Book, borrower: Seq<char>) -> bool {
    match b.borrowed_by {
        Some(who) => who@ == borrower,
        None => false,
    }
}

/// The books of `books` that satisfy `p`, in their order.
pub open spec fn select_books(books: Seq<Book>, p: spec_fn(Book) -> bool) -> Seq<Book>
    decreases books.len(),
{
    if books.len() == 0 {
        books
    } else {
        let rest = select_books(books.drop_last(), p);
        if p(books.last()) {
            rest.push(books.last())
        } else {
            rest
        }
    }
}

/// Books written by `author`.
pub open spec fn by_author(author: Seq<char>) -> spec_fn(Book) -> bool {
    |b: Book| b.author@ == author
}

/// Books lent to `borrower`.
pub open spec fn borrowed_by_whom(borrower: Seq<char>) -> spec_fn(Book) -> bool {
    |b: Book| lent_to(b, borrower)
}

/// Whether the references in `refs` point, in order, to the books of `books`.
pub open spec fn refers_to_books(refs: Seq<&Book>, books: Seq<Book>) -> bool {
    &&& refs.len() == books.len()
    &&& forall|i: int| 0 <= i < refs.len() ==> *(#[trigger] refs[i]) == books[i]
}

/// `b` lent to `who`, or given back when `who` is `None`.
pub open spec fn with_borrower(b: Book, who: Option<String>) -> Book {
    Book { title: b.title, author: b.author, isbn: b.isbn, borrowed_by: who }
}

/// A catalogue of books keyed by ISBN.
#[derive(Debug)]
pub struct Library {
    books: Vec<Book>,
}

impl Library {
    /// The books of the catalogue, in the order they were added.
    pub closed spec fn book_seq(&self) -> Seq<Book> {
        self.books@
    }

    pub open spec fn wf(&self) -> bool {
        isbns_unique(self.book_seq())
    }

    pub fn new() -> (r: Library)
        ensures
            r.wf(),
            r.book_seq() == Seq::<Book>::empty(),
    {
        Library { books: Vec::new() }
    }

    /// The position of the book with ISBN `isbn`, if any.
    fn position(&self, isbn: &String) -> (r: Option<usize>)
        ensures
            match r {
                Some(i) => i < self.books@.len() && self.books@[i as int].isbn@ == isbn@,
                None => !has_isbn(self.books@, isbn@),
            },
    {
        let mut i: usize = 0;
        while i < self.books.len()
            invariant
                i <= self.books@.len(),
                forall|k: int| 0 <= k < i ==> (#[trigger] self.books@[k]).isbn@ != isbn@,
            decreases self.books@.len() - i,
        {
            if self.books[i].isbn == *isbn {
                return Some(i);
            }
            i += 1;
        }
        None
    }

    /// Adds `book` unless a book with its ISBN is already catalogued.
    pub fn add_book(&mut self, book: Book) -> (r: Result<(), LibraryError>)
        requires
            old(self).wf(),
        ensures
            final(self).wf(),
            has_isbn(old(self).book_seq(), book.isbn@) ==> r == Err::<(), LibraryError>(
                LibraryError::BookAlreadyExists,
            ) && final(self).book_seq() == old(self).book_seq(),
            !has_isbn(old(self).book_seq(), book.isbn@) ==> r is Ok && final(self).book_seq()
                == old(self).book_seq().push(book),
    {
        match self.position(&book.isbn) {
            Some(_) => Err(LibraryError::BookAlreadyExists),
            None => {
                let ghost before = self.books@;
                self.books.push(book);
                assert forall|i: int, j: int|
                    0 <= i < self.books@.len() && 0 <= j < self.books@.len() && i != j implies (#[trigger] self.books@[i]).isbn@
                    != (#[trigger] self.books@[j]).isbn@ by {
                    if i < before.len() {
                        assert(self.books@[i] == before[i]);
                    }
                    if j < before.len() {
                        assert(self.books@[j] == before[j]);
                    }
                }
                Ok(())
            },
        }
    }

    /// The book with ISBN `isbn`.
    pub fn find_book_by_isbn(&self, isbn: &str) -> (r: Result<&Book, LibraryError>)
        ensures
            match r {
                Ok(b) => b.isbn@ == isbn@ && self.book_seq().contains(*b),
                Err(e) => e == LibraryError::BookNotFound && !has_isbn(self.book_seq(), isbn@),
            },
    {
        let key = isbn.to_owned();
        match self.position(&key) {
            Some(i) => {
                assert(self.books@.contains(self.books@[i as int]));
                Ok(&self.books[i])
            },
            None => Err(LibraryError::BookNotFound),
        }
    }

    /// Every book written by `author`, in the order they were added.
    pub fn find_books_by_author(&self, author: &str) -> (r: Vec<&Book>)
        ensures
            refers_to_books(r@, select_books(self.book_seq(), by_author(author@))),
    {
        let key = author.to_owned();
        let mut r: Vec<&Book> = Vec::new();
        let mut i: usize = 0;
        while i < self.books.len()
            invariant
                i <= self.books@.len(),
                key@ == author@,
                refers_to_books(r@, select_books(self.books@.subrange(0, i as int), by_author(author@))),
            decreases self.books@.len() - i,
        {
            assert(self.books@.subrange(0, i + 1).drop_last() =~= self.books@.subrange(0, i as int));
            if self.books[i].author == key {
                r.push(&self.books[i]);
            }
            i += 1;
        }
        assert(self.books@.subrange(0, i as int) =~= self.books@);
        r
    }

    /// Lends the book with ISBN `isbn` to `borrower`, if it is catalogued and not lent already.
    pub fn borrow_book(&mut self, isbn: &str, borrower: &str) -> (r: Result<(), LibraryError>)
        requires
            old(self).wf(),
        ensures
            final(self).wf(),
            match r {
                Ok(()) => exists|k: int|
                    0 <= k < old(self).book_seq().len() && (#[trigger] old(self).book_seq()[k]).isbn@
                        == isbn@ && old(self).book_seq()[k].borrowed_by is None && final(self).book_seq()
                        == old(self).book_seq().update(k, final(self).book_seq()[k]) && final(
                        self).book_seq()[k] == with_borrower(
                        old(self).book_seq()[k],
                        final(self).book_seq()[k].borrowed_by,
                    ) && lent_to(final(self).book_seq()[k], borrower@),
                Err(e) => final(self).book_seq() == old(self).book_seq() && (e
                    == LibraryError::BookNotFound && !has_isbn(old(self).book_seq(), isbn@) || e
                    == LibraryError::BookAlreadyBorrowed && exists|k: int|
                    0 <= k < old(self).book_seq().len() && (#[trigger] old(self).book_seq()[k]).isbn@
                        == isbn@ && old(self).book_seq()[k].borrowed_by is Some),
            },
    {
        let key = isbn.to_owned();
        match self.position(&key) {
            Some(k) => {
                if self.books[k].borrowed_by.is_some() {
                    Err(LibraryError::BookAlreadyBorrowed)
                } else {
                    let ghost before = self.books@;
                    self.books[k].borrowed_by = Some(borrower.to_owned());
                    assert forall|i: int, j: int|
                        0 <= i < self.books@.len() && 0 <= j < self.books@.len() && i != j implies (#[trigger] self.books@[i]).isbn@
                        != (#[trigger] self.books@[j]).isbn@ by {
                        assert(self.books@[i].isbn == before[i].isbn);
                        assert(self.books@[j].isbn == before[j].isbn);
                    }
                    Ok(())
                }
            },
            None => Err(LibraryError::BookNotFound),
        }
    }

    /// Takes back the book with ISBN `isbn`, if it is catalogued and lent.
    pub fn return_book(&mut self, isbn: &str) -> (r: Result<(), LibraryError>)
        requires
            old(self).wf(),
        ensures
            final(self).wf(),
            match r {
                Ok(()) => exists|k: int|
                    0 <= k < old(self).book_seq().len() && (#[trigger] old(self).book_seq()[k]).isbn@
                        == isbn@ && old(self).book_seq()[k].borrowed_by is Some && final(self).book_seq()
                        == old(self).book_seq().update(k, with_borrower(old(self).book_seq()[k], None)),
                Err(e) => final(self).book_seq() == old(self).book_seq() && (e
                    == LibraryError::BookNotFound && !has_isbn(old(self).book_seq(), isbn@) || e
                    == LibraryError::BookNotBorrowed && exists|k: int|
                    0 <= k < old(self).book_seq().len() && (#[trigger] old(self).book_seq()[k]).isbn@
                        == isbn@ && old(self).book_seq()[k].borrowed_by is None),
            },
    {
        let key = isbn.to_owned();
        match self.position(&key) {
            Some(k) => {
                if self.books[k].borrowed_by.is_some() {
                    let ghost before = self.books@;
                    self.books[k].borrowed_by = None;
                    assert forall|i: int, j: int|
                        0 <= i < self.books@.len() && 0 <= j < self.books@.len() && i != j implies (#[trigger] self.books@[i]).isbn@
                        != (#[trigger] self.books@[j]).isbn@ by {
                        assert(self.books@[i].isbn == before[i].isbn);
                        assert(self.books@[j].isbn == before[j].isbn);
                    }
                    Ok(())
                } else {
                    Err(LibraryError::BookNotBorrowed)
                }
            },
            None => Err(LibraryError::BookNotFound),
        }
    }

    /// Every book lent to `borrower`, in the order they were added.
    pub fn find_borrowed_by(&self, borrower: &str) -> (r: Vec<&Book>)
        ensures
            refers_to_books(r@, select_books(self.book_seq(), borrowed_by_whom(borrower@))),
    {
        let key = borrower.to_owned();
        let mut r: Vec<&Book> = Vec::new();
        let mut i: usize = 0;
        while i < self.books.len()
            invariant
                i <= self.books@.len(),
                key@ == borrower@,
                refers_to_books(
                    r@,
                    select_books(self.books@.subrange(0, i as int), borrowed_by_whom(borrower@)),
                ),
            decreases self.books@.len() - i,
        {
            assert(self.books@.subrange(0, i + 1).drop_last() =~= self.books@.subrange(0, i as int));
            let lent = match &self.books[i].borrowed_by {
                Some(who) => *who == key,
                None => false,
            };
            if lent {
                r.push(&self.books[i]);
            }
            i += 1;
        }
        assert(self.books@.subrange(0, i as int) =~= self.books@);
        r
    }

    /// Every book of the catalogue, in the order they were added.
    pub fn all_books(&self) -> (r: Vec<&Book>)
        ensures
            refers_to_books(r@, self.book_seq()),
    {
        let mut r: Vec<&Book> = Vec::new();
        let mut i: usize = 0;
        while i < self.books.len()
            invariant
                i <= self.books@.len(),
                r@.len() == i,
                forall|k: int| 0 <= k < i ==> *(#[trigger] r@[k]) == self.books@[k],
            decreases self.books@.len() - i,
        {
            r.push(&self.books[i]);
            i += 1;
        }
        r
    }
}

/// A store of books that can be searched by ISBN and by author.
pub trait BookStore {
    /// The store's own invariant.
    spec fn store_wf(&self) -> bool;

    /// Adds `book` unless a book with its ISBN is already stored.
    fn add_book(&mut self, book: Book) -> (r: Result<(), LibraryError>)
        requires
            old(self).store_wf(),
        ensures
            final(self).store_wf(),
    ;

    /// The book with ISBN `isbn`.
    fn get_book(&self, isbn: &str) -> (r: Result<&Book, LibraryError>)
        ensures
            r matches Ok(b) ==> b.isbn@ == isbn@,
    ;

    /// Every book written by `author`.
    fn get_books_by_author(&self, author: &str) -> (r: Vec<&Book>)
        ensures
            forall|i: int| 0 <= i < r@.len() ==> (#[trigger] r@[i]).author@ == author@,
    ;

    /// Every stored book.
    fn all_books(&self) -> Vec<&Book>;
}

/// Every book a selection by `p` yields satisfies `p`.
proof fn lemma_select_books_pred(books: Seq<Book>, p: spec_fn(Book) -> bool)
    ensures
        forall|i: int|
            0 <= i < select_books(books, p).len() ==> p(#[trigger] select_books(books, p)[i]),
    decreases books.len(),
{
    if books.len() > 0 {
        lemma_select_books_pred(books.drop_last(), p);
        let rest = select_books(books.drop_last(), p);
        assert forall|i: int|
            0 <= i < select_books(books, p).len() implies p(
            #[trigger] select_books(books, p)[i],
        ) by {
            if i < rest.len() {
                assert(select_books(books, p)[i] == rest[i]);
            }
        }
    }
}

impl BookStore for Library {
    open spec fn store_wf(&self) -> bool {
        self.wf()
    }

    fn add_book(&mut self, book: Book) -> (r: Result<(), LibraryError>) {
        Library::add_book(self, book)
    }

    fn get_book(&self, isbn: &str) -> (r: Result<&Book, LibraryError>) {
        Library::find_book_by_isbn(self, isbn)
    }

    fn get_books_by_author(&self, author: &str) -> (r: Vec<&Book>) {
        let r = Library::find_books_by_author(self, author);
        proof {
            lemma_select_books_pred(self.book_seq(), by_author(author@));
        }
        r
    }

    fn all_books(&self) -> Vec<&Book> {
        Library::all_books(self)
    }
}

} // verus!
