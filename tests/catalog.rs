use grade_management::catalog::{Book, Library, LibraryError, BookStore};

fn sample_book() -> Book {
    Book::new(
        "Rust Programming".to_string(),
        "John Doe".to_string(),
        "123-456".to_string(),
    )
}

#[test]
fn test_add_and_find_book() {
    let mut library = Library::new();
    let book1 = sample_book();
    library.add_book(book1.clone()).unwrap();
    assert_eq!(library.find_book_by_isbn("123-456").unwrap().title, "Rust Programming");
}

#[test]
fn test_add_duplicate_book() {
    let mut library = Library::new();
    let book1 = sample_book();
    library.add_book(book1.clone()).unwrap();
    let result = library.add_book(book1);
    assert_eq!(result, Err(LibraryError::BookAlreadyExists));
}

#[test]
fn test_borrow_and_return_book() {
    let mut library = Library::new();
    let book1 = sample_book();
    library.add_book(book1.clone()).unwrap();

    library.borrow_book("123-456", "Alice").unwrap();
    assert_eq!(library.find_book_by_isbn("123-456").unwrap().borrowed_by, Some("Alice".to_string()));

    library.return_book("123-456").unwrap();
    assert_eq!(library.find_book_by_isbn("123-456").unwrap().borrowed_by, None);
}

#[test]
fn test_borrow_nonexistent_book() {
    let mut library = Library::new();
    let result = library.borrow_book("nonexistent", "Alice");
    assert_eq!(result, Err(LibraryError::BookNotFound));
}

#[test]
fn test_borrow_already_borrowed_book() {
    let mut library = Library::new();
    let book1 = sample_book();
    library.add_book(book1.clone()).unwrap();
    library.borrow_book("123-456", "Alice").unwrap();
    let result = library.borrow_book("123-456", "Bob");
    assert_eq!(result, Err(LibraryError::BookAlreadyBorrowed));
}

#[test]
fn return_of_a_book_not_lent_fails() {
    let mut library = Library::new();
    library.add_book(sample_book()).unwrap();
    assert_eq!(library.return_book("123-456"), Err(LibraryError::BookNotBorrowed));
    assert_eq!(library.return_book("999"), Err(LibraryError::BookNotFound));
}

#[test]
fn books_are_found_by_author_and_by_borrower() {
    let mut library = Library::new();
    library.add_book(sample_book()).unwrap();
    library
        .add_book(Book::new("Other".to_string(), "Jane Roe".to_string(), "789".to_string()))
        .unwrap();
    library
        .add_book(Book::new("More Rust".to_string(), "John Doe".to_string(), "555".to_string()))
        .unwrap();
    let by_john = library.find_books_by_author("John Doe");
    assert_eq!(by_john.len(), 2);
    assert_eq!(by_john[0].isbn, "123-456");
    assert_eq!(by_john[1].isbn, "555");
    library.borrow_book("789", "Alice").unwrap();
    let lent = library.find_borrowed_by("Alice");
    assert_eq!(lent.len(), 1);
    assert_eq!(lent[0].title, "Other");
    assert!(library.find_borrowed_by("Bob").is_empty());
}

#[test]
fn the_book_store_view_of_a_library() {
    let mut library = Library::new();
    BookStore::add_book(&mut library, sample_book()).unwrap();
    assert_eq!(library.get_book("123-456").unwrap().author, "John Doe");
    assert!(matches!(library.get_book("000"), Err(LibraryError::BookNotFound)));
    assert_eq!(library.get_books_by_author("John Doe").len(), 1);
    assert_eq!(library.all_books().len(), 1);
}
