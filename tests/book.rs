use rbq::{Book, Error};

#[test]
fn book_starts_empty() {
    let b = Book::new();
    assert_eq!((b.write, b.read, b.last, b.reserve), (0, 0, 0, 0));
    assert!(!b.write_in_progress && !b.read_in_progress);
}

#[test]
fn book_write_then_read() {
    let mut b = Book::new();
    let g = b.acquire_write_exact(8, 3).unwrap();
    assert_eq!((g.start, g.len), (0, 3));
    assert_eq!(g.to_range(), 0..3);
    assert_eq!(g.to_len(), 3);
    assert!(b.write_in_progress);
    assert!(matches!(b.acquire_write_exact(8, 1), Err(Error::GrantInProgress)));
    b.commit_write_exact(8, 3, 2);
    assert_eq!((b.write, b.reserve, b.last), (2, 2, 8));
    assert!(!b.write_in_progress);
    let r = b.acquire_read(8).unwrap();
    assert_eq!((r.start, r.len), (0, 2));
    assert!(matches!(b.acquire_read(8), Err(Error::GrantInProgress)));
    b.commit_read(8, 2, 2);
    assert_eq!(b.read, 2);
    assert!(!b.read_in_progress);
    assert!(matches!(b.acquire_read(8), Err(Error::InsufficientSize)));
    assert!(!b.read_in_progress);
}

#[test]
fn book_wraps_strictly_before_read() {
    let mut b = Book::new();
    b.acquire_write_exact(8, 5).unwrap();
    b.commit_write_exact(8, 5, 5);
    b.acquire_read(8).unwrap();
    b.commit_read(8, 5, 5);
    // 5 + 5 > 8 and 5 is not below read (5): refused.
    assert!(matches!(b.acquire_write_exact(8, 5), Err(Error::InsufficientSize)));
    assert!(!b.write_in_progress);
    let g = b.acquire_write_exact(8, 4).unwrap();
    assert_eq!(g.start, 0);
    b.commit_write_exact(8, 4, 4);
    assert_eq!((b.write, b.last), (4, 5));
    // inverted: 4 + 1 < 5
    let g = b.acquire_write_exact(8, 0).unwrap();
    assert_eq!(g.start, 4);
    b.release_write();
    assert!(matches!(b.acquire_write_exact(8, 1), Err(Error::InsufficientSize)));
    let r = b.acquire_read(8).unwrap();
    assert_eq!((r.start, r.len), (0, 4));
    b.release_read();
}

#[test]
fn book_release_restores_state() {
    let mut b = Book::new();
    b.acquire_write_exact(8, 6).unwrap();
    b.commit_write_exact(8, 6, 6);
    b.acquire_read(8).unwrap();
    b.commit_read(8, 6, 6);
    let before = b;
    // A grant that wraps to the front, given back unused.
    let g = b.acquire_write_exact(8, 3).unwrap();
    assert_eq!(g.start, 0);
    b.release_write();
    assert_eq!(b, before);
    let g = b.acquire_write_exact(8, 3).unwrap();
    assert_eq!(g.start, 0);
    b.commit_write_exact(8, 3, 0);
    assert_eq!(b, before);
}

#[test]
fn book_remaining_and_split() {
    let mut b = Book::new();
    let g = b.acquire_write_remaining(8).unwrap();
    assert_eq!((g.start, g.len), (0, 8));
    b.commit_write_exact(8, 8, 7);
    b.acquire_read(8).unwrap();
    b.commit_read(8, 7, 6);
    let g = b.acquire_write_remaining(8).unwrap();
    assert_eq!((g.start, g.len), (7, 1));
    b.commit_write_exact(8, 1, 1);
    let g = b.acquire_write_remaining(8).unwrap();
    assert_eq!((g.start, g.len), (0, 5));
    b.commit_write_exact(8, 5, 2);
    let (first, second) = b.acquire_read_split(8).unwrap();
    assert_eq!((first.start, first.len), (6, 2));
    assert_eq!((second.start, second.len), (0, 2));
    b.commit_read_split(8, 2, 3);
    assert_eq!(b.read, 1);
    let r = b.acquire_read(8).unwrap();
    assert_eq!((r.start, r.len), (1, 1));
}
