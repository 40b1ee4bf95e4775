use rbq::{Buffer, Error, Ring};

fn new_ring<const N: usize>() -> Ring<N> {
    Ring::new(Buffer::<N>::new())
}

#[test]
fn fits_normally() {
    critical_section::with(|cs| {
        let mut ring = new_ring::<8>();
        let g = ring.grant_exact(cs, 3).unwrap();
        g.buf_mut(&mut ring).copy_from_slice(&[1, 2, 3]);
        g.commit(&mut ring, cs, 3);
        let r = ring.read(cs).unwrap();
        assert_eq!(r.buf(&ring), &[1u8, 2, 3][..]);
        r.commit(&mut ring, cs, 3);
        assert!(matches!(ring.read(cs), Err(Error::InsufficientSize)));
    });
}

#[test]
fn exact_fill() {
    critical_section::with(|cs| {
        let mut ring = new_ring::<8>();
        let g = ring.grant_exact(cs, 8).unwrap();
        g.buf_mut(&mut ring).copy_from_slice(&[10, 11, 12, 13, 14, 15, 16, 17]);
        g.commit(&mut ring, cs, 8);
        let r = ring.read(cs).unwrap();
        assert_eq!(r.buf(&ring), &[10u8, 11, 12, 13, 14, 15, 16, 17][..]);
        r.commit(&mut ring, cs, 4);
        let r = ring.read(cs).unwrap();
        assert_eq!(r.buf(&ring), &[14u8, 15, 16, 17][..]);
        r.commit(&mut ring, cs, 4);
        let book = ring.book();
        assert_eq!(book.read, book.write);
        assert_eq!(book.last, 8);
        assert!(matches!(ring.read(cs), Err(Error::InsufficientSize)));
    });
}

#[test]
fn exact_fill_read_whole() {
    critical_section::with(|cs| {
        let mut ring = new_ring::<8>();
        let g = ring.grant_exact(cs, 8).unwrap();
        g.buf_mut(&mut ring).copy_from_slice(&[1, 2, 3, 4, 5, 6, 7, 8]);
        g.commit(&mut ring, cs, 8);
        let r = ring.read(cs).unwrap();
        assert_eq!(r.buf(&ring), &[1u8, 2, 3, 4, 5, 6, 7, 8][..]);
        r.commit(&mut ring, cs, 8);
        let book = ring.book();
        assert_eq!(book.read, book.write);
        assert_eq!(book.last, 8);
    });
}

/// Writes 5, reads 5, then writes 4, which must wrap; leaves the read grant
/// over the 4 wrapped bytes outstanding.
fn force_inversion(ring: &mut Ring<8>, cs: critical_section::CriticalSection) -> rbq::GrantRead {
    let g = ring.grant_exact(cs, 5).unwrap();
    g.buf_mut(ring).copy_from_slice(&[1, 2, 3, 4, 5]);
    g.commit(ring, cs, 5);
    let r = ring.read(cs).unwrap();
    assert_eq!(r.buf(ring), &[1u8, 2, 3, 4, 5][..]);
    r.commit(ring, cs, 5);
    let g = ring.grant_exact(cs, 4).unwrap();
    assert_eq!(g.buf(ring).len(), 4);
    assert_eq!(ring.book().reserve, 4);
    g.buf_mut(ring).copy_from_slice(&[6, 7, 8, 9]);
    g.commit(ring, cs, 4);
    assert_eq!(ring.book().last, 5);
    assert_eq!(ring.book().write, 4);
    let r = ring.read(cs).unwrap();
    assert_eq!(r.len(), 4);
    assert_eq!(ring.book().read, 0);
    assert_eq!(r.buf(ring), &[6u8, 7, 8, 9][..]);
    r
}

#[test]
fn force_inversion_wraps_to_front() {
    critical_section::with(|cs| {
        let mut ring = new_ring::<8>();
        let r = force_inversion(&mut ring, cs);
        r.commit(&mut ring, cs, 4);
        assert!(matches!(ring.read(cs), Err(Error::InsufficientSize)));
    });
}

#[test]
fn deny_insufficient() {
    critical_section::with(|cs| {
        let mut ring = new_ring::<8>();
        let r = force_inversion(&mut ring, cs);
        r.release(&mut ring, cs);
        assert!(matches!(ring.grant_exact(cs, 5), Err(Error::InsufficientSize)));
        let g = ring.grant_exact(cs, 2).unwrap();
        assert_eq!(ring.book().reserve, 6);
        g.buf_mut(&mut ring).copy_from_slice(&[20, 21]);
        g.commit(&mut ring, cs, 2);
        let r = ring.read(cs).unwrap();
        assert_eq!(r.buf(&ring), &[6u8, 7, 8, 9, 20, 21][..]);
    });
}

#[test]
fn deny_insufficient_after_consuming() {
    critical_section::with(|cs| {
        let mut ring = new_ring::<8>();
        let r = force_inversion(&mut ring, cs);
        r.commit(&mut ring, cs, 4);
        assert!(matches!(ring.grant_exact(cs, 5), Err(Error::InsufficientSize)));
        let g = ring.grant_exact(cs, 2).unwrap();
        assert_eq!(ring.book().reserve, 6);
        g.release(&mut ring, cs);
    });
}

#[test]
fn exclusion() {
    critical_section::with(|cs| {
        let mut ring = new_ring::<8>();
        let before = ring.book();
        let g = ring.grant_exact(cs, 3).unwrap();
        assert!(matches!(ring.grant_exact(cs, 1), Err(Error::GrantInProgress)));
        g.release(&mut ring, cs);
        assert_eq!(ring.book(), before);
        let g = ring.grant_exact(cs, 3).unwrap();
        g.commit(&mut ring, cs, 0);
        assert_eq!(ring.book(), before);
        let g = ring.grant_exact(cs, 3).unwrap();
        g.commit(&mut ring, cs, 3);
    });
}

#[test]
fn read_exclusion() {
    critical_section::with(|cs| {
        let mut ring = new_ring::<8>();
        let g = ring.grant_exact(cs, 2).unwrap();
        g.buf_mut(&mut ring).copy_from_slice(&[5, 6]);
        g.commit(&mut ring, cs, 2);
        let before = ring.book();
        let r = ring.read(cs).unwrap();
        assert!(matches!(ring.read(cs), Err(Error::GrantInProgress)));
        assert!(matches!(ring.split_read(cs), Err(Error::GrantInProgress)));
        r.release(&mut ring, cs);
        assert_eq!(ring.book(), before);
        let r = ring.read(cs).unwrap();
        assert_eq!(r.buf(&ring), &[5u8, 6][..]);
    });
}

#[test]
fn uncommitted_tail_is_never_read() {
    critical_section::with(|cs| {
        let mut ring = new_ring::<8>();
        let g = ring.grant_exact(cs, 4).unwrap();
        g.buf_mut(&mut ring).copy_from_slice(&[1, 2, 3, 4]);
        g.commit(&mut ring, cs, 2);
        let g = ring.grant_exact(cs, 2).unwrap();
        g.buf_mut(&mut ring).copy_from_slice(&[7, 8]);
        g.commit(&mut ring, cs, 2);
        let r = ring.read(cs).unwrap();
        assert_eq!(r.buf(&ring), &[1u8, 2, 7, 8][..]);
    });
}

#[test]
fn bytes_come_out_in_order() {
    critical_section::with(|cs| {
        let mut ring = new_ring::<8>();
        let mut written: Vec<u8> = Vec::new();
        let mut read: Vec<u8> = Vec::new();
        let mut next: u8 = 0;
        for round in 0..40usize {
            let size = round % 5 + 1;
            if let Ok(g) = ring.grant_exact(cs, size) {
                let buf = g.buf_mut(&mut ring);
                for b in buf.iter_mut() {
                    *b = next;
                    next = next.wrapping_add(1);
                }
                let used = size - round % 2;
                let data = g.buf(&ring)[..used].to_vec();
                written.extend_from_slice(&data);
                g.commit(&mut ring, cs, used);
            }
            if round % 3 != 0 {
                if let Ok(r) = ring.read(cs) {
                    let take = (r.len() + 1) / 2;
                    read.extend_from_slice(&r.buf(&ring)[..take]);
                    r.commit(&mut ring, cs, take);
                }
            }
        }
        while let Ok(r) = ring.read(cs) {
            let n = r.len();
            read.extend_from_slice(r.buf(&ring));
            r.commit(&mut ring, cs, n);
        }
        assert_eq!(read, written);
        let book = ring.book();
        assert!(book.write <= 8 && book.read <= 8 && book.last <= 8 && book.reserve <= 8);
        assert!(!book.write_in_progress && !book.read_in_progress);
    });
}

#[test]
fn split_read_returns_both_parts() {
    critical_section::with(|cs| {
        let mut ring = new_ring::<8>();
        let g = ring.grant_exact(cs, 6).unwrap();
        g.buf_mut(&mut ring).copy_from_slice(&[1, 2, 3, 4, 5, 6]);
        g.commit(&mut ring, cs, 6);
        let r = ring.read(cs).unwrap();
        r.commit(&mut ring, cs, 4);
        let g = ring.grant_exact(cs, 3).unwrap();
        g.buf_mut(&mut ring).copy_from_slice(&[7, 8, 9]);
        g.commit(&mut ring, cs, 3);
        let s = ring.split_read(cs).unwrap();
        let (a, b) = s.bufs(&ring);
        assert_eq!(a, &[5u8, 6][..]);
        assert_eq!(b, &[7u8, 8, 9][..]);
        assert_eq!(s.len(), 5);
        s.commit(&mut ring, cs, 3);
        let r = ring.read(cs).unwrap();
        assert_eq!(r.buf(&ring), &[8u8, 9][..]);
    });
}

#[test]
fn split_read_release_keeps_bytes() {
    critical_section::with(|cs| {
        let mut ring = new_ring::<8>();
        let g = ring.grant_exact(cs, 3).unwrap();
        g.buf_mut(&mut ring).copy_from_slice(&[1, 2, 3]);
        g.commit(&mut ring, cs, 3);
        let s = ring.split_read(cs).unwrap();
        let (a, b) = s.bufs(&ring);
        assert_eq!(a, &[1u8, 2, 3][..]);
        assert!(b.is_empty());
        s.release(&mut ring, cs);
        let r = ring.read(cs).unwrap();
        assert_eq!(r.buf(&ring), &[1u8, 2, 3][..]);
    });
}

#[test]
fn max_remaining_takes_the_rest() {
    critical_section::with(|cs| {
        let mut ring = new_ring::<8>();
        let g = ring.grant_max_remaining(cs).unwrap();
        assert_eq!(g.len(), 8);
        g.commit(&mut ring, cs, 5);
        let g = ring.grant_max_remaining(cs).unwrap();
        assert_eq!(g.len(), 3);
        g.commit(&mut ring, cs, 3);
        assert!(matches!(ring.grant_max_remaining(cs), Err(Error::InsufficientSize)));
        let r = ring.read(cs).unwrap();
        r.commit(&mut ring, cs, 4);
        let g = ring.grant_max_remaining(cs).unwrap();
        assert_eq!(g.len(), 3);
        assert_eq!(ring.book().reserve, 3);
        assert!(matches!(ring.grant_max_remaining(cs), Err(Error::GrantInProgress)));
        g.release(&mut ring, cs);
    });
}

#[test]
fn oversized_request_is_refused() {
    critical_section::with(|cs| {
        let mut ring = new_ring::<8>();
        assert!(matches!(ring.grant_exact(cs, 9), Err(Error::InsufficientSize)));
        assert!(matches!(ring.grant_exact(cs, usize::MAX), Err(Error::InsufficientSize)));
        assert_eq!(ring.capacity(), 8);
    });
}

struct CountingWaker(std::sync::atomic::AtomicUsize);

impl std::task::Wake for CountingWaker {
    fn wake(self: std::sync::Arc<Self>) {
        self.0.fetch_add(1, std::sync::atomic::Ordering::SeqCst);
    }
}

#[test]
fn commits_wake_the_waiting_task() {
    critical_section::with(|cs| {
        let count = std::sync::Arc::new(CountingWaker(std::sync::atomic::AtomicUsize::new(0)));
        let waker = std::task::Waker::from(count.clone());
        let wakes = || count.0.load(std::sync::atomic::Ordering::SeqCst);
        let mut ring = new_ring::<8>();
        assert!(!ring.has_waiter());
        ring.register_waker(cs, &waker);
        assert!(ring.has_waiter());
        let g = ring.grant_exact(cs, 2).unwrap();
        g.release(&mut ring, cs);
        assert_eq!(wakes(), 0);
        assert!(ring.has_waiter());
        let g = ring.grant_exact(cs, 2).unwrap();
        g.commit(&mut ring, cs, 0);
        assert_eq!(wakes(), 0);
        let g = ring.grant_exact(cs, 2).unwrap();
        g.commit(&mut ring, cs, 2);
        assert_eq!(wakes(), 1);
        assert!(!ring.has_waiter());
        ring.register_waker(cs, &waker);
        let r = ring.read(cs).unwrap();
        r.commit(&mut ring, cs, 1);
        assert_eq!(wakes(), 2);
        ring.register_waker(cs, &waker);
        ring.wake(cs);
        assert_eq!(wakes(), 3);
        ring.wake(cs);
        assert_eq!(wakes(), 3);
    });
}
