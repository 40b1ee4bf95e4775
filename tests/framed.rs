use rbq::{Buffer, Error, Ring};

#[test]
fn framed_single_frame() {
    critical_section::with(|cs| {
        let mut ring = Ring::new(Buffer::<128>::new());
        let f = ring.grant_frame(cs, 100).unwrap();
        assert_eq!(f.payload_len(), 100);
        assert_eq!(f.buf(&ring).len(), 100);
        f.buf_mut(&mut ring)[..3].copy_from_slice(b"ABC");
        f.commit(&mut ring, cs, 3);
        let r = ring.read_frame(cs).unwrap();
        assert_eq!(r.buf(&ring), b"ABC");
        r.release(&mut ring, cs);
        assert!(ring.read_frame(cs).is_none());
        assert!(matches!(ring.read(cs), Err(Error::InsufficientSize)));
    });
}

#[test]
fn framed_back_to_back_then_full() {
    critical_section::with(|cs| {
        let mut ring = Ring::new(Buffer::<8>::new());
        let f = ring.grant_frame(cs, 3).unwrap();
        f.buf_mut(&mut ring).copy_from_slice(&[1, 2, 3]);
        f.commit(&mut ring, cs, 3);
        let f = ring.grant_frame(cs, 3).unwrap();
        f.buf_mut(&mut ring).copy_from_slice(&[4, 5, 6]);
        f.commit(&mut ring, cs, 3);
        assert!(matches!(ring.grant_frame(cs, 3), Err(Error::InsufficientSize)));
        let r = ring.read_frame(cs).unwrap();
        assert_eq!(r.buf(&ring), &[1u8, 2, 3][..]);
        r.release(&mut ring, cs);
        let r = ring.read_frame(cs).unwrap();
        assert_eq!(r.buf(&ring), &[4u8, 5, 6][..]);
        r.release(&mut ring, cs);
        assert!(ring.read_frame(cs).is_none());
    });
}

#[test]
fn framed_commit_is_cut_to_payload() {
    critical_section::with(|cs| {
        let mut ring = Ring::new(Buffer::<16>::new());
        let f = ring.grant_frame(cs, 4).unwrap();
        f.buf_mut(&mut ring).copy_from_slice(&[9, 8, 7, 6]);
        f.commit(&mut ring, cs, 50);
        let r = ring.read(cs).unwrap();
        assert_eq!(r.buf(&ring), &[0x09u8, 9, 8, 7, 6][..]);
        r.release(&mut ring, cs);
        let r = ring.read_frame(cs).unwrap();
        assert_eq!(r.buf(&ring), &[9u8, 8, 7, 6][..]);
    });
}

#[test]
fn framed_empty_frame_and_long_header() {
    critical_section::with(|cs| {
        let mut ring = Ring::new(Buffer::<512>::new());
        let f = ring.grant_frame(cs, 200).unwrap();
        f.commit(&mut ring, cs, 0);
        let f = ring.grant_frame(cs, 300).unwrap();
        f.buf_mut(&mut ring)[..2].copy_from_slice(&[42, 43]);
        f.commit(&mut ring, cs, 2);
        let r = ring.read(cs).unwrap();
        // a two-byte header carrying 0, then a two-byte header carrying 2
        assert_eq!(r.buf(&ring), &[0x02u8, 0x00, 0x0A, 0x00, 42, 43][..]);
        r.release(&mut ring, cs);
        let r = ring.read_frame(cs).unwrap();
        assert!(r.buf(&ring).is_empty());
        r.release(&mut ring, cs);
        let r = ring.read_frame(cs).unwrap();
        assert_eq!(r.buf(&ring), &[42u8, 43][..]);
    });
}

#[test]
fn framed_too_large_is_refused() {
    critical_section::with(|cs| {
        let mut ring = Ring::new(Buffer::<8>::new());
        assert!(matches!(ring.grant_frame(cs, 8), Err(Error::InsufficientSize)));
        assert!(matches!(ring.grant_frame(cs, usize::MAX), Err(Error::InsufficientSize)));
        let f = ring.grant_frame(cs, 2).unwrap();
        assert!(matches!(ring.grant_frame(cs, 2), Err(Error::GrantInProgress)));
        assert!(matches!(ring.grant_frame(cs, usize::MAX), Err(Error::GrantInProgress)));
        f.commit(&mut ring, cs, 1);
    });
}

#[test]
fn malformed_frame_is_not_handed_out() {
    critical_section::with(|cs| {
        let mut ring = Ring::new(Buffer::<8>::new());
        let g = ring.grant_exact(cs, 2).unwrap();
        // a header announcing a nine-byte header in a two-byte ring content
        g.buf_mut(&mut ring).copy_from_slice(&[0x00, 0x01]);
        g.commit(&mut ring, cs, 2);
        assert!(ring.read_frame(cs).is_none());
        let r = ring.read(cs).unwrap();
        assert_eq!(r.buf(&ring), &[0u8, 1][..]);
        r.commit(&mut ring, cs, 2);
        let g = ring.grant_exact(cs, 2).unwrap();
        // a one-byte header announcing 5 payload bytes, with only one there
        g.buf_mut(&mut ring).copy_from_slice(&[0x0B, 0x01]);
        g.commit(&mut ring, cs, 2);
        assert!(ring.read_frame(cs).is_none());
        assert!(ring.read(cs).is_ok());
    });
}

#[test]
fn framed_frames_survive_wrapping() {
    critical_section::with(|cs| {
        let mut ring = Ring::new(Buffer::<16>::new());
        let mut expected: Vec<Vec<u8>> = Vec::new();
        let mut got: Vec<Vec<u8>> = Vec::new();
        let mut next: u8 = 1;
        let mut wrapped = false;
        for round in 0..30usize {
            if let Ok(f) = ring.grant_frame(cs, 5) {
                let used = round % 6;
                for b in f.buf_mut(&mut ring)[..used].iter_mut() {
                    *b = next;
                    next = next.wrapping_add(1);
                }
                expected.push(f.buf(&ring)[..used].to_vec());
                f.commit(&mut ring, cs, used);
                wrapped |= ring.book().write < ring.book().read;
            }
            if round % 2 == 1 {
                let r = ring.read_frame(cs).expect("a whole frame is queued");
                got.push(r.buf(&ring).to_vec());
                r.release(&mut ring, cs);
            }
        }
        while let Some(r) = ring.read_frame(cs) {
            got.push(r.buf(&ring).to_vec());
            r.release(&mut ring, cs);
        }
        assert_eq!(got, expected);
        assert!(wrapped);
    });
}

#[test]
fn framed_write_release_gives_space_back() {
    critical_section::with(|cs| {
        let mut ring = Ring::new(Buffer::<8>::new());
        let before = ring.book();
        let f = ring.grant_frame(cs, 7).unwrap();
        f.buf_mut(&mut ring).copy_from_slice(&[1, 2, 3, 4, 5, 6, 7]);
        f.release(&mut ring, cs);
        assert_eq!(ring.book(), before);
        assert!(ring.read_frame(cs).is_none());
        let f = ring.grant_frame(cs, 7).unwrap();
        f.commit(&mut ring, cs, 7);
        let r = ring.read_frame(cs).unwrap();
        assert_eq!(r.buf(&ring), &[1u8, 2, 3, 4, 5, 6, 7][..]);
    });
}
