use bytes::Bytes;
use mpsc_bytes::MpScBytesQueue;
use std::num::NonZeroUsize;

fn queued_bytes(queue: &mut MpScBytesQueue) -> Vec<u8> {
    let mut out = Vec::new();
    if let Some(buffers) = queue.get_buffers() {
        for slice in buffers.get_io_slices() {
            out.extend_from_slice(slice);
        }
    }
    out
}

#[test]
fn test_seq() {
    let bytes = Bytes::from_static(b"Hello, world!");

    let mut queue = MpScBytesQueue::new(10);

    for _ in 0..20 {
        assert!(queue.get_buffers().is_none());

        for i in 0..5 {
            println!("Pushing (success) {}", i);
            queue.push(&[bytes.clone(), bytes.clone()]).unwrap();

            assert_eq!(
                queue.get_buffers().unwrap().get_io_slices().len(),
                (i + 1) * 2
            );
        }

        println!("Pushing (failed)");
        queue
            .push(&[bytes.clone(), bytes.clone(), bytes.clone()])
            .unwrap_err();

        println!("Test get_buffers");

        let mut buffers = queue.get_buffers().unwrap();
        assert_eq!(buffers.get_io_slices().len(), 10);
        for io_slice in buffers.get_io_slices() {
            assert_eq!(io_slice, &*bytes);
        }

        assert!(!buffers.advance(NonZeroUsize::new(10 * bytes.len()).unwrap().get()));
        assert!(!buffers.advance(NonZeroUsize::new(100).unwrap().get()));
    }
}

#[test]
fn test_par() {
    let bytes0: Bytes = Bytes::from_static(b"012344578");
    let bytes1: Bytes = Bytes::from_static(b"2134i9054");

    let mut queue = MpScBytesQueue::new(2000);

    for _ in 0..1000 {
        queue.push(&[bytes0.clone(), bytes1.clone()]).unwrap();
    }

    let mut slices_processed = 0;
    loop {
        if let Some(mut buffers) = queue.get_buffers() {
            let io_slices_len = {
                let io_slices = buffers.get_io_slices();

                // verify the content
                let mut it = io_slices.iter();
                while let Some(io_slice0) = it.next() {
                    assert_eq!(*io_slice0, &*bytes0);
                    assert_eq!(*it.next().unwrap(), &*bytes1);
                }
                io_slices.len()
            };

            buffers.advance(NonZeroUsize::new(io_slices_len * bytes0.len()).unwrap().get());
            slices_processed += io_slices_len;

            if slices_processed == 2000 {
                break;
            }
        }
    }
    assert!(queue.get_buffers().is_none());
}

#[test]
fn new_queue_is_empty_with_its_capacity() {
    let mut queue = MpScBytesQueue::new(7);
    assert_eq!(queue.capacity(), 7);
    assert!(queue.get_buffers().is_none());
}

#[test]
fn batch_longer_than_capacity_is_rejected_on_empty_queue() {
    let b = Bytes::from_static(b"abc");
    let mut queue = MpScBytesQueue::new(2);
    let batch = [b.clone(), b.clone(), b.clone()];
    let err = queue.push(&batch).unwrap_err();
    assert_eq!(err.len(), 3);
    assert!(queue.get_buffers().is_none());
    // The queue is still usable afterwards.
    queue.push(&[b.clone(), b.clone()]).unwrap();
    assert_eq!(queue.get_buffers().unwrap().get_io_slices().len(), 2);
}

#[test]
fn rejected_push_leaves_queue_unchanged() {
    let a = Bytes::from_static(b"first");
    let b = Bytes::from_static(b"second");
    let c = Bytes::from_static(b"third");
    let mut queue = MpScBytesQueue::new(3);
    queue.push(&[a.clone(), b.clone()]).unwrap();
    let before = queued_bytes(&mut queue);

    let batch = [c.clone(), c.clone()];
    let err = queue.push(&batch).unwrap_err();
    assert_eq!(err, &batch[..]);

    assert_eq!(queued_bytes(&mut queue), before);
    let buffers = queue.get_buffers().unwrap();
    let slices = buffers.get_io_slices();
    assert_eq!(slices, vec![&b"first"[..], &b"second"[..]]);
    drop(buffers);
    // Exactly one slot is still free.
    queue.push(&[c.clone()]).unwrap();
    queue.push(&[c.clone()]).unwrap_err();
}

#[test]
fn empty_batch_is_accepted() {
    let mut queue = MpScBytesQueue::new(1);
    queue.push(&[]).unwrap();
    assert!(queue.get_buffers().is_none());
}

#[test]
fn partial_write_trims_first_descriptor() {
    let a = Bytes::from_static(b"0123456789");
    let b = Bytes::from_static(b"abcdefghij");
    let mut queue = MpScBytesQueue::new(4);
    queue.push(&[a, b]).unwrap();

    let mut buffers = queue.get_buffers().unwrap();
    assert!(buffers.advance(5));
    let slices = buffers.get_io_slices();
    assert_eq!(slices.len(), 2);
    assert_eq!(slices[0], b"56789");
    assert_eq!(slices[1], b"abcdefghij");

    assert!(!buffers.advance(15));
    assert!(buffers.get_io_slices().is_empty());
    drop(buffers);
    assert!(queue.get_buffers().is_none());
}

#[test]
fn write_ending_on_a_boundary_retires_and_continues() {
    let a = Bytes::from_static(b"xyz");
    let b = Bytes::from_static(b"uvw");
    let mut queue = MpScBytesQueue::new(2);
    queue.push(&[a, b]).unwrap();

    let mut buffers = queue.get_buffers().unwrap();
    assert!(buffers.advance(3));
    assert_eq!(buffers.get_io_slices(), vec![&b"uvw"[..]]);
    drop(buffers);
    // The retired slot is free again.
    queue.push(&[Bytes::from_static(b"rst")]).unwrap();
    assert_eq!(queued_bytes(&mut queue), b"uvwrst".to_vec());
}

#[test]
fn write_spanning_buffers_trims_the_next_one() {
    let mut queue = MpScBytesQueue::new(3);
    queue
        .push(&[
            Bytes::from_static(b"ab"),
            Bytes::from_static(b"cde"),
            Bytes::from_static(b"fg"),
        ])
        .unwrap();
    let mut buffers = queue.get_buffers().unwrap();
    assert!(buffers.advance(3));
    assert_eq!(buffers.get_io_slices(), vec![&b"de"[..], &b"fg"[..]]);
    assert!(!buffers.advance(100));
    drop(buffers);
    assert!(queue.get_buffers().is_none());
}

#[test]
fn bytes_come_out_in_push_order_across_wraparound() {
    let mut queue = MpScBytesQueue::new(3);
    let mut pushed: Vec<u8> = Vec::new();
    let mut written: Vec<u8> = Vec::new();
    let words: [&'static [u8]; 6] = [b"one", b"two", b"three", b"four", b"five", b"six"];
    for round in 0..4 {
        for pair in words.chunks(2) {
            let batch = [Bytes::from_static(pair[0]), Bytes::from_static(pair[1])];
            while queue.push(&batch).is_err() {
                // Drain a few bytes at a time to make room.
                let mut buffers = queue.get_buffers().unwrap();
                let first = buffers.get_io_slices()[0].to_vec();
                let n = std::cmp::min(first.len(), 2 + round);
                written.extend_from_slice(&first[..n]);
                buffers.advance(n);
            }
            pushed.extend_from_slice(pair[0]);
            pushed.extend_from_slice(pair[1]);
        }
    }
    loop {
        let mut buffers = match queue.get_buffers() {
            Some(b) => b,
            None => break,
        };
        let first = buffers.get_io_slices()[0].to_vec();
        written.extend_from_slice(&first);
        buffers.advance(first.len());
    }
    assert_eq!(written, pushed);
}

#[test]
fn batch_is_seen_whole_and_in_order() {
    let mut queue = MpScBytesQueue::new(5);
    queue.push(&[Bytes::from_static(b"a")]).unwrap();
    queue
        .push(&[
            Bytes::from_static(b"b1"),
            Bytes::from_static(b"b2"),
            Bytes::from_static(b"b3"),
        ])
        .unwrap();
    let buffers = queue.get_buffers().unwrap();
    assert_eq!(
        buffers.get_io_slices(),
        vec![&b"a"[..], &b"b1"[..], &b"b2"[..], &b"b3"[..]]
    );
}

#[test]
fn empty_buffer_at_the_cut_is_retired() {
    let mut queue = MpScBytesQueue::new(3);
    queue
        .push(&[Bytes::from_static(b"x"), Bytes::new()])
        .unwrap();
    let mut buffers = queue.get_buffers().unwrap();
    assert!(!buffers.advance(1));
    assert!(buffers.get_io_slices().is_empty());
    drop(buffers);
    assert!(queue.get_buffers().is_none());
    // Both slots came back.
    queue
        .push(&[Bytes::new(), Bytes::new(), Bytes::new()])
        .unwrap();
}

#[test]
fn empty_buffers_in_the_middle_are_passed_over() {
    let mut queue = MpScBytesQueue::new(4);
    queue
        .push(&[
            Bytes::from_static(b"ab"),
            Bytes::new(),
            Bytes::new(),
            Bytes::from_static(b"cd"),
        ])
        .unwrap();
    let mut buffers = queue.get_buffers().unwrap();
    assert!(buffers.advance(3));
    assert_eq!(buffers.get_io_slices(), vec![&b"d"[..]]);
    drop(buffers);
    // Three slots were retired.
    queue
        .push(&[Bytes::new(), Bytes::new(), Bytes::new()])
        .unwrap();
    queue.push(&[Bytes::new()]).unwrap_err();
}

#[test]
fn partial_write_retires_no_slot() {
    let mut queue = MpScBytesQueue::new(2);
    queue.push(&[Bytes::from_static(b"abcdef")]).unwrap();
    let mut buffers = queue.get_buffers().unwrap();
    assert!(buffers.advance(2));
    drop(buffers);
    // Only the one untouched slot is free.
    queue.push(&[Bytes::new(), Bytes::new()]).unwrap_err();
    queue.push(&[Bytes::new()]).unwrap();
    assert_eq!(queued_bytes(&mut queue), b"cdef".to_vec());
}
