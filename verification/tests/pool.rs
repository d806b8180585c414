use lebuf::Pool;

#[test]
fn pool_get() {
    let mut pool = Pool::new(8 * 2, 8);

    let buffer_1 = pool.get();
    let buffer_2 = pool.get();
    let buffer_3 = pool.get();

    assert!(matches!(buffer_1, Some(_)));
    assert!(matches!(buffer_2, Some(_)));
    assert!(matches!(buffer_3, None));

    assert!(pool.release(buffer_1.unwrap()).is_ok());
    assert!(pool.release(buffer_2.unwrap()).is_ok());

    let buffer_1 = pool.get();
    let buffer_2 = pool.get();
    let buffer_3 = pool.get();

    assert!(matches!(buffer_1, Some(_)));
    assert!(matches!(buffer_2, Some(_)));
    assert!(matches!(buffer_3, None));

    assert!(pool.release(buffer_1.unwrap()).is_ok());
    assert!(pool.release(buffer_2.unwrap()).is_ok());

    let buffer_1 = pool.get();
    let buffer_2 = pool.get();
    let buffer_3 = pool.get();

    assert!(matches!(buffer_1, Some(_)));
    assert!(matches!(buffer_2, Some(_)));
    assert!(matches!(buffer_3, None));
}

#[test]
fn get_reports_distinct_offsets() {
    let mut pool = Pool::new(8 * 4, 8);

    let buffer_1 = pool.get().unwrap();
    let buffer_2 = pool.get().unwrap();
    let buffer_3 = pool.get().unwrap();
    let buffer_4 = pool.get().unwrap();

    assert_eq!(buffer_1.offset(), 0);
    assert_eq!(buffer_2.offset(), 8);
    assert_eq!(buffer_3.offset(), 16);
    assert_eq!(buffer_4.offset(), 24);

    assert!(pool.release(buffer_2).is_ok());
    assert!(pool.release(buffer_4).is_ok());

    let buffer_5 = pool.get().unwrap();
    let buffer_6 = pool.get().unwrap();

    let offsets = vec![
        buffer_1.offset(),
        buffer_3.offset(),
        buffer_5.offset(),
        buffer_6.offset(),
    ];
    for (i, one) in offsets.iter().enumerate() {
        for other in offsets.iter().skip(i + 1) {
            assert_ne!(one, other);
        }
    }
}

#[test]
fn leases_never_exceed_the_slots() {
    let mut pool = Pool::new(8 * 3 + 5, 8);
    let mut live = Vec::new();

    for _ in 0..10 {
        if let Some(buffer) = pool.get() {
            live.push(buffer);
        }
    }

    assert_eq!(live.len(), 3);
    assert_eq!(pool.backing_len() / pool.buffer_capacity(), 3);
}

#[test]
fn exhausted_pool_revives_after_a_release() {
    let mut pool = Pool::new(8 * 5, 8);
    let mut live = Vec::new();

    for expected in 0..5 {
        let buffer = pool.get().unwrap();
        assert_eq!(buffer.offset(), expected * 8);
        live.push(buffer);
    }
    assert!(pool.get().is_none());

    let returned = live.remove(2);
    assert_eq!(returned.offset(), 16);
    assert!(pool.release(returned).is_ok());

    let again = pool.get().unwrap();
    assert_eq!(again.offset(), 16);
    assert!(pool.get().is_none());
}

#[test]
fn released_slots_come_back_last_in_first_out() {
    let mut pool = Pool::new(8 * 3, 8);

    let buffer_1 = pool.get().unwrap();
    let buffer_2 = pool.get().unwrap();
    let buffer_3 = pool.get().unwrap();

    assert!(pool.release(buffer_1).is_ok());
    assert!(pool.release(buffer_3).is_ok());
    assert!(pool.release(buffer_2).is_ok());

    assert_eq!(pool.get().unwrap().offset(), 8);
    assert_eq!(pool.get().unwrap().offset(), 16);
    assert_eq!(pool.get().unwrap().offset(), 0);
    assert!(pool.get().is_none());
}

#[test]
fn fresh_slots_go_before_released_ones() {
    let mut pool = Pool::new(8 * 3, 8);

    let buffer_1 = pool.get().unwrap();
    assert!(pool.release(buffer_1).is_ok());

    assert_eq!(pool.get().unwrap().offset(), 0 + 8);
    assert_eq!(pool.get().unwrap().offset(), 16);
    assert_eq!(pool.get().unwrap().offset(), 0);
}

#[test]
fn release_refuses_a_buffer_of_another_capacity() {
    let mut small = Pool::new(8 * 2, 8);
    let mut large = Pool::new(16 * 2, 16);

    let kept = large.get().unwrap();
    let stranger = small.get().unwrap();
    assert_eq!(kept.offset(), stranger.offset());
    assert!(!large.owns(&stranger));

    let refused = large.release(stranger);
    let stranger = refused.unwrap_err();
    assert_eq!(stranger.offset(), 0);
    assert_eq!(stranger.capacity(), 8);

    assert!(small.owns(&stranger));
    assert!(small.release(stranger).is_ok());
    assert!(large.owns(&kept));
}

#[test]
fn release_refuses_a_slot_that_is_not_on_lease() {
    let mut first = Pool::new(8 * 2, 8);
    let mut second = Pool::new(8 * 2, 8);

    let buffer = first.get().unwrap();
    assert!(!second.owns(&buffer));

    let buffer = second.release(buffer).unwrap_err();
    assert_eq!(second.get().unwrap().offset(), 0);
    assert!(first.release(buffer).is_ok());
}

#[test]
fn pool_without_a_whole_slot_is_exhausted() {
    let mut pool = Pool::new(7, 8);
    assert!(pool.get().is_none());

    let mut empty = Pool::new(0, 8);
    assert!(empty.get().is_none());
}

#[test]
fn pool_reports_its_measures() {
    let pool = Pool::new(100, 16);
    assert_eq!(pool.backing_len(), 100);
    assert_eq!(pool.buffer_capacity(), 16);
}

#[test]
fn slot_of_one_machine_word() {
    let word = std::mem::size_of::<usize>();
    let mut pool = Pool::new(word * 2, word);

    let buffer_1 = pool.get().unwrap();
    let buffer_2 = pool.get().unwrap();
    assert_eq!(buffer_1.capacity(), word);

    assert!(pool.release(buffer_1).is_ok());
    assert!(pool.release(buffer_2).is_ok());

    assert_eq!(pool.get().unwrap().offset(), word);
    assert_eq!(pool.get().unwrap().offset(), 0);
    assert!(pool.get().is_none());
}

#[test]
fn leased_buffer_is_empty_and_whole() {
    let mut pool = Pool::new(8 * 2, 8);

    let mut buffer = pool.get().unwrap();
    assert_eq!(buffer.len(), 0);
    assert_eq!(buffer.capacity(), 8);
    buffer.extend_from_slice(&[1, 2, 3]).unwrap();
    assert!(pool.release(buffer).is_ok());

    let _other = pool.get().unwrap();
    let again = pool.get().unwrap();
    assert_eq!(again.offset(), 0);
    assert_eq!(again.len(), 0);
    assert!(again.is_empty());
    assert_eq!(again.capacity(), 8);
}

#[test]
fn free_slot_names_the_next_free_slot() {
    let word = std::mem::size_of::<usize>();
    let mut pool = Pool::new(16 * 2, 16);

    let mut buffer_1 = pool.get().unwrap();
    let mut buffer_2 = pool.get().unwrap();
    buffer_1.resize(16).unwrap();
    buffer_2.extend_from_slice(&[0xAA; 16]).unwrap();

    assert!(pool.release(buffer_1).is_ok());
    assert!(pool.release(buffer_2).is_ok());

    let mut head = pool.get().unwrap();
    assert_eq!(head.offset(), 16);
    head.set_len(16);
    let mut expected = vec![0xAA; 16];
    expected[..word].copy_from_slice(&0usize.to_le_bytes());
    assert_eq!(head.as_ref(), &expected[..]);

    let mut last = pool.get().unwrap();
    assert_eq!(last.offset(), 0);
    last.set_len(16);
    let mut expected = vec![0x00; 16];
    expected[..word].copy_from_slice(&usize::MAX.to_le_bytes());
    assert_eq!(last.as_ref(), &expected[..]);
}

#[test]
fn interleaved_owners_keep_their_bytes() {
    let mut pool = Pool::new(8 * 2000, 8);
    let mut first = Vec::new();
    let mut second = Vec::new();

    for _ in 0..10 {
        first.push(pool.get());
    }
    for _ in 0..10 {
        second.push(pool.get());
    }

    let mut owners = Vec::new();
    for (buffer_1, buffer_2) in first.into_iter().zip(second.into_iter()) {
        assert!(matches!(buffer_1, Some(_)));
        assert!(matches!(buffer_2, Some(_)));
        owners.push((buffer_1.unwrap(), buffer_2.unwrap()));
    }

    for (worker, (buffer_1, buffer_2)) in owners.iter_mut().enumerate() {
        let mark = worker as u8;
        buffer_1.extend_from_slice(&[0x01, 0x03, 0x04, mark]).unwrap();
        buffer_2.extend_from_slice(&[0x10, 0x02, 0x44, mark]).unwrap();
    }

    for (worker, (buffer_1, buffer_2)) in owners.iter().enumerate() {
        let mark = worker as u8;
        assert_eq!(buffer_1.as_ref(), &[0x01, 0x03, 0x04, mark]);
        assert_eq!(buffer_2.as_ref(), &[0x10, 0x02, 0x44, mark]);
    }

    let mut offsets: Vec<usize> = owners
        .iter()
        .flat_map(|(buffer_1, buffer_2)| [buffer_1.offset(), buffer_2.offset()])
        .collect();
    offsets.sort();
    offsets.dedup();
    assert_eq!(offsets.len(), 20);
}
