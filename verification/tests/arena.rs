use lobster::arena::OrderArena;

#[test]
fn growing_arena() {
    // All the integer casting below is necessary because we are using the
    // indices to compute the prices. It's a contrived example and the size
    // casts do not result in overflows.
    //
    // This test also addresses a bug that only occurred after all the
    // pre-allocated limit orders were used. The new limit orders would be
    // created with a swapped quantity and price, which unfortunately have
    // the same type (u64) and the compiler could not catch that bug.
    for capacity in 0_u64..30 {
        let mut arena = OrderArena::new(capacity as usize);
        for i in 0_u64..capacity {
            arena.insert(i as u128, i * 100 + i, 2 * i);
        }
        for i in 0_u64..capacity {
            assert_eq!(
                arena.get_full(i as u128),
                Some((i * 100 + i, 2 * i, (capacity - i) as usize - 1))
            );
        }
        for i in capacity..2 * capacity {
            assert_eq!(arena.get_full(i as u128), None);
        }
        for i in capacity..2 * capacity {
            arena.insert(i as u128, i * 100 + i, 2 * i);
        }
        for i in 0..capacity {
            assert_eq!(
                arena.get_full(i as u128),
                Some((i * 100 + i, 2 * i, (capacity - i) as usize - 1))
            );
        }
        for i in capacity..2 * capacity {
            assert_eq!(arena.get_full(i as u128), Some((i * 100 + i, 2 * i, i as usize,)));
        }
    }
}

#[test]
fn arena_delete_frees_slot() {
    let mut arena = OrderArena::new(2);
    let h = arena.insert(7, 500, 3);
    assert_eq!(arena.get(7), Some((500, h)));
    assert!(arena.delete(&7));
    assert_eq!(arena.get(7), None);
    assert!(!arena.delete(&7));
    // The freed slot is reused by the next insertion.
    let h2 = arena.insert(8, 501, 4);
    assert_eq!(h2, h);
    assert_eq!(arena.get_full(8), Some((501, 4, h)));
}
