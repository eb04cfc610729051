use ringbuffer::ringbuffer_fixed::{Fixed, RingError};

#[test]
fn test_boxed_slice() {
    let mut rb = Fixed::from(vec![0; 3].into_boxed_slice()).unwrap();
    assert_eq!(rb.push(1), 0);
    assert_eq!(rb.push(2), 0);
    assert_eq!(rb.push(3), 0);
    assert_eq!(rb.push(4), 1);
}

#[test]
fn test_array() {
    let mut rb = Fixed::from([0i32; 3]).unwrap();
    assert_eq!(rb.push(1), 0);
    assert_eq!(rb.push(2), 0);
    assert_eq!(rb.push(3), 0);
    assert_eq!(rb.push(4), 1);
}

#[test]
#[should_panic]
fn test_from_empty_vec() {
    let _ = Fixed::from(Vec::<i32>::new()).unwrap();
}

#[test]
fn test_from_vec() {
    let mut rb = Fixed::from(vec![1, 2, 3]).unwrap();
    assert_eq!(rb.push(4), 1);
    assert_eq!(rb.push(5), 2);
    assert_eq!(rb.push(6), 3);
    assert_eq!(rb.push(7), 4);
}

#[test]
fn test_get_out_of_range() {
    let rb = Fixed::from([0i32; 3]).unwrap();
    assert!(rb.get_checked(10).is_none());
}

#[test]
fn eviction_fifo_full_revolution() {
    // Pushing as many new elements as the ring holds evicts the old
    // contents exactly, oldest first.
    let mut rb = Fixed::from(vec![10, 20, 30, 40]).unwrap();
    let mut evicted = Vec::new();
    for item in [50, 60, 70, 80] {
        evicted.push(rb.push(item));
    }
    assert_eq!(evicted, vec![10, 20, 30, 40]);
    assert_eq!(rb.iter(), vec![50, 60, 70, 80]);
}

#[test]
fn push_shifts_logical_positions() {
    let mut rb = Fixed::from(vec![1, 2, 3]).unwrap();
    rb.push(9);
    assert_eq!(*rb.get(0), 2);
    assert_eq!(*rb.get(1), 3);
    assert_eq!(*rb.get(2), 9);
}

#[test]
fn slices_concat_matches_iter_for_every_first() {
    for first in 0..4usize {
        let rb = Fixed::from_raw_parts(first, vec![1, 2, 3, 4]).unwrap();
        let (start, end) = rb.slices();
        let mut joined = start.to_vec();
        joined.extend_from_slice(end);
        assert_eq!(joined, rb.iter());
    }
}

#[test]
fn raw_parts_round_trip() {
    let rb = Fixed::from_raw_parts(2, vec![7, 8, 9]).unwrap();
    let (first, storage) = rb.into_raw_parts();
    assert_eq!(first, 2);
    assert_eq!(storage, vec![7, 8, 9]);

    let rb = Fixed::from_raw_parts_unchecked(1, vec![4, 5]);
    assert_eq!(rb.into_raw_parts(), (1, vec![4, 5]));
}

#[test]
fn degenerate_ring_is_rejected() {
    assert_eq!(Fixed::from(Vec::<u8>::new()).unwrap_err(), RingError::ZeroCapacity);
    assert_eq!(
        Fixed::from_raw_parts(0, Vec::<u8>::new()).unwrap_err(),
        RingError::ZeroCapacity
    );
    assert_eq!(
        Fixed::from_raw_parts(3, vec![1, 2, 3]).unwrap_err(),
        RingError::FirstOutOfRange
    );
}

#[test]
fn boundary_access() {
    let mut rb = Fixed::from(vec![1, 2, 3]).unwrap();
    rb.push(4);
    assert_eq!(rb.get_checked(2), Some(&4));
    assert_eq!(rb.get_checked(3), None);
}

#[test]
fn capacity_three_scenario() {
    let mut rb = Fixed::from(vec![1, 2, 3]).unwrap();
    assert_eq!(rb.push(4), 1);
    assert_eq!(rb.iter(), vec![2, 3, 4]);
    assert_eq!(rb.push(5), 2);
    assert_eq!(rb.iter(), vec![3, 4, 5]);
    assert_eq!(rb.push(6), 3);
    assert_eq!(rb.iter(), vec![4, 5, 6]);
    assert_eq!(rb.push(7), 4);
    assert_eq!(rb.iter(), vec![5, 6, 7]);
}

#[test]
fn get_mut_rewrites_one_position() {
    let mut rb = Fixed::from_raw_parts(1, vec![1, 2, 3]).unwrap();
    *rb.get_mut(0) = 20;
    assert_eq!(rb.iter(), vec![20, 3, 1]);
}

#[test]
fn set_first_reinterprets_contents() {
    let mut rb = Fixed::from(vec![1, 2, 3, 4]).unwrap();
    rb.set_first(2);
    assert_eq!(rb.iter(), vec![3, 4, 1, 2]);
    rb.set_first(5);
    assert_eq!(rb.iter(), vec![2, 3, 4, 1]);
}

#[test]
fn iter_loop_cycles() {
    let rb = Fixed::from_raw_parts(1, vec![1, 2, 3]).unwrap();
    assert_eq!(rb.iter_loop(7), vec![2, 3, 1, 2, 3, 1, 2]);
    assert_eq!(rb.iter_loop(0), Vec::<i32>::new());
}

#[test]
fn extend_discards_evicted() {
    let mut rb = Fixed::from(vec![1, 2, 3]).unwrap();
    rb.extend(&[4, 5]);
    assert_eq!(rb.iter(), vec![3, 4, 5]);
}

#[test]
fn slices_mut_writes_land_logically() {
    let mut rb = Fixed::from_raw_parts(2, vec![1, 2, 3]).unwrap();
    {
        let (start, end) = rb.slices_mut();
        start[0] = 30;
        end[1] = 20;
    }
    assert_eq!(rb.iter(), vec![30, 1, 20]);
}

#[test]
fn borrowed_mut_view_storage() {
    let mut data = [1i32, 2, 3];
    {
        let mut rb = Fixed::from(&mut data[..]).unwrap();
        assert_eq!(rb.push(4), 1);
        assert_eq!(rb.iter(), vec![2, 3, 4]);
    }
    assert_eq!(data, [4, 2, 3]);
}

#[test]
fn from_fill_builds_by_eviction() {
    let mut rb = Fixed::from_fill(0i32, 3).unwrap();
    assert_eq!(rb.iter(), vec![0, 0, 0]);
    rb.extend(&[1, 2, 3]);
    assert_eq!(rb.iter(), vec![1, 2, 3]);
    assert_eq!(Fixed::from_fill(7u8, 0).unwrap_err(), RingError::ZeroCapacity);
}

#[test]
fn eviction_fifo_partial() {
    let mut rb = Fixed::from(vec![1, 2, 3, 4]).unwrap();
    assert_eq!(rb.push(9), 1);
    assert_eq!(rb.push(8), 2);
    assert_eq!(rb.iter(), vec![3, 4, 9, 8]);
}

#[test]
fn borrowed_view_storage() {
    let data = [5i32, 6, 7];
    let rb = Fixed::from(&data[..]).unwrap();
    assert_eq!(rb.len(), 3);
    assert_eq!(*rb.get(1), 6);
    let (start, end) = rb.slices();
    assert_eq!(start, &[5, 6, 7]);
    assert!(end.is_empty());
}
