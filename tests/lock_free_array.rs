use lock_free_bloomfilter::lock_free_array::LockFreeBitArray;

#[test]
fn test_lock_free_bit_array() {
    let bits_size = 7282;
    let mut bit_array = LockFreeBitArray::new(bits_size);
    assert_eq!(bit_array.get_bit_count(), 0);
    println!("{:?}", bit_array.get_bit_size());
    assert_eq!(bit_array.get_bit_size(), (64 * (bits_size as f64 / 64.0f64).ceil() as u64));
    for i in 0..bit_array.get_bit_size() as usize {
        bit_array.set(i);
        assert!(bit_array.get(i));
        for j in (i + 1)..bit_array.get_bit_size() as usize {
            assert!(bit_array.get(j) == false);
        }
    }
}

#[test]
fn bit_size_rounds_up_to_whole_words() {
    assert_eq!(LockFreeBitArray::new(1).get_bit_size(), 64);
    assert_eq!(LockFreeBitArray::new(63).get_bit_size(), 64);
    assert_eq!(LockFreeBitArray::new(64).get_bit_size(), 64);
    assert_eq!(LockFreeBitArray::new(65).get_bit_size(), 128);
    assert_eq!(LockFreeBitArray::new(959).get_bit_size(), 960);
}

#[test]
fn fresh_array_is_empty() {
    let a = LockFreeBitArray::new(200);
    assert_eq!(a.get_bit_count(), 0);
    for i in 0..a.get_bit_size() as usize {
        assert!(!a.get(i));
    }
}

#[test]
fn second_set_of_a_bit_reports_false() {
    let mut a = LockFreeBitArray::new(128);
    assert!(a.set(70));
    assert!(a.get(70));
    assert!(!a.set(70));
    assert!(!a.set(70));
    assert!(a.get(70));
    assert_eq!(a.get_bit_count(), 1);
}

#[test]
fn set_leaves_neighbouring_bits() {
    let mut a = LockFreeBitArray::new(128);
    assert!(a.set(63));
    assert!(!a.get(62));
    assert!(!a.get(64));
    assert!(!a.get(127));
    assert!(!a.get(0));
    assert!(a.set(64));
    assert!(a.get(63));
    assert!(a.get(64));
    assert_eq!(a.get_bit_count(), 2);
}

#[test]
fn distinct_sets_are_counted_once_each() {
    let mut a = LockFreeBitArray::new(1000);
    let indices = [999usize, 0, 512, 1, 63, 64, 65, 700];
    for &i in indices.iter() {
        assert!(a.set(i));
    }
    for &i in indices.iter() {
        assert!(!a.set(i));
    }
    assert_eq!(a.get_bit_count(), indices.len());
    for &i in indices.iter() {
        assert!(a.get(i));
    }
    assert!(!a.get(2));
}

#[test]
fn every_bit_set_counts_the_whole_array() {
    let mut a = LockFreeBitArray::new(130);
    let size = a.get_bit_size() as usize;
    assert_eq!(size, 192);
    for i in (0..size).rev() {
        assert!(a.set(i));
    }
    assert_eq!(a.get_bit_count(), 192);
}
