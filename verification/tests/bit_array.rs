use toggle_solver::bit_array::BitArray;

#[test]
fn new_array_is_all_off() {
    let v = BitArray::new(13);
    assert_eq!(v.len(), 13);
    for i in 0..13 {
        assert!(!v.get(i));
    }
}

#[test]
fn empty_array_has_no_bits() {
    let v = BitArray::new(0);
    assert_eq!(v.len(), 0);
    assert_eq!(v.to_base64(), "");
}

#[test]
fn set_then_get_returns_the_bit() {
    let mut v = BitArray::new(20);
    for i in 0..20 {
        v.set(i, true);
        assert!(v.get(i));
        v.set(i, false);
        assert!(!v.get(i));
    }
}

#[test]
fn set_leaves_other_bits_alone() {
    let mut v = BitArray::new(20);
    v.set(3, true);
    v.set(17, true);
    v.set(9, true);
    v.set(9, false);
    for j in 0..20 {
        assert_eq!(v.get(j), j == 3 || j == 17);
    }
}

#[test]
fn bits_are_packed_least_significant_first() {
    let mut v = BitArray::new(16);
    v.set(0, true);
    v.set(9, true);
    let w = BitArray::from(&[0b0000_0001, 0b0000_0010]);
    assert_eq!(v, w);
}

#[test]
fn from_bytes_has_eight_bits_a_byte() {
    let v = BitArray::from(&[0x05, 0x80]);
    assert_eq!(v.len(), 16);
    let on: Vec<usize> = (0..16).filter(|i| v.get(*i)).collect();
    assert_eq!(on, vec![0, 2, 15]);
}

#[test]
fn equal_bits_give_equal_keys() {
    let mut a = BitArray::new(11);
    let mut b = BitArray::new(11);
    a.set(10, true);
    a.set(2, true);
    b.set(2, true);
    b.set(5, true);
    b.set(10, true);
    b.set(5, false);
    assert_eq!(a.to_base64(), b.to_base64());
    assert_eq!(a, b);
}

#[test]
fn any_differing_bit_gives_another_key() {
    let base = BitArray::new(11);
    for i in 0..11 {
        let mut other = BitArray::new(11);
        other.set(i, true);
        assert_ne!(base.to_base64(), other.to_base64());
    }
}

#[test]
fn key_is_the_base64_text_of_the_bytes() {
    let v = BitArray::from(b"hello world");
    assert_eq!(v.to_base64(), "aGVsbG8gd29ybGQ=");
    let mut w = BitArray::new(3);
    w.set(0, true);
    assert_eq!(w.to_base64(), "AQ==");
}

#[test]
fn resize_appends_bits_that_are_off() {
    let mut v = BitArray::new(5);
    v.set(4, true);
    v.resize(19);
    assert_eq!(v.len(), 19);
    for j in 0..19 {
        assert_eq!(v.get(j), j == 4);
    }
    v.set(18, true);
    assert!(v.get(18));
}

#[test]
fn resize_to_a_smaller_length_changes_nothing() {
    let mut v = BitArray::new(12);
    v.set(11, true);
    v.resize(3);
    assert_eq!(v.len(), 12);
    assert!(v.get(11));
}

#[test]
fn clone_has_the_same_bits() {
    let mut v = BitArray::new(9);
    v.set(8, true);
    let w = v.clone();
    assert_eq!(v, w);
    assert!(w.get(8));
}

#[test]
fn text_of_a_bit_array() {
    let mut v = BitArray::new(3);
    v.set(0, true);
    assert_eq!(v.render(), "output: 0000 \n");
    let w = BitArray::from(&[0x81, 0x01]);
    assert_eq!(w.render(), "output: 10000001 00000001 \n");
}
