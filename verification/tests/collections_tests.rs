use fruity::encodable::Encodable;
use fruity::encodable_vec::EncodableVec;
use fruity::runtime_tuple::RuntimeTuple;

fn encoded<T: Encodable>(value: T) -> Vec<u8> {
    let mut bytes = vec![0u8; value.encode_size()];
    value.encode(&mut bytes);
    bytes
}

fn entries(vec: &EncodableVec) -> Vec<Vec<u8>> {
    let mut res = Vec::new();
    let mut it = vec.iter();
    while let Some(bytes) = it.next() {
        res.push(bytes.to_vec());
    }
    res
}

#[test]
fn integers_encode_little_endian() {
    assert_eq!(encoded(0xABu8), vec![0xAB]);
    assert_eq!(encoded(0x1234u16), vec![0x34, 0x12]);
    assert_eq!(encoded(0x0102_0304u32), vec![0x04, 0x03, 0x02, 0x01]);
    assert_eq!(encoded(0x0102_0304_0506_0708u64), vec![8, 7, 6, 5, 4, 3, 2, 1]);
    assert_eq!(encoded(u64::MAX), vec![0xFF; 8]);
}

#[test]
fn encodable_vec_push_get_len() {
    let mut vec = EncodableVec::new();
    assert_eq!(vec.len(), 0);
    assert!(vec.get(0).is_none());
    vec.push(7u8);
    vec.push(0x0201u16);
    vec.push(5u32);
    assert_eq!(vec.len(), 3);
    assert_eq!(vec.get(0).unwrap(), &[7u8][..]);
    assert_eq!(vec.get(1).unwrap(), &[1u8, 2][..]);
    assert_eq!(vec.get(2).unwrap(), &[5u8, 0, 0, 0][..]);
    assert!(vec.get(3).is_none());
}

#[test]
fn encodable_vec_push_then_remove_restores() {
    let mut vec = EncodableVec::new();
    vec.push(1u8);
    vec.push(2u16);
    let before = entries(&vec);
    vec.push(9u32);
    assert_eq!(vec.get(2).unwrap(), &[9u8, 0, 0, 0][..]);
    vec.remove(2);
    assert_eq!(entries(&vec), before);
}

#[test]
fn encodable_vec_remove_moves_the_following_entries_down() {
    let mut vec = EncodableVec::new();
    vec.push(1u8);
    vec.push(0x0302u16);
    vec.push(4u8);
    vec.remove(1);
    assert_eq!(entries(&vec), vec![vec![1u8], vec![4u8]]);
    vec.remove(0);
    assert_eq!(entries(&vec), vec![vec![4u8]]);
}

#[test]
fn encodable_vec_replace_same_size_only() {
    let mut vec = EncodableVec::new();
    vec.push(1u16);
    vec.push(2u8);
    assert!(vec.replace(0, &0x0A0Bu16));
    assert_eq!(entries(&vec), vec![vec![0x0B, 0x0A], vec![2u8]]);
    assert!(!vec.replace(0, &3u8));
    assert!(!vec.replace(5, &3u16));
    assert_eq!(entries(&vec), vec![vec![0x0B, 0x0A], vec![2u8]]);
}

#[test]
fn encodable_vec_get_mut_writes_in_place() {
    let mut vec = EncodableVec::new();
    vec.push(1u8);
    vec.push(0u16);
    {
        let bytes = vec.get_mut(1).unwrap();
        bytes[1] = 0x7F;
    }
    assert_eq!(entries(&vec), vec![vec![1u8], vec![0u8, 0x7F]]);
    assert!(vec.get_mut(2).is_none());
}

#[test]
fn encodable_vec_drain_removes_the_range() {
    let mut vec = EncodableVec::new();
    for value in [1u8, 2, 3, 4, 5] {
        vec.push(value);
    }
    vec.drain(1..3);
    assert_eq!(entries(&vec), vec![vec![1u8], vec![4], vec![5]]);
    vec.drain(2..2);
    assert_eq!(vec.len(), 3);
}

#[test]
fn encodable_vec_iter_mut_writes_land_in_the_vec() {
    let mut vec = EncodableVec::new();
    vec.push(7u8);
    vec.push(8u16);
    {
        let mut it = vec.iter_mut();
        let first = it.next().unwrap();
        first[0] = 9;
        let second = it.next().unwrap();
        assert_eq!(second.len(), 2);
        second[1] = 1;
        assert!(it.next().is_none());
    }
    assert_eq!(entries(&vec), vec![vec![9u8], vec![8u8, 1]]);
}

#[test]
fn encodable_vec_iter_ends_with_none() {
    let vec = EncodableVec::new();
    let mut it = vec.iter();
    assert!(it.next().is_none());
    assert!(it.next().is_none());
}

#[test]
fn encodable_vec_iter_gives_each_entry_then_none() {
    let mut vec = EncodableVec::new();
    vec.push(7u8);
    vec.push(9u16);
    let mut it = vec.iter();
    assert_eq!(it.next().map(|b| b.to_vec()), Some(vec![7u8]));
    assert_eq!(it.next().map(|b| b.to_vec()), Some(vec![9u8, 0]));
    assert!(it.next().is_none());
    assert!(it.next().is_none());
}

#[test]
fn runtime_tuple_holds_each_field() {
    let tuple = RuntimeTuple::new(&[1u16, 0x0302u16]);
    assert_eq!(tuple.len(), 2);
    assert_eq!(tuple.get(0).unwrap().buffer, &[1u8, 0][..]);
    assert_eq!(tuple.get(1).unwrap().buffer, &[2u8, 3][..]);
    assert!(tuple.get(2).is_none());
}

#[test]
fn runtime_tuple_get_mut_writes_one_field() {
    let mut tuple = RuntimeTuple::new(&[1u8, 2u8, 3u8]);
    {
        let writer = tuple.get_mut(1).unwrap();
        writer.buffer[0] = 20;
    }
    let mut seen = Vec::new();
    let mut it = tuple.iter();
    while let Some(reader) = it.next() {
        seen.push(reader.buffer.to_vec());
    }
    assert_eq!(seen, vec![vec![1u8], vec![20], vec![3]]);
    assert!(tuple.get_mut(3).is_none());
}
