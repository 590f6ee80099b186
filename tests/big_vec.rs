use stake_pool::big_vec::{BigVec, BigVecError};

fn from_slice(data: Vec<u8>, values: &[u64]) -> BigVec {
    let mut big_vec = BigVec { data };
    for value in values {
        big_vec.push(*value).unwrap();
    }
    big_vec
}

fn from_slice_in_order(data: Vec<u8>, values: &[u64]) -> BigVec {
    let mut big_vec = BigVec { data };
    for value in values {
        big_vec.insert_in_order(value).unwrap();
    }
    big_vec
}

fn stored(big_vec: &BigVec) -> Vec<u64> {
    let mut out = Vec::new();
    let mut it = big_vec.iter::<u64>();
    while let Some(v) = it.next() {
        out.push(v);
    }
    out
}

fn check_big_vec_eq(big_vec: &BigVec, slice: &[u64]) {
    assert!(stored(big_vec)
        .iter()
        .zip(slice.iter())
        .all(|(a, b)| a == b));
}

fn mod_2_predicate(data: &[u8]) -> bool {
    let mut bytes = [0u8; 8];
    bytes.copy_from_slice(data);
    u64::from_le_bytes(bytes) % 2 == 0
}

#[test]
fn push() {
    let mut v = BigVec { data: vec![0u8; 4 + 8 * 3] };
    v.push(1u64).unwrap();
    check_big_vec_eq(&v, &[1]);
    v.push(2u64).unwrap();
    check_big_vec_eq(&v, &[1, 2]);
    v.push(3u64).unwrap();
    check_big_vec_eq(&v, &[1, 2, 3]);
    assert_eq!(v.push(4u64).unwrap_err(), BigVecError::CapacityExceeded);
}

#[test]
fn retain() {
    let mut v = from_slice(vec![0u8; 4 + 8 * 4], &[1, 2, 3, 4]);
    v.retain::<u64, _>(mod_2_predicate).unwrap();
    check_big_vec_eq(&v, &[2, 4]);
}

#[test]
fn check_in_order() {
    let mut array = [6u64, 2, 8, 4];
    let v = from_slice_in_order(vec![0u8; 4 + 8 * 4], &array);
    array.sort();
    for (i, item) in array.iter().enumerate() {
        println!("{}:{}", i, item);
        assert_eq!(v.get::<u64>(i).unwrap(), *item);
    }
}

#[test]
fn find() {
    let v = from_slice(vec![0u8; 4 + 8 * 4], &[1, 2, 3, 4]);
    assert_eq!(v.find::<u64>(&1u64), Some(1));
    assert_eq!(v.find::<u64>(&4u64), Some(4));
    assert_eq!(v.find::<u64>(&5u64), None);
}

#[test]
fn find_mut() {
    let mut v = from_slice(vec![0u8; 4 + 8 * 4], &[1, 2, 3, 4]);
    let index = v.find_mut::<u64>(&1u64).unwrap();
    v.set(index, &0u64).unwrap();
    check_big_vec_eq(&v, &[0, 2, 3, 4]);
    assert_eq!(v.find_mut::<u64>(&5u64), None);
}

#[test]
fn deserialize_mut_slice() {
    let mut v = from_slice(vec![0u8; 4 + 8 * 4], &[1, 2, 3, 4]);
    let slice = v.deserialize_mut_slice(1, 2).unwrap();
    v.set(slice[0], &10u64).unwrap();
    v.set(slice[1], &11u64).unwrap();
    check_big_vec_eq(&v, &[1, 10, 11, 4]);
    assert_eq!(
        v.deserialize_mut_slice(1, 4).unwrap_err(),
        BigVecError::IndexOutOfRange
    );
    assert_eq!(
        v.deserialize_mut_slice(4, 1).unwrap_err(),
        BigVecError::IndexOutOfRange
    );
}

#[test]
fn pushes_keep_order_and_count() {
    let values = [7u64, 3, 300, 1 << 40, u64::MAX];
    let v = from_slice(vec![0u8; 4 + 8 * 5], &values);
    assert_eq!(v.len(), 5);
    assert_eq!(stored(&v), values.to_vec());
}

#[test]
fn layout_is_count_then_little_endian_records() {
    let v = from_slice(vec![0u8; 4 + 8 * 2], &[0x0102, 5]);
    assert_eq!(&v.data[0..4], &[2, 0, 0, 0]);
    assert_eq!(&v.data[4..12], &[2, 1, 0, 0, 0, 0, 0, 0]);
    assert_eq!(&v.data[12..20], &[5, 0, 0, 0, 0, 0, 0, 0]);
}

#[test]
fn is_empty_tracks_length() {
    let mut v = BigVec { data: vec![0u8; 4 + 8] };
    assert!(v.is_empty());
    assert_eq!(v.len(), 0);
    v.push(9u64).unwrap();
    assert!(!v.is_empty());
    assert_eq!(v.len(), 1);
}

#[test]
fn push_when_full_leaves_buffer_unchanged() {
    let mut v = from_slice(vec![0u8; 4 + 8 * 2], &[11, 12]);
    let before = v.data.clone();
    assert_eq!(v.push(13u64), Err(BigVecError::CapacityExceeded));
    assert_eq!(v.data, before);
    assert_eq!(v.len(), 2);
}

#[test]
fn push_into_buffer_with_only_the_count() {
    let mut v = BigVec { data: vec![0u8; 4 + 7] };
    assert_eq!(v.push(1u64), Err(BigVecError::CapacityExceeded));
    assert_eq!(v.len(), 0);
}

#[test]
fn retain_uneven_runs() {
    let mut v = from_slice(vec![0u8; 4 + 8 * 8], &[2, 4, 1, 6, 8, 10, 3, 5]);
    v.retain::<u64, _>(mod_2_predicate).unwrap();
    assert_eq!(v.len(), 5);
    assert_eq!(stored(&v), vec![2, 4, 6, 8, 10]);
}

#[test]
fn retain_none_and_all() {
    let mut v = from_slice(vec![0u8; 4 + 8 * 3], &[1, 3, 5]);
    v.retain::<u64, _>(mod_2_predicate).unwrap();
    assert!(v.is_empty());
    let mut w = from_slice(vec![0u8; 4 + 8 * 3], &[2, 4, 6]);
    w.retain::<u64, _>(mod_2_predicate).unwrap();
    assert_eq!(stored(&w), vec![2, 4, 6]);
}

#[test]
fn retain_on_empty() {
    let mut v = BigVec { data: vec![0u8; 4] };
    v.retain::<u64, _>(mod_2_predicate).unwrap();
    assert_eq!(v.len(), 0);
}

#[test]
fn insert_duplicate_is_refused() {
    let mut v = from_slice_in_order(vec![0u8; 4 + 8 * 4], &[6, 2, 8]);
    let before = v.data.clone();
    assert_eq!(v.insert_in_order(&6u64), Err(BigVecError::DuplicateKey));
    assert_eq!(v.data, before);
    assert_eq!(stored(&v), vec![2, 6, 8]);
}

#[test]
fn insert_without_room_is_refused() {
    let mut v = from_slice_in_order(vec![0u8; 4 + 8 * 2], &[5, 1]);
    let before = v.data.clone();
    assert_eq!(v.insert_in_order(&3u64), Err(BigVecError::CapacityExceeded));
    assert_eq!(v.data, before);
    assert_eq!(v.insert_in_order(&5u64), Err(BigVecError::DuplicateKey));
}

#[test]
fn insert_orders_by_value_not_bytes() {
    let v = from_slice_in_order(vec![0u8; 4 + 8 * 3], &[256, 1, 255]);
    assert_eq!(stored(&v), vec![1, 255, 256]);
}

#[test]
fn get_past_end() {
    let v = from_slice(vec![0u8; 4 + 8 * 2], &[1, 2]);
    assert_eq!(v.get::<u64>(1), Some(2));
    assert_eq!(v.get::<u64>(2), None);
}

#[test]
fn set_past_end() {
    let mut v = from_slice(vec![0u8; 4 + 8 * 3], &[1, 2]);
    assert_eq!(v.set(2, &7u64), Err(BigVecError::IndexOutOfRange));
    assert_eq!(stored(&v), vec![1, 2]);
}

#[test]
fn iter_mut_overwrites_each_record() {
    let mut v = from_slice(vec![0u8; 4 + 8 * 3], &[1, 2, 3]);
    {
        let mut it = v.iter_mut::<u64>();
        while let Some(i) = it.next() {
            let x = it.get(i).unwrap();
            it.set(i, &(x * 10)).unwrap();
        }
    }
    assert_eq!(stored(&v), vec![10, 20, 30]);
}

#[test]
fn deserialize_mut_slice_whole_and_empty() {
    let v = from_slice(vec![0u8; 4 + 8 * 2], &[1, 2]);
    assert_eq!(v.deserialize_mut_slice(0, 2).unwrap(), vec![0, 1]);
    assert_eq!(v.deserialize_mut_slice(2, 0).unwrap(), Vec::<usize>::new());
    assert_eq!(
        v.deserialize_mut_slice(usize::MAX, 2),
        Err(BigVecError::IndexOutOfRange)
    );
}
