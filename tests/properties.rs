use byte_dictionary::{
    get_bytes, ByteValues, DictionaryArray, DictionaryError, GenericByteDictionaryBuilder,
};

fn rows(items: &[Option<&str>]) -> Vec<Option<Vec<u8>>> {
    items.iter().map(|o| o.map(|s| s.as_bytes().to_vec())).collect()
}

fn pool(array: &DictionaryArray<impl byte_dictionary::DictionaryKey>) -> Vec<Option<Vec<u8>>> {
    let v = array.values();
    (0..v.len()).map(|i| if v.is_valid(i) { Some(v.value(i).to_vec()) } else { None }).collect()
}

#[test]
fn scenario_abc_null_def_def_abc() {
    let mut b = GenericByteDictionaryBuilder::<u8>::new();
    b.append(b"abc").unwrap();
    b.append_null();
    b.append(b"def").unwrap();
    b.append(b"def").unwrap();
    b.append(b"abc").unwrap();
    let a = b.finish();
    assert_eq!(a.keys(), &vec![Some(0u8), None, Some(1), Some(1), Some(0)]);
    assert_eq!(pool(&a), rows(&[Some("abc"), Some("def")]));
}

#[test]
fn distinct_values_stored_once_with_one_key_each() {
    let input = ["x", "y", "x", "z", "y", "x", "w"];
    let mut b = GenericByteDictionaryBuilder::<i32>::new();
    let keys: Vec<i32> = input.iter().map(|s| b.append(s.as_bytes()).unwrap()).collect();
    assert_eq!(keys, vec![0, 1, 0, 2, 1, 0, 3]);
    let a = b.finish();
    assert_eq!(a.values().len(), 4);
    assert_eq!(pool(&a), rows(&[Some("x"), Some("y"), Some("z"), Some("w")]));
}

#[test]
fn slots_follow_first_seen_order_after_seed() {
    let mut seed = ByteValues::new();
    seed.append_value(b"q");
    seed.append_value(b"p");
    let mut b = GenericByteDictionaryBuilder::<u16>::new_with_dictionary(0, &seed).unwrap();
    for s in ["m", "p", "n", "m", "q", "o"] {
        b.append_value(s.as_bytes());
    }
    let a = b.finish();
    assert_eq!(pool(&a), rows(&[Some("q"), Some("p"), Some("m"), Some("n"), Some("o")]));
    assert_eq!(a.keys(), &vec![Some(2u16), Some(1), Some(3), Some(2), Some(0), Some(4)]);
}

#[test]
fn round_trip_reproduces_rows() {
    let input = [Some("a"), None, Some("bb"), Some("a"), None, Some(""), Some("bb")];
    let items: Vec<Option<&[u8]>> = input.iter().map(|o| o.map(|s| s.as_bytes())).collect();
    let mut b = GenericByteDictionaryBuilder::<i8>::new();
    b.extend(&items);
    assert_eq!(b.len(), 7);
    let a = b.finish();
    assert_eq!(a.logical_values(), rows(&input));
    assert_eq!(b.len(), 0);
}

#[test]
fn append_n_matches_repeated_append() {
    let mut one = GenericByteDictionaryBuilder::<u32>::new();
    one.append(b"k").unwrap();
    assert_eq!(one.append_n(b"v", 4).unwrap(), 1);
    let mut many = GenericByteDictionaryBuilder::<u32>::new();
    many.append(b"k").unwrap();
    for _ in 0..4 {
        many.append(b"v").unwrap();
    }
    let a = one.finish();
    let m = many.finish();
    assert_eq!(a.keys(), m.keys());
    assert_eq!(a.keys(), &vec![Some(0u32), Some(1), Some(1), Some(1), Some(1)]);
    assert_eq!(pool(&a), pool(&m));
}

#[test]
fn append_n_zero_times_still_stores_value() {
    let mut b = GenericByteDictionaryBuilder::<u32>::new();
    assert_eq!(b.append_n(b"v", 0).unwrap(), 0);
    assert_eq!(b.len(), 0);
    let a = b.finish();
    assert_eq!(pool(&a), rows(&[Some("v")]));
}

#[test]
fn overflow_on_first_value_past_key_range() {
    let mut b = GenericByteDictionaryBuilder::<u8>::new();
    for i in 0..256u32 {
        assert_eq!(b.append(format!("{}", i).as_bytes()).unwrap() as u32, i);
    }
    assert_eq!(b.append(b"256"), Err(DictionaryError::KeyOverflow));
    assert_eq!(b.len(), 256);
    // The failed value keeps its slot and keeps failing.
    assert_eq!(b.append(b"256"), Err(DictionaryError::KeyOverflow));
    // Values already known never overflow.
    assert_eq!(b.append(b"255").unwrap(), 255);
    assert_eq!(b.append(b"0").unwrap(), 0);
    let a = b.finish();
    assert_eq!(a.values().len(), 257);
    assert_eq!(a.len(), 258);
}

#[test]
fn signed_key_overflows_at_half_range() {
    let mut b = GenericByteDictionaryBuilder::<i8>::new();
    for i in 0..128 {
        b.append(format!("v{}", i).as_bytes()).unwrap();
    }
    assert_eq!(b.append(b"v128"), Err(DictionaryError::KeyOverflow));
    assert_eq!(b.append_n(b"v129", 3), Err(DictionaryError::KeyOverflow));
    assert_eq!(b.len(), 128);
}

#[test]
fn seed_longer_than_key_range_is_refused() {
    let mut seed = ByteValues::new();
    for i in 0..256 {
        seed.append_value(format!("{}", i).as_bytes());
    }
    assert!(matches!(
        GenericByteDictionaryBuilder::<u8>::new_with_dictionary(0, &seed),
        Err(DictionaryError::KeyOverflow)
    ));
    assert!(GenericByteDictionaryBuilder::<u16>::new_with_dictionary(0, &seed).is_ok());
}

#[test]
fn seed_keeps_repeats_in_separate_slots() {
    let mut seed = ByteValues::new();
    seed.append_value(b"r");
    seed.append_value(b"r");
    let mut b = GenericByteDictionaryBuilder::<u8>::new_with_dictionary(0, &seed).unwrap();
    assert_eq!(b.append(b"r").unwrap(), 0);
    let a = b.finish();
    assert_eq!(a.values().len(), 2);
}

#[test]
fn merge_matches_replay_through_append_option() {
    let src_rows = [Some("a"), None, Some("b"), Some("a"), Some("c")];
    let src = {
        let mut s = GenericByteDictionaryBuilder::<i16>::new();
        for r in src_rows {
            s.append_option(r.map(|x| x.as_bytes()));
        }
        s.finish()
    };
    let mut merged = GenericByteDictionaryBuilder::<i16>::new();
    merged.append(b"c").unwrap();
    merged.append_null();
    merged.extend_dictionary(&src).unwrap();

    let mut replayed = GenericByteDictionaryBuilder::<i16>::new();
    replayed.append(b"c").unwrap();
    replayed.append_null();
    for r in src.logical_values() {
        replayed.append_option(r.as_deref());
    }
    let m = merged.finish();
    let r = replayed.finish();
    assert_eq!(m.logical_values(), r.logical_values());
    assert_eq!(
        m.logical_values(),
        rows(&[Some("c"), None, Some("a"), None, Some("b"), Some("a"), Some("c")])
    );
}

#[test]
fn merge_of_values_without_keys_is_refused() {
    let mut values = ByteValues::new();
    values.append_value(b"a");
    let d = DictionaryArray::<i32>::from_parts(Vec::new(), values);
    let mut b = GenericByteDictionaryBuilder::<i32>::new();
    b.append(b"z").unwrap();
    assert_eq!(b.extend_dictionary(&d), Err(DictionaryError::InvalidArgument));
    let a = b.finish();
    assert_eq!(a.len(), 1);
    assert_eq!(a.values().len(), 1);
}

#[test]
fn merge_of_empty_dictionary_changes_nothing() {
    let d = DictionaryArray::<i32>::from_parts(Vec::new(), ByteValues::new());
    let mut b = GenericByteDictionaryBuilder::<i32>::new();
    assert_eq!(b.extend_dictionary(&d), Ok(()));
    assert_eq!(b.len(), 0);
}

#[test]
fn merge_clamps_out_of_range_keys_to_last_value() {
    let mut values = ByteValues::new();
    values.append_value(b"first");
    values.append_value(b"last");
    let d = DictionaryArray::<i32>::from_parts(vec![Some(7), Some(-1), Some(0), None], values);
    let mut b = GenericByteDictionaryBuilder::<i32>::new();
    b.extend_dictionary(&d).unwrap();
    let a = b.finish();
    assert_eq!(a.logical_values(), rows(&[Some("last"), Some("last"), Some("first"), None]));
    assert_eq!(a.keys(), &vec![Some(1), Some(1), Some(0), None]);
}

#[test]
fn merge_overflow_adds_no_rows() {
    let mut b = GenericByteDictionaryBuilder::<u8>::new();
    for i in 0..250 {
        b.append(format!("d{}", i).as_bytes()).unwrap();
    }
    let src = {
        let mut s = GenericByteDictionaryBuilder::<u8>::new();
        for i in 0..10 {
            s.append(format!("s{}", i).as_bytes()).unwrap();
        }
        s.finish()
    };
    assert_eq!(b.extend_dictionary(&src), Err(DictionaryError::KeyOverflow));
    assert_eq!(b.len(), 250);
}

#[test]
fn append_options_and_nulls() {
    let mut b = GenericByteDictionaryBuilder::<u64>::default();
    b.append_options(None, 2);
    b.append_options(Some(b"s"), 3);
    b.append_nulls(1);
    b.append_values(b"t", 2);
    let a = b.finish();
    assert_eq!(a.keys(), &vec![None, None, Some(0u64), Some(0), Some(0), None, Some(1), Some(1)]);
}

#[test]
fn validity_bitmap_of_staged_rows() {
    let mut b = GenericByteDictionaryBuilder::<u16>::with_capacity(4, 4, 16);
    b.append(b"a").unwrap();
    assert_eq!(b.validity_slice(), None);
    b.append_null();
    for _ in 0..7 {
        b.append(b"a").unwrap();
    }
    assert_eq!(b.validity_slice(), Some(vec![0b1111_1101u8, 0b0000_0001]));
    b.finish();
    assert_eq!(b.validity_slice(), None);
}

#[test]
fn finish_cloned_keeps_builder_state() {
    let mut b = GenericByteDictionaryBuilder::<i64>::new();
    b.append(b"one").unwrap();
    b.append(b"two").unwrap();
    let snapshot = b.finish_cloned();
    assert_eq!(b.append(b"two").unwrap(), 1);
    assert_eq!(b.append(b"three").unwrap(), 2);
    assert_eq!(snapshot.keys(), &vec![Some(0i64), Some(1)]);
    let a = b.finish();
    assert_eq!(a.keys(), &vec![Some(0i64), Some(1), Some(1), Some(2)]);
    assert_eq!(b.append(b"three").unwrap(), 0);
}

#[test]
fn get_bytes_reads_slot_contents() {
    let mut v = ByteValues::new();
    v.append_value(b"xy");
    v.append_null();
    v.append_value(b"");
    v.append_value(b"zzz");
    assert_eq!(get_bytes(&v, 0), b"xy");
    assert_eq!(get_bytes(&v, 2), b"");
    assert_eq!(get_bytes(&v, 3), b"zzz");
    assert!(!v.is_valid(1));
    assert_eq!(v.byte_count(), 5);
}
