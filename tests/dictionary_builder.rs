use byte_dictionary::{
    ByteValues, DictionaryArray, DictionaryError, DictionaryKey, GenericByteDictionaryBuilder, KeyType,
};
use std::fmt::Debug;

fn values_of(array: &DictionaryArray<impl DictionaryKey>) -> Vec<Option<Vec<u8>>> {
    let v = array.values();
    (0..v.len()).map(|i| if v.is_valid(i) { Some(v.value(i).to_vec()) } else { None }).collect()
}

fn store_of(items: &[Option<&[u8]>]) -> ByteValues {
    let mut s = ByteValues::new();
    for item in items {
        match item {
            Some(b) => s.append_value(b),
            None => s.append_null(),
        }
    }
    s
}

fn check_bytes_dictionary_builder(values: Vec<&[u8]>) {
    let mut builder = GenericByteDictionaryBuilder::<i8>::new();
    builder.append(values[0]).unwrap();
    builder.append_null();
    builder.append(values[1]).unwrap();
    builder.append(values[1]).unwrap();
    builder.append(values[0]).unwrap();
    let array = builder.finish();

    assert_eq!(array.keys(), &vec![Some(0i8), None, Some(1), Some(1), Some(0)]);
    let ava = array.values();
    assert_eq!(ava.value(0), values[0]);
    assert_eq!(ava.value(1), values[1]);
}

#[test]
fn test_string_dictionary_builder() {
    check_bytes_dictionary_builder(vec!["abc".as_bytes(), "def".as_bytes()]);
}

#[test]
fn test_binary_dictionary_builder() {
    check_bytes_dictionary_builder(vec![b"abc", b"def"]);
}

fn check_finish_cloned(values: Vec<&[u8]>) {
    let mut builder = GenericByteDictionaryBuilder::<i8>::new();
    builder.append(values[0]).unwrap();
    builder.append_null();
    builder.append(values[1]).unwrap();
    builder.append(values[1]).unwrap();
    builder.append(values[0]).unwrap();
    let mut array = builder.finish_cloned();

    assert_eq!(array.keys(), &vec![Some(0i8), None, Some(1), Some(1), Some(0)]);
    let ava = array.values();
    assert_eq!(ava.value(0), values[0]);
    assert_eq!(ava.value(1), values[1]);

    builder.append(values[0]).unwrap();
    builder.append(values[2]).unwrap();
    builder.append(values[1]).unwrap();

    array = builder.finish();
    assert_eq!(
        array.keys(),
        &vec![Some(0i8), None, Some(1), Some(1), Some(0), Some(0), Some(2), Some(1)]
    );
    let ava2 = array.values();
    assert_eq!(ava2.value(0), values[0]);
    assert_eq!(ava2.value(1), values[1]);
    assert_eq!(ava2.value(2), values[2]);
}

#[test]
fn test_string_dictionary_builder_finish_cloned() {
    check_finish_cloned(vec!["abc".as_bytes(), "def".as_bytes(), "ghi".as_bytes()]);
}

#[test]
fn test_binary_dictionary_builder_finish_cloned() {
    check_finish_cloned(vec![b"abc", b"def", b"ghi"]);
}

fn check_rekey<K1, K2>(values: &[&[u8]])
where
    K1: DictionaryKey,
    K2: DictionaryKey + From<u8> + PartialEq + Debug,
{
    let mut source = GenericByteDictionaryBuilder::<K1>::new();
    source.append(values[0]).unwrap();
    source.append(values[1]).unwrap();
    source.append_null();
    source.append(values[2]).unwrap();

    let mut result = GenericByteDictionaryBuilder::<K2>::try_new_from_builder(source).unwrap();
    let array = result.finish();

    let expected: Vec<Option<K2>> = vec![Some(K2::from(0u8)), Some(K2::from(1u8)), None, Some(K2::from(2u8))];
    assert_eq!(array.keys(), &expected);
    let ava = array.values();
    assert_eq!(ava.value(0), values[0]);
    assert_eq!(ava.value(1), values[1]);
    assert_eq!(ava.value(2), values[2]);
}

fn check_try_new_from_builder(values: Vec<&[u8]>) {
    check_rekey::<u8, u16>(&values);
    check_rekey::<u16, u8>(&values);
    check_rekey::<i8, i16>(&values);
    check_rekey::<i32, i16>(&values);
    check_rekey::<u8, i16>(&values);
    check_rekey::<i8, u8>(&values);
    check_rekey::<i8, u16>(&values);
    check_rekey::<i32, i16>(&values);
}

#[test]
fn test_string_dictionary_builder_try_new_from_builder() {
    check_try_new_from_builder(vec!["abc".as_bytes(), "def".as_bytes(), "ghi".as_bytes()]);
}

#[test]
fn test_binary_dictionary_builder_try_new_from_builder() {
    check_try_new_from_builder(vec![b"abc", b"def", b"ghi"]);
}

#[test]
fn test_try_new_from_builder_cast_fails() {
    let mut source_builder = GenericByteDictionaryBuilder::<u16>::new();
    for i in 0..257 {
        source_builder.append_value(format!("val{}", i).as_bytes());
    }

    let result = GenericByteDictionaryBuilder::<u8>::try_new_from_builder(source_builder);
    assert!(result.is_err());
    if let Err(e) = result {
        assert!(matches!(e, DictionaryError::KeyCast { .. }));
        assert_eq!(e, DictionaryError::KeyCast { from: KeyType::UInt16, to: KeyType::UInt8 });
        if let DictionaryError::KeyCast { from, to } = e {
            assert_eq!(
                format!("Cast error: Can't cast dictionary keys from source type {:?} to type {:?}", from, to),
                "Cast error: Can't cast dictionary keys from source type UInt16 to type UInt8"
            );
        }
    }
}

fn check_with_existing_dictionary(dictionary: ByteValues, values: Vec<&[u8]>) {
    let mut builder = GenericByteDictionaryBuilder::<i8>::new_with_dictionary(6, &dictionary).unwrap();
    builder.append(values[0]).unwrap();
    builder.append_null();
    builder.append(values[1]).unwrap();
    builder.append(values[1]).unwrap();
    builder.append(values[0]).unwrap();
    builder.append(values[2]).unwrap();
    let array = builder.finish();

    assert_eq!(array.keys(), &vec![Some(2i8), None, Some(1), Some(1), Some(2), Some(3)]);
    let ava = array.values();
    assert!(!ava.is_valid(0));
    assert_eq!(ava.value(1), values[1]);
    assert_eq!(ava.value(2), values[0]);
    assert_eq!(ava.value(3), values[2]);
}

#[test]
fn test_string_dictionary_builder_with_existing_dictionary() {
    check_with_existing_dictionary(
        store_of(&[None, Some("def".as_bytes()), Some("abc".as_bytes())]),
        vec!["abc".as_bytes(), "def".as_bytes(), "ghi".as_bytes()],
    );
}

#[test]
fn test_binary_dictionary_builder_with_existing_dictionary() {
    check_with_existing_dictionary(
        store_of(&[None, Some(b"def"), Some(b"abc")]),
        vec![b"abc", b"def", b"ghi"],
    );
}

fn check_with_reserved_null_value(dictionary: ByteValues, values: Vec<&[u8]>) {
    let mut builder = GenericByteDictionaryBuilder::<i16>::new_with_dictionary(4, &dictionary).unwrap();
    builder.append(values[0]).unwrap();
    builder.append_null();
    builder.append(values[1]).unwrap();
    builder.append(values[0]).unwrap();
    let array = builder.finish();

    assert!(array.is_null(1));
    assert!(!array.is_valid(1));

    assert_eq!(array.key_value(0), 1);
    assert!(array.is_null(1));
    assert_eq!(array.key_value(1), 0);
    assert_eq!(array.key_value(2), 2);
    assert_eq!(array.key_value(3), 1);
}

#[test]
fn test_string_dictionary_builder_with_reserved_null_value() {
    check_with_reserved_null_value(store_of(&[None]), vec!["abc".as_bytes(), "def".as_bytes()]);
}

#[test]
fn test_binary_dictionary_builder_with_reserved_null_value() {
    check_with_reserved_null_value(store_of(&[None]), vec![b"abc", b"def"]);
}

fn somes<'a>(items: &[&'a str]) -> Vec<Option<&'a [u8]>> {
    items.iter().map(|s| Some(s.as_bytes())).collect()
}

fn rows(items: &[Option<&str>]) -> Vec<Option<Vec<u8>>> {
    items.iter().map(|o| o.map(|s| s.as_bytes().to_vec())).collect()
}

#[test]
fn test_extend() {
    let mut builder = GenericByteDictionaryBuilder::<i32>::new();
    builder.extend(&somes(&["a", "b", "c", "a", "b", "c"]));
    builder.extend(&somes(&["c", "d", "a"]));
    let dict = builder.finish();
    let keys: Vec<i32> = (0..dict.len()).map(|i| dict.key_value(i)).collect();
    assert_eq!(keys, vec![0, 1, 2, 0, 1, 2, 2, 3, 0]);
    assert_eq!(dict.values().len(), 4);
}

#[test]
fn test_extend_dictionary() {
    let some_dict = {
        let mut builder = GenericByteDictionaryBuilder::<i32>::new();
        builder.extend(&somes(&["a", "b", "c", "a", "b", "c"]));
        builder.extend(&[None]);
        builder.extend(&somes(&["c", "d", "a"]));
        builder.append_null();
        builder.finish()
    };

    let mut builder = GenericByteDictionaryBuilder::<i32>::new();
    builder.extend(&somes(&["e", "e", "f", "e", "d"]));
    builder.extend_dictionary(&some_dict).unwrap();
    let dict = builder.finish();

    assert_eq!(dict.values().len(), 6);
    assert_eq!(
        dict.logical_values(),
        rows(&[
            Some("e"),
            Some("e"),
            Some("f"),
            Some("e"),
            Some("d"),
            Some("a"),
            Some("b"),
            Some("c"),
            Some("a"),
            Some("b"),
            Some("c"),
            None,
            Some("c"),
            Some("d"),
            Some("a"),
            None
        ])
    );
}

#[test]
fn test_extend_dictionary_with_null_in_mapped_value() {
    let some_dict = {
        let mut values_builder = ByteValues::new();
        let mut keys: Vec<Option<i32>> = Vec::new();
        values_builder.append_null();
        keys.push(Some(0));
        values_builder.append_value("I like worm hugs".as_bytes());
        keys.push(Some(1));
        DictionaryArray::from_parts(keys, values_builder)
    };

    assert_eq!(values_of(&some_dict), rows(&[None, Some("I like worm hugs")]));

    let mut builder = GenericByteDictionaryBuilder::<i32>::new();
    builder.extend_dictionary(&some_dict).unwrap();
    let dict = builder.finish();

    assert_eq!(dict.values().len(), 1);
    assert_eq!(dict.logical_values(), rows(&[None, Some("I like worm hugs")]));
}

#[test]
fn test_extend_all_null_dictionary() {
    let some_dict = {
        let mut builder = GenericByteDictionaryBuilder::<i32>::new();
        builder.append_nulls(2);
        builder.finish()
    };

    let mut builder = GenericByteDictionaryBuilder::<i32>::new();
    builder.extend_dictionary(&some_dict).unwrap();
    let dict = builder.finish();

    assert_eq!(dict.values().len(), 0);
    assert_eq!(dict.logical_values(), rows(&[None, None]));
}
