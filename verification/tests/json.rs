use simba::doc::bytes_eq;
use simba::doc::id_coding;
use simba::json::json_dup;
use simba::json::merge;
use simba::json::JsonValue;

fn obj(entries: Vec<(&[u8], JsonValue)>) -> JsonValue {
    JsonValue::Obj(entries.into_iter().map(|(k, v)| (k.to_vec(), v)).collect())
}

#[test]
fn merge_disjoint_keys_keeps_both() {
    let new = obj(vec![(b"x", JsonValue::Int(1))]);
    let old = obj(vec![(b"y", JsonValue::Int(2))]);
    let m = merge(&new, &old);
    assert_eq!(
        m,
        obj(vec![(b"x", JsonValue::Int(1)), (b"y", JsonValue::Int(2))])
    );
}

#[test]
fn merge_new_value_wins_on_shared_key() {
    let new = obj(vec![(b"k", JsonValue::Int(1))]);
    let old = obj(vec![(b"k", JsonValue::Int(2))]);
    let m = merge(&new, &old);
    assert_eq!(m, obj(vec![(b"k", JsonValue::Int(1))]));
}

#[test]
fn merge_recurses_into_nested_objects() {
    let new = obj(vec![(b"a", obj(vec![(b"p", JsonValue::Int(1))]))]);
    let old = obj(vec![(
        b"a",
        obj(vec![(b"p", JsonValue::Int(0)), (b"q", JsonValue::Int(2))]),
    )]);
    let m = merge(&new, &old);
    assert_eq!(
        m,
        obj(vec![(
            b"a",
            obj(vec![(b"p", JsonValue::Int(1)), (b"q", JsonValue::Int(2))])
        )])
    );
}

#[test]
fn merge_replaces_non_objects() {
    let new = JsonValue::Int(7);
    let old = obj(vec![(b"k", JsonValue::Int(2))]);
    assert_eq!(merge(&new, &old), JsonValue::Int(7));
    let new2 = obj(vec![(b"k", JsonValue::Int(2))]);
    let old2 = JsonValue::Int(7);
    assert_eq!(merge(&new2, &old2), obj(vec![(b"k", JsonValue::Int(2))]));
}

#[test]
fn merge_array_is_replaced_whole() {
    let new = obj(vec![(
        b"l",
        JsonValue::Arr(vec![JsonValue::Int(1)]),
    )]);
    let old = obj(vec![(
        b"l",
        JsonValue::Arr(vec![JsonValue::Int(2), JsonValue::Int(3)]),
    )]);
    let m = merge(&new, &old);
    assert_eq!(m, obj(vec![(b"l", JsonValue::Arr(vec![JsonValue::Int(1)]))]));
}

#[test]
fn dup_copies_deeply() {
    let v = obj(vec![
        (b"s", JsonValue::Str(b"hello".to_vec())),
        (b"b", JsonValue::Bool(true)),
        (b"n", JsonValue::Null),
        (b"a", JsonValue::Arr(vec![JsonValue::Int(3)])),
        (b"o", obj(vec![(b"i", JsonValue::Int(4))])),
    ]);
    assert_eq!(json_dup(&v), v);
}

#[test]
fn top_get_finds_first_entry() {
    let v = obj(vec![(b"x", JsonValue::Int(1)), (b"y", JsonValue::Int(2))]);
    assert_eq!(v.top_get(&b"y".to_vec()), Some(&JsonValue::Int(2)));
    assert_eq!(v.top_get(&b"z".to_vec()), None);
    assert_eq!(JsonValue::Int(3).top_get(&b"x".to_vec()), None);
}

#[test]
fn id_coding_is_length_prefixed() {
    let iid = id_coding(&b"ab".to_vec(), &b"c".to_vec());
    assert_eq!(iid, vec![2, 0, 0, 0, b'a', b'b', b'c']);
}

#[test]
fn id_coding_separates_id_from_sort_key() {
    let one = id_coding(&b"ab".to_vec(), &b"c".to_vec());
    let two = id_coding(&b"a".to_vec(), &b"bc".to_vec());
    assert_ne!(one, two);
}

#[test]
fn bytes_eq_compares_contents() {
    assert!(bytes_eq(&b"abc".to_vec(), &b"abc".to_vec()));
    assert!(!bytes_eq(&b"abc".to_vec(), &b"abd".to_vec()));
    assert!(!bytes_eq(&b"abc".to_vec(), &b"ab".to_vec()));
}
