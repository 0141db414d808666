use kip_db::keys::{key_order, KeyOrder};
use kip_db::scope::{is_level_ordered, Scope};

#[test]
fn keys_compare_byte_by_byte() {
    assert_eq!(key_order(b"", b""), KeyOrder::Equal);
    assert_eq!(key_order(b"", b"a"), KeyOrder::Less);
    assert_eq!(key_order(b"a", b""), KeyOrder::Greater);
    assert_eq!(key_order(b"abc", b"abd"), KeyOrder::Less);
    assert_eq!(key_order(b"abc", b"abc"), KeyOrder::Equal);
    assert_eq!(key_order(b"abc", b"ab"), KeyOrder::Greater);
    assert_eq!(key_order(&[0xff], &[0x00, 0x01]), KeyOrder::Greater);
    assert_eq!(key_order(&[1, 2, 3], &[1, 2, 3, 0]), KeyOrder::Less);
}

#[test]
fn key_order_agrees_with_slice_order() {
    let keys: Vec<Vec<u8>> =
        vec![vec![], vec![0], vec![0, 0], vec![0, 1], vec![1], vec![1, 0], vec![255], vec![255, 255]];
    for a in &keys {
        for b in &keys {
            let expected = match a.cmp(b) {
                std::cmp::Ordering::Less => KeyOrder::Less,
                std::cmp::Ordering::Equal => KeyOrder::Equal,
                std::cmp::Ordering::Greater => KeyOrder::Greater,
            };
            assert_eq!(key_order(a, b), expected);
        }
    }
}

#[test]
fn scope_meets_keys_and_scopes() {
    let scope = Scope::from_range(1, b"c".to_vec(), b"f".to_vec());
    assert_eq!(scope.get_gen(), 1);
    assert_eq!(scope.start(), b"c");
    assert_eq!(scope.end(), b"f");
    assert!(scope.meet_by_key(b"c"));
    assert!(scope.meet_by_key(b"d"));
    assert!(scope.meet_by_key(b"f"));
    assert!(!scope.meet_by_key(b"b"));
    assert!(!scope.meet_by_key(b"fa"));
    let inside = Scope::from_range(2, b"d".to_vec(), b"e".to_vec());
    let around = Scope::from_range(3, b"a".to_vec(), b"z".to_vec());
    let left = Scope::from_range(4, b"a".to_vec(), b"c".to_vec());
    let before = Scope::from_range(5, b"a".to_vec(), b"b".to_vec());
    let after = Scope::from_range(6, b"g".to_vec(), b"h".to_vec());
    assert!(scope.meet(&inside));
    assert!(scope.meet(&around));
    assert!(around.meet(&scope));
    assert!(scope.meet(&left));
    assert!(!scope.meet(&before));
    assert!(!scope.meet(&after));
}

#[test]
fn level_order_is_checked() {
    let ordered = vec![
        Scope::from_range(1, b"a".to_vec(), b"b".to_vec()),
        Scope::from_range(2, b"c".to_vec(), b"c".to_vec()),
        Scope::from_range(3, b"d".to_vec(), b"k".to_vec()),
    ];
    assert!(is_level_ordered(&ordered));
    assert!(is_level_ordered(&Vec::new()));
    let touching = vec![
        Scope::from_range(1, b"a".to_vec(), b"c".to_vec()),
        Scope::from_range(2, b"c".to_vec(), b"d".to_vec()),
    ];
    assert!(!is_level_ordered(&touching));
    let reversed = vec![Scope::from_range(1, b"b".to_vec(), b"a".to_vec())];
    assert!(!is_level_ordered(&reversed));
    let swapped = vec![
        Scope::from_range(1, b"d".to_vec(), b"k".to_vec()),
        Scope::from_range(2, b"a".to_vec(), b"b".to_vec()),
    ];
    assert!(!is_level_ordered(&swapped));
}
