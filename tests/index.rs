use trash_db::keydir::{CommandPos, KeyDir};

#[test]
fn index_insert_get_remove() {
    let mut dir = KeyDir::new();
    let a = "a".to_string();
    let b = "b".to_string();
    assert_eq!(dir.insert(a.clone(), CommandPos::new(0, 10)), None);
    assert_eq!(dir.insert(b.clone(), CommandPos::new(10, 12)), None);
    assert_eq!(dir.insert(a.clone(), CommandPos::new(22, 11)), Some(CommandPos::new(0, 10)));
    assert_eq!(dir.get(&a), Some(CommandPos::new(22, 11)));
    assert_eq!(dir.len(), 2);
    assert_eq!(dir.remove(&a), Some(CommandPos::new(22, 11)));
    assert_eq!(dir.remove(&a), None);
    assert_eq!(dir.get(&a), None);
    assert_eq!(dir.get(&b), Some(CommandPos::new(10, 12)));
    assert_eq!(dir.len(), 1);
}

#[test]
fn index_many_keys_with_removals() {
    let mut dir = KeyDir::new();
    for i in 0..2000u64 {
        dir.insert(format!("key{}", i), CommandPos::new(i * 10, 10));
    }
    for i in (0..2000u64).step_by(3) {
        assert_eq!(dir.remove(&format!("key{}", i)), Some(CommandPos::new(i * 10, 10)));
    }
    for i in 0..2000u64 {
        let expected = if i % 3 == 0 { None } else { Some(CommandPos::new(i * 10, 10)) };
        assert_eq!(dir.get(&format!("key{}", i)), expected);
    }
    assert_eq!(dir.len(), 1333);
    dir.set_pos(0, 7);
    assert_eq!(dir.loc_at(0).pos, 7);
}
