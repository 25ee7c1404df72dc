use dslab::util::{Counter, DefaultVecMap, VecMap};

#[test]
fn counter_hands_out_successive_values() {
    let mut c = Counter::default();
    assert_eq!(c.curr(), 0);
    assert_eq!(c.increment(), 0);
    assert_eq!(c.increment(), 1);
    assert_eq!(c.curr(), 2);
}

#[test]
fn vec_map_read_after_insert() {
    let mut m: VecMap<String> = VecMap::default();
    assert!(m.get(0).is_none());
    m.insert(3, "three".to_string());
    m.insert(1, "one".to_string());
    assert_eq!(m.get(3).map(|s| s.as_str()), Some("three"));
    assert_eq!(m.get(1).map(|s| s.as_str()), Some("one"));
    assert!(m.get(0).is_none());
    assert!(m.get(2).is_none());
    assert!(m.get(100).is_none());
    m.insert(3, "drei".to_string());
    assert_eq!(m.get(3).map(|s| s.as_str()), Some("drei"));
}

#[test]
fn vec_map_get_mut_changes_only_present_keys() {
    let mut m: VecMap<u32> = VecMap::default();
    m.insert(2, 10);
    if let Some(v) = m.get_mut(2) {
        *v += 5;
    }
    assert_eq!(m.get(2), Some(&15));
    assert!(m.get_mut(1).is_none());
    assert!(m.get_mut(7).is_none());
    assert!(m.get(1).is_none());
}

#[test]
fn vec_map_clone_is_independent() {
    let mut m: VecMap<u32> = VecMap::default();
    m.insert(0, 1);
    let c = m.clone();
    m.insert(0, 2);
    assert_eq!(c.get(0), Some(&1));
    assert_eq!(m.get(0), Some(&2));
}

#[test]
fn default_vec_map_fills_gaps_with_defaults() {
    let mut m: DefaultVecMap<u64> = DefaultVecMap::default();
    assert!(m.get(0).is_none());
    m.insert(3, 7);
    assert_eq!(m.get(3), Some(&7));
    assert_eq!(m.get(0), Some(&0));
    assert_eq!(m.get(2), Some(&0));
    assert!(m.get(4).is_none());
    m.insert(1, 9);
    assert_eq!(m.get(1), Some(&9));
    assert_eq!(m.get(3), Some(&7));
}

#[test]
fn default_vec_map_get_mut_grows() {
    let mut m: DefaultVecMap<u64> = DefaultVecMap::default();
    *m.get_mut(4) += 3;
    assert_eq!(m.get(4), Some(&3));
    assert_eq!(m.get(0), Some(&0));
    assert!(m.get(5).is_none());
    *m.get_mut(4) += 1;
    assert_eq!(m.get(4), Some(&4));
    let v: &mut u64 = m.get_mut(1);
    assert_eq!(*v, 0);
}
