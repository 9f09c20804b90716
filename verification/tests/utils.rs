use std::collections::HashSet;

use simnet::utils::{IdSource, Unique};

#[test]
fn test_unique() {
    let mut source = IdSource::new();
    let u1 = Unique::new(&mut source);
    let u2 = Unique::new(&mut source);

    assert_ne!(u1, u2);

    let mut set = HashSet::new();
    set.insert(u1);
    set.insert(u2);
    assert_eq!(set.len(), 2);
}

#[test]
fn test_id_source_counts_up() {
    let mut source = IdSource::new();
    assert_eq!(source.fresh(), 0);
    assert_eq!(source.fresh(), 1);
    assert_eq!(source.fresh(), 2);
}
