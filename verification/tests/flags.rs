use viter::gmm::flags::GmmFlags;

#[test]
fn flags_augment_like_kaldi() {
    assert!(GmmFlags::variances().augment().contains(GmmFlags::means()));
    assert!(GmmFlags::variances().augment().contains(GmmFlags::weights()));
    assert!(GmmFlags::means().augment().contains(GmmFlags::weights()));
    assert_eq!(GmmFlags::all().augment(), GmmFlags::all());
    // Empty flags still gain weights.
    assert_eq!(GmmFlags(0).augment(), GmmFlags::weights());
}

#[test]
fn flags_display() {
    assert_eq!(GmmFlags::all().to_string(), "mvw");
    assert_eq!(GmmFlags::means().to_string(), "m");
}

#[test]
fn augmenting_twice_is_augmenting_once() {
    for bits in 0u8..8 {
        let once = GmmFlags(bits).augment();
        assert_eq!(once.augment(), once);
        assert!(once.contains(GmmFlags(bits)));
    }
}

#[test]
fn flag_operators_are_the_set_operations() {
    let mv = GmmFlags::means() | GmmFlags::variances();
    assert_eq!(mv, GmmFlags::means().union(GmmFlags::variances()));
    assert_eq!(mv & GmmFlags::means(), GmmFlags::means());
    assert!((mv & GmmFlags::weights()).is_empty());
    assert!(mv.intersects(GmmFlags::variances()));
    assert!(!mv.intersects(GmmFlags::weights()));
}
