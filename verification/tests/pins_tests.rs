use aurora_screenshots::pins::PinStore;

#[test]
fn a_pinned_image_is_handed_out_once() {
    let mut pins = PinStore::new();
    pins.insert("17".to_string(), "AAAA".to_string());
    pins.insert("18".to_string(), "BBBB".to_string());
    assert_eq!(pins.take("17"), Some("AAAA".to_string()));
    assert_eq!(pins.take("17"), None);
    assert_eq!(pins.take("18"), Some("BBBB".to_string()));
}

#[test]
fn pinning_the_same_id_again_replaces_the_image() {
    let mut pins = PinStore::new();
    pins.insert("1".to_string(), "old".to_string());
    pins.insert("1".to_string(), "new".to_string());
    assert_eq!(pins.take("1"), Some("new".to_string()));
    assert_eq!(pins.take("1"), None);
    assert_eq!(pins.take("2"), None);
}
