use atomr_view::ids::CorrelationId;
use atomr_view::scene::SceneKey;

#[test]
fn scene_key_is_a_v4_uuid() {
    let k = SceneKey::new();
    assert_eq!(k.id.len(), 16);
    assert_eq!(k.id[6] & 0xf0, 0x40);
    assert_eq!(k.id[8] & 0xc0, 0x80);
    assert_ne!(SceneKey::new(), k);
}

#[test]
fn scene_key_text() {
    let k = SceneKey { id: (0u8..16).collect() };
    assert_eq!(k.__repr__(), "00010203-0405-0607-0809-0a0b0c0d0e0f");
}

#[test]
fn correlation_id_text() {
    let c = CorrelationId::new();
    assert_eq!(c.id.len(), 36);
    assert_eq!(c.__repr__(), c.id);
    assert_eq!(&c.id[14..15], "4");
    let d = CorrelationId::default();
    assert_ne!(c, d);
}
