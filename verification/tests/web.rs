use hostimg::context::{ContextError, ServerContext};
use hostimg::gallery::ImageGallery;
use hostimg::web::{hex_to_num, url_decode};
use std::sync::Arc;

#[test]
fn hex_digits_decode() {
    assert_eq!(hex_to_num('0'), 0);
    assert_eq!(hex_to_num('9'), 9);
    assert_eq!(hex_to_num('a'), 10);
    assert_eq!(hex_to_num('f'), 15);
    assert_eq!(hex_to_num('A'), 10);
    assert_eq!(hex_to_num('F'), 15);
    assert_eq!(hex_to_num('z'), 0);
}

#[test]
fn percent_escapes_decode() {
    assert_eq!(url_decode("plain"), "plain");
    assert_eq!(url_decode("a%20b"), "a b");
    assert_eq!(url_decode("%2Fdir%2Fa.jpg"), "/dir/a.jpg");
    assert_eq!(url_decode("caf%C3%A9"), "caf\u{c3}\u{a9}");
    assert_eq!(url_decode(""), "");
}

#[test]
fn hex_rendering_is_padded_uppercase() {
    assert_eq!(hostimg::file::digest_to_hex(&vec![0x00, 0xab, 0x5a]), "00AB5A");
    assert_eq!(hostimg::file::digest_to_hex(&vec![]), "");
    // The digest of empty input, as the catalog addresses it.
    assert_eq!(
        hostimg::file::hash_bytes(b""),
        "E3B0C44298FC1C149AFBF4C8996FB92427AE41E4649B934CA495991B7852B855"
    );
}

#[test]
fn root_slot_starts_empty_and_takes_installs() {
    let ctx = ServerContext::new(
        1080,
        4,
        "gallery".to_string(),
        "thumb".to_string(),
        "preview".to_string(),
    );
    match ctx.get_root_gallery() {
        Err(ContextError::GalleryNotSetError) => {}
        _ => panic!("the slot must start unset"),
    }
    let root = Arc::new(ImageGallery::new(Vec::new()));
    ctx.set_root_gallery(root).expect("install");
    let snap = ctx.get_root_gallery().expect("snapshot");
    assert_eq!(snap.imagecount, 0);
}

#[test]
fn later_installs_replace_earlier_ones() {
    let ctx = ServerContext::new(
        1080,
        4,
        "gallery".to_string(),
        "thumb".to_string(),
        "preview".to_string(),
    );
    let empty = Arc::new(ImageGallery::new(Vec::new()));
    ctx.set_root_gallery(empty).expect("install");
    let snapshot_before = ctx.get_root_gallery().expect("snapshot");
    let op = hostimg::gallery::GalleryModification::Add(Arc::new(hostimg::gallery::ImageInfo {
        id: 0,
        location_id: None,
        name: "a.jpg".to_string(),
        hash: "h".to_string(),
        width: 1,
        height: 1,
        img_type: "JPEG".to_string(),
        caption: String::new(),
        description: String::new(),
        rating: 0,
    }));
    let next = snapshot_before.modify(&Vec::new(), &op).expect("modify");
    ctx.set_root_gallery(next).expect("install");
    // The reader that took a snapshot earlier still sees its old tree.
    assert_eq!(snapshot_before.imagecount, 0);
    assert_eq!(ctx.get_root_gallery().expect("snapshot").imagecount, 1);
}
