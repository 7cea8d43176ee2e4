use hostimg::file::{
    apply_event, event_lookup_path, hash_bytes, is_image, plan_derivative, scan_tree, DirTree,
    EventOutcome, EventPath, ImageFile, ImageLookup, ScannerError, WatchEvent,
};
use hostimg::gallery::{GalleryModification, ImageGallery, ImageInfo};
use sha2::Digest;
use std::sync::Arc;

fn record(name: &str, hash: &str) -> ImageInfo {
    ImageInfo {
        id: 0,
        location_id: None,
        name: name.to_string(),
        hash: hash.to_string(),
        width: 2,
        height: 2,
        img_type: "JPEG".to_string(),
        caption: String::new(),
        description: String::new(),
        rating: 0,
    }
}

fn comps(parts: &[&str]) -> Vec<String> {
    parts.iter().map(|p| p.to_string()).collect()
}

fn tiny_jpeg() -> Vec<u8> {
    let img = image::DynamicImage::new_rgb8(2, 2);
    let mut out: Vec<u8> = Vec::new();
    img.write_to(&mut std::io::Cursor::new(&mut out), image::ImageFormat::Jpeg)
        .expect("encode");
    out
}

#[test]
fn image_type_predicate() {
    assert!(is_image("a.jpg"));
    assert!(is_image("dir/b.JPG"));
    assert!(is_image("dir/c.JpG"));
    assert!(!is_image("a.png"));
    assert!(!is_image("a.jpeg"));
    assert!(!is_image(".jpg"));
    assert!(!is_image("dir/.jpg"));
    assert!(!is_image("nodot"));
}

#[test]
fn content_address_matches_reference_digest() {
    // Well-known SHA-256 of "abc".
    assert_eq!(
        hash_bytes(b"abc"),
        "BA7816BF8F01CFEA414140DE5DAE2223B00361A396177A9CB410FF61F20015AD"
    );
    // Against the digest crate itself.
    let reference = sha2::Sha256::digest(b"hostimg");
    let expect: String = reference.iter().map(|b| format!("{b:02X}")).collect();
    assert_eq!(hash_bytes(b"hostimg"), expect);
}

#[test]
fn streaming_hash_equals_whole_hash() {
    let mut h = hostimg::file::ContentHasher::new();
    h.update(b"ab");
    h.update(b"c");
    let digest = h.finalize();
    assert_eq!(
        hostimg::file::digest_to_hex(&digest),
        "BA7816BF8F01CFEA414140DE5DAE2223B00361A396177A9CB410FF61F20015AD"
    );
}

#[test]
fn derivative_is_encoded_exactly_once() {
    // Same bytes, same content address, same cache name: the second call
    // sees the file present and plans no encode.
    let bytes = tiny_jpeg();
    let hash1 = hash_bytes(&bytes);
    let hash2 = hash_bytes(&bytes);
    assert_eq!(hash1, hash2);
    let first = plan_derivative(&hash1, false);
    let name = first.expect("first call must encode");
    assert_eq!(name, format!("{hash1}.jpg"));
    // The cache now holds `name`; an identical source skips the encoder.
    assert!(plan_derivative(&hash2, true).is_none());
}

#[test]
fn decoded_image_has_its_dimensions() {
    let bytes = tiny_jpeg();
    let f = ImageFile::build_from_bytes("t.jpg".to_string(), &bytes).expect("decode");
    let info = f.build_info();
    assert_eq!(info.width, 2);
    assert_eq!(info.height, 2);
    assert_eq!(info.name, "t.jpg");
    assert_eq!(info.hash, hash_bytes(&bytes));
    assert_eq!(info.img_type, "JPEG");
    assert_eq!(info.id, 0);
}

#[test]
fn scaling_respects_bounds_and_cache() {
    let bytes = tiny_jpeg();
    let f = ImageFile::build_from_bytes("t.jpg".to_string(), &bytes).expect("decode");
    let out = f.scale_to_jpeg(1, 1, false).expect("scale").expect("encode");
    assert_eq!(out.0, format!("{}.jpg", f.hash));
    let scaled = image::load_from_memory_with_format(&out.1, image::ImageFormat::Jpeg)
        .expect("re-decode");
    assert!(scaled.width() <= 1 && scaled.height() <= 1);
    assert!(f.scale_to_jpeg(1, 1, true).expect("scale").is_none());
}

#[test]
fn garbage_bytes_are_an_io_error() {
    match ImageFile::build_from_bytes("bad.jpg".to_string(), b"not a jpeg") {
        Err(ScannerError::Io(_)) => {}
        _ => panic!("expected a decode failure"),
    }
}

#[test]
fn scan_defers_unknown_files() {
    // A directory with one never-before-seen image: the initial tree holds
    // nothing, the file goes to the indexing queue; once the worker adds
    // its record, the next snapshot holds it.
    let t = DirTree { path: comps(&[]), subdirs: vec![], files: comps(&["a.jpg"]) };
    let lookup = ImageLookup { records: vec![] };
    let mut deferred: Vec<String> = Vec::new();
    let g = scan_tree(&t, &lookup, &mut deferred);
    assert_eq!(g.imagecount, 0);
    assert_eq!(deferred, vec!["a.jpg".to_string()]);
    let bytes = tiny_jpeg();
    let hash = hash_bytes(&bytes);
    let op = GalleryModification::Add(Arc::new(record("a.jpg", &hash)));
    let g2 = g.modify(&comps(&[]), &op).expect("modify");
    assert_eq!(g2.imagecount, 1);
    assert_eq!(g2.images[0].name, "a.jpg");
    assert_eq!(g2.images[0].hash, hash);
}

#[test]
fn scan_places_known_files_and_prunes_empty_dirs() {
    let t = DirTree {
        path: comps(&[]),
        subdirs: vec![
            DirTree {
                path: comps(&["pics"]),
                subdirs: vec![],
                files: comps(&["pics/a.jpg", "pics/skip.txt", "pics/new.jpg"]),
            },
            DirTree { path: comps(&["empty"]), subdirs: vec![], files: vec![] },
        ],
        files: comps(&["top.jpg"]),
    };
    let lookup = ImageLookup {
        records: vec![
            Arc::new(record("pics/a.jpg", "h1")),
            Arc::new(record("top.jpg", "h2")),
        ],
    };
    let mut deferred: Vec<String> = Vec::new();
    let g = scan_tree(&t, &lookup, &mut deferred);
    assert_eq!(g.imagecount, 2);
    assert_eq!(deferred, vec!["pics/new.jpg".to_string()]);
    assert_eq!(g.sub_galleries.len(), 1);
    assert_eq!(g.sub_galleries[0].get_path(), "pics");
    assert_eq!(g.sub_galleries[0].images[0].name, "pics/a.jpg");
    assert_eq!(g.images[0].name, "top.jpg");
}

#[test]
fn create_event_of_known_file_installs_new_root() {
    let root = ImageGallery::new(comps(&[]));
    let p = EventPath::from_string("dir/a.jpg".to_string()).expect("path");
    let e = WatchEvent::Create(p);
    assert_eq!(event_lookup_path(&e), Some("dir/a.jpg".to_string()));
    match apply_event(&root, &e, Some(record("dir/a.jpg", "h"))) {
        EventOutcome::Install(g) => {
            assert_eq!(g.imagecount, 1);
            let d = g.find_gallery_from_name(&comps(&["dir"])).expect("dir");
            assert_eq!(d.images[0].name, "dir/a.jpg");
        }
        _ => panic!("expected an install"),
    }
}

#[test]
fn create_event_of_unknown_file_defers() {
    let root = ImageGallery::new(comps(&[]));
    let e = WatchEvent::Create(EventPath::from_string("dir/new.jpg".to_string()).unwrap());
    match apply_event(&root, &e, None) {
        EventOutcome::Enqueue(name) => assert_eq!(name, "dir/new.jpg"),
        _ => panic!("expected an enqueue"),
    }
}

#[test]
fn non_image_events_are_ignored() {
    let root = ImageGallery::new(comps(&[]));
    let e = WatchEvent::Create(EventPath::from_string("notes.txt".to_string()).unwrap());
    assert_eq!(event_lookup_path(&e), None);
    assert!(matches!(apply_event(&root, &e, None), EventOutcome::Ignore));
    let w = WatchEvent::Write(EventPath::from_string("dir/a.jpg".to_string()).unwrap());
    assert!(matches!(apply_event(&root, &w, None), EventOutcome::Ignore));
    assert!(matches!(apply_event(&root, &WatchEvent::Rescan, None), EventOutcome::Ignore));
}

#[test]
fn remove_event_of_unindexed_file_is_noop() {
    let root = ImageGallery::new(comps(&[]));
    let e = WatchEvent::Remove(EventPath::from_string("dir/gone.jpg".to_string()).unwrap());
    assert!(matches!(apply_event(&root, &e, None), EventOutcome::Ignore));
}

#[test]
fn rename_event_moves_the_record() {
    // dir/a.jpg was indexed; a rename to dir2/b.jpg removes the old record
    // at once and defers the new path for indexing.
    let root = ImageGallery::new(comps(&[]));
    let rec = record("dir/a.jpg", "h");
    let g1 = root
        .modify(&comps(&["dir"]), &GalleryModification::Add(Arc::new(rec.clone())))
        .expect("modify");
    let e = WatchEvent::Rename(
        EventPath::from_string("dir/a.jpg".to_string()).unwrap(),
        EventPath::from_string("dir2/b.jpg".to_string()).unwrap(),
    );
    assert_eq!(event_lookup_path(&e), Some("dir/a.jpg".to_string()));
    match apply_event(&g1, &e, Some(rec)) {
        EventOutcome::InstallAndEnqueue(g2, to) => {
            assert_eq!(to, "dir2/b.jpg");
            // a.jpg is gone from dir (and the emptied dir was pruned).
            assert!(g2.find_gallery_from_name(&comps(&["dir"])).is_none());
            assert_eq!(g2.imagecount, 0);
            // Once indexing of the new path completes, b.jpg sits in dir2.
            let g3 = g2
                .modify(
                    &comps(&["dir2"]),
                    &GalleryModification::Add(Arc::new(record("dir2/b.jpg", "h"))),
                )
                .expect("modify");
            let d2 = g3.find_gallery_from_name(&comps(&["dir2"])).expect("dir2");
            assert_eq!(d2.images[0].name, "dir2/b.jpg");
        }
        _ => panic!("expected install plus enqueue"),
    }
}

#[test]
fn rename_of_unindexed_source_still_defers_target() {
    let root = ImageGallery::new(comps(&[]));
    let e = WatchEvent::Rename(
        EventPath::from_string("dir/a.jpg".to_string()).unwrap(),
        EventPath::from_string("dir2/b.jpg".to_string()).unwrap(),
    );
    match apply_event(&root, &e, None) {
        EventOutcome::Enqueue(name) => assert_eq!(name, "dir2/b.jpg"),
        _ => panic!("expected an enqueue"),
    }
}

#[test]
fn event_paths_split_on_separators() {
    let p = EventPath::from_string("a/b/c.jpg".to_string()).expect("path");
    assert_eq!(p.full, "a/b/c.jpg");
    assert_eq!(p.components, comps(&["a", "b", "c.jpg"]));
    let single = EventPath::from_string("c.jpg".to_string()).expect("path");
    assert_eq!(single.components, comps(&["c.jpg"]));
    assert!(matches!(
        EventPath::from_string(String::new()),
        Err(ScannerError::Charset)
    ));
}

#[test]
fn listings_are_kept_in_lexicographic_order() {
    // Whatever order the walk delivers, nodes and images come out ordered
    // by path and by name.
    let t = DirTree {
        path: comps(&[]),
        subdirs: vec![
            DirTree { path: comps(&["zoo"]), subdirs: vec![], files: comps(&["zoo/z.jpg"]) },
            DirTree { path: comps(&["att"]), subdirs: vec![], files: comps(&["att/a.jpg"]) },
            DirTree { path: comps(&["mid"]), subdirs: vec![], files: comps(&["mid/m.jpg"]) },
        ],
        files: comps(&["c.jpg", "b.jpg", "a.jpg"]),
    };
    let lookup = ImageLookup {
        records: vec![
            Arc::new(record("zoo/z.jpg", "h")),
            Arc::new(record("att/a.jpg", "h")),
            Arc::new(record("mid/m.jpg", "h")),
            Arc::new(record("c.jpg", "h")),
            Arc::new(record("b.jpg", "h")),
            Arc::new(record("a.jpg", "h")),
        ],
    };
    let mut deferred: Vec<String> = Vec::new();
    let g = scan_tree(&t, &lookup, &mut deferred);
    let child_paths: Vec<String> = g.sub_galleries.iter().map(|c| c.get_path()).collect();
    assert_eq!(child_paths, comps(&["att", "mid", "zoo"]));
    let image_names: Vec<String> = g.images.iter().map(|r| r.name.clone()).collect();
    assert_eq!(image_names, comps(&["a.jpg", "b.jpg", "c.jpg"]));
    // Copy-on-write edits keep the order too.
    let g2 = g
        .modify(
            &comps(&["bbb"]),
            &GalleryModification::Add(Arc::new(record("bbb/x.jpg", "h"))),
        )
        .expect("modify");
    let paths2: Vec<String> = g2.sub_galleries.iter().map(|c| c.get_path()).collect();
    assert_eq!(paths2, comps(&["att", "bbb", "mid", "zoo"]));
    let g3 = g2
        .modify(&comps(&[]), &GalleryModification::Add(Arc::new(record("ab.jpg", "h"))))
        .expect("modify");
    let names3: Vec<String> = g3.images.iter().map(|r| r.name.clone()).collect();
    assert_eq!(names3, comps(&["a.jpg", "ab.jpg", "b.jpg", "c.jpg"]));
}
