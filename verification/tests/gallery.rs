use hostimg::gallery::{GalleryError, GalleryModification, ImageGallery, ImageInfo};
use std::sync::Arc;

fn record(name: &str, hash: &str) -> ImageInfo {
    ImageInfo {
        id: 0,
        location_id: None,
        name: name.to_string(),
        hash: hash.to_string(),
        width: 640,
        height: 480,
        img_type: "JPEG".to_string(),
        caption: String::new(),
        description: String::new(),
        rating: 0,
    }
}

fn comps(parts: &[&str]) -> Vec<String> {
    parts.iter().map(|p| p.to_string()).collect()
}

fn add(root: &ImageGallery, dir: &[&str], name: &str) -> Arc<ImageGallery> {
    let op = GalleryModification::Add(Arc::new(record(name, "h")));
    root.modify(&comps(dir), &op).expect("modify failed")
}

#[test]
fn it_works() {}

#[test]
fn new_node_is_empty() {
    let g = ImageGallery::new(comps(&[]));
    assert_eq!(g.imagecount, 0);
    assert!(g.images.is_empty());
    assert!(g.sub_galleries.is_empty());
}

#[test]
fn add_at_root_counts_one() {
    let root = ImageGallery::new(comps(&[]));
    let g = add(&root, &[], "a.jpg");
    assert_eq!(g.imagecount, 1);
    assert_eq!(g.images.len(), 1);
    assert_eq!(g.images[0].name, "a.jpg");
}

#[test]
fn add_synthesizes_missing_directories() {
    let root = ImageGallery::new(comps(&[]));
    let g = add(&root, &["dir", "sub"], "dir/sub/a.jpg");
    assert_eq!(g.imagecount, 1);
    assert_eq!(g.sub_galleries.len(), 1);
    let dir = &g.sub_galleries[0];
    assert_eq!(dir.get_path(), "dir");
    assert_eq!(dir.imagecount, 1);
    assert_eq!(dir.sub_galleries.len(), 1);
    let sub = &dir.sub_galleries[0];
    assert_eq!(sub.get_path(), "dir/sub");
    assert_eq!(sub.images.len(), 1);
    assert_eq!(sub.images[0].name, "dir/sub/a.jpg");
}

#[test]
fn counts_stay_consistent_over_random_edits() {
    // The count invariant: at every node, imagecount is the direct images
    // plus the children's counts, across a mixed sequence of edits.
    fn check(node: &ImageGallery) {
        let sum: u32 = node.sub_galleries.iter().map(|c| c.imagecount).sum::<u32>()
            + node.images.len() as u32;
        assert_eq!(node.imagecount, sum);
        for c in &node.sub_galleries {
            check(c);
        }
    }
    let mut root = Arc::new(ImageGallery::new(comps(&[])));
    let edits: Vec<(bool, Vec<&str>, &str)> = vec![
        (true, vec!["a"], "a/1.jpg"),
        (true, vec!["a"], "a/2.jpg"),
        (true, vec!["b", "c"], "b/c/3.jpg"),
        (true, vec![], "4.jpg"),
        (false, vec!["a"], "a/1.jpg"),
        (false, vec!["a"], "a/9.jpg"),
        (true, vec!["b"], "b/5.jpg"),
        (false, vec!["b", "c"], "b/c/3.jpg"),
    ];
    for (is_add, dir, name) in edits {
        let rec = Arc::new(record(name, "h"));
        let op = if is_add {
            GalleryModification::Add(rec)
        } else {
            GalleryModification::Remove(rec)
        };
        let dirs: Vec<String> = dir.iter().map(|d| d.to_string()).collect();
        root = root.modify(&dirs, &op).expect("modify failed");
        check(&root);
    }
    assert_eq!(root.imagecount, 3);
}

#[test]
fn untouched_subtrees_are_shared_not_copied() {
    // Structural sharing: a child that does not lie on the way to the
    // target is the same heap node in the new tree, not a copy.
    let root = ImageGallery::new(comps(&[]));
    let g1 = add(&root, &["dir1"], "dir1/a.jpg");
    let g2 = add(&g1, &["dir2"], "dir2/b.jpg");
    let dir1_before: &Arc<ImageGallery> = g2
        .sub_galleries
        .iter()
        .find(|c| c.get_path() == "dir1")
        .unwrap();
    let g3 = add(&g2, &["dir2"], "dir2/c.jpg");
    let dir1_after: &Arc<ImageGallery> = g3
        .sub_galleries
        .iter()
        .find(|c| c.get_path() == "dir1")
        .unwrap();
    assert!(Arc::ptr_eq(dir1_before, dir1_after));
}

#[test]
fn old_root_is_untouched_by_modify() {
    let root = ImageGallery::new(comps(&[]));
    let g1 = add(&root, &["d"], "d/a.jpg");
    let _g2 = add(&g1, &["d"], "d/b.jpg");
    assert_eq!(g1.imagecount, 1);
    let d = &g1.sub_galleries[0];
    assert_eq!(d.images.len(), 1);
    assert_eq!(d.images[0].name, "d/a.jpg");
}

#[test]
fn remove_of_absent_record_is_noop() {
    let root = ImageGallery::new(comps(&[]));
    let g1 = add(&root, &["d"], "d/a.jpg");
    let op = GalleryModification::Remove(Arc::new(record("d/zzz.jpg", "h")));
    let g2 = g1.modify(&comps(&["d"]), &op).expect("modify failed");
    assert_eq!(g2.imagecount, g1.imagecount);
    let d = &g2.sub_galleries[0];
    assert_eq!(d.images.len(), 1);
    assert_eq!(d.images[0].name, "d/a.jpg");
}

#[test]
fn add_then_remove_restores_the_tree() {
    let root = ImageGallery::new(comps(&[]));
    let g1 = add(&root, &["d"], "d/a.jpg");
    let rec = Arc::new(record("d/b.jpg", "h"));
    let g2 = g1
        .modify(&comps(&["d"]), &GalleryModification::Add(rec.clone()))
        .expect("modify failed");
    assert_eq!(g2.imagecount, 2);
    let g3 = g2
        .modify(&comps(&["d"]), &GalleryModification::Remove(rec))
        .expect("modify failed");
    assert_eq!(g3.imagecount, g1.imagecount);
    let d = &g3.sub_galleries[0];
    assert_eq!(d.images.len(), 1);
    assert_eq!(d.images[0].name, "d/a.jpg");
}

#[test]
fn duplicate_add_is_ignored() {
    let root = ImageGallery::new(comps(&[]));
    let g1 = add(&root, &["d"], "d/a.jpg");
    let g2 = add(&g1, &["d"], "d/a.jpg");
    assert_eq!(g2.imagecount, 1);
}

#[test]
fn remove_prunes_empty_directories() {
    let root = ImageGallery::new(comps(&[]));
    let rec = Arc::new(record("d/a.jpg", "h"));
    let g1 = root
        .modify(&comps(&["d"]), &GalleryModification::Add(rec.clone()))
        .expect("modify failed");
    assert_eq!(g1.sub_galleries.len(), 1);
    let g2 = g1
        .modify(&comps(&["d"]), &GalleryModification::Remove(rec))
        .expect("modify failed");
    assert_eq!(g2.imagecount, 0);
    assert!(g2.sub_galleries.is_empty());
}

#[test]
fn modify_fails_outside_the_node() {
    // A node rooted below the target cannot resolve the path.
    let node = ImageGallery::new(comps(&["deep", "node"]));
    let op = GalleryModification::Add(Arc::new(record("other/a.jpg", "h")));
    match node.modify(&comps(&["other"]), &op) {
        Err(e) => assert_eq!(e, GalleryError::PathResolve),
        Ok(_) => panic!("expected a path error"),
    }
}

#[test]
fn find_gallery_by_path() {
    let root = ImageGallery::new(comps(&[]));
    let g = add(&root, &["x", "y"], "x/y/a.jpg");
    let found = g.find_gallery_from_name(&comps(&["x", "y"])).unwrap();
    assert_eq!(found.get_path(), "x/y");
    assert_eq!(found.imagecount, 1);
    assert!(g.find_gallery_from_name(&comps(&["x", "z"])).is_none());
    assert!(g.find_gallery_from_name(&comps(&["zzz"])).is_none());
}

#[test]
fn node_path_accessors() {
    let node = ImageGallery::new(comps(&["dir", "sub"]));
    assert_eq!(node.get_name(), "sub");
    assert_eq!(node.get_parent(), Some("dir".to_string()));
    assert_eq!(node.get_path(), "dir/sub");
    let root = ImageGallery::new(comps(&[]));
    assert_eq!(root.get_name(), "");
    assert_eq!(root.get_parent(), None);
    assert_eq!(root.get_path(), "");
}
