//! The immutable gallery tree and its copy-on-write modification.
//!
//! A `ImageGallery` node stands for one directory level beneath the
//! configured gallery root.  Its `path` is the list of directory components
//! from the root down to the node; the root node has an empty `path`.
//! The whole subtree is modelled as a finite map from
//! `(node path, image name)` pairs to the image records held there.

use crate::paths::clone_path;
use crate::paths::is_path_prefix;
use crate::paths::join_path;
use crate::paths::lemma_str_lt_trans;
use crate::paths::lemma_str_lt_trichotomy;
use crate::paths::spec_join;
use crate::paths::str_less;
use crate::paths::str_lt;
use crate::paths::path_eq;
use crate::paths::path_starts_with;
use crate::paths::path_view;
use std::sync::Arc;
use vstd::prelude::*;
use vstd::set_lib::lemma_set_disjoint_lens;

verus! {

/// One indexed image: its store identity and the attributes kept for it.
/// Images are keyed by `name` (the full file path) wherever they sit in a
/// gallery node.
#[derive(Clone)]
pub struct ImageInfo {
    pub id: u32,
    pub location_id: Option<u32>,
    pub name: String,
    pub hash: String,
    pub width: u32,
    pub height: u32,
    pub img_type: String,
    pub caption: String,
    pub description: String,
    pub rating: u32,
}

/// A key of the gallery model: the path of the node holding the image,
/// and the image's name.
pub type GalleryKey = (Seq<Seq<char>>, Seq<char>);

/// One directory level of the catalog.
pub struct ImageGallery {
    /// Directory components beneath the gallery root; empty at the root.
    pub path: Vec<String>,
    /// The immediate child directories that hold at least one image.
    pub sub_galleries: Vec<Arc<ImageGallery>>,
    /// The images sitting directly at this level.
    pub images: Vec<Arc<ImageInfo>>,
    /// Number of images in the whole subtree (self plus descendants).
    pub imagecount: u32,
}

/// A logical mutation of the tree: insert or delete one image record.
/// Records are matched by name alone.
pub enum GalleryModification {
    Add(Arc<ImageInfo>),
    Remove(Arc<ImageInfo>),
}

/// Failure of `modify`: the target path does not lie beneath the node on
/// which the modification was attempted.
#[derive(Debug, PartialEq, Eq, Structural)]
pub enum GalleryError {
    PathResolve,
}

/// The name of the record a modification speaks of.
pub open spec fn op_name(op: GalleryModification) -> Seq<char> {
    match op {
        GalleryModification::Add(r) => r.name@,
        GalleryModification::Remove(r) => r.name@,
    }
}

/// What a modification does to the abstract model: `Add` inserts the record
/// at the target node unless an image of the same name already sits there;
/// `Remove` deletes whatever record of that name sits there.
pub open spec fn spec_apply(
    m: Map<GalleryKey, ImageInfo>,
    p: Seq<Seq<char>>,
    op: GalleryModification,
) -> Map<GalleryKey, ImageInfo> {
    match op {
        GalleryModification::Add(r) => {
            if m.dom().contains((p, r.name@)) {
                m
            } else {
                m.insert((p, r.name@), *r)
            }
        },
        GalleryModification::Remove(r) => m.remove((p, r.name@)),
    }
}

/// Adding one record at node path `p`: a no-op when an image of the same
/// name already sits there.  This is what `Add` does to the model.
pub open spec fn spec_add_record(
    m: Map<GalleryKey, ImageInfo>,
    p: Seq<Seq<char>>,
    rec: ImageInfo,
) -> Map<GalleryKey, ImageInfo> {
    if m.dom().contains((p, rec.name@)) {
        m
    } else {
        m.insert((p, rec.name@), rec)
    }
}

/// The part of a gallery model that sits at or below node path `p`.
pub open spec fn subtree_entries(m: Map<GalleryKey, ImageInfo>, p: Seq<Seq<char>>) -> Map<
    GalleryKey,
    ImageInfo,
> {
    Map::new(|k: GalleryKey| m.dom().contains(k) && is_path_prefix(p, k.0), |k: GalleryKey| m[k])
}

/// The images of `images`, placed at node path `path`, as a map keyed by name.
pub open spec fn images_map(path: Seq<Seq<char>>, images: Seq<Arc<ImageInfo>>) -> Map<
    GalleryKey,
    ImageInfo,
>
    decreases images.len(),
{
    if images.len() == 0 {
        Map::empty()
    } else {
        images_map(path, images.drop_last()).insert(
            (path, images.last().name@),
            *images.last(),
        )
    }
}

/// The union of the models of the subtrees in `s`.
pub open spec fn children_map(s: Seq<Arc<ImageGallery>>) -> Map<GalleryKey, ImageInfo>
    decreases s,
{
    if s.len() == 0 {
        Map::empty()
    } else {
        children_map(s.drop_last()).union_prefer_right(s.last().as_map())
    }
}

/// Sum of the `imagecount` fields of the nodes in `s`.
pub open spec fn counts_sum(s: Seq<Arc<ImageGallery>>) -> int
    decreases s.len(),
{
    if s.len() == 0 {
        0
    } else {
        counts_sum(s.drop_last()) + s.last().imagecount as int
    }
}

/// Image names are unique within one node, and kept in lexicographic
/// order, the listing order readers see.
pub open spec fn images_wf(images: Seq<Arc<ImageInfo>>) -> bool {
    &&& forall|i: int, j: int|
        0 <= i < j < images.len() ==> images[i].name@ != images[j].name@
    &&& forall|i: int, j: int|
        0 <= i < j < images.len() ==> str_lt(images[i].name@, images[j].name@)
}

/// The children of a node at path `pp` are well-formed, non-empty, sit one
/// directory level below `pp`, and carry pairwise distinct paths, kept in
/// lexicographic order of their one distinguishing component — which,
/// since siblings share the parent's prefix, orders them by relative path.
pub open spec fn children_wf(pp: Seq<Seq<char>>, s: Seq<Arc<ImageGallery>>) -> bool
    decreases s,
{
    &&& forall|i: int| 0 <= i < s.len() ==> (#[trigger] s[i]).wf()
    &&& forall|i: int| 0 <= i < s.len() ==> (#[trigger] s[i]).imagecount > 0
    &&& forall|i: int| 0 <= i < s.len() ==> (#[trigger] s[i]).path_view().len() == pp.len() + 1
    &&& forall|i: int|
        0 <= i < s.len() ==> (#[trigger] s[i]).path_view().take(pp.len() as int) == pp
    &&& forall|i: int, j: int|
        0 <= i < j < s.len() ==> s[i].path_view() != s[j].path_view()
    &&& forall|i: int, j: int|
        0 <= i < j < s.len() ==> str_lt(s[i].path_view().last(), s[j].path_view().last())
}

impl ImageGallery {
    /// The node's path as a sequence of component views.
    pub open spec fn path_view(&self) -> Seq<Seq<char>> {
        path_view(self.path@)
    }

    /// The abstract model of the subtree: every image in it, keyed by the
    /// path of the node holding it and by its name.
    pub open spec fn as_map(&self) -> Map<GalleryKey, ImageInfo>
        decreases self,
    {
        children_map(self.sub_galleries@).union_prefer_right(
            images_map(self.path_view(), self.images@),
        )
    }

    /// Well-formedness: the denormalized count matches the contents, image
    /// names are unique at each level, and every child is one directory
    /// level deeper, non-empty, and unique among its siblings.
    pub open spec fn wf(&self) -> bool
        decreases self,
    {
        &&& self.imagecount as int == self.images@.len() + counts_sum(self.sub_galleries@)
        &&& images_wf(self.images@)
        &&& children_wf(self.path_view(), self.sub_galleries@)
    }

    /// A fresh, empty node at `path`.
    pub fn new(path: Vec<String>) -> (g: ImageGallery)
        ensures
            g.wf(),
            g.path_view() == path@.map_values(|s: String| s@),
            g.as_map() == Map::<GalleryKey, ImageInfo>::empty(),
            g.imagecount == 0,
            g.sub_galleries@.len() == 0,
            g.images@.len() == 0,
    {
        let g = ImageGallery { path, sub_galleries: Vec::new(), images: Vec::new(), imagecount: 0 };
        assert(g.as_map() =~= Map::<GalleryKey, ImageInfo>::empty());
        g
    }

    /// The last component of the node's path; empty at the root.
    pub fn get_name(&self) -> (r: String)
        ensures
            r@ == if self.path@.len() > 0 {
                self.path_view().last()
            } else {
                Seq::<char>::empty()
            },
    {
        if self.path.len() == 0 {
            String::new()
        } else {
            self.path[self.path.len() - 1].clone()
        }
    }

    /// The path of the enclosing directory, joined with `/`; absent at the
    /// root.
    pub fn get_parent(&self) -> (r: Option<String>)
        ensures
            match r {
                Some(p) => self.path@.len() > 0 && p@ == spec_join(self.path_view().drop_last()),
                None => self.path@.len() == 0,
            },
    {
        if self.path.len() == 0 {
            None
        } else {
            let mut v = clone_path(&self.path);
            v.pop();
            proof {
                assert(path_view(v@) =~= self.path_view().drop_last());
            }
            Some(join_path(&v))
        }
    }

    /// The node's whole path, joined with `/`.
    pub fn get_path(&self) -> (r: String)
        ensures
            r@ == spec_join(self.path_view()),
    {
        join_path(&self.path)
    }

    /// Look up the descendant node with exactly the path `search_path`.
    /// A found node carries precisely the catalog entries at or below that
    /// path; `None` means no image lies there at all.
    #[verifier::loop_isolation(false)]
    #[verifier::rlimit(100)]
    #[verifier::spinoff_prover]
    pub fn find_gallery_from_name(&self, search_path: &Vec<String>) -> (r: Option<
        Arc<ImageGallery>,
    >)
        requires
            self.wf(),
        ensures
            match r {
                Some(n) => {
                    &&& n.wf()
                    &&& n.imagecount > 0
                    &&& n.path_view() == path_view(search_path@)
                    &&& n.path_view().len() > self.path_view().len()
                    &&& n.as_map() == subtree_entries(self.as_map(), path_view(search_path@))
                },
                None => (is_path_prefix(self.path_view(), path_view(search_path@))
                    && path_view(search_path@).len() > self.path_view().len()) ==> subtree_entries(
                    self.as_map(),
                    path_view(search_path@),
                ) == Map::<GalleryKey, ImageInfo>::empty(),
            },
        decreases search_path@.len() - self.path@.len(),
    {
        let ghost pp = self.path_view();
        let ghost sv = path_view(search_path@);
        let ghost s = self.sub_galleries@;
        proof {
            lemma_children_map_props(pp, s);
            lemma_images_map_props(pp, self.images@);
        }
        let n: usize = self.sub_galleries.len();
        let mut i: usize = 0;
        while i < n
            invariant
                i <= n,
                sv.len() > pp.len() ==> forall|i2: int, k: GalleryKey|
                    0 <= i2 < i && (#[trigger] s[i2].as_map().dom().contains(k))
                        ==> !is_path_prefix(sv, k.0),
            decreases n - i,
        {
            let child: &Arc<ImageGallery> = &self.sub_galleries[i];
            proof {
                assert(child.wf());
                lemma_wf_as_map(&**child);
            }
            if path_eq(&child.path, search_path) {
                let found: Arc<ImageGallery> = child.clone();
                proof {
                    assert(is_path_prefix(child.path_view(), sv)) by {
                        assert(sv.take(sv.len() as int) =~= sv);
                    }
                    lemma_subtree_at_child(self, i as int, sv);
                    lemma_subtree_whole(&**child);
                }
                return Some(found);
            }
            if path_starts_with(search_path, &child.path) {
                proof {
                    // Covering but not equal means strictly longer.
                    assert(sv.len() > child.path_view().len()) by {
                        if sv.len() == child.path_view().len() {
                            assert(sv.take(child.path_view().len() as int) =~= sv);
                        }
                    }
                    lemma_subtree_at_child(self, i as int, sv);
                }
                let rr = child.find_gallery_from_name(search_path);
                match rr {
                    Some(found) => {
                        return Some(found);
                    },
                    None => {
                        proof {
                            assert forall|k: GalleryKey| #[trigger]
                                child.as_map().dom().contains(k) implies !is_path_prefix(
                                sv,
                                k.0,
                            ) by {
                                if is_path_prefix(sv, k.0) {
                                    assert(subtree_entries(child.as_map(), sv).dom().contains(k));
                                }
                            }
                        }
                    },
                }
            } else {
                proof {
                    // A child that does not lie on the way to the target holds
                    // nothing at or below the target.
                    if sv.len() > pp.len() {
                        assert forall|k: GalleryKey| #[trigger]
                            child.as_map().dom().contains(k) implies !is_path_prefix(sv, k.0) by {
                            if is_path_prefix(sv, k.0) {
                                assert(is_path_prefix(child.path_view(), sv)) by {
                                    assert(k.0.take((pp.len() + 1) as int) == child.path_view());
                                    assert(k.0.take(sv.len() as int) == sv);
                                    assert(k.0.take(sv.len() as int).take((pp.len() + 1) as int)
                                        =~= k.0.take((pp.len() + 1) as int));
                                    assert(sv.take((pp.len() + 1) as int) == sv.take(
                                        child.path_view().len() as int,
                                    ));
                                }
                            }
                        }
                    }
                }
            }
            i = i + 1;
        }
        proof {
            if is_path_prefix(pp, sv) && sv.len() > pp.len() {
                assert(subtree_entries(self.as_map(), sv) =~= Map::<
                    GalleryKey,
                    ImageInfo,
                >::empty()) by {
                    assert forall|k: GalleryKey|
                        self.as_map().dom().contains(k) implies !is_path_prefix(sv, k.0) by {
                        if is_path_prefix(sv, k.0) {
                            assert(k.0.len() > pp.len());
                            assert(!images_map(pp, self.images@).dom().contains(k));
                            assert(children_map(s).dom().contains(k));
                            let i2 = choose|i2: int|
                                0 <= i2 < s.len() && (#[trigger] s[i2]).as_map().dom().contains(k)
                                    && s[i2].as_map()[k] == children_map(s)[k];
                        }
                    }
                }
            }
        }
        None
    }

    /// Copy-on-write modification: returns a fresh root applying `op` at the
    /// node with path `dir_path`, sharing every subtree that does not lie on
    /// the way there.  Fails exactly when `dir_path` does not lie beneath
    /// this node; the node itself is never changed.
    #[verifier::loop_isolation(false)]
    #[verifier::rlimit(100)]
    #[verifier::spinoff_prover]
    pub fn modify(&self, dir_path: &Vec<String>, op: &GalleryModification) -> (res: Result<
        Arc<ImageGallery>,
        GalleryError,
    >)
        requires
            self.wf(),
            (*op matches GalleryModification::Add(_)) ==> self.imagecount < u32::MAX,
        ensures
            match res {
                Ok(g) => {
                    &&& g.wf()
                    &&& g.path_view() == self.path_view()
                    &&& is_path_prefix(self.path_view(), path_view(dir_path@))
                    &&& g.as_map() == spec_apply(self.as_map(), path_view(dir_path@), *op)
                    &&& forall|j: int|
                        0 <= j < g.sub_galleries@.len() && !is_path_prefix(
                            (#[trigger] g.sub_galleries@[j]).path_view(),
                            path_view(dir_path@),
                        ) ==> self.sub_galleries@.contains(g.sub_galleries@[j])
                },
                Err(e) => {
                    &&& e == GalleryError::PathResolve
                    &&& !is_path_prefix(self.path_view(), path_view(dir_path@))
                },
            },
        decreases dir_path@.len() - self.path@.len(),
    {
        let ghost pp = self.path_view();
        let ghost dpv = path_view(dir_path@);
        let ghost s = self.sub_galleries@;
        let ghost adj: int = if *op matches GalleryModification::Add(_) {
            1
        } else {
            0
        };
        let ghost kstar: GalleryKey = (dpv, op_name(*op));

        if !path_starts_with(dir_path, &self.path) {
            return Err(GalleryError::PathResolve);
        }
        let at_target: bool = path_eq(&self.path, dir_path);

        let mut new_node = ImageGallery::new(clone_path(&self.path));
        let mut count: u32 = 0;
        let mut found: bool = false;

        proof {
            lemma_counts_sum_nonneg(s);
            assert(s.take(0) =~= Seq::<Arc<ImageGallery>>::empty());
            assert(children_map(s.take(0)) =~= Map::<GalleryKey, ImageInfo>::empty());
        }

        let n: usize = self.sub_galleries.len();
        let mut i: usize = 0;
        while i < n
            invariant
                i <= n,
                new_node.path_view() == pp,
                new_node.path@.len() == self.path@.len(),
                new_node.images@.len() == 0,
                children_wf(pp, new_node.sub_galleries@),
                count as int == counts_sum(new_node.sub_galleries@),
                counts_sum(new_node.sub_galleries@) <= counts_sum(s.take(i as int)) + adj,
                found <==> exists|i2: int|
                    0 <= i2 < i && is_path_prefix((#[trigger] s[i2]).path_view(), dpv),
                !found ==> new_node.sub_galleries@ == s.take(i as int),
                found ==> children_map(new_node.sub_galleries@) == spec_apply(
                    children_map(s.take(i as int)),
                    dpv,
                    *op,
                ),
                forall|j: int|
                    0 <= j < new_node.sub_galleries@.len() && !is_path_prefix(
                        (#[trigger] new_node.sub_galleries@[j]).path_view(),
                        dpv,
                    ) ==> s.contains(new_node.sub_galleries@[j]),
                forall|j: int|
                    0 <= j < new_node.sub_galleries@.len() ==> exists|i2: int|
                        0 <= i2 < i && (#[trigger] new_node.sub_galleries@[j]).path_view()
                            == s[i2].path_view(),
            decreases n - i,
        {
            let ghost ns = new_node.sub_galleries@;
            let ghost pre = s.take(i as int);
            let ghost pre1 = s.take(i as int + 1);
            proof {
                assert(pre1 =~= pre.push(s[i as int]));
                lemma_children_map_push(pre, s[i as int]);
                lemma_counts_sum_take_le(s, i as int + 1);
                assert(children_wf(pp, pre)) by {
                    assert(forall|j: int| 0 <= j < pre.len() ==> pre[j] == s[j]);
                }
            }
            let child: &Arc<ImageGallery> = &self.sub_galleries[i];
            proof {
                assert(child.wf());
                lemma_wf_as_map(&**child);
            }
            if path_starts_with(dir_path, &child.path) {
                proof {
                    // No two children can cover the same target.
                    assert(!found) by {
                        if found {
                            let i2 = choose|i2: int|
                                0 <= i2 < i && is_path_prefix((#[trigger] s[i2]).path_view(), dpv);
                            assert(s[i2].path_view() =~= child.path_view()) by {
                                assert(dpv.take((pp.len() + 1) as int) == s[i2].path_view());
                                assert(dpv.take((pp.len() + 1) as int) == child.path_view());
                            }
                        }
                    }
                    // The target key is not in the part assembled so far: that
                    // would take an earlier child covering the target.
                    assert(!children_map(pre).dom().contains(kstar)) by {
                        lemma_children_map_props(pp, pre);
                        if children_map(pre).dom().contains(kstar) {
                            let i2 = choose|i2: int|
                                0 <= i2 < pre.len() && is_path_prefix(
                                    (#[trigger] pre[i2]).path_view(),
                                    kstar.0,
                                );
                            assert(s[i2] == pre[i2]);
                            assert(found);
                        }
                    }
                    // The child's own count is within the total.
                    assert(child.imagecount as int <= counts_sum(s)) by {
                        lemma_counts_sum_take_le(s, i as int);
                        lemma_counts_sum_nonneg(pre);
                    }
                }
                let nc = match child.modify(dir_path, op) {
                    Ok(nc) => nc,
                    Err(e) => {
                        proof {
                            assert(false);
                        }
                        return Err(e);
                    },
                };
                found = true;
                proof {
                    lemma_wf_as_map(&*nc);
                    let c = child.as_map();
                    lemma_apply_union_left(children_map(pre), c, dpv, *op);
                    if nc.as_map().dom().len() == 0 {
                        assert(nc.as_map().dom() =~= Set::<GalleryKey>::empty());
                        assert(nc.as_map() =~= Map::<GalleryKey, ImageInfo>::empty());
                    }
                    // Size of the applied child map stays within one of the old.
                    assert(nc.imagecount as int <= child.imagecount as int + adj) by {
                        match op {
                            GalleryModification::Add(r) => {
                                if !c.dom().contains(kstar) {
                                    assert(c.insert(kstar, **r).dom() =~= c.dom().insert(kstar));
                                }
                            },
                            GalleryModification::Remove(_) => {
                                assert(c.remove(kstar).dom() =~= c.dom().remove(kstar));
                                vstd::set_lib::lemma_len_subset(
                                    c.remove(kstar).dom(),
                                    c.dom(),
                                );
                            },
                        }
                    }
                }
                if nc.imagecount > 0 {
                    proof {
                        lemma_children_map_push(new_node.sub_galleries@, nc);
                        assert(counts_sum(pre1) <= counts_sum(s));
                        assert(counts_sum(s) <= self.imagecount as int);
                    }
                    count = count + nc.imagecount;
                    let ghost nspush = ns.push(nc);
                    new_node.sub_galleries.push(nc);
                    proof {
                        assert(new_node.sub_galleries@ == nspush);
                        assert(forall|j: int| 0 <= j < ns.len() ==> nspush[j] == ns[j]);
                        assert(nc.path_view() == s[i as int].path_view());
                        assert forall|j: int| 0 <= j < ns.len() implies str_lt(
                            (#[trigger] nspush[j]).path_view().last(),
                            nc.path_view().last(),
                        ) by {
                            let i2 = choose|i2: int|
                                0 <= i2 < i && (#[trigger] ns[j]).path_view() == s[i2].path_view();
                            assert(str_lt(
                                s[i2].path_view().last(),
                                s[i as int].path_view().last(),
                            ));
                        }
                        assert(children_wf(pp, nspush));
                        assert(children_map(nspush) == spec_apply(children_map(pre1), dpv, *op));
                    }
                } else {
                    proof {
                        assert(nc.as_map() == Map::<GalleryKey, ImageInfo>::empty());
                        assert(children_map(ns).union_prefer_right(nc.as_map()) =~= children_map(
                            ns,
                        ));
                        assert(children_map(ns) == spec_apply(children_map(pre1), dpv, *op));
                        lemma_counts_sum_nonneg(pre);
                        assert(counts_sum(ns) <= counts_sum(pre1) + adj);
                    }
                }
            } else {
                proof {
                    // An untouched child holds no key at the target path.
                    assert(!child.as_map().dom().contains(kstar)) by {
                        if child.as_map().dom().contains(kstar) {
                            assert(is_path_prefix(child.path_view(), dpv));
                        }
                    }
                }
                let cl: Arc<ImageGallery> = child.clone();
                proof {
                    assert(cl == s[i as int]);
                    lemma_children_map_push(ns, cl);
                    assert(counts_sum(pre1) <= counts_sum(s));
                    assert(counts_sum(s) <= self.imagecount as int);
                    if found {
                        lemma_apply_union_right(children_map(pre), child.as_map(), dpv, *op);
                    }
                }
                count = count + cl.imagecount;
                let ghost nspush = ns.push(cl);
                new_node.sub_galleries.push(cl);
                proof {
                    assert(new_node.sub_galleries@ == nspush);
                    assert(s.contains(nspush[ns.len() as int])) by {
                        assert(s[i as int] == nspush[ns.len() as int]);
                    }
                    if !found {
                        assert(nspush =~= pre1);
                    }
                    assert(forall|j: int| 0 <= j < ns.len() ==> nspush[j] == ns[j]);
                    assert forall|j: int| 0 <= j < ns.len() implies str_lt(
                        (#[trigger] nspush[j]).path_view().last(),
                        cl.path_view().last(),
                    ) by {
                        let i2 = choose|i2: int|
                            0 <= i2 < i && (#[trigger] ns[j]).path_view() == s[i2].path_view();
                        assert(str_lt(s[i2].path_view().last(), s[i as int].path_view().last()));
                    }
                    assert(children_wf(pp, nspush));
                }
            }
            i = i + 1;
        }
        proof {
            assert(s.take(n as int) =~= s);
        }

        // Copy forward the images held directly at this level.
        let ghost nsf = new_node.sub_galleries@;
        let m: usize = self.images.len();
        let mut j: usize = 0;
        while j < m
            invariant
                j <= m,
                new_node.sub_galleries@ == nsf,
                new_node.path_view() == pp,
                new_node.path@.len() == self.path@.len(),
                new_node.images@ == self.images@.take(j as int),
                count as int == counts_sum(nsf) + j,
            decreases m - j,
        {
            proof {
                assert(counts_sum(nsf) <= counts_sum(s) + adj);
                assert(counts_sum(s) + self.images@.len() == self.imagecount as int);
            }
            count = count + 1;
            new_node.images.push(self.images[j].clone());
            proof {
                assert(new_node.images@ =~= self.images@.take(j as int + 1));
            }
            j = j + 1;
        }
        proof {
            assert(self.images@.take(m as int) =~= self.images@);
            assert(new_node.images@ == self.images@);
            lemma_images_map_props(pp, self.images@);
            lemma_children_map_props(pp, nsf);
        }

        if at_target {
            proof {
                // At the target no child can have covered it, so the children
                // were carried over unchanged.
                assert(!found) by {
                    if found {
                        let i2 = choose|i2: int|
                            0 <= i2 < n && is_path_prefix((#[trigger] s[i2]).path_view(), dpv);
                    }
                }
                assert(new_node.sub_galleries@ == s);
                assert(!children_map(s).dom().contains(kstar));
            }
            match op {
                GalleryModification::Add(r) => {
                    let idx = find_image_index(&new_node.images, &r.name);
                    match idx {
                        Some(_) => {
                            proof {
                                assert(images_map(pp, self.images@).dom().contains(kstar));
                            }
                        },
                        None => {
                            proof {
                                assert(!images_map(pp, self.images@).dom().contains(kstar));
                                assert(count as int == counts_sum(s) + self.images@.len());
                            }
                            let ghost imgs = new_node.images@;
                            let pos = find_image_insert_pos(&new_node.images, &r.name);
                            let rc: Arc<ImageInfo> = r.clone();
                            let ghost rv = rc;
                            new_node.images.insert(pos, rc);
                            count = count + 1;
                            proof {
                                lemma_images_map_insert(pp, imgs, pos as int, rv);
                                assert(new_node.images@ == imgs.insert(pos as int, rv));
                                assert((pp, rv.name@) == kstar);
                                assert(images_map(pp, new_node.images@) == images_map(
                                    pp,
                                    self.images@,
                                ).insert(kstar, *rv));
                                let ni = new_node.images@;
                                assert(forall|q: int| 0 <= q < pos ==> ni[q] == imgs[q]);
                                assert(forall|q: int|
                                    pos < q < ni.len() ==> ni[q] == imgs[q - 1]);
                                assert(ni[pos as int] == rv);
                                assert(images_wf(ni)) by {
                                    assert forall|q1: int, q2: int|
                                        0 <= q1 < q2 < ni.len() implies str_lt(
                                        ni[q1].name@,
                                        ni[q2].name@,
                                    ) && ni[q1].name@ != ni[q2].name@ by {
                                        if q1 == pos {
                                            lemma_str_lt_trichotomy(
                                                rv.name@,
                                                imgs[q2 - 1].name@,
                                            );
                                        }
                                    }
                                }
                            }
                        },
                    }
                },
                GalleryModification::Remove(r) => {
                    let idx = find_image_index(&new_node.images, &r.name);
                    match idx {
                        Some(ix) => {
                            proof {
                                lemma_images_map_remove(pp, self.images@, ix as int);
                            }
                            let ghost imgs = new_node.images@;
                            new_node.images.remove(ix);
                            count = count - 1;
                            proof {
                                assert(new_node.images@ == imgs.remove(ix as int));
                                assert(images_wf(new_node.images@)) by {
                                    assert(forall|q: int|
                                        0 <= q < imgs.len() - 1
                                            ==> new_node.images@[q] == if q < ix {
                                            imgs[q]
                                        } else {
                                            imgs[q + 1]
                                        });
                                }
                            }
                        },
                        None => {
                            proof {
                                assert(!images_map(pp, self.images@).dom().contains(kstar));
                            }
                        },
                    }
                },
            }
        } else if !found {
            // No existing child leads towards the target: synthesize the next
            // step on the way to it.
            proof {
                assert(pp.len() < dpv.len()) by {
                    if pp.len() == dpv.len() {
                        assert(dpv.take(pp.len() as int) =~= dpv);
                    }
                }
            }
            let step: String = dir_path[self.path.len()].clone();
            let mut subpath = clone_path(&self.path);
            subpath.push(step.clone());
            let fresh = ImageGallery::new(subpath);
            proof {
                assert(fresh.path_view() =~= dpv.take((pp.len() + 1) as int)) by {
                    assert(fresh.path_view().len() == pp.len() + 1);
                    assert(forall|q: int|
                        0 <= q < pp.len() ==> fresh.path_view()[q] == pp[q] && pp[q] == dpv[q]);
                    assert(fresh.path_view()[pp.len() as int] == dpv[pp.len() as int]);
                }
                assert(is_path_prefix(fresh.path_view(), dpv)) by {
                    assert(dpv.take((pp.len() + 1) as int) == fresh.path_view());
                }
            }
            let nc = match fresh.modify(dir_path, op) {
                Ok(nc) => nc,
                Err(e) => {
                    proof {
                        assert(false);
                    }
                    return Err(e);
                },
            };
            proof {
                lemma_wf_as_map(&*nc);
                assert(fresh.as_map() == Map::<GalleryKey, ImageInfo>::empty());
            }
            match op {
                GalleryModification::Add(r) => {
                    proof {
                        assert(nc.as_map() == Map::<GalleryKey, ImageInfo>::empty().insert(
                            kstar,
                            **r,
                        ));
                        assert(nc.as_map().dom() =~= Set::<GalleryKey>::empty().insert(kstar));
                        assert(nc.as_map().dom().len() == 1);
                        assert(nc.imagecount == 1);
                    }
                },
                GalleryModification::Remove(_) => {
                    proof {
                        assert(nc.as_map() =~= Map::<GalleryKey, ImageInfo>::empty());
                        assert(nc.as_map().dom() =~= Set::<GalleryKey>::empty());
                        assert(nc.imagecount == 0);
                    }
                },
            }
            if nc.imagecount > 0 {
                proof {
                    // The synthesized path is new among the children: a child
                    // with that path would have covered the target.
                    assert(forall|q: int|
                        0 <= q < nsf.len() ==> (#[trigger] nsf[q]).path_view()
                            != nc.path_view()) by {
                        assert forall|q: int| 0 <= q < nsf.len() implies (
                        #[trigger] nsf[q]).path_view() != nc.path_view() by {
                            if nsf[q].path_view() == nc.path_view() {
                                assert(is_path_prefix(s[q].path_view(), dpv));
                            }
                        }
                    }
                    assert(nc.path_view() == fresh.path_view());
                    assert(nc.path_view().last() == step@);
                    assert(nc.path_view().len() == pp.len() + 1);
                    assert(nc.path_view().take(pp.len() as int) =~= pp) by {
                        assert(forall|q2: int|
                            0 <= q2 < pp.len() ==> fresh.path_view()[q2] == dpv[q2]);
                        assert(forall|q2: int| 0 <= q2 < pp.len() ==> dpv[q2] == pp[q2]);
                    }
                    assert(forall|q: int|
                        0 <= q < nsf.len() ==> (#[trigger] nsf[q]).path@.len() >= 1);
                }
                let pos = find_child_insert_pos(&new_node.sub_galleries, &step);
                let ghost ncv = nc;
                let ghost nsins = new_node.sub_galleries@.insert(pos as int, nc);
                let ghost imgs = new_node.images@;
                proof {
                    // The synthesized subtree holds exactly the new entry, a
                    // key no present child can hold.
                    assert forall|j: int, k: GalleryKey|
                        0 <= j < nsf.len() && (#[trigger] nsf[j].as_map().dom().contains(k))
                            implies !ncv.as_map().dom().contains(k) by {
                        if ncv.as_map().dom().contains(k) {
                            assert(k == kstar);
                            assert(children_map(nsf).dom().contains(kstar));
                            let i2 = choose|i2: int|
                                0 <= i2 < nsf.len() && is_path_prefix(
                                    (#[trigger] nsf[i2]).path_view(),
                                    kstar.0,
                                );
                        }
                    }
                    lemma_children_map_insert(nsf, pos as int, ncv);
                }
                new_node.sub_galleries.insert(pos, nc);
                count = count + 1;
                proof {
                    assert(new_node.images@ == imgs);
                    assert(new_node.sub_galleries@ == nsins);
                    assert(forall|q: int| 0 <= q < pos ==> nsins[q] == nsf[q]);
                    assert(forall|q: int| pos < q < nsins.len() ==> nsins[q] == nsf[q - 1]);
                    assert(nsins[pos as int] == ncv);
                    // Distinguishing components stay distinct and ordered.
                    assert forall|q: int|
                        0 <= q < nsf.len() implies (#[trigger] nsf[q]).path_view().last()
                        != ncv.path_view().last() by {
                        if nsf[q].path_view().last() == ncv.path_view().last() {
                            assert(nsf[q].path_view() =~= ncv.path_view()) by {
                                assert(forall|q2: int|
                                    0 <= q2 < pp.len() ==> nsf[q].path_view()[q2] == pp[q2]
                                        && ncv.path_view()[q2] == pp[q2]);
                                assert(nsf[q].path_view()[pp.len() as int] == nsf[q].path_view()
                                    .last());
                                assert(ncv.path_view()[pp.len() as int] == ncv.path_view().last());
                            }
                        }
                    }
                    assert(children_wf(pp, nsins)) by {
                        assert forall|q1: int, q2: int|
                            0 <= q1 < q2 < nsins.len() implies str_lt(
                            nsins[q1].path_view().last(),
                            nsins[q2].path_view().last(),
                        ) && nsins[q1].path_view() != nsins[q2].path_view() by {
                            if q1 == pos {
                                lemma_str_lt_trichotomy(
                                    ncv.path_view().last(),
                                    nsf[q2 - 1].path_view().last(),
                                );
                            }
                        }
                    }
                    lemma_apply_union_left(
                        children_map(nsf),
                        Map::<GalleryKey, ImageInfo>::empty(),
                        dpv,
                        *op,
                    );
                    assert(children_map(nsf).union_prefer_right(
                        Map::<GalleryKey, ImageInfo>::empty(),
                    ) =~= children_map(nsf));
                    assert(children_map(nsins) == spec_apply(children_map(nsf), dpv, *op));
                    // Kept children are the old ones; only the synthesized
                    // node, which lies on the way to the target, is new.
                    assert forall|j: int|
                        0 <= j < nsins.len() && !is_path_prefix(
                            (#[trigger] nsins[j]).path_view(),
                            dpv,
                        ) implies s.contains(nsins[j]) by {
                        assert(is_path_prefix(ncv.path_view(), dpv));
                        if j < pos {
                            assert(nsins[j] == nsf[j]);
                        } else if j > pos {
                            assert(nsins[j] == nsf[j - 1]);
                        }
                    }
                }
            } else {
                proof {
                    lemma_apply_union_left(
                        children_map(nsf),
                        Map::<GalleryKey, ImageInfo>::empty(),
                        dpv,
                        *op,
                    );
                    assert(children_map(nsf).union_prefer_right(
                        Map::<GalleryKey, ImageInfo>::empty(),
                    ) =~= children_map(nsf));
                    assert(children_map(nsf).union_prefer_right(spec_apply(
                        Map::<GalleryKey, ImageInfo>::empty(),
                        dpv,
                        *op,
                    )) =~= children_map(nsf));
                    assert(children_map(new_node.sub_galleries@) == spec_apply(
                        children_map(nsf),
                        dpv,
                        *op,
                    ));
                }
            }
        }

        new_node.imagecount = count;
        let result = Arc::new(new_node);
        proof {
            let g = *result;
            let im = images_map(pp, self.images@);
            let cm = children_map(s);
            if at_target {
                assert(images_map(pp, g.images@) == spec_apply(im, dpv, *op));
                lemma_apply_union_left(cm, im, dpv, *op);
                assert(g.as_map() == spec_apply(self.as_map(), dpv, *op));
            } else {
                assert(!im.dom().contains(kstar)) by {
                    if im.dom().contains(kstar) {
                        assert(kstar.0 == pp);
                        if pp.len() == dpv.len() {
                            assert(dpv.take(pp.len() as int) =~= dpv);
                        }
                    }
                }
                assert(images_map(pp, g.images@) == im);
                assert(children_map(g.sub_galleries@) == spec_apply(cm, dpv, *op));
                lemma_apply_union_right(cm, im, dpv, *op);
                assert(g.as_map() == spec_apply(self.as_map(), dpv, *op));
            }
            assert(g.wf()) by {
                assert(children_wf(pp, g.sub_galleries@));
                assert(images_wf(g.images@));
            }
        }
        Ok(result)
    }
}

/// Applying a modification below `m` commutes with a union whose right side
/// does not hold the target key.
pub proof fn lemma_apply_union_right(
    m: Map<GalleryKey, ImageInfo>,
    c: Map<GalleryKey, ImageInfo>,
    p: Seq<Seq<char>>,
    op: GalleryModification,
)
    requires
        !c.dom().contains((p, op_name(op))),
    ensures
        spec_apply(m, p, op).union_prefer_right(c) == spec_apply(m.union_prefer_right(c), p, op),
{
    let k = (p, op_name(op));
    match op {
        GalleryModification::Add(r) => {
            if m.dom().contains(k) {
                assert(m.union_prefer_right(c).dom().contains(k));
            } else {
                assert(!m.union_prefer_right(c).dom().contains(k));
                assert(m.insert(k, *r).union_prefer_right(c) =~= m.union_prefer_right(c).insert(
                    k,
                    *r,
                ));
            }
        },
        GalleryModification::Remove(_) => {
            assert(m.remove(k).union_prefer_right(c) =~= m.union_prefer_right(c).remove(k));
        },
    }
}

/// Applying a modification inside the right side of a union commutes with
/// the union when the left side does not hold the target key.
pub proof fn lemma_apply_union_left(
    m: Map<GalleryKey, ImageInfo>,
    c: Map<GalleryKey, ImageInfo>,
    p: Seq<Seq<char>>,
    op: GalleryModification,
)
    requires
        !m.dom().contains((p, op_name(op))),
    ensures
        m.union_prefer_right(spec_apply(c, p, op)) == spec_apply(m.union_prefer_right(c), p, op),
{
    let k = (p, op_name(op));
    match op {
        GalleryModification::Add(r) => {
            if c.dom().contains(k) {
                assert(m.union_prefer_right(c).dom().contains(k));
            } else {
                assert(!m.union_prefer_right(c).dom().contains(k));
                assert(m.union_prefer_right(c.insert(k, *r)) =~= m.union_prefer_right(c).insert(
                    k,
                    *r,
                ));
            }
        },
        GalleryModification::Remove(_) => {
            assert(m.union_prefer_right(c.remove(k)) =~= m.union_prefer_right(c).remove(k));
        },
    }
}


/// Inserting an image whose name is new extends the image map by one
/// entry, wherever in the vector it lands.
pub proof fn lemma_images_map_insert(
    pp: Seq<Seq<char>>,
    imgs: Seq<Arc<ImageInfo>>,
    q: int,
    r: Arc<ImageInfo>,
)
    requires
        0 <= q <= imgs.len(),
        forall|j: int| 0 <= j < imgs.len() ==> (#[trigger] imgs[j]).name@ != r.name@,
    ensures
        images_map(pp, imgs.insert(q, r)) == images_map(pp, imgs).insert((pp, r.name@), *r),
    decreases imgs.len(),
{
    if q == imgs.len() {
        assert(imgs.insert(q, r) =~= imgs.push(r));
        lemma_images_map_push(pp, imgs, r);
    } else {
        let dl = imgs.drop_last();
        assert(imgs.insert(q, r).drop_last() =~= dl.insert(q, r));
        assert(imgs.insert(q, r).last() == imgs.last());
        assert(forall|j: int| 0 <= j < dl.len() ==> dl[j] == imgs[j]);
        lemma_images_map_insert(pp, dl, q, r);
        assert(imgs[imgs.len() - 1] == imgs.last());
        assert(images_map(pp, dl).insert((pp, r.name@), *r).insert(
            (pp, imgs.last().name@),
            *imgs.last(),
        ) =~= images_map(pp, dl).insert((pp, imgs.last().name@), *imgs.last()).insert(
            (pp, r.name@),
            *r,
        ));
    }
}

/// Inserting a node that shares no key with the present children unions
/// its map in, wherever in the vector it lands.
pub proof fn lemma_children_map_insert(s: Seq<Arc<ImageGallery>>, q: int, c: Arc<ImageGallery>)
    requires
        0 <= q <= s.len(),
        forall|j: int, k: GalleryKey|
            0 <= j < s.len() && (#[trigger] s[j].as_map().dom().contains(k)) ==> !c.as_map().dom()
                .contains(k),
    ensures
        children_map(s.insert(q, c)) == children_map(s).union_prefer_right(c.as_map()),
        counts_sum(s.insert(q, c)) == counts_sum(s) + c.imagecount as int,
    decreases s.len(),
{
    if q == s.len() {
        assert(s.insert(q, c) =~= s.push(c));
        lemma_children_map_push(s, c);
    } else {
        let dl = s.drop_last();
        assert(s.insert(q, c).drop_last() =~= dl.insert(q, c));
        assert(s.insert(q, c).last() == s.last());
        assert(forall|j: int| 0 <= j < dl.len() ==> dl[j] == s[j]);
        lemma_children_map_insert(dl, q, c);
        let a = children_map(dl);
        let cm = c.as_map();
        let lm = s.last().as_map();
        assert forall|k: GalleryKey| lm.dom().contains(k) implies !cm.dom().contains(k) by {
            assert(s[s.len() - 1].as_map().dom().contains(k));
        }
        assert(a.union_prefer_right(cm).union_prefer_right(lm) =~= a.union_prefer_right(
            lm,
        ).union_prefer_right(cm));
    }
}

/// The position a record named `name` belongs at among images sorted by
/// name: everything before is smaller, nothing from there on is.
#[verifier::loop_isolation(false)]
pub(crate) fn find_image_insert_pos(images: &Vec<Arc<ImageInfo>>, name: &String) -> (pos: usize)
    requires
        forall|i: int, j: int|
            0 <= i < j < images@.len() ==> str_lt(images@[i].name@, images@[j].name@),
    ensures
        pos <= images@.len(),
        forall|q: int| 0 <= q < pos ==> str_lt(images@[q].name@, name@),
        forall|q: int| pos <= q < images@.len() ==> !str_lt(images@[q].name@, name@),
{
    let n: usize = images.len();
    for i in 0..n
        invariant
            forall|q: int| 0 <= q < i ==> str_lt(images@[q].name@, name@),
    {
        if !str_less(images[i].name.as_str(), name.as_str()) {
            proof {
                assert forall|q: int| i <= q < images@.len() implies !str_lt(
                    images@[q].name@,
                    name@,
                ) by {
                    if q > i && str_lt(images@[q].name@, name@) {
                        lemma_str_lt_trans(images@[i as int].name@, images@[q].name@, name@);
                    }
                }
            }
            return i;
        }
    }
    n
}

/// The position a node with distinguishing component `comp` belongs at
/// among sorted children.
#[verifier::loop_isolation(false)]
pub(crate) fn find_child_insert_pos(children: &Vec<Arc<ImageGallery>>, comp: &String) -> (pos: usize)
    requires
        forall|i: int| 0 <= i < children@.len() ==> (#[trigger] children@[i]).path@.len() >= 1,
        forall|i: int, j: int|
            0 <= i < j < children@.len() ==> str_lt(
                children@[i].path_view().last(),
                children@[j].path_view().last(),
            ),
    ensures
        pos <= children@.len(),
        forall|q: int| 0 <= q < pos ==> str_lt(children@[q].path_view().last(), comp@),
        forall|q: int|
            pos <= q < children@.len() ==> !str_lt(children@[q].path_view().last(), comp@),
{
    let n: usize = children.len();
    for i in 0..n
        invariant
            forall|q: int| 0 <= q < i ==> str_lt(children@[q].path_view().last(), comp@),
    {
        let child: &Arc<ImageGallery> = &children[i];
        let plen: usize = child.path.len();
        proof {
            assert(child.path_view().last() == child.path@[plen - 1]@);
        }
        if !str_less(child.path[plen - 1].as_str(), comp.as_str()) {
            proof {
                assert forall|q: int| i <= q < children@.len() implies !str_lt(
                    children@[q].path_view().last(),
                    comp@,
                ) by {
                    if q > i && str_lt(children@[q].path_view().last(), comp@) {
                        lemma_str_lt_trans(
                            children@[i as int].path_view().last(),
                            children@[q].path_view().last(),
                            comp@,
                        );
                    }
                }
            }
            return i;
        }
    }
    n
}

/// Index of the image named `name` among `images`, if any.
fn find_image_index(images: &Vec<Arc<ImageInfo>>, name: &String) -> (r: Option<usize>)
    ensures
        match r {
            Some(i) => i < images@.len() && images@[i as int].name@ == name@,
            None => forall|j: int| 0 <= j < images@.len() ==> images@[j].name@ != name@,
        },
{
    let n: usize = images.len();
    for i in 0..n
        invariant
            n == images@.len(),
            forall|j: int| 0 <= j < i ==> images@[j].name@ != name@,
    {
        if images[i].name.eq(name) {
            return Some(i);
        }
    }
    None
}

/// Appending an image extends the image map by one entry.
pub proof fn lemma_images_map_push(pp: Seq<Seq<char>>, imgs: Seq<Arc<ImageInfo>>, r: Arc<ImageInfo>)
    ensures
        images_map(pp, imgs.push(r)) == images_map(pp, imgs).insert((pp, r.name@), *r),
{
    assert(imgs.push(r).drop_last() =~= imgs);
    assert(imgs.push(r).last() == r);
}

/// Appending a child node unions its subtree map onto the children map.
pub proof fn lemma_children_map_push(s: Seq<Arc<ImageGallery>>, c: Arc<ImageGallery>)
    ensures
        children_map(s.push(c)) == children_map(s).union_prefer_right(c.as_map()),
        counts_sum(s.push(c)) == counts_sum(s) + c.imagecount as int,
{
    assert(s.push(c).drop_last() =~= s);
    assert(s.push(c).last() == c);
}

/// Shape of the image map of one node level: finite, one entry per image,
/// every key at this node's path, and keyed exactly by the image names.
pub proof fn lemma_images_map_props(pp: Seq<Seq<char>>, imgs: Seq<Arc<ImageInfo>>)
    requires
        images_wf(imgs),
    ensures
        images_map(pp, imgs).dom().finite(),
        images_map(pp, imgs).dom().len() == imgs.len(),
        forall|k: GalleryKey| #[trigger]
            images_map(pp, imgs).dom().contains(k) <==> (k.0 == pp && exists|i: int|
                0 <= i < imgs.len() && (#[trigger] imgs[i]).name@ == k.1),
        forall|i: int|
            0 <= i < imgs.len() ==> images_map(pp, imgs)[(pp, (#[trigger] imgs[i]).name@)]
                == *imgs[i],
    decreases imgs.len(),
{
    if imgs.len() == 0 {
        assert(images_map(pp, imgs) =~= Map::<GalleryKey, ImageInfo>::empty());
    } else {
        let pre = imgs.drop_last();
        let r = imgs.last();
        lemma_images_map_props(pp, pre);
        assert(forall|i: int| 0 <= i < pre.len() ==> pre[i] == imgs[i]);
        assert(!images_map(pp, pre).dom().contains((pp, r.name@)));
        assert forall|i: int| 0 <= i < imgs.len() implies images_map(pp, imgs)[
            (pp, (#[trigger] imgs[i]).name@)
        ] == *imgs[i] by {
            if i < imgs.len() - 1 {
                assert(imgs[i].name@ != r.name@);
            }
        }
    }
}

/// Shape of the children map: finite, as many entries as the counts say,
/// and every key strictly below the parent path, within some child.
pub proof fn lemma_children_map_props(pp: Seq<Seq<char>>, s: Seq<Arc<ImageGallery>>)
    requires
        children_wf(pp, s),
    ensures
        children_map(s).dom().finite(),
        children_map(s).dom().len() == counts_sum(s),
        forall|k: GalleryKey| #[trigger]
            children_map(s).dom().contains(k) ==> k.0.len() > pp.len() && is_path_prefix(
                pp,
                k.0,
            ),
        forall|k: GalleryKey| #[trigger]
            children_map(s).dom().contains(k) ==> exists|i: int|
                0 <= i < s.len() && is_path_prefix((#[trigger] s[i]).path_view(), k.0),
        forall|k: GalleryKey| #[trigger]
            children_map(s).dom().contains(k) ==> exists|i: int|
                0 <= i < s.len() && (#[trigger] s[i]).as_map().dom().contains(k)
                    && s[i].as_map()[k] == children_map(s)[k],
        forall|i: int, k: GalleryKey|
            0 <= i < s.len() && (#[trigger] s[i].as_map().dom().contains(k)) ==> children_map(
                s,
            ).dom().contains(k) && children_map(s)[k] == s[i].as_map()[k],
    decreases s,
{
    if s.len() == 0 {
        assert(children_map(s) =~= Map::<GalleryKey, ImageInfo>::empty());
    } else {
        let pre = s.drop_last();
        let c = s.last();
        lemma_children_map_props(pp, pre);
        lemma_wf_as_map(&*c);
        assert(forall|i: int| 0 <= i < pre.len() ==> pre[i] == s[i]);
        // The last child's keys are disjoint from the earlier children's keys:
        // both carry their child's path as a prefix, and those paths differ.
        assert forall|k: GalleryKey| children_map(pre).dom().contains(k) implies !c.as_map().dom()
            .contains(k) by {
            if c.as_map().dom().contains(k) {
                let i = choose|i: int|
                    0 <= i < pre.len() && is_path_prefix((#[trigger] pre[i]).path_view(), k.0);
                assert(is_path_prefix(s[i].path_view(), k.0));
                assert(is_path_prefix(c.path_view(), k.0));
                assert(s[i].path_view() =~= c.path_view()) by {
                    assert(k.0.take((pp.len() + 1) as int) == s[i].path_view());
                    assert(k.0.take((pp.len() + 1) as int) == c.path_view());
                }
            }
        }
        assert(children_map(s).dom() =~= children_map(pre).dom() + c.as_map().dom());
        lemma_set_disjoint_lens(children_map(pre).dom(), c.as_map().dom());
        // Keys of the last child lie strictly below pp as well.
        assert forall|k: GalleryKey| #[trigger]
            children_map(s).dom().contains(k) implies k.0.len() > pp.len() && is_path_prefix(
            pp,
            k.0,
        ) by {
            if c.as_map().dom().contains(k) {
                assert(is_path_prefix(c.path_view(), k.0));
                assert(k.0.take((pp.len() + 1) as int) == c.path_view());
                assert(k.0.take((pp.len() + 1) as int).take(pp.len() as int) =~= k.0.take(
                    pp.len() as int,
                ));
                assert(k.0.take(pp.len() as int) == pp);
            }
        }
        assert forall|k: GalleryKey| #[trigger]
            children_map(s).dom().contains(k) implies exists|i: int|
            0 <= i < s.len() && is_path_prefix((#[trigger] s[i]).path_view(), k.0) by {
            if c.as_map().dom().contains(k) {
                assert(is_path_prefix(s[s.len() - 1].path_view(), k.0));
            } else {
                let i = choose|i: int|
                    0 <= i < pre.len() && is_path_prefix((#[trigger] pre[i]).path_view(), k.0);
                assert(is_path_prefix(s[i].path_view(), k.0));
            }
        }
    }
}

/// Counts are sums of non-negative numbers.
pub proof fn lemma_counts_sum_nonneg(s: Seq<Arc<ImageGallery>>)
    ensures
        counts_sum(s) >= 0,
    decreases s.len(),
{
    if s.len() > 0 {
        lemma_counts_sum_nonneg(s.drop_last());
    }
}

/// A prefix of the children contributes at most the whole sum.
pub proof fn lemma_counts_sum_take_le(s: Seq<Arc<ImageGallery>>, i: int)
    requires
        0 <= i <= s.len(),
    ensures
        counts_sum(s.take(i)) <= counts_sum(s),
    decreases s.len(),
{
    if i == s.len() {
        assert(s.take(i) =~= s);
    } else {
        assert(s.take(i) =~= s.drop_last().take(i));
        lemma_counts_sum_take_le(s.drop_last(), i);
        lemma_counts_sum_nonneg(s);
    }
}

/// Removing the image at index `i` removes exactly its entry from the map.
pub proof fn lemma_images_map_remove(pp: Seq<Seq<char>>, imgs: Seq<Arc<ImageInfo>>, i: int)
    requires
        images_wf(imgs),
        0 <= i < imgs.len(),
    ensures
        images_map(pp, imgs.remove(i)) == images_map(pp, imgs).remove((pp, imgs[i].name@)),
    decreases imgs.len(),
{
    let k = (pp, imgs[i].name@);
    lemma_images_map_props(pp, imgs.drop_last());
    if i == imgs.len() - 1 {
        assert(imgs.remove(i) =~= imgs.drop_last());
        assert(!images_map(pp, imgs.drop_last()).dom().contains(k));
        assert(images_map(pp, imgs.remove(i)) =~= images_map(pp, imgs).remove(k));
    } else {
        let dl = imgs.drop_last();
        let last = imgs.last();
        assert(imgs.remove(i).drop_last() =~= dl.remove(i));
        assert(imgs.remove(i).last() == last);
        assert(forall|j: int| 0 <= j < dl.len() ==> dl[j] == imgs[j]);
        lemma_images_map_remove(pp, dl, i);
        // The removed key differs from the last image's key.
        assert(imgs[i].name@ != last.name@);
        assert(images_map(pp, imgs.remove(i)) =~= images_map(pp, imgs).remove(k));
    }
}

/// Everything a well-formed node holds sits at or below its own path.
pub proof fn lemma_subtree_whole(g: &ImageGallery)
    requires
        g.wf(),
    ensures
        subtree_entries(g.as_map(), g.path_view()) == g.as_map(),
{
    lemma_wf_as_map(g);
    assert(subtree_entries(g.as_map(), g.path_view()) =~= g.as_map());
}

/// A key of the whole node that lies below the child at index `i` is a key
/// of that child, with the same record.
pub proof fn lemma_key_in_covering_child(g: &ImageGallery, i: int, k: GalleryKey)
    requires
        g.wf(),
        0 <= i < g.sub_galleries@.len(),
        g.as_map().dom().contains(k),
        is_path_prefix(g.sub_galleries@[i].path_view(), k.0),
    ensures
        g.sub_galleries@[i].as_map().dom().contains(k),
        g.sub_galleries@[i].as_map()[k] == g.as_map()[k],
{
    let pp = g.path_view();
    let s = g.sub_galleries@;
    lemma_children_map_props(pp, s);
    lemma_images_map_props(pp, g.images@);
    assert(k.0.len() >= s[i].path_view().len());
    assert(!images_map(pp, g.images@).dom().contains(k)) by {
        if images_map(pp, g.images@).dom().contains(k) {
            assert(k.0 == pp);
        }
    }
    assert(children_map(s).dom().contains(k));
    let i2 = choose|i2: int|
        0 <= i2 < s.len() && (#[trigger] s[i2]).as_map().dom().contains(k) && s[i2].as_map()[k]
            == children_map(s)[k];
    lemma_wf_as_map(&*s[i2]);
    assert(s[i2].path_view() =~= s[i].path_view()) by {
        assert(k.0.take((pp.len() + 1) as int) == s[i2].path_view());
        assert(k.0.take((pp.len() + 1) as int) == s[i].path_view()) by {
            assert(k.0.take(s[i].path_view().len() as int) == s[i].path_view());
        }
    }
    assert(i2 == i) by {
        if i2 != i {
            assert(s[i2].path_view() != s[i].path_view());
        }
    }
    assert(g.as_map()[k] == children_map(s)[k]);
}

/// A key of the child at index `i` is a key of the whole node, with the
/// same record.
pub proof fn lemma_child_key_in_node(g: &ImageGallery, i: int, k: GalleryKey)
    requires
        g.wf(),
        0 <= i < g.sub_galleries@.len(),
        g.sub_galleries@[i].as_map().dom().contains(k),
    ensures
        g.as_map().dom().contains(k),
        g.sub_galleries@[i].as_map()[k] == g.as_map()[k],
        is_path_prefix(g.sub_galleries@[i].path_view(), k.0),
    decreases 0int,
{
    let pp = g.path_view();
    let s = g.sub_galleries@;
    lemma_children_map_props(pp, s);
    lemma_images_map_props(pp, g.images@);
    lemma_wf_as_map(&*s[i]);
    assert(children_map(s).dom().contains(k) && children_map(s)[k] == s[i].as_map()[k]);
    assert(!images_map(pp, g.images@).dom().contains(k)) by {
        if images_map(pp, g.images@).dom().contains(k) {
            assert(k.0 == pp);
        }
    }
}

/// When the child at index `i` lies on the way to `sv`, the entries of the
/// whole node at or below `sv` are exactly those of that child.
pub proof fn lemma_subtree_at_child(g: &ImageGallery, i: int, sv: Seq<Seq<char>>)
    requires
        g.wf(),
        0 <= i < g.sub_galleries@.len(),
        is_path_prefix(g.sub_galleries@[i].path_view(), sv),
    ensures
        subtree_entries(g.as_map(), sv) == subtree_entries(g.sub_galleries@[i].as_map(), sv),
{
    let s = g.sub_galleries@;
    let c = s[i];
    assert forall|k: GalleryKey| #![trigger subtree_entries(g.as_map(), sv).dom().contains(k)]
        subtree_entries(g.as_map(), sv).dom().contains(k) implies subtree_entries(
        c.as_map(),
        sv,
    ).dom().contains(k) && subtree_entries(c.as_map(), sv)[k] == subtree_entries(g.as_map(), sv)[k]
        by {
        assert(is_path_prefix(c.path_view(), k.0)) by {
            assert(k.0.take(sv.len() as int) == sv);
            assert(k.0.take(sv.len() as int).take(c.path_view().len() as int) =~= k.0.take(
                c.path_view().len() as int,
            ));
        }
        lemma_key_in_covering_child(g, i, k);
    }
    assert forall|k: GalleryKey| #![trigger subtree_entries(c.as_map(), sv).dom().contains(k)]
        subtree_entries(c.as_map(), sv).dom().contains(k) implies subtree_entries(
        g.as_map(),
        sv,
    ).dom().contains(k) by {
        lemma_child_key_in_node(g, i, k);
    }
    assert(subtree_entries(g.as_map(), sv).dom() =~= subtree_entries(c.as_map(), sv).dom());
    assert(subtree_entries(g.as_map(), sv) =~= subtree_entries(c.as_map(), sv));
}

/// Removing a record that is absent from the tree at the target path is a
/// true no-op: any tree whose model is the result of such a `modify` holds
/// the same images as the original, and the same count.
pub proof fn lemma_idempotent_remove(
    root: &ImageGallery,
    g: &ImageGallery,
    p: Seq<Seq<char>>,
    r: Arc<ImageInfo>,
)
    requires
        root.wf(),
        g.wf(),
        !root.as_map().dom().contains((p, r.name@)),
        g.as_map() == spec_apply(root.as_map(), p, GalleryModification::Remove(r)),
    ensures
        g.as_map() == root.as_map(),
        g.imagecount == root.imagecount,
{
    assert(root.as_map().remove((p, r.name@)) =~= root.as_map());
    lemma_wf_as_map(root);
    lemma_wf_as_map(g);
}

/// Adding a record that was absent at the target path and then removing it
/// again restores the original image sets and count.
pub proof fn lemma_add_remove_inverse(
    root: &ImageGallery,
    g1: &ImageGallery,
    g2: &ImageGallery,
    p: Seq<Seq<char>>,
    r: Arc<ImageInfo>,
)
    requires
        root.wf(),
        g1.wf(),
        g2.wf(),
        !root.as_map().dom().contains((p, r.name@)),
        g1.as_map() == spec_apply(root.as_map(), p, GalleryModification::Add(r)),
        g2.as_map() == spec_apply(g1.as_map(), p, GalleryModification::Remove(r)),
    ensures
        g2.as_map() == root.as_map(),
        g2.imagecount == root.imagecount,
{
    assert(root.as_map().insert((p, r.name@), *r).remove((p, r.name@)) =~= root.as_map());
    lemma_wf_as_map(root);
    lemma_wf_as_map(g2);
}

/// The count invariant, in global form: a well-formed node's `imagecount`
/// is exactly the number of images in its subtree, and every image sits at
/// or below the node's own path.
pub proof fn lemma_wf_as_map(g: &ImageGallery)
    requires
        g.wf(),
    ensures
        g.as_map().dom().finite(),
        g.as_map().dom().len() == g.imagecount as int,
        forall|k: GalleryKey| #[trigger]
            g.as_map().dom().contains(k) ==> is_path_prefix(g.path_view(), k.0),
        forall|k: GalleryKey| #[trigger]
            g.as_map().dom().contains(k) && k.0 == g.path_view()
                ==> images_map(g.path_view(), g.images@).dom().contains(k),
    decreases g,
{
    lemma_children_map_props(g.path_view(), g.sub_galleries@);
    lemma_images_map_props(g.path_view(), g.images@);
    let cm = children_map(g.sub_galleries@);
    let im = images_map(g.path_view(), g.images@);
    assert(g.as_map().dom() =~= cm.dom() + im.dom());
    assert forall|k: GalleryKey| cm.dom().contains(k) implies !im.dom().contains(k) by {
        if im.dom().contains(k) {
            assert(k.0 == g.path_view());
        }
    }
    lemma_set_disjoint_lens(cm.dom(), im.dom());
    assert forall|k: GalleryKey| #[trigger] g.as_map().dom().contains(k) implies is_path_prefix(
        g.path_view(),
        k.0,
    ) by {
        if im.dom().contains(k) {
            assert(k.0 == g.path_view());
            assert(k.0.take(g.path_view().len() as int) =~= g.path_view());
        }
    }
}

} // verus!
