//! Image files: type detection, content hashing, derivative planning, and
//! the decoding/resizing calls behind them.
//!
//! A file's content address is the hex form of its SHA-256 digest; the
//! derivative cache stores resized copies under `{digest}.jpg`, so a file
//! whose derivative already exists is never re-encoded.

use crate::gallery::children_map;
use crate::gallery::children_wf;
use crate::gallery::counts_sum;
use crate::gallery::images_map;
use crate::gallery::images_wf;
use crate::gallery::lemma_children_map_props;
use crate::gallery::find_child_insert_pos;
use crate::gallery::find_image_insert_pos;
use crate::gallery::lemma_children_map_insert;
use crate::gallery::lemma_images_map_insert;
use crate::gallery::lemma_wf_as_map;
use crate::gallery::GalleryKey;
use crate::gallery::GalleryModification;
use crate::gallery::ImageGallery;
use crate::gallery::ImageInfo;
use crate::gallery::spec_add_record;
use crate::paths::clone_path;
use crate::paths::is_path_prefix;
use crate::paths::path_view;
use crate::paths::lemma_str_lt_trichotomy;
use crate::paths::spec_join;
use crate::paths::str_lt;
use crate::paths::split_path;
use sha2::Digest;
use std::sync::Arc;
use vstd::prelude::*;

verus! {

#[verifier::external_type_specification]
#[verifier::external_body]
pub struct ExSha256(sha2::Sha256);

#[verifier::external_type_specification]
#[verifier::external_body]
pub struct ExDynamicImage(image::DynamicImage);

#[verifier::external_type_specification]
#[verifier::external_body]
pub struct ExImageError(image::ImageError);

/// The SHA-256 digest of a byte sequence, as 32 bytes.
pub uninterp spec fn sha256_of(bytes: Seq<u8>) -> Seq<u8>;

/// A streaming content hasher.  Bytes are fed in chunks, so hashing a file
/// needs memory independent of its size.  The fields stay private: the
/// fed-bytes model below is written only by the trusted methods here.
pub struct ContentHasher {
    inner: sha2::Sha256,
    fed: Ghost<Seq<u8>>,
}

impl ContentHasher {
    /// Everything fed so far.
    pub closed spec fn fed(&self) -> Seq<u8> {
        self.fed@
    }

    /// Relies on sha2's `Sha256::new`: a fresh digest over nothing.
    #[verifier::external_body]
    pub fn new() -> (h: ContentHasher)
        ensures
            h.fed() == Seq::<u8>::empty(),
    {
        ContentHasher { inner: sha2::Sha256::new(), fed: Ghost(Seq::empty()) }
    }

    /// Relies on sha2's `Digest::update`: feeds `chunk` into the digest.
    #[verifier::external_body]
    pub fn update(&mut self, chunk: &[u8])
        ensures
            final(self).fed() == old(self).fed() + chunk@,
    {
        self.inner.update(chunk);
    }

    /// Relies on sha2's `Digest::finalize`: the SHA-256 digest of all the
    /// bytes fed, which depends on those bytes alone; it is 32 bytes long.
    #[verifier::external_body]
    pub fn finalize(self) -> (r: Vec<u8>)
        ensures
            r@ == sha256_of(self.fed()),
            r@.len() == 32,
    {
        self.inner.finalize().to_vec()
    }
}

/// The hexadecimal digit for a value below 16, in upper case.
pub open spec fn hex_digit(n: u8) -> char {
    if n < 10 {
        (48 + n) as char
    } else {
        (55 + n) as char
    }
}

/// Two upper-case hex digits per byte, in order.
pub open spec fn hex_of(bytes: Seq<u8>) -> Seq<char>
    decreases bytes.len(),
{
    if bytes.len() == 0 {
        Seq::empty()
    } else {
        hex_of(bytes.drop_last()) + seq![
            hex_digit(bytes.last() / 16),
            hex_digit(bytes.last() % 16),
        ]
    }
}

/// Renders bytes as upper-case hexadecimal, two digits per byte.
#[verifier::loop_isolation(false)]
pub fn digest_to_hex(bytes: &Vec<u8>) -> (r: String)
    ensures
        r@ == hex_of(bytes@),
{
    let mut r = String::new();
    proof {
        assert(bytes@.take(0) =~= Seq::<u8>::empty());
    }
    let n: usize = bytes.len();
    for i in 0..n
        invariant
            r@ == hex_of(bytes@.take(i as int)),
    {
        let b = bytes[i];
        let hi: u8 = b / 16;
        let lo: u8 = b % 16;
        let c1: char = if hi < 10 {
            (48 + hi) as char
        } else {
            (55 + hi) as char
        };
        let c2: char = if lo < 10 {
            (48 + lo) as char
        } else {
            (55 + lo) as char
        };
        r.push(c1);
        r.push(c2);
        proof {
            assert(bytes@.take(i as int + 1).drop_last() =~= bytes@.take(i as int));
            assert(bytes@.take(i as int + 1).last() == bytes@[i as int]);
            assert(r@ =~= hex_of(bytes@.take(i as int + 1)));
        }
    }
    proof {
        assert(bytes@.take(n as int) =~= bytes@);
    }
    r
}

/// The content address of `bytes`: the hex form of its SHA-256 digest.
pub fn hash_bytes(bytes: &[u8]) -> (r: String)
    ensures
        r@ == hex_of(sha256_of(bytes@)),
{
    let mut hasher = ContentHasher::new();
    hasher.update(bytes);
    proof {
        assert(Seq::<u8>::empty() + bytes@ =~= bytes@);
    }
    let digest = hasher.finalize();
    digest_to_hex(&digest)
}

/// Does this file name carry the indexed image extension (`jpg`, in any
/// case), as the last dot-separated suffix of a non-empty file name?
pub open spec fn spec_is_image(s: Seq<char>) -> bool {
    &&& s.len() >= 5
    &&& s[s.len() - 4] == '.'
    &&& (s[s.len() - 3] == 'j' || s[s.len() - 3] == 'J')
    &&& (s[s.len() - 2] == 'p' || s[s.len() - 2] == 'P')
    &&& (s[s.len() - 1] == 'g' || s[s.len() - 1] == 'G')
    &&& s[s.len() - 5] != '/'
}

/// Is this the path of an indexable image file?
pub fn is_image(file: &str) -> (r: bool)
    ensures
        r == spec_is_image(file@),
{
    let len: usize = file.unicode_len();
    if len < 5 {
        return false;
    }
    let dot = file.get_char(len - 4);
    let c1 = file.get_char(len - 3);
    let c2 = file.get_char(len - 2);
    let c3 = file.get_char(len - 1);
    let c0 = file.get_char(len - 5);
    dot == '.' && (c1 == 'j' || c1 == 'J') && (c2 == 'p' || c2 == 'P') && (c3 == 'g' || c3 == 'G')
        && c0 != '/'
}

/// The cache file name of a derivative: the content address plus `.jpg`.
pub fn derivative_filename(hash: &String) -> (r: String)
    ensures
        r@ == hash@ + ".jpg"@,
{
    let mut r = hash.clone();
    r.append(".jpg");
    r
}

/// What to do for one derivative: nothing when the cache already holds the
/// file for this content address, otherwise encode and write it under the
/// derivative file name.  The name depends on the content address alone,
/// so identical content is encoded at most once.
pub fn plan_derivative(hash: &String, already_exists: bool) -> (r: Option<String>)
    ensures
        match r {
            Some(name) => !already_exists && name@ == hash@ + ".jpg"@,
            None => already_exists,
        },
{
    if already_exists {
        None
    } else {
        Some(derivative_filename(hash))
    }
}

/// Relies on image's `load_from_memory_with_format`: decodes `bytes` as a
/// JPEG image.
#[verifier::external_body]
fn decode_jpeg(bytes: &[u8]) -> (r: Result<image::DynamicImage, image::ImageError>)
{
    image::load_from_memory_with_format(bytes, image::ImageFormat::Jpeg)
}

/// Relies on image's `DynamicImage::width` and `height`.
#[verifier::external_body]
fn image_dimensions(img: &image::DynamicImage) -> (r: (u32, u32))
{
    (img.width(), img.height())
}

/// Relies on image's `DynamicImage::resize`: a copy scaled to the largest
/// size that fits within the bounds, keeping the aspect ratio, with the
/// Catmull-Rom filter.
#[verifier::external_body]
fn resize_image(img: &image::DynamicImage, max_width: u32, max_height: u32) -> (r:
    image::DynamicImage)
{
    img.resize(max_width, max_height, image::imageops::FilterType::CatmullRom)
}

/// Relies on image's `DynamicImage::write_to`: the image encoded as JPEG.
#[verifier::external_body]
fn encode_jpeg(img: &image::DynamicImage) -> (r: Result<Vec<u8>, image::ImageError>)
{
    let mut out: Vec<u8> = Vec::new();
    img.write_to(std::io::Cursor::new(&mut out), image::ImageFormat::Jpeg)?;
    Ok(out)
}

/// Relies on the `Display` impl of image's `ImageError`: its message text.
#[verifier::external_body]
fn image_error_text(e: &image::ImageError) -> (r: String)
{
    format!("{e}")
}

/// What file handling can fail with.
#[derive(Debug)]
pub enum ScannerError {
    Charset,
    Io(String),
    Context(crate::context::ContextError),
    DataStore(crate::db::DataStoreError),
    Fs,
}

/// A decoded source image together with its path and content address.
pub struct ImageFile {
    /// The file's path as the store keys it.
    pub path: String,
    /// The decoded pixels.
    pub image: image::DynamicImage,
    /// The hex content address of the encoded bytes.
    pub hash: String,
}

impl ImageFile {
    /// Decodes `bytes` (the file at `path`) and records its content
    /// address.
    pub fn build_from_bytes(path: String, bytes: &[u8]) -> (r: Result<ImageFile, ScannerError>)
        ensures
            match r {
                Ok(f) => f.path@ == path@ && f.hash@ == hex_of(sha256_of(bytes@)),
                Err(e) => e matches ScannerError::Io(_),
            },
    {
        let image = match decode_jpeg(bytes) {
            Ok(img) => img,
            Err(e) => {
                return Err(ScannerError::Io(image_error_text(&e)));
            },
        };
        let hash = hash_bytes(bytes);
        Ok(ImageFile { path, image, hash })
    }

    /// Decodes `bytes` (the file at `path`) whose content address was
    /// computed separately — typically streamed off the file in fixed
    /// chunks — and assembles the file around it.
    pub fn build_with_hash(path: String, bytes: &[u8], hash: String) -> (r: Result<
        ImageFile,
        ScannerError,
    >)
        ensures
            match r {
                Ok(f) => f.path@ == path@ && f.hash@ == hash@,
                Err(e) => e matches ScannerError::Io(_),
            },
    {
        let image = match decode_jpeg(bytes) {
            Ok(img) => img,
            Err(e) => {
                return Err(ScannerError::Io(image_error_text(&e)));
            },
        };
        Ok(ImageFile { path, image, hash })
    }

    /// The derivative of this image for the given bounds, encoded as JPEG;
    /// nothing to write when the cache already holds it.
    pub fn scale_to_jpeg(&self, max_width: u32, max_height: u32, already_exists: bool) -> (r:
        Result<Option<(String, Vec<u8>)>, ScannerError>)
        ensures
            match r {
                Ok(Some((name, _))) => !already_exists && name@ == self.hash@ + ".jpg"@,
                Ok(None) => already_exists,
                Err(e) => !already_exists && e matches ScannerError::Io(_),
            },
    {
        match plan_derivative(&self.hash, already_exists) {
            None => Ok(None),
            Some(name) => {
                let scaled = resize_image(&self.image, max_width, max_height);
                match encode_jpeg(&scaled) {
                    Ok(bytes) => Ok(Some((name, bytes))),
                    Err(e) => Err(ScannerError::Io(image_error_text(&e))),
                }
            },
        }
    }

    /// The record to persist for this file: its path, content address,
    /// pixel dimensions, and type tag, not yet assigned an id.
    pub fn build_info(&self) -> (r: ImageInfo)
        ensures
            r.id == 0,
            r.name@ == self.path@,
            r.hash@ == self.hash@,
            r.img_type@ == "JPEG"@,
            r.location_id is None,
            r.rating == 0,
    {
        let (width, height) = image_dimensions(&self.image);
        ImageInfo {
            id: 0,
            location_id: None,
            name: self.path.clone(),
            hash: self.hash.clone(),
            width,
            height,
            img_type: String::from_str("JPEG"),
            caption: String::new(),
            description: String::new(),
            rating: 0,
        }
    }
}

/// A path carried by a filesystem event, relative to the gallery root,
/// together with its components.
pub struct EventPath {
    /// The path as one string, the form the store keys records by.
    pub full: String,
    /// The same path split at `/` separators.
    pub components: Vec<String>,
}

impl EventPath {
    /// The components join back to the full string and are free of
    /// separators; there is at least one.
    pub open spec fn wf(&self) -> bool {
        &&& spec_join(path_view(self.components@)) == self.full@
        &&& self.components@.len() >= 1
        &&& forall|i: int, j: int|
            0 <= i < self.components@.len() && 0 <= j < self.components@[i]@.len()
                ==> self.components@[i]@[j] != '/'
    }

    /// The node path of the directory holding the named file.
    pub open spec fn parent_view(&self) -> Seq<Seq<char>> {
        path_view(self.components@).drop_last()
    }

    /// Splits `s` into an event path; only the empty string is refused.
    pub fn from_string(s: String) -> (r: Result<EventPath, ScannerError>)
        ensures
            match r {
                Ok(p) => p.wf() && p.full@ == s@,
                Err(_) => s@.len() == 0,
            },
    {
        let components = split_path(s.as_str());
        if components.len() == 0 {
            Err(ScannerError::Charset)
        } else {
            Ok(EventPath { full: s, components })
        }
    }
}

/// A debounced filesystem notification, with paths relative to the
/// gallery root.
pub enum WatchEvent {
    Create(EventPath),
    Remove(EventPath),
    Rename(EventPath, EventPath),
    Write(EventPath),
    Rescan,
}

/// Every path the event carries is well-formed.
pub open spec fn event_wf(e: &WatchEvent) -> bool {
    match e {
        WatchEvent::Create(p) => p.wf(),
        WatchEvent::Remove(p) => p.wf(),
        WatchEvent::Rename(f, t) => f.wf() && t.wf(),
        WatchEvent::Write(p) => p.wf(),
        WatchEvent::Rescan => true,
    }
}

/// Which path the store must be asked about before the event can be
/// applied: the created or removed file, or the source of a rename —
/// and only when it is an image file at all.
pub fn event_lookup_path(e: &WatchEvent) -> (r: Option<String>)
    ensures
        match e {
            WatchEvent::Create(p) | WatchEvent::Remove(p) => {
                if spec_is_image(p.full@) {
                    r matches Some(name) && name@ == p.full@
                } else {
                    r is None
                }
            },
            WatchEvent::Rename(f, _) => {
                if spec_is_image(f.full@) {
                    r matches Some(name) && name@ == f.full@
                } else {
                    r is None
                }
            },
            _ => r is None,
        },
{
    match e {
        WatchEvent::Create(p) | WatchEvent::Remove(p) => {
            if is_image(p.full.as_str()) {
                Some(p.full.clone())
            } else {
                None
            }
        },
        WatchEvent::Rename(f, _) => {
            if is_image(f.full.as_str()) {
                Some(f.full.clone())
            } else {
                None
            }
        },
        _ => None,
    }
}

/// What handling one event asks of the surrounding loop: install a new
/// root, hand a path to the deferred-indexing queue, both, or nothing.
pub enum EventOutcome {
    Install(Arc<ImageGallery>),
    Enqueue(String),
    InstallAndEnqueue(Arc<ImageGallery>, String),
    Ignore,
}

/// Applies one debounced event against the current root snapshot.
/// `looked_up` is the store's answer for `event_lookup_path(e)`: a known
/// file is added or removed directly in the tree, an unknown one goes to
/// the deferred-indexing queue; content writes and rescans change nothing.
#[verifier::loop_isolation(false)]
#[verifier::rlimit(60)]
pub fn apply_event(root: &ImageGallery, e: &WatchEvent, looked_up: Option<ImageInfo>) -> (r:
    EventOutcome)
    requires
        root.wf(),
        root.path@.len() == 0,
        event_wf(e),
        (e matches WatchEvent::Create(p) && spec_is_image(p.full@) && looked_up is Some)
            ==> root.imagecount < u32::MAX,
    ensures
        match e {
            WatchEvent::Create(p) => {
                if !spec_is_image(p.full@) {
                    r is Ignore
                } else {
                    match looked_up {
                        Some(rec) => r matches EventOutcome::Install(g) && g.wf() && g.as_map()
                            == spec_add_record(root.as_map(), p.parent_view(), rec),
                        None => r matches EventOutcome::Enqueue(name) && name@ == p.full@,
                    }
                }
            },
            WatchEvent::Remove(p) => {
                if !spec_is_image(p.full@) {
                    r is Ignore
                } else {
                    match looked_up {
                        Some(rec) => r matches EventOutcome::Install(g) && g.wf() && g.as_map()
                            == root.as_map().remove((p.parent_view(), rec.name@)),
                        None => r is Ignore,
                    }
                }
            },
            WatchEvent::Rename(f, t) => {
                if !spec_is_image(f.full@) {
                    r is Ignore
                } else {
                    match looked_up {
                        Some(rec) => r matches EventOutcome::InstallAndEnqueue(g, name) && g.wf()
                            && g.as_map() == root.as_map().remove((f.parent_view(), rec.name@))
                            && name@ == t.full@,
                        None => r matches EventOutcome::Enqueue(name) && name@ == t.full@,
                    }
                }
            },
            _ => r is Ignore,
        },
{
    match e {
        WatchEvent::Create(p) => {
            if !is_image(p.full.as_str()) {
                return EventOutcome::Ignore;
            }
            match looked_up {
                Some(rec) => {
                    let mut parent = clone_path(&p.components);
                    parent.pop();
                    proof {
                        assert(path_view(parent@) =~= p.parent_view());
                    }
                    let op = GalleryModification::Add(Arc::new(rec));
                    match root.modify(&parent, &op) {
                        Ok(g) => EventOutcome::Install(g),
                        Err(err) => {
                            proof {
                                assert(is_path_prefix(root.path_view(), path_view(parent@))) by {
                                    assert(path_view(parent@).take(0) =~= Seq::<Seq<char>>::empty());
                                    assert(root.path_view() =~= Seq::<Seq<char>>::empty());
                                }
                                assert(false);
                            }
                            EventOutcome::Ignore
                        },
                    }
                },
                None => EventOutcome::Enqueue(p.full.clone()),
            }
        },
        WatchEvent::Remove(p) => {
            if !is_image(p.full.as_str()) {
                return EventOutcome::Ignore;
            }
            match looked_up {
                Some(rec) => {
                    let mut parent = clone_path(&p.components);
                    parent.pop();
                    proof {
                        assert(path_view(parent@) =~= p.parent_view());
                    }
                    let op = GalleryModification::Remove(Arc::new(rec));
                    match root.modify(&parent, &op) {
                        Ok(g) => EventOutcome::Install(g),
                        Err(err) => {
                            proof {
                                assert(is_path_prefix(root.path_view(), path_view(parent@))) by {
                                    assert(path_view(parent@).take(0) =~= Seq::<Seq<char>>::empty());
                                    assert(root.path_view() =~= Seq::<Seq<char>>::empty());
                                }
                                assert(false);
                            }
                            EventOutcome::Ignore
                        },
                    }
                },
                None => EventOutcome::Ignore,
            }
        },
        WatchEvent::Rename(f, t) => {
            if !is_image(f.full.as_str()) {
                return EventOutcome::Ignore;
            }
            match looked_up {
                Some(rec) => {
                    let mut parent = clone_path(&f.components);
                    parent.pop();
                    proof {
                        assert(path_view(parent@) =~= f.parent_view());
                    }
                    let op = GalleryModification::Remove(Arc::new(rec));
                    match root.modify(&parent, &op) {
                        Ok(g) => EventOutcome::InstallAndEnqueue(g, t.full.clone()),
                        Err(err) => {
                            proof {
                                assert(is_path_prefix(root.path_view(), path_view(parent@))) by {
                                    assert(path_view(parent@).take(0) =~= Seq::<Seq<char>>::empty());
                                    assert(root.path_view() =~= Seq::<Seq<char>>::empty());
                                }
                                assert(false);
                            }
                            EventOutcome::Ignore
                        },
                    }
                },
                None => EventOutcome::Enqueue(t.full.clone()),
            }
        },
        WatchEvent::Write(_) => EventOutcome::Ignore,
        WatchEvent::Rescan => EventOutcome::Ignore,
    }
}

/// A snapshot of the directory tree to index: one node per directory,
/// with its path in components beneath the gallery root and the full
/// names of the regular files it holds.
pub struct DirTree {
    /// Components beneath the gallery root; empty at the root.
    pub path: Vec<String>,
    /// The directories one level below.
    pub subdirs: Vec<DirTree>,
    /// Full path names of the regular files directly here.
    pub files: Vec<String>,
}

impl DirTree {
    /// Every subdirectory sits one component below its parent, paths and
    /// file names are unique among siblings, recursively.
    pub open spec fn wf(&self) -> bool
        decreases self,
    {
        &&& forall|i: int| 0 <= i < self.subdirs@.len() ==> (#[trigger] self.subdirs@[i]).wf()
        &&& forall|i: int|
            0 <= i < self.subdirs@.len() ==> (#[trigger] self.subdirs@[i]).path@.len()
                == self.path@.len() + 1
        &&& forall|i: int|
            0 <= i < self.subdirs@.len() ==> path_view(
                (#[trigger] self.subdirs@[i]).path@,
            ).take(self.path@.len() as int) == path_view(self.path@)
        &&& forall|i: int, j: int|
            0 <= i < j < self.subdirs@.len() ==> path_view(self.subdirs@[i].path@) != path_view(
                self.subdirs@[j].path@,
            )
        &&& forall|i: int, j: int|
            0 <= i < j < self.files@.len() ==> self.files@[i]@ != self.files@[j]@
    }
}

/// The number of files in the whole tree.
pub open spec fn file_total(t: DirTree) -> int
    decreases t,
{
    file_total_dirs(t.subdirs@) + t.files@.len()
}

/// The number of files in a forest.
pub open spec fn file_total_dirs(s: Seq<DirTree>) -> int
    decreases s,
{
    if s.len() == 0 {
        0
    } else {
        file_total_dirs(s.drop_last()) + file_total(s.last())
    }
}

/// The first record whose name equals `name`, if any.
pub open spec fn spec_find(records: Seq<Arc<ImageInfo>>, name: Seq<char>) -> Option<
    Arc<ImageInfo>,
>
    decreases records.len(),
{
    if records.len() == 0 {
        Option::None
    } else if records[0].name@ == name {
        Option::Some(records[0])
    } else {
        spec_find(records.drop_first(), name)
    }
}

/// The records the store already knows, keyed by file name.
pub struct ImageLookup {
    pub records: Vec<Arc<ImageInfo>>,
}

impl ImageLookup {
    /// The stored record for `name`, if any.
    #[verifier::loop_isolation(false)]
    pub fn find(&self, name: &String) -> (r: Option<Arc<ImageInfo>>)
        ensures
            r == spec_find(self.records@, name@),
    {
        let n: usize = self.records.len();
        proof {
            assert(self.records@.skip(0) =~= self.records@);
        }
        for i in 0..n
            invariant
                spec_find(self.records@, name@) == spec_find(self.records@.skip(i as int), name@),
        {
            proof {
                let rest = self.records@.skip(i as int);
                assert(rest[0] == self.records@[i as int]);
                assert(rest.drop_first() =~= self.records@.skip(i as int + 1));
            }
            if self.records[i].name.eq(name) {
                return Some(self.records[i].clone());
            }
        }
        proof {
            assert(self.records@.skip(n as int) =~= Seq::<Arc<ImageInfo>>::empty());
        }
        None
    }
}

/// The catalog entries an initial scan of `t` yields: every image-typed
/// file the store already knows, at the node of its directory.
pub open spec fn scan_map(t: DirTree, lk: Seq<Arc<ImageInfo>>) -> Map<GalleryKey, ImageInfo>
    decreases t,
{
    scan_map_dirs(t.subdirs@, lk).union_prefer_right(
        scan_map_files(path_view(t.path@), t.files@, lk),
    )
}

/// The catalog entries of a forest.
pub open spec fn scan_map_dirs(s: Seq<DirTree>, lk: Seq<Arc<ImageInfo>>) -> Map<
    GalleryKey,
    ImageInfo,
>
    decreases s,
{
    if s.len() == 0 {
        Map::empty()
    } else {
        scan_map_dirs(s.drop_last(), lk).union_prefer_right(scan_map(s.last(), lk))
    }
}

/// The known image files among `fs`, as entries at node path `pp`.
pub open spec fn scan_map_files(pp: Seq<Seq<char>>, fs: Seq<String>, lk: Seq<Arc<ImageInfo>>) -> Map<
    GalleryKey,
    ImageInfo,
>
    decreases fs.len(),
{
    if fs.len() == 0 {
        Map::empty()
    } else {
        let m = scan_map_files(pp, fs.drop_last(), lk);
        match spec_find(lk, fs.last()@) {
            Option::Some(r) => if spec_is_image(fs.last()@) {
                m.insert((pp, fs.last()@), *r)
            } else {
                m
            },
            Option::None => m,
        }
    }
}

/// The files an initial scan of `t` defers: image-typed files the store
/// does not know yet, in walk order.
pub open spec fn deferred_of(t: DirTree, lk: Seq<Arc<ImageInfo>>) -> Seq<Seq<char>>
    decreases t,
{
    deferred_of_dirs(t.subdirs@, lk) + deferred_of_files(t.files@, lk)
}

/// The deferred files of a forest.
pub open spec fn deferred_of_dirs(s: Seq<DirTree>, lk: Seq<Arc<ImageInfo>>) -> Seq<Seq<char>>
    decreases s,
{
    if s.len() == 0 {
        Seq::empty()
    } else {
        deferred_of_dirs(s.drop_last(), lk) + deferred_of(s.last(), lk)
    }
}

/// The deferred files among `fs`.
pub open spec fn deferred_of_files(fs: Seq<String>, lk: Seq<Arc<ImageInfo>>) -> Seq<Seq<char>>
    decreases fs.len(),
{
    if fs.len() == 0 {
        Seq::empty()
    } else {
        deferred_of_files(fs.drop_last(), lk) + (if spec_is_image(fs.last()@) && spec_find(
            lk,
            fs.last()@,
        ) is None {
            seq![fs.last()@]
        } else {
            Seq::empty()
        })
    }
}

/// Scan maps are finite and never hold more entries than there are files.
pub proof fn lemma_scan_map_size(t: DirTree, lk: Seq<Arc<ImageInfo>>)
    ensures
        scan_map(t, lk).dom().finite(),
        scan_map(t, lk).dom().len() <= file_total(t),
        file_total(t) >= 0,
    decreases t,
{
    lemma_scan_map_dirs_size(t.subdirs@, lk);
    lemma_scan_map_files_size(path_view(t.path@), t.files@, lk);
    let a = scan_map_dirs(t.subdirs@, lk);
    let b = scan_map_files(path_view(t.path@), t.files@, lk);
    assert(a.union_prefer_right(b).dom() =~= a.dom() + b.dom());
    vstd::set_lib::lemma_len_union(a.dom(), b.dom());
}

/// As `lemma_scan_map_size`, for a forest.
pub proof fn lemma_scan_map_dirs_size(s: Seq<DirTree>, lk: Seq<Arc<ImageInfo>>)
    ensures
        scan_map_dirs(s, lk).dom().finite(),
        scan_map_dirs(s, lk).dom().len() <= file_total_dirs(s),
        file_total_dirs(s) >= 0,
    decreases s,
{
    if s.len() > 0 {
        lemma_scan_map_dirs_size(s.drop_last(), lk);
        lemma_scan_map_size(s.last(), lk);
        let a = scan_map_dirs(s.drop_last(), lk);
        let b = scan_map(s.last(), lk);
        assert(a.union_prefer_right(b).dom() =~= a.dom() + b.dom());
        vstd::set_lib::lemma_len_union(a.dom(), b.dom());
    }
}

/// As `lemma_scan_map_size`, for one directory's files.
pub proof fn lemma_scan_map_files_size(pp: Seq<Seq<char>>, fs: Seq<String>, lk: Seq<
    Arc<ImageInfo>,
>)
    ensures
        scan_map_files(pp, fs, lk).dom().finite(),
        scan_map_files(pp, fs, lk).dom().len() <= fs.len(),
    decreases fs.len(),
{
    if fs.len() > 0 {
        lemma_scan_map_files_size(pp, fs.drop_last(), lk);
    }
}

/// A found record carries the name it was found under.
pub proof fn lemma_spec_find_name(lk: Seq<Arc<ImageInfo>>, name: Seq<char>)
    ensures
        spec_find(lk, name) matches Some(r) ==> r.name@ == name,
    decreases lk.len(),
{
    if lk.len() > 0 && lk[0].name@ != name {
        lemma_spec_find_name(lk.drop_first(), name);
    }
}

/// Appending a directory to a forest extends its scan results.
pub proof fn lemma_scan_dirs_push(pre: Seq<DirTree>, d: DirTree, lk: Seq<Arc<ImageInfo>>)
    ensures
        scan_map_dirs(pre.push(d), lk) == scan_map_dirs(pre, lk).union_prefer_right(
            scan_map(d, lk),
        ),
        deferred_of_dirs(pre.push(d), lk) == deferred_of_dirs(pre, lk) + deferred_of(d, lk),
        file_total_dirs(pre.push(d)) == file_total_dirs(pre) + file_total(d),
{
    assert(pre.push(d).drop_last() =~= pre);
    assert(pre.push(d).last() == d);
}

/// A prefix of a forest holds at most as many files as the whole.
pub proof fn lemma_file_total_take_le(s: Seq<DirTree>, i: int)
    requires
        0 <= i <= s.len(),
    ensures
        file_total_dirs(s.take(i)) <= file_total_dirs(s),
    decreases s.len(),
{
    if i == s.len() {
        assert(s.take(i) =~= s);
    } else {
        assert(s.take(i) =~= s.drop_last().take(i));
        lemma_file_total_take_le(s.drop_last(), i);
        lemma_scan_map_size(s.last(), Seq::empty());
    }
}

/// Builds the gallery tree for the directory snapshot `t`: every image
/// file the store knows (through `lookup`) is placed at its directory's
/// node; every image file the store does not know yet is appended to
/// `deferred` instead, in walk order, so the walk never blocks on
/// indexing.  Directories without a single known image are pruned.
#[verifier::loop_isolation(false)]
#[verifier::rlimit(100)]
#[verifier::spinoff_prover]
pub fn scan_tree(t: &DirTree, lookup: &ImageLookup, deferred: &mut Vec<String>) -> (g:
    ImageGallery)
    requires
        t.wf(),
        file_total(*t) < u32::MAX,
    ensures
        g.wf(),
        g.path_view() == path_view(t.path@),
        g.as_map() == scan_map(*t, lookup.records@),
        g.imagecount as int == scan_map(*t, lookup.records@).dom().len(),
        path_view(final(deferred)@) == path_view(old(deferred)@) + deferred_of(
            *t,
            lookup.records@,
        ),
    decreases t,
{
    let ghost lk = lookup.records@;
    let ghost pp = path_view(t.path@);
    let ghost subs = t.subdirs@;
    let ghost fs = t.files@;
    let ghost def0 = deferred@;
    let mut node = ImageGallery::new(clone_path(&t.path));
    let mut count: u32 = 0;
    proof {
        assert(forall|x: int, y: int|
            0 <= x < y < subs.len() ==> path_view(subs[x].path@) != path_view(subs[y].path@));
        assert(forall|x: int, y: int| 0 <= x < y < fs.len() ==> fs[x]@ != fs[y]@);
        assert(subs.take(0) =~= Seq::<DirTree>::empty());
        assert(children_map(node.sub_galleries@) =~= Map::<GalleryKey, ImageInfo>::empty());
        assert(scan_map_dirs(subs.take(0), lk) =~= Map::<GalleryKey, ImageInfo>::empty());
        assert(deferred_of_dirs(subs.take(0), lk) =~= Seq::<Seq<char>>::empty());
        assert(path_view(deferred@) =~= path_view(def0) + deferred_of_dirs(subs.take(0), lk));
    }
    let n: usize = t.subdirs.len();
    let mut i: usize = 0;
    while i < n
        invariant
            i <= n,
            node.path_view() == pp,
            node.images@.len() == 0,
            children_wf(pp, node.sub_galleries@),
            count as int == counts_sum(node.sub_galleries@),
            children_map(node.sub_galleries@) == scan_map_dirs(subs.take(i as int), lk),
            forall|j: int|
                0 <= j < node.sub_galleries@.len() ==> exists|i2: int|
                    0 <= i2 < i && (#[trigger] node.sub_galleries@[j]).path_view() == path_view(
                        subs[i2].path@,
                    ),
            path_view(deferred@) == path_view(def0) + deferred_of_dirs(subs.take(i as int), lk),
        decreases n - i,
    {
        let ghost ns = node.sub_galleries@;
        let ghost pre = subs.take(i as int);
        let ghost pre1 = subs.take(i as int + 1);
        proof {
            assert(pre1 =~= pre.push(subs[i as int]));
            lemma_scan_dirs_push(pre, subs[i as int], lk);
            assert(subs[i as int].wf());
            assert(file_total(subs[i as int]) < u32::MAX) by {
                assert(file_total_dirs(pre1) <= file_total_dirs(subs)) by {
                    lemma_file_total_take_le(subs, i as int + 1);
                }
                lemma_scan_map_dirs_size(pre, lk);
                lemma_scan_map_files_size(pp, fs, lk);
            }
        }
        let sub = &t.subdirs[i];
        let child = scan_tree(sub, lookup, deferred);
        proof {
            lemma_wf_as_map(&child);
            assert(path_view(deferred@) =~= path_view(def0) + deferred_of_dirs(pre1, lk));
        }
        if child.imagecount > 0 {
            let clen: usize = child.path.len();
            proof {
                assert(child.path_view().len() == pp.len() + 1);
            }
            let comp: String = child.path[clen - 1].clone();
            proof {
                assert(comp@ == child.path_view().last());
                assert(forall|q: int| 0 <= q < ns.len() ==> (#[trigger] ns[q]).path@.len() >= 1);
            }
            let pos = find_child_insert_pos(&node.sub_galleries, &comp);
            let child_arc: Arc<ImageGallery> = Arc::new(child);
            let ghost nsins = ns.insert(pos as int, child_arc);
            proof {
                assert(child_arc.path_view() == path_view(subs[i as int].path@));
                // Sibling subtrees never share catalog keys: each key
                // carries its own child's distinct path as a prefix.
                assert forall|q: int, k: GalleryKey|
                    0 <= q < ns.len() && (#[trigger] ns[q].as_map().dom().contains(k))
                        implies !child_arc.as_map().dom().contains(k) by {
                    if child_arc.as_map().dom().contains(k) {
                        assert(exists|i2: int|
                            0 <= i2 < i && (#[trigger] ns[q]).path_view() == path_view(
                                subs[i2].path@,
                            ));
                        let i2 = choose|i2: int|
                            0 <= i2 < i && (#[trigger] ns[q]).path_view() == path_view(
                                subs[i2].path@,
                            );
                        lemma_wf_as_map(&*ns[q]);
                        assert(is_path_prefix(ns[q].path_view(), k.0));
                        assert(is_path_prefix(child_arc.path_view(), k.0));
                        assert(ns[q].path_view() =~= child_arc.path_view()) by {
                            assert(k.0.take((pp.len() + 1) as int) == ns[q].path_view());
                            assert(k.0.take((pp.len() + 1) as int) == child_arc.path_view());
                        }
                        assert(path_view(subs[i2].path@) != path_view(subs[i as int].path@));
                    }
                }
                lemma_children_map_insert(ns, pos as int, child_arc);
                assert(forall|q: int| 0 <= q < pos ==> nsins[q] == ns[q]);
                assert(forall|q: int| pos < q < nsins.len() ==> nsins[q] == ns[q - 1]);
                assert(nsins[pos as int] == child_arc);
                assert forall|q: int|
                    0 <= q < ns.len() implies (#[trigger] ns[q]).path_view()
                    != child_arc.path_view() && ns[q].path_view().last()
                    != child_arc.path_view().last() by {
                    assert(exists|i2: int|
                        0 <= i2 < i && (#[trigger] ns[q]).path_view() == path_view(
                            subs[i2].path@,
                        ));
                    let i2 = choose|i2: int|
                        0 <= i2 < i && (#[trigger] ns[q]).path_view() == path_view(
                            subs[i2].path@,
                        );
                    assert(path_view(subs[i2].path@) != path_view(subs[i as int].path@));
                    if ns[q].path_view().last() == child_arc.path_view().last() {
                        assert(ns[q].path_view() =~= child_arc.path_view()) by {
                            assert(ns[q].path_view().take(pp.len() as int) == pp);
                            assert(child_arc.path_view().take(pp.len() as int) == pp);
                            assert(forall|q2: int|
                                0 <= q2 < pp.len() ==> ns[q].path_view()[q2] == ns[q].path_view()
                                    .take(pp.len() as int)[q2]);
                            assert(forall|q2: int|
                                0 <= q2 < pp.len() ==> child_arc.path_view()[q2]
                                    == child_arc.path_view().take(pp.len() as int)[q2]);
                            assert(ns[q].path_view()[pp.len() as int] == ns[q].path_view().last());
                            assert(child_arc.path_view()[pp.len() as int] == child_arc.path_view()
                                .last());
                        }
                    }
                }
                assert(children_wf(pp, nsins)) by {
                    assert forall|q1: int, q2: int|
                        0 <= q1 < q2 < nsins.len() implies str_lt(
                        nsins[q1].path_view().last(),
                        nsins[q2].path_view().last(),
                    ) && nsins[q1].path_view() != nsins[q2].path_view() by {
                        if q1 == pos {
                            lemma_str_lt_trichotomy(
                                child_arc.path_view().last(),
                                ns[q2 - 1].path_view().last(),
                            );
                        }
                    }
                }
                lemma_children_map_props(pp, nsins);
                lemma_scan_map_dirs_size(pre1, lk);
                lemma_file_total_take_le(subs, i as int + 1);
                lemma_scan_map_files_size(pp, fs, lk);
                assert(counts_sum(nsins) == counts_sum(ns) + child_arc.imagecount as int);
                assert(children_map(nsins) == scan_map_dirs(pre1, lk));
                assert(counts_sum(nsins) <= file_total(*t));
            }
            count = count + child_arc.imagecount;
            node.sub_galleries.insert(pos, child_arc);
            proof {
                assert(node.sub_galleries@ =~= nsins);
            }
        } else {
            proof {
                assert(child.as_map().dom().len() == 0);
                assert(child.as_map().dom() =~= Set::<GalleryKey>::empty());
                assert(child.as_map() =~= Map::<GalleryKey, ImageInfo>::empty());
                assert(scan_map_dirs(pre1, lk) =~= scan_map_dirs(pre, lk));
            }
        }
        i = i + 1;
    }
    proof {
        assert(subs.take(n as int) =~= subs);
    }
    let ghost nsf = node.sub_galleries@;
    let ghost def1 = deferred@;
    proof {
        assert(fs.take(0) =~= Seq::<String>::empty());
        assert(images_map(pp, node.images@) =~= Map::<GalleryKey, ImageInfo>::empty());
        assert(scan_map_files(pp, fs.take(0), lk) =~= Map::<GalleryKey, ImageInfo>::empty());
        assert(deferred_of_files(fs.take(0), lk) =~= Seq::<Seq<char>>::empty());
        assert(path_view(deferred@) =~= path_view(def1) + deferred_of_files(fs.take(0), lk));
        lemma_children_map_props(pp, nsf);
        lemma_scan_map_dirs_size(subs, lk);
    }
    let m: usize = t.files.len();
    let mut j: usize = 0;
    while j < m
        invariant
            j <= m,
            node.sub_galleries@ == nsf,
            node.path_view() == pp,
            images_wf(node.images@),
            node.images@.len() <= j,
            count as int == counts_sum(nsf) + node.images@.len(),
            images_map(pp, node.images@) == scan_map_files(pp, fs.take(j as int), lk),
            forall|q: int|
                0 <= q < node.images@.len() ==> exists|j2: int|
                    0 <= j2 < j && (#[trigger] node.images@[q]).name@ == fs[j2]@,
            path_view(deferred@) == path_view(def1) + deferred_of_files(fs.take(j as int), lk),
        decreases m - j,
    {
        let ghost imgs = node.images@;
        let ghost fpre = fs.take(j as int);
        let ghost fpre1 = fs.take(j as int + 1);
        proof {
            assert(fpre1 =~= fpre.push(fs[j as int]));
            assert(fpre1.drop_last() =~= fpre);
            assert(fpre1.last() == fs[j as int]);
        }
        let f = &t.files[j];
        if is_image(f.as_str()) {
            match lookup.find(f) {
                Some(rec) => {
                    proof {
                        lemma_spec_find_name(lk, f@);
                        assert(counts_sum(nsf) == children_map(nsf).dom().len());
                        assert(children_map(nsf).dom().len() <= file_total_dirs(subs));
                        assert(node.images@.len() < fs.len());
                        assert forall|q: int| 0 <= q < imgs.len() implies (#[trigger] imgs[q]).name@
                            != rec.name@ by {
                            let j2 = choose|j2: int|
                                0 <= j2 < j && (#[trigger] imgs[q]).name@ == fs[j2]@;
                            assert(fs[j2]@ != fs[j as int]@);
                        }
                    }
                    let pos = find_image_insert_pos(&node.images, f);
                    let ghost rv = rec;
                    count = count + 1;
                    node.images.insert(pos, rec);
                    proof {
                        lemma_images_map_insert(pp, imgs, pos as int, rv);
                        assert(node.images@ =~= imgs.insert(pos as int, rv));
                        assert(forall|q: int| 0 <= q < pos ==> node.images@[q] == imgs[q]);
                        assert(forall|q: int|
                            pos < q < node.images@.len() ==> node.images@[q] == imgs[q - 1]);
                        assert(node.images@[pos as int] == rv);
                        assert(rv.name@ == f@);
                        assert(images_wf(node.images@)) by {
                            let ni = node.images@;
                            assert forall|q1: int, q2: int|
                                0 <= q1 < q2 < ni.len() implies str_lt(
                                ni[q1].name@,
                                ni[q2].name@,
                            ) && ni[q1].name@ != ni[q2].name@ by {
                                if q1 == pos {
                                    lemma_str_lt_trichotomy(rv.name@, imgs[q2 - 1].name@);
                                }
                            }
                        }
                        assert(images_map(pp, node.images@) == scan_map_files(pp, fpre1, lk));
                        assert(path_view(deferred@) =~= path_view(def1) + deferred_of_files(
                            fpre1,
                            lk,
                        ));
                    }
                },
                None => {
                    let ghost dnow = deferred@;
                    deferred.push(f.clone());
                    proof {
                        assert(deferred@ =~= dnow.push(*f));
                        assert(path_view(deferred@) =~= path_view(dnow).push(f@));
                        assert(deferred_of_files(fpre1, lk) =~= deferred_of_files(fpre, lk).push(
                            f@,
                        ));
                        assert(path_view(deferred@) =~= path_view(def1) + deferred_of_files(
                            fpre1,
                            lk,
                        ));
                        assert(images_map(pp, node.images@) == scan_map_files(pp, fpre1, lk));
                    }
                },
            }
        } else {
            proof {
                assert(scan_map_files(pp, fpre1, lk) == scan_map_files(pp, fpre, lk));
                assert(deferred_of_files(fpre1, lk) =~= deferred_of_files(fpre, lk));
                assert(path_view(deferred@) =~= path_view(def1) + deferred_of_files(fpre1, lk));
            }
        }
        j = j + 1;
    }
    node.imagecount = count;
    proof {
        assert(fs.take(m as int) =~= fs);
        assert(node.wf());
        assert(node.as_map() == scan_map(*t, lk));
        lemma_wf_as_map(&node);
        assert(deferred_of(*t, lk) =~= deferred_of_dirs(subs, lk) + deferred_of_files(fs, lk));
        assert(path_view(deferred@) =~= path_view(def0) + deferred_of(*t, lk));
    }
    node
}

} // verus!
