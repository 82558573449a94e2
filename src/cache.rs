//! Content-addressed cache of fetched chapter images.
//!
//! The index maps a chapter URL to its metadata and the images stored for it.
//! Storage paths are derived from SHA-256 digests of the chapter and image
//! URLs. Reading and writing files is left to the caller: the operations here
//! take what was read from disk (file contents, digests, which paths exist)
//! and the current time as plain values, and say exactly how the index moves.

use vstd::prelude::*;
use vstd::utf8::encode_utf8;

use crate::digest::{checksum_of_bytes, compute_hash, sha256_hex_of};
use crate::error::DownloadError;
use crate::text::{
    append_chars, chars_in_range, chars_of, occurs_at, occurs_at_exec, push_char, replace_all,
    replace_all_exec,
};

verus! {

/// Metadata of one cached image.
#[derive(Debug)]
pub struct CachedImage {
    /// URL the image was fetched from.
    pub url: String,
    /// Location relative to the cache root.
    pub path: String,
    /// Digest of the stored bytes at the time they were written.
    pub checksum: String,
    /// Size of the stored file in bytes.
    pub size: u64,
}

/// Metadata of one cached chapter.
#[derive(Debug)]
pub struct CachedChapter {
    /// Display title.
    pub title: String,
    /// URL of the chapter, its key in the index.
    pub url: String,
    /// Seconds since the epoch of the last change to this entry.
    pub timestamp: u64,
    /// Fingerprint of the chapter's ordered image URL list.
    pub checksum: String,
    /// Image URLs the chapter lists, in order, as last recorded.
    pub image_urls: Vec<String>,
    /// Images stored for this chapter.
    pub images: Vec<CachedImage>,
}

/// Mathematical model of a [`CachedImage`].
pub struct ImageModel {
    pub url: Seq<char>,
    pub path: Seq<char>,
    pub checksum: Seq<char>,
    pub size: u64,
}

/// Mathematical model of a [`CachedChapter`].
pub struct ChapterModel {
    pub title: Seq<char>,
    pub url: Seq<char>,
    pub timestamp: u64,
    pub checksum: Seq<char>,
    pub image_urls: Seq<Seq<char>>,
    pub images: Seq<ImageModel>,
}

/// Mathematical model of a [`CacheManager`]: its root, its maximum age and
/// its index as a sequence of chapters with distinct URLs.
pub struct CacheModel {
    pub root: Seq<char>,
    pub max_age: u64,
    pub chapters: Seq<ChapterModel>,
}

impl View for CachedImage {
    type V = ImageModel;

    open spec fn view(&self) -> ImageModel {
        ImageModel {
            url: self.url@,
            path: self.path@,
            checksum: self.checksum@,
            size: self.size,
        }
    }
}

/// The models of a sequence of images.
pub open spec fn image_models(v: Seq<CachedImage>) -> Seq<ImageModel> {
    v.map_values(|i: CachedImage| i@)
}

impl View for CachedChapter {
    type V = ChapterModel;

    open spec fn view(&self) -> ChapterModel {
        ChapterModel {
            title: self.title@,
            url: self.url@,
            timestamp: self.timestamp,
            checksum: self.checksum@,
            image_urls: string_views(self.image_urls@),
            images: image_models(self.images@),
        }
    }
}

/// The models of a sequence of chapters.
pub open spec fn chapter_models(v: Seq<CachedChapter>) -> Seq<ChapterModel> {
    v.map_values(|c: CachedChapter| c@)
}

/// The character views of a sequence of strings.
pub open spec fn string_views(v: Seq<String>) -> Seq<Seq<char>> {
    v.map_values(|s: String| s@)
}

/// `rel` placed under the directory `base`.
pub open spec fn join_path(base: Seq<char>, rel: Seq<char>) -> Seq<char> {
    if base.len() == 0 {
        rel
    } else if base.last() == '/' {
        base + rel
    } else {
        base + seq!['/'] + rel
    }
}

/// Where an image is stored, relative to the cache root: a directory named by
/// the first two digits of the chapter URL's digest, holding a file named by
/// the image URL's digest.
pub open spec fn storage_relpath(chapter_url: Seq<char>, image_url: Seq<char>) -> Seq<char> {
    sha256_hex_of(encode_utf8(chapter_url)).subrange(0, 2) + seq!['/'] + sha256_hex_of(
        encode_utf8(image_url),
    ) + seq!['.', 'j', 'p', 'g']
}

/// The prefix that marks a chapter segment of a URL.
pub open spec fn chapter_marker() -> Seq<char> {
    seq!['c', 'h', 'a', 'p', 't', 'e', 'r', '-']
}

/// What the chapter marker is rewritten to in a title.
pub open spec fn chapter_word() -> Seq<char> {
    seq!['C', 'h', 'a', 'p', 't', 'e', 'r', ' ']
}

/// The title given to a chapter whose URL names none.
pub open spec fn unknown_title() -> Seq<char> {
    seq!['U', 'n', 'k', 'n', 'o', 'w', 'n', ' ', 'C', 'h', 'a', 'p', 't', 'e', 'r']
}

/// Position of the first `/` at or after `p`, or the end of `s`.
pub open spec fn segment_end(s: Seq<char>, p: int) -> int
    decreases s.len() - p,
{
    if p >= s.len() || p < 0 || s[p] == '/' {
        p
    } else {
        segment_end(s, p + 1)
    }
}

/// Start of the first `/`-separated segment of `s`, at or after `p`, that
/// begins with the chapter marker.
pub open spec fn chapter_segment_from(s: Seq<char>, p: int) -> Option<int>
    decreases s.len() - p,
{
    if p >= s.len() || p < 0 {
        None
    } else if (p == 0 || s[p - 1] == '/') && occurs_at(s, p, chapter_marker()) {
        Some(p)
    } else {
        chapter_segment_from(s, p + 1)
    }
}

/// The title derived from a chapter URL: its first segment that begins with
/// `chapter-`, with each `chapter-` in it rewritten to `Chapter `.
pub open spec fn title_from_url(url: Seq<char>) -> Seq<char> {
    match chapter_segment_from(url, 0) {
        Some(p) => replace_all(url.subrange(p, segment_end(url, p)), chapter_marker(), chapter_word()),
        None => unknown_title(),
    }
}

/// Every image of `c` is among the paths known to exist.
pub open spec fn all_present(c: ChapterModel, present: Seq<Seq<char>>) -> bool {
    forall|k: int| 0 <= k < c.images.len() ==> present.contains(#[trigger] c.images[k].path)
}

/// `c` holds a stored image fetched from `url`.
pub open spec fn has_image_for(c: ChapterModel, url: Seq<char>) -> bool {
    exists|j: int| 0 <= j < c.images.len() && #[trigger] c.images[j].url == url
}

/// Every image URL that `c` lists has a stored image.
pub open spec fn listed_stored(c: ChapterModel) -> bool {
    forall|k: int| 0 <= k < c.image_urls.len() ==> has_image_for(c, #[trigger] c.image_urls[k])
}

/// `c` was updated no longer than `max_age` seconds before `now`.
pub open spec fn within_age(c: ChapterModel, now: u64, max_age: u64) -> bool {
    now - c.timestamp <= max_age
}

impl CacheModel {
    /// Chapter URLs are distinct.
    pub open spec fn wf(self) -> bool {
        forall|i: int, j: int|
            0 <= i < self.chapters.len() && 0 <= j < self.chapters.len() && i != j
                ==> #[trigger] self.chapters[i].url != #[trigger] self.chapters[j].url
    }

    /// The index holds an entry for `url`.
    pub open spec fn has(self, url: Seq<char>) -> bool {
        exists|i: int| 0 <= i < self.chapters.len() && #[trigger] self.chapters[i].url == url
    }

    /// Position of the entry for `url`.
    pub open spec fn pos(self, url: Seq<char>) -> int {
        choose|i: int| 0 <= i < self.chapters.len() && #[trigger] self.chapters[i].url == url
    }

    /// The entry for `url`.
    pub open spec fn get(self, url: Seq<char>) -> ChapterModel {
        self.chapters[self.pos(url)]
    }

    /// Freshness: an entry exists, is within the maximum age, every image
    /// URL it lists has been stored, and every one of its images is among
    /// the paths known to exist.
    pub open spec fn is_cached(self, url: Seq<char>, now: u64, present: Seq<Seq<char>>) -> bool {
        &&& self.has(url)
        &&& within_age(self.get(url), now, self.max_age)
        &&& listed_stored(self.get(url))
        &&& all_present(self.get(url), present)
    }

    /// Full paths of the images of `url`, all or nothing: served only when
    /// every listed image URL has been stored and every file exists.
    pub open spec fn cached_paths(self, url: Seq<char>, present: Seq<Seq<char>>) -> Option<
        Seq<Seq<char>>,
    > {
        if self.has(url) && listed_stored(self.get(url)) && all_present(self.get(url), present) {
            Some(self.get(url).images.map_values(|i: ImageModel| join_path(self.root, i.path)))
        } else {
            None
        }
    }
}

/// Images that are not the one fetched from `url`.
pub open spec fn other_image(url: Seq<char>) -> spec_fn(ImageModel) -> bool {
    |m: ImageModel| m.url != url
}

/// The record an image gets when `contents` is stored for it.
pub open spec fn image_record(chapter_url: Seq<char>, image_url: Seq<char>, contents: Seq<u8>) -> ImageModel {
    ImageModel {
        url: image_url,
        path: storage_relpath(chapter_url, image_url),
        checksum: sha256_hex_of(contents),
        size: contents.len() as u64,
    }
}

impl CacheModel {
    /// The index after `contents` is stored as the image `image_url` of
    /// `chapter_url` at time `now`: the chapter entry is created if absent
    /// (titled from its URL, listing no URLs, with an empty fingerprint), any earlier record of
    /// the image is dropped, the new record goes last, and the entry's time
    /// becomes `now`.
    pub open spec fn with_image(
        self,
        chapter_url: Seq<char>,
        image_url: Seq<char>,
        contents: Seq<u8>,
        now: u64,
    ) -> CacheModel {
        let img = image_record(chapter_url, image_url, contents);
        if self.has(chapter_url) {
            let c = self.get(chapter_url);
            CacheModel {
                root: self.root,
                max_age: self.max_age,
                chapters: self.chapters.update(
                    self.pos(chapter_url),
                    ChapterModel {
                        title: c.title,
                        url: c.url,
                        timestamp: now,
                        checksum: c.checksum,
                        image_urls: c.image_urls,
                        images: c.images.filter(other_image(image_url)).push(img),
                    },
                ),
            }
        } else {
            CacheModel {
                root: self.root,
                max_age: self.max_age,
                chapters: self.chapters.push(
                    ChapterModel {
                        title: title_from_url(chapter_url),
                        url: chapter_url,
                        timestamp: now,
                        checksum: Seq::empty(),
                        image_urls: Seq::empty(),
                        images: seq![img],
                    },
                ),
            }
        }
    }
}

/// Text of the `Debug` rendering of a list of strings.
pub uninterp spec fn debug_list_text_of(items: Seq<Seq<char>>) -> Seq<char>;

/// Relies on the `Debug` rendering of a slice of `String` (as written by
/// `format!("{:?}", ..)`): its text depends on the strings alone.
#[verifier::external_body]
fn debug_list_text(items: &[String]) -> (r: String)
    ensures
        r@ == debug_list_text_of(string_views(items@)),
{
    format!("{:?}", items)
}

/// Fingerprint of an ordered list of image URLs.
pub open spec fn url_list_fingerprint(urls: Seq<Seq<char>>) -> Seq<char> {
    sha256_hex_of(encode_utf8(debug_list_text_of(urls)))
}

/// Chapters that are not older than `max_age` at `now`.
pub open spec fn kept_at(now: u64, max_age: u64) -> spec_fn(ChapterModel) -> bool {
    |c: ChapterModel| within_age(c, now, max_age)
}

/// Chapters that are older than `max_age` at `now`.
pub open spec fn expired_at(now: u64, max_age: u64) -> spec_fn(ChapterModel) -> bool {
    |c: ChapterModel| !within_age(c, now, max_age)
}

/// The images of a sequence of chapters, chapter after chapter.
pub open spec fn flatten_images(chs: Seq<ChapterModel>) -> Seq<ImageModel>
    decreases chs.len(),
{
    if chs.len() == 0 {
        Seq::empty()
    } else {
        flatten_images(chs.drop_last()) + chs.last().images
    }
}

/// The digest at position `p` is present and equals the image's checksum.
pub open spec fn digest_matches(img: ImageModel, digests: Seq<Option<Seq<char>>>, p: int) -> bool {
    0 <= p < digests.len() && digests[p] == Some(img.checksum)
}

/// How many of `images` have a matching digest at their own position.
pub open spec fn valid_count(images: Seq<ImageModel>, digests: Seq<Option<Seq<char>>>) -> nat
    decreases images.len(),
{
    if images.len() == 0 {
        0
    } else {
        valid_count(images.drop_last(), digests) + if digest_matches(
            images.last(),
            digests,
            images.len() - 1,
        ) {
            1nat
        } else {
            0nat
        }
    }
}

/// The character views of a sequence of optional strings.
pub open spec fn digest_views(v: Seq<Option<String>>) -> Seq<Option<Seq<char>>> {
    v.map_values(
        |d: Option<String>|
            match d {
                Some(s) => Some(s@),
                None => None,
            },
    )
}

impl CacheModel {
    /// The index after the metadata of `chapter_url` is recorded at `now`:
    /// the entry is created if absent, its title becomes `title`, it lists
    /// `urls` and its fingerprint is computed over them; its images are kept.
    pub open spec fn with_metadata(
        self,
        chapter_url: Seq<char>,
        title: Seq<char>,
        urls: Seq<Seq<char>>,
        now: u64,
    ) -> CacheModel {
        let fp = url_list_fingerprint(urls);
        if self.has(chapter_url) {
            let c = self.get(chapter_url);
            CacheModel {
                root: self.root,
                max_age: self.max_age,
                chapters: self.chapters.update(
                    self.pos(chapter_url),
                    ChapterModel {
                        title,
                        url: c.url,
                        timestamp: now,
                        checksum: fp,
                        image_urls: urls,
                        images: c.images,
                    },
                ),
            }
        } else {
            CacheModel {
                root: self.root,
                max_age: self.max_age,
                chapters: self.chapters.push(
                    ChapterModel {
                        title,
                        url: chapter_url,
                        timestamp: now,
                        checksum: fp,
                        image_urls: urls,
                        images: Seq::empty(),
                    },
                ),
            }
        }
    }

    /// The index with every entry removed.
    pub open spec fn cleared(self) -> CacheModel {
        CacheModel { root: self.root, max_age: self.max_age, chapters: Seq::empty() }
    }

    /// The index without the entries that are older than the maximum age at `now`.
    pub open spec fn without_expired(self, now: u64) -> CacheModel {
        CacheModel {
            root: self.root,
            max_age: self.max_age,
            chapters: self.chapters.filter(kept_at(now, self.max_age)),
        }
    }

    /// Full paths of the images of the entries that are expired at `now`.
    pub open spec fn expired_paths(self, now: u64) -> Seq<Seq<char>> {
        self.full_paths(flatten_images(self.chapters.filter(expired_at(now, self.max_age))))
    }

    /// Every indexed image, chapter after chapter.
    pub open spec fn all_images(self) -> Seq<ImageModel> {
        flatten_images(self.chapters)
    }

    /// Full paths of `images` under the cache root.
    pub open spec fn full_paths(self, images: Seq<ImageModel>) -> Seq<Seq<char>> {
        images.map_values(|i: ImageModel| join_path(self.root, i.path))
    }

    /// Result of validation against the digests of the files on disk, given
    /// in the order of `all_images` (`None` for a missing or unreadable file):
    /// (valid, invalid).
    pub open spec fn validation(self, digests: Seq<Option<Seq<char>>>) -> (nat, nat) {
        let v = valid_count(self.all_images(), digests);
        (v, (self.all_images().len() - v) as nat)
    }
}

/// The manager of the cache index. Its index holds at most one entry per
/// chapter URL.
#[derive(Debug)]
pub struct CacheManager {
    cache_dir: String,
    index: Vec<CachedChapter>,
    max_age: u64,
}

impl View for CacheManager {
    type V = CacheModel;

    closed spec fn view(&self) -> CacheModel {
        CacheModel {
            root: self.cache_dir@,
            max_age: self.max_age,
            chapters: chapter_models(self.index@),
        }
    }
}

/// Adding one chapter to a prefix adds its images to the flattened images.
pub proof fn lemma_flatten_step(s: Seq<ChapterModel>, i: int)
    requires
        0 <= i < s.len(),
    ensures
        flatten_images(s.subrange(0, i + 1)) == flatten_images(s.subrange(0, i)) + s[i].images,
{
    assert(s.subrange(0, i + 1).drop_last() =~= s.subrange(0, i));
}

/// A prefix has no more images than the whole.
pub proof fn lemma_flatten_prefix_len(s: Seq<ChapterModel>, i: int)
    requires
        0 <= i <= s.len(),
    ensures
        flatten_images(s.subrange(0, i)).len() <= flatten_images(s).len(),
    decreases s.len() - i,
{
    if i < s.len() {
        lemma_flatten_step(s, i);
        lemma_flatten_prefix_len(s, i + 1);
    } else {
        assert(s.subrange(0, i) =~= s);
    }
}

/// Appending one image adds one to the count when its digest matches.
pub proof fn lemma_valid_count_push(images: Seq<ImageModel>, x: ImageModel, digests: Seq<Option<Seq<char>>>)
    ensures
        valid_count(images.push(x), digests) == valid_count(images, digests) + if digest_matches(
            x,
            digests,
            images.len() as int,
        ) {
            1nat
        } else {
            0nat
        },
        valid_count(images, digests) <= images.len(),
    decreases images.len(),
{
    assert(images.push(x).drop_last() =~= images);
    if images.len() > 0 {
        lemma_valid_count_push(images.drop_last(), images.last(), digests);
        assert(images.drop_last().push(images.last()) =~= images);
    }
}

/// The position found for `url` is the one the model picks.
pub proof fn lemma_pos_unique(m: CacheModel, i: int)
    requires
        m.wf(),
        0 <= i < m.chapters.len(),
    ensures
        m.has(m.chapters[i].url),
        m.pos(m.chapters[i].url) == i,
        m.get(m.chapters[i].url) == m.chapters[i],
{
    assert(m.chapters[i].url == m.chapters[i].url);
    let j = m.pos(m.chapters[i].url);
    assert(m.chapters[j].url == m.chapters[i].url);
}

/// Places `rel` under the directory `base`.
pub fn join_path_exec(base: &String, rel: &String) -> (r: String)
    ensures
        r@ == join_path(base@, rel@),
{
    let n = base.as_str().unicode_len();
    if n == 0 {
        return rel.clone();
    }
    let mut s = base.clone();
    if base.as_str().get_char(n - 1) != '/' {
        push_char(&mut s, '/');
    }
    s.append(rel.as_str());
    s
}

/// Location of an image relative to the cache root.
pub fn storage_path_for(chapter_url: &str, image_url: &str) -> (r: String)
    ensures
        r@ == storage_relpath(chapter_url@, image_url@),
{
    let chapter_hash = compute_hash(chapter_url);
    let image_hash = compute_hash(image_url);
    let mut r = String::from_str(chapter_hash.as_str().substring_char(0, 2));
    push_char(&mut r, '/');
    r.append(image_hash.as_str());
    r.append(".jpg");
    proof {
        reveal_strlit(".jpg");
    }
    assert(r@ =~= storage_relpath(chapter_url@, image_url@));
    r
}

/// Extract a chapter title from its URL.
pub fn extract_chapter_title(url: &str) -> (r: String)
    ensures
        r@ == title_from_url(url@),
{
    let v = chars_of(url);
    let n = v.len();
    let marker = chars_of("chapter-");
    proof {
        reveal_strlit("chapter-");
    }
    assert(marker@ =~= chapter_marker());
    let mut p: usize = 0;
    while p < n
        invariant
            n == v@.len(),
            v@ == url@,
            p <= n,
            marker@ == chapter_marker(),
            chapter_segment_from(v@, 0) == chapter_segment_from(v@, p as int),
        decreases n - p,
    {
        if (p == 0 || v[p - 1] == '/') && occurs_at_exec(&v, p, &marker) {
            let mut e: usize = p;
            while e < n && v[e] != '/'
                invariant
                    n == v@.len(),
                    p <= e <= n,
                    segment_end(v@, p as int) == segment_end(v@, e as int),
                decreases n - e,
            {
                e = e + 1;
            }
            let segment = chars_in_range(&v, p, e);
            let word = chars_of("Chapter ");
            proof {
                reveal_strlit("Chapter ");
            }
            assert(word@ =~= chapter_word());
            let replaced = replace_all_exec(&segment, &marker, &word);
            let mut r = String::new();
            append_chars(&mut r, &replaced);
            assert(r@ =~= replaced@);
            return r;
        }
        p = p + 1;
    }
    let r = String::from_str("Unknown Chapter");
    proof {
        reveal_strlit("Unknown Chapter");
    }
    assert(r@ =~= unknown_title());
    r
}

/// A loaded index document is usable: each entry sits under its own URL, and
/// no URL occurs twice.
pub open spec fn index_document_ok(entries: Seq<(String, CachedChapter)>) -> bool {
    &&& forall|i: int| 0 <= i < entries.len() ==> (#[trigger] entries[i]).0@ == entries[i].1.url@
    &&& forall|i: int, j: int|
        0 <= i < entries.len() && 0 <= j < entries.len() && i != j
            ==> (#[trigger] entries[i]).1.url@ != (#[trigger] entries[j]).1.url@
}

/// The chapters of a loaded index document, in document order.
pub open spec fn document_chapters(entries: Seq<(String, CachedChapter)>) -> Seq<ChapterModel> {
    entries.map_values(|e: (String, CachedChapter)| e.1@)
}

/// Position of the chapter with URL `url` in `index`.
fn position_in(index: &Vec<CachedChapter>, url: &String) -> (r: Option<usize>)
    ensures
        match r {
            Some(i) => i < index@.len() && index@[i as int].url@ == url@,
            None => forall|i: int| 0 <= i < index@.len() ==> (#[trigger] index@[i]).url@ != url@,
        },
{
    let mut i: usize = 0;
    while i < index.len()
        invariant
            i <= index@.len(),
            forall|j: int| 0 <= j < i ==> (#[trigger] index@[j]).url@ != url@,
        decreases index@.len() - i,
    {
        if index[i].url == *url {
            return Some(i);
        }
        i = i + 1;
    }
    None
}

/// `images` without the records of the image fetched from `url`, in order.
fn retain_other_images(images: Vec<CachedImage>, url: &String) -> (r: Vec<CachedImage>)
    ensures
        image_models(r@) == image_models(images@).filter(other_image(url@)),
{
    let ghost all = images@;
    let mut kept: Vec<CachedImage> = Vec::new();
    for img in it: images
        invariant
            all == it.seq(),
            image_models(kept@) == image_models(all.subrange(0, it.index() as int)).filter(other_image(url@)),
    {
        let ghost before = image_models(all.subrange(0, it.index() as int));
        let ghost after = image_models(all.subrange(0, it.index() + 1));
        proof {
            assert(after.drop_last() =~= before);
            assert(after.last() == img@);
            reveal(Seq::filter);
        }
        if img.url != *url {
            kept.push(img);
            assert(image_models(kept@) =~= before.filter(other_image(url@)).push(all[it.index() as int]@));
        } else {
            assert(!other_image(url@)(after.last()));
        }
    }
    assert(all.subrange(0, all.len() as int) =~= all);
    kept
}

/// A copy of a list of strings.
fn copy_strings(v: &[String]) -> (r: Vec<String>)
    ensures
        string_views(r@) == string_views(v@),
{
    let mut r: Vec<String> = Vec::new();
    let mut i: usize = 0;
    while i < v.len()
        invariant
            i <= v@.len(),
            string_views(r@) == string_views(v@.subrange(0, i as int)),
        decreases v@.len() - i,
    {
        let ghost r0 = r@;
        let item = v[i].clone();
        assert(item@ == v@[i as int]@);
        r.push(item);
        assert(string_views(r@) =~= string_views(r0).push(v@[i as int]@));
        assert(string_views(v@.subrange(0, i + 1)) =~= string_views(v@.subrange(0, i as int)).push(v@[i as int]@));
        i = i + 1;
    }
    assert(v@.subrange(0, v@.len() as int) =~= v@);
    r
}

/// Whether every image URL the chapter lists has a stored image.
fn listed_images_stored(chapter: &CachedChapter) -> (r: bool)
    ensures
        r == listed_stored(chapter@),
{
    let mut k: usize = 0;
    while k < chapter.image_urls.len()
        invariant
            k <= chapter.image_urls@.len(),
            forall|q: int| 0 <= q < k ==> has_image_for(chapter@, #[trigger] chapter@.image_urls[q]),
        decreases chapter.image_urls@.len() - k,
    {
        let wanted = &chapter.image_urls[k];
        assert(chapter@.image_urls[k as int] == wanted@);
        let mut j: usize = 0;
        let mut found = false;
        while j < chapter.images.len() && !found
            invariant
                j <= chapter.images@.len(),
                found ==> has_image_for(chapter@, wanted@),
                !found ==> forall|q: int| 0 <= q < j ==> (#[trigger] chapter@.images[q]).url != wanted@,
            decreases chapter.images@.len() - j + if found { 0int } else { 1int },
        {
            assert(chapter@.images[j as int].url == chapter.images@[j as int].url@);
            if chapter.images[j].url == *wanted {
                found = true;
            } else {
                j = j + 1;
            }
        }
        if !found {
            assert(!has_image_for(chapter@, wanted@));
            return false;
        }
        k = k + 1;
    }
    true
}

/// Whether `s` is one of `v`.
fn contains_string(v: &Vec<String>, s: &String) -> (r: bool)
    ensures
        r == string_views(v@).contains(s@),
{
    let mut i: usize = 0;
    while i < v.len()
        invariant
            i <= v@.len(),
            forall|j: int| 0 <= j < i ==> (#[trigger] v@[j])@ != s@,
        decreases v@.len() - i,
    {
        if v[i] == *s {
            assert(string_views(v@)[i as int] == s@);
            return true;
        }
        i = i + 1;
    }
    assert forall|j: int| 0 <= j < string_views(v@).len() implies string_views(v@)[j] != s@ by {
        assert(v@[j]@ != s@);
    }
    false
}

impl CacheManager {
    /// The index is well formed.
    pub open spec fn wf(&self) -> bool {
        self@.wf()
    }

    /// A manager for `cache_dir` with an empty index.
    pub fn new(cache_dir: String, max_age_secs: u64) -> (r: Self)
        ensures
            r@ == (CacheModel { root: cache_dir@, max_age: max_age_secs, chapters: Seq::empty() }),
            r.wf(),
    {
        let r = CacheManager { cache_dir, index: Vec::new(), max_age: max_age_secs };
        assert(r@.chapters =~= Seq::<ChapterModel>::empty());
        r
    }

    /// A manager for `cache_dir` over an index loaded from its document, given
    /// as (key, chapter) pairs. A document that files a chapter under another
    /// URL than its own, or holds one URL twice, is malformed.
    pub fn with_index(cache_dir: String, max_age_secs: u64, entries: Vec<(String, CachedChapter)>) -> (r:
        Result<Self, DownloadError>)
        ensures
            r is Ok <==> index_document_ok(entries@),
            r matches Ok(m) ==> m.wf() && m@ == (CacheModel {
                root: cache_dir@,
                max_age: max_age_secs,
                chapters: document_chapters(entries@),
            }),
            r matches Err(e) ==> e is ParsingError,
    {
        let ghost all = entries@;
        let mut index: Vec<CachedChapter> = Vec::new();
        let mut k: usize = 0;
        for e in it: entries
            invariant
                all == it.seq(),
                index@.len() == it.index(),
                forall|j: int| 0 <= j < it.index() ==> (#[trigger] index@[j])@ == all[j].1@,
                forall|j: int| 0 <= j < it.index() ==> (#[trigger] all[j]).0@ == all[j].1.url@,
                forall|i: int, j: int|
                    0 <= i < it.index() && 0 <= j < it.index() && i != j
                        ==> (#[trigger] all[i]).1.url@ != (#[trigger] all[j]).1.url@,
        {
            let (key, chapter) = e;
            if key != chapter.url {
                assert(!(all[it.index() as int].0@ == all[it.index() as int].1.url@));
                return Err(DownloadError::ParsingError(String::from_str("cache index files a chapter under another URL")));
            }
            match position_in(&index, &chapter.url) {
                Some(p) => {
                    assert(all[p as int].1.url@ == all[it.index() as int].1.url@);
                    return Err(DownloadError::ParsingError(String::from_str("cache index holds a chapter URL twice")));
                },
                None => {
                    assert forall|j: int| 0 <= j < it.index() implies all[j].1.url@ != chapter.url@ by {
                        assert(index@[j]@ == all[j].1@);
                    }
                },
            }
            index.push(chapter);
        }
        let r = CacheManager { cache_dir, index, max_age: max_age_secs };
        assert(r@.chapters =~= document_chapters(all));
        Ok(r)
    }

    /// Check if a chapter is cached and up to date, given the current time
    /// and the paths, relative to the cache root, that exist on disk.
    pub fn is_chapter_cached(&self, url: &str, now: u64, present: &Vec<String>) -> (r: bool)
        requires
            self.wf(),
        ensures
            r == self@.is_cached(url@, now, string_views(present@)),
    {
        let key = String::from_str(url);
        match position_in(&self.index, &key) {
            None => {
                false
            },
            Some(i) => {
                proof {
                    lemma_pos_unique(self@, i as int);
                }
                let chapter = &self.index[i];
                if now >= chapter.timestamp && now - chapter.timestamp > self.max_age {
                    return false;
                }
                if !listed_images_stored(chapter) {
                    return false;
                }
                let mut k: usize = 0;
                while k < chapter.images.len()
                    invariant
                        k <= chapter.images@.len(),
                        self@.has(url@),
                        self@.get(url@) == chapter@,
                        forall|j: int|
                            0 <= j < k ==> string_views(present@).contains(
                                (#[trigger] chapter.images@[j]).path@,
                            ),
                    decreases chapter.images@.len() - k,
                {
                    if !contains_string(present, &chapter.images[k].path) {
                        assert(!all_present(chapter@, string_views(present@))) by {
                            assert(chapter@.images[k as int].path == chapter.images@[k as int].path@);
                        }
                        return false;
                    }
                    k = k + 1;
                }
                assert(all_present(chapter@, string_views(present@))) by {
                    assert forall|j: int| 0 <= j < chapter@.images.len() implies string_views(
                        present@,
                    ).contains(#[trigger] chapter@.images[j].path) by {
                        assert(chapter@.images[j].path == chapter.images@[j].path@);
                    }
                }
                true
            },
        }
    }

    /// Store the copy of an image that the caller has placed at
    /// `image_cache_path(chapter_url, image_url)`, whose bytes are `stored`,
    /// at time `now`. Returns the full path of the copy.
    pub fn cache_image(&mut self, chapter_url: &str, image_url: &str, stored: &[u8], now: u64) -> (r: String)
        requires
            old(self).wf(),
        ensures
            final(self).wf(),
            final(self)@ == old(self)@.with_image(chapter_url@, image_url@, stored@, now),
            r@ == join_path(old(self)@.root, storage_relpath(chapter_url@, image_url@)),
    {
        let key = String::from_str(chapter_url);
        let image_key = String::from_str(image_url);
        let rel = storage_path_for(chapter_url, image_url);
        let full = join_path_exec(&self.cache_dir, &rel);
        let checksum = checksum_of_bytes(stored);
        let record = CachedImage { url: image_key, path: rel, checksum, size: stored.len() as u64 };
        let ghost img = image_record(chapter_url@, image_url@, stored@);
        assert(record@ == img);
        let ghost old_model = self@;
        match position_in(&self.index, &key) {
            Some(i) => {
                proof {
                    lemma_pos_unique(self@, i as int);
                }
                let ghost old_index = self.index@;
                let mut chapter = self.index.remove(i);
                let ghost c = chapter@;
                assert(c == old_model.get(chapter_url@));
                let kept = retain_other_images(chapter.images, &record.url);
                chapter.images = kept;
                chapter.images.push(record);
                chapter.timestamp = now;
                assert(chapter@.images =~= c.images.filter(other_image(image_url@)).push(img));
                let ghost newc = chapter;
                self.index.insert(i, chapter);
                assert(self.index@ =~= old_index.update(i as int, newc));
                assert(chapter_models(self.index@) =~= chapter_models(old_index).update(i as int, newc@));
                assert(self@.chapters =~= old_model.with_image(chapter_url@, image_url@, stored@, now).chapters);
            },
            None => {
                let title = extract_chapter_title(chapter_url);
                let mut images: Vec<CachedImage> = Vec::new();
                images.push(record);
                let fresh = CachedChapter {
                    title,
                    url: key,
                    timestamp: now,
                    checksum: String::new(),
                    image_urls: Vec::new(),
                    images,
                };
                assert(fresh@.images =~= seq![img]);
                assert(fresh@.image_urls =~= Seq::<Seq<char>>::empty());
                let ghost old_index = self.index@;
                self.index.push(fresh);
                assert(chapter_models(self.index@) =~= chapter_models(old_index).push(fresh@));
                assert(!old_model.has(chapter_url@)) by {
                    if old_model.has(chapter_url@) {
                        let j = old_model.pos(chapter_url@);
                        assert(old_model.chapters[j].url == self.index@[j].url@);
                    }
                }
                assert(self@.chapters =~= old_model.with_image(chapter_url@, image_url@, stored@, now).chapters);
            },
        }
        full
    }

    /// Full path at which the caller places the copy of an image before
    /// calling [`CacheManager::cache_image`].
    pub fn image_cache_path(&self, chapter_url: &str, image_url: &str) -> (r: String)
        ensures
            r@ == join_path(self@.root, storage_relpath(chapter_url@, image_url@)),
    {
        let rel = storage_path_for(chapter_url, image_url);
        join_path_exec(&self.cache_dir, &rel)
    }

    /// Record the title of a chapter and the fingerprint of its ordered
    /// image URL list at time `now`, creating the entry if needed.
    pub fn cache_chapter(&mut self, chapter_url: &str, chapter_title: &str, image_urls: &[String], now: u64)
        requires
            old(self).wf(),
        ensures
            final(self).wf(),
            final(self)@ == old(self)@.with_metadata(chapter_url@, chapter_title@, string_views(image_urls@), now),
    {
        let key = String::from_str(chapter_url);
        let listing = debug_list_text(image_urls);
        let fingerprint = compute_hash(listing.as_str());
        let ghost old_model = self@;
        let ghost old_index = self.index@;
        match position_in(&self.index, &key) {
            Some(i) => {
                proof {
                    lemma_pos_unique(self@, i as int);
                }
                let mut chapter = self.index.remove(i);
                chapter.title = String::from_str(chapter_title);
                chapter.timestamp = now;
                chapter.checksum = fingerprint;
                chapter.image_urls = copy_strings(image_urls);
                let ghost newc = chapter;
                self.index.insert(i, chapter);
                assert(self.index@ =~= old_index.update(i as int, newc));
                assert(chapter_models(self.index@) =~= chapter_models(old_index).update(i as int, newc@));
                assert(self@.chapters =~= old_model.with_metadata(chapter_url@, chapter_title@, string_views(image_urls@), now).chapters);
            },
            None => {
                let fresh = CachedChapter {
                    title: String::from_str(chapter_title),
                    url: key,
                    timestamp: now,
                    checksum: fingerprint,
                    image_urls: copy_strings(image_urls),
                    images: Vec::new(),
                };
                assert(fresh@.images =~= Seq::<ImageModel>::empty());
                self.index.push(fresh);
                assert(!old_model.has(chapter_url@)) by {
                    if old_model.has(chapter_url@) {
                        let j = old_model.pos(chapter_url@);
                        assert(old_model.chapters[j].url == self.index@[j].url@);
                    }
                }
                assert(chapter_models(self.index@) =~= chapter_models(old_index).push(fresh@));
                assert(self@.chapters =~= old_model.with_metadata(chapter_url@, chapter_title@, string_views(image_urls@), now).chapters);
            },
        }
    }

    /// Empty the index. The caller removes the files under the cache root.
    pub fn clear_cache(&mut self)
        ensures
            final(self).wf(),
            final(self)@ == old(self)@.cleared(),
    {
        self.index = Vec::new();
        assert(self@.chapters =~= Seq::<ChapterModel>::empty());
    }

    /// Remove the entries that are older than the maximum age at `now`.
    /// Returns the full paths of their image files, which the caller deletes.
    pub fn clean_expired(&mut self, now: u64) -> (r: Vec<String>)
        requires
            old(self).wf(),
        ensures
            final(self).wf(),
            final(self)@ == old(self)@.without_expired(now),
            string_views(r@) == old(self)@.expired_paths(now),
    {
        let ghost m0 = self@;
        let mut all: Vec<CachedChapter> = Vec::new();
        std::mem::swap(&mut all, &mut self.index);
        let ghost all_seq = all@;
        let ghost models = chapter_models(all_seq);
        assert(models == m0.chapters);
        let mut paths: Vec<String> = Vec::new();
        for chapter in it: all
            invariant
                all_seq == it.seq(),
                models == chapter_models(all_seq),
                models == m0.chapters,
                m0.wf(),
                self.cache_dir@ == m0.root,
                self.max_age == m0.max_age,
                chapter_models(self.index@) == models.subrange(0, it.index() as int).filter(kept_at(now, m0.max_age)),
                forall|j: int, p: int|
                    0 <= j < self.index@.len() && it.index() <= p < models.len()
                        ==> (#[trigger] self.index@[j]).url@ != (#[trigger] models[p]).url,
                self@.wf(),
                string_views(paths@) == m0.full_paths(flatten_images(models.subrange(0, it.index() as int).filter(expired_at(now, m0.max_age)))),
        {
            let ghost k = it.index() as int;
            let ghost before = models.subrange(0, k);
            let ghost after = models.subrange(0, k + 1);
            proof {
                assert(after.drop_last() =~= before);
                assert(after.last() == chapter@);
                reveal(Seq::filter);
            }
            if now >= chapter.timestamp && now - chapter.timestamp > self.max_age {
                assert(!kept_at(now, m0.max_age)(chapter@));
                let ghost paths0 = paths@;
                let mut q: usize = 0;
                while q < chapter.images.len()
                    invariant
                        q <= chapter.images@.len(),
                        string_views(paths@) == string_views(paths0) + m0.full_paths(image_models(chapter.images@).subrange(0, q as int)),
                        self.cache_dir@ == m0.root,
                    decreases chapter.images@.len() - q,
                {
                    let ghost xs = image_models(chapter.images@).subrange(0, q as int);
                    let ghost ys = image_models(chapter.images@).subrange(0, q + 1);
                    let ghost before_push = paths@;
                    assert(ys =~= xs.push(chapter.images@[q as int]@));
                    assert(m0.full_paths(ys) =~= m0.full_paths(xs).push(join_path(m0.root, chapter.images@[q as int].path@)));
                    paths.push(join_path_exec(&self.cache_dir, &chapter.images[q].path));
                    assert(string_views(paths@) =~= string_views(before_push).push(join_path(m0.root, chapter.images@[q as int].path@)));
                    q = q + 1;
                }
                assert(image_models(chapter.images@).subrange(0, chapter.images@.len() as int) =~= chapter@.images);
                assert(after.filter(expired_at(now, m0.max_age)) == before.filter(expired_at(now, m0.max_age)).push(chapter@));
                assert(flatten_images(after.filter(expired_at(now, m0.max_age))) =~= flatten_images(before.filter(expired_at(now, m0.max_age))) + chapter@.images) by {
                    assert(before.filter(expired_at(now, m0.max_age)).push(chapter@).drop_last() =~= before.filter(expired_at(now, m0.max_age)));
                }
                assert(string_views(paths@) =~= m0.full_paths(flatten_images(after.filter(expired_at(now, m0.max_age)))));
            } else {
                assert(kept_at(now, m0.max_age)(chapter@));
                let ghost idx0 = self.index@;
                assert(models[k] == chapter@);
                let ghost mid = self@;
                assert(mid.wf());
                self.index.push(chapter);
                assert(chapter_models(self.index@) =~= chapter_models(idx0).push(models[k]));
                assert forall|j: int, p: int|
                    0 <= j < self.index@.len() && k + 1 <= p < models.len()
                        implies (#[trigger] self.index@[j]).url@ != (#[trigger] models[p]).url by {
                    if j < idx0.len() {
                        assert(self.index@[j] == idx0[j]);
                        assert(idx0[j].url@ != models[p].url);
                    } else {
                        assert(self.index@[j]@ == models[k]);
                        assert(m0.chapters[k].url != m0.chapters[p].url);
                    }
                }
                assert(self@.wf()) by {
                    assert forall|a: int, b: int| 0 <= a < self@.chapters.len() && 0 <= b < self@.chapters.len() && a != b implies #[trigger] self@.chapters[a].url != #[trigger] self@.chapters[b].url by {
                        assert(self@.chapters[a].url == self.index@[a].url@);
                        assert(self@.chapters[b].url == self.index@[b].url@);
                        if a < idx0.len() && b < idx0.len() {
                            assert(mid.chapters[a] == self@.chapters[a]);
                            assert(mid.chapters[b] == self@.chapters[b]);
                            assert(mid.chapters[a].url != mid.chapters[b].url);
                        } else if a < idx0.len() {
                            assert(self.index@[b]@ == models[k]);
                            assert(idx0[a].url@ != models[k].url);
                        } else if b < idx0.len() {
                            assert(self.index@[a]@ == models[k]);
                            assert(idx0[b].url@ != models[k].url);
                        }
                    }
                }
                assert(after.filter(expired_at(now, m0.max_age)) == before.filter(expired_at(now, m0.max_age)));
            }
        }
        assert(models.subrange(0, models.len() as int) =~= models);
        paths
    }

    /// Validate the indexed images against the digests of the files on
    /// disk, given in the order of [`CacheManager::stored_image_paths`]
    /// (`None` for a missing or unreadable file). Returns (valid, invalid).
    pub fn validate_cache(&self, digests: &Vec<Option<String>>) -> (r: (usize, usize))
        requires
            self@.all_images().len() <= usize::MAX,
        ensures
            r.0 == self@.validation(digest_views(digests@)).0,
            r.1 == self@.validation(digest_views(digests@)).1,
    {
        let ghost models = self@.chapters;
        let ghost ds = digest_views(digests@);
        let mut valid: usize = 0;
        let mut invalid: usize = 0;
        let mut pos: usize = 0;
        let mut i: usize = 0;
        while i < self.index.len()
            invariant
                models == self@.chapters,
                ds == digest_views(digests@),
                flatten_images(models).len() <= usize::MAX,
                i <= models.len(),
                pos == flatten_images(models.subrange(0, i as int)).len(),
                valid == valid_count(flatten_images(models.subrange(0, i as int)), ds),
                valid + invalid == pos,
            decreases models.len() - i,
        {
            let chapter = &self.index[i];
            assert(models[i as int] == chapter@);
            proof {
                lemma_flatten_step(models, i as int);
                lemma_flatten_prefix_len(models, i + 1);
            }
            let ghost seen0 = flatten_images(models.subrange(0, i as int));
            let mut k: usize = 0;
            while k < chapter.images.len()
                invariant
                    ds == digest_views(digests@),
                    k <= chapter@.images.len(),
                    seen0.len() + chapter@.images.len() <= usize::MAX,
                    pos == seen0.len() + k,
                    valid == valid_count(seen0 + chapter@.images.subrange(0, k as int), ds),
                    valid + invalid == pos,
                decreases chapter@.images.len() - k,
            {
                let image = &chapter.images[k];
                let ghost seen = seen0 + chapter@.images.subrange(0, k as int);
                proof {
                    lemma_valid_count_push(seen, image@, ds);
                    assert(seen.push(image@) =~= seen0 + chapter@.images.subrange(0, k + 1));
                    assert(chapter@.images[k as int] == image@);
                }
                let mut ok = false;
                if pos < digests.len() {
                    match &digests[pos] {
                        Some(d) => {
                            ok = *d == image.checksum;
                        },
                        None => {},
                    }
                }
                assert(ok == digest_matches(image@, ds, seen.len() as int));
                if ok {
                    valid = valid + 1;
                } else {
                    invalid = invalid + 1;
                }
                pos = pos + 1;
                k = k + 1;
            }
            assert(chapter@.images.subrange(0, chapter@.images.len() as int) =~= chapter@.images);
            i = i + 1;
        }
        assert(models.subrange(0, models.len() as int) =~= models);
        proof {
            lemma_valid_count_push(flatten_images(models), ImageModel { url: Seq::empty(), path: Seq::empty(), checksum: Seq::empty(), size: 0 }, ds);
        }
        (valid, invalid)
    }

    /// Full paths of every indexed image, chapter after chapter: the order
    /// in which [`CacheManager::validate_cache`] takes the digests.
    pub fn stored_image_paths(&self) -> (r: Vec<String>)
        ensures
            string_views(r@) == self@.full_paths(self@.all_images()),
    {
        let ghost models = self@.chapters;
        let mut paths: Vec<String> = Vec::new();
        let mut i: usize = 0;
        while i < self.index.len()
            invariant
                models == self@.chapters,
                i <= models.len(),
                string_views(paths@) == self@.full_paths(flatten_images(models.subrange(0, i as int))),
            decreases models.len() - i,
        {
            let chapter = &self.index[i];
            assert(models[i as int] == chapter@);
            proof {
                lemma_flatten_step(models, i as int);
            }
            let ghost paths0 = string_views(paths@);
            let mut k: usize = 0;
            while k < chapter.images.len()
                invariant
                    k <= chapter@.images.len(),
                    string_views(paths@) == paths0 + self@.full_paths(chapter@.images.subrange(0, k as int)),
                decreases chapter@.images.len() - k,
            {
                let ghost xs = chapter@.images.subrange(0, k as int);
                let ghost ys = chapter@.images.subrange(0, k + 1);
                let ghost before_push = paths@;
                assert(chapter@.images[k as int] == chapter.images@[k as int]@);
                assert(ys =~= xs.push(chapter.images@[k as int]@));
                assert(self@.full_paths(ys) =~= self@.full_paths(xs).push(join_path(self.cache_dir@, chapter.images@[k as int].path@)));
                paths.push(join_path_exec(&self.cache_dir, &chapter.images[k].path));
                assert(string_views(paths@) =~= string_views(before_push).push(join_path(self.cache_dir@, chapter.images@[k as int].path@)));
                k = k + 1;
            }
            assert(chapter@.images.subrange(0, chapter@.images.len() as int) =~= chapter@.images);
            assert(string_views(paths@) =~= self@.full_paths(flatten_images(models.subrange(0, i + 1))));
            i = i + 1;
        }
        assert(models.subrange(0, models.len() as int) =~= models);
        paths
    }

    /// The entries of the index, in index order.
    pub fn index_entries(&self) -> (r: &Vec<CachedChapter>)
        ensures
            chapter_models(r@) == self@.chapters,
    {
        &self.index
    }

    /// The cache root.
    pub fn cache_dir(&self) -> (r: &String)
        ensures
            r@ == self@.root,
    {
        &self.cache_dir
    }

    /// The maximum age of an entry, in seconds.
    pub fn max_age(&self) -> (r: u64)
        ensures
            r == self@.max_age,
    {
        self.max_age
    }

    /// Full paths of the cached images of a chapter, returned only if every
    /// one of them exists on disk.
    pub fn get_cached_image_paths(&self, url: &str, present: &Vec<String>) -> (r: Option<Vec<String>>)
        requires
            self.wf(),
        ensures
            r is Some == self@.cached_paths(url@, string_views(present@)) is Some,
            r matches Some(v) ==> Some(string_views(v@)) == self@.cached_paths(url@, string_views(present@)),
    {
        let key = String::from_str(url);
        match position_in(&self.index, &key) {
            None => None,
            Some(i) => {
                proof {
                    lemma_pos_unique(self@, i as int);
                }
                let chapter = &self.index[i];
                if !listed_images_stored(chapter) {
                    return None;
                }
                let ghost target = chapter@.images.map_values(|m: ImageModel| join_path(self.cache_dir@, m.path));
                let mut paths: Vec<String> = Vec::new();
                let mut k: usize = 0;
                while k < chapter.images.len()
                    invariant
                        k <= chapter.images@.len(),
                        self@.has(url@),
                        self@.get(url@) == chapter@,
                        paths@.len() == k,
                        target == chapter@.images.map_values(|m: ImageModel| join_path(self.cache_dir@, m.path)),
                        forall|j: int| 0 <= j < k ==> string_views(present@).contains((#[trigger] chapter.images@[j]).path@),
                        forall|j: int| 0 <= j < k ==> (#[trigger] paths@[j])@ == target[j],
                    decreases chapter.images@.len() - k,
                {
                    let image = &chapter.images[k];
                    assert(chapter@.images[k as int].path == image.path@);
                    if !contains_string(present, &image.path) {
                        return None;
                    }
                    paths.push(join_path_exec(&self.cache_dir, &image.path));
                    k = k + 1;
                }
                assert(all_present(chapter@, string_views(present@))) by {
                    assert forall|j: int| 0 <= j < chapter@.images.len() implies string_views(
                        present@,
                    ).contains(#[trigger] chapter@.images[j].path) by {
                        assert(chapter@.images[j].path == chapter.images@[j].path@);
                    }
                }
                assert(string_views(paths@) =~= target);
                Some(paths)
            },
        }
    }
}

} // verus!
