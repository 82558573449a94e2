//! Properties that relate the cache operations to one another, stated over
//! [`CacheModel`], the model each operation of
//! [`CacheManager`](crate::cache::CacheManager) is specified by.

use vstd::prelude::*;

use crate::cache::{
    valid_count, all_present, has_image_for, listed_stored, other_image, ImageModel, digest_matches, expired_at, flatten_images, image_record, join_path, kept_at,
    lemma_flatten_step, storage_relpath, within_age, CacheModel, ChapterModel,
};
use crate::digest::sha256_hex_of;

verus! {

/// The images of a prefix of the chapters open the flattened images of all.
pub proof fn lemma_flatten_prefix(s: Seq<ChapterModel>, k: int)
    requires
        0 <= k <= s.len(),
    ensures
        flatten_images(s.subrange(0, k)).len() <= flatten_images(s).len(),
        forall|q: int|
            0 <= q < flatten_images(s.subrange(0, k)).len() ==> flatten_images(s)[q]
                == #[trigger] flatten_images(s.subrange(0, k))[q],
    decreases s.len() - k,
{
    if k < s.len() {
        lemma_flatten_step(s, k);
        lemma_flatten_prefix(s, k + 1);
        assert forall|q: int| 0 <= q < flatten_images(s.subrange(0, k)).len() implies flatten_images(s)[q]
            == #[trigger] flatten_images(s.subrange(0, k))[q] by {
            assert(flatten_images(s.subrange(0, k + 1))[q] == flatten_images(s.subrange(0, k))[q]);
        }
    } else {
        assert(s.subrange(0, k) =~= s);
    }
}

/// The images of chapter `i` sit in the flattened images right after those
/// of the chapters before it.
pub proof fn lemma_flatten_at(s: Seq<ChapterModel>, i: int, j: int)
    requires
        0 <= i < s.len(),
        0 <= j < s[i].images.len(),
    ensures
        flatten_images(s.subrange(0, i)).len() + j < flatten_images(s).len(),
        flatten_images(s)[flatten_images(s.subrange(0, i)).len() + j] == s[i].images[j],
{
    lemma_flatten_step(s, i);
    lemma_flatten_prefix(s, i + 1);
    let q = flatten_images(s.subrange(0, i)).len() + j;
    assert(flatten_images(s.subrange(0, i + 1))[q] == s[i].images[j]);
}

/// Storing an image keeps the index well formed, leaves every other entry
/// as it was, and leaves the chapter's entry stamped `now` with the new
/// record last.
pub proof fn lemma_with_image(m: CacheModel, c: Seq<char>, u: Seq<char>, contents: Seq<u8>, now: u64)
    requires
        m.wf(),
    ensures
        m.with_image(c, u, contents, now).wf(),
        m.with_image(c, u, contents, now).has(c),
        m.with_image(c, u, contents, now).get(c).timestamp == now,
        m.with_image(c, u, contents, now).get(c).images.last() == image_record(c, u, contents),
        m.with_image(c, u, contents, now).get(c).images.len() >= 1,
        m.with_image(c, u, contents, now).get(c).images == if m.has(c) {
            m.get(c).images.filter(other_image(u)).push(image_record(c, u, contents))
        } else {
            seq![image_record(c, u, contents)]
        },
        m.with_image(c, u, contents, now).get(c).image_urls == if m.has(c) {
            m.get(c).image_urls
        } else {
            Seq::<Seq<char>>::empty()
        },
        m.with_image(c, u, contents, now).root == m.root,
        m.with_image(c, u, contents, now).max_age == m.max_age,
{
    let r = m.with_image(c, u, contents, now);
    if m.has(c) {
        let i = m.pos(c);
        assert(r.chapters[i].url == c);
        crate::cache::lemma_pos_unique(r, i);
    } else {
        let i = m.chapters.len() as int;
        assert(r.chapters[i].url == c);
        assert forall|a: int, b: int|
            0 <= a < r.chapters.len() && 0 <= b < r.chapters.len() && a != b implies #[trigger] r.chapters[a].url
            != #[trigger] r.chapters[b].url by {
            if a < i && b < i {
                assert(m.chapters[a].url != m.chapters[b].url);
            } else if a < i {
                assert(!(0 <= a < m.chapters.len() && m.chapters[a].url == c));
            } else {
                assert(!(0 <= b < m.chapters.len() && m.chapters[b].url == c));
            }
        }
        crate::cache::lemma_pos_unique(r, i);
    }
}

/// Recording metadata keeps the index well formed and leaves the chapter's
/// entry stamped `now`, with its images unchanged.
pub proof fn lemma_with_metadata(
    m: CacheModel,
    c: Seq<char>,
    title: Seq<char>,
    urls: Seq<Seq<char>>,
    now: u64,
)
    requires
        m.wf(),
    ensures
        m.with_metadata(c, title, urls, now).wf(),
        m.with_metadata(c, title, urls, now).has(c),
        m.with_metadata(c, title, urls, now).get(c).timestamp == now,
        m.with_metadata(c, title, urls, now).get(c).title == title,
        m.with_metadata(c, title, urls, now).get(c).image_urls == urls,
        m.has(c) ==> m.with_metadata(c, title, urls, now).get(c).images == m.get(c).images,
        !m.has(c) ==> m.with_metadata(c, title, urls, now).get(c).images.len() == 0,
        m.with_metadata(c, title, urls, now).root == m.root,
        m.with_metadata(c, title, urls, now).max_age == m.max_age,
{
    let r = m.with_metadata(c, title, urls, now);
    if m.has(c) {
        let i = m.pos(c);
        assert(r.chapters[i].url == c);
        crate::cache::lemma_pos_unique(r, i);
    } else {
        let i = m.chapters.len() as int;
        assert(r.chapters[i].url == c);
        assert forall|a: int, b: int|
            0 <= a < r.chapters.len() && 0 <= b < r.chapters.len() && a != b implies #[trigger] r.chapters[a].url
            != #[trigger] r.chapters[b].url by {
            if a < i && b < i {
                assert(m.chapters[a].url != m.chapters[b].url);
            } else if a < i {
                assert(!(0 <= a < m.chapters.len() && m.chapters[a].url == c));
            } else {
                assert(!(0 <= b < m.chapters.len() && m.chapters[b].url == c));
            }
        }
        crate::cache::lemma_pos_unique(r, i);
    }
}

/// An image whose digest matches at its own position is counted valid.
pub proof fn lemma_valid_count_includes(images: Seq<ImageModel>, digests: Seq<Option<Seq<char>>>, p: int)
    requires
        0 <= p < images.len(),
        digest_matches(images[p], digests, p),
    ensures
        valid_count(images, digests) >= 1,
    decreases images.len(),
{
    if p < images.len() - 1 {
        assert(images.drop_last()[p] == images[p]);
        lemma_valid_count_includes(images.drop_last(), digests, p);
    }
}

/// When every indexed image has a matching digest, validation reports all
/// of them valid and none invalid.
pub proof fn lemma_all_matching_all_valid(images: Seq<ImageModel>, digests: Seq<Option<Seq<char>>>)
    requires
        forall|p: int| 0 <= p < images.len() ==> #[trigger] digest_matches(images[p], digests, p),
    ensures
        valid_count(images, digests) == images.len(),
    decreases images.len(),
{
    if images.len() > 0 {
        assert forall|p: int| 0 <= p < images.drop_last().len() implies #[trigger] digest_matches(
            images.drop_last()[p],
            digests,
            p,
        ) by {
            assert(images.drop_last()[p] == images[p]);
            assert(digest_matches(images[p], digests, p));
        }
        lemma_all_matching_all_valid(images.drop_last(), digests);
        assert(digest_matches(images[images.len() - 1], digests, images.len() - 1));
    }
}

/// An image stored with some contents is checked against the digest of
/// those contents: validation right after the store counts it valid when
/// the file on disk still holds them, so the valid count includes it.
/// Returns its position among the indexed images.
pub proof fn lemma_stored_image_validates(
    m: CacheModel,
    c: Seq<char>,
    u: Seq<char>,
    contents: Seq<u8>,
    now: u64,
) -> (p: int)
    requires
        m.wf(),
    ensures
        0 <= p < m.with_image(c, u, contents, now).all_images().len(),
        m.with_image(c, u, contents, now).all_images()[p] == image_record(c, u, contents),
        forall|d: Seq<Option<Seq<char>>>|
            0 <= p < d.len() && d[p] == Some(sha256_hex_of(contents)) ==> #[trigger] digest_matches(
                m.with_image(c, u, contents, now).all_images()[p],
                d,
                p,
            ),
        forall|d: Seq<Option<Seq<char>>>|
            0 <= p < d.len() && d[p] == Some(sha256_hex_of(contents)) ==> #[trigger] m.with_image(
                c,
                u,
                contents,
                now,
            ).validation(d).0 >= 1,
{
    let r = m.with_image(c, u, contents, now);
    lemma_with_image(m, c, u, contents, now);
    let i = r.pos(c);
    let j = r.chapters[i].images.len() - 1;
    lemma_flatten_at(r.chapters, i, j);
    let p = flatten_images(r.chapters.subrange(0, i)).len() + j;
    assert forall|d: Seq<Option<Seq<char>>>|
        0 <= p < d.len() && d[p] == Some(sha256_hex_of(contents)) implies #[trigger] r.validation(d).0
        >= 1 by {
        lemma_valid_count_includes(r.all_images(), d, p);
    }
    p
}

/// A cleared cache holds no fresh chapter.
pub proof fn lemma_cleared_is_not_fresh(m: CacheModel, url: Seq<char>, now: u64, present: Seq<Seq<char>>)
    ensures
        !m.cleared().is_cached(url, now, present),
{
}

/// Right after an image is stored for a chapter and its metadata recorded,
/// listing that image, the chapter is fresh while its age is within the
/// maximum and its stored files are on disk.
pub proof fn lemma_fresh_after_store_and_metadata(
    m: CacheModel,
    c: Seq<char>,
    u: Seq<char>,
    contents: Seq<u8>,
    t1: u64,
    title: Seq<char>,
    urls: Seq<Seq<char>>,
    t2: u64,
    now: u64,
    present: Seq<Seq<char>>,
)
    requires
        m.wf(),
        now - t2 <= m.max_age,
        forall|k: int| 0 <= k < urls.len() ==> urls[k] == u,
        all_present(m.with_image(c, u, contents, t1).with_metadata(c, title, urls, t2).get(c), present),
    ensures
        m.with_image(c, u, contents, t1).with_metadata(c, title, urls, t2).is_cached(c, now, present),
{
    lemma_with_image(m, c, u, contents, t1);
    lemma_with_metadata(m.with_image(c, u, contents, t1), c, title, urls, t2);
    let ch = m.with_image(c, u, contents, t1).with_metadata(c, title, urls, t2).get(c);
    assert(ch.images[ch.images.len() - 1].url == u);
}

/// The same holds with the metadata recorded first.
pub proof fn lemma_fresh_after_metadata_and_store(
    m: CacheModel,
    c: Seq<char>,
    title: Seq<char>,
    urls: Seq<Seq<char>>,
    t1: u64,
    u: Seq<char>,
    contents: Seq<u8>,
    t2: u64,
    now: u64,
    present: Seq<Seq<char>>,
)
    requires
        m.wf(),
        now - t2 <= m.max_age,
        forall|k: int| 0 <= k < urls.len() ==> urls[k] == u,
        all_present(m.with_metadata(c, title, urls, t1).with_image(c, u, contents, t2).get(c), present),
    ensures
        m.with_metadata(c, title, urls, t1).with_image(c, u, contents, t2).is_cached(c, now, present),
{
    lemma_with_metadata(m, c, title, urls, t1);
    lemma_with_image(m.with_metadata(c, title, urls, t1), c, u, contents, t2);
    let ch = m.with_metadata(c, title, urls, t1).with_image(c, u, contents, t2).get(c);
    assert(ch.images[ch.images.len() - 1].url == u);
}

/// A chapter whose recorded list names an image that has not been stored
/// is neither fresh nor served, whatever files exist: here a new chapter
/// listing `urls`, of which only `u` is then stored.
pub proof fn lemma_partial_chapter_not_served(
    m: CacheModel,
    c: Seq<char>,
    title: Seq<char>,
    urls: Seq<Seq<char>>,
    t1: u64,
    u: Seq<char>,
    contents: Seq<u8>,
    t2: u64,
    missing: Seq<char>,
    now: u64,
    present: Seq<Seq<char>>,
)
    requires
        m.wf(),
        !m.has(c),
        urls.contains(missing),
        missing != u,
    ensures
        !m.with_metadata(c, title, urls, t1).with_image(c, u, contents, t2).is_cached(c, now, present),
        m.with_metadata(c, title, urls, t1).with_image(c, u, contents, t2).cached_paths(c, present) is None,
{
    let m1 = m.with_metadata(c, title, urls, t1);
    lemma_with_metadata(m, c, title, urls, t1);
    lemma_with_image(m1, c, u, contents, t2);
    let ch = m1.with_image(c, u, contents, t2).get(c);
    reveal(Seq::filter);
    assert(m1.get(c).images =~= Seq::<ImageModel>::empty());
    assert(m1.get(c).images.filter(other_image(u)) =~= Seq::<ImageModel>::empty());
    assert(ch.images =~= seq![image_record(c, u, contents)]);
    let k = choose|k: int| 0 <= k < urls.len() && urls[k] == missing;
    assert(ch.image_urls[k] == missing);
    assert(!has_image_for(ch, missing));
    assert(!listed_stored(ch));
}

/// Once every image a new chapter lists has been stored and their files
/// exist, the chapter is fresh within the maximum age and all its paths are
/// served: a chapter listing `u1` and `u2`, stored in turn.
pub proof fn lemma_complete_chapter_served(
    m: CacheModel,
    c: Seq<char>,
    title: Seq<char>,
    t1: u64,
    u1: Seq<char>,
    contents1: Seq<u8>,
    t2: u64,
    u2: Seq<char>,
    contents2: Seq<u8>,
    t3: u64,
    now: u64,
    present: Seq<Seq<char>>,
)
    requires
        m.wf(),
        !m.has(c),
        u1 != u2,
        now - t3 <= m.max_age,
        present.contains(storage_relpath(c, u1)),
        present.contains(storage_relpath(c, u2)),
    ensures
        m.with_metadata(c, title, seq![u1, u2], t1).with_image(c, u1, contents1, t2).with_image(
            c,
            u2,
            contents2,
            t3,
        ).is_cached(c, now, present),
        m.with_metadata(c, title, seq![u1, u2], t1).with_image(c, u1, contents1, t2).with_image(
            c,
            u2,
            contents2,
            t3,
        ).cached_paths(c, present)->0.len() == 2,
{
    let m1 = m.with_metadata(c, title, seq![u1, u2], t1);
    let m2 = m1.with_image(c, u1, contents1, t2);
    let m3 = m2.with_image(c, u2, contents2, t3);
    lemma_with_metadata(m, c, title, seq![u1, u2], t1);
    lemma_with_image(m1, c, u1, contents1, t2);
    lemma_with_image(m2, c, u2, contents2, t3);
    let r1 = image_record(c, u1, contents1);
    let r2 = image_record(c, u2, contents2);
    reveal(Seq::filter);
    assert(m1.get(c).images =~= Seq::<ImageModel>::empty());
    assert(m1.get(c).images.filter(other_image(u1)) =~= Seq::<ImageModel>::empty());
    assert(m2.get(c).images =~= seq![r1]);
    assert(seq![r1].drop_last() =~= Seq::<ImageModel>::empty());
    assert(other_image(u2)(r1));
    assert(seq![r1].filter(other_image(u2)) =~= seq![r1]);
    let ch = m3.get(c);
    assert(ch.images =~= seq![r1, r2]);
    assert(ch.image_urls =~= seq![u1, u2]);
    assert(has_image_for(ch, u1)) by {
        assert(ch.images[0].url == u1);
    }
    assert(has_image_for(ch, u2)) by {
        assert(ch.images[1].url == u2);
    }
    assert(listed_stored(ch));
    assert(all_present(ch, present));
}

/// With a maximum age of zero, a sweep run later than a store removes the
/// chapter's entry and hands back its stored file for deletion; afterwards
/// the chapter has no cached paths.
pub proof fn lemma_sweep_removes_stored_chapter(
    m: CacheModel,
    c: Seq<char>,
    u: Seq<char>,
    contents: Seq<u8>,
    t: u64,
    now: u64,
    present: Seq<Seq<char>>,
)
    requires
        m.wf(),
        m.max_age == 0,
        now > t,
    ensures
        !m.with_image(c, u, contents, t).without_expired(now).has(c),
        m.with_image(c, u, contents, t).without_expired(now).cached_paths(c, present) is None,
        m.with_image(c, u, contents, t).expired_paths(now).contains(
            join_path(m.root, storage_relpath(c, u)),
        ),
{
    let r = m.with_image(c, u, contents, t);
    lemma_with_image(m, c, u, contents, t);
    let ch = r.get(c);
    let i = r.pos(c);
    assert(!within_age(ch, now, r.max_age));
    let kept = r.chapters.filter(kept_at(now, r.max_age));
    let gone = r.chapters.filter(expired_at(now, r.max_age));
    let w = r.without_expired(now);
    assert(!w.has(c)) by {
        if w.has(c) {
            let a = w.pos(c);
            assert(kept.contains(kept[a]));
            r.chapters.lemma_filter_contains_rev(kept_at(now, r.max_age), kept[a]);
            r.chapters.lemma_filter_pred(kept_at(now, r.max_age), a);
            let b = choose|b: int| 0 <= b < r.chapters.len() && r.chapters[b] == kept[a];
            crate::cache::lemma_pos_unique(r, b);
            assert(kept_at(now, r.max_age)(kept[a]));
        }
    }
    assert(expired_at(now, r.max_age)(r.chapters[i]));
    r.chapters.lemma_filter_contains(expired_at(now, r.max_age), i);
    let g = choose|g: int| 0 <= g < gone.len() && gone[g] == r.chapters[i];
    let j = ch.images.len() - 1;
    lemma_flatten_at(gone, g, j);
    let q = flatten_images(gone.subrange(0, g)).len() + j;
    assert(r.expired_paths(now)[q] == join_path(m.root, storage_relpath(c, u)));
}

/// A chapter one of whose files is missing has no cached paths: the paths
/// are served all together or not at all.
pub proof fn lemma_missing_file_hides_chapter(m: CacheModel, url: Seq<char>, present: Seq<Seq<char>>, k: int)
    requires
        m.has(url),
        0 <= k < m.get(url).images.len(),
        !present.contains(m.get(url).images[k].path),
    ensures
        m.cached_paths(url, present) is None,
{
}

/// Cached paths, when served, name every image of the chapter.
pub proof fn lemma_cached_paths_complete(m: CacheModel, url: Seq<char>, present: Seq<Seq<char>>)
    requires
        m.cached_paths(url, present) is Some,
    ensures
        m.has(url),
        m.cached_paths(url, present)->0.len() == m.get(url).images.len(),
        forall|k: int|
            0 <= k < m.get(url).images.len() ==> present.contains(#[trigger] m.get(url).images[k].path),
{
}

} // verus!
