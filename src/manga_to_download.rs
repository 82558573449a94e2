//! The chapters a manga offers, as read from its page.

use vstd::prelude::*;

use crate::error::DownloadError;

verus! {

/// One chapter offered for download.
#[derive(Debug)]
pub struct ChapterInfo {
    /// Position in the listing, newest first, from zero.
    pub index: usize,
    /// Title as shown on the page.
    pub title: String,
    /// URL of the chapter's page.
    pub url: String,
}

/// The chapter links of a listing, in page order, that carry an address:
/// (url, title) for each.
pub open spec fn linked_chapters(links: Seq<(Option<String>, String)>) -> Seq<(Seq<char>, Seq<char>)>
    decreases links.len(),
{
    if links.len() == 0 {
        Seq::empty()
    } else {
        let rest = linked_chapters(links.drop_last());
        match links.last().0 {
            Some(href) => rest.push((href@, links.last().1@)),
            None => rest,
        }
    }
}

/// Number the chapter links found on a manga's page, given in page order as
/// (address if any, title). Links without an address are skipped; the rest
/// are numbered from zero in reverse page order, so that the newest chapter,
/// listed last, comes first. A page without any is an error.
pub fn number_chapters(links: Vec<(Option<String>, String)>) -> (r: Result<Vec<ChapterInfo>, DownloadError>)
    ensures
        r is Err <==> linked_chapters(links@).len() == 0,
        r matches Err(e) ==> e is ElementNotFound,
        r matches Ok(v) ==> {
            &&& v@.len() == linked_chapters(links@).len()
            &&& forall|i: int|
                0 <= i < v@.len() ==> {
                    &&& (#[trigger] v@[i]).index == i
                    &&& v@[i].url@ == linked_chapters(links@)[v@.len() - 1 - i].0
                    &&& v@[i].title@ == linked_chapters(links@)[v@.len() - 1 - i].1
                }
        },
{
    let ghost all = links@;
    let mut found: Vec<(String, String)> = Vec::new();
    for link in it: links
        invariant
            all == it.seq(),
            found@.len() == linked_chapters(all.subrange(0, it.index() as int)).len(),
            forall|q: int|
                0 <= q < found@.len() ==> ((#[trigger] found@[q]).0@, found@[q].1@) == linked_chapters(
                    all.subrange(0, it.index() as int),
                )[q],
    {
        assert(all.subrange(0, it.index() + 1).drop_last() =~= all.subrange(0, it.index() as int));
        assert(all.subrange(0, it.index() + 1).last() == link);
        let (href, title) = link;
        match href {
            Some(url) => {
                found.push((url, title));
            },
            None => {},
        }
    }
    assert(all.subrange(0, all.len() as int) =~= all);
    let n = found.len();
    if n == 0 {
        return Err(DownloadError::ElementNotFound(String::from_str("no chapters found for this manga")));
    }
    let ghost linked = linked_chapters(all);
    let mut numbered: Vec<ChapterInfo> = Vec::new();
    let mut i: usize = 0;
    while i < n
        invariant
            n == linked.len(),
            i <= n,
            found@.len() == n - i,
            forall|q: int| 0 <= q < found@.len() ==> ((#[trigger] found@[q]).0@, found@[q].1@) == linked[q],
            numbered@.len() == i,
            forall|q: int|
                0 <= q < i ==> {
                    &&& (#[trigger] numbered@[q]).index == q
                    &&& numbered@[q].url@ == linked[n - 1 - q].0
                    &&& numbered@[q].title@ == linked[n - 1 - q].1
                },
        decreases n - i,
    {
        let ghost last = found@[found@.len() - 1];
        assert((last.0@, last.1@) == linked[n - 1 - i]);
        match found.pop() {
            Some((url, title)) => {
                numbered.push(ChapterInfo { index: i, title, url });
            },
            None => {},
        }
        i = i + 1;
    }
    Ok(numbered)
}

/// Positions in `all` of the chapters whose index is among `selected`, in
/// listing order. Selecting nothing, or nothing that the listing offers, is
/// an error.
pub fn chapters_to_download(all: &Vec<ChapterInfo>, selected: &[usize]) -> (r: Result<Vec<usize>, DownloadError>)
    ensures
        r is Ok <==> selected@.len() > 0 && exists|p: int| 0 <= p < all@.len() && selected@.contains(#[trigger] all@[p].index),
        r matches Err(e) ==> e is ParsingError,
        r matches Ok(v) ==> {
            &&& forall|a: int, b: int| 0 <= a < b < v@.len() ==> v@[a] < v@[b]
            &&& forall|a: int| 0 <= a < v@.len() ==> (#[trigger] v@[a]) < all@.len() && selected@.contains(all@[v@[a] as int].index)
            &&& forall|p: int| 0 <= p < all@.len() && selected@.contains(#[trigger] all@[p].index) ==> v@.contains(p as usize)
        },
{
    if selected.len() == 0 {
        return Err(DownloadError::ParsingError(String::from_str("no chapters selected for download")));
    }
    let mut v: Vec<usize> = Vec::new();
    let mut p: usize = 0;
    while p < all.len()
        invariant
            p <= all@.len(),
            forall|a: int, b: int| 0 <= a < b < v@.len() ==> v@[a] < v@[b],
            forall|a: int| 0 <= a < v@.len() ==> (#[trigger] v@[a]) < p && selected@.contains(all@[v@[a] as int].index),
            forall|q: int| 0 <= q < p && selected@.contains(#[trigger] all@[q].index) ==> v@.contains(q as usize),
        decreases all@.len() - p,
    {
        let wanted = all[p].index;
        let mut k: usize = 0;
        let mut hit = false;
        while k < selected.len()
            invariant
                k <= selected@.len(),
                hit == exists|j: int| 0 <= j < k && selected@[j] == wanted,
            decreases selected@.len() - k,
        {
            if selected[k] == wanted {
                hit = true;
            }
            k = k + 1;
        }
        if hit {
            let ghost v0 = v@;
            v.push(p);
            assert forall|q: int| 0 <= q < p + 1 && selected@.contains(#[trigger] all@[q].index) implies v@.contains(q as usize) by {
                if q < p {
                    let w = choose|w: int| 0 <= w < v0.len() && v0[w] == q as usize;
                    assert(v@[w] == q as usize);
                } else {
                    assert(v@[v@.len() - 1] == q as usize);
                }
            }
        } else {
            assert(!selected@.contains(wanted));
        }
        p = p + 1;
    }
    if v.len() == 0 {
        assert forall|q: int| 0 <= q < all@.len() implies !selected@.contains(#[trigger] all@[q].index) by {
            if selected@.contains(all@[q].index) {
                assert(v@.contains(q as usize));
            }
        }
        return Err(DownloadError::ParsingError(String::from_str("none of the selected indices match available chapters")));
    }
    assert(selected@.contains(all@[v@[0] as int].index));
    Ok(v)
}

} // verus!
