//! What is kept of a chapter's page: its heading and its image addresses.

use vstd::prelude::*;

use crate::error::DownloadError;
use crate::selection::{trim, trimmed_of};
use crate::text::push_char;

verus! {

/// The text pieces of an element joined with single spaces.
pub open spec fn joined_text(pieces: Seq<Seq<char>>) -> Seq<char>
    decreases pieces.len(),
{
    if pieces.len() == 0 {
        Seq::empty()
    } else if pieces.len() == 1 {
        pieces[0]
    } else {
        joined_text(pieces.drop_last()) + seq![' '] + pieces.last()
    }
}

/// Joins the text pieces of an element with single spaces.
pub fn join_text(pieces: &Vec<String>) -> (r: String)
    ensures
        r@ == joined_text(pieces@.map_values(|s: String| s@)),
{
    let ghost views = pieces@.map_values(|s: String| s@);
    let mut r = String::new();
    let mut i: usize = 0;
    while i < pieces.len()
        invariant
            i <= pieces@.len(),
            views == pieces@.map_values(|s: String| s@),
            r@ == joined_text(views.subrange(0, i as int)),
        decreases pieces@.len() - i,
    {
        assert(views.subrange(0, i + 1).drop_last() =~= views.subrange(0, i as int));
        assert(views.subrange(0, i + 1).last() == pieces@[i as int]@);
        if i > 0 {
            push_char(&mut r, ' ');
        } else {
            assert(views.subrange(0, 1)[0] == pieces@[0]@);
        }
        r.append(pieces[i].as_str());
        i = i + 1;
    }
    assert(views.subrange(0, views.len() as int) =~= views);
    r
}

/// Address of an image element: its `src` attribute if it has one, else
/// its `data-cfsrc`, trimmed; empty if it has neither.
pub open spec fn image_source(src: Option<String>, cfsrc: Option<String>) -> Seq<char> {
    match src {
        Some(s) => trimmed_of(s@),
        None => match cfsrc {
            Some(c) => trimmed_of(c@),
            None => Seq::empty(),
        },
    }
}

/// The non-empty addresses of a page's image elements, in page order.
pub open spec fn image_sources(elements: Seq<(Option<String>, Option<String>)>) -> Seq<Seq<char>>
    decreases elements.len(),
{
    if elements.len() == 0 {
        Seq::empty()
    } else {
        let rest = image_sources(elements.drop_last());
        let a = image_source(elements.last().0, elements.last().1);
        if a.len() > 0 {
            rest.push(a)
        } else {
            rest
        }
    }
}

/// The addresses of a chapter's images, from the `src` and `data-cfsrc`
/// attributes of its image elements in page order. A page without any is
/// an error.
pub fn select_image_sources(elements: &Vec<(Option<String>, Option<String>)>) -> (r: Result<Vec<String>, DownloadError>)
    ensures
        r is Err <==> image_sources(elements@).len() == 0,
        r matches Err(e) ==> e is ElementNotFound,
        r matches Ok(v) ==> v@.map_values(|s: String| s@) == image_sources(elements@),
{
    let mut found: Vec<String> = Vec::new();
    let mut i: usize = 0;
    while i < elements.len()
        invariant
            i <= elements@.len(),
            found@.map_values(|s: String| s@) == image_sources(elements@.subrange(0, i as int)),
        decreases elements@.len() - i,
    {
        assert(elements@.subrange(0, i + 1).drop_last() =~= elements@.subrange(0, i as int));
        assert(elements@.subrange(0, i + 1).last() == elements@[i as int]);
        let address = match &elements[i].0 {
            Some(s) => trim(s.as_str()),
            None => match &elements[i].1 {
                Some(c) => trim(c.as_str()),
                None => String::new(),
            },
        };
        assert(address@ == image_source(elements@[i as int].0, elements@[i as int].1));
        if address.as_str().unicode_len() > 0 {
            let ghost before = found@;
            found.push(address);
            assert(found@.map_values(|s: String| s@) =~= before.map_values(|s: String| s@).push(address@));
        }
        i = i + 1;
    }
    assert(elements@.subrange(0, elements@.len() as int) =~= elements@);
    if found.len() == 0 {
        return Err(DownloadError::ElementNotFound(String::from_str("no images found in chapter")));
    }
    Ok(found)
}

} // verus!
