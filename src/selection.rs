//! Reading a chapter selection typed by the user: comma-separated chapter
//! numbers and ranges such as `1,3-5,7`, counted from zero.

use vstd::prelude::*;

use crate::error::DownloadError;
use crate::manga_to_download::ChapterInfo;
use crate::text::{chars_of, string_of_range};

verus! {

/// A character with the Unicode `White_Space` property, the whitespace
/// that `char::is_whitespace` and `str::trim` recognise.
pub open spec fn is_white_space(c: char) -> bool {
    ||| ('\u{9}' <= c && c <= '\u{d}')
    ||| c == ' '
    ||| c == '\u{85}'
    ||| c == '\u{a0}'
    ||| c == '\u{1680}'
    ||| ('\u{2000}' <= c && c <= '\u{200a}')
    ||| c == '\u{2028}'
    ||| c == '\u{2029}'
    ||| c == '\u{202f}'
    ||| c == '\u{205f}'
    ||| c == '\u{3000}'
}

/// `s` without its leading whitespace.
pub open spec fn trimmed_start(s: Seq<char>) -> Seq<char>
    decreases s.len(),
{
    if s.len() > 0 && is_white_space(s[0]) {
        trimmed_start(s.drop_first())
    } else {
        s
    }
}

/// `s` without its trailing whitespace.
pub open spec fn trimmed_end(s: Seq<char>) -> Seq<char>
    decreases s.len(),
{
    if s.len() > 0 && is_white_space(s.last()) {
        trimmed_end(s.drop_last())
    } else {
        s
    }
}

/// `s` with leading and trailing whitespace removed.
pub open spec fn trimmed_of(s: Seq<char>) -> Seq<char> {
    trimmed_end(trimmed_start(s))
}

/// Relies on `str::trim`: removes leading and trailing whitespace, as
/// defined by the Unicode `White_Space` property.
#[verifier::external_body]
pub(crate) fn trim(s: &str) -> (r: String)
    ensures
        r@ == trimmed_of(s@),
{
    s.trim().to_string()
}

/// The pieces of `s` between occurrences of `sep`, as `str::split` yields them.
pub open spec fn split_on(s: Seq<char>, sep: char) -> Seq<Seq<char>>
    decreases s.len(),
{
    if s.len() == 0 {
        seq![Seq::empty()]
    } else {
        let rest = split_on(s.drop_last(), sep);
        if s.last() == sep {
            rest.push(Seq::empty())
        } else {
            rest.update(rest.len() - 1, rest.last().push(s.last()))
        }
    }
}

/// An ASCII decimal digit.
pub open spec fn is_digit(c: char) -> bool {
    '0' <= c && c <= '9'
}

/// Value of a string of decimal digits.
pub open spec fn digits_value(s: Seq<char>) -> nat
    decreases s.len(),
{
    if s.len() == 0 {
        0
    } else {
        digits_value(s.drop_last()) * 10 + (s.last() as u32 - '0' as u32) as nat
    }
}

/// `s` without one leading `+`.
pub open spec fn unsigned_digits(s: Seq<char>) -> Seq<char> {
    if s.len() > 0 && s[0] == '+' {
        s.subrange(1, s.len() as int)
    } else {
        s
    }
}

/// Every character of `d` is a decimal digit.
pub open spec fn all_digits(d: Seq<char>) -> bool {
    forall|i: int| 0 <= i < d.len() ==> is_digit(#[trigger] d[i])
}

/// What parsing `s` as a `usize` gives: an optional `+`, then one or more
/// decimal digits whose value fits.
pub open spec fn parsed_usize(s: Seq<char>) -> Option<nat> {
    let d = unsigned_digits(s);
    if d.len() > 0 && all_digits(d) && digits_value(d) <= usize::MAX {
        Some(digits_value(d))
    } else {
        None
    }
}

/// The two bounds of a range piece `a-b`, each trimmed and parsed.
pub open spec fn range_bounds(t: Seq<char>) -> (Option<nat>, Option<nat>) {
    let rp = split_on(t, '-');
    (parsed_usize(trimmed_of(rp[0])), parsed_usize(trimmed_of(rp[1])))
}

/// A trimmed piece is a range `a-b` with a bound that is not a number.
pub open spec fn piece_fails(t: Seq<char>) -> bool {
    &&& t.contains('-')
    &&& split_on(t, '-').len() == 2
    &&& (range_bounds(t).0 is None || range_bounds(t).1 is None)
}

/// A trimmed piece selects chapter `i` among `max`: a range `a-b` with
/// `a <= b < max` selects `a` to `b`; a number below `max` selects itself;
/// anything else selects nothing.
pub open spec fn piece_selects(t: Seq<char>, max: nat, i: nat) -> bool {
    if t.contains('-') {
        &&& split_on(t, '-').len() == 2
        &&& range_bounds(t).0 is Some
        &&& range_bounds(t).1 is Some
        &&& range_bounds(t).0->0 <= i <= range_bounds(t).1->0
        &&& range_bounds(t).1->0 < max
    } else {
        parsed_usize(t) == Some(i) && i < max
    }
}

/// The `k`-th comma-separated piece of `input`, trimmed.
pub open spec fn trimmed_piece(input: Seq<char>, k: int) -> Seq<char> {
    trimmed_of(split_on(input, ',')[k])
}

/// Some piece of `input` is a range with a bound that is not a number.
pub open spec fn selection_fails(input: Seq<char>) -> bool {
    exists|k: int| 0 <= k < split_on(input, ',').len() && piece_fails(#[trigger] trimmed_piece(input, k))
}

/// Some piece of `input` selects chapter `i` among `max`.
pub open spec fn selected(input: Seq<char>, max: nat, i: nat) -> bool {
    exists|k: int|
        0 <= k < split_on(input, ',').len() && piece_selects(#[trigger] trimmed_piece(input, k), max, i)
}

/// Splits `v` at every `sep`.
pub fn split_chars(v: &Vec<char>, sep: char) -> (r: Vec<Vec<char>>)
    ensures
        r@.len() == split_on(v@, sep).len(),
        forall|k: int| 0 <= k < r@.len() ==> (#[trigger] r@[k])@ == split_on(v@, sep)[k],
{
    let mut pieces: Vec<Vec<char>> = Vec::new();
    let mut current: Vec<char> = Vec::new();
    let mut i: usize = 0;
    assert(v@.subrange(0, 0) =~= Seq::<char>::empty());
    while i < v.len()
        invariant
            i <= v@.len(),
            pieces@.len() + 1 == split_on(v@.subrange(0, i as int), sep).len(),
            forall|k: int| 0 <= k < pieces@.len() ==> (#[trigger] pieces@[k])@ == split_on(v@.subrange(0, i as int), sep)[k],
            current@ == split_on(v@.subrange(0, i as int), sep).last(),
        decreases v@.len() - i,
    {
        let ghost before = split_on(v@.subrange(0, i as int), sep);
        assert(v@.subrange(0, i + 1).drop_last() =~= v@.subrange(0, i as int));
        let c = v[i];
        if c == sep {
            let done = current;
            pieces.push(done);
            current = Vec::new();
        } else {
            current.push(c);
        }
        i = i + 1;
        assert(current@ =~= split_on(v@.subrange(0, i as int), sep).last());
    }
    assert(v@.subrange(0, v@.len() as int) =~= v@);
    pieces.push(current);
    pieces
}

fn contains_char(v: &Vec<char>, c: char) -> (r: bool)
    ensures
        r == v@.contains(c),
{
    let mut i: usize = 0;
    while i < v.len()
        invariant
            i <= v@.len(),
            forall|j: int| 0 <= j < i ==> v@[j] != c,
        decreases v@.len() - i,
    {
        if v[i] == c {
            return true;
        }
        i = i + 1;
    }
    false
}

/// The digits of a prefix are worth no more than the digits of the whole.
proof fn lemma_digits_value_prefix(d: Seq<char>, k: int)
    requires
        0 <= k <= d.len(),
        forall|i: int| 0 <= i < d.len() ==> is_digit(#[trigger] d[i]),
    ensures
        digits_value(d.subrange(0, k)) <= digits_value(d),
    decreases d.len() - k,
{
    if k < d.len() {
        lemma_digits_value_prefix(d, k + 1);
        assert(d.subrange(0, k + 1).drop_last() =~= d.subrange(0, k));
        assert(d.subrange(0, k + 1).last() == d[k]);
    } else {
        assert(d.subrange(0, k) =~= d);
    }
}

/// Parses `t` as a `usize`.
pub fn parse_usize(t: &Vec<char>) -> (r: Option<usize>)
    ensures
        match r {
            Some(n) => parsed_usize(t@) == Some(n as nat),
            None => parsed_usize(t@) is None,
        },
{
    let n = t.len();
    let start: usize = if n > 0 && t[0] == '+' {
        1
    } else {
        0
    };
    let ghost d = t@.subrange(start as int, n as int);
    assert(d =~= unsigned_digits(t@));
    if start >= n {
        return None;
    }
    let mut value: usize = 0;
    let mut i: usize = start;
    while i < n
        invariant
            start <= i <= n,
            n == t@.len(),
            start == 1 <==> (t@.len() > 0 && t@[0] == '+'),
            start <= 1,
            d == t@.subrange(start as int, n as int),
            forall|j: int| 0 <= j < i - start ==> is_digit(#[trigger] d[j]),
            value as nat == digits_value(d.subrange(0, i - start)),
        decreases n - i,
    {
        let c = t[i];
        assert(d[i - start] == c);
        if !('0' <= c && c <= '9') {
            assert(!is_digit(d[i - start]));
            proof {
                assert(unsigned_digits(t@) =~= d);
                assert(!all_digits(d));
            }
            return None;
        }
        let digit = (c as u32 - '0' as u32) as usize;
        assert(d.subrange(0, i - start + 1).drop_last() =~= d.subrange(0, i - start));
        if value > (usize::MAX - digit) / 10 {
            proof {
                assert(value * 10 + digit > usize::MAX) by (nonlinear_arith)
                    requires
                        value > (usize::MAX - digit) / 10,
                        digit <= 9,
                ;
                assert(d.subrange(0, i - start + 1).last() == c);
                assert(digits_value(d.subrange(0, i - start + 1)) == value * 10 + digit);
                if all_digits(d) {
                    lemma_digits_value_prefix(d, i - start + 1);
                }
                assert(unsigned_digits(t@) =~= d);
            }
            return None;
        }
        value = value * 10 + digit;
        i = i + 1;
        assert(d.subrange(0, i - start).last() == c);
    }
    assert(d.subrange(0, n - start) =~= d);
    Some(value)
}

/// `v` with leading and trailing whitespace removed.
fn trim_chars(v: &Vec<char>) -> (r: Vec<char>)
    ensures
        r@ == trimmed_of(v@),
{
    let s = string_of_range(v, 0, v.len());
    assert(v@.subrange(0, v@.len() as int) =~= v@);
    let t = trim(s.as_str());
    chars_of(t.as_str())
}

/// Parse the user's chapter selection among `max_chapters` chapters:
/// comma-separated numbers and ranges `a-b`, counted from zero; surrounding
/// whitespace is ignored. Numbers and ranges that reach past the last
/// chapter, reversed ranges and pieces that are not numbers are ignored; a
/// range with a bound that is not a number is an error. The result is
/// sorted and holds each chapter once.
pub fn parse_chapter_selection(input: &str, max_chapters: usize) -> (r: Result<Vec<usize>, DownloadError>)
    ensures
        r is Err <==> selection_fails(input@),
        r matches Err(e) ==> e is ParsingError,
        r matches Ok(v) ==> {
            &&& forall|a: int, b: int| 0 <= a < b < v@.len() ==> v@[a] < v@[b]
            &&& forall|a: int|
                0 <= a < v@.len() ==> selected(input@, max_chapters as nat, #[trigger] v@[a] as nat)
            &&& forall|i: nat| #[trigger] selected(input@, max_chapters as nat, i) ==> v@.contains(i as usize)
        },
{
    let chars = chars_of(input);
    let pieces = split_chars(&chars, ',');
    let ghost max = max_chapters as nat;
    let mut chosen: Vec<bool> = vec![false; max_chapters];
    let mut k: usize = 0;
    while k < pieces.len()
        invariant
            chars@ == input@,
            max == max_chapters as nat,
            pieces@.len() == split_on(input@, ',').len(),
            forall|q: int| 0 <= q < pieces@.len() ==> (#[trigger] pieces@[q])@ == split_on(input@, ',')[q],
            chosen@.len() == max_chapters,
            k <= pieces@.len(),
            forall|j: int|
                0 <= j < max_chapters ==> (#[trigger] chosen@[j] <==> exists|q: int|
                    0 <= q < k && piece_selects(#[trigger] trimmed_piece(input@, q), max, j as nat)),
            forall|q: int| 0 <= q < k ==> !piece_fails(#[trigger] trimmed_piece(input@, q)),
        decreases pieces@.len() - k,
    {
        let t = trim_chars(&pieces[k]);
        let ghost tk = trimmed_piece(input@, k as int);
        assert(t@ == tk);
        let ghost chosen0 = chosen@;
        if contains_char(&t, '-') {
            let rp = split_chars(&t, '-');
            if rp.len() == 2 {
                let start = parse_usize(&trim_chars(&rp[0]));
                let end = parse_usize(&trim_chars(&rp[1]));
                match (start, end) {
                    (Some(a), Some(b)) => {
                        if a <= b && b < max_chapters {
                            let mut j: usize = a;
                            while j <= b
                                invariant
                                    a <= j <= b + 1,
                                    b < max_chapters,
                                    chosen@.len() == max_chapters,
                                    chosen0.len() == max_chapters,
                                    forall|x: int| 0 <= x < max_chapters ==> #[trigger] chosen@[x] == (chosen0[x] || (a <= x < j)),
                                decreases b + 1 - j,
                            {
                                chosen.set(j, true);
                                j = j + 1;
                            }
                        }
                        assert forall|x: int| 0 <= x < max_chapters implies (#[trigger] chosen@[x] == (chosen0[x] || piece_selects(tk, max, x as nat))) by {}
                    },
                    _ => {
                        assert(piece_fails(tk));
                        return Err(DownloadError::ParsingError(String::from_str("a range bound is not a number")));
                    },
                }
            } else {
                assert forall|x: int| 0 <= x < max_chapters implies (#[trigger] chosen@[x] == (chosen0[x] || piece_selects(tk, max, x as nat))) by {}
            }
        } else {
            match parse_usize(&t) {
                Some(i) => {
                    if i < max_chapters {
                        chosen.set(i, true);
                    }
                },
                None => {},
            }
            assert forall|x: int| 0 <= x < max_chapters implies (#[trigger] chosen@[x] == (chosen0[x] || piece_selects(tk, max, x as nat))) by {}
        }
        assert forall|j: int|
            0 <= j < max_chapters implies (#[trigger] chosen@[j] <==> exists|q: int|
                0 <= q < k + 1 && piece_selects(#[trigger] trimmed_piece(input@, q), max, j as nat)) by {
            if chosen@[j] {
                if !chosen0[j] {
                    assert(piece_selects(trimmed_piece(input@, k as int), max, j as nat));
                }
            }
            if exists|q: int| 0 <= q < k + 1 && piece_selects(#[trigger] trimmed_piece(input@, q), max, j as nat) {
                let q = choose|q: int| 0 <= q < k + 1 && piece_selects(#[trigger] trimmed_piece(input@, q), max, j as nat);
                if q < k {
                    assert(chosen0[j]);
                }
            }
        }
        k = k + 1;
    }
    assert(!selection_fails(input@));
    let mut r: Vec<usize> = Vec::new();
    let mut i: usize = 0;
    while i < max_chapters
        invariant
            i <= max_chapters,
            chosen@.len() == max_chapters,
            forall|a: int, b: int| 0 <= a < b < r@.len() ==> r@[a] < r@[b],
            forall|a: int| 0 <= a < r@.len() ==> (#[trigger] r@[a]) < i && chosen@[r@[a] as int],
            forall|j: int| 0 <= j < i && #[trigger] chosen@[j] ==> r@.contains(j as usize),
        decreases max_chapters - i,
    {
        if chosen[i] {
            let ghost r0 = r@;
            r.push(i);
            assert(r@[r@.len() - 1] == i);
            assert forall|a: int| 0 <= a < r0.len() implies r@[a] == r0[a] && r0[a] < i by {}
            assert forall|j: int| 0 <= j < i + 1 && #[trigger] chosen@[j] implies r@.contains(j as usize) by {
                if j < i {
                    assert(r0.contains(j as usize));
                    let w = choose|w: int| 0 <= w < r0.len() && r0[w] == j as usize;
                    assert(r@[w] == j as usize);
                } else {
                    assert(r@[r@.len() - 1] == j as usize);
                }
            }
        }
        i = i + 1;
    }
    assert forall|a: int| 0 <= a < r@.len() implies selected(input@, max, #[trigger] r@[a] as nat) by {
        assert(chosen@[r@[a] as int]);
    }
    assert forall|x: nat| #[trigger] selected(input@, max, x) implies r@.contains(x as usize) by {
        let q = choose|q: int| 0 <= q < split_on(input@, ',').len() && piece_selects(#[trigger] trimmed_piece(input@, q), max, x);
        assert(x < max_chapters);
        assert(chosen@[x as int]);
    }
    Ok(r)
}

/// Index of the last chapter of a chunk of the listing, or 0 for an empty chunk.
pub fn chapter_index_of_last(chunk: &[ChapterInfo]) -> (r: usize)
    ensures
        r == if chunk@.len() == 0 {
            0
        } else {
            chunk@.last().index
        },
{
    if chunk.len() == 0 {
        0
    } else {
        chunk[chunk.len() - 1].index
    }
}

} // verus!
