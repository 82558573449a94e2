//! Bounded-concurrency fetch scheduling and the naming of downloaded files.
//!
//! [`FetchScheduler`] holds the decisions of a batch of fetches: which item
//! to start next, and what became of each one. The caller performs the
//! transfers, hands each outcome back, and starts what the scheduler lets in.
//! At most `limit` items are ever outstanding, each item is started once, and
//! one failure never stops the others.

use vstd::prelude::*;

use crate::cache::{join_path, join_path_exec};
use crate::error::DownloadError;
use crate::text::{chars_of, push_char};

verus! {

/// Mathematical model of a [`FetchScheduler`].
pub struct FetchModel {
    /// Number of items in the batch.
    pub total: nat,
    /// Largest number of outstanding fetches.
    pub limit: nat,
    /// Items `0..next` have been started.
    pub next: nat,
    /// Items started and not yet finished.
    pub in_flight: Seq<usize>,
    /// Finished items with the local path each was fetched to, in order of completion.
    pub succeeded: Seq<(usize, Seq<char>)>,
    /// Items whose fetch failed, in order of completion.
    pub failed: Seq<usize>,
}

impl FetchModel {
    /// Item `i` has finished successfully.
    pub open spec fn has_succeeded(self, i: int) -> bool {
        exists|p: int| 0 <= p < self.succeeded.len() && #[trigger] self.succeeded[p].0 == i
    }

    /// Item `i` has failed.
    pub open spec fn has_failed(self, i: int) -> bool {
        exists|p: int| 0 <= p < self.failed.len() && #[trigger] self.failed[p] == i
    }

    /// The scheduler's invariant: never more than `limit` fetches
    /// outstanding; every started item is outstanding, succeeded or failed,
    /// exactly one of these, and recorded once.
    pub open spec fn wf(self) -> bool {
        &&& self.limit >= 1
        &&& self.next <= self.total
        &&& self.in_flight.len() <= self.limit
        &&& self.in_flight.len() + self.succeeded.len() + self.failed.len() == self.next
        &&& forall|p: int| 0 <= p < self.in_flight.len() ==> #[trigger] self.in_flight[p] < self.next
        &&& forall|p: int| 0 <= p < self.succeeded.len() ==> #[trigger] self.succeeded[p].0 < self.next
        &&& forall|p: int| 0 <= p < self.failed.len() ==> #[trigger] self.failed[p] < self.next
        &&& self.in_flight.no_duplicates()
        &&& forall|p: int, q: int|
            0 <= p < q < self.succeeded.len() ==> #[trigger] self.succeeded[p].0 != #[trigger] self.succeeded[q].0
        &&& self.failed.no_duplicates()
        &&& forall|p: int| 0 <= p < self.in_flight.len() ==> !self.has_succeeded(#[trigger] self.in_flight[p] as int)
        &&& forall|p: int| 0 <= p < self.in_flight.len() ==> !self.has_failed(#[trigger] self.in_flight[p] as int)
        &&& forall|p: int| 0 <= p < self.failed.len() ==> !self.has_succeeded(#[trigger] self.failed[p] as int)
    }

    /// Every item has been started and none is outstanding.
    pub open spec fn finished(self) -> bool {
        self.next == self.total && self.in_flight.len() == 0
    }
}

/// The outstanding fetches never exceed the limit, in any state the
/// scheduler can reach.
pub proof fn lemma_outstanding_within_limit(s: FetchModel)
    requires
        s.wf(),
    ensures
        s.in_flight.len() <= s.limit,
{
}

/// When a batch has finished, every item has been accounted for exactly
/// once: each item of the batch has either succeeded or failed, never both,
/// and the successes and failures together number the items.
pub proof fn lemma_finished_batch_accounts_for_all(s: FetchModel)
    requires
        s.wf(),
        s.finished(),
    ensures
        s.succeeded.len() + s.failed.len() == s.total,
        forall|i: int| 0 <= i < s.total ==> #[trigger] s.has_succeeded(i) || s.has_failed(i),
        forall|i: int| 0 <= i < s.total ==> !(#[trigger] s.has_succeeded(i) && s.has_failed(i)),
{
    let ok = s.succeeded.map_values(|e: (usize, Seq<char>)| e.0 as int);
    let bad = s.failed.map_values(|x: usize| x as int);
    let all = ok + bad;
    assert(all.no_duplicates()) by {
        assert forall|a: int, b: int| 0 <= a < all.len() && 0 <= b < all.len() && a != b implies all[a] != all[b] by {
            if a < ok.len() && b < ok.len() {
                if a < b {
                    assert(s.succeeded[a].0 != s.succeeded[b].0);
                } else {
                    assert(s.succeeded[b].0 != s.succeeded[a].0);
                }
            } else if a >= ok.len() && b >= ok.len() {
                assert(s.failed[a - ok.len()] != s.failed[b - ok.len()]);
            } else if a < ok.len() {
                assert(!s.has_succeeded(s.failed[b - ok.len()] as int));
                assert(s.succeeded[a].0 == all[a]);
            } else {
                assert(!s.has_succeeded(s.failed[a - ok.len()] as int));
                assert(s.succeeded[b].0 == all[b]);
            }
        }
    }
    all.unique_seq_to_set();
    let range = vstd::set_lib::set_int_range(0, s.total as int);
    vstd::set_lib::lemma_int_range(0, s.total as int);
    assert(all.to_set().subset_of(range)) by {
        assert forall|x: int| all.to_set().contains(x) implies range.contains(x) by {
            let a = choose|a: int| 0 <= a < all.len() && all[a] == x;
            if a < ok.len() {
                assert(s.succeeded[a].0 < s.next);
            } else {
                assert(s.failed[a - ok.len()] < s.next);
            }
        }
    }
    all.lemma_cardinality_of_set();
    vstd::set_lib::lemma_subset_equality(all.to_set(), range);
    assert forall|i: int| 0 <= i < s.total implies #[trigger] s.has_succeeded(i) || s.has_failed(i) by {
        assert(range.contains(i));
        assert(all.to_set().contains(i));
        let a = choose|a: int| 0 <= a < all.len() && all[a] == i;
        if a < ok.len() {
            assert(s.succeeded[a].0 == i);
        } else {
            assert(s.failed[a - ok.len()] == i);
        }
    }
    assert forall|i: int| 0 <= i < s.total implies !(#[trigger] s.has_succeeded(i) && s.has_failed(i)) by {
        if s.has_failed(i) {
            let p = choose|p: int| 0 <= p < s.failed.len() && #[trigger] s.failed[p] == i;
            assert(!s.has_succeeded(s.failed[p] as int));
        }
    }
}

/// The decimal digit for `d < 10`.
pub open spec fn digit_char(d: nat) -> char {
    if d == 0 { '0' } else if d == 1 { '1' } else if d == 2 { '2' } else if d == 3 { '3' }
    else if d == 4 { '4' } else if d == 5 { '5' } else if d == 6 { '6' } else if d == 7 { '7' }
    else if d == 8 { '8' } else { '9' }
}

/// Decimal digits of `n`, most significant first, without leading zeros.
pub open spec fn decimal(n: nat) -> Seq<char>
    decreases n,
{
    if n < 10 {
        seq![digit_char(n)]
    } else {
        decimal(n / 10).push(digit_char(n % 10))
    }
}

/// Decimal digits of `n`, padded with leading zeros to at least three.
pub open spec fn padded3(n: nat) -> Seq<char> {
    if decimal(n).len() >= 3 {
        decimal(n)
    } else {
        Seq::new((3 - decimal(n).len()) as nat, |i: int| '0') + decimal(n)
    }
}

/// File name of the `index`-th item of a batch: `image_007.jpg`.
pub open spec fn image_file_name_of(index: nat) -> Seq<char> {
    seq!['i', 'm', 'a', 'g', 'e', '_'] + padded3(index) + seq!['.', 'j', 'p', 'g']
}

fn digit_exec(d: usize) -> (c: char)
    requires
        d < 10,
    ensures
        c == digit_char(d as nat),
{
    if d == 0 { '0' } else if d == 1 { '1' } else if d == 2 { '2' } else if d == 3 { '3' }
    else if d == 4 { '4' } else if d == 5 { '5' } else if d == 6 { '6' } else if d == 7 { '7' }
    else if d == 8 { '8' } else { '9' }
}

fn push_decimal(s: &mut String, n: usize)
    ensures
        final(s)@ == old(s)@ + decimal(n as nat),
    decreases n,
{
    if n < 10 {
        push_char(s, digit_exec(n));
    } else {
        push_decimal(s, n / 10);
        push_char(s, digit_exec(n % 10));
        assert(old(s)@ + decimal(n as nat) =~= old(s)@ + decimal((n / 10) as nat) + seq![digit_char((n % 10) as nat)]);
    }
}

/// Decimal digits of a number have no more characters than it has value, plus one.
proof fn lemma_decimal_len(n: nat)
    ensures
        decimal(n).len() >= 1,
        n < 10 ==> decimal(n).len() == 1,
        10 <= n < 100 ==> decimal(n).len() == 2,
        n >= 100 ==> decimal(n).len() >= 3,
    decreases n,
{
    if n >= 10 {
        lemma_decimal_len(n / 10);
    }
}

/// File name of the `index`-th item of a batch.
pub fn image_file_name(index: usize) -> (r: String)
    ensures
        r@ == image_file_name_of(index as nat),
{
    proof {
        lemma_decimal_len(index as nat);
    }
    let mut s = String::from_str("image_");
    if index < 10 {
        push_char(&mut s, '0');
        push_char(&mut s, '0');
    } else if index < 100 {
        push_char(&mut s, '0');
    }
    push_decimal(&mut s, index);
    s.append(".jpg");
    proof {
        reveal_strlit("image_");
        reveal_strlit(".jpg");
    }
    assert(s@ =~= image_file_name_of(index as nat));
    s
}

/// Where the `index`-th item of a batch is fetched to, under `output_dir`.
pub fn image_target_path(output_dir: &String, index: usize) -> (r: String)
    ensures
        r@ == join_path(output_dir@, image_file_name_of(index as nat)),
{
    let name = image_file_name(index);
    join_path_exec(output_dir, &name)
}

/// Lowercase mapping of a string.
pub uninterp spec fn lowercase_of(s: Seq<char>) -> Seq<char>;

/// Relies on `str::to_lowercase`: the Unicode lowercase mapping, which
/// depends on the characters alone.
#[verifier::external_body]
fn lowercase(s: &str) -> (r: String)
    ensures
        r@ == lowercase_of(s@),
{
    s.to_lowercase()
}

/// Relies on `std::path::MAIN_SEPARATOR`: `\` on Windows, `/` on the other
/// platforms.
#[verifier::external_body]
fn main_separator() -> (c: char)
    ensures
        c == '/' || c == '\\',
{
    std::path::MAIN_SEPARATOR
}

/// Characters a file name cannot hold: on Windows `\ / : * ? " < > |`,
/// elsewhere `/`.
pub open spec fn forbidden_in_names(c: char, windows: bool) -> bool {
    if windows {
        c == '\\' || c == '/' || c == ':' || c == '*' || c == '?' || c == '"' || c == '<' || c == '>'
            || c == '|'
    } else {
        c == '/'
    }
}

/// A space becomes `-`, a forbidden character `_`.
pub open spec fn safe_char(c: char, windows: bool) -> char {
    if c == ' ' {
        '-'
    } else if forbidden_in_names(c, windows) {
        '_'
    } else {
        c
    }
}

/// Code of a character with ASCII upper case folded to lower case.
pub open spec fn ascii_folded(c: char) -> u32 {
    if 'A' <= c && c <= 'Z' {
        (c as u32 + 32) as u32
    } else {
        c as u32
    }
}

/// `a` equals `b` up to ASCII case.
pub open spec fn eq_ignore_ascii_case(a: Seq<char>, b: Seq<char>) -> bool {
    a.len() == b.len() && forall|i: int| 0 <= i < a.len() ==> ascii_folded(#[trigger] a[i]) == ascii_folded(b[i])
}

/// A device name that Windows reserves: CON, PRN, AUX, NUL, COM1 to COM9,
/// LPT1 to LPT9, in any ASCII case.
pub open spec fn is_reserved_name(s: Seq<char>) -> bool {
    ||| eq_ignore_ascii_case(s, seq!['C', 'O', 'N'])
    ||| eq_ignore_ascii_case(s, seq!['P', 'R', 'N'])
    ||| eq_ignore_ascii_case(s, seq!['A', 'U', 'X'])
    ||| eq_ignore_ascii_case(s, seq!['N', 'U', 'L'])
    ||| (s.len() == 4 && '1' <= s[3] && s[3] <= '9' && (eq_ignore_ascii_case(
        s.subrange(0, 3),
        seq!['C', 'O', 'M'],
    ) || eq_ignore_ascii_case(s.subrange(0, 3), seq!['L', 'P', 'T'])))
}

/// Bytes of the UTF-8 encoding of `c`.
pub open spec fn utf8_width(c: char) -> nat {
    if (c as u32) < 0x80 {
        1
    } else if (c as u32) < 0x800 {
        2
    } else if (c as u32) < 0x10000 {
        3
    } else {
        4
    }
}

/// How many leading characters of `s` fit in `budget` bytes of UTF-8.
pub open spec fn fitting_chars(s: Seq<char>, budget: int) -> nat
    decreases s.len(),
{
    if s.len() == 0 || utf8_width(s[0]) > budget {
        0
    } else {
        1 + fitting_chars(s.subrange(1, s.len() as int), budget - utf8_width(s[0]))
    }
}

/// Largest file name length, in bytes, that common file systems accept.
pub const MAX_NAME_BYTES: usize = 255;

/// A file-system-safe name made from an already lowercased string: spaces
/// become `-`, forbidden characters `_`; on Windows a reserved device name
/// gets a leading `_`; a leading `.` gets a leading `_`; the result is cut
/// to the longest prefix that fits in 255 bytes.
pub open spec fn sanitized(lowered: Seq<char>, windows: bool) -> Seq<char> {
    let base = lowered.map_values(|c: char| safe_char(c, windows));
    let named = if windows && is_reserved_name(base) {
        seq!['_'] + base
    } else {
        base
    };
    let shown = if named.len() > 0 && named[0] == '.' {
        seq!['_'] + named
    } else {
        named
    };
    shown.subrange(0, fitting_chars(shown, MAX_NAME_BYTES as int) as int)
}

fn safe_char_exec(c: char, windows: bool) -> (r: char)
    ensures
        r == safe_char(c, windows),
{
    if c == ' ' {
        '-'
    } else if windows && (c == '\\' || c == '/' || c == ':' || c == '*' || c == '?' || c == '"'
        || c == '<' || c == '>' || c == '|') {
        '_'
    } else if !windows && c == '/' {
        '_'
    } else {
        c
    }
}

fn ascii_folded_exec(c: char) -> (r: u32)
    ensures
        r == ascii_folded(c),
{
    if 'A' <= c && c <= 'Z' {
        c as u32 + 32
    } else {
        c as u32
    }
}

/// Whether the first three characters of `v` equal `a b c` up to ASCII case.
fn eq3_ignore_case(v: &Vec<char>, a: char, b: char, c: char) -> (r: bool)
    requires
        3 <= v@.len(),
    ensures
        r == eq_ignore_ascii_case(v@.subrange(0, 3), seq![a, b, c]),
{
    let r = ascii_folded_exec(v[0]) == ascii_folded_exec(a) && ascii_folded_exec(v[1])
        == ascii_folded_exec(b) && ascii_folded_exec(v[2]) == ascii_folded_exec(c);
    let ghost w = v@.subrange(0, 3);
    let ghost t = seq![a, b, c];
    assert(w[0] == v@[0] && w[1] == v@[1] && w[2] == v@[2]);
    assert(t[0] == a && t[1] == b && t[2] == c);
    if r {
        assert forall|i: int| 0 <= i < w.len() implies ascii_folded(#[trigger] w[i]) == ascii_folded(t[i]) by {
            if i == 0 {
            } else if i == 1 {
            } else {
            }
        }
    } else {
        assert(!(ascii_folded(w[0]) == ascii_folded(t[0]) && ascii_folded(w[1]) == ascii_folded(t[1]) && ascii_folded(w[2]) == ascii_folded(t[2])));
    }
    r
}

fn is_reserved_exec(v: &Vec<char>) -> (r: bool)
    ensures
        r == is_reserved_name(v@),
{
    if v.len() == 3 {
        assert(v@.subrange(0, 3) =~= v@);
        eq3_ignore_case(v, 'C', 'O', 'N') || eq3_ignore_case(v, 'P', 'R', 'N')
            || eq3_ignore_case(v, 'A', 'U', 'X') || eq3_ignore_case(v, 'N', 'U', 'L')
    } else if v.len() == 4 {
        '1' <= v[3] && v[3] <= '9' && (eq3_ignore_case(v, 'C', 'O', 'M') || eq3_ignore_case(
            v,
            'L',
            'P',
            'T',
        ))
    } else {
        false
    }
}

fn utf8_width_exec(c: char) -> (r: usize)
    ensures
        r == utf8_width(c),
{
    let code = c as u32;
    if code < 0x80 {
        1
    } else if code < 0x800 {
        2
    } else if code < 0x10000 {
        3
    } else {
        4
    }
}

fn with_leading_underscore(v: Vec<char>) -> (r: Vec<char>)
    ensures
        r@ == seq!['_'] + v@,
{
    let mut r: Vec<char> = Vec::new();
    r.push('_');
    let mut i: usize = 0;
    while i < v.len()
        invariant
            i <= v@.len(),
            r@ == seq!['_'] + v@.subrange(0, i as int),
        decreases v@.len() - i,
    {
        r.push(v[i]);
        i = i + 1;
        assert(r@ =~= seq!['_'] + v@.subrange(0, i as int));
    }
    assert(v@.subrange(0, v@.len() as int) =~= v@);
    r
}

/// A file-system-safe name made from an already lowercased string, for
/// Windows or for the other platforms.
pub fn sanitize_lowered(lowered: &str, windows: bool) -> (r: String)
    ensures
        r@ == sanitized(lowered@, windows),
{
    let v = chars_of(lowered);
    let mut base: Vec<char> = Vec::new();
    let mut i: usize = 0;
    while i < v.len()
        invariant
            i <= v@.len(),
            base@ == v@.subrange(0, i as int).map_values(|c: char| safe_char(c, windows)),
        decreases v@.len() - i,
    {
        base.push(safe_char_exec(v[i], windows));
        i = i + 1;
        assert(base@ =~= v@.subrange(0, i as int).map_values(|c: char| safe_char(c, windows)));
    }
    assert(v@.subrange(0, v@.len() as int) =~= v@);
    let named = if windows && is_reserved_exec(&base) {
        with_leading_underscore(base)
    } else {
        base
    };
    let shown = if named.len() > 0 && named[0] == '.' {
        with_leading_underscore(named)
    } else {
        named
    };
    let n = shown.len();
    let mut k: usize = 0;
    let mut budget: usize = MAX_NAME_BYTES;
    assert(shown@.subrange(0, n as int) =~= shown@);
    while k < n && utf8_width_exec(shown[k]) <= budget
        invariant
            n == shown@.len(),
            k <= n,
            fitting_chars(shown@, MAX_NAME_BYTES as int) == k + fitting_chars(
                shown@.subrange(k as int, n as int),
                budget as int,
            ),
        decreases n - k,
    {
        let ghost rest = shown@.subrange(k as int, n as int);
        assert(rest.subrange(1, rest.len() as int) =~= shown@.subrange(k + 1, n as int));
        budget = budget - utf8_width_exec(shown[k]);
        k = k + 1;
    }
    let mut r = String::new();
    let mut j: usize = 0;
    while j < k
        invariant
            k <= shown@.len(),
            j <= k,
            r@ == shown@.subrange(0, j as int),
        decreases k - j,
    {
        push_char(&mut r, shown[j]);
        j = j + 1;
        assert(r@ =~= shown@.subrange(0, j as int));
    }
    r
}

/// A file-system-safe name for `input` on the given platform.
pub fn sanitize_filename_for(input: &str, windows: bool) -> (r: String)
    ensures
        r@ == sanitized(lowercase_of(input@), windows),
{
    let lowered = lowercase(input);
    sanitize_lowered(lowered.as_str(), windows)
}

/// Sanitizes a string to be safe as a file name on the platform this runs on.
pub fn sanitize_filename(input: &str) -> (r: String)
    ensures
        r@ == sanitized(lowercase_of(input@), false) || r@ == sanitized(lowercase_of(input@), true),
{
    let windows = main_separator() == '\\';
    sanitize_filename_for(input, windows)
}

/// Builds the path of a chapter's directory under `output_dir`.
pub fn build_chapter_path(output_dir: &str, chapter_title: &str) -> (r: String)
    ensures
        r@ == join_path(output_dir@, sanitized(lowercase_of(chapter_title@), false)) || r@ == join_path(
            output_dir@,
            sanitized(lowercase_of(chapter_title@), true),
        ),
{
    let slug = sanitize_filename(chapter_title);
    join_path_exec(&String::from_str(output_dir), &slug)
}

/// `s` with each space turned into `-`.
pub open spec fn dashed(s: Seq<char>) -> Seq<char> {
    s.map_values(|c: char| if c == ' ' { '-' } else { c })
}

/// Stem of the document file written for a chapter: its title with spaces
/// turned into `-`, then lowercased.
pub fn chapter_document_stem(title: &str) -> (r: String)
    ensures
        r@ == lowercase_of(dashed(title@)),
{
    let v = chars_of(title);
    let mut s = String::new();
    let mut i: usize = 0;
    while i < v.len()
        invariant
            i <= v@.len(),
            s@ == dashed(v@.subrange(0, i as int)),
        decreases v@.len() - i,
    {
        let c = v[i];
        push_char(&mut s, if c == ' ' { '-' } else { c });
        i = i + 1;
        assert(s@ =~= dashed(v@.subrange(0, i as int)));
    }
    assert(v@.subrange(0, v@.len() as int) =~= v@);
    lowercase(s.as_str())
}

/// Decisions of a batch of fetches run with at most `limit` outstanding.
pub struct FetchScheduler {
    total: usize,
    limit: usize,
    next: usize,
    in_flight: Vec<usize>,
    succeeded: Vec<(usize, String)>,
    failed: Vec<(usize, DownloadError)>,
}

/// The character views of (index, path) pairs.
pub open spec fn success_views(v: Seq<(usize, String)>) -> Seq<(usize, Seq<char>)> {
    v.map_values(|e: (usize, String)| (e.0, e.1@))
}

/// The indices of (index, error) pairs.
pub open spec fn failure_indices(v: Seq<(usize, DownloadError)>) -> Seq<usize> {
    v.map_values(|e: (usize, DownloadError)| e.0)
}

impl View for FetchScheduler {
    type V = FetchModel;

    closed spec fn view(&self) -> FetchModel {
        FetchModel {
            total: self.total as nat,
            limit: self.limit as nat,
            next: self.next as nat,
            in_flight: self.in_flight@,
            succeeded: success_views(self.succeeded@),
            failed: failure_indices(self.failed@),
        }
    }
}

impl FetchScheduler {
    /// A batch of `total` items, with at most `limit` fetched at once.
    pub fn new(total: usize, limit: usize) -> (r: Self)
        requires
            limit >= 1,
        ensures
            r@ == (FetchModel {
                total: total as nat,
                limit: limit as nat,
                next: 0,
                in_flight: Seq::empty(),
                succeeded: Seq::empty(),
                failed: Seq::empty(),
            }),
            r@.wf(),
    {
        let r = FetchScheduler {
            total,
            limit,
            next: 0,
            in_flight: Vec::new(),
            succeeded: Vec::new(),
            failed: Vec::new(),
        };
        assert(r@.succeeded =~= Seq::<(usize, Seq<char>)>::empty());
        assert(r@.failed =~= Seq::<usize>::empty());
        r
    }

    /// Start the next item if a slot is free and an item is left: returns
    /// its index, which the caller now fetches.
    pub fn start_next(&mut self) -> (r: Option<usize>)
        requires
            old(self)@.wf(),
        ensures
            final(self)@.wf(),
            old(self)@.in_flight.len() < old(self)@.limit && old(self)@.next < old(self)@.total ==> {
                &&& r == Some(old(self)@.next as usize)
                &&& final(self)@ == (FetchModel {
                    next: old(self)@.next + 1,
                    in_flight: old(self)@.in_flight.push(old(self)@.next as usize),
                    ..old(self)@
                })
            },
            !(old(self)@.in_flight.len() < old(self)@.limit && old(self)@.next < old(self)@.total) ==> {
                &&& r is None
                &&& final(self)@ == old(self)@
            },
    {
        if self.in_flight.len() < self.limit && self.next < self.total {
            let i = self.next;
            let ghost m0 = self@;
            self.in_flight.push(i);
            self.next = i + 1;
            assert(self@.in_flight.no_duplicates()) by {
                assert forall|p: int, q: int| 0 <= p < self@.in_flight.len() && 0 <= q < self@.in_flight.len() && p != q implies self@.in_flight[p] != self@.in_flight[q] by {
                    if p < m0.in_flight.len() && q < m0.in_flight.len() {
                        assert(m0.in_flight[p] != m0.in_flight[q]);
                    } else if p < m0.in_flight.len() {
                        assert(m0.in_flight[p] < m0.next);
                    } else {
                        assert(m0.in_flight[q] < m0.next);
                    }
                }
            }
            assert forall|p: int| 0 <= p < self@.in_flight.len() implies !self@.has_succeeded(#[trigger] self@.in_flight[p] as int) by {
                if p == m0.in_flight.len() {
                    if self@.has_succeeded(i as int) {
                        let q = choose|q: int| 0 <= q < m0.succeeded.len() && #[trigger] m0.succeeded[q].0 == i as int;
                        assert(m0.succeeded[q].0 < m0.next);
                    }
                } else {
                    assert(self@.in_flight[p] == m0.in_flight[p]);
                }
            }
            assert forall|p: int| 0 <= p < self@.in_flight.len() implies !self@.has_failed(#[trigger] self@.in_flight[p] as int) by {
                if p == m0.in_flight.len() {
                    if self@.has_failed(i as int) {
                        let q = choose|q: int| 0 <= q < m0.failed.len() && #[trigger] m0.failed[q] == i as int;
                        assert(m0.failed[q] < m0.next);
                    }
                } else {
                    assert(self@.in_flight[p] == m0.in_flight[p]);
                }
            }
            Some(i)
        } else {
            None
        }
    }

    /// Record the outcome of the outstanding item `index`: the local path it
    /// was fetched to, or the error that stopped it.
    pub fn record(&mut self, index: usize, outcome: Result<String, DownloadError>)
        requires
            old(self)@.wf(),
            old(self)@.in_flight.contains(index),
        ensures
            final(self)@.wf(),
            exists|p: int|
                0 <= p < old(self)@.in_flight.len() && old(self)@.in_flight[p] == index
                    && final(self)@.in_flight == old(self)@.in_flight.remove(p),
            final(self)@.total == old(self)@.total,
            final(self)@.limit == old(self)@.limit,
            final(self)@.next == old(self)@.next,
            match outcome {
                Ok(path) => final(self)@.succeeded == old(self)@.succeeded.push((index, path@))
                    && final(self)@.failed == old(self)@.failed,
                Err(_) => final(self)@.failed == old(self)@.failed.push(index)
                    && final(self)@.succeeded == old(self)@.succeeded,
            },
    {
        let ghost m0 = self@;
        let mut p: usize = 0;
        while p < self.in_flight.len() && self.in_flight[p] != index
            invariant
                self@ == m0,
                p <= self.in_flight@.len(),
                m0.in_flight.contains(index),
                forall|q: int| 0 <= q < p ==> self.in_flight@[q] != index,
            decreases self.in_flight@.len() - p,
        {
            p = p + 1;
        }
        assert(p < self.in_flight@.len()) by {
            if p == self.in_flight@.len() {
                let q = choose|q: int| 0 <= q < m0.in_flight.len() && m0.in_flight[q] == index;
                assert(self.in_flight@[q] != index);
            }
        }
        self.in_flight.remove(p);
        let ghost removed = m0.in_flight.remove(p as int);
        assert(self@.in_flight == removed);
        assert forall|a: int| 0 <= a < removed.len() implies #[trigger] removed[a] != index && exists|b: int| 0 <= b < m0.in_flight.len() && removed[a] == m0.in_flight[b] by {
            if a < p {
                assert(removed[a] == m0.in_flight[a]);
            } else {
                assert(removed[a] == m0.in_flight[a + 1]);
            }
        }
        let ghost oldout = outcome;
        match outcome {
            Ok(path) => {
                self.succeeded.push((index, path));
                assert(self@.succeeded =~= m0.succeeded.push((index, oldout->Ok_0@)));
                assert forall|a: int| 0 <= a < self@.in_flight.len() implies !self@.has_succeeded(#[trigger] self@.in_flight[a] as int) by {
                    let b = choose|b: int| 0 <= b < m0.in_flight.len() && removed[a] == m0.in_flight[b];
                    if self@.has_succeeded(removed[a] as int) {
                        let q = choose|q: int| 0 <= q < self@.succeeded.len() && #[trigger] self@.succeeded[q].0 == removed[a] as int;
                        if q < m0.succeeded.len() {
                            assert(m0.succeeded[q].0 == removed[a]);
                            assert(m0.has_succeeded(m0.in_flight[b] as int));
                        }
                    }
                }
                assert forall|a: int| 0 <= a < self@.failed.len() implies !self@.has_succeeded(#[trigger] self@.failed[a] as int) by {
                    if self@.has_succeeded(self@.failed[a] as int) {
                        let q = choose|q: int| 0 <= q < self@.succeeded.len() && #[trigger] self@.succeeded[q].0 == self@.failed[a] as int;
                        if q < m0.succeeded.len() {
                            assert(m0.succeeded[q].0 == m0.failed[a]);
                            assert(m0.has_succeeded(m0.failed[a] as int));
                        } else {
                            assert(m0.has_failed(index as int));
                        }
                    }
                }
                assert forall|a: int| 0 <= a < self@.in_flight.len() implies !self@.has_failed(#[trigger] self@.in_flight[a] as int) by {
                    let b = choose|b: int| 0 <= b < m0.in_flight.len() && removed[a] == m0.in_flight[b];
                    assert(!m0.has_failed(m0.in_flight[b] as int));
                }
                assert forall|a: int, b: int| 0 <= a < b < self@.succeeded.len() implies #[trigger] self@.succeeded[a].0 != #[trigger] self@.succeeded[b].0 by {
                    if b == m0.succeeded.len() {
                        assert(m0.succeeded[a].0 == self@.succeeded[a].0);
                        if m0.succeeded[a].0 == index {
                            assert(m0.has_succeeded(index as int));
                        }
                    }
                }
            },
            Err(e) => {
                self.failed.push((index, e));
                assert(self@.failed =~= m0.failed.push(index));
                assert forall|a: int| 0 <= a < self@.in_flight.len() implies !self@.has_failed(#[trigger] self@.in_flight[a] as int) by {
                    let b = choose|b: int| 0 <= b < m0.in_flight.len() && removed[a] == m0.in_flight[b];
                    if self@.has_failed(removed[a] as int) {
                        let q = choose|q: int| 0 <= q < self@.failed.len() && #[trigger] self@.failed[q] == removed[a] as int;
                        if q < m0.failed.len() {
                            assert(m0.has_failed(m0.in_flight[b] as int));
                        }
                    }
                }
                assert forall|a: int| 0 <= a < self@.in_flight.len() implies !self@.has_succeeded(#[trigger] self@.in_flight[a] as int) by {
                    let b = choose|b: int| 0 <= b < m0.in_flight.len() && removed[a] == m0.in_flight[b];
                    assert(!m0.has_succeeded(m0.in_flight[b] as int));
                }
                assert forall|a: int| 0 <= a < self@.failed.len() implies !self@.has_succeeded(#[trigger] self@.failed[a] as int) by {
                    if a < m0.failed.len() {
                        assert(self@.failed[a] == m0.failed[a]);
                    } else {
                        assert(!m0.has_succeeded(index as int));
                    }
                }
                assert(self@.failed.no_duplicates()) by {
                    assert forall|a: int, b: int| 0 <= a < self@.failed.len() && 0 <= b < self@.failed.len() && a != b implies self@.failed[a] != self@.failed[b] by {
                        if a < m0.failed.len() && b < m0.failed.len() {
                            assert(m0.failed[a] != m0.failed[b]);
                        } else if a < m0.failed.len() {
                            if m0.failed[a] == index {
                                assert(m0.has_failed(index as int));
                            }
                        } else {
                            if m0.failed[b] == index {
                                assert(m0.has_failed(index as int));
                            }
                        }
                    }
                }
            },
        }
    }

    /// Every item has been started and none is outstanding.
    pub fn is_finished(&self) -> (r: bool)
        ensures
            r == self@.finished(),
    {
        self.next == self.total && self.in_flight.len() == 0
    }

    /// Number of items fetched successfully so far.
    pub fn success_count(&self) -> (r: usize)
        ensures
            r == self@.succeeded.len(),
    {
        self.succeeded.len()
    }

    /// Number of items whose fetch failed so far.
    pub fn failure_count(&self) -> (r: usize)
        ensures
            r == self@.failed.len(),
    {
        self.failed.len()
    }

    /// Number of fetches outstanding.
    pub fn in_flight_count(&self) -> (r: usize)
        ensures
            r == self@.in_flight.len(),
    {
        self.in_flight.len()
    }

    /// The successful items with their local paths, in order of completion.
    pub fn successes(&self) -> (r: &Vec<(usize, String)>)
        ensures
            success_views(r@) == self@.succeeded,
    {
        &self.succeeded
    }

    /// The successful items with their local paths, in item order.
    pub fn successes_in_item_order(&self) -> (r: Vec<(usize, String)>)
        requires
            self@.wf(),
        ensures
            forall|a: int, b: int| 0 <= a < b < r@.len() ==> r@[a].0 < r@[b].0,
            forall|a: int|
                0 <= a < r@.len() ==> self@.succeeded.contains(((#[trigger] r@[a]).0, r@[a].1@)),
            forall|p: int|
                0 <= p < self@.succeeded.len() ==> success_views(r@).contains(#[trigger] self@.succeeded[p]),
    {
        let ghost m = self@;
        let mut r: Vec<(usize, String)> = Vec::new();
        let mut i: usize = 0;
        while i < self.next
            invariant
                m == self@,
                m.wf(),
                i <= m.next,
                forall|a: int, b: int| 0 <= a < b < r@.len() ==> r@[a].0 < r@[b].0,
                forall|a: int| 0 <= a < r@.len() ==> (#[trigger] r@[a]).0 < i,
                forall|a: int| 0 <= a < r@.len() ==> m.succeeded.contains(((#[trigger] r@[a]).0, r@[a].1@)),
                forall|p: int|
                    0 <= p < m.succeeded.len() && (#[trigger] m.succeeded[p]).0 < i ==> exists|a: int|
                        0 <= a < r@.len() && r@[a].0 == m.succeeded[p].0 && r@[a].1@ == m.succeeded[p].1,
            decreases m.next - i,
        {
            let mut q: usize = 0;
            while q < self.succeeded.len()
                invariant
                    m == self@,
                    m.wf(),
                    i < m.next,
                    q <= self.succeeded@.len(),
                    self.succeeded@.len() == m.succeeded.len(),
                    forall|a: int, b: int| 0 <= a < b < r@.len() ==> r@[a].0 < r@[b].0,
                    forall|a: int| 0 <= a < r@.len() ==> (#[trigger] r@[a]).0 <= i,
                    forall|a: int| 0 <= a < r@.len() && r@[a].0 == i ==> a == r@.len() - 1,
                    forall|a: int| 0 <= a < r@.len() ==> m.succeeded.contains(((#[trigger] r@[a]).0, r@[a].1@)),
                    forall|p: int|
                        0 <= p < m.succeeded.len() && (#[trigger] m.succeeded[p]).0 < i ==> exists|a: int|
                            0 <= a < r@.len() && r@[a].0 == m.succeeded[p].0 && r@[a].1@ == m.succeeded[p].1,
                    forall|p: int|
                        0 <= p < q && (#[trigger] m.succeeded[p]).0 == i ==> exists|a: int|
                            0 <= a < r@.len() && r@[a].0 == m.succeeded[p].0 && r@[a].1@ == m.succeeded[p].1,
                    forall|p: int| 0 <= p < q && (#[trigger] m.succeeded[p]).0 == i ==> r@.len() > 0 && r@[r@.len() - 1].0 == i,
                    (r@.len() > 0 && r@[r@.len() - 1].0 == i) ==> exists|p: int| 0 <= p < q && (#[trigger] m.succeeded[p]).0 == i,
                decreases self.succeeded@.len() - q,
            {
                assert(m.succeeded[q as int] == (self.succeeded@[q as int].0, self.succeeded@[q as int].1@));
                if self.succeeded[q].0 == i {
                    proof {
                        if r@.len() > 0 && r@[r@.len() - 1].0 == i {
                            let p0 = choose|p: int| 0 <= p < q && (#[trigger] m.succeeded[p]).0 == i;
                            assert(m.succeeded[p0].0 == m.succeeded[q as int].0);
                        }
                    }
                    let ghost r0 = r@;
                    r.push((i, self.succeeded[q].1.clone()));
                    assert(m.succeeded.contains((r@[r@.len() - 1].0, r@[r@.len() - 1].1@))) by {
                        assert(m.succeeded[q as int] == (r@[r@.len() - 1].0, r@[r@.len() - 1].1@));
                    }
                    assert forall|a: int| 0 <= a < r@.len() implies m.succeeded.contains(((#[trigger] r@[a]).0, r@[a].1@)) by {
                        if a < r0.len() {
                            assert(r@[a] == r0[a]);
                        }
                    }
                    assert forall|p: int|
                        0 <= p < m.succeeded.len() && (#[trigger] m.succeeded[p]).0 < i implies exists|a: int|
                            0 <= a < r@.len() && r@[a].0 == m.succeeded[p].0 && r@[a].1@ == m.succeeded[p].1 by {
                        let a = choose|a: int| 0 <= a < r0.len() && r0[a].0 == m.succeeded[p].0 && r0[a].1@ == m.succeeded[p].1;
                        assert(r@[a] == r0[a]);
                    }
                    assert forall|p: int|
                        0 <= p < q + 1 && (#[trigger] m.succeeded[p]).0 == i implies exists|a: int|
                            0 <= a < r@.len() && r@[a].0 == m.succeeded[p].0 && r@[a].1@ == m.succeeded[p].1 by {
                        if p == q {
                            assert(r@[r@.len() - 1].1@ == m.succeeded[p].1);
                        } else {
                            assert(m.succeeded[p].0 == m.succeeded[q as int].0);
                        }
                    }
                }
                q = q + 1;
            }
            i = i + 1;
        }
        assert forall|p: int| 0 <= p < self@.succeeded.len() implies success_views(r@).contains(
            #[trigger] self@.succeeded[p],
        ) by {
            assert(m.succeeded[p].0 < m.next);
            let a = choose|a: int| 0 <= a < r@.len() && r@[a].0 == m.succeeded[p].0 && r@[a].1@ == m.succeeded[p].1;
            assert(success_views(r@)[a] == m.succeeded[p]);
        }
        r
    }

    /// The failed items with their errors, in order of completion.
    pub fn failures(&self) -> (r: &Vec<(usize, DownloadError)>)
        ensures
            failure_indices(r@) == self@.failed,
    {
        &self.failed
    }

    /// The local paths of the successful items, in order of completion.
    pub fn into_paths(self) -> (r: Vec<String>)
        ensures
            r@.len() == self@.succeeded.len(),
            forall|p: int| 0 <= p < r@.len() ==> (#[trigger] r@[p])@ == self@.succeeded[p].1,
    {
        let ghost m = self@;
        let mut paths: Vec<String> = Vec::new();
        let ghost all = self.succeeded@;
        for e in it: self.succeeded
            invariant
                all == it.seq(),
                m.succeeded == success_views(all),
                paths@.len() == it.index(),
                forall|p: int| 0 <= p < it.index() ==> (#[trigger] paths@[p])@ == m.succeeded[p].1,
        {
            let (_, path) = e;
            paths.push(path);
        }
        paths
    }
}

} // verus!
