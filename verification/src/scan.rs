//! Sliding a pattern over a byte sequence.

use vstd::prelude::*;
use crate::element::PatternElement;
use crate::pattern::Pattern;

verus! {

/// Whether the window satisfies the pattern: it has the pattern's length and
/// every element accepts the byte at its position.
pub open spec fn window_matches(pat: Seq<PatternElement>, window: Seq<u8>) -> bool {
    &&& window.len() == pat.len()
    &&& forall|j: int| 0 <= j < pat.len() ==> (#[trigger] pat[j]).accepts(window[j])
}

/// What the placeholders among the first `n` positions capture from the
/// window, in order. The offsets count from `base`, the window's own offset.
pub open spec fn captures_upto(
    pat: Seq<PatternElement>,
    window: Seq<u8>,
    base: int,
    n: int,
) -> Seq<(u8, usize)>
    decreases n,
{
    if n <= 0 {
        Seq::empty()
    } else {
        let before = captures_upto(pat, window, base, n - 1);
        if pat[n - 1] == PatternElement::Placeholder {
            before.push((window[n - 1], (base + n - 1) as usize))
        } else {
            before
        }
    }
}

/// What all the placeholders of the pattern capture from the window.
pub open spec fn captures(pat: Seq<PatternElement>, window: Seq<u8>, base: int) -> Seq<
    (u8, usize),
> {
    captures_upto(pat, window, base, pat.len() as int)
}

/// The window of `len` bytes that starts at offset `i`.
pub open spec fn window_at(hay: Seq<u8>, i: int, len: int) -> Seq<u8> {
    hay.subrange(i, i + len)
}

/// The number of windows of `pat_len` bytes in a sequence of `hay_len` bytes.
/// For an empty pattern there is one empty window at every offset, the end
/// included.
pub open spec fn window_count(pat_len: int, hay_len: int) -> int {
    if hay_len < pat_len {
        0
    } else {
        hay_len - pat_len + 1
    }
}

/// The captures of the matching windows among the first `n`, window by
/// window, with offsets into the whole sequence.
pub open spec fn matches_upto(pat: Seq<PatternElement>, hay: Seq<u8>, n: int) -> Seq<(u8, usize)>
    decreases n,
{
    if n <= 0 {
        Seq::empty()
    } else {
        let before = matches_upto(pat, hay, n - 1);
        let window = window_at(hay, n - 1, pat.len() as int);
        if window_matches(pat, window) {
            before + captures(pat, window, n - 1)
        } else {
            before
        }
    }
}

/// The captures of every matching window of the sequence.
pub open spec fn all_matches(pat: Seq<PatternElement>, hay: Seq<u8>) -> Seq<(u8, usize)> {
    matches_upto(pat, hay, window_count(pat.len() as int, hay.len() as int))
}

/// Whether the window at offset `i` exists and matches.
pub open spec fn matches_at(pat: Seq<PatternElement>, hay: Seq<u8>, i: int) -> bool {
    &&& 0 <= i < window_count(pat.len() as int, hay.len() as int)
    &&& window_matches(pat, window_at(hay, i, pat.len() as int))
}

/// Whether some window of the sequence matches.
pub open spec fn some_window_matches(pat: Seq<PatternElement>, hay: Seq<u8>) -> bool {
    exists|i: int| matches_at(pat, hay, i)
}

/// The bytes of a sequence of captures.
pub open spec fn bytes_of(found: Seq<(u8, usize)>) -> Seq<u8> {
    found.map_values(|c: (u8, usize)| c.0)
}

/// The empty pattern captures nothing, in however many windows.
pub proof fn lemma_empty_pattern_captures_nothing(pat: Seq<PatternElement>, hay: Seq<u8>, n: int)
    requires
        pat.len() == 0,
    ensures
        matches_upto(pat, hay, n) == Seq::<(u8, usize)>::empty(),
    decreases n,
{
    if n > 0 {
        lemma_empty_pattern_captures_nothing(pat, hay, n - 1);
        let window = window_at(hay, n - 1, 0);
        assert(captures(pat, window, n - 1) =~= Seq::<(u8, usize)>::empty());
        assert(matches_upto(pat, hay, n - 1) + captures(pat, window, n - 1) =~= Seq::<
            (u8, usize),
        >::empty());
    }
}

/// What the first `n` positions capture stays in front when more positions
/// are read.
pub proof fn lemma_captures_grow(
    pat: Seq<PatternElement>,
    window: Seq<u8>,
    base: int,
    m: int,
    n: int,
)
    requires
        0 <= m <= n,
    ensures
        captures_upto(pat, window, base, m).is_prefix_of(captures_upto(pat, window, base, n)),
    decreases n - m,
{
    if m < n {
        lemma_captures_grow(pat, window, base, m, n - 1);
    }
}

/// What the first `m` windows report stays in front, unchanged, when more
/// windows are scanned: the reports come in the order of the windows.
pub proof fn lemma_matches_grow(pat: Seq<PatternElement>, hay: Seq<u8>, m: int, n: int)
    requires
        0 <= m <= n,
    ensures
        matches_upto(pat, hay, m).is_prefix_of(matches_upto(pat, hay, n)),
    decreases n - m,
{
    if m < n {
        lemma_matches_grow(pat, hay, m, n - 1);
    }
}

/// Every window that matches is reported, also where it overlaps another:
/// its captures stand in the result as one run, behind what the windows to
/// its left report.
pub proof fn lemma_matching_window_is_reported(pat: Seq<PatternElement>, hay: Seq<u8>, i: int)
    requires
        matches_at(pat, hay, i),
    ensures
        (matches_upto(pat, hay, i) + captures(
            pat,
            window_at(hay, i, pat.len() as int),
            i,
        )).is_prefix_of(all_matches(pat, hay)),
{
    lemma_matches_grow(pat, hay, i + 1, window_count(pat.len() as int, hay.len() as int));
}

/// Every placeholder of a matching window is reported with the byte under it
/// and that byte's offset in the haystack.
pub proof fn lemma_capture_is_reported(pat: Seq<PatternElement>, hay: Seq<u8>, i: int, j: int)
    requires
        matches_at(pat, hay, i),
        0 <= j < pat.len(),
        pat[j] == PatternElement::Placeholder,
    ensures
        all_matches(pat, hay).contains((hay[i + j], (i + j) as usize)),
{
    let window = window_at(hay, i, pat.len() as int);
    let upto = captures_upto(pat, window, i, j + 1);
    let caps = captures(pat, window, i);
    let before = matches_upto(pat, hay, i);
    let all = all_matches(pat, hay);
    lemma_captures_grow(pat, window, i, j + 1, pat.len() as int);
    lemma_matching_window_is_reported(pat, hay, i);
    let k = upto.len() - 1;
    assert(upto[k] == (hay[i + j], (i + j) as usize));
    assert(caps[k] == upto[k]);
    assert((before + caps)[before.len() + k] == caps[k]);
    assert(all[before.len() + k] == caps[k]);
}

/// A haystack shorter than the pattern has no window: nothing is found and
/// nothing matches.
pub proof fn lemma_short_haystack_has_no_match(pat: Seq<PatternElement>, hay: Seq<u8>)
    requires
        hay.len() < pat.len(),
    ensures
        all_matches(pat, hay) == Seq::<(u8, usize)>::empty(),
        bytes_of(all_matches(pat, hay)) == Seq::<u8>::empty(),
        !some_window_matches(pat, hay),
{
    assert(bytes_of(Seq::<(u8, usize)>::empty()) =~= Seq::<u8>::empty());
}

/// A scan depends on nothing but the pattern's elements and the haystack's
/// bytes: scanning again, or with a copy of either, gives the same.
pub proof fn lemma_scan_is_repeatable(p: Pattern, q: Pattern, hay: Seq<u8>, again: Seq<u8>)
    requires
        p@ == q@,
        hay == again,
    ensures
        all_matches(p@, hay) == all_matches(q@, again),
        bytes_of(all_matches(p@, hay)) == bytes_of(all_matches(q@, again)),
        some_window_matches(p@, hay) == some_window_matches(q@, again),
{
}

/// Where the first `n` windows report anything, one of them matches.
proof fn lemma_found_among_first(pat: Seq<PatternElement>, hay: Seq<u8>, n: int)
    requires
        0 <= n <= window_count(pat.len() as int, hay.len() as int),
        matches_upto(pat, hay, n).len() > 0,
    ensures
        some_window_matches(pat, hay),
    decreases n,
{
    if n > 0 {
        if window_matches(pat, window_at(hay, n - 1, pat.len() as int)) {
            assert(matches_at(pat, hay, n - 1));
        } else {
            lemma_found_among_first(pat, hay, n - 1);
        }
    }
}

/// A scan that finds something has a match; where no window matches, nothing
/// is found.
pub proof fn lemma_found_implies_match(pat: Seq<PatternElement>, hay: Seq<u8>)
    ensures
        all_matches(pat, hay).len() > 0 ==> some_window_matches(pat, hay),
        !some_window_matches(pat, hay) ==> all_matches(pat, hay) =~= Seq::<(u8, usize)>::empty(),
{
    if all_matches(pat, hay).len() > 0 {
        lemma_found_among_first(pat, hay, window_count(pat.len() as int, hay.len() as int));
    }
}

/// Whether position `j` of the window at offset `i` is a capture: the window
/// matches and the pattern has a placeholder there.
pub open spec fn is_capture(pat: Seq<PatternElement>, hay: Seq<u8>, i: int, j: int) -> bool {
    &&& matches_at(pat, hay, i)
    &&& 0 <= j < pat.len()
    &&& pat[j] == PatternElement::Placeholder
}

/// Every entry of what the first `m` positions capture is the byte under a
/// placeholder among them, with its offset.
proof fn lemma_capture_entry(
    pat: Seq<PatternElement>,
    window: Seq<u8>,
    base: int,
    m: int,
    t: int,
) -> (j: int)
    requires
        0 <= m <= pat.len(),
        0 <= t < captures_upto(pat, window, base, m).len(),
    ensures
        0 <= j < m,
        pat[j] == PatternElement::Placeholder,
        captures_upto(pat, window, base, m)[t] == (window[j], (base + j) as usize),
    decreases m,
{
    if t < captures_upto(pat, window, base, m - 1).len() {
        lemma_capture_entry(pat, window, base, m - 1, t)
    } else {
        m - 1
    }
}

/// Every entry of what the first `n` windows report is a capture of one of
/// them.
proof fn lemma_report_entry(pat: Seq<PatternElement>, hay: Seq<u8>, n: int, k: int) -> (w: (
    int,
    int,
))
    requires
        0 <= n <= window_count(pat.len() as int, hay.len() as int),
        0 <= k < matches_upto(pat, hay, n).len(),
    ensures
        0 <= w.0 < n,
        is_capture(pat, hay, w.0, w.1),
        matches_upto(pat, hay, n)[k] == (hay[w.0 + w.1], (w.0 + w.1) as usize),
    decreases n,
{
    let before = matches_upto(pat, hay, n - 1);
    if k < before.len() {
        lemma_report_entry(pat, hay, n - 1, k)
    } else {
        let window = window_at(hay, n - 1, pat.len() as int);
        let j = lemma_capture_entry(pat, window, n - 1, pat.len() as int, k - before.len());
        (n - 1, j)
    }
}

/// Nothing is reported but captures: every entry of the result is the byte
/// under a placeholder of some matching window, with that byte's offset in
/// the haystack.
pub proof fn lemma_every_report_is_a_capture(pat: Seq<PatternElement>, hay: Seq<u8>, k: int)
    requires
        0 <= k < all_matches(pat, hay).len(),
    ensures
        exists|i: int, j: int| #[trigger]
            is_capture(pat, hay, i, j) && all_matches(pat, hay)[k] == (
                hay[i + j],
                (i + j) as usize,
            ),
{
    let w = lemma_report_entry(pat, hay, window_count(pat.len() as int, hay.len() as int), k);
    assert(is_capture(pat, hay, w.0, w.1));
}

impl Pattern {
    /// Tests the window of the haystack that starts at `start`. On a match
    /// the captures come with offsets into the haystack.
    fn match_at(&self, haystack: &Vec<u8>, start: usize) -> (r: (Vec<(u8, usize)>, bool))
        requires
            start + self@.len() <= haystack@.len(),
        ensures
            r.1 == window_matches(self@, window_at(haystack@, start as int, self@.len() as int)),
            r.1 ==> r.0@ == captures(
                self@,
                window_at(haystack@, start as int, self@.len() as int),
                start as int,
            ),
            !r.1 ==> r.0@ == Seq::<(u8, usize)>::empty(),
    {
        let data = self.elements();
        let n: usize = data.len();
        let ghost window = window_at(haystack@, start as int, n as int);
        let mut found: Vec<(u8, usize)> = Vec::new();
        let mut j: usize = 0;
        while j < n
            invariant
                data@ == self@,
                n == data@.len(),
                start + n <= haystack.len(),
                window == window_at(haystack@, start as int, n as int),
                j <= n,
                forall|k: int| 0 <= k < j ==> (#[trigger] data@[k]).accepts(window[k]),
                found@ == captures_upto(data@, window, start as int, j as int),
            decreases n - j,
        {
            let b: u8 = haystack[start + j];
            assert(window[j as int] == b);
            match data[j] {
                PatternElement::Literal(v) => {
                    if v != b {
                        assert(!data@[j as int].accepts(window[j as int]));
                        return (Vec::new(), false);
                    }
                },
                PatternElement::Placeholder => {
                    found.push((b, start + j));
                },
                PatternElement::Ignore => {},
            }
            j += 1;
        }
        (found, true)
    }

    /// Tests one window. `chunk` must be as long as the pattern.
    ///
    /// Returns whether every element accepts its byte and, if so, what the
    /// placeholders capture, with offsets into the chunk; else no captures.
    pub fn match_chunk(&self, chunk: Vec<u8>) -> (r: (Vec<(u8, usize)>, bool))
        requires
            chunk@.len() == self@.len(),
        ensures
            r.1 == window_matches(self@, chunk@),
            r.1 ==> r.0@ == captures(self@, chunk@, 0),
            !r.1 ==> r.0@ == Seq::<(u8, usize)>::empty(),
    {
        assert(window_at(chunk@, 0, self@.len() as int) =~= chunk@);
        self.match_at(&chunk, 0)
    }

    /// Finds every window of the haystack that matches, from the left, and
    /// returns what their placeholders capture, with offsets into the
    /// haystack. A haystack shorter than the pattern gives nothing.
    pub fn find_matches_with_index(&self, haystack: Vec<u8>) -> (r: Vec<(u8, usize)>)
        ensures
            r@ == all_matches(self@, haystack@),
            haystack@.len() < self@.len() ==> r@ == Seq::<(u8, usize)>::empty(),
    {
        let n: usize = self.len();
        let h: usize = haystack.len();
        let mut found: Vec<(u8, usize)> = Vec::new();
        if n == 0 {
            proof {
                lemma_empty_pattern_captures_nothing(self@, haystack@, h + 1);
            }
            return found;
        }
        if h < n {
            return found;
        }
        let last: usize = h - n;
        let mut i: usize = 0;
        while i <= last
            invariant
                n == self@.len(),
                h == haystack@.len(),
                n >= 1,
                last == h - n,
                i <= last + 1,
                found@ == matches_upto(self@, haystack@, i as int),
            decreases last + 1 - i,
        {
            let (mut caps, matched) = self.match_at(&haystack, i);
            if matched {
                found.append(&mut caps);
            }
            i += 1;
        }
        found
    }

    /// The bytes that [`Pattern::find_matches_with_index`] finds, without
    /// their offsets.
    pub fn find_matches(&self, haystack: Vec<u8>) -> (r: Vec<u8>)
        ensures
            r@ == bytes_of(all_matches(self@, haystack@)),
            haystack@.len() < self@.len() ==> r@ == Seq::<u8>::empty(),
    {
        proof {
            if haystack@.len() < self@.len() {
                lemma_short_haystack_has_no_match(self@, haystack@);
            }
        }
        let found = self.find_matches_with_index(haystack);
        let mut bytes: Vec<u8> = Vec::new();
        let mut i: usize = 0;
        while i < found.len()
            invariant
                i <= found@.len(),
                bytes@ == bytes_of(found@.take(i as int)),
            decreases found@.len() - i,
        {
            bytes.push(found[i].0);
            assert(found@.take(i + 1) =~= found@.take(i as int).push(found@[i as int]));
            assert(bytes@ =~= bytes_of(found@.take(i + 1)));
            i += 1;
        }
        assert(found@.take(found@.len() as int) =~= found@);
        bytes
    }

    /// Whether some window of the haystack matches. The search stops at the
    /// first one that does. A haystack shorter than the pattern has no
    /// window; the empty pattern matches any haystack, the empty one too.
    pub fn has_match(&self, haystack: Vec<u8>) -> (r: bool)
        ensures
            r == some_window_matches(self@, haystack@),
            haystack@.len() < self@.len() ==> !r,
            self@.len() == 0 ==> r,
    {
        let n: usize = self.len();
        let h: usize = haystack.len();
        if h < n {
            return false;
        }
        if n == 0 {
            assert(window_matches(self@, window_at(haystack@, 0, 0)));
            assert(matches_at(self@, haystack@, 0));
            return true;
        }
        let last: usize = h - n;
        let mut i: usize = 0;
        while i <= last
            invariant
                n == self@.len(),
                h == haystack@.len(),
                n >= 1,
                last == h - n,
                i <= last + 1,
                forall|k: int| 0 <= k < i ==> !matches_at(self@, haystack@, k),
            decreases last + 1 - i,
        {
            let (_, matched) = self.match_at(&haystack, i);
            if matched {
                assert(matches_at(self@, haystack@, i as int));
                return true;
            }
            i += 1;
        }
        false
    }
}

} // verus!
