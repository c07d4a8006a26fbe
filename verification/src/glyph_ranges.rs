use vstd::prelude::*;

verus! {

/// A Unicode code point as Dear ImGui stores it (the bindings use 32-bit wide characters).
pub type ImWchar = u32;

/// The largest Unicode code point.
pub const MAX_CODEPOINT: u32 = 0x10FFFF;

#[derive(Clone, Debug, PartialEq, Eq)]
enum FontGlyphRangeData {
    ChineseSimplifiedCommon,
    ChineseFull,
    Cyrillic,
    Default,
    Japanese,
    Korean,
    Thai,
    Vietnamese,
    Custom(&'static [ImWchar]),
}

/// What a set of glyph ranges denotes: one of the built-in sets, or a custom
/// zero-terminated list of inclusive ranges.
pub enum GlyphRangeSet {
    ChineseSimplifiedCommon,
    ChineseFull,
    Cyrillic,
    Default,
    Japanese,
    Korean,
    Thai,
    Vietnamese,
    Custom(Seq<ImWchar>),
}

/// A set of Unicode codepoints
#[derive(Clone, Debug, PartialEq, Eq)]
pub struct FontGlyphRanges(FontGlyphRangeData);

impl View for FontGlyphRanges {
    type V = GlyphRangeSet;

    closed spec fn view(&self) -> GlyphRangeSet {
        match self.0 {
            FontGlyphRangeData::ChineseSimplifiedCommon => GlyphRangeSet::ChineseSimplifiedCommon,
            FontGlyphRangeData::ChineseFull => GlyphRangeSet::ChineseFull,
            FontGlyphRangeData::Cyrillic => GlyphRangeSet::Cyrillic,
            FontGlyphRangeData::Default => GlyphRangeSet::Default,
            FontGlyphRangeData::Japanese => GlyphRangeSet::Japanese,
            FontGlyphRangeData::Korean => GlyphRangeSet::Korean,
            FontGlyphRangeData::Thai => GlyphRangeSet::Thai,
            FontGlyphRangeData::Vietnamese => GlyphRangeSet::Vietnamese,
            FontGlyphRangeData::Custom(s) => GlyphRangeSet::Custom(s@),
        }
    }
}


/// The inclusive ranges that a glyph range slice lists: the pairs
/// `(s[2k], s[2k + 1])` before the terminating zero.
pub open spec fn ranges_of(s: Seq<ImWchar>) -> Seq<(ImWchar, ImWchar)> {
    Seq::new((s.len() / 2) as nat, |k: int| (s[2 * k], s[2 * k + 1]))
}

/// Two inclusive ranges share at least one code point.
pub open spec fn ranges_overlap(a: (ImWchar, ImWchar), b: (ImWchar, ImWchar)) -> bool {
    a.0 <= b.1 && b.0 <= a.1
}

/// No two ranges (at different positions) share a code point.
pub open spec fn ranges_disjoint(r: Seq<(ImWchar, ImWchar)>) -> bool {
    forall|i: int, j: int|
        0 <= i < r.len() && 0 <= j < r.len() && i != j ==> !ranges_overlap(#[trigger] r[i], #[trigger] r[j])
}

/// A glyph is usable inside a range: non-zero and at most the largest code point.
pub open spec fn glyph_ok(g: ImWchar) -> bool {
    g != 0 && g <= MAX_CODEPOINT
}

/// The length is odd and the list ends with the terminating zero.
pub open spec fn glyph_header_ok(s: Seq<ImWchar>) -> bool {
    s.len() % 2 == 1 && s.last() == 0
}

/// Every glyph before the terminator is usable.
pub open spec fn glyphs_ok(s: Seq<ImWchar>) -> bool {
    forall|i: int| 0 <= i < s.len() - 1 ==> glyph_ok(#[trigger] s[i])
}

/// Every range starts no later than it ends.
pub open spec fn pairs_ordered(s: Seq<ImWchar>) -> bool {
    forall|k: int| 0 <= k < s.len() / 2 ==> #[trigger] s[2 * k] <= s[2 * k + 1]
}

/// A valid custom glyph range list: a series (possibly empty) of pairs of non-zero
/// code points, each an inclusive range, followed by a single zero, with no two
/// ranges overlapping.
pub open spec fn glyph_ranges_valid(s: Seq<ImWchar>) -> bool {
    &&& glyph_header_ok(s)
    &&& glyphs_ok(s)
    &&& pairs_ordered(s)
    &&& ranges_disjoint(ranges_of(s))
}

/// Why a slice is not a usable glyph range list; the checks come in this order.
#[derive(Clone, Copy, Debug, PartialEq, Eq)]
pub enum GlyphRangeError {
    /// The length of a glyph range must be odd.
    EvenLength,
    /// A glyph range must be zero-terminated.
    NotZeroTerminated,
    /// A glyph in a range cannot be zero.
    ZeroGlyph { index: usize },
    /// A glyph in a range cannot exceed the maximum code point.
    GlyphTooLarge { glyph: ImWchar, index: usize },
    /// The start of a range cannot be larger than its end.
    StartAfterEnd { index: usize, start: ImWchar, end: ImWchar },
    /// Two ranges overlap: once the ranges are sorted by start, `first` and `second`
    /// are the first neighbours that share a code point.
    Overlap { first: (ImWchar, ImWchar), second: (ImWchar, ImWchar) },
}

/// What the checks of a glyph range list report, given the error that came out.
pub open spec fn glyph_error_matches(s: Seq<ImWchar>, e: GlyphRangeError) -> bool {
    match e {
        GlyphRangeError::EvenLength => s.len() % 2 == 0,
        GlyphRangeError::NotZeroTerminated => s.len() % 2 == 1 && s.last() != 0,
        GlyphRangeError::ZeroGlyph { index } => {
            &&& glyph_header_ok(s)
            &&& index < s.len() - 1
            &&& s[index as int] == 0
            &&& forall|j: int| 0 <= j < index ==> glyph_ok(#[trigger] s[j])
        },
        GlyphRangeError::GlyphTooLarge { glyph, index } => {
            &&& glyph_header_ok(s)
            &&& index < s.len() - 1
            &&& glyph == s[index as int]
            &&& glyph > MAX_CODEPOINT
            &&& forall|j: int| 0 <= j < index ==> glyph_ok(#[trigger] s[j])
        },
        GlyphRangeError::StartAfterEnd { index, start, end } => {
            &&& glyph_header_ok(s)
            &&& glyphs_ok(s)
            &&& index % 2 == 0
            &&& index + 1 < s.len()
            &&& start == s[index as int]
            &&& end == s[index + 1]
            &&& start > end
            &&& forall|k: int| 0 <= k < index / 2 ==> #[trigger] s[2 * k] <= s[2 * k + 1]
        },
        GlyphRangeError::Overlap { first, second } => {
            &&& glyph_header_ok(s)
            &&& glyphs_ok(s)
            &&& pairs_ordered(s)
            &&& first.0 <= second.0 <= first.1
            &&& exists|i: int, j: int|
                0 <= i < ranges_of(s).len() && 0 <= j < ranges_of(s).len() && i != j
                    && #[trigger] ranges_of(s)[i] == first && #[trigger] ranges_of(s)[j] == second
            &&& exists|t: Seq<(ImWchar, ImWchar)>, k: int|
                sorted_arrangement(t, ranges_of(s)) && #[trigger] first_neighbour_overlap(t, k)
                    && first == t[k] && second == t[k + 1]
        },
    }
}

/// `t` holds the ranges of `r` sorted by their start (in some order among equal starts).
pub open spec fn sorted_arrangement(t: Seq<(ImWchar, ImWchar)>, r: Seq<(ImWchar, ImWchar)>) -> bool {
    &&& exists|perm: Seq<int>, inv: Seq<int>| #[trigger] sorted_permutation(t, r, perm, inv)
    &&& forall|a: int, b: int| 0 <= a <= b < t.len() ==> (#[trigger] t[a]).0 <= (#[trigger] t[b]).0
}

/// `k` is the first position at which neighbouring ranges of `t` share a code point.
pub open spec fn first_neighbour_overlap(t: Seq<(ImWchar, ImWchar)>, k: int) -> bool {
    &&& 0 <= k
    &&& k + 1 < t.len()
    &&& t[k].1 >= t[k + 1].0
    &&& forall|j: int| 0 <= j < k ==> (#[trigger] t[j]).1 < t[j + 1].0
}

/// `sorted` is `orig` rearranged: `sorted[k] == orig[perm[k]]`, with `inv` the inverse of `perm`.
pub open spec fn sorted_permutation(
    sorted: Seq<(ImWchar, ImWchar)>,
    orig: Seq<(ImWchar, ImWchar)>,
    perm: Seq<int>,
    inv: Seq<int>,
) -> bool {
    &&& sorted.len() == orig.len()
    &&& perm.len() == orig.len()
    &&& inv.len() == orig.len()
    &&& forall|k: int| 0 <= k < perm.len() ==> 0 <= #[trigger] perm[k] < orig.len() && inv[perm[k]] == k
    &&& forall|i: int| 0 <= i < inv.len() ==> 0 <= #[trigger] inv[i] < orig.len() && perm[inv[i]] == i
    &&& forall|k: int| 0 <= k < sorted.len() ==> #[trigger] sorted[k] == orig[perm[k]]
}

proof fn lemma_rearranged_stays_valid(s1: Seq<ImWchar>, s2: Seq<ImWchar>, perm: Seq<int>, inv: Seq<int>)
    requires
        s1.len() == s2.len(),
        s1.len() > 0,
        s1.last() == s2.last(),
        sorted_permutation(ranges_of(s2), ranges_of(s1), perm, inv),
        glyph_ranges_valid(s1),
    ensures
        glyph_ranges_valid(s2),
{
    let r1 = ranges_of(s1);
    let r2 = ranges_of(s2);
    let n = s1.len();
    assert forall|i: int| 0 <= i < s2.len() - 1 implies glyph_ok(#[trigger] s2[i]) by {
        let k = i / 2;
        assert(0 <= k < r2.len());
        let p = perm[k];
        assert(r2[k] == r1[p]);
        assert(r2[k] == (s2[2 * k], s2[2 * k + 1]));
        assert(r1[p] == (s1[2 * p], s1[2 * p + 1]));
        assert(2 * p + 1 < n - 1);
        assert(glyph_ok(s1[2 * p]) && glyph_ok(s1[2 * p + 1]));
        assert(i == 2 * k || i == 2 * k + 1);
    }
    assert forall|k: int| 0 <= k < s2.len() / 2 implies #[trigger] s2[2 * k] <= s2[2 * k + 1] by {
        let p = perm[k];
        assert(r2[k] == r1[p]);
        assert(r2[k] == (s2[2 * k], s2[2 * k + 1]));
        assert(r1[p] == (s1[2 * p], s1[2 * p + 1]));
        assert(s1[2 * p] <= s1[2 * p + 1]);
    }
    assert forall|i: int, j: int|
        0 <= i < r2.len() && 0 <= j < r2.len() && i != j implies !ranges_overlap(
        #[trigger] r2[i],
        #[trigger] r2[j],
    ) by {
        assert(r2[i] == r1[perm[i]]);
        assert(r2[j] == r1[perm[j]]);
        assert(inv[perm[i]] == i && inv[perm[j]] == j);
    }
}

/// Whether a slice is a valid glyph range list does not depend on the order of its
/// ranges: with the terminator in place, listing the same ranges in another order
/// keeps a valid list valid and an invalid one invalid.
pub proof fn lemma_validity_ignores_range_order(
    s1: Seq<ImWchar>,
    s2: Seq<ImWchar>,
    perm: Seq<int>,
    inv: Seq<int>,
)
    requires
        s1.len() == s2.len(),
        s1.len() > 0,
        s1.last() == s2.last(),
        sorted_permutation(ranges_of(s2), ranges_of(s1), perm, inv),
    ensures
        glyph_ranges_valid(s1) == glyph_ranges_valid(s2),
{
    if glyph_ranges_valid(s1) {
        lemma_rearranged_stays_valid(s1, s2, perm, inv);
    }
    if glyph_ranges_valid(s2) {
        let r1 = ranges_of(s1);
        let r2 = ranges_of(s2);
        assert forall|k: int| 0 <= k < r1.len() implies #[trigger] r1[k] == r2[inv[k]] by {
            assert(r2[inv[k]] == r1[perm[inv[k]]]);
        }
        assert(sorted_permutation(r1, r2, inv, perm));
        lemma_rearranged_stays_valid(s2, s1, inv, perm);
    }
}

/// Sorts ranges by their start (selection sort), and gives the permutation it applied.
fn sort_by_start(v: Vec<(ImWchar, ImWchar)>) -> (r: (
    Vec<(ImWchar, ImWchar)>,
    Ghost<Seq<int>>,
    Ghost<Seq<int>>,
))
    ensures
        sorted_permutation(r.0@, v@, r.1@, r.2@),
        forall|a: int, b: int| 0 <= a <= b < r.0@.len() ==> (#[trigger] r.0@[a]).0 <= (#[trigger] r.0@[b]).0,
{
    let ghost orig = v@;
    let mut v = v;
    let n = v.len();
    let ghost mut perm: Seq<int> = Seq::new(n as nat, |k: int| k);
    let ghost mut inv: Seq<int> = Seq::new(n as nat, |k: int| k);
    let mut i: usize = 0;
    while i < n
        invariant
            n == v@.len(),
            i <= n,
            sorted_permutation(v@, orig, perm, inv),
            forall|a: int, b: int| 0 <= a <= b < i ==> (#[trigger] v@[a]).0 <= (#[trigger] v@[b]).0,
            forall|a: int, b: int| 0 <= a < i <= b < n ==> (#[trigger] v@[a]).0 <= (#[trigger] v@[b]).0,
        decreases n - i,
    {
        let mut m: usize = i;
        let mut j: usize = i + 1;
        while j < n
            invariant
                n == v@.len(),
                i < n,
                i <= m < n,
                i < j <= n,
                forall|b: int| i <= b < j ==> v@[m as int].0 <= (#[trigger] v@[b]).0,
            decreases n - j,
        {
            if v[j].0 < v[m].0 {
                m = j;
            }
            j = j + 1;
        }
        let a = v[i];
        let b = v[m];
        v.set(i, b);
        v.set(m, a);
        proof {
            let pi = perm[i as int];
            let pm = perm[m as int];
            perm = perm.update(i as int, pm).update(m as int, pi);
            inv = inv.update(pi, m as int).update(pm, i as int);
        }
        i = i + 1;
    }
    (v, Ghost(perm), Ghost(inv))
}

/// The first overlapping neighbours of the sorted ranges are what the check reports.
proof fn lemma_overlap_reported(
    s: Seq<ImWchar>,
    orig: Seq<(ImWchar, ImWchar)>,
    sorted: Seq<(ImWchar, ImWchar)>,
    perm: Seq<int>,
    inv: Seq<int>,
    k: int,
)
    requires
        sorted_permutation(sorted, orig, perm, inv),
        orig == ranges_of(s),
        glyph_header_ok(s),
        glyphs_ok(s),
        pairs_ordered(s),
        forall|x: int, y: int| 0 <= x <= y < sorted.len() ==> (#[trigger] sorted[x]).0 <= (#[trigger] sorted[y]).0,
        0 <= k,
        k + 1 < sorted.len(),
        sorted[k].1 >= sorted[k + 1].0,
        forall|a: int, b: int| 0 <= a < b <= k ==> (#[trigger] sorted[a]).1 < (#[trigger] sorted[b]).0,
    ensures
        glyph_error_matches(s, GlyphRangeError::Overlap { first: sorted[k], second: sorted[k + 1] }),
        !glyph_ranges_valid(s),
{
    let i = perm[k];
    let j = perm[k + 1];
    assert(orig[i] == sorted[k] && orig[j] == sorted[k + 1]);
    assert(i != j);
    assert(sorted[k].0 <= sorted[k + 1].0);
    assert(ranges_of(s)[i] == sorted[k] && ranges_of(s)[j] == sorted[k + 1]);
    assert(ranges_overlap(orig[i], orig[j]));
    assert(sorted_arrangement(sorted, orig));
    assert forall|x: int| 0 <= x < k implies (#[trigger] sorted[x]).1 < sorted[x + 1].0 by {
        assert(sorted[x].1 < sorted[x + 1].0);
    }
    assert(first_neighbour_overlap(sorted, k));
}

/// Checks that `slice` is a glyph range list that `FontGlyphRanges::from_slice`
/// accepts, and reports the first problem found otherwise.
pub fn validate_glyph_ranges(slice: &[ImWchar]) -> (r: Result<(), GlyphRangeError>)
    ensures
        r is Ok <==> glyph_ranges_valid(slice@),
        r matches Err(e) ==> glyph_error_matches(slice@, e),
{
    let n = slice.len();
    if n % 2 != 1 {
        return Err(GlyphRangeError::EvenLength);
    }
    if slice[n - 1] != 0 {
        return Err(GlyphRangeError::NotZeroTerminated);
    }
    let mut i: usize = 0;
    while i < n - 1
        invariant
            n == slice@.len(),
            glyph_header_ok(slice@),
            i <= n - 1,
            forall|j: int| 0 <= j < i ==> glyph_ok(#[trigger] slice@[j]),
        decreases n - 1 - i,
    {
        let glyph = slice[i];
        if glyph == 0 {
            return Err(GlyphRangeError::ZeroGlyph { index: i });
        }
        if glyph > MAX_CODEPOINT {
            return Err(GlyphRangeError::GlyphTooLarge { glyph, index: i });
        }
        i = i + 1;
    }
    let mut ranges: Vec<(ImWchar, ImWchar)> = Vec::new();
    let mut k: usize = 0;
    while k < n / 2
        invariant
            n == slice@.len(),
            glyph_header_ok(slice@),
            glyphs_ok(slice@),
            k <= n / 2,
            ranges@.len() == k,
            forall|t: int| 0 <= t < k ==> #[trigger] ranges@[t] == ranges_of(slice@)[t],
            forall|t: int| 0 <= t < k ==> #[trigger] slice@[2 * t] <= slice@[2 * t + 1],
        decreases n / 2 - k,
    {
        let start = slice[2 * k];
        let end = slice[2 * k + 1];
        if start > end {
            return Err(GlyphRangeError::StartAfterEnd { index: 2 * k, start, end });
        }
        ranges.push((start, end));
        k = k + 1;
    }
    assert(ranges@ =~= ranges_of(slice@));
    if ranges.len() == 0 {
        return Ok(());
    }
    let ghost orig = ranges@;
    let (sorted, Ghost(perm), Ghost(inv)) = sort_by_start(ranges);
    assert forall|t: int| 0 <= t < sorted@.len() implies (#[trigger] sorted@[t]).0 <= sorted@[t].1 by {
        assert(sorted@[t] == orig[perm[t]]);
        assert(slice@[2 * perm[t]] <= slice@[2 * perm[t] + 1]);
    }
    let len = sorted.len();
    let mut k: usize = 0;
    while k < len - 1
        invariant
            len == sorted@.len(),
            len >= 1,
            k <= len - 1,
            sorted_permutation(sorted@, orig, perm, inv),
            orig == ranges_of(slice@),
            glyph_header_ok(slice@),
            glyphs_ok(slice@),
            pairs_ordered(slice@),
            forall|x: int, y: int| 0 <= x <= y < len ==> (#[trigger] sorted@[x]).0 <= (#[trigger] sorted@[y]).0,
            forall|t: int| 0 <= t < len ==> (#[trigger] sorted@[t]).0 <= sorted@[t].1,
            forall|a: int, b: int| 0 <= a < b <= k ==> (#[trigger] sorted@[a]).1 < (#[trigger] sorted@[b]).0,
        decreases len - 1 - k,
    {
        let a = sorted[k];
        let b = sorted[k + 1];
        if a.1 >= b.0 {
            proof {
                lemma_overlap_reported(slice@, orig, sorted@, perm, inv, k as int);
            }
            return Err(GlyphRangeError::Overlap { first: a, second: b });
        }
        assert forall|x: int, y: int| 0 <= x < y <= k + 1 implies (#[trigger] sorted@[x]).1 < (#[trigger] sorted@[y]).0 by {
            if y == k + 1 && x < k {
                assert(sorted@[x].1 < sorted@[k as int].0);
            }
        }
        k = k + 1;
    }
    assert forall|i: int, j: int|
        0 <= i < orig.len() && 0 <= j < orig.len() && i != j implies !ranges_overlap(#[trigger] orig[i], #[trigger] orig[j]) by {
        let x = inv[i];
        let y = inv[j];
        assert(sorted@[x] == orig[i]);
        assert(sorted@[y] == orig[j]);
        if x < y {
            assert(sorted@[x].1 < sorted@[y].0);
        } else {
            assert(sorted@[y].1 < sorted@[x].0);
        }
    }
    Ok(())
}

impl FontGlyphRanges {
    /// A set of glyph ranges appropriate for use with simplified common Chinese text.
    pub fn chinese_simplified_common() -> (r: FontGlyphRanges)
        ensures
            r@ == GlyphRangeSet::ChineseSimplifiedCommon,
    {
        FontGlyphRanges(FontGlyphRangeData::ChineseSimplifiedCommon)
    }

    /// A set of glyph ranges appropriate for use with Chinese text.
    pub fn chinese_full() -> (r: FontGlyphRanges)
        ensures
            r@ == GlyphRangeSet::ChineseFull,
    {
        FontGlyphRanges(FontGlyphRangeData::ChineseFull)
    }

    /// A set of glyph ranges appropriate for use with Cyrillic text.
    pub fn cyrillic() -> (r: FontGlyphRanges)
        ensures
            r@ == GlyphRangeSet::Cyrillic,
    {
        FontGlyphRanges(FontGlyphRangeData::Cyrillic)
    }

    /// A set of glyph ranges appropriate for use with Japanese text.
    pub fn japanese() -> (r: FontGlyphRanges)
        ensures
            r@ == GlyphRangeSet::Japanese,
    {
        FontGlyphRanges(FontGlyphRangeData::Japanese)
    }

    /// A set of glyph ranges appropriate for use with Korean text.
    pub fn korean() -> (r: FontGlyphRanges)
        ensures
            r@ == GlyphRangeSet::Korean,
    {
        FontGlyphRanges(FontGlyphRangeData::Korean)
    }

    /// A set of glyph ranges appropriate for use with Thai text.
    pub fn thai() -> (r: FontGlyphRanges)
        ensures
            r@ == GlyphRangeSet::Thai,
    {
        FontGlyphRanges(FontGlyphRangeData::Thai)
    }

    /// A set of glyph ranges appropriate for use with Vietnamese text.
    pub fn vietnamese() -> (r: FontGlyphRanges)
        ensures
            r@ == GlyphRangeSet::Vietnamese,
    {
        FontGlyphRanges(FontGlyphRangeData::Vietnamese)
    }

    /// Creates a glyph range from a static slice. The expected format is a series of pairs of
    /// non-zero codepoints, each representing an inclusive range, followed by a single
    /// zero terminating the range. The ranges must not overlap.
    ///
    /// As the slice is expected to last as long as a font is used, and is written into global
    /// state, it must be `'static`. `validate_glyph_ranges` tells which slices are accepted.
    pub fn from_slice(slice: &'static [ImWchar]) -> (r: FontGlyphRanges)
        requires
            glyph_ranges_valid(slice@),
        ensures
            r@ == GlyphRangeSet::Custom(slice@),
    {
        FontGlyphRanges::from_slice_unchecked(slice)
    }

    /// Creates a glyph range from a static slice without checking its validity.
    ///
    /// See [`FontGlyphRanges::from_slice`] for more information; the caller guarantees
    /// that the slice contents are valid.
    pub fn from_slice_unchecked(slice: &'static [ImWchar]) -> (r: FontGlyphRanges)
        requires
            glyph_ranges_valid(slice@),
        ensures
            r@ == GlyphRangeSet::Custom(slice@),
    {
        FontGlyphRanges(FontGlyphRangeData::Custom(slice))
    }
}

impl Default for FontGlyphRanges {
    /// The default set of glyph ranges used by imgui.
    fn default() -> (r: Self)
        ensures
            r@ == GlyphRangeSet::Default,
    {
        FontGlyphRanges(FontGlyphRangeData::Default)
    }
}

} // verus!
