//! Character-level text operations with their meaning stated over `Seq<char>`:
//! trimming, searching, splitting, joining and line splitting.
use vstd::prelude::*;

verus! {

/// Unicode `White_Space`, the set that `char::is_whitespace` tests.
pub open spec fn is_whitespace(c: char) -> bool {
    let u = c as u32;
    ||| 0x09 <= u <= 0x0D
    ||| u == 0x20
    ||| u == 0x85
    ||| u == 0xA0
    ||| u == 0x1680
    ||| 0x2000 <= u <= 0x200A
    ||| u == 0x2028
    ||| u == 0x2029
    ||| u == 0x202F
    ||| u == 0x205F
    ||| u == 0x3000
}

/// `s` without its leading whitespace.
pub open spec fn trim_start(s: Seq<char>) -> Seq<char>
    decreases s.len(),
{
    if s.len() > 0 && is_whitespace(s[0]) {
        trim_start(s.drop_first())
    } else {
        s
    }
}

/// `s` without its trailing whitespace.
pub open spec fn trim_end(s: Seq<char>) -> Seq<char>
    decreases s.len(),
{
    if s.len() > 0 && is_whitespace(s.last()) {
        trim_end(s.drop_last())
    } else {
        s
    }
}

/// `s` without leading and trailing whitespace.
pub open spec fn trim(s: Seq<char>) -> Seq<char> {
    trim_end(trim_start(s))
}

/// `s` without every trailing `c`.
pub open spec fn trim_end_matches(s: Seq<char>, c: char) -> Seq<char>
    decreases s.len(),
{
    if s.len() > 0 && s.last() == c {
        trim_end_matches(s.drop_last(), c)
    } else {
        s
    }
}

/// `s` begins with `p`.
pub open spec fn starts_with(s: Seq<char>, p: Seq<char>) -> bool {
    p.len() <= s.len() && s.take(p.len() as int) == p
}

/// `p` occurs in `s` at some position.
pub open spec fn contains(s: Seq<char>, p: Seq<char>) -> bool {
    exists|i: int| 0 <= i && i + p.len() <= s.len() && #[trigger] s.subrange(i, i + p.len()) == p
}

/// How many times `c` occurs in `s`.
pub open spec fn count_char(s: Seq<char>, c: char) -> nat
    decreases s.len(),
{
    if s.len() == 0 {
        0
    } else {
        count_char(s.drop_last(), c) + if s.last() == c {
            1nat
        } else {
            0nat
        }
    }
}

/// `i` is the first position of `c` in `s`.
pub open spec fn is_first_index(s: Seq<char>, c: char, i: int) -> bool {
    0 <= i < s.len() && s[i] == c && forall|j: int| 0 <= j < i ==> s[j] != c
}

/// `i` is the last position of `c` in `s`.
pub open spec fn is_last_index(s: Seq<char>, c: char, i: int) -> bool {
    0 <= i < s.len() && s[i] == c && forall|j: int| i < j < s.len() ==> s[j] != c
}

/// The first position of `c` in `s`, if any.
pub open spec fn find_char(s: Seq<char>, c: char) -> Option<int> {
    if exists|i: int| is_first_index(s, c, i) {
        Some(choose|i: int| is_first_index(s, c, i))
    } else {
        None
    }
}

/// The last position of `c` in `s`, if any.
pub open spec fn rfind_char(s: Seq<char>, c: char) -> Option<int> {
    if exists|i: int| is_last_index(s, c, i) {
        Some(choose|i: int| is_last_index(s, c, i))
    } else {
        None
    }
}

/// The pieces of `s` between the occurrences of `c` (there is always at least one).
pub open spec fn split_char(s: Seq<char>, c: char) -> Seq<Seq<char>>
    decreases s.len(),
{
    if s.len() == 0 {
        seq![Seq::<char>::empty()]
    } else {
        let prev = split_char(s.drop_last(), c);
        if s.last() == c {
            prev.push(Seq::<char>::empty())
        } else {
            prev.update(prev.len() - 1, prev.last().push(s.last()))
        }
    }
}

/// The pieces concatenated with `sep` between each two.
pub open spec fn join(parts: Seq<Seq<char>>, sep: Seq<char>) -> Seq<char>
    decreases parts.len(),
{
    if parts.len() == 0 {
        Seq::<char>::empty()
    } else if parts.len() == 1 {
        parts[0]
    } else {
        join(parts.drop_last(), sep) + sep + parts.last()
    }
}

/// A line without the carriage return that ended it, if any.
pub open spec fn strip_cr(s: Seq<char>) -> Seq<char> {
    if s.len() > 0 && s.last() == '\r' {
        s.drop_last()
    } else {
        s
    }
}

/// The lines of a text: split at `\n`, each terminated line without a trailing
/// `\r`, and no empty line after a final line ending.
pub open spec fn lines_of(s: Seq<char>) -> Seq<Seq<char>> {
    let pieces = split_char(s, '\n');
    let ended = pieces.drop_last().map_values(|l: Seq<char>| strip_cr(l));
    if pieces.last().len() == 0 {
        ended
    } else {
        ended.push(pieces.last())
    }
}

pub proof fn lemma_split_char_nonempty(s: Seq<char>, c: char)
    ensures
        split_char(s, c).len() >= 1,
    decreases s.len(),
{
    if s.len() > 0 {
        lemma_split_char_nonempty(s.drop_last(), c);
    }
}

/// Whether two texts are equal.
pub(crate) fn str_eq(a: &str, b: &str) -> (r: bool)
    ensures
        r == (a@ == b@),
{
    let x = chars_of(a);
    let y = chars_of(b);
    if x.len() != y.len() {
        return false;
    }
    let mut k: usize = 0;
    while k < x.len()
        invariant
            x@ == a@,
            y@ == b@,
            x@.len() == y@.len(),
            k <= x@.len(),
            forall|t: int| 0 <= t < k ==> x@[t] == y@[t],
        decreases x@.len() - k,
    {
        if x[k] != y[k] {
            return false;
        }
        k = k + 1;
    }
    assert(x@ =~= y@);
    true
}

/// The first position in `lo..hi` where `p` holds.
pub open spec fn first_match(lo: int, hi: int, p: spec_fn(int) -> bool) -> Option<int>
    decreases hi - lo,
{
    if lo >= hi {
        None
    } else if p(lo) {
        Some(lo)
    } else {
        first_match(lo + 1, hi, p)
    }
}

/// The last position in `lo..hi` where `p` holds.
pub open spec fn last_match(lo: int, hi: int, p: spec_fn(int) -> bool) -> Option<int>
    decreases hi - lo,
{
    if lo >= hi {
        None
    } else if p(hi - 1) {
        Some(hi - 1)
    } else {
        last_match(lo, hi - 1, p)
    }
}

pub proof fn lemma_join_extend_last(ps: Seq<Seq<char>>, sep: Seq<char>, x: char)
    requires
        ps.len() >= 1,
    ensures
        join(ps.update(ps.len() - 1, ps.last().push(x)), sep) == join(ps, sep).push(x),
{
    let qs = ps.update(ps.len() - 1, ps.last().push(x));
    if ps.len() > 1 {
        assert(qs.drop_last() =~= ps.drop_last());
        assert(join(qs, sep) =~= join(ps, sep).push(x));
    }
}

/// Joining the pieces of `s` between the occurrences of `c` with `c` gives `s` back.
pub proof fn lemma_join_split(s: Seq<char>, c: char)
    ensures
        join(split_char(s, c), seq![c]) == s,
    decreases s.len(),
{
    if s.len() == 0 {
        assert(join(split_char(s, c), seq![c]) =~= s);
    } else {
        let prev = split_char(s.drop_last(), c);
        lemma_join_split(s.drop_last(), c);
        lemma_split_char_nonempty(s.drop_last(), c);
        if s.last() == c {
            let ps = prev.push(Seq::<char>::empty());
            assert(ps.drop_last() =~= prev);
            assert(join(ps, seq![c]) =~= s);
        } else {
            lemma_join_extend_last(prev, seq![c], s.last());
            assert(s.drop_last().push(s.last()) =~= s);
        }
    }
}

/// A character that `s` does not hold is in none of its pieces.
pub proof fn lemma_split_pieces_avoid(s: Seq<char>, c: char, d: char)
    requires
        forall|i: int| 0 <= i < s.len() ==> s[i] != d,
    ensures
        forall|j: int, k: int|
            0 <= j < split_char(s, c).len() && 0 <= k < split_char(s, c)[j].len()
                ==> #[trigger] split_char(s, c)[j][k] != d,
    decreases s.len(),
{
    if s.len() > 0 {
        lemma_split_pieces_avoid(s.drop_last(), c, d);
        lemma_split_char_nonempty(s.drop_last(), c);
        let prev = split_char(s.drop_last(), c);
        assert forall|j: int, k: int|
            0 <= j < split_char(s, c).len() && 0 <= k < split_char(s, c)[j].len()
                implies #[trigger] split_char(s, c)[j][k] != d by {
            if j < prev.len() && !(s.last() != c && j == prev.len() - 1) {
                assert(split_char(s, c)[j] == prev[j]);
                assert(prev[j][k] != d);
            } else if s.last() != c && j == prev.len() - 1 {
                if k < prev.last().len() {
                    assert(prev[j][k] != d);
                } else {
                    assert(s[s.len() - 1] != d);
                }
            }
        }
    }
}

pub proof fn lemma_find_char_at(s: Seq<char>, c: char, i: int)
    requires
        is_first_index(s, c, i),
    ensures
        find_char(s, c) == Some(i),
{
    let w = choose|k: int| is_first_index(s, c, k);
    assert(is_first_index(s, c, w));
    if w < i {
        assert(s[w] != c);
    }
    if i < w {
        assert(s[i] != c);
    }
}

pub proof fn lemma_rfind_char_at(s: Seq<char>, c: char, i: int)
    requires
        is_last_index(s, c, i),
    ensures
        rfind_char(s, c) == Some(i),
{
    let w = choose|k: int| is_last_index(s, c, k);
    assert(is_last_index(s, c, w));
    if w < i {
        assert(s[i] != c);
    }
    if i < w {
        assert(s[w] != c);
    }
}

/// A text that does not hold `c` splits into itself alone.
pub proof fn lemma_split_free(s: Seq<char>, c: char)
    requires
        forall|i: int| 0 <= i < s.len() ==> s[i] != c,
    ensures
        split_char(s, c) == seq![s],
    decreases s.len(),
{
    if s.len() > 0 {
        lemma_split_free(s.drop_last(), c);
        assert(s.drop_last().push(s.last()) =~= s);
        assert(split_char(s, c) =~= seq![s]);
    } else {
        assert(s =~= Seq::<char>::empty());
        assert(split_char(s, c) =~= seq![s]);
    }
}

/// Appending text without `c` extends the last piece.
pub proof fn lemma_split_append_free(x: Seq<char>, b: Seq<char>, c: char)
    requires
        forall|i: int| 0 <= i < b.len() ==> b[i] != c,
    ensures
        split_char(x + b, c) == split_char(x, c).update(
            split_char(x, c).len() - 1,
            split_char(x, c).last() + b,
        ),
    decreases b.len(),
{
    lemma_split_char_nonempty(x, c);
    if b.len() == 0 {
        assert(x + b =~= x);
        assert(split_char(x, c).last() + b =~= split_char(x, c).last());
        assert(split_char(x, c).update(split_char(x, c).len() - 1, split_char(x, c).last() + b)
            =~= split_char(x, c));
    } else {
        let b2 = b.drop_last();
        lemma_split_append_free(x, b2, c);
        assert((x + b).drop_last() =~= x + b2);
        assert((x + b).last() == b.last());
        lemma_split_char_nonempty(x + b2, c);
        assert(forall|i: int| 0 <= i < b2.len() ==> b2[i] == b[i]);
        assert(b.last() != c);
        assert((split_char(x, c).last() + b2).push(b.last()) =~= split_char(x, c).last() + b);
        assert(split_char(x + b, c) =~= split_char(x, c).update(
            split_char(x, c).len() - 1,
            split_char(x, c).last() + b,
        ));
    }
}

/// Appending `c` starts a new, empty piece.
pub proof fn lemma_split_append_sep(x: Seq<char>, c: char)
    ensures
        split_char(x.push(c), c) == split_char(x, c).push(Seq::<char>::empty()),
{
    assert(x.push(c).drop_last() =~= x);
}

/// `trim_end` keeps a prefix.
pub proof fn lemma_trim_end_prefix(s: Seq<char>)
    ensures
        trim_end(s).len() <= s.len(),
        trim_end(s) == s.take(trim_end(s).len() as int),
        trim_end(s).len() > 0 ==> !is_whitespace(trim_end(s).last()),
    decreases s.len(),
{
    if s.len() > 0 && is_whitespace(s.last()) {
        lemma_trim_end_prefix(s.drop_last());
        assert(s.drop_last().take(trim_end(s).len() as int) =~= s.take(trim_end(s).len() as int));
    } else {
        assert(s.take(s.len() as int) =~= s);
    }
}

/// `trim_start` keeps a suffix.
pub proof fn lemma_trim_start_suffix(s: Seq<char>)
    ensures
        trim_start(s).len() <= s.len(),
        trim_start(s) == s.skip(s.len() - trim_start(s).len()),
        trim_start(s).len() > 0 ==> !is_whitespace(trim_start(s)[0]),
    decreases s.len(),
{
    if s.len() > 0 && is_whitespace(s[0]) {
        lemma_trim_start_suffix(s.drop_first());
        assert(s.drop_first().skip(s.drop_first().len() - trim_start(s).len()) =~= s.skip(
            s.len() - trim_start(s).len(),
        ));
    } else {
        assert(s.skip(0) =~= s);
    }
}

/// A trimmed text is its own trim.
pub proof fn lemma_trim_idempotent(s: Seq<char>)
    ensures
        trim(trim(s)) == trim(s),
{
    let z = trim_start(s);
    let y = trim_end(z);
    lemma_trim_start_suffix(s);
    lemma_trim_end_prefix(z);
    if y.len() > 0 {
        assert(y[0] == z[0]);
    }
    assert(trim_start(y) == y);
    assert(trim_end(y) == y);
}

/// A trimmed text gains nothing from a leading space.
pub proof fn lemma_trim_leading_space(k: Seq<char>)
    requires
        trim(k) == k,
    ensures
        trim(seq![' '] + k) == k,
{
    let s = seq![' '] + k;
    assert(is_whitespace(' '));
    assert(s.drop_first() =~= k);
    assert(trim_start(s) == trim_start(k));
    lemma_trim_idempotent(k);
    lemma_trim_start_suffix(trim_end(trim_start(k)));
    lemma_trim_end_prefix(trim_start(k));
    lemma_trim_start_suffix(k);
    lemma_trim_end_prefix(k);
    if k.len() > 0 {
        assert(!is_whitespace(k[0])) by {
            lemma_trim_start_suffix(trim_start(k));
            assert(trim_start(k) == k.skip(k.len() - trim_start(k).len()));
            assert(trim_end(trim_start(k)) == trim_start(k).take(k.len() as int));
        }
    }
    assert(trim_start(k) == k);
}

/// A character that a text does not hold is not in its trim either.
pub proof fn lemma_trim_avoids(s: Seq<char>, d: char)
    requires
        forall|i: int| 0 <= i < s.len() ==> s[i] != d,
    ensures
        forall|i: int| 0 <= i < trim(s).len() ==> trim(s)[i] != d,
{
    let z = trim_start(s);
    lemma_trim_start_suffix(s);
    lemma_trim_end_prefix(z);
    assert forall|i: int| 0 <= i < trim(s).len() implies trim(s)[i] != d by {
        assert(trim(s)[i] == z[i]);
        assert(z[i] == s[s.len() - z.len() + i]);
    }
}

/// No piece of a split holds the separator.
pub proof fn lemma_split_pieces_lack_sep(s: Seq<char>, c: char)
    ensures
        forall|j: int, k: int|
            0 <= j < split_char(s, c).len() && 0 <= k < split_char(s, c)[j].len()
                ==> #[trigger] split_char(s, c)[j][k] != c,
    decreases s.len(),
{
    if s.len() > 0 {
        lemma_split_pieces_lack_sep(s.drop_last(), c);
        lemma_split_char_nonempty(s.drop_last(), c);
        let prev = split_char(s.drop_last(), c);
        assert forall|j: int, k: int|
            0 <= j < split_char(s, c).len() && 0 <= k < split_char(s, c)[j].len()
                implies #[trigger] split_char(s, c)[j][k] != c by {
            if j < prev.len() && !(s.last() != c && j == prev.len() - 1) {
                assert(split_char(s, c)[j] == prev[j]);
                assert(prev[j][k] != c);
            } else if s.last() != c && j == prev.len() - 1 {
                if k < prev.last().len() {
                    assert(prev[j][k] != c);
                }
            }
        }
    }
}

/// Filtering by two conditions gives the same in either order.
pub proof fn lemma_filter_commute(
    s: Seq<Seq<char>>,
    p: spec_fn(Seq<char>) -> bool,
    q: spec_fn(Seq<char>) -> bool,
)
    ensures
        s.filter(p).filter(q) == s.filter(q).filter(p),
    decreases s.len(),
{
    reveal_with_fuel(Seq::filter, 1);
    if s.len() > 0 {
        lemma_filter_commute(s.drop_last(), p, q);
        let x = s.last();
        let a = s.drop_last().filter(p);
        let b = s.drop_last().filter(q);
        assert(a.push(x).drop_last() =~= a);
        assert(b.push(x).drop_last() =~= b);
        assert(a.push(x).last() == x);
        assert(b.push(x).last() == x);
    } else {
        assert(s.filter(p) =~= s);
        assert(s.filter(q) =~= s);
    }
}

/// What holds of every element holds of every element kept by a filter.
pub proof fn lemma_filter_keeps(
    s: Seq<Seq<char>>,
    p: spec_fn(Seq<char>) -> bool,
    q: spec_fn(Seq<char>) -> bool,
)
    requires
        forall|i: int| 0 <= i < s.len() ==> #[trigger] q(s[i]),
    ensures
        forall|i: int| 0 <= i < s.filter(p).len() ==> #[trigger] q(s.filter(p)[i]),
    decreases s.len(),
{
    reveal_with_fuel(Seq::filter, 1);
    if s.len() > 0 {
        let a = s.drop_last();
        assert forall|i: int| 0 <= i < a.len() implies #[trigger] q(a[i]) by {
            assert(a[i] == s[i]);
        }
        lemma_filter_keeps(a, p, q);
        assert forall|i: int| 0 <= i < s.filter(p).len() implies #[trigger] q(s.filter(p)[i]) by {
            if i < a.filter(p).len() {
                assert(s.filter(p)[i] == a.filter(p)[i]);
            } else {
                assert(s.filter(p)[i] == s[s.len() - 1]);
            }
        }
    }
}

/// A position that `first_match` finds lies in the range and satisfies the condition.
pub proof fn lemma_first_match_found(lo: int, hi: int, p: spec_fn(int) -> bool)
    ensures
        first_match(lo, hi, p) matches Some(i) ==> lo <= i < hi && p(i),
    decreases hi - lo,
{
    if lo < hi && !p(lo) {
        lemma_first_match_found(lo + 1, hi, p);
    }
}

/// A position that `last_match` finds lies in the range and satisfies the condition.
pub proof fn lemma_last_match_found(lo: int, hi: int, p: spec_fn(int) -> bool)
    ensures
        last_match(lo, hi, p) matches Some(i) ==> lo <= i < hi && p(i),
    decreases hi - lo,
{
    if lo < hi && !p(hi - 1) {
        lemma_last_match_found(lo, hi - 1, p);
    }
}

/// `first_match` finds something when some position in the range satisfies the condition.
pub proof fn lemma_first_match_exists(lo: int, hi: int, p: spec_fn(int) -> bool, k: int)
    requires
        lo <= k < hi,
        p(k),
    ensures
        first_match(lo, hi, p) is Some,
    decreases k - lo,
{
    if !p(lo) {
        lemma_first_match_exists(lo + 1, hi, p, k);
    }
}

/// Joined pieces begin with the first piece.
pub proof fn lemma_join_starts_with_first(ps: Seq<Seq<char>>, sep: Seq<char>)
    requires
        ps.len() >= 1,
    ensures
        starts_with(join(ps, sep), ps[0]),
    decreases ps.len(),
{
    if ps.len() == 1 {
        assert(join(ps, sep).take(ps[0].len() as int) =~= ps[0]);
    } else {
        lemma_join_starts_with_first(ps.drop_last(), sep);
        let j = join(ps.drop_last(), sep);
        assert(join(ps, sep) == j + sep + ps.last());
        assert((j + sep + ps.last()).take(ps[0].len() as int) =~= j.take(ps[0].len() as int));
    }
}

/// `p` found at position `i` of `s`.
pub proof fn lemma_contains_at(s: Seq<char>, p: Seq<char>, i: int)
    requires
        0 <= i,
        i + p.len() <= s.len(),
        s.subrange(i, i + p.len()) =~= p,
    ensures
        contains(s, p),
{
    assert(s.subrange(i, i + p.len()) == p);
}

/// A text within a text within `a` is within `a`.
pub proof fn lemma_contains_trans(a: Seq<char>, b: Seq<char>, w: Seq<char>)
    requires
        contains(a, b),
        contains(b, w),
    ensures
        contains(a, w),
{
    let i = choose|i: int| 0 <= i && i + b.len() <= a.len() && #[trigger] a.subrange(i, i + b.len()) == b;
    let j = choose|j: int| 0 <= j && j + w.len() <= b.len() && #[trigger] b.subrange(j, j + w.len()) == w;
    assert(a.subrange(i + j, i + j + w.len()) =~= b.subrange(j, j + w.len()));
    lemma_contains_at(a, w, i + j);
}

/// Each piece of a split lies within the text, and the last one ends it.
pub proof fn lemma_split_pieces_within(s: Seq<char>, c: char)
    ensures
        forall|j: int| 0 <= j < split_char(s, c).len() ==> contains(s, #[trigger] split_char(s, c)[j]),
        split_char(s, c).last() == s.skip(s.len() - split_char(s, c).last().len()),
    decreases s.len(),
{
    lemma_split_char_nonempty(s, c);
    if s.len() == 0 {
        lemma_contains_at(s, Seq::<char>::empty(), 0);
        assert(s.skip(0) =~= Seq::<char>::empty());
    } else {
        let t = s.drop_last();
        lemma_split_pieces_within(t, c);
        lemma_split_char_nonempty(t, c);
        let prev = split_char(t, c);
        lemma_contains_at(s, t, 0);
        let ps = split_char(s, c);
        assert forall|j: int| 0 <= j < ps.len() implies contains(s, #[trigger] ps[j]) by {
            if j < prev.len() - 1 || (j == prev.len() - 1 && s.last() == c) {
                assert(ps[j] == prev[j]);
                lemma_contains_trans(s, t, prev[j]);
            } else {
                let l = ps.last();
                assert(j == ps.len() - 1);
                if s.last() == c {
                    lemma_contains_at(s, l, 0);
                } else {
                    assert(l == prev.last().push(s.last()));
                    assert(l =~= s.skip(s.len() - l.len()));
                    lemma_contains_at(s, l, s.len() - l.len());
                }
            }
        }
        if s.last() == c {
            assert(s.skip(s.len() as int) =~= ps.last());
        } else {
            assert(ps.last() =~= s.skip(s.len() - ps.last().len()));
        }
    }
}

/// The trim of a text lies within it.
pub proof fn lemma_trim_within(s: Seq<char>)
    ensures
        contains(s, trim(s)),
{
    let z = trim_start(s);
    lemma_trim_start_suffix(s);
    lemma_trim_end_prefix(z);
    let t = trim(s);
    let off = s.len() - z.len();
    lemma_contains_at(s, t, off);
}

/// A text that holds no `,` and does not begin with a space, found in pieces joined
/// with `", "`, lies within one of the pieces.
pub proof fn lemma_join_comma_within(ps: Seq<Seq<char>>, w: Seq<char>)
    requires
        w.len() > 0,
        w[0] != ' ',
        forall|i: int| 0 <= i < w.len() ==> w[i] != ',',
        contains(join(ps, ", "@), w),
    ensures
        exists|k: int| 0 <= k < ps.len() && contains(#[trigger] ps[k], w),
    decreases ps.len(),
{
    if ps.len() == 1 {
        assert(contains(ps[0], w));
    } else if ps.len() > 1 {
        reveal_strlit(", ");
        let x = join(ps.drop_last(), ", "@);
        let l = ps.last();
        let j = join(ps, ", "@);
        assert(j == x + ", "@ + l);
        let q = choose|q: int| 0 <= q && q + w.len() <= j.len() && #[trigger] j.subrange(q, q + w.len()) == w;
        if q + w.len() <= x.len() {
            assert(x.subrange(q, q + w.len()) =~= j.subrange(q, q + w.len()));
            lemma_contains_at(x, w, q);
            lemma_join_comma_within(ps.drop_last(), w);
            let k = choose|k: int| 0 <= k < ps.drop_last().len() && contains(#[trigger] ps.drop_last()[k], w);
            assert(ps[k] == ps.drop_last()[k]);
        } else if q >= x.len() + 2 {
            let q2 = q - x.len() - 2;
            assert(l.subrange(q2, q2 + w.len()) =~= j.subrange(q, q + w.len()));
            lemma_contains_at(l, w, q2);
            assert(contains(ps[ps.len() - 1], w));
        } else if q == x.len() + 1 {
            assert(w[0] == j[q]);
        } else {
            assert(w[x.len() - q] == j[x.len() as int]);
        }
    }
}

/// The characters of `s`.
pub(crate) fn chars_of(s: &str) -> (v: Vec<char>)
    ensures
        v@ == s@,
{
    let mut v: Vec<char> = Vec::new();
    for c in it: s.chars()
        invariant
            it.seq() == s@,
            v@ == it.seq().take(it.index() as int),
    {
        v.push(c);
    }
    v
}

/// Whether `c` is whitespace, as `char::is_whitespace` answers.
pub(crate) fn is_whitespace_char(c: char) -> (r: bool)
    ensures
        r == is_whitespace(c),
{
    let u = c as u32;
    (0x09 <= u && u <= 0x0D) || u == 0x20 || u == 0x85 || u == 0xA0 || u == 0x1680 || (0x2000 <= u
        && u <= 0x200A) || u == 0x2028 || u == 0x2029 || u == 0x202F || u == 0x205F || u == 0x3000
}

/// Where the text `cs[lo..hi]` starts once its leading whitespace is removed.
pub(crate) fn trim_start_index(cs: &Vec<char>, lo: usize, hi: usize) -> (i: usize)
    requires
        lo <= hi <= cs@.len(),
    ensures
        lo <= i <= hi,
        cs@.subrange(i as int, hi as int) == trim_start(cs@.subrange(lo as int, hi as int)),
{
    let mut i = lo;
    while i < hi && is_whitespace_char(cs[i])
        invariant
            lo <= i <= hi <= cs@.len(),
            trim_start(cs@.subrange(i as int, hi as int)) == trim_start(
                cs@.subrange(lo as int, hi as int),
            ),
        decreases hi - i,
    {
        assert(cs@.subrange(i as int, hi as int).drop_first() =~= cs@.subrange(i + 1, hi as int));
        i = i + 1;
    }
    i
}

/// Where the text `cs[lo..hi]` ends once its trailing whitespace is removed.
pub(crate) fn trim_end_index(cs: &Vec<char>, lo: usize, hi: usize) -> (j: usize)
    requires
        lo <= hi <= cs@.len(),
    ensures
        lo <= j <= hi,
        cs@.subrange(lo as int, j as int) == trim_end(cs@.subrange(lo as int, hi as int)),
{
    let mut j = hi;
    while j > lo && is_whitespace_char(cs[j - 1])
        invariant
            lo <= j <= hi <= cs@.len(),
            trim_end(cs@.subrange(lo as int, j as int)) == trim_end(
                cs@.subrange(lo as int, hi as int),
            ),
        decreases j - lo,
    {
        assert(cs@.subrange(lo as int, j as int).drop_last() =~= cs@.subrange(lo as int, j - 1));
        j = j - 1;
    }
    j
}

/// The bounds of `cs[lo..hi]` once leading and trailing whitespace are removed.
pub(crate) fn trim_range(cs: &Vec<char>, lo: usize, hi: usize) -> (r: (usize, usize))
    requires
        lo <= hi <= cs@.len(),
    ensures
        lo <= r.0 <= r.1 <= hi,
        cs@.subrange(r.0 as int, r.1 as int) == trim(cs@.subrange(lo as int, hi as int)),
{
    let a = trim_start_index(cs, lo, hi);
    let b = trim_end_index(cs, a, hi);
    (a, b)
}

/// `s` without leading and trailing whitespace, as `str::trim` gives it.
pub(crate) fn trim_str(s: &str) -> (r: String)
    ensures
        r@ == trim(s@),
{
    let cs = chars_of(s);
    let (a, b) = trim_range(&cs, 0, cs.len());
    assert(cs@.subrange(0, cs@.len() as int) =~= cs@);
    s.substring_char(a, b).to_owned()
}

/// Whether `cs[lo..hi]` begins with `p`.
pub(crate) fn starts_with_at(cs: &Vec<char>, lo: usize, hi: usize, p: &Vec<char>) -> (r: bool)
    requires
        lo <= hi <= cs@.len(),
    ensures
        r == starts_with(cs@.subrange(lo as int, hi as int), p@),
{
    if p.len() > hi - lo {
        return false;
    }
    let mut k: usize = 0;
    while k < p.len()
        invariant
            lo + p@.len() <= hi <= cs@.len(),
            k <= p@.len(),
            forall|t: int| 0 <= t < k ==> cs@[lo + t] == p@[t],
        decreases p@.len() - k,
    {
        if cs[lo + k] != p[k] {
            assert(cs@.subrange(lo as int, hi as int).take(p@.len() as int)[k as int] != p@[k as int]);
            return false;
        }
        k = k + 1;
    }
    assert(cs@.subrange(lo as int, hi as int).take(p@.len() as int) =~= p@);
    true
}

/// Whether `s` begins with `p`.
pub(crate) fn str_starts_with(s: &str, p: &str) -> (r: bool)
    ensures
        r == starts_with(s@, p@),
{
    let cs = chars_of(s);
    let ps = chars_of(p);
    assert(cs@.subrange(0, cs@.len() as int) =~= cs@);
    starts_with_at(&cs, 0, cs.len(), &ps)
}

/// Whether `p` occurs in `s`.
pub(crate) fn str_contains(s: &str, p: &str) -> (r: bool)
    ensures
        r == contains(s@, p@),
{
    let cs = chars_of(s);
    let ps = chars_of(p);
    if ps.len() == 0 {
        assert(s@.subrange(0int, 0int + p@.len()) =~= p@);
        return true;
    }
    if ps.len() > cs.len() {
        return false;
    }
    let last = cs.len() - ps.len();
    let mut i: usize = 0;
    while i <= last
        invariant
            cs@ == s@,
            ps@ == p@,
            ps@.len() >= 1,
            last + ps@.len() == cs@.len(),
            cs@.len() <= usize::MAX,
            forall|t: int| 0 <= t < i ==> #[trigger] cs@.subrange(t, t + ps@.len()) != ps@,
        decreases cs@.len() - i,
    {
        if starts_with_at(&cs, i, cs.len(), &ps) {
            assert(cs@.subrange(i as int, cs@.len() as int).take(ps@.len() as int) =~= cs@.subrange(
                i as int,
                i + ps@.len(),
            ));
            return true;
        }
        assert(cs@.subrange(i as int, cs@.len() as int).take(ps@.len() as int) =~= cs@.subrange(
            i as int,
            i + ps@.len(),
        ));
        i = i + 1;
    }
    false
}

/// How many times `c` occurs in `s`.
pub(crate) fn count_char_in(s: &str, c: char) -> (r: usize)
    ensures
        r == count_char(s@, c),
{
    let cs = chars_of(s);
    let mut n: usize = 0;
    let mut i: usize = 0;
    while i < cs.len()
        invariant
            cs@ == s@,
            i <= cs@.len(),
            n == count_char(cs@.take(i as int), c),
            n <= i,
        decreases cs@.len() - i,
    {
        assert(cs@.take(i + 1).drop_last() =~= cs@.take(i as int));
        if cs[i] == c {
            n = n + 1;
        }
        i = i + 1;
    }
    assert(cs@.take(cs@.len() as int) =~= cs@);
    n
}

/// The first position of `c` in `cs[lo..hi]`, counted from the start of `cs`.
pub(crate) fn find_char_in(cs: &Vec<char>, lo: usize, hi: usize, c: char) -> (r: Option<usize>)
    requires
        lo <= hi <= cs@.len(),
    ensures
        r matches Some(i) ==> lo <= i < hi && find_char(cs@.subrange(lo as int, hi as int), c) == Some(
            i - lo,
        ),
        r is None ==> find_char(cs@.subrange(lo as int, hi as int), c) is None,
{
    let ghost sub = cs@.subrange(lo as int, hi as int);
    let mut i: usize = lo;
    while i < hi
        invariant
            lo <= i <= hi <= cs@.len(),
            sub == cs@.subrange(lo as int, hi as int),
            forall|j: int| lo <= j < i ==> cs@[j] != c,
        decreases hi - i,
    {
        if cs[i] == c {
            assert forall|j: int| 0 <= j < i - lo implies sub[j] != c by {
                assert(sub[j] == cs@[lo + j]);
            }
            assert(is_first_index(sub, c, i - lo));
            let ghost w = choose|k: int| is_first_index(sub, c, k);
            assert(w == i - lo);
            return Some(i);
        }
        i = i + 1;
    }
    assert forall|k: int| !is_first_index(sub, c, k) by {
        if 0 <= k < sub.len() {
            assert(sub[k] == cs@[lo + k]);
        }
    }
    None
}

/// The last position of `c` in `cs[lo..hi]`, counted from the start of `cs`.
pub(crate) fn rfind_char_in(cs: &Vec<char>, lo: usize, hi: usize, c: char) -> (r: Option<usize>)
    requires
        lo <= hi <= cs@.len(),
    ensures
        r matches Some(i) ==> lo <= i < hi && rfind_char(cs@.subrange(lo as int, hi as int), c)
            == Some(i - lo),
        r is None ==> rfind_char(cs@.subrange(lo as int, hi as int), c) is None,
{
    let ghost sub = cs@.subrange(lo as int, hi as int);
    let mut i: usize = hi;
    while i > lo
        invariant
            lo <= i <= hi <= cs@.len(),
            sub == cs@.subrange(lo as int, hi as int),
            forall|j: int| i <= j < hi ==> cs@[j] != c,
        decreases i - lo,
    {
        if cs[i - 1] == c {
            assert forall|j: int| i - 1 - lo < j < sub.len() implies sub[j] != c by {
                assert(sub[j] == cs@[lo + j]);
            }
            assert(is_last_index(sub, c, i - 1 - lo));
            let ghost w = choose|k: int| is_last_index(sub, c, k);
            assert(w == i - 1 - lo);
            return Some(i - 1);
        }
        i = i - 1;
    }
    assert forall|k: int| !is_last_index(sub, c, k) by {
        if 0 <= k < sub.len() {
            assert(sub[k] == cs@[lo + k]);
        }
    }
    None
}

/// Where `cs[lo..hi]` ends once every trailing `c` is removed.
pub(crate) fn trim_end_matches_index(cs: &Vec<char>, lo: usize, hi: usize, c: char) -> (j: usize)
    requires
        lo <= hi <= cs@.len(),
    ensures
        lo <= j <= hi,
        cs@.subrange(lo as int, j as int) == trim_end_matches(cs@.subrange(lo as int, hi as int), c),
{
    let mut j = hi;
    while j > lo && cs[j - 1] == c
        invariant
            lo <= j <= hi <= cs@.len(),
            trim_end_matches(cs@.subrange(lo as int, j as int), c) == trim_end_matches(
                cs@.subrange(lo as int, hi as int),
                c,
            ),
        decreases j - lo,
    {
        assert(cs@.subrange(lo as int, j as int).drop_last() =~= cs@.subrange(lo as int, j - 1));
        j = j - 1;
    }
    j
}

/// The pieces of `s` between the occurrences of `c`, as `str::split` gives them.
pub(crate) fn split_str(s: &str, c: char) -> (r: Vec<String>)
    ensures
        r.deep_view() == split_char(s@, c),
{
    let cs = chars_of(s);
    let mut pieces: Vec<String> = Vec::new();
    let mut start: usize = 0;
    let mut i: usize = 0;
    assert(cs@.take(0) =~= Seq::<char>::empty());
    assert(pieces.deep_view().push(cs@.subrange(0, 0)) =~= split_char(cs@.take(0), c));
    while i < cs.len()
        invariant
            cs@ == s@,
            start <= i <= cs@.len(),
            pieces.deep_view().push(cs@.subrange(start as int, i as int)) == split_char(
                cs@.take(i as int),
                c,
            ),
        decreases cs@.len() - i,
    {
        let ghost before = pieces.deep_view();
        assert(cs@.take(i + 1).drop_last() =~= cs@.take(i as int));
        assert(cs@.take(i + 1).last() == cs@[i as int]);
        if cs[i] == c {
            let piece = s.substring_char(start, i).to_owned();
            pieces.push(piece);
            assert(pieces.deep_view() =~= before.push(cs@.subrange(start as int, i as int)));
            assert(cs@.subrange(i + 1, i + 1) =~= Seq::<char>::empty());
            start = i + 1;
            assert(pieces.deep_view().push(cs@.subrange(start as int, i + 1)) =~= split_char(
                cs@.take(i + 1),
                c,
            ));
        } else {
            assert(cs@.subrange(start as int, i as int).push(cs@[i as int]) =~= cs@.subrange(
                start as int,
                i + 1,
            ));
            assert(before.push(cs@.subrange(start as int, i + 1)) =~= split_char(
                cs@.take(i + 1),
                c,
            ));
        }
        i = i + 1;
    }
    let ghost before = pieces.deep_view();
    let piece = s.substring_char(start, i).to_owned();
    pieces.push(piece);
    assert(pieces.deep_view() =~= before.push(cs@.subrange(start as int, i as int)));
    assert(cs@.take(i as int) =~= cs@);
    pieces
}

/// The pieces concatenated with `sep` between each two, as `join` on a slice gives them.
pub(crate) fn join_strs(parts: &Vec<String>, sep: &str) -> (r: String)
    ensures
        r@ == join(parts.deep_view(), sep@),
{
    let mut res = String::new();
    let mut k: usize = 0;
    while k < parts.len()
        invariant
            k <= parts@.len(),
            res@ == join(parts.deep_view().take(k as int), sep@),
        decreases parts@.len() - k,
    {
        assert(parts.deep_view().take(k + 1).drop_last() =~= parts.deep_view().take(k as int));
        if k > 0 {
            res.append(sep);
        }
        res.append(parts[k].as_str());
        if k == 0 {
            assert(res@ =~= join(parts.deep_view().take(1), sep@));
        }
        k = k + 1;
    }
    assert(parts.deep_view().take(parts@.len() as int) =~= parts.deep_view());
    res
}

/// A line without the carriage return that ended it.
pub(crate) fn strip_cr_str(s: &str) -> (r: String)
    ensures
        r@ == strip_cr(s@),
{
    let cs = chars_of(s);
    let n = cs.len();
    if n > 0 && cs[n - 1] == '\r' {
        s.substring_char(0, n - 1).to_owned()
    } else {
        s.to_owned()
    }
}

/// The lines of a text, as `str::lines` gives them.
pub(crate) fn lines_str(text: &str) -> (r: Vec<String>)
    ensures
        r.deep_view() == lines_of(text@),
{
    let pieces = split_str(text, '\n');
    proof {
        lemma_split_char_nonempty(text@, '\n');
    }
    let ghost pv = pieces.deep_view();
    let ghost ended = pv.drop_last().map_values(|l: Seq<char>| strip_cr(l));
    let mut lines: Vec<String> = Vec::new();
    let mut k: usize = 0;
    while k < pieces.len() - 1
        invariant
            pv == pieces.deep_view(),
            pv.len() >= 1,
            ended == pv.drop_last().map_values(|l: Seq<char>| strip_cr(l)),
            k + 1 <= pv.len(),
            lines.deep_view() == ended.take(k as int),
        decreases pv.len() - k,
    {
        let ghost before = lines.deep_view();
        let line = strip_cr_str(pieces[k].as_str());
        assert(line@ == ended[k as int]);
        lines.push(line);
        assert(lines.deep_view() =~= before.push(line@));
        assert(lines.deep_view() =~= ended.take(k + 1));
        k = k + 1;
    }
    assert(ended.take(k as int) =~= ended);
    let last = &pieces[pieces.len() - 1];
    if last.as_str().unicode_len() > 0 {
        let ghost before = lines.deep_view();
        lines.push(last.clone());
        assert(lines.deep_view() =~= before.push(pv.last()));
    }
    lines
}

} // verus!
