//! The `#[derive(...)]` lines of generated bindings: reading and rewriting their lists.
use vstd::prelude::*;
use crate::text::{
    chars_of, find_char, find_char_in, is_first_index, is_last_index, join, join_strs,
    lemma_filter_commute, lemma_filter_keeps, lemma_find_char_at, lemma_rfind_char_at, lemma_split_append_free,
    lemma_split_append_sep, lemma_split_free, lemma_split_pieces_lack_sep, lemma_trim_avoids,
    lemma_trim_idempotent, lemma_trim_leading_space, rfind_char, rfind_char_in, split_char,
    split_str, str_eq, trim, trim_str,
};

verus! {

/// The first `(` and the last `)` of a line, when it has both.
pub open spec fn list_bounds(line: Seq<char>) -> Option<(int, int)> {
    match (find_char(line, '('), rfind_char(line, ')')) {
        (Some(start), Some(end)) => Some((start, end)),
        _ => None,
    }
}

/// Whenever a line has both parentheses, its first `(` comes before its last `)`,
/// so that the text between them can be taken.
pub open spec fn parens_in_order(line: Seq<char>) -> bool {
    match list_bounds(line) {
        Some((start, end)) => start < end,
        None => true,
    }
}

/// The comma-separated pieces between the first `(` and the last `)`, each trimmed.
pub open spec fn list_pieces(line: Seq<char>, start: int, end: int) -> Seq<Seq<char>> {
    split_char(line.subrange(start + 1, end), ',').map_values(|p: Seq<char>| trim(p))
}

/// The items that a derive line lists: the non-empty trimmed pieces between the
/// first `(` and the last `)`, in order; none when a parenthesis is missing.
pub open spec fn derive_items(line: Seq<char>) -> Seq<Seq<char>> {
    match list_bounds(line) {
        Some((start, end)) => list_pieces(line, start, end).filter(|p: Seq<char>| p.len() > 0),
        None => seq![],
    }
}

/// The line with every listed item that is one of `remove` taken out: the text up to
/// the first `(`, the remaining trimmed pieces joined with `", "`, then the text from
/// the last `)`. Unchanged when a parenthesis is missing.
pub open spec fn filtered_line(line: Seq<char>, remove: Seq<Seq<char>>) -> Seq<char> {
    match list_bounds(line) {
        Some((start, end)) => line.take(start + 1) + join(
            list_pieces(line, start, end).filter(|p: Seq<char>| !remove.contains(p)),
            ", "@,
        ) + line.skip(end),
        None => line,
    }
}

/// The trimmed pieces of the list between `start` and `end`.
fn trimmed_pieces(line: &str, start: usize, end: usize) -> (r: Vec<String>)
    requires
        start < end <= line@.len(),
    ensures
        r.deep_view() == list_pieces(line@, start as int, end as int),
{
    let inner = line.substring_char(start + 1, end);
    let pieces = split_str(inner, ',');
    let ghost pv = pieces.deep_view();
    let mut out: Vec<String> = Vec::new();
    let mut k: usize = 0;
    while k < pieces.len()
        invariant
            pv == pieces.deep_view(),
            k <= pv.len(),
            out.deep_view() == pv.take(k as int).map_values(|p: Seq<char>| trim(p)),
        decreases pv.len() - k,
    {
        let ghost before = out.deep_view();
        let t = trim_str(pieces[k].as_str());
        assert(t@ == trim(pv[k as int]));
        out.push(t);
        assert(out.deep_view() =~= before.push(trim(pv[k as int])));
        assert(out.deep_view() =~= pv.take(k + 1).map_values(|p: Seq<char>| trim(p)));
        k = k + 1;
    }
    assert(pv.take(k as int) =~= pv);
    out
}

/// The first `(` and last `)` of a line, when it has both.
fn find_list_bounds(line: &str) -> (r: Option<(usize, usize)>)
    ensures
        match r {
            Some((s, e)) => list_bounds(line@) == Some((s as int, e as int)) && e < line@.len(),
            None => list_bounds(line@) is None,
        },
{
    let cs = chars_of(line);
    let n = cs.len();
    assert(cs@.subrange(0, n as int) =~= cs@);
    match (find_char_in(&cs, 0, n, '('), rfind_char_in(&cs, 0, n, ')')) {
        (Some(s), Some(e)) => Some((s, e)),
        _ => None,
    }
}

/// Whether the parentheses of a line are in order.
pub(crate) fn parens_are_in_order(line: &str) -> (r: bool)
    ensures
        r == parens_in_order(line@),
{
    match find_list_bounds(line) {
        Some((start, end)) => start < end,
        None => true,
    }
}

/// Reads the items of a derive line such as `#[derive(Debug, Copy, Clone)]`.
pub fn parse_derive_traits(line: &str) -> (r: Vec<String>)
    requires
        parens_in_order(line@),
    ensures
        r.deep_view() == derive_items(line@),
{
    match find_list_bounds(line) {
        Some((start, end)) => {
            let pieces = trimmed_pieces(line, start, end);
            let ghost pv = pieces.deep_view();
            let mut items: Vec<String> = Vec::new();
            let mut k: usize = 0;
            while k < pieces.len()
                invariant
                    pv == pieces.deep_view(),
                    k <= pv.len(),
                    items.deep_view() == pv.take(k as int).filter(|p: Seq<char>| p.len() > 0),
                decreases pv.len() - k,
            {
                let ghost before = items.deep_view();
                assert(pv.take(k + 1).drop_last() =~= pv.take(k as int));
                assert(pv.take(k + 1).last() == pv[k as int]);
                reveal_with_fuel(Seq::filter, 1);
                if pieces[k].as_str().unicode_len() > 0 {
                    items.push(pieces[k].clone());
                    assert(items.deep_view() =~= before.push(pv[k as int]));
                }
                k = k + 1;
            }
            assert(pv.take(k as int) =~= pv);
            items
        },
        None => Vec::new(),
    }
}

/// Whether `item` is one of `remove`.
fn is_listed(item: &str, remove: &[&str]) -> (r: bool)
    ensures
        r == remove.deep_view().contains(item@),
{
    let mut k: usize = 0;
    while k < remove.len()
        invariant
            k <= remove@.len(),
            forall|j: int| 0 <= j < k ==> remove.deep_view()[j] != item@,
        decreases remove@.len() - k,
    {
        if str_eq(remove[k], item) {
            assert(remove.deep_view()[k as int] == item@);
            return true;
        }
        k = k + 1;
    }
    false
}

/// Takes the items that are among `remove` out of a derive line.
pub fn filter_derives(line: &str, remove: &[&str]) -> (r: String)
    requires
        parens_in_order(line@),
    ensures
        r@ == filtered_line(line@, remove.deep_view()),
{
    match find_list_bounds(line) {
        Some((start, end)) => {
            let pieces = trimmed_pieces(line, start, end);
            let ghost pv = pieces.deep_view();
            let ghost rv = remove.deep_view();
            let mut kept: Vec<String> = Vec::new();
            let mut k: usize = 0;
            while k < pieces.len()
                invariant
                    pv == pieces.deep_view(),
                    rv == remove.deep_view(),
                    k <= pv.len(),
                    kept.deep_view() == pv.take(k as int).filter(|p: Seq<char>| !rv.contains(p)),
                decreases pv.len() - k,
            {
                let ghost before = kept.deep_view();
                assert(pv.take(k + 1).drop_last() =~= pv.take(k as int));
                assert(pv.take(k + 1).last() == pv[k as int]);
                reveal_with_fuel(Seq::filter, 1);
                if !is_listed(pieces[k].as_str(), remove) {
                    kept.push(pieces[k].clone());
                    assert(kept.deep_view() =~= before.push(pv[k as int]));
                }
                k = k + 1;
            }
            assert(pv.take(k as int) =~= pv);
            let joined = join_strs(&kept, ", ");
            let mut out = line.substring_char(0, start + 1).to_owned();
            out.append(joined.as_str());
            let n = line.unicode_len();
            out.append(line.substring_char(end, n));
            assert(line@.subrange(0, start + 1) =~= line@.take(start + 1));
            assert(line@.subrange(end as int, n as int) =~= line@.skip(end as int));
            out
        },
        None => line.to_owned(),
    }
}

/// The pieces of texts joined with `", "`: the first as it is, each other one after
/// a space.
pub open spec fn spaced(ks: Seq<Seq<char>>) -> Seq<Seq<char>> {
    Seq::new(
        ks.len(),
        |i: int|
            if i == 0 {
                ks[0]
            } else {
                seq![' '] + ks[i]
            },
    )
}

proof fn lemma_split_join_comma(ks: Seq<Seq<char>>)
    requires
        ks.len() >= 1,
        forall|i: int, j: int| 0 <= i < ks.len() && 0 <= j < ks[i].len() ==> #[trigger] ks[i][j] != ',',
    ensures
        split_char(join(ks, ", "@), ',') == spaced(ks),
    decreases ks.len(),
{
    reveal_strlit(", ");
    if ks.len() == 1 {
        lemma_split_free(ks[0], ',');
        assert(spaced(ks) =~= seq![ks[0]]);
    } else {
        let k2 = ks.drop_last();
        lemma_split_join_comma(k2);
        let b = seq![' '] + ks.last();
        assert forall|i: int| 0 <= i < b.len() implies b[i] != ',' by {
            if i > 0 {
                assert(b[i] == ks[ks.len() - 1][i - 1]);
            }
        }
        assert(join(ks, ", "@) =~= join(k2, ", "@).push(',') + b);
        lemma_split_append_free(join(k2, ", "@).push(','), b, ',');
        lemma_split_append_sep(join(k2, ", "@), ',');
        assert(Seq::<char>::empty() + b =~= b);
        assert(split_char(join(ks, ", "@), ',') =~= spaced(ks));
    }
}

/// Taking items out of a derive line and reading it again gives the items it listed,
/// less the ones taken out; and the rewritten line still has its parentheses in order.
pub proof fn lemma_filter_then_parse(line: Seq<char>, remove: Seq<Seq<char>>)
    requires
        parens_in_order(line),
    ensures
        parens_in_order(filtered_line(line, remove)),
        derive_items(filtered_line(line, remove)) == derive_items(line).filter(
            |p: Seq<char>| !remove.contains(p),
        ),
{
    let nonempty = |p: Seq<char>| p.len() > 0;
    let kept = |p: Seq<char>| !remove.contains(p);
    match list_bounds(line) {
        None => {
            reveal_with_fuel(Seq::filter, 1);
            assert(derive_items(line) =~= Seq::<Seq<char>>::empty());
            assert(derive_items(line).filter(kept) =~= Seq::<Seq<char>>::empty());
        },
        Some((s, e)) => {
            let pieces = split_char(line.subrange(s + 1, e), ',');
            let ps = list_pieces(line, s, e);
            let ks = ps.filter(kept);
            let j = join(ks, ", "@);
            let f = line.take(s + 1) + j + line.skip(e);
            assert(filtered_line(line, remove) == f);
            assert(is_first_index(line, '(', s));
            assert(is_last_index(line, ')', e));
            let m = s + 1 + j.len();
            assert(is_first_index(f, '(', s)) by {
                assert(f[s] == line[s]);
                assert forall|i: int| 0 <= i < s implies f[i] != '(' by {
                    assert(f[i] == line[i]);
                }
            }
            assert(is_last_index(f, ')', m)) by {
                assert(f[m] == line[e]);
                assert forall|i: int| m < i < f.len() implies f[i] != ')' by {
                    assert(f[i] == line[e + (i - m)]);
                }
            }
            lemma_find_char_at(f, '(', s);
            lemma_rfind_char_at(f, ')', m);
            assert(list_bounds(f) == Some((s, m)));
            assert(f.subrange(s + 1, m) =~= j);
            lemma_filter_commute(ps, nonempty, kept);
            lemma_split_pieces_lack_sep(line.subrange(s + 1, e), ',');
            assert forall|i: int| 0 <= i < ps.len() implies trim(#[trigger] ps[i]) == ps[i] && (
            forall|t: int| 0 <= t < ps[i].len() ==> ps[i][t] != ',') by {
                assert(ps[i] == trim(pieces[i]));
                lemma_trim_idempotent(pieces[i]);
                assert forall|t: int| 0 <= t < pieces[i].len() implies pieces[i][t] != ',' by {
                    assert(pieces[i][t] == split_char(line.subrange(s + 1, e), ',')[i][t]);
                }
                lemma_trim_avoids(pieces[i], ',');
            }
            let clean = |k: Seq<char>| trim(k) == k && (forall|t: int| 0 <= t < k.len() ==> k[t] != ',');
            assert forall|i: int| 0 <= i < ps.len() implies #[trigger] clean(ps[i]) by {
                assert(trim(ps[i]) == ps[i]);
            }
            lemma_filter_keeps(ps, kept, clean);
            assert forall|i: int| 0 <= i < ks.len() implies trim(#[trigger] ks[i]) == ks[i] && (
            forall|t: int| 0 <= t < ks[i].len() ==> ks[i][t] != ',') by {
                assert(clean(ks[i]));
            }
            if ks.len() == 0 {
                reveal_with_fuel(Seq::filter, 2);
                assert(j =~= Seq::<char>::empty());
                let sp = split_char(j, ',');
                assert(sp =~= seq![Seq::<char>::empty()]);
                assert(trim(Seq::<char>::empty()) =~= Seq::<char>::empty());
                assert(sp.map_values(|p: Seq<char>| trim(p)) =~= seq![Seq::<char>::empty()]);
                assert(seq![Seq::<char>::empty()].drop_last() =~= Seq::<Seq<char>>::empty());
                assert(ks.filter(nonempty) =~= Seq::<Seq<char>>::empty());
                assert(derive_items(f) =~= Seq::<Seq<char>>::empty());
            } else {
                assert forall|a: int, b: int| 0 <= a < ks.len() && 0 <= b < ks[a].len() implies #[trigger] ks[a][b] != ',' by {
                    assert(trim(ks[a]) == ks[a]);
                }
                lemma_split_join_comma(ks);
                assert forall|i: int| 0 <= i < ks.len() implies trim(#[trigger] spaced(ks)[i]) == ks[i] by {
                    assert(trim(ks[i]) == ks[i]);
                    if i > 0 {
                        lemma_trim_leading_space(ks[i]);
                    }
                }
                assert(split_char(j, ',').map_values(|p: Seq<char>| trim(p)) =~= ks);
                assert(derive_items(f) == ks.filter(nonempty));
            }
        },
    }
}

} // verus!
