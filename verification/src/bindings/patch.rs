//! Rewriting generated bindings: derives on structs that hold function pointers
//! become hand-written impls, placed after the struct's `Default` impl or body.
use vstd::prelude::*;
use crate::bindings::derives::{
    derive_items, filter_derives, filtered_line, lemma_filter_then_parse, list_pieces,
    parens_are_in_order, parens_in_order, parse_derive_traits,
};
use crate::bindings::fields::{
    closes_body, find_struct_end, parse_struct_fields, struct_end, struct_fields,
};
use crate::bindings::impl_block::{build_impl_block, impl_block, impl_blocks, partial_eq_block};
use crate::text::{
    contains, count_char, count_char_in, first_match, join, join_strs, lemma_join_split,
    lemma_first_match_exists, lemma_first_match_found, lemma_join_starts_with_first,
    lemma_last_match_found, lemma_split_char_nonempty, lemma_contains_at, lemma_contains_trans,
    lemma_join_comma_within, lemma_split_pieces_within, lemma_trim_within, lemma_find_char_at,
    lemma_rfind_char_at, is_first_index, is_last_index, trim,
    lemma_split_pieces_avoid, last_match, lines_of, lines_str,
    split_char, starts_with, str_contains, str_eq, str_starts_with, strip_cr, trim_start,
};

verus! {

/// `a - b`, or zero when `b` is larger.
pub open spec fn sat_sub(a: nat, b: nat) -> nat {
    if a >= b {
        (a - b) as nat
    } else {
        0
    }
}

/// The brace depth after line `i`, counting from line `start` on: each line adds its
/// `{` and then takes away its `}`, never going below zero.
pub open spec fn depth_after(ls: Seq<Seq<char>>, start: int, i: int) -> nat
    decreases i - start,
{
    let before: nat = if i <= start {
        0
    } else {
        depth_after(ls, start, i - 1)
    };
    sat_sub(before + count_char(ls[i], '{'), count_char(ls[i], '}'))
}

/// How many `{` the lines hold together.
pub open spec fn opens_in(ls: Seq<Seq<char>>) -> nat
    decreases ls.len(),
{
    if ls.len() == 0 {
        0
    } else {
        opens_in(ls.drop_last()) + count_char(ls.last(), '{')
    }
}

/// The last line of the impl that begins with `needle`: the first line after the one
/// that starts with `needle` at which the brace depth, counted from that line, is zero.
pub open spec fn impl_end(ls: Seq<Seq<char>>, needle: Seq<char>) -> Option<int> {
    match first_match(0, ls.len() as int, |i: int| starts_with(ls[i], needle)) {
        Some(start) => first_match(start + 1, ls.len() as int, |i: int| depth_after(ls, start, i) == 0),
        None => None,
    }
}

proof fn lemma_opens_monotone(ls: Seq<Seq<char>>, j: int)
    requires
        0 <= j <= ls.len(),
    ensures
        opens_in(ls.take(j)) <= opens_in(ls),
    decreases ls.len() - j,
{
    if j < ls.len() {
        lemma_opens_monotone(ls, j + 1);
        assert(ls.take(j + 1).drop_last() =~= ls.take(j));
    } else {
        assert(ls.take(j) =~= ls);
    }
}

proof fn lemma_depth_bounded(ls: Seq<Seq<char>>, start: int, i: int)
    requires
        0 <= start <= i < ls.len(),
    ensures
        depth_after(ls, start, i) <= opens_in(ls.take(i + 1)),
    decreases i - start,
{
    assert(ls.take(i + 1).drop_last() =~= ls.take(i));
    if i > start {
        lemma_depth_bounded(ls, start, i - 1);
    }
}

/// The first line that starts with `needle`.
fn first_line_starting(lines: &[String], needle: &str) -> (r: Option<usize>)
    ensures
        ({
            let ls = lines.deep_view();
            match r {
                Some(i) => i < ls.len() && first_match(0, ls.len() as int, |i: int| starts_with(ls[i], needle@)) == Some(i as int),
                None => first_match(0, ls.len() as int, |i: int| starts_with(ls[i], needle@)) is None,
            }
        }),
{
    let ghost ls = lines.deep_view();
    let ghost p = |i: int| starts_with(ls[i], needle@);
    let mut i: usize = 0;
    while i < lines.len()
        invariant
            ls == lines.deep_view(),
            p == (|i: int| starts_with(ls[i], needle@)),
            first_match(0, ls.len() as int, p) == first_match(i as int, ls.len() as int, p),
        decreases lines@.len() - i,
    {
        if str_starts_with(lines[i].as_str(), needle) {
            return Some(i);
        }
        i = i + 1;
    }
    None
}

/// The first line that holds `pat`.
fn first_line_containing(lines: &[String], pat: &str) -> (r: Option<usize>)
    ensures
        ({
            let ls = lines.deep_view();
            match r {
                Some(i) => i < ls.len() && first_match(0, ls.len() as int, |i: int| contains(ls[i], pat@)) == Some(i as int),
                None => first_match(0, ls.len() as int, |i: int| contains(ls[i], pat@)) is None,
            }
        }),
{
    let ghost ls = lines.deep_view();
    let ghost p = |i: int| contains(ls[i], pat@);
    let mut i: usize = 0;
    while i < lines.len()
        invariant
            ls == lines.deep_view(),
            p == (|i: int| contains(ls[i], pat@)),
            first_match(0, ls.len() as int, p) == first_match(i as int, ls.len() as int, p),
        decreases lines@.len() - i,
    {
        if str_contains(lines[i].as_str(), pat) {
            return Some(i);
        }
        i = i + 1;
    }
    None
}

/// The last line in `lo..hi` that holds `pat`.
fn last_line_containing(lines: &[String], lo: usize, hi: usize, pat: &str) -> (r: Option<usize>)
    requires
        lo <= hi <= lines@.len(),
    ensures
        ({
            let ls = lines.deep_view();
            match r {
                Some(i) => lo <= i < hi && last_match(lo as int, hi as int, |i: int| contains(ls[i], pat@)) == Some(i as int),
                None => last_match(lo as int, hi as int, |i: int| contains(ls[i], pat@)) is None,
            }
        }),
{
    let ghost ls = lines.deep_view();
    let ghost p = |i: int| contains(ls[i], pat@);
    let mut j: usize = hi;
    while j > lo
        invariant
            ls == lines.deep_view(),
            lo <= j <= hi <= lines@.len(),
            p == (|i: int| contains(ls[i], pat@)),
            last_match(lo as int, hi as int, p) == last_match(lo as int, j as int, p),
        decreases j - lo,
    {
        if str_contains(lines[j - 1].as_str(), pat) {
            return Some(j - 1);
        }
        j = j - 1;
    }
    None
}

/// Finds the line that ends the impl beginning at the first line that starts with `needle`.
pub fn find_impl_end(lines: &[String], needle: &str) -> (r: Option<usize>)
    requires
        opens_in(lines.deep_view()) <= usize::MAX,
    ensures
        match r {
            Some(i) => i < lines@.len() && impl_end(lines.deep_view(), needle@) == Some(i as int),
            None => impl_end(lines.deep_view(), needle@) is None,
        },
{
    let ghost ls = lines.deep_view();
    let start = match first_line_starting(lines, needle) {
        Some(i) => i,
        None => return None,
    };
    let ghost p = |i: int| depth_after(ls, start as int, i) == 0;
    proof {
        lemma_depth_bounded(ls, start as int, start as int);
        lemma_opens_monotone(ls, start + 1);
    }
    let mut depth: usize = count_char_in(lines[start].as_str(), '{');
    let closes = count_char_in(lines[start].as_str(), '}');
    depth = depth.saturating_sub(closes);
    let mut i: usize = start + 1;
    while i < lines.len()
        invariant
            ls == lines.deep_view(),
            opens_in(ls) <= usize::MAX,
            start < i <= ls.len(),
            first_match(0, ls.len() as int, |i: int| starts_with(ls[i], needle@)) == Some(start as int),
            depth == depth_after(ls, start as int, i - 1),
            p == (|i: int| depth_after(ls, start as int, i) == 0),
            first_match(start + 1, ls.len() as int, p) == first_match(i as int, ls.len() as int, p),
        decreases lines@.len() - i,
    {
        let opens = count_char_in(lines[i].as_str(), '{');
        let closes = count_char_in(lines[i].as_str(), '}');
        proof {
            lemma_depth_bounded(ls, start as int, i - 1);
            lemma_opens_monotone(ls, i + 1);
            assert(ls.take(i + 1).drop_last() =~= ls.take(i as int));
        }
        depth = depth + opens;
        depth = depth.saturating_sub(closes);
        if depth == 0 {
            assert(p(i as int));
            return Some(i);
        }
        i = i + 1;
    }
    None
}

/// Why a struct's derives could not be replaced.
#[derive(Clone, Debug, PartialEq, Eq)]
pub enum PatchError {
    /// The struct has neither a `Default` impl nor a closing brace after which the
    /// new impls could be placed.
    NoInsertionPoint { name: String },
}

/// The text that declares a struct.
pub open spec fn struct_decl(name: Seq<char>) -> Seq<char> {
    "pub struct "@ + name
}

/// The first line of a hand-written `PartialEq` impl for the struct.
pub open spec fn partial_eq_header(name: Seq<char>) -> Seq<char> {
    "impl PartialEq for "@ + name
}

/// The first line of the struct's `Default` impl.
pub open spec fn default_header(name: Seq<char>) -> Seq<char> {
    "impl Default for "@ + name
}

/// What marks a derive line.
pub open spec fn derive_marker() -> Seq<char> {
    "#[derive("@
}

/// The derives that the hand-written impls replace.
pub open spec fn replaced_derives() -> Seq<Seq<char>> {
    seq!["Hash"@, "PartialEq"@, "Eq"@]
}

/// The first line that declares the struct.
pub open spec fn struct_line(ls: Seq<Seq<char>>, name: Seq<char>) -> Option<int> {
    first_match(0, ls.len() as int, |i: int| contains(ls[i], struct_decl(name)))
}

/// Some line starts a hand-written `PartialEq` impl for the struct.
pub open spec fn has_partial_eq_impl(ls: Seq<Seq<char>>, name: Seq<char>) -> bool {
    first_match(0, ls.len() as int, |i: int| starts_with(ls[i], partial_eq_header(name))) is Some
}

/// The derive line of the struct declared at `si`: the nearest of the six lines
/// above it that holds `#[derive(`.
pub open spec fn derive_line(ls: Seq<Seq<char>>, si: int) -> Option<int> {
    last_match(
        if si >= 6 {
            si - 6
        } else {
            0
        },
        si,
        |i: int| contains(ls[i], derive_marker()),
    )
}

/// Where the new impls go: after the `Default` impl, or else after the struct body.
pub open spec fn insertion_line(ls: Seq<Seq<char>>, name: Seq<char>, si: int) -> Option<int> {
    match impl_end(ls, default_header(name)) {
        Some(e) => Some(e),
        None => struct_end(ls, si),
    }
}

/// What replacing the derives of struct `name` does: the lines afterwards, and whether
/// they changed (`None` when there is nowhere to put the impls; the derive line has
/// been rewritten by then).
///
/// Nothing changes unless the struct is declared, has no hand-written `PartialEq`,
/// has a derive line that lists `PartialEq`, `Eq` or `Hash`, and has fields. Then
/// those derives leave the derive line and the impls for the ones listed are
/// inserted as one line after the insertion line.
pub open spec fn patched_struct(ls: Seq<Seq<char>>, name: Seq<char>) -> (Seq<Seq<char>>, Option<bool>) {
    match struct_line(ls, name) {
        None => (ls, Some(false)),
        Some(si) => if has_partial_eq_impl(ls, name) {
            (ls, Some(false))
        } else {
            match derive_line(ls, si) {
                None => (ls, Some(false)),
                Some(di) => {
                    let items = derive_items(ls[di]);
                    let pe = items.contains("PartialEq"@);
                    let eq = items.contains("Eq"@);
                    let hash = items.contains("Hash"@);
                    let fs = struct_fields(ls, si);
                    if !pe && !hash && !eq {
                        (ls, Some(false))
                    } else if fs.len() == 0 {
                        (ls, Some(false))
                    } else {
                        let ls2 = ls.update(di, filtered_line(ls[di], replaced_derives()));
                        let block = impl_block(name, fs, pe, eq, hash);
                        if block.len() == 0 {
                            (ls2, Some(false))
                        } else {
                            match insertion_line(ls2, name, si) {
                                None => (ls2, None),
                                Some(e) => (ls2.insert(e + 1, block), Some(true)),
                            }
                        }
                    }
                },
            }
        }
    }
}

/// Replacing the derives of struct `name` neither panics nor overflows: the derive
/// line it reads has its parentheses in order, and the lines in which the `Default`
/// impl is looked for hold no more `{` than a `usize` counts.
pub open spec fn patch_struct_safe(ls: Seq<Seq<char>>, name: Seq<char>) -> bool {
    match struct_line(ls, name) {
        None => true,
        Some(si) => if has_partial_eq_impl(ls, name) {
            true
        } else {
            match derive_line(ls, si) {
                None => true,
                Some(di) => {
                    &&& parens_in_order(ls[di])
                    &&& opens_in(ls.update(di, filtered_line(ls[di], replaced_derives()))) <= usize::MAX
                },
            }
        }
    }
}

/// Whether `items` lists `item`.
fn lists(items: &Vec<String>, item: &str) -> (r: bool)
    ensures
        r == items.deep_view().contains(item@),
{
    let mut k: usize = 0;
    while k < items.len()
        invariant
            k <= items@.len(),
            forall|j: int| 0 <= j < k ==> items.deep_view()[j] != item@,
        decreases items@.len() - k,
    {
        if str_eq(items[k].as_str(), item) {
            assert(items.deep_view()[k as int] == item@);
            return true;
        }
        k = k + 1;
    }
    false
}

/// Replaces the derived `PartialEq`, `Eq` and `Hash` of struct `name` with
/// hand-written impls, which compare and hash function pointers by address.
pub fn patch_struct(lines: &mut Vec<String>, name: &str) -> (r: Result<bool, PatchError>)
    requires
        patch_struct_safe(old(lines).deep_view(), name@),
    ensures
        final(lines).deep_view() == patched_struct(old(lines).deep_view(), name@).0,
        match r {
            Ok(changed) => patched_struct(old(lines).deep_view(), name@).1 == Some(changed),
            Err(PatchError::NoInsertionPoint { name: n }) => patched_struct(
                old(lines).deep_view(),
                name@,
            ).1 is None && n@ == name@,
        },
{
    let ghost ls = lines.deep_view();
    let line_count = lines.len();
    let decl = "pub struct ".to_owned().concat(name);
    assert(decl@ == struct_decl(name@));
    let si = match first_line_containing(lines.as_slice(), decl.as_str()) {
        Some(i) => i,
        None => return Ok(false),
    };
    let pe_header = "impl PartialEq for ".to_owned().concat(name);
    assert(pe_header@ == partial_eq_header(name@));
    if first_line_starting(lines.as_slice(), pe_header.as_str()).is_some() {
        return Ok(false);
    }
    let lo = si.saturating_sub(6);
    let di = match last_line_containing(lines.as_slice(), lo, si, "#[derive(") {
        Some(i) => i,
        None => return Ok(false),
    };
    let items = parse_derive_traits(lines[di].as_str());
    let needs_partialeq = lists(&items, "PartialEq");
    let needs_eq = lists(&items, "Eq");
    let needs_hash = lists(&items, "Hash");
    if !needs_partialeq && !needs_hash && !needs_eq {
        return Ok(false);
    }
    assert(si < line_count);
    let fields = parse_struct_fields(lines.as_slice(), si);
    if fields.len() == 0 {
        return Ok(false);
    }
    let remove = vec!["Hash", "PartialEq", "Eq"];
    let removed = remove.as_slice();
    assert(removed.deep_view() =~= replaced_derives());
    let filtered = filter_derives(lines[di].as_str(), removed);
    lines.set(di, filtered);
    let ghost ls2 = ls.update(di as int, filtered_line(ls[di as int], replaced_derives()));
    assert(lines.deep_view() =~= ls2);
    let block = build_impl_block(name, fields.as_slice(), needs_partialeq, needs_eq, needs_hash);
    if block.as_str().unicode_len() == 0 {
        return Ok(false);
    }
    let default = "impl Default for ".to_owned().concat(name);
    assert(default@ == default_header(name@));
    let at = match find_impl_end(lines.as_slice(), default.as_str()) {
        Some(e) => Some(e),
        None => find_struct_end(lines.as_slice(), si),
    };
    match at {
        Some(e) => {
            let ghost bv = block@;
            assert(e < line_count);
            lines.insert(e + 1, block);
            assert(lines.deep_view() =~= ls2.insert(e + 1, bv));
            Ok(true)
        },
        None => Err(PatchError::NoInsertionPoint { name: name.to_owned() }),
    }
}
/// An enum alias to an unsigned int, as newer Clang versions infer it.
pub open spec fn unsigned_alias(name: Seq<char>) -> Seq<char> {
    "pub type "@ + name + " = ::core::ffi::c_uint;"@
}

/// An enum alias to a signed int, as the bindings expect it.
pub open spec fn signed_alias(name: Seq<char>) -> Seq<char> {
    "pub type "@ + name + " = ::core::ffi::c_int;"@
}

/// For each enum name in turn, the first line that aliases it to `c_uint` becomes an
/// alias to `c_int`; the flag tells whether some line changed.
pub open spec fn retyped_aliases(ls: Seq<Seq<char>>, names: Seq<Seq<char>>) -> (Seq<Seq<char>>, bool)
    decreases names.len(),
{
    if names.len() == 0 {
        (ls, false)
    } else {
        let (prev, changed) = retyped_aliases(ls, names.drop_last());
        let name = names.last();
        match first_match(0, prev.len() as int, |i: int| prev[i] == unsigned_alias(name)) {
            Some(i) => (prev.update(i, signed_alias(name)), true),
            None => (prev, changed),
        }
    }
}

/// The structs whose derives are replaced, in order.
pub open spec fn patched_struct_names() -> Seq<Seq<char>> {
    seq![
        "ImFontLoader"@,
        "ImGuiSelectionBasicStorage"@,
        "ImGuiSelectionExternalStorage"@,
        "ImDrawCmd"@,
        "ImGuiPlatformIO"@,
    ]
}

/// The derives of each struct replaced in turn, stopping at the first one that has
/// nowhere for its impls (`Err` with its name); otherwise whether anything changed.
pub open spec fn patched_structs(ls: Seq<Seq<char>>, names: Seq<Seq<char>>, changed: bool) -> (
    Seq<Seq<char>>,
    Result<bool, Seq<char>>,
)
    decreases names.len(),
{
    if names.len() == 0 {
        (ls, Ok(changed))
    } else {
        let (ls2, r) = patched_struct(ls, names[0]);
        match r {
            None => (ls2, Err(names[0])),
            Some(c) => patched_structs(ls2, names.drop_first(), changed || c),
        }
    }
}

/// Each struct patch in the sequence is safe on the lines it gets.
pub open spec fn structs_patch_safe(ls: Seq<Seq<char>>, names: Seq<Seq<char>>) -> bool
    decreases names.len(),
{
    if names.len() == 0 {
        true
    } else {
        &&& patch_struct_safe(ls, names[0])
        &&& match patched_struct(ls, names[0]) {
            (ls2, Some(_)) => structs_patch_safe(ls2, names.drop_first()),
            (_, None) => true,
        }
    }
}

/// Patching a bindings text neither panics nor overflows.
pub open spec fn bindings_patch_safe(text: Seq<char>, enum_names: Seq<Seq<char>>) -> bool {
    structs_patch_safe(retyped_aliases(lines_of(text), enum_names).0, patched_struct_names())
}

/// The patched bindings: the name of the first struct that has nowhere for its impls,
/// or `None` when nothing changed, or else the new text: its lines joined with `\n`,
/// and a final `\n`.
pub open spec fn patched_bindings(text: Seq<char>, enum_names: Seq<Seq<char>>) -> Result<
    Option<Seq<char>>,
    Seq<char>,
> {
    let (ls, changed) = retyped_aliases(lines_of(text), enum_names);
    match patched_structs(ls, patched_struct_names(), changed) {
        (_, Err(name)) => Err(name),
        (ls2, Ok(c)) => if c {
            Ok(Some(join(ls2, "\n"@) + "\n"@))
        } else {
            Ok(None)
        },
    }
}

/// The first line equal to `target`.
fn first_line_equal(lines: &Vec<String>, target: &str) -> (r: Option<usize>)
    ensures
        ({
            let ls = lines.deep_view();
            match r {
                Some(i) => i < ls.len() && first_match(0, ls.len() as int, |i: int| ls[i] == target@) == Some(i as int),
                None => first_match(0, ls.len() as int, |i: int| ls[i] == target@) is None,
            }
        }),
{
    let ghost ls = lines.deep_view();
    let ghost p = |i: int| ls[i] == target@;
    let mut i: usize = 0;
    while i < lines.len()
        invariant
            ls == lines.deep_view(),
            p == (|i: int| ls[i] == target@),
            first_match(0, ls.len() as int, p) == first_match(i as int, ls.len() as int, p),
        decreases lines@.len() - i,
    {
        if str_eq(lines[i].as_str(), target) {
            return Some(i);
        }
        i = i + 1;
    }
    None
}

/// Turns the enum aliases to `c_uint` back into aliases to `c_int`.
pub fn retype_enum_aliases(lines: &mut Vec<String>, enum_names: &[String]) -> (changed: bool)
    ensures
        (final(lines).deep_view(), changed) == retyped_aliases(old(lines).deep_view(), enum_names.deep_view()),
{
    let ghost ls = lines.deep_view();
    let ghost names = enum_names.deep_view();
    let mut changed = false;
    let mut k: usize = 0;
    while k < enum_names.len()
        invariant
            ls == old(lines).deep_view(),
            names == enum_names.deep_view(),
            k <= names.len(),
            (lines.deep_view(), changed) == retyped_aliases(ls, names.take(k as int)),
        decreases names.len() - k,
    {
        let name = enum_names[k].as_str();
        assert(names.take(k + 1).drop_last() =~= names.take(k as int));
        assert(names.take(k + 1).last() == name@);
        let unsigned = "pub type ".to_owned().concat(name).concat(" = ::core::ffi::c_uint;");
        let ghost prev = lines.deep_view();
        assert(unsigned@ == unsigned_alias(name@));
        assert((|i: int| prev[i] == unsigned_alias(name@)) =~= (|i: int| prev[i] == unsigned@));
        match first_line_equal(lines, unsigned.as_str()) {
            Some(i) => {
                let signed = "pub type ".to_owned().concat(name).concat(" = ::core::ffi::c_int;");
                assert(signed@ == signed_alias(name@));
                lines.set(i, signed);
                changed = true;
                assert(lines.deep_view() =~= retyped_aliases(ls, names.take(k + 1)).0);
            },
            None => {},
        }
        k = k + 1;
    }
    assert(names.take(k as int) =~= names);
    changed
}

/// The name of the `k`-th struct whose derives are replaced.
fn patched_struct_name(k: usize) -> (r: &'static str)
    requires
        k < 5,
    ensures
        r@ == patched_struct_names()[k as int],
{
    match k {
        0 => "ImFontLoader",
        1 => "ImGuiSelectionBasicStorage",
        2 => "ImGuiSelectionExternalStorage",
        3 => "ImDrawCmd",
        _ => "ImGuiPlatformIO",
    }
}

/// Patches the text of generated bindings: enum aliases back to signed ints, and the
/// derives of the structs that hold function pointers replaced by impls. Gives the
/// new text, or `None` when nothing changed.
pub fn patch_bindings_text(text: &str, enum_names: &[String]) -> (r: Result<Option<String>, PatchError>)
    requires
        bindings_patch_safe(text@, enum_names.deep_view()),
    ensures
        match r {
            Ok(Some(t)) => patched_bindings(text@, enum_names.deep_view()) == Ok::<
                Option<Seq<char>>,
                Seq<char>,
            >(Some(t@)),
            Ok(None) => patched_bindings(text@, enum_names.deep_view()) == Ok::<
                Option<Seq<char>>,
                Seq<char>,
            >(None),
            Err(PatchError::NoInsertionPoint { name }) => patched_bindings(
                text@,
                enum_names.deep_view(),
            ) == Err::<Option<Seq<char>>, Seq<char>>(name@),
        },
{
    let mut lines = lines_str(text);
    let mut changed = retype_enum_aliases(&mut lines, enum_names);
    let ghost names = patched_struct_names();
    let ghost start = retyped_aliases(lines_of(text@), enum_names.deep_view());
    let mut k: usize = 0;
    assert(names.skip(0) =~= names);
    while k < 5
        invariant
            names == patched_struct_names(),
            start == retyped_aliases(lines_of(text@), enum_names.deep_view()),
            k <= 5,
            patched_structs(start.0, names, start.1) == patched_structs(
                lines.deep_view(),
                names.skip(k as int),
                changed,
            ),
            structs_patch_safe(lines.deep_view(), names.skip(k as int)),
        decreases 5 - k,
    {
        let name = patched_struct_name(k);
        assert(names.skip(k as int)[0] == name@);
        assert(names.skip(k as int).drop_first() =~= names.skip(k + 1));
        match patch_struct(&mut lines, name) {
            Ok(c) => {
                changed = changed || c;
            },
            Err(e) => {
                assert(patched_structs(start.0, names, start.1).1 == Err::<bool, Seq<char>>(
                    name@,
                ));
                return Err(e);
            },
        }
        k = k + 1;
    }
    if changed {
        let mut out = join_strs(&lines, "\n");
        out.append("\n");
        Ok(Some(out))
    } else {
        Ok(None)
    }
}

/// Whether the lines, with line `di` replaced by `line`, hold no more `{` than a
/// `usize` counts.
fn opens_fit(lines: &Vec<String>, di: usize, line: &String) -> (r: bool)
    requires
        di < lines@.len(),
    ensures
        r == (opens_in(lines.deep_view().update(di as int, line@)) <= usize::MAX),
{
    let ghost ls = lines.deep_view().update(di as int, line@);
    let mut total: usize = 0;
    let mut k: usize = 0;
    while k < lines.len()
        invariant
            ls == lines.deep_view().update(di as int, line@),
            di < lines@.len(),
            ls.len() == lines@.len(),
            k <= ls.len(),
            total == opens_in(ls.take(k as int)),
        decreases ls.len() - k,
    {
        assert(ls.take(k + 1).drop_last() =~= ls.take(k as int));
        let text = if k == di {
            line.as_str()
        } else {
            lines[k].as_str()
        };
        assert(text@ == ls[k as int]);
        let c = count_char_in(text, '{');
        match total.checked_add(c) {
            Some(t) => {
                total = t;
            },
            None => {
                proof {
                    lemma_opens_monotone(ls, k + 1);
                }
                return false;
            },
        }
        k = k + 1;
    }
    assert(ls.take(k as int) =~= ls);
    true
}

/// Whether replacing the derives of struct `name` is safe on these lines.
fn patch_struct_is_safe(lines: &Vec<String>, name: &str) -> (r: bool)
    ensures
        r == patch_struct_safe(lines.deep_view(), name@),
{
    let decl = "pub struct ".to_owned().concat(name);
    assert(decl@ == struct_decl(name@));
    let si = match first_line_containing(lines.as_slice(), decl.as_str()) {
        Some(i) => i,
        None => return true,
    };
    let pe_header = "impl PartialEq for ".to_owned().concat(name);
    assert(pe_header@ == partial_eq_header(name@));
    if first_line_starting(lines.as_slice(), pe_header.as_str()).is_some() {
        return true;
    }
    let lo = si.saturating_sub(6);
    let di = match last_line_containing(lines.as_slice(), lo, si, "#[derive(") {
        Some(i) => i,
        None => return true,
    };
    if !parens_are_in_order(lines[di].as_str()) {
        return false;
    }
    let remove = vec!["Hash", "PartialEq", "Eq"];
    let removed = remove.as_slice();
    assert(removed.deep_view() =~= replaced_derives());
    let filtered = filter_derives(lines[di].as_str(), removed);
    opens_fit(lines, di, &filtered)
}

/// Whether `patch_bindings_text` can patch this text: every derive line that it
/// reads has its first `(` before its last `)`, and the `{` it counts fit a `usize`.
pub fn bindings_patch_is_safe(text: &str, enum_names: &[String]) -> (r: bool)
    ensures
        r == bindings_patch_safe(text@, enum_names.deep_view()),
{
    let mut lines = lines_str(text);
    let _ = retype_enum_aliases(&mut lines, enum_names);
    let ghost names = patched_struct_names();
    let ghost start = retyped_aliases(lines_of(text@), enum_names.deep_view());
    let mut k: usize = 0;
    assert(names.skip(0) =~= names);
    while k < 5
        invariant
            names == patched_struct_names(),
            start == retyped_aliases(lines_of(text@), enum_names.deep_view()),
            k <= 5,
            structs_patch_safe(start.0, names) == structs_patch_safe(lines.deep_view(), names.skip(k as int)),
        decreases 5 - k,
    {
        let name = patched_struct_name(k);
        assert(names.skip(k as int)[0] == name@);
        assert(names.skip(k as int).drop_first() =~= names.skip(k + 1));
        if !patch_struct_is_safe(&lines, name) {
            return false;
        }
        match patch_struct(&mut lines, name) {
            Ok(_) => {},
            Err(_) => {
                return true;
            },
        }
        k = k + 1;
    }
    true
}

/// Joining the lines of a text with `\n`, and ending with `\n`, gives the text back
/// when it ends with a line ending and holds no `\r`: the lines that patching leaves
/// alone are written back as they were.
pub proof fn lemma_lines_roundtrip(t: Seq<char>)
    requires
        t.len() > 0,
        t.last() == '\n',
        forall|i: int| 0 <= i < t.len() ==> t[i] != '\r',
    ensures
        join(lines_of(t), "\n"@) + "\n"@ == t,
{
    reveal_strlit("\n");
    let ps = split_char(t, '\n');
    lemma_split_char_nonempty(t.drop_last(), '\n');
    lemma_join_split(t, '\n');
    lemma_split_pieces_avoid(t, '\n', '\r');
    assert(ps == split_char(t.drop_last(), '\n').push(Seq::<char>::empty()));
    assert(ps.last().len() == 0);
    assert(ps.drop_last().map_values(|l: Seq<char>| strip_cr(l)) =~= ps.drop_last()) by {
        assert forall|j: int| 0 <= j < ps.drop_last().len() implies strip_cr(ps.drop_last()[j]) == ps.drop_last()[j] by {
            let l = ps.drop_last()[j];
            if l.len() > 0 {
                assert(ps[j][l.len() - 1] != '\r');
            }
        }
    }
    assert(lines_of(t) == ps.drop_last());
    assert("\n"@ =~= seq!['\n']);
    assert(join(ps, seq!['\n']) =~= join(ps.drop_last(), seq!['\n']) + seq!['\n']);
}

/// Once the derives of a struct have been replaced by impls, the patched lines hold
/// its rewritten derive line, and that line lists none of `Hash`, `PartialEq`, `Eq`.
pub proof fn lemma_patched_derives_gone(ls: Seq<Seq<char>>, name: Seq<char>)
    requires
        patch_struct_safe(ls, name),
        patched_struct(ls, name).1 == Some(true),
    ensures
        ({
            let si = struct_line(ls, name)->0;
            let di = derive_line(ls, si)->0;
            let line = filtered_line(ls[di], replaced_derives());
            &&& patched_struct(ls, name).0.contains(line)
            &&& forall|k: int|
                0 <= k < derive_items(line).len() ==> !replaced_derives().contains(
                    #[trigger] derive_items(line)[k],
                )
        }),
{
    let si = struct_line(ls, name)->0;
    lemma_first_match_found(0, ls.len() as int, |i: int| contains(ls[i], struct_decl(name)));
    let di = derive_line(ls, si)->0;
    lemma_last_match_found(
        if si >= 6 {
            si - 6
        } else {
            0
        },
        si,
        |i: int| contains(ls[i], derive_marker()),
    );
    let line = filtered_line(ls[di], replaced_derives());
    let kept = |p: Seq<char>| !replaced_derives().contains(p);
    lemma_filter_then_parse(ls[di], replaced_derives());
    assert forall|k: int| 0 <= k < derive_items(line).len() implies !replaced_derives().contains(
        #[trigger] derive_items(line)[k],
    ) by {
        derive_items(ls[di]).lemma_filter_pred(kept, k);
    }
    let ls2 = ls.update(di, line);
    let e = insertion_line(ls2, name, si)->0;
    lemma_first_match_found(0, ls2.len() as int, |i: int| starts_with(ls2[i], default_header(name)));
    match first_match(0, ls2.len() as int, |i: int| starts_with(ls2[i], default_header(name))) {
        Some(start) => lemma_first_match_found(
            start + 1,
            ls2.len() as int,
            |i: int| depth_after(ls2, start, i) == 0,
        ),
        None => {},
    }
    lemma_first_match_found(si, ls2.len() as int, |i: int| closes_body(trim_start(ls2[i])));
    assert(0 <= e < ls2.len());
    let out = patched_struct(ls, name).0;
    assert(out == ls2.insert(e + 1, impl_block(name, struct_fields(ls, si), derive_items(ls[di]).contains("PartialEq"@), derive_items(ls[di]).contains("Eq"@), derive_items(ls[di]).contains("Hash"@))));
    let block = impl_block(name, struct_fields(ls, si), derive_items(ls[di]).contains("PartialEq"@), derive_items(ls[di]).contains("Eq"@), derive_items(ls[di]).contains("Hash"@));
    ls2.insert_ensures(e + 1, block);
    if di <= e {
        assert(out[di] == line);
    } else {
        assert(out[di + 1] == line);
    }
}

/// Replacing the derives of a struct whose derive line listed `PartialEq` is done once
/// for all: the hand-written `PartialEq` impl is then in place, and patching the
/// result again changes nothing and reports no change.
pub proof fn lemma_patch_struct_settles(ls: Seq<Seq<char>>, name: Seq<char>)
    requires
        patch_struct_safe(ls, name),
        patched_struct(ls, name).1 == Some(true),
        derive_items(ls[derive_line(ls, struct_line(ls, name)->0)->0]).contains("PartialEq"@),
    ensures
        has_partial_eq_impl(patched_struct(ls, name).0, name),
        patched_struct(patched_struct(ls, name).0, name) == (patched_struct(ls, name).0, Some(false)),
{
    let si = struct_line(ls, name)->0;
    let di = derive_line(ls, si)->0;
    let items = derive_items(ls[di]);
    let fs = struct_fields(ls, si);
    let line = filtered_line(ls[di], replaced_derives());
    let ls2 = ls.update(di, line);
    let pe = items.contains("PartialEq"@);
    let eq = items.contains("Eq"@);
    let hash = items.contains("Hash"@);
    let blocks = impl_blocks(name, fs, pe, eq, hash);
    let block = impl_block(name, fs, pe, eq, hash);
    let e = insertion_line(ls2, name, si)->0;
    lemma_first_match_found(0, ls.len() as int, |i: int| contains(ls[i], struct_decl(name)));
    lemma_first_match_found(0, ls2.len() as int, |i: int| starts_with(ls2[i], default_header(name)));
    match first_match(0, ls2.len() as int, |i: int| starts_with(ls2[i], default_header(name))) {
        Some(start) => lemma_first_match_found(
            start + 1,
            ls2.len() as int,
            |i: int| depth_after(ls2, start, i) == 0,
        ),
        None => {},
    }
    lemma_first_match_found(si, ls2.len() as int, |i: int| closes_body(trim_start(ls2[i])));
    let out = patched_struct(ls, name).0;
    assert(out == ls2.insert(e + 1, block));
    ls2.insert_ensures(e + 1, block);
    assert(out[e + 1] == block);
    assert(blocks[0] == partial_eq_block(name, fs));
    lemma_join_starts_with_first(blocks, "\n"@);
    let header = partial_eq_header(name);
    assert(starts_with(partial_eq_block(name, fs), header)) by {
        let b = partial_eq_block(name, fs);
        assert(b.take(header.len() as int) =~= header);
    }
    assert(starts_with(block, header)) by {
        assert(block.take(header.len() as int) =~= blocks[0].take(header.len() as int));
    }
    lemma_first_match_exists(0, out.len() as int, |i: int| starts_with(out[i], header), e + 1);
}

/// The first position in `lo..hi` where `p` holds is `k` when `p` holds at `k` and
/// nowhere before it.
proof fn lemma_first_match_is(lo: int, hi: int, p: spec_fn(int) -> bool, k: int)
    requires
        lo <= k < hi,
        p(k),
        forall|j: int| lo <= j < k ==> !#[trigger] p(j),
    ensures
        first_match(lo, hi, p) == Some(k),
    decreases k - lo,
{
    if lo < k {
        lemma_first_match_is(lo + 1, hi, p, k);
    }
}

/// `p` holds nowhere before the first position that `first_match` finds.
proof fn lemma_first_match_skips(lo: int, hi: int, p: spec_fn(int) -> bool)
    ensures
        first_match(lo, hi, p) matches Some(k) ==> forall|j: int| lo <= j < k ==> !#[trigger] p(j),
    decreases hi - lo,
{
    if lo < hi && !p(lo) {
        lemma_first_match_skips(lo + 1, hi, p);
    }
}

/// The last position in `lo..hi` where `p` holds is `k` when `p` holds at `k` and
/// nowhere after it.
proof fn lemma_last_match_is(lo: int, hi: int, p: spec_fn(int) -> bool, k: int)
    requires
        lo <= k < hi,
        p(k),
        forall|j: int| k < j < hi ==> !#[trigger] p(j),
    ensures
        last_match(lo, hi, p) == Some(k),
    decreases hi - k,
{
    if k < hi - 1 {
        lemma_last_match_is(lo, hi - 1, p, k);
    }
}

/// `last_match` finds nothing where `p` holds nowhere.
proof fn lemma_last_match_none(lo: int, hi: int, p: spec_fn(int) -> bool)
    requires
        forall|j: int| lo <= j < hi ==> !#[trigger] p(j),
    ensures
        last_match(lo, hi, p) is None,
    decreases hi - lo,
{
    if lo < hi {
        lemma_last_match_none(lo, hi - 1, p);
    }
}

/// `p` holds nowhere after the last position that `last_match` finds.
proof fn lemma_last_match_skips(lo: int, hi: int, p: spec_fn(int) -> bool)
    ensures
        last_match(lo, hi, p) matches Some(k) ==> forall|j: int| k < j < hi ==> !#[trigger] p(j),
    decreases hi - lo,
{
    if lo < hi && !p(hi - 1) {
        lemma_last_match_skips(lo, hi - 1, p);
    }
}

/// Lines in which the struct is first declared at `si`, and in which the nearest line
/// above it that marks a derive line is `d`, a line that lists none of `Hash`,
/// `PartialEq`, `Eq`: replacing the derives changes nothing there.
proof fn lemma_nothing_left_to_replace(out: Seq<Seq<char>>, name: Seq<char>, si: int, d: int)
    requires
        0 <= d < si < out.len(),
        contains(out[si], struct_decl(name)),
        forall|j: int| 0 <= j < si ==> !contains(#[trigger] out[j], struct_decl(name)),
        contains(out[d], derive_marker()),
        forall|j: int| d < j < si ==> !contains(#[trigger] out[j], derive_marker()),
        forall|k: int|
            0 <= k < derive_items(out[d]).len() ==> !replaced_derives().contains(
                #[trigger] derive_items(out[d])[k],
            ),
    ensures
        patched_struct(out, name) == (out, Some(false)),
{
    let pd = |i: int| contains(out[i], struct_decl(name));
    lemma_first_match_is(0, out.len() as int, pd, si);
    assert(struct_line(out, name) == Some(si));
    if !has_partial_eq_impl(out, name) {
        let lo = if si >= 6 {
            si - 6
        } else {
            0
        };
        let pm = |i: int| contains(out[i], derive_marker());
        if d >= lo {
            lemma_last_match_is(lo, si, pm, d);
            assert(derive_line(out, si) == Some(d));
            let items = derive_items(out[d]);
            assert(replaced_derives()[0] == "Hash"@);
            assert(replaced_derives()[1] == "PartialEq"@);
            assert(replaced_derives()[2] == "Eq"@);
            assert(!items.contains("PartialEq"@));
            assert(!items.contains("Eq"@));
            assert(!items.contains("Hash"@));
        } else {
            lemma_last_match_none(lo, si, pm);
        }
    }
}

/// Impls that go in above the struct neither declare it nor mark a derive line.
pub open spec fn impls_above_stay_clear(ls: Seq<Seq<char>>, name: Seq<char>) -> bool {
    match struct_line(ls, name) {
        None => true,
        Some(si) => match derive_line(ls, si) {
            None => true,
            Some(di) => {
                let items = derive_items(ls[di]);
                let line = filtered_line(ls[di], replaced_derives());
                let block = impl_block(
                    name,
                    struct_fields(ls, si),
                    items.contains("PartialEq"@),
                    items.contains("Eq"@),
                    items.contains("Hash"@),
                );
                insertion_line(ls.update(di, line), name, si) matches Some(e) && e < si
                    ==> !contains(block, struct_decl(name)) && !contains(block, derive_marker())
            },
        },
    }
}

/// Replacing the derives leaves the struct's derive line where the next reading
/// finds it again: the rewritten line still marks a derive line and does not declare
/// the struct, and impls that go in above the struct leave it in place.
spec fn rewrite_stays_in_place(ls: Seq<Seq<char>>, name: Seq<char>) -> bool {
    &&& impls_above_stay_clear(ls, name)
    &&& match struct_line(ls, name) {
        None => true,
        Some(si) => match derive_line(ls, si) {
            None => true,
            Some(di) => {
                let line = filtered_line(ls[di], replaced_derives());
                &&& contains(line, derive_marker())
                &&& !contains(line, struct_decl(name))
            },
        },
    }
}

/// A derive line as bindgen writes it: `#[derive(`, the items (no parenthesis among
/// them), then `)]`.
pub open spec fn plain_derive_line(l: Seq<char>) -> bool {
    &&& l.len() >= 11
    &&& l.take(9) == derive_marker()
    &&& l.skip(l.len() - 2) == ")]"@
    &&& forall|i: int| 9 <= i < l.len() - 2 ==> #[trigger] l[i] != '(' && l[i] != ')'
}

/// A character of a Rust identifier.
pub open spec fn ident_char(c: char) -> bool {
    ('a' <= c && c <= 'z') || ('A' <= c && c <= 'Z') || ('0' <= c && c <= '9') || c == '_'
}

/// A struct name: a non-empty identifier.
pub open spec fn plain_name(name: Seq<char>) -> bool {
    name.len() > 0 && forall|i: int| 0 <= i < name.len() ==> ident_char(#[trigger] name[i])
}

/// Taking items out of a derive line as bindgen writes it leaves a derive line that
/// declares no struct the original did not.
proof fn lemma_plain_rewrite(l: Seq<char>, name: Seq<char>)
    requires
        plain_derive_line(l),
        plain_name(name),
        !contains(l, struct_decl(name)),
    ensures
        contains(filtered_line(l, replaced_derives()), derive_marker()),
        !contains(filtered_line(l, replaced_derives()), struct_decl(name)),
{
    reveal_strlit("#[derive(");
    reveal_strlit(")]");
    reveal_strlit("pub struct ");
    let n = l.len() as int;
    let marker = derive_marker();
    assert(l[8] == l.take(9)[8]);
    assert(l[n - 2] == l.skip(n - 2)[0]);
    assert(l[n - 1] == l.skip(n - 2)[1]);
    assert(is_first_index(l, '(', 8)) by {
        assert forall|j: int| 0 <= j < 8 implies l[j] != '(' by {
            assert(l[j] == l.take(9)[j]);
        }
    }
    assert(is_last_index(l, ')', n - 2));
    lemma_find_char_at(l, '(', 8);
    lemma_rfind_char_at(l, ')', n - 2);
    let inner = l.subrange(9, n - 2);
    let pieces = list_pieces(l, 8, n - 2);
    let kept_p = |p: Seq<char>| !replaced_derives().contains(p);
    let kept = pieces.filter(kept_p);
    let jn = join(kept, ", "@);
    let fl = filtered_line(l, replaced_derives());
    assert(fl == l.take(9) + jn + l.skip(n - 2));
    assert(fl.subrange(0, 9) =~= marker);
    lemma_contains_at(fl, marker, 0);
    let decl = struct_decl(name);
    let dl = decl.len() as int;
    assert(decl[0] == 'p');
    assert forall|i: int| 0 <= i < dl implies #[trigger] decl[i] != ',' && decl[i] != ')' && decl[i]
        != '(' by {
        if i >= 11 {
            assert(decl[i] == name[i - 11]);
            assert(ident_char(name[i - 11]));
        }
    }
    if contains(fl, decl) {
        let q = choose|q: int| 0 <= q && q + dl <= fl.len() && #[trigger] fl.subrange(q, q + dl) == decl;
        assert(decl[0] == fl[q]);
        let m: int = 9 + jn.len() as int;
        if q < 9 {
            assert(fl[q] == l.take(9)[q]);
        } else if q >= m {
            assert(fl[q] == l.skip(n - 2)[q - m]);
        } else if q + dl > m {
            assert(decl[m - q] == fl[m]);
            assert(fl[m] == l.skip(n - 2)[0]);
        } else {
            assert(jn.subrange(q - 9, q - 9 + dl) =~= fl.subrange(q, q + dl));
            lemma_contains_at(jn, decl, q - 9);
            lemma_join_comma_within(kept, decl);
            let k = choose|k: int| 0 <= k < kept.len() && contains(#[trigger] kept[k], decl);
            assert(kept.contains(kept[k]));
            pieces.lemma_filter_contains_rev(kept_p, kept[k]);
            let j = choose|j: int| 0 <= j < pieces.len() && pieces[j] == kept[k];
            let sp = split_char(inner, ',');
            assert(pieces[j] == trim(sp[j]));
            lemma_trim_within(sp[j]);
            lemma_split_pieces_within(inner, ',');
            assert(contains(inner, sp[j]));
            lemma_contains_at(l, inner, 9);
            lemma_contains_trans(sp[j], trim(sp[j]), decl);
            lemma_contains_trans(inner, sp[j], decl);
            lemma_contains_trans(l, inner, decl);
        }
    }
}

proof fn lemma_patch_struct_settled_in_place(ls: Seq<Seq<char>>, name: Seq<char>)
    requires
        patch_struct_safe(ls, name),
        rewrite_stays_in_place(ls, name),
    ensures
        patched_struct(patched_struct(ls, name).0, name) == (patched_struct(ls, name).0, Some(false)),
{
    if patched_struct(ls, name) == (ls, Some(false)) {
        return;
    }
    let si = struct_line(ls, name)->0;
    let pd = |i: int| contains(ls[i], struct_decl(name));
    lemma_first_match_found(0, ls.len() as int, pd);
    lemma_first_match_skips(0, ls.len() as int, pd);
    let lo = if si >= 6 {
        si - 6
    } else {
        0
    };
    let pm = |i: int| contains(ls[i], derive_marker());
    let di = derive_line(ls, si)->0;
    lemma_last_match_found(lo, si, pm);
    lemma_last_match_skips(lo, si, pm);
    let items = derive_items(ls[di]);
    let line = filtered_line(ls[di], replaced_derives());
    let kept = |p: Seq<char>| !replaced_derives().contains(p);
    lemma_filter_then_parse(ls[di], replaced_derives());
    assert forall|k: int| 0 <= k < derive_items(line).len() implies !replaced_derives().contains(
        #[trigger] derive_items(line)[k],
    ) by {
        items.lemma_filter_pred(kept, k);
    }
    let fs = struct_fields(ls, si);
    let block = impl_block(name, fs, items.contains("PartialEq"@), items.contains("Eq"@), items.contains("Hash"@));
    let ls2 = ls.update(di, line);
    let out = patched_struct(ls, name).0;
    assert(contains(line, derive_marker()) && !contains(line, struct_decl(name)));
    assert forall|j: int| 0 <= j < si implies !contains(#[trigger] ls2[j], struct_decl(name)) by {
        if j != di {
            assert(!pd(j));
        }
    }
    assert forall|j: int| di < j < si implies !contains(#[trigger] ls2[j], derive_marker()) by {
        assert(!pm(j));
    }
    if out == ls2 {
        lemma_nothing_left_to_replace(ls2, name, si, di);
    } else {
        let e = insertion_line(ls2, name, si)->0;
        lemma_first_match_found(0, ls2.len() as int, |i: int| starts_with(ls2[i], default_header(name)));
        match first_match(0, ls2.len() as int, |i: int| starts_with(ls2[i], default_header(name))) {
            Some(start) => lemma_first_match_found(
                start + 1,
                ls2.len() as int,
                |i: int| depth_after(ls2, start, i) == 0,
            ),
            None => {},
        }
        lemma_first_match_found(si, ls2.len() as int, |i: int| closes_body(trim_start(ls2[i])));
        assert(0 <= e < ls2.len());
        assert(out == ls2.insert(e + 1, block));
        ls2.insert_ensures(e + 1, block);
        if e >= si {
            assert(forall|j: int| 0 <= j <= si ==> #[trigger] out[j] == ls2[j]);
            lemma_nothing_left_to_replace(out, name, si, di);
        } else {
            let d = if di <= e {
                di
            } else {
                di + 1
            };
            assert(out[d] == line);
            assert(out[si + 1] == ls[si]);
            assert forall|j: int| 0 <= j < si + 1 implies !contains(#[trigger] out[j], struct_decl(name)) by {
                if j > e + 1 {
                    assert(out[j] == ls2[j - 1]);
                }
            }
            assert forall|j: int| d < j < si + 1 implies !contains(#[trigger] out[j], derive_marker()) by {
                if j > e + 1 {
                    assert(out[j] == ls2[j - 1]);
                }
            }
            lemma_nothing_left_to_replace(out, name, si + 1, d);
        }
    }
}

/// Replacing the derives of a struct a second time changes nothing and reports no
/// change, whatever the first time did (replaced them, found nothing to replace, or
/// found nowhere to put the impls): for a struct named by an identifier, with derive
/// lines written `#[derive(...)]` as bindgen writes them, and impls that go in above
/// the struct neither declaring it nor marking a derive line.
pub proof fn lemma_patch_struct_idempotent(ls: Seq<Seq<char>>, name: Seq<char>)
    requires
        patch_struct_safe(ls, name),
        plain_name(name),
        forall|i: int| 0 <= i < ls.len() && contains(#[trigger] ls[i], derive_marker()) ==> plain_derive_line(ls[i]),
        impls_above_stay_clear(ls, name),
    ensures
        patched_struct(patched_struct(ls, name).0, name) == (patched_struct(ls, name).0, Some(false)),
{
    match struct_line(ls, name) {
        None => {},
        Some(si) => {
            let pd = |i: int| contains(ls[i], struct_decl(name));
            lemma_first_match_found(0, ls.len() as int, pd);
            lemma_first_match_skips(0, ls.len() as int, pd);
            let lo = if si >= 6 {
                si - 6
            } else {
                0
            };
            let pm = |i: int| contains(ls[i], derive_marker());
            lemma_last_match_found(lo, si, pm);
            match derive_line(ls, si) {
                None => {},
                Some(di) => {
                    assert(!pd(di));
                    assert(pm(di));
                    lemma_plain_rewrite(ls[di], name);
                },
            }
        },
    }
    assert(rewrite_stays_in_place(ls, name));
    lemma_patch_struct_settled_in_place(ls, name);
}

/// The enum names are handled one after the other, each on what the ones before
/// left: retyping with `a` then `b` is retyping with `a`, then retyping the result
/// with `b`, and something changed when it did in either step.
pub proof fn lemma_retype_names_in_turn(ls: Seq<Seq<char>>, a: Seq<Seq<char>>, b: Seq<Seq<char>>)
    ensures
        retyped_aliases(ls, a + b) == ({
            let r1 = retyped_aliases(ls, a);
            let r2 = retyped_aliases(r1.0, b);
            (r2.0, r1.1 || r2.1)
        }),
    decreases b.len(),
{
    if b.len() == 0 {
        assert(a + b =~= a);
    } else {
        lemma_retype_names_in_turn(ls, a, b.drop_last());
        assert((a + b).drop_last() =~= a + b.drop_last());
        assert((a + b).last() == b.last());
    }
}

/// With no enum names nothing changes.
pub proof fn lemma_retype_no_names(ls: Seq<Seq<char>>)
    ensures
        retyped_aliases(ls, seq![]) == (ls, false),
{
}

/// One enum name `n`: the first line `pub type n = ::core::ffi::c_uint;` becomes
/// `pub type n = ::core::ffi::c_int;` and the change is reported; without such a line
/// nothing changes.
pub proof fn lemma_retype_one_name(ls: Seq<Seq<char>>, n: Seq<char>)
    ensures
        forall|i: int|
            0 <= i < ls.len() && #[trigger] ls[i] == "pub type "@ + n + " = ::core::ffi::c_uint;"@
                && (forall|j: int|
                0 <= j < i ==> ls[j] != "pub type "@ + n + " = ::core::ffi::c_uint;"@)
                ==> retyped_aliases(ls, seq![n]) == (
                ls.update(i, "pub type "@ + n + " = ::core::ffi::c_int;"@),
                true,
            ),
        (forall|i: int| 0 <= i < ls.len() ==> #[trigger] ls[i] != "pub type "@ + n + " = ::core::ffi::c_uint;"@)
            ==> retyped_aliases(ls, seq![n]) == (ls, false),
{
    let names = seq![n];
    assert(names.drop_last() =~= Seq::<Seq<char>>::empty());
    assert(names.last() == n);
    let p = |i: int| ls[i] == unsigned_alias(n);
    assert(retyped_aliases(ls, names.drop_last()) == (ls, false));
    assert(retyped_aliases(ls, names) == match first_match(0, ls.len() as int, p) {
        Some(i) => (ls.update(i, signed_alias(n)), true),
        None => (ls, false),
    });
    assert forall|i: int|
        0 <= i < ls.len() && #[trigger] ls[i] == "pub type "@ + n + " = ::core::ffi::c_uint;"@
            && (forall|j: int| 0 <= j < i ==> ls[j] != "pub type "@ + n + " = ::core::ffi::c_uint;"@)
            implies retyped_aliases(ls, seq![n]) == (
            ls.update(i, "pub type "@ + n + " = ::core::ffi::c_int;"@),
            true,
        ) by {
        lemma_first_match_is(0, ls.len() as int, p, i);
    }
    if forall|i: int| 0 <= i < ls.len() ==> #[trigger] ls[i] != "pub type "@ + n + " = ::core::ffi::c_uint;"@ {
        lemma_last_match_none_first(0, ls.len() as int, p);
    }
}

proof fn lemma_last_match_none_first(lo: int, hi: int, p: spec_fn(int) -> bool)
    requires
        forall|j: int| lo <= j < hi ==> !#[trigger] p(j),
    ensures
        first_match(lo, hi, p) is None,
    decreases hi - lo,
{
    if lo < hi {
        lemma_last_match_none_first(lo + 1, hi, p);
    }
}

/// The structs whose derives are replaced are the five that hold function pointers:
/// `ImFontLoader`, `ImGuiSelectionBasicStorage`, `ImGuiSelectionExternalStorage`,
/// `ImDrawCmd` and `ImGuiPlatformIO`, each once.
pub proof fn lemma_patched_structs_are_the_five()
    ensures
        patched_struct_names().len() == 5,
        patched_struct_names().contains("ImFontLoader"@),
        patched_struct_names().contains("ImGuiSelectionBasicStorage"@),
        patched_struct_names().contains("ImGuiSelectionExternalStorage"@),
        patched_struct_names().contains("ImDrawCmd"@),
        patched_struct_names().contains("ImGuiPlatformIO"@),
{
    let ns = patched_struct_names();
    assert(ns[0] == "ImFontLoader"@);
    assert(ns[1] == "ImGuiSelectionBasicStorage"@);
    assert(ns[2] == "ImGuiSelectionExternalStorage"@);
    assert(ns[3] == "ImDrawCmd"@);
    assert(ns[4] == "ImGuiPlatformIO"@);
}

} // verus!
