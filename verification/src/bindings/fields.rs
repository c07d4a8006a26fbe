//! Fields of the structs in generated bindings.
use vstd::prelude::*;
use crate::text::{
    chars_of, find_char, find_char_in, first_match, starts_with, starts_with_at, str_starts_with,
    trim, trim_end_matches, trim_end_matches_index, trim_range, trim_start, trim_start_index,
    trim_str,
};

verus! {

/// A field of a generated struct: its name and its type, as written.
#[derive(Debug, Clone, PartialEq, Eq)]
pub struct Field {
    pub name: String,
    pub ty: String,
}

impl View for Field {
    type V = (Seq<char>, Seq<char>);

    open spec fn view(&self) -> (Seq<char>, Seq<char>) {
        (self.name@, self.ty@)
    }
}

/// The name and type of each field.
pub open spec fn fields_view(fs: Seq<Field>) -> Seq<(Seq<char>, Seq<char>)> {
    fs.map_values(|f: Field| f@)
}

/// The field that a declaration `pub name: Type` declares: after trimming and removing
/// trailing commas the text starts with `pub `; the name is what precedes the first
/// `:`, the type what follows it, both trimmed. None without `pub ` or without `:`.
pub open spec fn field_of(text: Seq<char>) -> Option<(Seq<char>, Seq<char>)> {
    let t = trim_end_matches(trim(text), ',');
    if starts_with(t, "pub "@) {
        let rest = t.skip("pub "@.len() as int);
        match find_char(rest, ':') {
            Some(i) => Some((trim(rest.take(i)), trim(rest.skip(i + 1)))),
            None => None,
        }
    } else {
        None
    }
}

/// A trimmed line closes the struct body.
pub open spec fn closes_body(t: Seq<char>) -> bool {
    t.len() > 0 && t[0] == '}'
}

/// A trimmed line ends a field declaration.
pub open spec fn ends_declaration(t: Seq<char>) -> bool {
    t.len() > 0 && t.last() == ','
}

/// The declaration being read once the trimmed line `t` is taken in.
pub open spec fn extend_declaration(current: Option<Seq<char>>, t: Seq<char>) -> Option<Seq<char>> {
    if starts_with(t, "pub "@) {
        Some(t)
    } else {
        match current {
            Some(b) => if t.len() > 0 {
                Some(b.push(' ') + t)
            } else {
                Some(b)
            },
            None => None,
        }
    }
}

/// The fields declared by the lines `ls`, read up to the first line that closes the
/// body: a declaration starts at a line beginning with `pub `, takes in the
/// following non-empty lines (joined with a space), and ends at a line ending with `,`.
pub open spec fn scan_fields(
    ls: Seq<Seq<char>>,
    current: Option<Seq<char>>,
    acc: Seq<(Seq<char>, Seq<char>)>,
) -> Seq<(Seq<char>, Seq<char>)>
    decreases ls.len(),
{
    if ls.len() == 0 {
        acc
    } else {
        let t = trim(ls[0]);
        if closes_body(t) {
            acc
        } else {
            match extend_declaration(current, t) {
                Some(b) => if ends_declaration(t) {
                    let acc2 = match field_of(b) {
                        Some(f) => acc.push(f),
                        None => acc,
                    };
                    scan_fields(ls.drop_first(), None, acc2)
                } else {
                    scan_fields(ls.drop_first(), Some(b), acc)
                },
                None => scan_fields(ls.drop_first(), None, acc),
            }
        }
    }
}

/// The fields of the struct declared at line `struct_index`.
pub open spec fn struct_fields(ls: Seq<Seq<char>>, struct_index: int) -> Seq<(Seq<char>, Seq<char>)> {
    if struct_index + 1 <= ls.len() {
        scan_fields(ls.skip(struct_index + 1), None, seq![])
    } else {
        seq![]
    }
}

/// The line that closes the struct body: the first line from `struct_index` on whose
/// text, without leading whitespace, begins with `}`.
pub open spec fn struct_end(ls: Seq<Seq<char>>, struct_index: int) -> Option<int> {
    first_match(struct_index, ls.len() as int, |i: int| closes_body(trim_start(ls[i])))
}

pub open spec fn opt_view(o: Option<String>) -> Option<Seq<char>> {
    match o {
        Some(s) => Some(s@),
        None => None,
    }
}

/// Reads one field declaration such as `pub name: Type,`.
pub fn parse_field(text: &str) -> (r: Option<Field>)
    ensures
        match r {
            Some(f) => field_of(text@) == Some(f@),
            None => field_of(text@) is None,
        },
{
    let cs = chars_of(text);
    let n = cs.len();
    let (a, b) = trim_range(&cs, 0, n);
    assert(cs@.subrange(0, n as int) =~= cs@);
    let j = trim_end_matches_index(&cs, a, b, ',');
    assert(cs@.subrange(a as int, b as int) =~= cs@.subrange(0, n as int).subrange(a as int, b as int));
    let ghost t = cs@.subrange(a as int, j as int);
    assert(t == trim_end_matches(trim(text@), ','));
    let prefix = chars_of("pub ");
    if !starts_with_at(&cs, a, j, &prefix) {
        return None;
    }
    let r0 = a + prefix.len();
    let ghost rest = t.skip(prefix@.len() as int);
    assert(rest =~= cs@.subrange(r0 as int, j as int));
    match find_char_in(&cs, r0, j, ':') {
        Some(k) => {
            let (na, nb) = trim_range(&cs, r0, k);
            let (ta, tb) = trim_range(&cs, k + 1, j);
            assert(rest.take(k - r0) =~= cs@.subrange(r0 as int, k as int));
            assert(rest.skip(k - r0 + 1) =~= cs@.subrange(k + 1, j as int));
            let name = text.substring_char(na, nb).to_owned();
            let ty = text.substring_char(ta, tb).to_owned();
            Some(Field { name, ty })
        },
        None => None,
    }
}

/// Whether a trimmed line ends with a comma.
fn ends_with_comma(t: &str) -> (r: bool)
    ensures
        r == ends_declaration(t@),
{
    let cs = chars_of(t);
    cs.len() > 0 && cs[cs.len() - 1] == ','
}

/// Whether a trimmed line begins with `}`.
fn begins_with_close(t: &str) -> (r: bool)
    ensures
        r == closes_body(t@),
{
    let cs = chars_of(t);
    cs.len() > 0 && cs[0] == '}'
}

/// Reads the fields of the struct whose declaration is at line `struct_index`.
pub fn parse_struct_fields(lines: &[String], struct_index: usize) -> (r: Vec<Field>)
    requires
        struct_index < usize::MAX,
    ensures
        fields_view(r@) == struct_fields(lines.deep_view(), struct_index as int),
{
    let ghost ls = lines.deep_view();
    let mut fields: Vec<Field> = Vec::new();
    if struct_index + 1 > lines.len() {
        assert(fields_view(fields@) =~= seq![]);
        return fields;
    }
    let mut current: Option<String> = None;
    let mut i = struct_index + 1;
    assert(fields_view(fields@) =~= seq![]);
    while i < lines.len()
        invariant
            ls == lines.deep_view(),
            struct_index + 1 <= i <= lines@.len(),
            scan_fields(ls.skip(struct_index + 1), None, seq![]) == scan_fields(
                ls.skip(i as int),
                opt_view(current),
                fields_view(fields@),
            ),
        decreases lines@.len() - i,
    {
        let ghost rest = ls.skip(i as int);
        assert(rest[0] == lines@[i as int]@);
        assert(rest.drop_first() =~= ls.skip(i + 1));
        let t = trim_str(lines[i].as_str());
        if begins_with_close(t.as_str()) {
            assert(ls.skip(struct_index + 1).len() > 0);
            return fields;
        }
        let ghost cur = extend_declaration(opt_view(current), t@);
        if str_starts_with(t.as_str(), "pub ") {
            current = Some(t.clone());
        } else {
            match current {
                Some(b) => {
                    if t.as_str().unicode_len() > 0 {
                        let mut b = b;
                        b.append(" ");
                        b.append(t.as_str());
                        proof {
                            reveal_strlit(" ");
                        }
                        current = Some(b);
                    } else {
                        current = Some(b);
                    }
                },
                None => {},
            }
        }
        assert(opt_view(current) == cur);
        match current {
            Some(b) => {
                if ends_with_comma(t.as_str()) {
                    let ghost before = fields_view(fields@);
                    match parse_field(b.as_str()) {
                        Some(f) => {
                            fields.push(f);
                            assert(fields_view(fields@) =~= before.push(f@));
                        },
                        None => {},
                    }
                    current = None;
                } else {
                    current = Some(b);
                }
            },
            None => {},
        }
        i = i + 1;
    }
    assert(ls.skip(i as int).len() == 0);
    fields
}

/// Finds the line that closes the body of the struct declared at line `struct_index`.
pub fn find_struct_end(lines: &[String], struct_index: usize) -> (r: Option<usize>)
    ensures
        match r {
            Some(i) => i < lines@.len() && struct_end(lines.deep_view(), struct_index as int) == Some(
                i as int,
            ),
            None => struct_end(lines.deep_view(), struct_index as int) is None,
        },
{
    let ghost ls = lines.deep_view();
    let ghost p = |i: int| closes_body(trim_start(ls[i]));
    let mut i = struct_index;
    while i < lines.len()
        invariant
            ls == lines.deep_view(),
            p == (|i: int| closes_body(trim_start(ls[i]))),
            struct_index <= i,
            first_match(struct_index as int, ls.len() as int, p) == first_match(
                i as int,
                ls.len() as int,
                p,
            ),
        decreases lines@.len() - i,
    {
        let cs = chars_of(lines[i].as_str());
        let k = trim_start_index(&cs, 0, cs.len());
        assert(cs@.subrange(0, cs@.len() as int) =~= cs@);
        if k < cs.len() && cs[k] == '}' {
            assert(p(i as int));
            return Some(i);
        }
        assert(!p(i as int));
        i = i + 1;
    }
    None
}

} // verus!
