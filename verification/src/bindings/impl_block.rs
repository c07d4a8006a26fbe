//! The hand-written `PartialEq`, `Eq` and `Hash` impls that replace derives on
//! structs holding function pointers.
use vstd::prelude::*;
use crate::bindings::fields::{fields_view, Field};
use crate::text::{contains, join, join_strs, str_contains, str_eq};

verus! {

/// Helper macro for comparing optional function pointers by address.
pub const FN_OPT_EQ_MACRO: &'static str = "        macro_rules! fn_opt_eq {\n($left:expr, $right:expr) => {\nmatch ($left, $right) {\n(Some(a), Some(b)) => ::core::ptr::fn_addr_eq(a, b),\n(None, None) => true,\n_ => false,\n}\n};\n}\n\n";

/// Helper macro for comparing function pointers by address.
pub const FN_EQ_MACRO: &'static str = "        macro_rules! fn_eq {\n($left:expr, $right:expr) => {\n::core::ptr::fn_addr_eq($left, $right)\n};\n}\n\n";

/// Helper macro for hashing optional function pointers by address.
pub const FN_OPT_HASH_MACRO: &'static str = "        macro_rules! fn_opt_hash {\n($value:expr, $state:expr) => {{\nlet addr = match $value {\nSome(f) => f as *const () as usize,\nNone => 0,\n};\n::core::hash::Hash::hash(&addr, $state);\n}};\n}\n\n";

/// Helper macro for hashing function pointers by address.
pub const FN_HASH_MACRO: &'static str = "        macro_rules! fn_hash {\n($value:expr, $state:expr) => {{\nlet addr = $value as *const () as usize;\n::core::hash::Hash::hash(&addr, $state);\n}};\n}\n\n";

/// A field type is a function pointer: it mentions `extern "C" fn` or is `ImDrawCallback`.
pub open spec fn fn_ptr_type(ty: Seq<char>) -> bool {
    contains(ty, "extern \"C\" fn"@) || ty == "ImDrawCallback"@
}

/// A function pointer type is optional: it mentions `Option<` or is `ImDrawCallback`.
pub open spec fn fn_ptr_option_type(ty: Seq<char>) -> bool {
    contains(ty, "Option<"@) || ty == "ImDrawCallback"@
}

/// The comparison of one field in `eq`.
pub open spec fn eq_check(f: (Seq<char>, Seq<char>)) -> Seq<char> {
    if fn_ptr_type(f.1) {
        if fn_ptr_option_type(f.1) {
            "fn_opt_eq!(self."@ + f.0 + ", other."@ + f.0 + ")"@
        } else {
            "fn_eq!(self."@ + f.0 + ", other."@ + f.0 + ")"@
        }
    } else {
        "self."@ + f.0 + " == other."@ + f.0
    }
}

/// The statement that hashes one field in `hash`.
pub open spec fn hash_line(f: (Seq<char>, Seq<char>)) -> Seq<char> {
    if fn_ptr_type(f.1) {
        if fn_ptr_option_type(f.1) {
            "fn_opt_hash!(self."@ + f.0 + ", state);"@
        } else {
            "fn_hash!(self."@ + f.0 + ", state);"@
        }
    } else {
        "::core::hash::Hash::hash(&self."@ + f.0 + ", state);"@
    }
}

/// Some field is an optional function pointer.
pub open spec fn uses_fn_opt(fs: Seq<(Seq<char>, Seq<char>)>) -> bool {
    exists|i: int| 0 <= i < fs.len() && fn_ptr_type(#[trigger] fs[i].1) && fn_ptr_option_type(fs[i].1)
}

/// Some field is a plain function pointer.
pub open spec fn uses_fn(fs: Seq<(Seq<char>, Seq<char>)>) -> bool {
    exists|i: int| 0 <= i < fs.len() && fn_ptr_type(#[trigger] fs[i].1) && !fn_ptr_option_type(fs[i].1)
}

/// `text` when `cond` holds, nothing otherwise.
pub open spec fn when(cond: bool, text: Seq<char>) -> Seq<char> {
    if cond {
        text
    } else {
        Seq::<char>::empty()
    }
}

/// The `PartialEq` impl: every field compared, function pointers by address.
pub open spec fn partial_eq_block(name: Seq<char>, fs: Seq<(Seq<char>, Seq<char>)>) -> Seq<char> {
    "impl PartialEq for "@ + name + " {\n"@ + "    fn eq(&self, other: &Self) -> bool {\n"@ + when(
        uses_fn_opt(fs),
        FN_OPT_EQ_MACRO@,
    ) + when(uses_fn(fs), FN_EQ_MACRO@) + (if fs.len() == 0 {
        "        true\n"@
    } else {
        "        "@ + join(fs.map_values(|f: (Seq<char>, Seq<char>)| eq_check(f)), "\n            && "@)
            + "\n"@
    }) + "    }\n}\n"@
}

/// The `Eq` impl.
pub open spec fn eq_block(name: Seq<char>) -> Seq<char> {
    "impl Eq for "@ + name + " {}\n"@
}

/// One indented line of the `hash` body.
pub open spec fn hash_body_line(f: (Seq<char>, Seq<char>)) -> Seq<char> {
    "        "@ + hash_line(f) + "\n"@
}

/// The `Hash` impl: every field hashed, function pointers by address.
pub open spec fn hash_block(name: Seq<char>, fs: Seq<(Seq<char>, Seq<char>)>) -> Seq<char> {
    "impl ::core::hash::Hash for "@ + name + " {\n"@
        + "    fn hash<H: ::core::hash::Hasher>(&self, state: &mut H) {\n"@ + when(
        uses_fn_opt(fs),
        FN_OPT_HASH_MACRO@,
    ) + when(uses_fn(fs), FN_HASH_MACRO@) + (if fs.len() == 0 {
        "        let _ = state;\n"@
    } else {
        join(fs.map_values(|f: (Seq<char>, Seq<char>)| hash_body_line(f)), ""@)
    }) + "    }\n}\n"@
}

/// The impls asked for, in the order `PartialEq`, `Eq`, `Hash`.
pub open spec fn impl_blocks(
    name: Seq<char>,
    fs: Seq<(Seq<char>, Seq<char>)>,
    needs_partialeq: bool,
    needs_eq: bool,
    needs_hash: bool,
) -> Seq<Seq<char>> {
    (if needs_partialeq {
        seq![partial_eq_block(name, fs)]
    } else {
        seq![]
    }) + (if needs_eq {
        seq![eq_block(name)]
    } else {
        seq![]
    }) + (if needs_hash {
        seq![hash_block(name, fs)]
    } else {
        seq![]
    })
}

/// The text of the impls asked for, separated by blank lines.
pub open spec fn impl_block(
    name: Seq<char>,
    fs: Seq<(Seq<char>, Seq<char>)>,
    needs_partialeq: bool,
    needs_eq: bool,
    needs_hash: bool,
) -> Seq<char> {
    join(impl_blocks(name, fs, needs_partialeq, needs_eq, needs_hash), "\n"@)
}

/// Whether a field type is a function pointer.
pub fn is_fn_ptr_type(ty: &str) -> (r: bool)
    ensures
        r == fn_ptr_type(ty@),
{
    str_contains(ty, "extern \"C\" fn") || str_eq(ty, "ImDrawCallback")
}

/// Whether a function pointer field type is optional.
pub fn is_fn_ptr_option_type(ty: &str) -> (r: bool)
    ensures
        r == fn_ptr_option_type(ty@),
{
    str_contains(ty, "Option<") || str_eq(ty, "ImDrawCallback")
}

/// `a`, then `name`, then `b`, then `name`, then `c`.
fn around_twice(a: &str, name: &str, b: &str, c: &str) -> (r: String)
    ensures
        r@ == a@ + name@ + b@ + name@ + c@,
{
    let mut s = a.to_owned();
    s.append(name);
    s.append(b);
    s.append(name);
    s.append(c);
    s
}

/// `a`, then `name`, then `b`.
fn around(a: &str, name: &str, b: &str) -> (r: String)
    ensures
        r@ == a@ + name@ + b@,
{
    let mut s = a.to_owned();
    s.append(name);
    s.append(b);
    s
}

/// The comparison of one field.
fn field_eq_check(f: &Field) -> (r: String)
    ensures
        r@ == eq_check(f@),
{
    let name = f.name.as_str();
    if is_fn_ptr_type(f.ty.as_str()) {
        if is_fn_ptr_option_type(f.ty.as_str()) {
            around_twice("fn_opt_eq!(self.", name, ", other.", ")")
        } else {
            around_twice("fn_eq!(self.", name, ", other.", ")")
        }
    } else {
        around("self.", name, " == other.").concat(name)
    }
}

/// The indented statement that hashes one field.
fn field_hash_line(f: &Field) -> (r: String)
    ensures
        r@ == hash_body_line(f@),
{
    let name = f.name.as_str();
    let line = if is_fn_ptr_type(f.ty.as_str()) {
        if is_fn_ptr_option_type(f.ty.as_str()) {
            around("fn_opt_hash!(self.", name, ", state);")
        } else {
            around("fn_hash!(self.", name, ", state);")
        }
    } else {
        around("::core::hash::Hash::hash(&self.", name, ", state);")
    };
    around("        ", line.as_str(), "\n")
}

/// Builds the impls that replace derived `PartialEq`, `Eq` and `Hash` on a struct.
pub fn build_impl_block(
    name: &str,
    fields: &[Field],
    needs_partialeq: bool,
    needs_eq: bool,
    needs_hash: bool,
) -> (r: String)
    ensures
        r@ == impl_block(name@, fields_view(fields@), needs_partialeq, needs_eq, needs_hash),
{
    let ghost fs = fields_view(fields@);
    let mut eq_checks: Vec<String> = Vec::new();
    let mut hash_lines: Vec<String> = Vec::new();
    let mut uses_opt = false;
    let mut uses_plain = false;
    let mut k: usize = 0;
    while k < fields.len()
        invariant
            fs == fields_view(fields@),
            k <= fs.len(),
            eq_checks.deep_view() == fs.take(k as int).map_values(
                |f: (Seq<char>, Seq<char>)| eq_check(f),
            ),
            hash_lines.deep_view() == fs.take(k as int).map_values(
                |f: (Seq<char>, Seq<char>)| hash_body_line(f),
            ),
            uses_opt == uses_fn_opt(fs.take(k as int)),
            uses_plain == uses_fn(fs.take(k as int)),
        decreases fs.len() - k,
    {
        let field = &fields[k];
        assert(fs[k as int] == field@);
        let ghost before_eq = eq_checks.deep_view();
        let ghost before_hash = hash_lines.deep_view();
        let is_ptr = is_fn_ptr_type(field.ty.as_str());
        let is_opt = is_fn_ptr_option_type(field.ty.as_str());
        if is_ptr {
            if is_opt {
                uses_opt = true;
            } else {
                uses_plain = true;
            }
        }
        let check = field_eq_check(field);
        let line = field_hash_line(field);
        let ghost cv = check@;
        let ghost lv = line@;
        eq_checks.push(check);
        hash_lines.push(line);
        let ghost next = fs.take(k + 1);
        assert(next =~= fs.take(k as int).push(fs[k as int]));
        assert(eq_checks.deep_view() =~= before_eq.push(cv));
        assert(hash_lines.deep_view() =~= before_hash.push(lv));
        assert(next.map_values(|f: (Seq<char>, Seq<char>)| eq_check(f)) =~= before_eq.push(
            eq_check(fs[k as int]),
        ));
        assert(next.map_values(|f: (Seq<char>, Seq<char>)| hash_body_line(f)) =~= before_hash.push(
            hash_body_line(fs[k as int]),
        ));
        assert(eq_checks.deep_view() =~= next.map_values(|f: (Seq<char>, Seq<char>)| eq_check(f)));
        assert(hash_lines.deep_view() =~= next.map_values(
            |f: (Seq<char>, Seq<char>)| hash_body_line(f),
        ));
        assert(next[k as int] == fs[k as int]);
        assert(next[k as int].1 == field.ty@);
        assert(is_ptr == fn_ptr_type(next[k as int].1));
        assert(is_opt == fn_ptr_option_type(next[k as int].1));
        assert(uses_opt == uses_fn_opt(next)) by {
            if is_ptr && is_opt {
                assert(fn_ptr_type(next[k as int].1) && fn_ptr_option_type(next[k as int].1));
            }
            if uses_fn_opt(fs.take(k as int)) {
                let i = choose|i: int|
                    0 <= i < k && fn_ptr_type(#[trigger] fs.take(k as int)[i].1) && fn_ptr_option_type(
                        fs.take(k as int)[i].1,
                    );
                assert(next[i] == fs.take(k as int)[i]);
            }
            if uses_fn_opt(next) {
                let i = choose|i: int|
                    0 <= i < next.len() && fn_ptr_type(#[trigger] next[i].1) && fn_ptr_option_type(
                        next[i].1,
                    );
                if i < k {
                    assert(next[i] == fs.take(k as int)[i]);
                }
            }
        }
        assert(uses_plain == uses_fn(next)) by {
            if is_ptr && !is_opt {
                assert(fn_ptr_type(next[k as int].1) && !fn_ptr_option_type(next[k as int].1));
            }
            if uses_fn(fs.take(k as int)) {
                let i = choose|i: int|
                    0 <= i < k && fn_ptr_type(#[trigger] fs.take(k as int)[i].1)
                        && !fn_ptr_option_type(fs.take(k as int)[i].1);
                assert(next[i] == fs.take(k as int)[i]);
            }
            if uses_fn(next) {
                let i = choose|i: int|
                    0 <= i < next.len() && fn_ptr_type(#[trigger] next[i].1) && !fn_ptr_option_type(
                        next[i].1,
                    );
                if i < k {
                    assert(next[i] == fs.take(k as int)[i]);
                }
            }
        }
        k = k + 1;
    }
    assert(fs.take(k as int) =~= fs);
    let ghost eqv = fs.map_values(|f: (Seq<char>, Seq<char>)| eq_check(f));
    let ghost hashv = fs.map_values(|f: (Seq<char>, Seq<char>)| hash_body_line(f));
    let mut blocks: Vec<String> = Vec::new();
    let ghost mut expected: Seq<Seq<char>> = seq![];
    if needs_partialeq {
        let mut block = around("impl PartialEq for ", name, " {\n");
        block.append("    fn eq(&self, other: &Self) -> bool {\n");
        let ghost head = block@;
        let mut macros = String::new();
        if uses_opt {
            macros.append(FN_OPT_EQ_MACRO);
        }
        let ghost m1 = macros@;
        assert(m1 =~= when(uses_fn_opt(fs), FN_OPT_EQ_MACRO@));
        if uses_plain {
            macros.append(FN_EQ_MACRO);
        }
        assert(macros@ =~= m1 + when(uses_fn(fs), FN_EQ_MACRO@));
        block.append(macros.as_str());
        let body = if eq_checks.len() == 0 {
            "        true\n".to_owned()
        } else {
            let joined = join_strs(&eq_checks, "\n            && ");
            around("        ", joined.as_str(), "\n")
        };
        block.append(body.as_str());
        block.append("    }\n}\n");
        assert(block@ =~= partial_eq_block(name@, fs));
        blocks.push(block);
        proof {
            expected = expected.push(partial_eq_block(name@, fs));
        }
    }
    if needs_eq {
        blocks.push(around("impl Eq for ", name, " {}\n"));
        proof {
            expected = expected.push(eq_block(name@));
        }
    }
    if needs_hash {
        let mut block = around("impl ::core::hash::Hash for ", name, " {\n");
        block.append("    fn hash<H: ::core::hash::Hasher>(&self, state: &mut H) {\n");
        let mut macros = String::new();
        if uses_opt {
            macros.append(FN_OPT_HASH_MACRO);
        }
        let ghost m1 = macros@;
        assert(m1 =~= when(uses_fn_opt(fs), FN_OPT_HASH_MACRO@));
        if uses_plain {
            macros.append(FN_HASH_MACRO);
        }
        assert(macros@ =~= m1 + when(uses_fn(fs), FN_HASH_MACRO@));
        block.append(macros.as_str());
        let body = if hash_lines.len() == 0 {
            "        let _ = state;\n".to_owned()
        } else {
            join_strs(&hash_lines, "")
        };
        block.append(body.as_str());
        block.append("    }\n}\n");
        assert(block@ =~= hash_block(name@, fs));
        blocks.push(block);
        proof {
            expected = expected.push(hash_block(name@, fs));
        }
    }
    assert(blocks.deep_view() =~= expected);
    assert(expected =~= impl_blocks(name@, fs, needs_partialeq, needs_eq, needs_hash));
    join_strs(&blocks, "\n")
}

/// The impl text is empty exactly when no impl is asked for.
pub proof fn lemma_impl_block_empty(
    name: Seq<char>,
    fs: Seq<(Seq<char>, Seq<char>)>,
    needs_partialeq: bool,
    needs_eq: bool,
    needs_hash: bool,
)
    ensures
        impl_block(name, fs, needs_partialeq, needs_eq, needs_hash).len() == 0 <==> (
        !needs_partialeq && !needs_eq && !needs_hash),
{
    reveal_strlit("impl PartialEq for ");
    reveal_strlit("impl Eq for ");
    reveal_strlit("impl ::core::hash::Hash for ");
    let blocks = impl_blocks(name, fs, needs_partialeq, needs_eq, needs_hash);
    assert(partial_eq_block(name, fs).len() > 0);
    assert(eq_block(name).len() > 0);
    assert(hash_block(name, fs).len() > 0);
    if !needs_partialeq && !needs_eq && !needs_hash {
        assert(blocks =~= Seq::<Seq<char>>::empty());
    } else {
        assert(blocks.len() > 0);
        assert(blocks.last().len() > 0);
        if blocks.len() > 1 {
            assert(join(blocks, "\n"@) == join(blocks.drop_last(), "\n"@) + "\n"@ + blocks.last());
        }
    }
}

/// A field whose type mentions `extern "C" fn` and holds `Option<` anywhere in it
/// (as bindgen writes `::core::option::Option<unsafe extern "C" fn(..)>`) is an
/// optional function pointer: compared with `fn_opt_eq!` and hashed with
/// `fn_opt_hash!`.
pub proof fn lemma_optional_fn_ptr_field(name: Seq<char>, ty: Seq<char>)
    requires
        contains(ty, "extern \"C\" fn"@),
        contains(ty, "Option<"@),
    ensures
        fn_ptr_type(ty),
        fn_ptr_option_type(ty),
        eq_check((name, ty)) == "fn_opt_eq!(self."@ + name + ", other."@ + name + ")"@,
        hash_line((name, ty)) == "fn_opt_hash!(self."@ + name + ", state);"@,
{
}

/// `ImDrawCallback` is an optional function pointer.
pub proof fn lemma_draw_callback_field(name: Seq<char>)
    ensures
        eq_check((name, "ImDrawCallback"@)) == "fn_opt_eq!(self."@ + name + ", other."@ + name
            + ")"@,
        hash_line((name, "ImDrawCallback"@)) == "fn_opt_hash!(self."@ + name + ", state);"@,
{
}

/// A field whose type mentions `extern "C" fn` but holds no `Option<` (and is not
/// `ImDrawCallback`) is a plain function pointer: compared with `fn_eq!` and hashed
/// with `fn_hash!`.
pub proof fn lemma_plain_fn_ptr_field(name: Seq<char>, ty: Seq<char>)
    requires
        contains(ty, "extern \"C\" fn"@),
        !contains(ty, "Option<"@),
        ty != "ImDrawCallback"@,
    ensures
        fn_ptr_type(ty),
        !fn_ptr_option_type(ty),
        eq_check((name, ty)) == "fn_eq!(self."@ + name + ", other."@ + name + ")"@,
        hash_line((name, ty)) == "fn_hash!(self."@ + name + ", state);"@,
{
}

/// A field whose type does not mention `extern "C" fn` (and is not `ImDrawCallback`)
/// is compared with `==` and hashed with `Hash::hash`.
pub proof fn lemma_value_field(name: Seq<char>, ty: Seq<char>)
    requires
        !contains(ty, "extern \"C\" fn"@),
        ty != "ImDrawCallback"@,
    ensures
        !fn_ptr_type(ty),
        eq_check((name, ty)) == "self."@ + name + " == other."@ + name,
        hash_line((name, ty)) == "::core::hash::Hash::hash(&self."@ + name + ", state);"@,
{
}

} // verus!
