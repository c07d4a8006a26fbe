//! The allowlists that bindgen gets: the types and functions that cimgui declares,
//! each as a pattern anchored at the start of the name; and the files involved.
use vstd::prelude::*;
use crate::bindings::json::{json_field, json_get, JsonValue, MetadataError};
use crate::text::{starts_with, str_eq, str_starts_with};

verus! {

/// A name as a pattern that matches from its start.
pub open spec fn anchored(name: Seq<char>) -> Seq<char> {
    "^"@ + name
}

/// The keys of a JSON object, in order; none for anything else.
pub open spec fn object_keys(v: Option<JsonValue>) -> Option<Seq<Seq<char>>> {
    match v {
        Some(JsonValue::Object(entries)) => Some(
            entries@.map_values(|e: (String, JsonValue)| e.0@),
        ),
        _ => None,
    }
}

/// The type allowlist and the enum names read from `structs_and_enums.json`: the
/// anchored enum names followed by the anchored struct names, and the enum names.
pub open spec fn types_of(v: JsonValue) -> Result<(Seq<Seq<char>>, Seq<Seq<char>>), MetadataError> {
    match object_keys(json_field(v, "enums"@)) {
        None => Err(MetadataError::NoEnums),
        Some(enums) => match object_keys(json_field(v, "structs"@)) {
            None => Err(MetadataError::NoStructs),
            Some(structs) => Ok(
                (
                    enums.map_values(|n: Seq<char>| anchored(n)) + structs.map_values(
                        |n: Seq<char>| anchored(n),
                    ),
                    enums,
                ),
            ),
        },
    }
}

/// The anchored names of the keys of an object, appended to `out`.
fn push_anchored_keys(entries: &Vec<(String, JsonValue)>, out: &mut Vec<String>)
    ensures
        final(out).deep_view() == old(out).deep_view() + entries@.map_values(
            |e: (String, JsonValue)| e.0@,
        ).map_values(|n: Seq<char>| anchored(n)),
{
    let ghost start = out.deep_view();
    let ghost keys = entries@.map_values(|e: (String, JsonValue)| e.0@).map_values(
        |n: Seq<char>| anchored(n),
    );
    let mut k: usize = 0;
    while k < entries.len()
        invariant
            start == old(out).deep_view(),
            keys == entries@.map_values(|e: (String, JsonValue)| e.0@).map_values(
                |n: Seq<char>| anchored(n),
            ),
            k <= entries@.len(),
            out.deep_view() == start + keys.take(k as int),
        decreases entries@.len() - k,
    {
        let ghost before = out.deep_view();
        let name = "^".to_owned().concat(entries[k].0.as_str());
        assert(name@ == keys[k as int]);
        let ghost nv = name@;
        out.push(name);
        assert(out.deep_view() =~= before.push(nv));
        assert(out.deep_view() =~= start + keys.take(k + 1));
        k = k + 1;
    }
    assert(keys.take(k as int) =~= keys);
}

/// Reads the type allowlist and the enum names from `structs_and_enums.json`.
pub fn get_types(types: &JsonValue) -> (r: Result<(Vec<String>, Vec<String>), MetadataError>)
    ensures
        match (r, types_of(*types)) {
            (Ok((ts, es)), Ok((sts, ses))) => ts.deep_view() == sts && es.deep_view() == ses,
            (Err(e), Err(se)) => e == se,
            _ => false,
        },
{
    let enums = match json_get(types, "enums") {
        Some(JsonValue::Object(entries)) => entries,
        _ => return Err(MetadataError::NoEnums),
    };
    let mut enum_names: Vec<String> = Vec::new();
    let mut k: usize = 0;
    while k < enums.len()
        invariant
            k <= enums@.len(),
            enum_names.deep_view() == enums@.map_values(|e: (String, JsonValue)| e.0@).take(k as int),
        decreases enums@.len() - k,
    {
        let ghost before = enum_names.deep_view();
        let name = enums[k].0.clone();
        let ghost nv = name@;
        enum_names.push(name);
        assert(enum_names.deep_view() =~= before.push(nv));
        assert(enum_names.deep_view() =~= enums@.map_values(|e: (String, JsonValue)| e.0@).take(
            k + 1,
        ));
        k = k + 1;
    }
    assert(enums@.map_values(|e: (String, JsonValue)| e.0@).take(k as int) =~= enums@.map_values(
        |e: (String, JsonValue)| e.0@,
    ));
    let mut patterns: Vec<String> = Vec::new();
    push_anchored_keys(enums, &mut patterns);
    let structs = match json_get(types, "structs") {
        Some(JsonValue::Object(entries)) => entries,
        _ => return Err(MetadataError::NoStructs),
    };
    push_anchored_keys(structs, &mut patterns);
    Ok((patterns, enum_names))
}

/// An argument type that bindgen cannot bind: `va_list`, or a name starting with `__`.
pub open spec fn bad_arg_type(ty: Seq<char>) -> bool {
    ty == "va_list"@ || starts_with(ty, "__"@)
}

/// Whether an argument type is one that bindgen cannot bind.
pub fn is_bad_arg_type(ty: &str) -> (r: bool)
    ensures
        r == bad_arg_type(ty@),
{
    str_eq(ty, "va_list") || str_starts_with(ty, "__")
}

/// Some argument of an overload has a `type` that cannot be bound.
pub open spec fn has_bad_arg(args: Seq<JsonValue>) -> bool {
    exists|i: int|
        0 <= i < args.len() && match json_field(#[trigger] args[i], "type"@) {
            Some(JsonValue::Str(ty)) => bad_arg_type(ty@),
            _ => false,
        }
}

/// Where reading the function allowlist ends.
pub enum DefinitionsOutcome {
    /// The anchored names of the overloads that can be bound, in order.
    Kept(Seq<Seq<char>>),
    /// The metadata is malformed.
    Failed(MetadataError),
    /// An overload has no `argsT` array: the reading stops there without an answer.
    Stuck,
}

/// Reads the overloads of one definition, after the names `acc` kept so far: an
/// overload whose arguments can all be bound contributes its anchored
/// `ov_cimguiname`.
pub open spec fn overloads_outcome(funcs: Seq<JsonValue>, acc: Seq<Seq<char>>) -> DefinitionsOutcome
    decreases funcs.len(),
{
    if funcs.len() == 0 {
        DefinitionsOutcome::Kept(acc)
    } else {
        match json_field(funcs[0], "argsT"@) {
            Some(JsonValue::Array(args)) => if has_bad_arg(args@) {
                overloads_outcome(funcs.drop_first(), acc)
            } else {
                match json_field(funcs[0], "ov_cimguiname"@) {
                    Some(JsonValue::Str(name)) => overloads_outcome(
                        funcs.drop_first(),
                        acc.push(anchored(name@)),
                    ),
                    _ => DefinitionsOutcome::Failed(MetadataError::NameNotString),
                }
            },
            _ => DefinitionsOutcome::Stuck,
        }
    }
}

/// Reads the definitions in order, after the names `acc` kept so far.
pub open spec fn entries_outcome(entries: Seq<(String, JsonValue)>, acc: Seq<Seq<char>>) -> DefinitionsOutcome
    decreases entries.len(),
{
    if entries.len() == 0 {
        DefinitionsOutcome::Kept(acc)
    } else {
        match entries[0].1 {
            JsonValue::Array(funcs) => match overloads_outcome(funcs@, acc) {
                DefinitionsOutcome::Kept(acc2) => entries_outcome(entries.drop_first(), acc2),
                other => other,
            },
            _ => DefinitionsOutcome::Failed(MetadataError::DefinitionNotArray { name: entries[0].0 }),
        }
    }
}

/// The function allowlist that `definitions.json` gives.
pub open spec fn definitions_outcome(v: JsonValue) -> DefinitionsOutcome {
    match v {
        JsonValue::Object(entries) => entries_outcome(entries@, seq![]),
        _ => DefinitionsOutcome::Failed(MetadataError::DefinitionsNotObject),
    }
}

/// Whether some argument of an overload has a `type` that cannot be bound.
fn any_bad_arg(args: &Vec<JsonValue>) -> (r: bool)
    ensures
        r == has_bad_arg(args@),
{
    let mut k: usize = 0;
    while k < args.len()
        invariant
            k <= args@.len(),
            forall|j: int|
                0 <= j < k ==> !match json_field(#[trigger] args@[j], "type"@) {
                    Some(JsonValue::Str(ty)) => bad_arg_type(ty@),
                    _ => false,
                },
        decreases args@.len() - k,
    {
        let bad = match json_get(&args[k], "type") {
            Some(JsonValue::Str(ty)) => is_bad_arg_type(ty.as_str()),
            _ => false,
        };
        if bad {
            assert(match json_field(args@[k as int], "type"@) {
                Some(JsonValue::Str(ty)) => bad_arg_type(ty@),
                _ => false,
            });
            return true;
        }
        k = k + 1;
    }
    false
}

/// Reads the function allowlist: `None` where an overload has no `argsT` array.
fn scan_definitions(defs: &JsonValue) -> (r: Option<Result<Vec<String>, MetadataError>>)
    ensures
        match (r, definitions_outcome(*defs)) {
            (Some(Ok(v)), DefinitionsOutcome::Kept(s)) => v.deep_view() == s,
            (Some(Err(e)), DefinitionsOutcome::Failed(f)) => e == f,
            (None, DefinitionsOutcome::Stuck) => true,
            _ => false,
        },
{
    let entries = match defs {
        JsonValue::Object(es) => es,
        _ => return Some(Err(MetadataError::DefinitionsNotObject)),
    };
    let ghost es = entries@;
    let mut keep: Vec<String> = Vec::new();
    let mut i: usize = 0;
    assert(es.skip(0) =~= es);
    assert(keep.deep_view() =~= seq![]);
    while i < entries.len()
        invariant
            es == entries@,
            *defs == JsonValue::Object(*entries),
            i <= es.len(),
            entries_outcome(es, seq![]) == entries_outcome(es.skip(i as int), keep.deep_view()),
        decreases es.len() - i,
    {
        let entry = &entries[i];
        assert(es.skip(i as int)[0] == *entry);
        assert(es.skip(i as int).drop_first() =~= es.skip(i + 1));
        let funcs = match &entry.1 {
            JsonValue::Array(f) => f,
            _ => return Some(Err(MetadataError::DefinitionNotArray { name: entry.0.clone() })),
        };
        let ghost fs = funcs@;
        let ghost acc0 = keep.deep_view();
        let mut j: usize = 0;
        assert(fs.skip(0) =~= fs);
        while j < funcs.len()
            invariant
                fs == funcs@,
                es == entries@,
                *defs == JsonValue::Object(*entries),
                i < es.len(),
                es[i as int].1 == JsonValue::Array(*funcs),
                entries_outcome(es, seq![]) == entries_outcome(es.skip(i as int), acc0),
                es.skip(i as int)[0] == es[i as int],
                es.skip(i as int).drop_first() =~= es.skip(i + 1),
                j <= fs.len(),
                overloads_outcome(fs, acc0) == overloads_outcome(fs.skip(j as int), keep.deep_view()),
            decreases fs.len() - j,
        {
            let func = &funcs[j];
            assert(fs.skip(j as int)[0] == *func);
            assert(fs.skip(j as int).drop_first() =~= fs.skip(j + 1));
            let args = match json_get(func, "argsT") {
                Some(JsonValue::Array(a)) => a,
                _ => return None,
            };
            if !any_bad_arg(args) {
                match json_get(func, "ov_cimguiname") {
                    Some(JsonValue::Str(name)) => {
                        let ghost before = keep.deep_view();
                        let pattern = "^".to_owned().concat(name.as_str());
                        let ghost pv = pattern@;
                        keep.push(pattern);
                        assert(keep.deep_view() =~= before.push(pv));
                    },
                    _ => return Some(Err(MetadataError::NameNotString)),
                }
            }
            j = j + 1;
        }
        assert(fs.skip(j as int) =~= Seq::<JsonValue>::empty());
        i = i + 1;
    }
    assert(es.skip(i as int) =~= Seq::<(String, JsonValue)>::empty());
    Some(Ok(keep))
}

/// Reads the function allowlist from `definitions.json`: the anchored
/// `ov_cimguiname` of every overload whose argument types can all be bound.
pub fn get_definitions(defs: &JsonValue) -> (r: Result<Vec<String>, MetadataError>)
    requires
        !(definitions_outcome(*defs) is Stuck),
    ensures
        match (r, definitions_outcome(*defs)) {
            (Ok(v), DefinitionsOutcome::Kept(s)) => v.deep_view() == s,
            (Err(e), DefinitionsOutcome::Failed(f)) => e == f,
            _ => false,
        },
{
    match scan_definitions(defs) {
        Some(r) => r,
        None => Err(MetadataError::NameNotString),
    }
}

/// Whether every overload that `get_definitions` reaches has an `argsT` array.
pub fn definitions_are_readable(defs: &JsonValue) -> (r: bool)
    ensures
        r == !(definitions_outcome(*defs) is Stuck),
{
    scan_definitions(defs).is_some()
}

/// The view of an optional text.
pub open spec fn opt_str_view(o: Option<&str>) -> Option<Seq<char>> {
    match o {
        Some(s) => Some(s@),
        None => None,
    }
}

/// The directory that holds the cimgui sources of a variant, in the freetype
/// flavour when `flag` says so.
pub open spec fn cimgui_dir(variant: Seq<char>, flag: Option<Seq<char>>) -> Seq<char> {
    "imgui-sys/third-party/imgui-"@ + variant + match flag {
        Some(f) => "-"@ + f,
        None => Seq::<char>::empty(),
    }
}

/// The name of the bindings file of a variant and flavour.
pub open spec fn output_name(variant: Seq<char>, flag: Option<Seq<char>>) -> Seq<char> {
    if variant == "master"@ {
        match flag {
            None => "bindings.rs"@,
            Some(f) => f + "_bindings.rs"@,
        }
    } else {
        match flag {
            None => variant + "_bindings.rs"@,
            Some(f) => variant + "_"@ + f + "_bindings.rs"@,
        }
    }
}

/// The directory of the cimgui sources of a variant and flavour.
pub fn cimgui_dir_name(variant: &str, flag: Option<&str>) -> (r: String)
    ensures
        r@ == cimgui_dir(variant@, opt_str_view(flag)),
{
    let mut dir = "imgui-sys/third-party/imgui-".to_owned().concat(variant);
    match flag {
        Some(f) => {
            dir.append("-");
            dir.append(f);
        },
        None => {},
    }
    dir
}

/// The name of the bindings file of a variant and flavour.
pub fn output_file_name(variant: &str, flag: Option<&str>) -> (r: String)
    ensures
        r@ == output_name(variant@, opt_str_view(flag)),
{
    if str_eq(variant, "master") {
        match flag {
            None => "bindings.rs".to_owned(),
            Some(f) => f.to_owned().concat("_bindings.rs"),
        }
    } else {
        match flag {
            None => variant.to_owned().concat("_bindings.rs"),
            Some(f) => variant.to_owned().concat("_").concat(f).concat("_bindings.rs"),
        }
    }
}

/// The name of the bindings file of a variant and flavour built for WebAssembly.
pub fn wasm_output_file_name(variant: &str, flag: Option<&str>) -> (r: String)
    ensures
        r@ == "wasm_"@ + output_name(variant@, opt_str_view(flag)),
{
    "wasm_".to_owned().concat(output_file_name(variant, flag).as_str())
}


/// An argument whose `type` is `va_list` or starts with `__`, at any position of the
/// argument list, makes the list one with an argument that cannot be bound.
pub proof fn lemma_bad_arg_at_any_position(args: Seq<JsonValue>, i: int, ty: String)
    requires
        0 <= i < args.len(),
        json_field(args[i], "type"@) == Some(JsonValue::Str(ty)),
        ty@ == "va_list"@ || starts_with(ty@, "__"@),
    ensures
        has_bad_arg(args),
{
    assert(match json_field(args[i], "type"@) {
        Some(JsonValue::Str(t)) => bad_arg_type(t@),
        _ => false,
    });
}

/// An argument list in which no `type` is `va_list` or starts with `__` has every
/// argument bindable.
pub proof fn lemma_no_bad_arg(args: Seq<JsonValue>)
    requires
        forall|i: int|
            0 <= i < args.len() ==> !(#[trigger] json_field(args[i], "type"@) matches Some(
                JsonValue::Str(t),
            ) && (t@ == "va_list"@ || starts_with(t@, "__"@))),
    ensures
        !has_bad_arg(args),
{
    assert forall|i: int| 0 <= i < args.len() implies !match json_field(#[trigger] args[i], "type"@) {
        Some(JsonValue::Str(ty)) => bad_arg_type(ty@),
        _ => false,
    } by {
        assert(!(json_field(args[i], "type"@) matches Some(JsonValue::Str(t)) && (t@ == "va_list"@
            || starts_with(t@, "__"@))));
    }
}

/// An overload with an argument of type `va_list` or starting with `__`, at any
/// position, is left out of the function allowlist.
pub proof fn lemma_overload_with_bad_arg_left_out(
    f: JsonValue,
    args: Vec<JsonValue>,
    i: int,
    ty: String,
    acc: Seq<Seq<char>>,
)
    requires
        json_field(f, "argsT"@) == Some(JsonValue::Array(args)),
        0 <= i < args@.len(),
        json_field(args@[i], "type"@) == Some(JsonValue::Str(ty)),
        ty@ == "va_list"@ || starts_with(ty@, "__"@),
    ensures
        overloads_outcome(seq![f], acc) == DefinitionsOutcome::Kept(acc),
{
    lemma_bad_arg_at_any_position(args@, i, ty);
    assert(seq![f][0] == f);
    assert(seq![f].drop_first() =~= Seq::<JsonValue>::empty());
    assert(overloads_outcome(Seq::<JsonValue>::empty(), acc) == DefinitionsOutcome::Kept(acc));
}

/// An overload none of whose argument types is `va_list` or starts with `__` adds
/// `^` and its `ov_cimguiname` to the function allowlist.
pub proof fn lemma_overload_kept(f: JsonValue, args: Vec<JsonValue>, name: String, acc: Seq<Seq<char>>)
    requires
        json_field(f, "argsT"@) == Some(JsonValue::Array(args)),
        forall|i: int|
            0 <= i < args@.len() ==> !(#[trigger] json_field(args@[i], "type"@) matches Some(
                JsonValue::Str(t),
            ) && (t@ == "va_list"@ || starts_with(t@, "__"@))),
        json_field(f, "ov_cimguiname"@) == Some(JsonValue::Str(name)),
    ensures
        overloads_outcome(seq![f], acc) == DefinitionsOutcome::Kept(acc.push("^"@ + name@)),
{
    lemma_no_bad_arg(args@);
    assert(seq![f][0] == f);
    assert(seq![f].drop_first() =~= Seq::<JsonValue>::empty());
    let acc2 = acc.push(anchored(name@));
    assert(overloads_outcome(Seq::<JsonValue>::empty(), acc2) == DefinitionsOutcome::Kept(acc2));
}

/// The enum names are the keys of `enums`, unchanged and in order; the type
/// allowlist is `^` and each enum key, then `^` and each struct key.
pub proof fn lemma_types_from_keys(
    v: JsonValue,
    enums: Vec<(String, JsonValue)>,
    structs: Vec<(String, JsonValue)>,
)
    requires
        json_field(v, "enums"@) == Some(JsonValue::Object(enums)),
        json_field(v, "structs"@) == Some(JsonValue::Object(structs)),
    ensures
        types_of(v) matches Ok((ts, es)) && {
            &&& es.len() == enums@.len()
            &&& ts.len() == enums@.len() + structs@.len()
            &&& forall|i: int|
                0 <= i < enums@.len() ==> #[trigger] es[i] == enums@[i].0@ && ts[i] == "^"@
                    + enums@[i].0@
            &&& forall|j: int|
                0 <= j < structs@.len() ==> #[trigger] ts[enums@.len() + j] == "^"@
                    + structs@[j].0@
        },
{
}

/// Without an `enums` object there is no type allowlist (`NoEnums`); with one but
/// without a `structs` object, neither (`NoStructs`).
pub proof fn lemma_types_need_objects(v: JsonValue)
    ensures
        !(json_field(v, "enums"@) matches Some(JsonValue::Object(_))) ==> types_of(v) == Err::<
            (Seq<Seq<char>>, Seq<Seq<char>>),
            MetadataError,
        >(MetadataError::NoEnums),
        (json_field(v, "enums"@) matches Some(JsonValue::Object(_))) && !(json_field(
            v,
            "structs"@,
        ) matches Some(JsonValue::Object(_))) ==> types_of(v) == Err::<
            (Seq<Seq<char>>, Seq<Seq<char>>),
            MetadataError,
        >(MetadataError::NoStructs),
{
}

/// The overloads of a definition are read one after the other: reading `a` then `b`
/// is reading `a`, then reading `b` after the names `a` kept; a failure or a stop in
/// `a` is the answer.
pub proof fn lemma_overloads_in_turn(a: Seq<JsonValue>, b: Seq<JsonValue>, acc: Seq<Seq<char>>)
    ensures
        overloads_outcome(a + b, acc) == match overloads_outcome(a, acc) {
            DefinitionsOutcome::Kept(acc2) => overloads_outcome(b, acc2),
            other => other,
        },
    decreases a.len(),
{
    if a.len() == 0 {
        assert(a + b =~= b);
    } else {
        assert((a + b)[0] == a[0]);
        assert((a + b).drop_first() =~= a.drop_first() + b);
        lemma_overloads_in_turn(a.drop_first(), b, acc);
        match json_field(a[0], "ov_cimguiname"@) {
            Some(JsonValue::Str(name)) => lemma_overloads_in_turn(
                a.drop_first(),
                b,
                acc.push(anchored(name@)),
            ),
            _ => {},
        }
    }
}

/// The definitions are read one after the other, in the same way.
pub proof fn lemma_definitions_in_turn(
    a: Seq<(String, JsonValue)>,
    b: Seq<(String, JsonValue)>,
    acc: Seq<Seq<char>>,
)
    ensures
        entries_outcome(a + b, acc) == match entries_outcome(a, acc) {
            DefinitionsOutcome::Kept(acc2) => entries_outcome(b, acc2),
            other => other,
        },
    decreases a.len(),
{
    if a.len() == 0 {
        assert(a + b =~= b);
    } else {
        assert((a + b)[0] == a[0]);
        assert((a + b).drop_first() =~= a.drop_first() + b);
        match a[0].1 {
            JsonValue::Array(funcs) => match overloads_outcome(funcs@, acc) {
                DefinitionsOutcome::Kept(acc2) => lemma_definitions_in_turn(a.drop_first(), b, acc2),
                _ => {},
            },
            _ => {},
        }
    }
}

/// One definition whose value is an array of overloads is read as those overloads;
/// one whose value is not an array fails with its name; a file that is not an object
/// fails as such.
pub proof fn lemma_one_definition(key: String, value: JsonValue, acc: Seq<Seq<char>>)
    ensures
        value matches JsonValue::Array(funcs) ==> entries_outcome(seq![(key, value)], acc)
            == match overloads_outcome(funcs@, acc) {
            DefinitionsOutcome::Kept(acc2) => DefinitionsOutcome::Kept(acc2),
            other => other,
        },
        !(value is Array) ==> entries_outcome(seq![(key, value)], acc)
            == DefinitionsOutcome::Failed(MetadataError::DefinitionNotArray { name: key }),
        !(value is Object) ==> definitions_outcome(value) == DefinitionsOutcome::Failed(
            MetadataError::DefinitionsNotObject,
        ),
{
    let es = seq![(key, value)];
    assert(es[0] == (key, value));
    assert(es.drop_first() =~= Seq::<(String, JsonValue)>::empty());
    match value {
        JsonValue::Array(funcs) => match overloads_outcome(funcs@, acc) {
            DefinitionsOutcome::Kept(acc2) => {
                assert(entries_outcome(Seq::<(String, JsonValue)>::empty(), acc2)
                    == DefinitionsOutcome::Kept(acc2));
            },
            _ => {},
        },
        _ => {},
    }
}

} // verus!
