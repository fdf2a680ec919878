//! JSON-Schema validation of the values in a namespace.
//!
//! Enforced: `type`, `enum`, `const`, `properties`, `required`, `additionalProperties`,
//! `items`, `minItems`, `maxItems`, `uniqueItems`, `minLength`, `maxLength`,
//! `minProperties`, `maxProperties`, `minimum`, `maximum`, `exclusiveMinimum`,
//! `exclusiveMaximum`, `multipleOf`, `oneOf`, `anyOf`, `allOf` and `not`; annotations are
//! passed over. What cannot be enforced (`pattern`, `format`, `$ref` and the like) is
//! refused when a schema is set.
//!
//! Whether one double is a multiple of another takes floating point, which is worked out
//! elsewhere: the caller hands in the pairs of a number and a step that do not go
//! together.

use crate::json;
use crate::json::{Json, JsonV, Number, NumberV};
use crate::text;
use vstd::prelude::*;

pub mod keywords;

verus! {

/// Pairs of a number and a step, by the bits of their doubles, where the number is no
/// multiple of the step.
pub type OddPairs = Vec<(u64, u64)>;

// ---------- the model ----------

pub open spec fn matches_type_v(name: Seq<char>, v: JsonV) -> bool {
    if name == "null"@ {
        v is Null
    } else if name == "boolean"@ {
        v is Bool
    } else if name == "object"@ {
        v is Obj
    } else if name == "array"@ {
        v is Arr
    } else if name == "string"@ {
        v is Str
    } else if name == "integer"@ {
        v is Num && v->Num_0.int is Some
    } else if name == "number"@ {
        v is Num
    } else {
        false
    }
}

/// A member that is an array.
pub open spec fn arr_of(m: Seq<(Seq<char>, JsonV)>, name: Seq<char>) -> Option<Seq<JsonV>> {
    match json::member(m, name) {
        Some(JsonV::Arr(a)) => Some(a),
        _ => None,
    }
}

/// A member that is a number with a signed integer reading.
pub open spec fn int_of(m: Seq<(Seq<char>, JsonV)>, name: Seq<char>) -> Option<i64> {
    match json::member(m, name) {
        Some(JsonV::Num(n)) => n.int,
        _ => None,
    }
}

/// A member that is a number.
pub open spec fn num_of(m: Seq<(Seq<char>, JsonV)>, name: Seq<char>) -> Option<NumberV> {
    match json::member(m, name) {
        Some(JsonV::Num(n)) => Some(n),
        _ => None,
    }
}

/// A length limit as a count; one below zero wraps to a large count.
pub open spec fn limit(n: i64) -> u64 {
    n as u64
}

pub open spec fn type_fault(m: Seq<(Seq<char>, JsonV)>, v: JsonV, path: Seq<char>) -> Option<Seq<char>> {
    match json::member(m, "type"@) {
        Some(JsonV::Str(s)) => if matches_type_v(s, v) {
            None
        } else {
            Some(path + ": expected type "@ + text::debug_text(s))
        },
        Some(JsonV::Arr(a)) => if exists|i: int|
            0 <= i < a.len() && (#[trigger] a[i]) is Str && matches_type_v(a[i]->Str_0, v) {
            None
        } else {
            Some(path + ": value matches none of the allowed types"@)
        },
        _ => None,
    }
}

/// Is one of the values equal to `v`?
pub open spec fn any_equal(a: Seq<JsonV>, v: JsonV) -> bool {
    exists|i: int| 0 <= i < a.len() && equal_at(a, i, v)
}

pub open spec fn equal_at(a: Seq<JsonV>, i: int, v: JsonV) -> bool {
    json::json_eq(a[i], v)
}

pub open spec fn enum_fault(m: Seq<(Seq<char>, JsonV)>, v: JsonV, path: Seq<char>) -> Option<Seq<char>> {
    match arr_of(m, "enum"@) {
        Some(a) => if any_equal(a, v) {
            None
        } else {
            Some(path + ": value not in enum"@)
        },
        None => None,
    }
}

pub open spec fn const_fault(m: Seq<(Seq<char>, JsonV)>, v: JsonV, path: Seq<char>) -> Option<Seq<char>> {
    match json::member(m, "const"@) {
        Some(e) => if json::json_eq(e, v) {
            None
        } else {
            Some(path + ": value does not match const"@)
        },
        None => None,
    }
}

pub open spec fn length_fault(m: Seq<(Seq<char>, JsonV)>, v: JsonV, path: Seq<char>) -> Option<Seq<char>> {
    if !(v is Str) {
        None
    } else {
        let n = text::utf8(v->Str_0).len() as int;
        if int_of(m, "minLength"@) is Some && n < limit(int_of(m, "minLength"@)->0) {
            Some(
                path + ": string length "@ + text::decimal(n) + " < minLength "@ + text::decimal(
                    int_of(m, "minLength"@)->0 as int,
                ),
            )
        } else if int_of(m, "maxLength"@) is Some && n > limit(int_of(m, "maxLength"@)->0) {
            Some(
                path + ": string length "@ + text::decimal(n) + " > maxLength "@ + text::decimal(
                    int_of(m, "maxLength"@)->0 as int,
                ),
            )
        } else {
            None
        }
    }
}

/// Is the double below the other?
pub open spec fn below(a: u64, b: u64) -> bool {
    json::double_key(a) < json::double_key(b)
}

pub open spec fn number_fault(
    m: Seq<(Seq<char>, JsonV)>,
    v: JsonV,
    path: Seq<char>,
    odd: Set<(u64, u64)>,
) -> Option<Seq<char>> {
    if !(v is Num) {
        None
    } else {
        let n = v->Num_0;
        let min = num_of(m, "minimum"@);
        let max = num_of(m, "maximum"@);
        let xmin = num_of(m, "exclusiveMinimum"@);
        let xmax = num_of(m, "exclusiveMaximum"@);
        let step = num_of(m, "multipleOf"@);
        if min is Some && below(n.bits, min->0.bits) {
            Some(path + ": "@ + n.shown + " < minimum "@ + min->0.shown)
        } else if max is Some && below(max->0.bits, n.bits) {
            Some(path + ": "@ + n.shown + " > maximum "@ + max->0.shown)
        } else if xmin is Some && !below(xmin->0.bits, n.bits) {
            Some(path + ": "@ + n.shown + " <= exclusiveMinimum "@ + xmin->0.shown)
        } else if xmax is Some && !below(n.bits, xmax->0.bits) {
            Some(path + ": "@ + n.shown + " >= exclusiveMaximum "@ + xmax->0.shown)
        } else if step is Some && json::double_key(step->0.bits) != 0 && odd.contains((n.bits, step->0.bits)) {
            Some(path + ": "@ + n.shown + " is not a multiple of "@ + step->0.shown)
        } else {
            None
        }
    }
}

/// The first name of a row of required ones that is no text or is missing.
pub open spec fn required_fault(req: Seq<JsonV>, obj: Seq<(Seq<char>, JsonV)>, path: Seq<char>) -> Option<Seq<char>>
    decreases req.len(),
{
    if req.len() == 0 {
        None
    } else {
        match req[0] {
            JsonV::Str(name) => if json::member(obj, name) is None {
                Some(path + ": missing required property "@ + text::debug_text(name))
            } else {
                required_fault(req.drop_first(), obj, path)
            },
            _ => Some(path + ": `required` entry is not a string"@),
        }
    }
}

pub open spec fn shape_fault(m: Seq<(Seq<char>, JsonV)>, v: JsonV, path: Seq<char>) -> Option<Seq<char>> {
    if !(v is Obj) {
        None
    } else {
        let obj = v->Obj_0;
        let max = int_of(m, "maxProperties"@);
        let min = int_of(m, "minProperties"@);
        let req = arr_of(m, "required"@);
        if max is Some && obj.len() > limit(max->0) {
            Some(path + ": too many properties"@)
        } else if min is Some && obj.len() < limit(min->0) {
            Some(path + ": too few properties"@)
        } else if req is Some {
            required_fault(req->0, obj, path)
        } else {
            None
        }
    }
}

/// The checks that look at one schema node alone, in their order.
pub open spec fn flat_fault(
    m: Seq<(Seq<char>, JsonV)>,
    v: JsonV,
    path: Seq<char>,
    odd: Set<(u64, u64)>,
) -> Option<Seq<char>> {
    if type_fault(m, v, path) is Some {
        type_fault(m, v, path)
    } else if enum_fault(m, v, path) is Some {
        enum_fault(m, v, path)
    } else if const_fault(m, v, path) is Some {
        const_fault(m, v, path)
    } else if length_fault(m, v, path) is Some {
        length_fault(m, v, path)
    } else if number_fault(m, v, path, odd) is Some {
        number_fault(m, v, path, odd)
    } else {
        shape_fault(m, v, path)
    }
}

/// No two elements are equal.
pub open spec fn all_distinct(a: Seq<JsonV>) -> bool {
    forall|i: int, j: int| 0 <= i < j < a.len() ==> !json::json_eq(#[trigger] a[i], #[trigger] a[j])
}

pub open spec fn array_fault(m: Seq<(Seq<char>, JsonV)>, v: JsonV, path: Seq<char>) -> Option<Seq<char>> {
    if !(v is Arr) {
        None
    } else {
        let a = v->Arr_0;
        let max = int_of(m, "maxItems"@);
        let min = int_of(m, "minItems"@);
        if max is Some && a.len() > limit(max->0) {
            Some(path + ": too many items"@)
        } else if min is Some && a.len() < limit(min->0) {
            Some(path + ": too few items"@)
        } else if json::member(m, "uniqueItems"@) == Some(JsonV::Bool(true)) && !all_distinct(a) {
            Some(path + ": duplicate item"@)
        } else {
            None
        }
    }
}

/// The schema that a property must meet: the declared one, else the one for additional
/// properties; none where it needs none.
pub open spec fn property_schema(m: Seq<(Seq<char>, JsonV)>, k: Seq<char>) -> Option<JsonV> {
    let declared = match json::member(m, "properties"@) {
        Some(JsonV::Obj(p)) => json::member(p, k),
        _ => None,
    };
    match declared {
        Some(s) => Some(s),
        None => match json::member(m, "additionalProperties"@) {
            Some(JsonV::Obj(o)) => Some(JsonV::Obj(o)),
            _ => None,
        },
    }
}

/// Are properties without a schema forbidden?
pub open spec fn closed_shape(m: Seq<(Seq<char>, JsonV)>) -> bool {
    json::member(m, "additionalProperties"@) == Some(JsonV::Bool(false))
}

/// What is wrong with a value under a schema, if anything is.
pub open spec fn fault_at(schema: JsonV, v: JsonV, path: Seq<char>, odd: Set<(u64, u64)>) -> Option<Seq<char>>
    decreases schema, 3nat, 0nat,
{
    match schema {
        JsonV::Bool(b) => if b {
            None
        } else {
            Some(path + ": value prohibited by `false`"@)
        },
        JsonV::Obj(m) => if flat_fault(m, v, path, odd) is Some {
            flat_fault(m, v, path, odd)
        } else if v is Obj && members_fault(schema, v->Obj_0, 0, path, odd) is Some {
            members_fault(schema, v->Obj_0, 0, path, odd)
        } else if array_fault(m, v, path) is Some {
            array_fault(m, v, path)
        } else if v is Arr && items_fault(schema, v->Arr_0, 0, path, odd) is Some {
            items_fault(schema, v->Arr_0, 0, path, odd)
        } else {
            combined_fault(schema, v, path, odd)
        },
        _ => Some(path + ": schema node is not an object or boolean"@),
    }
}

/// What is wrong with the first bad property from place `i` on.
pub open spec fn members_fault(
    schema: JsonV,
    obj: Seq<(Seq<char>, JsonV)>,
    i: int,
    path: Seq<char>,
    odd: Set<(u64, u64)>,
) -> Option<Seq<char>>
    decreases schema, 1nat, (obj.len() - i) as nat,
{
    match schema {
        JsonV::Obj(m) => if i < 0 || i >= obj.len() {
            None
        } else {
            proof {
                lemma_property_smaller(m, obj[i].0);
            }
            let here = match property_schema(m, obj[i].0) {
                Some(sub) => fault_at(sub, obj[i].1, path + "/"@ + obj[i].0, odd),
                None => if closed_shape(m) {
                    Some(path + ": unexpected property "@ + text::debug_text(obj[i].0))
                } else {
                    None
                },
            };
            if here is Some {
                here
            } else {
                members_fault(schema, obj, i + 1, path, odd)
            }
        },
        _ => None,
    }
}

/// What is wrong with the first bad element from place `i` on.
pub open spec fn items_fault(schema: JsonV, a: Seq<JsonV>, i: int, path: Seq<char>, odd: Set<(u64, u64)>) -> Option<
    Seq<char>,
>
    decreases schema, 1nat, (a.len() - i) as nat,
{
    match schema {
        JsonV::Obj(m) => {
            proof {
                json::lemma_member_smaller(m, "items"@);
            }
            match json::member(m, "items"@) {
                Some(sub) => if (sub is Obj || sub is Bool) && 0 <= i < a.len() {
                    let here = fault_at(sub, a[i], path + "[]"@, odd);
                    if here is Some {
                        here
                    } else {
                        items_fault(schema, a, i + 1, path, odd)
                    }
                } else {
                    None
                },
                None => None,
            }
        },
        _ => None,
    }
}

/// How many schemas of a combinator the value meets, from place `i` on.
pub open spec fn met_count(schema: JsonV, name: Seq<char>, i: int, v: JsonV, path: Seq<char>, odd: Set<(u64, u64)>) -> nat
    decreases schema, 1nat, list_left(schema, name, i),
{
    match schema {
        JsonV::Obj(m) => {
            proof {
                json::lemma_member_smaller(m, name);
            }
            match arr_of(m, name) {
                Some(a) => if 0 <= i < a.len() {
                    (if fault_at(a[i], v, path, odd) is None {
                        1nat
                    } else {
                        0
                    }) + met_count(schema, name, i + 1, v, path, odd)
                } else {
                    0
                },
                None => 0,
            }
        },
        _ => 0,
    }
}

/// The elements of a member's array from place `i` on.
pub open spec fn list_left(schema: JsonV, name: Seq<char>, i: int) -> nat {
    match schema {
        JsonV::Obj(m) => match arr_of(m, name) {
            Some(a) => if 0 <= i < a.len() {
                (a.len() - i) as nat
            } else {
                0
            },
            None => 0,
        },
        _ => 0,
    }
}

/// What is wrong under the first schema of `allOf` that the value does not meet, from
/// place `i` on.
pub open spec fn all_of_fault(schema: JsonV, i: int, v: JsonV, path: Seq<char>, odd: Set<(u64, u64)>) -> Option<
    Seq<char>,
>
    decreases schema, 1nat, list_left(schema, "allOf"@, i),
{
    match schema {
        JsonV::Obj(m) => {
            proof {
                json::lemma_member_smaller(m, "allOf"@);
            }
            match arr_of(m, "allOf"@) {
                Some(a) => if 0 <= i < a.len() {
                    let here = fault_at(a[i], v, path, odd);
                    if here is Some {
                        here
                    } else {
                        all_of_fault(schema, i + 1, v, path, odd)
                    }
                } else {
                    None
                },
                None => None,
            }
        },
        _ => None,
    }
}

/// The combinators, in their order.
pub open spec fn combined_fault(schema: JsonV, v: JsonV, path: Seq<char>, odd: Set<(u64, u64)>) -> Option<Seq<char>>
    decreases schema, 2nat, 0nat,
{
    match schema {
        JsonV::Obj(m) => {
            proof {
                json::lemma_member_smaller(m, "not"@);
            }
            if arr_of(m, "oneOf"@) is Some && met_count(schema, "oneOf"@, 0, v, path, odd) != 1 {
                Some(path + ": does not match exactly one of `oneOf`"@)
            } else if arr_of(m, "anyOf"@) is Some && met_count(schema, "anyOf"@, 0, v, path, odd) == 0 {
                Some(path + ": matches none of `anyOf`"@)
            } else if all_of_fault(schema, 0, v, path, odd) is Some {
                all_of_fault(schema, 0, v, path, odd)
            } else {
                match json::member(m, "not"@) {
                    Some(neg) => if fault_at(neg, v, path, odd) is None {
                        Some(path + ": matched the `not` schema"@)
                    } else {
                        None
                    },
                    None => None,
                }
            }
        },
        _ => None,
    }
}

pub proof fn lemma_property_smaller(m: Seq<(Seq<char>, JsonV)>, k: Seq<char>)
    ensures
        property_schema(m, k) matches Some(s) ==> decreases_to!(m => s),
{
    json::lemma_member_smaller(m, "properties"@);
    json::lemma_member_smaller(m, "additionalProperties"@);
    match json::member(m, "properties"@) {
        Some(JsonV::Obj(p)) => {
            json::lemma_member_smaller(p, k);
            assert(decreases_to!(JsonV::Obj(p) => p));
        },
        _ => {},
    }
}

// ---------- executable ----------

/// A text that may be missing, in the model.
pub open spec fn opt_text(o: Option<String>) -> Option<Seq<char>> {
    match o {
        Some(s) => Some(s@),
        None => None,
    }
}

/// The pairs as a set.
pub open spec fn odd_set(odd: Seq<(u64, u64)>) -> Set<(u64, u64)> {
    Set::new(|p: (u64, u64)| odd.contains(p))
}

fn is_odd(odd: &OddPairs, n: u64, step: u64) -> (r: bool)
    ensures
        r == odd_set(odd@).contains((n, step)),
{
    let mut i: usize = 0;
    while i < odd.len()
        invariant
            i <= odd@.len(),
            forall|j: int| 0 <= j < i ==> #[trigger] odd@[j] != (n, step),
        decreases odd@.len() - i,
    {
        if odd[i].0 == n && odd[i].1 == step {
            assert(odd@[i as int] == (n, step));
            return true;
        }
        i += 1;
    }
    false
}

fn matches_type(name: &str, v: &Json) -> (r: bool)
    ensures
        r == matches_type_v(name@, v.value()),
{
    if text::same_text(name, "null") {
        matches!(v, Json::Null)
    } else if text::same_text(name, "boolean") {
        matches!(v, Json::Bool(_))
    } else if text::same_text(name, "object") {
        matches!(v, Json::Obj(_))
    } else if text::same_text(name, "array") {
        matches!(v, Json::Arr(_))
    } else if text::same_text(name, "string") {
        matches!(v, Json::Str(_))
    } else if text::same_text(name, "integer") {
        match v {
            Json::Num(n) => n.int.is_some(),
            _ => false,
        }
    } else if text::same_text(name, "number") {
        matches!(v, Json::Num(_))
    } else {
        false
    }
}

fn find_array<'a>(m: &'a Vec<(String, Json)>, name: &str) -> (r: Option<&'a Vec<Json>>)
    ensures
        match r {
            Some(a) => arr_of(json::members_of(m@), name@) == Some(json::elements_of(a@)),
            None => arr_of(json::members_of(m@), name@) is None,
        },
        r matches Some(a) ==> exists|i: int| 0 <= i < m@.len() && Json::Arr(*a) == (#[trigger] m@[i]).1,
{
    match json::find_member(m, name) {
        Some(j) => {
            proof {
                json::lemma_value(*j);
            }
            match j {
                Json::Arr(a) => Some(a),
                _ => None,
            }
        },
        None => None,
    }
}

fn find_int(m: &Vec<(String, Json)>, name: &str) -> (r: Option<i64>)
    ensures
        r == int_of(json::members_of(m@), name@),
{
    match json::find_member(m, name) {
        Some(Json::Num(n)) => n.int,
        _ => None,
    }
}

fn find_num<'a>(m: &'a Vec<(String, Json)>, name: &str) -> (r: Option<&'a Number>)
    ensures
        match r {
            Some(n) => num_of(json::members_of(m@), name@) == Some(n@),
            None => num_of(json::members_of(m@), name@) is None,
        },
{
    match json::find_member(m, name) {
        Some(Json::Num(n)) => Some(n),
        _ => None,
    }
}

fn check_type(m: &Vec<(String, Json)>, v: &Json, path: &str) -> (r: Option<String>)
    ensures
        opt_text(r) == type_fault(json::members_of(m@), v.value(), path@),
{
    let t = match json::find_member(m, "type") {
        Some(t) => t,
        None => {
            return None;
        },
    };
    proof {
        json::lemma_value(*t);
    }
    match t {
        Json::Str(s) => {
            if matches_type(s.as_str(), v) {
                None
            } else {
                Some(text::join3(path, ": expected type ", text::debug_string(s.as_str()).as_str()))
            }
        },
        Json::Arr(a) => {
            let ghost all = json::elements_of(a@);
            let mut i: usize = 0;
            while i < a.len()
                invariant
                    i <= a@.len(),
                    all == json::elements_of(a@),
                    forall|j: int|
                        0 <= j < i ==> !((#[trigger] all[j]) is Str && matches_type_v(all[j]->Str_0, v.value())),
                    type_fault(json::members_of(m@), v.value(), path@) == (if exists|j: int|
                        0 <= j < all.len() && (#[trigger] all[j]) is Str && matches_type_v(
                            all[j]->Str_0,
                            v.value(),
                        ) {
                        None
                    } else {
                        Some(path@ + ": value matches none of the allowed types"@)
                    }),
                decreases a@.len() - i,
            {
                assert(all[i as int] == a@[i as int].value());
                if let Json::Str(s) = &a[i] {
                    if matches_type(s.as_str(), v) {
                        assert(all[i as int] is Str && matches_type_v(all[i as int]->Str_0, v.value()));
                        return None;
                    }
                }
                i += 1;
            }
            Some(text::join2(path, ": value matches none of the allowed types"))
        },
        _ => None,
    }
}

fn check_enum(m: &Vec<(String, Json)>, v: &Json, path: &str) -> (r: Option<String>)
    ensures
        opt_text(r) == enum_fault(json::members_of(m@), v.value(), path@),
{
    match find_array(m, "enum") {
        None => None,
        Some(a) => {
            let ghost all = json::elements_of(a@);
            let mut i: usize = 0;
            while i < a.len()
                invariant
                    i <= a@.len(),
                    all == json::elements_of(a@),
                    arr_of(json::members_of(m@), "enum"@) == Some(all),
                    forall|j: int| 0 <= j < i ==> !#[trigger] equal_at(all, j, v.value()),
                decreases a@.len() - i,
            {
                assert(all[i as int] == a@[i as int].value());
                if json::same_json(&a[i], v) {
                    assert(equal_at(all, i as int, v.value()));
                    return None;
                }
                i += 1;
            }
            Some(text::join2(path, ": value not in enum"))
        },
    }
}

fn check_const(m: &Vec<(String, Json)>, v: &Json, path: &str) -> (r: Option<String>)
    ensures
        opt_text(r) == const_fault(json::members_of(m@), v.value(), path@),
{
    match json::find_member(m, "const") {
        None => None,
        Some(e) => {
            if json::same_json(e, v) {
                None
            } else {
                Some(text::join2(path, ": value does not match const"))
            }
        },
    }
}

fn check_length(m: &Vec<(String, Json)>, v: &Json, path: &str) -> (r: Option<String>)
    ensures
        opt_text(r) == length_fault(json::members_of(m@), v.value(), path@),
{
    match v {
        Json::Str(s) => {
            let n: u64 = s.as_str().as_bytes().len() as u64;
            if let Some(min) = find_int(m, "minLength") {
                if n < min as u64 {
                    let mut r = text::join3(path, ": string length ", text::dec(n).as_str());
                    r.push_str(" < minLength ");
                    r.push_str(text::dec_signed(min).as_str());
                    return Some(r);
                }
            }
            if let Some(max) = find_int(m, "maxLength") {
                if n > max as u64 {
                    let mut r = text::join3(path, ": string length ", text::dec(n).as_str());
                    r.push_str(" > maxLength ");
                    r.push_str(text::dec_signed(max).as_str());
                    return Some(r);
                }
            }
            None
        },
        _ => None,
    }
}

/// A fault of a number against a bound.
fn bound_fault(path: &str, n: &Number, word: &str, bound: &Number) -> (r: String)
    ensures
        r@ == path@ + ": "@ + n@.shown + word@ + bound@.shown,
{
    let mut r = text::join3(path, ": ", n.shown.as_str());
    r.push_str(word);
    r.push_str(bound.shown.as_str());
    r
}

fn check_number(m: &Vec<(String, Json)>, v: &Json, path: &str, odd: &OddPairs) -> (r: Option<String>)
    ensures
        opt_text(r) == number_fault(json::members_of(m@), v.value(), path@, odd_set(odd@)),
{
    match v {
        Json::Num(n) => {
            if let Some(b) = find_num(m, "minimum") {
                if json::double_less(n.bits, b.bits) {
                    return Some(bound_fault(path, n, " < minimum ", b));
                }
            }
            if let Some(b) = find_num(m, "maximum") {
                if json::double_less(b.bits, n.bits) {
                    return Some(bound_fault(path, n, " > maximum ", b));
                }
            }
            if let Some(b) = find_num(m, "exclusiveMinimum") {
                if !json::double_less(b.bits, n.bits) {
                    return Some(bound_fault(path, n, " <= exclusiveMinimum ", b));
                }
            }
            if let Some(b) = find_num(m, "exclusiveMaximum") {
                if !json::double_less(n.bits, b.bits) {
                    return Some(bound_fault(path, n, " >= exclusiveMaximum ", b));
                }
            }
            if let Some(b) = find_num(m, "multipleOf") {
                if !json::double_same(b.bits, 0) && is_odd(odd, n.bits, b.bits) {
                    return Some(bound_fault(path, n, " is not a multiple of ", b));
                }
            }
            None
        },
        _ => None,
    }
}

fn check_required(req: &Vec<Json>, obj: &Vec<(String, Json)>, path: &str) -> (r: Option<String>)
    ensures
        opt_text(r) == required_fault(json::elements_of(req@), json::members_of(obj@), path@),
{
    let ghost all = json::elements_of(req@);
    let ghost o = json::members_of(obj@);
    let mut i: usize = 0;
    assert(all.skip(0) =~= all);
    while i < req.len()
        invariant
            i <= req@.len(),
            all == json::elements_of(req@),
            o == json::members_of(obj@),
            required_fault(all, o, path@) == required_fault(all.skip(i as int), o, path@),
        decreases req@.len() - i,
    {
        proof {
            let rest = all.skip(i as int);
            assert(rest[0] == req@[i as int].value());
            assert(rest.drop_first() =~= all.skip(i + 1));
        }
        match &req[i] {
            Json::Str(name) => {
                if json::find_member(obj, name.as_str()).is_none() {
                    return Some(
                        text::join3(
                            path,
                            ": missing required property ",
                            text::debug_string(name.as_str()).as_str(),
                        ),
                    );
                }
            },
            _ => {
                return Some(text::join2(path, ": `required` entry is not a string"));
            },
        }
        i += 1;
    }
    assert(all.skip(i as int).len() == 0);
    None
}

fn check_shape(m: &Vec<(String, Json)>, v: &Json, path: &str) -> (r: Option<String>)
    ensures
        opt_text(r) == shape_fault(json::members_of(m@), v.value(), path@),
{
    proof {
        json::lemma_value(*v);
    }
    match v {
        Json::Obj(obj) => {
            if let Some(max) = find_int(m, "maxProperties") {
                if obj.len() as u64 > max as u64 {
                    return Some(text::join2(path, ": too many properties"));
                }
            }
            if let Some(min) = find_int(m, "minProperties") {
                if (obj.len() as u64) < min as u64 {
                    return Some(text::join2(path, ": too few properties"));
                }
            }
            match find_array(m, "required") {
                Some(req) => check_required(req, obj, path),
                None => None,
            }
        },
        _ => None,
    }
}

fn check_flat(m: &Vec<(String, Json)>, v: &Json, path: &str, odd: &OddPairs) -> (r: Option<String>)
    ensures
        opt_text(r) == flat_fault(json::members_of(m@), v.value(), path@, odd_set(odd@)),
{
    if let Some(e) = check_type(m, v, path) {
        return Some(e);
    }
    if let Some(e) = check_enum(m, v, path) {
        return Some(e);
    }
    if let Some(e) = check_const(m, v, path) {
        return Some(e);
    }
    if let Some(e) = check_length(m, v, path) {
        return Some(e);
    }
    if let Some(e) = check_number(m, v, path, odd) {
        return Some(e);
    }
    check_shape(m, v, path)
}

/// Are two elements equal?
fn has_duplicate(a: &Vec<Json>) -> (r: bool)
    ensures
        r == !all_distinct(json::elements_of(a@)),
{
    let ghost all = json::elements_of(a@);
    let mut i: usize = 0;
    while i < a.len()
        invariant
            i <= a@.len(),
            all == json::elements_of(a@),
            forall|x: int, y: int|
                0 <= x < i && x < y < all.len() ==> !json::json_eq(#[trigger] all[x], #[trigger] all[y]),
        decreases a@.len() - i,
    {
        let mut j: usize = i + 1;
        while j < a.len()
            invariant
                i < j <= a@.len(),
                all == json::elements_of(a@),
                forall|y: int| i < y < j ==> !json::json_eq(all[i as int], #[trigger] all[y]),
            decreases a@.len() - j,
        {
            assert(all[i as int] == a@[i as int].value() && all[j as int] == a@[j as int].value());
            if json::same_json(&a[i], &a[j]) {
                return true;
            }
            j += 1;
        }
        i += 1;
    }
    false
}

fn check_array(m: &Vec<(String, Json)>, v: &Json, path: &str) -> (r: Option<String>)
    ensures
        opt_text(r) == array_fault(json::members_of(m@), v.value(), path@),
{
    proof {
        json::lemma_value(*v);
    }
    match v {
        Json::Arr(a) => {
            if let Some(max) = find_int(m, "maxItems") {
                if a.len() as u64 > max as u64 {
                    return Some(text::join2(path, ": too many items"));
                }
            }
            if let Some(min) = find_int(m, "minItems") {
                if (a.len() as u64) < min as u64 {
                    return Some(text::join2(path, ": too few items"));
                }
            }
            if let Some(Json::Bool(b)) = json::find_member(m, "uniqueItems") {
                if *b && has_duplicate(a) {
                    return Some(text::join2(path, ": duplicate item"));
                }
            }
            None
        },
        _ => None,
    }
}

/// The schema that a property must meet. See [`property_schema`].
fn find_property<'a>(m: &'a Vec<(String, Json)>, k: &str, Ghost(j): Ghost<Json>) -> (r: Option<&'a Json>)
    requires
        j == Json::Obj(*m),
    ensures
        match r {
            Some(s) => property_schema(json::members_of(m@), k@) == Some(s.value()) && decreases_to!(j => *s),
            None => property_schema(json::members_of(m@), k@) is None,
        },
{
    if let Some(p) = json::find_member(m, "properties") {
        proof {
            json::lemma_value(*p);
            json::lemma_found_smaller(j, *m, *p);
        }
        if let Json::Obj(o) = p {
            if let Some(s) = json::find_member(o, k) {
                proof {
                    json::lemma_found_smaller(*p, *o, *s);
                }
                return Some(s);
            }
        }
    }
    match json::find_member(m, "additionalProperties") {
        Some(s) => {
            proof {
                json::lemma_value(*s);
                json::lemma_found_smaller(j, *m, *s);
            }
            match s {
                Json::Obj(_) => Some(s),
                _ => None,
            }
        },
        None => None,
    }
}

fn is_closed(m: &Vec<(String, Json)>) -> (r: bool)
    ensures
        r == closed_shape(json::members_of(m@)),
{
    match json::find_member(m, "additionalProperties") {
        Some(Json::Bool(b)) => !*b,
        _ => false,
    }
}

fn validate_members(schema: &Json, m: &Vec<(String, Json)>, obj: &Vec<(String, Json)>, path: &str, odd: &OddPairs) -> (r:
    Option<String>)
    requires
        *schema == Json::Obj(*m),
    ensures
        opt_text(r) == members_fault(schema.value(), json::members_of(obj@), 0, path@, odd_set(odd@)),
    decreases schema, 1nat,
{
    let ghost o = json::members_of(obj@);
    let ghost sv = schema.value();
    let ghost os = odd_set(odd@);
    proof {
        json::lemma_value(*schema);
    }
    let mut i: usize = 0;
    while i < obj.len()
        invariant
            i <= obj@.len(),
            *schema == Json::Obj(*m),
            o == json::members_of(obj@),
            sv == schema.value(),
            sv == JsonV::Obj(json::members_of(m@)),
            os == odd_set(odd@),
            members_fault(sv, o, 0, path@, os) == members_fault(sv, o, i as int, path@, os),
        decreases obj@.len() - i,
    {
        let k = obj[i].0.as_str();
        assert(o[i as int] == (k@, obj@[i as int].1.value()));
        match find_property(m, k, Ghost(*schema)) {
            Some(sub) => {
                let at = text::join3(path, "/", k);
                match validate_at(sub, &obj[i].1, at.as_str(), odd) {
                    Ok(_) => {},
                    Err(e) => {
                        return Some(e);
                    },
                }
            },
            None => {
                if is_closed(m) {
                    return Some(text::join3(path, ": unexpected property ", text::debug_string(k).as_str()));
                }
            },
        }
        i += 1;
    }
    None
}

fn validate_items(schema: &Json, m: &Vec<(String, Json)>, a: &Vec<Json>, path: &str, odd: &OddPairs) -> (r: Option<
    String,
>)
    requires
        *schema == Json::Obj(*m),
    ensures
        opt_text(r) == items_fault(schema.value(), json::elements_of(a@), 0, path@, odd_set(odd@)),
    decreases schema, 1nat,
{
    let ghost all = json::elements_of(a@);
    let ghost sv = schema.value();
    let ghost os = odd_set(odd@);
    proof {
        json::lemma_value(*schema);
    }
    let sub = match json::find_member(m, "items") {
        Some(s) => s,
        None => {
            return None;
        },
    };
    proof {
        json::lemma_value(*sub);
        json::lemma_found_smaller(*schema, *m, *sub);
    }
    let usable = match sub {
        Json::Obj(_) => true,
        Json::Bool(_) => true,
        _ => false,
    };
    if !usable {
        return None;
    }
    let at = text::join2(path, "[]");
    let mut i: usize = 0;
    while i < a.len()
        invariant
            i <= a@.len(),
            all == json::elements_of(a@),
            sv == schema.value(),
            sv == JsonV::Obj(json::members_of(m@)),
            os == odd_set(odd@),
            at@ == path@ + "[]"@,
            json::member(json::members_of(m@), "items"@) == Some(sub.value()),
            sub.value() is Obj || sub.value() is Bool,
            decreases_to!(schema => sub),
            items_fault(sv, all, 0, path@, os) == items_fault(sv, all, i as int, path@, os),
        decreases a@.len() - i,
    {
        assert(all[i as int] == a@[i as int].value());
        match validate_at(sub, &a[i], at.as_str(), odd) {
            Ok(_) => {},
            Err(e) => {
                return Some(e);
            },
        }
        i += 1;
    }
    None
}

/// How many schemas of a combinator the value meets.
fn count_ok(schema: &Json, m: &Vec<(String, Json)>, name: &str, members: &Vec<Json>, v: &Json, path: &str, odd: &OddPairs) -> (n:
    usize)
    requires
        *schema == Json::Obj(*m),
        arr_of(json::members_of(m@), name@) == Some(json::elements_of(members@)),
        exists|i: int| 0 <= i < m@.len() && Json::Arr(*members) == (#[trigger] m@[i]).1,
    ensures
        n == met_count(schema.value(), name@, 0, v.value(), path@, odd_set(odd@)),
    decreases schema, 1nat,
{
    let ghost all = json::elements_of(members@);
    let ghost sv = schema.value();
    let ghost os = odd_set(odd@);
    proof {
        json::lemma_value(*schema);
        json::lemma_found_smaller(*schema, *m, Json::Arr(*members));
    }
    let mut n: usize = 0;
    let mut i: usize = 0;
    while i < members.len()
        invariant
            i <= members@.len(),
            n <= i,
            all == json::elements_of(members@),
            sv == schema.value(),
            sv == JsonV::Obj(json::members_of(m@)),
            os == odd_set(odd@),
            arr_of(json::members_of(m@), name@) == Some(all),
            decreases_to!(schema => Json::Arr(*members)),
            met_count(sv, name@, 0, v.value(), path@, os) == n + met_count(
                sv,
                name@,
                i as int,
                v.value(),
                path@,
                os,
            ),
        decreases members@.len() - i,
    {
        proof {
            assert(all[i as int] == members@[i as int].value());
            json::lemma_element_smaller(Json::Arr(*members), *members, i as int);
        }
        if validate_at(&members[i], v, path, odd).is_ok() {
            n += 1;
        }
        i += 1;
    }
    n
}

fn validate_all_of(schema: &Json, m: &Vec<(String, Json)>, v: &Json, path: &str, odd: &OddPairs) -> (r: Option<
    String,
>)
    requires
        *schema == Json::Obj(*m),
    ensures
        opt_text(r) == all_of_fault(schema.value(), 0, v.value(), path@, odd_set(odd@)),
    decreases schema, 1nat,
{
    let ghost sv = schema.value();
    let ghost os = odd_set(odd@);
    proof {
        json::lemma_value(*schema);
    }
    let members = match find_array(m, "allOf") {
        Some(a) => a,
        None => {
            return None;
        },
    };
    let ghost all = json::elements_of(members@);
    proof {
        json::lemma_found_smaller(*schema, *m, Json::Arr(*members));
    }
    let mut i: usize = 0;
    while i < members.len()
        invariant
            i <= members@.len(),
            all == json::elements_of(members@),
            sv == schema.value(),
            sv == JsonV::Obj(json::members_of(m@)),
            os == odd_set(odd@),
            arr_of(json::members_of(m@), "allOf"@) == Some(all),
            decreases_to!(schema => Json::Arr(*members)),
            all_of_fault(sv, 0, v.value(), path@, os) == all_of_fault(sv, i as int, v.value(), path@, os),
        decreases members@.len() - i,
    {
        proof {
            assert(all[i as int] == members@[i as int].value());
            json::lemma_element_smaller(Json::Arr(*members), *members, i as int);
        }
        match validate_at(&members[i], v, path, odd) {
            Ok(_) => {},
            Err(e) => {
                return Some(e);
            },
        }
        i += 1;
    }
    None
}

fn validate_combined(schema: &Json, m: &Vec<(String, Json)>, v: &Json, path: &str, odd: &OddPairs) -> (r: Option<
    String,
>)
    requires
        *schema == Json::Obj(*m),
    ensures
        opt_text(r) == combined_fault(schema.value(), v.value(), path@, odd_set(odd@)),
    decreases schema, 2nat,
{
    proof {
        json::lemma_value(*schema);
    }
    if let Some(a) = find_array(m, "oneOf") {
        if count_ok(schema, m, "oneOf", a, v, path, odd) != 1 {
            return Some(text::join2(path, ": does not match exactly one of `oneOf`"));
        }
    }
    if let Some(a) = find_array(m, "anyOf") {
        if count_ok(schema, m, "anyOf", a, v, path, odd) == 0 {
            return Some(text::join2(path, ": matches none of `anyOf`"));
        }
    }
    if let Some(e) = validate_all_of(schema, m, v, path, odd) {
        return Some(e);
    }
    if let Some(neg) = json::find_member(m, "not") {
        proof {
            json::lemma_found_smaller(*schema, *m, *neg);
        }
        if validate_at(neg, v, path, odd).is_ok() {
            return Some(text::join2(path, ": matched the `not` schema"));
        }
    }
    None
}

/// Validate a value against a schema node; `path` says where the value stands.
pub fn validate_at(schema: &Json, value: &Json, path: &str, odd: &OddPairs) -> (r: Result<(), String>)
    ensures
        match fault_at(schema.value(), value.value(), path@, odd_set(odd@)) {
            None => r is Ok,
            Some(f) => r matches Err(e) && e@ == f,
        },
    decreases schema, 3nat,
{
    proof {
        json::lemma_value(*schema);
        json::lemma_value(*value);
    }
    match schema {
        Json::Bool(b) => {
            if *b {
                Ok(())
            } else {
                Err(text::join2(path, ": value prohibited by `false`"))
            }
        },
        Json::Obj(m) => {
            if let Some(e) = check_flat(m, value, path, odd) {
                return Err(e);
            }
            if let Json::Obj(obj) = value {
                if let Some(e) = validate_members(schema, m, obj, path, odd) {
                    return Err(e);
                }
            }
            if let Some(e) = check_array(m, value, path) {
                return Err(e);
            }
            if let Json::Arr(a) = value {
                if let Some(e) = validate_items(schema, m, a, path, odd) {
                    return Err(e);
                }
            }
            match validate_combined(schema, m, value, path, odd) {
                Some(e) => Err(e),
                None => Ok(()),
            }
        },
        _ => Err(text::join2(path, ": schema node is not an object or boolean")),
    }
}

/// Validate a value against a schema.
pub fn validate_schema(schema: &Json, value: &Json, odd: &OddPairs) -> (r: Result<(), String>)
    ensures
        match fault_at(schema.value(), value.value(), "$"@, odd_set(odd@)) {
            None => r is Ok,
            Some(f) => r matches Err(e) && e@ == f,
        },
{
    validate_at(schema, value, "$", odd)
}

// ---------- which schemas can be enforced ----------

/// A keyword that is enforced or passed over as an annotation.
pub open spec fn is_keyword(s: Seq<char>) -> bool {
    s == "type"@ || s == "enum"@ || s == "const"@ || s == "properties"@ || s == "required"@ || s == "additionalProperties"@ || s == "items"@ || s == "minItems"@ || s == "maxItems"@ || s == "uniqueItems"@ || s == "minLength"@ || s == "maxLength"@ || s == "minProperties"@ || s == "maxProperties"@ || s == "minimum"@ || s == "maximum"@ || s == "exclusiveMinimum"@ || s == "exclusiveMaximum"@ || s == "multipleOf"@ || s == "oneOf"@ || s == "anyOf"@ || s == "allOf"@ || s == "not"@ || s == "title"@ || s == "description"@ || s == "default"@ || s == "examples"@ || s == "$comment"@
}

/// The name of a type.
pub open spec fn is_type_name(s: Seq<char>) -> bool {
    s == "null"@ || s == "boolean"@ || s == "object"@ || s == "array"@ || s == "string"@ || s == "integer"@ || s == "number"@
}

fn known_keyword(s: &str) -> (r: bool)
    ensures
        r == is_keyword(s@),
{
    text::same_text(s, "type") || text::same_text(s, "enum") || text::same_text(s, "const") || text::same_text(s, "properties") || text::same_text(s, "required") || text::same_text(s, "additionalProperties") || text::same_text(s, "items") || text::same_text(s, "minItems") || text::same_text(s, "maxItems") || text::same_text(s, "uniqueItems") || text::same_text(s, "minLength") || text::same_text(s, "maxLength") || text::same_text(s, "minProperties") || text::same_text(s, "maxProperties") || text::same_text(s, "minimum") || text::same_text(s, "maximum") || text::same_text(s, "exclusiveMinimum") || text::same_text(s, "exclusiveMaximum") || text::same_text(s, "multipleOf") || text::same_text(s, "oneOf") || text::same_text(s, "anyOf") || text::same_text(s, "allOf") || text::same_text(s, "not") || text::same_text(s, "title") || text::same_text(s, "description") || text::same_text(s, "default") || text::same_text(s, "examples") || text::same_text(s, "$comment")
}

fn known_type(s: &str) -> (r: bool)
    ensures
        r == is_type_name(s@),
{
    text::same_text(s, "null") || text::same_text(s, "boolean") || text::same_text(s, "object") || text::same_text(s, "array") || text::same_text(s, "string") || text::same_text(s, "integer") || text::same_text(s, "number")
}

/// The keyword whose value holds schemas by name.
pub open spec fn holds_named(kw: Seq<char>) -> bool {
    kw == "properties"@
}

/// A keyword whose value may be one schema object.
pub open spec fn holds_object(kw: Seq<char>) -> bool {
    kw == "additionalProperties"@ || kw == "items"@
}

/// A keyword whose value is a list of schemas.
pub open spec fn holds_list(kw: Seq<char>) -> bool {
    kw == "oneOf"@ || kw == "anyOf"@ || kw == "allOf"@
}

/// A value that can be a schema.
pub open spec fn schema_like(j: JsonV) -> bool {
    j is Obj || j is Bool
}

/// The text is the name of a type.
pub open spec fn names_type(j: JsonV) -> bool {
    j matches JsonV::Str(s) && is_type_name(s)
}

/// Every element is the name of a type.
pub open spec fn all_type_names(a: Seq<JsonV>) -> bool {
    forall|i: int| 0 <= i < a.len() ==> names_type(#[trigger] a[i])
}

/// What is wrong with the names of types.
pub open spec fn type_names_fault(sub: JsonV) -> Option<Seq<char>> {
    match sub {
        JsonV::Str(s) => if is_type_name(s) {
            None
        } else {
            Some("unsupported type "@ + text::debug_text(s))
        },
        JsonV::Arr(a) => if all_type_names(a) {
            None
        } else {
            Some("unsupported `type` entry"@)
        },
        _ => None,
    }
}

/// Why a schema cannot be enforced, if so.
pub open spec fn unsupported(schema: JsonV) -> Option<Seq<char>>
    decreases schema, 2nat, 0nat,
{
    match schema {
        JsonV::Bool(_) => None,
        JsonV::Obj(m) => keywords_fault(schema, 0),
        _ => Some("schema must be an object or boolean"@),
    }
}

/// Why the first bad keyword from place `i` on cannot be enforced.
pub open spec fn keywords_fault(schema: JsonV, i: int) -> Option<Seq<char>>
    decreases schema, 1nat, members_left(schema, i),
{
    match schema {
        JsonV::Obj(m) => if 0 <= i < m.len() {
            let kw = m[i].0;
            let sub = m[i].1;
            let here = if !is_keyword(kw) {
                Some("unsupported schema keyword: "@ + text::debug_text(kw))
            } else if holds_named(kw) {
                named_fault(sub, 0)
            } else if holds_object(kw) {
                if sub is Obj {
                    unsupported(sub)
                } else {
                    None
                }
            } else if kw == "not"@ {
                if schema_like(sub) {
                    unsupported(sub)
                } else {
                    None
                }
            } else if holds_list(kw) {
                list_fault(sub, 0)
            } else if kw == "type"@ {
                type_names_fault(sub)
            } else {
                None
            };
            if here is Some {
                here
            } else {
                keywords_fault(schema, i + 1)
            }
        } else {
            None
        },
        _ => None,
    }
}

/// The members of an object from place `i` on.
pub open spec fn members_left(j: JsonV, i: int) -> nat {
    match j {
        JsonV::Obj(m) => if 0 <= i < m.len() {
            (m.len() - i) as nat
        } else {
            0
        },
        JsonV::Arr(a) => if 0 <= i < a.len() {
            (a.len() - i) as nat
        } else {
            0
        },
        _ => 0,
    }
}

/// Why the first bad schema of an object's members from place `i` on cannot be enforced.
pub open spec fn named_fault(sub: JsonV, i: int) -> Option<Seq<char>>
    decreases sub, 0nat, members_left(sub, i),
{
    match sub {
        JsonV::Obj(p) => if 0 <= i < p.len() {
            if unsupported(p[i].1) is Some {
                unsupported(p[i].1)
            } else {
                named_fault(sub, i + 1)
            }
        } else {
            None
        },
        _ => None,
    }
}

/// Why the first bad schema of a list from place `i` on cannot be enforced.
pub open spec fn list_fault(sub: JsonV, i: int) -> Option<Seq<char>>
    decreases sub, 0nat, members_left(sub, i),
{
    match sub {
        JsonV::Arr(a) => if 0 <= i < a.len() {
            if schema_like(a[i]) && unsupported(a[i]) is Some {
                unsupported(a[i])
            } else {
                list_fault(sub, i + 1)
            }
        } else {
            None
        },
        _ => None,
    }
}

fn check_type_names(sub: &Json) -> (r: Option<String>)
    ensures
        opt_text(r) == type_names_fault(sub.value()),
{
    proof {
        json::lemma_value(*sub);
    }
    match sub {
        Json::Str(s) => {
            if known_type(s.as_str()) {
                None
            } else {
                Some(text::join2("unsupported type ", text::debug_string(s.as_str()).as_str()))
            }
        },
        Json::Arr(a) => {
            let ghost all = json::elements_of(a@);
            let mut i: usize = 0;
            while i < a.len()
                invariant
                    i <= a@.len(),
                    all == json::elements_of(a@),
                    sub.value() == JsonV::Arr(all),
                    forall|j: int| 0 <= j < i ==> names_type(#[trigger] all[j]),
                decreases a@.len() - i,
            {
                assert(all[i as int] == a@[i as int].value());
                let good = match &a[i] {
                    Json::Str(s) => known_type(s.as_str()),
                    _ => false,
                };
                if !good {
                    assert(!names_type(all[i as int]));
                    assert(!all_type_names(all));
                    return Some(text::copy_text("unsupported `type` entry"));
                }
                i += 1;
            }
            None
        },
        _ => None,
    }
}

fn check_named(sub: &Json) -> (r: Option<String>)
    ensures
        opt_text(r) == named_fault(sub.value(), 0),
    decreases sub, 0nat,
{
    proof {
        json::lemma_value(*sub);
    }
    match sub {
        Json::Obj(p) => {
            let ghost all = json::members_of(p@);
            let mut i: usize = 0;
            while i < p.len()
                invariant
                    i <= p@.len(),
                    *sub == Json::Obj(*p),
                    all == json::members_of(p@),
                    sub.value() == JsonV::Obj(all),
                    named_fault(sub.value(), 0) == named_fault(sub.value(), i as int),
                decreases p@.len() - i,
            {
                proof {
                    assert(all[i as int].1 == p@[i as int].1.value());
                    json::lemma_found_smaller(*sub, *p, p@[i as int].1);
                }
                match check_supported(&p[i].1) {
                    Ok(_) => {},
                    Err(e) => {
                        return Some(e);
                    },
                }
                i += 1;
            }
            None
        },
        _ => None,
    }
}

fn like_schema(j: &Json) -> (r: bool)
    ensures
        r == schema_like(j.value()),
{
    match j {
        Json::Obj(_) => true,
        Json::Bool(_) => true,
        _ => false,
    }
}

fn check_list(sub: &Json) -> (r: Option<String>)
    ensures
        opt_text(r) == list_fault(sub.value(), 0),
    decreases sub, 0nat,
{
    proof {
        json::lemma_value(*sub);
    }
    match sub {
        Json::Arr(a) => {
            let ghost all = json::elements_of(a@);
            let mut i: usize = 0;
            while i < a.len()
                invariant
                    i <= a@.len(),
                    *sub == Json::Arr(*a),
                    all == json::elements_of(a@),
                    sub.value() == JsonV::Arr(all),
                    list_fault(sub.value(), 0) == list_fault(sub.value(), i as int),
                decreases a@.len() - i,
            {
                proof {
                    assert(all[i as int] == a@[i as int].value());
                    json::lemma_element_smaller(*sub, *a, i as int);
                }
                if like_schema(&a[i]) {
                    match check_supported(&a[i]) {
                        Ok(_) => {},
                        Err(e) => {
                            return Some(e);
                        },
                    }
                }
                i += 1;
            }
            None
        },
        _ => None,
    }
}

/// Why a keyword cannot be enforced, if so.
fn check_keyword(kw: &str, sub: &Json, Ghost(schema): Ghost<Json>) -> (r: Option<String>)
    requires
        decreases_to!(schema => *sub),
    ensures
        opt_text(r) == (if !is_keyword(kw@) {
            Some("unsupported schema keyword: "@ + text::debug_text(kw@))
        } else if holds_named(kw@) {
            named_fault(sub.value(), 0)
        } else if holds_object(kw@) {
            if sub.value() is Obj {
                unsupported(sub.value())
            } else {
                None
            }
        } else if kw@ == "not"@ {
            if schema_like(sub.value()) {
                unsupported(sub.value())
            } else {
                None
            }
        } else if holds_list(kw@) {
            list_fault(sub.value(), 0)
        } else if kw@ == "type"@ {
            type_names_fault(sub.value())
        } else {
            None
        }),
    decreases schema, 1nat,
{
    if !known_keyword(kw) {
        return Some(text::join2("unsupported schema keyword: ", text::debug_string(kw).as_str()));
    }
    let object = matches!(sub, Json::Obj(_));
    proof {
        json::lemma_value(*sub);
    }
    if text::same_text(kw, "properties") {
        check_named(sub)
    } else if text::same_text(kw, "additionalProperties") || text::same_text(kw, "items") {
        if object {
            match check_supported(sub) {
                Ok(_) => None,
                Err(e) => Some(e),
            }
        } else {
            None
        }
    } else if text::same_text(kw, "not") {
        if like_schema(sub) {
            match check_supported(sub) {
                Ok(_) => None,
                Err(e) => Some(e),
            }
        } else {
            None
        }
    } else if text::same_text(kw, "oneOf") || text::same_text(kw, "anyOf") || text::same_text(kw, "allOf") {
        check_list(sub)
    } else if text::same_text(kw, "type") {
        check_type_names(sub)
    } else {
        None
    }
}

/// Refuse a schema with a keyword that cannot be enforced, at any depth.
pub fn check_supported(schema: &Json) -> (r: Result<(), String>)
    ensures
        match unsupported(schema.value()) {
            None => r is Ok,
            Some(f) => r matches Err(e) && e@ == f,
        },
    decreases schema, 2nat,
{
    proof {
        json::lemma_value(*schema);
    }
    match schema {
        Json::Bool(_) => Ok(()),
        Json::Obj(m) => {
            let ghost all = json::members_of(m@);
            let mut i: usize = 0;
            while i < m.len()
                invariant
                    i <= m@.len(),
                    *schema == Json::Obj(*m),
                    all == json::members_of(m@),
                    schema.value() == JsonV::Obj(all),
                    keywords_fault(schema.value(), 0) == keywords_fault(schema.value(), i as int),
                decreases m@.len() - i,
            {
                proof {
                    assert(all[i as int] == (m@[i as int].0@, m@[i as int].1.value()));
                    json::lemma_found_smaller(*schema, *m, m@[i as int].1);
                }
                match check_keyword(m[i].0.as_str(), &m[i].1, Ghost(*schema)) {
                    Some(e) => {
                        return Err(e);
                    },
                    None => {},
                }
                i += 1;
            }
            Ok(())
        },
        _ => Err(text::copy_text("schema must be an object or boolean")),
    }
}

// ---------- the numbers of a value ----------

/// The bits of every number in a value, in order.
pub open spec fn numbers(j: JsonV) -> Seq<u64>
    decreases j, 1nat, 0nat,
{
    match j {
        JsonV::Num(n) => seq![n.bits],
        _ => numbers_from(j, 0),
    }
}

/// The bits of the numbers in a value's parts from place `i` on.
pub open spec fn numbers_from(j: JsonV, i: int) -> Seq<u64>
    decreases j, 0nat, members_left(j, i),
{
    match j {
        JsonV::Arr(a) => if 0 <= i < a.len() {
            numbers(a[i]) + numbers_from(j, i + 1)
        } else {
            Seq::empty()
        },
        JsonV::Obj(m) => if 0 <= i < m.len() {
            numbers(m[i].1) + numbers_from(j, i + 1)
        } else {
            Seq::empty()
        },
        _ => Seq::empty(),
    }
}

/// Put the bits of every number in a value behind `out`: the numbers and steps that
/// odd pairs are to be worked out for.
pub fn numbers_in(j: &Json, out: &mut Vec<u64>)
    ensures
        final(out)@ == old(out)@ + numbers(j.value()),
    decreases j,
{
    let ghost start = out@;
    let ghost jv = j.value();
    proof {
        json::lemma_value(*j);
    }
    match j {
        Json::Num(n) => {
            out.push(n.bits);
            assert(out@ =~= start + numbers(jv));
        },
        Json::Arr(a) => {
            let mut i: usize = 0;
            while i < a.len()
                invariant
                    i <= a@.len(),
                    *j == Json::Arr(*a),
                    jv == JsonV::Arr(json::elements_of(a@)),
                    start + numbers_from(jv, 0) == out@ + numbers_from(jv, i as int),
                decreases a@.len() - i,
            {
                let ghost had = out@;
                proof {
                    json::lemma_element_smaller(*j, *a, i as int);
                }
                numbers_in(&a[i], out);
                proof {
                    assert(out@ + numbers_from(jv, i + 1) =~= had + numbers_from(jv, i as int));
                }
                i += 1;
            }
            assert(out@ + numbers_from(jv, i as int) =~= out@);
        },
        Json::Obj(m) => {
            let mut i: usize = 0;
            while i < m.len()
                invariant
                    i <= m@.len(),
                    *j == Json::Obj(*m),
                    jv == JsonV::Obj(json::members_of(m@)),
                    start + numbers_from(jv, 0) == out@ + numbers_from(jv, i as int),
                decreases m@.len() - i,
            {
                let ghost had = out@;
                proof {
                    json::lemma_found_smaller(*j, *m, m@[i as int].1);
                }
                numbers_in(&m[i].1, out);
                proof {
                    assert(out@ + numbers_from(jv, i + 1) =~= had + numbers_from(jv, i as int));
                }
                i += 1;
            }
            assert(out@ + numbers_from(jv, i as int) =~= out@);
        },
        _ => {
            assert(out@ =~= start + numbers(jv));
        },
    }
}

// ---------- laws ----------

/// `true` accepts every value and `false` none.
pub proof fn law_boolean_schemas(v: JsonV, path: Seq<char>, odd: Set<(u64, u64)>)
    ensures
        fault_at(JsonV::Bool(true), v, path, odd) is None,
        fault_at(JsonV::Bool(false), v, path, odd) is Some,
{
}

/// A schema without keywords accepts every value.
pub proof fn law_empty_schema_accepts_all(v: JsonV, path: Seq<char>, odd: Set<(u64, u64)>)
    ensures
        fault_at(JsonV::Obj(Seq::empty()), v, path, odd) is None,
{
    let m = Seq::<(Seq<char>, JsonV)>::empty();
    let s = JsonV::Obj(m);
    if v is Obj {
        lemma_members_free(v->Obj_0, 0, path, odd);
    }
    assert(items_fault(s, v->Arr_0, 0, path, odd) is None);
    assert(all_of_fault(s, 0, v, path, odd) is None);
}

proof fn lemma_members_free(obj: Seq<(Seq<char>, JsonV)>, i: int, path: Seq<char>, odd: Set<(u64, u64)>)
    requires
        0 <= i,
    ensures
        members_fault(JsonV::Obj(Seq::empty()), obj, i, path, odd) is None,
    decreases obj.len() - i,
{
    let m = Seq::<(Seq<char>, JsonV)>::empty();
    if i < obj.len() {
        lemma_members_free(obj, i + 1, path, odd);
        assert(property_schema(m, obj[i].0) is None);
    }
}

/// `not` turns a verdict round: a value meets it exactly where it does not meet the
/// schema inside.
pub proof fn law_not_negates(s: JsonV, v: JsonV, path: Seq<char>, odd: Set<(u64, u64)>)
    ensures
        fault_at(JsonV::Obj(seq![("not"@, s)]), v, path, odd) is None <==> fault_at(s, v, path, odd) is Some,
{
    lemma_combinator_alone("not"@, s, v, path, odd);
    assert(all_of_fault(JsonV::Obj(seq![("not"@, s)]), 0, v, path, odd) is None);
}

/// How many schemas of a row the value meets.
pub open spec fn accepting(ms: Seq<JsonV>, v: JsonV, path: Seq<char>, odd: Set<(u64, u64)>) -> nat
    decreases ms.len(),
{
    if ms.len() == 0 {
        0
    } else {
        (if fault_at(ms[0], v, path, odd) is None {
            1nat
        } else {
            0
        }) + accepting(ms.drop_first(), v, path, odd)
    }
}

/// The combinators count: a value meets `oneOf` iff it meets exactly one of its schemas,
/// `anyOf` iff it meets at least one, and `allOf` iff it meets every one.
pub proof fn law_combinators_count(ms: Seq<JsonV>, v: JsonV, path: Seq<char>, odd: Set<(u64, u64)>)
    ensures
        fault_at(JsonV::Obj(seq![("oneOf"@, JsonV::Arr(ms))]), v, path, odd) is None <==> accepting(ms, v, path, odd) == 1,
        fault_at(JsonV::Obj(seq![("anyOf"@, JsonV::Arr(ms))]), v, path, odd) is None <==> accepting(ms, v, path, odd) >= 1,
        fault_at(JsonV::Obj(seq![("allOf"@, JsonV::Arr(ms))]), v, path, odd) is None <==> accepting(ms, v, path, odd)
            == ms.len(),
        accepting(ms, v, path, odd) == ms.len() <==> forall|i: int|
            0 <= i < ms.len() ==> fault_at(#[trigger] ms[i], v, path, odd) is None,
        accepting(ms, v, path, odd) >= 1 <==> exists|i: int|
            0 <= i < ms.len() && fault_at(#[trigger] ms[i], v, path, odd) is None,
{
    let l = JsonV::Arr(ms);
    assert(ms.skip(0) =~= ms);
    lemma_combinator_alone("oneOf"@, l, v, path, odd);
    lemma_met_count(JsonV::Obj(seq![("oneOf"@, l)]), "oneOf"@, ms, 0, v, path, odd);
    assert(all_of_fault(JsonV::Obj(seq![("oneOf"@, l)]), 0, v, path, odd) is None);
    lemma_combinator_alone("anyOf"@, l, v, path, odd);
    lemma_met_count(JsonV::Obj(seq![("anyOf"@, l)]), "anyOf"@, ms, 0, v, path, odd);
    assert(all_of_fault(JsonV::Obj(seq![("anyOf"@, l)]), 0, v, path, odd) is None);
    lemma_combinator_alone("allOf"@, l, v, path, odd);
    lemma_all_met(ms, 0, v, path, odd);
    lemma_accepting(ms, v, path, odd);
}

/// The count from a place on is that of the schemas from there on.
proof fn lemma_met_count(
    schema: JsonV,
    name: Seq<char>,
    ms: Seq<JsonV>,
    i: int,
    v: JsonV,
    path: Seq<char>,
    odd: Set<(u64, u64)>,
)
    requires
        schema is Obj,
        arr_of(schema->Obj_0, name) == Some(ms),
        0 <= i <= ms.len(),
    ensures
        met_count(schema, name, i, v, path, odd) == accepting(ms.skip(i), v, path, odd),
    decreases ms.len() - i,
{
    if i < ms.len() {
        lemma_met_count(schema, name, ms, i + 1, v, path, odd);
        assert(ms.skip(i).drop_first() =~= ms.skip(i + 1));
        assert(ms.skip(i)[0] == ms[i]);
    }
}

proof fn lemma_all_met(ms: Seq<JsonV>, i: int, v: JsonV, path: Seq<char>, odd: Set<(u64, u64)>)
    requires
        0 <= i <= ms.len(),
    ensures
        all_of_fault(JsonV::Obj(seq![("allOf"@, JsonV::Arr(ms))]), i, v, path, odd) is None <==> accepting(
            ms.skip(i),
            v,
            path,
            odd,
        ) == ms.len() - i,
        accepting(ms.skip(i), v, path, odd) <= ms.len() - i,
    decreases ms.len() - i,
{
    let m = seq![("allOf"@, JsonV::Arr(ms))];
    assert(m[0].0 == "allOf"@);
    assert(json::member(m, "allOf"@) == Some(JsonV::Arr(ms)));
    if i < ms.len() {
        lemma_all_met(ms, i + 1, v, path, odd);
        assert(ms.skip(i).drop_first() =~= ms.skip(i + 1));
        assert(ms.skip(i)[0] == ms[i]);
    }
}

proof fn lemma_accepting(ms: Seq<JsonV>, v: JsonV, path: Seq<char>, odd: Set<(u64, u64)>)
    ensures
        accepting(ms, v, path, odd) <= ms.len(),
        accepting(ms, v, path, odd) == ms.len() <==> forall|i: int|
            0 <= i < ms.len() ==> fault_at(#[trigger] ms[i], v, path, odd) is None,
        accepting(ms, v, path, odd) >= 1 <==> exists|i: int|
            0 <= i < ms.len() && fault_at(#[trigger] ms[i], v, path, odd) is None,
    decreases ms.len(),
{
    if ms.len() > 0 {
        let t = ms.drop_first();
        lemma_accepting(t, v, path, odd);
        assert forall|i: int| 0 <= i < t.len() implies #[trigger] t[i] == ms[i + 1] by {}
        if forall|i: int| 0 <= i < t.len() ==> fault_at(#[trigger] t[i], v, path, odd) is None {
            assert forall|i: int| 0 < i < ms.len() implies fault_at(#[trigger] ms[i], v, path, odd) is None by {
                assert(ms[i] == t[i - 1]);
            }
        } else {
            let k = choose|i: int| 0 <= i < t.len() && !(fault_at(#[trigger] t[i], v, path, odd) is None);
            assert(ms[k + 1] == t[k]);
        }
        if exists|i: int| 0 <= i < ms.len() && fault_at(#[trigger] ms[i], v, path, odd) is None {
            let k = choose|i: int| 0 <= i < ms.len() && fault_at(#[trigger] ms[i], v, path, odd) is None;
            if k > 0 {
                assert(ms[k] == t[k - 1]);
            }
        }
        if exists|i: int| 0 <= i < t.len() && fault_at(#[trigger] t[i], v, path, odd) is None {
            let k = choose|i: int| 0 <= i < t.len() && fault_at(#[trigger] t[i], v, path, odd) is None;
            assert(ms[k + 1] == t[k]);
        }
    }
}

/// Is the keyword one that combines schemas?
spec fn is_combinator(kw: Seq<char>) -> bool {
    kw == "not"@ || holds_list(kw)
}

/// An object with just a combinator has no other keyword, and what is wrong under it is
/// what the combinator says.
proof fn lemma_combinator_alone(kw: Seq<char>, s: JsonV, v: JsonV, path: Seq<char>, odd: Set<(u64, u64)>)
    requires
        is_combinator(kw),
    ensures
        forall|k: Seq<char>| k != kw ==> #[trigger] json::member(seq![(kw, s)], k) is None,
        json::member(seq![(kw, s)], kw) == Some(s),
        ({
            let n = JsonV::Obj(seq![(kw, s)]);
            fault_at(n, v, path, odd) == combined_fault(n, v, path, odd)
        }),
        "not"@ != "oneOf"@,
        "not"@ != "anyOf"@,
        "not"@ != "allOf"@,
        "oneOf"@ != "anyOf"@,
        "oneOf"@ != "allOf"@,
        "anyOf"@ != "allOf"@,
{
    lemma_combinator_names(kw);
    let m = seq![(kw, s)];
    let n = JsonV::Obj(m);
    assert(m.drop_first() =~= Seq::empty());
    assert(m[0].0 == kw);
    assert forall|k: Seq<char>| k != kw implies #[trigger] json::member(m, k) is None by {
        assert(json::member(m.drop_first(), k) is None);
    }
    if v is Obj {
        lemma_no_property_fault(kw, s, v->Obj_0, 0, path, odd);
    }
    assert(items_fault(n, v->Arr_0, 0, path, odd) is None);
}

/// A combinator is none of the other keywords.
proof fn lemma_combinator_names(kw: Seq<char>)
    requires
        is_combinator(kw),
    ensures
        kw != "type"@,
        kw != "enum"@,
        kw != "const"@,
        kw != "minLength"@,
        kw != "maxLength"@,
        kw != "minimum"@,
        kw != "maximum"@,
        kw != "exclusiveMinimum"@,
        kw != "exclusiveMaximum"@,
        kw != "multipleOf"@,
        kw != "maxProperties"@,
        kw != "minProperties"@,
        kw != "required"@,
        kw != "properties"@,
        kw != "additionalProperties"@,
        kw != "maxItems"@,
        kw != "minItems"@,
        kw != "uniqueItems"@,
        kw != "items"@,
        "not"@ != "oneOf"@,
        "not"@ != "anyOf"@,
        "not"@ != "allOf"@,
        "oneOf"@ != "anyOf"@,
        "oneOf"@ != "allOf"@,
        "anyOf"@ != "allOf"@,
{
    reveal_strlit("type");
    reveal_strlit("enum");
    reveal_strlit("const");
    reveal_strlit("minLength");
    reveal_strlit("maxLength");
    reveal_strlit("minimum");
    reveal_strlit("maximum");
    reveal_strlit("exclusiveMinimum");
    reveal_strlit("exclusiveMaximum");
    reveal_strlit("multipleOf");
    reveal_strlit("maxProperties");
    reveal_strlit("minProperties");
    reveal_strlit("required");
    reveal_strlit("properties");
    reveal_strlit("additionalProperties");
    reveal_strlit("maxItems");
    reveal_strlit("minItems");
    reveal_strlit("uniqueItems");
    reveal_strlit("items");
    reveal_strlit("not");
    reveal_strlit("oneOf");
    reveal_strlit("anyOf");
    reveal_strlit("allOf");
    assert("not"@.len() == 3 && "oneOf"@.len() == 5 && "anyOf"@.len() == 5 && "allOf"@.len() == 5);
    assert("type"@.len() == 4);
    assert("oneOf"@[0] == 'o' && "anyOf"@[1] == 'n' && "allOf"@[1] == 'l');
    assert("anyOf"@[0] == 'a' && "const"@[0] == 'c' && "items"@[0] == 'i');
}

proof fn lemma_no_property_fault(
    kw: Seq<char>,
    s: JsonV,
    obj: Seq<(Seq<char>, JsonV)>,
    i: int,
    path: Seq<char>,
    odd: Set<(u64, u64)>,
)
    requires
        0 <= i,
        kw != "properties"@,
        kw != "additionalProperties"@,
        forall|k: Seq<char>| k != kw ==> #[trigger] json::member(seq![(kw, s)], k) is None,
    ensures
        members_fault(JsonV::Obj(seq![(kw, s)]), obj, i, path, odd) is None,
    decreases obj.len() - i,
{
    if i < obj.len() {
        lemma_no_property_fault(kw, s, obj, i + 1, path, odd);
        assert(property_schema(seq![(kw, s)], obj[i].0) is None);
    }
}

/// Is the keyword enforced, and every schema that it holds with it?
pub open spec fn keyword_holds(kw: Seq<char>, sub: JsonV) -> bool {
    is_keyword(kw) && if holds_named(kw) {
        named_fault(sub, 0) is None
    } else if holds_object(kw) {
        sub is Obj ==> unsupported(sub) is None
    } else if kw == "not"@ {
        schema_like(sub) ==> unsupported(sub) is None
    } else if holds_list(kw) {
        list_fault(sub, 0) is None
    } else {
        kw == "type"@ ==> type_names_fault(sub) is None
    }
}

/// An accepted schema has no keyword that would go unenforced, nor has any schema inside
/// it.
pub proof fn law_accepted_schema_is_enforceable(m: Seq<(Seq<char>, JsonV)>, i: int)
    requires
        unsupported(JsonV::Obj(m)) is None,
        0 <= i < m.len(),
    ensures
        keyword_holds(m[i].0, m[i].1),
{
    lemma_keyword_at(m, 0, i);
}

proof fn lemma_keyword_at(m: Seq<(Seq<char>, JsonV)>, from: int, i: int)
    requires
        0 <= from <= i < m.len(),
        keywords_fault(JsonV::Obj(m), from) is None,
    ensures
        keyword_holds(m[i].0, m[i].1),
    decreases i - from,
{
    if from < i {
        lemma_keyword_at(m, from + 1, i);
    }
}

} // verus!
