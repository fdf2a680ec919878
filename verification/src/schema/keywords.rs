//! What each keyword of a schema asks for, and how keywords stand together.

use crate::json;
use crate::json::{JsonV, NumberV};
use crate::schema;
use crate::text;
use vstd::prelude::*;

verus! {

/// A schema with one keyword.
pub open spec fn one(kw: Seq<char>, x: JsonV) -> JsonV {
    JsonV::Obj(seq![(kw, x)])
}

// ---------- the values of doubles ----------

/// The size of a double with the given bits and no sign, counted in the smallest double
/// above zero: eleven bits of exponent, fifty-two of fraction.
pub open spec fn double_size(bits: int) -> int {
    let e = bits / 0x10_0000_0000_0000;
    let f = bits % 0x10_0000_0000_0000;
    if e == 0 {
        f
    } else {
        (0x10_0000_0000_0000 + f) * vstd::arithmetic::power2::pow2((e - 1) as nat)
    }
}

/// The value of a double with the given bits, in the same count; the highest bit is the
/// sign.
pub open spec fn double_value(bits: u64) -> int {
    if bits < 0x8000_0000_0000_0000 {
        double_size(bits as int)
    } else {
        -double_size(bits - 0x8000_0000_0000_0000)
    }
}

proof fn lemma_size_grows(a: int, b: int)
    requires
        0 <= a < b,
    ensures
        0 <= double_size(a) < double_size(b),
{
    let h = 0x10_0000_0000_0000int;
    let (e, f) = (a / h, a % h);
    let (x, y) = (b / h, b % h);
    assert(e <= x);
    if e > 0 {
        let p = vstd::arithmetic::power2::pow2((e - 1) as nat) as int;
        let q = vstd::arithmetic::power2::pow2((x - 1) as nat) as int;
        vstd::arithmetic::power2::lemma_pow2_pos((e - 1) as nat);
        vstd::arithmetic::power2::lemma_pow2_pos((x - 1) as nat);
        assert((h + f) * p >= 0) by (nonlinear_arith)
            requires
                h + f >= 0,
                p > 0,
        ;
        if e == x {
            assert(f < y);
            assert((h + f) * p < (h + y) * p) by (nonlinear_arith)
                requires
                    h + f < h + y,
                    p > 0,
            ;
        } else {
            vstd::arithmetic::power2::lemma_pow2_unfold(e as nat);
            let r = vstd::arithmetic::power2::pow2(e as nat) as int;
            if e < x - 1 {
                vstd::arithmetic::power2::lemma_pow2_strictly_increases(e as nat, (x - 1) as nat);
            }
            assert(r <= q);
            assert((h + f) * p < (h + y) * q) by (nonlinear_arith)
                requires
                    0 <= f < h,
                    y >= 0,
                    p > 0,
                    2 * p <= q,
            ;
        }
    } else if x > 0 {
        let q = vstd::arithmetic::power2::pow2((x - 1) as nat) as int;
        vstd::arithmetic::power2::lemma_pow2_pos((x - 1) as nat);
        assert((h + y) * q >= h) by (nonlinear_arith)
            requires
                h > 0,
                y >= 0,
                q > 0,
        ;
    }
}

/// Doubles are ordered by their values.
proof fn lemma_double_order(a: u64, b: u64)
    ensures
        json::double_key(a) < json::double_key(b) <==> double_value(a) < double_value(b),
        json::double_key(a) == json::double_key(b) <==> double_value(a) == double_value(b),
        json::double_key(a) == 0 <==> double_value(a) == 0,
{
    let half = 0x8000_0000_0000_0000int;
    let x = if a < half {
        a as int
    } else {
        a - half
    };
    let y = if b < half {
        b as int
    } else {
        b - half
    };
    assert(double_size(0) == 0);
    if x < y {
        lemma_size_grows(x, y);
    }
    if y < x {
        lemma_size_grows(y, x);
    }
    if 0 < x {
        lemma_size_grows(0, x);
    }
    if 0 < y {
        lemma_size_grows(0, y);
    }
}

// ---------- one keyword alone ----------

/// The spelling of the keywords tells them apart.
proof fn lemma_spelling()
    ensures
        "type"@.len() == 4,
        "type"@[0] == 't',
        "type"@[1] == 'y',
        "enum"@.len() == 4,
        "enum"@[0] == 'e',
        "enum"@[1] == 'n',
        "const"@.len() == 5,
        "const"@[0] == 'c',
        "const"@[1] == 'o',
        "properties"@.len() == 10,
        "properties"@[0] == 'p',
        "properties"@[1] == 'r',
        "required"@.len() == 8,
        "required"@[0] == 'r',
        "required"@[1] == 'e',
        "additionalProperties"@.len() == 20,
        "additionalProperties"@[0] == 'a',
        "additionalProperties"@[1] == 'd',
        "items"@.len() == 5,
        "items"@[0] == 'i',
        "items"@[1] == 't',
        "minItems"@.len() == 8,
        "minItems"@[0] == 'm',
        "minItems"@[1] == 'i',
        "maxItems"@.len() == 8,
        "maxItems"@[0] == 'm',
        "maxItems"@[1] == 'a',
        "uniqueItems"@.len() == 11,
        "uniqueItems"@[0] == 'u',
        "uniqueItems"@[1] == 'n',
        "minLength"@.len() == 9,
        "minLength"@[0] == 'm',
        "minLength"@[1] == 'i',
        "maxLength"@.len() == 9,
        "maxLength"@[0] == 'm',
        "maxLength"@[1] == 'a',
        "minProperties"@.len() == 13,
        "minProperties"@[0] == 'm',
        "minProperties"@[1] == 'i',
        "maxProperties"@.len() == 13,
        "maxProperties"@[0] == 'm',
        "maxProperties"@[1] == 'a',
        "minimum"@.len() == 7,
        "minimum"@[0] == 'm',
        "minimum"@[1] == 'i',
        "maximum"@.len() == 7,
        "maximum"@[0] == 'm',
        "maximum"@[1] == 'a',
        "exclusiveMinimum"@.len() == 16,
        "exclusiveMinimum"@[0] == 'e',
        "exclusiveMinimum"@[1] == 'x',
        "exclusiveMaximum"@.len() == 16,
        "exclusiveMaximum"@[0] == 'e',
        "exclusiveMaximum"@[1] == 'x',
        "multipleOf"@.len() == 10,
        "multipleOf"@[0] == 'm',
        "multipleOf"@[1] == 'u',
        "oneOf"@.len() == 5,
        "oneOf"@[0] == 'o',
        "oneOf"@[1] == 'n',
        "anyOf"@.len() == 5,
        "anyOf"@[0] == 'a',
        "anyOf"@[1] == 'n',
        "allOf"@.len() == 5,
        "allOf"@[0] == 'a',
        "allOf"@[1] == 'l',
        "not"@.len() == 3,
        "not"@[0] == 'n',
        "not"@[1] == 'o',
        "exclusiveMinimum"@[10] == 'i',
        "exclusiveMaximum"@[10] == 'a',
{
    reveal_strlit("type");
    reveal_strlit("enum");
    reveal_strlit("const");
    reveal_strlit("properties");
    reveal_strlit("required");
    reveal_strlit("additionalProperties");
    reveal_strlit("items");
    reveal_strlit("minItems");
    reveal_strlit("maxItems");
    reveal_strlit("uniqueItems");
    reveal_strlit("minLength");
    reveal_strlit("maxLength");
    reveal_strlit("minProperties");
    reveal_strlit("maxProperties");
    reveal_strlit("minimum");
    reveal_strlit("maximum");
    reveal_strlit("exclusiveMinimum");
    reveal_strlit("exclusiveMaximum");
    reveal_strlit("multipleOf");
    reveal_strlit("oneOf");
    reveal_strlit("anyOf");
    reveal_strlit("allOf");
    reveal_strlit("not");
}

proof fn lemma_one(kw: Seq<char>, x: JsonV, k: Seq<char>)
    ensures
        json::member(seq![(kw, x)], k) == if k == kw {
            Some(x)
        } else {
            None::<JsonV>
        },
{
    let m = seq![(kw, x)];
    assert(m[0].0 == kw);
    assert(m.drop_first() =~= Seq::empty());
    assert(json::member(m.drop_first(), k) is None);
}

proof fn lemma_free_members(
    m: Seq<(Seq<char>, JsonV)>,
    obj: Seq<(Seq<char>, JsonV)>,
    i: int,
    path: Seq<char>,
    odd: Set<(u64, u64)>,
)
    requires
        0 <= i,
        json::member(m, "properties"@) is None,
        json::member(m, "additionalProperties"@) is None,
    ensures
        schema::members_fault(JsonV::Obj(m), obj, i, path, odd) is None,
    decreases obj.len() - i,
{
    if i < obj.len() {
        lemma_free_members(m, obj, i + 1, path, odd);
        assert(schema::property_schema(m, obj[i].0) is None);
    }
}

/// What a schema with one keyword asks for, when that is none that looks below a value
/// or into other schemas.
proof fn lemma_flat(kw: Seq<char>, x: JsonV, v: JsonV, path: Seq<char>, odd: Set<(u64, u64)>)
    requires
        kw != "properties"@,
        kw != "additionalProperties"@,
        kw != "items"@,
        kw != "oneOf"@,
        kw != "anyOf"@,
        kw != "allOf"@,
        kw != "not"@,
    ensures
        forall|k: Seq<char>| #[trigger]
            json::member(seq![(kw, x)], k) == if k == kw {
                Some(x)
            } else {
                None::<JsonV>
            },
        schema::fault_at(one(kw, x), v, path, odd) is None <==> schema::flat_fault(seq![(kw, x)], v, path, odd) is None
            && schema::array_fault(seq![(kw, x)], v, path) is None,
{
    let m = seq![(kw, x)];
    assert forall|k: Seq<char>| #[trigger] json::member(m, k) == if k == kw {
        Some(x)
    } else {
        None::<JsonV>
    } by {
        lemma_one(kw, x, k);
    }
    if v is Obj {
        lemma_free_members(m, v->Obj_0, 0, path, odd);
    }
    let s = JsonV::Obj(m);
    assert(schema::items_fault(s, v->Arr_0, 0, path, odd) is None);
    assert(schema::all_of_fault(s, 0, v, path, odd) is None);
    assert(schema::combined_fault(s, v, path, odd) is None);
}

/// The bounds of numbers: `minimum` and `maximum` let the bound itself in, the exclusive
/// ones do not; numbers are compared as the doubles nearest to them. What is no number
/// is not held to a bound.
pub proof fn law_number_bounds(bound: NumberV, n: NumberV, v: JsonV, path: Seq<char>, odd: Set<(u64, u64)>)
    ensures
        schema::fault_at(one("minimum"@, JsonV::Num(bound)), JsonV::Num(n), path, odd) is None <==> double_value(
            bound.bits,
        ) <= double_value(n.bits),
        schema::fault_at(one("maximum"@, JsonV::Num(bound)), JsonV::Num(n), path, odd) is None <==> double_value(n.bits)
            <= double_value(bound.bits),
        schema::fault_at(one("exclusiveMinimum"@, JsonV::Num(bound)), JsonV::Num(n), path, odd) is None
            <==> double_value(bound.bits) < double_value(n.bits),
        schema::fault_at(one("exclusiveMaximum"@, JsonV::Num(bound)), JsonV::Num(n), path, odd) is None
            <==> double_value(n.bits) < double_value(bound.bits),
        !(v is Num) ==> schema::fault_at(one("minimum"@, JsonV::Num(bound)), v, path, odd) is None,
        !(v is Num) ==> schema::fault_at(one("maximum"@, JsonV::Num(bound)), v, path, odd) is None,
        !(v is Num) ==> schema::fault_at(one("exclusiveMinimum"@, JsonV::Num(bound)), v, path, odd) is None,
        !(v is Num) ==> schema::fault_at(one("exclusiveMaximum"@, JsonV::Num(bound)), v, path, odd) is None,
{
    lemma_spelling();
    lemma_double_order(bound.bits, n.bits);
    lemma_double_order(n.bits, bound.bits);
    let b = JsonV::Num(bound);
    lemma_flat("minimum"@, b, JsonV::Num(n), path, odd);
    lemma_flat("maximum"@, b, JsonV::Num(n), path, odd);
    lemma_flat("exclusiveMinimum"@, b, JsonV::Num(n), path, odd);
    lemma_flat("exclusiveMaximum"@, b, JsonV::Num(n), path, odd);
    lemma_flat("minimum"@, b, v, path, odd);
    lemma_flat("maximum"@, b, v, path, odd);
    lemma_flat("exclusiveMinimum"@, b, v, path, odd);
    lemma_flat("exclusiveMaximum"@, b, v, path, odd);
}

/// `multipleOf` asks of a number that it is no pair with the step of those that do not
/// go together; a step of zero asks for nothing.
pub proof fn law_multiple_of(step: NumberV, n: NumberV, v: JsonV, path: Seq<char>, odd: Set<(u64, u64)>)
    ensures
        schema::fault_at(one("multipleOf"@, JsonV::Num(step)), JsonV::Num(n), path, odd) is None <==> double_value(
            step.bits,
        ) == 0 || !odd.contains((n.bits, step.bits)),
        !(v is Num) ==> schema::fault_at(one("multipleOf"@, JsonV::Num(step)), v, path, odd) is None,
{
    lemma_spelling();
    lemma_double_order(step.bits, n.bits);
    lemma_flat("multipleOf"@, JsonV::Num(step), JsonV::Num(n), path, odd);
    lemma_flat("multipleOf"@, JsonV::Num(step), v, path, odd);
}

/// Is the value of the type that the name says? An integer is a number with a signed
/// integer reading.
pub open spec fn is_of(name: Seq<char>, v: JsonV) -> bool {
    match v {
        JsonV::Null => name == "null"@,
        JsonV::Bool(_) => name == "boolean"@,
        JsonV::Obj(_) => name == "object"@,
        JsonV::Arr(_) => name == "array"@,
        JsonV::Str(_) => name == "string"@,
        JsonV::Num(n) => name == "number"@ || (name == "integer"@ && n.int is Some),
    }
}

proof fn lemma_type_names(name: Seq<char>, v: JsonV)
    ensures
        schema::matches_type_v(name, v) == is_of(name, v),
{
    reveal_strlit("null");
    reveal_strlit("boolean");
    reveal_strlit("object");
    reveal_strlit("array");
    reveal_strlit("string");
    reveal_strlit("integer");
    reveal_strlit("number");
    assert("null"@[0] == 'n' && "boolean"@[0] == 'b' && "object"@[0] == 'o' && "array"@[0] == 'a');
    assert("string"@[0] == 's' && "integer"@[0] == 'i' && "number"@[0] == 'n');
    assert("null"@.len() == 4 && "number"@.len() == 6);
}

/// Texts as an array.
pub open spec fn text_list(names: Seq<Seq<char>>) -> Seq<JsonV> {
    Seq::new(names.len(), |i: int| JsonV::Str(names[i]))
}

proof fn lemma_type_listed(m: Seq<(Seq<char>, JsonV)>, a: Seq<JsonV>, i: int, v: JsonV, path: Seq<char>)
    requires
        json::member(m, "type"@) == Some(JsonV::Arr(a)),
        0 <= i < a.len(),
        a[i] is Str,
        schema::matches_type_v(a[i]->Str_0, v),
    ensures
        schema::type_fault(m, v, path) is None,
{
    let x = json::member(m, "type"@)->0;
    assert(x->Arr_0[i] is Str);
}

/// `type` asks for a value of that type, or of one type of a list.
pub proof fn law_type(name: Seq<char>, names: Seq<Seq<char>>, v: JsonV, path: Seq<char>, odd: Set<(u64, u64)>)
    ensures
        schema::fault_at(one("type"@, JsonV::Str(name)), v, path, odd) is None <==> is_of(name, v),
        schema::fault_at(one("type"@, JsonV::Arr(text_list(names))), v, path, odd) is None <==> exists|i: int|
            0 <= i < names.len() && is_of(#[trigger] names[i], v),
{
    lemma_spelling();
    lemma_type_names(name, v);
    lemma_flat("type"@, JsonV::Str(name), v, path, odd);
    let l = text_list(names);
    lemma_flat("type"@, JsonV::Arr(l), v, path, odd);
    let m = seq![("type"@, JsonV::Arr(l))];
    assert(json::member(m, "type"@) == Some(JsonV::Arr(l)));
    let any = exists|i: int| 0 <= i < names.len() && is_of(#[trigger] names[i], v);
    if any {
        let i = choose|i: int| 0 <= i < names.len() && is_of(#[trigger] names[i], v);
        lemma_type_names(names[i], v);
        assert(l[i] is Str && schema::matches_type_v(l[i]->Str_0, v));
        lemma_type_listed(m, l, i, v, path);
    }
    if schema::type_fault(m, v, path) is None {
        let i = choose|i: int| 0 <= i < l.len() && (#[trigger] l[i]) is Str && schema::matches_type_v(l[i]->Str_0, v);
        lemma_type_names(names[i], v);
        assert(is_of(names[i], v));
        assert(any);
    }
    assert(schema::fault_at(one("type"@, JsonV::Arr(l)), v, path, odd) is None <==> schema::type_fault(m, v, path) is None);
}

/// `enum` asks for one of its values, `const` for its value.
pub proof fn law_enum_and_const(a: Seq<JsonV>, x: JsonV, v: JsonV, path: Seq<char>, odd: Set<(u64, u64)>)
    ensures
        schema::fault_at(one("enum"@, JsonV::Arr(a)), v, path, odd) is None <==> exists|i: int|
            0 <= i < a.len() && json::json_eq(#[trigger] a[i], v),
        schema::fault_at(one("const"@, x), v, path, odd) is None <==> json::json_eq(x, v),
{
    lemma_spelling();
    lemma_flat("enum"@, JsonV::Arr(a), v, path, odd);
    lemma_flat("const"@, x, v, path, odd);
    if exists|i: int| 0 <= i < a.len() && json::json_eq(#[trigger] a[i], v) {
        let i = choose|i: int| 0 <= i < a.len() && json::json_eq(#[trigger] a[i], v);
        assert(schema::equal_at(a, i, v));
    }
    if schema::any_equal(a, v) {
        let i = choose|i: int| 0 <= i < a.len() && schema::equal_at(a, i, v);
        assert(json::json_eq(a[i], v));
    }
}

/// A number whose signed integer reading is the bound.
pub open spec fn counts(bound: NumberV, k: int) -> bool {
    bound.int matches Some(x) && x == k && 0 <= k
}

/// The bounds of counts let the bound itself in: of the bytes of a text in UTF-8, of the
/// members of an object, of the elements of an array. Other values are not held to them.
pub proof fn law_count_bounds(
    bound: NumberV,
    k: int,
    t: Seq<char>,
    obj: Seq<(Seq<char>, JsonV)>,
    a: Seq<JsonV>,
    v: JsonV,
    path: Seq<char>,
    odd: Set<(u64, u64)>,
)
    requires
        counts(bound, k),
    ensures
        schema::fault_at(one("minLength"@, JsonV::Num(bound)), JsonV::Str(t), path, odd) is None <==> k
            <= text::utf8(t).len(),
        schema::fault_at(one("maxLength"@, JsonV::Num(bound)), JsonV::Str(t), path, odd) is None <==> text::utf8(t).len()
            <= k,
        schema::fault_at(one("minProperties"@, JsonV::Num(bound)), JsonV::Obj(obj), path, odd) is None <==> k
            <= obj.len(),
        schema::fault_at(one("maxProperties"@, JsonV::Num(bound)), JsonV::Obj(obj), path, odd) is None <==> obj.len()
            <= k,
        schema::fault_at(one("minItems"@, JsonV::Num(bound)), JsonV::Arr(a), path, odd) is None <==> k <= a.len(),
        schema::fault_at(one("maxItems"@, JsonV::Num(bound)), JsonV::Arr(a), path, odd) is None <==> a.len() <= k,
        !(v is Str) ==> schema::fault_at(one("minLength"@, JsonV::Num(bound)), v, path, odd) is None
            && schema::fault_at(one("maxLength"@, JsonV::Num(bound)), v, path, odd) is None,
        !(v is Obj) ==> schema::fault_at(one("minProperties"@, JsonV::Num(bound)), v, path, odd) is None
            && schema::fault_at(one("maxProperties"@, JsonV::Num(bound)), v, path, odd) is None,
        !(v is Arr) ==> schema::fault_at(one("minItems"@, JsonV::Num(bound)), v, path, odd) is None && schema::fault_at(
            one("maxItems"@, JsonV::Num(bound)),
            v,
            path,
            odd,
        ) is None,
{
    lemma_spelling();
    let b = JsonV::Num(bound);
    lemma_flat("minLength"@, b, JsonV::Str(t), path, odd);
    lemma_flat("maxLength"@, b, JsonV::Str(t), path, odd);
    lemma_flat("minProperties"@, b, JsonV::Obj(obj), path, odd);
    lemma_flat("maxProperties"@, b, JsonV::Obj(obj), path, odd);
    lemma_flat("minItems"@, b, JsonV::Arr(a), path, odd);
    lemma_flat("maxItems"@, b, JsonV::Arr(a), path, odd);
    lemma_flat("minLength"@, b, v, path, odd);
    lemma_flat("maxLength"@, b, v, path, odd);
    lemma_flat("minProperties"@, b, v, path, odd);
    lemma_flat("maxProperties"@, b, v, path, odd);
    lemma_flat("minItems"@, b, v, path, odd);
    lemma_flat("maxItems"@, b, v, path, odd);
}

/// `uniqueItems` asks of an array that no two of its elements are equal.
pub proof fn law_unique_items(a: Seq<JsonV>, path: Seq<char>, odd: Set<(u64, u64)>)
    ensures
        schema::fault_at(one("uniqueItems"@, JsonV::Bool(true)), JsonV::Arr(a), path, odd) is None <==> forall|i: int, j: int|
            0 <= i < j < a.len() ==> !json::json_eq(#[trigger] a[i], #[trigger] a[j]),
        schema::fault_at(one("uniqueItems"@, JsonV::Bool(false)), JsonV::Arr(a), path, odd) is None,
{
    lemma_spelling();
    lemma_flat("uniqueItems"@, JsonV::Bool(true), JsonV::Arr(a), path, odd);
    lemma_flat("uniqueItems"@, JsonV::Bool(false), JsonV::Arr(a), path, odd);
}

/// Does an object have a member of the name?
pub open spec fn has_member(obj: Seq<(Seq<char>, JsonV)>, name: Seq<char>) -> bool {
    exists|i: int| 0 <= i < obj.len() && (#[trigger] obj[i]).0 == name
}

proof fn lemma_has_member(obj: Seq<(Seq<char>, JsonV)>, name: Seq<char>)
    ensures
        json::member(obj, name) is Some <==> has_member(obj, name),
        json::member(obj, name) matches Some(x) ==> exists|i: int|
            0 <= i < obj.len() && (#[trigger] obj[i]).0 == name && obj[i].1 == x && forall|j: int|
                0 <= j < i ==> (#[trigger] obj[j]).0 != name,
    decreases obj.len(),
{
    if obj.len() > 0 {
        let rest = obj.drop_first();
        lemma_has_member(rest, name);
        if obj[0].0 != name {
            if has_member(obj, name) {
                let i = choose|i: int| 0 <= i < obj.len() && (#[trigger] obj[i]).0 == name;
                assert(rest[i - 1] == obj[i]);
            }
            if json::member(rest, name) is Some {
                let x = json::member(rest, name)->0;
                let i = choose|i: int|
                    0 <= i < rest.len() && (#[trigger] rest[i]).0 == name && rest[i].1 == x && forall|j: int|
                        0 <= j < i ==> (#[trigger] rest[j]).0 != name;
                assert(obj[i + 1] == rest[i]);
                assert forall|j: int| 0 <= j < i + 1 implies (#[trigger] obj[j]).0 != name by {
                    if j > 0 {
                        assert(rest[j - 1] == obj[j]);
                    }
                }
            }
        } else {
            assert(obj[0].0 == name);
        }
    }
}

proof fn lemma_required(req: Seq<JsonV>, obj: Seq<(Seq<char>, JsonV)>, path: Seq<char>)
    ensures
        schema::required_fault(req, obj, path) is None <==> forall|i: int|
            0 <= i < req.len() ==> (#[trigger] req[i]) is Str && has_member(obj, req[i]->Str_0),
    decreases req.len(),
{
    if req.len() > 0 {
        let rest = req.drop_first();
        lemma_required(rest, obj, path);
        if req[0] is Str {
            lemma_has_member(obj, req[0]->Str_0);
        }
        assert forall|i: int| 0 < i < req.len() implies rest[i - 1] == #[trigger] req[i] by {}
        if forall|i: int| 0 <= i < req.len() ==> (#[trigger] req[i]) is Str && has_member(obj, req[i]->Str_0) {
            assert forall|i: int| 0 <= i < rest.len() implies (#[trigger] rest[i]) is Str && has_member(
                obj,
                rest[i]->Str_0,
            ) by {
                assert(rest[i] == req[i + 1]);
            }
        }
    }
}

/// `required` asks of an object that it has a member of every name in the list, and
/// nothing but names may stand there.
pub proof fn law_required(req: Seq<JsonV>, obj: Seq<(Seq<char>, JsonV)>, v: JsonV, path: Seq<char>, odd: Set<(u64, u64)>)
    ensures
        schema::fault_at(one("required"@, JsonV::Arr(req)), JsonV::Obj(obj), path, odd) is None <==> forall|i: int|
            0 <= i < req.len() ==> (#[trigger] req[i]) is Str && has_member(obj, req[i]->Str_0),
        !(v is Obj) ==> schema::fault_at(one("required"@, JsonV::Arr(req)), v, path, odd) is None,
{
    lemma_spelling();
    lemma_flat("required"@, JsonV::Arr(req), JsonV::Obj(obj), path, odd);
    lemma_flat("required"@, JsonV::Arr(req), v, path, odd);
    lemma_required(req, obj, path);
}

// ---------- keywords that look below a value ----------

/// Does a member of an object meet what the schemas by name ask for, or, where there is
/// none of its name, what is asked of the rest?
pub open spec fn member_meets(
    props: Seq<(Seq<char>, JsonV)>,
    rest: Option<JsonV>,
    one_of_them: (Seq<char>, JsonV),
    path: Seq<char>,
    odd: Set<(u64, u64)>,
) -> bool {
    match json::member(props, one_of_them.0) {
        Some(sub) => schema::fault_at(sub, one_of_them.1, path + "/"@ + one_of_them.0, odd) is None,
        None => match rest {
            None => true,
            Some(JsonV::Bool(b)) => b,
            Some(JsonV::Obj(o)) => schema::fault_at(
                JsonV::Obj(o),
                one_of_them.1,
                path + "/"@ + one_of_them.0,
                odd,
            ) is None,
            Some(_) => true,
        },
    }
}

proof fn lemma_members(
    m: Seq<(Seq<char>, JsonV)>,
    props: Seq<(Seq<char>, JsonV)>,
    rest: Option<JsonV>,
    obj: Seq<(Seq<char>, JsonV)>,
    i: int,
    path: Seq<char>,
    odd: Set<(u64, u64)>,
)
    requires
        0 <= i <= obj.len(),
        json::member(m, "properties"@) == Some(JsonV::Obj(props)) || (props.len() == 0 && json::member(m, "properties"@)
            is None),
        json::member(m, "additionalProperties"@) == rest,
    ensures
        schema::members_fault(JsonV::Obj(m), obj, i, path, odd) is None <==> forall|k: int|
            i <= k < obj.len() ==> member_meets(props, rest, #[trigger] obj[k], path, odd),
    decreases obj.len() - i,
{
    if i < obj.len() {
        lemma_members(m, props, rest, obj, i + 1, path, odd);
        assert(json::member(props, obj[i].0) is None || props.len() > 0);
        let here = member_meets(props, rest, obj[i], path, odd);
        if schema::members_fault(JsonV::Obj(m), obj, i, path, odd) is None {
            assert(here);
        }
    }
}

/// `properties` and `additionalProperties` together ask of every member of an object what
/// the schema of its name asks for; a member of another name must meet the schema for the
/// rest, and is refused where that is `false`.
pub proof fn law_properties(
    props: Seq<(Seq<char>, JsonV)>,
    rest: JsonV,
    obj: Seq<(Seq<char>, JsonV)>,
    path: Seq<char>,
    odd: Set<(u64, u64)>,
)
    ensures
        schema::fault_at(one("properties"@, JsonV::Obj(props)), JsonV::Obj(obj), path, odd) is None <==> forall|k: int|
            0 <= k < obj.len() ==> member_meets(props, None, #[trigger] obj[k], path, odd),
        schema::fault_at(one("additionalProperties"@, rest), JsonV::Obj(obj), path, odd) is None <==> forall|k: int|
            0 <= k < obj.len() ==> member_meets(Seq::empty(), Some(rest), #[trigger] obj[k], path, odd),
        schema::fault_at(
            JsonV::Obj(seq![("properties"@, JsonV::Obj(props)), ("additionalProperties"@, rest)]),
            JsonV::Obj(obj),
            path,
            odd,
        ) is None <==> forall|k: int|
            0 <= k < obj.len() ==> member_meets(props, Some(rest), #[trigger] obj[k], path, odd),
{
    lemma_spelling();
    let v = JsonV::Obj(obj);
    let a = seq![("properties"@, JsonV::Obj(props))];
    let b = seq![("additionalProperties"@, rest)];
    let c = seq![("properties"@, JsonV::Obj(props)), ("additionalProperties"@, rest)];
    assert forall|k: Seq<char>| #[trigger] json::member(a, k) == if k == "properties"@ {
        Some(JsonV::Obj(props))
    } else {
        None::<JsonV>
    } by {
        lemma_one("properties"@, JsonV::Obj(props), k);
    }
    assert forall|k: Seq<char>| #[trigger] json::member(b, k) == if k == "additionalProperties"@ {
        Some(rest)
    } else {
        None::<JsonV>
    } by {
        lemma_one("additionalProperties"@, rest, k);
    }
    assert(c.drop_first() =~= b);
    assert(c[0] == ("properties"@, JsonV::Obj(props)));
    assert forall|k: Seq<char>| #[trigger] json::member(c, k) == if k == "properties"@ {
        Some(JsonV::Obj(props))
    } else if k == "additionalProperties"@ {
        Some(rest)
    } else {
        None::<JsonV>
    } by {
        assert(json::member(b, k) == json::member(c.drop_first(), k));
    }
    lemma_members(a, props, None, obj, 0, path, odd);
    lemma_members(b, Seq::empty(), Some(rest), obj, 0, path, odd);
    lemma_members(c, props, Some(rest), obj, 0, path, odd);
    assert(schema::all_of_fault(JsonV::Obj(a), 0, v, path, odd) is None);
    assert(schema::all_of_fault(JsonV::Obj(b), 0, v, path, odd) is None);
    assert(schema::all_of_fault(JsonV::Obj(c), 0, v, path, odd) is None);
}

proof fn lemma_items(m: Seq<(Seq<char>, JsonV)>, sub: JsonV, a: Seq<JsonV>, i: int, path: Seq<char>, odd: Set<(u64, u64)>)
    requires
        0 <= i <= a.len(),
        json::member(m, "items"@) == Some(sub),
        sub is Obj || sub is Bool,
    ensures
        schema::items_fault(JsonV::Obj(m), a, i, path, odd) is None <==> forall|k: int|
            i <= k < a.len() ==> schema::fault_at(sub, #[trigger] a[k], path + "[]"@, odd) is None,
    decreases a.len() - i,
{
    if i < a.len() {
        lemma_items(m, sub, a, i + 1, path, odd);
        if schema::items_fault(JsonV::Obj(m), a, i, path, odd) is None {
            assert(schema::fault_at(sub, a[i], path + "[]"@, odd) is None);
        }
    }
}

/// `items` asks of every element of an array what its schema asks for.
pub proof fn law_items(sub: JsonV, a: Seq<JsonV>, v: JsonV, path: Seq<char>, odd: Set<(u64, u64)>)
    requires
        sub is Obj || sub is Bool,
    ensures
        schema::fault_at(one("items"@, sub), JsonV::Arr(a), path, odd) is None <==> forall|k: int|
            0 <= k < a.len() ==> schema::fault_at(sub, #[trigger] a[k], path + "[]"@, odd) is None,
        !(v is Arr) ==> schema::fault_at(one("items"@, sub), v, path, odd) is None,
{
    lemma_spelling();
    let m = seq![("items"@, sub)];
    assert forall|k: Seq<char>| #[trigger] json::member(m, k) == if k == "items"@ {
        Some(sub)
    } else {
        None::<JsonV>
    } by {
        lemma_one("items"@, sub, k);
    }
    lemma_items(m, sub, a, 0, path, odd);
    if v is Obj {
        lemma_free_members(m, v->Obj_0, 0, path, odd);
    }
    assert(schema::all_of_fault(JsonV::Obj(m), 0, JsonV::Arr(a), path, odd) is None);
    assert(schema::all_of_fault(JsonV::Obj(m), 0, v, path, odd) is None);
}

// ---------- keywords together ----------

proof fn lemma_same_members(
    m: Seq<(Seq<char>, JsonV)>,
    w: Seq<(Seq<char>, JsonV)>,
    obj: Seq<(Seq<char>, JsonV)>,
    i: int,
    path: Seq<char>,
    odd: Set<(u64, u64)>,
)
    requires
        json::member(m, "properties"@) == json::member(w, "properties"@),
        json::member(m, "additionalProperties"@) == json::member(w, "additionalProperties"@),
    ensures
        schema::members_fault(JsonV::Obj(m), obj, i, path, odd) == schema::members_fault(JsonV::Obj(w), obj, i, path, odd),
    decreases obj.len() - i,
{
    if 0 <= i < obj.len() {
        lemma_same_members(m, w, obj, i + 1, path, odd);
        assert(schema::property_schema(m, obj[i].0) == schema::property_schema(w, obj[i].0));
    }
}

proof fn lemma_same_items(
    m: Seq<(Seq<char>, JsonV)>,
    w: Seq<(Seq<char>, JsonV)>,
    a: Seq<JsonV>,
    i: int,
    path: Seq<char>,
    odd: Set<(u64, u64)>,
)
    requires
        json::member(m, "items"@) == json::member(w, "items"@),
    ensures
        schema::items_fault(JsonV::Obj(m), a, i, path, odd) == schema::items_fault(JsonV::Obj(w), a, i, path, odd),
    decreases a.len() - i,
{
    if 0 <= i < a.len() {
        lemma_same_items(m, w, a, i + 1, path, odd);
    }
}

proof fn lemma_same_list(
    m: Seq<(Seq<char>, JsonV)>,
    w: Seq<(Seq<char>, JsonV)>,
    name: Seq<char>,
    i: int,
    v: JsonV,
    path: Seq<char>,
    odd: Set<(u64, u64)>,
)
    requires
        json::member(m, name) == json::member(w, name),
    ensures
        schema::met_count(JsonV::Obj(m), name, i, v, path, odd) == schema::met_count(JsonV::Obj(w), name, i, v, path, odd),
        name == "allOf"@ ==> schema::all_of_fault(JsonV::Obj(m), i, v, path, odd) == schema::all_of_fault(
            JsonV::Obj(w),
            i,
            v,
            path,
            odd,
        ),
    decreases schema::list_left(JsonV::Obj(m), name, i),
{
    if schema::arr_of(m, name) is Some && 0 <= i < schema::arr_of(m, name)->0.len() {
        lemma_same_list(m, w, name, i + 1, v, path, odd);
    }
}

/// Does the value meet what a keyword alone asks for, where it is there?
spec fn meets(m: Seq<(Seq<char>, JsonV)>, k: Seq<char>, v: JsonV, path: Seq<char>, odd: Set<(u64, u64)>) -> bool {
    json::member(m, k) matches Some(x) ==> schema::fault_at(one(k, x), v, path, odd) is None
}

/// Each check looks at no more than its own keywords.
proof fn lemma_checks(m: Seq<(Seq<char>, JsonV)>, v: JsonV, path: Seq<char>, odd: Set<(u64, u64)>)
    ensures
        schema::type_fault(m, v, path) is None <==> meets(m, "type"@, v, path, odd),
        schema::enum_fault(m, v, path) is None <==> meets(m, "enum"@, v, path, odd),
        schema::const_fault(m, v, path) is None <==> meets(m, "const"@, v, path, odd),
        schema::length_fault(m, v, path) is None <==> meets(m, "minLength"@, v, path, odd) && meets(
            m,
            "maxLength"@,
            v,
            path,
            odd,
        ),
{
    lemma_spelling();
    if json::member(m, "type"@) is Some {
        lemma_flat("type"@, json::member(m, "type"@)->0, v, path, odd);
    }
    if json::member(m, "enum"@) is Some {
        lemma_flat("enum"@, json::member(m, "enum"@)->0, v, path, odd);
    }
    if json::member(m, "const"@) is Some {
        lemma_flat("const"@, json::member(m, "const"@)->0, v, path, odd);
    }
    if json::member(m, "minLength"@) is Some {
        lemma_flat("minLength"@, json::member(m, "minLength"@)->0, v, path, odd);
    }
    if json::member(m, "maxLength"@) is Some {
        lemma_flat("maxLength"@, json::member(m, "maxLength"@)->0, v, path, odd);
    }
}

proof fn lemma_number_checks(m: Seq<(Seq<char>, JsonV)>, v: JsonV, path: Seq<char>, odd: Set<(u64, u64)>)
    ensures
        schema::number_fault(m, v, path, odd) is None <==> meets(m, "minimum"@, v, path, odd) && meets(
            m,
            "maximum"@,
            v,
            path,
            odd,
        ) && meets(m, "exclusiveMinimum"@, v, path, odd) && meets(m, "exclusiveMaximum"@, v, path, odd) && meets(
            m,
            "multipleOf"@,
            v,
            path,
            odd,
        ),
{
    lemma_spelling();
    if json::member(m, "minimum"@) is Some {
        lemma_flat("minimum"@, json::member(m, "minimum"@)->0, v, path, odd);
    }
    if json::member(m, "maximum"@) is Some {
        lemma_flat("maximum"@, json::member(m, "maximum"@)->0, v, path, odd);
    }
    if json::member(m, "exclusiveMinimum"@) is Some {
        lemma_flat("exclusiveMinimum"@, json::member(m, "exclusiveMinimum"@)->0, v, path, odd);
    }
    if json::member(m, "exclusiveMaximum"@) is Some {
        lemma_flat("exclusiveMaximum"@, json::member(m, "exclusiveMaximum"@)->0, v, path, odd);
    }
    if json::member(m, "multipleOf"@) is Some {
        lemma_flat("multipleOf"@, json::member(m, "multipleOf"@)->0, v, path, odd);
    }
}

proof fn lemma_shape_checks(m: Seq<(Seq<char>, JsonV)>, v: JsonV, path: Seq<char>, odd: Set<(u64, u64)>)
    ensures
        schema::shape_fault(m, v, path) is None <==> meets(m, "minProperties"@, v, path, odd) && meets(
            m,
            "maxProperties"@,
            v,
            path,
            odd,
        ) && meets(m, "required"@, v, path, odd),
        schema::array_fault(m, v, path) is None <==> meets(m, "minItems"@, v, path, odd) && meets(
            m,
            "maxItems"@,
            v,
            path,
            odd,
        ) && meets(m, "uniqueItems"@, v, path, odd),
{
    lemma_spelling();
    if json::member(m, "minProperties"@) is Some {
        lemma_flat("minProperties"@, json::member(m, "minProperties"@)->0, v, path, odd);
    }
    if json::member(m, "maxProperties"@) is Some {
        lemma_flat("maxProperties"@, json::member(m, "maxProperties"@)->0, v, path, odd);
    }
    if json::member(m, "required"@) is Some {
        lemma_flat("required"@, json::member(m, "required"@)->0, v, path, odd);
    }
    if json::member(m, "minItems"@) is Some {
        lemma_flat("minItems"@, json::member(m, "minItems"@)->0, v, path, odd);
    }
    if json::member(m, "maxItems"@) is Some {
        lemma_flat("maxItems"@, json::member(m, "maxItems"@)->0, v, path, odd);
    }
    if json::member(m, "uniqueItems"@) is Some {
        lemma_flat("uniqueItems"@, json::member(m, "uniqueItems"@)->0, v, path, odd);
    }
}

/// What a schema with one keyword says of the checks that look further.
#[verifier::rlimit(40)]
proof fn lemma_deep_alone(k: Seq<char>, x: JsonV, v: JsonV, path: Seq<char>, odd: Set<(u64, u64)>)
    requires
        k == "properties"@ || k == "items"@ || k == "oneOf"@ || k == "anyOf"@ || k == "allOf"@ || k == "not"@,
    ensures
        ({
            let w = seq![(k, x)];
            let n = JsonV::Obj(w);
            &&& json::member(w, k) == Some(x)
            &&& json::member(w, "additionalProperties"@) is None
            &&& k == "properties"@ ==> (schema::fault_at(n, v, path, odd) is None <==> (v is Obj ==> schema::members_fault(
                n,
                v->Obj_0,
                0,
                path,
                odd,
            ) is None))
            &&& k == "items"@ ==> (schema::fault_at(n, v, path, odd) is None <==> (v is Arr ==> schema::items_fault(
                n,
                v->Arr_0,
                0,
                path,
                odd,
            ) is None))
            &&& k == "oneOf"@ ==> (schema::fault_at(n, v, path, odd) is None <==> (schema::arr_of(w, k) is Some
                ==> schema::met_count(n, k, 0, v, path, odd) == 1))
            &&& k == "anyOf"@ ==> (schema::fault_at(n, v, path, odd) is None <==> (schema::arr_of(w, k) is Some
                ==> schema::met_count(n, k, 0, v, path, odd) > 0))
            &&& k == "allOf"@ ==> (schema::fault_at(n, v, path, odd) is None <==> schema::all_of_fault(n, 0, v, path, odd)
                is None)
            &&& k == "not"@ ==> (schema::fault_at(n, v, path, odd) is None <==> schema::fault_at(x, v, path, odd) is Some)
        }),
{
    lemma_spelling();
    let w = seq![(k, x)];
    let n = JsonV::Obj(w);
    assert forall|j: Seq<char>| #[trigger] json::member(w, j) == if j == k {
        Some(x)
    } else {
        None::<JsonV>
    } by {
        lemma_one(k, x, j);
    }
    if v is Obj && k != "properties"@ {
        lemma_free_members(w, v->Obj_0, 0, path, odd);
    }
    if k != "items"@ {
        assert(schema::items_fault(n, v->Arr_0, 0, path, odd) is None);
    }
    if k != "allOf"@ {
        assert(schema::all_of_fault(n, 0, v, path, odd) is None);
    }
    assert(schema::flat_fault(w, v, path, odd) is None);
    assert(schema::array_fault(w, v, path) is None);
}

#[verifier::rlimit(40)]
proof fn lemma_deep_checks(m: Seq<(Seq<char>, JsonV)>, v: JsonV, path: Seq<char>, odd: Set<(u64, u64)>)
    requires
        json::member(m, "additionalProperties"@) is None,
    ensures
        (v is Obj ==> schema::members_fault(JsonV::Obj(m), v->Obj_0, 0, path, odd) is None) <==> meets(
            m,
            "properties"@,
            v,
            path,
            odd,
        ),
        (v is Arr ==> schema::items_fault(JsonV::Obj(m), v->Arr_0, 0, path, odd) is None) <==> meets(
            m,
            "items"@,
            v,
            path,
            odd,
        ),
        schema::combined_fault(JsonV::Obj(m), v, path, odd) is None <==> meets(m, "oneOf"@, v, path, odd) && meets(
            m,
            "anyOf"@,
            v,
            path,
            odd,
        ) && meets(m, "allOf"@, v, path, odd) && meets(m, "not"@, v, path, odd),
{
    let n = JsonV::Obj(m);
    if json::member(m, "properties"@) is Some {
        let x = json::member(m, "properties"@)->0;
        lemma_deep_alone("properties"@, x, v, path, odd);
        if v is Obj {
            lemma_same_members(m, seq![("properties"@, x)], v->Obj_0, 0, path, odd);
        }
    } else if v is Obj {
        lemma_free_members(m, v->Obj_0, 0, path, odd);
    }
    if json::member(m, "items"@) is Some {
        let x = json::member(m, "items"@)->0;
        lemma_deep_alone("items"@, x, v, path, odd);
        if v is Arr {
            lemma_same_items(m, seq![("items"@, x)], v->Arr_0, 0, path, odd);
        }
    } else {
        assert(schema::items_fault(n, v->Arr_0, 0, path, odd) is None);
    }
    if json::member(m, "oneOf"@) is Some {
        let x = json::member(m, "oneOf"@)->0;
        lemma_deep_alone("oneOf"@, x, v, path, odd);
        lemma_same_list(m, seq![("oneOf"@, x)], "oneOf"@, 0, v, path, odd);
    }
    if json::member(m, "anyOf"@) is Some {
        let x = json::member(m, "anyOf"@)->0;
        lemma_deep_alone("anyOf"@, x, v, path, odd);
        lemma_same_list(m, seq![("anyOf"@, x)], "anyOf"@, 0, v, path, odd);
    }
    if json::member(m, "allOf"@) is Some {
        let x = json::member(m, "allOf"@)->0;
        lemma_deep_alone("allOf"@, x, v, path, odd);
        lemma_same_list(m, seq![("allOf"@, x)], "allOf"@, 0, v, path, odd);
    } else {
        assert(schema::all_of_fault(n, 0, v, path, odd) is None);
    }
    if json::member(m, "not"@) is Some {
        lemma_deep_alone("not"@, json::member(m, "not"@)->0, v, path, odd);
    }
}

/// Keywords stand beside each other: a value meets a schema exactly where it meets each
/// of its keywords alone. (`properties` and `additionalProperties` go together, so the
/// law is of schemas without the latter.)
#[verifier::rlimit(40)]
pub proof fn law_keywords_are_independent(m: Seq<(Seq<char>, JsonV)>, v: JsonV, path: Seq<char>, odd: Set<(u64, u64)>)
    requires
        forall|i: int, j: int| 0 <= i < j < m.len() ==> (#[trigger] m[i]).0 != (#[trigger] m[j]).0,
        !has_member(m, "additionalProperties"@),
    ensures
        schema::fault_at(JsonV::Obj(m), v, path, odd) is None <==> forall|i: int|
            #![trigger m[i]]
            0 <= i < m.len() ==> schema::fault_at(one(m[i].0, m[i].1), v, path, odd) is None,
{
    lemma_has_member(m, "additionalProperties"@);
    lemma_checks(m, v, path, odd);
    lemma_number_checks(m, v, path, odd);
    lemma_shape_checks(m, v, path, odd);
    lemma_deep_checks(m, v, path, odd);
    assert forall|k: Seq<char>| #[trigger] json::member(m, k) is Some implies has_member(m, k) by {
        lemma_has_member(m, k);
    }
    let all = forall|i: int|
        #![trigger m[i]]
        0 <= i < m.len() ==> schema::fault_at(one(m[i].0, m[i].1), v, path, odd) is None;
    if all {
        assert forall|k: Seq<char>| #[trigger] meets(m, k, v, path, odd) by {
            if json::member(m, k) is Some {
                let i = choose|i: int| 0 <= i < m.len() && (#[trigger] m[i]).0 == k;
                json::lemma_member_at(m, i);
            }
        }
    }
    if schema::fault_at(JsonV::Obj(m), v, path, odd) is None {
        assert forall|i: int| #![trigger m[i]] 0 <= i < m.len() implies schema::fault_at(
            one(m[i].0, m[i].1),
            v,
            path,
            odd,
        ) is None by {
            json::lemma_member_at(m, i);
            let k = m[i].0;
            if k == "additionalProperties"@ {
                assert(has_member(m, k));
            }
            lemma_known_or_free(m, k, m[i].1, v, path, odd);
        }
    }
}

/// A keyword that no check looks at asks for nothing.
proof fn lemma_known_or_free(
    m: Seq<(Seq<char>, JsonV)>,
    k: Seq<char>,
    x: JsonV,
    v: JsonV,
    path: Seq<char>,
    odd: Set<(u64, u64)>,
)
    requires
        json::member(m, k) == Some(x),
        k != "additionalProperties"@,
        meets(m, "type"@, v, path, odd),
        meets(m, "enum"@, v, path, odd),
        meets(m, "const"@, v, path, odd),
        meets(m, "minLength"@, v, path, odd),
        meets(m, "maxLength"@, v, path, odd),
        meets(m, "minimum"@, v, path, odd),
        meets(m, "maximum"@, v, path, odd),
        meets(m, "exclusiveMinimum"@, v, path, odd),
        meets(m, "exclusiveMaximum"@, v, path, odd),
        meets(m, "multipleOf"@, v, path, odd),
        meets(m, "required"@, v, path, odd),
        meets(m, "minProperties"@, v, path, odd),
        meets(m, "maxProperties"@, v, path, odd),
        meets(m, "minItems"@, v, path, odd),
        meets(m, "maxItems"@, v, path, odd),
        meets(m, "uniqueItems"@, v, path, odd),
        meets(m, "properties"@, v, path, odd),
        meets(m, "items"@, v, path, odd),
        meets(m, "oneOf"@, v, path, odd),
        meets(m, "anyOf"@, v, path, odd),
        meets(m, "allOf"@, v, path, odd),
        meets(m, "not"@, v, path, odd),
    ensures
        schema::fault_at(one(k, x), v, path, odd) is None,
{
    if !(k == "type"@ || k == "enum"@ || k == "const"@ || k == "minLength"@ || k == "maxLength"@ || k == "minimum"@ || k == "maximum"@ || k == "exclusiveMinimum"@ || k == "exclusiveMaximum"@ || k == "multipleOf"@ || k == "required"@ || k == "minProperties"@ || k == "maxProperties"@ || k == "minItems"@ || k == "maxItems"@ || k == "uniqueItems"@ || k == "properties"@ || k == "items"@ || k == "oneOf"@ || k == "anyOf"@ || k == "allOf"@ || k == "not"@) {
        lemma_flat(k, x, v, path, odd);
    }
}

// ---------- what is refused when a schema is set ----------

/// A schema with a keyword that is not enforced is refused, wherever it stands among the
/// others: a pattern, a format, a reference, a condition.
pub proof fn law_unenforced_keywords_are_refused(m: Seq<(Seq<char>, JsonV)>, i: int)
    requires
        0 <= i < m.len(),
        m[i].0 == "pattern"@ || m[i].0 == "format"@ || m[i].0 == "$ref"@ || m[i].0 == "if"@ || m[i].0
            == "patternProperties"@ || m[i].0 == "contains"@,
    ensures
        schema::unsupported(JsonV::Obj(m)) is Some,
{
    lemma_foreign_names(m[i].0);
    if schema::unsupported(JsonV::Obj(m)) is None {
        schema::law_accepted_schema_is_enforceable(m, i);
    }
}

proof fn lemma_foreign_names(k: Seq<char>)
    requires
        k == "pattern"@ || k == "format"@ || k == "$ref"@ || k == "if"@ || k == "patternProperties"@ || k == "contains"@,
    ensures
        !schema::is_keyword(k),
{
    lemma_spelling();
    reveal_strlit("pattern");
    reveal_strlit("format");
    reveal_strlit("$ref");
    reveal_strlit("if");
    reveal_strlit("patternProperties");
    reveal_strlit("contains");
    reveal_strlit("title");
    reveal_strlit("description");
    reveal_strlit("default");
    reveal_strlit("examples");
    reveal_strlit("$comment");
    assert("pattern"@.len() == 7 && "pattern"@[0] == 'p');
    assert("format"@.len() == 6);
    assert("$ref"@.len() == 4 && "$ref"@[0] == '$');
    assert("if"@.len() == 2);
    assert("patternProperties"@.len() == 17);
    assert("contains"@.len() == 8 && "contains"@[0] == 'c');
    assert("title"@.len() == 5 && "description"@.len() == 11 && "default"@.len() == 7 && "default"@[0] == 'd');
    assert("examples"@.len() == 8 && "examples"@[0] == 'e' && "$comment"@.len() == 8 && "$comment"@[0] == '$');
}

/// When two JSON values are equal: texts and truth values where they are the same, whole
/// numbers by value, other numbers as doubles, a whole number never to another number,
/// arrays element by element, and objects where every member of the one is equal to the
/// member of that name in the other.
pub proof fn law_json_equality(a: JsonV, b: JsonV)
    ensures
        json::json_eq(JsonV::Null, b) <==> b is Null,
        a is Bool || a is Str ==> (json::json_eq(a, b) <==> a == b),
        a matches JsonV::Num(x) ==> b matches JsonV::Num(y) ==> {
            &&& x.uint is Some && y.uint is Some ==> (json::json_eq(a, b) <==> x.uint->0 == y.uint->0)
            &&& x.uint is None && y.uint is None && x.int is Some && y.int is Some ==> (json::json_eq(a, b) <==> x.int->0
                == y.int->0)
            &&& x.uint is None && y.uint is None && x.int is None && y.int is None ==> (json::json_eq(a, b)
                <==> double_value(x.bits) == double_value(y.bits))
            &&& x.uint is Some && y.uint is None ==> !json::json_eq(a, b)
        },
        a matches JsonV::Arr(x) ==> b matches JsonV::Arr(y) ==> (json::json_eq(a, b) <==> x.len() == y.len() && forall|i: int|
            0 <= i < x.len() ==> json::json_eq(#[trigger] x[i], y[i])),
        a matches JsonV::Obj(x) ==> b matches JsonV::Obj(y) ==> (json::json_eq(a, b) ==> x.len() == y.len() && forall|i: int|
            0 <= i < x.len() ==> has_member(y, (#[trigger] x[i]).0)),
        a is Num && !(b is Num) || a is Arr && !(b is Arr) || a is Obj && !(b is Obj) ==> !json::json_eq(a, b),
{
    if a is Num && b is Num {
        lemma_double_order(a->Num_0.bits, b->Num_0.bits);
    }
    if a is Obj && b is Obj && json::json_eq(a, b) {
        let x = a->Obj_0;
        let y = b->Obj_0;
        assert forall|i: int| 0 <= i < x.len() implies has_member(y, (#[trigger] x[i]).0) by {
            lemma_has_member(y, x[i].0);
        }
    }
}

/// A bound below zero counts as one that is never reached: as a least count it lets
/// nothing in, as a greatest one everything.
pub proof fn law_bounds_below_zero(
    bound: NumberV,
    x: i64,
    t: Seq<char>,
    obj: Seq<(Seq<char>, JsonV)>,
    a: Seq<JsonV>,
    path: Seq<char>,
    odd: Set<(u64, u64)>,
)
    requires
        bound.int == Some(x),
        x < 0,
        text::utf8(t).len() < 0x8000_0000_0000_0000,
        obj.len() < 0x8000_0000_0000_0000,
        a.len() < 0x8000_0000_0000_0000,
    ensures
        schema::fault_at(one("minLength"@, JsonV::Num(bound)), JsonV::Str(t), path, odd) is Some,
        schema::fault_at(one("maxLength"@, JsonV::Num(bound)), JsonV::Str(t), path, odd) is None,
        schema::fault_at(one("minProperties"@, JsonV::Num(bound)), JsonV::Obj(obj), path, odd) is Some,
        schema::fault_at(one("maxProperties"@, JsonV::Num(bound)), JsonV::Obj(obj), path, odd) is None,
        schema::fault_at(one("minItems"@, JsonV::Num(bound)), JsonV::Arr(a), path, odd) is Some,
        schema::fault_at(one("maxItems"@, JsonV::Num(bound)), JsonV::Arr(a), path, odd) is None,
{
    lemma_spelling();
    let b = JsonV::Num(bound);
    assert(x < 0 ==> (x as u64) >= 0x8000_0000_0000_0000) by (bit_vector);
    lemma_flat("minLength"@, b, JsonV::Str(t), path, odd);
    lemma_flat("maxLength"@, b, JsonV::Str(t), path, odd);
    lemma_flat("minProperties"@, b, JsonV::Obj(obj), path, odd);
    lemma_flat("maxProperties"@, b, JsonV::Obj(obj), path, odd);
    lemma_flat("minItems"@, b, JsonV::Arr(a), path, odd);
    lemma_flat("maxItems"@, b, JsonV::Arr(a), path, odd);
}

proof fn lemma_named(p: Seq<(Seq<char>, JsonV)>, i: int, from: int)
    requires
        0 <= from <= i < p.len(),
        schema::unsupported(p[i].1) is Some,
    ensures
        schema::named_fault(JsonV::Obj(p), from) is Some,
    decreases i - from,
{
    if from < i {
        lemma_named(p, i, from + 1);
    }
}

proof fn lemma_in_list(a: Seq<JsonV>, i: int, from: int)
    requires
        0 <= from <= i < a.len(),
        a[i] is Obj,
        schema::unsupported(a[i]) is Some,
    ensures
        schema::list_fault(JsonV::Arr(a), from) is Some,
    decreases i - from,
{
    if from < i {
        lemma_in_list(a, i, from + 1);
    }
}

/// A schema that cannot be enforced is refused wherever it stands inside another: among
/// the properties, for the items or the rest of the properties, under `not`, or in the
/// list of a combinator.
pub proof fn law_unenforceable_schema_is_refused_inside(
    sub: JsonV,
    p: Seq<(Seq<char>, JsonV)>,
    a: Seq<JsonV>,
    i: int,
)
    requires
        sub is Obj,
        schema::unsupported(sub) is Some,
    ensures
        0 <= i < p.len() && p[i].1 == sub ==> schema::unsupported(one("properties"@, JsonV::Obj(p))) is Some,
        schema::unsupported(one("items"@, sub)) is Some,
        schema::unsupported(one("additionalProperties"@, sub)) is Some,
        schema::unsupported(one("not"@, sub)) is Some,
        0 <= i < a.len() && a[i] == sub ==> schema::unsupported(one("oneOf"@, JsonV::Arr(a))) is Some
            && schema::unsupported(one("anyOf"@, JsonV::Arr(a))) is Some && schema::unsupported(
            one("allOf"@, JsonV::Arr(a)),
        ) is Some,
{
    lemma_spelling();
    if 0 <= i < p.len() && p[i].1 == sub {
        lemma_named(p, i, 0);
        let s = seq![("properties"@, JsonV::Obj(p))];
        assert(s[0] == ("properties"@, JsonV::Obj(p)));
        assert(schema::keywords_fault(JsonV::Obj(s), 0) is Some);
    }
    let b = seq![("items"@, sub)];
    assert(b[0] == ("items"@, sub));
    assert(schema::keywords_fault(JsonV::Obj(b), 0) is Some);
    let c = seq![("additionalProperties"@, sub)];
    assert(c[0] == ("additionalProperties"@, sub));
    assert(schema::keywords_fault(JsonV::Obj(c), 0) is Some);
    let d = seq![("not"@, sub)];
    assert(d[0] == ("not"@, sub));
    assert(schema::keywords_fault(JsonV::Obj(d), 0) is Some);
    if 0 <= i < a.len() && a[i] == sub {
        lemma_in_list(a, i, 0);
        let e = seq![("oneOf"@, JsonV::Arr(a))];
        assert(e[0] == ("oneOf"@, JsonV::Arr(a)));
        assert(schema::keywords_fault(JsonV::Obj(e), 0) is Some);
        let f = seq![("anyOf"@, JsonV::Arr(a))];
        assert(f[0] == ("anyOf"@, JsonV::Arr(a)));
        assert(schema::keywords_fault(JsonV::Obj(f), 0) is Some);
        let g = seq![("allOf"@, JsonV::Arr(a))];
        assert(g[0] == ("allOf"@, JsonV::Arr(a)));
        assert(schema::keywords_fault(JsonV::Obj(g), 0) is Some);
    }
}

/// Every number in a value is listed for the check of multiples, however deep it stands,
/// and no other is.
pub proof fn law_every_number_is_listed(n: NumberV, a: Seq<JsonV>, m: Seq<(Seq<char>, JsonV)>, x: u64)
    ensures
        schema::numbers(JsonV::Num(n)) == seq![n.bits],
        schema::numbers(JsonV::Arr(a)).contains(x) <==> exists|i: int|
            0 <= i < a.len() && schema::numbers(#[trigger] a[i]).contains(x),
        schema::numbers(JsonV::Obj(m)).contains(x) <==> exists|i: int|
            0 <= i < m.len() && schema::numbers((#[trigger] m[i]).1).contains(x),
{
    lemma_numbers_in_array(a, x, 0);
    lemma_numbers_in_object(m, x, 0);
}

proof fn lemma_numbers_in_array(a: Seq<JsonV>, x: u64, from: int)
    requires
        0 <= from <= a.len(),
    ensures
        schema::numbers_from(JsonV::Arr(a), from).contains(x) <==> exists|i: int|
            from <= i < a.len() && schema::numbers(#[trigger] a[i]).contains(x),
    decreases a.len() - from,
{
    if from < a.len() {
        lemma_numbers_in_array(a, x, from + 1);
        lemma_contains_sum(schema::numbers(a[from]), schema::numbers_from(JsonV::Arr(a), from + 1), x);
        if schema::numbers(a[from]).contains(x) {
            assert(schema::numbers(a[from]).contains(x));
        }
    }
}

proof fn lemma_numbers_in_object(m: Seq<(Seq<char>, JsonV)>, x: u64, from: int)
    requires
        0 <= from <= m.len(),
    ensures
        schema::numbers_from(JsonV::Obj(m), from).contains(x) <==> exists|i: int|
            from <= i < m.len() && schema::numbers((#[trigger] m[i]).1).contains(x),
    decreases m.len() - from,
{
    if from < m.len() {
        lemma_numbers_in_object(m, x, from + 1);
        lemma_contains_sum(schema::numbers(m[from].1), schema::numbers_from(JsonV::Obj(m), from + 1), x);
        if schema::numbers(m[from].1).contains(x) {
            assert(schema::numbers(m[from].1).contains(x));
        }
    }
}

proof fn lemma_contains_sum(a: Seq<u64>, b: Seq<u64>, x: u64)
    ensures
        (a + b).contains(x) <==> a.contains(x) || b.contains(x),
{
    if a.contains(x) {
        assert((a + b)[a.index_of(x)] == x);
    }
    if b.contains(x) {
        assert((a + b)[a.len() + b.index_of(x)] == x);
    }
    if (a + b).contains(x) {
        let i = (a + b).index_of(x);
        if i < a.len() {
            assert(a[i] == x);
        } else {
            assert(b[i - a.len()] == x);
        }
    }
}

} // verus!
