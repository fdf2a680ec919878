//! JSON values.

use crate::segments;
use crate::text;
use vstd::prelude::*;

verus! {

/// A JSON number: its integer readings, the bits of its nearest double, its JSON
/// numeral and the numeral of the double.
#[derive(Debug)]
pub struct Number {
    pub uint: Option<u64>,
    pub int: Option<i64>,
    pub bits: u64,
    pub numeral: String,
    pub shown: String,
}

/// A JSON value; the members of an object keep their order.
#[derive(Debug)]
pub enum Json {
    Null,
    Bool(bool),
    Num(Number),
    Str(String),
    Arr(Vec<Json>),
    Obj(Vec<(String, Json)>),
}

/// A number as a value of the model.
#[verifier::ext_equal]
pub struct NumberV {
    pub uint: Option<u64>,
    pub int: Option<i64>,
    pub bits: u64,
    pub numeral: Seq<char>,
    pub shown: Seq<char>,
}

/// A JSON value of the model.
#[verifier::ext_equal]
pub enum JsonV {
    Null,
    Bool(bool),
    Num(NumberV),
    Str(Seq<char>),
    Arr(Seq<JsonV>),
    Obj(Seq<(Seq<char>, JsonV)>),
}

impl View for Number {
    type V = NumberV;

    open spec fn view(&self) -> NumberV {
        NumberV {
            uint: self.uint,
            int: self.int,
            bits: self.bits,
            numeral: self.numeral@,
            shown: self.shown@,
        }
    }
}

impl Json {
    /// The value in the model.
    pub open spec fn value(self) -> JsonV
        decreases self,
    {
        match self {
            Json::Null => JsonV::Null,
            Json::Bool(b) => JsonV::Bool(b),
            Json::Num(n) => JsonV::Num(n@),
            Json::Str(s) => JsonV::Str(s@),
            Json::Arr(a) => JsonV::Arr(
                Seq::new(
                    a@.len(),
                    |i: int|
                        if 0 <= i < a@.len() {
                            a@[i].value()
                        } else {
                            JsonV::Null
                        },
                ),
            ),
            Json::Obj(m) => JsonV::Obj(
                Seq::new(
                    m@.len(),
                    |i: int|
                        if 0 <= i < m@.len() {
                            (m@[i].0@, m@[i].1.value())
                        } else {
                            (Seq::empty(), JsonV::Null)
                        },
                ),
            ),
        }
    }
}

/// `serde_json::Value`, a parsed JSON tree.
#[verifier::external_type_specification]
#[verifier::external_body]
pub struct ExValue(serde_json::Value);

/// What a parsed JSON tree holds.
pub uninterp spec fn tree_value(v: serde_json::Value) -> JsonV;

/// What `serde_json` reads in a text; `None` where the text is no JSON value.
pub uninterp spec fn json_read(s: Seq<char>) -> Option<JsonV>;

/// The text that `serde_json` writes for a tree.
pub uninterp spec fn tree_text(j: JsonV) -> Seq<char>;

/// The text that `serde_json` writes for an object with the given members.
pub uninterp spec fn object_text(members: Seq<(Seq<char>, MemberV)>) -> Seq<char>;

/// The texts that `serde_json` reads in a text as an array of strings.
pub uninterp spec fn strings_read(s: Seq<char>) -> Option<Seq<Seq<char>>>;

/// The bytes that `serde_json` writes for an array of strings.
pub uninterp spec fn strings_bytes(list: Seq<Seq<char>>) -> Seq<u8>;

/// `serde_json::from_str` into a `Value`; it depends on the text alone.
#[verifier::external_body]
fn parse_tree(s: &str) -> (r: Option<serde_json::Value>)
    ensures
        match r {
            Some(v) => json_read(s@) == Some(tree_value(v)),
            None => json_read(s@) is None,
        },
{
    serde_json::from_str::<serde_json::Value>(s).ok()
}

/// The contents of a `serde_json::Value`, variant for variant. A number is given by
/// its `as_u64`, `as_i64`, the bits and the text of its `as_f64`, and its own text.
#[verifier::external_body]
fn tree_json(v: serde_json::Value) -> (r: Json)
    ensures
        r.value() == tree_value(v),
{
    match v {
        serde_json::Value::Null => Json::Null,
        serde_json::Value::Bool(b) => Json::Bool(b),
        serde_json::Value::Number(n) => {
            let x = n.as_f64().unwrap_or_default();
            let (bits, shown) = (x.to_bits(), x.to_string());
            Json::Num(Number { uint: n.as_u64(), int: n.as_i64(), bits, numeral: n.to_string(), shown })
        },
        serde_json::Value::String(s) => Json::Str(s),
        serde_json::Value::Array(a) => Json::Arr(a.into_iter().map(tree_json).collect()),
        serde_json::Value::Object(m) => Json::Obj(m.into_iter().map(|(k, x)| (k, tree_json(x))).collect()),
    }
}

/// Read a JSON value.
pub fn read_json(s: &str) -> (r: Option<Json>)
    ensures
        match r {
            Some(j) => json_read(s@) == Some(j.value()),
            None => json_read(s@) is None,
        },
{
    match parse_tree(s) {
        Some(v) => Some(tree_json(v)),
        None => None,
    }
}

/// `to_string` of a `serde_json::Value`; it depends on the contents of the tree alone.
#[verifier::external_body]
fn write_tree(v: &serde_json::Value) -> (r: String)
    ensures
        r@ == tree_text(tree_value(*v)),
{
    v.to_string()
}

/// Read a JSON text and write it anew.
pub fn rewrite(s: &str) -> (r: Option<String>)
    ensures
        match json_read(s@) {
            Some(j) => r matches Some(t) && t@ == tree_text(j),
            None => r is None,
        },
{
    match parse_tree(s) {
        Some(v) => Some(write_tree(&v)),
        None => None,
    }
}

/// A member of an object that is written.
#[derive(Debug)]
pub enum Member {
    Null,
    Str(String),
    Uint(u64),
    List(Vec<String>),
}

/// A member as a value of the model.
#[verifier::ext_equal]
pub enum MemberV {
    Null,
    Str(Seq<char>),
    Uint(u64),
    List(Seq<Seq<char>>),
}

/// The texts of some strings.
pub open spec fn texts(list: Seq<String>) -> Seq<Seq<char>> {
    Seq::new(list.len(), |i: int| list[i]@)
}

impl View for Member {
    type V = MemberV;

    open spec fn view(&self) -> MemberV {
        match self {
            Member::Null => MemberV::Null,
            Member::Str(s) => MemberV::Str(s@),
            Member::Uint(n) => MemberV::Uint(*n),
            Member::List(l) => MemberV::List(texts(l@)),
        }
    }
}

impl MemberV {
    /// Does the JSON value hold the member? A number holds it by its value.
    pub open spec fn held_by(self, j: JsonV) -> bool {
        match self {
            MemberV::Null => j == JsonV::Null,
            MemberV::Str(s) => j == JsonV::Str(s),
            MemberV::Uint(n) => j is Num && j->Num_0.uint == Some(n),
            MemberV::List(l) => j == JsonV::Arr(Seq::new(l.len(), |i: int| JsonV::Str(l[i]))),
        }
    }
}

/// The views of some members.
pub open spec fn member_views(m: Seq<(String, Member)>) -> Seq<(Seq<char>, MemberV)> {
    Seq::new(m.len(), |i: int| (m[i].0@, m[i].1@))
}

/// Is the JSON value an object with these members, in this order?
pub open spec fn is_object_of(j: JsonV, m: Seq<(Seq<char>, MemberV)>) -> bool {
    &&& j is Obj
    &&& j->Obj_0.len() == m.len()
    &&& forall|i: int|
        0 <= i < m.len() ==> (#[trigger] j->Obj_0[i]).0 == m[i].0 && m[i].1.held_by(j->Obj_0[i].1)
}

/// No name occurs twice.
pub open spec fn distinct_names(m: Seq<(Seq<char>, MemberV)>) -> bool {
    forall|i: int, j: int| 0 <= i < j < m.len() ==> (#[trigger] m[i]).0 != (#[trigger] m[j]).0
}

/// Is the first name none that `serde_json` keeps for itself? It reads an object that
/// starts with one of those as another value.
pub open spec fn free_name(m: Seq<(Seq<char>, MemberV)>) -> bool {
    m.len() > 0 ==> !segments::starts(m[0].0, "$serde_json::private::"@)
}

/// The text of a `serde_json::Value::Object` with these members, in this order.
/// Reading the text back gives the members, where no name occurs twice and the first one
/// is none of those that `serde_json` keeps for itself.
#[verifier::external_body]
pub(crate) fn write_object(members: &Vec<(String, Member)>) -> (r: String)
    ensures
        r@ == object_text(member_views(members@)),
        distinct_names(member_views(members@)) && free_name(member_views(members@)) ==> json_read(r@) is Some
            && is_object_of(json_read(r@)->0, member_views(members@)),
{
    let mut m = serde_json::Map::new();
    for (k, v) in members.iter() {
        m.insert(k.clone(), match v {
            Member::Null => serde_json::Value::Null,
            Member::Str(s) => serde_json::Value::from(s.clone()),
            Member::Uint(n) => serde_json::Value::from(*n),
            Member::List(l) => serde_json::Value::from(l.clone()),
        });
    }
    serde_json::Value::Object(m).to_string()
}

/// `serde_json::from_str` into a `Vec<String>`; it depends on the text alone.
#[verifier::external_body]
pub(crate) fn read_strings(s: &str) -> (r: Option<Vec<String>>)
    ensures
        match r {
            Some(l) => strings_read(s@) == Some(texts(l@)),
            None => strings_read(s@) is None,
        },
{
    serde_json::from_str::<Vec<String>>(s).ok()
}

/// `serde_json::to_vec` of an array of strings: UTF-8 that reads back as the same
/// strings.
#[verifier::external_body]
pub(crate) fn write_strings(list: &Vec<String>) -> (r: Vec<u8>)
    ensures
        r@ == strings_bytes(texts(list@)),
        vstd::utf8::valid_utf8(r@),
        strings_read(vstd::utf8::decode_utf8(r@)) == Some(texts(list@)),
{
    serde_json::to_vec(list).unwrap_or_default()
}

/// The value under `name`, if the object has it.
pub open spec fn member(obj: Seq<(Seq<char>, JsonV)>, name: Seq<char>) -> Option<JsonV>
    decreases obj.len(),
{
    if obj.len() == 0 {
        None
    } else if obj[0].0 == name {
        Some(obj[0].1)
    } else {
        member(obj.drop_first(), name)
    }
}

/// Order of doubles by their bits.
pub open spec fn double_key(bits: u64) -> int {
    if bits < 0x8000_0000_0000_0000 {
        bits as int
    } else {
        0x8000_0000_0000_0000 - bits
    }
}

/// Equality of numbers: integers by value, doubles by value, never across the two.
pub open spec fn number_eq(a: NumberV, b: NumberV) -> bool {
    if a.uint is Some || b.uint is Some {
        a.uint == b.uint
    } else if a.int is Some || b.int is Some {
        a.int == b.int
    } else {
        double_key(a.bits) == double_key(b.bits)
    }
}

/// Equality of JSON values; the order of an object's members does not matter.
pub open spec fn json_eq(a: JsonV, b: JsonV) -> bool
    decreases a,
{
    match (a, b) {
        (JsonV::Null, JsonV::Null) => true,
        (JsonV::Bool(x), JsonV::Bool(y)) => x == y,
        (JsonV::Num(x), JsonV::Num(y)) => number_eq(x, y),
        (JsonV::Str(x), JsonV::Str(y)) => x == y,
        (JsonV::Arr(x), JsonV::Arr(y)) => x.len() == y.len() && forall|i: int|
            0 <= i < x.len() ==> json_eq(#[trigger] x[i], y[i]),
        (JsonV::Obj(x), JsonV::Obj(y)) => x.len() == y.len() && forall|i: int|
            0 <= i < x.len() ==> match member(y, (#[trigger] x[i]).0) {
                Some(v) => json_eq(x[i].1, v),
                None => false,
            },
        _ => false,
    }
}

/// The members of an object in the model.
pub open spec fn members_of(m: Seq<(String, Json)>) -> Seq<(Seq<char>, JsonV)> {
    Seq::new(m.len(), |i: int| (m[i].0@, m[i].1.value()))
}

/// The elements of an array in the model.
pub open spec fn elements_of(a: Seq<Json>) -> Seq<JsonV> {
    Seq::new(a.len(), |i: int| a[i].value())
}

pub proof fn lemma_value(j: Json)
    ensures
        j matches Json::Arr(a) ==> j.value() == JsonV::Arr(elements_of(a@)),
        j matches Json::Obj(m) ==> j.value() == JsonV::Obj(members_of(m@)),
{
    match j {
        Json::Arr(a) => {
            assert(j.value()->Arr_0 =~= elements_of(a@));
        },
        Json::Obj(m) => {
            assert(j.value()->Obj_0 =~= members_of(m@));
        },
        _ => {},
    }
}

proof fn lemma_member_skip(obj: Seq<(Seq<char>, JsonV)>, name: Seq<char>, n: int)
    requires
        0 <= n <= obj.len(),
        forall|i: int| 0 <= i < n ==> (#[trigger] obj[i]).0 != name,
    ensures
        member(obj, name) == member(obj.skip(n), name),
    decreases n,
{
    if n == 0 {
        assert(obj.skip(0) =~= obj);
    } else {
        let t = obj.drop_first();
        assert forall|i: int| 0 <= i < n - 1 implies (#[trigger] t[i]).0 != name by {
            assert(t[i] == obj[i + 1]);
        }
        assert(obj[0].0 != name);
        lemma_member_skip(t, name, n - 1);
        assert(t.skip(n - 1) =~= obj.skip(n));
    }
}

/// The value of a member whose name comes first at its place.
pub proof fn lemma_member_at(obj: Seq<(Seq<char>, JsonV)>, i: int)
    requires
        0 <= i < obj.len(),
        forall|j: int| 0 <= j < i ==> (#[trigger] obj[j]).0 != obj[i].0,
    ensures
        member(obj, obj[i].0) == Some(obj[i].1),
{
    lemma_member_skip(obj, obj[i].0, i);
    assert(obj.skip(i)[0] == obj[i]);
}

/// A member is a smaller value than its object.
pub proof fn lemma_member_smaller(m: Seq<(Seq<char>, JsonV)>, name: Seq<char>)
    ensures
        member(m, name) matches Some(v) ==> decreases_to!(m => v),
    decreases m.len(),
{
    if m.len() > 0 {
        if m[0].0 != name {
            lemma_member_smaller(m.drop_first(), name);
            assert(decreases_to!(m => m.drop_first()));
        } else {
            assert(decreases_to!(m => m[0]));
            assert(decreases_to!(m[0] => m[0].1));
        }
    }
}

/// A member that was found is a smaller value than its object.
pub proof fn lemma_found_smaller(j: Json, m: Vec<(String, Json)>, s: Json)
    requires
        j == Json::Obj(m),
        exists|i: int| 0 <= i < m@.len() && s == (#[trigger] m@[i]).1,
    ensures
        decreases_to!(j => s),
{
    let i = choose|i: int| 0 <= i < m@.len() && s == (#[trigger] m@[i]).1;
    assert(decreases_to!(j => j->Obj_0));
    assert(decreases_to!(m => m@));
    assert(decreases_to!(m@ => m@[i]));
    assert(decreases_to!(m@[i] => m@[i].1));
}

/// An element is a smaller value than its array.
pub proof fn lemma_element_smaller(j: Json, a: Vec<Json>, i: int)
    requires
        j == Json::Arr(a),
        0 <= i < a@.len(),
    ensures
        decreases_to!(j => a@[i]),
{
    assert(decreases_to!(j => j->Arr_0));
    assert(decreases_to!(a => a@));
    assert(decreases_to!(a@ => a@[i]));
}

/// The member `name` of an object.
pub fn find_member<'a>(m: &'a Vec<(String, Json)>, name: &str) -> (r: Option<&'a Json>)
    ensures
        match r {
            Some(j) => member(members_of(m@), name@) == Some(j.value()),
            None => member(members_of(m@), name@) is None,
        },
        r matches Some(j) ==> exists|i: int| 0 <= i < m@.len() && *j == (#[trigger] m@[i]).1,
{
    let mut i: usize = 0;
    while i < m.len()
        invariant
            i <= m.len(),
            forall|j: int| 0 <= j < i ==> (#[trigger] m@[j]).0@ != name@,
        decreases m.len() - i,
    {
        if text::same_text(m[i].0.as_str(), name) {
            proof {
                lemma_member_skip(members_of(m@), name@, i as int);
            }
            return Some(&m[i].1);
        }
        i += 1;
    }
    proof {
        lemma_member_skip(members_of(m@), name@, i as int);
    }
    None
}

fn same_number(a: &Number, b: &Number) -> (r: bool)
    ensures
        r == number_eq(a@, b@),
{
    match (a.uint, b.uint) {
        (Some(x), Some(y)) => x == y,
        (Some(_), None) => false,
        (None, Some(_)) => false,
        (None, None) => match (a.int, b.int) {
            (Some(x), Some(y)) => x == y,
            (Some(_), None) => false,
            (None, Some(_)) => false,
            (None, None) => double_same(a.bits, b.bits),
        },
    }
}

/// Is the first double below the second?
pub fn double_less(a: u64, b: u64) -> (r: bool)
    ensures
        r == (double_key(a) < double_key(b)),
{
    let half: u64 = 0x8000_0000_0000_0000;
    if a < half {
        if b < half {
            a < b
        } else {
            false
        }
    } else if b < half {
        a > half || b > 0
    } else {
        a > b
    }
}

/// Are the two doubles equal?
pub fn double_same(a: u64, b: u64) -> (r: bool)
    ensures
        r == (double_key(a) == double_key(b)),
{
    let half: u64 = 0x8000_0000_0000_0000;
    a == b || (a == half && b == 0) || (a == 0 && b == half)
}

/// Equality of JSON values.
pub fn same_json(a: &Json, b: &Json) -> (r: bool)
    ensures
        r == json_eq(a.value(), b.value()),
    decreases a,
{
    proof {
        lemma_value(*a);
        lemma_value(*b);
    }
    match (a, b) {
        (Json::Null, Json::Null) => true,
        (Json::Bool(x), Json::Bool(y)) => *x == *y,
        (Json::Num(x), Json::Num(y)) => same_number(x, y),
        (Json::Str(x), Json::Str(y)) => text::same_text(x.as_str(), y.as_str()),
        (Json::Arr(x), Json::Arr(y)) => {
            if x.len() != y.len() {
                return false;
            }
            let ghost ex = elements_of(x@);
            let ghost ey = elements_of(y@);
            let mut i: usize = 0;
            while i < x.len()
                invariant
                    i <= x.len(),
                    x.len() == y.len(),
                    *a == Json::Arr(*x),
                    a.value() == JsonV::Arr(ex),
                    b.value() == JsonV::Arr(ey),
                    ex == elements_of(x@),
                    ey == elements_of(y@),
                    forall|j: int| 0 <= j < i ==> json_eq(#[trigger] ex[j], ey[j]),
                decreases x.len() - i,
            {
                if !same_json(&x[i], &y[i]) {
                    assert(!json_eq(ex[i as int], ey[i as int]));
                    return false;
                }
                i += 1;
            }
            true
        },
        (Json::Obj(x), Json::Obj(y)) => {
            if x.len() != y.len() {
                return false;
            }
            let ghost ex = members_of(x@);
            let ghost ey = members_of(y@);
            let mut i: usize = 0;
            while i < x.len()
                invariant
                    i <= x.len(),
                    x.len() == y.len(),
                    *a == Json::Obj(*x),
                    a.value() == JsonV::Obj(ex),
                    b.value() == JsonV::Obj(ey),
                    ex == members_of(x@),
                    ey == members_of(y@),
                    forall|j: int|
                        0 <= j < i ==> match member(ey, (#[trigger] ex[j]).0) {
                            Some(v) => json_eq(ex[j].1, v),
                            None => false,
                        },
                decreases x.len() - i,
            {
                let ghost pair = ex[i as int];
                assert(pair.0 == x@[i as int].0@);
                match find_member(y, x[i].0.as_str()) {
                    Some(v) => {
                        if !same_json(&x[i].1, v) {
                            return false;
                        }
                    },
                    None => {
                        return false;
                    },
                }
                i += 1;
            }
            true
        },
        _ => false,
    }
}

} // verus!
