//! JSON values: lookup, shallow merge, equality, text extraction and the
//! compact notation.
//!
//! An object keeps its entries in the order of their keys.

use vstd::prelude::*;

use crate::float::{double_equal, double_level};
use crate::text::{before, cat3, decimal, joined, show_u64, str_before};

verus! {

broadcast use vstd::std_specs::vec::group_vec_axioms;

// ---- Outside values --------------------------------------------------------

#[verifier::external_type_specification]
#[verifier::external_body]
pub struct ExSerdeValue(serde_json::Value);

/// What a `serde_json::Value` holds.
pub uninterp spec fn json_of(v: serde_json::Value) -> Json;

/// What `serde_json` makes of a text: the value, or the words of its error.
pub uninterp spec fn parsed_json(text: Seq<char>) -> Result<Json, Seq<char>>;

/// A text as a JSON string, in quotes and with its escapes.
pub uninterp spec fn quoted(s: Seq<char>) -> Seq<char>;

/// The bits of the double that is nearest to an integer.
pub uninterp spec fn double_of(n: NumM) -> u64;

/// The outermost constructor of a `serde_json::Value`, the parts still outside.
pub enum Shape {
    Null,
    Bool(bool),
    Number(Num),
    Str(String),
    Array(Vec<serde_json::Value>),
    Object(Vec<(String, serde_json::Value)>),
}

/// The value that a shape stands for.
pub open spec fn shape_json(s: Shape) -> Json {
    match s {
        Shape::Null => Json::Null,
        Shape::Bool(b) => Json::Bool(b),
        Shape::Number(n) => Json::Number(n.deep_view()),
        Shape::Str(t) => Json::Str(t@),
        Shape::Array(a) => Json::Array(Seq::new(a@.len(), |i: int| json_of(a@[i]))),
        Shape::Object(o) => Json::Object(
            Seq::new(o@.len(), |i: int| (o@[i].0@, json_of(o@[i].1))),
        ),
    }
}

/// Takes the outermost constructor of a `serde_json::Value` off: a
/// `serde_json::Map` hands its entries out in the order of their keys, and a
/// `serde_json::Number` is an unsigned integer, else a signed one, else a
/// double.
#[verifier::external_body]
pub(crate) fn open_value(v: serde_json::Value) -> (r: Shape)
    ensures
        shape_json(r) == json_of(v),
{
    match v {
        serde_json::Value::Null => Shape::Null,
        serde_json::Value::Bool(b) => Shape::Bool(b),
        serde_json::Value::Number(n) => Shape::Number(match (n.as_u64(), n.as_i64()) {
            (Some(u), _) => Num::Pos(u),
            (None, Some(i)) => Num::Neg(i),
            (None, None) => Num::Float {
                bits: n.as_f64().unwrap_or_default().to_bits(),
                text: n.to_string(),
            },
        }),
        serde_json::Value::String(s) => Shape::Str(s),
        serde_json::Value::Array(a) => Shape::Array(a),
        serde_json::Value::Object(o) => Shape::Object(o.into_iter().collect()),
    }
}

/// `serde_json::from_str` into a `serde_json::Value`; the result is named
/// `parsed_json`.
#[verifier::external_body]
pub(crate) fn parse_outside(text: &str) -> (r: Result<serde_json::Value, String>)
    ensures
        match r {
            Ok(v) => parsed_json(text@) == Ok::<Json, Seq<char>>(json_of(v)),
            Err(e) => parsed_json(text@) == Err::<Json, Seq<char>>(e@),
        },
{
    serde_json::from_str::<serde_json::Value>(text).map_err(|e| e.to_string())
}

/// `serde_json::Value::from(..).to_string()` on a text: its JSON string
/// notation, named `quoted`.
#[verifier::external_body]
pub(crate) fn quote(s: &str) -> (r: String)
    ensures
        r@ == quoted(s@),
{
    serde_json::Value::from(s).to_string()
}

/// `serde_json::Number::as_f64` on an integer, by the bits of the double; the
/// result is named `double_of`.
#[verifier::external_body]
fn whole_bits(n: &Num) -> (r: u64)
    requires
        n.deep_view() !is Float,
    ensures
        r == double_of(n.deep_view()),
{
    let number = match n {
        Num::Pos(u) => serde_json::Number::from(*u),
        Num::Neg(i) => serde_json::Number::from(*i),
        Num::Float { .. } => serde_json::Number::from(0u8),
    };
    number.as_f64().unwrap_or_default().to_bits()
}

// ---- The library's own values ----------------------------------------------

/// A JSON number: an unsigned integer, a negative one, or a double by its bits
/// and its notation.
#[derive(Debug, PartialEq)]
pub enum Num {
    Pos(u64),
    Neg(i64),
    Float { bits: u64, text: String },
}

/// What a `Num` holds.
#[verifier::ext_equal]
pub enum NumM {
    Pos(u64),
    Neg(i64),
    Float { bits: u64, text: Seq<char> },
}

impl DeepView for Num {
    type V = NumM;

    open spec fn deep_view(&self) -> NumM {
        match self {
            Num::Pos(x) => NumM::Pos(*x),
            Num::Neg(x) => NumM::Neg(*x),
            Num::Float { bits, text } => NumM::Float { bits: *bits, text: text.deep_view() },
        }
    }
}

impl Clone for Num {
    fn clone(&self) -> (r: Self)
        ensures
            r.deep_view() == self.deep_view(),
    {
        match self {
            Num::Pos(x) => Num::Pos(*x),
            Num::Neg(x) => Num::Neg(*x),
            Num::Float { bits, text } => Num::Float { bits: *bits, text: text.clone() },
        }
    }
}

/// The bits of a number as a double.
pub open spec fn num_double(n: NumM) -> u64 {
    match n {
        NumM::Float { bits, .. } => bits,
        _ => double_of(n),
    }
}

/// The bits of a number as a double.
pub fn number_bits(n: &Num) -> (r: u64)
    ensures
        r == num_double(n.deep_view()),
{
    match n {
        Num::Float { bits, .. } => *bits,
        _ => whole_bits(n),
    }
}

#[derive(Debug, PartialEq)]
pub enum JsonValue {
    Null,
    Bool(bool),
    Number(Num),
    Str(String),
    Array(Vec<JsonValue>),
    Object(Vec<(String, JsonValue)>),
}

/// What a `JsonValue` holds.
#[verifier::ext_equal]
pub enum Json {
    Null,
    Bool(bool),
    Number(NumM),
    Str(Seq<char>),
    Array(Seq<Json>),
    Object(Seq<(Seq<char>, Json)>),
}

impl JsonValue {
    pub open spec fn model(self) -> Json
        decreases self,
    {
        match self {
            JsonValue::Null => Json::Null,
            JsonValue::Bool(b) => Json::Bool(b),
            JsonValue::Number(n) => Json::Number(n.deep_view()),
            JsonValue::Str(s) => Json::Str(s@),
            JsonValue::Array(a) => Json::Array(
                Seq::new(
                    a@.len(),
                    |i: int|
                        if 0 <= i < a@.len() {
                            a@[i].model()
                        } else {
                            Json::Null
                        },
                ),
            ),
            JsonValue::Object(o) => Json::Object(
                Seq::new(
                    o@.len(),
                    |i: int|
                        if 0 <= i < o@.len() {
                            (o@[i].0@, o@[i].1.model())
                        } else {
                            (seq![], Json::Null)
                        },
                ),
            ),
        }
    }
}

impl DeepView for JsonValue {
    type V = Json;

    open spec fn deep_view(&self) -> Json {
        self.model()
    }
}

impl Clone for JsonValue {
    fn clone(&self) -> (r: Self)
        ensures
            r.deep_view() == self.deep_view(),
        decreases self,
    {
        match self {
            JsonValue::Null => JsonValue::Null,
            JsonValue::Bool(b) => JsonValue::Bool(*b),
            JsonValue::Number(n) => JsonValue::Number(n.clone()),
            JsonValue::Str(s) => JsonValue::Str(s.clone()),
            JsonValue::Array(a) => {
                let mut out: Vec<JsonValue> = Vec::new();
                let mut i: usize = 0;
                while i < a.len()
                    invariant
                        i <= a.len(),
                        *self matches JsonValue::Array(b) && b == *a,
                        out@.len() == i,
                        forall|k: int| 0 <= k < i ==> (#[trigger] out@[k]).model() == a@[k].model(),
                    decreases a.len() - i,
                {
                    out.push(a[i].clone());
                    i = i + 1;
                }
                let r = JsonValue::Array(out);
                assert(r.model()->Array_0 =~= self.model()->Array_0);
                r
            },
            JsonValue::Object(o) => {
                let mut out: Vec<(String, JsonValue)> = Vec::new();
                let mut i: usize = 0;
                while i < o.len()
                    invariant
                        i <= o.len(),
                        *self matches JsonValue::Object(b) && b == *o,
                        out@.len() == i,
                        forall|k: int| #![trigger out@[k]]
                            0 <= k < i ==> out@[k].0@ == o@[k].0@ && out@[k].1.model()
                                == o@[k].1.model(),
                    decreases o.len() - i,
                {
                    out.push((o[i].0.clone(), o[i].1.clone()));
                    i = i + 1;
                }
                let r = JsonValue::Object(out);
                assert(r.model()->Object_0 =~= self.model()->Object_0);
                r
            },
        }
    }
}

/// The vector's model is what its elements hold.
pub proof fn lemma_array_model(a: Vec<JsonValue>)
    ensures
        JsonValue::Array(a).model() == Json::Array(a.deep_view()),
{
    assert(JsonValue::Array(a).model()->Array_0 =~= a.deep_view());
}

pub proof fn lemma_object_model(o: Vec<(String, JsonValue)>)
    ensures
        JsonValue::Object(o).model() == Json::Object(o.deep_view()),
{
    assert(JsonValue::Object(o).model()->Object_0 =~= o.deep_view());
}

// ---- Objects ---------------------------------------------------------------

/// Where the first entry with the key stands.
pub open spec fn entry_at(o: Seq<(Seq<char>, Json)>, key: Seq<char>) -> Option<int>
    decreases o.len(),
{
    if o.len() == 0 {
        None
    } else {
        match entry_at(o.drop_last(), key) {
            Some(i) => Some(i),
            None => if o.last().0 == key {
                Some(o.len() - 1)
            } else {
                None
            },
        }
    }
}

/// Where a new entry with the key belongs.
pub open spec fn entry_slot(o: Seq<(Seq<char>, Json)>, key: Seq<char>) -> int
    decreases o.len(),
{
    if o.len() == 0 || !before(key, o.last().0) {
        o.len() as int
    } else {
        entry_slot(o.drop_last(), key)
    }
}

/// The object with the key bound to the value.
pub open spec fn entry_put(o: Seq<(Seq<char>, Json)>, key: Seq<char>, v: Json) -> Seq<
    (Seq<char>, Json),
> {
    match entry_at(o, key) {
        Some(i) => o.update(i, (key, v)),
        None => o.insert(entry_slot(o, key), (key, v)),
    }
}

/// The object with all the entries put into it, one after the other.
pub open spec fn entries_put(
    o: Seq<(Seq<char>, Json)>,
    es: Seq<(Seq<char>, Json)>,
) -> Seq<(Seq<char>, Json)>
    decreases es.len(),
{
    if es.len() == 0 {
        o
    } else {
        entry_put(entries_put(o, es.drop_last()), es.last().0, es.last().1)
    }
}

/// The keys stand in strictly ascending order.
pub open spec fn keys_ascend(o: Seq<(Seq<char>, Json)>) -> bool {
    forall|i: int, j: int| 0 <= i < j < o.len() ==> before(#[trigger] o[i].0, #[trigger] o[j].0)
}

pub proof fn lemma_entry_at(o: Seq<(Seq<char>, Json)>, key: Seq<char>)
    ensures
        match entry_at(o, key) {
            Some(i) => 0 <= i < o.len() && o[i].0 == key && forall|j: int|
                0 <= j < i ==> (#[trigger] o[j]).0 != key,
            None => forall|j: int| 0 <= j < o.len() ==> (#[trigger] o[j]).0 != key,
        },
    decreases o.len(),
{
    if o.len() > 0 {
        let d = o.drop_last();
        lemma_entry_at(d, key);
        assert forall|j: int| 0 <= j < d.len() implies #[trigger] o[j] == d[j] by {}
    }
}

proof fn lemma_entry_slot(o: Seq<(Seq<char>, Json)>, key: Seq<char>)
    ensures
        0 <= entry_slot(o, key) <= o.len(),
        entry_slot(o, key) > 0 ==> !before(key, o[entry_slot(o, key) - 1].0),
        forall|j: int| entry_slot(o, key) <= j < o.len() ==> before(key, (#[trigger] o[j]).0),
    decreases o.len(),
{
    if o.len() > 0 && before(key, o.last().0) {
        let d = o.drop_last();
        lemma_entry_slot(d, key);
        assert forall|j: int| 0 <= j < d.len() implies #[trigger] o[j] == d[j] by {}
    }
}

/// The value that a key of an object is bound to.
pub open spec fn member(j: Json, key: Seq<char>) -> Option<Json> {
    match j {
        Json::Object(o) => match entry_at(o, key) {
            Some(i) => Some(o[i].1),
            None => None,
        },
        _ => None,
    }
}

/// A member stands below its object.
pub proof fn lemma_member_below(j: Json, key: Seq<char>)
    ensures
        member(j, key) matches Some(v) ==> decreases_to!(j => v),
        member(j, key) matches Some(Json::Array(a)) ==> decreases_to!(j => a),
{
    match j {
        Json::Object(o) => {
            lemma_entry_at(o, key);
            match entry_at(o, key) {
                Some(i) => {
                    assert(decreases_to!(j => j->Object_0));
                    assert(decreases_to!(o => o[i]));
                    assert(decreases_to!(o[i] => o[i].1));
                    match o[i].1 {
                        Json::Array(a) => {
                            assert(decreases_to!(o[i].1 => o[i].1->Array_0));
                        },
                        _ => {},
                    }
                },
                None => {},
            }
        },
        _ => {},
    }
}

/// The text of a string value.
pub open spec fn text_of(j: Option<Json>) -> Option<Seq<char>> {
    match j {
        Some(Json::Str(s)) => Some(s),
        _ => None,
    }
}

/// Putting an entry keeps the keys in order.
pub proof fn law_put_keeps_order(o: Seq<(Seq<char>, Json)>, key: Seq<char>, v: Json)
    requires
        keys_ascend(o),
    ensures
        keys_ascend(entry_put(o, key, v)),
{
    let p = entry_put(o, key, v);
    lemma_entry_at(o, key);
    lemma_entry_slot(o, key);
    let s = entry_slot(o, key);
    assert forall|i: int, j: int| 0 <= i < j < p.len() implies before(
        #[trigger] p[i].0,
        #[trigger] p[j].0,
    ) by {
        match entry_at(o, key) {
            Some(k) => {},
            None => {
                if j == s {
                    // Everything in front of the slot stands before the key.
                    crate::text::lemma_before_total(key, o[s - 1].0);
                    assert(before(o[s - 1].0, key));
                    if i < s - 1 {
                        crate::text::lemma_before_transitive(o[i].0, o[s - 1].0, key);
                    }
                } else if i == s {
                    assert(p[j] == o[j - 1]);
                }
            },
        }
    }
}

/// What was put under a key is read back, and every other key keeps what it
/// had.
pub proof fn law_put_get(o: Seq<(Seq<char>, Json)>, key: Seq<char>, v: Json, other: Seq<char>)
    requires
        keys_ascend(o),
    ensures
        member(Json::Object(entry_put(o, key, v)), key) == Some(v),
        other != key ==> member(Json::Object(entry_put(o, key, v)), other) == member(
            Json::Object(o),
            other,
        ),
{
    let p = entry_put(o, key, v);
    law_put_keeps_order(o, key, v);
    lemma_entry_at(o, key);
    lemma_entry_slot(o, key);
    let s = entry_slot(o, key);
    let at = match entry_at(o, key) {
        Some(i) => i,
        None => s,
    };
    assert(p[at] == (key, v));
    lemma_unique_key(p, key, at);
    if other != key {
        lemma_entry_at(o, other);
        lemma_entry_at(p, other);
        match entry_at(o, other) {
            Some(i) => {
                let q = if entry_at(o, key) is Some || i < s {
                    i
                } else {
                    i + 1
                };
                assert(p[q] == o[i]);
                lemma_unique_key(p, other, q);
            },
            None => {
                if entry_at(p, other) is Some {
                    let q = entry_at(p, other)->0;
                    let i = if entry_at(o, key) is Some || q < s {
                        q
                    } else {
                        q - 1
                    };
                    assert(p[q] == o[i]);
                }
            },
        }
    }
}

proof fn lemma_unique_key(o: Seq<(Seq<char>, Json)>, key: Seq<char>, at: int)
    requires
        keys_ascend(o),
        0 <= at < o.len(),
        o[at].0 == key,
    ensures
        entry_at(o, key) == Some(at),
{
    lemma_entry_at(o, key);
    let i = entry_at(o, key)->0;
    if i < at {
        assert(before(o[i].0, o[at].0));
        crate::text::lemma_before_irreflexive(key);
    }
}

/// Binds `key` to `v` among the entries of an object.
pub fn put_entry(o: &mut Vec<(String, JsonValue)>, key: &str, v: JsonValue)
    ensures
        final(o).deep_view() == entry_put(old(o).deep_view(), key@, v.deep_view()),
{
    let ghost before_put = o.deep_view();
    match find_entry(o, key) {
        Some(i) => {
            o.set(i, (key.to_owned(), v));
            assert(o.deep_view() =~= before_put.update(i as int, (key@, v.deep_view())));
        },
        None => {
            let mut n: usize = o.len();
            assert(before_put.take(n as int) =~= before_put);
            while n > 0 && str_before(key, o[n - 1].0.as_str())
                invariant
                    n <= o.len(),
                    o.deep_view() == before_put,
                    entry_slot(before_put, key@) == entry_slot(before_put.take(n as int), key@),
                decreases n,
            {
                assert(before_put.take(n as int).drop_last() =~= before_put.take(n - 1));
                assert(before_put[n - 1].0 == o@[n - 1].0@);
                n = n - 1;
            }
            proof {
                if n > 0 {
                    assert(before_put.take(n as int).last().0 == o@[n - 1].0@);
                }
            }
            o.insert(n, (key.to_owned(), v));
            assert(o.deep_view() =~= before_put.insert(n as int, (key@, v.deep_view())));
        },
    }
}

/// Where the first entry with the key stands.
fn find_entry(o: &Vec<(String, JsonValue)>, key: &str) -> (r: Option<usize>)
    ensures
        match r {
            Some(i) => entry_at(o.deep_view(), key@) == Some(i as int) && i < o.len(),
            None => entry_at(o.deep_view(), key@) is None,
        },
{
    let ghost all = o.deep_view();
    let mut i: usize = 0;
    while i < o.len()
        invariant
            i <= o.len(),
            all == o.deep_view(),
            forall|j: int| 0 <= j < i ==> (#[trigger] all[j]).0 != key@,
        decreases o.len() - i,
    {
        assert(all[i as int].0 == o@[i as int].0@);
        if crate::text::same(o[i].0.as_str(), key) {
            proof {
                lemma_entry_at(all, key@);
            }
            return Some(i);
        }
        i = i + 1;
    }
    proof {
        lemma_entry_at(all, key@);
    }
    None
}

/// The shallow merge: the members of an object patch replace those of an
/// object, any other patch replaces the whole.
pub open spec fn merged(target: Json, patch: Json) -> Json {
    match (target, patch) {
        (Json::Object(t), Json::Object(p)) => Json::Object(entries_put(t, p)),
        (_, p) => p,
    }
}

// ---- Equality --------------------------------------------------------------

/// Equality of numbers: integers by value, doubles by value, and never an
/// integer with a double.
pub open spec fn num_same(a: NumM, b: NumM) -> bool {
    match (a, b) {
        (NumM::Pos(x), NumM::Pos(y)) => x == y,
        (NumM::Neg(x), NumM::Neg(y)) => x == y,
        (NumM::Float { bits: x, .. }, NumM::Float { bits: y, .. }) => double_level(x, y),
        _ => false,
    }
}

/// Equality of values.
pub open spec fn json_same(a: Json, b: Json) -> bool
    decreases a,
{
    match (a, b) {
        (Json::Null, Json::Null) => true,
        (Json::Bool(x), Json::Bool(y)) => x == y,
        (Json::Number(x), Json::Number(y)) => num_same(x, y),
        (Json::Str(x), Json::Str(y)) => x == y,
        (Json::Array(x), Json::Array(y)) => x.len() == y.len() && forall|i: int|
            0 <= i < x.len() ==> json_same(#[trigger] x[i], y[i]),
        (Json::Object(x), Json::Object(y)) => x.len() == y.len() && forall|i: int|
            0 <= i < x.len() ==> (#[trigger] x[i]).0 == y[i].0 && json_same(x[i].1, y[i].1),
        _ => false,
    }
}

fn same_num(a: &Num, b: &Num) -> (r: bool)
    ensures
        r == num_same(a.deep_view(), b.deep_view()),
{
    match (a, b) {
        (Num::Pos(x), Num::Pos(y)) => *x == *y,
        (Num::Neg(x), Num::Neg(y)) => *x == *y,
        (Num::Float { bits: x, .. }, Num::Float { bits: y, .. }) => double_equal(*x, *y),
        _ => false,
    }
}

// ---- Texts -----------------------------------------------------------------

/// The texts of all strings in a value, depth first, a blank between
/// neighbours; values without text count as empty ones.
pub open spec fn all_text(j: Json) -> Seq<char>
    decreases j,
{
    match j {
        Json::Str(s) => s,
        Json::Array(a) => joined(item_texts(a), " "@),
        Json::Object(o) => joined(entry_texts(o), " "@),
        _ => seq![],
    }
}

pub open spec fn item_texts(a: Seq<Json>) -> Seq<Seq<char>>
    decreases a,
{
    if a.len() == 0 {
        seq![]
    } else {
        item_texts(a.drop_last()).push(all_text(a[a.len() - 1]))
    }
}

pub open spec fn entry_texts(o: Seq<(Seq<char>, Json)>) -> Seq<Seq<char>>
    decreases o,
{
    if o.len() == 0 {
        seq![]
    } else {
        entry_texts(o.drop_last()).push(all_text(o[o.len() - 1].1))
    }
}

/// The notation of a number.
pub open spec fn num_text(n: NumM) -> Seq<char> {
    match n {
        NumM::Pos(x) => decimal(x as nat),
        NumM::Neg(x) => if x < 0 {
            seq!['-'] + decimal((-x) as nat)
        } else {
            decimal(x as nat)
        },
        NumM::Float { text, .. } => text,
    }
}

/// The compact notation of a value.
pub open spec fn compact(j: Json) -> Seq<char>
    decreases j,
{
    match j {
        Json::Null => "null"@,
        Json::Bool(b) => if b {
            "true"@
        } else {
            "false"@
        },
        Json::Number(n) => num_text(n),
        Json::Str(s) => quoted(s),
        Json::Array(a) => "["@ + joined(compact_items(a), ","@) + "]"@,
        Json::Object(o) => "{"@ + joined(compact_entries(o), ","@) + "}"@,
    }
}

pub open spec fn compact_items(a: Seq<Json>) -> Seq<Seq<char>>
    decreases a,
{
    if a.len() == 0 {
        seq![]
    } else {
        compact_items(a.drop_last()).push(compact(a[a.len() - 1]))
    }
}

pub open spec fn compact_entries(o: Seq<(Seq<char>, Json)>) -> Seq<Seq<char>>
    decreases o,
{
    if o.len() == 0 {
        seq![]
    } else {
        compact_entries(o.drop_last()).push(
            quoted(o[o.len() - 1].0) + ":"@ + compact(o[o.len() - 1].1),
        )
    }
}

fn show_num(n: &Num) -> (r: String)
    ensures
        r@ == num_text(n.deep_view()),
{
    match n {
        Num::Pos(x) => show_u64(*x),
        Num::Neg(x) => {
            let x = *x;
            if x < 0 {
                let mut r = String::new();
                r.push('-');
                let size: u64 = if x == i64::MIN {
                    0x8000_0000_0000_0000
                } else {
                    (-x) as u64
                };
                let digits = show_u64(size);
                r.push_str(digits.as_str());
                assert(r@ =~= num_text(n.deep_view()));
                r
            } else {
                show_u64(x as u64)
            }
        },
        Num::Float { text, .. } => text.clone(),
    }
}

impl JsonValue {
    /// A string value.
    pub fn text(s: &str) -> (r: JsonValue)
        ensures
            r.deep_view() == Json::Str(s@),
    {
        JsonValue::Str(s.to_owned())
    }

    /// An object with the given entries, a later one replacing an earlier one
    /// with the same key.
    pub fn object(entries: Vec<(String, JsonValue)>) -> (r: JsonValue)
        ensures
            r.deep_view() == Json::Object(entries_put(seq![], entries.deep_view())),
    {
        let mut o: Vec<(String, JsonValue)> = Vec::new();
        let ghost all = entries.deep_view();
        let mut i: usize = 0;
        assert(o.deep_view() =~= entries_put(seq![], all.take(0)));
        while i < entries.len()
            invariant
                i <= entries.len(),
                all == entries.deep_view(),
                o.deep_view() == entries_put(seq![], all.take(i as int)),
            decreases entries.len() - i,
        {
            put_entry(&mut o, entries[i].0.as_str(), entries[i].1.clone());
            assert(all.take(i + 1).drop_last() =~= all.take(i as int));
            i = i + 1;
        }
        assert(all.take(i as int) =~= all);
        proof {
            lemma_object_model(o);
        }
        JsonValue::Object(o)
    }

    /// The member of an object with the given key.
    pub fn get(&self, key: &str) -> (r: Option<&JsonValue>)
        ensures
            match r {
                Some(v) => member(self.deep_view(), key@) == Some(v.deep_view()),
                None => member(self.deep_view(), key@) is None,
            },
    {
        match self {
            JsonValue::Object(o) => {
                proof {
                    lemma_object_model(*o);
                }
                match find_entry(o, key) {
                    Some(i) => Some(&o[i].1),
                    None => None,
                }
            },
            _ => None,
        }
    }

    pub fn as_str(&self) -> (r: Option<&str>)
        ensures
            match r {
                Some(s) => text_of(Some(self.deep_view())) == Some(s@),
                None => text_of(Some(self.deep_view())) is None,
            },
    {
        match self {
            JsonValue::Str(s) => Some(s.as_str()),
            _ => None,
        }
    }

    /// The text of the member with the given key, where it is a string.
    pub fn get_str(&self, key: &str) -> (r: Option<&str>)
        ensures
            match r {
                Some(s) => text_of(member(self.deep_view(), key@)) == Some(s@),
                None => text_of(member(self.deep_view(), key@)) is None,
            },
    {
        match self.get(key) {
            Some(v) => v.as_str(),
            None => None,
        }
    }

    pub fn as_array(&self) -> (r: Option<&Vec<JsonValue>>)
        ensures
            match r {
                Some(a) => self.deep_view() == Json::Array(a.deep_view()) && *self == JsonValue::Array(*a),
                None => !(self.deep_view() is Array),
            },
    {
        match self {
            JsonValue::Array(a) => {
                proof {
                    lemma_array_model(*a);
                }
                Some(a)
            },
            _ => None,
        }
    }

    pub fn as_bool(&self) -> (r: Option<bool>)
        ensures
            r == (match self.deep_view() {
                Json::Bool(b) => Some(b),
                _ => None,
            }),
    {
        match self {
            JsonValue::Bool(b) => Some(*b),
            _ => None,
        }
    }

    pub fn as_u64(&self) -> (r: Option<u64>)
        ensures
            r == as_unsigned(self.deep_view()),
    {
        match self {
            JsonValue::Number(Num::Pos(n)) => Some(*n),
            _ => None,
        }
    }

    /// Merges the members of an object patch into an object; any other patch
    /// replaces the value.
    pub fn merge(&mut self, patch: &JsonValue)
        ensures
            final(self).deep_view() == merged(old(self).deep_view(), patch.deep_view()),
    {
        match patch {
            JsonValue::Object(p) => {
                if let JsonValue::Object(_) = self {
                    let mut taken = JsonValue::Null;
                    std::mem::swap(self, &mut taken);
                    if let JsonValue::Object(t) = taken {
                        let mut o = t;
                        proof {
                            lemma_object_model(t);
                            lemma_object_model(*p);
                        }
                        let ghost start = o.deep_view();
                        let ghost all = p.deep_view();
                        let mut i: usize = 0;
                        assert(o.deep_view() =~= entries_put(start, all.take(0)));
                        while i < p.len()
                            invariant
                                i <= p.len(),
                                all == p.deep_view(),
                                o.deep_view() == entries_put(start, all.take(i as int)),
                            decreases p.len() - i,
                        {
                            put_entry(&mut o, p[i].0.as_str(), p[i].1.clone());
                            assert(all.take(i + 1).drop_last() =~= all.take(i as int));
                            i = i + 1;
                        }
                        assert(all.take(i as int) =~= all);
                        proof {
                            lemma_object_model(o);
                        }
                        *self = JsonValue::Object(o);
                    }
                } else {
                    *self = patch.clone();
                }
            },
            _ => {
                *self = patch.clone();
            },
        }
    }

    /// Whether two values are equal.
    pub fn same(&self, other: &JsonValue) -> (r: bool)
        ensures
            r == json_same(self.deep_view(), other.deep_view()),
        decreases self,
    {
        match (self, other) {
            (JsonValue::Null, JsonValue::Null) => true,
            (JsonValue::Bool(x), JsonValue::Bool(y)) => *x == *y,
            (JsonValue::Number(x), JsonValue::Number(y)) => same_num(x, y),
            (JsonValue::Str(x), JsonValue::Str(y)) => *x == *y,
            (JsonValue::Array(x), JsonValue::Array(y)) => {
                if x.len() != y.len() {
                    return false;
                }
                let ghost mx = self.model()->Array_0;
                let ghost my = other.model()->Array_0;
                let mut i: usize = 0;
                while i < x.len()
                    invariant
                        i <= x.len(),
                        x.len() == y.len(),
                        *self matches JsonValue::Array(b) && b == *x,
                        *other matches JsonValue::Array(b) && b == *y,
                        mx == self.model()->Array_0,
                        my == other.model()->Array_0,
                        forall|k: int| 0 <= k < i ==> json_same(#[trigger] mx[k], my[k]),
                    decreases x.len() - i,
                {
                    let eq = x[i].same(&y[i]);
                    assert(mx[i as int] == x@[i as int].model());
                    assert(my[i as int] == y@[i as int].model());
                    if !eq {
                        return false;
                    }
                    i = i + 1;
                }
                true
            },
            (JsonValue::Object(x), JsonValue::Object(y)) => {
                if x.len() != y.len() {
                    return false;
                }
                let ghost mx = self.model()->Object_0;
                let ghost my = other.model()->Object_0;
                let mut i: usize = 0;
                while i < x.len()
                    invariant
                        i <= x.len(),
                        x.len() == y.len(),
                        *self matches JsonValue::Object(b) && b == *x,
                        *other matches JsonValue::Object(b) && b == *y,
                        mx == self.model()->Object_0,
                        my == other.model()->Object_0,
                        forall|k: int|
                            0 <= k < i ==> (#[trigger] mx[k]).0 == my[k].0 && json_same(
                                mx[k].1,
                                my[k].1,
                            ),
                    decreases x.len() - i,
                {
                    assert(mx[i as int] == (x@[i as int].0@, x@[i as int].1.model()));
                    assert(my[i as int] == (y@[i as int].0@, y@[i as int].1.model()));
                    if x[i].0 != y[i].0 {
                        return false;
                    }
                    let eq = x[i].1.same(&y[i].1);
                    if !eq {
                        return false;
                    }
                    i = i + 1;
                }
                true
            },
            _ => false,
        }
    }

    /// The texts of all strings in the value.
    pub fn extract_text(&self) -> (r: String)
        ensures
            r@ == all_text(self.deep_view()),
        decreases self,
    {
        match self {
            JsonValue::Str(s) => s.clone(),
            JsonValue::Array(a) => {
                let mut parts: Vec<String> = Vec::new();
                let ghost all = a.deep_view();
                let mut i: usize = 0;
                assert(parts.deep_view() =~= item_texts(all.take(0)));
                while i < a.len()
                    invariant
                        i <= a.len(),
                        *self matches JsonValue::Array(b) && b == *a,
                        all == a.deep_view(),
                        parts.deep_view() == item_texts(all.take(i as int)),
                    decreases a.len() - i,
                {
                    let ghost done = parts.deep_view();
                    parts.push(a[i].extract_text());
                    assert(all.take(i + 1).drop_last() =~= all.take(i as int));
                    assert(parts.deep_view() =~= done.push(parts@.last()@));
                    assert(parts.deep_view() =~= item_texts(all.take(i + 1)));
                    i = i + 1;
                }
                assert(all.take(i as int) =~= all);
                proof {
                    lemma_array_model(*a);
                }
                crate::text::join(&parts, " ")
            },
            JsonValue::Object(o) => {
                let mut parts: Vec<String> = Vec::new();
                let ghost all = o.deep_view();
                let mut i: usize = 0;
                assert(parts.deep_view() =~= entry_texts(all.take(0)));
                while i < o.len()
                    invariant
                        i <= o.len(),
                        *self matches JsonValue::Object(b) && b == *o,
                        all == o.deep_view(),
                        parts.deep_view() == entry_texts(all.take(i as int)),
                    decreases o.len() - i,
                {
                    let ghost done = parts.deep_view();
                    parts.push(o[i].1.extract_text());
                    assert(all.take(i + 1).drop_last() =~= all.take(i as int));
                    assert(parts.deep_view() =~= done.push(parts@.last()@));
                    assert(parts.deep_view() =~= entry_texts(all.take(i + 1)));
                    i = i + 1;
                }
                assert(all.take(i as int) =~= all);
                proof {
                    lemma_object_model(*o);
                }
                crate::text::join(&parts, " ")
            },
            _ => String::new(),
        }
    }

    /// The compact notation.
    pub fn to_text(&self) -> (r: String)
        ensures
            r@ == compact(self.deep_view()),
        decreases self,
    {
        match self {
            JsonValue::Null => "null".to_owned(),
            JsonValue::Bool(b) => {
                if *b {
                    "true".to_owned()
                } else {
                    "false".to_owned()
                }
            },
            JsonValue::Number(n) => show_num(n),
            JsonValue::Str(s) => quote(s.as_str()),
            JsonValue::Array(a) => {
                let mut parts: Vec<String> = Vec::new();
                let ghost all = a.deep_view();
                let mut i: usize = 0;
                assert(parts.deep_view() =~= compact_items(all.take(0)));
                while i < a.len()
                    invariant
                        i <= a.len(),
                        *self matches JsonValue::Array(b) && b == *a,
                        all == a.deep_view(),
                        parts.deep_view() == compact_items(all.take(i as int)),
                    decreases a.len() - i,
                {
                    let ghost done = parts.deep_view();
                    parts.push(a[i].to_text());
                    assert(all.take(i + 1).drop_last() =~= all.take(i as int));
                    assert(parts.deep_view() =~= done.push(parts@.last()@));
                    assert(parts.deep_view() =~= compact_items(all.take(i + 1)));
                    i = i + 1;
                }
                assert(all.take(i as int) =~= all);
                proof {
                    lemma_array_model(*a);
                }
                let inner = crate::text::join(&parts, ",");
                cat3("[", inner.as_str(), "]")
            },
            JsonValue::Object(o) => {
                let mut parts: Vec<String> = Vec::new();
                let ghost all = o.deep_view();
                let mut i: usize = 0;
                assert(parts.deep_view() =~= compact_entries(all.take(0)));
                while i < o.len()
                    invariant
                        i <= o.len(),
                        *self matches JsonValue::Object(b) && b == *o,
                        all == o.deep_view(),
                        parts.deep_view() == compact_entries(all.take(i as int)),
                    decreases o.len() - i,
                {
                    let ghost done = parts.deep_view();
                    let key = quote(o[i].0.as_str());
                    let val = o[i].1.to_text();
                    parts.push(cat3(key.as_str(), ":", val.as_str()));
                    assert(all.take(i + 1).drop_last() =~= all.take(i as int));
                    assert(parts.deep_view() =~= done.push(parts@.last()@));
                    assert(parts.deep_view() =~= compact_entries(all.take(i + 1)));
                    i = i + 1;
                }
                assert(all.take(i as int) =~= all);
                proof {
                    lemma_object_model(*o);
                }
                let inner = crate::text::join(&parts, ",");
                cat3("{", inner.as_str(), "}")
            },
        }
    }
}

/// The value of an unsigned integer.
pub open spec fn as_unsigned(j: Json) -> Option<u64> {
    match j {
        Json::Number(NumM::Pos(n)) => Some(n),
        _ => None,
    }
}

/// The texts of the strings among the values, in order.
pub open spec fn strings_of(a: Seq<Json>) -> Seq<Seq<char>>
    decreases a.len(),
{
    if a.len() == 0 {
        seq![]
    } else {
        match text_of(Some(a.last())) {
            Some(s) => strings_of(a.drop_last()).push(s),
            None => strings_of(a.drop_last()),
        }
    }
}

/// The texts of the strings among the values, in order.
pub fn string_items(a: &Vec<JsonValue>) -> (r: Vec<String>)
    ensures
        r.deep_view() == strings_of(a.deep_view()),
{
    let ghost all = a.deep_view();
    let mut r: Vec<String> = Vec::new();
    let mut i: usize = 0;
    assert(r.deep_view() =~= strings_of(all.take(0)));
    while i < a.len()
        invariant
            i <= a.len(),
            all == a.deep_view(),
            r.deep_view() == strings_of(all.take(i as int)),
        decreases a.len() - i,
    {
        assert(all.take(i + 1).drop_last() =~= all.take(i as int));
        assert(all.take(i + 1).last() == a@[i as int].deep_view());
        let ghost done = r.deep_view();
        if let Some(s) = a[i].as_str() {
            r.push(s.to_owned());
            assert(r.deep_view() =~= done.push(s@));
        }
        i = i + 1;
    }
    assert(all.take(i as int) =~= all);
    r
}

// ---- Reading ---------------------------------------------------------------

/// The library's value for an outside one.
pub fn from_outside(v: serde_json::Value) -> (r: JsonValue)
    ensures
        r.deep_view() == json_of(v),
    decreases json_of(v),
{
    match open_value(v) {
        Shape::Null => JsonValue::Null,
        Shape::Bool(b) => JsonValue::Bool(b),
        Shape::Number(n) => JsonValue::Number(n),
        Shape::Str(s) => JsonValue::Str(s),
        Shape::Array(a) => {
            let ghost items = a@;
            let ghost js = json_of(v)->Array_0;
            let mut rest = a;
            let mut out: Vec<JsonValue> = Vec::new();
            while rest.len() > 0
                invariant
                    json_of(v) == Json::Array(js),
                    js.len() == items.len(),
                    forall|k: int| 0 <= k < items.len() ==> js[k] == json_of(#[trigger] items[k]),
                    rest@.len() + out@.len() == items.len(),
                    rest@ == items.skip(out@.len() as int),
                    forall|k: int| 0 <= k < out@.len() ==> (#[trigger] out@[k]).model() == js[k],
                decreases rest.len(),
            {
                let ghost n = out@.len() as int;
                let head = rest.remove(0);
                assert(head == items[n]);
                assert(js[n] == json_of(head));
                assert(decreases_to!(json_of(v) => json_of(v)->Array_0));
                assert(decreases_to!(json_of(v)->Array_0 => json_of(v)->Array_0[n]));
                out.push(from_outside(head));
                assert(rest@ =~= items.skip(n + 1));
            }
            let r = JsonValue::Array(out);
            assert(r.model()->Array_0 =~= js);
            r
        },
        Shape::Object(o) => {
            let ghost items = o@;
            let ghost js = json_of(v)->Object_0;
            let mut rest = o;
            let mut out: Vec<(String, JsonValue)> = Vec::new();
            while rest.len() > 0
                invariant
                    json_of(v) == Json::Object(js),
                    js.len() == items.len(),
                    forall|k: int|
                        0 <= k < items.len() ==> js[k].0 == (#[trigger] items[k]).0@ && js[k].1
                            == json_of(items[k].1),
                    rest@.len() + out@.len() == items.len(),
                    rest@ == items.skip(out@.len() as int),
                    forall|k: int|
                        0 <= k < out@.len() ==> (#[trigger] out@[k]).0@ == js[k].0
                            && out@[k].1.model() == js[k].1,
                decreases rest.len(),
            {
                let ghost n = out@.len() as int;
                let (key, val) = rest.remove(0);
                assert((key, val) == items[n]);
                assert(js[n].1 == json_of(val));
                assert(decreases_to!(json_of(v) => json_of(v)->Object_0));
                assert(decreases_to!(json_of(v)->Object_0 => json_of(v)->Object_0[n]));
                assert(decreases_to!(json_of(v)->Object_0[n] => json_of(v)->Object_0[n].1));
                out.push((key, from_outside(val)));
                assert(rest@ =~= items.skip(n + 1));
            }
            let r = JsonValue::Object(out);
            assert(r.model()->Object_0 =~= js);
            r
        },
    }
}

/// Reads a JSON text; the error is in the words of the parser.
pub fn parse_json(text: &str) -> (r: Result<JsonValue, String>)
    ensures
        match r {
            Ok(v) => parsed_json(text@) == Ok::<Json, Seq<char>>(v.deep_view()),
            Err(e) => parsed_json(text@) == Err::<Json, Seq<char>>(e@),
        },
{
    match parse_outside(text) {
        Ok(v) => Ok(from_outside(v)),
        Err(e) => Err(e),
    }
}

} // verus!
