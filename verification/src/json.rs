//! The values agents and pages are answered with.

use vstd::prelude::*;
use vstd::string::*;

use crate::text::{opt_str, same, texts};

verus! {

/// A JSON value, with the numbers an answer needs.
#[derive(Debug)]
pub enum Json {
    /// Nothing.
    Null,
    /// Yes or no.
    Bool(bool),
    /// A whole number, not below zero.
    Number(u64),
    /// Any other number, or whatever else is kept as it is written.
    Literal(String),
    /// A text.
    Text(String),
    /// Several values.
    List(Vec<Json>),
    /// Several values, each under a name.
    Object(Vec<(String, Json)>),
}

/// What a JSON value holds.
pub enum JsonV {
    Null,
    Bool(bool),
    Number(int),
    Literal(Seq<char>),
    Text(Seq<char>),
    List(Seq<JsonV>),
    Object(Seq<(Seq<char>, JsonV)>),
}

/// What a JSON value holds.
pub open spec fn json_v(j: Json) -> JsonV
    decreases j, 0nat,
{
    match j {
        Json::Null => JsonV::Null,
        Json::Bool(b) => JsonV::Bool(b),
        Json::Number(n) => JsonV::Number(n as int),
        Json::Literal(s) => JsonV::Literal(s@),
        Json::Text(s) => JsonV::Text(s@),
        Json::List(items) => JsonV::List(items_v(items@, items@.len())),
        Json::Object(fields) => JsonV::Object(fields_v(fields@, fields@.len())),
    }
}

/// What the first of some values hold.
pub open spec fn items_v(items: Seq<Json>, n: nat) -> Seq<JsonV>
    decreases items, n,
{
    if n == 0 || n > items.len() {
        seq![]
    } else {
        items_v(items, (n - 1) as nat).push(json_v(items[n - 1]))
    }
}

/// What the first of some named values are called and hold.
pub open spec fn fields_v(fields: Seq<(String, Json)>, n: nat) -> Seq<(Seq<char>, JsonV)>
    decreases fields, n,
{
    if n == 0 || n > fields.len() {
        seq![]
    } else {
        fields_v(fields, (n - 1) as nat).push((fields[n - 1].0@, json_v(fields[n - 1].1)))
    }
}

/// What some values hold does not depend on the ones after.
proof fn lemma_items_prefix(items: Seq<Json>, j: Json, k: nat)
    requires
        k <= items.len(),
    ensures
        items_v(items.push(j), k) == items_v(items, k),
    decreases k,
{
    if k > 0 {
        lemma_items_prefix(items, j, (k - 1) as nat);
    }
}

/// What some named values hold does not depend on the ones after.
proof fn lemma_fields_prefix(fields: Seq<(String, Json)>, f: (String, Json), k: nat)
    requires
        k <= fields.len(),
    ensures
        fields_v(fields.push(f), k) == fields_v(fields, k),
    decreases k,
{
    if k > 0 {
        lemma_fields_prefix(fields, f, (k - 1) as nat);
    }
}

/// One of some values as it is among what they hold.
pub proof fn lemma_items_at(items: Seq<Json>, n: nat, k: int)
    requires
        0 <= k < n <= items.len(),
    ensures
        items_v(items, n).len() == n,
        items_v(items, n)[k] == json_v(items[k]),
    decreases n,
{
    reveal_with_fuel(items_v, 2);
    if k < n - 1 {
        lemma_items_at(items, (n - 1) as nat, k);
    } else if n > 1 {
        lemma_items_at(items, (n - 1) as nat, 0);
    }
}

/// One of some named values as it is among what they hold.
pub proof fn lemma_fields_at(fields: Seq<(String, Json)>, n: nat, k: int)
    requires
        0 <= k < n <= fields.len(),
    ensures
        fields_v(fields, n).len() == n,
        fields_v(fields, n)[k] == (fields[k].0@, json_v(fields[k].1)),
    decreases n,
{
    reveal_with_fuel(fields_v, 2);
    if k < n - 1 {
        lemma_fields_at(fields, (n - 1) as nat, k);
    } else if n > 1 {
        lemma_fields_at(fields, (n - 1) as nat, 0);
    }
}

/// The value under a name, where there is one: the last, if there are several.
pub open spec fn field_of(fields: Seq<(Seq<char>, JsonV)>, name: Seq<char>) -> Option<JsonV>
    decreases fields.len(),
{
    if fields.len() == 0 {
        None
    } else if fields.last().0 == name {
        Some(fields.last().1)
    } else {
        field_of(fields.drop_last(), name)
    }
}

/// The value an object holds under a name.
pub open spec fn get_v(j: JsonV, name: Seq<char>) -> Option<JsonV> {
    match j {
        JsonV::Object(fields) => field_of(fields, name),
        _ => None,
    }
}

/// The text an object holds under a name.
pub open spec fn text_v(j: JsonV, name: Seq<char>) -> Option<Seq<char>> {
    match get_v(j, name) {
        Some(JsonV::Text(s)) => Some(s),
        _ => None,
    }
}

/// The whole number an object holds under a name.
pub open spec fn number_v(j: JsonV, name: Seq<char>) -> Option<int> {
    match get_v(j, name) {
        Some(JsonV::Number(n)) => Some(n),
        _ => None,
    }
}

/// The yes or no an object holds under a name.
pub open spec fn bool_v(j: JsonV, name: Seq<char>) -> Option<bool> {
    match get_v(j, name) {
        Some(JsonV::Bool(b)) => Some(b),
        _ => None,
    }
}

impl Json {
    /// The value an object holds under a name.
    pub fn get(&self, name: &str) -> (r: Option<&Json>)
        ensures
            match r {
                Some(j) => get_v(json_v(*self), name@) == Some(json_v(*j)),
                None => get_v(json_v(*self), name@) is None,
            },
    {
        match self {
            Json::Object(fields) => {
                let ghost all = fields_v(fields@, fields@.len());
                let mut i: usize = fields.len();
                proof {
                    if fields@.len() > 0 {
                        lemma_fields_at(fields@, fields@.len(), 0);
                    }
                    assert(all.take(i as int) =~= all);
                }
                while i > 0
                    invariant
                        i <= fields@.len(),
                        all == fields_v(fields@, fields@.len()),
                        all.len() == fields@.len(),
                        field_of(all, name@) == field_of(all.take(i as int), name@),
                        get_v(json_v(*self), name@) == field_of(all, name@),
                    decreases i,
                {
                    i = i - 1;
                    proof {
                        lemma_fields_at(fields@, fields@.len(), i as int);
                        assert(all.take(i + 1).last() == all[i as int]);
                        assert(all.take(i + 1).drop_last() =~= all.take(i as int));
                    }
                    if same(fields[i].0.as_str(), name) {
                        return Some(&fields[i].1);
                    }
                }
                None
            },
            _ => None,
        }
    }

    /// The text an object holds under a name.
    pub fn text_at(&self, name: &str) -> (r: Option<&str>)
        ensures
            match r {
                Some(s) => text_v(json_v(*self), name@) == Some(s@),
                None => text_v(json_v(*self), name@) is None,
            },
    {
        match self.get(name) {
            Some(Json::Text(s)) => Some(s.as_str()),
            _ => None,
        }
    }

    /// The whole number an object holds under a name.
    pub fn number_at(&self, name: &str) -> (r: Option<u64>)
        ensures
            match r {
                Some(n) => number_v(json_v(*self), name@) == Some(n as int),
                None => number_v(json_v(*self), name@) is None,
            },
    {
        match self.get(name) {
            Some(Json::Number(n)) => Some(*n),
            _ => None,
        }
    }

    /// The yes or no an object holds under a name.
    pub fn bool_at(&self, name: &str) -> (r: Option<bool>)
        ensures
            r == bool_v(json_v(*self), name@),
    {
        match self.get(name) {
            Some(Json::Bool(b)) => Some(*b),
            _ => None,
        }
    }

    /// A text.
    pub fn text(s: &str) -> (r: Json)
        ensures
            json_v(r) == JsonV::Text(s@),
    {
        Json::Text(s.to_string())
    }

    /// A count.
    pub fn count(n: usize) -> (r: Json)
        ensures
            json_v(r) == JsonV::Number(n as int),
    {
        Json::Number(n as u64)
    }

    /// The same value again.
    pub fn copy(&self) -> (r: Json)
        ensures
            json_v(r) == json_v(*self),
        decreases *self, 0nat,
    {
        match self {
            Json::Null => Json::Null,
            Json::Bool(b) => Json::Bool(*b),
            Json::Number(n) => Json::Number(*n),
            Json::Literal(s) => Json::Literal(s.clone()),
            Json::Text(s) => Json::Text(s.clone()),
            Json::List(items) => copy_items(items),
            Json::Object(fields) => copy_fields(fields),
        }
    }
}

/// Some values again.
fn copy_items(items: &Vec<Json>) -> (r: Json)
    ensures
        json_v(r) == JsonV::List(items_v(items@, items@.len())),
    decreases items@, 1nat,
{
    let mut out: JsonList = JsonList::new();
    let mut i: usize = 0;
    while i < items.len()
        invariant
            i <= items@.len(),
            out@ == items_v(items@, i as nat),
        decreases items@.len() - i,
    {
        assert(decreases_to!(items@ => items@[i as int]));
        out.push(items[i].copy());
        i = i + 1;
    }
    out.done()
}

/// Some named values again.
fn copy_fields(fields: &Vec<(String, Json)>) -> (r: Json)
    ensures
        json_v(r) == JsonV::Object(fields_v(fields@, fields@.len())),
    decreases fields@, 1nat,
{
    let mut out: JsonObject = JsonObject::new();
    let mut i: usize = 0;
    while i < fields.len()
        invariant
            i <= fields@.len(),
            out@ == fields_v(fields@, i as nat),
        decreases fields@.len() - i,
    {
        assert(decreases_to!(fields@ => fields@[i as int]));
        out.put(fields[i].0.as_str(), fields[i].1.copy());
        i = i + 1;
    }
    out.done()
}

/// Some named values without those under a name.
pub open spec fn without_name(fields: Seq<(Seq<char>, JsonV)>, name: Seq<char>) -> Seq<
    (Seq<char>, JsonV),
>
    decreases fields.len(),
{
    if fields.len() == 0 {
        seq![]
    } else if fields.last().0 == name {
        without_name(fields.drop_last(), name)
    } else {
        without_name(fields.drop_last(), name).push(fields.last())
    }
}

/// An object without what it holds under a name; any other value as it is.
pub open spec fn without_v(j: JsonV, name: Seq<char>) -> JsonV {
    match j {
        JsonV::Object(fields) => JsonV::Object(without_name(fields, name)),
        _ => j,
    }
}

/// An object with a value under a name, in place of what was there; any other
/// value as it is.
pub open spec fn with_v(j: JsonV, name: Seq<char>, value: JsonV) -> JsonV {
    match j {
        JsonV::Object(fields) => JsonV::Object(without_name(fields, name).push((name, value))),
        _ => j,
    }
}

/// What is put under a name is found there, and what is under another name stays.
pub proof fn what_is_put_is_found(
    fields: Seq<(Seq<char>, JsonV)>,
    name: Seq<char>,
    value: JsonV,
    other: Seq<char>,
)
    ensures
        get_v(with_v(JsonV::Object(fields), name, value), name) == Some(value),
        other != name ==> get_v(with_v(JsonV::Object(fields), name, value), other) == get_v(
            JsonV::Object(fields),
            other,
        ),
        get_v(without_v(JsonV::Object(fields), name), name) is None,
{
    let rest = without_name(fields, name);
    assert(rest.push((name, value)).drop_last() =~= rest);
    lemma_without_name(fields, name, other);
    lemma_without_name(fields, name, name);
}

proof fn lemma_without_name(fields: Seq<(Seq<char>, JsonV)>, name: Seq<char>, other: Seq<char>)
    ensures
        other != name ==> field_of(without_name(fields, name), other) == field_of(fields, other),
        field_of(without_name(fields, name), name) is None,
    decreases fields.len(),
{
    if fields.len() > 0 {
        let head = fields.drop_last();
        lemma_without_name(head, name, other);
        let kept = without_name(head, name);
        assert(kept.push(fields.last()).drop_last() =~= kept);
    }
}

/// Some named values again, without those under a name.
fn copy_without(fields: &Vec<(String, Json)>, name: &str) -> (r: JsonObject)
    ensures
        r@ == without_name(fields_v(fields@, fields@.len()), name@),
{
    let ghost all = fields_v(fields@, fields@.len());
    let mut out: JsonObject = JsonObject::new();
    let mut i: usize = 0;
    proof {
        if fields@.len() > 0 {
            lemma_fields_at(fields@, fields@.len(), 0);
        }
        assert(all.take(0) =~= seq![]);
    }
    while i < fields.len()
        invariant
            i <= fields@.len(),
            all == fields_v(fields@, fields@.len()),
            all.len() == fields@.len(),
            out@ == without_name(all.take(i as int), name@),
        decreases fields@.len() - i,
    {
        proof {
            lemma_fields_at(fields@, fields@.len(), i as int);
            assert(all.take(i + 1).last() == all[i as int]);
            assert(all.take(i + 1).drop_last() =~= all.take(i as int));
        }
        if !same(fields[i].0.as_str(), name) {
            out.put(fields[i].0.as_str(), fields[i].1.copy());
        }
        i = i + 1;
    }
    assert(all.take(i as int) =~= all);
    out
}

impl Json {
    /// An object without what it holds under a name; any other value as it is.
    pub fn without(&self, name: &str) -> (r: Json)
        ensures
            json_v(r) == without_v(json_v(*self), name@),
    {
        match self {
            Json::Object(fields) => copy_without(fields, name).done(),
            _ => self.copy(),
        }
    }

    /// An object with a value under a name, in place of what was there; any
    /// other value as it is.
    pub fn with(&self, name: &str, value: Json) -> (r: Json)
        ensures
            json_v(r) == with_v(json_v(*self), name@, json_v(value)),
    {
        match self {
            Json::Object(fields) => {
                let mut out: JsonObject = copy_without(fields, name);
                out.put(name, value);
                out.done()
            },
            _ => self.copy(),
        }
    }
}

/// An object being put together.
#[derive(Debug)]
pub struct JsonObject {
    fields: Vec<(String, Json)>,
}

impl View for JsonObject {
    type V = Seq<(Seq<char>, JsonV)>;

    closed spec fn view(&self) -> Seq<(Seq<char>, JsonV)> {
        fields_v(self.fields@, self.fields@.len())
    }
}

impl JsonObject {
    /// An object with nothing in it.
    pub fn new() -> (r: Self)
        ensures
            r@ == Seq::<(Seq<char>, JsonV)>::empty(),
    {
        let r: JsonObject = JsonObject { fields: Vec::new() };
        assert(r@ =~= Seq::empty());
        r
    }

    /// Puts a value under a name.
    pub fn put(&mut self, name: &str, value: Json)
        ensures
            final(self)@ == old(self)@.push((name@, json_v(value))),
    {
        let f: (String, Json) = (name.to_string(), value);
        proof {
            lemma_fields_prefix(self.fields@, f, self.fields@.len());
        }
        self.fields.push(f);
    }

    /// The object.
    pub fn done(self) -> (r: Json)
        ensures
            json_v(r) == JsonV::Object(self@),
    {
        Json::Object(self.fields)
    }
}

/// A list being put together.
#[derive(Debug)]
pub struct JsonList {
    items: Vec<Json>,
}

impl View for JsonList {
    type V = Seq<JsonV>;

    closed spec fn view(&self) -> Seq<JsonV> {
        items_v(self.items@, self.items@.len())
    }
}

impl JsonList {
    /// A list with nothing in it.
    pub fn new() -> (r: Self)
        ensures
            r@ == Seq::<JsonV>::empty(),
    {
        let r: JsonList = JsonList { items: Vec::new() };
        assert(r@ =~= Seq::empty());
        r
    }

    /// Puts a value at the end.
    pub fn push(&mut self, value: Json)
        ensures
            final(self)@ == old(self)@.push(json_v(value)),
    {
        proof {
            lemma_items_prefix(self.items@, value, self.items@.len());
        }
        self.items.push(value);
    }

    /// The list.
    pub fn done(self) -> (r: Json)
        ensures
            json_v(r) == JsonV::List(self@),
    {
        Json::List(self.items)
    }
}

/// Some texts as values.
pub open spec fn texts_v(list: Seq<Seq<char>>) -> Seq<JsonV> {
    list.map_values(|s: Seq<char>| JsonV::Text(s))
}

/// Some texts as a list.
pub fn text_list(list: &Vec<String>) -> (r: Json)
    ensures
        json_v(r) == JsonV::List(texts_v(texts(list@))),
{
    let mut out: JsonList = JsonList::new();
    let mut i: usize = 0;
    while i < list.len()
        invariant
            i <= list@.len(),
            out@ == texts_v(texts(list@)).take(i as int),
        decreases list@.len() - i,
    {
        out.push(Json::text(list[i].as_str()));
        assert(out@ =~= texts_v(texts(list@)).take(i + 1));
        i = i + 1;
    }
    assert(texts_v(texts(list@)).take(i as int) =~= texts_v(texts(list@)));
    out.done()
}

/// A text, or nothing.
pub open spec fn opt_text_v(s: Option<Seq<char>>) -> JsonV {
    match s {
        Some(s) => JsonV::Text(s),
        None => JsonV::Null,
    }
}

/// A text, or nothing.
pub fn text_or_null(s: Option<&str>) -> (r: Json)
    ensures
        json_v(r) == opt_text_v(opt_str(s)),
{
    match s {
        Some(s) => Json::text(s),
        None => Json::Null,
    }
}

// ------------------------------------------------------------------ as text

/// The value of the JSON crate that a value stands for. Nothing is claimed of
/// it: it is only handed on to be written.
#[verifier::external_body]
fn to_value(j: &Json) -> serde_json::Value {
    match j {
        Json::Null => serde_json::Value::Null,
        Json::Bool(b) => serde_json::Value::from(*b),
        Json::Number(n) => serde_json::Value::from(*n),
        Json::Literal(s) => s.parse().unwrap_or_default(),
        Json::Text(s) => serde_json::Value::from(s.as_str()),
        Json::List(items) => serde_json::Value::Array(items.iter().map(to_value).collect()),
        Json::Object(fields) => serde_json::Value::Object(
            fields.iter().map(|field| (field.0.clone(), to_value(&field.1))).collect(),
        ),
    }
}

/// A value of the JSON crate.
#[verifier::external_type_specification]
#[verifier::external_body]
pub struct ExValue(serde_json::Value);

/// A value as it is written on one line.
pub uninterp spec fn compact(j: JsonV) -> Seq<char>;

/// `serde_json::Value::to_string`: a value as it is written on one line.
#[verifier::external_body]
pub(crate) fn to_text(j: &Json) -> (r: String)
    ensures
        r@ == compact(json_v(*j)),
{
    to_value(j).to_string()
}

/// A value as it is written for a person to read.
pub uninterp spec fn pretty(j: JsonV) -> Seq<char>;

/// `serde_json::to_string_pretty`: a value as it is written for a person to
/// read.
#[verifier::external_body]
pub(crate) fn to_pretty_text(j: &Json) -> (r: String)
    ensures
        r@ == pretty(json_v(*j)),
{
    serde_json::to_string_pretty(&to_value(j)).unwrap_or_default()
}

} // verus!
