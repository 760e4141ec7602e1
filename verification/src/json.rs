//! JSON documents: the value type that the readers work on, and its parsing.

use crate::ieee::{double_of, from_integer, lemma_double_of_bound, Double, SIGN};
use crate::text::same_text;
use vstd::prelude::*;

verus! {

/// A number of a JSON document.
#[derive(Clone, Copy, Debug, PartialEq, Eq, Structural)]
pub enum JsonNumber {
    /// An integer that is not negative.
    Unsigned(u64),
    /// A negative integer.
    Negative(i64),
    /// Any other number.
    Fraction(Double),
}

/// A JSON value. The members of an object keep the order of the document.
#[derive(Debug)]
pub enum Json {
    Null,
    Bool(bool),
    Number(JsonNumber),
    Text(String),
    Array(Vec<Json>),
    Object(Vec<(String, Json)>),
}

/// What a [`Json`] stands for.
pub enum JsonView {
    Null,
    Bool(bool),
    Number(JsonNumber),
    Text(Seq<char>),
    Array(Seq<JsonView>),
    Object(Seq<(Seq<char>, JsonView)>),
}

impl View for Json {
    type V = JsonView;

    open spec fn view(&self) -> JsonView {
        self.model()
    }
}

impl Json {
    /// What the value stands for.
    pub open spec fn model(self) -> JsonView
        decreases self,
    {
        match self {
            Json::Null => JsonView::Null,
            Json::Bool(b) => JsonView::Bool(b),
            Json::Number(n) => JsonView::Number(n),
            Json::Text(s) => JsonView::Text(s@),
            Json::Array(items) => JsonView::Array(
                Seq::new(
                    items@.len(),
                    |i: int|
                        if 0 <= i < items@.len() {
                            items@[i].model()
                        } else {
                            JsonView::Null
                        },
                ),
            ),
            Json::Object(members) => JsonView::Object(
                Seq::new(
                    members@.len(),
                    |i: int|
                        if 0 <= i < members@.len() {
                            (members@[i].0@, members@[i].1.model())
                        } else {
                            (Seq::empty(), JsonView::Null)
                        },
                ),
            ),
        }
    }
}

/// The value of the first member called `key`.
pub open spec fn find_member(members: Seq<(Seq<char>, JsonView)>, key: Seq<char>) -> Option<
    JsonView,
>
    decreases members.len(),
{
    if members.len() == 0 {
        None
    } else if members[0].0 == key {
        Some(members[0].1)
    } else {
        find_member(members.drop_first(), key)
    }
}

/// Whether two numbers are equal. Numbers of different kinds never are; the two zeros are.
pub open spec fn same_number(a: JsonNumber, b: JsonNumber) -> bool {
    match (a, b) {
        (JsonNumber::Unsigned(x), JsonNumber::Unsigned(y)) => x == y,
        (JsonNumber::Negative(x), JsonNumber::Negative(y)) => x == y,
        (JsonNumber::Fraction(x), JsonNumber::Fraction(y)) => !x.nan() && !y.nan() && x.rank()
            == y.rank(),
        _ => false,
    }
}

impl JsonView {
    /// The member called `key`, and null where there is none or the value is no object.
    pub open spec fn member(self, key: Seq<char>) -> JsonView {
        match self {
            JsonView::Object(members) => match find_member(members, key) {
                Some(value) => value,
                None => JsonView::Null,
            },
            _ => JsonView::Null,
        }
    }

    /// The item at `index`, and null where there is none or the value is no array.
    pub open spec fn item(self, index: int) -> JsonView {
        match self {
            JsonView::Array(items) => if 0 <= index < items.len() {
                items[index]
            } else {
                JsonView::Null
            },
            _ => JsonView::Null,
        }
    }

    /// The text of a string value.
    pub open spec fn text(self) -> Option<Seq<char>> {
        match self {
            JsonView::Text(s) => Some(s),
            _ => None,
        }
    }

    /// The value of an integer that is not negative.
    pub open spec fn integer(self) -> Option<u64> {
        match self {
            JsonView::Number(JsonNumber::Unsigned(n)) => Some(n),
            _ => None,
        }
    }

    /// The items of an array.
    pub open spec fn items(self) -> Option<Seq<JsonView>> {
        match self {
            JsonView::Array(items) => Some(items),
            _ => None,
        }
    }

    /// The double nearest to a number.
    pub open spec fn double(self) -> Option<Double> {
        match self {
            JsonView::Number(JsonNumber::Unsigned(n)) => Some(
                Double { bits: double_of(n as nat) as u64 },
            ),
            JsonView::Number(JsonNumber::Negative(n)) => Some(
                Double {
                    bits: (if n < 0 {
                        SIGN + double_of((-n) as nat)
                    } else {
                        double_of(n as nat) as int
                    }) as u64,
                },
            ),
            JsonView::Number(JsonNumber::Fraction(x)) => Some(x),
            _ => None,
        }
    }

    /// Whether this is the string `s`.
    pub open spec fn is_text(self, s: Seq<char>) -> bool {
        self.text() == Some(s)
    }

    /// Whether two values are equal. The order of the members of an object does not matter.
    pub open spec fn same(self, other: JsonView) -> bool
        decreases self,
    {
        match (self, other) {
            (JsonView::Null, JsonView::Null) => true,
            (JsonView::Bool(a), JsonView::Bool(b)) => a == b,
            (JsonView::Number(a), JsonView::Number(b)) => same_number(a, b),
            (JsonView::Text(a), JsonView::Text(b)) => a == b,
            (JsonView::Array(a), JsonView::Array(b)) => {
                &&& a.len() == b.len()
                &&& forall|i: int| 0 <= i < a.len() ==> (#[trigger] a[i]).same(b[i])
            },
            (JsonView::Object(a), JsonView::Object(b)) => {
                &&& a.len() == b.len()
                &&& forall|i: int|
                    0 <= i < a.len() ==> {
                        &&& find_member(b, (#[trigger] a[i]).0) is Some
                        &&& a[i].1.same(find_member(b, a[i].0)->0)
                    }
            },
            _ => false,
        }
    }
}

/// What the items of an array stand for.
pub open spec fn models(items: Seq<Json>) -> Seq<JsonView> {
    items.map_values(|item: Json| item@)
}

fn numbers_equal(a: JsonNumber, b: JsonNumber) -> (r: bool)
    ensures
        r == same_number(a, b),
{
    match (a, b) {
        (JsonNumber::Unsigned(x), JsonNumber::Unsigned(y)) => x == y,
        (JsonNumber::Negative(x), JsonNumber::Negative(y)) => x == y,
        (JsonNumber::Fraction(x), JsonNumber::Fraction(y)) => x.is_at_most(y) && y.is_at_most(x),
        _ => false,
    }
}

/// The value of the first of `members` called `key`.
fn find<'a>(members: &'a Vec<(String, Json)>, key: &str) -> (r: Option<&'a Json>)
    ensures
        match r {
            Some(value) => find_member(Json::Object(*members)@->Object_0, key@) == Some(value@),
            None => find_member(Json::Object(*members)@->Object_0, key@) is None,
        },
{
    let ghost model = Json::Object(*members)@->Object_0;
    let mut i: usize = 0;
    assert(model.skip(0) =~= model);
    while i < members.len()
        invariant
            model == Json::Object(*members)@->Object_0,
            i <= members@.len(),
            find_member(model.skip(i as int), key@) == find_member(model, key@),
        decreases members@.len() - i,
    {
        assert(model.skip(i as int)[0] == (members@[i as int].0@, members@[i as int].1@));
        if same_text(members[i].0.as_str(), key) {
            return Some(&members[i].1);
        }
        assert(model.skip(i as int).drop_first() =~= model.skip(i + 1));
        i = i + 1;
    }
    None
}

impl Json {
    /// The member called `key`, and null where there is none or the value is no object.
    pub fn member(&self, key: &str) -> (r: &Json)
        ensures
            r@ == self@.member(key@),
    {
        match self {
            Json::Object(members) => match find(members, key) {
                Some(value) => value,
                None => &Json::Null,
            },
            _ => &Json::Null,
        }
    }

    /// The item at `index`, and null where there is none or the value is no array.
    pub fn item(&self, index: usize) -> (r: &Json)
        ensures
            r@ == self@.item(index as int),
    {
        match self {
            Json::Array(items) => if index < items.len() {
                &items[index]
            } else {
                &Json::Null
            },
            _ => &Json::Null,
        }
    }

    /// The text of a string value.
    pub fn as_text(&self) -> (r: Option<&str>)
        ensures
            match r {
                Some(s) => self@.text() == Some(s@),
                None => self@.text() is None,
            },
    {
        match self {
            Json::Text(s) => Some(s.as_str()),
            _ => None,
        }
    }

    /// The value of an integer that is not negative.
    pub fn as_integer(&self) -> (r: Option<u64>)
        ensures
            r == self@.integer(),
    {
        match self {
            Json::Number(JsonNumber::Unsigned(n)) => Some(*n),
            _ => None,
        }
    }

    /// The items of an array.
    pub fn as_items(&self) -> (r: Option<&Vec<Json>>)
        ensures
            match r {
                Some(items) => self@.items() == Some(models(items@)),
                None => self@.items() is None,
            },
    {
        match self {
            Json::Array(items) => {
                assert(self@->Array_0 =~= models(items@));
                Some(items)
            },
            _ => None,
        }
    }

    /// The double nearest to a number.
    pub fn as_double(&self) -> (r: Option<Double>)
        ensures
            r == self@.double(),
    {
        match self {
            Json::Number(JsonNumber::Unsigned(n)) => Some(from_integer(*n)),
            Json::Number(JsonNumber::Negative(n)) => {
                if *n < 0 {
                    let distance: u64 = (-(*n as i128)) as u64;
                    let positive = from_integer(distance);
                    proof {
                        lemma_double_of_bound(distance);
                    }
                    Some(positive.negated())
                } else {
                    Some(from_integer(*n as u64))
                }
            },
            Json::Number(JsonNumber::Fraction(x)) => Some(*x),
            _ => None,
        }
    }

    /// Whether this is the string `s`.
    pub fn is_text(&self, s: &str) -> (r: bool)
        ensures
            r == self@.is_text(s@),
    {
        match self.as_text() {
            Some(t) => same_text(t, s),
            None => false,
        }
    }

    /// Whether this is the number `n`.
    pub fn is_integer(&self, n: u64) -> (r: bool)
        ensures
            r == (self@.integer() == Some(n)),
    {
        match self.as_integer() {
            Some(m) => m == n,
            None => false,
        }
    }

    /// Whether this is `true`.
    pub fn is_true(&self) -> (r: bool)
        ensures
            r == (self@ == JsonView::Bool(true)),
    {
        match self {
            Json::Bool(b) => *b,
            _ => false,
        }
    }

    /// Whether this is null.
    pub fn is_null(&self) -> (r: bool)
        ensures
            r == (self@ == JsonView::Null),
    {
        match self {
            Json::Null => true,
            _ => false,
        }
    }

    /// Whether two values are equal. The order of the members of an object does not matter.
    pub fn same(&self, other: &Json) -> (r: bool)
        ensures
            r == self@.same(other@),
        decreases *self,
    {
        match (self, other) {
            (Json::Null, Json::Null) => true,
            (Json::Bool(a), Json::Bool(b)) => *a == *b,
            (Json::Number(a), Json::Number(b)) => numbers_equal(*a, *b),
            (Json::Text(a), Json::Text(b)) => same_text(a.as_str(), b.as_str()),
            (Json::Array(a), Json::Array(b)) => {
                if a.len() != b.len() {
                    return false;
                }
                let mut i: usize = 0;
                while i < a.len()
                    invariant
                        *self == Json::Array(*a),
                        *other == Json::Array(*b),
                        a@.len() == b@.len(),
                        i <= a@.len(),
                        forall|j: int|
                            0 <= j < i ==> (#[trigger] self@->Array_0[j]).same(
                                other@->Array_0[j],
                            ),
                    decreases a@.len() - i,
                {
                    assert(self@->Array_0[i as int] == a@[i as int]@);
                    if !a[i].same(&b[i]) {
                        return false;
                    }
                    i = i + 1;
                }
                true
            },
            (Json::Object(a), Json::Object(b)) => {
                if a.len() != b.len() {
                    return false;
                }
                let mut i: usize = 0;
                while i < a.len()
                    invariant
                        *self == Json::Object(*a),
                        *other == Json::Object(*b),
                        a@.len() == b@.len(),
                        i <= a@.len(),
                        forall|j: int|
                            0 <= j < i ==> {
                                &&& find_member(
                                    other@->Object_0,
                                    (#[trigger] self@->Object_0[j]).0,
                                ) is Some
                                &&& self@->Object_0[j].1.same(
                                    find_member(other@->Object_0, self@->Object_0[j].0)->0,
                                )
                            },
                    decreases a@.len() - i,
                {
                    assert(self@->Object_0[i as int] == (a@[i as int].0@, a@[i as int].1@));
                    match find(b, a[i].0.as_str()) {
                        Some(value) => {
                            assert(find_member(other@->Object_0, a@[i as int].0@) == Some(value@));
                            if !a[i].1.same(value) {
                                return false;
                            }
                        },
                        None => {
                            return false;
                        },
                    }
                    i = i + 1;
                }
                true
            },
            _ => false,
        }
    }
}

/// `serde_json::Value`, the value type of the JSON parser.
#[verifier::external_type_specification]
#[verifier::external_body]
pub struct ExValue(serde_json::Value);

/// What a `serde_json::Value` holds, in the order in which its maps are walked.
pub uninterp spec fn content(value: serde_json::Value) -> JsonView;

/// The document that `serde_json::from_slice` reads out of a text, or its words on why the text
/// is none.
pub uninterp spec fn document(text: Seq<u8>) -> Result<JsonView, Seq<char>>;

/// The text that `serde_json::to_vec` writes for a value.
pub uninterp spec fn compact(value: JsonView) -> Seq<u8>;

/// One level of a `serde_json::Value`. A number is given by what it is as an unsigned and as a
/// signed integer, and by the bits of the double nearest to it.
enum Node<'a> {
    Null,
    Bool(bool),
    Number(Option<u64>, Option<i64>, Option<u64>),
    Text(&'a String),
    Array(&'a Vec<serde_json::Value>),
    Object(Vec<(&'a String, &'a serde_json::Value)>),
}

pub open spec fn contents(values: Seq<serde_json::Value>) -> Seq<JsonView> {
    values.map_values(|value: serde_json::Value| content(value))
}

pub open spec fn entries(members: Seq<(&String, &serde_json::Value)>) -> Seq<
    (Seq<char>, JsonView),
> {
    members.map_values(|member: (&String, &serde_json::Value)| (member.0@, content(*member.1)))
}

/// What a list of members holds.
pub open spec fn owned_entries(members: Seq<(String, serde_json::Value)>) -> Seq<
    (Seq<char>, JsonView),
> {
    members.map_values(|member: (String, serde_json::Value)| (member.0@, content(member.1)))
}

/// Calls `serde_json::from_slice` for a `serde_json::Value`. It succeeds on the texts that are
/// JSON documents, which is left to the name `document`, and the value holds that document. An
/// error is given by its words.
#[verifier::external_body]
fn parse_value(text: &[u8]) -> (r: Result<serde_json::Value, String>)
    ensures
        match r {
            Ok(value) => document(text@) == Ok::<JsonView, Seq<char>>(content(value)),
            Err(words) => document(text@) == Err::<JsonView, Seq<char>>(words@),
        },
{
    serde_json::from_slice(text).map_err(|error| error.to_string())
}

/// Tells the variants of a `serde_json::Value` apart. A number that is an unsigned integer is
/// one by `as_u64`, a negative integer one by `as_i64` alone, and any other number has only the
/// double of `as_f64`, which is finite.
#[verifier::external_body]
fn open_value(value: &serde_json::Value) -> (r: Node<'_>)
    ensures
        match r {
            Node::Null => content(*value) == JsonView::Null,
            Node::Bool(b) => content(*value) == JsonView::Bool(b),
            Node::Number(Some(n), _, _) => content(*value) == JsonView::Number(
                JsonNumber::Unsigned(n),
            ),
            Node::Number(None, Some(n), _) => n < 0 && content(*value) == JsonView::Number(
                JsonNumber::Negative(n),
            ),
            Node::Number(None, None, Some(bits)) => Double { bits }.finite() && content(*value)
                == JsonView::Number(JsonNumber::Fraction(Double { bits })),
            Node::Number(None, None, None) => false,
            Node::Text(s) => content(*value) == JsonView::Text(s@),
            Node::Array(items) => content(*value) == JsonView::Array(contents(items@)),
            Node::Object(members) => content(*value) == JsonView::Object(entries(members@)),
        },
{
    match value {
        serde_json::Value::Null => Node::Null,
        serde_json::Value::Bool(b) => Node::Bool(*b),
        serde_json::Value::Number(n) => {
            Node::Number(n.as_u64(), n.as_i64(), n.as_f64().map(|x| x.to_bits()))
        },
        serde_json::Value::String(s) => Node::Text(s),
        serde_json::Value::Array(items) => Node::Array(items),
        serde_json::Value::Object(members) => Node::Object(members.iter().collect()),
    }
}

/// Indexes a `serde_json::Value` by a key: the member of that name, and null where there is
/// none or the value is no object.
#[verifier::external_body]
fn value_member<'a>(value: &'a serde_json::Value, key: &str) -> (r: &'a serde_json::Value)
    ensures
        content(*r) == content(*value).member(key@),
{
    &value[key]
}

/// Calls `serde_json::to_vec` on a `serde_json::Value`. Writing a value into memory does not
/// fail: its keys are strings and its numbers are finite.
#[verifier::external_body]
pub(crate) fn value_text(value: &serde_json::Value) -> (r: Result<Vec<u8>, String>)
    ensures
        r is Ok,
        r->Ok_0@ == compact(content(*value)),
{
    serde_json::to_vec(value).map_err(|error| error.to_string())
}

/// Makes a `serde_json::Value::String`, which holds the text.
#[verifier::external_body]
pub(crate) fn text_value(text: &str) -> (r: serde_json::Value)
    ensures
        content(r) == JsonView::Text(text@),
{
    serde_json::Value::String(text.to_owned())
}

/// Makes a `serde_json::Value::Array`, which holds the values in their order.
#[verifier::external_body]
pub(crate) fn array_value(items: Vec<serde_json::Value>) -> (r: serde_json::Value)
    ensures
        content(r) == JsonView::Array(contents(items@)),
{
    serde_json::Value::Array(items)
}

/// Makes a `serde_json::Value::Object` by collecting members into a `serde_json::Map`. The map
/// is walked in the order of insertion, and members with different keys do not replace each
/// other.
#[verifier::external_body]
pub(crate) fn object_value(members: Vec<(String, serde_json::Value)>) -> (r: serde_json::Value)
    requires
        forall|i: int, j: int|
            0 <= i < j < members@.len() ==> (#[trigger] members@[i]).0@ != (
            #[trigger] members@[j]).0@,
    ensures
        content(r) == JsonView::Object(owned_entries(members@)),
{
    serde_json::Value::Object(members.into_iter().collect())
}

/// Calls `clone` on a `serde_json::Value`. The copy holds what the value holds.
#[verifier::external_body]
pub(crate) fn copy_value(value: &serde_json::Value) -> (r: serde_json::Value)
    ensures
        content(r) == content(*value),
{
    value.clone()
}

/// The value with the content of a `serde_json::Value`.
pub fn json_of(value: &serde_json::Value) -> (r: Json)
    ensures
        r@ == content(*value),
    decreases content(*value),
{
    match open_value(value) {
        Node::Null => Json::Null,
        Node::Bool(b) => Json::Bool(b),
        Node::Number(Some(n), _, _) => Json::Number(JsonNumber::Unsigned(n)),
        Node::Number(None, Some(n), _) => Json::Number(JsonNumber::Negative(n)),
        Node::Number(None, None, Some(bits)) => Json::Number(JsonNumber::Fraction(Double { bits })),
        Node::Number(None, None, None) => Json::Null,
        Node::Text(s) => Json::Text(s.clone()),
        Node::Array(values) => {
            let mut items: Vec<Json> = Vec::new();
            let mut i: usize = 0;
            while i < values.len()
                invariant
                    content(*value) == JsonView::Array(contents(values@)),
                    i <= values@.len(),
                    items@.len() == i,
                    forall|j: int| 0 <= j < i ==> (#[trigger] items@[j])@ == content(values@[j]),
                decreases values@.len() - i,
            {
                assert(content(*value)->Array_0[i as int] == content(values@[i as int]));
                items.push(json_of(&values[i]));
                i = i + 1;
            }
            assert(Json::Array(items)@->Array_0 =~= contents(values@));
            Json::Array(items)
        },
        Node::Object(values) => {
            let mut members: Vec<(String, Json)> = Vec::new();
            let mut i: usize = 0;
            while i < values.len()
                invariant
                    content(*value) == JsonView::Object(entries(values@)),
                    i <= values@.len(),
                    members@.len() == i,
                    forall|j: int|
                        0 <= j < i ==> (#[trigger] members@[j]).0@ == values@[j].0@
                            && members@[j].1@ == content(*values@[j].1),
                decreases values@.len() - i,
            {
                assert(content(*value)->Object_0[i as int].1 == content(*values@[i as int].1));
                members.push((values[i].0.clone(), json_of(values[i].1)));
                i = i + 1;
            }
            assert(Json::Object(members)@->Object_0 =~= entries(values@));
            Json::Object(members)
        },
    }
}

/// Parses a JSON document; an error is given in the words of the parser.
pub fn parse(text: &[u8]) -> (r: Result<Json, String>)
    ensures
        match r {
            Ok(value) => document(text@) == Ok::<JsonView, Seq<char>>(value@),
            Err(words) => document(text@) == Err::<JsonView, Seq<char>>(words@),
        },
{
    match parse_value(text) {
        Ok(value) => Ok(json_of(&value)),
        Err(error) => Err(error),
    }
}

/// Parses a JSON document, and writes its member `key` out again as compact text.
pub fn parse_with_member_text(text: &[u8], key: &str) -> (r: Result<
    (Json, Vec<u8>),
    String,
>)
    ensures
        match r {
            Ok((value, member_text)) => {
                &&& document(text@) == Ok::<JsonView, Seq<char>>(value@)
                &&& member_text@ == compact(value@.member(key@))
            },
            Err(words) => document(text@) == Err::<JsonView, Seq<char>>(words@),
        },
{
    match parse_value(text) {
        Ok(value) => match value_text(value_member(&value, key)) {
            Ok(member_text) => Ok((json_of(&value), member_text)),
            Err(error) => Err(error),
        },
        Err(error) => Err(error),
    }
}

/// Under a key the first member counts; there is null where an object has none, and in all that is
/// no object.
pub proof fn law_first_member_of_a_key_counts(
    members: Seq<(Seq<char>, JsonView)>,
    key: Seq<char>,
    k: int,
)
    ensures
        0 <= k < members.len() && members[k].0 == key && (forall|j: int|
            0 <= j < k ==> (#[trigger] members[j]).0 != key) ==> JsonView::Object(members).member(
            key,
        ) == members[k].1 && find_member(members, key) is Some,
        (forall|j: int| 0 <= j < members.len() ==> (#[trigger] members[j]).0 != key)
            ==> JsonView::Object(members).member(key) == JsonView::Null && find_member(members, key)
            is None,
    decreases members.len(),
{
    if members.len() > 0 {
        let rest = members.drop_first();
        law_first_member_of_a_key_counts(rest, key, k - 1);
        assert forall|j: int| 0 <= j < rest.len() implies #[trigger] rest[j] == members[j + 1] by {}
        if members[0].0 != key {
            if 0 <= k < members.len() && members[k].0 == key && forall|j: int|
                0 <= j < k ==> (#[trigger] members[j]).0 != key {
                assert(rest[k - 1] == members[k]);
                assert forall|j: int| 0 <= j < k - 1 implies (#[trigger] rest[j]).0 != key by {
                    assert(members[j + 1].0 != key);
                }
            }
            if forall|j: int| 0 <= j < members.len() ==> (#[trigger] members[j]).0 != key {
                assert forall|j: int| 0 <= j < rest.len() implies (#[trigger] rest[j]).0 != key by {
                    assert(members[j + 1].0 != key);
                }
            }
        } else {
            assert(k > 0 ==> members[0].0 == key);
        }
    }
}

/// A value is read as what it is and as nothing else: only objects have members, only arrays have
/// items, only strings have a text, and only integers that are not negative are read as such.
pub proof fn law_values_are_read_as_what_they_are(
    value: JsonView,
    key: Seq<char>,
    items: Seq<JsonView>,
    text: Seq<char>,
    n: u64,
    i: int,
)
    ensures
        value !is Object ==> value.member(key) == JsonView::Null,
        value !is Array ==> value.item(i) == JsonView::Null,
        value.items() == Some(items) <==> value == JsonView::Array(items),
        value.text() == Some(text) <==> value == JsonView::Text(text),
        value.is_text(text) <==> value == JsonView::Text(text),
        value.integer() == Some(n) <==> value == JsonView::Number(JsonNumber::Unsigned(n)),
        0 <= i < items.len() ==> JsonView::Array(items).item(i) == items[i],
        !(0 <= i < items.len()) ==> JsonView::Array(items).item(i) == JsonView::Null,
        value.double() is Some <==> value is Number,
{
}

/// The double of a number has its sign, and that of a fraction is the fraction.
pub proof fn law_numbers_are_read_as_doubles(n: u64, m: i64, x: Double)
    ensures
        JsonView::Number(JsonNumber::Unsigned(n)).double() == Some(
            Double { bits: double_of(n as nat) as u64 },
        ),
        m < 0 ==> JsonView::Number(JsonNumber::Negative(m)).double() == Some(
            (Double { bits: double_of((-m) as nat) as u64 }).opposite(),
        ),
        JsonView::Number(JsonNumber::Fraction(x)).double() == Some(x),
{
    if m < 0 {
        let distance = (-(m as int)) as u64;
        assert(distance as nat == (-m) as nat);
        lemma_double_of_bound(distance);
    }
}

/// Values are compared by what they hold: texts, truth values and integers by equality, fractions
/// as numbers, arrays item by item, and objects member by member, in whatever order the other one
/// lists them. Values of different kinds are never the same.
pub proof fn law_values_are_compared_by_content(a: JsonView, b: JsonView)
    ensures
        a is Text || b is Text ==> (a.same(b) <==> a == b),
        a is Bool || b is Bool ==> (a.same(b) <==> a == b),
        a is Null || b is Null ==> (a.same(b) <==> a == b),
        a.integer() is Some || b.integer() is Some ==> (a.same(b) <==> a == b),
        a is Array || b is Array ==> (a.same(b) <==> {
            &&& a is Array && b is Array
            &&& a->Array_0.len() == b->Array_0.len()
            &&& forall|i: int|
                0 <= i < a->Array_0.len() ==> (#[trigger] a->Array_0[i]).same(b->Array_0[i])
        }),
        a is Object || b is Object ==> (a.same(b) <==> {
            &&& a is Object && b is Object
            &&& a->Object_0.len() == b->Object_0.len()
            &&& forall|i: int|
                0 <= i < a->Object_0.len() ==> {
                    &&& find_member(b->Object_0, (#[trigger] a->Object_0[i]).0) is Some
                    &&& a->Object_0[i].1.same(b.member(a->Object_0[i].0))
                }
        }),
        a is Number && b is Number && a->Number_0 is Fraction && b->Number_0 is Fraction
            ==> (a.same(b) <==> a->Number_0->Fraction_0.at_most(b->Number_0->Fraction_0)
            && b->Number_0->Fraction_0.at_most(a->Number_0->Fraction_0)),
        a is Number && b is Number && a->Number_0 is Negative ==> (a.same(b) <==> a == b),
{
}

} // verus!
