use vstd::prelude::*;
use crate::text::str_eq;

verus! {

/// A JSON document held as plain values: the form in which the library reads
/// and writes wire payloads.
pub enum Json {
    Null,
    Bool(bool),
    /// A decimal number `mantissa * 10^exponent`, negative when `positive` is false.
    Number { positive: bool, mantissa: u64, exponent: i16 },
    Str(String),
    Array(Vec<Json>),
    /// Members in document order.
    Object(Vec<(String, Json)>),
}

/// The mathematical value of a `Json`.
pub enum JsonModel {
    Null,
    Bool(bool),
    Number(bool, u64, i16),
    Str(Seq<char>),
    Array(Seq<JsonModel>),
    Object(Seq<(Seq<char>, JsonModel)>),
}

/// The mathematical value of a `Json`.
pub open spec fn json_model(j: Json) -> JsonModel
    decreases j,
{
    match j {
        Json::Null => JsonModel::Null,
        Json::Bool(b) => JsonModel::Bool(b),
        Json::Number { positive, mantissa, exponent } => JsonModel::Number(
            positive,
            mantissa,
            exponent,
        ),
        Json::Str(s) => JsonModel::Str(s@),
        Json::Array(v) => JsonModel::Array(
            Seq::new(
                v@.len(),
                |i: int|
                    if 0 <= i < v@.len() {
                        json_model(v@[i])
                    } else {
                        JsonModel::Null
                    },
            ),
        ),
        Json::Object(v) => JsonModel::Object(
            Seq::new(
                v@.len(),
                |i: int|
                    if 0 <= i < v@.len() {
                        (v@[i].0@, json_model(v@[i].1))
                    } else {
                        (Seq::empty(), JsonModel::Null)
                    },
            ),
        ),
    }
}

impl View for Json {
    type V = JsonModel;

    open spec fn view(&self) -> JsonModel {
        json_model(*self)
    }
}

/// The values of a list of documents.
pub open spec fn json_views(v: Seq<Json>) -> Seq<JsonModel> {
    v.map_values(|j: Json| j@)
}

/// The values of a list of object members.
pub open spec fn member_views(v: Seq<(String, Json)>) -> Seq<(Seq<char>, JsonModel)> {
    v.map_values(|m: (String, Json)| (m.0@, m.1@))
}

pub proof fn lemma_object_view(j: &Json)
    requires
        j is Object,
    ensures
        j@ is Object,
        j@->Object_0 == member_views(j->Object_0@),
        j@->Object_0.len() == j->Object_0@.len(),
        forall|i: int|
            0 <= i < j->Object_0@.len() ==> #[trigger] j@->Object_0[i] == (
                j->Object_0@[i].0@,
                j->Object_0@[i].1@,
            ),
{
    assert(j@->Object_0 =~= member_views(j->Object_0@));
}

pub proof fn lemma_array_view(j: &Json)
    requires
        j is Array,
    ensures
        j@ is Array,
        j@->Array_0 == json_views(j->Array_0@),
        j@->Array_0.len() == j->Array_0@.len(),
        forall|i: int| 0 <= i < j->Array_0@.len() ==> #[trigger] j@->Array_0[i] == j->Array_0@[i]@,
{
    assert(j@->Array_0 =~= json_views(j->Array_0@));
}

/// Position of the first member named `key`, or -1.
pub open spec fn member_pos(m: Seq<(Seq<char>, JsonModel)>, key: Seq<char>) -> int
    decreases m.len(),
{
    if m.len() == 0 {
        -1
    } else if m.last().0 == key && member_pos(m.drop_last(), key) == -1 {
        m.len() - 1
    } else {
        member_pos(m.drop_last(), key)
    }
}

impl JsonModel {
    /// The value of the first member named `key`, when `self` is an object that has one.
    pub open spec fn field(self, key: Seq<char>) -> Option<JsonModel> {
        match self {
            JsonModel::Object(m) => if member_pos(m, key) >= 0 {
                Some(m[member_pos(m, key)].1)
            } else {
                None
            },
            _ => None,
        }
    }

    /// The number as a `u64`, when it is a non-negative integer written without exponent.
    pub open spec fn as_u64(self) -> Option<u64> {
        match self {
            JsonModel::Number(positive, mantissa, exponent) => if positive && exponent == 0 {
                Some(mantissa)
            } else {
                None
            },
            _ => None,
        }
    }
}

pub proof fn lemma_member_pos_range(m: Seq<(Seq<char>, JsonModel)>, key: Seq<char>)
    ensures
        -1 <= member_pos(m, key) < m.len(),
        member_pos(m, key) >= 0 ==> m[member_pos(m, key)].0 == key,
        member_pos(m, key) == -1 ==> forall|i: int| 0 <= i < m.len() ==> m[i].0 != key,
        forall|i: int| 0 <= i < member_pos(m, key) ==> m[i].0 != key,
    decreases m.len(),
{
    if m.len() > 0 {
        lemma_member_pos_range(m.drop_last(), key);
        assert forall|i: int| 0 <= i < m.len() - 1 implies m.drop_last()[i] == m[i] by {}
    }
}

impl Json {
    /// Position of the first member named `key`, when `self` is an object that has one.
    pub fn member_index(&self, key: &str) -> (r: Option<usize>)
        ensures
            match r {
                Some(i) => self@ is Object && member_pos(self@->Object_0, key@) == i as int
                    && self is Object && (i as int) < self->Object_0@.len(),
                None => self@.field(key@) is None,
            },
    {
        match self {
            Json::Object(v) => {
                proof {
                    lemma_object_view(self);
                }
                let ghost m = self@->Object_0;
                let mut i: usize = 0;
                while i < v.len()
                    invariant
                        m == self@->Object_0,
                        self == Json::Object(*v),
                        m.len() == v@.len(),
                        i <= v@.len(),
                        forall|j: int| 0 <= j < i ==> m[j].0 != key@,
                    decreases v@.len() - i,
                {
                    assert(m[i as int].0 == v@[i as int].0@);
                    if str_eq(v[i].0.as_str(), key) {
                        proof {
                            lemma_member_pos_prefix(m, key@, i as int);
                        }
                        return Some(i);
                    }
                    i = i + 1;
                }
                proof {
                    lemma_member_pos_range(m, key@);
                    if member_pos(m, key@) >= 0 {
                        assert(m[member_pos(m, key@)].0 == key@);
                    }
                }
                None
            },
            _ => None,
        }
    }

    /// The value of the first member named `key`, when `self` is an object that has one.
    pub fn get(&self, key: &str) -> (r: Option<&Json>)
        ensures
            match r {
                Some(v) => self@.field(key@) == Some(v@),
                None => self@.field(key@) is None,
            },
    {
        match self.member_index(key) {
            Some(i) => {
                let v = match self {
                    Json::Object(v) => v,
                    _ => {
                        return None;
                    },
                };
                proof {
                    lemma_object_view(self);
                    lemma_member_pos_range(self@->Object_0, key@);
                }
                Some(&v[i].1)
            },
            None => None,
        }
    }

    /// The value of the first member named `key`, taken out of an object
    /// that has one.
    pub fn into_member(self, key: &str) -> (r: Option<Json>)
        ensures
            match r {
                Some(v) => self@.field(key@) == Some(v@),
                None => self@.field(key@) is None,
            },
    {
        let ghost before = self@;
        let found = self.member_index(key);
        proof {
            if self is Object {
                lemma_object_view(&self);
                lemma_member_pos_range(self@->Object_0, key@);
            }
        }
        match found {
            Some(i) => match self {
                Json::Object(mut v) => {
                    let (_, value) = v.remove(i);
                    Some(value)
                },
                _ => None,
            },
            None => None,
        }
    }

    /// The text of a string value.
    pub fn as_str(&self) -> (r: Option<&String>)
        ensures
            match r {
                Some(s) => self@ == JsonModel::Str(s@),
                None => !(self@ is Str),
            },
    {
        match self {
            Json::Str(s) => Some(s),
            _ => None,
        }
    }

    /// The number as a `u64`, when it is a non-negative integer written without exponent.
    pub fn as_u64(&self) -> (r: Option<u64>)
        ensures
            r == self@.as_u64(),
    {
        match self {
            Json::Number { positive, mantissa, exponent } => {
                if *positive && *exponent == 0 {
                    Some(*mantissa)
                } else {
                    None
                }
            },
            _ => None,
        }
    }

    pub fn is_null(&self) -> (r: bool)
        ensures
            r == (self@ is Null),
    {
        match self {
            Json::Null => true,
            _ => false,
        }
    }

    /// The document that a JSON text holds, `None` where it is not JSON or
    /// holds a run of more than `MAX_DIGIT_RUN` digits.
    pub fn parse(text: &str) -> (r: Option<Json>)
        ensures
            match r {
                Some(j) => json_of_text(text@) == Some(j@),
                None => json_of_text(text@) is None,
            },
    {
        if !has_short_digit_runs(text) {
            return None;
        }
        parse_json(text)
    }

    /// The compact JSON text of this document.
    pub fn dump(&self) -> (r: String)
        ensures
            r@ == json_text(self@),
    {
        dump_json(self)
    }

    /// A string value holding a copy of `s`.
    pub fn from_str(s: &str) -> (r: Json)
        ensures
            r@ == JsonModel::Str(s@),
    {
        Json::Str(s.to_owned())
    }

    /// The number `n`, written without exponent.
    pub fn from_u64(n: u64) -> (r: Json)
        ensures
            r@ == JsonModel::Number(true, n, 0),
    {
        Json::Number { positive: true, mantissa: n, exponent: 0 }
    }
}

proof fn lemma_member_pos_prefix(m: Seq<(Seq<char>, JsonModel)>, key: Seq<char>, i: int)
    requires
        0 <= i < m.len(),
        m[i].0 == key,
        forall|j: int| 0 <= j < i ==> m[j].0 != key,
    ensures
        member_pos(m, key) == i,
    decreases m.len(),
{
    if i < m.len() - 1 {
        lemma_member_pos_prefix(m.drop_last(), key, i);
        assert(member_pos(m.drop_last(), key) == i);
    } else {
        lemma_member_pos_range(m.drop_last(), key);
        assert forall|j: int| 0 <= j < m.len() - 1 implies m.drop_last()[j].0 != key by {}
    }
}

/// What `json::parse` makes of a text: `None` where the text is not JSON.
pub uninterp spec fn parsed_json(text: Seq<char>) -> Option<JsonModel>;

/// The text that `json::JsonValue::dump` writes for a value.
pub uninterp spec fn json_text(v: JsonModel) -> Seq<char>;

/// The longest run of consecutive ASCII digits handed to the json crate's
/// parser. It lowers an `i16` exponent once per digit of a fraction, without
/// a check, so a fraction of more digits would overflow it.
pub const MAX_DIGIT_RUN: usize = 32767;

/// The length of the run of ASCII digits that ends a text.
pub open spec fn trailing_digits(s: Seq<char>) -> nat
    decreases s.len(),
{
    if s.len() > 0 && '0' <= s.last() <= '9' {
        1 + trailing_digits(s.drop_last())
    } else {
        0
    }
}

/// Whether no run of consecutive ASCII digits in a text is longer than
/// `MAX_DIGIT_RUN`.
pub open spec fn short_digit_runs(s: Seq<char>) -> bool
    decreases s.len(),
{
    s.len() == 0 || (short_digit_runs(s.drop_last()) && trailing_digits(s) <= MAX_DIGIT_RUN)
}

/// The document that a text holds: `None` where a run of digits in it is
/// longer than `MAX_DIGIT_RUN`, or the parser rejects it.
pub open spec fn json_of_text(text: Seq<char>) -> Option<JsonModel> {
    if short_digit_runs(text) {
        parsed_json(text)
    } else {
        None
    }
}

/// Whether no run of digits in `text` is longer than `MAX_DIGIT_RUN`.
pub fn has_short_digit_runs(text: &str) -> (r: bool)
    ensures
        r == short_digit_runs(text@),
{
    let n = text.unicode_len();
    let mut run: usize = 0;
    let mut i: usize = 0;
    assert(text@.subrange(0, 0) =~= Seq::<char>::empty());
    while i < n
        invariant
            n == text@.len(),
            i <= n,
            run as nat == trailing_digits(text@.subrange(0, i as int)),
            run <= MAX_DIGIT_RUN,
            short_digit_runs(text@.subrange(0, i as int)),
        decreases n - i,
    {
        let c = text.get_char(i);
        let ghost next = text@.subrange(0, i as int + 1);
        assert(next.drop_last() =~= text@.subrange(0, i as int));
        assert(next.last() == c);
        if '0' <= c && c <= '9' {
            if run == MAX_DIGIT_RUN {
                proof {
                    lemma_short_digit_runs_prefix(text@, i as int + 1);
                }
                return false;
            }
            run = run + 1;
        } else {
            run = 0;
        }
        i = i + 1;
    }
    assert(text@.subrange(0, n as int) =~= text@);
    true
}

/// A text whose prefix has a long run of digits has one too.
proof fn lemma_short_digit_runs_prefix(s: Seq<char>, k: int)
    requires
        0 <= k <= s.len(),
        !short_digit_runs(s.subrange(0, k)),
    ensures
        !short_digit_runs(s),
    decreases s.len() - k,
{
    if k < s.len() {
        let next = s.subrange(0, k + 1);
        assert(next.drop_last() =~= s.subrange(0, k));
        lemma_short_digit_runs_prefix(s, k + 1);
    } else {
        assert(s.subrange(0, k) =~= s);
    }
}

/// Relies on `json::parse`: the document that a text holds, or `None` where
/// the parser rejects it. Texts with a run of more than `MAX_DIGIT_RUN`
/// digits are left out: on a fraction that long the parser's exponent
/// overflows.
#[verifier::external_body]
pub(crate) fn parse_json(text: &str) -> (r: Option<Json>)
    requires
        short_digit_runs(text@),
    ensures
        match r {
            Some(j) => parsed_json(text@) == Some(j@),
            None => parsed_json(text@) is None,
        },
{
    match json::parse(text) {
        Ok(v) => Some(from_value(&v)),
        Err(_) => None,
    }
}

/// Relies on `json::JsonValue::dump`: the compact JSON text of a value.
#[verifier::external_body]
pub(crate) fn dump_json(j: &Json) -> (r: String)
    ensures
        r@ == json_text(j@),
{
    into_value(j).dump()
}

/// The json crate's document value, carried through the converters below.
#[verifier::external_type_specification]
#[verifier::external_body]
pub struct ExJsonValue(json::JsonValue);

/// Relies on the json crate's `JsonValue` variants, `Number::as_parts` and
/// `Object::iter`: converts a parsed value into a `Json`, variant by variant,
/// members in their order. Only `parse_json` calls it.
#[verifier::external_body]
fn from_value(v: &json::JsonValue) -> Json {
    match v {
        json::JsonValue::Null => Json::Null,
        json::JsonValue::Boolean(b) => Json::Bool(*b),
        json::JsonValue::Number(n) => {
            let (positive, mantissa, exponent) = n.as_parts();
            Json::Number { positive, mantissa, exponent }
        },
        json::JsonValue::Short(s) => Json::Str(s.as_str().to_string()),
        json::JsonValue::String(s) => Json::Str(s.clone()),
        json::JsonValue::Array(a) => Json::Array(a.iter().map(from_value).collect()),
        json::JsonValue::Object(o) => Json::Object(o.iter().map(|(k, x)| (k.to_string(), from_value(x))).collect()),
    }
}

/// Relies on the json crate's `JsonValue` variants, `Number::from_parts` and
/// the collection of pairs into an `Object`: converts a `Json` into a value
/// to dump, variant by variant. Only `dump_json` calls it.
#[verifier::external_body]
fn into_value(j: &Json) -> json::JsonValue {
    match j {
        Json::Null => json::JsonValue::Null,
        Json::Bool(b) => json::JsonValue::Boolean(*b),
        Json::Number { positive, mantissa, exponent } => json::JsonValue::Number(json::number::Number::from_parts(*positive, *mantissa, *exponent)),
        Json::Str(s) => json::JsonValue::String(s.clone()),
        Json::Array(a) => json::JsonValue::Array(a.iter().map(into_value).collect()),
        Json::Object(o) => json::JsonValue::Object(o.iter().map(|(k, x)| (k.as_str(), into_value(x))).collect()),
    }
}

} // verus!
