//! JSON documents: what a `serde_json` value holds, and the calls into
//! `serde_json` and `jsonc_parser` that the library makes.

use vstd::prelude::*;

use crate::comments::comment_free;
use crate::comments::ends_between_tokens;
use crate::comments::is_literal;
use crate::comments::nesting;
use crate::comments::quoted;
use crate::comments::stripped;
use crate::text::integer_text;
use crate::text::lists_in_order;
use crate::text::texts;

verus! {

/// `serde_json::Value`, a JSON document.
#[verifier::external_type_specification]
#[verifier::external_body]
pub struct ExValue(serde_json::Value);

/// `serde_json::Map`, the members of a JSON object.
#[verifier::external_type_specification]
#[verifier::external_body]
#[verifier::reject_recursive_types(K)]
#[verifier::reject_recursive_types(V)]
pub struct ExObject<K, V>(serde_json::Map<K, V>);

/// `serde_json::Number`, a JSON number.
#[verifier::external_type_specification]
#[verifier::external_body]
pub struct ExNumber(serde_json::Number);

/// `serde_json::Error`, why a text is not JSON.
#[verifier::external_type_specification]
#[verifier::external_body]
pub struct ExError(serde_json::Error);

/// `jsonc_parser::errors::ParseError`, why a text is not JSON with comments.
#[verifier::external_type_specification]
#[verifier::external_body]
pub struct ExParseError(jsonc_parser::errors::ParseError);

/// What a JSON document holds.
#[verifier::ext_equal]
pub enum Json {
    Null,
    Bool(bool),
    Integer(int),
    Float(serde_json::Number),
    Text(Seq<char>),
    Array(Seq<Json>),
    Object(Map<Seq<char>, Json>),
}

/// What a `serde_json::Value` holds.
pub uninterp spec fn json(value: serde_json::Value) -> Json;

/// What a `serde_json::Map` holds.
pub uninterp spec fn entries(map: serde_json::Map<String, serde_json::Value>) -> Map<Seq<char>, Json>;

/// Whether `serde_json` takes two floating point numbers for equal.
pub uninterp spec fn floats_equal(a: serde_json::Number, b: serde_json::Number) -> bool;

/// Whether two documents are equal: the same shape, and equal leaves.
pub open spec fn json_equal(a: Json, b: Json) -> bool
    decreases a,
{
    match (a, b) {
        (Json::Null, Json::Null) => true,
        (Json::Bool(x), Json::Bool(y)) => x == y,
        (Json::Integer(x), Json::Integer(y)) => x == y,
        (Json::Float(x), Json::Float(y)) => floats_equal(x, y),
        (Json::Text(x), Json::Text(y)) => x == y,
        (Json::Array(x), Json::Array(y)) => {
            &&& x.len() == y.len()
            &&& forall|i: int| 0 <= i < x.len() ==> json_equal(#[trigger] x[i], y[i])
        },
        (Json::Object(x), Json::Object(y)) => {
            &&& x.dom() == y.dom()
            &&& forall|key: Seq<char>| #[trigger] x.dom().contains(key) ==> json_equal(x[key], y[key])
        },
        _ => false,
    }
}

/// `==` on two `serde_json::Value`s compares what they hold, leaf by leaf. Of
/// two floating point numbers it says whether `serde_json` takes them for equal;
/// no number is unequal to itself.
#[verifier::external_body]
pub(crate) fn values_equal(a: &serde_json::Value, b: &serde_json::Value) -> (equal: bool)
    ensures
        equal == json_equal(json(*a), json(*b)),
        json(*a) == json(*b) ==> equal,
        json(*a) matches Json::Float(x) ==> (json(*b) matches Json::Float(y) ==> equal
            == floats_equal(x, y)),
{
    a == b
}

/// `Value::get` with a string: the member of that name, if the value is an
/// object that has it.
#[verifier::external_body]
pub(crate) fn value_get<'a>(value: &'a serde_json::Value, key: &str) -> (member: Option<
    &'a serde_json::Value,
>)
    ensures
        match member {
            Some(item) => json(*value) matches Json::Object(members) && members.dom().contains(key@)
                && json(*item) == members[key@],
            None => json(*value) matches Json::Object(members) ==> !members.dom().contains(key@),
        },
{
    value.get(key)
}

/// `Value::get_mut` with a string: the member of that name, for writing.
#[verifier::external_body]
pub(crate) fn value_get_mut<'a>(value: &'a mut serde_json::Value, key: &str) -> (member: Option<
    &'a mut serde_json::Value,
>)
    ensures
        match member {
            Some(item) => json(*old(value)) matches Json::Object(members) && members.dom().contains(
                key@,
            ) && json(*item) == members[key@] && json(*final(value)) == Json::Object(
                members.insert(key@, json(*final(item))),
            ),
            None => json(*final(value)) == json(*old(value)) && (json(*old(value)) matches Json::Object(
                members,
            ) ==> !members.dom().contains(key@)),
        },
{
    value.get_mut(key)
}

/// `Value::as_object_mut`: the members of a value that is an object.
pub assume_specification[ serde_json::Value::as_object_mut ](
    value: &mut serde_json::Value,
) -> (members: Option<&mut serde_json::Map<String, serde_json::Value>>)
    ensures
        match members {
            Some(map) => json(*old(value)) == Json::Object(entries(*map)) && json(*final(value))
                == Json::Object(entries(*final(map))),
            None => json(*final(value)) == json(*old(value)) && !(json(*old(value)) is Object),
        },
;

/// `Value::as_object`: the members of a value that is an object.
pub assume_specification[ serde_json::Value::as_object ](value: &serde_json::Value) -> (members:
    Option<&serde_json::Map<String, serde_json::Value>>)
    ensures
        match members {
            Some(map) => json(*value) == Json::Object(entries(*map)),
            None => !(json(*value) is Object),
        },
;

/// `Value::is_object`.
pub assume_specification[ serde_json::Value::is_object ](value: &serde_json::Value) -> (result: bool)
    ensures
        result == (json(*value) is Object),
;

/// `Value::is_null`.
pub assume_specification[ serde_json::Value::is_null ](value: &serde_json::Value) -> (result: bool)
    ensures
        result == (json(*value) is Null),
;

/// What the values of a list hold, one by one.
pub open spec fn items(values: Seq<serde_json::Value>) -> Seq<Json> {
    values.map_values(|value: serde_json::Value| json(value))
}

/// `Value::as_array_mut`: the items of a value that is an array.
pub assume_specification[ serde_json::Value::as_array_mut ](
    value: &mut serde_json::Value,
) -> (list: Option<&mut Vec<serde_json::Value>>)
    ensures
        match list {
            Some(values) => json(*old(value)) == Json::Array(items(values@)) && json(*final(value))
                == Json::Array(items(final(values)@)),
            None => json(*final(value)) == json(*old(value)) && !(json(*old(value)) is Array),
        },
;

/// `Value::as_str`: the text of a value that is a string.
pub assume_specification[ serde_json::Value::as_str ](value: &serde_json::Value) -> (text: Option<
    &str,
>)
    ensures
        match text {
            Some(chars) => json(*value) == Json::Text(chars@),
            None => !(json(*value) is Text),
        },
;

/// Whether a string key can be assigned to: an object takes it, and null counts
/// as an empty object.
pub open spec fn takes_keys(document: Json) -> bool {
    document is Object || document is Null
}

/// The members of a document that takes keys.
pub open spec fn members_of(document: Json) -> Map<Seq<char>, Json> {
    match document {
        Json::Object(members) => members,
        _ => no_members(),
    }
}

/// `value[key] = item`, by `IndexMut` for `serde_json::Value`: the member is
/// added or replaced, and null becomes an object. On any other value the
/// assignment panics.
#[verifier::external_body]
pub(crate) fn assign_member(value: &mut serde_json::Value, key: &str, item: serde_json::Value)
    requires
        takes_keys(json(*old(value))),
    ensures
        json(*final(value)) == Json::Object(
            members_of(json(*old(value))).insert(key@, json(item)),
        ),
{
    value[key] = item;
}

/// `Value::String`, a value that is a string.
#[verifier::external_body]
pub(crate) fn text_value(text: String) -> (value: serde_json::Value)
    ensures
        json(value) == Json::Text(text@),
{
    serde_json::Value::String(text)
}

/// `Value::Array`, a value that is an array.
#[verifier::external_body]
pub(crate) fn array_value(list: Vec<serde_json::Value>) -> (value: serde_json::Value)
    ensures
        json(value) == Json::Array(items(list@)),
{
    serde_json::Value::Array(list)
}

/// `Value::Object`, a value that is an object.
#[verifier::external_body]
pub(crate) fn object_value(map: serde_json::Map<String, serde_json::Value>) -> (value:
    serde_json::Value)
    ensures
        json(value) == Json::Object(entries(map)),
{
    serde_json::Value::Object(map)
}

/// `Value::clone` copies what the value holds.
pub assume_specification[ <serde_json::Value as Clone>::clone ](value: &serde_json::Value) -> (copy:
    serde_json::Value)
    ensures
        json(copy) == json(*value),
;

/// The members of an empty object.
pub open spec fn no_members() -> Map<Seq<char>, Json> {
    Map::empty()
}

/// `Map::new`: no member.
pub assume_specification[ serde_json::Map::<String, serde_json::Value>::new ]() -> (map:
    serde_json::Map<String, serde_json::Value>)
    ensures
        entries(map) == no_members(),
;

/// `Map::insert` adds or replaces a member, and hands out the value that it had.
pub assume_specification[ serde_json::Map::<String, serde_json::Value>::insert ](
    map: &mut serde_json::Map<String, serde_json::Value>,
    key: String,
    value: serde_json::Value,
) -> (previous: Option<serde_json::Value>)
    ensures
        entries(*final(map)) == entries(*old(map)).insert(key@, json(value)),
        match previous {
            Some(item) => entries(*old(map)).dom().contains(key@) && json(item) == entries(
                *old(map),
            )[key@],
            None => !entries(*old(map)).dom().contains(key@),
        },
;

/// `Map::get`: the member of that name.
#[verifier::external_body]
pub(crate) fn map_get<'a>(
    map: &'a serde_json::Map<String, serde_json::Value>,
    key: &str,
) -> (member: Option<&'a serde_json::Value>)
    ensures
        match member {
            Some(item) => entries(*map).dom().contains(key@) && json(*item) == entries(*map)[key@],
            None => !entries(*map).dom().contains(key@),
        },
{
    map.get(key)
}

/// `Map::remove` takes a member away, and hands out the value that it had.
#[verifier::external_body]
pub(crate) fn map_remove(map: &mut serde_json::Map<String, serde_json::Value>, key: &str) -> (removed:
    Option<serde_json::Value>)
    ensures
        entries(*final(map)) == entries(*old(map)).remove(key@),
        match removed {
            Some(item) => entries(*old(map)).dom().contains(key@) && json(item) == entries(
                *old(map),
            )[key@],
            None => !entries(*old(map)).dom().contains(key@),
        },
{
    map.remove(key)
}

/// `Map::keys`: the names of the members, each once, in the order of their
/// characters, as they come from the `BTreeMap` behind a `Map` when the feature
/// `preserve_order` is off.
#[verifier::external_body]
pub(crate) fn map_keys(map: &serde_json::Map<String, serde_json::Value>) -> (keys: Vec<String>)
    ensures
        lists_in_order(texts(keys@), entries(*map).dom()),
{
    map.keys().cloned().collect()
}

/// `Map::clone` copies the members.
pub assume_specification[ <serde_json::Map<String, serde_json::Value> as Clone>::clone ](
    map: &serde_json::Map<String, serde_json::Value>,
) -> (copy: serde_json::Map<String, serde_json::Value>)
    ensures
        entries(copy) == entries(*map),
;

/// How deep arrays and objects may be nested in a text that `serde_json` reads.
pub const NESTING_LIMIT: u64 = 127;

/// Whether arrays and objects are nested at most `depth` deep in a document.
pub open spec fn nested_within(document: Json, depth: nat) -> bool
    decreases depth,
{
    match document {
        Json::Array(list) => depth > 0 && forall|i: int|
            0 <= i < list.len() ==> nested_within(#[trigger] list[i], (depth - 1) as nat),
        Json::Object(members) => depth > 0 && forall|key: Seq<char>| #[trigger]
            members.dom().contains(key) ==> nested_within(members[key], (depth - 1) as nat),
        _ => true,
    }
}

/// What `serde_json` reads from a text: the document, or the message of the
/// error.
pub uninterp spec fn parsed(text: Seq<char>) -> Result<Json, Seq<char>>;

/// The message of a `serde_json::Error`, as its `Display` writes it.
pub uninterp spec fn error_text(error: serde_json::Error) -> Seq<char>;

/// Whether `serde_json` reads `document` from `text`.
pub open spec fn reads_as(text: Seq<char>, document: Json) -> bool {
    parsed(text) == Ok::<Json, Seq<char>>(document)
}

/// Whether the value of the member `key` of an object with these members is read
/// from the place between `before` and `after`, outside of string literals: null
/// there gives null, and true gives true.
pub open spec fn value_stands(
    before: Seq<char>,
    key: Seq<char>,
    after: Seq<char>,
    members: Map<Seq<char>, Json>,
) -> bool {
    &&& ends_between_tokens(before)
    &&& reads_as(before + "null"@ + after, Json::Object(members.insert(key, Json::Null)))
    &&& reads_as(before + "true"@ + after, Json::Object(members.insert(key, Json::Bool(true))))
}

/// Whether a character is white space in JSON.
pub open spec fn is_space(c: char) -> bool {
    c == ' ' || c == '\n' || c == '\t' || c == '\r'
}

/// Whether `s` begins with a colon, but for white space before it.
pub open spec fn begins_with_colon(s: Seq<char>) -> bool
    decreases s.len(),
{
    s.len() > 0 && (s[0] == ':' || (is_space(s[0]) && begins_with_colon(s.skip(1))))
}

/// Whether `s`, which begins in an object, names a member `key` of it: a string
/// literal that is read as that name stands there before a colon, in as many
/// brackets and braces as `s` begins in.
pub open spec fn names_member(s: Seq<char>, key: Seq<char>) -> bool {
    exists|before: Seq<char>, literal: Seq<char>, after: Seq<char>|
        s == #[trigger] (before + literal + after) && ends_between_tokens(before) && nesting(before)
            == 0 && is_literal(literal) && begins_with_colon(after) && reads_as(
            literal,
            Json::Text(key),
        )
}

/// Whether a value between the name of a member with its separator and `after`
/// stands for that member of the outermost object: the name stands in one brace,
/// outside of string literals, what follows ends the value, and the member is not
/// named again.
pub open spec fn stands_as_member(
    before: Seq<char>,
    key: Seq<char>,
    separator: Seq<char>,
    after: Seq<char>,
) -> bool {
    &&& ends_between_tokens(before)
    &&& nesting(before) == 1
    &&& is_literal(quoted(key))
    &&& !key.contains('\\')
    &&& separator == seq![':'] || separator == seq![':', ' ']
    &&& after.len() > 0
    &&& is_space(after[0]) || after[0] == ',' || after[0] == '}'
    &&& !names_member(after, key)
}

/// Whether the members of a document are read from where they stand in a text.
pub open spec fn members_are_read(text: Seq<char>, document: Json) -> bool {
    document is Object ==> forall|
        before: Seq<char>,
        key: Seq<char>,
        separator: Seq<char>,
        value: Seq<char>,
        after: Seq<char>,
    | #[trigger]
        stands_as_member(before, key, separator, after) && #[trigger] parsed(value) is Ok && text
            == before + quoted(key) + separator + value + after ==> value_stands(
            before + quoted(key) + separator,
            key,
            after,
            members_of(document),
        )
}

/// `serde_json::from_str`, for a `Value`. What the grammar accepts is left to
/// the name `parsed`; a document that is read is not nested deeper than the limit.
/// A text that is read has slashes in string literals only, so it holds no
/// comment. The value of a member of an object is read from where it stands in the
/// text, and another value there is read in its place; of members of one name the
/// last counts.
#[verifier::external_body]
pub(crate) fn parse_text(text: &str) -> (result: Result<serde_json::Value, serde_json::Error>)
    ensures
        match result {
            Ok(value) => parsed(text@) == Ok::<Json, Seq<char>>(json(value)),
            Err(error) => parsed(text@) == Err::<Json, Seq<char>>(error_text(error)),
        },
        result matches Ok(value) ==> nested_within(json(value), NESTING_LIMIT as nat),
        result is Ok ==> comment_free(text@),
        result matches Ok(value) ==> members_are_read(text@, json(value)),
{
    serde_json::from_str(text)
}

/// The message of a `serde_json::Error`, by its `Display`.
#[verifier::external_body]
pub(crate) fn error_message(error: &serde_json::Error) -> (message: String)
    ensures
        message@ == error_text(*error),
{
    format!("{}", error)
}

/// The text that `serde_json` writes for a document on one line.
pub uninterp spec fn compact_text(document: Json) -> Seq<char>;

/// The text that `serde_json` writes for a document over several lines.
pub uninterp spec fn pretty_text(document: Json) -> Seq<char>;

/// Whether a document is neither an array nor an object.
pub open spec fn is_leaf(document: Json) -> bool {
    !(document is Array || document is Object)
}

/// `serde_json::to_string`, for a `Value`. It succeeds: serialising a `Value`
/// into a string has no way to fail. An integer is written in decimal. Only
/// arrays and objects are written in another way over several lines. As there, the
/// text holds no comment, ends outside of literals, and is read as the document.
#[verifier::external_body]
pub(crate) fn write_compact(value: &serde_json::Value) -> (result: Result<
    String,
    serde_json::Error,
>)
    ensures
        result is Ok,
        result->Ok_0@ == compact_text(json(*value)),
        json(*value) matches Json::Integer(n) ==> result->Ok_0@ == integer_text(n),
        is_leaf(json(*value)) ==> result->Ok_0@ == pretty_text(json(*value)),
        comment_free(result->Ok_0@),
        ends_between_tokens(result->Ok_0@),
        gives_back(result->Ok_0@, json(*value)),
{
    serde_json::to_string(value)
}

/// Whether `later` is a document as it is once it was written and read: the same,
/// but for its floating point numbers, each of which is the one that is read from
/// its own text. That can be another number: without the feature
/// `float_roundtrip` the last digit may change.
pub open spec fn reread(document: Json, later: Json) -> bool
    decreases document,
{
    match (document, later) {
        (Json::Float(_), Json::Float(_)) => reads_as(compact_text(document), later),
        (Json::Array(x), Json::Array(y)) => {
            &&& x.len() == y.len()
            &&& forall|i: int| 0 <= i < x.len() ==> reread(#[trigger] x[i], y[i])
        },
        (Json::Object(x), Json::Object(y)) => {
            &&& x.dom() == y.dom()
            &&& forall|key: Seq<char>| #[trigger] x.dom().contains(key) ==> reread(x[key], y[key])
        },
        (Json::Float(_), _) => false,
        _ => document == later,
    }
}

/// Whether a document is read as it was from the text that is written for it: it
/// is nested at most `depth` deep, and its floating point numbers are read as
/// they were.
pub open spec fn survives_text(document: Json, depth: nat) -> bool {
    nested_within(document, depth) && reread(document, document)
}

/// Whether a document is read from a text, with its floating point numbers as they
/// are read.
pub open spec fn reads_again(text: Seq<char>, document: Json) -> bool {
    exists|later: Json| #[trigger] reread(document, later) && reads_as(text, later)
}

/// Whether a text gives a document back, unless it is nested too deep.
pub open spec fn gives_back(text: Seq<char>, document: Json) -> bool {
    nested_within(document, NESTING_LIMIT as nat) ==> reads_again(text, document)
}

/// Whether an object with these members is read from a text, but for the member
/// `key`, which is `value`, with its floating point numbers as they are read.
pub open spec fn reads_with(
    text: Seq<char>,
    members: Map<Seq<char>, Json>,
    key: Seq<char>,
    value: Json,
) -> bool {
    exists|later: Json| #[trigger]
        reread(value, later) && reads_as(text, Json::Object(members.insert(key, later)))
}

/// Whether a text, in the place of the value of a member of an object, makes the
/// document the value of that member, unless it is nested too deep.
pub open spec fn gives_back_in_place(text: Seq<char>, document: Json) -> bool {
    nested_within(document, (NESTING_LIMIT - 1) as nat) ==> forall|
        before: Seq<char>,
        key: Seq<char>,
        after: Seq<char>,
        members: Map<Seq<char>, Json>,
    | #[trigger]
        value_stands(before, key, after, members) ==> reads_with(
            before + text + after,
            members,
            key,
            document,
        )
}

/// `serde_json::to_string_pretty`, for a `Value`. It succeeds: serialising a
/// `Value` into a string has no way to fail. An integer is written in decimal, and
/// only arrays and objects are written in another way on one line. The text has
/// slashes in string literals only, and closes the literals that it opens, so it
/// holds no comment and ends outside of literals. `serde_json` reads the document
/// from it again, and does so too where the text stands for the value of a member
/// of an object, which is one level deeper. A floating point number is read as one,
/// if not as the same: the largest finite number is not read as out of range, and
/// the parser's product of digits and power of ten is no larger for the others.
#[verifier::external_body]
pub(crate) fn write_pretty(value: &serde_json::Value) -> (result: Result<
    String,
    serde_json::Error,
>)
    ensures
        result is Ok,
        result->Ok_0@ == pretty_text(json(*value)),
        json(*value) matches Json::Integer(n) ==> result->Ok_0@ == integer_text(n),
        is_leaf(json(*value)) ==> result->Ok_0@ == compact_text(json(*value)),
        comment_free(result->Ok_0@),
        ends_between_tokens(result->Ok_0@),
        gives_back(result->Ok_0@, json(*value)),
        gives_back_in_place(result->Ok_0@, json(*value)),
{
    serde_json::to_string_pretty(value)
}

/// What is nested within one depth is nested within the next.
pub(crate) proof fn lemma_nested_deeper(document: Json, depth: nat)
    requires
        nested_within(document, depth),
    ensures
        nested_within(document, depth + 1),
    decreases depth,
{
    match document {
        Json::Array(list) => {
            assert forall|i: int| 0 <= i < list.len() implies nested_within(
                #[trigger] list[i],
                depth,
            ) by {
                lemma_nested_deeper(list[i], (depth - 1) as nat);
            }
        },
        Json::Object(members) => {
            assert forall|key: Seq<char>| #[trigger] members.dom().contains(key) implies nested_within(
                members[key],
                depth,
            ) by {
                lemma_nested_deeper(members[key], (depth - 1) as nat);
            }
        },
        _ => {},
    }
}

/// A document is reread in one way.
pub(crate) proof fn lemma_reread_is_unique(document: Json, a: Json, b: Json)
    requires
        reread(document, a),
        reread(document, b),
    ensures
        a == b,
    decreases document,
{
    match document {
        Json::Array(list) => {
            let x = a->Array_0;
            let y = b->Array_0;
            assert forall|i: int| 0 <= i < x.len() implies x[i] == y[i] by {
                assert(reread(list[i], x[i]) && reread(list[i], y[i]));
                lemma_reread_is_unique(list[i], x[i], y[i]);
            }
            assert(x == y);
        },
        Json::Object(members) => {
            let x = a->Object_0;
            let y = b->Object_0;
            assert forall|key: Seq<char>| #[trigger] x.dom().contains(key) implies x[key] == y[key] by {
                assert(members.dom().contains(key));
                lemma_reread_is_unique(members[key], x[key], y[key]);
            }
            assert(x == y);
        },
        _ => {},
    }
}

/// A member that is read as it was is the same in the object that is read.
pub(crate) proof fn lemma_reread_member(
    members: Map<Seq<char>, Json>,
    later: Json,
    key: Seq<char>,
)
    requires
        reread(Json::Object(members), later),
        members.dom().contains(key),
        reread(members[key], members[key]),
    ensures
        later is Object,
        members_of(later).dom() == members.dom(),
        members_of(later)[key] == members[key],
{
    lemma_reread_is_unique(members[key], members_of(later)[key], members[key]);
}

/// What `jsonc_parser` reads from a text: the document, nothing where the text
/// holds none, or the error as its `Debug` writes it.
pub uninterp spec fn jsonc_parsed(text: Seq<char>) -> Result<Option<Json>, Seq<char>>;

/// A `jsonc_parser` error, as its `Debug` writes it.
pub uninterp spec fn jsonc_error_text(error: jsonc_parser::errors::ParseError) -> Seq<char>;

/// The names of the members of a document that is an object.
pub open spec fn member_names(document: Json) -> Option<Set<Seq<char>>> {
    match document {
        Json::Object(members) => Some(members.dom()),
        _ => None,
    }
}

/// Whether two documents are the same but for what stands in arrays.
pub open spec fn same_outside_arrays(a: Json, b: Json) -> bool
    decreases a,
{
    match (a, b) {
        (Json::Array(_), Json::Array(_)) => true,
        (Json::Object(x), Json::Object(y)) => {
            &&& x.dom() == y.dom()
            &&& forall|key: Seq<char>| #[trigger]
                x.dom().contains(key) ==> same_outside_arrays(x[key], y[key])
        },
        _ => a == b,
    }
}

/// `jsonc_parser::parse_to_serde_value`, with the default options. What the
/// grammar accepts is left to the name `jsonc_parsed`. The parser calls itself
/// once for each level of nesting, without a limit, so it is only for texts that
/// the strict parser, which has one, accepts once their comments are stripped. Of
/// such a text both read the same, but for what stands in arrays: two numbers with
/// a comment between them become one when it is stripped, and this parser takes
/// them for two items. Outside of arrays it refuses them.
#[verifier::external_body]
pub(crate) fn parse_jsonc(text: &str) -> (result: Result<
    Option<serde_json::Value>,
    jsonc_parser::errors::ParseError,
>)
    requires
        parsed(stripped(text@)) is Ok,
    ensures
        match result {
            Ok(Some(value)) => jsonc_parsed(text@) == Ok::<Option<Json>, Seq<char>>(
                Some(json(value)),
            ),
            Ok(None) => jsonc_parsed(text@) == Ok::<Option<Json>, Seq<char>>(None),
            Err(error) => jsonc_parsed(text@) == Err::<Option<Json>, Seq<char>>(
                jsonc_error_text(error),
            ),
        },
        result matches Ok(Some(value)) ==> same_outside_arrays(
            parsed(stripped(text@))->Ok_0,
            json(value),
        ),
{
    jsonc_parser::parse_to_serde_value(text, &jsonc_parser::ParseOptions::default())
}

/// A `jsonc_parser` error, by its `Debug`.
#[verifier::external_body]
pub(crate) fn jsonc_error_message(error: &jsonc_parser::errors::ParseError) -> (message: String)
    ensures
        message@ == jsonc_error_text(*error),
{
    format!("{:?}", error)
}

} // verus!
