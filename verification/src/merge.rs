//! Writing a changed document over the text it was read from, so that comments
//! and formatting survive where they can.

use vstd::prelude::*;

use crate::comments::comment_free;
use crate::comments::ends_between_tokens;
use crate::comments::is_literal;
use crate::comments::law_comment_free_is_unchanged;
use crate::comments::law_stripping_goes_part_by_part;
use crate::comments::lemma_ends_joined;
use crate::comments::lemma_literal_is_whole;
use crate::comments::lemma_stripped_ends;
use crate::comments::quoted;
use crate::comments::strip_jsonc_comments;
use crate::comments::stripped;
use crate::error::AppError;
use crate::json::compact_text;
use crate::json::entries;
use crate::json::error_message;
use crate::json::gives_back;
use crate::json::gives_back_in_place;
use crate::json::is_leaf;
use crate::json::json;
use crate::json::json_equal;
use crate::json::jsonc_error_message;
use crate::json::jsonc_parsed;
use crate::json::lemma_nested_deeper;
use crate::json::lemma_reread_is_unique;
use crate::json::map_get;
use crate::json::map_keys;
use crate::json::member_names;
use crate::json::members_are_read;
use crate::json::members_of;
use crate::json::nested_within;
use crate::json::object_value;
use crate::json::parse_jsonc;
use crate::json::parse_text;
use crate::json::parsed;
use crate::json::pretty_text;
use crate::json::reads_as;
use crate::json::reads_with;
use crate::json::reread;
use crate::json::same_outside_arrays;
use crate::json::stands_as_member;
use crate::json::survives_text;
use crate::json::value_stands;
use crate::json::values_equal;
use crate::json::write_compact;
use crate::json::write_pretty;
use crate::json::Json;
use crate::json::NESTING_LIMIT;
use crate::text::chars_of;
use crate::text::find;
use crate::text::first_replaced;
use crate::text::in_order;
use crate::text::lemma_first_exists;
use crate::text::lemma_integer_text;
use crate::text::lemma_listed_is_finite;
use crate::text::lemma_listed_once;
use crate::text::lemma_order_exists;
use crate::text::lemma_order_is_unique;
use crate::text::lemma_text_less_asymmetric;
use crate::text::lemma_text_less_transitive;
use crate::text::lists_in_order;
use crate::text::occurs_at;
use crate::text::occurs_first_at;
use crate::text::occurs_in;
use crate::text::occurs_only_at;
use crate::text::splice;
use crate::text::text_less;
use crate::text::texts;

verus! {

/// A member as it stands in a text: the quoted name, not escaped, the separator
/// and the value.
pub open spec fn member_text(key: Seq<char>, separator: Seq<char>, value: Seq<char>) -> Seq<char> {
    seq!['"'] + key + seq!['"'] + separator + value
}

/// `text` with the first member `key` whose value is written `old_text` given the
/// value `new_text`. The member is looked for with nothing behind the colon, then
/// with one space. Where it stands in neither way the text is left as it is.
pub open spec fn member_replaced(
    text: Seq<char>,
    key: Seq<char>,
    old_text: Seq<char>,
    new_text: Seq<char>,
) -> Seq<char> {
    let tight = member_text(key, seq![':'], old_text);
    let spaced = member_text(key, seq![':', ' '], old_text);
    if occurs_in(text, tight) {
        first_replaced(text, tight, member_text(key, seq![':'], new_text))
    } else {
        first_replaced(text, spaced, member_text(key, seq![':', ' '], new_text))
    }
}

/// `text` with the first member `key` of value `old_value`, written on one line,
/// given the value `new_value`, written over several lines.
pub open spec fn value_replaced(
    text: Seq<char>,
    key: Seq<char>,
    old_value: Json,
    new_value: Json,
) -> Seq<char> {
    member_replaced(text, key, compact_text(old_value), pretty_text(new_value))
}

/// `text` with the members `keys` that changed replaced, one after the other.
pub open spec fn values_replaced(
    text: Seq<char>,
    keys: Seq<Seq<char>>,
    old_members: Map<Seq<char>, Json>,
    new_members: Map<Seq<char>, Json>,
) -> Seq<char>
    decreases keys.len(),
{
    if keys.len() == 0 {
        text
    } else {
        let key = keys[0];
        let next = if json_equal(old_members[key], new_members[key]) {
            text
        } else {
            value_replaced(text, key, old_members[key], new_members[key])
        };
        values_replaced(next, keys.skip(1), old_members, new_members)
    }
}

/// The text for an object that had other members: written anew where the names
/// of the members differ, else the text with the changed values replaced, in the
/// order of the names.
pub open spec fn objects_merged(
    text: Seq<char>,
    old_members: Map<Seq<char>, Json>,
    new_members: Map<Seq<char>, Json>,
) -> Seq<char> {
    if old_members.dom() == new_members.dom() {
        values_replaced(text, in_order(new_members.dom()), old_members, new_members)
    } else {
        pretty_text(Json::Object(new_members))
    }
}

/// The text for a document that was another one: the same text where nothing
/// changed, a merge of two objects, and else written anew.
pub open spec fn merged(text: Seq<char>, old_value: Json, new_value: Json) -> Seq<char> {
    if json_equal(old_value, new_value) {
        text
    } else {
        match (old_value, new_value) {
            (Json::Object(old_members), Json::Object(new_members)) => objects_merged(
                text,
                old_members,
                new_members,
            ),
            _ => pretty_text(new_value),
        }
    }
}

/// The text for a document over the text that it was read from, or why that text
/// cannot be read.
pub open spec fn comments_preserved(original: Seq<char>, document: Json) -> Result<
    Seq<char>,
    Seq<char>,
> {
    match parsed(stripped(original)) {
        Err(message) => Err("Failed to parse original: "@ + message),
        Ok(before) => if json_equal(before, document) {
            Ok(original)
        } else {
            match jsonc_parsed(original) {
                Err(message) => Err("JSONC parse error: "@ + message),
                Ok(Some(read)) if json_equal(read, document) => Ok(original),
                Ok(_) => Ok(merged(original, before, document)),
            }
        },
    }
}

/// Whether `text`, once its comments are stripped, gives `document` back.
pub open spec fn reads_back(text: Seq<char>, document: Json) -> bool {
    gives_back(stripped(text), document)
}

/// Whether the member that is replaced, the first `key` whose value is written
/// `old_text`, is the one that the value of `key` is read from, in an object with
/// these members: it stands there outside of literals and comments.
pub open spec fn replaces_the_member(
    text: Seq<char>,
    key: Seq<char>,
    old_text: Seq<char>,
    members: Map<Seq<char>, Json>,
) -> bool {
    let separator = if occurs_in(text, member_text(key, seq![':'], old_text)) {
        seq![':']
    } else {
        seq![':', ' ']
    };
    let pattern = member_text(key, separator, old_text);
    let at = choose|at: int| occurs_first_at(text, pattern, at);
    let before = text.take(at);
    let after = text.skip(at + pattern.len());
    &&& occurs_in(text, pattern)
    &&& is_literal(quoted(key))
    &&& ends_between_tokens(before)
    &&& value_stands(stripped(before) + quoted(key) + separator, key, stripped(after), members)
}

/// Whether a member stands in a text between `before` and `after`, and is the one
/// that its value is read from: the text without its comments has the member in
/// the outermost object there, once. It must stand in the text nowhere else, with
/// either separator.
pub open spec fn stands_once(
    text: Seq<char>,
    before: Seq<char>,
    key: Seq<char>,
    separator: Seq<char>,
    value: Seq<char>,
    after: Seq<char>,
) -> bool {
    &&& text == before + member_text(key, separator, value) + after
    &&& ends_between_tokens(before)
    &&& stands_as_member(stripped(before), key, separator, stripped(after))
    &&& occurs_only_at(text, member_text(key, separator, value), before.len() as int)
    &&& !occurs_in(text, member_text(key, other_separator(separator), value))
}

/// The separator that is not this one: with a space behind the colon, or without.
pub open spec fn other_separator(separator: Seq<char>) -> Seq<char> {
    if separator == seq![':'] {
        seq![':', ' ']
    } else {
        seq![':']
    }
}

/// Whether a member stands in a text once.
pub open spec fn is_written_once(text: Seq<char>, key: Seq<char>, value: Seq<char>) -> bool {
    exists|before: Seq<char>, separator: Seq<char>, after: Seq<char>|
        stands_once(text, before, key, separator, value, after)
}

/// What holds of the text that a value is looked for as: it holds no comment, ends
/// between tokens, and gives the value back.
pub open spec fn is_looked_for_well(value: Json) -> bool {
    &&& comment_free(compact_text(value))
    &&& ends_between_tokens(compact_text(value))
    &&& gives_back(compact_text(value), value)
}

/// What holds of the text that is written for a value: it holds no comment, ends
/// between tokens, and gives the value back in the place of another one.
pub open spec fn is_written_well(value: Json) -> bool {
    &&& comment_free(pretty_text(value))
    &&& ends_between_tokens(pretty_text(value))
    &&& gives_back_in_place(pretty_text(value), value)
    &&& is_leaf(value) ==> pretty_text(value) == compact_text(value)
}

/// Whether a document is read from the text in which the value of a member was
/// replaced that has the new value there, and is the same else.
pub open spec fn replaced_value_is_read(
    text: Seq<char>,
    key: Seq<char>,
    old_value: Json,
    new_value: Json,
    result: Seq<char>,
) -> bool {
    nested_within(new_value, (NESTING_LIMIT - 1) as nat) ==> forall|
        members: Map<Seq<char>, Json>,
    | #[trigger]
        replaces_the_member(text, key, compact_text(old_value), members) ==> reads_with(
            stripped(result),
            members,
            key,
            new_value,
        )
}

/// Whether a name and the text of a value cannot be taken for parts of a member:
/// neither holds a quote, the name does not begin with a colon, nor the value
/// with a space.
pub open spec fn is_unambiguous(key: Seq<char>, value: Seq<char>) -> bool {
    &&& key.len() > 0
    &&& !key.contains('"')
    &&& key[0] != ':'
    &&& value.len() > 0
    &&& !value.contains('"')
    &&& value[0] != ' '
}

/// Whether `text` holds a member `key` whose value is written `value`.
pub open spec fn holds_member(text: Seq<char>, key: Seq<char>, value: Seq<char>) -> bool {
    occurs_in(text, member_text(key, seq![':'], value)) || occurs_in(
        text,
        member_text(key, seq![':', ' '], value),
    )
}

/// Whether replacing an integer by another one, which the text does not hold,
/// can be taken back.
pub open spec fn integer_can_be_put_back(
    text: Seq<char>,
    key: Seq<char>,
    old_value: Json,
    new_value: Json,
    result: Seq<char>,
) -> bool {
    old_value is Integer && new_value is Integer && key.len() > 0 && !key.contains('"') && key[0]
        != ':' && !holds_member(text, key, compact_text(new_value)) ==> value_replaced(
        result,
        key,
        new_value,
        old_value,
    ) == text
}

/// What holds of the text for an object of which the value of one member changed:
/// that value is replaced in the text, and where the text that is replaced is the
/// one that the member is read from, the changed object is read.
pub open spec fn one_change_is_read(
    text: Seq<char>,
    old_members: Map<Seq<char>, Json>,
    new_members: Map<Seq<char>, Json>,
    result: Seq<char>,
) -> bool {
    forall|key: Seq<char>| #[trigger]
        old_members.dom().contains(key) && new_members == old_members.insert(key, new_members[key])
            && !json_equal(old_members[key], new_members[key]) ==> {
            &&& result == value_replaced(text, key, old_members[key], new_members[key])
            &&& replaced_value_is_read(text, key, old_members[key], new_members[key], result)
            &&& is_looked_for_well(old_members[key])
            &&& is_leaf(new_members[key]) ==> pretty_text(new_members[key]) == compact_text(
                new_members[key],
            )
        }
}

/// The members of an object with the values that changed taken over.
pub open spec fn changes_taken(
    old_members: Map<Seq<char>, Json>,
    new_members: Map<Seq<char>, Json>,
) -> Map<Seq<char>, Json> {
    Map::new(
        |key: Seq<char>| old_members.dom().contains(key),
        |key: Seq<char>|
            if json_equal(old_members[key], new_members[key]) {
                old_members[key]
            } else {
                new_members[key]
            },
    )
}

/// Whether of the members `keys` each that changed is, in its turn, replaced where
/// it is read from, in an object with the members `current`, and survives it.
pub open spec fn each_replaces_its_member(
    text: Seq<char>,
    keys: Seq<Seq<char>>,
    current: Map<Seq<char>, Json>,
    old_members: Map<Seq<char>, Json>,
    new_members: Map<Seq<char>, Json>,
) -> bool
    decreases keys.len(),
{
    if keys.len() == 0 {
        true
    } else {
        let key = keys[0];
        let old_value = old_members[key];
        let new_value = new_members[key];
        if json_equal(old_value, new_value) {
            each_replaces_its_member(text, keys.skip(1), current, old_members, new_members)
        } else {
            &&& replaces_the_member(text, key, compact_text(old_value), current)
            &&& survives_text(new_value, (NESTING_LIMIT - 1) as nat)
            &&& each_replaces_its_member(
                value_replaced(text, key, old_value, new_value),
                keys.skip(1),
                current.insert(key, new_value),
                old_members,
                new_members,
            )
        }
    }
}

/// What holds of the text for an object of which any members changed: where each
/// replacement, in its turn, replaces the member that is read, the object is read
/// with all the changes.
pub open spec fn changes_are_read(
    text: Seq<char>,
    old_members: Map<Seq<char>, Json>,
    new_members: Map<Seq<char>, Json>,
    result: Seq<char>,
) -> bool {
    old_members.dom() == new_members.dom() && reads_as(stripped(text), Json::Object(old_members))
        && each_replaces_its_member(
        text,
        in_order(new_members.dom()),
        old_members,
        old_members,
        new_members,
    ) ==> reads_as(stripped(result), Json::Object(changes_taken(old_members, new_members)))
}

/// What holds of the text for a document of which the value of one member changed
/// that stands in the text once: that value is replaced there, all else is kept,
/// comments and all, and the document is read from the text, where the value
/// survives it. A new value that is an array or an object must not be what
/// `jsonc_parser` reads there already.
pub open spec fn value_written_once_is_read(
    original: Seq<char>,
    document: Json,
    text: Seq<char>,
) -> bool {
    parsed(stripped(original)) matches Ok(old_document) ==> {
        let old_members = members_of(old_document);
        let new_members = members_of(document);
        forall|before: Seq<char>, key: Seq<char>, separator: Seq<char>, after: Seq<char>|
            document is Object && #[trigger] stands_once(
                original,
                before,
                key,
                separator,
                compact_text(old_members[key]),
                after,
            ) && old_members.dom().contains(key) && new_members == old_members.insert(
                key,
                new_members[key],
            ) && !json_equal(old_members[key], new_members[key]) && (is_leaf(new_members[key])
                || jsonc_reads_another(original, document)) ==> {
                &&& text == before + member_text(key, separator, pretty_text(new_members[key]))
                    + after
                &&& is_leaf(new_members[key]) ==> text == before + member_text(
                    key,
                    separator,
                    compact_text(new_members[key]),
                ) + after
                &&& survives_text(new_members[key], (NESTING_LIMIT - 1) as nat) ==> reads_as(
                    stripped(text),
                    document,
                )
            }
    }
}

/// Whether merging a document into the text of another one gives up that text
/// and writes the document anew: they differ in more than the values of members
/// of the same names.
pub open spec fn written_anew(old_value: Json, new_value: Json) -> bool {
    &&& !json_equal(old_value, new_value)
    &&& match (old_value, new_value) {
        (Json::Object(old_members), Json::Object(new_members)) => old_members.dom()
            != new_members.dom(),
        _ => true,
    }
}

/// Whether `jsonc_parser` can read a text, and reads something else than
/// `document` from it.
pub open spec fn jsonc_reads_another(text: Seq<char>, document: Json) -> bool {
    match jsonc_parsed(text) {
        Err(_) => false,
        Ok(Some(read)) => !json_equal(read, document),
        Ok(None) => true,
    }
}

/// Whether a document written over the text that it was read from is written
/// anew.
pub open spec fn preserving_writes_anew(original: Seq<char>, document: Json) -> bool {
    match parsed(stripped(original)) {
        Err(_) => false,
        Ok(before) => written_anew(before, document) && jsonc_reads_another(original, document),
    }
}

/// Whether a document has members of other names than the one in the text that it
/// is written over, or only one of them is an object.
pub open spec fn has_other_names(original: Seq<char>, document: Json) -> bool {
    parsed(stripped(original)) matches Ok(before) && member_names(before) != member_names(document)
}

/// Whether a member of an object got another value that is neither an array nor an
/// object.
pub open spec fn changes_a_leaf(
    old_members: Map<Seq<char>, Json>,
    new_members: Map<Seq<char>, Json>,
) -> bool {
    exists|key: Seq<char>| #[trigger]
        old_members.dom().contains(key) && new_members.dom().contains(key) && is_leaf(
            new_members[key],
        ) && !json_equal(old_members[key], new_members[key])
}

/// Whether a document and the one in the text that it is written over are merged
/// as objects: `jsonc_parser` can read the text, and does not read the document
/// from it, which it cannot where a leaf changed.
pub open spec fn merges_objects(original: Seq<char>, document: Json) -> bool {
    parsed(stripped(original)) matches Ok(before) && before is Object && document is Object
        && jsonc_parsed(original) is Ok && (jsonc_reads_another(original, document)
        || changes_a_leaf(members_of(before), members_of(document)))
}

/// A member as it stands in a text.
fn member(key: &str, separator: &str, value: &str) -> (text: String)
    ensures
        text@ == member_text(key@, separator@, value@),
{
    let mut text = String::new();
    text.push('"');
    text.append(key);
    text.push('"');
    text.append(separator);
    text.append(value);
    assert(text@ == member_text(key@, separator@, value@));
    text
}

/// `text` with the first `pattern` replaced, if it holds one.
fn replace_first(text: &str, pattern: &str, replacement: &str) -> (result: Option<String>)
    ensures
        match result {
            Some(replaced) => occurs_in(text@, pattern@) && replaced@ == first_replaced(
                text@,
                pattern@,
                replacement@,
            ),
            None => !occurs_in(text@, pattern@),
        },
{
    let chars = chars_of(text);
    let wanted = chars_of(pattern);
    match find(&chars, &wanted) {
        Some(at) => {
            proof {
                let chosen = choose|i: int| occurs_first_at(text@, pattern@, i);
                assert(occurs_first_at(text@, pattern@, at as int));
                assert(chosen == at);
            }
            Some(splice(&chars, at, wanted.len(), replacement))
        },
        None => None,
    }
}

/// Replaces the value of a member, given as text, in the text of a document. The
/// text is left as it is when the member is not found in it.
pub fn replace_member_text(text: &str, key: &str, old_text: &str, new_text: &str) -> (result: String)
    ensures
        result@ == member_replaced(text@, key@, old_text@, new_text@),
{
    proof {
        reveal_strlit(":");
        reveal_strlit(": ");
        assert(":"@ == seq![':']);
        assert(": "@ == seq![':', ' ']);
    }
    let pattern = member(key, ":", old_text);
    let replacement = member(key, ":", new_text);
    if let Some(replaced) = replace_first(text, pattern.as_str(), replacement.as_str()) {
        return replaced;
    }
    let pattern_with_space = member(key, ": ", old_text);
    let replacement_with_space = member(key, ": ", new_text);
    if let Some(replaced) = replace_first(
        text,
        pattern_with_space.as_str(),
        replacement_with_space.as_str(),
    ) {
        return replaced;
    }
    text.to_owned()
}

/// Replaces the value of a member in the text of a document. This looks for the
/// member as text, and leaves the text as it is when it does not find it.
pub fn replace_json_value(
    text: &str,
    key: &str,
    old_val: &serde_json::Value,
    new_val: &serde_json::Value,
) -> (result: Result<String, AppError>)
    ensures
        result is Ok,
        result->Ok_0@ == value_replaced(text@, key@, json(*old_val), json(*new_val)),
        is_looked_for_well(json(*old_val)),
        is_written_well(json(*new_val)),
        replaced_value_is_read(
            text@,
            key@,
            json(*old_val),
            json(*new_val),
            result->Ok_0@,
        ),
        integer_can_be_put_back(
            text@,
            key@,
            json(*old_val),
            json(*new_val),
            result->Ok_0@,
        ),
{
    let old_str = match write_compact(old_val) {
        Ok(written) => written,
        Err(source) => {
            return Err(AppError::JsonSerialize { source });
        },
    };
    let new_str = match write_pretty(new_val) {
        Ok(written) => written,
        Err(source) => {
            return Err(AppError::JsonSerialize { source });
        },
    };
    let result = replace_member_text(text, key, old_str.as_str(), new_str.as_str());
    proof {
        lemma_replaced_value_is_read(text@, key@, json(*old_val), json(*new_val));
        if let Json::Integer(n) = json(*new_val) {
            lemma_integer_text(n);
            if json(*old_val) is Integer && key@.len() > 0 && !key@.contains('"') && key@[0] != ':'
                && !holds_member(text@, key@, new_str@) {
                law_replacing_back_restores_the_text(text@, key@, old_str@, new_str@);
            }
        }
    }
    Ok(result)
}

/// Whether two objects have members of the same names.
fn same_keys(
    a: &serde_json::Map<String, serde_json::Value>,
    a_keys: &Vec<String>,
    b: &serde_json::Map<String, serde_json::Value>,
    b_keys: &Vec<String>,
) -> (same: bool)
    requires
        lists_in_order(texts(a_keys@), entries(*a).dom()),
        lists_in_order(texts(b_keys@), entries(*b).dom()),
    ensures
        same == (entries(*a).dom() == entries(*b).dom()),
{
    let ghost a_set = entries(*a).dom();
    let ghost b_set = entries(*b).dom();
    for i in 0..a_keys.len()
        invariant
            lists_in_order(texts(a_keys@), entries(*a).dom()),
            forall|k: int| 0 <= k < i ==> entries(*b).dom().contains(#[trigger] texts(a_keys@)[k]),
    {
        if map_get(b, a_keys[i].as_str()).is_none() {
            assert(texts(a_keys@)[i as int] == a_keys@[i as int]@);
            assert(entries(*a).dom().contains(texts(a_keys@)[i as int]));
            return false;
        }
    }
    for i in 0..b_keys.len()
        invariant
            lists_in_order(texts(b_keys@), entries(*b).dom()),
            forall|k: int| 0 <= k < i ==> entries(*a).dom().contains(#[trigger] texts(b_keys@)[k]),
    {
        if map_get(a, b_keys[i].as_str()).is_none() {
            assert(texts(b_keys@)[i as int] == b_keys@[i as int]@);
            assert(entries(*b).dom().contains(texts(b_keys@)[i as int]));
            return false;
        }
    }
    assert forall|key: Seq<char>| a_set.contains(key) <==> b_set.contains(key) by {
        if a_set.contains(key) {
            let k = choose|k: int| 0 <= k < texts(a_keys@).len() && texts(a_keys@)[k] == key;
            assert(b_set.contains(texts(a_keys@)[k]));
        }
        if b_set.contains(key) {
            let k = choose|k: int| 0 <= k < texts(b_keys@).len() && texts(b_keys@)[k] == key;
            assert(a_set.contains(texts(b_keys@)[k]));
        }
    }
    assert(a_set == b_set);
    true
}

/// Merges two objects: where the members are the same by name, the values that
/// changed are replaced in the text; else the object is written anew.
pub fn merge_json_objects(
    original: &str,
    old_obj: &serde_json::Map<String, serde_json::Value>,
    new_obj: &serde_json::Map<String, serde_json::Value>,
) -> (result: Result<String, AppError>)
    ensures
        result is Ok,
        result->Ok_0@ == objects_merged(original@, entries(*old_obj), entries(*new_obj)),
        entries(*old_obj).dom() != entries(*new_obj).dom() ==> reads_back(
            result->Ok_0@,
            Json::Object(entries(*new_obj)),
        ),
        one_change_is_read(original@, entries(*old_obj), entries(*new_obj), result->Ok_0@),
        changes_are_read(original@, entries(*old_obj), entries(*new_obj), result->Ok_0@),
        entries(*old_obj).dom().finite(),
        entries(*new_obj).dom().finite(),
{
    let old_keys = map_keys(old_obj);
    let new_keys = map_keys(new_obj);
    proof {
        lemma_listed_is_finite(texts(old_keys@), entries(*old_obj).dom());
        lemma_listed_is_finite(texts(new_keys@), entries(*new_obj).dom());
    }
    if !same_keys(old_obj, &old_keys, new_obj, &new_keys) {
        return match write_pretty(&object_value(new_obj.clone())) {
            Ok(text) => {
                proof {
                    law_comment_free_is_unchanged(text@);
                    let before = entries(*old_obj);
                    assert forall|key: Seq<char>, value: Json| #[trigger]
                        before.dom().contains(key) implies #[trigger] before.insert(key, value).dom()
                        == before.dom() by {}
                }
                Ok(text)
            },
            Err(source) => Err(AppError::JsonSerialize { source }),
        };
    }
    let ghost old_members = entries(*old_obj);
    let ghost new_members = entries(*new_obj);
    let ghost keys = texts(new_keys@);
    proof {
        lemma_order_is_unique(keys, in_order(new_members.dom()), new_members.dom());
        assert(keys.skip(0) == keys);
    }
    let mut result = original.to_owned();
    for i in 0..new_keys.len()
        invariant
            old_members == entries(*old_obj),
            new_members == entries(*new_obj),
            old_members.dom() == new_members.dom(),
            keys == texts(new_keys@),
            lists_in_order(keys, new_members.dom()),
            values_replaced(original@, keys, old_members, new_members) == values_replaced(
                result@,
                keys.skip(i as int),
                old_members,
                new_members,
            ),
            forall|k: int|
                0 <= k < i && old_members[#[trigger] keys[k]] == new_members[keys[k]] ==> json_equal(
                    old_members[keys[k]],
                    new_members[keys[k]],
                ),
            forall|k: int|
                0 <= k < i && !json_equal(old_members[#[trigger] keys[k]], new_members[keys[k]])
                    ==> is_looked_for_well(old_members[keys[k]]) && is_written_well(
                    new_members[keys[k]],
                ),
    {
        let key = new_keys[i].as_str();
        assert(keys[i as int] == key@);
        assert(new_members.dom().contains(keys[i as int]));
        assert(keys.skip(i as int)[0] == key@);
        assert(keys.skip(i as int).skip(1) == keys.skip(i + 1));
        if let Some(new_val) = map_get(new_obj, key) {
            if let Some(old_val) = map_get(old_obj, key) {
                if !values_equal(old_val, new_val) {
                    match replace_json_value(result.as_str(), key, old_val, new_val) {
                        Ok(replaced) => {
                            result = replaced;
                        },
                        Err(error) => {
                            return Err(error);
                        },
                    }
                }
            }
        }
    }
    proof {
        lemma_one_change_is_read(original@, keys, old_members, new_members);
        lemma_changes_are_read(original@, keys, old_members, old_members, new_members);
        lemma_taken(keys, old_members, old_members, new_members);
        assert(taken(keys, old_members, old_members, new_members) == changes_taken(
            old_members,
            new_members,
        ));
    }
    Ok(result)
}

/// Merges a document into the text of an older one.
pub fn smart_json_merge(
    original: &str,
    old_value: &serde_json::Value,
    new_value: &serde_json::Value,
) -> (result: Result<String, AppError>)
    ensures
        result is Ok,
        result->Ok_0@ == merged(original@, json(*old_value), json(*new_value)),
        json(*old_value) == json(*new_value) ==> result->Ok_0@ == original@,
        written_anew(json(*old_value), json(*new_value)) ==> reads_back(
            result->Ok_0@,
            json(*new_value),
        ),
        json(*old_value) is Object && json(*new_value) is Object ==> one_change_is_read(
            original@,
            members_of(json(*old_value)),
            members_of(json(*new_value)),
            result->Ok_0@,
        ),
        json(*old_value) is Object && json(*new_value) is Object ==> changes_are_read(
            original@,
            members_of(json(*old_value)),
            members_of(json(*new_value)),
            result->Ok_0@,
        ),
{
    if values_equal(old_value, new_value) {
        proof {
            lemma_no_change_is_read(original@, json(*old_value), json(*new_value));
        }
        return Ok(original.to_owned());
    }
    if let Some(old_obj) = old_value.as_object() {
        if let Some(new_obj) = new_value.as_object() {
            return merge_json_objects(original, old_obj, new_obj);
        }
    }
    match write_pretty(new_value) {
        Ok(text) => {
            proof {
                law_comment_free_is_unchanged(text@);
            }
            Ok(text)
        },
        Err(source) => Err(AppError::JsonSerialize { source }),
    }
}

/// Writes a document over the text that an older one was read from, keeping the
/// comments where it can.
pub fn preserve_comments_in_json(original: &str, new_config: &serde_json::Value) -> (result: Result<
    String,
    AppError,
>)
    ensures
        match result {
            Ok(text) => comments_preserved(original@, json(*new_config)) == Ok::<
                Seq<char>,
                Seq<char>,
            >(text@),
            Err(AppError::Config(message)) => comments_preserved(original@, json(*new_config))
                == Err::<Seq<char>, Seq<char>>(message@),
            Err(_) => false,
        },
        parsed(stripped(original@)) == Ok::<Json, Seq<char>>(json(*new_config)) ==> result is Ok
            && result->Ok_0@ == original@,
        result is Ok && preserving_writes_anew(original@, json(*new_config)) ==> reads_back(
            result->Ok_0@,
            json(*new_config),
        ),
        result is Ok && has_other_names(original@, json(*new_config)) ==> reads_back(
            result->Ok_0@,
            json(*new_config),
        ),
        merges_objects(original@, json(*new_config)) ==> result is Ok && one_change_is_read(
            original@,
            members_of(parsed(stripped(original@))->Ok_0),
            members_of(json(*new_config)),
            result->Ok_0@,
        ),
        merges_objects(original@, json(*new_config)) ==> changes_are_read(
            original@,
            members_of(parsed(stripped(original@))->Ok_0),
            members_of(json(*new_config)),
            result->Ok_0@,
        ),
        result is Ok ==> value_written_once_is_read(
            original@,
            json(*new_config),
            result->Ok_0@,
        ),
{
    let cleaned = strip_jsonc_comments(original);
    let original_parsed = match parse_text(cleaned.as_str()) {
        Ok(value) => value,
        Err(error) => {
            let mut message = "Failed to parse original: ".to_owned();
            message.append(error_message(&error).as_str());
            return Err(AppError::Config(message));
        },
    };
    if values_equal(&original_parsed, new_config) {
        proof {
            lemma_no_change_is_read(original@, json(original_parsed), json(*new_config));
        }
        return Ok(original.to_owned());
    }
    match parse_jsonc(original) {
        Err(error) => {
            let mut message = "JSONC parse error: ".to_owned();
            message.append(jsonc_error_message(&error).as_str());
            return Err(AppError::Config(message));
        },
        Ok(Some(value)) => {
            proof {
                if json(original_parsed) is Object && json(*new_config) is Object {
                    lemma_leaf_change_is_seen(
                        members_of(json(original_parsed)),
                        json(value),
                        members_of(json(*new_config)),
                    );
                }
            }
            if values_equal(&value, new_config) {
                return Ok(original.to_owned());
            }
        },
        Ok(None) => {},
    }
    let result = smart_json_merge(original, &original_parsed, new_config);
    proof {
        lemma_value_written_once_is_read(
            original@,
            json(original_parsed),
            json(*new_config),
            result->Ok_0@,
        );
    }
    result
}

/// A document that is the same but for what stands in arrays is not equal to one
/// with another leaf.
proof fn lemma_leaf_change_is_seen(
    old_members: Map<Seq<char>, Json>,
    read: Json,
    new_members: Map<Seq<char>, Json>,
)
    requires
        same_outside_arrays(Json::Object(old_members), read),
    ensures
        changes_a_leaf(old_members, new_members) ==> !json_equal(read, Json::Object(new_members)),
{
    if changes_a_leaf(old_members, new_members) {
        let key = choose|key: Seq<char>| #[trigger]
            old_members.dom().contains(key) && new_members.dom().contains(key) && is_leaf(
                new_members[key],
            ) && !json_equal(old_members[key], new_members[key]);
        assert(members_of(read).dom().contains(key));
        assert(same_outside_arrays(old_members[key], members_of(read)[key]));
        assert(!json_equal(members_of(read)[key], new_members[key]));
    }
}

/// A changed value that stands in the text once is replaced there and read.
proof fn lemma_value_written_once_is_read(
    original: Seq<char>,
    old_document: Json,
    document: Json,
    text: Seq<char>,
)
    requires
        reads_as(stripped(original), old_document),
        nested_within(old_document, NESTING_LIMIT as nat),
        members_are_read(stripped(original), old_document),
        old_document is Object && document is Object ==> one_change_is_read(
            original,
            members_of(old_document),
            members_of(document),
            text,
        ),
    ensures
        value_written_once_is_read(original, document, text),
{
    let old_members = members_of(old_document);
    let new_members = members_of(document);
    assert forall|before: Seq<char>, key: Seq<char>, separator: Seq<char>, after: Seq<char>|
        document is Object && #[trigger] stands_once(
            original,
            before,
            key,
            separator,
            compact_text(old_members[key]),
            after,
        ) && old_members.dom().contains(key) && new_members == old_members.insert(
            key,
            new_members[key],
        ) && !json_equal(old_members[key], new_members[key]) && (is_leaf(new_members[key])
            || jsonc_reads_another(original, document)) implies {
        &&& text == before + member_text(key, separator, pretty_text(new_members[key])) + after
        &&& is_leaf(new_members[key]) ==> text == before + member_text(
            key,
            separator,
            compact_text(new_members[key]),
        ) + after
        &&& survives_text(new_members[key], (NESTING_LIMIT - 1) as nat) ==> reads_as(
            stripped(text),
            document,
        )
    } by {
        let old_value = old_members[key];
        let new_value = new_members[key];
        assert(old_members.dom().contains(key));
        lemma_nested_deeper(old_value, (NESTING_LIMIT - 1) as nat);
        lemma_written_once_is_replaced(
            original,
            before,
            key,
            separator,
            old_value,
            after,
            old_document,
        );
        if survives_text(new_value, (NESTING_LIMIT - 1) as nat) {
            assert(replaced_value_is_read(original, key, old_value, new_value, text));
            lemma_reads_as_it_was(stripped(text), old_members, key, new_value);
        }
    }
}

/// Stripping keeps a member whose value holds no comment and ends between tokens,
/// and goes on by itself before and behind it.
pub proof fn law_stripping_keeps_a_member(
    before: Seq<char>,
    key: Seq<char>,
    separator: Seq<char>,
    value: Seq<char>,
    after: Seq<char>,
)
    requires
        ends_between_tokens(before),
        is_literal(quoted(key)),
        separator == seq![':'] || separator == seq![':', ' '],
        comment_free(value),
        ends_between_tokens(value),
    ensures
        stripped(before + member_text(key, separator, value) + after) == stripped(before)
            + member_text(key, separator, value) + stripped(after),
        ends_between_tokens(stripped(before) + quoted(key) + separator),
{
    let name = quoted(key);
    let head = name + separator;
    let whole = head + value;
    lemma_literal_is_whole(name);
    lemma_separator_is_whole(separator);
    lemma_ends_joined(name, separator);
    law_stripping_goes_part_by_part(name, separator);
    lemma_ends_joined(head, value);
    law_stripping_goes_part_by_part(head, value);
    law_comment_free_is_unchanged(value);
    assert(whole == member_text(key, separator, value));
    law_stripping_goes_part_by_part(whole, after);
    law_stripping_goes_part_by_part(before, whole + after);
    assert(before + whole + after == before + (whole + after));
    assert(stripped(before) + whole + stripped(after) == stripped(before) + (whole + stripped(after)));
    lemma_stripped_ends(before);
    lemma_ends_joined(stripped(before), head);
    assert(stripped(before) + name + separator == stripped(before) + head);
}

/// A separator ends between tokens, and holds no comment.
proof fn lemma_separator_is_whole(separator: Seq<char>)
    requires
        separator == seq![':'] || separator == seq![':', ' '],
    ensures
        ends_between_tokens(separator),
        stripped(separator) == separator,
{
    reveal_with_fuel(comment_free, 3);
    reveal_with_fuel(ends_between_tokens, 3);
    assert(comment_free(separator));
    law_comment_free_is_unchanged(separator);
}

/// Where the text that is replaced is the one that the member is read from, the
/// new value is read in its place, and the other members are kept.
pub proof fn law_replaced_member_is_read(
    text: Seq<char>,
    key: Seq<char>,
    old_text: Seq<char>,
    new_text: Seq<char>,
    members: Map<Seq<char>, Json>,
    value: Json,
)
    requires
        replaces_the_member(text, key, old_text, members),
        comment_free(new_text),
        ends_between_tokens(new_text),
        gives_back_in_place(new_text, value),
        nested_within(value, (NESTING_LIMIT - 1) as nat),
    ensures
        reads_with(
            stripped(member_replaced(text, key, old_text, new_text)),
            members,
            key,
            value,
        ),
{
    let separator = if occurs_in(text, member_text(key, seq![':'], old_text)) {
        seq![':']
    } else {
        seq![':', ' ']
    };
    let pattern = member_text(key, separator, old_text);
    let at = choose|at: int| occurs_first_at(text, pattern, at);
    let before = text.take(at);
    let after = text.skip(at + pattern.len());
    let put = member_text(key, separator, new_text);
    law_stripping_keeps_a_member(before, key, separator, new_text, after);
    assert(member_replaced(text, key, old_text, new_text) == before + put + after);
    let head = stripped(before) + quoted(key) + separator;
    assert(head + new_text + stripped(after) == stripped(before) + put + stripped(after));
}

/// The new value of a member is read from the text that is written for it.
proof fn lemma_replaced_value_is_read(
    text: Seq<char>,
    key: Seq<char>,
    old_value: Json,
    new_value: Json,
)
    requires
        is_written_well(new_value),
    ensures
        replaced_value_is_read(
            text,
            key,
            old_value,
            new_value,
            value_replaced(text, key, old_value, new_value),
        ),
{
    let result = value_replaced(text, key, old_value, new_value);
    if nested_within(new_value, (NESTING_LIMIT - 1) as nat) {
        assert forall|members: Map<Seq<char>, Json>| #[trigger]
            replaces_the_member(text, key, compact_text(old_value), members) implies reads_with(
            stripped(result),
            members,
            key,
            new_value,
        ) by {
            law_replaced_member_is_read(
                text,
                key,
                compact_text(old_value),
                pretty_text(new_value),
                members,
                new_value,
            );
        }
    }
}

/// Where a member is put into a text that does not hold it, it is found where it
/// was put, and with the separator that it was put with.
proof fn lemma_found_where_put(
    before: Seq<char>,
    after: Seq<char>,
    key: Seq<char>,
    value: Seq<char>,
    put: Seq<char>,
    wanted: Seq<char>,
    at: int,
)
    requires
        is_unambiguous(key, value),
        put == seq![':'] || put == seq![':', ' '],
        wanted == seq![':'] || wanted == seq![':', ' '],
        !occurs_in(before, member_text(key, wanted, value)),
        !occurs_in(after, member_text(key, wanted, value)),
        occurs_at(
            before + member_text(key, put, value) + after,
            member_text(key, wanted, value),
            at,
        ),
    ensures
        at == before.len(),
        put == wanted,
{
    let placed = member_text(key, put, value);
    let pattern = member_text(key, wanted, value);
    let text = before + placed + after;
    let start = before.len() as int;
    let n = key.len() as int;
    assert forall|i: int| 0 <= i < pattern.len() implies #[trigger] pattern[i] == text[at + i] by {
        assert(text.subrange(at, at + pattern.len())[i] == text[at + i]);
    }
    lemma_quotes_of_a_member(key, put, value);
    lemma_quotes_of_a_member(key, wanted, value);
    if at + pattern.len() <= start {
        assert(before.subrange(at, at + pattern.len()) == pattern);
        assert(occurs_at(before, pattern, at));
    } else if at >= start + placed.len() {
        let shifted = at - start - placed.len();
        assert(after.subrange(shifted, shifted + pattern.len()) == pattern);
        assert(occurs_at(after, pattern, shifted));
    } else if at < start {
        assert(pattern[start - at] == text[start] == placed[0]);
        assert(pattern[start - at + 1] == text[start + 1] == placed[1]);
    } else if at > start {
        assert(pattern[0] == text[at] == placed[at - start]);
        assert(pattern[1] == text[at + 1] == placed[at - start + 1]);
    } else {
        assert(pattern[n + 3] == text[at + n + 3] == placed[n + 3]);
    }
}

/// The quotes of a member stand around its name.
proof fn lemma_quotes_of_a_member(key: Seq<char>, separator: Seq<char>, value: Seq<char>)
    requires
        is_unambiguous(key, value),
        separator == seq![':'] || separator == seq![':', ' '],
    ensures
        ({
            let text = member_text(key, separator, value);
            let n = key.len() as int;
            &&& text.len() == n + 2 + separator.len() + value.len()
            &&& text[0] == '"'
            &&& text[1] == key[0]
            &&& text[n + 1] == '"'
            &&& text[n + 2] == ':'
            &&& text[n + 3] == (if separator == seq![':'] {
                value[0]
            } else {
                ' '
            })
            &&& forall|i: int|
                0 <= i < text.len() && #[trigger] text[i] == '"' ==> i == 0 || i == n + 1
        }),
{
    let text = member_text(key, separator, value);
    let n = key.len() as int;
    assert(separator.len() == 2 ==> separator != seq![':']);
    assert forall|i: int| 0 <= i < text.len() && #[trigger] text[i] == '"' implies i == 0 || i == n
        + 1 by {
        if 0 < i <= n {
            assert(key.contains(key[i - 1]));
        } else if i >= n + 2 + separator.len() {
            assert(value.contains(value[i - n - 2 - separator.len()]));
        }
    }
}

/// Parts of a text that does not hold a pattern do not hold it either.
proof fn lemma_not_in_parts(
    before: Seq<char>,
    middle: Seq<char>,
    after: Seq<char>,
    pattern: Seq<char>,
)
    requires
        !occurs_in(before + middle + after, pattern),
    ensures
        !occurs_in(before, pattern),
        !occurs_in(after, pattern),
{
    let text = before + middle + after;
    if occurs_in(before, pattern) {
        let at = choose|at: int| occurs_at(before, pattern, at);
        assert(text.subrange(at, at + pattern.len()) == before.subrange(at, at + pattern.len()));
        assert(occurs_at(text, pattern, at));
    }
    if occurs_in(after, pattern) {
        let at = choose|at: int| occurs_at(after, pattern, at);
        let shifted = before.len() + middle.len() + at;
        assert(text.subrange(shifted, shifted + pattern.len()) == after.subrange(
            at,
            at + pattern.len(),
        ));
        assert(occurs_at(text, pattern, shifted));
    }
}

/// A member that was put into a text that does not hold it is the one that is
/// replaced.
proof fn lemma_put_member_is_replaced(
    before: Seq<char>,
    after: Seq<char>,
    key: Seq<char>,
    separator: Seq<char>,
    old_text: Seq<char>,
    new_text: Seq<char>,
)
    requires
        is_unambiguous(key, new_text),
        separator == seq![':'] || separator == seq![':', ' '],
        !holds_member(before, key, new_text),
        !holds_member(after, key, new_text),
    ensures
        member_replaced(
            before + member_text(key, separator, new_text) + after,
            key,
            new_text,
            old_text,
        ) == before + member_text(key, separator, old_text) + after,
{
    let placed = member_text(key, separator, new_text);
    let text = before + placed + after;
    let tight = member_text(key, seq![':'], new_text);
    let start = before.len() as int;
    assert(text.subrange(start, start + placed.len()) == placed);
    assert(occurs_at(text, placed, start));
    if separator != seq![':'] && occurs_in(text, tight) {
        let at = choose|at: int| occurs_at(text, tight, at);
        lemma_found_where_put(before, after, key, new_text, separator, seq![':'], at);
    }
    lemma_first_exists(text, placed);
    let at = choose|at: int| occurs_first_at(text, placed, at);
    lemma_found_where_put(before, after, key, new_text, separator, separator, at);
    assert(text.take(start) == before);
    assert(text.skip(start + placed.len()) == after);
}

/// Replacing a value by one that the text does not hold, and then the other way
/// round, gives the text as it was.
pub proof fn law_replacing_back_restores_the_text(
    text: Seq<char>,
    key: Seq<char>,
    old_text: Seq<char>,
    new_text: Seq<char>,
)
    requires
        is_unambiguous(key, new_text),
        !holds_member(text, key, new_text),
    ensures
        member_replaced(member_replaced(text, key, old_text, new_text), key, new_text, old_text)
            == text,
{
    let tight = member_text(key, seq![':'], old_text);
    let spaced = member_text(key, seq![':', ' '], old_text);
    if occurs_in(text, tight) || occurs_in(text, spaced) {
        let separator = if occurs_in(text, tight) {
            seq![':']
        } else {
            seq![':', ' ']
        };
        let pattern = member_text(key, separator, old_text);
        lemma_first_exists(text, pattern);
        let at = choose|at: int| occurs_first_at(text, pattern, at);
        let before = text.take(at);
        let after = text.skip(at + pattern.len());
        assert(text == before + pattern + after);
        lemma_not_in_parts(before, pattern, after, member_text(key, seq![':'], new_text));
        lemma_not_in_parts(before, pattern, after, member_text(key, seq![':', ' '], new_text));
        assert(member_replaced(text, key, old_text, new_text) == before + member_text(
            key,
            separator,
            new_text,
        ) + after);
        lemma_put_member_is_replaced(before, after, key, separator, old_text, new_text);
    }
}

/// Replacing a value changes one place: what stands before the member and what
/// stands behind it, comments and all, is kept.
pub proof fn law_replacing_is_local(
    text: Seq<char>,
    key: Seq<char>,
    old_value: Json,
    new_value: Json,
)
    ensures
        value_replaced(text, key, old_value, new_value) == text || exists|
            before: Seq<char>,
            separator: Seq<char>,
            after: Seq<char>,
        |
            (separator == seq![':'] || separator == seq![':', ' ']) && text == before
                + #[trigger] member_text(key, separator, compact_text(old_value)) + after
                && value_replaced(text, key, old_value, new_value) == #[trigger] (before
                + member_text(key, separator, pretty_text(new_value)) + after),
{
    let tight = member_text(key, seq![':'], compact_text(old_value));
    let spaced = member_text(key, seq![':', ' '], compact_text(old_value));
    if occurs_in(text, tight) {
        lemma_replaced_around(text, tight, member_text(key, seq![':'], pretty_text(new_value)));
    } else if occurs_in(text, spaced) {
        lemma_replaced_around(text, spaced, member_text(key, seq![':', ' '], pretty_text(new_value)));
    }
}

/// What stands around the first `pattern` in `text` is kept.
proof fn lemma_replaced_around(text: Seq<char>, pattern: Seq<char>, replacement: Seq<char>)
    requires
        occurs_in(text, pattern),
    ensures
        exists|before: Seq<char>, after: Seq<char>|
            text == #[trigger] (before + pattern + after) && first_replaced(
                text,
                pattern,
                replacement,
            ) == #[trigger] (before + replacement + after),
{
    lemma_first_exists(text, pattern);
    let at = choose|at: int| occurs_first_at(text, pattern, at);
    let before = text.take(at);
    let after = text.skip(at + pattern.len());
    assert(text == before + pattern + after);
    assert(first_replaced(text, pattern, replacement) == before + replacement + after);
}

/// Members that did not change leave the text as it is.
proof fn lemma_unchanged_members(
    text: Seq<char>,
    keys: Seq<Seq<char>>,
    old_members: Map<Seq<char>, Json>,
    new_members: Map<Seq<char>, Json>,
)
    requires
        forall|i: int|
            0 <= i < keys.len() ==> json_equal(old_members[#[trigger] keys[i]], new_members[keys[i]]),
    ensures
        values_replaced(text, keys, old_members, new_members) == text,
    decreases keys.len(),
{
    if keys.len() > 0 {
        assert(json_equal(old_members[keys[0]], new_members[keys[0]]));
        assert forall|i: int| 0 <= i < keys.skip(1).len() implies json_equal(
            old_members[#[trigger] keys.skip(1)[i]],
            new_members[keys.skip(1)[i]],
        ) by {
            assert(keys.skip(1)[i] == keys[i + 1]);
        }
        lemma_unchanged_members(text, keys.skip(1), old_members, new_members);
    }
}

/// Of members of which one may have changed, only that one is replaced.
proof fn lemma_one_changed_member(
    text: Seq<char>,
    keys: Seq<Seq<char>>,
    at: int,
    old_members: Map<Seq<char>, Json>,
    new_members: Map<Seq<char>, Json>,
)
    requires
        0 <= at < keys.len(),
        forall|i: int|
            0 <= i < keys.len() && i != at ==> json_equal(
                old_members[#[trigger] keys[i]],
                new_members[keys[i]],
            ),
        !json_equal(old_members[keys[at]], new_members[keys[at]]),
    ensures
        values_replaced(text, keys, old_members, new_members) == value_replaced(
            text,
            keys[at],
            old_members[keys[at]],
            new_members[keys[at]],
        ),
    decreases keys.len(),
{
    let rest = keys.skip(1);
    assert forall|i: int| 0 <= i < rest.len() && i != at - 1 implies json_equal(
        old_members[#[trigger] rest[i]],
        new_members[rest[i]],
    ) by {
        assert(rest[i] == keys[i + 1]);
    }
    if at == 0 {
        let next = value_replaced(text, keys[0], old_members[keys[0]], new_members[keys[0]]);
        lemma_unchanged_members(next, rest, old_members, new_members);
    } else {
        assert(json_equal(old_members[keys[0]], new_members[keys[0]]));
        assert(rest[at - 1] == keys[at]);
        lemma_one_changed_member(text, rest, at - 1, old_members, new_members);
    }
}

/// Where one member changed, its value is replaced, and the new one is read.
proof fn lemma_one_change_is_read(
    text: Seq<char>,
    keys: Seq<Seq<char>>,
    old_members: Map<Seq<char>, Json>,
    new_members: Map<Seq<char>, Json>,
)
    requires
        lists_in_order(keys, new_members.dom()),
        old_members.dom() == new_members.dom(),
        forall|k: int|
            0 <= k < keys.len() && old_members[#[trigger] keys[k]] == new_members[keys[k]]
                ==> json_equal(old_members[keys[k]], new_members[keys[k]]),
        forall|k: int|
            0 <= k < keys.len() && !json_equal(old_members[#[trigger] keys[k]], new_members[keys[k]])
                ==> is_looked_for_well(old_members[keys[k]]) && is_written_well(
                new_members[keys[k]],
            ),
    ensures
        one_change_is_read(
            text,
            old_members,
            new_members,
            values_replaced(text, keys, old_members, new_members),
        ),
{
    assert forall|key: Seq<char>| #[trigger]
        old_members.dom().contains(key) && new_members == old_members.insert(key, new_members[key])
            && !json_equal(old_members[key], new_members[key]) implies {
        let result = values_replaced(text, keys, old_members, new_members);
        &&& result == value_replaced(text, key, old_members[key], new_members[key])
        &&& replaced_value_is_read(text, key, old_members[key], new_members[key], result)
        &&& is_looked_for_well(old_members[key])
        &&& is_leaf(new_members[key]) ==> pretty_text(new_members[key]) == compact_text(
            new_members[key],
        )
    } by {
        let at = choose|at: int| 0 <= at < keys.len() && keys[at] == key;
        assert forall|i: int| 0 <= i < keys.len() && i != at implies json_equal(
            old_members[#[trigger] keys[i]],
            new_members[keys[i]],
        ) by {
            lemma_listed_once(keys, new_members.dom(), i, at);
            assert(old_members[keys[i]] == new_members[keys[i]]);
        }
        lemma_one_changed_member(text, keys, at, old_members, new_members);
        lemma_replaced_value_is_read(text, key, old_members[key], new_members[key]);
    }
}

/// The members `current` with those of `keys` that changed taken over, one after
/// the other.
spec fn taken(
    keys: Seq<Seq<char>>,
    current: Map<Seq<char>, Json>,
    old_members: Map<Seq<char>, Json>,
    new_members: Map<Seq<char>, Json>,
) -> Map<Seq<char>, Json>
    decreases keys.len(),
{
    if keys.len() == 0 {
        current
    } else {
        let key = keys[0];
        let next = if json_equal(old_members[key], new_members[key]) {
            current
        } else {
            current.insert(key, new_members[key])
        };
        taken(keys.skip(1), next, old_members, new_members)
    }
}

/// What taking the changes over one by one comes to.
proof fn lemma_taken(
    keys: Seq<Seq<char>>,
    current: Map<Seq<char>, Json>,
    old_members: Map<Seq<char>, Json>,
    new_members: Map<Seq<char>, Json>,
)
    requires
        forall|i: int| 0 <= i < keys.len() ==> current.dom().contains(#[trigger] keys[i]),
    ensures
        ({
            let all = taken(keys, current, old_members, new_members);
            &&& all.dom() == current.dom()
            &&& forall|key: Seq<char>| #[trigger]
                current.dom().contains(key) ==> all[key] == if keys.contains(key) && !json_equal(
                    old_members[key],
                    new_members[key],
                ) {
                    new_members[key]
                } else {
                    current[key]
                }
        }),
    decreases keys.len(),
{
    if keys.len() > 0 {
        let first = keys[0];
        let rest = keys.skip(1);
        let next = if json_equal(old_members[first], new_members[first]) {
            current
        } else {
            current.insert(first, new_members[first])
        };
        assert(next.dom() == current.dom());
        assert forall|i: int| 0 <= i < rest.len() implies next.dom().contains(#[trigger] rest[i]) by {
            assert(rest[i] == keys[i + 1]);
        }
        lemma_taken(rest, next, old_members, new_members);
        assert forall|key: Seq<char>| keys.contains(key) <==> #[trigger] rest.contains(key) || key
            == first by {
            if keys.contains(key) && key != first {
                let i = choose|i: int| 0 <= i < keys.len() && keys[i] == key;
                assert(rest[i - 1] == key);
            }
            if rest.contains(key) {
                let i = choose|i: int| 0 <= i < rest.len() && rest[i] == key;
                assert(keys[i + 1] == key);
            }
        }
        assert(taken(keys, current, old_members, new_members) == taken(
            rest,
            next,
            old_members,
            new_members,
        ));
        assert forall|key: Seq<char>| #[trigger] current.dom().contains(key) implies taken(
            rest,
            next,
            old_members,
            new_members,
        )[key] == if keys.contains(key) && !json_equal(old_members[key], new_members[key]) {
            new_members[key]
        } else {
            current[key]
        } by {
            assert(next.dom().contains(key));
            assert(keys.contains(key) <==> rest.contains(key) || key == first);
        }
    }
}

/// Where each replacement, in its turn, replaces the member that is read, the
/// object is read with all the changes.
proof fn lemma_changes_are_read(
    text: Seq<char>,
    keys: Seq<Seq<char>>,
    current: Map<Seq<char>, Json>,
    old_members: Map<Seq<char>, Json>,
    new_members: Map<Seq<char>, Json>,
)
    requires
        forall|k: int|
            0 <= k < keys.len() && !json_equal(old_members[#[trigger] keys[k]], new_members[keys[k]])
                ==> is_looked_for_well(old_members[keys[k]]) && is_written_well(
                new_members[keys[k]],
            ),
    ensures
        reads_as(stripped(text), Json::Object(current)) && each_replaces_its_member(
            text,
            keys,
            current,
            old_members,
            new_members,
        ) ==> reads_as(
            stripped(values_replaced(text, keys, old_members, new_members)),
            Json::Object(taken(keys, current, old_members, new_members)),
        ),
    decreases keys.len(),
{
    if keys.len() > 0 {
        let key = keys[0];
        let rest = keys.skip(1);
        let old_value = old_members[key];
        let new_value = new_members[key];
        assert forall|k: int|
            0 <= k < rest.len() && !json_equal(
                old_members[#[trigger] rest[k]],
                new_members[rest[k]],
            ) implies is_looked_for_well(old_members[rest[k]]) && is_written_well(
            new_members[rest[k]],
        ) by {
            assert(rest[k] == keys[k + 1]);
        }
        if json_equal(old_value, new_value) {
            lemma_changes_are_read(text, rest, current, old_members, new_members);
        } else {
            let next_text = value_replaced(text, key, old_value, new_value);
            let next = current.insert(key, new_value);
            lemma_changes_are_read(next_text, rest, next, old_members, new_members);
            assert(is_written_well(new_members[keys[0]]));
            if replaces_the_member(text, key, compact_text(old_value), current) && survives_text(
                new_value,
                (NESTING_LIMIT - 1) as nat,
            ) {
                lemma_replaced_value_is_read(text, key, old_value, new_value);
                lemma_reads_as_it_was(stripped(next_text), current, key, new_value);
            }
        }
    }
}

/// Where nothing changed, the text is read as before.
proof fn lemma_no_change_is_read(text: Seq<char>, old_value: Json, new_value: Json)
    requires
        json_equal(old_value, new_value),
    ensures
        old_value is Object ==> changes_are_read(
            text,
            members_of(old_value),
            members_of(new_value),
            text,
        ),
{
    if old_value is Object {
        let old_members = members_of(old_value);
        assert(changes_taken(old_members, members_of(new_value)) == old_members);
    }
}

/// A value that survives it is read as it was.
pub(crate) proof fn lemma_reads_as_it_was(
    text: Seq<char>,
    members: Map<Seq<char>, Json>,
    key: Seq<char>,
    value: Json,
)
    requires
        reads_with(text, members, key, value),
        reread(value, value),
    ensures
        reads_as(text, Json::Object(members.insert(key, value))),
{
    let later = choose|later: Json| #[trigger]
        reread(value, later) && reads_as(text, Json::Object(members.insert(key, later)));
    lemma_reread_is_unique(value, later, value);
}

/// A member that stands in a text once is the one that is replaced, and is the one
/// that its value is read from.
proof fn lemma_written_once_is_replaced(
    text: Seq<char>,
    before: Seq<char>,
    key: Seq<char>,
    separator: Seq<char>,
    value: Json,
    after: Seq<char>,
    document: Json,
)
    requires
        stands_once(text, before, key, separator, compact_text(value), after),
        members_are_read(stripped(text), document),
        document is Object,
        is_looked_for_well(value),
        nested_within(value, NESTING_LIMIT as nat),
    ensures
        replaces_the_member(text, key, compact_text(value), members_of(document)),
        forall|new_text: Seq<char>| #[trigger]
            member_replaced(text, key, compact_text(value), new_text) == before + member_text(
                key,
                separator,
                new_text,
            ) + after,
{
    let old_text = compact_text(value);
    let pattern = member_text(key, separator, old_text);
    let start = before.len() as int;
    assert(text.subrange(start, start + pattern.len()) == pattern);
    assert(occurs_at(text, pattern, start));
    assert(occurs_first_at(text, pattern, start));
    let at = choose|at: int| occurs_first_at(text, pattern, at);
    assert(at == start);
    assert(text.take(start) == before);
    assert(text.skip(start + pattern.len()) == after);
    assert(seq![':'].len() != seq![':', ' '].len());
    law_stripping_keeps_a_member(before, key, separator, old_text, after);
    assert(parsed(old_text) is Ok);
    assert(stripped(text) == stripped(before) + quoted(key) + separator + old_text + stripped(
        after,
    ));
}

/// Taking the changes over gives the new members, unless a value only looks the
/// same: `serde_json` takes the zeros of both signs for equal, and then the old one
/// stays.
pub proof fn law_taking_the_changes_gives_the_new_members(
    old_members: Map<Seq<char>, Json>,
    new_members: Map<Seq<char>, Json>,
)
    requires
        old_members.dom() == new_members.dom(),
        forall|key: Seq<char>| #[trigger]
            old_members.dom().contains(key) && json_equal(old_members[key], new_members[key])
                ==> old_members[key] == new_members[key],
    ensures
        changes_taken(old_members, new_members) == new_members,
{
    assert(changes_taken(old_members, new_members) =~= new_members);
}

/// Where one member of an object changed, merging replaces its value in the text
/// and does nothing else.
pub proof fn law_one_change_is_one_replacement(
    text: Seq<char>,
    key: Seq<char>,
    old_members: Map<Seq<char>, Json>,
    new_members: Map<Seq<char>, Json>,
)
    requires
        old_members.dom().finite(),
        old_members.dom() == new_members.dom(),
        old_members.dom().contains(key),
        !json_equal(old_members[key], new_members[key]),
        forall|other: Seq<char>| #[trigger]
            old_members.dom().contains(other) && other != key ==> json_equal(
                old_members[other],
                new_members[other],
            ),
    ensures
        merged(text, Json::Object(old_members), Json::Object(new_members)) == value_replaced(
            text,
            key,
            old_members[key],
            new_members[key],
        ),
{
    let keys = in_order(new_members.dom());
    lemma_order_exists(new_members.dom());
    let at = choose|at: int| 0 <= at < keys.len() && keys[at] == key;
    assert forall|i: int| 0 <= i < keys.len() && i != at implies json_equal(
        old_members[#[trigger] keys[i]],
        new_members[keys[i]],
    ) by {
        assert(old_members.dom().contains(keys[i]));
        lemma_listed_once(keys, new_members.dom(), i, at);
    }
    lemma_one_changed_member(text, keys, at, old_members, new_members);
}

/// Whether `result` is `text` with the value of one member replaced, character for
/// character: the first `"key":old` in it, or, where there is none, the first
/// `"key": old`, becomes the same with `new`, and what stands before and behind it
/// stays. Where there is neither, the result is the text.
pub open spec fn is_one_replacement(
    text: Seq<char>,
    key: Seq<char>,
    old_text: Seq<char>,
    new_text: Seq<char>,
    result: Seq<char>,
) -> bool {
    let name = seq!['"'] + key + seq!['"', ':'];
    let spaced_name = seq!['"'] + key + seq!['"', ':', ' '];
    if stands_in(text, name + old_text) {
        is_first_exchanged(text, name + old_text, name + new_text, result)
    } else if stands_in(text, spaced_name + old_text) {
        is_first_exchanged(text, spaced_name + old_text, spaced_name + new_text, result)
    } else {
        result == text
    }
}

/// Whether a part stands in a text.
pub open spec fn stands_in(text: Seq<char>, part: Seq<char>) -> bool {
    exists|before: Seq<char>, after: Seq<char>| text == #[trigger] (before + part + after)
}

/// Whether `result` is `text` with the first of a part exchanged for another part.
pub open spec fn is_first_exchanged(
    text: Seq<char>,
    part: Seq<char>,
    other: Seq<char>,
    result: Seq<char>,
) -> bool {
    exists|before: Seq<char>, after: Seq<char>|
        text == #[trigger] (before + part + after) && result == before + other + after && (forall|
            earlier: Seq<char>,
            rest: Seq<char>,
        |
            text == #[trigger] (earlier + part + rest) ==> before.len() <= earlier.len())
}

/// A part stands in a text where it stands at some position.
proof fn lemma_stands_in(text: Seq<char>, part: Seq<char>)
    ensures
        stands_in(text, part) == occurs_in(text, part),
{
    if occurs_in(text, part) {
        let at = choose|at: int| occurs_at(text, part, at);
        assert(text == text.take(at) + part + text.skip(at + part.len()));
    }
    if stands_in(text, part) {
        let (before, after) = choose|before: Seq<char>, after: Seq<char>|
            text == #[trigger] (before + part + after);
        lemma_part_occurs(text, before, part, after);
    }
}

/// A part occurs where what stands before it ends.
proof fn lemma_part_occurs(text: Seq<char>, before: Seq<char>, part: Seq<char>, after: Seq<char>)
    requires
        text == before + part + after,
    ensures
        occurs_at(text, part, before.len() as int),
{
    assert(text.subrange(before.len() as int, (before.len() + part.len()) as int) == part);
}

/// Replacing the first place of a part exchanges the first of it.
proof fn lemma_first_exchanged(text: Seq<char>, part: Seq<char>, other: Seq<char>)
    requires
        occurs_in(text, part),
    ensures
        is_first_exchanged(text, part, other, first_replaced(text, part, other)),
{
    lemma_first_exists(text, part);
    let at = choose|at: int| occurs_first_at(text, part, at);
    let before = text.take(at);
    let after = text.skip(at + part.len());
    assert(text == before + part + after);
    assert forall|earlier: Seq<char>, rest: Seq<char>|
        text == #[trigger] (earlier + part + rest) implies before.len() <= earlier.len() by {
        lemma_part_occurs(text, earlier, part, rest);
    }
}

/// Replacing the text of a member replaces the value of one member, character for
/// character, and keeps all else.
pub proof fn law_member_is_replaced_by_the_characters(
    text: Seq<char>,
    key: Seq<char>,
    old_text: Seq<char>,
    new_text: Seq<char>,
)
    ensures
        is_one_replacement(
            text,
            key,
            old_text,
            new_text,
            member_replaced(text, key, old_text, new_text),
        ),
{
    let name = seq!['"'] + key + seq!['"', ':'];
    let spaced_name = seq!['"'] + key + seq!['"', ':', ' '];
    assert(name + old_text == member_text(key, seq![':'], old_text));
    assert(name + new_text == member_text(key, seq![':'], new_text));
    assert(spaced_name + old_text == member_text(key, seq![':', ' '], old_text));
    assert(spaced_name + new_text == member_text(key, seq![':', ' '], new_text));
    lemma_stands_in(text, name + old_text);
    lemma_stands_in(text, spaced_name + old_text);
    if occurs_in(text, name + old_text) {
        lemma_first_exchanged(text, name + old_text, name + new_text);
    } else if occurs_in(text, spaced_name + old_text) {
        lemma_first_exchanged(text, spaced_name + old_text, spaced_name + new_text);
    }
}

/// Replacing a value looks for the old value as it is written on one line, and puts
/// the new value there as it is written over several lines.
pub proof fn law_value_is_replaced_by_the_characters(
    text: Seq<char>,
    key: Seq<char>,
    old_value: Json,
    new_value: Json,
)
    ensures
        is_one_replacement(
            text,
            key,
            compact_text(old_value),
            pretty_text(new_value),
            value_replaced(text, key, old_value, new_value),
        ),
{
    law_member_is_replaced_by_the_characters(
        text,
        key,
        compact_text(old_value),
        pretty_text(new_value),
    );
}

/// One replacement has one result.
pub proof fn law_one_replacement_has_one_result(
    text: Seq<char>,
    key: Seq<char>,
    old_text: Seq<char>,
    new_text: Seq<char>,
    a: Seq<char>,
    b: Seq<char>,
)
    requires
        is_one_replacement(text, key, old_text, new_text, a),
        is_one_replacement(text, key, old_text, new_text, b),
    ensures
        a == b,
{
    let name = seq!['"'] + key + seq!['"', ':'];
    let spaced_name = seq!['"'] + key + seq!['"', ':', ' '];
    if stands_in(text, name + old_text) {
        lemma_exchanged_in_one_way(text, name + old_text, name + new_text, a, b);
    } else if stands_in(text, spaced_name + old_text) {
        lemma_exchanged_in_one_way(text, spaced_name + old_text, spaced_name + new_text, a, b);
    }
}

/// The first of a part is exchanged in one way.
proof fn lemma_exchanged_in_one_way(
    text: Seq<char>,
    part: Seq<char>,
    other: Seq<char>,
    a: Seq<char>,
    b: Seq<char>,
)
    requires
        is_first_exchanged(text, part, other, a),
        is_first_exchanged(text, part, other, b),
    ensures
        a == b,
{
    let (before, after) = choose|before: Seq<char>, after: Seq<char>|
        text == #[trigger] (before + part + after) && a == before + other + after && (forall|
            earlier: Seq<char>,
            rest: Seq<char>,
        |
            text == #[trigger] (earlier + part + rest) ==> before.len() <= earlier.len());
    let (before2, after2) = choose|before: Seq<char>, after: Seq<char>|
        text == #[trigger] (before + part + after) && b == before + other + after && (forall|
            earlier: Seq<char>,
            rest: Seq<char>,
        |
            text == #[trigger] (earlier + part + rest) ==> before.len() <= earlier.len());
    assert(text == before + part + after && text == before2 + part + after2);
    assert(before.len() == before2.len());
    assert(before == text.take(before.len() as int));
    assert(before2 == text.take(before.len() as int));
    assert(after == text.skip((before.len() + part.len()) as int));
    assert(after2 == text.skip((before.len() + part.len()) as int));
}

/// Whether `steps` leads from `text` to `result` by replacing the value of each of
/// the members `names` that changed, one after the other, and nothing else.
pub open spec fn replaces_one_by_one(
    text: Seq<char>,
    names: Seq<Seq<char>>,
    old_members: Map<Seq<char>, Json>,
    new_members: Map<Seq<char>, Json>,
    steps: Seq<Seq<char>>,
    result: Seq<char>,
) -> bool {
    &&& steps.len() == names.len() + 1
    &&& steps[0] == text
    &&& steps[names.len() as int] == result
    &&& forall|i: int|
        0 <= i < names.len() ==> if json_equal(old_members[#[trigger] names[i]], new_members[names[i]]) {
            steps[i + 1] == steps[i]
        } else {
            is_one_replacement(
                steps[i],
                names[i],
                compact_text(old_members[names[i]]),
                pretty_text(new_members[names[i]]),
                steps[i + 1],
            )
        }
}

/// The texts that replacing the members one by one goes through.
proof fn lemma_steps(
    text: Seq<char>,
    keys: Seq<Seq<char>>,
    old_members: Map<Seq<char>, Json>,
    new_members: Map<Seq<char>, Json>,
) -> (steps: Seq<Seq<char>>)
    ensures
        replaces_one_by_one(
            text,
            keys,
            old_members,
            new_members,
            steps,
            values_replaced(text, keys, old_members, new_members),
        ),
    decreases keys.len(),
{
    if keys.len() == 0 {
        seq![text]
    } else {
        let key = keys[0];
        let rest = keys.skip(1);
        let next = if json_equal(old_members[key], new_members[key]) {
            text
        } else {
            value_replaced(text, key, old_members[key], new_members[key])
        };
        law_value_is_replaced_by_the_characters(text, key, old_members[key], new_members[key]);
        let tail = lemma_steps(next, rest, old_members, new_members);
        let steps = seq![text] + tail;
        assert forall|i: int| 0 <= i < keys.len() implies if json_equal(
            old_members[#[trigger] keys[i]],
            new_members[keys[i]],
        ) {
            steps[i + 1] == steps[i]
        } else {
            is_one_replacement(
                steps[i],
                keys[i],
                compact_text(old_members[keys[i]]),
                pretty_text(new_members[keys[i]]),
                steps[i + 1],
            )
        } by {
            if i == 0 {
                assert(steps[1] == tail[0]);
            } else {
                assert(rest[i - 1] == keys[i]);
                assert(steps[i] == tail[i - 1]);
                assert(steps[i + 1] == tail[i]);
            }
        }
        assert(steps[keys.len() as int] == tail[rest.len() as int]);
        steps
    }
}

/// Merging objects with members of the same names replaces the value of each member
/// that changed, in the order of the names, each on its own, and keeps every other
/// character of the text, comments included. A value that is not found leaves the
/// text as it is, and the others are replaced all the same.
pub proof fn law_merging_replaces_the_changed_values_one_by_one(
    text: Seq<char>,
    old_members: Map<Seq<char>, Json>,
    new_members: Map<Seq<char>, Json>,
)
    requires
        old_members.dom().finite(),
        old_members.dom() == new_members.dom(),
    ensures
        exists|names: Seq<Seq<char>>, steps: Seq<Seq<char>>|
            lists_in_order(names, old_members.dom()) && #[trigger] replaces_one_by_one(
                text,
                names,
                old_members,
                new_members,
                steps,
                merged(text, Json::Object(old_members), Json::Object(new_members)),
            ),
{
    let keys = in_order(new_members.dom());
    lemma_order_exists(new_members.dom());
    let steps = lemma_steps(text, keys, old_members, new_members);
    let result = merged(text, Json::Object(old_members), Json::Object(new_members));
    if json_equal(Json::Object(old_members), Json::Object(new_members)) {
        assert forall|i: int| 0 <= i < keys.len() implies json_equal(
            old_members[#[trigger] keys[i]],
            new_members[keys[i]],
        ) by {
            assert(old_members.dom().contains(keys[i]));
        }
        lemma_unchanged_members(text, keys, old_members, new_members);
    }
    assert(replaces_one_by_one(text, keys, old_members, new_members, steps, result));
}

/// Steps that replace the same members one by one lead to one result.
pub proof fn law_replacing_one_by_one_has_one_result(
    text: Seq<char>,
    names: Seq<Seq<char>>,
    old_members: Map<Seq<char>, Json>,
    new_members: Map<Seq<char>, Json>,
    steps: Seq<Seq<char>>,
    result: Seq<char>,
    other_steps: Seq<Seq<char>>,
    other_result: Seq<char>,
)
    requires
        replaces_one_by_one(text, names, old_members, new_members, steps, result),
        replaces_one_by_one(text, names, old_members, new_members, other_steps, other_result),
    ensures
        result == other_result,
{
    lemma_same_steps(
        text,
        names,
        old_members,
        new_members,
        steps,
        result,
        other_steps,
        other_result,
        names.len(),
    );
}

/// Steps that replace the same members one by one are the same.
proof fn lemma_same_steps(
    text: Seq<char>,
    names: Seq<Seq<char>>,
    old_members: Map<Seq<char>, Json>,
    new_members: Map<Seq<char>, Json>,
    steps: Seq<Seq<char>>,
    result: Seq<char>,
    other_steps: Seq<Seq<char>>,
    other_result: Seq<char>,
    at: nat,
)
    requires
        replaces_one_by_one(text, names, old_members, new_members, steps, result),
        replaces_one_by_one(text, names, old_members, new_members, other_steps, other_result),
        at <= names.len(),
    ensures
        steps[at as int] == other_steps[at as int],
    decreases at,
{
    if at > 0 {
        let i = at - 1;
        lemma_same_steps(
            text,
            names,
            old_members,
            new_members,
            steps,
            result,
            other_steps,
            other_result,
            i as nat,
        );
        if !json_equal(old_members[names[i]], new_members[names[i]]) {
            law_one_replacement_has_one_result(
                steps[i],
                names[i],
                compact_text(old_members[names[i]]),
                pretty_text(new_members[names[i]]),
                steps[i + 1],
                other_steps[i + 1],
            );
        }
    }
}

/// Merging all changes at once is merging those of the names before some name
/// first, and the others then.
pub proof fn law_changes_can_be_merged_in_turn(
    text: Seq<char>,
    name: Seq<char>,
    old_members: Map<Seq<char>, Json>,
    middle: Map<Seq<char>, Json>,
    new_members: Map<Seq<char>, Json>,
)
    requires
        old_members.dom().finite(),
        old_members.dom() == new_members.dom(),
        middle.dom() == new_members.dom(),
        forall|key: Seq<char>| #[trigger]
            middle.dom().contains(key) ==> middle[key] == if text_less(key, name) {
                new_members[key]
            } else {
                old_members[key]
            },
        forall|key: Seq<char>| #[trigger]
            middle.dom().contains(key) ==> json_equal(old_members[key], old_members[key])
                && json_equal(new_members[key], new_members[key]),
    ensures
        merged(
            merged(text, Json::Object(old_members), Json::Object(middle)),
            Json::Object(middle),
            Json::Object(new_members),
        ) == merged(text, Json::Object(old_members), Json::Object(new_members)),
{
    let keys = in_order(new_members.dom());
    lemma_order_exists(new_members.dom());
    assert forall|i: int| 0 <= i < keys.len() implies middle.dom().contains(#[trigger] keys[i]) by {
        assert(new_members.dom().contains(keys[i]));
    }
    lemma_merged_is_replaced(text, keys, old_members, middle);
    lemma_merged_is_replaced(
        merged(text, Json::Object(old_members), Json::Object(middle)),
        keys,
        middle,
        new_members,
    );
    lemma_merged_is_replaced(text, keys, old_members, new_members);
    lemma_replaced_in_turn(text, keys, name, old_members, middle, new_members);
}

/// Merging objects with members of the same names is replacing their values.
proof fn lemma_merged_is_replaced(
    text: Seq<char>,
    keys: Seq<Seq<char>>,
    old_members: Map<Seq<char>, Json>,
    new_members: Map<Seq<char>, Json>,
)
    requires
        old_members.dom() == new_members.dom(),
        keys == in_order(new_members.dom()),
        lists_in_order(keys, new_members.dom()),
    ensures
        merged(text, Json::Object(old_members), Json::Object(new_members)) == values_replaced(
            text,
            keys,
            old_members,
            new_members,
        ),
{
    if json_equal(Json::Object(old_members), Json::Object(new_members)) {
        assert forall|i: int| 0 <= i < keys.len() implies json_equal(
            old_members[#[trigger] keys[i]],
            new_members[keys[i]],
        ) by {
            assert(old_members.dom().contains(keys[i]));
        }
        lemma_unchanged_members(text, keys, old_members, new_members);
    }
}

/// Replacing the values of the names before some name first, and the others then,
/// is replacing them all.
proof fn lemma_replaced_in_turn(
    text: Seq<char>,
    keys: Seq<Seq<char>>,
    name: Seq<char>,
    old_members: Map<Seq<char>, Json>,
    middle: Map<Seq<char>, Json>,
    new_members: Map<Seq<char>, Json>,
)
    requires
        forall|i: int, j: int|
            0 <= i < j < keys.len() ==> text_less(#[trigger] keys[i], #[trigger] keys[j]),
        forall|i: int|
            0 <= i < keys.len() ==> middle[#[trigger] keys[i]] == if text_less(keys[i], name) {
                new_members[keys[i]]
            } else {
                old_members[keys[i]]
            },
        forall|i: int|
            0 <= i < keys.len() ==> json_equal(
                old_members[#[trigger] keys[i]],
                old_members[keys[i]],
            ) && json_equal(new_members[keys[i]], new_members[keys[i]]),
    ensures
        values_replaced(
            values_replaced(text, keys, old_members, middle),
            keys,
            middle,
            new_members,
        ) == values_replaced(text, keys, old_members, new_members),
    decreases keys.len(),
{
    if keys.len() > 0 {
        let key = keys[0];
        let rest = keys.skip(1);
        assert forall|i: int| 0 <= i < rest.len() implies #[trigger] rest[i] == keys[i + 1] by {}
        assert(middle[keys[0]] == if text_less(keys[0], name) {
            new_members[keys[0]]
        } else {
            old_members[keys[0]]
        });
        assert(json_equal(old_members[keys[0]], old_members[keys[0]]));
        if text_less(key, name) {
            let next = if json_equal(old_members[key], new_members[key]) {
                text
            } else {
                value_replaced(text, key, old_members[key], new_members[key])
            };
            lemma_replaced_in_turn(next, rest, name, old_members, middle, new_members);
        } else {
            assert forall|i: int| 0 <= i < keys.len() implies middle[#[trigger] keys[i]]
                == old_members[keys[i]] by {
                if i > 0 && text_less(keys[i], name) {
                    lemma_text_less_transitive(keys[0], keys[i], name);
                }
            }
            assert forall|i: int| 0 <= i < keys.len() implies json_equal(
                old_members[#[trigger] keys[i]],
                middle[keys[i]],
            ) by {
                assert(json_equal(old_members[keys[i]], old_members[keys[i]]));
            }
            lemma_unchanged_members(text, keys, old_members, middle);
            lemma_replaced_alike(text, keys, middle, old_members, new_members);
        }
    }
}

/// Only the values of the members that are asked about count.
proof fn lemma_replaced_alike(
    text: Seq<char>,
    keys: Seq<Seq<char>>,
    a: Map<Seq<char>, Json>,
    b: Map<Seq<char>, Json>,
    new_members: Map<Seq<char>, Json>,
)
    requires
        forall|i: int| 0 <= i < keys.len() ==> a[#[trigger] keys[i]] == b[keys[i]],
    ensures
        values_replaced(text, keys, a, new_members) == values_replaced(text, keys, b, new_members),
    decreases keys.len(),
{
    if keys.len() > 0 {
        let rest = keys.skip(1);
        assert(a[keys[0]] == b[keys[0]]);
        assert forall|i: int| 0 <= i < rest.len() implies a[#[trigger] rest[i]] == b[rest[i]] by {
            assert(rest[i] == keys[i + 1]);
        }
        let next = if json_equal(a[keys[0]], new_members[keys[0]]) {
            text
        } else {
            value_replaced(text, keys[0], a[keys[0]], new_members[keys[0]])
        };
        lemma_replaced_alike(next, rest, a, b, new_members);
    }
}

/// Of several members that changed, one that is found in the text is written with
/// its new value there, though the others are not found.
pub proof fn law_found_value_is_replaced_though_others_are_not(
    text: Seq<char>,
    key: Seq<char>,
    old_members: Map<Seq<char>, Json>,
    new_members: Map<Seq<char>, Json>,
    result: Seq<char>,
)
    requires
        old_members.dom().finite(),
        old_members.dom() == new_members.dom(),
        old_members.dom().contains(key),
        !json_equal(old_members[key], new_members[key]),
        is_one_replacement(
            text,
            key,
            compact_text(old_members[key]),
            pretty_text(new_members[key]),
            result,
        ),
        forall|other: Seq<char>| #[trigger]
            old_members.dom().contains(other) && other != key && !json_equal(
                old_members[other],
                new_members[other],
            ) ==> {
                let name = seq!['"'] + other + seq!['"', ':'];
                let spaced_name = seq!['"'] + other + seq!['"', ':', ' '];
                let value = compact_text(old_members[other]);
                &&& !stands_in(text, name + value) && !stands_in(text, spaced_name + value)
                &&& !stands_in(result, name + value) && !stands_in(result, spaced_name + value)
            },
    ensures
        merged(text, Json::Object(old_members), Json::Object(new_members)) == result,
{
    law_merging_replaces_the_changed_values_one_by_one(text, old_members, new_members);
    let (names, steps) = choose|names: Seq<Seq<char>>, steps: Seq<Seq<char>>|
        lists_in_order(names, old_members.dom()) && #[trigger] replaces_one_by_one(
            text,
            names,
            old_members,
            new_members,
            steps,
            merged(text, Json::Object(old_members), Json::Object(new_members)),
        );
    let at = choose|at: int| 0 <= at < names.len() && names[at] == key;
    lemma_one_step_counts(text, names, at, old_members, new_members, steps, result, names.len());
}

/// Of steps of which all but one find nothing, the one gives the result.
proof fn lemma_one_step_counts(
    text: Seq<char>,
    names: Seq<Seq<char>>,
    at: int,
    old_members: Map<Seq<char>, Json>,
    new_members: Map<Seq<char>, Json>,
    steps: Seq<Seq<char>>,
    result: Seq<char>,
    i: nat,
)
    requires
        lists_in_order(names, old_members.dom()),
        0 <= at < names.len(),
        i <= names.len(),
        replaces_one_by_one(
            text,
            names,
            old_members,
            new_members,
            steps,
            steps[names.len() as int],
        ),
        !json_equal(old_members[names[at]], new_members[names[at]]),
        is_one_replacement(
            text,
            names[at],
            compact_text(old_members[names[at]]),
            pretty_text(new_members[names[at]]),
            result,
        ),
        forall|other: Seq<char>| #[trigger]
            old_members.dom().contains(other) && other != names[at] && !json_equal(
                old_members[other],
                new_members[other],
            ) ==> {
                let name = seq!['"'] + other + seq!['"', ':'];
                let spaced_name = seq!['"'] + other + seq!['"', ':', ' '];
                let value = compact_text(old_members[other]);
                &&& !stands_in(text, name + value) && !stands_in(text, spaced_name + value)
                &&& !stands_in(result, name + value) && !stands_in(result, spaced_name + value)
            },
    ensures
        steps[i as int] == if i <= at {
            text
        } else {
            result
        },
    decreases i,
{
    if i > 0 {
        let last = i - 1;
        lemma_one_step_counts(
            text,
            names,
            at,
            old_members,
            new_members,
            steps,
            result,
            last as nat,
        );
        assert(old_members.dom().contains(names[last]));
        if last == at {
            law_one_replacement_has_one_result(
                text,
                names[at],
                compact_text(old_members[names[at]]),
                pretty_text(new_members[names[at]]),
                result,
                steps[i as int],
            );
        } else {
            lemma_listed_once(names, old_members.dom(), last, at);
        }
    }
}

/// A document that is equal to the old one is written as the text stands.
pub proof fn law_merging_an_equal_document_keeps_the_text(
    text: Seq<char>,
    old_value: Json,
    new_value: Json,
)
    requires
        json_equal(old_value, new_value),
    ensures
        merged(text, old_value, new_value) == text,
{
}

/// A document that is not an object, or takes the place of one that is not, or has
/// members of other names, is written over several lines, whatever the text was.
pub proof fn law_merging_another_shape_writes_anew(
    text: Seq<char>,
    old_value: Json,
    new_value: Json,
)
    requires
        !json_equal(old_value, new_value),
        old_value matches Json::Object(old_members) ==> (new_value matches Json::Object(new_members)
            ==> exists|name: Seq<char>| #[trigger]
            old_members.dom().contains(name) != new_members.dom().contains(name)),
    ensures
        merged(text, old_value, new_value) == pretty_text(new_value),
{
    if old_value is Object && new_value is Object {
        let name = choose|name: Seq<char>| #[trigger]
            members_of(old_value).dom().contains(name) != members_of(new_value).dom().contains(name);
        assert(members_of(old_value).dom() != members_of(new_value).dom());
    }
}

/// The text for an object that had members of other names is that of the object,
/// and for one with the same names that of the merged documents.
pub proof fn law_objects_are_merged_as_documents(
    text: Seq<char>,
    old_members: Map<Seq<char>, Json>,
    new_members: Map<Seq<char>, Json>,
)
    requires
        old_members.dom().finite(),
    ensures
        objects_merged(text, old_members, new_members) == merged(
            text,
            Json::Object(old_members),
            Json::Object(new_members),
        ),
{
    if old_members.dom() == new_members.dom() {
        lemma_order_exists(new_members.dom());
        lemma_merged_is_replaced(
            text,
            in_order(new_members.dom()),
            old_members,
            new_members,
        );
    }
}

/// A text that is not JSON, even without its comments, cannot be written over: the
/// error has the message of the parser.
pub proof fn law_unreadable_text_is_refused(
    original: Seq<char>,
    document: Json,
    message: Seq<char>,
)
    requires
        parsed(stripped(original)) == Err::<Json, Seq<char>>(message),
    ensures
        comments_preserved(original, document) == Err::<Seq<char>, Seq<char>>(
            "Failed to parse original: "@ + message,
        ),
{
}

/// A text from which the document is read is kept as it stands.
pub proof fn law_text_of_an_equal_document_is_kept(
    original: Seq<char>,
    before: Json,
    document: Json,
)
    requires
        parsed(stripped(original)) == Ok::<Json, Seq<char>>(before),
        json_equal(before, document) || (jsonc_parsed(original) matches Ok(Some(read))
            && json_equal(read, document)),
    ensures
        comments_preserved(original, document) == Ok::<Seq<char>, Seq<char>>(original),
{
}

/// A text that `jsonc_parser` refuses cannot be changed: the error has its message.
pub proof fn law_text_that_is_not_jsonc_is_refused(
    original: Seq<char>,
    before: Json,
    document: Json,
    message: Seq<char>,
)
    requires
        parsed(stripped(original)) == Ok::<Json, Seq<char>>(before),
        !json_equal(before, document),
        jsonc_parsed(original) == Err::<Option<Json>, Seq<char>>(message),
    ensures
        comments_preserved(original, document) == Err::<Seq<char>, Seq<char>>(
            "JSONC parse error: "@ + message,
        ),
{
}

/// Any other document is merged into the text, over the one that is read from it.
pub proof fn law_another_document_is_merged_into_the_text(
    original: Seq<char>,
    before: Json,
    document: Json,
)
    requires
        parsed(stripped(original)) == Ok::<Json, Seq<char>>(before),
        !json_equal(before, document),
        jsonc_parsed(original) is Ok,
        jsonc_parsed(original) matches Ok(Some(read)) ==> !json_equal(read, document),
    ensures
        comments_preserved(original, document) == Ok::<Seq<char>, Seq<char>>(
            merged(original, before, document),
        ),
{
}

/// Each change is made in its turn: the text with the changes of the names up to
/// and with some name is the text with those of the names before it, with that one
/// value replaced, whether or not the others were found.
pub proof fn law_each_change_is_made_in_its_turn(
    text: Seq<char>,
    key: Seq<char>,
    old_members: Map<Seq<char>, Json>,
    middle: Map<Seq<char>, Json>,
    new_members: Map<Seq<char>, Json>,
)
    requires
        old_members.dom().finite(),
        old_members.dom() == new_members.dom(),
        middle.dom() == new_members.dom(),
        old_members.dom().contains(key),
        !json_equal(old_members[key], new_members[key]),
        forall|name: Seq<char>| #[trigger]
            middle.dom().contains(name) ==> middle[name] == if text_less(name, key) {
                new_members[name]
            } else {
                old_members[name]
            },
        forall|name: Seq<char>| #[trigger]
            middle.dom().contains(name) ==> json_equal(old_members[name], old_members[name])
                && json_equal(new_members[name], new_members[name]),
    ensures
        is_one_replacement(
            merged(text, Json::Object(old_members), Json::Object(middle)),
            key,
            compact_text(old_members[key]),
            pretty_text(new_members[key]),
            merged(
                text,
                Json::Object(old_members),
                Json::Object(middle.insert(key, new_members[key])),
            ),
        ),
{
    let next = middle.insert(key, new_members[key]);
    lemma_text_less_asymmetric(key, key);
    assert(middle.dom().contains(key));
    assert(next.dom() == middle.dom());
    assert forall|name: Seq<char>| #[trigger] middle.dom().contains(name) implies json_equal(
        middle[name],
        middle[name],
    ) && json_equal(next[name], next[name]) by {
        assert(json_equal(old_members[name], old_members[name]));
    }
    law_changes_can_be_merged_in_turn(text, key, old_members, middle, next);
    let before = merged(text, Json::Object(old_members), Json::Object(middle));
    law_one_change_is_one_replacement(before, key, middle, next);
    law_value_is_replaced_by_the_characters(before, key, middle[key], next[key]);
}

} // verus!
