//! The configuration as a document: read from the text of its file, and turned
//! into the text to write.

use vstd::prelude::*;

use crate::comments::law_comment_free_is_unchanged;
use crate::comments::strip_jsonc_comments;
use crate::comments::stripped;
use crate::error::AppError;
use crate::json::compact_text;
use crate::json::error_text;
use crate::json::json;
use crate::json::is_leaf;
use crate::json::json_equal;
use crate::json::jsonc_parsed;
use crate::json::members_of;
use crate::json::nested_within;
use crate::json::no_members;
use crate::json::object_value;
use crate::json::parse_text;
use crate::json::parsed;
use crate::json::pretty_text;
use crate::json::reads_with;
use crate::json::reread;
use crate::json::survives_text;
use crate::json::text_value;
use crate::json::write_pretty;
use crate::json::Json;
use crate::json::NESTING_LIMIT;
use crate::merge::changes_are_read;
use crate::merge::comments_preserved;
use crate::merge::has_other_names;
use crate::merge::is_written_once;
use crate::merge::jsonc_reads_another;
use crate::merge::law_merging_an_equal_document_keeps_the_text;
use crate::merge::law_merging_replaces_the_changed_values_one_by_one;
use crate::merge::lemma_reads_as_it_was;
use crate::merge::merged;
use crate::merge::merges_objects;
use crate::merge::one_change_is_read;
use crate::merge::preserve_comments_in_json;
use crate::merge::preserving_writes_anew;
use crate::merge::reads_back;
use crate::merge::replaces_one_by_one;
use crate::merge::replaces_the_member;
use crate::merge::value_replaced;
use crate::merge::value_written_once_is_read;
use crate::text::lists_in_order;

verus! {

/// The characters of a text that may be missing.
pub open spec fn content(text: Option<&str>) -> Option<Seq<char>> {
    match text {
        Some(chars) => Some(chars@),
        None => None,
    }
}

/// The text that was read last, if any was.
pub open spec fn remembered(cache: Option<String>) -> Option<Seq<char>> {
    match cache {
        Some(text) => Some(text@),
        None => None,
    }
}

/// The document of a configuration that has no file yet.
pub open spec fn default_document() -> Json {
    Json::Object(
        no_members().insert("$schema"@, Json::Text("https://opencode.ai/config.json"@)),
    )
}

/// The document in a configuration file that may be missing, or the message of
/// the error for a file that is not JSON.
pub open spec fn document_in(file: Option<Seq<char>>) -> Result<Json, Seq<char>> {
    match file {
        Some(text) => parsed(stripped(text)),
        None => Ok(default_document()),
    }
}

/// The text that is remembered after a read: that of the file, if there is one.
pub open spec fn remembered_after(file: Option<Seq<char>>, before: Option<Seq<char>>) -> Option<
    Seq<char>,
> {
    match file {
        Some(text) => Some(text),
        None => before,
    }
}

/// The text to write for a document: over the text that is remembered, if there
/// is one and it can be read, else anew.
pub open spec fn text_to_write(original: Option<Seq<char>>, document: Json) -> Seq<char> {
    match original {
        Some(text) => match comments_preserved(text, document) {
            Ok(preserved) => preserved,
            Err(_) => pretty_text(document),
        },
        None => pretty_text(document),
    }
}

/// Whether a document is written anew.
pub open spec fn writes_anew(original: Option<Seq<char>>, document: Json) -> bool {
    match original {
        Some(text) => comments_preserved(text, document) is Err || preserving_writes_anew(
            text,
            document,
        ),
        None => true,
    }
}

/// What holds of the text that is written for a document. Where the document is
/// written anew, or has members of other names than the one in the remembered
/// text, it is what a later read gives back. Where it is the document that was
/// read from the remembered text, that text is written as it was. Where it is
/// that document with one member changed, the value of the member is replaced in
/// the text, and where it is that document with any members changed, the changes
/// are read where each was made to the member that is read.
pub open spec fn is_faithful(original: Option<Seq<char>>, document: Json, text: Seq<char>) -> bool {
    &&& writes_anew(original, document) ==> reads_back(text, document)
    &&& original matches Some(before) ==> {
        &&& has_other_names(before, document) ==> reads_back(text, document)
        &&& document_in(original) == Ok::<Json, Seq<char>>(document) ==> text == before
        &&& merges_objects(before, document) ==> one_change_is_read(
            before,
            members_of(document_in(original)->Ok_0),
            members_of(document),
            text,
        ) && changes_are_read(
            before,
            members_of(document_in(original)->Ok_0),
            members_of(document),
            text,
        )
        &&& comments_preserved(before, document) is Ok ==> value_written_once_is_read(
            before,
            document,
            text,
        )
    }
}

/// The document of a configuration that has no file yet.
fn default_config() -> (config: serde_json::Value)
    ensures
        json(config) == default_document(),
        nested_within(json(config), NESTING_LIMIT as nat),
{
    let mut map: serde_json::Map<String, serde_json::Value> = serde_json::Map::new();
    let _ = map.insert(
        "$schema".to_owned(),
        text_value("https://opencode.ai/config.json".to_owned()),
    );
    proof {
        reveal_with_fuel(nested_within, 2);
    }
    object_value(map)
}

/// Reads the configuration from the content of its file, or gives the default
/// when there is no file. The content is remembered, comments and all, for the
/// next write.
pub fn read_opencode_config(file: Option<&str>, cache: &mut Option<String>) -> (result: Result<
    serde_json::Value,
    AppError,
>)
    ensures
        match result {
            Ok(config) => document_in(content(file)) == Ok::<Json, Seq<char>>(json(config)),
            Err(AppError::Json { source }) => document_in(content(file)) == Err::<Json, Seq<char>>(
                error_text(source),
            ),
            Err(_) => false,
        },
        result matches Ok(config) ==> nested_within(json(config), NESTING_LIMIT as nat),
        content(file) matches Some(text) ==> parsed(text) is Ok ==> stripped(text) == text,
        remembered(*final(cache)) == remembered_after(content(file), remembered(*old(cache))),
{
    let text = match file {
        None => {
            return Ok(default_config());
        },
        Some(text) => text,
    };
    *cache = Some(text.to_owned());
    // Plain JSON has no comments to strip.
    if let Ok(config) = parse_text(text) {
        proof {
            law_comment_free_is_unchanged(text@);
        }
        return Ok(config);
    }
    let cleaned = strip_jsonc_comments(text);
    match parse_text(cleaned.as_str()) {
        Ok(config) => Ok(config),
        Err(source) => Err(AppError::Json { source }),
    }
}

/// The text to write for a configuration. Comments of the text that was read
/// last are kept where they can; else the configuration is written as plain
/// JSON.
pub fn write_opencode_config(cache: &Option<String>, config: &serde_json::Value) -> (result: Result<
    String,
    AppError,
>)
    ensures
        result is Ok,
        result->Ok_0@ == text_to_write(remembered(*cache), json(*config)),
        is_faithful(remembered(*cache), json(*config), result->Ok_0@),
{
    if let Some(original) = cache {
        if let Ok(merged) = preserve_comments_in_json(original.as_str(), config) {
            return Ok(merged);
        }
    }
    match write_pretty(config) {
        Ok(text) => {
            proof {
                law_comment_free_is_unchanged(text@);
            }
            Ok(text)
        },
        Err(source) => Err(AppError::JsonSerialize { source }),
    }
}

/// A document in which one member got another value is written by replacing that
/// value in the text that the document was read from, and nothing else. Where the
/// text that is replaced is the one that the member is read from, as it is where
/// the member stands in the text once, a later read gives the changed document, if
/// the value survives it, and else that document with the floating point numbers
/// of the value as they are read. The text must be one that `jsonc_parser` reads
/// too, and not as the changed document, which it does not where the value is
/// neither an array nor an object.
pub proof fn law_changed_member_is_replaced_and_read(
    text: Seq<char>,
    document: Json,
    key: Seq<char>,
    value: Json,
    written: Seq<char>,
)
    requires
        document_in(Some(text)) == Ok::<Json, Seq<char>>(document),
        members_of(document).dom().contains(key),
        !json_equal(members_of(document)[key], value),
        jsonc_parsed(text) is Ok,
        is_leaf(value) || jsonc_reads_another(
            text,
            Json::Object(members_of(document).insert(key, value)),
        ),
        is_faithful(Some(text), Json::Object(members_of(document).insert(key, value)), written),
    ensures
        written == value_replaced(text, key, members_of(document)[key], value),
        replaces_the_member(
            text,
            key,
            compact_text(members_of(document)[key]),
            members_of(document),
        ) && nested_within(value, (NESTING_LIMIT - 1) as nat) ==> reads_with(
            stripped(written),
            members_of(document),
            key,
            value,
        ),
        (replaces_the_member(
            text,
            key,
            compact_text(members_of(document)[key]),
            members_of(document),
        ) || is_written_once(text, key, compact_text(members_of(document)[key]))) && survives_text(
            value,
            (NESTING_LIMIT - 1) as nat,
        ) ==> document_in(Some(written)) == Ok::<Json, Seq<char>>(
            Json::Object(members_of(document).insert(key, value)),
        ),
{
    let members = members_of(document);
    let changed = members.insert(key, value);
    assert(changed == members.insert(key, changed[key]));
    assert(changed.dom().contains(key));
    if reads_with(stripped(written), members, key, value) && reread(value, value) {
        lemma_reads_as_it_was(stripped(written), members, key, value);
    }
    assert(comments_preserved(text, Json::Object(changed)) is Ok) by {
        assert(!json_equal(document, Json::Object(changed)));
    }
}

/// A file is read as JSON once its comments are stripped.
pub proof fn law_file_is_read_without_its_comments(text: Seq<char>)
    ensures
        document_in(Some(text)) == parsed(stripped(text)),
{
}

/// A missing file is read as an object of the schema alone.
pub proof fn law_missing_file_is_the_schema_alone()
    ensures
        document_in(None) == Ok::<Json, Seq<char>>(
            Json::Object(
                Map::<Seq<char>, Json>::empty().insert(
                    "$schema"@,
                    Json::Text("https://opencode.ai/config.json"@),
                ),
            ),
        ),
{
}

/// After a read the text of the file is remembered, character for character, or
/// what was remembered before where there is no file.
pub proof fn law_text_that_was_read_is_remembered(
    text: Seq<char>,
    before: Option<Seq<char>>,
    cached: String,
    file: &str,
)
    ensures
        remembered_after(Some(text), before) == Some(text),
        remembered_after(None, before) == before,
        remembered(Some(cached)) == Some(cached@),
        remembered(None) == None::<Seq<char>>,
        content(Some(file)) == Some(file@),
        content(None) == None::<Seq<char>>,
{
}

/// With nothing remembered a document is written over several lines.
pub proof fn law_without_a_text_a_document_is_written_plainly(document: Json)
    ensures
        text_to_write(None, document) == pretty_text(document),
{
}

/// Over a text that is not JSON, even without its comments, a document is written
/// as if nothing were remembered.
pub proof fn law_over_an_unreadable_text_a_document_is_written_plainly(
    text: Seq<char>,
    document: Json,
)
    requires
        parsed(stripped(text)) is Err,
    ensures
        text_to_write(Some(text), document) == pretty_text(document),
{
}

/// Over a text that `jsonc_parser` refuses, a document that is not equal to the one
/// in it is written as if nothing were remembered.
pub proof fn law_over_a_text_that_is_not_jsonc_a_document_is_written_plainly(
    text: Seq<char>,
    before: Json,
    document: Json,
)
    requires
        parsed(stripped(text)) == Ok::<Json, Seq<char>>(before),
        !json_equal(before, document),
        jsonc_parsed(text) is Err,
    ensures
        text_to_write(Some(text), document) == pretty_text(document),
{
}

/// Over a text from which an equal document is read, that text is written.
pub proof fn law_over_the_text_of_an_equal_document_that_text_is_written(
    text: Seq<char>,
    before: Json,
    document: Json,
)
    requires
        parsed(stripped(text)) == Ok::<Json, Seq<char>>(before),
        json_equal(before, document) || (jsonc_parsed(text) matches Ok(Some(read)) && json_equal(
            read,
            document,
        )),
    ensures
        text_to_write(Some(text), document) == text,
{
}

/// Over any other text a document is merged into it.
pub proof fn law_over_any_other_text_a_document_is_merged_into_it(
    text: Seq<char>,
    before: Json,
    document: Json,
)
    requires
        parsed(stripped(text)) == Ok::<Json, Seq<char>>(before),
        !json_equal(before, document),
        jsonc_parsed(text) is Ok,
        jsonc_parsed(text) matches Ok(Some(read)) ==> !json_equal(read, document),
    ensures
        text_to_write(Some(text), document) == merged(text, before, document),
{
}

/// A document whose members have the names of the one in the remembered text is
/// written as that text with the value of each member that changed replaced, in the
/// order of the names, each on its own, and with every other character kept.
pub proof fn law_changed_values_are_written_one_by_one(
    text: Seq<char>,
    old_members: Map<Seq<char>, Json>,
    new_members: Map<Seq<char>, Json>,
)
    requires
        parsed(stripped(text)) == Ok::<Json, Seq<char>>(Json::Object(old_members)),
        jsonc_parsed(text) is Ok,
        jsonc_parsed(text) matches Ok(Some(read)) ==> !json_equal(read, Json::Object(new_members)),
        old_members.dom().finite(),
        old_members.dom() == new_members.dom(),
    ensures
        exists|names: Seq<Seq<char>>, steps: Seq<Seq<char>>|
            lists_in_order(names, old_members.dom()) && #[trigger] replaces_one_by_one(
                text,
                names,
                old_members,
                new_members,
                steps,
                text_to_write(Some(text), Json::Object(new_members)),
            ),
{
    law_merging_replaces_the_changed_values_one_by_one(text, old_members, new_members);
    if json_equal(Json::Object(old_members), Json::Object(new_members)) {
        law_merging_an_equal_document_keeps_the_text(
            text,
            Json::Object(old_members),
            Json::Object(new_members),
        );
    }
    assert(text_to_write(Some(text), Json::Object(new_members)) == merged(
        text,
        Json::Object(old_members),
        Json::Object(new_members),
    ));
}

} // verus!
