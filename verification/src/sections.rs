//! The named entries of the configuration: its providers and its MCP servers.

use vstd::prelude::*;

use crate::config::content;
use crate::config::document_in;
use crate::config::is_faithful;
use crate::config::law_changed_member_is_replaced_and_read;
use crate::config::read_opencode_config;
use crate::config::remembered;
use crate::config::remembered_after;
use crate::config::text_to_write;
use crate::config::write_opencode_config;
use crate::config::writes_anew;
use crate::error::AppError;
use crate::json::assign_member;
use crate::json::compact_text;
use crate::json::entries;
use crate::json::error_text;
use crate::json::json;
use crate::json::json_equal;
use crate::json::lemma_reread_member;
use crate::json::map_remove;
use crate::json::member_names;
use crate::json::members_of;
use crate::json::nested_within;
use crate::json::no_members;
use crate::json::object_value;
use crate::json::reread;
use crate::json::survives_text;
use crate::json::takes_keys;
use crate::json::value_get;
use crate::json::value_get_mut;
use crate::json::Json;
use crate::json::NESTING_LIMIT;
use crate::merge::is_written_once;
use crate::merge::jsonc_reads_another;
use crate::merge::reads_back;
use crate::merge::replaces_the_member;

verus! {

/// The entries of a section: none where the document has no such section, or
/// where it is not an object.
pub open spec fn section_of(document: Json, section: Seq<char>) -> Map<Seq<char>, Json> {
    if members_of(document).dom().contains(section) {
        members_of(members_of(document)[section])
    } else {
        no_members()
    }
}

/// Whether a section can take entries: it is an object, or not there yet.
pub open spec fn section_takes_entries(document: Json, section: Seq<char>) -> bool {
    takes_keys(document) && (members_of(document).dom().contains(section) ==> members_of(
        document,
    )[section] is Object)
}

/// The document with another section.
pub open spec fn with_section(document: Json, section: Seq<char>, value: Json) -> Json {
    Json::Object(members_of(document).insert(section, value))
}

/// The document with an entry added to a section, or replaced there. The section
/// is added where it is missing; where it is not an object the document is left
/// as it is.
pub open spec fn with_entry(document: Json, section: Seq<char>, id: Seq<char>, entry: Json) -> Json {
    if section_takes_entries(document, section) {
        with_section(
            document,
            section,
            Json::Object(section_of(document, section).insert(id, entry)),
        )
    } else {
        document
    }
}

/// The document with an entry removed from a section, if it is there.
pub open spec fn without_entry(document: Json, section: Seq<char>, id: Seq<char>) -> Json {
    if members_of(document).dom().contains(section) && members_of(document)[section] is Object {
        with_section(document, section, Json::Object(section_of(document, section).remove(id)))
    } else {
        document
    }
}

/// Whether writing a document over its text with other entries of a section
/// replaces the text that the section is read from: the entries changed, they
/// survive it, and `jsonc_parser` reads the text too, as anything but the changed
/// document.
pub open spec fn section_is_replaced(
    text: Seq<char>,
    document: Json,
    section: Seq<char>,
    inner: Map<Seq<char>, Json>,
) -> bool {
    let before = members_of(document)[section];
    &&& !json_equal(before, Json::Object(inner))
    &&& survives_text(Json::Object(inner), (NESTING_LIMIT - 1) as nat)
    &&& jsonc_reads_another(text, with_section(document, section, Json::Object(inner)))
    &&& replaces_the_member(text, section, compact_text(before), members_of(document))
        || is_written_once(text, section, compact_text(before))
}

/// Adds an entry to a section of a document, or replaces it.
pub fn put_entry(config: &mut serde_json::Value, section: &str, id: &str, entry: serde_json::Value)
    requires
        takes_keys(json(*old(config))),
    ensures
        json(*final(config)) == with_entry(json(*old(config)), section@, id@, json(entry)),
{
    let ghost before = json(*config);
    let ghost members = members_of(before);
    if value_get(config, section).is_none() {
        assign_member(config, section, object_value(serde_json::Map::new()));
    }
    proof {
        let added = Json::Object(no_members());
        assert(!members.dom().contains(section@) ==> members_of(json(*config)) == members.insert(
            section@,
            added,
        ));
        assert(members.dom().contains(section@) ==> members.insert(section@, members[section@])
            == members);
        let filled = Json::Object(no_members().insert(id@, json(entry)));
        assert(members.insert(section@, added).insert(section@, filled) == members.insert(
            section@,
            filled,
        ));
    }
    if let Some(value) = value_get_mut(config, section) {
        if let Some(map) = value.as_object_mut() {
            let _ = map.insert(id.to_owned(), entry);
        }
    }
}

/// Removes an entry from a section of a document, if it is there.
pub fn take_entry(config: &mut serde_json::Value, section: &str, id: &str)
    ensures
        json(*final(config)) == without_entry(json(*old(config)), section@, id@),
{
    proof {
        let members = members_of(json(*config));
        assert(members.dom().contains(section@) ==> members.insert(section@, members[section@])
            == members);
    }
    if let Some(value) = value_get_mut(config, section) {
        if let Some(map) = value.as_object_mut() {
            let _ = map_remove(map, id);
        }
    }
}

/// What getting the entries of a section gives: the entries, or the error of the
/// read.
pub open spec fn entries_are_given(
    file: Option<Seq<char>>,
    section: Seq<char>,
    result: Result<serde_json::Map<String, serde_json::Value>, AppError>,
) -> bool {
    match document_in(file) {
        Ok(document) => result is Ok && entries(result->Ok_0) == section_of(document, section),
        Err(message) => result matches Err(AppError::Json { source }) && error_text(source)
            == message,
    }
}

/// What setting an entry gives: the text to write, nothing where the document
/// takes no keys, or the error of the read.
pub open spec fn entry_is_set(
    file: Option<Seq<char>>,
    original: Option<Seq<char>>,
    section: Seq<char>,
    id: Seq<char>,
    entry: Json,
    result: Result<Option<String>, AppError>,
) -> bool {
    match document_in(file) {
        Ok(document) => if takes_keys(document) {
            let changed = with_entry(document, section, id, entry);
            &&& result matches Ok(Some(text))
            &&& text@ == text_to_write(original, changed)
            &&& is_faithful(original, changed, text@)
        } else {
            result matches Ok(None)
        },
        Err(message) => result matches Err(AppError::Json { source }) && error_text(source)
            == message,
    }
}

/// What removing an entry gives: the text to write, or the error of the read.
pub open spec fn entry_is_removed(
    file: Option<Seq<char>>,
    original: Option<Seq<char>>,
    section: Seq<char>,
    id: Seq<char>,
    result: Result<String, AppError>,
) -> bool {
    match document_in(file) {
        Ok(document) => {
            let changed = without_entry(document, section, id);
            &&& result matches Ok(text)
            &&& text@ == text_to_write(original, changed)
            &&& is_faithful(original, changed, text@)
        },
        Err(message) => result matches Err(AppError::Json { source }) && error_text(source)
            == message,
    }
}

/// Whether a file is written as it was when it has no such entry to remove.
pub open spec fn absent_entry_changes_nothing(
    file: Option<Seq<char>>,
    section: Seq<char>,
    id: Seq<char>,
    result: Result<String, AppError>,
) -> bool {
    match (file, document_in(file)) {
        (Some(text), Ok(document)) => !section_of(document, section).dom().contains(id) ==> result is Ok
            && result->Ok_0@ == text,
        _ => true,
    }
}

/// What holds of the first entry of a section: it is what a later read of the
/// section gives. The text that is remembered must be that of the file, and the
/// entry must survive as the member of a member.
pub open spec fn first_entry_is_read(
    file: Option<Seq<char>>,
    original: Option<Seq<char>>,
    section: Seq<char>,
    id: Seq<char>,
    entry: Json,
    result: Result<Option<String>, AppError>,
) -> bool {
    match document_in(file) {
        Ok(document) => original == file && takes_keys(document) && !members_of(
            document,
        ).dom().contains(section) && survives_text(
            entry,
            (NESTING_LIMIT - 2) as nat,
        ) ==> {
            &&& result matches Ok(Some(text))
            &&& document_in(Some(text@)) matches Ok(later)
            &&& section_of(later, section) == no_members().insert(id, entry)
        },
        Err(_) => true,
    }
}

/// The entries of a section of the configuration.
fn get_entries(file: Option<&str>, cache: &mut Option<String>, section: &str) -> (result: Result<
    serde_json::Map<String, serde_json::Value>,
    AppError,
>)
    ensures
        entries_are_given(content(file), section@, result),
        remembered(*final(cache)) == remembered_after(content(file), remembered(*old(cache))),
{
    let config = match read_opencode_config(file, cache) {
        Ok(config) => config,
        Err(error) => {
            return Err(error);
        },
    };
    if let Some(value) = value_get(&config, section) {
        if let Some(map) = value.as_object() {
            return Ok(map.clone());
        }
    }
    Ok(serde_json::Map::new())
}

/// Sets an entry of a section of the configuration.
fn set_entry(
    file: Option<&str>,
    cache: &mut Option<String>,
    section: &str,
    id: &str,
    entry: serde_json::Value,
) -> (result: Result<Option<String>, AppError>)
    ensures
        entry_is_set(
            content(file),
            remembered(*final(cache)),
            section@,
            id@,
            json(entry),
            result,
        ),
        first_entry_is_read(
            content(file),
            remembered(*final(cache)),
            section@,
            id@,
            json(entry),
            result,
        ),
        remembered(*final(cache)) == remembered_after(content(file), remembered(*old(cache))),
{
    let mut config = match read_opencode_config(file, cache) {
        Ok(config) => config,
        Err(error) => {
            return Err(error);
        },
    };
    if !config.is_object() && !config.is_null() {
        return Ok(None);
    }
    let ghost before = json(config);
    let ghost added = json(entry);
    put_entry(&mut config, section, id, entry);
    match write_opencode_config(cache, &config) {
        Ok(text) => {
            proof {
                if remembered(*cache) == content(file) && !members_of(before).dom().contains(
                    section@,
                ) && survives_text(added, (NESTING_LIMIT - 2) as nat) {
                    lemma_first_entry_is_read(before, section@, id@, added, text@);
                }
            }
            Ok(Some(text))
        },
        Err(error) => Err(error),
    }
}

/// Removes an entry of a section of the configuration.
fn remove_entry(file: Option<&str>, cache: &mut Option<String>, section: &str, id: &str) -> (result:
    Result<String, AppError>)
    ensures
        entry_is_removed(content(file), remembered(*final(cache)), section@, id@, result),
        absent_entry_changes_nothing(content(file), section@, id@, result),
        remembered(*final(cache)) == remembered_after(content(file), remembered(*old(cache))),
{
    let mut config = match read_opencode_config(file, cache) {
        Ok(config) => config,
        Err(error) => {
            return Err(error);
        },
    };
    proof {
        if !section_of(json(config), section@).dom().contains(id@) {
            law_removing_nothing_changes_nothing(json(config), section@, id@);
        }
    }
    take_entry(&mut config, section, id);
    write_opencode_config(cache, &config)
}

/// The providers of the configuration, by their ids.
pub fn get_providers(file: Option<&str>, cache: &mut Option<String>) -> (result: Result<
    serde_json::Map<String, serde_json::Value>,
    AppError,
>)
    ensures
        entries_are_given(content(file), "provider"@, result),
        remembered(*final(cache)) == remembered_after(content(file), remembered(*old(cache))),
{
    get_entries(file, cache, "provider")
}

/// Sets a provider of the configuration. The result is the text to write; there
/// is none where the configuration is neither an object nor null, for there a
/// provider cannot be set.
pub fn set_provider(
    file: Option<&str>,
    cache: &mut Option<String>,
    id: &str,
    config: serde_json::Value,
) -> (result: Result<Option<String>, AppError>)
    ensures
        entry_is_set(
            content(file),
            remembered(*final(cache)),
            "provider"@,
            id@,
            json(config),
            result,
        ),
        first_entry_is_read(
            content(file),
            remembered(*final(cache)),
            "provider"@,
            id@,
            json(config),
            result,
        ),
        remembered(*final(cache)) == remembered_after(content(file), remembered(*old(cache))),
{
    set_entry(file, cache, "provider", id, config)
}

/// Removes a provider of the configuration. The result is the text to write.
pub fn remove_provider(file: Option<&str>, cache: &mut Option<String>, id: &str) -> (result: Result<
    String,
    AppError,
>)
    ensures
        entry_is_removed(content(file), remembered(*final(cache)), "provider"@, id@, result),
        absent_entry_changes_nothing(content(file), "provider"@, id@, result),
        remembered(*final(cache)) == remembered_after(content(file), remembered(*old(cache))),
{
    remove_entry(file, cache, "provider", id)
}

/// Sets a provider from what its typed configuration was turned into. Where that
/// failed nothing is read or remembered.
pub fn set_typed_provider(
    file: Option<&str>,
    cache: &mut Option<String>,
    id: &str,
    config: Result<serde_json::Value, serde_json::Error>,
) -> (result: Result<Option<String>, AppError>)
    ensures
        match config {
            Ok(value) => entry_is_set(
                content(file),
                remembered(*final(cache)),
                "provider"@,
                id@,
                json(value),
                result,
            ) && first_entry_is_read(
                content(file),
                remembered(*final(cache)),
                "provider"@,
                id@,
                json(value),
                result,
            ) && remembered(*final(cache)) == remembered_after(
                content(file),
                remembered(*old(cache)),
            ),
            Err(error) => result == Err::<Option<String>, AppError>(
                AppError::JsonSerialize { source: error },
            ) && *final(cache) == *old(cache),
        },
{
    match config {
        Ok(value) => set_provider(file, cache, id, value),
        Err(source) => Err(AppError::JsonSerialize { source }),
    }
}

/// The MCP servers of the configuration, by their ids.
pub fn get_mcp_servers(file: Option<&str>, cache: &mut Option<String>) -> (result: Result<
    serde_json::Map<String, serde_json::Value>,
    AppError,
>)
    ensures
        entries_are_given(content(file), "mcp"@, result),
        remembered(*final(cache)) == remembered_after(content(file), remembered(*old(cache))),
{
    get_entries(file, cache, "mcp")
}

/// Sets an MCP server of the configuration. The result is the text to write;
/// there is none where the configuration is neither an object nor null, for there
/// a server cannot be set.
pub fn set_mcp_server(
    file: Option<&str>,
    cache: &mut Option<String>,
    id: &str,
    config: serde_json::Value,
) -> (result: Result<Option<String>, AppError>)
    ensures
        entry_is_set(
            content(file),
            remembered(*final(cache)),
            "mcp"@,
            id@,
            json(config),
            result,
        ),
        first_entry_is_read(
            content(file),
            remembered(*final(cache)),
            "mcp"@,
            id@,
            json(config),
            result,
        ),
        remembered(*final(cache)) == remembered_after(content(file), remembered(*old(cache))),
{
    set_entry(file, cache, "mcp", id, config)
}

/// Removes an MCP server of the configuration. The result is the text to write.
pub fn remove_mcp_server(file: Option<&str>, cache: &mut Option<String>, id: &str) -> (result:
    Result<String, AppError>)
    ensures
        entry_is_removed(content(file), remembered(*final(cache)), "mcp"@, id@, result),
        absent_entry_changes_nothing(content(file), "mcp"@, id@, result),
        remembered(*final(cache)) == remembered_after(content(file), remembered(*old(cache))),
{
    remove_entry(file, cache, "mcp", id)
}

/// An entry that was set is what a read of the section gives, and the other
/// entries are kept.
pub proof fn law_set_entry_is_read(document: Json, section: Seq<char>, id: Seq<char>, entry: Json)
    requires
        section_takes_entries(document, section),
    ensures
        section_of(with_entry(document, section, id, entry), section) == section_of(
            document,
            section,
        ).insert(id, entry),
{
}

/// An entry that was removed is not read any more, and the other entries are
/// kept.
pub proof fn law_removed_entry_is_gone(document: Json, section: Seq<char>, id: Seq<char>)
    ensures
        section_of(without_entry(document, section, id), section) == section_of(
            document,
            section,
        ).remove(id),
        !section_of(without_entry(document, section, id), section).dom().contains(id),
{
    assert(no_members().remove(id) == no_members());
}

/// Setting or removing an entry leaves the other members of the document as they
/// are, other sections among them.
pub proof fn law_other_members_are_kept(
    document: Json,
    section: Seq<char>,
    other: Seq<char>,
    id: Seq<char>,
    entry: Json,
)
    requires
        other != section,
    ensures
        section_of(with_entry(document, section, id, entry), other) == section_of(document, other),
        section_of(without_entry(document, section, id), other) == section_of(document, other),
        members_of(with_entry(document, section, id, entry)).remove(section) == members_of(
            document,
        ).remove(section),
        members_of(without_entry(document, section, id)).remove(section) == members_of(
            document,
        ).remove(section),
{
    let members = members_of(document);
    assert(forall|value: Json| #[trigger]
        members.insert(section, value).remove(section) == members.remove(section));
}

/// Of two entries set under one id the later one stays.
pub proof fn law_later_entry_stays(
    document: Json,
    section: Seq<char>,
    id: Seq<char>,
    first: Json,
    second: Json,
)
    ensures
        with_entry(with_entry(document, section, id, first), section, id, second) == with_entry(
            document,
            section,
            id,
            second,
        ),
{
    if section_takes_entries(document, section) {
        let members = members_of(document);
        let inner = section_of(document, section);
        assert(inner.insert(id, first).insert(id, second) == inner.insert(id, second));
        let a = Json::Object(inner.insert(id, first));
        let b = Json::Object(inner.insert(id, second));
        assert(members.insert(section, a).insert(section, b) == members.insert(section, b));
    }
}

/// Removing an entry takes back that it was set, where the section was there and
/// had no such entry.
pub proof fn law_removing_undoes_setting(
    document: Json,
    section: Seq<char>,
    id: Seq<char>,
    entry: Json,
)
    requires
        members_of(document).dom().contains(section),
        members_of(document)[section] is Object,
        !section_of(document, section).dom().contains(id),
    ensures
        without_entry(with_entry(document, section, id, entry), section, id) == document,
{
    let members = members_of(document);
    let inner = section_of(document, section);
    assert(inner.insert(id, entry).remove(id) == inner);
    let a = Json::Object(inner.insert(id, entry));
    assert(members.insert(section, a).insert(section, Json::Object(inner)) == members);
}

/// Removing an entry that is not there leaves the document as it is.
pub proof fn law_removing_nothing_changes_nothing(
    document: Json,
    section: Seq<char>,
    id: Seq<char>,
)
    requires
        !section_of(document, section).dom().contains(id),
    ensures
        without_entry(document, section, id) == document,
{
    let members = members_of(document);
    let inner = section_of(document, section);
    assert(inner.remove(id) == inner);
    if members.dom().contains(section) {
        assert(members.insert(section, members[section]) == members);
    }
}

/// Setting an entry to what it is leaves the document as it is.
pub proof fn law_setting_the_same_changes_nothing(document: Json, section: Seq<char>, id: Seq<char>)
    requires
        section_of(document, section).dom().contains(id),
    ensures
        with_entry(document, section, id, section_of(document, section)[id]) == document,
{
    let members = members_of(document);
    let inner = section_of(document, section);
    assert(inner.insert(id, inner[id]) == inner);
    assert(members.insert(section, members[section]) == members);
}

/// Setting an entry to what it is gives the text of the file as it was, comments
/// and all.
pub proof fn law_setting_the_same_keeps_the_text(
    text: Seq<char>,
    section: Seq<char>,
    id: Seq<char>,
    entry: Json,
    result: Result<Option<String>, AppError>,
)
    requires
        entry_is_set(Some(text), Some(text), section, id, entry, result),
        document_in(Some(text)) matches Ok(document) && section_of(
            document,
            section,
        ).dom().contains(id) && section_of(document, section)[id] == entry,
    ensures
        result matches Ok(Some(written)) && written@ == text,
{
    law_setting_the_same_changes_nothing(document_in(Some(text))->Ok_0, section, id);
}

/// A document with a first entry of a section has members of other names, and
/// gives the entry back.
proof fn lemma_first_entry_is_read(
    document: Json,
    section: Seq<char>,
    id: Seq<char>,
    entry: Json,
    text: Seq<char>,
)
    requires
        takes_keys(document),
        !members_of(document).dom().contains(section),
        nested_within(document, NESTING_LIMIT as nat),
        survives_text(entry, (NESTING_LIMIT - 2) as nat),
    ensures
        ({
            let changed = with_entry(document, section, id, entry);
            &&& member_names(changed) != member_names(document)
            &&& reads_back(text, changed) ==> {
                &&& document_in(Some(text)) matches Ok(later)
                &&& section_of(later, section) == no_members().insert(id, entry)
            }
        }),
{
    let changed = with_entry(document, section, id, entry);
    let inner = Json::Object(no_members().insert(id, entry));
    assert(members_of(changed).dom().contains(section));
    assert(nested_within(inner, (NESTING_LIMIT - 1) as nat));
    assert(nested_within(changed, NESTING_LIMIT as nat));
    assert(reread(inner, inner));
    if reads_back(text, changed) {
        let later = document_in(Some(text))->Ok_0;
        lemma_reread_member(members_of(changed), later, section);
    }
}

/// An entry that was set in a configuration that is written anew is what a later
/// read gives, with the other entries of the section, where they survive it.
pub proof fn law_written_entry_is_read(
    file: Option<Seq<char>>,
    original: Option<Seq<char>>,
    section: Seq<char>,
    id: Seq<char>,
    entry: Json,
    result: Result<Option<String>, AppError>,
)
    requires
        entry_is_set(file, original, section, id, entry, result),
        document_in(file) matches Ok(document) && section_takes_entries(document, section)
            && writes_anew(original, with_entry(document, section, id, entry)) && nested_within(
            with_entry(document, section, id, entry),
            NESTING_LIMIT as nat,
        ) && survives_text(
            Json::Object(section_of(document, section).insert(id, entry)),
            (NESTING_LIMIT - 1) as nat,
        ),
    ensures
        result matches Ok(Some(text)) && document_in(Some(text@)) matches Ok(later) && section_of(
            later,
            section,
        ) == section_of(document_in(file)->Ok_0, section).insert(id, entry),
{
    let changed = with_entry(document_in(file)->Ok_0, section, id, entry);
    let later = document_in(Some(result->Ok_0->Some_0@))->Ok_0;
    lemma_reread_member(members_of(changed), later, section);
}

/// An entry that was removed from a configuration that is written anew is not
/// what a later read gives; the other entries of the section are, where they
/// survive it.
pub proof fn law_written_removal_is_read(
    file: Option<Seq<char>>,
    original: Option<Seq<char>>,
    section: Seq<char>,
    id: Seq<char>,
    result: Result<String, AppError>,
)
    requires
        entry_is_removed(file, original, section, id, result),
        document_in(file) matches Ok(document) && writes_anew(
            original,
            without_entry(document, section, id),
        ) && nested_within(without_entry(document, section, id), NESTING_LIMIT as nat)
            && survives_text(
            Json::Object(section_of(document, section).remove(id)),
            (NESTING_LIMIT - 1) as nat,
        ),
    ensures
        result matches Ok(text) && document_in(Some(text@)) matches Ok(later) && section_of(
            later,
            section,
        ) == section_of(document_in(file)->Ok_0, section).remove(id),
{
    let changed = without_entry(document_in(file)->Ok_0, section, id);
    let later = document_in(Some(result->Ok_0@))->Ok_0;
    law_removed_entry_is_gone(document_in(file)->Ok_0, section, id);
    assert(reread(changed, later));
    if members_of(changed).dom().contains(section) {
        assert(reread(members_of(changed)[section], members_of(later)[section]));
        if members_of(changed)[section] is Object {
            lemma_reread_member(members_of(changed), later, section);
        }
    }
}

/// An entry that was set in a section that is there is what a later read gives,
/// with the other entries of the section, where the text that is replaced is the
/// one that the section is read from.
pub proof fn law_entry_set_in_place_is_read(
    text: Seq<char>,
    section: Seq<char>,
    id: Seq<char>,
    entry: Json,
    result: Result<Option<String>, AppError>,
)
    requires
        entry_is_set(Some(text), Some(text), section, id, entry, result),
        document_in(Some(text)) matches Ok(document) && members_of(document).dom().contains(section)
            && members_of(document)[section] is Object && section_is_replaced(
            text,
            document,
            section,
            section_of(document, section).insert(id, entry),
        ),
    ensures
        result matches Ok(Some(written)) && document_in(Some(written@)) == Ok::<Json, Seq<char>>(
            with_entry(document_in(Some(text))->Ok_0, section, id, entry),
        ),
{
    let document = document_in(Some(text))->Ok_0;
    let inner = Json::Object(section_of(document, section).insert(id, entry));
    law_changed_member_is_replaced_and_read(
        text,
        document,
        section,
        inner,
        result->Ok_0->Some_0@,
    );
}

/// An entry that was removed from a section is not what a later read gives; the
/// other entries of the section are, where the text that is replaced is the one
/// that the section is read from.
pub proof fn law_entry_removed_in_place_is_gone(
    text: Seq<char>,
    section: Seq<char>,
    id: Seq<char>,
    result: Result<String, AppError>,
)
    requires
        entry_is_removed(Some(text), Some(text), section, id, result),
        document_in(Some(text)) matches Ok(document) && members_of(document).dom().contains(section)
            && members_of(document)[section] is Object && section_is_replaced(
            text,
            document,
            section,
            section_of(document, section).remove(id),
        ),
    ensures
        result matches Ok(written) && document_in(Some(written@)) == Ok::<Json, Seq<char>>(
            without_entry(document_in(Some(text))->Ok_0, section, id),
        ),
{
    let document = document_in(Some(text))->Ok_0;
    let inner = Json::Object(section_of(document, section).remove(id));
    law_changed_member_is_replaced_and_read(
        text,
        document,
        section,
        inner,
        result->Ok_0@,
    );
}

/// The entries of a section are those of the object that the document has under
/// that name. A document that has none there, or something else, or is no object,
/// has no entries.
pub proof fn law_entries_are_those_of_the_object(
    members: Map<Seq<char>, Json>,
    section: Seq<char>,
    document: Json,
)
    ensures
        members.dom().contains(section) ==> match members[section] {
            Json::Object(inner) => section_of(Json::Object(members), section) == inner,
            _ => section_of(Json::Object(members), section) == Map::<Seq<char>, Json>::empty(),
        },
        !members.dom().contains(section) ==> section_of(Json::Object(members), section) == Map::<
            Seq<char>,
            Json,
        >::empty(),
        !(document is Object) ==> section_of(document, section) == Map::<Seq<char>, Json>::empty(),
{
}

/// Whatever entries a section has, and also where it has none, setting an entry
/// maps its id to it, and changes nothing else in the section or the document.
pub proof fn law_entry_is_set_in_any_section_that_is_an_object(
    members: Map<Seq<char>, Json>,
    section: Seq<char>,
    inner: Map<Seq<char>, Json>,
    id: Seq<char>,
    entry: Json,
)
    requires
        members.dom().contains(section),
        members[section] == Json::Object(inner),
    ensures
        with_entry(Json::Object(members), section, id, entry) == Json::Object(
            members.insert(section, Json::Object(inner.insert(id, entry))),
        ),
        section_of(with_entry(Json::Object(members), section, id, entry), section) == inner.insert(
            id,
            entry,
        ),
{
}

/// Where a section is missing, setting an entry makes the section with that entry
/// alone, and null becomes the object of that section alone.
pub proof fn law_entry_makes_a_missing_section(
    members: Map<Seq<char>, Json>,
    section: Seq<char>,
    id: Seq<char>,
    entry: Json,
)
    requires
        !members.dom().contains(section),
    ensures
        ({
            let alone = Json::Object(Map::<Seq<char>, Json>::empty().insert(id, entry));
            &&& with_entry(Json::Object(members), section, id, entry) == Json::Object(
                members.insert(section, alone),
            )
            &&& with_entry(Json::Null, section, id, entry) == Json::Object(
                Map::<Seq<char>, Json>::empty().insert(section, alone),
            )
        }),
{
}

/// A section that is not an object is left as it is, by setting and by removing.
pub proof fn law_odd_section_is_left(
    members: Map<Seq<char>, Json>,
    section: Seq<char>,
    id: Seq<char>,
    entry: Json,
)
    requires
        members.dom().contains(section),
        !(members[section] is Object),
    ensures
        with_entry(Json::Object(members), section, id, entry) == Json::Object(members),
        without_entry(Json::Object(members), section, id) == Json::Object(members),
{
}

/// Removing an entry takes its id out of the section, which stays though it is left
/// empty, and changes nothing else in the section or the document.
pub proof fn law_entry_is_removed_from_any_section_that_is_an_object(
    members: Map<Seq<char>, Json>,
    section: Seq<char>,
    inner: Map<Seq<char>, Json>,
    id: Seq<char>,
)
    requires
        members.dom().contains(section),
        members[section] == Json::Object(inner),
    ensures
        without_entry(Json::Object(members), section, id) == Json::Object(
            members.insert(section, Json::Object(inner.remove(id))),
        ),
        section_of(without_entry(Json::Object(members), section, id), section) == inner.remove(id),
{
}

/// Removing an entry where there is no section, or no object at all, changes
/// nothing.
pub proof fn law_nothing_is_removed_without_a_section(
    document: Json,
    section: Seq<char>,
    id: Seq<char>,
)
    requires
        document matches Json::Object(members) ==> !members.dom().contains(section),
    ensures
        without_entry(document, section, id) == document,
{
}

/// Getting entries gives those of the object that the file has under the name of
/// the section, none where it has no such object, and the message of the parser
/// where it cannot be read.
pub proof fn law_getting_gives_the_entries_of_the_file(
    file: Option<Seq<char>>,
    section: Seq<char>,
    result: Result<serde_json::Map<String, serde_json::Value>, AppError>,
)
    requires
        entries_are_given(file, section, result),
    ensures
        match document_in(file) {
            Ok(Json::Object(members)) => result is Ok && (if members.dom().contains(section)
                && members[section] is Object {
                members[section] == Json::Object(entries(result->Ok_0))
            } else {
                entries(result->Ok_0) == Map::<Seq<char>, Json>::empty()
            }),
            Ok(_) => result is Ok && entries(result->Ok_0) == Map::<Seq<char>, Json>::empty(),
            Err(message) => result matches Err(AppError::Json { source }) && error_text(source)
                == message,
        },
{
}

/// Setting an entry gives the text for the document of the file with that entry in
/// its section. A section that is missing is made, one that is not an object is
/// left, and nothing can be set in what is neither an object nor null.
pub proof fn law_setting_gives_the_text_of_the_changed_document(
    file: Option<Seq<char>>,
    original: Option<Seq<char>>,
    section: Seq<char>,
    id: Seq<char>,
    entry: Json,
    result: Result<Option<String>, AppError>,
)
    requires
        entry_is_set(file, original, section, id, entry, result),
    ensures
        ({
            let alone = Map::<Seq<char>, Json>::empty().insert(id, entry);
            match document_in(file) {
                Ok(Json::Object(members)) => {
                    let changed = if !members.dom().contains(section) {
                        members.insert(section, Json::Object(alone))
                    } else {
                        match members[section] {
                            Json::Object(inner) => members.insert(
                                section,
                                Json::Object(inner.insert(id, entry)),
                            ),
                            _ => members,
                        }
                    };
                    result matches Ok(Some(text)) && text@ == text_to_write(
                        original,
                        Json::Object(changed),
                    )
                },
                Ok(Json::Null) => result matches Ok(Some(text)) && text@ == text_to_write(
                    original,
                    Json::Object(
                        Map::<Seq<char>, Json>::empty().insert(section, Json::Object(alone)),
                    ),
                ),
                Ok(_) => result matches Ok(None),
                Err(message) => result matches Err(AppError::Json { source }) && error_text(source)
                    == message,
            }
        }),
{
}

/// Removing an entry gives the text for the document of the file without that entry
/// in its section, and for the document as it is where there is no such section.
pub proof fn law_removing_gives_the_text_of_the_changed_document(
    file: Option<Seq<char>>,
    original: Option<Seq<char>>,
    section: Seq<char>,
    id: Seq<char>,
    result: Result<String, AppError>,
)
    requires
        entry_is_removed(file, original, section, id, result),
    ensures
        match document_in(file) {
            Ok(document) => {
                let changed = match document {
                    Json::Object(members) if members.dom().contains(section) => match members[section] {
                        Json::Object(inner) => Json::Object(
                            members.insert(section, Json::Object(inner.remove(id))),
                        ),
                        _ => document,
                    },
                    _ => document,
                };
                result matches Ok(text) && text@ == text_to_write(original, changed)
            },
            Err(message) => result matches Err(AppError::Json { source }) && error_text(source)
                == message,
        },
{
}

} // verus!
