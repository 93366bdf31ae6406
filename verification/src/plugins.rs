//! The plugins of the configuration.

use vstd::prelude::*;

use crate::config::content;
use crate::config::document_in;
use crate::config::is_faithful;
use crate::config::law_changed_member_is_replaced_and_read;
use crate::config::read_opencode_config;
use crate::config::remembered;
use crate::config::remembered_after;
use crate::config::text_to_write;
use crate::config::write_opencode_config;
use crate::config::writes_anew;
use crate::error::AppError;
use crate::json::array_value;
use crate::json::assign_member;
use crate::json::compact_text;
use crate::json::error_text;
use crate::json::items;
use crate::json::json;
use crate::json::json_equal;
use crate::json::lemma_reread_member;
use crate::json::map_remove;
use crate::json::member_names;
use crate::json::members_of;
use crate::json::nested_within;
use crate::json::reread;
use crate::json::survives_text;
use crate::json::takes_keys;
use crate::json::text_value;
use crate::json::value_get_mut;
use crate::json::Json;
use crate::json::NESTING_LIMIT;
use crate::merge::is_written_once;
use crate::merge::jsonc_reads_another;
use crate::merge::reads_back;
use crate::merge::replaces_the_member;
use crate::text::begins_with;
use crate::text::chars_of;
use crate::text::same_text;
use crate::text::starts_with;

verus! {

/// Whether a plugin is a variant of OMO Slim.
pub open spec fn is_slim(name: Seq<char>) -> bool {
    begins_with(name, "oh-my-opencode-slim"@)
}

/// Whether a plugin is a variant of the standard OMO.
pub open spec fn is_standard(name: Seq<char>) -> bool {
    begins_with(name, "oh-my-opencode"@) && !is_slim(name)
}

/// Whether an item of the plugin list can stay beside a plugin that is added:
/// the standard OMO and OMO Slim cannot coexist.
pub open spec fn stays_beside(name: Seq<char>, item: Json) -> bool {
    match item {
        Json::Text(other) => !(is_standard(name) && is_slim(other)) && !(is_slim(name)
            && is_standard(other)),
        _ => true,
    }
}

/// The plugin list without what cannot stay beside `name`.
pub open spec fn kept_beside(list: Seq<Json>, name: Seq<char>) -> Seq<Json> {
    list.filter(|item: Json| stays_beside(name, item))
}

/// The plugin list with `name`: behind what can stay beside it, unless it is
/// there already.
pub open spec fn plugin_added(list: Seq<Json>, name: Seq<char>) -> Seq<Json> {
    let kept = kept_beside(list, name);
    if kept.contains(Json::Text(name)) {
        kept
    } else {
        kept.push(Json::Text(name))
    }
}

/// The plugin list of a document, if it has one.
pub open spec fn plugin_list(document: Json) -> Option<Seq<Json>> {
    if members_of(document).dom().contains("plugin"@) {
        match members_of(document)["plugin"@] {
            Json::Array(list) => Some(list),
            _ => None,
        }
    } else {
        None
    }
}

/// The document with a plugin added. Where it has no plugin list it gets one
/// with this plugin alone.
pub open spec fn with_plugin(document: Json, name: Seq<char>) -> Json {
    let list = match plugin_list(document) {
        Some(list) => plugin_added(list, name),
        None => seq![Json::Text(name)],
    };
    Json::Object(members_of(document).insert("plugin"@, Json::Array(list)))
}

/// Whether an item of the plugin list stays when the plugins that begin with
/// `prefix` are removed: it does not begin so, or a dash follows, as in the name
/// of a variant.
pub open spec fn stays_without(prefix: Seq<char>, item: Json) -> bool {
    match item {
        Json::Text(name) => begins_with(name, prefix) ==> name.len() > prefix.len()
            && name[prefix.len() as int] == '-',
        _ => true,
    }
}

/// The plugin list without the plugins that begin with `prefix`.
pub open spec fn plugins_removed(list: Seq<Json>, prefix: Seq<char>) -> Seq<Json> {
    list.filter(|item: Json| stays_without(prefix, item))
}

/// The document without the plugins that begin with `prefix`. A plugin list that
/// is left empty goes too.
pub open spec fn without_plugins(document: Json, prefix: Seq<char>) -> Json {
    match plugin_list(document) {
        Some(list) => {
            let kept = plugins_removed(list, prefix);
            if kept.len() == 0 {
                Json::Object(members_of(document).remove("plugin"@))
            } else {
                Json::Object(members_of(document).insert("plugin"@, Json::Array(kept)))
            }
        },
        None => document,
    }
}

/// One more item of a sequence goes through a filter, or does not.
proof fn lemma_filter_step(list: Seq<Json>, at: int, keep: spec_fn(Json) -> bool)
    requires
        0 <= at < list.len(),
    ensures
        list.take(at + 1).filter(keep) == if keep(list[at]) {
            list.take(at).filter(keep).push(list[at])
        } else {
            list.take(at).filter(keep)
        },
{
    reveal(Seq::filter);
    assert(list.take(at + 1).drop_last() == list.take(at));
    assert(list.take(at + 1).last() == list[at]);
}

/// Whether an item can stay beside a plugin that is added.
fn can_stay_beside(name: &str, item: &serde_json::Value) -> (stays: bool)
    ensures
        stays == stays_beside(name@, json(*item)),
{
    match item.as_str() {
        Some(other) => {
            let name_slim = starts_with(name, "oh-my-opencode-slim");
            let name_standard = starts_with(name, "oh-my-opencode") && !name_slim;
            let other_slim = starts_with(other, "oh-my-opencode-slim");
            let other_standard = starts_with(other, "oh-my-opencode") && !other_slim;
            !(name_standard && other_slim) && !(name_slim && other_standard)
        },
        None => true,
    }
}

/// Whether an item stays when the plugins that begin with `prefix` are removed.
fn can_stay_without(prefix: &str, item: &serde_json::Value) -> (stays: bool)
    ensures
        stays == stays_without(prefix@, json(*item)),
{
    match item.as_str() {
        Some(name) => {
            if !starts_with(name, prefix) {
                return true;
            }
            let chars = chars_of(name);
            let length = chars_of(prefix).len();
            length < chars.len() && chars[length] == '-'
        },
        None => true,
    }
}

/// Keeps the items that are marked, in their order.
fn keep_marked(
    list: &mut Vec<serde_json::Value>,
    marks: &Vec<bool>,
    Ghost(keep): Ghost<spec_fn(Json) -> bool>,
)
    requires
        marks@.len() == old(list)@.len(),
        forall|k: int| 0 <= k < marks@.len() ==> #[trigger] marks@[k] == keep(items(old(list)@)[k]),
    ensures
        items(final(list)@) == items(old(list)@).filter(keep),
{
    let ghost all = items(list@);
    let mut i: usize = 0;
    assert(all.take(0).filter(keep) == Seq::<Json>::empty()) by {
        reveal(Seq::filter);
    }
    for seen in 0..marks.len()
        invariant
            marks@.len() == all.len(),
            forall|k: int| 0 <= k < marks@.len() ==> #[trigger] marks@[k] == keep(all[k]),
            i <= seen,
            i <= list@.len(),
            list@.len() - i == all.len() - seen,
            items(list@).take(i as int) == all.take(seen as int).filter(keep),
            items(list@).skip(i as int) == all.skip(seen as int),
    {
        let ghost before = items(list@);
        proof {
            assert(before.skip(i as int)[0] == all.skip(seen as int)[0]);
            lemma_filter_step(all, seen as int, keep);
            assert(all.skip(seen as int).skip(1) == all.skip(seen + 1));
            assert(before.skip(i as int).skip(1) == before.skip(i + 1));
        }
        if marks[seen] {
            i = i + 1;
            assert(before.take(i as int) == before.take(i - 1).push(before[i - 1]));
        } else {
            let _ = list.remove(i);
            assert(items(list@) == before.remove(i as int));
            assert(before.remove(i as int).take(i as int) == before.take(i as int));
            assert(before.remove(i as int).skip(i as int) == before.skip(i + 1));
        }
    }
    assert(all.take(all.len() as int) == all);
    assert(items(list@).take(i as int) == items(list@));
}

/// Adds a plugin to a plugin list.
fn add_to_list(list: &mut Vec<serde_json::Value>, name: &str)
    ensures
        items(final(list)@) == plugin_added(items(old(list)@), name@),
{
    let mut marks: Vec<bool> = Vec::new();
    for i in 0..list.len()
        invariant
            marks@.len() == i,
            forall|k: int|
                0 <= k < i ==> #[trigger] marks@[k] == stays_beside(name@, items(list@)[k]),
    {
        marks.push(can_stay_beside(name, &list[i]));
    }
    keep_marked(list, &marks, Ghost(|item: Json| stays_beside(name@, item)));
    let mut already_exists = false;
    for i in 0..list.len()
        invariant
            already_exists == items(list@).take(i as int).contains(Json::Text(name@)),
    {
        let ghost kept = items(list@);
        assert(kept.take(i + 1) == kept.take(i as int).push(kept[i as int]));
        assert(kept.take(i + 1)[i as int] == kept[i as int]);
        proof {
            lemma_contains_push(kept.take(i as int), kept[i as int], Json::Text(name@));
        }
        if let Some(text) = list[i].as_str() {
            if same_text(text, name) {
                already_exists = true;
            }
        }
    }
    assert(items(list@).take(list@.len() as int) == items(list@));
    if !already_exists {
        let ghost kept = items(list@);
        list.push(text_value(name.to_owned()));
        assert(items(list@) == kept.push(Json::Text(name@)));
    }
}

/// What a longer list holds.
proof fn lemma_contains_push(list: Seq<Json>, item: Json, wanted: Json)
    ensures
        list.push(item).contains(wanted) <==> list.contains(wanted) || item == wanted,
{
    if list.contains(wanted) {
        let i = choose|i: int| 0 <= i < list.len() && list[i] == wanted;
        assert(list.push(item)[i] == wanted);
    }
    if item == wanted {
        assert(list.push(item)[list.len() as int] == wanted);
    }
    if list.push(item).contains(wanted) && item != wanted {
        let i = choose|i: int| 0 <= i < list.push(item).len() && list.push(item)[i] == wanted;
        assert(list[i] == wanted);
    }
}

/// Removes the plugins that begin with `prefix` from a plugin list.
fn remove_from_list(list: &mut Vec<serde_json::Value>, prefix: &str)
    ensures
        items(final(list)@) == plugins_removed(items(old(list)@), prefix@),
{
    let mut marks: Vec<bool> = Vec::new();
    for i in 0..list.len()
        invariant
            marks@.len() == i,
            forall|k: int|
                0 <= k < i ==> #[trigger] marks@[k] == stays_without(prefix@, items(list@)[k]),
    {
        marks.push(can_stay_without(prefix, &list[i]));
    }
    keep_marked(list, &marks, Ghost(|item: Json| stays_without(prefix@, item)));
}

/// Adds a plugin to a document.
pub fn put_plugin(config: &mut serde_json::Value, name: &str)
    requires
        takes_keys(json(*old(config))),
    ensures
        json(*final(config)) == with_plugin(json(*old(config)), name@),
{
    let ghost before = json(*config);
    let ghost members = members_of(before);
    proof {
        assert(members.dom().contains("plugin"@) ==> members.insert("plugin"@, members["plugin"@])
            == members);
    }
    let mut found = false;
    if let Some(value) = value_get_mut(config, "plugin") {
        if let Some(list) = value.as_array_mut() {
            add_to_list(list, name);
            found = true;
        }
    }
    if !found {
        let mut list: Vec<serde_json::Value> = Vec::new();
        list.push(text_value(name.to_owned()));
        assert(items(list@) == seq![Json::Text(name@)]);
        assign_member(config, "plugin", array_value(list));
    }
}

/// Removes the plugins that begin with `prefix` from a document.
pub fn take_plugins(config: &mut serde_json::Value, prefix: &str)
    ensures
        json(*final(config)) == without_plugins(json(*old(config)), prefix@),
{
    let ghost before = json(*config);
    let ghost members = members_of(before);
    proof {
        assert(members.dom().contains("plugin"@) ==> members.insert("plugin"@, members["plugin"@])
            == members);
        assert(forall|value: Json| #[trigger]
            members.insert("plugin"@, value).remove("plugin"@) == members.remove("plugin"@));
    }
    let mut emptied = false;
    if let Some(value) = value_get_mut(config, "plugin") {
        if let Some(list) = value.as_array_mut() {
            remove_from_list(list, prefix);
            emptied = list.len() == 0;
        }
    }
    if emptied {
        if let Some(map) = config.as_object_mut() {
            let _ = map_remove(map, "plugin");
        }
    }
}

/// What adding a plugin gives: the text to write, nothing where the document
/// takes no keys, or the error of the read.
pub open spec fn plugin_is_added(
    file: Option<Seq<char>>,
    original: Option<Seq<char>>,
    name: Seq<char>,
    result: Result<Option<String>, AppError>,
) -> bool {
    match document_in(file) {
        Ok(document) => if takes_keys(document) {
            let changed = with_plugin(document, name);
            &&& result matches Ok(Some(text))
            &&& text@ == text_to_write(original, changed)
            &&& is_faithful(original, changed, text@)
        } else {
            result matches Ok(None)
        },
        Err(message) => result matches Err(AppError::Json { source }) && error_text(source)
            == message,
    }
}

/// What removing plugins gives: the text to write, or the error of the read.
pub open spec fn plugins_are_removed(
    file: Option<Seq<char>>,
    original: Option<Seq<char>>,
    prefix: Seq<char>,
    result: Result<String, AppError>,
) -> bool {
    match document_in(file) {
        Ok(document) => {
            let changed = without_plugins(document, prefix);
            &&& result matches Ok(text)
            &&& text@ == text_to_write(original, changed)
            &&& is_faithful(original, changed, text@)
        },
        Err(message) => result matches Err(AppError::Json { source }) && error_text(source)
            == message,
    }
}

/// What holds of the first plugin: a later read gives a plugin list of it alone.
/// The text that is remembered must be that of the file.
pub open spec fn first_plugin_is_read(
    file: Option<Seq<char>>,
    original: Option<Seq<char>>,
    name: Seq<char>,
    result: Result<Option<String>, AppError>,
) -> bool {
    match document_in(file) {
        Ok(document) => original == file && takes_keys(document) && !members_of(
            document,
        ).dom().contains("plugin"@) ==> {
            &&& result matches Ok(Some(text))
            &&& document_in(Some(text@)) matches Ok(later)
            &&& plugin_list(later) == Some(seq![Json::Text(name)])
        },
        Err(_) => true,
    }
}

/// What holds where all plugins are removed: a later read gives no plugin list.
/// The text that is remembered must be that of the file.
pub open spec fn last_plugins_are_gone(
    file: Option<Seq<char>>,
    original: Option<Seq<char>>,
    prefix: Seq<char>,
    result: Result<String, AppError>,
) -> bool {
    match document_in(file) {
        Ok(document) => original == file && (plugin_list(document) matches Some(list)
            && plugins_removed(list, prefix).len() == 0) ==> {
            &&& result matches Ok(text)
            &&& document_in(Some(text@)) matches Ok(later)
            &&& !members_of(later).dom().contains("plugin"@)
        },
        Err(_) => true,
    }
}

/// A document with a first plugin has members of other names, and gives the plugin
/// back.
proof fn lemma_first_plugin_is_read(document: Json, name: Seq<char>, text: Seq<char>)
    requires
        takes_keys(document),
        !members_of(document).dom().contains("plugin"@),
        nested_within(document, NESTING_LIMIT as nat),
    ensures
        ({
            let changed = with_plugin(document, name);
            &&& member_names(changed) != member_names(document)
            &&& reads_back(text, changed) ==> {
                &&& document_in(Some(text)) matches Ok(later)
                &&& plugin_list(later) == Some(seq![Json::Text(name)])
            }
        }),
{
    let changed = with_plugin(document, name);
    let list = Json::Array(seq![Json::Text(name)]);
    assert(members_of(changed).dom().contains("plugin"@));
    assert(nested_within(Json::Text(name), (NESTING_LIMIT - 2) as nat));
    assert(nested_within(list, (NESTING_LIMIT - 1) as nat));
    assert(nested_within(changed, NESTING_LIMIT as nat));
    assert(reread(Json::Text(name), Json::Text(name)));
    assert(reread(list, list));
    if reads_back(text, changed) {
        let later = document_in(Some(text))->Ok_0;
        lemma_reread_member(members_of(changed), later, "plugin"@);
    }
}

/// A document without its plugin list has members of other names, and is read
/// without one.
proof fn lemma_no_plugins_are_read(document: Json, prefix: Seq<char>, text: Seq<char>)
    requires
        plugin_list(document) matches Some(list) && plugins_removed(list, prefix).len() == 0,
        nested_within(document, NESTING_LIMIT as nat),
    ensures
        ({
            let changed = without_plugins(document, prefix);
            &&& member_names(changed) != member_names(document)
            &&& reads_back(text, changed) ==> {
                &&& document_in(Some(text)) matches Ok(later)
                &&& !members_of(later).dom().contains("plugin"@)
            }
        }),
{
    let changed = without_plugins(document, prefix);
    assert(!members_of(changed).dom().contains("plugin"@));
    assert(nested_within(changed, NESTING_LIMIT as nat));
}

/// Adds a plugin to the configuration. The standard OMO and OMO Slim cannot
/// coexist: adding one removes the variants of the other. The result is the text
/// to write; there is none where the configuration is neither an object nor null,
/// for there a plugin cannot be added.
pub fn add_plugin(file: Option<&str>, cache: &mut Option<String>, plugin_name: &str) -> (result:
    Result<Option<String>, AppError>)
    ensures
        plugin_is_added(content(file), remembered(*final(cache)), plugin_name@, result),
        first_plugin_is_read(content(file), remembered(*final(cache)), plugin_name@, result),
        remembered(*final(cache)) == remembered_after(content(file), remembered(*old(cache))),
{
    let mut config = match read_opencode_config(file, cache) {
        Ok(config) => config,
        Err(error) => {
            return Err(error);
        },
    };
    if !config.is_object() && !config.is_null() {
        return Ok(None);
    }
    let ghost before = json(config);
    put_plugin(&mut config, plugin_name);
    match write_opencode_config(cache, &config) {
        Ok(text) => {
            proof {
                if !members_of(before).dom().contains("plugin"@) {
                    lemma_first_plugin_is_read(before, plugin_name@, text@);
                }
            }
            Ok(Some(text))
        },
        Err(error) => Err(error),
    }
}

/// Removes the plugins that begin with `prefix` from the configuration, but for
/// those where a dash follows the prefix. The result is the text to write.
pub fn remove_plugin_by_prefix(file: Option<&str>, cache: &mut Option<String>, prefix: &str) -> (result:
    Result<String, AppError>)
    ensures
        plugins_are_removed(content(file), remembered(*final(cache)), prefix@, result),
        last_plugins_are_gone(content(file), remembered(*final(cache)), prefix@, result),
        remembered(*final(cache)) == remembered_after(content(file), remembered(*old(cache))),
{
    let mut config = match read_opencode_config(file, cache) {
        Ok(config) => config,
        Err(error) => {
            return Err(error);
        },
    };
    let ghost before = json(config);
    take_plugins(&mut config, prefix);
    match write_opencode_config(cache, &config) {
        Ok(text) => {
            proof {
                if plugin_list(before) matches Some(list) && plugins_removed(list, prefix@).len()
                    == 0 {
                    lemma_no_plugins_are_read(before, prefix@, text@);
                }
            }
            Ok(text)
        },
        Err(error) => Err(error),
    }
}

/// Whether a plugin list holds a variant of the standard OMO.
pub open spec fn has_standard(list: Seq<Json>) -> bool {
    exists|i: int| 0 <= i < list.len() && (#[trigger] list[i] matches Json::Text(name) && is_standard(name))
}

/// Whether a plugin list holds a variant of OMO Slim.
pub open spec fn has_slim(list: Seq<Json>) -> bool {
    exists|i: int| 0 <= i < list.len() && (#[trigger] list[i] matches Json::Text(name) && is_slim(name))
}

/// What stays in a list that goes through a filter: the items that pass, each of
/// them.
proof fn lemma_filter(list: Seq<Json>, keep: spec_fn(Json) -> bool)
    ensures
        forall|i: int|
            0 <= i < list.filter(keep).len() ==> keep(#[trigger] list.filter(keep)[i])
                && list.contains(list.filter(keep)[i]),
        forall|item: Json| #[trigger]
            list.contains(item) && keep(item) ==> list.filter(keep).contains(item),
        list.filter(keep).len() <= list.len(),
    decreases list.len(),
{
    reveal(Seq::filter);
    if list.len() > 0 {
        let front = list.drop_last();
        lemma_filter(front, keep);
        let kept = list.filter(keep);
        assert(list == front.push(list.last()));
        assert forall|i: int| 0 <= i < kept.len() implies keep(#[trigger] kept[i]) && list.contains(
            kept[i],
        ) by {
            lemma_contains_push(front, list.last(), kept[i]);
            if i < front.filter(keep).len() {
                assert(kept[i] == front.filter(keep)[i]);
            }
        }
        assert forall|item: Json| #[trigger] list.contains(item) && keep(item) implies kept.contains(
            item,
        ) by {
            lemma_contains_push(front, list.last(), item);
            if front.contains(item) {
                assert(front.filter(keep).contains(item));
                if keep(list.last()) {
                    lemma_contains_push(front.filter(keep), list.last(), item);
                }
            } else {
                lemma_contains_push(front.filter(keep), list.last(), item);
            }
        }
    }
}

/// A list of which every item passes goes through a filter unchanged.
proof fn lemma_filter_all(list: Seq<Json>, keep: spec_fn(Json) -> bool)
    requires
        forall|i: int| 0 <= i < list.len() ==> keep(#[trigger] list[i]),
    ensures
        list.filter(keep) == list,
    decreases list.len(),
{
    reveal(Seq::filter);
    if list.len() > 0 {
        let front = list.drop_last();
        assert forall|i: int| 0 <= i < front.len() implies keep(#[trigger] front[i]) by {
            assert(front[i] == list[i]);
        }
        lemma_filter_all(front, keep);
        assert(keep(list[list.len() - 1]));
        assert(list == front.push(list.last()));
    }
}

/// One more item behind a list goes through a filter, or does not.
proof fn lemma_filter_push(list: Seq<Json>, item: Json, keep: spec_fn(Json) -> bool)
    ensures
        list.push(item).filter(keep) == if keep(item) {
            list.filter(keep).push(item)
        } else {
            list.filter(keep)
        },
{
    reveal(Seq::filter);
    assert(list.push(item).drop_last() == list);
}

/// A plugin that was added is in the list.
pub proof fn law_added_plugin_is_listed(list: Seq<Json>, name: Seq<char>)
    ensures
        plugin_added(list, name).contains(Json::Text(name)),
{
    let kept = kept_beside(list, name);
    lemma_contains_push(kept, Json::Text(name), Json::Text(name));
}

/// Adding a variant of the standard OMO or of OMO Slim leaves no variant of the
/// other in the list.
pub proof fn law_standard_and_slim_exclude_each_other(list: Seq<Json>, name: Seq<char>)
    ensures
        is_standard(name) ==> !has_slim(plugin_added(list, name)),
        is_slim(name) ==> !has_standard(plugin_added(list, name)),
{
    lemma_filter(list, |item: Json| stays_beside(name, item));
}

/// A list in which the standard OMO and OMO Slim do not coexist stays so,
/// whatever plugin is added.
pub proof fn law_exclusion_is_kept(list: Seq<Json>, name: Seq<char>)
    requires
        !(has_standard(list) && has_slim(list)),
    ensures
        !(has_standard(plugin_added(list, name)) && has_slim(plugin_added(list, name))),
{
    law_standard_and_slim_exclude_each_other(list, name);
    lemma_filter(list, |item: Json| stays_beside(name, item));
    let added = plugin_added(list, name);
    let kept = kept_beside(list, name);
    if !is_standard(name) && has_standard(added) {
        let i = choose|i: int|
            0 <= i < added.len() && (#[trigger] added[i] matches Json::Text(other) && is_standard(other));
        assert(kept[i] == added[i]);
        assert(list.contains(kept[i]));
    }
    if !is_slim(name) && has_slim(added) {
        let i = choose|i: int|
            0 <= i < added.len() && (#[trigger] added[i] matches Json::Text(other) && is_slim(other));
        assert(kept[i] == added[i]);
        assert(list.contains(kept[i]));
    }
}

/// Adding a plugin to a list that it was added to leaves the list as it is.
proof fn lemma_adding_again(list: Seq<Json>, name: Seq<char>)
    ensures
        plugin_added(plugin_added(list, name), name) == plugin_added(list, name),
{
    let keep = |item: Json| stays_beside(name, item);
    let added = plugin_added(list, name);
    lemma_filter(list, keep);
    law_added_plugin_is_listed(list, name);
    assert forall|i: int| 0 <= i < added.len() implies keep(#[trigger] added[i]) by {
        if i < kept_beside(list, name).len() {
            assert(keep(kept_beside(list, name)[i]));
        }
    }
    lemma_filter_all(added, keep);
}

/// Adding a plugin twice is adding it once.
pub proof fn law_adding_is_idempotent(document: Json, name: Seq<char>)
    ensures
        with_plugin(with_plugin(document, name), name) == with_plugin(document, name),
{
    let members = members_of(document);
    let alone = seq![Json::Text(name)];
    match plugin_list(document) {
        Some(list) => {
            lemma_adding_again(list, name);
        },
        None => {
            assert(alone[0] == Json::Text(name));
            lemma_filter_all(alone, |item: Json| stays_beside(name, item));
        },
    }
    assert(forall|value: Json| #[trigger]
        members.insert("plugin"@, value).insert("plugin"@, value) == members.insert(
            "plugin"@,
            value,
        ));
}

/// A plugin that is neither the standard OMO nor OMO Slim goes behind the list,
/// which is kept as it is.
pub proof fn law_other_plugin_goes_behind_the_list(list: Seq<Json>, name: Seq<char>)
    requires
        !is_standard(name),
        !is_slim(name),
    ensures
        plugin_added(list, name) == if list.contains(Json::Text(name)) {
            list
        } else {
            list.push(Json::Text(name))
        },
{
    lemma_filter_all(list, |item: Json| stays_beside(name, item));
}

/// A list without duplicates stays so, whatever plugin is added.
pub proof fn law_adding_makes_no_duplicates(list: Seq<Json>, name: Seq<char>)
    requires
        list.no_duplicates(),
    ensures
        plugin_added(list, name).no_duplicates(),
{
    let keep = |item: Json| stays_beside(name, item);
    lemma_filter_no_duplicates(list, keep);
    let kept = kept_beside(list, name);
    let added = plugin_added(list, name);
    if !kept.contains(Json::Text(name)) {
        assert forall|i: int, j: int| 0 <= i < added.len() && 0 <= j < added.len() && i
            != j implies added[i] != added[j] by {
            if i < kept.len() {
                assert(kept.contains(kept[i]));
            }
            if j < kept.len() {
                assert(kept.contains(kept[j]));
            }
        }
    }
}

/// A filter makes no duplicates.
proof fn lemma_filter_no_duplicates(list: Seq<Json>, keep: spec_fn(Json) -> bool)
    requires
        list.no_duplicates(),
    ensures
        list.filter(keep).no_duplicates(),
    decreases list.len(),
{
    reveal(Seq::filter);
    if list.len() > 0 {
        let front = list.drop_last();
        lemma_filter_no_duplicates(front, keep);
        lemma_filter(front, keep);
        let kept = front.filter(keep);
        assert(!front.contains(list.last()));
        assert forall|i: int| 0 <= i < kept.len() implies #[trigger] kept[i] != list.last() by {
            assert(front.contains(kept[i]));
        }
    }
}

/// After a removal no plugin of the list begins with the prefix, but for those
/// where a dash follows it; the other items are kept.
pub proof fn law_removed_plugins_are_gone(list: Seq<Json>, prefix: Seq<char>)
    ensures
        forall|i: int|
            0 <= i < plugins_removed(list, prefix).len() ==> stays_without(
                prefix,
                #[trigger] plugins_removed(list, prefix)[i],
            ),
        forall|item: Json| #[trigger]
            list.contains(item) && stays_without(prefix, item) ==> plugins_removed(
                list,
                prefix,
            ).contains(item),
{
    lemma_filter(list, |item: Json| stays_without(prefix, item));
}

/// Removing plugins twice is removing them once.
pub proof fn law_removing_is_idempotent(document: Json, prefix: Seq<char>)
    ensures
        without_plugins(without_plugins(document, prefix), prefix) == without_plugins(
            document,
            prefix,
        ),
{
    if let Some(list) = plugin_list(document) {
        let keep = |item: Json| stays_without(prefix, item);
        let kept = plugins_removed(list, prefix);
        lemma_filter(list, keep);
        lemma_filter_all(kept, keep);
        let members = members_of(document);
        if kept.len() > 0 {
            let value = Json::Array(kept);
            assert(members.insert("plugin"@, value).insert("plugin"@, value) == members.insert(
                "plugin"@,
                value,
            ));
        }
    }
}

/// Removing a plugin by its name takes back that it was added: what is left is
/// what is left without adding it.
pub proof fn law_removing_undoes_adding(list: Seq<Json>, name: Seq<char>)
    ensures
        plugins_removed(plugin_added(list, name), name) == plugins_removed(
            kept_beside(list, name),
            name,
        ),
{
    lemma_filter_push(
        kept_beside(list, name),
        Json::Text(name),
        |item: Json| stays_without(name, item),
    );
}

/// Removing the standard OMO by its name leaves OMO Slim in the list.
pub proof fn law_removing_standard_keeps_slim(list: Seq<Json>, name: Seq<char>)
    requires
        list.contains(Json::Text(name)),
        is_slim(name),
    ensures
        plugins_removed(list, "oh-my-opencode"@).contains(Json::Text(name)),
{
    reveal_strlit("oh-my-opencode");
    reveal_strlit("oh-my-opencode-slim");
    assert(name["oh-my-opencode"@.len() as int] == "oh-my-opencode-slim"@[14]);
    law_removed_plugins_are_gone(list, "oh-my-opencode"@);
}

/// Adding a plugin that is listed already, beside which all others can stay,
/// leaves the document as it is.
pub proof fn law_adding_a_listed_plugin_changes_nothing(document: Json, name: Seq<char>)
    requires
        plugin_list(document) matches Some(list) && list.contains(Json::Text(name)) && forall|i: int|
            0 <= i < list.len() ==> stays_beside(name, #[trigger] list[i]),
    ensures
        with_plugin(document, name) == document,
{
    let members = members_of(document);
    let list = plugin_list(document)->Some_0;
    lemma_filter_all(list, |item: Json| stays_beside(name, item));
    assert(members.insert("plugin"@, members["plugin"@]) == members);
}

/// Removing plugins of which none is listed leaves the document as it is, unless
/// its plugin list is empty.
pub proof fn law_removing_no_plugins_changes_nothing(document: Json, prefix: Seq<char>)
    requires
        plugin_list(document) matches Some(list) ==> list.len() > 0 && forall|i: int|
            0 <= i < list.len() ==> stays_without(prefix, #[trigger] list[i]),
    ensures
        without_plugins(document, prefix) == document,
{
    if let Some(list) = plugin_list(document) {
        let members = members_of(document);
        lemma_filter_all(list, |item: Json| stays_without(prefix, item));
        assert(members.insert("plugin"@, members["plugin"@]) == members);
    }
}

/// Adding a plugin that is listed already, beside which all others can stay,
/// gives the text of the file as it was, comments and all.
pub proof fn law_adding_a_listed_plugin_keeps_the_text(
    text: Seq<char>,
    name: Seq<char>,
    result: Result<Option<String>, AppError>,
)
    requires
        plugin_is_added(Some(text), Some(text), name, result),
        document_in(Some(text)) matches Ok(document) && plugin_list(document) matches Some(list)
            && list.contains(Json::Text(name)) && forall|i: int|
            0 <= i < list.len() ==> stays_beside(name, #[trigger] list[i]),
    ensures
        result matches Ok(Some(written)) && written@ == text,
{
    law_adding_a_listed_plugin_changes_nothing(document_in(Some(text))->Ok_0, name);
}

/// Removing plugins of which none is listed gives the text of the file as it was,
/// comments and all, unless its plugin list is empty.
pub proof fn law_removing_no_plugins_keeps_the_text(
    text: Seq<char>,
    prefix: Seq<char>,
    result: Result<String, AppError>,
)
    requires
        plugins_are_removed(Some(text), Some(text), prefix, result),
        document_in(Some(text)) matches Ok(document) && (plugin_list(document) matches Some(list)
            ==> list.len() > 0 && forall|i: int|
            0 <= i < list.len() ==> stays_without(prefix, #[trigger] list[i])),
    ensures
        result matches Ok(written) && written@ == text,
{
    law_removing_no_plugins_changes_nothing(document_in(Some(text))->Ok_0, prefix);
}

/// Adding and removing plugins leaves the other members of the document as they
/// are.
pub proof fn law_plugins_leave_other_members(document: Json, name: Seq<char>)
    ensures
        members_of(with_plugin(document, name)).remove("plugin"@) == members_of(document).remove(
            "plugin"@,
        ),
        members_of(without_plugins(document, name)).remove("plugin"@) == members_of(
            document,
        ).remove("plugin"@),
{
    let members = members_of(document);
    assert(forall|value: Json| #[trigger]
        members.insert("plugin"@, value).remove("plugin"@) == members.remove("plugin"@));
    assert(members.remove("plugin"@).remove("plugin"@) == members.remove("plugin"@));
}

/// A plugin that was added to a configuration that is written anew is in the
/// list that a later read gives, which is the list with the plugin, where that
/// survives it.
pub proof fn law_written_plugin_is_read(
    file: Option<Seq<char>>,
    original: Option<Seq<char>>,
    name: Seq<char>,
    result: Result<Option<String>, AppError>,
)
    requires
        plugin_is_added(file, original, name, result),
        document_in(file) matches Ok(document) && takes_keys(document) && writes_anew(
            original,
            with_plugin(document, name),
        ) && nested_within(with_plugin(document, name), NESTING_LIMIT as nat) && reread(
            members_of(with_plugin(document, name))["plugin"@],
            members_of(with_plugin(document, name))["plugin"@],
        ),
    ensures
        result matches Ok(Some(text)) && document_in(Some(text@)) matches Ok(later) && plugin_list(
            later,
        ) == plugin_list(with_plugin(document_in(file)->Ok_0, name)) && (plugin_list(
            later,
        ) matches Some(list) && list.contains(Json::Text(name))),
{
    let document = document_in(file)->Ok_0;
    let changed = with_plugin(document, name);
    let later = document_in(Some(result->Ok_0->Some_0@))->Ok_0;
    lemma_reread_member(members_of(changed), later, "plugin"@);
    lemma_added_plugin_is_in_the_document(document, name);
}

/// A plugin that was added to a document is in its plugin list.
proof fn lemma_added_plugin_is_in_the_document(document: Json, name: Seq<char>)
    ensures
        plugin_list(with_plugin(document, name)) matches Some(list) && list.contains(
            Json::Text(name),
        ),
{
    match plugin_list(document) {
        Some(list) => {
            law_added_plugin_is_listed(list, name);
        },
        None => {
            assert(seq![Json::Text(name)][0] == Json::Text(name));
        },
    }
}

/// Plugins that were removed from a configuration that is written anew are not in
/// the list that a later read gives; the others are, where they survive it, and
/// an empty list is none.
pub proof fn law_written_plugin_removal_is_read(
    file: Option<Seq<char>>,
    original: Option<Seq<char>>,
    prefix: Seq<char>,
    result: Result<String, AppError>,
)
    requires
        plugins_are_removed(file, original, prefix, result),
        document_in(file) matches Ok(document) && writes_anew(
            original,
            without_plugins(document, prefix),
        ) && nested_within(without_plugins(document, prefix), NESTING_LIMIT as nat)
            && (plugin_list(document) matches Some(list) ==> reread(
            Json::Array(plugins_removed(list, prefix)),
            Json::Array(plugins_removed(list, prefix)),
        )),
    ensures
        result matches Ok(text) && document_in(Some(text@)) matches Ok(later) && plugin_list(later)
            == (match plugin_list(document_in(file)->Ok_0) {
            Some(list) if plugins_removed(list, prefix).len() > 0 => Some(
                plugins_removed(list, prefix),
            ),
            _ => None,
        }),
{
    let changed = without_plugins(document_in(file)->Ok_0, prefix);
    let later = document_in(Some(result->Ok_0@))->Ok_0;
    assert(reread(changed, later));
    if members_of(changed).dom().contains("plugin"@) {
        assert(reread(members_of(changed)["plugin"@], members_of(later)["plugin"@]));
        if members_of(changed)["plugin"@] is Array {
            lemma_reread_member(members_of(changed), later, "plugin"@);
        }
    }
}

/// Whether writing a document over its text with another plugin list replaces the
/// text that the list is read from: the list changed, it survives it, and
/// `jsonc_parser` reads the text too, as anything but the changed document.
pub open spec fn plugin_list_is_replaced(
    text: Seq<char>,
    document: Json,
    list: Seq<Json>,
) -> bool {
    let before = members_of(document)["plugin"@];
    let after = Json::Array(list);
    &&& !json_equal(before, after)
    &&& survives_text(after, (NESTING_LIMIT - 1) as nat)
    &&& jsonc_reads_another(text, Json::Object(members_of(document).insert("plugin"@, after)))
    &&& replaces_the_member(text, "plugin"@, compact_text(before), members_of(document))
        || is_written_once(text, "plugin"@, compact_text(before))
}

/// A plugin that was added to a list that is there is in the list that a later
/// read gives, where the text that is replaced is the one that the list is read
/// from.
pub proof fn law_plugin_added_in_place_is_read(
    text: Seq<char>,
    name: Seq<char>,
    result: Result<Option<String>, AppError>,
)
    requires
        plugin_is_added(Some(text), Some(text), name, result),
        document_in(Some(text)) matches Ok(document) && plugin_list(document) matches Some(list)
            && plugin_list_is_replaced(text, document, plugin_added(list, name)),
    ensures
        result matches Ok(Some(written)) && document_in(Some(written@)) == Ok::<Json, Seq<char>>(
            with_plugin(document_in(Some(text))->Ok_0, name),
        ),
{
    let document = document_in(Some(text))->Ok_0;
    let after = Json::Array(plugin_added(plugin_list(document)->Some_0, name));
    law_changed_member_is_replaced_and_read(
        text,
        document,
        "plugin"@,
        after,
        result->Ok_0->Some_0@,
    );
}

/// Plugins that were removed from a list that keeps others are not in the list
/// that a later read gives, where the text that is replaced is the one that the
/// list is read from.
pub proof fn law_plugins_removed_in_place_are_gone(
    text: Seq<char>,
    prefix: Seq<char>,
    result: Result<String, AppError>,
)
    requires
        plugins_are_removed(Some(text), Some(text), prefix, result),
        document_in(Some(text)) matches Ok(document) && plugin_list(document) matches Some(list)
            && plugins_removed(list, prefix).len() > 0 && plugin_list_is_replaced(
            text,
            document,
            plugins_removed(list, prefix),
        ),
    ensures
        result matches Ok(written) && document_in(Some(written@)) == Ok::<Json, Seq<char>>(
            without_plugins(document_in(Some(text))->Ok_0, prefix),
        ),
{
    let document = document_in(Some(text))->Ok_0;
    let after = Json::Array(plugins_removed(plugin_list(document)->Some_0, prefix));
    law_changed_member_is_replaced_and_read(
        text,
        document,
        "plugin"@,
        after,
        result->Ok_0@,
    );
}

/// Whether a text is some beginning with more characters, or none, behind it.
pub open spec fn continues(text: Seq<char>, start: Seq<char>) -> bool {
    exists|rest: Seq<char>| text == #[trigger] (start + rest)
}

/// A text continues what it begins with.
proof fn lemma_continues(text: Seq<char>, start: Seq<char>)
    ensures
        continues(text, start) == begins_with(text, start),
{
    if begins_with(text, start) {
        assert(text == start + text.skip(start.len() as int));
    }
    if continues(text, start) {
        let rest = choose|rest: Seq<char>| text == #[trigger] (start + rest);
        assert(start.is_prefix_of(start + rest));
    }
}

/// Whether two plugin names exclude each other, by their characters: one continues
/// `oh-my-opencode-slim`, and the other continues `oh-my-opencode` but not that.
pub open spec fn exclude_each_other(name: Seq<char>, other: Seq<char>) -> bool {
    let standard = "oh-my-opencode"@;
    let slim = "oh-my-opencode-slim"@;
    continues(name, standard) && continues(other, standard) && continues(name, slim) != continues(
        other,
        slim,
    )
}

/// What a plugin name excludes is what cannot stay beside it.
proof fn lemma_exclusion(name: Seq<char>, item: Json)
    ensures
        stays_beside(name, item) == !(item matches Json::Text(other) && exclude_each_other(
            name,
            other,
        )),
{
    reveal_strlit("oh-my-opencode");
    reveal_strlit("oh-my-opencode-slim");
    let standard = "oh-my-opencode"@;
    let slim = "oh-my-opencode-slim"@;
    lemma_continues(name, standard);
    lemma_continues(name, slim);
    assert(slim.take(14) == standard);
    assert(begins_with(name, slim) ==> begins_with(name, standard)) by {
        if begins_with(name, slim) {
            assert(name.take(14) == slim.take(14));
            assert(standard == name.subrange(0, 14));
        }
    }
    if let Json::Text(other) = item {
        lemma_continues(other, standard);
        lemma_continues(other, slim);
        assert(begins_with(other, slim) ==> begins_with(other, standard)) by {
            if begins_with(other, slim) {
                assert(other.take(14) == slim.take(14));
                assert(standard == other.subrange(0, 14));
            }
        }
    }
}

/// Adding a plugin to a list takes out the names that it excludes, by their
/// characters, keeps all other items in their order, and puts the plugin behind
/// them, unless it is there already.
pub proof fn law_adding_takes_out_what_the_plugin_excludes(
    members: Map<Seq<char>, Json>,
    list: Seq<Json>,
    name: Seq<char>,
)
    requires
        members.dom().contains("plugin"@),
        members["plugin"@] == Json::Array(list),
    ensures
        ({
            let kept = list.filter(
                |item: Json|
                    !(item matches Json::Text(other) && exclude_each_other(name, other)),
            );
            let after = if kept.contains(Json::Text(name)) {
                kept
            } else {
                kept.push(Json::Text(name))
            };
            with_plugin(Json::Object(members), name) == Json::Object(
                members.insert("plugin"@, Json::Array(after)),
            )
        }),
{
    let by_characters = |item: Json|
        !(item matches Json::Text(other) && exclude_each_other(name, other));
    let keep = |item: Json| stays_beside(name, item);
    assert forall|item: Json| #[trigger] keep(item) == by_characters(item) by {
        lemma_exclusion(name, item);
    }
    lemma_same_filter(list, keep, by_characters);
}

/// Two filters that let the same items pass leave the same list.
proof fn lemma_same_filter(list: Seq<Json>, a: spec_fn(Json) -> bool, b: spec_fn(Json) -> bool)
    requires
        forall|item: Json| #[trigger] a(item) == b(item),
    ensures
        list.filter(a) == list.filter(b),
    decreases list.len(),
{
    reveal(Seq::filter);
    if list.len() > 0 {
        lemma_same_filter(list.drop_last(), a, b);
        assert(a(list.last()) == b(list.last()));
    }
}

/// An item that is not a text, or is a text that does not begin with
/// `oh-my-opencode`, is in the list after any plugin is added. So is a variant of
/// the standard OMO after one of the standard OMO is added, and a variant of OMO
/// Slim after one of OMO Slim is added.
pub proof fn law_adding_keeps_what_is_not_excluded(
    members: Map<Seq<char>, Json>,
    list: Seq<Json>,
    name: Seq<char>,
    item: Json,
)
    requires
        members.dom().contains("plugin"@),
        members["plugin"@] == Json::Array(list),
        list.contains(item),
        item matches Json::Text(other) ==> {
            ||| forall|rest: Seq<char>| other != #[trigger] ("oh-my-opencode"@ + rest)
            ||| exists|rest: Seq<char>, name_rest: Seq<char>|
                other == #[trigger] ("oh-my-opencode-slim"@ + rest) && name == #[trigger] (
                "oh-my-opencode-slim"@ + name_rest)
            ||| (forall|rest: Seq<char>| other != #[trigger] ("oh-my-opencode-slim"@ + rest)) && (
            forall|rest: Seq<char>| name != #[trigger] ("oh-my-opencode-slim"@ + rest))
        },
    ensures
        with_plugin(Json::Object(members), name) matches Json::Object(after)
            && after["plugin"@] matches Json::Array(longer) && longer.contains(item)
            && longer.contains(Json::Text(name)),
{
    law_adding_takes_out_what_the_plugin_excludes(members, list, name);
    let keep = |item: Json|
        !(item matches Json::Text(other) && exclude_each_other(name, other));
    lemma_filter(list, keep);
    let kept = list.filter(keep);
    assert(keep(item));
    assert(list.contains(item) && keep(item));
    assert(kept.contains(item));
    lemma_contains_push(kept, Json::Text(name), item);
    lemma_contains_push(kept, Json::Text(name), Json::Text(name));
}

/// Nothing comes into a list but the plugin that is added.
pub proof fn law_adding_brings_in_the_plugin_only(
    members: Map<Seq<char>, Json>,
    list: Seq<Json>,
    name: Seq<char>,
    item: Json,
)
    requires
        members.dom().contains("plugin"@),
        members["plugin"@] == Json::Array(list),
        !list.contains(item),
        item != Json::Text(name),
    ensures
        with_plugin(Json::Object(members), name) matches Json::Object(after)
            && after["plugin"@] matches Json::Array(longer) && !longer.contains(item),
{
    law_adding_takes_out_what_the_plugin_excludes(members, list, name);
    let keep = |item: Json|
        !(item matches Json::Text(other) && exclude_each_other(name, other));
    lemma_filter(list, keep);
    let kept = list.filter(keep);
    lemma_contains_push(kept, Json::Text(name), item);
}

/// Where there is no plugin list, adding a plugin makes one of it alone, in the
/// place of what stood there, and null becomes the object of that list alone.
pub proof fn law_first_plugin_makes_the_list(members: Map<Seq<char>, Json>, name: Seq<char>)
    requires
        members.dom().contains("plugin"@) ==> !(members["plugin"@] is Array),
    ensures
        ({
            let alone = Json::Array(seq![Json::Text(name)]);
            &&& with_plugin(Json::Object(members), name) == Json::Object(
                members.insert("plugin"@, alone),
            )
            &&& with_plugin(Json::Null, name) == Json::Object(
                Map::<Seq<char>, Json>::empty().insert("plugin"@, alone),
            )
        }),
{
}

/// Whether an item is removed with a prefix, by its characters: it is a text of the
/// prefix and more, and what is more does not begin with a dash.
pub open spec fn is_prefix_without_dash(prefix: Seq<char>, item: Json) -> bool {
    item matches Json::Text(name) && exists|rest: Seq<char>|
        name == #[trigger] (prefix + rest) && (rest.len() == 0 || rest[0] != '-')
}

/// What is removed with a prefix is what does not stay without it.
proof fn lemma_removal(prefix: Seq<char>, item: Json)
    ensures
        stays_without(prefix, item) == !is_prefix_without_dash(prefix, item),
{
    if let Json::Text(name) = item {
        lemma_continues(name, prefix);
        if begins_with(name, prefix) {
            let behind = name.skip(prefix.len() as int);
            assert(name == prefix + behind);
            assert(behind.len() > 0 ==> behind[0] == name[prefix.len() as int]);
            assert forall|rest: Seq<char>| name == #[trigger] (prefix + rest) implies rest == behind by {
                assert((prefix + rest).skip(prefix.len() as int) == rest);
            }
        } else {
            assert forall|rest: Seq<char>| name != #[trigger] (prefix + rest) by {
                if name == prefix + rest {
                    assert(continues(name, prefix));
                }
            }
        }
    }
}

/// Removing plugins takes out the texts that are the prefix and more that does not
/// begin with a dash, by their characters, and keeps all other items in their
/// order. A list that is left empty goes.
pub proof fn law_removing_takes_out_by_the_characters(
    members: Map<Seq<char>, Json>,
    list: Seq<Json>,
    prefix: Seq<char>,
)
    requires
        members.dom().contains("plugin"@),
        members["plugin"@] == Json::Array(list),
    ensures
        ({
            let kept = list.filter(|item: Json| !is_prefix_without_dash(prefix, item));
            without_plugins(Json::Object(members), prefix) == Json::Object(
                if kept.len() == 0 {
                    members.remove("plugin"@)
                } else {
                    members.insert("plugin"@, Json::Array(kept))
                },
            )
        }),
{
    let by_characters = |item: Json| !is_prefix_without_dash(prefix, item);
    let keep = |item: Json| stays_without(prefix, item);
    assert forall|item: Json| #[trigger] keep(item) == by_characters(item) by {
        lemma_removal(prefix, item);
    }
    lemma_same_filter(list, keep, by_characters);
}

/// After a removal no plugin of the list is the prefix and `more`, where that is
/// empty or does not begin with a dash. Every item that is not such a text is in
/// the list still, in which there is nothing else.
pub proof fn law_no_plugin_of_the_prefix_is_left(
    members: Map<Seq<char>, Json>,
    list: Seq<Json>,
    prefix: Seq<char>,
    more: Seq<char>,
    item: Json,
)
    requires
        members.dom().contains("plugin"@),
        members["plugin"@] == Json::Array(list),
    ensures
        ({
            let after = members_of(without_plugins(Json::Object(members), prefix));
            let left = match after.dom().contains("plugin"@) {
                true => after["plugin"@]->Array_0,
                false => Seq::<Json>::empty(),
            };
            &&& more.len() == 0 || more[0] != '-' ==> !left.contains(Json::Text(prefix + more))
            &&& list.contains(item) && (item matches Json::Text(name) ==> forall|rest: Seq<char>|
                name == #[trigger] (prefix + rest) ==> rest.len() > 0 && rest[0] == '-')
                ==> left.contains(item)
            &&& left.contains(item) ==> list.contains(item)
        }),
{
    law_removing_takes_out_by_the_characters(members, list, prefix);
    let keep = |item: Json| !is_prefix_without_dash(prefix, item);
    lemma_filter(list, keep);
    let kept = list.filter(keep);
    let gone = Json::Text(prefix + more);
    if kept.contains(gone) {
        let i = choose|i: int| 0 <= i < kept.len() && kept[i] == gone;
        assert(keep(kept[i]));
        assert(is_prefix_without_dash(prefix, gone) || !(more.len() == 0 || more[0] != '-'));
    }
    if list.contains(item) && keep(item) {
        assert(kept.contains(item));
        let i = choose|i: int| 0 <= i < kept.len() && kept[i] == item;
        assert(kept.len() > 0);
    }
    if kept.contains(item) {
        let i = choose|i: int| 0 <= i < kept.len() && kept[i] == item;
        assert(list.contains(kept[i]));
    }
}

/// Where there is no plugin list, removing plugins changes nothing.
pub proof fn law_nothing_is_removed_without_a_list(document: Json, prefix: Seq<char>)
    requires
        document matches Json::Object(members) ==> members.dom().contains("plugin"@) ==> !(
        members["plugin"@] is Array),
    ensures
        without_plugins(document, prefix) == document,
{
}

/// Adding a plugin gives the text for the document of the file with the plugin in
/// its list, whatever becomes of the list. Nothing can be added to what is neither
/// an object nor null.
pub proof fn law_adding_gives_the_text_of_the_changed_document(
    file: Option<Seq<char>>,
    original: Option<Seq<char>>,
    name: Seq<char>,
    result: Result<Option<String>, AppError>,
)
    requires
        plugin_is_added(file, original, name, result),
    ensures
        match document_in(file) {
            Ok(document) => if document is Object || document is Null {
                result matches Ok(Some(text)) && text@ == text_to_write(
                    original,
                    with_plugin(document, name),
                )
            } else {
                result matches Ok(None)
            },
            Err(message) => result matches Err(AppError::Json { source }) && error_text(source)
                == message,
        },
{
}

/// Removing plugins gives the text for the document of the file without them.
pub proof fn law_removing_plugins_gives_the_text_of_the_changed_document(
    file: Option<Seq<char>>,
    original: Option<Seq<char>>,
    prefix: Seq<char>,
    result: Result<String, AppError>,
)
    requires
        plugins_are_removed(file, original, prefix, result),
    ensures
        match document_in(file) {
            Ok(document) => result matches Ok(text) && text@ == text_to_write(
                original,
                without_plugins(document, prefix),
            ),
            Err(message) => result matches Err(AppError::Json { source }) && error_text(source)
                == message,
        },
{
}

} // verus!
