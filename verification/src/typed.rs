//! The providers whose configuration has the expected form.

use vstd::prelude::*;

use crate::json::entries;
use crate::json::json;
use crate::json::map_get;
use crate::json::map_keys;
use crate::json::Json;
use crate::text::in_order;
use crate::text::lemma_listed_once;
use crate::text::lemma_order_is_unique;
use crate::text::lists_in_order;
use crate::text::text_less;
use crate::text::texts;

verus! {

/// `indexmap::IndexMap`, a map that keeps the order in which its keys came.
#[verifier::external_type_specification]
#[verifier::external_body]
#[verifier::reject_recursive_types(K)]
#[verifier::reject_recursive_types(V)]
#[verifier::reject_recursive_types(S)]
pub struct ExIndexMap<K, V, S>(indexmap::IndexMap<K, V, S>);

/// What an `IndexMap` of JSON values holds, in its order.
pub uninterp spec fn ordered_entries(
    map: indexmap::IndexMap<String, serde_json::Value>,
) -> Seq<(Seq<char>, Json)>;

/// The entries with one more behind the others, or with the value of the one of
/// that key replaced where it stands.
pub open spec fn entry_put(list: Seq<(Seq<char>, Json)>, key: Seq<char>, value: Json) -> Seq<
    (Seq<char>, Json),
> {
    if exists|i: int| 0 <= i < list.len() && (#[trigger] list[i]).0 == key {
        let at = choose|i: int| 0 <= i < list.len() && (#[trigger] list[i]).0 == key;
        list.update(at, (key, value))
    } else {
        list.push((key, value))
    }
}

/// `IndexMap::new`: no entry.
#[verifier::external_body]
fn new_ordered() -> (map: indexmap::IndexMap<String, serde_json::Value>)
    ensures
        ordered_entries(map).len() == 0,
{
    indexmap::IndexMap::new()
}

/// `IndexMap::insert`: a new key goes behind the others, a key that is there
/// keeps its place and gets the value. The value that it had is handed out.
#[verifier::external_body]
fn insert_ordered(
    map: &mut indexmap::IndexMap<String, serde_json::Value>,
    key: String,
    value: serde_json::Value,
) -> (previous: Option<serde_json::Value>)
    ensures
        ordered_entries(*final(map)) == entry_put(ordered_entries(*old(map)), key@, json(value)),
        match previous {
            Some(item) => ordered_entries(*old(map)).contains((key@, json(item))),
            None => forall|i: int|
                0 <= i < ordered_entries(*old(map)).len() ==> (#[trigger] ordered_entries(
                    *old(map),
                )[i]).0 != key@,
        },
{
    map.insert(key, value)
}

/// The entries of the keys that are accepted, in the order of the keys.
pub open spec fn accepted_entries(
    keys: Seq<Seq<char>>,
    accepted: Seq<bool>,
    members: Map<Seq<char>, Json>,
) -> Seq<(Seq<char>, Json)>
    decreases keys.len(),
{
    if keys.len() == 0 {
        seq![]
    } else {
        let last = keys.len() - 1;
        let before = accepted_entries(keys.drop_last(), accepted, members);
        if last < accepted.len() && accepted[last] {
            before.push((keys[last], members[keys[last]]))
        } else {
            before
        }
    }
}

/// The keys of accepted entries are among those that were asked about.
proof fn lemma_accepted_keys(
    keys: Seq<Seq<char>>,
    accepted: Seq<bool>,
    members: Map<Seq<char>, Json>,
)
    ensures
        forall|i: int|
            0 <= i < accepted_entries(keys, accepted, members).len() ==> keys.contains(
                (#[trigger] accepted_entries(keys, accepted, members)[i]).0,
            ),
    decreases keys.len(),
{
    if keys.len() > 0 {
        lemma_accepted_keys(keys.drop_last(), accepted, members);
        let list = accepted_entries(keys, accepted, members);
        let before = accepted_entries(keys.drop_last(), accepted, members);
        assert forall|i: int| 0 <= i < list.len() implies keys.contains((#[trigger] list[i]).0) by {
            if i < before.len() {
                assert(keys.drop_last().contains(before[i].0));
                let k = choose|k: int|
                    0 <= k < keys.drop_last().len() && keys.drop_last()[k] == before[i].0;
                assert(keys[k] == list[i].0);
            } else {
                assert(keys[keys.len() - 1] == list[i].0);
            }
        }
    }
}

/// The providers whose configuration is accepted, in the order of their ids:
/// `accepted` says of each id in turn whether it is. The others are left out.
pub fn get_typed_providers(
    providers: &serde_json::Map<String, serde_json::Value>,
    accepted: &Vec<bool>,
) -> (result: indexmap::IndexMap<String, serde_json::Value>)
    ensures
        ordered_entries(result) == accepted_entries(
            in_order(entries(*providers).dom()),
            accepted@,
            entries(*providers),
        ),
{
    let ids = map_keys(providers);
    let ghost members = entries(*providers);
    let ghost keys = texts(ids@);
    proof {
        lemma_order_is_unique(keys, in_order(members.dom()), members.dom());
    }
    let mut result = new_ordered();
    assert(ordered_entries(result) == accepted_entries(keys.take(0), accepted@, members));
    for i in 0..ids.len()
        invariant
            members == entries(*providers),
            keys == texts(ids@),
            lists_in_order(keys, members.dom()),
            ordered_entries(result) == accepted_entries(keys.take(i as int), accepted@, members),
    {
        let id = ids[i].as_str();
        assert(keys[i as int] == id@);
        assert(members.dom().contains(keys[i as int]));
        let ghost list = ordered_entries(result);
        proof {
            assert(keys.take(i + 1).drop_last() == keys.take(i as int));
            lemma_accepted_keys(keys.take(i as int), accepted@, members);
            assert forall|k: int| 0 <= k < list.len() implies (#[trigger] list[k]).0 != id@ by {
                let at = choose|at: int| 0 <= at < i && keys.take(i as int)[at] == list[k].0;
                assert(keys.take(i as int)[at] == keys[at]);
                lemma_listed_once(keys, members.dom(), at, i as int);
            }
        }
        if i < accepted.len() && accepted[i] {
            if let Some(value) = map_get(providers, id) {
                let _ = insert_ordered(&mut result, id.to_owned(), value.clone());
            }
        }
    }
    assert(keys.take(keys.len() as int) == keys);
    result
}

/// The typed providers are those of the providers that are accepted, each with
/// its configuration, and no others.
pub proof fn law_typed_providers_are_the_accepted_ones(
    keys: Seq<Seq<char>>,
    accepted: Seq<bool>,
    members: Map<Seq<char>, Json>,
    id: Seq<char>,
    config: Json,
)
    ensures
        accepted_entries(keys, accepted, members).contains((id, config)) <==> exists|k: int|
            0 <= k < keys.len() && k < accepted.len() && #[trigger] keys[k] == id && accepted[k]
                && config == members[id],
    decreases keys.len(),
{
    if keys.len() > 0 {
        let last = keys.len() - 1;
        let front = keys.drop_last();
        let before = accepted_entries(front, accepted, members);
        let list = accepted_entries(keys, accepted, members);
        law_typed_providers_are_the_accepted_ones(front, accepted, members, id, config);
        if list.contains((id, config)) {
            let i = choose|i: int| 0 <= i < list.len() && list[i] == (id, config);
            if i < before.len() {
                assert(before[i] == list[i]);
                let k = choose|k: int|
                    0 <= k < front.len() && k < accepted.len() && #[trigger] front[k] == id
                        && accepted[k] && config == members[id];
                assert(keys[k] == id);
            } else {
                assert(keys[last] == id);
            }
        }
        if exists|k: int|
            0 <= k < keys.len() && k < accepted.len() && #[trigger] keys[k] == id && accepted[k]
                && config == members[id] {
            let k = choose|k: int|
                0 <= k < keys.len() && k < accepted.len() && #[trigger] keys[k] == id && accepted[k]
                    && config == members[id];
            if k < last {
                assert(front[k] == id);
                let i = choose|i: int| 0 <= i < before.len() && before[i] == (id, config);
                assert(list[i] == (id, config));
            } else {
                assert(list[before.len() as int] == (id, config));
            }
        }
    }
}

/// The typed providers come in the order of the ids, and none comes twice.
pub proof fn law_typed_providers_come_in_the_order_of_their_ids(
    keys: Seq<Seq<char>>,
    accepted: Seq<bool>,
    members: Map<Seq<char>, Json>,
    i: int,
    j: int,
)
    requires
        forall|a: int, b: int|
            0 <= a < b < keys.len() ==> text_less(#[trigger] keys[a], #[trigger] keys[b]),
        0 <= i < j < accepted_entries(keys, accepted, members).len(),
    ensures
        text_less(
            accepted_entries(keys, accepted, members)[i].0,
            accepted_entries(keys, accepted, members)[j].0,
        ),
    decreases keys.len(),
{
    let last = keys.len() - 1;
    let front = keys.drop_last();
    let before = accepted_entries(front, accepted, members);
    let list = accepted_entries(keys, accepted, members);
    assert forall|a: int, b: int| 0 <= a < b < front.len() implies text_less(
        #[trigger] front[a],
        #[trigger] front[b],
    ) by {
        assert(front[a] == keys[a] && front[b] == keys[b]);
    }
    if j < before.len() {
        law_typed_providers_come_in_the_order_of_their_ids(front, accepted, members, i, j);
        assert(list[i] == before[i] && list[j] == before[j]);
    } else {
        lemma_accepted_keys(front, accepted, members);
        assert(list[i] == before[i]);
        let k = choose|k: int| 0 <= k < front.len() && front[k] == before[i].0;
        assert(keys[k] == front[k]);
        assert(list[j].0 == keys[last]);
    }
}

} // verus!
