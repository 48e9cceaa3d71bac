use vstd::prelude::*;
use indexmap::IndexMap;
use crate::section::Section;
use crate::symbol::Symbol;

verus! {

/// `indexmap::IndexMap`: a map that keeps its entries in the order in which
/// their keys were first inserted. Nothing of its inside is read here.
#[verifier::external_type_specification]
#[verifier::external_body]
#[verifier::reject_recursive_types(K)]
#[verifier::reject_recursive_types(V)]
#[verifier::reject_recursive_types(S)]
pub struct ExIndexMap<K, V, S>(IndexMap<K, V, S>);

/// `Clone::clone` of `IndexMap`; nothing is claimed of the copy.
pub assume_specification<K, V, S>[ <IndexMap<K, V, S> as Clone>::clone ](
    map: &IndexMap<K, V, S>,
) -> IndexMap<K, V, S> where K: Clone, V: Clone, S: Clone
;

/// What a map of sections holds: its entries in their order, each a name
/// (the characters of the key) and the section stored under it.
pub uninterp spec fn section_entries(map: IndexMap<String, Section>) -> Seq<(Seq<char>, Section)>;

/// What a map of symbols holds: its entries in their order, each a name
/// (the characters of the key) and the symbol stored under it.
pub uninterp spec fn symbol_entries(map: IndexMap<String, Symbol>) -> Seq<(Seq<char>, Symbol)>;

/// The names of the entries, in order.
pub open spec fn names_of<V>(entries: Seq<(Seq<char>, V)>) -> Seq<Seq<char>> {
    Seq::new(entries.len(), |i: int| entries[i].0)
}

/// The values of the entries, in order.
pub open spec fn values_of<V>(entries: Seq<(Seq<char>, V)>) -> Seq<V> {
    Seq::new(entries.len(), |i: int| entries[i].1)
}

/// The first place at which `name` stands in `names`.
pub open spec fn find_name(names: Seq<Seq<char>>, name: Seq<char>) -> Option<int>
    decreases names.len(),
{
    if names.len() == 0 {
        None
    } else {
        match find_name(names.drop_last(), name) {
            Some(i) => Some(i),
            None => if names.last() == name {
                Some(names.len() - 1)
            } else {
                None
            },
        }
    }
}

/// The entries after `value` was stored under `name`: in the place of the
/// entry of that name where there is one, else behind the last entry.
pub open spec fn inserted<V>(entries: Seq<(Seq<char>, V)>, name: Seq<char>, value: V) -> Seq<
    (Seq<char>, V),
> {
    match find_name(names_of(entries), name) {
        Some(i) => entries.update(i, (name, value)),
        None => entries.push((name, value)),
    }
}

/// No name stands twice.
pub open spec fn distinct_names(names: Seq<Seq<char>>) -> bool {
    forall|i: int, j: int| 0 <= i < j < names.len() ==> names[i] != names[j]
}

/// What [`find_name`] finds holds the name, and nothing before it does.
pub proof fn lemma_find_name(names: Seq<Seq<char>>, name: Seq<char>)
    ensures
        match find_name(names, name) {
            Some(i) => 0 <= i < names.len() && names[i] == name && forall|j: int|
                0 <= j < i ==> names[j] != name,
            None => forall|j: int| 0 <= j < names.len() ==> names[j] != name,
        },
    decreases names.len(),
{
    if names.len() > 0 {
        let front = names.drop_last();
        lemma_find_name(front, name);
        assert(forall|j: int| 0 <= j < front.len() ==> front[j] == names[j]);
    }
}

/// `IndexMap::new`: a map without entries.
#[verifier::external_body]
pub(crate) fn sections_new() -> (map: IndexMap<String, Section>)
    ensures
        section_entries(map) == Seq::<(Seq<char>, Section)>::empty(),
{
    IndexMap::new()
}

/// `IndexMap::len`: the number of entries.
#[verifier::external_body]
pub(crate) fn sections_len(map: &IndexMap<String, Section>) -> (n: usize)
    ensures
        n == section_entries(*map).len(),
{
    map.len()
}

/// `IndexMap::get_index`: the entry at place `index`, where there is one.
#[verifier::external_body]
pub(crate) fn sections_get_index(map: &IndexMap<String, Section>, index: usize) -> (r: Option<
    (&String, &Section),
>)
    ensures
        match r {
            Some((name, section)) => index < section_entries(*map).len() && name@
                == section_entries(*map)[index as int].0 && *section == section_entries(
                *map,
            )[index as int].1,
            None => index >= section_entries(*map).len(),
        },
{
    map.get_index(index)
}

/// `IndexMap::get_index_mut`: the value at place `index` for writing, where
/// there is one. Its name and the other entries stay as they are.
#[verifier::external_body]
pub(crate) fn sections_get_index_mut(map: &mut IndexMap<String, Section>, index: usize) -> (r:
    Option<&mut Section>)
    ensures
        match r {
            Some(section) => index < section_entries(*old(map)).len() && *section
                == section_entries(*old(map))[index as int].1 && section_entries(*final(map))
                == section_entries(*old(map)).update(
                index as int,
                (section_entries(*old(map))[index as int].0, *final(section)),
            ),
            None => index >= section_entries(*old(map)).len() && section_entries(*final(map))
                == section_entries(*old(map)),
        },
{
    map.get_index_mut(index).map(|entry| entry.1)
}

/// `IndexMap::get_index_of`: the place of the entry whose key is `name`. No
/// other entry has that key.
#[verifier::external_body]
pub(crate) fn sections_get_index_of(map: &IndexMap<String, Section>, name: &str) -> (r: Option<
    usize,
>)
    ensures
        match r {
            Some(index) => find_name(names_of(section_entries(*map)), name@) == Some(
                index as int,
            ) && forall|j: int|
                0 <= j < section_entries(*map).len() && j != index ==> (
                #[trigger] section_entries(*map)[j]).0 != name@,
            None => find_name(names_of(section_entries(*map)), name@) is None,
        },
{
    map.get_index_of(name)
}

/// `IndexMap::insert`: stores `section` under `name`. An entry of that name
/// keeps its place and gives its old value back; a new name goes last.
#[verifier::external_body]
pub(crate) fn sections_insert(map: &mut IndexMap<String, Section>, name: String, section: Section)
    -> (r: Option<Section>)
    ensures
        section_entries(*final(map)) == inserted(section_entries(*old(map)), name@, section),
        match r {
            Some(before) => find_name(names_of(section_entries(*old(map))), name@) is Some
                && before == section_entries(*old(map))[find_name(
                names_of(section_entries(*old(map))),
                name@,
            ).unwrap()].1,
            None => find_name(names_of(section_entries(*old(map))), name@) is None,
        },
{
    map.insert(name, section)
}

/// `IndexMap::new`: a map without entries.
#[verifier::external_body]
pub(crate) fn symbols_new() -> (map: IndexMap<String, Symbol>)
    ensures
        symbol_entries(map) == Seq::<(Seq<char>, Symbol)>::empty(),
{
    IndexMap::new()
}

/// `IndexMap::len`: the number of entries.
#[verifier::external_body]
pub(crate) fn symbols_len(map: &IndexMap<String, Symbol>) -> (n: usize)
    ensures
        n == symbol_entries(*map).len(),
{
    map.len()
}

/// `IndexMap::get_index`: the entry at place `index`, where there is one.
#[verifier::external_body]
pub(crate) fn symbols_get_index(map: &IndexMap<String, Symbol>, index: usize) -> (r: Option<
    (&String, &Symbol),
>)
    ensures
        match r {
            Some((name, symbol)) => index < symbol_entries(*map).len() && name@ == symbol_entries(
                *map,
            )[index as int].0 && *symbol == symbol_entries(*map)[index as int].1,
            None => index >= symbol_entries(*map).len(),
        },
{
    map.get_index(index)
}

/// `IndexMap::get_index_mut`: the value at place `index` for writing, where
/// there is one. Its name and the other entries stay as they are.
#[verifier::external_body]
pub(crate) fn symbols_get_index_mut(map: &mut IndexMap<String, Symbol>, index: usize) -> (r:
    Option<&mut Symbol>)
    ensures
        match r {
            Some(symbol) => index < symbol_entries(*old(map)).len() && *symbol == symbol_entries(
                *old(map),
            )[index as int].1 && symbol_entries(*final(map)) == symbol_entries(*old(map)).update(
                index as int,
                (symbol_entries(*old(map))[index as int].0, *final(symbol)),
            ),
            None => index >= symbol_entries(*old(map)).len() && symbol_entries(*final(map))
                == symbol_entries(*old(map)),
        },
{
    map.get_index_mut(index).map(|entry| entry.1)
}

/// `IndexMap::insert`: stores `symbol` under `name`. An entry of that name
/// keeps its place and gives its old value back; a new name goes last.
#[verifier::external_body]
pub(crate) fn symbols_insert(map: &mut IndexMap<String, Symbol>, name: String, symbol: Symbol)
    -> (r: Option<Symbol>)
    ensures
        symbol_entries(*final(map)) == inserted(symbol_entries(*old(map)), name@, symbol),
        match r {
            Some(before) => find_name(names_of(symbol_entries(*old(map))), name@) is Some
                && before == symbol_entries(*old(map))[find_name(
                names_of(symbol_entries(*old(map))),
                name@,
            ).unwrap()].1,
            None => find_name(names_of(symbol_entries(*old(map))), name@) is None,
        },
{
    map.insert(name, symbol)
}


/// `IndexMap::values_mut`, collected: every value for writing, in order.
/// The names and the order of the entries stay as they are.
#[verifier::external_body]
pub(crate) fn symbols_values_mut(map: &mut IndexMap<String, Symbol>) -> (r: Vec<&mut Symbol>)
    ensures
        r@.len() == symbol_entries(*old(map)).len(),
        forall|i: int| 0 <= i < r@.len() ==> *(#[trigger] r@[i]) == symbol_entries(*old(map))[i].1,
        symbol_entries(*final(map)).len() == symbol_entries(*old(map)).len(),
        forall|i: int|
            0 <= i < r@.len() ==> #[trigger] symbol_entries(*final(map))[i] == (
                symbol_entries(*old(map))[i].0,
                *final(r@[i]),
            ),
{
    map.values_mut().collect()
}

/// `IndexMap::values_mut`, collected: every value for writing, in order.
/// The names and the order of the entries stay as they are.
#[verifier::external_body]
pub(crate) fn sections_values_mut(map: &mut IndexMap<String, Section>) -> (r: Vec<&mut Section>)
    ensures
        r@.len() == section_entries(*old(map)).len(),
        forall|i: int|
            0 <= i < r@.len() ==> *(#[trigger] r@[i]) == section_entries(*old(map))[i].1,
        section_entries(*final(map)).len() == section_entries(*old(map)).len(),
        forall|i: int|
            0 <= i < r@.len() ==> #[trigger] section_entries(*final(map))[i] == (
                section_entries(*old(map))[i].0,
                *final(r@[i]),
            ),
{
    map.values_mut().collect()
}

} // verus!
