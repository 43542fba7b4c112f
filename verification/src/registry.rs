//! The interning map from word text to node index, kept in a sharded
//! concurrent map so that construction can intern from many lines at once.
//! The map is opaque to verification: its contents are named by
//! `dash_contents`, and the three operations the library performs on it are
//! trusted against dashmap's source.

use vstd::prelude::*;

verus! {

#[verifier::external_type_specification]
#[verifier::external_body]
#[verifier::reject_recursive_types(K)]
#[verifier::reject_recursive_types(V)]
#[verifier::reject_recursive_types(S)]
pub struct ExDashMap<K, V, S>(dashmap::DashMap<K, V, S>);

/// The word -> node-index entries the interning map holds.
pub uninterp spec fn dash_contents(m: dashmap::DashMap<String, usize>) -> Map<Seq<char>, usize>;

/// The empty word registry.
pub open spec fn empty_registry() -> Map<Seq<char>, usize> {
    Map::empty()
}

/// Relies on `dashmap::DashMap::new`: a freshly created map holds no entries.
#[verifier::external_body]
pub(crate) fn dash_new() -> (r: dashmap::DashMap<String, usize>)
    ensures
        dash_contents(r) == empty_registry(),
{
    dashmap::DashMap::new()
}

/// Relies on `dashmap::DashMap::get`: a present key yields its value, an
/// absent key yields nothing, and the map is unchanged.
#[verifier::external_body]
pub(crate) fn dash_get(m: &dashmap::DashMap<String, usize>, word: &str) -> (r: Option<usize>)
    ensures
        r is Some <==> dash_contents(*m).contains_key(word@),
        r is Some ==> r->0 == dash_contents(*m)[word@],
{
    m.get(word).map(|v| *v)
}

/// Relies on `dashmap::DashMap::entry` and `Entry::or_insert`: an existing
/// entry keeps its value, which is returned; an absent key is inserted with
/// the value `fresh`, which is returned.
#[verifier::external_body]
pub(crate) fn dash_intern(
    m: &mut dashmap::DashMap<String, usize>,
    word: &str,
    fresh: usize,
) -> (id: usize)
    ensures
        dash_contents(*old(m)).contains_key(word@) ==> id == dash_contents(*old(m))[word@]
            && dash_contents(*final(m)) == dash_contents(*old(m)),
        !dash_contents(*old(m)).contains_key(word@) ==> id == fresh && dash_contents(*final(m))
            == dash_contents(*old(m)).insert(word@, fresh),
{
    *m.entry(word.to_string()).or_insert(fresh)
}

} // verus!
