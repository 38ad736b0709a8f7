//! Where in a list the entry of a key stands, by hash.
//!
//! The hash maps are those of the `ahash` crate. Every map of this library
//! goes from a key to a position, so what is taken on trust about a hash map
//! is said once per type of key.

use ahash::AHashMap;
use vstd::prelude::*;

verus! {

/// `ahash::AHashMap`, of which nothing is known but what the functions below
/// say.
#[verifier::external_type_specification]
#[verifier::external_body]
#[verifier::reject_recursive_types(K)]
#[verifier::reject_recursive_types(V)]
#[verifier::reject_recursive_types(S)]
pub struct ExAHashMap<K, V, S>(ahash::AHashMap<K, V, S>);

/// `ahash::RandomState`, the hasher of such a map.
#[verifier::external_type_specification]
#[verifier::external_body]
pub struct ExRandomState(ahash::RandomState);

/// What a map keyed by a name holds.
pub uninterp spec fn name_positions(m: AHashMap<String, usize>) -> Map<Seq<char>, usize>;

/// What a map keyed by a pair of names holds.
pub uninterp spec fn pair_positions(m: AHashMap<(String, String), usize>) -> Map<(Seq<char>, Seq<char>), usize>;

/// What a map keyed by three names holds.
pub uninterp spec fn triple_positions(m: AHashMap<(String, String, String), usize>) -> Map<(Seq<char>, Seq<char>, Seq<char>), usize>;

/// What a map keyed by a number holds.
pub uninterp spec fn number_positions(m: AHashMap<u32, usize>) -> Map<u32, usize>;

/// `AHashMap::new`: a map with nothing in it.
#[verifier::external_body]
fn name_map_new() -> (m: AHashMap<String, usize>)
    ensures
        (name_positions(m) == Map::<Seq<char>, usize>::empty()),
{
    AHashMap::new()
}

/// `AHashMap::get`: the value which stands under the key, if one does.
#[verifier::external_body]
fn name_map_get(m: &AHashMap<String, usize>, key: &String) -> (r: Option<usize>)
    ensures
        r is Some <==> name_positions(*m).contains_key(key@),
        r matches Some(at) ==> name_positions(*m)[key@] == at,
{
    m.get(key).copied()
}

/// `AHashMap::insert`: the key leads to the value, and the other keys to what
/// they led to.
#[verifier::external_body]
fn name_map_insert(m: &mut AHashMap<String, usize>, key: String, at: usize)
    ensures
        name_positions(*final(m)) == name_positions(*old(m)).insert(key@, at),
{
    m.insert(key, at);
}

/// `AHashMap::remove`: the key is gone, and the other keys stay.
#[verifier::external_body]
fn name_map_remove(m: &mut AHashMap<String, usize>, key: &String)
    ensures
        name_positions(*final(m)) == name_positions(*old(m)).remove(key@),
{
    m.remove(key);
}

/// `AHashMap::new`: a map with nothing in it.
#[verifier::external_body]
fn pair_map_new() -> (m: AHashMap<(String, String), usize>)
    ensures
        (pair_positions(m) == Map::<(Seq<char>, Seq<char>), usize>::empty()),
{
    AHashMap::new()
}

/// `AHashMap::get`: the value which stands under the key, if one does.
#[verifier::external_body]
fn pair_map_get(m: &AHashMap<(String, String), usize>, key: &(String, String)) -> (r: Option<usize>)
    ensures
        r is Some <==> pair_positions(*m).contains_key((key.0@, key.1@)),
        r matches Some(at) ==> pair_positions(*m)[(key.0@, key.1@)] == at,
{
    m.get(key).copied()
}

/// `AHashMap::insert`: the key leads to the value, and the other keys to what
/// they led to.
#[verifier::external_body]
fn pair_map_insert(m: &mut AHashMap<(String, String), usize>, key: (String, String), at: usize)
    ensures
        pair_positions(*final(m)) == pair_positions(*old(m)).insert((key.0@, key.1@), at),
{
    m.insert(key, at);
}

/// `AHashMap::remove`: the key is gone, and the other keys stay.
#[verifier::external_body]
fn pair_map_remove(m: &mut AHashMap<(String, String), usize>, key: &(String, String))
    ensures
        pair_positions(*final(m)) == pair_positions(*old(m)).remove((key.0@, key.1@)),
{
    m.remove(key);
}

/// `AHashMap::new`: a map with nothing in it.
#[verifier::external_body]
fn triple_map_new() -> (m: AHashMap<(String, String, String), usize>)
    ensures
        (triple_positions(m) == Map::<(Seq<char>, Seq<char>, Seq<char>), usize>::empty()),
{
    AHashMap::new()
}

/// `AHashMap::get`: the value which stands under the key, if one does.
#[verifier::external_body]
fn triple_map_get(
    m: &AHashMap<(String, String, String), usize>,
    key: &(String, String, String),
) -> (r: Option<usize>)
    ensures
        r is Some <==> triple_positions(*m).contains_key((key.0@, key.1@, key.2@)),
        r matches Some(at) ==> triple_positions(*m)[(key.0@, key.1@, key.2@)] == at,
{
    m.get(key).copied()
}

/// `AHashMap::insert`: the key leads to the value, and the other keys to what
/// they led to.
#[verifier::external_body]
fn triple_map_insert(
    m: &mut AHashMap<(String, String, String), usize>,
    key: (String, String, String),
    at: usize,
)
    ensures
        triple_positions(*final(m)) == triple_positions(*old(m)).insert(
            (key.0@, key.1@, key.2@),
            at,
        ),
{
    m.insert(key, at);
}

/// `AHashMap::remove`: the key is gone, and the other keys stay.
#[verifier::external_body]
fn triple_map_remove(
    m: &mut AHashMap<(String, String, String), usize>,
    key: &(String, String, String),
)
    ensures
        triple_positions(*final(m)) == triple_positions(*old(m)).remove(
            (key.0@, key.1@, key.2@),
        ),
{
    m.remove(key);
}

/// `AHashMap::new`: a map with nothing in it.
#[verifier::external_body]
fn number_map_new() -> (m: AHashMap<u32, usize>)
    ensures
        (number_positions(m) == Map::<u32, usize>::empty()),
{
    AHashMap::new()
}

/// `AHashMap::get`: the value which stands under the key, if one does.
#[verifier::external_body]
fn number_map_get(m: &AHashMap<u32, usize>, key: &u32) -> (r: Option<usize>)
    ensures
        r is Some <==> number_positions(*m).contains_key(*key),
        r matches Some(at) ==> number_positions(*m)[*key] == at,
{
    m.get(key).copied()
}

/// `AHashMap::insert`: the key leads to the value, and the other keys to what
/// they led to.
#[verifier::external_body]
fn number_map_insert(m: &mut AHashMap<u32, usize>, key: u32, at: usize)
    ensures
        number_positions(*final(m)) == number_positions(*old(m)).insert(key, at),
{
    m.insert(key, at);
}

/// `AHashMap::remove`: the key is gone, and the other keys stay.
#[verifier::external_body]
fn number_map_remove(m: &mut AHashMap<u32, usize>, key: &u32)
    ensures
        number_positions(*final(m)) == number_positions(*old(m)).remove(*key),
{
    m.remove(key);
}

/// A map from keys to positions in a list.
pub trait PositionIndex: Sized {
    /// A key as it is held.
    type Key;

    /// What a key says, whichever value holds it.
    type Name;

    spec fn name_of(key: Self::Key) -> Self::Name;

    spec fn positions(&self) -> Map<Self::Name, usize>;

    fn empty() -> (r: Self)
        ensures
            r.positions() == Map::<Self::Name, usize>::empty(),
    ;

    fn lookup(&self, key: &Self::Key) -> (r: Option<usize>)
        ensures
            r is Some <==> self.positions().contains_key(Self::name_of(*key)),
            r matches Some(at) ==> self.positions()[Self::name_of(*key)] == at,
    ;

    fn put(&mut self, key: &Self::Key, at: usize)
        ensures
            final(self).positions() == old(self).positions().insert(Self::name_of(*key), at),
    ;

    fn forget(&mut self, key: &Self::Key)
        ensures
            final(self).positions() == old(self).positions().remove(Self::name_of(*key)),
    ;
}

impl PositionIndex for AHashMap<String, usize> {
    type Key = String;

    type Name = Seq<char>;

    open spec fn name_of(key: String) -> Seq<char> {
        key@
    }

    open spec fn positions(&self) -> Map<Seq<char>, usize> {
        name_positions(*self)
    }

    fn empty() -> (r: Self) {
        name_map_new()
    }

    fn lookup(&self, key: &String) -> (r: Option<usize>) {
        name_map_get(self, key)
    }

    fn put(&mut self, key: &String, at: usize) {
        name_map_insert(self, key.clone(), at)
    }

    fn forget(&mut self, key: &String) {
        name_map_remove(self, key)
    }
}

impl PositionIndex for AHashMap<(String, String), usize> {
    type Key = (String, String);

    type Name = (Seq<char>, Seq<char>);

    open spec fn name_of(key: (String, String)) -> (Seq<char>, Seq<char>) {
        (key.0@, key.1@)
    }

    open spec fn positions(&self) -> Map<(Seq<char>, Seq<char>), usize> {
        pair_positions(*self)
    }

    fn empty() -> (r: Self) {
        pair_map_new()
    }

    fn lookup(&self, key: &(String, String)) -> (r: Option<usize>) {
        pair_map_get(self, key)
    }

    fn put(&mut self, key: &(String, String), at: usize) {
        pair_map_insert(self, (key.0.clone(), key.1.clone()), at)
    }

    fn forget(&mut self, key: &(String, String)) {
        pair_map_remove(self, key)
    }
}

impl PositionIndex for AHashMap<(String, String, String), usize> {
    type Key = (String, String, String);

    type Name = (Seq<char>, Seq<char>, Seq<char>);

    open spec fn name_of(key: (String, String, String)) -> (Seq<char>, Seq<char>, Seq<char>) {
        (key.0@, key.1@, key.2@)
    }

    open spec fn positions(&self) -> Map<(Seq<char>, Seq<char>, Seq<char>), usize> {
        triple_positions(*self)
    }

    fn empty() -> (r: Self) {
        triple_map_new()
    }

    fn lookup(&self, key: &(String, String, String)) -> (r: Option<usize>) {
        triple_map_get(self, key)
    }

    fn put(&mut self, key: &(String, String, String), at: usize) {
        triple_map_insert(self, (key.0.clone(), key.1.clone(), key.2.clone()), at)
    }

    fn forget(&mut self, key: &(String, String, String)) {
        triple_map_remove(self, key)
    }
}

impl PositionIndex for AHashMap<u32, usize> {
    type Key = u32;

    type Name = u32;

    open spec fn name_of(key: u32) -> u32 {
        key
    }

    open spec fn positions(&self) -> Map<u32, usize> {
        number_positions(*self)
    }

    fn empty() -> (r: Self) {
        number_map_new()
    }

    fn lookup(&self, key: &u32) -> (r: Option<usize>) {
        number_map_get(self, key)
    }

    fn put(&mut self, key: &u32, at: usize) {
        number_map_insert(self, *key, at)
    }

    fn forget(&mut self, key: &u32) {
        number_map_remove(self, key)
    }
}

}
