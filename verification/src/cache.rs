//! The cache of extracted entities, by a hash of the text.

use crate::entity::NerEntity;
use moka::sync::Cache;
use vstd::prelude::*;
use vstd::utf8;

verus! {

/// `moka::sync::Cache`, a concurrent cache with bounds on its size and on the age of its entries.
#[verifier::external_type_specification]
#[verifier::external_body]
#[verifier::reject_recursive_types(K)]
#[verifier::reject_recursive_types(V)]
#[verifier::reject_recursive_types(S)]
pub struct ExCache<K, V, S>(Cache<K, V, S>);

/// What a cache can still give: for each key the value that was last inserted under it, since the
/// cache was made or last cleared. Any of these may be gone by the time it is asked for, because
/// the cache is full or the entry is too old.
pub uninterp spec fn cached(cache: Cache<u64, Vec<NerEntity>>) -> Map<u64, Seq<NerEntity>>;

/// The bounds that a cache was made with: the number of entries, and their age in seconds.
pub uninterp spec fn bounds(cache: Cache<u64, Vec<NerEntity>>) -> (u64, u64);

/// What a cache without entries can give.
pub open spec fn no_entries() -> Map<u64, Seq<NerEntity>> {
    Map::empty()
}

/// The longest age bound that a cache can be made with, in seconds.
pub const LONGEST_AGE: u64 = 31_536_000_000;

/// `moka::sync::CacheBuilder` with `max_capacity` and `time_to_live`, and its `build`: a new cache
/// with these bounds and without entries. An age bound of more than a thousand years is excluded:
/// `build` panics on it.
#[verifier::external_body]
pub(crate) fn build_cache(capacity: u64, age: u64) -> (r: Cache<u64, Vec<NerEntity>>)
    requires
        age <= LONGEST_AGE,
    ensures
        cached(r) == no_entries(),
        bounds(r) == (capacity, age),
{
    Cache::builder().max_capacity(capacity).time_to_live(
        std::time::Duration::from_secs(age),
    ).build()
}

/// `Cache::get`: a clone of the value that was last inserted under the key, or nothing. Whether an
/// entry that was inserted is still there is left open: it depends on time and on the cache's
/// choice of what to evict.
#[verifier::external_body]
pub(crate) fn get(cache: &Cache<u64, Vec<NerEntity>>, key: u64) -> (r: Option<Vec<NerEntity>>)
    ensures
        r matches Some(entities) ==> cached(*cache).contains_key(key) && entities@ == cached(
            *cache,
        )[key],
{
    cache.get(&key)
}

/// `Cache::insert`: puts the value under the key, in place of an earlier one.
#[verifier::external_body]
pub(crate) fn insert(cache: &mut Cache<u64, Vec<NerEntity>>, key: u64, entities: Vec<NerEntity>)
    ensures
        cached(*final(cache)) == cached(*old(cache)).insert(key, entities@),
        bounds(*final(cache)) == bounds(*old(cache)),
{
    cache.insert(key, entities)
}

/// `Cache::invalidate_all`: none of the values inserted so far is given again. For a value that was
/// inserted at the very clock reading of the call this rests on the method's documentation, which
/// covers entries inserted before or at that time; the comparison in the code is strict.
#[verifier::external_body]
pub(crate) fn invalidate_all(cache: &mut Cache<u64, Vec<NerEntity>>)
    ensures
        cached(*final(cache)) == no_entries(),
        bounds(*final(cache)) == bounds(*old(cache)),
{
    cache.invalidate_all()
}

/// `Cache::entry_count`: an estimate of the number of entries. The cache counts with a delay, so
/// nothing is said of the number.
#[verifier::external_body]
pub(crate) fn entry_count(cache: &Cache<u64, Vec<NerEntity>>) -> u64 {
    cache.entry_count()
}

/// The start value of the hash.
pub const FNV_OFFSET: u64 = 0xcbf2_9ce4_8422_2325;

/// The factor of the hash.
pub const FNV_PRIME: u64 = 0x0000_0100_0000_01b3;

/// The 64-bit FNV-1a hash: for each byte, an exclusive or and a multiplication.
pub open spec fn fnv1a(bytes: Seq<u8>) -> u64
    decreases bytes.len(),
{
    if bytes.len() == 0 {
        FNV_OFFSET
    } else {
        (fnv1a(bytes.drop_last()) ^ (bytes.last() as u64)).wrapping_mul(FNV_PRIME)
    }
}

/// The cache key of a text.
pub open spec fn key_of(s: Seq<char>) -> u64 {
    fnv1a(utf8::encode_utf8(s))
}

/// The cache key of a text: the FNV-1a hash of its bytes.
pub fn cache_key(text: &str) -> (r: u64)
    ensures
        r == key_of(text@),
{
    let bytes = text.as_bytes();
    let mut hash: u64 = FNV_OFFSET;
    for i in 0..bytes.len()
        invariant
            bytes@ == utf8::encode_utf8(text@),
            hash == fnv1a(bytes@.take(i as int)),
    {
        let b = bytes[i];
        assert(bytes@.take(i + 1).drop_last() == bytes@.take(i as int));
        assert(bytes@.take(i + 1).last() == b);
        hash = (hash ^ (b as u64)).wrapping_mul(FNV_PRIME);
    }
    assert(bytes@.take(bytes@.len() as int) == bytes@);
    hash
}

/// The hash of no bytes is the start value, and each byte changes a hash by an exclusive or and a
/// multiplication modulo two to the power of 64.
pub proof fn law_hash_grows_by_bytes(bytes: Seq<u8>, b: u8)
    ensures
        fnv1a(Seq::empty()) == 14695981039346656037,
        fnv1a(bytes.push(b)) as int == ((fnv1a(bytes) ^ (b as u64)) as int * 1099511628211)
            % 0x1_0000_0000_0000_0000,
{
    assert(bytes.push(b).drop_last() =~= bytes);
}

/// The key of a text with one more ASCII character comes from the key of the text and that
/// character's byte.
pub proof fn law_keys_grow_by_characters(s: Seq<char>, c: char)
    requires
        c <= '\x7f',
    ensures
        key_of(Seq::empty()) == 14695981039346656037,
        key_of(s.push(c)) as int == ((key_of(s) ^ (c as u64)) as int * 1099511628211)
            % 0x1_0000_0000_0000_0000,
{
    lemma_encode_push(s, c);
    law_hash_grows_by_bytes(utf8::encode_utf8(s), c as u8);
}

proof fn lemma_encode_push(s: Seq<char>, c: char)
    requires
        c <= '\x7f',
    ensures
        utf8::encode_utf8(s.push(c)) == utf8::encode_utf8(s).push(c as u8),
    decreases s.len(),
{
    let grown = s.push(c);
    if s.len() == 0 {
        let one = seq![c];
        assert(grown =~= one);
        assert('\0' <= one[0] <= '\u{7f}');
        assert(utf8::is_ascii_chars(one));
        utf8::is_ascii_chars_encode_utf8(one);
        assert(utf8::encode_utf8(one) =~= seq![c as u8]) by {
            assert(one[0] as u8 == utf8::encode_utf8(one)[0]);
        }
        assert(utf8::encode_utf8(s).push(c as u8) =~= seq![c as u8]);
    } else {
        lemma_encode_push(s.drop_first(), c);
        assert(grown.drop_first() =~= s.drop_first().push(c));
        assert(grown[0] == s[0]);
        assert(utf8::encode_utf8(grown) =~= utf8::encode_utf8(s).push(c as u8));
    }
}

/// A key is the hash of a text's bytes, so texts with one key differ in no way that the cache sees.
pub proof fn law_key_is_the_hash_of_the_bytes(s: Seq<char>)
    ensures
        key_of(s) == fnv1a(utf8::encode_utf8(s)),
{
}

} // verus!
