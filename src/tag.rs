//! Building the tagged-tree document of a schematic with `nbt`'s compound
//! tags. A compound tag is a map from entry names to values; inserting under
//! a name replaces what stood there. `tag_contents` names that map.
use vstd::prelude::*;
use nbt::CompoundTag;

verus! {

#[verifier::external_type_specification]
#[verifier::external_body]
pub struct ExCompoundTag(CompoundTag);

/// A value stored in a compound tag, of the kinds this library writes.
pub enum NbtValue {
    Int(i32),
    Str(Seq<char>),
    Compound(Map<Seq<char>, NbtValue>),
    CompoundList(Seq<Map<Seq<char>, NbtValue>>),
    LongArray(Seq<i64>),
}

/// The entries of a compound tag, by name.
pub uninterp spec fn tag_contents(t: CompoundTag) -> Map<Seq<char>, NbtValue>;

/// The contents of a tag with no entries.
pub open spec fn no_entries() -> Map<Seq<char>, NbtValue> {
    Map::empty()
}

/// Relies on `nbt::CompoundTag::new`: a compound tag with no entries.
#[verifier::external_body]
pub(crate) fn new_tag() -> (r: CompoundTag)
    ensures
        tag_contents(r) == no_entries(),
{
    CompoundTag::new()
}

/// Relies on `nbt::CompoundTag::insert_i32`: stores an `Int` tag under
/// `name`, replacing any entry of that name.
#[verifier::external_body]
pub(crate) fn put_i32(tag: &mut CompoundTag, name: &str, value: i32)
    ensures
        tag_contents(*final(tag)) == tag_contents(*old(tag)).insert(name@, NbtValue::Int(value)),
{
    tag.insert_i32(name, value)
}

/// Relies on `nbt::CompoundTag::insert_str`: stores a `String` tag under
/// `name`, replacing any entry of that name.
#[verifier::external_body]
pub(crate) fn put_str(tag: &mut CompoundTag, name: &str, value: &str)
    ensures
        tag_contents(*final(tag)) == tag_contents(*old(tag)).insert(name@, NbtValue::Str(value@)),
{
    tag.insert_str(name, value)
}

/// Relies on `nbt::CompoundTag::insert_compound_tag`: stores `value` as a
/// nested compound tag under `name`, replacing any entry of that name.
#[verifier::external_body]
pub(crate) fn put_compound(tag: &mut CompoundTag, name: &str, value: CompoundTag)
    ensures
        tag_contents(*final(tag)) == tag_contents(*old(tag)).insert(
            name@,
            NbtValue::Compound(tag_contents(value)),
        ),
{
    tag.insert_compound_tag(name, value)
}

/// Relies on `nbt::CompoundTag::insert_compound_tag_vec`: stores the
/// compound tags, in order, as a list under `name`, replacing any entry of
/// that name.
#[verifier::external_body]
pub(crate) fn put_compound_list(tag: &mut CompoundTag, name: &str, values: Vec<CompoundTag>)
    ensures
        tag_contents(*final(tag)) == tag_contents(*old(tag)).insert(
            name@,
            NbtValue::CompoundList(values@.map_values(|t: CompoundTag| tag_contents(t))),
        ),
{
    tag.insert_compound_tag_vec(name, values)
}

/// Relies on `nbt::CompoundTag::insert_i64_vec`: stores a `LongArray` tag
/// under `name`, replacing any entry of that name; each word is handed over
/// with the same 64 bits.
#[verifier::external_body]
pub(crate) fn put_long_array(tag: &mut CompoundTag, name: &str, words: &Vec<u64>)
    ensures
        tag_contents(*final(tag)) == tag_contents(*old(tag)).insert(
            name@,
            NbtValue::LongArray(words@.map_values(|w: u64| w as i64)),
        ),
{
    tag.insert_i64_vec(name, words.iter().map(|w| *w as i64).collect())
}

} // verus!
