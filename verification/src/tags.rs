//! The tags of a way: keys and their values.

use vstd::prelude::*;
use vstd::string::StringExecFns;

verus! {

/// A list of tags, each key and value as a sequence of characters.
pub open spec fn tag_views(tags: Seq<(String, String)>) -> Seq<(Seq<char>, Seq<char>)> {
    tags.map_values(|tag: (String, String)| (tag.0@, tag.1@))
}

/// The mapping that a list of tags stands for. Where a key occurs more than
/// once, its last value counts.
pub open spec fn tag_table(tags: Seq<(Seq<char>, Seq<char>)>) -> Map<Seq<char>, Seq<char>>
    decreases tags.len(),
{
    if tags.len() == 0 {
        Map::empty()
    } else {
        tag_table(tags.drop_last()).insert(tags.last().0, tags.last().1)
    }
}

/// The value of a key: `None` if the tags do not hold the key.
pub open spec fn tag_lookup(tags: Seq<(Seq<char>, Seq<char>)>, key: Seq<char>) -> Option<
    Seq<char>,
> {
    if tag_table(tags).contains_key(key) {
        Some(tag_table(tags)[key])
    } else {
        None
    }
}

/// A text or none, as a sequence of characters or none.
pub open spec fn text_view(text: Option<String>) -> Option<Seq<char>> {
    match text {
        Some(t) => Some(t@),
        None => None,
    }
}

/// The value that the tags give to `key`, if they hold it.
pub fn tag_value(tags: &Vec<(String, String)>, key: &str) -> (value: Option<String>)
    ensures
        text_view(value) == tag_lookup(tag_views(tags@), key@),
{
    let ghost all = tag_views(tags@);
    let wanted = String::from_str(key);
    let mut value: Option<String> = None;
    let mut i: usize = 0;
    assert(all.take(0) =~= Seq::<(Seq<char>, Seq<char>)>::empty());
    while i < tags.len()
        invariant
            i <= tags.len(),
            all == tag_views(tags@),
            wanted@ == key@,
            text_view(value) == tag_lookup(all.take(i as int), key@),
        decreases tags.len() - i,
    {
        assert(all.take(i as int + 1).drop_last() =~= all.take(i as int));
        assert(all[i as int] == (tags@[i as int].0@, tags@[i as int].1@));
        if tags[i].0 == wanted {
            value = Some(tags[i].1.clone());
        }
        i = i + 1;
    }
    assert(all.take(i as int) =~= all);
    value
}

/// Whether the tags hold `key`.
pub fn has_tag(tags: &Vec<(String, String)>, key: &str) -> (found: bool)
    ensures
        found == tag_table(tag_views(tags@)).contains_key(key@),
{
    tag_value(tags, key).is_some()
}

} // verus!
