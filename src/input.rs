//! What the user types when saving a link: a title, and tags separated by commas.

use vstd::prelude::*;
use crate::format::{add_value_tags, tag_list};
use crate::read_later_list::LinkEntryBuilder;
use crate::text::{chars_of, string_of, trim, trim_range, views};

verus! {

/// The tags of a comma-separated text: each piece trimmed, empty pieces left out.
pub fn parse_tags(text: &str) -> (r: Vec<String>)
    ensures
        views(r@) == tag_list(text@),
{
    let cs = chars_of(text);
    assert(cs@.subrange(0, cs@.len() as int) =~= text@);
    let b = add_value_tags(LinkEntryBuilder::new(), &cs, 0, cs.len());
    assert(Seq::<Seq<char>>::empty() + tag_list(text@) =~= tag_list(text@));
    b.into_tags()
}

/// The title typed, trimmed; where nothing but whitespace was typed, the previous one.
pub fn choose_title(typed: &str, previous: &str) -> (r: String)
    ensures
        r@ == if trim(typed@).len() > 0 {
            trim(typed@)
        } else {
            previous@
        },
{
    let cs = chars_of(typed);
    assert(cs@.subrange(0, cs@.len() as int) =~= typed@);
    let (a, z) = trim_range(&cs, 0, cs.len());
    if a < z {
        string_of(&cs, a, z)
    } else {
        String::from_str(previous)
    }
}

/// The tags typed; where none were typed, those of the previous comma-separated text.
pub fn choose_tags(typed: &str, previous: &str) -> (r: Vec<String>)
    ensures
        views(r@) == if tag_list(typed@).len() > 0 {
            tag_list(typed@)
        } else {
            tag_list(previous@)
        },
{
    let tags = parse_tags(typed);
    if tags.len() > 0 {
        tags
    } else {
        parse_tags(previous)
    }
}


/// The tags that hold more than whitespace, as they were given and in their order.
pub open spec fn non_blank(ts: Seq<Seq<char>>) -> Seq<Seq<char>>
    decreases ts.len(),
{
    if ts.len() == 0 {
        Seq::empty()
    } else {
        let before = non_blank(ts.drop_last());
        if trim(ts.last()).len() > 0 {
            before.push(ts.last())
        } else {
            before
        }
    }
}

/// The given tags without those that are empty or only whitespace.
pub fn non_blank_tags(tags: &Vec<String>) -> (r: Vec<String>)
    ensures
        views(r@) == non_blank(views(tags@)),
{
    let mut r: Vec<String> = Vec::new();
    let mut i: usize = 0;
    while i < tags.len()
        invariant
            i <= tags.len(),
            views(r@) == non_blank(views(tags@).take(i as int)),
        decreases tags.len() - i,
    {
        let cs = chars_of(tags[i].as_str());
        assert(cs@.subrange(0, cs@.len() as int) =~= tags@[i as int]@);
        let (a, z) = trim_range(&cs, 0, cs.len());
        assert(views(tags@).take(i + 1).drop_last() =~= views(tags@).take(i as int));
        if a < z {
            let ghost before = r@;
            let t = tags[i].clone();
            r.push(t);
            assert(views(before.push(t)) =~= views(before).push(t@));
        }
        i = i + 1;
    }
    assert(views(tags@).take(i as int) =~= views(tags@));
    r
}

} // verus!
