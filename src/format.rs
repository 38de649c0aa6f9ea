//! The record format: lines of `key: value` that make one link entry.

use vstd::prelude::*;
use crate::read_later_list::{
    BuilderView, LinkEntry, LinkEntryBuilder, LinkView, MissingField, build_of, empty_builder,
};
use crate::text::{chars_of, join, join_strings, split, split_ranges, string_of, trim, trim_range};

verus! {

pub open spec fn url_key() -> Seq<char> {
    seq!['u', 'r', 'l']
}

pub open spec fn title_key() -> Seq<char> {
    seq!['t', 'i', 't', 'l', 'e']
}

pub open spec fn tags_key() -> Seq<char> {
    seq!['t', 'a', 'g', 's']
}

/// `p` without one trailing carriage return.
pub open spec fn strip_cr(p: Seq<char>) -> Seq<char> {
    if p.len() > 0 && p.last() == '\r' {
        p.drop_last()
    } else {
        p
    }
}

/// The lines of `s` as `str::lines` gives them: split at each newline, a carriage return
/// before a newline dropped, and no empty line after a final newline.
pub open spec fn lines(s: Seq<char>) -> Seq<Seq<char>> {
    let parts = split(s, seq!['\n']);
    let body = parts.drop_last().map_values(|p: Seq<char>| strip_cr(p));
    if parts.last().len() == 0 {
        body
    } else {
        body.push(parts.last())
    }
}

/// The first colon at `j` or later that has a character after it.
pub open spec fn colon_from(line: Seq<char>, j: int) -> Option<int>
    decreases line.len() - j,
{
    if j + 1 >= line.len() {
        None
    } else if line[j] == ':' {
        Some(j)
    } else {
        colon_from(line, j + 1)
    }
}

/// The key and the value of a line `key: value`, both trimmed. The key is what stands
/// before the first colon that is neither the first nor the last character; a line
/// without such a colon holds no field.
pub open spec fn line_field(line: Seq<char>) -> Option<(Seq<char>, Seq<char>)> {
    match colon_from(line, 1) {
        Some(j) => Some(
            (trim(line.subrange(0, j)), trim(line.subrange(j + 1, line.len() as int))),
        ),
        None => None,
    }
}

/// The pieces, trimmed, leaving out those that are empty.
pub open spec fn kept_tags(pieces: Seq<Seq<char>>) -> Seq<Seq<char>>
    decreases pieces.len(),
{
    if pieces.len() == 0 {
        Seq::empty()
    } else {
        let before = kept_tags(pieces.drop_last());
        let t = trim(pieces.last());
        if t.len() > 0 {
            before.push(t)
        } else {
            before
        }
    }
}

/// The tags of a comma-separated value.
pub open spec fn tag_list(v: Seq<char>) -> Seq<Seq<char>> {
    kept_tags(split(v, seq![',']))
}

/// What one line does to the builder: `url` and `title` set their field, `tags` appends,
/// and any other key, or a line without a field, changes nothing.
pub open spec fn read_line(b: BuilderView, line: Seq<char>) -> BuilderView {
    match line_field(line) {
        Some((k, v)) => if k == url_key() {
            BuilderView { url: Some(v), ..b }
        } else if k == title_key() {
            BuilderView { title: Some(v), ..b }
        } else if k == tags_key() {
            BuilderView { tags: b.tags + tag_list(v), ..b }
        } else {
            b
        },
        None => b,
    }
}

pub open spec fn read_lines(ls: Seq<Seq<char>>) -> BuilderView
    decreases ls.len(),
{
    if ls.len() == 0 {
        empty_builder()
    } else {
        read_line(read_lines(ls.drop_last()), ls.last())
    }
}

/// The entry that the text of one record describes.
pub open spec fn record_of(text: Seq<char>) -> Result<LinkView, MissingField> {
    build_of(read_lines(lines(text)))
}

/// Whether `cs[from..to]` holds exactly `w`.
fn holds(cs: &Vec<char>, from: usize, to: usize, w: &Vec<char>) -> (r: bool)
    requires
        from <= to <= cs.len(),
    ensures
        r == (cs@.subrange(from as int, to as int) == w@),
{
    if to - from != w.len() {
        return false;
    }
    let mut k: usize = 0;
    while k < w.len()
        invariant
            k <= w.len() == to - from,
            to <= cs.len(),
            forall|m: int| 0 <= m < k ==> w@[m] == cs@[from + m],
        decreases w.len() - k,
    {
        if w[k] != cs[from + k] {
            assert(cs@.subrange(from as int, to as int)[k as int] != w@[k as int]);
            return false;
        }
        k = k + 1;
    }
    assert(cs@.subrange(from as int, to as int) =~= w@);
    true
}

/// The bounds within `cs` of the key and of the value of the line `cs[from..to]`.
fn field_ranges(cs: &Vec<char>, from: usize, to: usize) -> (r: Option<(usize, usize, usize, usize)>)
    requires
        from <= to <= cs.len(),
    ensures
        match r {
            None => line_field(cs@.subrange(from as int, to as int)) is None,
            Some((ka, kb, va, vb)) => ka <= kb <= cs.len() && va <= vb <= cs.len() && line_field(
                cs@.subrange(from as int, to as int),
            ) == Some((cs@.subrange(ka as int, kb as int), cs@.subrange(va as int, vb as int))),
        },
{
    let ghost line = cs@.subrange(from as int, to as int);
    if to - from < 2 {
        return None;
    }
    let mut j: usize = from + 1;
    while j < to - 1
        invariant
            to >= 2,
            from + 1 <= j,
            to <= cs.len(),
            line == cs@.subrange(from as int, to as int),
            colon_from(line, 1) == colon_from(line, j - from),
        decreases to - j,
    {
        if cs[j] == ':' {
            assert(colon_from(line, j - from) == Some(j - from));
            let (ka, kb) = trim_range(cs, from, j);
            let (va, vb) = trim_range(cs, j + 1, to);
            assert(line.subrange(0, j - from) =~= cs@.subrange(from as int, j as int));
            assert(line.subrange(j - from + 1, line.len() as int) =~= cs@.subrange(j + 1, to as int));
            return Some((ka, kb, va, vb));
        }
        j = j + 1;
    }
    None
}

/// Appends to `b` the tags of the comma-separated value `cs[from..to]`.
pub(crate) fn add_value_tags(b: LinkEntryBuilder, cs: &Vec<char>, from: usize, to: usize) -> (r: LinkEntryBuilder)
    requires
        from <= to <= cs.len(),
    ensures
        r@ == (BuilderView { tags: b@.tags + tag_list(cs@.subrange(from as int, to as int)), ..b@ }),
{
    let mut comma: Vec<char> = Vec::new();
    comma.push(',');
    assert(comma@ =~= seq![',']);
    let pieces = split_ranges(cs, from, to, &comma);
    let ghost all = split(cs@.subrange(from as int, to as int), seq![',']);
    let mut r = b;
    let mut k: usize = 0;
    while k < pieces.len()
        invariant
            k <= pieces.len() == all.len(),
            comma@ == seq![','],
            all == split(cs@.subrange(from as int, to as int), seq![',']),
            forall|m: int|
                0 <= m < pieces@.len() ==> from <= #[trigger] pieces@[m].0 <= pieces@[m].1 <= to
                    && cs@.subrange(pieces@[m].0 as int, pieces@[m].1 as int) == all[m],
            to <= cs.len(),
            r@ == (BuilderView { tags: b@.tags + kept_tags(all.take(k as int)), ..b@ }),
        decreases pieces.len() - k,
    {
        let (a, z) = pieces[k];
        let (ta, tz) = trim_range(cs, a, z);
        assert(all.take(k + 1).drop_last() =~= all.take(k as int));
        if ta < tz {
            let t = string_of(cs, ta, tz);
            r = r.add_tag(t.as_str());
            assert(b@.tags + kept_tags(all.take(k + 1))
                =~= (b@.tags + kept_tags(all.take(k as int))).push(t@));
        }
        k = k + 1;
    }
    assert(all.take(k as int) =~= all);
    r
}

/// What the line `cs[from..to]` does to `b`.
fn apply_line(
    b: LinkEntryBuilder,
    cs: &Vec<char>,
    from: usize,
    to: usize,
    keys: &(Vec<char>, Vec<char>, Vec<char>),
) -> (r: LinkEntryBuilder)
    requires
        from <= to <= cs.len(),
        keys.0@ == url_key(),
        keys.1@ == title_key(),
        keys.2@ == tags_key(),
    ensures
        r@ == read_line(b@, cs@.subrange(from as int, to as int)),
{
    match field_ranges(cs, from, to) {
        None => b,
        Some((ka, kb, va, vb)) => {
            if holds(cs, ka, kb, &keys.0) {
                let v = string_of(cs, va, vb);
                b.set_url(v.as_str())
            } else if holds(cs, ka, kb, &keys.1) {
                let v = string_of(cs, va, vb);
                b.set_title(v.as_str())
            } else if holds(cs, ka, kb, &keys.2) {
                add_value_tags(b, cs, va, vb)
            } else {
                b
            }
        },
    }
}

/// The entry that the record `cs[from..to]` describes, or the first field it lacks.
pub(crate) fn parse_record(cs: &Vec<char>, from: usize, to: usize) -> (r: Result<LinkEntry, MissingField>)
    requires
        from <= to <= cs.len(),
    ensures
        r matches Ok(e) ==> record_of(cs@.subrange(from as int, to as int))
            == Ok::<LinkView, MissingField>(e@),
        r matches Err(f) ==> record_of(cs@.subrange(from as int, to as int))
            == Err::<LinkView, MissingField>(f),
{
    let ghost text = cs@.subrange(from as int, to as int);
    let keys = (vec!['u', 'r', 'l'], vec!['t', 'i', 't', 'l', 'e'], vec!['t', 'a', 'g', 's']);
    let mut newline: Vec<char> = Vec::new();
    newline.push('\n');
    assert(newline@ =~= seq!['\n']);
    let parts = split_ranges(cs, from, to, &newline);
    let ghost all = split(text, seq!['\n']);
    let mut b = LinkEntryBuilder::new();
    let mut k: usize = 0;
    let n = parts.len();
    proof {
        crate::text::lemma_split_nonempty(text, seq!['\n']);
    }
    while k + 1 < n
        invariant
            k < n == parts.len() == all.len(),
            newline@ == seq!['\n'],
            all == split(cs@.subrange(from as int, to as int), seq!['\n']),
            forall|m: int|
                0 <= m < parts@.len() ==> from <= #[trigger] parts@[m].0 <= parts@[m].1 <= to
                    && cs@.subrange(parts@[m].0 as int, parts@[m].1 as int) == all[m],
            to <= cs.len(),
            keys.0@ == url_key(),
            keys.1@ == title_key(),
            keys.2@ == tags_key(),
            b@ == read_lines(all.take(k as int).map_values(|p: Seq<char>| strip_cr(p))),
        decreases n - k,
    {
        let (a, mut z) = parts[k];
        if z > a && cs[z - 1] == '\r' {
            z = z - 1;
            assert(cs@.subrange(a as int, z as int) =~= strip_cr(all[k as int]));
        } else {
            assert(cs@.subrange(a as int, z as int) =~= strip_cr(all[k as int]));
        }
        let ghost prev = all.take(k as int).map_values(|p: Seq<char>| strip_cr(p));
        b = apply_line(b, cs, a, z, &keys);
        assert(prev.push(strip_cr(all[k as int])).drop_last() =~= prev);
        assert(all.take(k + 1).map_values(|p: Seq<char>| strip_cr(p))
            =~= all.take(k as int).map_values(|p: Seq<char>| strip_cr(p)).push(strip_cr(all[k as int])));
        k = k + 1;
    }
    let ghost body = all.drop_last().map_values(|p: Seq<char>| strip_cr(p));
    assert(all.take(k as int).map_values(|p: Seq<char>| strip_cr(p)) =~= body);
    let (a, z) = parts[k];
    if a < z {
        b = apply_line(b, cs, a, z, &keys);
        assert(body.push(all.last()).drop_last() =~= body);
    }
    b.build()
}

impl LinkEntry {
    /// The entry that the text of one record describes, or the first field it lacks.
    pub fn parse(text: &str) -> (r: Result<LinkEntry, MissingField>)
        ensures
            r matches Ok(e) ==> record_of(text@) == Ok::<LinkView, MissingField>(e@),
            r matches Err(f) ==> record_of(text@) == Err::<LinkView, MissingField>(f),
    {
        let cs = chars_of(text);
        assert(cs@.subrange(0, cs@.len() as int) =~= text@);
        parse_record(&cs, 0, cs.len())
    }
}


/// The separator of the tags on a `tags` line.
pub open spec fn tag_separator() -> Seq<char> {
    seq![',', ' ']
}

/// A line `key: value`.
pub open spec fn field_line(key: Seq<char>, value: Seq<char>) -> Seq<char> {
    key + seq![':', ' '] + value
}

/// The text of one entry: its `url` line, its `title` line, and a `tags` line only where
/// it has tags, the tags in their order.
pub open spec fn record_text(e: LinkView) -> Seq<char> {
    let head = field_line(url_key(), e.url) + seq!['\n'] + field_line(title_key(), e.title);
    if e.tags.len() == 0 {
        head
    } else {
        head + seq!['\n'] + field_line(tags_key(), join(e.tags, tag_separator()))
    }
}

/// Appends the characters of `s` to `v`.
pub(crate) fn extend_chars(v: &mut Vec<char>, s: &Vec<char>)
    ensures
        final(v)@ == old(v)@ + s@,
{
    let mut i: usize = 0;
    while i < s.len()
        invariant
            i <= s.len(),
            v@ == old(v)@ + s@.take(i as int),
        decreases s.len() - i,
    {
        v.push(s[i]);
        assert(old(v)@ + s@.take(i + 1) =~= (old(v)@ + s@.take(i as int)).push(s@[i as int]));
        i = i + 1;
    }
    assert(s@.take(i as int) =~= s@);
}

impl LinkEntry {
    /// The tags with `", "` between each two of them.
    pub fn joined_tags(&self) -> (r: String)
        ensures
            r@ == join(self@.tags, tag_separator()),
    {
        proof {
            reveal_strlit(", ");
        }
        assert(", "@ =~= tag_separator());
        join_strings(&self.tags, ", ")
    }

    /// The characters of `record_text`.
    pub(crate) fn record_chars(&self) -> (r: Vec<char>)
        ensures
            r@ == record_text(self@),
    {
        let mut v: Vec<char> = Vec::new();
        extend_chars(&mut v, &vec!['u', 'r', 'l', ':', ' ']);
        extend_chars(&mut v, &chars_of(self.url.as_str()));
        extend_chars(&mut v, &vec!['\n', 't', 'i', 't', 'l', 'e', ':', ' ']);
        extend_chars(&mut v, &chars_of(self.title.as_str()));
        let ghost head = field_line(url_key(), self@.url) + seq!['\n'] + field_line(title_key(), self@.title);
        assert(v@ =~= head);
        if self.tags.len() > 0 {
            extend_chars(&mut v, &vec!['\n', 't', 'a', 'g', 's', ':', ' ']);
            let joined = self.joined_tags();
            extend_chars(&mut v, &chars_of(joined.as_str()));
            assert(v@ =~= head + seq!['\n'] + field_line(tags_key(), join(self@.tags, tag_separator())));
        }
        v
    }

    /// The text of the entry, as `record_text` gives it.
    pub fn to_string(&self) -> (r: String)
        ensures
            r@ == record_text(self@),
    {
        let v = self.record_chars();
        assert(v@.subrange(0, v@.len() as int) =~= v@);
        string_of(&v, 0, v.len())
    }
}

} // verus!
