//! What holds of the list's operations together: its text reads back as the list, and
//! the laws of its tag operations.

use vstd::prelude::*;
use crate::format::{
    colon_from, field_line, kept_tags, line_field, lines, read_line, read_lines, record_of,
    record_text, strip_cr, tag_list, tag_separator, tags_key, title_key, url_key,
};
use crate::order::{SortKey, ascending, in_order, key_lt, least, lemma_key_lt_order};
use crate::read_later_list::{
    BuilderView, LinkView, ParseError, empty_builder, list_text, new_tags, parse_list, read_records,
    ReadLaterList, lemma_view_valid, record_delimiter, sort_keys, texts_of, valid_list, without_tags,
};
use crate::text::{
    is_space, join, lemma_split_join, opens_no, split, trim, trim_end, trim_start,
};

verus! {

/// A url or a title that its own line gives back: no whitespace around it and no line
/// break in it.
pub open spec fn plain_field(s: Seq<char>) -> bool {
    trim(s) == s && !s.contains('\n')
}

/// A tag that its `tags` line gives back: not empty, plain, and without a comma.
pub open spec fn plain_tag(t: Seq<char>) -> bool {
    t.len() > 0 && plain_field(t) && !t.contains(',')
}

/// An entry that its own text gives back: a url and a title that are not empty, and
/// plain fields.
pub open spec fn plain_entry(e: LinkView) -> bool {
    &&& e.url.len() > 0
    &&& e.title.len() > 0
    &&& plain_field(e.url)
    &&& plain_field(e.title)
    &&& forall|i: int| 0 <= i < e.tags.len() ==> plain_tag(#[trigger] e.tags[i])
}

proof fn lemma_trim_lengths(s: Seq<char>)
    ensures
        trim_start(s).len() <= s.len(),
        s.len() > 0 && is_space(s[0]) ==> trim_start(s).len() < s.len(),
        trim_end(s).len() <= s.len(),
        s.len() > 0 && is_space(s.last()) ==> trim_end(s).len() < s.len(),
        trim_end(s).len() == 0 ==> forall|i: int| 0 <= i < s.len() ==> is_space(#[trigger] s[i]),
        s.len() > 0 && !is_space(s[0]) ==> trim_start(s) == s,
    decreases s.len(),
{
    if s.len() > 0 {
        lemma_trim_lengths(s.drop_first());
        lemma_trim_lengths(s.drop_last());
        if trim_end(s).len() == 0 {
            assert forall|i: int| 0 <= i < s.len() implies is_space(#[trigger] s[i]) by {
                if i < s.len() - 1 {
                    assert(s.drop_last()[i] == s[i]);
                }
            }
        }
    }
}

/// A text whose first and last characters are not whitespace is its own trim.
proof fn lemma_trim_same(s: Seq<char>)
    requires
        s.len() == 0 || (!is_space(s[0]) && !is_space(s.last())),
    ensures
        trim(s) == s,
{
    lemma_trim_lengths(s);
}

/// The first and last characters of a non-empty trimmed text are not whitespace.
proof fn lemma_trimmed_ends(s: Seq<char>)
    requires
        trim(s) == s,
        s.len() > 0,
    ensures
        !is_space(s[0]),
        !is_space(s.last()),
{
    lemma_trim_lengths(s);
    lemma_trim_lengths(trim_start(s));
}

/// A space in front of a trimmed text is trimmed away.
proof fn lemma_trim_space(v: Seq<char>)
    requires
        trim(v) == v,
    ensures
        trim(seq![' '] + v) == v,
{
    let s = seq![' '] + v;
    assert(s.drop_first() =~= v);
    assert(is_space(' '));
    if v.len() > 0 {
        lemma_trimmed_ends(v);
        lemma_trim_lengths(v);
    } else {
        assert(trim_start(v) == v);
    }
}

proof fn lemma_colon_skip(line: Seq<char>, j: int, c: int)
    requires
        1 <= j <= c,
        c + 1 < line.len(),
        forall|i: int| j <= i < c ==> line[i] != ':',
    ensures
        colon_from(line, j) == colon_from(line, c),
    decreases c - j,
{
    if j < c {
        lemma_colon_skip(line, j + 1, c);
    }
}

/// A key without colons or whitespace, and a trimmed value, read back from their line.
proof fn lemma_line_field(k: Seq<char>, v: Seq<char>)
    requires
        k.len() >= 1,
        forall|i: int| 0 <= i < k.len() ==> #[trigger] k[i] != ':' && !is_space(k[i]),
        trim(v) == v,
    ensures
        line_field(field_line(k, v)) == Some((k, v)),
{
    let line = field_line(k, v);
    let c = k.len() as int;
    assert(line[c] == ':');
    assert forall|i: int| 1 <= i < c implies line[i] != ':' by {
        assert(line[i] == k[i]);
    }
    lemma_colon_skip(line, 1, c);
    assert(colon_from(line, c) == Some(c));
    assert(line.subrange(0, c) =~= k);
    assert(line.subrange(c + 1, line.len() as int) =~= seq![' '] + v);
    lemma_trim_same(k);
    lemma_trim_space(v);
}


/// Each of the tags with a space in front.
pub open spec fn padded(ts: Seq<Seq<char>>) -> Seq<Seq<char>> {
    ts.map_values(|t: Seq<char>| seq![' '] + t)
}

proof fn lemma_join_padded(ts: Seq<Seq<char>>)
    requires
        ts.len() >= 1,
    ensures
        join(padded(ts), seq![',']) == seq![' '] + join(ts, tag_separator()),
    decreases ts.len(),
{
    if ts.len() == 1 {
        assert(padded(ts).len() == 1);
    } else {
        lemma_join_padded(ts.drop_first());
        assert(padded(ts).drop_first() =~= padded(ts.drop_first()));
        assert(padded(ts)[0] == seq![' '] + ts[0]);
        assert((seq![' '] + ts[0]) + seq![','] + (seq![' '] + join(ts.drop_first(), tag_separator()))
            =~= seq![' '] + (ts[0] + tag_separator() + join(ts.drop_first(), tag_separator())));
    }
}

proof fn lemma_no_char_in_join(parts: Seq<Seq<char>>, d: Seq<char>, c: char)
    requires
        !d.contains(c),
        forall|i: int| 0 <= i < parts.len() ==> !(#[trigger] parts[i]).contains(c),
    ensures
        !join(parts, d).contains(c),
    decreases parts.len(),
{
    if parts.len() > 1 {
        lemma_no_char_in_join(parts.drop_first(), d, c);
        let j = join(parts.drop_first(), d);
        assert(join(parts, d) == parts[0] + d + j);
        if (parts[0] + d + j).contains(c) {
            let k = choose|k: int| 0 <= k < (parts[0] + d + j).len() && (parts[0] + d + j)[k] == c;
            if k < parts[0].len() {
                assert(parts[0][k] == c);
            } else if k < parts[0].len() + d.len() {
                assert(d[k - parts[0].len()] == c);
            } else {
                assert(j[k - parts[0].len() - d.len()] == c);
            }
        }
    } else if parts.len() == 1 {
        assert(!parts[0].contains(c));
    }
}

proof fn lemma_kept_all(s: Seq<Seq<char>>, t: Seq<Seq<char>>)
    requires
        s.len() == t.len(),
        forall|i: int| 0 <= i < s.len() ==> trim(#[trigger] s[i]) == t[i] && t[i].len() > 0,
    ensures
        kept_tags(s) == t,
    decreases s.len(),
{
    if s.len() > 0 {
        lemma_kept_all(s.drop_last(), t.drop_last());
        assert(trim(s.last()) == t.last());
        assert(t.drop_last().push(t.last()) =~= t);
    }
}

/// The tags of a `tags` line read back as the tags that made it.
proof fn lemma_tag_list(tags: Seq<Seq<char>>)
    requires
        tags.len() >= 1,
        forall|i: int| 0 <= i < tags.len() ==> plain_tag(#[trigger] tags[i]),
    ensures
        tag_list(join(tags, tag_separator())) == tags,
{
    let comma = seq![','];
    let pieces = seq![tags[0]] + padded(tags.drop_first());
    if tags.len() == 1 {
        assert(pieces =~= seq![tags[0]]);
        assert(join(tags, tag_separator()) == tags[0]);
    } else {
        lemma_join_padded(tags.drop_first());
        assert(pieces.drop_first() =~= padded(tags.drop_first()));
        assert(join(pieces, comma) =~= join(tags, tag_separator()));
    }
    assert forall|i: int| 0 <= i < pieces.len() implies opens_no(#[trigger] pieces[i], comma) by {
        if i == 0 {
            assert(plain_tag(tags[0]));
        } else {
            assert(plain_tag(tags[i]));
            assert(pieces[i] == seq![' '] + tags[i]);
            assert forall|p: int|
                0 <= p < pieces[i].len() && #[trigger] pieces[i][p] == comma[0] implies false by {
                assert(tags[i][p - 1] == ',');
            }
        }
    }
    lemma_split_join(pieces, comma);
    assert forall|i: int|
        0 <= i < pieces.len() implies trim(#[trigger] pieces[i]) == tags[i] && tags[i].len() > 0 by {
        assert(plain_tag(tags[i]));
        if i > 0 {
            assert(pieces[i] == seq![' '] + tags[i]);
            lemma_trim_space(tags[i]);
        }
    }
    lemma_kept_all(pieces, tags);
}


/// The lines of an entry's text.
pub open spec fn record_lines(e: LinkView) -> Seq<Seq<char>> {
    let head = seq![field_line(url_key(), e.url), field_line(title_key(), e.title)];
    if e.tags.len() == 0 {
        head
    } else {
        head.push(field_line(tags_key(), join(e.tags, tag_separator())))
    }
}

proof fn lemma_record_lines(e: LinkView)
    requires
        plain_entry(e),
    ensures
        record_text(e) == join(record_lines(e), seq!['\n']),
        forall|i: int|
            0 <= i < record_lines(e).len() ==> !(#[trigger] record_lines(e)[i]).contains('\n')
                && strip_cr(record_lines(e)[i]) == record_lines(e)[i],
{
    let ls = record_lines(e);
    let nl = seq!['\n'];
    let j = join(e.tags, tag_separator());
    if e.tags.len() > 0 {
        assert forall|i: int| 0 <= i < e.tags.len() implies !(#[trigger] e.tags[i]).contains('\n') by {
            assert(plain_tag(e.tags[i]));
        }
        lemma_no_char_in_join(e.tags, tag_separator(), '\n');
        assert(ls.drop_first().drop_first() =~= seq![ls[2]]);
        assert(join(ls.drop_first().drop_first(), nl) == ls[2]);
        assert(join(ls.drop_first(), nl) == ls[1] + nl + ls[2]);
        assert(join(ls, nl) == ls[0] + nl + (ls[1] + nl + ls[2]));
        assert(join(ls, nl) =~= record_text(e));
    } else {
        assert(ls.drop_first() =~= seq![ls[1]]);
        assert(join(ls.drop_first(), nl) == ls[1]);
        assert(join(ls, nl) == ls[0] + nl + ls[1]);
        assert(join(ls, nl) =~= record_text(e));
    }
    assert forall|i: int|
        0 <= i < ls.len() implies !(#[trigger] ls[i]).contains('\n') && strip_cr(ls[i]) == ls[i] by {
        let k = if i == 0 { url_key() } else if i == 1 { title_key() } else { tags_key() };
        let v = if i == 0 { e.url } else if i == 1 { e.title } else { j };
        assert(ls[i] == field_line(k, v));
        if ls[i].contains('\n') {
            let p = choose|p: int| 0 <= p < ls[i].len() && ls[i][p] == '\n';
            assert(v[p - k.len() - 2] == '\n');
        }
        if v.len() > 0 {
            if i < 2 {
                lemma_trimmed_ends(v);
            } else {
                lemma_trimmed_ends(e.tags.last());
                lemma_trimmed_ends(e.tags[0]);
                lemma_join_ends(e.tags);
            }
            assert(ls[i].last() == v.last());
        }
    }
}

proof fn lemma_join_ends(tags: Seq<Seq<char>>)
    requires
        tags.len() >= 1,
        forall|i: int| 0 <= i < tags.len() ==> plain_tag(#[trigger] tags[i]),
    ensures
        join(tags, tag_separator()).len() > 0,
        join(tags, tag_separator())[0] == tags[0][0],
        join(tags, tag_separator()).last() == tags.last().last(),
    decreases tags.len(),
{
    assert(plain_tag(tags[0]));
    if tags.len() > 1 {
        lemma_join_ends(tags.drop_first());
    }
}


/// An entry's text reads back as the entry.
pub proof fn lemma_record_round_trip(e: LinkView)
    requires
        plain_entry(e),
    ensures
        record_of(record_text(e)) == Ok::<LinkView, crate::read_later_list::MissingField>(e),
{
    let ls = record_lines(e);
    let nl = seq!['\n'];
    lemma_record_lines(e);
    assert forall|i: int| 0 <= i < ls.len() implies opens_no(#[trigger] ls[i], nl) by {
        assert(!ls[i].contains('\n'));
        assert forall|p: int| 0 <= p < ls[i].len() && #[trigger] ls[i][p] == nl[0] implies false by {
            assert(ls[i].contains('\n'));
        }
    }
    lemma_split_join(ls, nl);
    let parts = split(record_text(e), nl);
    assert(parts == ls);
    assert(parts.last().len() > 0);
    assert(parts.drop_last().map_values(|p: Seq<char>| strip_cr(p)) =~= ls.drop_last());
    assert(lines(record_text(e)) =~= ls);
    let url_line = field_line(url_key(), e.url);
    let title_line = field_line(title_key(), e.title);
    assert forall|i: int| 0 <= i < url_key().len()
        implies #[trigger] url_key()[i] != ':' && !is_space(url_key()[i]) by {}
    assert forall|i: int| 0 <= i < title_key().len()
        implies #[trigger] title_key()[i] != ':' && !is_space(title_key()[i]) by {}
    assert forall|i: int| 0 <= i < tags_key().len()
        implies #[trigger] tags_key()[i] != ':' && !is_space(tags_key()[i]) by {}
    lemma_line_field(url_key(), e.url);
    lemma_line_field(title_key(), e.title);
    let b1 = read_line(empty_builder(), url_line);
    assert(b1 == BuilderView { url: Some(e.url), ..empty_builder() });
    let b2 = read_line(b1, title_line);
    assert(title_key() != url_key()) by {
        assert(title_key().len() != url_key().len());
    }
    assert(b2 == BuilderView { url: Some(e.url), title: Some(e.title), tags: Seq::empty() });
    assert(seq![url_line].drop_last() =~= Seq::<Seq<char>>::empty());
    assert(read_lines(Seq::<Seq<char>>::empty()) == empty_builder());
    assert(read_lines(seq![url_line]) == b1);
    assert(seq![url_line, title_line].drop_last() =~= seq![url_line]);
    assert(read_lines(seq![url_line, title_line]) == b2);
    if e.tags.len() == 0 {
        assert(ls =~= seq![url_line, title_line]);
        assert(e.tags =~= Seq::<Seq<char>>::empty());
    } else {
        let j = join(e.tags, tag_separator());
        lemma_join_ends(e.tags);
        lemma_trimmed_ends(e.tags[0]);
        lemma_trimmed_ends(e.tags.last());
        lemma_trim_same(j);
        lemma_line_field(tags_key(), j);
        lemma_tag_list(e.tags);
        assert(tags_key() != url_key()) by {
            assert(tags_key().len() != url_key().len());
        }
        assert(tags_key() != title_key()) by {
            assert(tags_key().len() != title_key().len());
        }
        let tags_line = field_line(tags_key(), j);
        assert(ls.drop_last() =~= seq![url_line, title_line]);
        assert(Seq::<Seq<char>>::empty() + e.tags =~= e.tags);
        assert(read_lines(ls) == read_line(b2, tags_line));
    }
}


proof fn lemma_least(s: Set<SortKey>)
    requires
        s.finite(),
        s.len() > 0,
    ensures
        s.contains(least(s)),
        forall|y: SortKey| s.contains(y) && y != least(s) ==> key_lt(least(s), y),
    decreases s.len(),
{
    let x = s.choose();
    let rest = s.remove(x);
    if rest.len() == 0 {
        assert forall|y: SortKey| s.contains(y) && y != x implies key_lt(x, y) by {
            assert(rest.contains(y));
        }
    } else {
        lemma_least(rest);
        let m = least(rest);
        if key_lt(x, m) {
            assert forall|y: SortKey| s.contains(y) && y != x implies key_lt(x, y) by {
                if y != m {
                    lemma_key_lt_order(x, m, y);
                }
            }
        } else {
            lemma_key_lt_order(x, m, x);
            assert forall|y: SortKey| s.contains(y) && y != m implies key_lt(m, y) by {
                if y != x {
                    assert(rest.contains(y));
                }
            }
        }
    }
}

proof fn lemma_in_order_holds(s: Set<SortKey>)
    requires
        s.finite(),
    ensures
        ascending(in_order(s)),
        in_order(s).to_set() == s,
    decreases s.len(),
{
    reveal(in_order);
    if s.len() == 0 {
        assert(s =~= Set::<SortKey>::empty());
        assert(in_order(s).to_set() =~= s);
    } else {
        lemma_least(s);
        let m = least(s);
        let rest = s.remove(m);
        lemma_in_order_holds(rest);
        let ks = in_order(s);
        assert(ks == seq![m] + in_order(rest));
        assert forall|i: int, j: int| 0 <= i < j < ks.len() implies key_lt(ks[i], ks[j]) by {
            if i == 0 {
                assert(in_order(rest).to_set().contains(in_order(rest)[j - 1]));
            } else {
                assert(ks[i] == in_order(rest)[i - 1] && ks[j] == in_order(rest)[j - 1]);
            }
        }
        assert(ks.to_set() =~= s) by {
            assert forall|y: SortKey| ks.to_set().contains(y) implies s.contains(y) by {
                let k = choose|k: int| 0 <= k < ks.len() && ks[k] == y;
                if k > 0 {
                    assert(in_order(rest).to_set().contains(in_order(rest)[k - 1]));
                }
            }
            assert forall|y: SortKey| s.contains(y) implies ks.to_set().contains(y) by {
                if y == m {
                    assert(ks[0] == y);
                } else {
                    assert(in_order(rest).to_set().contains(y));
                    let k = choose|k: int| 0 <= k < in_order(rest).len() && in_order(rest)[k] == y;
                    assert(ks[k + 1] == y);
                }
            }
        }
    }
}

/// No record delimiter can start inside lines joined by newlines where each line after
/// the first begins with something other than `-`.
proof fn lemma_lines_open_no_delimiter(ls: Seq<Seq<char>>)
    requires
        ls.len() >= 1,
        forall|i: int| 0 <= i < ls.len() ==> !(#[trigger] ls[i]).contains('\n'),
        forall|i: int| 1 <= i < ls.len() ==> (#[trigger] ls[i]).len() > 0 && ls[i][0] != '-',
    ensures
        opens_no(join(ls, seq!['\n']), record_delimiter()),
        ls[0].len() > 0 ==> join(ls, seq!['\n'])[0] == ls[0][0],
    decreases ls.len(),
{
    let d = record_delimiter();
    let nl = seq!['\n'];
    let r = join(ls, nl);
    if ls.len() == 1 {
        assert forall|p: int|
            0 <= p < r.len() && #[trigger] r[p] == d[0]
            implies d.len() > 1 && p + 1 < r.len() && r[p + 1] != d[1] by {
            assert(ls[0].contains('\n'));
        }
    } else {
        let rest = ls.drop_first();
        assert forall|i: int|
            1 <= i < rest.len() implies (#[trigger] rest[i]).len() > 0 && rest[i][0] != '-' by {
            assert(rest[i] == ls[i + 1]);
        }
        assert forall|i: int| 0 <= i < rest.len() implies !(#[trigger] rest[i]).contains('\n') by {
            assert(rest[i] == ls[i + 1]);
        }
        lemma_lines_open_no_delimiter(rest);
        let jr = join(rest, nl);
        let l0 = ls[0];
        assert(r == l0 + nl + jr);
        assert(rest[0] == ls[1]);
        assert forall|p: int|
            0 <= p < r.len() && #[trigger] r[p] == d[0]
            implies d.len() > 1 && p + 1 < r.len() && r[p + 1] != d[1] by {
            if p < l0.len() {
                assert(l0[p] == '\n');
                assert(l0.contains('\n'));
            } else if p == l0.len() {
                assert(r[p + 1] == jr[0]);
            } else {
                let q = p - l0.len() - 1;
                assert(r[p] == jr[q]);
                assert(r[p + 1] == jr[q + 1]);
            }
        }
    }
}

proof fn lemma_record_opens_no_delimiter(e: LinkView)
    requires
        plain_entry(e),
    ensures
        opens_no(record_text(e), record_delimiter()),
        record_text(e)[0] == 'u',
{
    lemma_record_lines(e);
    let ls = record_lines(e);
    assert forall|i: int| 1 <= i < ls.len() implies (#[trigger] ls[i]).len() > 0 && ls[i][0] != '-' by {
        assert(ls[i][0] == 't');
    }
    lemma_lines_open_no_delimiter(ls);
}

/// The records of a list's text, in order, read back as the list.
proof fn lemma_read_records_of_keys(m: Map<Seq<char>, LinkView>, ks: Seq<SortKey>, n: int)
    requires
        valid_list(m),
        forall|u: Seq<char>| #[trigger] m.contains_key(u) ==> plain_entry(m[u]),
        ks.to_set() == sort_keys(m),
        0 <= n <= ks.len(),
    ensures
        read_records(texts_of(ks).take(n)) == Ok::<Map<Seq<char>, LinkView>, ParseError>(
            m.restrict(Set::new(|u: Seq<char>| exists|j: int| 0 <= j < n && ks[j].1 == u)),
        ),
    decreases n,
{
    let sn = Set::new(|u: Seq<char>| exists|j: int| 0 <= j < n && ks[j].1 == u);
    if n == 0 {
        assert(texts_of(ks).take(0) =~= Seq::<Seq<char>>::empty());
        assert(m.restrict(sn) =~= Map::<Seq<char>, LinkView>::empty());
    } else {
        lemma_read_records_of_keys(m, ks, n - 1);
        let prev = Set::new(|u: Seq<char>| exists|j: int| 0 <= j < n - 1 && ks[j].1 == u);
        let k = ks[n - 1];
        assert(ks.to_set().contains(k));
        let u = choose|u: Seq<char>| m.dom().contains(u) && (record_text(m[u]), u) == k;
        assert(k.1 == u && k.0 == record_text(m[u]));
        lemma_record_round_trip(m[u]);
        assert(texts_of(ks).take(n).drop_last() =~= texts_of(ks).take(n - 1));
        assert(texts_of(ks).take(n).last() == k.0);
        assert(sn =~= prev.insert(u)) by {
            assert forall|v: Seq<char>| sn.contains(v) implies prev.insert(u).contains(v) by {
                let j = choose|j: int| 0 <= j < n && ks[j].1 == v;
                if j < n - 1 {
                    assert(prev.contains(v));
                }
            }
            assert forall|v: Seq<char>| prev.insert(u).contains(v) implies sn.contains(v) by {
                if v != u {
                    let j = choose|j: int| 0 <= j < n - 1 && ks[j].1 == v;
                    assert(ks[j].1 == v);
                }
            }
        }
        assert(m.restrict(prev).insert(u, m[u]) =~= m.restrict(sn));
    }
}

/// A list's text reads back as the same list, where each entry has a url and a title
/// that are not empty and its fields are plain: no whitespace around url, title and
/// tags, no line break in them, no comma in a tag, no empty tag.
pub proof fn lemma_round_trip(m: Map<Seq<char>, LinkView>)
    requires
        valid_list(m),
        forall|u: Seq<char>| #[trigger] m.contains_key(u) ==> m[u].url.len() > 0 && m[u].title.len() > 0,
        forall|u: Seq<char>| #[trigger] m.contains_key(u) ==> plain_entry(m[u]),
    ensures
        parse_list(list_text(m)) == Ok::<Map<Seq<char>, LinkView>, ParseError>(m),
{
    lemma_text_reads_back(m);
}

proof fn lemma_text_reads_back(m: Map<Seq<char>, LinkView>)
    requires
        valid_list(m),
        forall|u: Seq<char>| #[trigger] m.contains_key(u) ==> plain_entry(m[u]),
    ensures
        parse_list(list_text(m)) == Ok::<Map<Seq<char>, LinkView>, ParseError>(m),
{
    let keys = sort_keys(m);
    assert(keys.finite()) by {
        m.dom().lemma_map_finite(|u: Seq<char>| (record_text(m[u]), u));
    }
    lemma_in_order_holds(keys);
    let ks = in_order(keys);
    let texts = texts_of(ks);
    let text = list_text(m);
    if ks.len() == 0 {
        assert(m =~= Map::<Seq<char>, LinkView>::empty()) by {
            assert forall|u: Seq<char>| !m.contains_key(u) by {
                if m.contains_key(u) {
                    assert(keys.contains((record_text(m[u]), u)));
                    assert(ks.to_set().contains((record_text(m[u]), u)));
                }
            }
        }
        assert(text =~= Seq::<char>::empty());
        assert(trim_start(text) == text);
    } else {
        assert forall|i: int|
            0 <= i < texts.len()
            implies opens_no(#[trigger] texts[i], record_delimiter()) && texts[i].len() > 0
            && texts[i][0] == 'u' by {
            assert(ks.to_set().contains(ks[i]));
            let u = choose|u: Seq<char>| m.dom().contains(u) && (record_text(m[u]), u) == ks[i];
            lemma_record_opens_no_delimiter(m[u]);
            lemma_record_lines(m[u]);
        }
        lemma_split_join(texts, record_delimiter());
        lemma_first_of_join(texts, record_delimiter());
        lemma_trim_lengths(text);
        assert(!is_space('u'));
        if trim(text).len() == 0 {
            assert(trim_start(text) == text);
            assert(is_space(text[0]));
        }
        lemma_read_records_of_keys(m, ks, ks.len() as int);
        assert(texts.take(ks.len() as int) =~= texts);
        let all = Set::new(|u: Seq<char>| exists|j: int| 0 <= j < ks.len() && ks[j].1 == u);
        assert(m.restrict(all) =~= m) by {
            assert forall|u: Seq<char>| m.contains_key(u) implies all.contains(u) by {
                assert(keys.contains((record_text(m[u]), u)));
                assert(ks.to_set().contains((record_text(m[u]), u)));
                let j = choose|j: int| 0 <= j < ks.len() && ks[j] == (record_text(m[u]), u);
                assert(ks[j].1 == u);
            }
        }
    }
}

proof fn lemma_first_of_join(parts: Seq<Seq<char>>, d: Seq<char>)
    requires
        parts.len() >= 1,
        parts[0].len() > 0,
    ensures
        join(parts, d).len() > 0,
        join(parts, d)[0] == parts[0][0],
{
}

/// Reading a list's text and writing it again gives the same text, where each entry is
/// plain: a url and a title that are not empty, and plain fields.
pub proof fn lemma_text_idempotent(m: Map<Seq<char>, LinkView>)
    requires
        valid_list(m),
        forall|u: Seq<char>| #[trigger] m.contains_key(u) ==> plain_entry(m[u]),
    ensures
        parse_list(list_text(m)) is Ok,
        list_text(parse_list(list_text(m))->Ok_0) == list_text(m),
{
    lemma_text_reads_back(m);
}


/// For a list whose entries all have a non-empty url and title and plain fields, reading
/// the text that `to_string` writes (`list_text`) with `parse` (`parse_list`) gives the
/// list back.
pub proof fn lemma_list_round_trip(l: ReadLaterList)
    requires
        l.wf(),
        forall|u: Seq<char>| #[trigger] l@.contains_key(u) ==> l@[u].url.len() > 0 && l@[u].title.len() > 0,
        forall|u: Seq<char>| #[trigger] l@.contains_key(u) ==> plain_entry(l@[u]),
    ensures
        parse_list(list_text(l@)) == Ok::<Map<Seq<char>, LinkView>, ParseError>(l@),
{
    lemma_view_valid(l);
    lemma_round_trip(l@);
}

/// For a list whose entries are plain (non-empty url and title, plain fields), writing, reading and writing again gives
/// the text that was first written.
pub proof fn lemma_list_text_idempotent(l: ReadLaterList)
    requires
        l.wf(),
        forall|u: Seq<char>| #[trigger] l@.contains_key(u) ==> plain_entry(l@[u]),
    ensures
        parse_list(list_text(l@)) is Ok,
        list_text(parse_list(list_text(l@))->Ok_0) == list_text(l@),
{
    lemma_view_valid(l);
    lemma_text_idempotent(l@);
}

/// Adding tags merges them without duplication: the existing tags stay first and in
/// their order, and the result holds each tag of either side exactly once, even a tag
/// given twice.
pub proof fn lemma_add_tags_merges(old: Seq<Seq<char>>, given: Seq<Seq<char>>)
    requires
        old.no_duplicates(),
    ensures
        (old + new_tags(old, given)).no_duplicates(),
        (old + new_tags(old, given)).to_set() == old.to_set() + given.to_set(),
        (old + new_tags(old, given)).subrange(0, old.len() as int) == old,
    decreases given.len(),
{
    let r = old + new_tags(old, given);
    assert(r.subrange(0, old.len() as int) =~= old);
    if given.len() == 0 {
        assert(r =~= old);
        assert(given.to_set() =~= Set::<Seq<char>>::empty());
        assert(r.to_set() =~= old.to_set() + given.to_set());
    } else {
        let front = given.drop_last();
        let x = given.last();
        lemma_add_tags_merges(old, front);
        let before = new_tags(old, front);
        let p = old + before;
        assert(given.to_set() =~= front.to_set().insert(x)) by {
            assert(given =~= front.push(x));
            front.lemma_push_to_set_commute(x);
        }
        if p.contains(x) {
            assert(r =~= p);
            assert(p.to_set().contains(x));
            assert(r.to_set() =~= old.to_set() + given.to_set());
        } else {
            assert(new_tags(old, given) == before.push(x));
            assert(r =~= p.push(x));
            assert(r.no_duplicates()) by {
                assert forall|i: int, j: int|
                    0 <= i < r.len() && 0 <= j < r.len() && i != j implies r[i] != r[j] by {
                    if i == p.len() {
                        assert(r[j] == p[j]);
                    } else if j == p.len() {
                        assert(r[i] == p[i]);
                    }
                }
            }
            p.lemma_push_to_set_commute(x);
            assert(r.to_set() =~= old.to_set() + given.to_set());
        }
    }
}

/// Removing tags is a set difference: what stays is each existing tag that is not among
/// those given, in its order.
pub proof fn lemma_remove_tags_difference(old: Seq<Seq<char>>, given: Seq<Seq<char>>)
    ensures
        without_tags(old, given).to_set() == old.to_set().difference(given.to_set()),
        (forall|i: int| 0 <= i < given.len() ==> !old.contains(#[trigger] given[i]))
            ==> without_tags(old, given) == old,
    decreases old.len(),
{
    let r = without_tags(old, given);
    if old.len() == 0 {
        assert(old.to_set() =~= Set::<Seq<char>>::empty());
        assert(r.to_set() =~= old.to_set().difference(given.to_set()));
    } else {
        let front = old.drop_last();
        let x = old.last();
        lemma_remove_tags_difference(front, given);
        assert(old =~= front.push(x));
        front.lemma_push_to_set_commute(x);
        let q = without_tags(front, given);
        if given.contains(x) {
            assert(r == q);
            assert(r.to_set() =~= old.to_set().difference(given.to_set()));
        } else {
            assert(r == q.push(x));
            q.lemma_push_to_set_commute(x);
            assert(r.to_set() =~= old.to_set().difference(given.to_set()));
        }
        if forall|i: int| 0 <= i < given.len() ==> !old.contains(#[trigger] given[i]) {
            assert forall|i: int| 0 <= i < given.len() implies !front.contains(#[trigger] given[i]) by {
                if front.contains(given[i]) {
                    let k = choose|k: int| 0 <= k < front.len() && front[k] == given[i];
                    assert(old[k] == given[i]);
                }
            }
            if given.contains(x) {
                let i = choose|i: int| 0 <= i < given.len() && given[i] == x;
                assert(old[old.len() - 1] == given[i]);
            }
        }
    }
}

/// Deleting a url that the list does not hold leaves the list as it was.
pub proof fn lemma_delete_absent(m: Map<Seq<char>, LinkView>, url: Seq<char>)
    requires
        !m.contains_key(url),
    ensures
        m.remove(url) == m,
{
    assert(m.remove(url) =~= m);
}

} // verus!
