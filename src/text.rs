//! Character sequences: whitespace, trimming, splitting, joining and ordering.

use vstd::prelude::*;

verus! {

/// Unicode `White_Space`, the set that `char::is_whitespace` tests.
pub open spec fn is_space(c: char) -> bool {
    let v = c as int;
    (9 <= v <= 13) || v == 32 || v == 0x85 || v == 0xA0 || v == 0x1680 || (0x2000 <= v <= 0x200A)
        || v == 0x2028 || v == 0x2029 || v == 0x202F || v == 0x205F || v == 0x3000
}

pub(crate) fn is_space_char(c: char) -> (r: bool)
    ensures
        r == is_space(c),
{
    let v = c as u32;
    (9 <= v && v <= 13) || v == 32 || v == 0x85 || v == 0xA0 || v == 0x1680 || (0x2000 <= v && v
        <= 0x200A) || v == 0x2028 || v == 0x2029 || v == 0x202F || v == 0x205F || v == 0x3000
}

/// The characters of `s`, in order.
pub(crate) fn chars_of(s: &str) -> (r: Vec<char>)
    ensures
        r@ == s@,
{
    let mut r: Vec<char> = Vec::new();
    for c in it: s.chars()
        invariant
            r@ == it.seq().take(it.index() as int),
    {
        r.push(c);
    }
    r
}

/// Relies on `String::push`, which appends one character to the string.
#[verifier::external_body]
fn push_char(s: &mut String, c: char)
    ensures
        final(s)@ == old(s)@.push(c),
{
    s.push(c)
}


pub open spec fn trim_start(s: Seq<char>) -> Seq<char>
    decreases s.len(),
{
    if s.len() > 0 && is_space(s[0]) {
        trim_start(s.drop_first())
    } else {
        s
    }
}

pub open spec fn trim_end(s: Seq<char>) -> Seq<char>
    decreases s.len(),
{
    if s.len() > 0 && is_space(s.last()) {
        trim_end(s.drop_last())
    } else {
        s
    }
}

/// `s` without its leading and trailing whitespace, as `str::trim` gives it.
pub open spec fn trim(s: Seq<char>) -> Seq<char> {
    trim_end(trim_start(s))
}

/// The bounds of `trim(cs[from..to])` within `cs`.
pub(crate) fn trim_range(cs: &Vec<char>, from: usize, to: usize) -> (r: (usize, usize))
    requires
        from <= to <= cs.len(),
    ensures
        from <= r.0 <= r.1 <= to,
        cs@.subrange(r.0 as int, r.1 as int) == trim(cs@.subrange(from as int, to as int)),
{
    let mut i = from;
    while i < to && is_space_char(cs[i])
        invariant
            from <= i <= to <= cs.len(),
            trim_start(cs@.subrange(from as int, to as int)) == trim_start(
                cs@.subrange(i as int, to as int),
            ),
        decreases to - i,
    {
        assert(cs@.subrange(i as int, to as int).drop_first() =~= cs@.subrange(
            i + 1,
            to as int,
        ));
        i = i + 1;
    }
    let mut j = to;
    while j > i && is_space_char(cs[j - 1])
        invariant
            from <= i <= j <= to <= cs.len(),
            trim_end(cs@.subrange(i as int, to as int)) == trim_end(
                cs@.subrange(i as int, j as int),
            ),
            i < to ==> !is_space(cs@[i as int]),
        decreases j - i,
    {
        assert(cs@.subrange(i as int, j as int).drop_last() =~= cs@.subrange(
            i as int,
            j - 1,
        ));
        j = j - 1;
    }
    (i, j)
}

/// The pieces of `s` between the occurrences of `d`, read from the front: where
/// `d` starts, the current piece ends and `d` is skipped; any other character
/// joins the current piece. There is always at least one piece.
pub open spec fn split(s: Seq<char>, d: Seq<char>) -> Seq<Seq<char>>
    decreases s.len(),
{
    if s.len() == 0 || d.len() == 0 {
        seq![s]
    } else if d.is_prefix_of(s) {
        seq![Seq::empty()] + split(s.subrange(d.len() as int, s.len() as int), d)
    } else {
        prepend(seq![s[0]], split(s.drop_first(), d))
    }
}

/// `ps` with `x` put in front of its first piece.
pub open spec fn prepend(x: Seq<char>, ps: Seq<Seq<char>>) -> Seq<Seq<char>> {
    ps.update(0, x + ps[0])
}

pub proof fn lemma_split_nonempty(s: Seq<char>, d: Seq<char>)
    ensures
        split(s, d).len() >= 1,
    decreases s.len(),
{
    if s.len() == 0 || d.len() == 0 {
    } else if d.is_prefix_of(s) {
        lemma_split_nonempty(s.subrange(d.len() as int, s.len() as int), d);
    } else {
        lemma_split_nonempty(s.drop_first(), d);
    }
}

/// Whether `d` occurs in `cs` at `i`, within `cs[..to]`.
fn occurs_at(cs: &Vec<char>, i: usize, to: usize, d: &Vec<char>) -> (r: bool)
    requires
        i <= to <= cs.len(),
    ensures
        r == d@.is_prefix_of(cs@.subrange(i as int, to as int)),
{
    if d.len() > to - i {
        return false;
    }
    let mut k: usize = 0;
    while k < d.len()
        invariant
            k <= d.len() <= to - i,
            to <= cs.len(),
            forall|m: int| 0 <= m < k ==> d@[m] == cs@[i + m],
        decreases d.len() - k,
    {
        if d[k] != cs[i + k] {
            assert(d@[k as int] != cs@.subrange(i as int, to as int)[k as int]);
            return false;
        }
        k = k + 1;
    }
    assert(d@ =~= cs@.subrange(i as int, to as int).subrange(0, d@.len() as int));
    true
}

/// The bounds within `cs` of the pieces of `split(cs[from..to], d)`.
pub(crate) fn split_ranges(cs: &Vec<char>, from: usize, to: usize, d: &Vec<char>) -> (r: Vec<
    (usize, usize),
>)
    requires
        from <= to <= cs.len(),
        d.len() > 0,
    ensures
        r@.len() == split(cs@.subrange(from as int, to as int), d@).len(),
        forall|k: int|
            0 <= k < r@.len() ==> from <= #[trigger] r@[k].0 <= r@[k].1 <= to && cs@.subrange(
                r@[k].0 as int,
                r@[k].1 as int,
            ) == split(cs@.subrange(from as int, to as int), d@)[k],
{
    let ghost whole = cs@.subrange(from as int, to as int);
    let mut r: Vec<(usize, usize)> = Vec::new();
    let ghost mut pieces: Seq<Seq<char>> = Seq::empty();
    let mut start = from;
    let mut i = from;
    proof {
        lemma_split_nonempty(whole, d@);
        assert(cs@.subrange(start as int, i as int) =~= Seq::<char>::empty());
        assert(prepend(Seq::empty(), split(whole, d@)) =~= split(whole, d@));
        assert(cs@.subrange(i as int, to as int) =~= whole);
    }
    while i < to
        invariant
            from <= start <= i <= to <= cs.len(),
            d.len() > 0,
            whole == cs@.subrange(from as int, to as int),
            r@.len() == pieces.len(),
            forall|k: int|
                0 <= k < r@.len() ==> from <= #[trigger] r@[k].0 <= r@[k].1 <= to && cs@.subrange(
                    r@[k].0 as int,
                    r@[k].1 as int,
                ) == pieces[k],
            split(whole, d@) == pieces + prepend(
                cs@.subrange(start as int, i as int),
                split(cs@.subrange(i as int, to as int), d@),
            ),
        decreases to - i,
    {
        let ghost x = cs@.subrange(start as int, i as int);
        let ghost rest = cs@.subrange(i as int, to as int);
        if occurs_at(cs, i, to, d) {
            let ghost after = cs@.subrange(i + d@.len(), to as int);
            proof {
                assert(rest.subrange(d@.len() as int, rest.len() as int) =~= after);
                lemma_split_nonempty(after, d@);
                assert(prepend(x, split(rest, d@)) =~= seq![x] + prepend(
                    Seq::empty(),
                    split(after, d@),
                ));
                assert(prepend(Seq::empty(), split(after, d@)) =~= split(after, d@));
            }
            r.push((start, i));
            proof {
                pieces = pieces.push(x);
                assert(pieces.add(split(after, d@)) =~= pieces.drop_last() + (seq![x] + split(after, d@)));
            }
            i = i + d.len();
            start = i;
            proof {
                assert(cs@.subrange(start as int, i as int) =~= Seq::<char>::empty());
                assert(prepend(cs@.subrange(start as int, i as int), split(after, d@)) =~= split(after, d@));
            }
        } else {
            proof {
                assert(rest.drop_first() =~= cs@.subrange(i + 1, to as int));
                lemma_split_nonempty(rest.drop_first(), d@);
                assert(x + seq![rest[0]] =~= cs@.subrange(start as int, i + 1));
                let ps = split(rest.drop_first(), d@);
                assert(x + (seq![rest[0]] + ps[0]) =~= (x + seq![rest[0]]) + ps[0]);
                assert(prepend(x, prepend(seq![rest[0]], split(rest.drop_first(), d@))) =~= prepend(
                    x + seq![rest[0]],
                    split(rest.drop_first(), d@),
                ));
            }
            i = i + 1;
        }
    }
    proof {
        let x = cs@.subrange(start as int, to as int);
        assert(cs@.subrange(to as int, to as int) =~= Seq::<char>::empty());
        assert(prepend(x, seq![Seq::empty()]) =~= seq![x]);
    }
    r.push((start, to));
    proof {
        pieces = pieces.push(cs@.subrange(start as int, to as int));
    }
    r
}

/// The characters `cs[from..to]` as a string.
pub(crate) fn string_of(cs: &Vec<char>, from: usize, to: usize) -> (r: String)
    requires
        from <= to <= cs.len(),
    ensures
        r@ == cs@.subrange(from as int, to as int),
{
    let mut r = String::new();
    let mut i = from;
    while i < to
        invariant
            from <= i <= to <= cs.len(),
            r@ == cs@.subrange(from as int, i as int),
        decreases to - i,
    {
        push_char(&mut r, cs[i]);
        assert(r@ =~= cs@.subrange(from as int, i + 1));
        i = i + 1;
    }
    r
}


/// `parts` with `d` between each two of them.
pub open spec fn join(parts: Seq<Seq<char>>, d: Seq<char>) -> Seq<char>
    decreases parts.len(),
{
    if parts.len() == 0 {
        Seq::empty()
    } else if parts.len() == 1 {
        parts[0]
    } else {
        parts[0] + d + join(parts.drop_first(), d)
    }
}

pub proof fn lemma_join_push(parts: Seq<Seq<char>>, d: Seq<char>, x: Seq<char>)
    requires
        parts.len() >= 1,
    ensures
        join(parts.push(x), d) == join(parts, d) + d + x,
    decreases parts.len(),
{
    if parts.len() == 1 {
        assert(parts.push(x).drop_first() =~= seq![x]);
        assert(join(seq![x], d) == x);
    } else {
        lemma_join_push(parts.drop_first(), d, x);
        assert(parts.push(x).drop_first() =~= parts.drop_first().push(x));
        assert(parts[0] + d + (join(parts.drop_first(), d) + d + x) =~= (parts[0] + d + join(
            parts.drop_first(),
            d,
        )) + d + x);
    }
}

/// The views of a sequence of strings.
pub open spec fn views(v: Seq<String>) -> Seq<Seq<char>> {
    v.map_values(|s: String| s@)
}

/// The strings of `parts` with `sep` between each two of them, as `join` on a slice of
/// strings gives it.
pub(crate) fn join_strings(parts: &Vec<String>, sep: &str) -> (r: String)
    ensures
        r@ == join(views(parts@), sep@),
{
    let mut r = String::new();
    let mut i: usize = 0;
    while i < parts.len()
        invariant
            i <= parts.len(),
            r@ == join(views(parts@).take(i as int), sep@),
        decreases parts.len() - i,
    {
        let ghost before = views(parts@).take(i as int);
        assert(views(parts@).take(i + 1) =~= before.push(parts@[i as int]@));
        if i > 0 {
            r.append(sep);
            proof {
                lemma_join_push(before, sep@, parts@[i as int]@);
            }
        } else {
            assert(before.push(parts@[i as int]@) =~= seq![parts@[i as int]@]);
        }
        r.append(parts[i].as_str());
        i = i + 1;
    }
    assert(views(parts@).take(i as int) =~= views(parts@));
    r
}

/// No occurrence of `d` can start inside `r`, whatever follows `r`: where `r` holds the
/// first character of `d`, the next character of `r` is there and differs from the second.
pub open spec fn opens_no(r: Seq<char>, d: Seq<char>) -> bool {
    forall|p: int|
        0 <= p < r.len() && #[trigger] r[p] == d[0] ==> d.len() > 1 && p + 1 < r.len() && r[p
            + 1] != d[1]
}

pub proof fn lemma_split_after(x: Seq<char>, t: Seq<char>, d: Seq<char>)
    requires
        d.len() > 0,
        opens_no(x, d),
    ensures
        split(x + t, d) == prepend(x, split(t, d)),
    decreases x.len(),
{
    lemma_split_nonempty(t, d);
    let s = x + t;
    if x.len() == 0 {
        assert(s =~= t);
        assert(prepend(x, split(t, d)) =~= split(t, d));
    } else {
        if x[0] == d[0] {
            assert(s[1] == x[1]);
        }
        assert(!d.is_prefix_of(s));
        let x1 = x.drop_first();
        assert(s.drop_first() =~= x1 + t);
        assert(opens_no(x1, d)) by {
            assert forall|p: int| 0 <= p < x1.len() && #[trigger] x1[p] == d[0] implies d.len() > 1
                && p + 1 < x1.len() && x1[p + 1] != d[1] by {
                assert(x[p + 1] == x1[p]);
            }
        }
        lemma_split_after(x1, t, d);
        let ps = split(t, d);
        assert(seq![x[0]] + (x1 + ps[0]) =~= x + ps[0]);
        assert(prepend(seq![x[0]], prepend(x1, ps)) =~= prepend(x, ps));
    }
}

pub proof fn lemma_split_open(d: Seq<char>, t: Seq<char>)
    requires
        d.len() > 0,
    ensures
        split(d + t, d) == seq![Seq::<char>::empty()] + split(t, d),
{
    let s = d + t;
    assert(s.subrange(0, d.len() as int) =~= d);
    assert(s.subrange(d.len() as int, s.len() as int) =~= t);
}

/// Splitting on `d` undoes joining with `d`, where no part can open a `d` of its own.
pub proof fn lemma_split_join(rs: Seq<Seq<char>>, d: Seq<char>)
    requires
        rs.len() >= 1,
        d.len() > 0,
        forall|i: int| 0 <= i < rs.len() ==> opens_no(#[trigger] rs[i], d),
    ensures
        split(join(rs, d), d) == rs,
    decreases rs.len(),
{
    if rs.len() == 1 {
        lemma_split_after(rs[0], Seq::empty(), d);
        assert(rs[0] + Seq::<char>::empty() =~= rs[0]);
        assert(prepend(rs[0], seq![Seq::empty()]) =~= rs);
    } else {
        let rest = rs.drop_first();
        let jr = join(rest, d);
        assert forall|i: int| 0 <= i < rest.len() implies opens_no(#[trigger] rest[i], d) by {
            assert(rest[i] == rs[i + 1]);
        }
        lemma_split_join(rest, d);
        assert(join(rs, d) =~= rs[0] + (d + jr));
        lemma_split_after(rs[0], d + jr, d);
        lemma_split_open(d, jr);
        assert(prepend(rs[0], seq![Seq::<char>::empty()] + rest) =~= rs);
    }
}

/// Strict lexicographic order by code point, the order of `str`'s `<`.
pub open spec fn text_lt(a: Seq<char>, b: Seq<char>) -> bool
    decreases a.len(),
{
    if a.len() == 0 {
        b.len() > 0
    } else if b.len() == 0 {
        false
    } else if a[0] != b[0] {
        (a[0] as int) < (b[0] as int)
    } else {
        text_lt(a.drop_first(), b.drop_first())
    }
}

pub proof fn lemma_text_lt_order(a: Seq<char>, b: Seq<char>, c: Seq<char>)
    ensures
        !text_lt(a, a),
        text_lt(a, b) ==> !text_lt(b, a),
        a != b ==> text_lt(a, b) || text_lt(b, a),
        text_lt(a, b) && text_lt(b, c) ==> text_lt(a, c),
    decreases a.len(),
{
    if a.len() > 0 && b.len() > 0 && c.len() > 0 {
        lemma_text_lt_order(a.drop_first(), b.drop_first(), c.drop_first());
        if a[0] == b[0] && a != b {
            assert(a =~= seq![a[0]] + a.drop_first());
            assert(b =~= seq![b[0]] + b.drop_first());
        }
    } else if a.len() > 0 && b.len() > 0 {
        lemma_text_lt_order(a.drop_first(), b.drop_first(), a.drop_first());
        if a[0] == b[0] && a != b {
            assert(a =~= seq![a[0]] + a.drop_first());
            assert(b =~= seq![b[0]] + b.drop_first());
        }
    } else if a.len() > 0 {
        lemma_text_lt_order(a.drop_first(), a.drop_first(), a.drop_first());
    } else {
        assert(a =~= Seq::<char>::empty());
        if b.len() == 0 {
            assert(b =~= Seq::<char>::empty());
        }
    }
}

/// Compares `a` and `b` by `text_lt`: below zero when `a` comes first, zero when they are
/// equal, above zero when `b` comes first.
pub(crate) fn compare_texts(a: &Vec<char>, b: &Vec<char>) -> (r: i8)
    ensures
        (r < 0) == text_lt(a@, b@),
        (r == 0) == (a@ == b@),
        (r > 0) == text_lt(b@, a@),
{
    proof {
        lemma_text_lt_order(a@, b@, a@);
        assert(a@.skip(0) =~= a@);
        assert(b@.skip(0) =~= b@);
    }
    let mut i: usize = 0;
    while i < a.len() && i < b.len()
        invariant
            i <= a.len(),
            i <= b.len(),
            a@.subrange(0, i as int) == b@.subrange(0, i as int),
            text_lt(a@, b@) == text_lt(a@.skip(i as int), b@.skip(i as int)),
            text_lt(b@, a@) == text_lt(b@.skip(i as int), a@.skip(i as int)),
        decreases a.len() - i,
    {
        assert(a@.skip(i as int)[0] == a@[i as int]);
        assert(b@.skip(i as int)[0] == b@[i as int]);
        if a[i] != b[i] {
            if a[i] < b[i] {
                return -1;
            } else {
                return 1;
            }
        }
        assert(a@.skip(i as int).drop_first() =~= a@.skip(i + 1));
        assert(b@.skip(i as int).drop_first() =~= b@.skip(i + 1));
        assert(a@.subrange(0, i + 1) =~= a@.subrange(0, i as int).push(a@[i as int]));
        assert(b@.subrange(0, i + 1) =~= b@.subrange(0, i as int).push(b@[i as int]));
        i = i + 1;
    }
    if i < b.len() {
        assert(a@.skip(i as int).len() == 0);
        -1
    } else if i < a.len() {
        assert(b@.skip(i as int).len() == 0);
        1
    } else {
        assert(a@ =~= a@.subrange(0, i as int));
        assert(b@ =~= b@.subrange(0, i as int));
        assert(a@.skip(i as int).len() == 0 && b@.skip(i as int).len() == 0);
        0
    }
}

} // verus!
