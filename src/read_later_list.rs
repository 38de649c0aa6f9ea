//! Link entries, their builder, and the list that keys them by url.

use vstd::prelude::*;
use crate::search::{builds_ignoring_case, entry_matches, escaped};
use crate::format::{extend_chars, parse_record, record_of, record_text};
use crate::order::{SortKey, ascending, in_order, insert_in_order, key_view, key_views, lemma_in_order};
use crate::text::{chars_of, join, lemma_join_push, split, split_ranges, string_of, trim, trim_range, views};

verus! {

/// What a link entry holds.
pub struct LinkView {
    pub url: Seq<char>,
    pub title: Seq<char>,
    pub tags: Seq<Seq<char>>,
}

/// One saved link.
#[derive(Debug, Clone)]
pub struct LinkEntry {
    pub url: String,
    pub title: String,
    pub tags: Vec<String>,
}

impl View for LinkEntry {
    type V = LinkView;

    open spec fn view(&self) -> LinkView {
        LinkView { url: self.url@, title: self.title@, tags: views(self.tags@) }
    }
}

/// The required field that a record or a builder lacked.
#[derive(Debug, Clone, Copy, PartialEq, Eq, Structural)]
pub enum MissingField {
    Url,
    Title,
}

/// What a builder has gathered so far.
pub struct BuilderView {
    pub url: Option<Seq<char>>,
    pub title: Option<Seq<char>>,
    pub tags: Seq<Seq<char>>,
}

pub open spec fn empty_builder() -> BuilderView {
    BuilderView { url: None, title: None, tags: Seq::empty() }
}

/// The entry a builder makes, or the first required field it lacks (url before title).
/// A field that was set to the empty text counts as lacking: an entry always has a url
/// and a title that are not empty.
pub open spec fn build_of(b: BuilderView) -> Result<LinkView, MissingField> {
    match b.url {
        Some(url) if url.len() > 0 => match b.title {
            Some(title) if title.len() > 0 => Ok(LinkView { url, title, tags: b.tags }),
            _ => Err(MissingField::Title),
        },
        _ => Err(MissingField::Url),
    }
}

pub open spec fn opt_view(s: Option<String>) -> Option<Seq<char>> {
    match s {
        Some(s) => Some(s@),
        None => None,
    }
}

/// Gathers the fields of a `LinkEntry` one at a time.
pub struct LinkEntryBuilder {
    url: Option<String>,
    title: Option<String>,
    tags: Vec<String>,
}

impl View for LinkEntryBuilder {
    type V = BuilderView;

    closed spec fn view(&self) -> BuilderView {
        BuilderView { url: opt_view(self.url), title: opt_view(self.title), tags: views(self.tags@) }
    }
}

impl LinkEntryBuilder {
    /// A builder with no url, no title and no tags.
    pub fn new() -> (r: LinkEntryBuilder)
        ensures
            r@ == empty_builder(),
    {
        let r = LinkEntryBuilder { url: None, title: None, tags: Vec::new() };
        assert(views(r.tags@) =~= Seq::empty());
        r
    }

    /// Sets the url, replacing one set before.
    pub fn set_url(self, url: &str) -> (r: LinkEntryBuilder)
        ensures
            r@ == (BuilderView { url: Some(url@), ..self@ }),
    {
        let mut b = self;
        b.url = Some(String::from_str(url));
        b
    }

    /// Sets the title, replacing one set before.
    pub fn set_title(self, title: &str) -> (r: LinkEntryBuilder)
        ensures
            r@ == (BuilderView { title: Some(title@), ..self@ }),
    {
        let mut b = self;
        b.title = Some(String::from_str(title));
        b
    }

    /// Appends one tag.
    pub fn add_tag(self, tag: &str) -> (r: LinkEntryBuilder)
        ensures
            r@ == (BuilderView { tags: self@.tags.push(tag@), ..self@ }),
    {
        let mut b = self;
        b.tags.push(String::from_str(tag));
        assert(views(b.tags@) =~= views(self.tags@).push(tag@));
        b
    }

    /// Appends `tags`, in their order; the vector itself is left as it was.
    pub fn add_tags(self, tags: &mut Vec<&str>) -> (r: LinkEntryBuilder)
        ensures
            final(tags)@ == old(tags)@,
            r@ == (BuilderView {
                tags: self@.tags + old(tags)@.map_values(|t: &str| t@),
                ..self@
            }),
    {
        let mut b = self;
        let mut i: usize = 0;
        while i < tags.len()
            invariant
                i <= tags.len(),
                b@ == (BuilderView {
                    tags: self@.tags + tags@.take(i as int).map_values(|t: &str| t@),
                    ..self@
                }),
            decreases tags.len() - i,
        {
            b = b.add_tag(tags[i]);
            assert(tags@.take(i + 1) =~= tags@.take(i as int).push(tags@[i as int]));
            assert(self@.tags + tags@.take(i + 1).map_values(|t: &str| t@) =~= (self@.tags
                + tags@.take(i as int).map_values(|t: &str| t@)).push(tags@[i as int]@));
            i = i + 1;
        }
        assert(tags@.take(i as int) =~= tags@);
        b
    }

    /// The tags gathered so far.
    pub fn into_tags(self) -> (r: Vec<String>)
        ensures
            views(r@) == self@.tags,
    {
        self.tags
    }

    /// The entry, or the first required field that was never set or was set empty (url
    /// before title).
    pub fn build(self) -> (r: Result<LinkEntry, MissingField>)
        ensures
            r matches Ok(e) ==> build_of(self@) == Ok::<LinkView, MissingField>(e@),
            r matches Err(f) ==> build_of(self@) == Err::<LinkView, MissingField>(f),
    {
        match self.url {
            None => Err(MissingField::Url),
            Some(url) => {
                if url.as_str().is_empty() {
                    return Err(MissingField::Url);
                }
                match self.title {
                    None => Err(MissingField::Title),
                    Some(title) => {
                        if title.as_str().is_empty() {
                            return Err(MissingField::Title);
                        }
                        Ok(LinkEntry { url, title, tags: self.tags })
                    },
                }
            },
        }
    }
}

impl LinkEntry {
    /// A builder with nothing set.
    pub fn builder() -> (r: LinkEntryBuilder)
        ensures
            r@ == empty_builder(),
    {
        LinkEntryBuilder::new()
    }
}


/// Whether no two entries share a url.
pub open spec fn unique_urls(es: Seq<LinkView>) -> bool {
    forall|i: int, j: int| 0 <= i < j < es.len() ==> es[i].url != es[j].url
}

/// The entries of `es` keyed by their url.
pub open spec fn map_of(es: Seq<LinkView>) -> Map<Seq<char>, LinkView> {
    Map::new(
        |u: Seq<char>| exists|i: int| 0 <= i < es.len() && es[i].url == u,
        |u: Seq<char>| es[choose|i: int| 0 <= i < es.len() && es[i].url == u],
    )
}

pub proof fn lemma_map_of(es: Seq<LinkView>)
    requires
        unique_urls(es),
    ensures
        forall|k: int|
            0 <= k < es.len() ==> map_of(es).contains_key(#[trigger] es[k].url) && map_of(es)[es[k].url]
                == es[k],
        forall|u: Seq<char>|
            map_of(es).contains_key(u) <==> exists|k: int| 0 <= k < es.len() && es[k].url == u,
        map_of(es).dom().finite(),
        map_of(es).len() == es.len(),
{
    let urls = es.map_values(|e: LinkView| e.url);
    assert(map_of(es).dom() =~= urls.to_set()) by {
        assert forall|u: Seq<char>| map_of(es).dom().contains(u) implies urls.to_set().contains(u) by {
            let k = choose|k: int| 0 <= k < es.len() && es[k].url == u;
            assert(urls[k] == u);
        }
        assert forall|u: Seq<char>| urls.to_set().contains(u) implies map_of(es).dom().contains(u) by {
            let k = choose|k: int| 0 <= k < urls.len() && urls[k] == u;
            assert(es[k].url == u);
        }
    }
    assert(urls.no_duplicates()) by {
        assert forall|i: int, j: int| 0 <= i < urls.len() && 0 <= j < urls.len() && i != j implies urls[i]
            != urls[j] by {
            if i < j {
                assert(es[i].url != es[j].url);
            } else {
                assert(es[j].url != es[i].url);
            }
        }
    }
    urls.unique_seq_to_set();
    assert forall|k: int| 0 <= k < es.len() implies map_of(es).contains_key(#[trigger] es[k].url)
        && map_of(es)[es[k].url] == es[k] by {
        let u = es[k].url;
        assert(map_of(es).contains_key(u));
        let i = choose|i: int| 0 <= i < es.len() && es[i].url == u;
        if i < k {
            assert(es[i].url != es[k].url);
        } else if k < i {
            assert(es[k].url != es[i].url);
        }
    }
}

/// A model of a list: finitely many entries, each under its own url.
pub open spec fn valid_list(m: Map<Seq<char>, LinkView>) -> bool {
    &&& m.dom().finite()
    &&& forall|u: Seq<char>| #[trigger] m.contains_key(u) ==> m[u].url == u
}

/// Why a text is not a list: the record at index `segment` (counting from zero) lacks
/// the field `missing`.
#[derive(Debug, Clone, Copy, PartialEq, Eq, Structural)]
pub struct ParseError {
    pub segment: usize,
    pub missing: MissingField,
}

/// The line that separates two records, with the newlines on either side of it.
pub open spec fn record_delimiter() -> Seq<char> {
    seq!['\n', '-', '-', '-', '\n']
}

/// The list that the records `segs` give, each entry replacing an earlier one with its
/// url; or the error of the first record that lacks a field.
pub open spec fn read_records(segs: Seq<Seq<char>>) -> Result<Map<Seq<char>, LinkView>, ParseError>
    decreases segs.len(),
{
    if segs.len() == 0 {
        Ok(Map::empty())
    } else {
        match read_records(segs.drop_last()) {
            Err(e) => Err(e),
            Ok(m) => match record_of(segs.last()) {
                Err(f) => Err(ParseError { segment: (segs.len() - 1) as usize, missing: f }),
                Ok(e) => Ok(m.insert(e.url, e)),
            },
        }
    }
}

/// The list that a text describes: empty where the text is only whitespace, else read
/// from the records between the delimiters.
pub open spec fn parse_list(text: Seq<char>) -> Result<Map<Seq<char>, LinkView>, ParseError> {
    if trim(text).len() == 0 {
        Ok(Map::empty())
    } else {
        read_records(split(text, record_delimiter()))
    }
}

/// An entry with the same fields.
fn copy_entry(e: &LinkEntry) -> (r: LinkEntry)
    ensures
        r@ == e@,
{
    let mut tags: Vec<String> = Vec::new();
    let mut i: usize = 0;
    while i < e.tags.len()
        invariant
            i <= e.tags.len(),
            views(tags@) == views(e.tags@).take(i as int),
        decreases e.tags.len() - i,
    {
        let ghost before = tags@;
        let t = e.tags[i].clone();
        assert(t@ == e.tags@[i as int]@);
        tags.push(t);
        assert(tags@ == before.push(t));
        assert(views(before.push(t)) =~= views(before).push(t@));
        assert(views(tags@) =~= views(e.tags@).take(i + 1));
        i = i + 1;
    }
    assert(views(e.tags@).take(i as int) =~= views(e.tags@));
    LinkEntry { url: e.url.clone(), title: e.title.clone(), tags }
}

pub open spec fn entry_views(s: Seq<LinkEntry>) -> Seq<LinkView> {
    s.map_values(|l: LinkEntry| l@)
}

/// The given tags that are neither in `old` nor given earlier, in their order.
pub open spec fn new_tags(old: Seq<Seq<char>>, given: Seq<Seq<char>>) -> Seq<Seq<char>>
    decreases given.len(),
{
    if given.len() == 0 {
        Seq::empty()
    } else {
        let before = new_tags(old, given.drop_last());
        if (old + before).contains(given.last()) {
            before
        } else {
            before.push(given.last())
        }
    }
}

/// The tags of `old` that are not among `given`, in their order.
pub open spec fn without_tags(old: Seq<Seq<char>>, given: Seq<Seq<char>>) -> Seq<Seq<char>>
    decreases old.len(),
{
    if old.len() == 0 {
        Seq::empty()
    } else {
        let before = without_tags(old.drop_last(), given);
        if given.contains(old.last()) {
            before
        } else {
            before.push(old.last())
        }
    }
}

/// Whether `v` holds a string equal to `s`.
fn holds_string(v: &Vec<String>, s: &String) -> (r: bool)
    ensures
        r == views(v@).contains(s@),
{
    let mut i: usize = 0;
    while i < v.len()
        invariant
            i <= v.len(),
            forall|k: int| 0 <= k < i ==> v@[k]@ != s@,
        decreases v.len() - i,
    {
        if v[i] == *s {
            assert(views(v@)[i as int] == s@);
            return true;
        }
        i = i + 1;
    }
    proof {
        if views(v@).contains(s@) {
            let k = choose|k: int| 0 <= k < views(v@).len() && views(v@)[k] == s@;
            assert(v@[k]@ == s@);
        }
    }
    false
}

/// Copies of the strings of `v`.
fn copy_strings(v: &Vec<String>) -> (r: Vec<String>)
    ensures
        views(r@) == views(v@),
{
    let mut r: Vec<String> = Vec::new();
    let mut i: usize = 0;
    while i < v.len()
        invariant
            i <= v.len(),
            views(r@) == views(v@).take(i as int),
        decreases v.len() - i,
    {
        let ghost before = r@;
        let t = v[i].clone();
        r.push(t);
        assert(views(before.push(t)) =~= views(before).push(t@));
        assert(views(r@) =~= views(v@).take(i + 1));
        i = i + 1;
    }
    assert(views(v@).take(i as int) =~= views(v@));
    r
}

/// An entry with the same url and title and the given tags.
fn retagged(e: &LinkEntry, tags: Vec<String>) -> (r: LinkEntry)
    ensures
        r@ == (LinkView { tags: views(tags@), ..e@ }),
{
    LinkEntry { url: e.url.clone(), title: e.title.clone(), tags }
}

/// Whether `a` and `b` hold equal strings in the same order.
fn same_strings(a: &Vec<String>, b: &Vec<String>) -> (r: bool)
    ensures
        r == (views(a@) == views(b@)),
{
    if a.len() != b.len() {
        assert(views(a@).len() != views(b@).len());
        return false;
    }
    let mut i: usize = 0;
    while i < a.len()
        invariant
            i <= a.len() == b.len(),
            forall|k: int| 0 <= k < i ==> a@[k]@ == b@[k]@,
        decreases a.len() - i,
    {
        if a[i] != b[i] {
            assert(views(a@)[i as int] != views(b@)[i as int]);
            return false;
        }
        i = i + 1;
    }
    assert(views(a@) =~= views(b@));
    true
}

/// Whether two entries have the same fields.
fn same_entry(a: &LinkEntry, b: &LinkEntry) -> (r: bool)
    ensures
        r == (a@ == b@),
{
    a.url == b.url && a.title == b.title && same_strings(&a.tags, &b.tags)
}

impl PartialEq for LinkEntry {
    fn eq(&self, other: &LinkEntry) -> (r: bool) {
        same_entry(self, other)
    }
}

impl vstd::std_specs::cmp::PartialEqSpecImpl for LinkEntry {
    open spec fn obeys_eq_spec() -> bool {
        true
    }

    open spec fn eq_spec(&self, other: &LinkEntry) -> bool {
        self@ == other@
    }
}

/// Whether `es` and `fs` are as long and each holds every entry of the other.
pub open spec fn same_entries(es: Seq<LinkView>, fs: Seq<LinkView>) -> bool {
    &&& es.len() == fs.len()
    &&& forall|i: int| 0 <= i < es.len() ==> fs.contains(#[trigger] es[i])
    &&& forall|j: int| 0 <= j < fs.len() ==> es.contains(#[trigger] fs[j])
}

/// Whether every entry of `es` is in `fs`.
fn all_found(es: &Vec<LinkEntry>, fs: &Vec<LinkEntry>) -> (r: bool)
    ensures
        r == forall|i: int| 0 <= i < es@.len() ==> entry_views(fs@).contains(#[trigger] entry_views(es@)[i]),
{
    let mut i: usize = 0;
    while i < es.len()
        invariant
            i <= es.len(),
            forall|k: int| 0 <= k < i ==> entry_views(fs@).contains(#[trigger] entry_views(es@)[k]),
        decreases es.len() - i,
    {
        let mut j: usize = 0;
        let mut found = false;
        while j < fs.len()
            invariant
                i < es.len(),
                j <= fs.len(),
                found ==> entry_views(fs@).contains(entry_views(es@)[i as int]),
                !found ==> forall|m: int| 0 <= m < j ==> fs@[m]@ != es@[i as int]@,
            decreases fs.len() - j,
        {
            if !found && same_entry(&es[i], &fs[j]) {
                assert(entry_views(fs@)[j as int] == entry_views(es@)[i as int]);
                found = true;
            }
            j = j + 1;
        }
        if !found {
            proof {
                if entry_views(fs@).contains(entry_views(es@)[i as int]) {
                    let m = choose|m: int|
                        0 <= m < fs@.len() && entry_views(fs@)[m] == entry_views(es@)[i as int];
                    assert(fs@[m]@ == es@[i as int]@);
                }
            }
            return false;
        }
        i = i + 1;
    }
    true
}

/// The url that no entry of the list has.
#[derive(Debug, Clone)]
pub struct NotFound {
    pub url: String,
}

/// Links keyed by url: each url at most once. The entries are held in a vector, whose
/// contents Verus specifies fully; a standard map keyed by `String` would leave lookups
/// and removals without a usable specification.
#[derive(Debug, Clone)]
pub struct ReadLaterList {
    links: Vec<LinkEntry>,
}

impl View for ReadLaterList {
    type V = Map<Seq<char>, LinkView>;

    closed spec fn view(&self) -> Map<Seq<char>, LinkView> {
        map_of(self.entries())
    }
}

impl ReadLaterList {
    /// No two entries share a url: every operation keeps this.
    pub closed spec fn wf(&self) -> bool {
        unique_urls(self.entries())
    }

    /// The entries, in the order in which `iter_links` gives them.
    pub closed spec fn entries(self) -> Seq<LinkView> {
        entry_views(self.links@)
    }

    /// The position of the entry with this url.
    fn find(&self, url: &str) -> (r: Option<usize>)
        requires
            self.wf(),
        ensures
            r is None ==> !self@.contains_key(url@),
            r matches Some(i) ==> i < self.links@.len() && self.links@[i as int].url@ == url@,
    {
        proof {
            lemma_map_of(self.entries());
        }
        let key = String::from_str(url);
        let mut i: usize = 0;
        while i < self.links.len()
            invariant
                i <= self.links.len(),
                key@ == url@,
                forall|k: int| 0 <= k < i ==> self.links@[k].url@ != url@,
            decreases self.links.len() - i,
        {
            if self.links[i].url == key {
                return Some(i);
            }
            i = i + 1;
        }
        proof {
            if self@.contains_key(url@) {
                let k = choose|k: int| 0 <= k < self.entries().len() && self.entries()[k].url == url@;
                assert(self.links@[k].url@ == url@);
            }
        }
        None
    }

    /// A list with the same entries.
    fn duplicate(&self) -> (r: ReadLaterList)
        requires
            self.wf(),
        ensures
            r.wf(),
            r@ == self@,
    {
        let mut links: Vec<LinkEntry> = Vec::new();
        let mut i: usize = 0;
        while i < self.links.len()
            invariant
                i <= self.links.len(),
                entry_views(links@) == self.entries().take(i as int),
            decreases self.links.len() - i,
        {
            let ghost before = links@;
            let c = copy_entry(&self.links[i]);
            links.push(c);
            assert(entry_views(before.push(c)) =~= entry_views(before).push(c@));
            assert(entry_views(links@) =~= self.entries().take(i + 1));
            i = i + 1;
        }
        assert(self.entries().take(i as int) =~= self.entries());
        ReadLaterList { links }
    }

    /// Puts `link` under its url, replacing the entry that was there.
    fn upsert(&mut self, link: LinkEntry)
        requires
            old(self).wf(),
        ensures
            final(self).wf(),
            final(self)@ == old(self)@.insert(link.url@, link@),
    {
        proof {
            lemma_map_of(self.entries());
        }
        let ghost es = self.entries();
        let ghost e = link@;
        match self.find(link.url.as_str()) {
            Some(i) => {
                self.links.set(i, link);
                proof {
                    let ns = es.update(i as int, e);
                    assert(self.entries() =~= ns);
                    assert(unique_urls(ns)) by {
                        assert forall|a: int, b: int|
                            0 <= a < b < ns.len() implies ns[a].url != ns[b].url by {
                            assert(ns[a].url == es[a].url && ns[b].url == es[b].url);
                        }
                    }
                    lemma_map_of(ns);
                    assert(ns[i as int] == e);
                    assert(es[i as int].url == e.url);
                    assert forall|u: Seq<char>|
                        map_of(ns).contains_key(u) <==> map_of(es).insert(e.url, e).contains_key(u) by {
                        if u == e.url {
                            assert(map_of(ns).contains_key(ns[i as int].url));
                        } else if map_of(es).contains_key(u) {
                            let k = choose|k: int| 0 <= k < es.len() && es[k].url == u;
                            assert(ns[k].url == u);
                            assert(map_of(ns).contains_key(ns[k].url));
                        }
                        if map_of(ns).contains_key(u) && u != e.url {
                            let k = choose|k: int| 0 <= k < ns.len() && ns[k].url == u;
                            assert(es[k].url == u);
                            assert(map_of(es).contains_key(es[k].url));
                        }
                    }
                    assert forall|u: Seq<char>|
                        #[trigger] map_of(ns).contains_key(u)
                        implies map_of(ns)[u] == map_of(es).insert(e.url, e)[u] by {
                        let k = choose|k: int| 0 <= k < ns.len() && ns[k].url == u;
                        assert(map_of(ns)[ns[k].url] == ns[k]);
                        if k != i {
                            assert(map_of(es)[es[k].url] == es[k]);
                        }
                    }
                    assert(map_of(ns) =~= map_of(es).insert(e.url, e));
                }
            },
            None => {
                self.links.push(link);
                proof {
                    let ns = es.push(e);
                    assert(self.entries() =~= ns);
                    assert(unique_urls(ns)) by {
                        assert forall|a: int, b: int|
                            0 <= a < b < ns.len() implies ns[a].url != ns[b].url by {
                            if b == es.len() {
                                assert(map_of(es).contains_key(es[a].url));
                            }
                        }
                    }
                    lemma_map_of(ns);
                    assert forall|u: Seq<char>|
                        map_of(ns).contains_key(u) <==> map_of(es).insert(e.url, e).contains_key(u) by {
                        if map_of(es).contains_key(u) {
                            let k = choose|k: int| 0 <= k < es.len() && es[k].url == u;
                            assert(ns[k].url == u);
                        }
                        if u == e.url {
                            assert(ns[es.len() as int].url == u);
                        }
                    }
                    assert forall|u: Seq<char>|
                        #[trigger] map_of(ns).contains_key(u)
                        implies map_of(ns)[u] == map_of(es).insert(e.url, e)[u] by {
                        let k = choose|k: int| 0 <= k < ns.len() && ns[k].url == u;
                        assert(map_of(ns)[ns[k].url] == ns[k]);
                        if k < es.len() {
                            assert(map_of(es)[es[k].url] == es[k]);
                        }
                    }
                    assert(map_of(ns) =~= map_of(es).insert(e.url, e));
                }
            },
        }
    }

    /// The empty list.
    pub fn new() -> (r: ReadLaterList)
        ensures
            r.wf(),
            r@ == Map::<Seq<char>, LinkView>::empty(),
    {
        let r = ReadLaterList { links: Vec::new() };
        assert(r@ =~= Map::<Seq<char>, LinkView>::empty());
        r
    }

    /// The number of entries.
    pub fn len(&self) -> (r: usize)
        requires
            self.wf(),
        ensures
            r == self@.len(),
    {
        proof {
            lemma_map_of(self.entries());
        }
        self.links.len()
    }

    /// The entry with this url.
    pub fn get_link(&self, url: &str) -> (r: Option<&LinkEntry>)
        requires
            self.wf(),
        ensures
            r is None <==> !self@.contains_key(url@),
            r matches Some(e) ==> e@ == self@[url@],
    {
        proof {
            lemma_map_of(self.entries());
        }
        match self.find(url) {
            Some(i) => {
                assert(self.entries()[i as int].url == url@);
                Some(&self.links[i])
            },
            None => None,
        }
    }

    /// Saves `link` under its url; an entry already there is replaced whole. Gives a copy
    /// of the list as it then stands.
    pub fn add_link(&mut self, link: LinkEntry) -> (r: ReadLaterList)
        requires
            old(self).wf(),
        ensures
            final(self).wf(),
            r.wf(),
            final(self)@ == old(self)@.insert(link.url@, link@),
            r@ == final(self)@,
    {
        self.upsert(link);
        self.duplicate()
    }

    /// Saves each link in turn, as `add_link` does.
    pub fn add_links(&mut self, links: Vec<LinkEntry>) -> (r: ReadLaterList)
        requires
            old(self).wf(),
        ensures
            final(self).wf(),
            r.wf(),
            final(self)@ == insert_all(old(self)@, entry_views(links@)),
            r@ == final(self)@,
    {
        let ghost start = self@;
        let ghost all = entry_views(links@);
        let mut rest = links;
        let mut i: usize = 0;
        let ghost mut done: Seq<LinkView> = Seq::empty();
        while rest.len() > 0
            invariant
                self.wf(),
                done + entry_views(rest@) == all,
                self@ == insert_all(start, done),
            decreases rest.len(),
        {
            let link = rest.remove(0);
            proof {
                assert(insert_all(start, done.push(link@))
                    == insert_all(start, done).insert(link@.url, link@)) by {
                    assert(done.push(link@).drop_last() =~= done);
                }
                assert(done.push(link@) + entry_views(rest@) =~= all);
                done = done.push(link@);
            }
            self.upsert(link);
        }
        assert(done =~= all);
        self.duplicate()
    }

    /// Saves `new_link` under its url, as `add_link` does.
    pub fn update_link(&mut self, new_link: LinkEntry) -> (r: ReadLaterList)
        requires
            old(self).wf(),
        ensures
            final(self).wf(),
            r.wf(),
            final(self)@ == old(self)@.insert(new_link.url@, new_link@),
            r@ == final(self)@,
    {
        self.upsert(new_link);
        self.duplicate()
    }

    /// Removes the entry with this url, if there is one. Gives a copy of the list as it
    /// then stands.
    pub fn delete_link(&mut self, url: &str) -> (r: ReadLaterList)
        requires
            old(self).wf(),
        ensures
            final(self).wf(),
            r.wf(),
            final(self)@ == old(self)@.remove(url@),
            r@ == final(self)@,
    {
        proof {
            lemma_map_of(self.entries());
        }
        let ghost es = self.entries();
        match self.find(url) {
            Some(i) => {
                self.links.remove(i);
                proof {
                    let ns = es.remove(i as int);
                    assert(self.entries() =~= ns);
                    assert(unique_urls(ns)) by {
                        assert forall|a: int, b: int|
                            0 <= a < b < ns.len() implies ns[a].url != ns[b].url by {
                            if a < i && b >= i {
                                assert(ns[b] == es[b + 1]);
                            } else if a >= i {
                                assert(ns[a] == es[a + 1] && ns[b] == es[b + 1]);
                            }
                        }
                    }
                    lemma_map_of(ns);
                    assert forall|u: Seq<char>|
                        map_of(ns).contains_key(u) <==> map_of(es).remove(url@).contains_key(u) by {
                        if map_of(es).contains_key(u) && u != url@ {
                            let k = choose|k: int| 0 <= k < es.len() && es[k].url == u;
                            if k < i {
                                assert(ns[k].url == u);
                            } else {
                                assert(k != i);
                                assert(ns[k - 1].url == u);
                            }
                        }
                        if map_of(ns).contains_key(u) {
                            let k = choose|k: int| 0 <= k < ns.len() && ns[k].url == u;
                            if k < i {
                                assert(es[k].url == u);
                                assert(es[k].url != es[i as int].url);
                            } else {
                                assert(es[k + 1].url == u);
                                assert(es[i as int].url != es[k + 1].url);
                            }
                        }
                    }
                    assert forall|u: Seq<char>|
                        #[trigger] map_of(ns).contains_key(u)
                        implies map_of(ns)[u] == map_of(es).remove(url@)[u] by {
                        let k = choose|k: int| 0 <= k < ns.len() && ns[k].url == u;
                        assert(map_of(ns)[ns[k].url] == ns[k]);
                        if k < i {
                            assert(map_of(es)[es[k].url] == es[k]);
                        } else {
                            assert(map_of(es)[es[k + 1].url] == es[k + 1]);
                        }
                    }
                    assert(map_of(ns) =~= map_of(es).remove(url@));
                }
            },
            None => {
                assert(map_of(es) =~= map_of(es).remove(url@));
            },
        }
        self.duplicate()
    }

    /// The sort keys of the entries, in ascending order.
    fn sorted_keys(&self) -> (r: Vec<(Vec<char>, Vec<char>)>)
        requires
            self.wf(),
        ensures
            key_views(r@) == in_order(sort_keys(self@)),
    {
        let ghost es = self.entries();
        let mut ks: Vec<(Vec<char>, Vec<char>)> = Vec::new();
        let mut i: usize = 0;
        assert(key_views(ks@).to_set() =~= keys_upto(es, 0)) by {
            reveal(keys_upto);
        }
        while i < self.links.len()
            invariant
                i <= self.links.len(),
                es == self.entries(),
                unique_urls(es),
                ascending(key_views(ks@)),
                key_views(ks@).to_set() == keys_upto(es, i as int),
            decreases self.links.len() - i,
        {
            let k = (self.links[i].record_chars(), chars_of(self.links[i].url.as_str()));
            proof {
                lemma_keys_step(es, i as int);
                assert(key_view(k) == (record_text(es[i as int]), es[i as int].url));
                if key_views(ks@).contains(key_view(k)) {
                    assert(key_views(ks@).to_set().contains(key_view(k)));
                }
            }
            insert_in_order(&mut ks, k);
            i = i + 1;
        }
        proof {
            lemma_keys_upto(es);
            lemma_in_order(key_views(ks@));
        }
        ks
    }

    /// Adds to the entry with this url each given tag that it does not hold yet, after
    /// its own and in the order given; a tag given twice is added once. Without such an entry nothing changes.
    pub fn add_tags(&mut self, url: &str, tags: Vec<String>) -> (r: Result<
        ReadLaterList,
        NotFound,
    >)
        requires
            old(self).wf(),
        ensures
            final(self).wf(),
            r is Ok <==> old(self)@.contains_key(url@),
            r matches Err(e) ==> e.url@ == url@ && final(self)@ == old(self)@,
            r matches Ok(l) ==> l@ == final(self)@ && final(self)@ == old(self)@.insert(
                url@,
                LinkView {
                    tags: old(self)@[url@].tags + new_tags(old(self)@[url@].tags, views(tags@)),
                    ..old(self)@[url@]
                },
            ),
    {
        proof {
            lemma_map_of(self.entries());
        }
        match self.find(url) {
            None => Err(NotFound { url: String::from_str(url) }),
            Some(i) => {
                let old_tags = &self.links[i].tags;
                let mut merged = copy_strings(old_tags);
                let mut k: usize = 0;
                while k < tags.len()
                    invariant
                        k <= tags.len(),
                        views(merged@) == views(old_tags@) + new_tags(
                            views(old_tags@),
                            views(tags@).take(k as int),
                        ),
                    decreases tags.len() - k,
                {
                    let ghost before = merged@;
                    assert(views(tags@).take(k + 1).drop_last() =~= views(tags@).take(k as int));
                    if !holds_string(&merged, &tags[k]) {
                        let t = tags[k].clone();
                        merged.push(t);
                        assert(views(before.push(t)) =~= views(before).push(t@));
                    }
                    k = k + 1;
                }
                assert(views(tags@).take(k as int) =~= views(tags@));
                let e = retagged(&self.links[i], merged);
                assert(self.entries()[i as int].url == url@);
                self.upsert(e);
                Ok(self.duplicate())
            },
        }
    }

    /// Drops from the entry with this url every tag that is among the given ones. Without
    /// such an entry nothing changes.
    pub fn remove_tags(&mut self, url: &str, tags: Vec<String>) -> (r: Result<
        ReadLaterList,
        NotFound,
    >)
        requires
            old(self).wf(),
        ensures
            final(self).wf(),
            r is Ok <==> old(self)@.contains_key(url@),
            r matches Err(e) ==> e.url@ == url@ && final(self)@ == old(self)@,
            r matches Ok(l) ==> l@ == final(self)@ && final(self)@ == old(self)@.insert(
                url@,
                LinkView {
                    tags: without_tags(old(self)@[url@].tags, views(tags@)),
                    ..old(self)@[url@]
                },
            ),
    {
        proof {
            lemma_map_of(self.entries());
        }
        match self.find(url) {
            None => Err(NotFound { url: String::from_str(url) }),
            Some(i) => {
                let old_tags = &self.links[i].tags;
                let mut kept: Vec<String> = Vec::new();
                let mut k: usize = 0;
                while k < old_tags.len()
                    invariant
                        k <= old_tags.len(),
                        views(kept@) == without_tags(views(old_tags@).take(k as int), views(tags@)),
                    decreases old_tags.len() - k,
                {
                    let ghost before = kept@;
                    assert(views(old_tags@).take(k + 1).drop_last() =~= views(old_tags@).take(k as int));
                    if !holds_string(&tags, &old_tags[k]) {
                        let t = old_tags[k].clone();
                        kept.push(t);
                        assert(views(before.push(t)) =~= views(before).push(t@));
                    }
                    k = k + 1;
                }
                assert(views(old_tags@).take(k as int) =~= views(old_tags@));
                let e = retagged(&self.links[i], kept);
                assert(self.entries()[i as int].url == url@);
                self.upsert(e);
                Ok(self.duplicate())
            },
        }
    }

    /// The entries, each once, in the order in which the list holds them.
    pub fn iter_links(&self) -> (r: &[LinkEntry])
        requires
            self.wf(),
        ensures
            entry_views(r@) == self.entries(),
            r@.len() == self@.len(),
            forall|i: int|
                0 <= i < r@.len() ==> self@.contains_key(#[trigger] r@[i].url@) && self@[r@[i].url@]
                    == r@[i]@,
            forall|u: Seq<char>|
                #[trigger] self@.contains_key(u) ==> exists|i: int| 0 <= i < r@.len() && r@[i].url@ == u,
    {
        proof {
            lemma_map_of(self.entries());
            assert forall|i: int| 0 <= i < self.links@.len()
                implies self@.contains_key(#[trigger] self.links@[i].url@) && self@[self.links@[i].url@]
                    == self.links@[i]@ by {
                assert(self.entries()[i].url == self.links@[i].url@);
            }
            assert forall|u: Seq<char>|
                #[trigger] self@.contains_key(u)
                implies exists|i: int| 0 <= i < self.links@.len() && self.links@[i].url@ == u by {
                let k = choose|k: int| 0 <= k < self.entries().len() && self.entries()[k].url == u;
                assert(self.links@[k].url@ == u);
            }
        }
        self.links.as_slice()
    }

    /// The entries whose flag is set: `keep[i]` stands for the entry at `i` in
    /// `iter_links`.
    pub fn select(&self, keep: &Vec<bool>) -> (r: ReadLaterList)
        requires
            self.wf(),
            keep@.len() == self@.len(),
        ensures
            r.wf(),
            r@ == self@.restrict(flagged(self.entries(), keep@)),
    {
        proof {
            lemma_map_of(self.entries());
        }
        let ghost es = self.entries();
        let mut r = ReadLaterList::new();
        let mut i: usize = 0;
        assert(r@ =~= self@.restrict(flagged(es.take(0), keep@)));
        while i < self.links.len()
            invariant
                i <= self.links.len() == keep.len(),
                es == self.entries(),
                self.wf(),
                r.wf(),
                forall|k: int|
                    0 <= k < es.len() ==> #[trigger] self@.contains_key(es[k].url) && self@[es[k].url]
                        == es[k],
                r@ == self@.restrict(flagged(es.take(i as int), keep@)),
            decreases self.links.len() - i,
        {
            if keep[i] {
                r.upsert(copy_entry(&self.links[i]));
            }
            proof {
                let u = es[i as int].url;
                assert(self@.contains_key(u) && self@[u] == es[i as int]);
                let prev = flagged(es.take(i as int), keep@);
                let next = flagged(es.take(i + 1), keep@);
                let expect = if keep@[i as int] { prev.insert(u) } else { prev };
                assert forall|v: Seq<char>| #[trigger] next.contains(v) implies expect.contains(v) by {
                    let j = choose|j: int|
                        0 <= j < es.take(i + 1).len() && keep@[j] && es.take(i + 1)[j].url == v;
                    if j < i {
                        assert(es.take(i as int)[j].url == v);
                    }
                }
                assert forall|v: Seq<char>| #[trigger] expect.contains(v) implies next.contains(v) by {
                    if prev.contains(v) {
                        let j = choose|j: int|
                            0 <= j < es.take(i as int).len() && keep@[j] && es.take(i as int)[j].url == v;
                        assert(es.take(i + 1)[j].url == v);
                    } else {
                        assert(es.take(i + 1)[i as int].url == u);
                    }
                }
                assert(next =~= expect);
                assert(r@ =~= self@.restrict(flagged(es.take(i + 1), keep@)));
            }
            i = i + 1;
        }
        assert(es.take(i as int) =~= es);
        r
    }

    /// The entries whose url, title or joined tags contain `keyword`, taken literally and
    /// without regard to case; `None` where the keyword could not be made into a pattern.
    pub fn search(&self, keyword: &str) -> (r: Option<ReadLaterList>)
        requires
            self.wf(),
        ensures
            r is Some <==> (self@.len() == 0 || builds_ignoring_case(escaped(keyword@))),
            r matches Some(l) ==> l.wf() && l@ == self@.restrict(
                Set::new(|u: Seq<char>| self@.contains_key(u) && entry_matches(keyword@, self@[u])),
            ),
    {
        proof {
            lemma_map_of(self.entries());
        }
        let ghost es = self.entries();
        let mut keep: Vec<bool> = Vec::new();
        let mut i: usize = 0;
        while i < self.links.len()
            invariant
                i <= self.links.len(),
                es == self.entries(),
                keep@.len() == i,
                self@.len() == es.len() == self.links@.len(),
                i > 0 ==> builds_ignoring_case(escaped(keyword@)),
                forall|k: int| 0 <= k < i ==> keep@[k] == entry_matches(keyword@, #[trigger] es[k]),
            decreases self.links.len() - i,
        {
            match self.links[i].matches_keyword(keyword) {
                None => {
                    return None;
                },
                Some(b) => {
                    keep.push(b);
                },
            }
            i = i + 1;
        }
        let r = self.select(&keep);
        proof {
            let wanted = Set::new(
                |u: Seq<char>| self@.contains_key(u) && entry_matches(keyword@, self@[u]),
            );
            assert(flagged(es, keep@) =~= wanted) by {
                assert forall|u: Seq<char>|
                    flagged(es, keep@).contains(u)
                    implies self@.contains_key(u) && entry_matches(keyword@, self@[u]) by {
                    let j = choose|j: int| 0 <= j < es.len() && keep@[j] && es[j].url == u;
                    assert(self@[es[j].url] == es[j]);
                }
                assert forall|u: Seq<char>|
                    self@.contains_key(u) && entry_matches(keyword@, self@[u])
                    implies flagged(es, keep@).contains(u) by {
                    let j = choose|j: int| 0 <= j < es.len() && es[j].url == u;
                    assert(self@[es[j].url] == es[j]);
                    assert(keep@[j]);
                }
            }
        }
        Some(r)
    }

    /// The text of the list, as `list_text` gives it.
    pub fn to_string(&self) -> (r: String)
        requires
            self.wf(),
        ensures
            r@ == list_text(self@),
    {
        let ks = self.sorted_keys();
        let ghost texts = texts_of(key_views(ks@));
        let delimiter = vec!['\n', '-', '-', '-', '\n'];
        let mut out: Vec<char> = Vec::new();
        let mut k: usize = 0;
        while k < ks.len()
            invariant
                k <= ks.len(),
                texts == texts_of(key_views(ks@)),
                delimiter@ == record_delimiter(),
                out@ == join(texts.take(k as int), record_delimiter()),
            decreases ks.len() - k,
        {
            assert(texts.take(k + 1) =~= texts.take(k as int).push(ks@[k as int].0@));
            if k > 0 {
                extend_chars(&mut out, &delimiter);
                proof {
                    lemma_join_push(texts.take(k as int), record_delimiter(), ks@[k as int].0@);
                }
            } else {
                assert(texts.take(k as int).push(ks@[k as int].0@) =~= seq![ks@[k as int].0@]);
            }
            extend_chars(&mut out, &ks[k].0);
            k = k + 1;
        }
        assert(texts.take(k as int) =~= texts);
        assert(out@.subrange(0, out@.len() as int) =~= out@);
        string_of(&out, 0, out.len())
    }

    /// Reads a list from its text: whitespace alone gives the empty list; otherwise each
    /// record between delimiters is read in turn, a later entry replacing an earlier one
    /// with the same url, and the first record that lacks a url or a title, or has an
    /// empty one, fails the whole text.
    pub fn parse(text: &str) -> (r: Result<ReadLaterList, ParseError>)
        ensures
            r matches Ok(l) ==> l.wf(),
            r matches Ok(l) ==> parse_list(text@) == Ok::<Map<Seq<char>, LinkView>, ParseError>(l@),
            r matches Err(e) ==> parse_list(text@) == Err::<Map<Seq<char>, LinkView>, ParseError>(e),
    {
        let cs = chars_of(text);
        assert(cs@.subrange(0, cs@.len() as int) =~= text@);
        let (a, z) = trim_range(&cs, 0, cs.len());
        if a == z {
            return Ok(ReadLaterList::new());
        }
        let delimiter = vec!['\n', '-', '-', '-', '\n'];
        let segs = split_ranges(&cs, 0, cs.len(), &delimiter);
        let ghost all = split(text@, record_delimiter());
        let mut list = ReadLaterList::new();
        let mut k: usize = 0;
        assert(all.take(0) =~= Seq::<Seq<char>>::empty());
        while k < segs.len()
            invariant
                k <= segs.len() == all.len(),
                all == split(text@, record_delimiter()),
                cs@ == text@,
                trim(text@).len() > 0,
                forall|m: int|
                    0 <= m < segs@.len() ==> #[trigger] segs@[m].0 <= segs@[m].1 <= cs.len()
                        && cs@.subrange(segs@[m].0 as int, segs@[m].1 as int) == all[m],
                list.wf(),
                read_records(all.take(k as int)) == Ok::<Map<Seq<char>, LinkView>, ParseError>(list@),
            decreases segs.len() - k,
        {
            let (a, z) = segs[k];
            assert(all.take(k + 1).drop_last() =~= all.take(k as int));
            match parse_record(&cs, a, z) {
                Err(f) => {
                    assert(read_records(all.take(k + 1))
                        == Err::<Map<Seq<char>, LinkView>, ParseError>(
                        ParseError { segment: k, missing: f },
                    ));
                    proof {
                        lemma_read_records_err(all, k + 1);
                    }
                    return Err(ParseError { segment: k, missing: f });
                },
                Ok(e) => {
                    list.upsert(e);
                },
            }
            k = k + 1;
        }
        assert(all.take(k as int) =~= all);
        Ok(list)
    }
}

proof fn lemma_read_records_err(segs: Seq<Seq<char>>, n: int)
    requires
        0 <= n <= segs.len(),
        read_records(segs.take(n)) is Err,
    ensures
        read_records(segs) == read_records(segs.take(n)),
    decreases segs.len(),
{
    if n == segs.len() {
        assert(segs.take(n) =~= segs);
    } else {
        let front = segs.drop_last();
        assert(front.take(n) =~= segs.take(n));
        lemma_read_records_err(front, n);
    }
}

/// The keys by which the records of a list are ordered: each record's text and url.
pub open spec fn sort_keys(m: Map<Seq<char>, LinkView>) -> Set<SortKey> {
    m.dom().map(|u: Seq<char>| (record_text(m[u]), u))
}

pub open spec fn texts_of(ks: Seq<SortKey>) -> Seq<Seq<char>> {
    ks.map_values(|k: SortKey| k.0)
}

/// The text of a list: its records ordered by their text (by url where two texts are
/// the same), with the delimiter between each two. The empty list gives the empty text.
pub open spec fn list_text(m: Map<Seq<char>, LinkView>) -> Seq<char> {
    join(texts_of(in_order(sort_keys(m))), record_delimiter())
}

/// The urls of the entries of `es` whose flag in `keep` is set.
pub open spec fn flagged(es: Seq<LinkView>, keep: Seq<bool>) -> Set<Seq<char>> {
    Set::new(|u: Seq<char>| exists|i: int| 0 <= i < es.len() && keep[i] && es[i].url == u)
}

/// The sort keys of the first `n` entries of `es`.
#[verifier::opaque]
pub open spec fn keys_upto(es: Seq<LinkView>, n: int) -> Set<SortKey> {
    Set::new(|k: SortKey| exists|j: int| 0 <= j < n && k == (record_text(es[j]), es[j].url))
}

proof fn lemma_keys_step(es: Seq<LinkView>, i: int)
    requires
        unique_urls(es),
        0 <= i < es.len(),
    ensures
        !keys_upto(es, i).contains((record_text(es[i]), es[i].url)),
        keys_upto(es, i).insert((record_text(es[i]), es[i].url)) == keys_upto(es, i + 1),
{
    reveal(keys_upto);
    let x = (record_text(es[i]), es[i].url);
    if keys_upto(es, i).contains(x) {
        let j = choose|j: int| 0 <= j < i && x == (record_text(es[j]), es[j].url);
        assert(es[j].url != es[i].url);
    }
    assert(keys_upto(es, i).insert(x) =~= keys_upto(es, i + 1)) by {
        assert forall|y: SortKey|
            keys_upto(es, i + 1).contains(y) implies keys_upto(es, i).insert(x).contains(y) by {
            let j = choose|j: int| 0 <= j < i + 1 && y == (record_text(es[j]), es[j].url);
            if j < i {
                assert(keys_upto(es, i).contains(y));
            }
        }
    }
}

proof fn lemma_keys_upto(es: Seq<LinkView>)
    requires
        unique_urls(es),
    ensures
        keys_upto(es, es.len() as int) == sort_keys(map_of(es)),
{
    reveal(keys_upto);
    lemma_map_of(es);
    let m = map_of(es);
    assert(keys_upto(es, es.len() as int) =~= sort_keys(m)) by {
        assert forall|x: SortKey|
            keys_upto(es, es.len() as int).contains(x) implies sort_keys(m).contains(x) by {
            let j = choose|j: int| 0 <= j < es.len() && x == (record_text(es[j]), es[j].url);
            assert(m.contains_key(es[j].url));
            assert(m.dom().contains(es[j].url));
        }
        assert forall|x: SortKey|
            sort_keys(m).contains(x) implies keys_upto(es, es.len() as int).contains(x) by {
            let u = choose|u: Seq<char>| m.dom().contains(u) && (record_text(m[u]), u) == x;
            let j = choose|j: int| 0 <= j < es.len() && es[j].url == u;
            assert(m[es[j].url] == es[j]);
        }
    }
}

/// The model of every list is a valid one, so the laws about list texts apply to it.
pub proof fn lemma_view_valid(l: ReadLaterList)
    requires
        l.wf(),
    ensures
        valid_list(l@),
{
    lemma_map_of(l.entries());
    assert forall|u: Seq<char>| #[trigger] l@.contains_key(u) implies l@[u].url == u by {
        let k = choose|k: int| 0 <= k < l.entries().len() && l.entries()[k].url == u;
        assert(l@[l.entries()[k].url] == l.entries()[k]);
    }
}

impl PartialEq for ReadLaterList {
    fn eq(&self, other: &ReadLaterList) -> (r: bool) {
        self.links.len() == other.links.len() && all_found(&self.links, &other.links) && all_found(
            &other.links,
            &self.links,
        )
    }
}

impl vstd::std_specs::cmp::PartialEqSpecImpl for ReadLaterList {
    open spec fn obeys_eq_spec() -> bool {
        true
    }

    open spec fn eq_spec(&self, other: &ReadLaterList) -> bool {
        same_entries(self.entries(), other.entries())
    }
}

/// Two lists compare equal exactly when they hold the same entries under the same urls.
pub proof fn lemma_eq_is_same_map(a: ReadLaterList, b: ReadLaterList)
    requires
        a.wf(),
        b.wf(),
    ensures
        same_entries(a.entries(), b.entries()) <==> a@ == b@,
{
    let es = a.entries();
    let fs = b.entries();
    lemma_map_of(es);
    lemma_map_of(fs);
    if same_entries(es, fs) {
        assert forall|u: Seq<char>| a@.contains_key(u) <==> b@.contains_key(u) by {
            if a@.contains_key(u) {
                let i = choose|i: int| 0 <= i < es.len() && es[i].url == u;
                let j = choose|j: int| 0 <= j < fs.len() && fs[j] == es[i];
                assert(b@.contains_key(fs[j].url));
            }
            if b@.contains_key(u) {
                let j = choose|j: int| 0 <= j < fs.len() && fs[j].url == u;
                let i = choose|i: int| 0 <= i < es.len() && es[i] == fs[j];
                assert(a@.contains_key(es[i].url));
            }
        }
        assert forall|u: Seq<char>| #[trigger] a@.contains_key(u) implies a@[u] == b@[u] by {
            let i = choose|i: int| 0 <= i < es.len() && es[i].url == u;
            let j = choose|j: int| 0 <= j < fs.len() && fs[j] == es[i];
            assert(a@[es[i].url] == es[i]);
            assert(b@[fs[j].url] == fs[j]);
        }
        assert(a@ =~= b@);
    }
    if a@ == b@ {
        assert forall|i: int| 0 <= i < es.len() implies fs.contains(#[trigger] es[i]) by {
            assert(a@.contains_key(es[i].url));
            let j = choose|j: int| 0 <= j < fs.len() && fs[j].url == es[i].url;
            assert(b@[fs[j].url] == fs[j]);
            assert(a@[es[i].url] == es[i]);
        }
        assert forall|j: int| 0 <= j < fs.len() implies es.contains(#[trigger] fs[j]) by {
            assert(b@.contains_key(fs[j].url));
            let i = choose|i: int| 0 <= i < es.len() && es[i].url == fs[j].url;
            assert(b@[fs[j].url] == fs[j]);
            assert(a@[es[i].url] == es[i]);
        }
    }
}

/// `m` with each entry of `es` put under its url in turn, a later one replacing an
/// earlier one.
pub open spec fn insert_all(m: Map<Seq<char>, LinkView>, es: Seq<LinkView>) -> Map<Seq<char>, LinkView>
    decreases es.len(),
{
    if es.len() == 0 {
        m
    } else {
        insert_all(m, es.drop_last()).insert(es.last().url, es.last())
    }
}

} // verus!
