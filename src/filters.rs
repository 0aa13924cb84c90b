use crate::entry::{keep_where, reversed, Entry, EntryKind, Meta};
use vstd::prelude::*;

verus! {

#[verifier::external_type_specification]
#[verifier::external_body]
pub struct ExRegex(regex::Regex);

/// Whether the regular expression `pattern` matches somewhere in `text`.
pub uninterp spec fn pattern_matches(pattern: Seq<char>, text: Seq<char>) -> bool;

/// Whether `pattern` is a regular expression that compiles.
pub uninterp spec fn pattern_compiles(pattern: Seq<char>) -> bool;

/// Relies on regex::Regex::new: whether it succeeds depends on the pattern alone.
#[verifier::external_body]
fn compile_regex(pattern: &str) -> (r: Option<regex::Regex>)
    ensures
        r is Some == pattern_compiles(pattern@),
{
    regex::Regex::new(pattern).ok()
}

/// A compiled regular expression together with the text it was compiled from.
#[derive(Debug)]
pub struct NamePattern {
    source: String,
    compiled: regex::Regex,
}

impl View for NamePattern {
    type V = Seq<char>;

    closed spec fn view(&self) -> Seq<char> {
        self.source@
    }
}

impl NamePattern {
    /// Compiles `pattern`; `None` when it is not a valid regular expression.
    pub fn new(pattern: &str) -> (r: Option<NamePattern>)
        ensures
            r is Some == pattern_compiles(pattern@),
            r matches Some(p) ==> p@ == pattern@,
    {
        match compile_regex(pattern) {
            Some(compiled) => Some(NamePattern { source: pattern.to_string(), compiled }),
            None => None,
        }
    }

    /// The text the pattern was compiled from.
    pub fn as_str(&self) -> (r: &str)
        ensures
            r@ == self@,
    {
        self.source.as_str()
    }

    /// Whether the pattern matches somewhere in `text`.
    pub fn is_match(&self, text: &str) -> (r: bool)
        ensures
            r == pattern_matches(self@, text@),
    {
        regex_is_match(self, text)
    }
}

/// Relies on regex::Regex::is_match: true iff the regex compiled from
/// `p.source` (which `NamePattern::new` alone builds) matches anywhere in `text`.
#[verifier::external_body]
fn regex_is_match(p: &NamePattern, text: &str) -> (r: bool)
    ensures
        r == pattern_matches(p@, text@),
{
    p.compiled.is_match(text)
}

/// One predicate over a directory entry.
///
/// The size and type filters read the entry's own metadata (links not
/// followed); the size filters compare its byte size, bounds included, and for
/// directories that size is whatever the platform reports. Every filter that
/// needs metadata rejects an entry whose metadata could not be read.
/// `NoHidden` follows the POSIX naming convention (a raw name starting with
/// `.`, whether or not the rest is valid Unicode), not a filesystem
/// attribute. The pattern filter reads the name as text: a name that is not
/// valid Unicode matches no pattern.
#[derive(Debug)]
pub enum FilterType {
    MinSize(u64),
    MaxSize(u64),
    IsFile,
    IsDir,
    NoHidden,
    MatchesRegex(NamePattern),
}

/// The raw name follows the hidden-file convention: it starts with `.`.
pub open spec fn is_hidden_name(name: Seq<u8>) -> bool {
    name.len() > 0 && name[0] == 46u8
}

/// Whether entry `e` passes filter `f`.
pub open spec fn passes(f: FilterType, e: Entry) -> bool {
    match f {
        FilterType::MinSize(m) => e.link_meta matches Some(meta) && meta.size >= m,
        FilterType::MaxSize(m) => e.link_meta matches Some(meta) && meta.size <= m,
        FilterType::IsFile => e.link_meta matches Some(meta) && meta.kind == EntryKind::File,
        FilterType::IsDir => e.link_meta matches Some(meta) && meta.kind == EntryKind::Dir,
        FilterType::NoHidden => !is_hidden_name(e.name_bytes@),
        FilterType::MatchesRegex(p) => e.name matches Some(n) && pattern_matches(p@, n@),
    }
}

/// Whether entry `e` passes every filter of the chain.
pub open spec fn passes_all(filters: Seq<FilterType>, e: Entry) -> bool {
    forall|i: int| 0 <= i < filters.len() ==> #[trigger] passes(filters[i], e)
}

/// The entries of `s` that pass every filter, in their order in `s`.
pub open spec fn kept(filters: Seq<FilterType>, s: Seq<Entry>) -> Seq<Entry> {
    keep_where(s, |e: Entry| passes_all(filters, e))
}

impl FilterType {
    /// Applies this filter to one entry.
    pub fn apply(&self, entry: &Entry) -> (r: bool)
        ensures
            r == passes(*self, *entry),
    {
        match self {
            FilterType::IsDir => match entry.link_meta {
                Some(m) => m.kind == EntryKind::Dir,
                None => false,
            },
            FilterType::IsFile => match entry.link_meta {
                Some(m) => m.kind == EntryKind::File,
                None => false,
            },
            FilterType::MinSize(min_size) => match entry.link_meta {
                Some(m) => m.size >= *min_size,
                None => false,
            },
            FilterType::MaxSize(max_size) => match entry.link_meta {
                Some(m) => m.size <= *max_size,
                None => false,
            },
            FilterType::NoHidden => !(entry.name_bytes.len() > 0 && entry.name_bytes[0] == 46u8),
            FilterType::MatchesRegex(p) => match &entry.name {
                Some(n) => p.is_match(n.as_str()),
                None => false,
            },
        }
    }
}

/// Whether `entry` passes every filter of `filters`.
pub fn passes_filters(filters: &Vec<FilterType>, entry: &Entry) -> (r: bool)
    ensures
        r == passes_all(filters@, *entry),
{
    let mut i: usize = 0;
    while i < filters.len()
        invariant
            i <= filters@.len(),
            forall|j: int| 0 <= j < i ==> #[trigger] passes(filters@[j], *entry),
        decreases filters@.len() - i,
    {
        if !filters[i].apply(entry) {
            return false;
        }
        i = i + 1;
    }
    true
}

/// Keeps the entries that pass every filter, in the order they were read.
pub fn filter_entries(dir_entries: Vec<Entry>, filters: &Vec<FilterType>) -> (r: Vec<Entry>)
    ensures
        r@ == kept(filters@, dir_entries@),
{
    let ghost all = dir_entries@;
    let n: usize = dir_entries.len();
    let mut rest = reversed(dir_entries);
    let mut out: Vec<Entry> = Vec::new();
    let mut i: usize = 0;
    while i < n
        invariant
            n == all.len(),
            i <= n,
            rest@ == all.subrange(i as int, n as int).reverse(),
            out@ == kept(filters@, all.subrange(0, i as int)),
        decreases n - i,
    {
        assert(all.subrange(0, i + 1).drop_last() =~= all.subrange(0, i as int));
        let e = rest.pop().unwrap();
        assert(rest@ =~= all.subrange(i + 1, n as int).reverse());
        if passes_filters(filters, &e) {
            out.push(e);
        }
        i = i + 1;
    }
    assert(all.subrange(0, i as int) =~= all);
    out
}

} // verus!
