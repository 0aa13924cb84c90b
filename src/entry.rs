use vstd::prelude::*;

verus! {

/// The type of a filesystem object, as its metadata reports it.
#[derive(Clone, Copy, Debug, PartialEq, Eq, Structural)]
pub enum EntryKind {
    File,
    Dir,
    Symlink,
    Other,
}

/// A snapshot of an entry's metadata.
///
/// `modified_secs` and `modified_nanos` give the last-modification time as
/// seconds since the Unix epoch plus a sub-second part. `mode` holds the raw
/// permission bits.
#[derive(Clone, Copy, Debug, PartialEq, Eq, Structural)]
pub struct Meta {
    pub kind: EntryKind,
    pub size: u64,
    pub modified_secs: i64,
    pub modified_nanos: u32,
    pub mode: u32,
}

/// One entry of a directory read.
///
/// - `id` is the caller's handle on the entry (its position in the read, for
///   instance); the library carries it along untouched.
/// - `name_bytes` is the raw base name; `name` is the same name as text, or
///   `None` when it is not valid Unicode.
/// - `meta` is the metadata with symbolic links followed, `link_meta` that of
///   the entry itself; each is `None` where it could not be read.
#[derive(Debug)]
pub struct Entry {
    pub id: usize,
    pub name: Option<String>,
    pub name_bytes: Vec<u8>,
    pub meta: Option<Meta>,
    pub link_meta: Option<Meta>,
}

/// `a` and `b` hold the same values.
pub open spec fn same_entry(a: Entry, b: Entry) -> bool {
    &&& a.id == b.id
    &&& a.name == b.name
    &&& a.name_bytes@ == b.name_bytes@
    &&& a.meta == b.meta
    &&& a.link_meta == b.link_meta
}

impl Clone for Entry {
    fn clone(&self) -> (r: Self)
        ensures
            same_entry(r, *self),
    {
        let name = match &self.name {
            Some(n) => Some(n.clone()),
            None => None,
        };
        Entry {
            id: self.id,
            name,
            name_bytes: self.name_bytes.clone(),
            meta: self.meta,
            link_meta: self.link_meta,
        }
    }
}

/// The entries of `s` that satisfy `p`, in their order in `s`.
pub open spec fn keep_where(s: Seq<Entry>, p: spec_fn(Entry) -> bool) -> Seq<Entry>
    decreases s.len(),
{
    if s.len() == 0 {
        Seq::empty()
    } else {
        let rest = keep_where(s.drop_last(), p);
        if p(s.last()) {
            rest.push(s.last())
        } else {
            rest
        }
    }
}

/// `keep_where` keeps exactly the entries that satisfy the predicate.
pub proof fn lemma_keep_where_contains(s: Seq<Entry>, p: spec_fn(Entry) -> bool, e: Entry)
    ensures
        keep_where(s, p).contains(e) <==> s.contains(e) && p(e),
    decreases s.len(),
{
    if s.len() > 0 {
        lemma_keep_where_contains(s.drop_last(), p, e);
        let rest = keep_where(s.drop_last(), p);
        if s.contains(e) && p(e) {
            let i = choose|i: int| 0 <= i < s.len() && s[i] == e;
            if i < s.len() - 1 {
                assert(s.drop_last()[i] == e);
            }
            if p(s.last()) {
                if rest.contains(e) {
                    let j = choose|j: int| 0 <= j < rest.len() && rest[j] == e;
                    assert(rest.push(s.last())[j] == e);
                } else {
                    assert(rest.push(s.last())[rest.len() as int] == e);
                }
            }
        }
        if keep_where(s, p).contains(e) {
            let j = choose|j: int| 0 <= j < keep_where(s, p).len() && keep_where(s, p)[j] == e;
            if j < rest.len() {
                assert(rest[j] == e);
                let i = choose|i: int| 0 <= i < s.drop_last().len() && s.drop_last()[i] == e;
                assert(s[i] == e);
            } else {
                assert(s[s.len() - 1] == e);
            }
        }
    }
}

/// The metadata of `e` could be read.
pub open spec fn readable(e: Entry) -> bool {
    e.meta is Some
}

/// Lexicographic order on byte sequences.
pub open spec fn lex_lt(a: Seq<u8>, b: Seq<u8>) -> bool
    decreases a.len(),
{
    if a.len() == 0 {
        b.len() > 0
    } else if b.len() == 0 {
        false
    } else if a[0] != b[0] {
        a[0] < b[0]
    } else {
        lex_lt(a.drop_first(), b.drop_first())
    }
}

pub proof fn lemma_lex_irreflexive(a: Seq<u8>)
    ensures
        !lex_lt(a, a),
    decreases a.len(),
{
    if a.len() > 0 {
        lemma_lex_irreflexive(a.drop_first());
    }
}

pub proof fn lemma_lex_trichotomy(a: Seq<u8>, b: Seq<u8>)
    ensures
        lex_lt(a, b) || lex_lt(b, a) || a == b,
        !(lex_lt(a, b) && lex_lt(b, a)),
    decreases a.len(),
{
    if a.len() > 0 && b.len() > 0 {
        if a[0] == b[0] {
            lemma_lex_trichotomy(a.drop_first(), b.drop_first());
            if a.drop_first() == b.drop_first() {
                assert forall|i: int| 0 <= i < a.len() implies a[i] == b[i] by {
                    if i > 0 {
                        assert(a[i] == a.drop_first()[i - 1]);
                        assert(b[i] == b.drop_first()[i - 1]);
                    }
                }
                assert(a =~= b);
            }
        }
    } else if a.len() == 0 && b.len() == 0 {
        assert(a =~= b);
    }
}

pub proof fn lemma_lex_transitive(a: Seq<u8>, b: Seq<u8>, c: Seq<u8>)
    requires
        lex_lt(a, b),
        lex_lt(b, c),
    ensures
        lex_lt(a, c),
    decreases a.len(),
{
    if a.len() > 0 && b.len() > 0 && c.len() > 0 {
        if a[0] == b[0] && b[0] == c[0] {
            lemma_lex_transitive(a.drop_first(), b.drop_first(), c.drop_first());
        }
    }
}

/// The entries of `v` in reverse order, moved rather than copied.
pub fn reversed(v: Vec<Entry>) -> (r: Vec<Entry>)
    ensures
        r@ == v@.reverse(),
{
    let ghost all = v@;
    let mut rest = v;
    let mut out: Vec<Entry> = Vec::new();
    while rest.len() > 0
        invariant
            all == rest@ + out@.reverse(),
        decreases rest@.len(),
    {
        let ghost before = rest@;
        let ghost prev = out@;
        let e = rest.pop().unwrap();
        assert(before == rest@.push(e));
        out.push(e);
        assert(out@.reverse() =~= seq![e] + prev.reverse());
        assert(all =~= rest@ + out@.reverse());
    }
    assert(rest@ + out@.reverse() =~= out@.reverse());
    assert(out@ =~= all.reverse());
    out
}

/// Compares two raw names by `lex_lt`.
pub fn name_less(a: &Vec<u8>, b: &Vec<u8>) -> (r: bool)
    ensures
        r == lex_lt(a@, b@),
{
    let la = a.len();
    let lb = b.len();
    let mut i: usize = 0;
    assert(a@.skip(0) =~= a@);
    assert(b@.skip(0) =~= b@);
    while i < la && i < lb
        invariant
            la == a@.len(),
            lb == b@.len(),
            i <= la,
            i <= lb,
            lex_lt(a@, b@) == lex_lt(a@.skip(i as int), b@.skip(i as int)),
        decreases la - i,
    {
        let ca = a[i];
        let cb = b[i];
        if ca != cb {
            assert(a@.skip(i as int)[0] == ca);
            assert(b@.skip(i as int)[0] == cb);
            return ca < cb;
        }
        assert(a@.skip(i as int).drop_first() =~= a@.skip(i + 1));
        assert(b@.skip(i as int).drop_first() =~= b@.skip(i + 1));
        i = i + 1;
    }
    i < lb
}

} // verus!
