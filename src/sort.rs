use crate::entry::{keep_where, reversed, lemma_lex_irreflexive, lemma_lex_transitive, lemma_lex_trichotomy, lex_lt, name_less, readable, Entry};
use vstd::prelude::*;

verus! {

/// The key entries are ordered by, ascending: the raw base name compared
/// byte by byte (case-sensitive), the byte size as the metadata reports it
/// (directories included), or the modification time. Ties keep the order in
/// which the entries were read.
#[derive(Clone, Copy, Debug, PartialEq, Eq, Structural)]
pub enum SortArgument {
    Date,
    Size,
    Name,
}

/// What `str::to_lowercase` returns for `s`.
pub uninterp spec fn lower_of(s: Seq<char>) -> Seq<char>;

/// Relies on str::to_lowercase: the result depends on the characters alone.
#[verifier::external_body]
fn lowercase(s: &str) -> (r: String)
    ensures
        r@ == lower_of(s@),
{
    s.to_lowercase()
}

/// The sort key named by an already lower-cased word.
pub open spec fn sort_named(word: Seq<char>) -> Option<SortArgument> {
    if word == "date"@ {
        Some(SortArgument::Date)
    } else if word == "size"@ {
        Some(SortArgument::Size)
    } else if word == "name"@ {
        Some(SortArgument::Name)
    } else {
        None
    }
}

/// The message of a rejected sort key.
pub open spec fn invalid_sort_message(s: Seq<char>) -> Seq<char> {
    "'"@ + s + "' is not a valid value for SortArgument"@
}

/// Size of a readable entry (0 where the metadata is missing).
pub open spec fn size_of(e: Entry) -> u64 {
    match e.meta {
        Some(m) => m.size,
        None => 0,
    }
}

/// Modification time of `e` as (seconds, nanoseconds).
pub open spec fn time_of(e: Entry) -> (i64, u32) {
    match e.meta {
        Some(m) => (m.modified_secs, m.modified_nanos),
        None => (0, 0),
    }
}

/// `a` comes strictly before `b` under `by`.
pub open spec fn key_lt(by: SortArgument, a: Entry, b: Entry) -> bool {
    match by {
        SortArgument::Name => lex_lt(a.name_bytes@, b.name_bytes@),
        SortArgument::Size => size_of(a) < size_of(b),
        SortArgument::Date => time_of(a).0 < time_of(b).0 || (time_of(a).0 == time_of(b).0
            && time_of(a).1 < time_of(b).1),
    }
}

/// `s` is in non-decreasing order under `by`.
pub open spec fn is_sorted_by(by: SortArgument, s: Seq<Entry>) -> bool {
    forall|i: int, j: int| 0 <= i < j < s.len() ==> !#[trigger] key_lt(by, s[j], s[i])
}

/// `order` maps each position of `out` to the position in `src` its entry
/// came from; it is a bijection; and `out` is ordered by `by` with ties kept
/// in their order in `src`.
pub open spec fn stable_order(by: SortArgument, src: Seq<Entry>, out: Seq<Entry>, order: Seq<int>) -> bool {
    &&& order.len() == src.len()
    &&& out.len() == src.len()
    &&& forall|k: int| 0 <= k < out.len() ==> 0 <= #[trigger] order[k] < src.len() && out[k] == src[order[k]]
    &&& forall|j: int| 0 <= j < src.len() ==> #[trigger] taken(order, j)
    &&& forall|k: int, l: int| 0 <= k < l < out.len() ==> #[trigger] key_lt(by, out[k], out[l]) || (
        !key_lt(by, out[l], out[k]) && order[k] < order[l])
}

/// Position `j` of the source appears in `order`.
pub open spec fn taken(order: Seq<int>, j: int) -> bool {
    exists|k: int| 0 <= k < order.len() && order[k] == j
}

/// `out` is `src` sorted stably by `by`.
pub open spec fn is_stable_sort(by: SortArgument, src: Seq<Entry>, out: Seq<Entry>) -> bool {
    exists|order: Seq<int>| stable_order(by, src, out, order)
}

/// The readable entries of `s`, in their order in `s`.
pub open spec fn readable_only(s: Seq<Entry>) -> Seq<Entry> {
    keep_where(s, |e: Entry| readable(e))
}

/// `key_lt` is a strict weak order: irreflexive, and its complement is transitive.
pub proof fn lemma_key_order(by: SortArgument, a: Entry, b: Entry, c: Entry)
    ensures
        !key_lt(by, a, a),
        key_lt(by, a, b) ==> !key_lt(by, b, a),
        key_lt(by, a, b) && key_lt(by, b, c) ==> key_lt(by, a, c),
        key_lt(by, a, b) && !key_lt(by, c, b) ==> key_lt(by, a, c),
        !key_lt(by, b, a) && !key_lt(by, c, b) ==> !key_lt(by, c, a),
{
    if by == SortArgument::Name {
        lemma_lex_irreflexive(a.name_bytes@);
        lemma_lex_trichotomy(a.name_bytes@, b.name_bytes@);
        lemma_lex_trichotomy(b.name_bytes@, c.name_bytes@);
        lemma_lex_trichotomy(a.name_bytes@, c.name_bytes@);
        if lex_lt(a.name_bytes@, b.name_bytes@) && lex_lt(b.name_bytes@, c.name_bytes@) {
            lemma_lex_transitive(a.name_bytes@, b.name_bytes@, c.name_bytes@);
        }
        if lex_lt(c.name_bytes@, a.name_bytes@) && lex_lt(a.name_bytes@, b.name_bytes@) {
            lemma_lex_transitive(c.name_bytes@, a.name_bytes@, b.name_bytes@);
        }
        if lex_lt(b.name_bytes@, c.name_bytes@) && lex_lt(c.name_bytes@, a.name_bytes@) {
            lemma_lex_transitive(b.name_bytes@, c.name_bytes@, a.name_bytes@);
        }
    }
}

proof fn lemma_increasing_lower(order: Seq<int>, k: int)
    requires
        0 <= k < order.len(),
        forall|i: int| 0 <= i < order.len() ==> 0 <= #[trigger] order[i],
        forall|i: int, j: int| 0 <= i < j < order.len() ==> #[trigger] order[i] < #[trigger] order[j],
    ensures
        order[k] >= k,
    decreases k,
{
    if k > 0 {
        lemma_increasing_lower(order, k - 1);
        assert(order[k - 1] < order[k]);
    }
}

proof fn lemma_increasing_upper(order: Seq<int>, k: int)
    requires
        0 <= k < order.len(),
        forall|i: int| 0 <= i < order.len() ==> #[trigger] order[i] < order.len(),
        forall|i: int, j: int| 0 <= i < j < order.len() ==> #[trigger] order[i] < #[trigger] order[j],
    ensures
        order[k] <= k,
    decreases order.len() - k,
{
    if k < order.len() - 1 {
        lemma_increasing_upper(order, k + 1);
        assert(order[k] < order[k + 1]);
    }
}

/// A stably sorted sequence is in order.
pub proof fn lemma_stable_sort_is_sorted(by: SortArgument, src: Seq<Entry>, out: Seq<Entry>)
    requires
        is_stable_sort(by, src, out),
    ensures
        is_sorted_by(by, out),
{
    let order = choose|order: Seq<int>| stable_order(by, src, out, order);
    assert forall|i: int, j: int| 0 <= i < j < out.len() implies !#[trigger] key_lt(by, out[j], out[i]) by {
        assert(key_lt(by, out[i], out[j]) || (!key_lt(by, out[j], out[i]) && order[i] < order[j]));
        lemma_key_order(by, out[i], out[j], out[j]);
    }
}

/// Stability: sorting a sequence that is already in order leaves it unchanged.
pub proof fn lemma_sorted_input_unchanged(by: SortArgument, src: Seq<Entry>, out: Seq<Entry>)
    requires
        is_sorted_by(by, src),
        is_stable_sort(by, src, out),
    ensures
        out == src,
{
    let order = choose|order: Seq<int>| stable_order(by, src, out, order);
    assert forall|k: int, l: int| 0 <= k < l < order.len() implies #[trigger] order[k] < #[trigger] order[l] by {
        assert(key_lt(by, out[k], out[l]) || (!key_lt(by, out[l], out[k]) && order[k] < order[l]));
        if order[l] < order[k] {
            assert(!key_lt(by, src[order[k]], src[order[l]]));
        } else if order[l] == order[k] {
            lemma_key_order(by, out[k], out[k], out[k]);
        }
    }
    assert forall|k: int| 0 <= k < out.len() implies out[k] == src[k] by {
        lemma_increasing_lower(order, k);
        lemma_increasing_upper(order, k);
    }
    assert(out =~= src);
}

/// Sorting by the same key twice gives what sorting once gives.
pub proof fn lemma_sort_idempotent(by: SortArgument, src: Seq<Entry>, once: Seq<Entry>, twice: Seq<Entry>)
    requires
        is_stable_sort(by, src, once),
        is_stable_sort(by, once, twice),
    ensures
        twice == once,
{
    lemma_stable_sort_is_sorted(by, src, once);
    lemma_sorted_input_unchanged(by, once, twice);
}

/// Every entry kept by `readable_only` is readable, and it keeps all of a
/// sequence whose entries are all readable.
pub proof fn lemma_readable_only(s: Seq<Entry>)
    ensures
        forall|i: int| 0 <= i < readable_only(s).len() ==> readable(#[trigger] readable_only(s)[i]),
        (forall|i: int| 0 <= i < s.len() ==> readable(#[trigger] s[i])) ==> readable_only(s) == s,
    decreases s.len(),
{
    if s.len() > 0 {
        lemma_readable_only(s.drop_last());
        let rest = readable_only(s.drop_last());
        assert forall|i: int| 0 <= i < readable_only(s).len() implies readable(#[trigger] readable_only(s)[i]) by {
            if i < rest.len() {
                assert(readable_only(s)[i] == rest[i]);
            }
        }
        if forall|i: int| 0 <= i < s.len() ==> readable(#[trigger] s[i]) {
            assert forall|i: int| 0 <= i < s.drop_last().len() implies readable(#[trigger] s.drop_last()[i]) by {
                assert(s.drop_last()[i] == s[i]);
            }
            assert(readable(s[s.len() - 1]));
            assert(s.drop_last().push(s.last()) =~= s);
        }
    }
}

/// What `sort_entries` returns is left as it is by a second `sort_entries` with
/// the same key.
pub proof fn lemma_sort_entries_idempotent(
    by: SortArgument,
    entries: Seq<Entry>,
    once: Seq<Entry>,
    twice: Seq<Entry>,
)
    requires
        is_stable_sort(by, readable_only(entries), once),
        is_stable_sort(by, readable_only(once), twice),
    ensures
        twice == once,
{
    let src = readable_only(entries);
    lemma_readable_only(entries);
    let order = choose|order: Seq<int>| stable_order(by, src, once, order);
    assert forall|i: int| 0 <= i < once.len() implies readable(#[trigger] once[i]) by {
        assert(once[i] == src[order[i]]);
    }
    lemma_readable_only(once);
    lemma_sort_idempotent(by, src, once, twice);
}

/// Compares two entries by `key_lt`.
fn key_less(by: SortArgument, a: &Entry, b: &Entry) -> (r: bool)
    ensures
        r == key_lt(by, *a, *b),
{
    match by {
        SortArgument::Name => name_less(&a.name_bytes, &b.name_bytes),
        SortArgument::Size => {
            let sa: u64 = match a.meta { Some(m) => m.size, None => 0 };
            let sb: u64 = match b.meta { Some(m) => m.size, None => 0 };
            sa < sb
        },
        SortArgument::Date => {
            let (sa, na): (i64, u32) = match a.meta {
                Some(m) => (m.modified_secs, m.modified_nanos),
                None => (0, 0),
            };
            let (sb, nb): (i64, u32) = match b.meta {
                Some(m) => (m.modified_secs, m.modified_nanos),
                None => (0, 0),
            };
            sa < sb || (sa == sb && na < nb)
        },
    }
}

/// `x` (from position `ix` of the source) goes before `y` (from `iy`): by
/// key, and by source position between equal keys.
pub open spec fn goes_before(by: SortArgument, x: Entry, ix: int, y: Entry, iy: int) -> bool {
    key_lt(by, x, y) || (!key_lt(by, y, x) && ix < iy)
}

proof fn lemma_goes_before_transitive(by: SortArgument, x: Entry, ix: int, y: Entry, iy: int, z: Entry, iz: int)
    requires
        goes_before(by, x, ix, y, iy),
        goes_before(by, y, iy, z, iz),
    ensures
        goes_before(by, x, ix, z, iz),
{
    lemma_key_order(by, x, y, z);
    lemma_key_order(by, z, x, y);
    lemma_key_order(by, x, z, y);
    lemma_key_order(by, y, x, z);
}

/// Merges two stably sorted halves of `src` (`a` from its first `mid`
/// entries, `b` from the rest) into a stable sort of `src`.
fn merge(
    by: SortArgument,
    a: Vec<Entry>,
    b: Vec<Entry>,
    Ghost(src): Ghost<Seq<Entry>>,
    Ghost(mid): Ghost<int>,
    Ghost(oa): Ghost<Seq<int>>,
    Ghost(ob): Ghost<Seq<int>>,
) -> (r: Vec<Entry>)
    requires
        0 <= mid <= src.len(),
        stable_order(by, src.subrange(0, mid), a@, oa),
        stable_order(by, src.subrange(mid, src.len() as int), b@, ob),
    ensures
        is_stable_sort(by, src, r@),
{
    let ghost sa = a@;
    let ghost sb = b@;
    let ghost ga = Seq::new(sa.len(), |p: int| oa[p]);
    let ghost gb = Seq::new(sb.len(), |q: int| mid + ob[q]);
    let na: usize = a.len();
    let nb: usize = b.len();
    let mut ra = reversed(a);
    let mut rb = reversed(b);
    let mut out: Vec<Entry> = Vec::new();
    let ghost mut o: Seq<int> = Seq::empty();
    let ghost mut pa: Seq<int> = Seq::empty();
    let ghost mut pb: Seq<int> = Seq::empty();
    let mut i: usize = 0;
    let mut j: usize = 0;
    proof {
        assert forall|p: int, q: int| 0 <= p < q < sa.len() implies goes_before(by, sa[p], ga[p], sa[q], ga[q]) by {
            assert(key_lt(by, sa[p], sa[q]) || (!key_lt(by, sa[q], sa[p]) && oa[p] < oa[q]));
        }
        assert forall|p: int, q: int| 0 <= p < q < sb.len() implies goes_before(by, sb[p], gb[p], sb[q], gb[q]) by {
            assert(key_lt(by, sb[p], sb[q]) || (!key_lt(by, sb[q], sb[p]) && ob[p] < ob[q]));
        }
    }
    while i < na || j < nb
        invariant
            na == sa.len(),
            nb == sb.len(),
            i <= na,
            j <= nb,
            0 <= mid <= src.len(),
            sa.len() + sb.len() == src.len(),
            stable_order(by, src.subrange(0, mid), sa, oa),
            stable_order(by, src.subrange(mid, src.len() as int), sb, ob),
            ga.len() == sa.len(),
            gb.len() == sb.len(),
            forall|p: int| 0 <= p < sa.len() ==> #[trigger] ga[p] == oa[p],
            forall|q: int| 0 <= q < sb.len() ==> #[trigger] gb[q] == mid + ob[q],
            forall|p: int, q: int| 0 <= p < q < sa.len() ==> goes_before(by, sa[p], ga[p], sa[q], ga[q]),
            forall|p: int, q: int| 0 <= p < q < sb.len() ==> goes_before(by, sb[p], gb[p], sb[q], gb[q]),
            ra@ == sa.subrange(i as int, na as int).reverse(),
            rb@ == sb.subrange(j as int, nb as int).reverse(),
            out@.len() == i + j,
            o.len() == i + j,
            pa.len() == i,
            pb.len() == j,
            forall|k: int| 0 <= k < out@.len() ==> 0 <= #[trigger] o[k] < src.len() && out@[k] == src[o[k]],
            forall|p: int| 0 <= p < i ==> 0 <= #[trigger] pa[p] < o.len() && o[pa[p]] == ga[p],
            forall|q: int| 0 <= q < j ==> 0 <= #[trigger] pb[q] < o.len() && o[pb[q]] == gb[q],
            forall|k: int, l: int| 0 <= k < l < out@.len() ==> goes_before(by, out@[k], o[k], out@[l], o[l]),
            forall|k: int, p: int| 0 <= k < out@.len() && i <= p < na ==> goes_before(by, out@[k], o[k], sa[p], ga[p]),
            forall|k: int, q: int| 0 <= k < out@.len() && j <= q < nb ==> goes_before(by, out@[k], o[k], sb[q], gb[q]),
        decreases na - i + nb - j,
    {
        let take_b = if i == na {
            true
        } else if j == nb {
            false
        } else {
            key_less(by, &rb[nb - 1 - j], &ra[na - 1 - i])
        };
        let ghost k0 = out@.len() as int;
        if take_b {
            let ghost x = sb[j as int];
            let ghost gx = gb[j as int];
            proof {
                assert(rb@[nb - 1 - j] == x);
                if i < na {
                    assert(ra@[na - 1 - i] == sa[i as int]);
                    assert(ga[i as int] < mid <= gx);
                    lemma_key_order(by, x, sa[i as int], x);
                }
            }
            let e = rb.pop().unwrap();
            assert(rb@ =~= sb.subrange(j + 1, nb as int).reverse());
            out.push(e);
            proof {
                let ghost ob_x = ob[j as int];
                assert(src.subrange(mid, src.len() as int)[ob_x] == src[mid + ob_x]);
                o = o.push(gx);
                pb = pb.push(k0);
                assert forall|p: int| i <= p < na implies goes_before(by, x, gx, sa[p], ga[p]) by {
                    if p > i {
                        lemma_goes_before_transitive(by, x, gx, sa[i as int], ga[i as int], sa[p], ga[p]);
                    }
                }
                assert forall|q: int| j + 1 <= q < nb implies goes_before(by, x, gx, sb[q], gb[q]) by {}
            }
            j = j + 1;
        } else {
            let ghost x = sa[i as int];
            let ghost gx = ga[i as int];
            proof {
                assert(ra@[na - 1 - i] == x);
                if j < nb {
                    assert(rb@[nb - 1 - j] == sb[j as int]);
                    assert(gx < mid <= gb[j as int]);
                }
            }
            let e = ra.pop().unwrap();
            assert(ra@ =~= sa.subrange(i + 1, na as int).reverse());
            out.push(e);
            proof {
                let ghost oa_x = oa[i as int];
                assert(src.subrange(0, mid)[oa_x] == src[oa_x]);
                o = o.push(gx);
                pa = pa.push(k0);
                assert forall|q: int| j <= q < nb implies goes_before(by, x, gx, sb[q], gb[q]) by {
                    if q > j {
                        lemma_goes_before_transitive(by, x, gx, sb[j as int], gb[j as int], sb[q], gb[q]);
                    }
                }
                assert forall|p: int| i + 1 <= p < na implies goes_before(by, x, gx, sa[p], ga[p]) by {}
            }
            i = i + 1;
        }
    }
    proof {
        assert forall|jj: int| 0 <= jj < src.len() implies #[trigger] taken(o, jj) by {
            if jj < mid {
                assert(taken(oa, jj));
                let p = choose|p: int| 0 <= p < oa.len() && oa[p] == jj;
                assert(o[pa[p]] == ga[p]);
            } else {
                assert(taken(ob, jj - mid));
                let q = choose|q: int| 0 <= q < ob.len() && ob[q] == jj - mid;
                assert(o[pb[q]] == gb[q]);
            }
        }
        assert forall|k: int, l: int| 0 <= k < l < out@.len() implies #[trigger] key_lt(by, out@[k], out@[l]) || (
            !key_lt(by, out@[l], out@[k]) && o[k] < o[l]) by {
            assert(goes_before(by, out@[k], o[k], out@[l], o[l]));
        }
        assert(stable_order(by, src, out@, o));
    }
    out
}

/// Sorts `src` stably by `by` (top-down merge sort).
fn stable_sort(by: SortArgument, src: Vec<Entry>) -> (r: Vec<Entry>)
    ensures
        is_stable_sort(by, src@, r@),
    decreases src@.len(),
{
    let n: usize = src.len();
    if n <= 1 {
        proof {
            let o = Seq::new(n as nat, |k: int| k);
            if n == 1 {
                assert(o[0] == 0);
                assert(taken(o, 0));
            }
            assert(stable_order(by, src@, src@, o));
        }
        return src;
    }
    let ghost all = src@;
    let mid: usize = n / 2;
    let mut left = src;
    let right = left.split_off(mid);
    let sorted_left = stable_sort(by, left);
    let sorted_right = stable_sort(by, right);
    proof {
        assert(all.subrange(0, mid as int) == left@);
        assert(all.subrange(mid as int, all.len() as int) == right@);
    }
    let ghost oa = choose|o: Seq<int>| stable_order(by, left@, sorted_left@, o);
    let ghost ob = choose|o: Seq<int>| stable_order(by, right@, sorted_right@, o);
    merge(by, sorted_left, sorted_right, Ghost(all), Ghost(mid as int), Ghost(oa), Ghost(ob))
}

/// Keeps the readable entries, in their order.
fn drop_unreadable(entries: Vec<Entry>) -> (r: Vec<Entry>)
    ensures
        r@ == readable_only(entries@),
{
    let ghost all = entries@;
    let n: usize = entries.len();
    let mut rest = reversed(entries);
    let mut out: Vec<Entry> = Vec::new();
    let mut i: usize = 0;
    while i < n
        invariant
            n == all.len(),
            i <= n,
            rest@ == all.subrange(i as int, n as int).reverse(),
            out@ == readable_only(all.subrange(0, i as int)),
        decreases n - i,
    {
        assert(all.subrange(0, i + 1).drop_last() =~= all.subrange(0, i as int));
        let e = rest.pop().unwrap();
        assert(rest@ =~= all.subrange(i + 1, n as int).reverse());
        if e.meta.is_some() {
            out.push(e);
        }
        i = i + 1;
    }
    assert(all.subrange(0, i as int) =~= all);
    out
}

impl SortArgument {
    /// Parses a sort key, ignoring case: "date", "size" or "name".
    pub fn from_str(s: &str) -> (r: Result<SortArgument, String>)
        ensures
            r matches Ok(k) ==> sort_named(lower_of(s@)) == Some(k),
            r is Err <==> sort_named(lower_of(s@)) is None,
            r matches Err(m) ==> m@ == invalid_sort_message(s@),
    {
        let lowered = lowercase(s);
        SortArgument::from_lowercase(lowered.as_str(), s)
    }

    /// Parses an already lower-cased sort key `word`; on failure the message
    /// names `input`.
    pub fn from_lowercase(word: &str, input: &str) -> (r: Result<SortArgument, String>)
        ensures
            r matches Ok(k) ==> sort_named(word@) == Some(k),
            r is Err <==> sort_named(word@) is None,
            r matches Err(m) ==> m@ == invalid_sort_message(input@),
    {
        let w = String::from_str(word);
        if w == String::from_str("date") {
            Ok(SortArgument::Date)
        } else if w == String::from_str("size") {
            Ok(SortArgument::Size)
        } else if w == String::from_str("name") {
            Ok(SortArgument::Name)
        } else {
            let mut m = String::from_str("'");
            m.append(input);
            m.append("' is not a valid value for SortArgument");
            Err(m)
        }
    }

    /// The key's name, as `Debug` writes it.
    pub fn name(&self) -> (r: &'static str)
        ensures
            r@ == match self {
                SortArgument::Date => "Date"@,
                SortArgument::Size => "Size"@,
                SortArgument::Name => "Name"@,
            },
    {
        match self {
            SortArgument::Date => "Date",
            SortArgument::Size => "Size",
            SortArgument::Name => "Name",
        }
    }

    /// Drops the entries whose metadata could not be read and sorts the rest
    /// stably by this key.
    pub fn sort_entries(&self, entries: Vec<Entry>) -> (r: Vec<Entry>)
        ensures
            is_stable_sort(*self, readable_only(entries@), r@),
    {
        let readable_entries = drop_unreadable(entries);
        stable_sort(*self, readable_entries)
    }
}

} // verus!
