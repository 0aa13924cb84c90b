use crate::args_parser::Config;
use crate::entry::{lemma_keep_where_contains, readable, same_entry, Entry, EntryKind};
use crate::filters::{filter_entries, kept, passes_all, FilterType};
use crate::sort::{is_stable_sort, readable_only, stable_order, taken, SortArgument};
use vstd::prelude::*;

verus! {

/// Filters one directory level with `filters` (all must pass), drops the
/// entries whose metadata could not be read, and sorts the rest stably by
/// `sort`.
pub fn process_dir(entries: Vec<Entry>, filters: &Vec<FilterType>, sort: SortArgument) -> (r: Vec<Entry>)
    ensures
        is_stable_sort(sort, readable_only(kept(filters@, entries@)), r@),
{
    let filtered = filter_entries(entries, filters);
    sort.sort_entries(filtered)
}

proof fn lemma_stable_sort_contains(by: SortArgument, src: Seq<Entry>, out: Seq<Entry>, e: Entry)
    requires
        is_stable_sort(by, src, out),
    ensures
        out.contains(e) <==> src.contains(e),
{
    let order = choose|order: Seq<int>| stable_order(by, src, out, order);
    if out.contains(e) {
        let k = choose|k: int| 0 <= k < out.len() && out[k] == e;
        assert(src[order[k]] == e);
    }
    if src.contains(e) {
        let j = choose|j: int| 0 <= j < src.len() && src[j] == e;
        assert(taken(order, j));
        let k = choose|k: int| 0 <= k < order.len() && order[k] == j;
        assert(out[k] == e);
    }
}

/// What a directory level yields is exactly its readable entries that pass
/// every filter of the chain.
pub proof fn lemma_processed_entries(
    sort: SortArgument,
    filters: Seq<FilterType>,
    entries: Seq<Entry>,
    out: Seq<Entry>,
)
    requires
        is_stable_sort(sort, readable_only(kept(filters, entries)), out),
    ensures
        forall|e: Entry| #[trigger] out.contains(e) <==> entries.contains(e) && readable(e) && passes_all(filters, e),
{
    assert forall|e: Entry| #[trigger] out.contains(e) <==> entries.contains(e) && readable(e) && passes_all(filters, e) by {
        lemma_stable_sort_contains(sort, readable_only(kept(filters, entries)), out, e);
        lemma_keep_where_contains(kept(filters, entries), |x: Entry| readable(x), e);
        lemma_keep_where_contains(entries, |x: Entry| passes_all(filters, x), e);
    }
}

/// The entry is a directory, as far as its metadata tells.
pub open spec fn is_dir_entry(e: Entry) -> bool {
    e.meta matches Some(m) && m.kind == EntryKind::Dir
}

fn entry_is_dir(e: &Entry) -> (r: bool)
    ensures
        r == is_dir_entry(*e),
{
    match e.meta {
        Some(m) => m.kind == EntryKind::Dir,
        None => false,
    }
}

/// The entries a one-level listing shows. `root` is the configured path;
/// `listing` is its directory read, unused unless `root` is a directory. A
/// root that is not a directory is shown alone, whatever the filters say.
pub fn non_recursive(config: &Config, root: Entry, listing: Vec<Entry>) -> (r: Vec<Entry>)
    ensures
        !is_dir_entry(root) ==> r@ == seq![root],
        is_dir_entry(root) ==> is_stable_sort(config.sort_by, readable_only(kept(config.filters@, listing@)), r@),
{
    if entry_is_dir(&root) {
        process_dir(listing, &config.filters, config.sort_by)
    } else {
        let mut r: Vec<Entry> = Vec::new();
        r.push(root);
        r
    }
}

/// One directory level of a tree walk: its listing and the position of the
/// next entry to show.
#[derive(Debug)]
struct Frame {
    entries: Vec<Entry>,
    next: usize,
}

/// The levels of a tree walk as (listing, next position) pairs, the root level
/// first.
pub type Levels = Seq<(Seq<Entry>, nat)>;

/// `levels` without the exhausted levels at its end.
pub open spec fn unwind(levels: Levels) -> Levels
    decreases levels.len(),
{
    if levels.len() == 0 {
        levels
    } else if levels.last().1 >= levels.last().0.len() {
        unwind(levels.drop_last())
    } else {
        levels
    }
}

/// What a tree walk hands to its driver at each step.
#[derive(Debug)]
pub enum TreeStep {
    /// Render `entry` (a copy of the listed one) at `depth`; when `expand` holds, read the entry's
    /// directory and hand its processed listing to `TreeWalker::enter`.
    Show { entry: Entry, depth: usize, expand: bool },
    /// Nothing is left to show.
    Done,
}

/// A depth-bounded tree walk driven from outside: the driver does the reads,
/// the walker decides what is shown at which depth and what is descended
/// into. It keeps an explicit stack of levels, so a deep tree costs memory,
/// not call depth.
///
/// An entry at depth `d` (the root's entries have depth 0) is expanded only
/// when it is a directory and `d` is below the depth limit, so no entry
/// deeper than the limit is ever shown.
#[derive(Debug)]
pub struct TreeWalker {
    max_depth: usize,
    frames: Vec<Frame>,
}

impl TreeWalker {
    /// The depth limit.
    pub closed spec fn depth_limit(&self) -> nat {
        self.max_depth as nat
    }

    /// The levels still open, the root level first.
    pub closed spec fn levels(&self) -> Levels {
        self.frames@.map_values(|f: Frame| (f.entries@, f.next as nat))
    }

    /// The walk's invariant: no more levels than the depth limit allows, and
    /// each level's position within its listing.
    pub open spec fn wf(&self) -> bool {
        &&& self.depth_limit() <= usize::MAX
        &&& self.levels().len() <= self.depth_limit() + 1
        &&& forall|i: int| 0 <= i < self.levels().len() ==> #[trigger] self.levels()[i].1 <= self.levels()[i].0.len()
    }

    /// A walk over `root_listing` (the processed listing of the root, or the
    /// root alone when it is not a directory) that descends at most
    /// `max_depth` levels below it.
    pub fn new(max_depth: usize, root_listing: Vec<Entry>) -> (r: TreeWalker)
        ensures
            r.wf(),
            r.depth_limit() == max_depth,
            r.levels() == seq![(root_listing@, 0nat)],
    {
        let mut frames: Vec<Frame> = Vec::new();
        let ghost l = root_listing@;
        frames.push(Frame { entries: root_listing, next: 0 });
        let r = TreeWalker { max_depth, frames };
        assert(r.levels() =~= seq![(l, 0nat)]);
        r
    }

    /// A walk from the configured root: its processed listing when `root` is
    /// a directory (`listing` being its directory read), else `root` alone,
    /// whatever the filters say.
    pub fn from_root(max_depth: usize, config: &Config, root: Entry, listing: Vec<Entry>) -> (r: TreeWalker)
        ensures
            r.wf(),
            r.depth_limit() == max_depth,
            r.levels().len() == 1,
            r.levels()[0].1 == 0,
            !is_dir_entry(root) ==> r.levels()[0].0 == seq![root],
            is_dir_entry(root) ==> is_stable_sort(
                config.sort_by,
                readable_only(kept(config.filters@, listing@)),
                r.levels()[0].0,
            ),
    {
        TreeWalker::new(max_depth, non_recursive(config, root, listing))
    }

    /// Opens a level below the entry just shown, with the processed listing of
    /// its directory. Below the depth limit nothing is opened.
    pub fn enter(&mut self, listing: Vec<Entry>)
        requires
            old(self).wf(),
        ensures
            final(self).wf(),
            final(self).depth_limit() == old(self).depth_limit(),
            old(self).levels().len() <= old(self).depth_limit() ==> final(self).levels() == old(self).levels().push(
                (listing@, 0nat),
            ),
            old(self).levels().len() > old(self).depth_limit() ==> final(self).levels() == old(self).levels(),
    {
        if self.frames.len() <= self.max_depth {
            let ghost l = listing@;
            let ghost before = self.levels();
            self.frames.push(Frame { entries: listing, next: 0 });
            assert(self.levels() =~= before.push((l, 0nat)));
        }
    }

    /// Takes the next entry to show, closing the levels that are done.
    pub fn step(&mut self) -> (r: TreeStep)
        requires
            old(self).wf(),
        ensures
            final(self).wf(),
            final(self).depth_limit() == old(self).depth_limit(),
            unwind(old(self).levels()).len() == 0 ==> r is Done && final(self).levels().len() == 0,
            unwind(old(self).levels()).len() > 0 ==> {
                let u = unwind(old(self).levels());
                let top = u.last();
                let e = top.0[top.1 as int];
                &&& r matches TreeStep::Show { entry, depth, expand }
                &&& same_entry(entry, e)
                &&& depth == u.len() - 1
                &&& expand == (is_dir_entry(e) && u.len() - 1 < old(self).depth_limit())
                &&& final(self).levels() == u.update(u.len() - 1, (top.0, top.1 + 1))
            },
            r matches TreeStep::Show { depth, expand, .. } ==> depth <= old(self).depth_limit() && (expand
                ==> depth < old(self).depth_limit()),
    {
        loop
            invariant
                self.wf(),
                self.depth_limit() == old(self).depth_limit(),
                unwind(self.levels()) == unwind(old(self).levels()),
            decreases self.frames@.len(),
        {
            let n = self.frames.len();
            if n == 0 {
                return TreeStep::Done;
            }
            let ghost before = self.levels();
            let frame = self.frames.pop().unwrap();
            assert(self.levels() =~= before.drop_last());
            assert(before.last() == (frame.entries@, frame.next as nat));
            if frame.next < frame.entries.len() {
                let entry = frame.entries[frame.next].clone();
                let depth: usize = n - 1;
                let expand = entry_is_dir(&entry) && depth < self.max_depth;
                let ghost mid = self.levels();
                self.frames.push(Frame { entries: frame.entries, next: frame.next + 1 });
                assert(self.levels() =~= before.update(before.len() - 1, (before.last().0, before.last().1 + 1)));
                assert forall|i: int| 0 <= i < self.levels().len() implies #[trigger] self.levels()[i].1
                    <= self.levels()[i].0.len() by {
                    if i < before.len() - 1 {
                        assert(self.levels()[i] == before[i]);
                    }
                }
                return TreeStep::Show { entry, depth, expand };
            }
            assert forall|i: int| 0 <= i < self.levels().len() implies #[trigger] self.levels()[i].1
                <= self.levels()[i].0.len() by {
                assert(self.levels()[i] == before[i]);
            }
        }
    }
}

} // verus!
