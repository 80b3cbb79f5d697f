use vstd::prelude::*;

use crate::error::AppError;
use crate::input::{
    classify_entry, entry_action, extension_set, extension_text, lowercased, gathered_files, joined, strings_view, wanted_extensions,
    EntryAction,
};
use crate::path::{child_path, is_prefix_of, pushed_bytes, part_rank, path_order, path_order_is_total, paths_view, FsPath};
use vstd::relations::sorted_by;

verus! {

/// An entry of a directory, as a listing of the directory gives it.
pub struct DirEntry {
    /// The entry's name.
    pub name: Vec<u8>,
    /// Whether the entry is a symbolic link (not followed).
    pub is_symlink: bool,
    /// Whether the entry is a directory.
    pub is_dir: bool,
}

/// An entry by its plain values: name, whether a symbolic link, whether a
/// directory.
pub open spec fn entry_of(e: DirEntry) -> (Seq<u8>, bool, bool) {
    (e.name@, e.is_symlink, e.is_dir)
}

/// The entries of a listing by their plain values.
pub open spec fn entries_of(es: Seq<DirEntry>) -> Seq<(Seq<u8>, bool, bool)> {
    Seq::new(es.len(), |i: int| entry_of(es[i]))
}

/// What a walk does with an entry given by its plain values.
pub open spec fn action_of(e: (Seq<u8>, bool, bool), wanted: Seq<Seq<char>>) -> EntryAction {
    entry_action(e.0, e.1, e.2, wanted)
}

/// The directories listed so far, each with its listing.
pub type Listings = Seq<(Seq<Seq<u8>>, Seq<(Seq<u8>, bool, bool)>)>;

/// Whether `p` is the path of an entry of a listed directory on which the
/// walk takes the action `a`.
pub open spec fn reached_by(listed: Listings, wanted: Seq<Seq<char>>, a: EntryAction, p: Seq<Seq<u8>>) -> bool {
    exists|k: int, i: int|
        0 <= k < listed.len() && 0 <= i < listed[k].1.len() && action_of(#[trigger] listed[k].1[i], wanted) == a
            && p == listed[k].0.push(listed[k].1[i].0)
}

/// The paths of the entries of a listing of `d` on which the walk takes the
/// action `a`, in the order of the listing.
pub open spec fn children_with(
    d: Seq<Seq<u8>>,
    es: Seq<(Seq<u8>, bool, bool)>,
    wanted: Seq<Seq<char>>,
    a: EntryAction,
) -> Seq<Seq<Seq<u8>>>
    decreases es.len(),
{
    if es.len() == 0 {
        seq![]
    } else {
        let pre = children_with(d, es.drop_last(), wanted, a);
        if action_of(es.last(), wanted) == a {
            pre.push(d.push(es.last().0))
        } else {
            pre
        }
    }
}

proof fn lemma_children_contains(
    d: Seq<Seq<u8>>,
    es: Seq<(Seq<u8>, bool, bool)>,
    wanted: Seq<Seq<char>>,
    a: EntryAction,
    p: Seq<Seq<u8>>,
)
    ensures
        children_with(d, es, wanted, a).contains(p) <==> exists|i: int|
            0 <= i < es.len() && action_of(#[trigger] es[i], wanted) == a && p == d.push(es[i].0),
    decreases es.len(),
{
    if es.len() > 0 {
        let pre = es.drop_last();
        lemma_children_contains(d, pre, wanted, a, p);
        let c = children_with(d, pre, wanted, a);
        if children_with(d, es, wanted, a).contains(p) {
            if action_of(es.last(), wanted) == a && p == d.push(es.last().0) {
                assert(es[es.len() - 1] == es.last());
            } else {
                if action_of(es.last(), wanted) == a {
                    let k = choose|k: int| 0 <= k < c.push(d.push(es.last().0)).len() && c.push(d.push(es.last().0))[k] == p;
                    assert(k < c.len());
                    assert(c[k] == p);
                }
                assert(c.contains(p));
                let i = choose|i: int| 0 <= i < pre.len() && action_of(#[trigger] pre[i], wanted) == a && p == d.push(pre[i].0);
                assert(es[i] == pre[i]);
            }
        }
        if exists|i: int| 0 <= i < es.len() && action_of(#[trigger] es[i], wanted) == a && p == d.push(es[i].0) {
            let i = choose|i: int| 0 <= i < es.len() && action_of(#[trigger] es[i], wanted) == a && p == d.push(es[i].0);
            if i == es.len() - 1 {
                let full = c.push(d.push(es.last().0));
                assert(full[c.len() as int] == p);
            } else {
                assert(pre[i] == es[i]);
                assert(c.contains(p));
                let k = choose|k: int| 0 <= k < c.len() && c[k] == p;
                if action_of(es.last(), wanted) == a {
                    assert(c.push(d.push(es.last().0))[k] == p);
                }
            }
        }
    }
}

proof fn lemma_children_distinct(
    d: Seq<Seq<u8>>,
    es: Seq<(Seq<u8>, bool, bool)>,
    wanted: Seq<Seq<char>>,
    a: EntryAction,
)
    requires
        forall|i: int, j: int| 0 <= i < j < es.len() ==> es[i].0 != es[j].0,
    ensures
        children_with(d, es, wanted, a).no_duplicates(),
    decreases es.len(),
{
    if es.len() > 0 {
        let pre = es.drop_last();
        lemma_children_distinct(d, pre, wanted, a);
        let c = children_with(d, pre, wanted, a);
        if action_of(es.last(), wanted) == a {
            let x = d.push(es.last().0);
            lemma_children_contains(d, pre, wanted, a, x);
            if c.contains(x) {
                let i = choose|i: int| 0 <= i < pre.len() && action_of(#[trigger] pre[i], wanted) == a && x == d.push(pre[i].0);
                assert(d.push(pre[i].0).last() == pre[i].0);
                assert(x.last() == es.last().0);
                assert(es[i] == pre[i]);
                assert(es[es.len() - 1] == es.last());
            }
            let full = c.push(x);
            assert forall|i: int, j: int| 0 <= i < j < full.len() implies full[i] != full[j] by {
                if j == c.len() {
                    assert(full[i] == c[i]);
                    if full[i] == full[j] {
                        assert(c.contains(x));
                    }
                }
            }
        }
    }
}

proof fn lemma_concat_contains<A>(a: Seq<A>, b: Seq<A>, x: A)
    ensures
        (a + b).contains(x) <==> a.contains(x) || b.contains(x),
{
    if (a + b).contains(x) {
        let k = choose|k: int| 0 <= k < (a + b).len() && (a + b)[k] == x;
        if k < a.len() {
            assert(a[k] == x);
        } else {
            assert(b[k - a.len()] == x);
        }
    }
    if a.contains(x) {
        let k = choose|k: int| 0 <= k < a.len() && a[k] == x;
        assert((a + b)[k] == x);
    }
    if b.contains(x) {
        let k = choose|k: int| 0 <= k < b.len() && b[k] == x;
        assert((a + b)[k + a.len()] == x);
    }
}

proof fn lemma_push_contains<A>(a: Seq<A>, y: A, x: A)
    ensures
        a.push(y).contains(x) <==> a.contains(x) || x == y,
{
    if a.push(y).contains(x) {
        let k = choose|k: int| 0 <= k < a.push(y).len() && a.push(y)[k] == x;
        if k < a.len() {
            assert(a[k] == x);
        }
    }
    if a.contains(x) {
        let k = choose|k: int| 0 <= k < a.len() && a[k] == x;
        assert(a.push(y)[k] == x);
    }
    if x == y {
        assert(a.push(y)[a.len() as int] == x);
    }
}

proof fn lemma_concat_distinct<A>(a: Seq<A>, b: Seq<A>)
    requires
        a.no_duplicates(),
        b.no_duplicates(),
        forall|x: A| !(a.contains(x) && b.contains(x)),
    ensures
        (a + b).no_duplicates(),
{
    let c = a + b;
    assert forall|i: int, j: int| 0 <= i < j < c.len() implies c[i] != c[j] by {
        if j < a.len() {
            assert(c[i] == a[i] && c[j] == a[j]);
        } else if i >= a.len() {
            assert(c[i] == b[i - a.len()] && c[j] == b[j - a.len()]);
        } else {
            assert(c[i] == a[i] && c[j] == b[j - a.len()]);
            assert(a.contains(a[i]));
            assert(b.contains(b[j - a.len()]));
        }
    }
}

proof fn lemma_reached_push(
    listed: Listings,
    d: Seq<Seq<u8>>,
    es: Seq<(Seq<u8>, bool, bool)>,
    wanted: Seq<Seq<char>>,
    a: EntryAction,
    p: Seq<Seq<u8>>,
)
    ensures
        reached_by(listed.push((d, es)), wanted, a, p) <==> reached_by(listed, wanted, a, p) || exists|i: int|
            0 <= i < es.len() && action_of(#[trigger] es[i], wanted) == a && p == d.push(es[i].0),
{
    let l2 = listed.push((d, es));
    if reached_by(l2, wanted, a, p) {
        let (k, i) = choose|k: int, i: int|
            0 <= k < l2.len() && 0 <= i < l2[k].1.len() && action_of(#[trigger] l2[k].1[i], wanted) == a
                && p == l2[k].0.push(l2[k].1[i].0);
        if k < listed.len() {
            assert(l2[k] == listed[k]);
            assert(action_of(listed[k].1[i], wanted) == a);
        } else {
            assert(l2[k] == (d, es));
            assert(action_of(es[i], wanted) == a);
        }
    }
    if reached_by(listed, wanted, a, p) {
        let (k, i) = choose|k: int, i: int|
            0 <= k < listed.len() && 0 <= i < listed[k].1.len() && action_of(#[trigger] listed[k].1[i], wanted) == a
                && p == listed[k].0.push(listed[k].1[i].0);
        assert(l2[k] == listed[k]);
        assert(action_of(l2[k].1[i], wanted) == a);
    }
    if exists|i: int| 0 <= i < es.len() && action_of(#[trigger] es[i], wanted) == a && p == d.push(es[i].0) {
        let i = choose|i: int| 0 <= i < es.len() && action_of(#[trigger] es[i], wanted) == a && p == d.push(es[i].0);
        let k = listed.len() as int;
        assert(l2[k] == (d, es));
        assert(action_of(l2[k].1[i], wanted) == a);
    }
}

proof fn lemma_child_shown(rs: Seq<u8>, rv: Seq<Seq<u8>>, d: &FsPath, c: &FsPath, name: Seq<u8>)
    requires
        rv.len() <= d@.len(),
        shown_from(rs, rv, *d),
        c@ == d@.push(name),
        c.shown@ == pushed_bytes(d.shown@, name),
    ensures
        shown_from(rs, rv, *c),
{
    assert(c@.skip(rv.len() as int) =~= d@.skip(rv.len() as int).push(name));
    assert(c@.skip(rv.len() as int).drop_last() =~= d@.skip(rv.len() as int));
}

proof fn lemma_filter_keeps_order<A>(s: Seq<A>, pred: spec_fn(A) -> bool, leq: spec_fn(A, A) -> bool)
    requires
        sorted_by(s, leq),
        s.no_duplicates(),
    ensures
        sorted_by(s.filter(pred), leq),
        s.filter(pred).no_duplicates(),
        forall|x: A| s.filter(pred).contains(x) ==> s.contains(x) && pred(x),
        forall|x: A| s.contains(x) && pred(x) ==> s.filter(pred).contains(x),
    decreases s.len(),
{
    broadcast use vstd::seq_lib::group_filter_ensures;

    reveal(Seq::filter);
    assert forall|x: A| s.contains(x) && pred(x) implies s.filter(pred).contains(x) by {
        let k = choose|k: int| 0 <= k < s.len() && s[k] == x;
        assert(s.filter(pred).contains(s[k]));
    }
    if s.len() > 0 {
        let pre = s.drop_last();
        assert(sorted_by(pre, leq)) by {
            assert forall|i: int, j: int| 0 <= i < j < pre.len() implies leq(pre[i], pre[j]) by {
                assert(pre[i] == s[i] && pre[j] == s[j]);
            }
        }
        assert(pre.no_duplicates()) by {
            assert forall|i: int, j: int| 0 <= i < j < pre.len() implies pre[i] != pre[j] by {
                assert(pre[i] == s[i] && pre[j] == s[j]);
            }
        }
        lemma_filter_keeps_order(pre, pred, leq);
        let f = pre.filter(pred);
        let last = s.last();
        assert forall|x: A| pre.contains(x) implies s.contains(x) by {
            let k = choose|k: int| 0 <= k < pre.len() && pre[k] == x;
            assert(s[k] == x);
        }
        if pred(last) {
            let g = f.push(last);
            assert(g == s.filter(pred));
            assert(!pre.contains(last)) by {
                if pre.contains(last) {
                    let k = choose|k: int| 0 <= k < pre.len() && pre[k] == last;
                    assert(s[k] == s[s.len() - 1]);
                }
            }
            assert forall|i: int, j: int| 0 <= i < j < g.len() implies leq(g[i], g[j]) by {
                if j == f.len() {
                    assert(g[i] == f[i]);
                    assert(f.contains(f[i]));
                    assert(pre.contains(f[i]));
                    let k = choose|k: int| 0 <= k < pre.len() && pre[k] == f[i];
                    assert(pre[k] == s[k]);
                    assert(g[j] == s[s.len() - 1]);
                    assert(leq(s[k], s[s.len() - 1]));
                } else {
                    assert(g[i] == f[i] && g[j] == f[j]);
                }
            }
            assert forall|i: int, j: int| 0 <= i < j < g.len() implies g[i] != g[j] by {
                if j == f.len() {
                    assert(g[i] == f[i]);
                    assert(f.contains(f[i]));
                } else {
                    assert(g[i] == f[i] && g[j] == f[j]);
                }
            }
            assert forall|x: A| g.contains(x) implies s.contains(x) && pred(x) by {
                let k = choose|k: int| 0 <= k < g.len() && g[k] == x;
                if k < f.len() {
                    assert(f[k] == x);
                    assert(f.contains(x));
                } else {
                    assert(s[s.len() - 1] == x);
                }
            }
        } else {
            assert(f == s.filter(pred));
        }
    }
}

proof fn lemma_same_members_same_multiset<A>(x: Seq<A>, y: Seq<A>)
    requires
        x.no_duplicates(),
        y.no_duplicates(),
        forall|e: A| x.contains(e) <==> y.contains(e),
    ensures
        x.to_multiset() == y.to_multiset(),
{
    broadcast use vstd::seq_lib::group_to_multiset_ensures;

    x.lemma_multiset_has_no_duplicates();
    y.lemma_multiset_has_no_duplicates();
    assert forall|e: A| x.to_multiset().count(e) == y.to_multiset().count(e) by {
        if x.contains(e) {
            assert(x.to_multiset().contains(e));
            assert(y.to_multiset().contains(e));
        }
    }
    assert(x.to_multiset() =~= y.to_multiset());
}

/// The directories listed so far.
pub open spec fn listed_dirs(listed: Listings) -> Seq<Seq<Seq<u8>>> {
    Seq::new(listed.len(), |k: int| listed[k].0)
}

/// Whether the names of a listing are those of a directory's entries: all
/// different, and none of them the root, `.` or `..`.
pub open spec fn proper_listing(es: Seq<DirEntry>) -> bool {
    &&& forall|i: int| 0 <= i < es.len() ==> part_rank(#[trigger] es[i].name@) == 4
    &&& forall|i: int, j: int| 0 <= i < j < es.len() ==> es[i].name@ != es[j].name@
}

/// How a path below a directory is shown: the directory as it was written,
/// then each name below it, joined as a path joins an entry onto its
/// directory.
pub open spec fn shown_below(dir_shown: Seq<u8>, names: Seq<Seq<u8>>) -> Seq<u8>
    decreases names.len(),
{
    if names.len() == 0 {
        dir_shown
    } else {
        pushed_bytes(shown_below(dir_shown, names.drop_last()), names.last())
    }
}

/// Whether a path lying in the directory `root`, written as `root_shown`, is
/// shown as that directory followed by the names below it.
pub open spec fn shown_from(root_shown: Seq<u8>, root: Seq<Seq<u8>>, p: FsPath) -> bool {
    p.shown@ == shown_below(root_shown, p@.skip(root.len() as int))
}

/// A recursive walk of a directory, driven by listings of its directories:
/// it hands out the next directory to list and takes that directory's
/// listing, walking into directories, leaving symbolic links alone and
/// collecting the files whose extension is wanted.
pub struct DirWalk {
    root: FsPath,
    exts: Vec<String>,
    wanted: Vec<String>,
    pending: Vec<FsPath>,
    found: Vec<FsPath>,
    current: Option<FsPath>,
    listed: Ghost<Listings>,
}

impl DirWalk {
    /// The directory walked.
    pub closed spec fn root_view(&self) -> Seq<Seq<u8>> {
        self.root@
    }

    /// How the directory walked was written.
    pub closed spec fn root_shown_view(&self) -> Seq<u8> {
        self.root.shown@
    }

    /// Whether every path the walk holds is shown as the walked directory
    /// followed by the names below it.
    closed spec fn shown_kept(&self) -> bool {
        &&& forall|k: int|
            0 <= k < self.pending@.len() ==> shown_from(self.root.shown@, self.root@, #[trigger] self.pending@[k])
        &&& forall|k: int|
            0 <= k < self.found@.len() ==> shown_from(self.root.shown@, self.root@, #[trigger] self.found@[k])
        &&& self.current matches Some(d) ==> shown_from(self.root.shown@, self.root@, d)
    }

    /// The extensions asked for.
    pub closed spec fn exts_view(&self) -> Seq<Seq<char>> {
        strings_view(self.exts@)
    }

    /// The extensions wanted, in lowercase.
    pub closed spec fn wanted_view(&self) -> Seq<Seq<char>> {
        strings_view(self.wanted@)
    }

    /// The directories still to list.
    pub closed spec fn pending_view(&self) -> Seq<Seq<Seq<u8>>> {
        paths_view(self.pending@)
    }

    /// The directory handed out and not yet listed, if any.
    pub closed spec fn current_view(&self) -> Option<Seq<Seq<u8>>> {
        match self.current {
            Some(d) => Some(d@),
            None => None,
        }
    }

    /// The directories listed, each with its listing.
    pub closed spec fn listed_view(&self) -> Listings {
        self.listed@
    }

    /// The files collected so far.
    pub closed spec fn found_view(&self) -> Seq<Seq<Seq<u8>>> {
        paths_view(self.found@)
    }

    /// Whether a path is one the walk knows: to list, being listed, listed, or collected.
    closed spec fn known(&self, p: Seq<Seq<u8>>) -> bool {
        self.pending_view().contains(p) || listed_dirs(self.listed@).contains(p) || self.found_view().contains(p)
            || self.current_view() == Some(p)
    }

    /// What a walk keeps true: no path is known twice; every known path lies
    /// in the walked directory and, but for it, is a named entry of a listed
    /// directory; the files collected are exactly the entries of listed
    /// directories that the walk collects; every directory walked into is to
    /// list, being listed or listed, and each of those is the walked
    /// directory or was walked into; every path is shown as the walked
    /// directory followed by the names below it.
    pub closed spec fn well_formed(&self) -> bool {
        let pend = self.pending_view();
        let dirs = listed_dirs(self.listed@);
        let found = self.found_view();
        let wanted = self.wanted_view();
        &&& pend.no_duplicates()
        &&& dirs.no_duplicates()
        &&& found.no_duplicates()
        &&& forall|p: Seq<Seq<u8>>| !(pend.contains(p) && dirs.contains(p))
        &&& forall|p: Seq<Seq<u8>>| !(pend.contains(p) && found.contains(p))
        &&& forall|p: Seq<Seq<u8>>| !(dirs.contains(p) && found.contains(p))
        &&& self.current_view() matches Some(d) ==> !pend.contains(d) && !dirs.contains(d) && !found.contains(d)
        &&& forall|p: Seq<Seq<u8>>| #[trigger] self.known(p) ==> is_prefix_of(self.root@, p) && (p == self.root@ || (
            p.len() > self.root@.len() && dirs.contains(p.drop_last()) && part_rank(p.last()) == 4))
        &&& forall|p: Seq<Seq<u8>>| found.contains(p) <==> reached_by(self.listed@, wanted, EntryAction::Collect, p)
        &&& forall|p: Seq<Seq<u8>>|
            reached_by(self.listed@, wanted, EntryAction::Descend, p) ==> pend.contains(p) || dirs.contains(p)
                || self.current_view() == Some(p)
        &&& forall|p: Seq<Seq<u8>>|
            pend.contains(p) || dirs.contains(p) || self.current_view() == Some(p) ==> p == self.root@ || reached_by(
                self.listed@,
                wanted,
                EntryAction::Descend,
                p,
            )
        &&& self.known(self.root@)
        &&& wanted == wanted_extensions(strings_view(self.exts@))
        &&& self.shown_kept()
    }


    proof fn lemma_visit_keeps_walk(self, prior: DirWalk, dv: Seq<Seq<u8>>, entries: Seq<DirEntry>)
        requires
            prior.well_formed(),
            prior.current_view() == Some(dv),
            proper_listing(entries),
            self.current_view() is None,
            self.shown_kept(),
            self.root == prior.root,
            self.exts == prior.exts,
            self.wanted == prior.wanted,
            self.listed@ == prior.listed@.push((dv, entries_of(entries))),
            self.pending_view() == prior.pending_view() + children_with(
                dv,
                entries_of(entries),
                prior.wanted_view(),
                EntryAction::Descend,
            ),
            self.found_view() == prior.found_view() + children_with(
                dv,
                entries_of(entries),
                prior.wanted_view(),
                EntryAction::Collect,
            ),
        ensures
            self.well_formed(),
    {
        let es = entries_of(entries);
        let wanted = prior.wanted_view();
        let cd = children_with(dv, es, wanted, EntryAction::Descend);
        let cc = children_with(dv, es, wanted, EntryAction::Collect);
        let pend0 = prior.pending_view();
        let dirs0 = listed_dirs(prior.listed@);
        let found0 = prior.found_view();
        let pend = self.pending_view();
        let dirs = listed_dirs(self.listed@);
        let found = self.found_view();
        let root = self.root@;
        assert(prior.known(dv));
        assert(is_prefix_of(root, dv));
        assert(dirs =~= dirs0.push(dv));
        assert forall|i: int, j: int| 0 <= i < j < es.len() implies es[i].0 != es[j].0 by {
            assert(es[i].0 == entries[i].name@);
            assert(es[j].0 == entries[j].name@);
        }
        lemma_children_distinct(dv, es, wanted, EntryAction::Descend);
        lemma_children_distinct(dv, es, wanted, EntryAction::Collect);
        // Each new path is a named entry of `dv`, unknown to the walk so far.
        assert forall|p: Seq<Seq<u8>>| cd.contains(p) || cc.contains(p) implies p.len() == dv.len() + 1
            && p.drop_last() == dv && part_rank(p.last()) == 4 && !prior.known(p) by {
            lemma_children_contains(dv, es, wanted, EntryAction::Descend, p);
            lemma_children_contains(dv, es, wanted, EntryAction::Collect, p);
            let i = choose|i: int| 0 <= i < es.len() && (action_of(#[trigger] es[i], wanted) == EntryAction::Descend
                || action_of(es[i], wanted) == EntryAction::Collect) && p == dv.push(es[i].0);
            assert(es[i].0 == entries[i].name@);
            assert(part_rank(entries[i].name@) == 4);
            assert(p.drop_last() =~= dv);
            if prior.known(p) {
                assert(p != root);
                assert(dirs0.contains(p.drop_last()));
            }
        }
        assert forall|p: Seq<Seq<u8>>| !(cd.contains(p) && cc.contains(p)) by {
            if cd.contains(p) && cc.contains(p) {
                lemma_children_contains(dv, es, wanted, EntryAction::Descend, p);
                lemma_children_contains(dv, es, wanted, EntryAction::Collect, p);
                let i = choose|i: int| 0 <= i < es.len() && action_of(#[trigger] es[i], wanted) == EntryAction::Descend
                    && p == dv.push(es[i].0);
                let j = choose|j: int| 0 <= j < es.len() && action_of(#[trigger] es[j], wanted) == EntryAction::Collect
                    && p == dv.push(es[j].0);
                assert(dv.push(es[i].0).last() == es[i].0);
                assert(dv.push(es[j].0).last() == es[j].0);
                assert(i == j);
            }
        }
        assert forall|p: Seq<Seq<u8>>| pend.contains(p) <==> pend0.contains(p) || cd.contains(p) by {
            lemma_concat_contains(pend0, cd, p);
        }
        assert forall|p: Seq<Seq<u8>>| found.contains(p) <==> found0.contains(p) || cc.contains(p) by {
            lemma_concat_contains(found0, cc, p);
        }
        assert forall|p: Seq<Seq<u8>>| dirs.contains(p) <==> dirs0.contains(p) || p == dv by {
            lemma_push_contains(dirs0, dv, p);
        }
        assert forall|p: Seq<Seq<u8>>| !(pend0.contains(p) && cd.contains(p)) by {
            if cd.contains(p) {
                assert(!prior.known(p));
            }
        }
        assert forall|p: Seq<Seq<u8>>| !(found0.contains(p) && cc.contains(p)) by {
            if cc.contains(p) {
                assert(!prior.known(p));
            }
        }
        lemma_concat_distinct(pend0, cd);
        lemma_concat_distinct(found0, cc);
        assert(dirs.no_duplicates()) by {
            assert forall|i: int, j: int| 0 <= i < j < dirs.len() implies dirs[i] != dirs[j] by {
                if j == dirs.len() - 1 {
                    assert(dirs[i] == dirs0[i]);
                    assert(dirs0.contains(dirs[i]));
                } else {
                    assert(dirs[i] == dirs0[i]);
                    assert(dirs[j] == dirs0[j]);
                }
            }
        }
        assert forall|p: Seq<Seq<u8>>| #[trigger] self.known(p) implies is_prefix_of(root, p) && (p == root || (
            p.len() > root.len() && dirs.contains(p.drop_last()) && part_rank(p.last()) == 4)) by {
            if cd.contains(p) || cc.contains(p) {
                assert(p.take(root.len() as int) =~= dv.take(root.len() as int));
            } else {
                assert(prior.known(p));
            }
        }
        assert forall|p: Seq<Seq<u8>>| #![trigger reached_by(self.listed@, wanted, EntryAction::Collect, p)]
            found.contains(p) <==> reached_by(self.listed@, wanted, EntryAction::Collect, p) by {
            lemma_reached_push(prior.listed@, dv, es, wanted, EntryAction::Collect, p);
            lemma_children_contains(dv, es, wanted, EntryAction::Collect, p);
        }
        assert forall|p: Seq<Seq<u8>>| reached_by(self.listed@, wanted, EntryAction::Descend, p) implies pend.contains(p)
            || dirs.contains(p) || self.current_view() == Some(p) by {
            lemma_reached_push(prior.listed@, dv, es, wanted, EntryAction::Descend, p);
            lemma_children_contains(dv, es, wanted, EntryAction::Descend, p);
        }
        assert forall|p: Seq<Seq<u8>>|
            pend.contains(p) || dirs.contains(p) || self.current_view() == Some(p) implies p == root || reached_by(
                self.listed@,
                wanted,
                EntryAction::Descend,
                p,
            ) by {
            lemma_reached_push(prior.listed@, dv, es, wanted, EntryAction::Descend, p);
            if cd.contains(p) {
                lemma_children_contains(dv, es, wanted, EntryAction::Descend, p);
            }
        }
        assert(self.known(root)) by {
            assert(prior.known(root));
        }
        assert forall|p: Seq<Seq<u8>>| !(pend.contains(p) && dirs.contains(p)) by {
            if cd.contains(p) {
                assert(!prior.known(p));
                assert(p.len() == dv.len() + 1);
            }
        }
        assert forall|p: Seq<Seq<u8>>| !(pend.contains(p) && found.contains(p)) by {
            if cd.contains(p) || cc.contains(p) {
                assert(!prior.known(p));
            }
        }
        assert forall|p: Seq<Seq<u8>>| !(dirs.contains(p) && found.contains(p)) by {
            if cc.contains(p) {
                assert(!prior.known(p));
                assert(p.len() == dv.len() + 1);
            }
        }
    }

    /// Starts the walk of a directory with the extensions asked for; a path
    /// that is not a directory is an error that names it.
    pub fn start(dir: &FsPath, dir_is_dir: bool, exts: &Vec<String>) -> (r: Result<DirWalk, AppError>)
        ensures
            !dir_is_dir ==> (r matches Err(AppError::DirNotFound(p)) && p@ == dir@ && p.shown@ == dir.shown@),
            dir_is_dir ==> (r matches Ok(w) && w.well_formed() && w.root_view() == dir@ && w.pending_view() == seq![dir@]
                && w.listed_view().len() == 0 && w.found_view().len() == 0 && w.current_view() is None
                && w.root_shown_view() == dir.shown@ && w.exts_view() == strings_view(exts@) && w.wanted_view()
                == wanted_extensions(strings_view(exts@))),
    {
        if !dir_is_dir {
            return Err(AppError::DirNotFound(dir.duplicate()));
        }
        let wanted = extension_set(exts);
        let mut ext_copy: Vec<String> = Vec::new();
        let mut i: usize = 0;
        while i < exts.len()
            invariant
                i <= exts@.len(),
                strings_view(ext_copy@) == strings_view(exts@).take(i as int),
            decreases exts.len() - i,
        {
            let e = exts[i].clone();
            let ghost prev = strings_view(ext_copy@);
            ext_copy.push(e);
            assert(strings_view(ext_copy@) =~= prev.push(e@));
            i = i + 1;
            assert(strings_view(ext_copy@) =~= strings_view(exts@).take(i as int));
        }
        assert(strings_view(exts@).take(i as int) =~= strings_view(exts@));
        let mut pending: Vec<FsPath> = Vec::new();
        pending.push(dir.duplicate());
        let w = DirWalk {
            root: dir.duplicate(),
            exts: ext_copy,
            wanted,
            pending,
            found: Vec::new(),
            current: None,
            listed: Ghost(Seq::empty()),
        };
        assert(w.pending_view() =~= seq![dir@]);
        assert(dir@.skip(dir@.len() as int) =~= Seq::<Seq<u8>>::empty());
        assert(shown_from(w.root.shown@, w.root@, w.pending@[0]));
        assert(w.found_view() =~= Seq::<Seq<Seq<u8>>>::empty());
        assert(listed_dirs(w.listed@) =~= Seq::<Seq<Seq<u8>>>::empty());
        assert(w.pending_view().contains(dir@)) by {
            assert(w.pending_view()[0] == dir@);
        }
        assert forall|p: Seq<Seq<u8>>| #[trigger] w.known(p) implies is_prefix_of(w.root@, p) && p == w.root@ by {
            if w.pending_view().contains(p) {
                assert(p == dir@);
            }
            assert(w.root@.take(w.root@.len() as int) =~= w.root@);
        }
        Ok(w)
    }

    /// The next directory to list, if any is left: the walk then waits for
    /// its listing.
    pub fn next_dir(&mut self) -> (r: Option<FsPath>)
        requires
            old(self).well_formed(),
            old(self).current_view() is None,
        ensures
            final(self).well_formed(),
            final(self).root_view() == old(self).root_view(),
            final(self).root_shown_view() == old(self).root_shown_view(),
            final(self).exts_view() == old(self).exts_view(),
            final(self).wanted_view() == old(self).wanted_view(),
            final(self).listed_view() == old(self).listed_view(),
            final(self).found_view() == old(self).found_view(),
            old(self).pending_view().len() == 0 ==> r is None && final(self).pending_view().len() == 0
                && final(self).current_view() is None,
            old(self).pending_view().len() > 0 ==> (r matches Some(d) && d@ == old(self).pending_view().last()
                && shown_from(old(self).root_shown_view(), old(self).root_view(), d)
                && final(self).current_view() == Some(d@) && final(self).pending_view()
                == old(self).pending_view().drop_last()),
    {
        if self.pending.len() == 0 {
            return None;
        }
        match self.pending.pop() {
            None => None,
            Some(d) => {
                let ghost before = old(self).pending_view();
                assert(before =~= self.pending_view().push(d@));
                let handed = d.duplicate();
                self.current = Some(d);
                proof {
                    assert forall|p: Seq<Seq<u8>>| #[trigger] self.known(p) implies old(self).known(p) by {
                        if self.pending_view().contains(p) {
                            let k = choose|k: int| 0 <= k < self.pending_view().len() && self.pending_view()[k] == p;
                            assert(before[k] == p);
                        }
                        if self.current_view() == Some(p) {
                            assert(before[before.len() - 1] == p);
                        }
                    }
                    assert(self.known(self.root@)) by {
                        assert(old(self).known(self.root@));
                        if before.contains(self.root@) {
                            let k = choose|k: int| 0 <= k < before.len() && before[k] == self.root@;
                            if k < before.len() - 1 {
                                assert(self.pending_view()[k] == self.root@);
                            }
                        }
                    }
                    assert forall|p: Seq<Seq<u8>>|
                        reached_by(self.listed@, self.wanted_view(), EntryAction::Descend, p) implies self.pending_view().contains(p)
                            || listed_dirs(self.listed@).contains(p) || self.current_view() == Some(p) by {
                        if before.contains(p) {
                            let k = choose|k: int| 0 <= k < before.len() && before[k] == p;
                            if k < before.len() - 1 {
                                assert(self.pending_view()[k] == p);
                            }
                        }
                    }
                    assert(before.no_duplicates());
                    assert(self.pending_view().no_duplicates()) by {
                        assert forall|i: int, j: int| 0 <= i < j < self.pending_view().len() implies
                            self.pending_view()[i] != self.pending_view()[j] by {
                            assert(before[i] == self.pending_view()[i]);
                            assert(before[j] == self.pending_view()[j]);
                        }
                    }
                    assert forall|p: Seq<Seq<u8>>| self.pending_view().contains(p) implies before.contains(p) by {
                        let k = choose|k: int| 0 <= k < self.pending_view().len() && self.pending_view()[k] == p;
                        assert(before[k] == p);
                    }
                    assert(!self.pending_view().contains(d@)) by {
                        if self.pending_view().contains(d@) {
                            let k = choose|k: int| 0 <= k < self.pending_view().len() && self.pending_view()[k] == d@;
                            assert(before[k] == before[before.len() - 1]);
                        }
                    }
                    assert(before.contains(d@)) by {
                        assert(before[before.len() - 1] == d@);
                    }
                    let pend = self.pending_view();
                    let dirs = listed_dirs(self.listed@);
                    let found = self.found_view();
                    assert(forall|p: Seq<Seq<u8>>| !(pend.contains(p) && dirs.contains(p)));
                    assert(forall|p: Seq<Seq<u8>>| !(pend.contains(p) && found.contains(p)));
                    assert(!pend.contains(d@) && !dirs.contains(d@) && !found.contains(d@));
                }
                assert(self.well_formed());
                Some(handed)
            },
        }
    }

    /// Takes the listing of the directory handed out last: walks into its
    /// directories and collects its wanted files; the directory counts as
    /// listed from then on.
    pub fn visit(&mut self, entries: Vec<DirEntry>)
        requires
            old(self).well_formed(),
            old(self).current_view() is Some,
            proper_listing(entries@),
        ensures
            final(self).well_formed(),
            final(self).current_view() is None,
            final(self).root_view() == old(self).root_view(),
            final(self).root_shown_view() == old(self).root_shown_view(),
            final(self).exts_view() == old(self).exts_view(),
            final(self).wanted_view() == old(self).wanted_view(),
            final(self).listed_view() == old(self).listed_view().push(
                (old(self).current_view()->0, entries_of(entries@)),
            ),
            final(self).pending_view() == old(self).pending_view() + children_with(
                old(self).current_view()->0,
                entries_of(entries@),
                old(self).wanted_view(),
                EntryAction::Descend,
            ),
            final(self).found_view() == old(self).found_view() + children_with(
                old(self).current_view()->0,
                entries_of(entries@),
                old(self).wanted_view(),
                EntryAction::Collect,
            ),
    {
        let d = match self.current.take() {
            Some(d) => d,
            None => return,
        };
        let ghost dv = d@;
        let ghost es = entries_of(entries@);
        let ghost wanted = self.wanted_view();
        let ghost pend0 = self.pending_view();
        let ghost found0 = self.found_view();
        let ghost rs = self.root.shown@;
        let ghost rv = self.root@;
        assert(old(self).known(dv));
        let mut j: usize = 0;
        assert(es.take(0) =~= Seq::<(Seq<u8>, bool, bool)>::empty());
        assert(pend0 + children_with(dv, es.take(0), wanted, EntryAction::Descend) =~= pend0);
        assert(found0 + children_with(dv, es.take(0), wanted, EntryAction::Collect) =~= found0);
        while j < entries.len()
            invariant
                j <= entries@.len(),
                es == entries_of(entries@),
                dv == d@,
                wanted == self.wanted_view(),
                wanted == old(self).wanted_view(),
                self.root == old(self).root,
                self.exts == old(self).exts,
                self.wanted == old(self).wanted,
                self.listed == old(self).listed,
                self.current is None,
                self.pending_view() == pend0 + children_with(dv, es.take(j as int), wanted, EntryAction::Descend),
                self.found_view() == found0 + children_with(dv, es.take(j as int), wanted, EntryAction::Collect),
                rs == self.root.shown@,
                rv == self.root@,
                rv.len() <= dv.len(),
                shown_from(rs, rv, d),
                forall|k: int| 0 <= k < self.pending@.len() ==> shown_from(rs, rv, #[trigger] self.pending@[k]),
                forall|k: int| 0 <= k < self.found@.len() ==> shown_from(rs, rv, #[trigger] self.found@[k]),
            decreases entries.len() - j,
        {
            let e = &entries[j];
            let a = classify_entry(&e.name, e.is_symlink, e.is_dir, &self.wanted);
            assert(es.take(j + 1).drop_last() =~= es.take(j as int));
            assert(es.take(j + 1).last() == entry_of(entries@[j as int]));
            match a {
                EntryAction::Descend => {
                    let c = child_path(&d, &e.name);
                    proof {
                        lemma_child_shown(rs, rv, &d, &c, e.name@);
                    }
                    let ghost prev_values = self.pending@;
                    let ghost prev = self.pending_view();
                    self.pending.push(c);
                    assert(self.pending_view() =~= prev.push(dv.push(e.name@)));
                    assert forall|k: int| 0 <= k < self.pending@.len() implies shown_from(rs, rv, #[trigger] self.pending@[k]) by {
                        if k < prev_values.len() {
                            assert(self.pending@[k] == prev_values[k]);
                        }
                    }
                },
                EntryAction::Collect => {
                    let c = child_path(&d, &e.name);
                    proof {
                        lemma_child_shown(rs, rv, &d, &c, e.name@);
                    }
                    let ghost prev_values = self.found@;
                    let ghost prev = self.found_view();
                    self.found.push(c);
                    assert(self.found_view() =~= prev.push(dv.push(e.name@)));
                    assert forall|k: int| 0 <= k < self.found@.len() implies shown_from(rs, rv, #[trigger] self.found@[k]) by {
                        if k < prev_values.len() {
                            assert(self.found@[k] == prev_values[k]);
                        }
                    }
                },
                EntryAction::Skip => {},
            }
            j = j + 1;
        }
        assert(es.take(j as int) =~= es);
        self.listed = Ghost(self.listed@.push((dv, es)));
        proof {
            self.lemma_visit_keeps_walk(*old(self), dv, entries@);
        }
    }

    /// Ends the walk once every directory walked into has been listed: the
    /// files collected, in path order, or, when there are none, an error that
    /// names the directory and the extensions asked for.
    pub fn finish(self) -> (r: Result<Vec<FsPath>, AppError>)
        requires
            self.well_formed(),
            self.pending_view().len() == 0,
            self.current_view() is None,
        ensures
            self.found_view().len() == 0 ==> (r matches Err(AppError::EmptyDir { dir: d, exts: e }) && d@
                == self.root_view() && d.shown@ == self.root_shown_view() && e@ == joined(
                self.exts_view(),
                seq![','],
            )),
            self.found_view().len() > 0 ==> (r matches Ok(v) && paths_view(v@) == self.found_view().sort_by(
                path_order(),
            )),
            r matches Ok(v) ==> forall|i: int|
                0 <= i < v@.len() ==> shown_from(self.root_shown_view(), self.root_view(), #[trigger] v@[i]),
            r matches Ok(v) ==> sorted_by(paths_view(v@), path_order()) && paths_view(v@).no_duplicates(),
    {
        let ghost found = self.found@;
        let ghost rs = self.root.shown@;
        let ghost rv = self.root@;
        let r = gathered_files(&self.root, &self.exts, self.found);
        proof {
            if r is Ok {
                let v = r->Ok_0;
                assert forall|i: int| 0 <= i < v@.len() implies shown_from(rs, rv, #[trigger] v@[i]) by {
                    assert(found.contains(v@[i]));
                    let k = choose|k: int| 0 <= k < found.len() && found[k] == v@[i];
                    assert(shown_from(rs, rv, found[k]));
                }
            }
        }
        r
    }
}

/// Once every directory walked into has been listed, the walk has collected
/// exactly the entries of the listed directories that it takes, each once,
/// and none of them is the walked directory itself; every directory it
/// walked into was listed, the walked directory among them; every directory
/// listed is the walked directory or one it walked into; and the files come
/// out in path order, each once.
pub proof fn finished_walk_collects_exactly_the_wanted_files(w: DirWalk)
    requires
        w.well_formed(),
        w.pending_view().len() == 0,
        w.current_view() is None,
    ensures
        forall|p: Seq<Seq<u8>>|
            w.found_view().contains(p) <==> reached_by(w.listed_view(), w.wanted_view(), EntryAction::Collect, p),
        forall|p: Seq<Seq<u8>>|
            #[trigger] w.found_view().contains(p) ==> is_prefix_of(w.root_view(), p) && p.len() > w.root_view().len(),
        forall|p: Seq<Seq<u8>>|
            reached_by(w.listed_view(), w.wanted_view(), EntryAction::Descend, p) ==> listed_dirs(
                w.listed_view(),
            ).contains(p),
        listed_dirs(w.listed_view()).contains(w.root_view()),
        forall|d: Seq<Seq<u8>>|
            #[trigger] listed_dirs(w.listed_view()).contains(d) ==> d == w.root_view() || reached_by(
                w.listed_view(),
                w.wanted_view(),
                EntryAction::Descend,
                d,
            ),
        w.found_view().no_duplicates(),
        sorted_by(w.found_view().sort_by(path_order()), path_order()),
        w.found_view().sort_by(path_order()).no_duplicates(),
        forall|p: Seq<Seq<u8>>|
            w.found_view().sort_by(path_order()).contains(p) <==> w.found_view().contains(p),
{
    broadcast use vstd::seq_lib::group_to_multiset_ensures;

    let root = w.root@;
    let dirs = listed_dirs(w.listed@);
    let found = w.found_view();
    assert(!w.pending_view().contains(root));
    assert forall|p: Seq<Seq<u8>>| #[trigger] found.contains(p) implies is_prefix_of(root, p) && p.len()
        > root.len() by {
        assert(w.known(p));
        assert(reached_by(w.listed@, w.wanted_view(), EntryAction::Collect, p));
        let (k, i) = choose|k: int, i: int|
            0 <= k < w.listed@.len() && 0 <= i < w.listed@[k].1.len() && action_of(
                #[trigger] w.listed@[k].1[i],
                w.wanted_view(),
            ) == EntryAction::Collect && p == w.listed@[k].0.push(w.listed@[k].1[i].0);
        let d = w.listed@[k].0;
        assert(dirs[k] == d);
        assert(dirs.contains(d));
        assert(w.known(d));
    }
    assert(dirs.contains(root)) by {
        assert(w.known(root));
    }
    path_order_is_total();
    found.lemma_sort_by_ensures(path_order());
    let sorted = found.sort_by(path_order());
    found.lemma_multiset_has_no_duplicates();
    sorted.lemma_multiset_has_no_duplicates_conv();
    assert forall|p: Seq<Seq<u8>>| sorted.contains(p) <==> found.contains(p) by {
        assert(sorted.to_multiset().count(p) == found.to_multiset().count(p));
    }
}

/// Whether a walk walks into a directory does not depend on the extensions
/// asked for, and a walk that wants fewer extensions collects fewer files:
/// on the same listings, every file collected with the smaller set of
/// extensions is collected with the larger one.
pub proof fn fewer_extensions_collect_a_subset(
    listed: Listings,
    fewer: Seq<Seq<char>>,
    more: Seq<Seq<char>>,
    p: Seq<Seq<u8>>,
)
    requires
        forall|x: Seq<char>| fewer.contains(x) ==> more.contains(x),
    ensures
        reached_by(listed, fewer, EntryAction::Descend, p) == reached_by(listed, more, EntryAction::Descend, p),
        reached_by(listed, fewer, EntryAction::Collect, p) ==> reached_by(listed, more, EntryAction::Collect, p),
{
    if reached_by(listed, fewer, EntryAction::Descend, p) {
        let (k, i) = choose|k: int, i: int|
            0 <= k < listed.len() && 0 <= i < listed[k].1.len() && action_of(#[trigger] listed[k].1[i], fewer)
                == EntryAction::Descend && p == listed[k].0.push(listed[k].1[i].0);
        assert(action_of(listed[k].1[i], more) == EntryAction::Descend);
    }
    if reached_by(listed, more, EntryAction::Descend, p) {
        let (k, i) = choose|k: int, i: int|
            0 <= k < listed.len() && 0 <= i < listed[k].1.len() && action_of(#[trigger] listed[k].1[i], more)
                == EntryAction::Descend && p == listed[k].0.push(listed[k].1[i].0);
        assert(action_of(listed[k].1[i], fewer) == EntryAction::Descend);
    }
    if reached_by(listed, fewer, EntryAction::Collect, p) {
        let (k, i) = choose|k: int, i: int|
            0 <= k < listed.len() && 0 <= i < listed[k].1.len() && action_of(#[trigger] listed[k].1[i], fewer)
                == EntryAction::Collect && p == listed[k].0.push(listed[k].1[i].0);
        assert(action_of(listed[k].1[i], more) == EntryAction::Collect);
    }
}

/// Of two finished walks over the same listings, the first wanting only
/// extensions that the second wants too: the first's files, in path order,
/// are exactly the second's files, in path order, whose extension (in
/// lowercase) the first wants.
pub proof fn fewer_extensions_give_the_filtered_list(a: DirWalk, b: DirWalk)
    requires
        a.well_formed(),
        b.well_formed(),
        a.pending_view().len() == 0,
        b.pending_view().len() == 0,
        a.current_view() is None,
        b.current_view() is None,
        a.listed_view() == b.listed_view(),
        forall|x: Seq<char>| a.wanted_view().contains(x) ==> b.wanted_view().contains(x),
    ensures
        a.found_view().sort_by(path_order()) == b.found_view().sort_by(path_order()).filter(
            |p: Seq<Seq<u8>>| a.wanted_view().contains(lowercased(extension_text(p.last()))),
        ),
{
    broadcast use vstd::seq_lib::group_to_multiset_ensures;

    let listed = a.listed@;
    let wa = a.wanted_view();
    let wb = b.wanted_view();
    let pred = |p: Seq<Seq<u8>>| wa.contains(lowercased(extension_text(p.last())));
    let fa = a.found_view();
    let fb = b.found_view();
    assert forall|p: Seq<Seq<u8>>| fa.contains(p) <==> fb.contains(p) && pred(p) by {
        if reached_by(listed, wa, EntryAction::Collect, p) {
            let (k, i) = choose|k: int, i: int|
                0 <= k < listed.len() && 0 <= i < listed[k].1.len() && action_of(#[trigger] listed[k].1[i], wa)
                    == EntryAction::Collect && p == listed[k].0.push(listed[k].1[i].0);
            assert(action_of(listed[k].1[i], wb) == EntryAction::Collect);
            assert(p.last() == listed[k].1[i].0);
        }
        if reached_by(listed, wb, EntryAction::Collect, p) && pred(p) {
            let (k, i) = choose|k: int, i: int|
                0 <= k < listed.len() && 0 <= i < listed[k].1.len() && action_of(#[trigger] listed[k].1[i], wb)
                    == EntryAction::Collect && p == listed[k].0.push(listed[k].1[i].0);
            assert(p.last() == listed[k].1[i].0);
            assert(action_of(listed[k].1[i], wa) == EntryAction::Collect);
        }
    }
    path_order_is_total();
    fa.lemma_sort_by_ensures(path_order());
    fb.lemma_sort_by_ensures(path_order());
    let sa = fa.sort_by(path_order());
    let sb = fb.sort_by(path_order());
    fa.lemma_multiset_has_no_duplicates();
    sa.lemma_multiset_has_no_duplicates_conv();
    fb.lemma_multiset_has_no_duplicates();
    sb.lemma_multiset_has_no_duplicates_conv();
    assert forall|p: Seq<Seq<u8>>| sa.contains(p) <==> fa.contains(p) by {
        assert(sa.to_multiset().count(p) == fa.to_multiset().count(p));
    }
    assert forall|p: Seq<Seq<u8>>| sb.contains(p) <==> fb.contains(p) by {
        assert(sb.to_multiset().count(p) == fb.to_multiset().count(p));
    }
    lemma_filter_keeps_order(sb, pred, path_order());
    let g = sb.filter(pred);
    assert forall|p: Seq<Seq<u8>>| sa.contains(p) <==> g.contains(p) by {}
    lemma_same_members_same_multiset(sa, g);
    vstd::seq_lib::lemma_sorted_unique(sa, g, path_order());
}

} // verus!
