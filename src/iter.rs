use vstd::prelude::*;

use crate::tree::{Content, Entry};
use crate::walk::{
    first_file_named, is_chain, is_file_named, lemma_visits_step, lemma_walk_chains, render,
    visits_of, visits_seq, walk,
};

verus! {

/// A cursor over one list of sibling entries: the ones still to come at
/// that depth are `entries[pos..]`.
#[derive(Clone, Copy)]
struct Frame<'a> {
    entries: &'a Vec<Entry>,
    pos: usize,
}

/// A resumable pre-order walk over a `Content`.
///
/// It keeps one cursor per open depth, the top-level list at the bottom,
/// and the chain of entries from the top level down to the entry it
/// produced last. A folder stays on that chain while its entries are
/// walked; a file leaves it as soon as the walk moves on.
pub struct EntryIter<'a> {
    frames: Vec<Frame<'a>>,
    path: Vec<&'a Entry>,
    roots: Ghost<Seq<Entry>>,
    produced: Ghost<nat>,
}

/// The visits still to come from the lowest `n` cursors: those of the
/// deepest of them first, each below the part of `path` above its depth.
spec fn pending(frames: Seq<Frame>, path: Seq<Entry>, n: int) -> Seq<Seq<Entry>>
    decreases n,
{
    if n <= 0 {
        Seq::empty()
    } else {
        visits_seq(path.take(n - 1), frames[n - 1].entries@.skip(frames[n - 1].pos as int))
            + pending(frames, path, n - 1)
    }
}

/// Two states whose lowest `n` cursors agree, and whose chains agree above
/// the deepest of them, have the same visits to come from those cursors.
proof fn lemma_pending_agree(
    f1: Seq<Frame>,
    p1: Seq<Entry>,
    f2: Seq<Frame>,
    p2: Seq<Entry>,
    n: int,
)
    requires
        n <= f1.len(),
        n <= f2.len(),
        n - 1 <= p1.len(),
        n - 1 <= p2.len(),
        forall|i: int| 0 <= i < n ==> f1[i] == f2[i],
        forall|i: int| 0 <= i < n - 1 ==> p1[i] == p2[i],
    ensures
        pending(f1, p1, n) == pending(f2, p2, n),
    decreases n,
{
    if n > 0 {
        assert(p1.take(n - 1) =~= p2.take(n - 1));
        lemma_pending_agree(f1, p1, f2, p2, n - 1);
    }
}

/// Producing the next sibling `e` of the deepest cursor: the visit that
/// comes is the chain extended by `e`, and what remains is the walk below
/// `e` (for a folder, through a new cursor) followed by the rest as before.
proof fn lemma_descend(f0: Seq<Frame>, p0: Seq<Entry>, fr: Seq<Frame>, p1: Seq<Entry>, n: int)
    requires
        n == f0.len(),
        n >= 1,
        p0.len() == n - 1,
        f0[n - 1].pos < f0[n - 1].entries@.len(),
        p1 == p0.push(f0[n - 1].entries@[f0[n - 1].pos as int]),
        fr.len() == if p1.last() is Folder {
            n + 1
        } else {
            n
        },
        forall|i: int| 0 <= i < n - 1 ==> fr[i] == f0[i],
        fr[n - 1].entries == f0[n - 1].entries,
        fr[n - 1].pos == f0[n - 1].pos + 1,
        p1.last() is Folder ==> fr[n].entries@ == p1.last().children() && fr[n].pos == 0,
    ensures
        pending(f0, p0, n) == seq![p1] + pending(fr, p1, fr.len() as int),
{
    let es = f0[n - 1].entries@;
    let pos = f0[n - 1].pos as int;
    let e = es[pos];
    assert(p0.take(n - 1) =~= p0);
    assert(p1.take(n - 1) =~= p0);
    lemma_visits_step(p0, es, pos);
    lemma_pending_agree(f0, p0, fr, p1, n - 1);
    let after = visits_seq(p0, es.skip(pos + 1)) + pending(f0, p0, n - 1);
    assert(pending(fr, p1, n) == after);
    if let Entry::Folder(folder) = e {
        assert(p1.take(n) =~= p1);
        assert(folder.entries@.skip(0) =~= folder.entries@);
        assert(pending(fr, p1, n + 1) == visits_seq(p1, folder.entries@) + after);
        assert(visits_of(p0, e) == seq![p1] + visits_seq(p1, folder.entries@));
        assert(pending(f0, p0, n) =~= seq![p1] + pending(fr, p1, n + 1));
    } else {
        assert(visits_of(p0, e) == seq![p1]);
        assert(pending(f0, p0, n) =~= seq![p1] + pending(fr, p1, n));
    }
}

/// Closing an exhausted deepest cursor, and its folder on the chain, leaves
/// what remains unchanged.
proof fn lemma_ascend(f0: Seq<Frame>, p0: Seq<Entry>, fr: Seq<Frame>, p1: Seq<Entry>, n: int)
    requires
        n == f0.len(),
        n >= 1,
        p0.len() == n - 1,
        f0[n - 1].pos == f0[n - 1].entries@.len(),
        fr == f0.take(n - 1),
        p1 == if n > 1 {
            p0.drop_last()
        } else {
            p0
        },
    ensures
        pending(f0, p0, n) == pending(fr, p1, n - 1),
{
    let es = f0[n - 1].entries@;
    assert(es.skip(es.len() as int) =~= Seq::<Entry>::empty());
    assert(visits_seq(p0.take(n - 1), es.skip(es.len() as int)) =~= Seq::<Seq<Entry>>::empty());
    assert(pending(f0, p0, n) =~= pending(f0, p0, n - 1));
    lemma_pending_agree(f0, p0, fr, p1, n - 1);
}

/// Where the walk from index `k` on starts with `v`, `v` is the visit at
/// `k` and the rest is the walk from `k + 1` on.
proof fn lemma_skip_next(w: Seq<Seq<Entry>>, k: int, v: Seq<Entry>, rest: Seq<Seq<Entry>>)
    requires
        0 <= k <= w.len(),
        w.skip(k) == seq![v] + rest,
    ensures
        k < w.len(),
        w[k] == v,
        w.skip(k + 1) == rest,
{
    assert(w.skip(k)[0] == v);
    assert(w.skip(k).len() == rest.len() + 1);
    assert forall|i: int| 0 <= i < rest.len() implies #[trigger] rest[i] == w.skip(k + 1)[i] by {
        assert(w.skip(k)[i + 1] == rest[i]);
    }
    assert(w.skip(k + 1) =~= rest);
}

impl<'a> EntryIter<'a> {
    /// The top-level entries of the tree being walked.
    pub closed spec fn roots(&self) -> Seq<Entry> {
        self.roots@
    }

    /// How many entries the walk has produced so far.
    pub closed spec fn produced(&self) -> nat {
        self.produced@
    }

    /// The walk has reported that no entries are left.
    pub closed spec fn finished(&self) -> bool {
        self.frames@.len() == 0
    }

    /// The chain of entries from the top level down to the entry produced
    /// last; empty before the first entry and after the end.
    pub closed spec fn path_view(&self) -> Seq<Entry> {
        self.path@.map_values(|e: &Entry| *e)
    }

    /// The state is one that the walk over `roots()` reaches after
    /// producing `produced()` entries.
    pub closed spec fn wf(&self) -> bool {
        let w = walk(self.roots());
        let n = self.frames@.len();
        let p = self.path_view();
        &&& self.produced() <= w.len()
        &&& pending(self.frames@, p, n as int) == w.skip(self.produced() as int)
        &&& forall|i: int|
            0 <= i < n ==> (#[trigger] self.frames@[i]).pos <= self.frames@[i].entries@.len()
        &&& n == 0 ==> p.len() == 0
        &&& n > 0 ==> (p.len() + 1 == n || (p.len() == n && p.last() is File))
        &&& forall|i: int| 0 <= i < p.len() && i + 1 < n ==> #[trigger] p[i] is Folder
        &&& self.produced() == 0 ==> p.len() == 0
        &&& self.produced() > 0 && n > 0 ==> p == w[self.produced() - 1]
    }

    /// Produces the next entry of the pre-order walk: a folder comes before
    /// the entries below it, and siblings come in their order. Returns
    /// `None` once every entry has been produced, and again on every later
    /// call.
    pub fn next(&mut self) -> (r: Option<&'a Entry>)
        requires
            old(self).wf(),
        ensures
            final(self).wf(),
            final(self).roots() == old(self).roots(),
            ({
                let w = walk(old(self).roots());
                let k = old(self).produced();
                if k < w.len() {
                    &&& final(self).produced() == k + 1
                    &&& !final(self).finished()
                    &&& final(self).path_view() == w[k as int]
                    &&& is_chain(final(self).roots(), final(self).path_view())
                    &&& r is Some
                    &&& *r->Some_0 == final(self).path_view().last()
                } else {
                    &&& r is None
                    &&& final(self).produced() == k
                    &&& final(self).finished()
                    &&& final(self).path_view().len() == 0
                }
            }),
            old(self).finished() ==> r is None && *final(self) == *old(self),
    {
        if self.frames.len() == 0 {
            proof {
                let w = walk(self.roots());
                assert(pending(self.frames@, self.path_view(), 0) == Seq::<Seq<Entry>>::empty());
                assert(w.skip(self.produced() as int).len() == 0);
            }
            return None;
        }
        let ghost w = walk(self.roots());
        let ghost k = self.produced();
        // A file has nothing below it: it leaves the chain as the walk moves on.
        if self.path.len() > 0 {
            let last: &Entry = self.path[self.path.len() - 1];
            if let Entry::File(_) = last {
                let ghost p0 = self.path_view();
                self.path.pop();
                proof {
                    let n = self.frames@.len() as int;
                    assert(self.path_view() =~= p0.drop_last());
                    lemma_pending_agree(self.frames@, p0, self.frames@, self.path_view(), n);
                }
            }
        }
        loop
            invariant
                self.roots() == old(self).roots(),
                !old(self).finished(),
                k == old(self).produced(),
                self.produced() == k,
                w == walk(self.roots()),
                k <= w.len(),
                self.frames@.len() >= 1,
                self.path_view().len() + 1 == self.frames@.len(),
                forall|i: int| 0 <= i < self.path_view().len() ==> #[trigger] self.path_view()[i] is Folder,
                forall|i: int|
                    0 <= i < self.frames@.len() ==> (#[trigger] self.frames@[i]).pos
                        <= self.frames@[i].entries@.len(),
                pending(self.frames@, self.path_view(), self.frames@.len() as int) == w.skip(k as int),
            decreases self.frames@.len(),
        {
            let ghost f0 = self.frames@;
            let ghost p0 = self.path_view();
            let ghost n = f0.len() as int;
            let f = self.frames.pop().unwrap();
            if f.pos < f.entries.len() {
                let e: &'a Entry = &f.entries[f.pos];
                self.frames.push(Frame { entries: f.entries, pos: f.pos + 1 });
                match e {
                    Entry::Folder(folder) => {
                        self.frames.push(Frame { entries: &folder.entries, pos: 0 });
                    },
                    Entry::File(_) => {},
                }
                self.path.push(e);
                self.produced = Ghost((k + 1) as nat);
                proof {
                    let p1 = self.path_view();
                    assert(p1 =~= p0.push(*e));
                    lemma_descend(f0, p0, self.frames@, p1, n);
                    let fr = self.frames@;
                    lemma_skip_next(w, k as int, p1, pending(fr, p1, fr.len() as int));
                    lemma_walk_chains(self.roots(), k as int);
                    assert forall|i: int| 0 <= i < fr.len() implies (#[trigger] fr[i]).pos
                        <= fr[i].entries@.len() by {
                        if i < n - 1 {
                            assert(fr[i] == f0[i]);
                        }
                    }
                    assert forall|i: int| 0 <= i < p1.len() && i + 1 < fr.len() implies #[trigger] p1[i] is Folder by {
                        if i < n - 1 {
                            assert(p1[i] == p0[i]);
                        }
                    }
                }
                return Some(e);
            }
            // This list is done: its folder, if it has one, leaves the chain.
            self.path.pop();
            proof {
                let p1 = self.path_view();
                if n > 1 {
                    assert(p1 =~= p0.drop_last());
                } else {
                    assert(p1 =~= p0);
                }
                lemma_ascend(f0, p0, self.frames@, p1, n);
            }
            if self.frames.len() == 0 {
                proof {
                    assert(w.skip(k as int).len() == 0);
                }
                return None;
            }
        }
    }

    /// Walks on to the first file named `filename` and returns its chain
    /// rendered with `separator`, or `None` when no file of that name is
    /// left; a folder of that name does not count.
    pub fn find_file(&mut self, filename: &str, separator: &str) -> (r: Option<String>)
        requires
            old(self).wf(),
        ensures
            final(self).wf(),
            final(self).roots() == old(self).roots(),
            ({
                let w = walk(old(self).roots());
                let k = old(self).produced() as int;
                match r {
                    Some(s) => exists|j: int|
                        {
                            &&& #[trigger] first_file_named(w, k, j, filename@)
                            &&& s@ == render(w[j], separator@)
                            &&& final(self).produced() == j + 1
                            &&& final(self).path_view() == w[j]
                        },
                    None => {
                        &&& forall|i: int| k <= i < w.len() ==> !is_file_named(#[trigger] w[i], filename@)
                        &&& final(self).finished()
                    },
                }
            }),
    {
        let ghost w = walk(self.roots());
        let ghost k = self.produced() as int;
        let target = filename.to_owned();
        loop
            invariant
                self.wf(),
                self.roots() == old(self).roots(),
                w == walk(self.roots()),
                k == old(self).produced(),
                k <= self.produced() <= w.len(),
                target@ == filename@,
                forall|i: int| k <= i < self.produced() ==> !is_file_named(#[trigger] w[i], filename@),
            decreases w.len() - self.produced(),
        {
            let ghost before = self.produced() as int;
            match self.next() {
                Some(e) => {
                    if let Entry::File(f) = e {
                        if f.name == target {
                            let found = self.get_path(separator);
                            proof {
                                assert(first_file_named(w, k, before, filename@));
                            }
                            return Some(found);
                        }
                    }
                    proof {
                        assert(!is_file_named(w[before], filename@));
                    }
                },
                None => {
                    return None;
                },
            }
        }
    }

    /// The names on the current chain, from the top level down to the entry
    /// produced last, joined with `separator`; empty before the first entry.
    pub fn get_path(&self, separator: &str) -> (r: String)
        ensures
            r@ == render(self.path_view(), separator@),
    {
        let mut out = String::new();
        let mut i: usize = 0;
        while i < self.path.len()
            invariant
                i <= self.path@.len(),
                out@ == render(self.path_view().take(i as int), separator@),
            decreases self.path@.len() - i,
        {
            if i > 0 {
                out.append(separator);
            }
            let name = self.path[i].name();
            out.append(name.as_str());
            proof {
                let p = self.path_view();
                assert(p.take(i + 1).drop_last() =~= p.take(i as int));
            }
            i += 1;
        }
        proof {
            assert(self.path_view().take(i as int) =~= self.path_view());
        }
        out
    }
}

impl Content {
    /// A fresh walk over this tree, before its first entry.
    pub fn iter(&self) -> (it: EntryIter<'_>)
        ensures
            it.wf(),
            it.roots() == self.entries@,
            it.produced() == 0,
            !it.finished(),
            it.path_view().len() == 0,
    {
        let mut frames: Vec<Frame<'_>> = Vec::new();
        frames.push(Frame { entries: &self.entries, pos: 0 });
        let it = EntryIter {
            frames,
            path: Vec::new(),
            roots: Ghost(self.entries@),
            produced: Ghost(0),
        };
        proof {
            let p = it.path_view();
            assert(p =~= Seq::<Entry>::empty());
            assert(p.take(0) =~= Seq::<Entry>::empty());
            assert(self.entries@.skip(0) =~= self.entries@);
            assert(walk(self.entries@).skip(0) =~= walk(self.entries@));
            assert(pending(it.frames@, p, 0) == Seq::<Seq<Entry>>::empty());
            assert(pending(it.frames@, p, 1) =~= walk(self.entries@));
        }
        it
    }
}

} // verus!
