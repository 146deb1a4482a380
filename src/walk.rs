use vstd::prelude::*;

use crate::tree::Entry;

verus! {

/// The visits that one entry yields when it sits below the chain `prefix`:
/// first the entry itself, then, for a folder, the visits of its entries in
/// order. A visit is the chain of entries from the top level down to the
/// visited entry, inclusive.
pub open spec fn visits_of(prefix: Seq<Entry>, e: Entry) -> Seq<Seq<Entry>>
    decreases e,
{
    match e {
        Entry::File(_) => seq![prefix.push(e)],
        Entry::Folder(f) => seq![prefix.push(e)] + visits_seq(prefix.push(e), f.entries@),
    }
}

/// The visits of a list of sibling entries below the chain `prefix`, one
/// sibling after the other.
pub open spec fn visits_seq(prefix: Seq<Entry>, es: Seq<Entry>) -> Seq<Seq<Entry>>
    decreases es,
{
    if es.len() == 0 {
        Seq::empty()
    } else {
        visits_of(prefix, es[0]) + visits_seq(prefix, es.drop_first())
    }
}

/// The pre-order walk of a tree whose top-level entries are `roots`.
pub open spec fn walk(roots: Seq<Entry>) -> Seq<Seq<Entry>> {
    visits_seq(Seq::empty(), roots)
}

/// The number of nodes in the subtree of `e`, `e` itself included.
pub open spec fn size_of(e: Entry) -> nat
    decreases e,
{
    match e {
        Entry::File(_) => 1,
        Entry::Folder(f) => 1 + size_seq(f.entries@),
    }
}

/// The number of nodes in the subtrees of all of `es`.
pub open spec fn size_seq(es: Seq<Entry>) -> nat
    decreases es,
{
    if es.len() == 0 {
        0
    } else {
        size_of(es[0]) + size_seq(es.drop_first())
    }
}

/// The names along a chain of entries, joined with `sep`.
pub open spec fn render(path: Seq<Entry>, sep: Seq<char>) -> Seq<char>
    decreases path.len(),
{
    if path.len() == 0 {
        Seq::empty()
    } else if path.len() == 1 {
        path[0].name_of()
    } else {
        render(path.drop_last(), sep) + sep + path.last().name_of()
    }
}

/// `v` is the visit of a file named `name`.
pub open spec fn is_file_named(v: Seq<Entry>, name: Seq<char>) -> bool {
    &&& v.len() > 0
    &&& v.last() is File
    &&& v.last().name_of() == name
}

/// `w[j]` is the first visit of a file named `name` in `w` from index
/// `from` on.
pub open spec fn first_file_named(w: Seq<Seq<Entry>>, from: int, j: int, name: Seq<char>) -> bool {
    &&& from <= j < w.len()
    &&& is_file_named(w[j], name)
    &&& forall|i: int| from <= i < j ==> !is_file_named(#[trigger] w[i], name)
}

/// `path` leads from one of `roots` down the tree, each step from a folder
/// to one of its entries.
pub open spec fn is_chain(roots: Seq<Entry>, path: Seq<Entry>) -> bool {
    &&& path.len() >= 1
    &&& roots.contains(path[0])
    &&& forall|i: int|
        0 <= i < path.len() - 1 ==> {
            &&& #[trigger] path[i] is Folder
            &&& path[i].children().contains(path[i + 1])
        }
}

/// Visits below `prefix` of `es`, in the order they come: the visits of
/// `es[pos]` and then those of the siblings after it.
pub proof fn lemma_visits_step(prefix: Seq<Entry>, es: Seq<Entry>, pos: int)
    requires
        0 <= pos < es.len(),
    ensures
        visits_seq(prefix, es.skip(pos)) == visits_of(prefix, es[pos]) + visits_seq(
            prefix,
            es.skip(pos + 1),
        ),
{
    assert(es.skip(pos).drop_first() =~= es.skip(pos + 1));
}

proof fn lemma_size_of(prefix: Seq<Entry>, e: Entry)
    ensures
        visits_of(prefix, e).len() == size_of(e),
    decreases e, 1int,
{
    if let Entry::Folder(f) = e {
        lemma_size_seq(prefix.push(e), f.entries@);
    }
}

proof fn lemma_size_seq(prefix: Seq<Entry>, es: Seq<Entry>)
    ensures
        visits_seq(prefix, es).len() == size_seq(es),
    decreases es, 0int,
{
    if es.len() > 0 {
        lemma_size_of(prefix, es[0]);
        lemma_size_seq(prefix, es.drop_first());
    }
}

/// The walk visits every node of the tree once: it has as many visits as
/// the tree has files and folders.
pub proof fn lemma_walk_len(roots: Seq<Entry>)
    ensures
        walk(roots).len() == size_seq(roots),
{
    lemma_size_seq(Seq::empty(), roots);
}

/// `v` starts with `prefix`, goes on with one of `es`, and from there on
/// steps from each folder to one of its entries.
pub open spec fn hangs_below(prefix: Seq<Entry>, es: Seq<Entry>, v: Seq<Entry>) -> bool {
    &&& v.len() > prefix.len()
    &&& v.take(prefix.len() as int) == prefix
    &&& es.contains(v[prefix.len() as int])
    &&& forall|i: int|
        prefix.len() <= i < v.len() - 1 ==> {
            &&& #[trigger] v[i] is Folder
            &&& v[i].children().contains(v[i + 1])
        }
}

proof fn lemma_visits_of_shape(prefix: Seq<Entry>, e: Entry)
    ensures
        forall|j: int|
            0 <= j < visits_of(prefix, e).len() ==> hangs_below(
                prefix,
                seq![e],
                #[trigger] visits_of(prefix, e)[j],
            ),
    decreases e, 1int,
{
    let head = prefix.push(e);
    assert(seq![e].contains(e)) by {
        assert(seq![e][0] == e);
    }
    assert(head.take(prefix.len() as int) =~= prefix);
    if let Entry::Folder(f) = e {
        let below = visits_seq(head, f.entries@);
        lemma_visits_seq_shape(head, f.entries@);
        assert forall|j: int| 0 <= j < visits_of(prefix, e).len() implies hangs_below(
            prefix,
            seq![e],
            #[trigger] visits_of(prefix, e)[j],
        ) by {
            if j > 0 {
                let v = visits_of(prefix, e)[j];
                assert(v == below[j - 1]);
                assert(hangs_below(head, f.entries@, v));
                assert(v.take(head.len() as int).take(prefix.len() as int) =~= v.take(
                    prefix.len() as int,
                ));
                assert(head.take(prefix.len() as int) =~= prefix);
                assert(v[prefix.len() as int] == v.take(head.len() as int)[prefix.len() as int]);
                assert(v[prefix.len() as int] == e);
                assert forall|i: int| prefix.len() <= i < v.len() - 1 implies {
                    &&& #[trigger] v[i] is Folder
                    &&& v[i].children().contains(v[i + 1])
                } by {
                    if i == prefix.len() {
                        assert(e.children() == f.entries@);
                    }
                }
            }
        }
    }
}

proof fn lemma_visits_seq_shape(prefix: Seq<Entry>, es: Seq<Entry>)
    ensures
        forall|j: int|
            0 <= j < visits_seq(prefix, es).len() ==> hangs_below(
                prefix,
                es,
                #[trigger] visits_seq(prefix, es)[j],
            ),
    decreases es, 0int,
{
    if es.len() > 0 {
        let first = visits_of(prefix, es[0]);
        let rest = visits_seq(prefix, es.drop_first());
        lemma_visits_of_shape(prefix, es[0]);
        lemma_visits_seq_shape(prefix, es.drop_first());
        assert forall|j: int| 0 <= j < visits_seq(prefix, es).len() implies hangs_below(
            prefix,
            es,
            #[trigger] visits_seq(prefix, es)[j],
        ) by {
            let v = visits_seq(prefix, es)[j];
            if j < first.len() {
                assert(v == first[j]);
                assert(hangs_below(prefix, seq![es[0]], v));
                assert(seq![es[0]].contains(v[prefix.len() as int]));
                assert(es.contains(es[0]));
            } else {
                assert(v == rest[j - first.len()]);
                assert(hangs_below(prefix, es.drop_first(), v));
                let k = choose|k: int|
                    0 <= k < es.drop_first().len() && es.drop_first()[k] == v[prefix.len() as int];
                assert(es[k + 1] == v[prefix.len() as int]);
            }
        }
    }
}

/// Each visit of the walk is the chain of entries from the top level down
/// to the visited entry: it starts at one of the top-level entries and each
/// further step goes from a folder to one of its own entries.
pub proof fn lemma_walk_chains(roots: Seq<Entry>, j: int)
    requires
        0 <= j < walk(roots).len(),
    ensures
        is_chain(roots, walk(roots)[j]),
{
    lemma_visits_seq_shape(Seq::empty(), roots);
    let v = walk(roots)[j];
    assert(hangs_below(Seq::empty(), roots, v));
}

/// A file stands in a visit of the walk only as its last entry, the one the
/// visit is of: no later entry is ever reached through it.
pub proof fn lemma_files_end_visits(roots: Seq<Entry>, j: int, i: int)
    requires
        0 <= j < walk(roots).len(),
        0 <= i < walk(roots)[j].len(),
        walk(roots)[j][i] is File,
    ensures
        i == walk(roots)[j].len() - 1,
{
    lemma_walk_chains(roots, j);
}

/// An empty folder yields a single visit, of itself, and nothing below it.
pub proof fn lemma_empty_folder_visits(prefix: Seq<Entry>, e: Entry)
    requires
        e is Folder,
        e.children().len() == 0,
    ensures
        visits_of(prefix, e) == seq![prefix.push(e)],
{
    let f = e->Folder_0;
    assert(visits_seq(prefix.push(e), f.entries@) == Seq::<Seq<Entry>>::empty());
    assert(visits_of(prefix, e) =~= seq![prefix.push(e)]);
}

/// No visit of the walk goes below an empty folder: where one stands in a
/// visit, it is the visited entry.
pub proof fn lemma_empty_folder_ends_visits(roots: Seq<Entry>, j: int, i: int)
    requires
        0 <= j < walk(roots).len(),
        0 <= i < walk(roots)[j].len(),
        walk(roots)[j][i] is Folder,
        walk(roots)[j][i].children().len() == 0,
    ensures
        i == walk(roots)[j].len() - 1,
{
    lemma_walk_chains(roots, j);
    let v = walk(roots)[j];
    if i < v.len() - 1 {
        assert(v[i] is Folder);
        assert(v[i].children().contains(v[i + 1]));
    }
}

} // verus!
