use vstd::prelude::*;

use crate::registry::PairModel;

verus! {

/// Materialize one entry into an abstract picture of a directory's links
/// (link name to link target): create the link unless one with that name
/// already exists, in which case nothing happens and nothing fails.
pub open spec fn mat_one(fs: Map<Seq<char>, Seq<char>>, e: PairModel) -> Map<Seq<char>, Seq<char>> {
    if fs.dom().contains(e.name) {
        fs
    } else {
        fs.insert(e.name, e.path)
    }
}

/// Materialize the entries in order.
pub open spec fn mat_all(fs: Map<Seq<char>, Seq<char>>, es: Seq<PairModel>) -> Map<
    Seq<char>,
    Seq<char>,
>
    decreases es.len(),
{
    if es.len() == 0 {
        fs
    } else {
        mat_one(mat_all(fs, es.drop_last()), es.last())
    }
}

/// Tear the entries down in order; removing an absent link is no error and
/// no change.
pub open spec fn unmat_all(fs: Map<Seq<char>, Seq<char>>, es: Seq<PairModel>) -> Map<
    Seq<char>,
    Seq<char>,
>
    decreases es.len(),
{
    if es.len() == 0 {
        fs
    } else {
        unmat_all(fs, es.drop_last()).remove(es.last().name)
    }
}

/// The set of link names a sequence of entries speaks of.
pub open spec fn entry_names(es: Seq<PairModel>) -> Set<Seq<char>> {
    Set::new(|n: Seq<char>| exists|i: int| 0 <= i < es.len() && es[i].name == n)
}

/// One more entry adds one more name.
proof fn lemma_entry_names_step(es: Seq<PairModel>)
    requires
        es.len() > 0,
    ensures
        entry_names(es) == entry_names(es.drop_last()).insert(es.last().name),
{
    assert forall|n: Seq<char>| #[trigger] entry_names(es).contains(n) implies entry_names(
        es.drop_last(),
    ).insert(es.last().name).contains(n) by {
        let i = choose|i: int| 0 <= i < es.len() && es[i].name == n;
        if i < es.len() - 1 {
            assert(es.drop_last()[i].name == n);
            assert(entry_names(es.drop_last()).contains(n));
        }
    }
    assert forall|n: Seq<char>|
        #[trigger] entry_names(es.drop_last()).insert(es.last().name).contains(n) implies
        entry_names(es).contains(n) by {
        if entry_names(es.drop_last()).contains(n) {
            let i = choose|i: int| 0 <= i < es.drop_last().len() && es.drop_last()[i].name == n;
            assert(es[i].name == n);
        } else {
            assert(es[es.len() - 1].name == n);
        }
    }
    assert(entry_names(es) =~= entry_names(es.drop_last()).insert(es.last().name));
}

/// Materialization acts on the link names alone: afterwards the picture
/// holds exactly the old names and the entries' names.
pub proof fn lemma_mat_dom(fs: Map<Seq<char>, Seq<char>>, es: Seq<PairModel>)
    ensures
        mat_all(fs, es).dom() == fs.dom().union(entry_names(es)),
    decreases es.len(),
{
    if es.len() == 0 {
        assert(entry_names(es) =~= Set::<Seq<char>>::empty());
        assert(fs.dom().union(entry_names(es)) =~= fs.dom());
    } else {
        lemma_mat_dom(fs, es.drop_last());
        lemma_entry_names_step(es);
        assert(mat_all(fs, es).dom() =~= fs.dom().union(entry_names(es)));
    }
}

/// Materializing entries whose names all exist already changes nothing.
proof fn lemma_mat_noop(fs: Map<Seq<char>, Seq<char>>, es: Seq<PairModel>)
    requires
        forall|i: int| 0 <= i < es.len() ==> fs.dom().contains(#[trigger] es[i].name),
    ensures
        mat_all(fs, es) == fs,
    decreases es.len(),
{
    if es.len() > 0 {
        assert(forall|i: int|
            0 <= i < es.drop_last().len() ==> fs.dom().contains(#[trigger] es.drop_last()[i].name));
        lemma_mat_noop(fs, es.drop_last());
    }
}

/// Materializing the same resolved link-set twice leaves the same picture
/// as materializing it once: the second pass finds every link present and
/// creates nothing.
pub proof fn lemma_materialize_idempotent(fs: Map<Seq<char>, Seq<char>>, es: Seq<PairModel>)
    ensures
        mat_all(mat_all(fs, es), es) == mat_all(fs, es),
{
    lemma_mat_dom(fs, es);
    assert forall|i: int| 0 <= i < es.len() implies mat_all(fs, es).dom().contains(
        #[trigger] es[i].name,
    ) by {
        assert(entry_names(es).contains(es[i].name));
    }
    lemma_mat_noop(mat_all(fs, es), es);
}

/// Teardown removes exactly the entries' names from the picture.
pub proof fn lemma_unmat_dom(fs: Map<Seq<char>, Seq<char>>, es: Seq<PairModel>)
    ensures
        unmat_all(fs, es).dom() == fs.dom().difference(entry_names(es)),
    decreases es.len(),
{
    if es.len() == 0 {
        assert(entry_names(es) =~= Set::<Seq<char>>::empty());
        assert(fs.dom().difference(entry_names(es)) =~= fs.dom());
    } else {
        lemma_unmat_dom(fs, es.drop_last());
        lemma_entry_names_step(es);
        assert(unmat_all(fs, es).dom() =~= fs.dom().difference(entry_names(es)));
    }
}

/// Re-linking replaces on disk: tearing down the entries a set created in
/// an empty directory empties it again, so what the next set creates is
/// exactly its own links, with nothing left over from the first.
pub proof fn lemma_relink_exact(a: Seq<PairModel>, b: Seq<PairModel>)
    ensures
        unmat_all(mat_all(Map::<Seq<char>, Seq<char>>::empty(), a), a) == Map::<
            Seq<char>,
            Seq<char>,
        >::empty(),
        mat_all(unmat_all(mat_all(Map::<Seq<char>, Seq<char>>::empty(), a), a), b) == mat_all(
            Map::<Seq<char>, Seq<char>>::empty(),
            b,
        ),
{
    lemma_mat_dom(Map::<Seq<char>, Seq<char>>::empty(), a);
    lemma_unmat_dom(mat_all(Map::<Seq<char>, Seq<char>>::empty(), a), a);
    let torn = unmat_all(mat_all(Map::<Seq<char>, Seq<char>>::empty(), a), a);
    assert(torn.dom() =~= Set::<Seq<char>>::empty());
    assert(torn =~= Map::<Seq<char>, Seq<char>>::empty());
}

} // verus!
