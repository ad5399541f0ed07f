use vstd::prelude::*;

use crate::LinkerError;
use crate::manifest::{ManifestNode, table_get, instance_key};
use crate::registry::{PairModel, ResourcePair, pairs_view, find_pair, find_resource_vec};
use crate::strutil::{str_eq, make_instance_path, make_nested_dest, instance_path, instance_prefix, nested_dest};

verus! {

/// One filesystem step that materialization must perform, in order: create
/// a directory (with its parents), or create one symbolic link.
#[derive(Clone, Debug, PartialEq)]
pub enum LinkAction {
    MkDir { path: String },
    Symlink { src: String, dst: String },
}

/// Mathematical image of a `LinkAction`.
pub ghost enum ActionModel {
    MkDir { path: Seq<char> },
    Symlink { src: Seq<char>, dst: Seq<char> },
}

impl View for LinkAction {
    type V = ActionModel;

    open spec fn view(&self) -> ActionModel {
        match *self {
            LinkAction::MkDir { path } => ActionModel::MkDir { path: path@ },
            LinkAction::Symlink { src, dst } => ActionModel::Symlink { src: src@, dst: dst@ },
        }
    }
}

/// View of a sequence of actions, element by element.
pub open spec fn actions_view(s: Seq<LinkAction>) -> Seq<ActionModel> {
    Seq::new(s.len(), |i: int| s[i]@)
}

/// Indexing a viewed sequence of actions views the element.
pub broadcast proof fn lemma_actions_view_index(s: Seq<LinkAction>, i: int)
    requires
        0 <= i < s.len(),
    ensures
        #[trigger] actions_view(s)[i] == s[i]@,
{
}

/// View of a sequence of strings, element by element.
pub open spec fn strs_view(s: Seq<String>) -> Seq<Seq<char>> {
    Seq::new(s.len(), |i: int| s[i]@)
}

/// Indexing a viewed sequence of strings views the element.
pub broadcast proof fn lemma_strs_view_index(s: Seq<String>, i: int)
    requires
        0 <= i < s.len(),
    ensures
        #[trigger] strs_view(s)[i] == s[i]@,
{
}



/// What resolving a manifest produced: the link entries to record, the
/// filesystem actions to perform, and the names of references that could
/// not be resolved and were skipped with a diagnostic.
#[derive(Debug)]
pub struct Resolution {
    pub entries: Vec<ResourcePair>,
    pub actions: Vec<LinkAction>,
    pub missing: Vec<String>,
}

/// Mathematical image of a `Resolution`.
pub ghost struct ResolutionModel {
    pub entries: Seq<PairModel>,
    pub actions: Seq<ActionModel>,
    pub missing: Seq<Seq<char>>,
}

impl View for Resolution {
    type V = ResolutionModel;

    open spec fn view(&self) -> ResolutionModel {
        ResolutionModel {
            entries: pairs_view(self.entries@),
            actions: actions_view(self.actions@),
            missing: strs_view(self.missing@),
        }
    }
}

/// Outcome of one top-level manifest entry.
pub ghost struct EntryOutcome {
    pub entries: Seq<PairModel>,
    pub actions: Seq<ActionModel>,
    pub missing: Seq<Seq<char>>,
}

/// Does resolving `(dst, node)` allocate a fresh instance, and so consume
/// one suffix? Only a table whose `dst` names a registered resource and
/// whose `instance` flag is `true` does.
pub open spec fn needs_instance(dst: Seq<char>, node: ManifestNode, resources: Seq<PairModel>) -> bool {
    match node {
        ManifestNode::Table(items) => find_pair(resources, dst) is Some && table_get(
            items@,
            instance_key(),
        ) == Some(ManifestNode::Bool(true)),
        _ => false,
    }
}

/// Outcome of one nested entry list under a top-level key that names no
/// resource: each value must be a scalar; one that names a resource links
/// `<dir>/<dst>/<key>` to it, one that is a path known to exist on disk is
/// linked literally, and any other is reported missing and skipped. `Err`
/// carries the key of a non-scalar value.
pub open spec fn resolve_nested(
    dir: Seq<char>,
    dst: Seq<char>,
    items: Seq<(String, ManifestNode)>,
    resources: Seq<PairModel>,
    disk: Seq<Seq<char>>,
) -> Result<EntryOutcome, Seq<char>>
    decreases items.len(),
{
    if items.len() == 0 {
        Ok(EntryOutcome { entries: seq![], actions: seq![], missing: seq![] })
    } else {
        match resolve_nested(dir, dst, items.drop_last(), resources, disk) {
            Err(k) => Err(k),
            Ok(pre) => {
                let key = items.last().0@;
                match items.last().1 {
                    ManifestNode::Scalar(sv) => {
                        let s = sv@;
                        match find_pair(resources, s) {
                            Some(r2) => {
                                let dest = nested_dest(dir, dst, key);
                                Ok(
                                    EntryOutcome {
                                        entries: pre.entries.push(
                                            PairModel { name: dest, path: r2.path },
                                        ),
                                        actions: pre.actions.push(
                                            ActionModel::Symlink { src: r2.path, dst: dest },
                                        ),
                                        missing: pre.missing,
                                    },
                                )
                            },
                            None => if disk.contains(s) {
                                Ok(
                                    EntryOutcome {
                                        entries: pre.entries.push(PairModel { name: key, path: s }),
                                        actions: pre.actions.push(
                                            ActionModel::Symlink { src: s, dst: key },
                                        ),
                                        missing: pre.missing,
                                    },
                                )
                            } else {
                                Ok(
                                    EntryOutcome {
                                        entries: pre.entries,
                                        actions: pre.actions,
                                        missing: pre.missing.push(s),
                                    },
                                )
                            },
                        }
                    },
                    _ => Err(key),
                }
            },
        }
    }
}

/// Outcome of one top-level manifest entry `(dst, node)`. A `dst` that
/// names a resource is linked directly to its registered path — with the
/// `instance` flag `false` or absent alike — or to a fresh instance
/// subdirectory under that path when the flag is `true`; a `dst` that
/// names none is a nested entry list. `Err` carries the key of a
/// malformed entry.
pub open spec fn resolve_top(
    dir: Seq<char>,
    dst: Seq<char>,
    node: ManifestNode,
    resources: Seq<PairModel>,
    disk: Seq<Seq<char>>,
    suffix: Seq<char>,
) -> Result<EntryOutcome, Seq<char>> {
    match node {
        ManifestNode::Table(items) => match find_pair(resources, dst) {
            Some(res) => match table_get(items@, instance_key()) {
                None => Ok(
                    EntryOutcome {
                        entries: seq![PairModel { name: dst, path: res.path }],
                        actions: seq![ActionModel::Symlink { src: res.path, dst: dst }],
                        missing: seq![],
                    },
                ),
                Some(flag) => match flag {
                    ManifestNode::Bool(b) => if b {
                        let ip = instance_path(res.path, res.name, suffix);
                        Ok(
                            EntryOutcome {
                                entries: seq![PairModel { name: dst, path: ip }],
                                actions: seq![
                                    ActionModel::MkDir { path: ip },
                                    ActionModel::Symlink { src: ip, dst: dst },
                                ],
                                missing: seq![],
                            },
                        )
                    } else {
                        Ok(
                            EntryOutcome {
                                entries: seq![PairModel { name: dst, path: res.path }],
                                actions: seq![ActionModel::Symlink { src: res.path, dst: dst }],
                                missing: seq![],
                            },
                        )
                    },
                    _ => Err(dst),
                },
            },
            None => resolve_nested(dir, dst, items@, resources, disk),
        },
        _ => Err(dst),
    }
}

/// How many of the top-level entries allocate a fresh instance.
pub open spec fn count_instances(ms: Seq<(String, ManifestNode)>, resources: Seq<PairModel>) -> int
    decreases ms.len(),
{
    if ms.len() == 0 {
        0
    } else {
        count_instances(ms.drop_last(), resources) + (if needs_instance(
            ms.last().0@,
            ms.last().1,
            resources,
        ) {
            1int
        } else {
            0int
        })
    }
}

/// Resolution of the top-level entries in order, drawing instance suffixes
/// from `suffixes` front to back.
pub open spec fn resolve_entries(
    dir: Seq<char>,
    ms: Seq<(String, ManifestNode)>,
    resources: Seq<PairModel>,
    disk: Seq<Seq<char>>,
    suffixes: Seq<Seq<char>>,
) -> Result<ResolutionModel, Seq<char>>
    decreases ms.len(),
{
    if ms.len() == 0 {
        Ok(ResolutionModel { entries: seq![], actions: seq![], missing: seq![] })
    } else {
        match resolve_entries(dir, ms.drop_last(), resources, disk, suffixes) {
            Err(k) => Err(k),
            Ok(pre) => {
                let sfx = suffixes[count_instances(ms.drop_last(), resources)];
                match resolve_top(dir, ms.last().0@, ms.last().1, resources, disk, sfx) {
                    Err(k) => Err(k),
                    Ok(o) => Ok(
                        ResolutionModel {
                            entries: pre.entries + o.entries,
                            actions: pre.actions + o.actions,
                            missing: pre.missing + o.missing,
                        },
                    ),
                }
            },
        }
    }
}

/// Resolution of a whole manifest, whose top level must be a table; the
/// `Err` of a non-table top level carries the empty key.
pub open spec fn resolve_manifest(
    dir: Seq<char>,
    m: ManifestNode,
    resources: Seq<PairModel>,
    disk: Seq<Seq<char>>,
    suffixes: Seq<Seq<char>>,
) -> Result<ResolutionModel, Seq<char>> {
    match m {
        ManifestNode::Table(ms) => resolve_entries(dir, ms@, resources, disk, suffixes),
        _ => Err(Seq::<char>::empty()),
    }
}

/// How many instance suffixes resolving the whole manifest consumes.
pub open spec fn manifest_instances(m: ManifestNode, resources: Seq<PairModel>) -> int {
    match m {
        ManifestNode::Table(ms) => count_instances(ms@, resources),
        _ => 0,
    }
}

/// `sfx` is a well-formed draw of instance suffixes: one per instance
/// entry, each nine alphanumeric characters.
pub open spec fn suffixes_wf(sfx: Seq<Seq<char>>, n: int) -> bool {
    &&& sfx.len() == n
    &&& forall|i: int|
        0 <= i < sfx.len() ==> (#[trigger] sfx[i]).len() == 9 && (forall|j: int|
            0 <= j < sfx[i].len() ==> crate::utils::is_alnum_char(#[trigger] sfx[i][j]))
}

/// `r` is what resolving `m` for `dir` returns under some well-formed draw
/// of instance suffixes.
pub open spec fn resolve_outcome(
    r: Result<Resolution, LinkerError>,
    dir: Seq<char>,
    m: ManifestNode,
    resources: Seq<PairModel>,
    disk: Seq<Seq<char>>,
) -> bool {
    exists|sfx: Seq<Seq<char>>|
        #[trigger] suffixes_wf(sfx, manifest_instances(m, resources)) && (match resolve_manifest(
            dir,
            m,
            resources,
            disk,
            sfx,
        ) {
            Ok(model) => r matches Ok(res) && res@ == model,
            Err(k) => r matches Err(e) && (e matches LinkerError::MalformedManifestEntry { key }
                && key@ == k),
        })
}

/// A prefix never counts more instances than the whole entry list.
pub proof fn lemma_count_take(
    ms: Seq<(String, ManifestNode)>,
    resources: Seq<PairModel>,
    t: int,
)
    requires
        0 <= t <= ms.len(),
    ensures
        0 <= count_instances(ms.take(t), resources) <= count_instances(ms, resources),
    decreases ms.len(),
{
    if t == ms.len() {
        assert(ms.take(t) =~= ms);
        lemma_count_nonneg(ms, resources);
    } else {
        let pre = ms.drop_last();
        assert(pre.take(t) =~= ms.take(t));
        lemma_count_take(pre, resources, t);
    }
}

/// Instance counts are never negative.
pub proof fn lemma_count_nonneg(ms: Seq<(String, ManifestNode)>, resources: Seq<PairModel>)
    ensures
        count_instances(ms, resources) >= 0,
    decreases ms.len(),
{
    if ms.len() > 0 {
        lemma_count_nonneg(ms.drop_last(), resources);
    }
}

/// Counting one more entry adds one instance exactly when that entry
/// allocates one.
pub proof fn lemma_count_step(
    ms: Seq<(String, ManifestNode)>,
    resources: Seq<PairModel>,
    t: int,
)
    requires
        0 <= t < ms.len(),
    ensures
        count_instances(ms.take(t + 1), resources) == count_instances(ms.take(t), resources) + (
        if needs_instance(ms[t].0@, ms[t].1, resources) {
            1int
        } else {
            0int
        }),
{
    assert(ms.take(t + 1).drop_last() =~= ms.take(t));
    assert(ms.take(t + 1).last() == ms[t]);
}

/// When a prefix of the nested entries resolves and entry `t` is not a
/// scalar, the whole nested list fails with that entry's key.
pub proof fn lemma_nested_error(
    dir: Seq<char>,
    dst: Seq<char>,
    items: Seq<(String, ManifestNode)>,
    resources: Seq<PairModel>,
    disk: Seq<Seq<char>>,
    t: int,
)
    requires
        0 <= t < items.len(),
        resolve_nested(dir, dst, items.take(t), resources, disk) is Ok,
        !(items[t].1 is Scalar),
    ensures
        resolve_nested(dir, dst, items, resources, disk) == Err::<EntryOutcome, Seq<char>>(
            items[t].0@,
        ),
    decreases items.len(),
{
    if t == items.len() - 1 {
        assert(items.take(t) =~= items.drop_last());
        assert(items.last() == items[t]);
    } else {
        let pre = items.drop_last();
        assert(pre.take(t) =~= items.take(t));
        assert(pre[t] == items[t]);
        lemma_nested_error(dir, dst, pre, resources, disk, t);
    }
}

/// When a prefix of the top-level entries resolves and entry `t` fails,
/// the whole manifest fails with the same key.
pub proof fn lemma_entries_error(
    dir: Seq<char>,
    ms: Seq<(String, ManifestNode)>,
    resources: Seq<PairModel>,
    disk: Seq<Seq<char>>,
    suffixes: Seq<Seq<char>>,
    t: int,
    k: Seq<char>,
)
    requires
        0 <= t < ms.len(),
        resolve_entries(dir, ms.take(t), resources, disk, suffixes) is Ok,
        resolve_top(
            dir,
            ms[t].0@,
            ms[t].1,
            resources,
            disk,
            suffixes[count_instances(ms.take(t), resources)],
        ) == Err::<EntryOutcome, Seq<char>>(k),
    ensures
        resolve_entries(dir, ms, resources, disk, suffixes) == Err::<ResolutionModel, Seq<char>>(k),
    decreases ms.len(),
{
    if t == ms.len() - 1 {
        assert(ms.take(t) =~= ms.drop_last());
        assert(ms.last() == ms[t]);
    } else {
        let pre = ms.drop_last();
        assert(pre.take(t) =~= ms.take(t));
        assert(pre[t] == ms[t]);
        lemma_entries_error(dir, pre, resources, disk, suffixes, t, k);
    }
}

/// Does the list of paths known to exist on disk contain `p`?
#[verifier::loop_isolation(false)]
pub fn disk_contains(disk: &Vec<String>, p: &str) -> (r: bool)
    ensures
        r == strs_view(disk@).contains(p@),
{
    let n = disk.len();
    let mut i: usize = 0;
    while i < n
        invariant
            n == disk@.len(),
            i <= n,
            forall|j: int| 0 <= j < i ==> disk@[j]@ != p@,
        decreases n - i,
    {
        if str_eq(disk[i].as_str(), p) {
            proof {
                assert(strs_view(disk@)[i as int] == p@);
            }
            return true;
        }
        i += 1;
    }
    proof {
        assert forall|j: int| 0 <= j < strs_view(disk@).len() implies strs_view(disk@)[j] != p@ by {
            assert(strs_view(disk@)[j] == disk@[j]@);
        }
    }
    false
}

/// Does resolving `(dst, node)` allocate a fresh instance?
fn entry_needs_instance(
    dst: &String,
    node: &ManifestNode,
    resources: &Vec<ResourcePair>,
) -> (r: bool)
    ensures
        r == needs_instance(dst@, *node, pairs_view(resources@)),
{
    match node {
        ManifestNode::Table(sub) => match find_resource_vec(resources, dst.as_str()) {
            Some(_) => match crate::manifest::entries_get(sub, "instance") {
                Some(fl) => match fl {
                    ManifestNode::Bool(b) => *b,
                    _ => false,
                },
                None => false,
            },
            None => false,
        },
        _ => false,
    }
}

/// How many instance suffixes resolving `manifest` will consume.
#[verifier::loop_isolation(false)]
pub fn count_instance_entries(manifest: &ManifestNode, resources: &Vec<ResourcePair>) -> (n: usize)
    ensures
        n as int == manifest_instances(*manifest, pairs_view(resources@)),
{
    match manifest {
        ManifestNode::Table(items) => {
            let total = items.len();
            let mut cnt: usize = 0;
            let mut idx: usize = 0;
            while idx < total
                invariant
                    total == items@.len(),
                    idx <= total,
                    cnt <= idx,
                    cnt as int == count_instances(items@.take(idx as int), pairs_view(resources@)),
                decreases total - idx,
            {
                let nd = entry_needs_instance(&items[idx].0, &items[idx].1, resources);
                proof {
                    lemma_count_step(items@, pairs_view(resources@), idx as int);
                }
                if nd {
                    cnt += 1;
                }
                idx += 1;
            }
            proof {
                assert(items@.take(total as int) =~= items@);
            }
            cnt
        },
        _ => 0,
    }
}

/// Resolve one top-level entry, appending its outcome to `out` and
/// returning the new suffix cursor; `Err` carries the key of a malformed
/// entry. After a failed call nothing is said of `out`: the caller
/// discards it.
#[verifier::loop_isolation(false)]
fn resolve_one(
    dir: &str,
    dst: &String,
    node: &ManifestNode,
    resources: &Vec<ResourcePair>,
    disk: &Vec<String>,
    suffixes: &Vec<String>,
    used: usize,
    out: &mut Resolution,
) -> (r: Result<usize, LinkerError>)
    requires
        needs_instance(dst@, *node, pairs_view(resources@)) ==> used < suffixes@.len(),
    ensures
        (match resolve_top(
            dir@,
            dst@,
            *node,
            pairs_view(resources@),
            strs_view(disk@),
            strs_view(suffixes@)[used as int],
        ) {
            Ok(o) => r matches Ok(u2) && u2 == used + (if needs_instance(
                dst@,
                *node,
                pairs_view(resources@),
            ) {
                1int
            } else {
                0int
            }) && final(out)@.entries == old(out)@.entries + o.entries
                && final(out)@.actions == old(out)@.actions + o.actions
                && final(out)@.missing == old(out)@.missing + o.missing,
            Err(k) => r matches Err(e) && (e matches LinkerError::MalformedManifestEntry { key }
                && key@ == k),
        }),
{
    broadcast use {lemma_actions_view_index, lemma_strs_view_index, crate::registry::lemma_pairs_view_index};

    let ghost sfxv = strs_view(suffixes@)[used as int];
    match node {
        ManifestNode::Table(sub) => {
            match find_resource_vec(resources, dst.as_str()) {
                Some(res) => {
                    match crate::manifest::entries_get(sub, "instance") {
                        None => {
                            let ghost eo = EntryOutcome {
                                entries: seq![(PairModel { name: dst@, path: res.path@ })],
                                actions: seq![
                                    (ActionModel::Symlink { src: res.path@, dst: dst@ }),
                                ],
                                missing: seq![],
                            };
                            let ghost before = out@;
                            out.actions.push(
                                LinkAction::Symlink { src: res.path.clone(), dst: dst.clone() },
                            );
                            out.entries.push(
                                ResourcePair { name: dst.clone(), path: res.path.clone() },
                            );
                            proof {
                                assert(!needs_instance(dst@, *node, pairs_view(resources@)));
                                assert(resolve_top(
                                    dir@,
                                    dst@,
                                    *node,
                                    pairs_view(resources@),
                                    strs_view(disk@),
                                    sfxv,
                                ) == Ok::<EntryOutcome, Seq<char>>(eo));
                                assert(out@.entries =~= before.entries + eo.entries);
                                assert(out@.actions =~= before.actions + eo.actions);
                                assert(out@.missing =~= before.missing + eo.missing);
                            }
                            Ok(used)
                        },
                        Some(fl) => match fl {
                            ManifestNode::Bool(b) => {
                                if *b {
                                    proof {
                                        assert(*fl == ManifestNode::Bool(true));
                                        assert(needs_instance(dst@, *node, pairs_view(resources@)));
                                    }
                                    let sfx = &suffixes[used];
                                    proof {
                                        assert(strs_view(suffixes@)[used as int] == suffixes@[
                                            used as int
                                        ]@);
                                    }
                                    let ip = make_instance_path(
                                        res.path.as_str(),
                                        res.name.as_str(),
                                        sfx.as_str(),
                                    );
                                    let ghost eo = EntryOutcome {
                                        entries: seq![(PairModel { name: dst@, path: ip@ })],
                                        actions: seq![
                                            (ActionModel::MkDir { path: ip@ }),
                                            (ActionModel::Symlink { src: ip@, dst: dst@ }),
                                        ],
                                        missing: seq![],
                                    };
                                    let ghost before = out@;
                                    out.actions.push(LinkAction::MkDir { path: ip.clone() });
                                    out.actions.push(
                                        LinkAction::Symlink { src: ip.clone(), dst: dst.clone() },
                                    );
                                    out.entries.push(ResourcePair { name: dst.clone(), path: ip });
                                    proof {
                                        assert(resolve_top(
                                            dir@,
                                            dst@,
                                            *node,
                                            pairs_view(resources@),
                                            strs_view(disk@),
                                            sfxv,
                                        ) == Ok::<EntryOutcome, Seq<char>>(eo));
                                        assert(out@.entries =~= before.entries + eo.entries);
                                        assert(out@.actions =~= before.actions + eo.actions);
                                        assert(out@.missing =~= before.missing + eo.missing);
                                    }
                                    proof {
                                        assert(used < suffixes.len());
                                    }
                                    Ok(used + 1)
                                } else {
                                    let ghost eo = EntryOutcome {
                                        entries: seq![(PairModel { name: dst@, path: res.path@ })],
                                        actions: seq![
                                            (ActionModel::Symlink { src: res.path@, dst: dst@ }),
                                        ],
                                        missing: seq![],
                                    };
                                    let ghost before = out@;
                                    out.actions.push(
                                        LinkAction::Symlink {
                                            src: res.path.clone(),
                                            dst: dst.clone(),
                                        },
                                    );
                                    out.entries.push(
                                        ResourcePair { name: dst.clone(), path: res.path.clone() },
                                    );
                                    proof {
                                        assert(*fl == ManifestNode::Bool(false));
                                        assert(!needs_instance(dst@, *node, pairs_view(resources@)));
                                        assert(resolve_top(
                                            dir@,
                                            dst@,
                                            *node,
                                            pairs_view(resources@),
                                            strs_view(disk@),
                                            sfxv,
                                        ) == Ok::<EntryOutcome, Seq<char>>(eo));
                                        assert(out@.entries =~= before.entries + eo.entries);
                                        assert(out@.actions =~= before.actions + eo.actions);
                                        assert(out@.missing =~= before.missing + eo.missing);
                                    }
                                    Ok(used)
                                }
                            },
                            _ => {
                                proof {
                                    assert(resolve_top(
                                        dir@,
                                        dst@,
                                        *node,
                                        pairs_view(resources@),
                                        strs_view(disk@),
                                        sfxv,
                                    ) == Err::<EntryOutcome, Seq<char>>(dst@));
                                }
                                Err(LinkerError::MalformedManifestEntry { key: dst.clone() })
                            },
                        },
                    }
                },
                None => {
                    let m2 = sub.len();
                    let mut t: usize = 0;
                    proof {
                        assert(sub@.take(0) =~= Seq::<(String, ManifestNode)>::empty());
                        assert(out@.entries =~= old(out)@.entries + Seq::<PairModel>::empty());
                        assert(out@.actions =~= old(out)@.actions + Seq::<ActionModel>::empty());
                        assert(out@.missing =~= old(out)@.missing + Seq::<Seq<char>>::empty());
                    }
                    while t < m2
                        invariant
                            m2 == sub@.len(),
                            t <= m2,
                            (match resolve_nested(
                                dir@,
                                dst@,
                                sub@.take(t as int),
                                pairs_view(resources@),
                                strs_view(disk@),
                            ) {
                                Ok(o) => out@.entries == old(out)@.entries + o.entries
                                    && out@.actions == old(out)@.actions + o.actions
                                    && out@.missing == old(out)@.missing + o.missing,
                                Err(_) => false,
                            }),
                        decreases m2 - t,
                    {
                        let ghost before = out@;
                        match &sub[t].1 {
                            ManifestNode::Scalar(sv) => {
                                match find_resource_vec(resources, sv.as_str()) {
                                    Some(r2) => {
                                        let dest = make_nested_dest(
                                            dir,
                                            dst.as_str(),
                                            sub[t].0.as_str(),
                                        );
                                        let ghost destv = dest@;
                                        out.actions.push(
                                            LinkAction::Symlink {
                                                src: r2.path.clone(),
                                                dst: dest.clone(),
                                            },
                                        );
                                        out.entries.push(
                                            ResourcePair { name: dest, path: r2.path.clone() },
                                        );
                                        proof {
                                            assert(sub@.take(t as int + 1).drop_last() =~= sub@.take(
                                                t as int,
                                            ));
                                            assert(sub@.take(t as int + 1).last() == sub@[t as int]);
                                            let o = resolve_nested(
                                                dir@,
                                                dst@,
                                                sub@.take(t as int),
                                                pairs_view(resources@),
                                                strs_view(disk@),
                                            )->Ok_0;
                                            assert(out@.entries =~= before.entries.push(
                                                (PairModel { name: destv, path: r2@.path }),
                                            ));
                                            assert(out@.entries =~= old(out)@.entries
                                                + o.entries.push(
                                                (PairModel { name: destv, path: r2@.path }),
                                            ));
                                            assert(out@.actions =~= before.actions.push(
                                                (ActionModel::Symlink { src: r2@.path, dst: destv }),
                                            ));
                                            assert(out@.actions =~= old(out)@.actions
                                                + o.actions.push(
                                                (ActionModel::Symlink {
                                                    src: r2@.path,
                                                    dst: destv,
                                                }),
                                            ));
                                            assert(out@.missing =~= old(out)@.missing + o.missing);
                                            assert(resolve_nested(
                                                dir@,
                                                dst@,
                                                sub@.take(t as int + 1),
                                                pairs_view(resources@),
                                                strs_view(disk@),
                                            ) is Ok);
                                        }
                                    },
                                    None => {
                                        if disk_contains(disk, sv.as_str()) {
                                            out.actions.push(
                                                LinkAction::Symlink {
                                                    src: sv.clone(),
                                                    dst: sub[t].0.clone(),
                                                },
                                            );
                                            out.entries.push(
                                                ResourcePair {
                                                    name: sub[t].0.clone(),
                                                    path: sv.clone(),
                                                },
                                            );
                                            proof {
                                                assert(sub@.take(t as int + 1).drop_last()
                                                    =~= sub@.take(t as int));
                                                assert(sub@.take(t as int + 1).last() == sub@[t as int]);
                                                let o = resolve_nested(
                                                    dir@,
                                                    dst@,
                                                    sub@.take(t as int),
                                                    pairs_view(resources@),
                                                    strs_view(disk@),
                                                )->Ok_0;
                                                assert(out@.entries =~= before.entries.push(
                                                    (PairModel {
                                                        name: sub@[t as int].0@,
                                                        path: sv@,
                                                    }),
                                                ));
                                                assert(out@.actions =~= before.actions.push(
                                                    (ActionModel::Symlink {
                                                        src: sv@,
                                                        dst: sub@[t as int].0@,
                                                    }),
                                                ));
                                                assert(out@.entries =~= old(out)@.entries
                                                    + o.entries.push(
                                                    (PairModel {
                                                        name: sub@[t as int].0@,
                                                        path: sv@,
                                                    }),
                                                ));
                                                assert(out@.actions =~= old(out)@.actions
                                                    + o.actions.push(
                                                    (ActionModel::Symlink {
                                                        src: sv@,
                                                        dst: sub@[t as int].0@,
                                                    }),
                                                ));
                                                assert(out@.missing =~= old(out)@.missing
                                                    + o.missing);
                                                assert(resolve_nested(
                                                    dir@,
                                                    dst@,
                                                    sub@.take(t as int + 1),
                                                    pairs_view(resources@),
                                                    strs_view(disk@),
                                                ) is Ok);
                                            }
                                        } else {
                                            out.missing.push(sv.clone());
                                            proof {
                                                assert(sub@.take(t as int + 1).drop_last()
                                                    =~= sub@.take(t as int));
                                                assert(sub@.take(t as int + 1).last() == sub@[t as int]);
                                                let o = resolve_nested(
                                                    dir@,
                                                    dst@,
                                                    sub@.take(t as int),
                                                    pairs_view(resources@),
                                                    strs_view(disk@),
                                                )->Ok_0;
                                                assert(out@.entries =~= old(out)@.entries
                                                    + o.entries);
                                                assert(out@.actions =~= old(out)@.actions
                                                    + o.actions);
                                                assert(out@.missing =~= before.missing.push(sv@));
                                                assert(out@.missing =~= old(out)@.missing
                                                    + o.missing.push(sv@));
                                                assert(resolve_nested(
                                                    dir@,
                                                    dst@,
                                                    sub@.take(t as int + 1),
                                                    pairs_view(resources@),
                                                    strs_view(disk@),
                                                ) is Ok);
                                            }
                                        }
                                    },
                                }
                            },
                            _ => {
                                proof {
                                    assert(!(sub@[t as int].1 is Scalar));
                                    lemma_nested_error(
                                        dir@,
                                        dst@,
                                        sub@,
                                        pairs_view(resources@),
                                        strs_view(disk@),
                                        t as int,
                                    );
                                    assert(resolve_top(
                                        dir@,
                                        dst@,
                                        *node,
                                        pairs_view(resources@),
                                        strs_view(disk@),
                                        sfxv,
                                    ) == Err::<EntryOutcome, Seq<char>>(sub@[t as int].0@));
                                }
                                return Err(
                                    LinkerError::MalformedManifestEntry { key: sub[t].0.clone() },
                                );
                            },
                        }
                        t += 1;
                    }
                    proof {
                        assert(sub@.take(m2 as int) =~= sub@);
                        assert(!needs_instance(dst@, *node, pairs_view(resources@)));
                        assert(resolve_top(
                            dir@,
                            dst@,
                            *node,
                            pairs_view(resources@),
                            strs_view(disk@),
                            sfxv,
                        ) == resolve_nested(
                            dir@,
                            dst@,
                            sub@,
                            pairs_view(resources@),
                            strs_view(disk@),
                        ));
                    }
                    Ok(used)
                },
            }
        },
        _ => {
            proof {
                assert(resolve_top(
                    dir@,
                    dst@,
                    *node,
                    pairs_view(resources@),
                    strs_view(disk@),
                    sfxv,
                ) == Err::<EntryOutcome, Seq<char>>(dst@));
            }
            Err(LinkerError::MalformedManifestEntry { key: dst.clone() })
        },
    }
}

/// Resolve `manifest` for `dir` against the resource table, the list of
/// paths known to exist on disk, and an injected draw of instance
/// suffixes, consumed front to back. Deterministic: the injectable
/// counterpart of `resolve`.
#[verifier::loop_isolation(false)]
pub fn resolve_with(
    dir: &str,
    manifest: &ManifestNode,
    resources: &Vec<ResourcePair>,
    disk: &Vec<String>,
    suffixes: &Vec<String>,
) -> (r: Result<Resolution, LinkerError>)
    requires
        suffixes@.len() >= manifest_instances(*manifest, pairs_view(resources@)),
    ensures
        (match resolve_manifest(
            dir@,
            *manifest,
            pairs_view(resources@),
            strs_view(disk@),
            strs_view(suffixes@),
        ) {
            Ok(m) => r matches Ok(res) && res@ == m,
            Err(k) => r matches Err(e) && (e matches LinkerError::MalformedManifestEntry { key }
                && key@ == k),
        }),
{
    broadcast use {lemma_actions_view_index, lemma_strs_view_index, crate::registry::lemma_pairs_view_index};

    let items: &Vec<(String, ManifestNode)> = match manifest {
        ManifestNode::Table(v) => v,
        _ => {
            return Err(LinkerError::MalformedManifestEntry { key: String::new() });
        },
    };
    let mut out = Resolution { entries: Vec::new(), actions: Vec::new(), missing: Vec::new() };
    let mut used: usize = 0;
    let total = items.len();
    let mut idx: usize = 0;
    proof {
        assert(items@.take(0) =~= Seq::<(String, ManifestNode)>::empty());
        assert(out@.entries =~= Seq::<PairModel>::empty());
        assert(out@.actions =~= Seq::<ActionModel>::empty());
        assert(out@.missing =~= Seq::<Seq<char>>::empty());
    }
    while idx < total
        invariant
            total == items@.len(),
            idx <= total,
            used as int == count_instances(items@.take(idx as int), pairs_view(resources@)),
            resolve_entries(
                dir@,
                items@.take(idx as int),
                pairs_view(resources@),
                strs_view(disk@),
                strs_view(suffixes@),
            ) == Ok::<ResolutionModel, Seq<char>>(out@),
        decreases total - idx,
    {
        proof {
            lemma_count_step(items@, pairs_view(resources@), idx as int);
            lemma_count_take(items@, pairs_view(resources@), idx as int + 1);
        }
        let ghost snapshot = out@;
        let res1 = resolve_one(
            dir,
            &items[idx].0,
            &items[idx].1,
            resources,
            disk,
            suffixes,
            used,
            &mut out,
        );
        match res1 {
            Ok(u2) => {
                proof {
                    assert(items@.take(idx as int + 1).drop_last() =~= items@.take(idx as int));
                    assert(items@.take(idx as int + 1).last() == items@[idx as int]);
                    assert(resolve_entries(
                        dir@,
                        items@.take(idx as int + 1),
                        pairs_view(resources@),
                        strs_view(disk@),
                        strs_view(suffixes@),
                    ) == Ok::<ResolutionModel, Seq<char>>(out@));
                }
                used = u2;
                idx += 1;
            },
            Err(e) => {
                proof {
                    let k = resolve_top(
                        dir@,
                        items@[idx as int].0@,
                        items@[idx as int].1,
                        pairs_view(resources@),
                        strs_view(disk@),
                        strs_view(suffixes@)[used as int],
                    )->Err_0;
                    lemma_entries_error(
                        dir@,
                        items@,
                        pairs_view(resources@),
                        strs_view(disk@),
                        strs_view(suffixes@),
                        idx as int,
                        k,
                    );
                }
                return Err(e);
            },
        }
    }
    proof {
        assert(items@.take(total as int) =~= items@);
    }
    Ok(out)
}

/// Resolve `manifest` for `dir`, drawing a fresh nine-character
/// alphanumeric suffix for each instance entry.
#[verifier::loop_isolation(false)]
pub fn resolve(
    dir: &str,
    manifest: &ManifestNode,
    resources: &Vec<ResourcePair>,
    disk: &Vec<String>,
) -> (r: Result<Resolution, LinkerError>)
    ensures
        resolve_outcome(r, dir@, *manifest, pairs_view(resources@), strs_view(disk@)),
{
    let needed = count_instance_entries(manifest, resources);
    let mut suffixes: Vec<String> = Vec::new();
    while suffixes.len() < needed
        invariant
            suffixes@.len() <= needed,
            forall|i: int|
                0 <= i < suffixes@.len() ==> (#[trigger] suffixes@[i])@.len() == 9 && (forall|
                    j: int,
                |
                    0 <= j < suffixes@[i]@.len() ==> crate::utils::is_alnum_char(
                        #[trigger] suffixes@[i]@[j],
                    )),
        decreases needed - suffixes.len(),
    {
        let s = crate::utils::generate_random_string(9);
        suffixes.push(s);
    }
    let r = resolve_with(dir, manifest, resources, disk, &suffixes);
    proof {
        let sfxv = strs_view(suffixes@);
        assert forall|i: int| 0 <= i < sfxv.len() implies (#[trigger] sfxv[i]).len() == 9 && (
        forall|j: int|
            0 <= j < sfxv[i].len() ==> crate::utils::is_alnum_char(#[trigger] sfxv[i][j])) by {
            assert(sfxv[i] == suffixes@[i]@);
        }
        assert(suffixes_wf(sfxv, manifest_instances(*manifest, pairs_view(resources@))));
    }
    r
}

/// Two different suffixes of one length give two different instance paths
/// for the same resource.
pub proof fn lemma_instance_isolation(
    rpath: Seq<char>,
    rname: Seq<char>,
    s1: Seq<char>,
    s2: Seq<char>,
)
    requires
        s1.len() == s2.len(),
        s1 != s2,
    ensures
        instance_path(rpath, rname, s1) != instance_path(rpath, rname, s2),
{
    let q = instance_prefix(rpath, rname);
    if instance_path(rpath, rname, s1) == instance_path(rpath, rname, s2) {
        assert forall|i: int| 0 <= i < s1.len() implies s1[i] == s2[i] by {
            assert((q + s1)[q.len() + i] == s1[i]);
            assert((q + s2)[q.len() + i] == s2[i]);
        }
        assert(s1 =~= s2);
    }
}

/// Instance isolation at the resolver: resolving the same instance entry
/// under two different (equal-length) suffix draws yields link entries for
/// the same `dst` whose target paths differ.
pub proof fn lemma_resolve_instance_isolation(
    dir: Seq<char>,
    dst: Seq<char>,
    node: ManifestNode,
    resources: Seq<PairModel>,
    disk: Seq<Seq<char>>,
    s1: Seq<char>,
    s2: Seq<char>,
)
    requires
        needs_instance(dst, node, resources),
        s1.len() == s2.len(),
        s1 != s2,
    ensures
        ({
            let r1 = resolve_top(dir, dst, node, resources, disk, s1);
            let r2 = resolve_top(dir, dst, node, resources, disk, s2);
            &&& r1 is Ok && r2 is Ok
            &&& r1->Ok_0.entries.len() == 1 && r2->Ok_0.entries.len() == 1
            &&& r1->Ok_0.entries[0].name == dst && r2->Ok_0.entries[0].name == dst
            &&& r1->Ok_0.entries[0].path != r2->Ok_0.entries[0].path
        }),
{
    let res = find_pair(resources, dst)->Some_0;
    lemma_instance_isolation(res.path, res.name, s1, s2);
}

/// Fallback resolution: a nested scalar that names no resource links to
/// its literal path when that path exists on disk, and is skipped with a
/// diagnostic — resolution still succeeding — when it does not.
pub proof fn lemma_fallback(
    dir: Seq<char>,
    dst: Seq<char>,
    items: Seq<(String, ManifestNode)>,
    resources: Seq<PairModel>,
    disk: Seq<Seq<char>>,
    t: int,
)
    requires
        0 <= t < items.len(),
        items[t].1 is Scalar,
        find_pair(resources, items[t].1->Scalar_0@) is None,
        resolve_nested(dir, dst, items.take(t), resources, disk) is Ok,
    ensures
        resolve_nested(dir, dst, items.take(t + 1), resources, disk) is Ok,
        ({
            let s = items[t].1->Scalar_0@;
            let pre = resolve_nested(dir, dst, items.take(t), resources, disk)->Ok_0;
            let cur = resolve_nested(dir, dst, items.take(t + 1), resources, disk)->Ok_0;
            &&& disk.contains(s) ==> cur.entries == pre.entries.push(
                PairModel { name: items[t].0@, path: s },
            ) && cur.missing == pre.missing
            &&& !disk.contains(s) ==> cur.entries == pre.entries && cur.missing
                == pre.missing.push(s)
        }),
{
    assert(items.take(t + 1).drop_last() =~= items.take(t));
    assert(items.take(t + 1).last() == items[t]);
}

/// A structurally well-formed top-level entry: a table; under a key that
/// names a resource any `instance` value is a boolean, and under any other
/// key every nested value is a scalar.
pub open spec fn entry_wf(dst: Seq<char>, node: ManifestNode, resources: Seq<PairModel>) -> bool {
    match node {
        ManifestNode::Table(items) => if find_pair(resources, dst) is Some {
            match table_get(items@, instance_key()) {
                Some(fl) => fl is Bool,
                None => true,
            }
        } else {
            forall|j: int| 0 <= j < items@.len() ==> (#[trigger] items@[j]).1 is Scalar
        },
        _ => false,
    }
}

/// A structurally well-formed manifest: a table of well-formed entries.
pub open spec fn manifest_wf(m: ManifestNode, resources: Seq<PairModel>) -> bool {
    match m {
        ManifestNode::Table(ms) => forall|i: int|
            0 <= i < ms@.len() ==> entry_wf((#[trigger] ms@[i]).0@, ms@[i].1, resources),
        _ => false,
    }
}

/// A well-formed nested entry list always resolves.
proof fn lemma_nested_ok(
    dir: Seq<char>,
    dst: Seq<char>,
    items: Seq<(String, ManifestNode)>,
    resources: Seq<PairModel>,
    disk: Seq<Seq<char>>,
)
    requires
        forall|j: int| 0 <= j < items.len() ==> (#[trigger] items[j]).1 is Scalar,
    ensures
        resolve_nested(dir, dst, items, resources, disk) is Ok,
    decreases items.len(),
{
    if items.len() > 0 {
        assert(forall|j: int|
            0 <= j < items.drop_last().len() ==> (#[trigger] items.drop_last()[j]).1 is Scalar);
        lemma_nested_ok(dir, dst, items.drop_last(), resources, disk);
    }
}

/// A well-formed top-level entry always resolves.
proof fn lemma_top_ok(
    dir: Seq<char>,
    dst: Seq<char>,
    node: ManifestNode,
    resources: Seq<PairModel>,
    disk: Seq<Seq<char>>,
    suffix: Seq<char>,
)
    requires
        entry_wf(dst, node, resources),
    ensures
        resolve_top(dir, dst, node, resources, disk, suffix) is Ok,
{
    match node {
        ManifestNode::Table(items) => {
            if find_pair(resources, dst) is None {
                lemma_nested_ok(dir, dst, items@, resources, disk);
            }
        },
        _ => {},
    }
}

/// No abort on unresolvable references: a structurally well-formed
/// manifest always resolves; a reference that names no resource and no
/// existing path is skipped and reported, and every other entry is still
/// resolved.
pub proof fn lemma_wellformed_resolves(
    dir: Seq<char>,
    m: ManifestNode,
    resources: Seq<PairModel>,
    disk: Seq<Seq<char>>,
    suffixes: Seq<Seq<char>>,
)
    requires
        manifest_wf(m, resources),
    ensures
        resolve_manifest(dir, m, resources, disk, suffixes) is Ok,
{
    match m {
        ManifestNode::Table(ms) => {
            lemma_entries_ok(dir, ms@, resources, disk, suffixes);
        },
        _ => {},
    }
}

/// Well-formed top-level entry lists always resolve.
proof fn lemma_entries_ok(
    dir: Seq<char>,
    ms: Seq<(String, ManifestNode)>,
    resources: Seq<PairModel>,
    disk: Seq<Seq<char>>,
    suffixes: Seq<Seq<char>>,
)
    requires
        forall|i: int| 0 <= i < ms.len() ==> entry_wf((#[trigger] ms[i]).0@, ms[i].1, resources),
    ensures
        resolve_entries(dir, ms, resources, disk, suffixes) is Ok,
    decreases ms.len(),
{
    if ms.len() > 0 {
        assert(forall|i: int|
            0 <= i < ms.drop_last().len() ==> entry_wf(
                (#[trigger] ms.drop_last()[i]).0@,
                ms.drop_last()[i].1,
                resources,
            ));
        lemma_entries_ok(dir, ms.drop_last(), resources, disk, suffixes);
        lemma_top_ok(
            dir,
            ms.last().0@,
            ms.last().1,
            resources,
            disk,
            suffixes[count_instances(ms.drop_last(), resources)],
        );
    }
}

} // verus!
