use vstd::prelude::*;

use crate::strutil::str_eq;
use vstd::string::StringExecFns;
use crate::LinkerError;
use crate::manifest::ManifestNode;
use crate::resolve::{Resolution, resolve_outcome, strs_view, resolve};

verus! {

/// One registered resource, or one realized link: a `name` and the
/// filesystem `path` it refers to.
#[derive(Clone, Debug, PartialEq)]
pub struct ResourcePair {
    pub name: String,
    pub path: String,
}

/// Mathematical image of a `ResourcePair`: both fields as character sequences.
pub ghost struct PairModel {
    pub name: Seq<char>,
    pub path: Seq<char>,
}

impl View for ResourcePair {
    type V = PairModel;

    open spec fn view(&self) -> PairModel {
        PairModel { name: self.name@, path: self.path@ }
    }
}

impl ResourcePair {
    /// A copy whose fields equal this pair's.
    pub fn duplicate(&self) -> (r: ResourcePair)
        ensures
            r == *self,
    {
        ResourcePair { name: self.name.clone(), path: self.path.clone() }
    }
}

/// The recorded link-set for one directory.
#[derive(Debug)]
pub struct LinkerLog {
    pub dir: String,
    pub link: Vec<ResourcePair>,
}

/// Mathematical image of a `LinkerLog`.
pub ghost struct LogModel {
    pub dir: Seq<char>,
    pub link: Seq<PairModel>,
}

/// View of a sequence of pairs, element by element.
pub open spec fn pairs_view(s: Seq<ResourcePair>) -> Seq<PairModel> {
    Seq::new(s.len(), |i: int| s[i]@)
}

/// Indexing a viewed sequence of pairs views the element.
pub broadcast proof fn lemma_pairs_view_index(s: Seq<ResourcePair>, i: int)
    requires
        0 <= i < s.len(),
    ensures
        #[trigger] pairs_view(s)[i] == s[i]@,
{
}

/// View of a sequence of logs, element by element.
pub open spec fn logs_view(s: Seq<LinkerLog>) -> Seq<LogModel> {
    Seq::new(s.len(), |i: int| s[i]@)
}

impl View for LinkerLog {
    type V = LogModel;

    open spec fn view(&self) -> LogModel {
        LogModel { dir: self.dir@, link: pairs_view(self.link@) }
    }
}

/// The registry: the resource table and the log of link-sets, the single
/// source of truth for what has been registered and what has been linked.
#[derive(Debug)]
pub struct Config {
    pub resources: Vec<ResourcePair>,
    pub links: Vec<LinkerLog>,
}

/// Mathematical image of the registry.
pub ghost struct RegistryModel {
    pub resources: Seq<PairModel>,
    pub links: Seq<LogModel>,
}

impl View for Config {
    type V = RegistryModel;

    open spec fn view(&self) -> RegistryModel {
        RegistryModel {
            resources: pairs_view(self.resources@),
            links: logs_view(self.links@),
        }
    }
}

/// Index of the first pair named `name`, or -1 when there is none.
pub open spec fn first_pair_match(rs: Seq<PairModel>, name: Seq<char>) -> int
    decreases rs.len(),
{
    if rs.len() == 0 {
        -1
    } else if rs[0].name == name {
        0
    } else {
        let r = first_pair_match(rs.drop_first(), name);
        if r == -1 {
            -1
        } else {
            r + 1
        }
    }
}

/// `first_pair_match` returns -1 exactly when no pair has the name, and
/// otherwise the least index of a pair with the name.
pub proof fn lemma_first_pair_match(rs: Seq<PairModel>, name: Seq<char>)
    ensures
        (first_pair_match(rs, name) == -1) <==> (forall|j: int|
            0 <= j < rs.len() ==> rs[j].name != name),
        first_pair_match(rs, name) != -1 ==> {
            let i = first_pair_match(rs, name);
            &&& 0 <= i < rs.len()
            &&& rs[i].name == name
            &&& forall|j: int| 0 <= j < i ==> rs[j].name != name
        },
    decreases rs.len(),
{
    if rs.len() > 0 && rs[0].name != name {
        let tail = rs.drop_first();
        lemma_first_pair_match(tail, name);
        assert(forall|j: int| 0 <= j < tail.len() ==> tail[j] == rs[j + 1]);
        let r = first_pair_match(tail, name);
        if r == -1 {
            assert forall|j: int| 0 <= j < rs.len() implies rs[j].name != name by {
                if j > 0 {
                    assert(rs[j] == tail[j - 1]);
                }
            }
        } else {
            assert(rs[r + 1] == tail[r]);
            assert forall|j: int| 0 <= j < r + 1 implies rs[j].name != name by {
                if j > 0 {
                    assert(rs[j] == tail[j - 1]);
                }
            }
        }
    }
}

/// The first pair named `name`, if any.
pub open spec fn find_pair(rs: Seq<PairModel>, name: Seq<char>) -> Option<PairModel> {
    let i = first_pair_match(rs, name);
    if i == -1 {
        None
    } else {
        Some(rs[i])
    }
}

/// Add-or-replace by name: the first pair named `name` gets the new path;
/// when none exists a new pair is appended.
pub open spec fn upsert_pair(rs: Seq<PairModel>, name: Seq<char>, path: Seq<char>) -> Seq<
    PairModel,
> {
    let i = first_pair_match(rs, name);
    if i == -1 {
        rs.push(PairModel { name, path })
    } else {
        rs.update(i, PairModel { name, path })
    }
}

/// Remove the first pair named `name`; no change when none exists.
pub open spec fn remove_pair(rs: Seq<PairModel>, name: Seq<char>) -> Seq<PairModel> {
    let i = first_pair_match(rs, name);
    if i == -1 {
        rs
    } else {
        rs.remove(i)
    }
}

/// Index of the first log for `dir`, or -1 when there is none.
pub open spec fn first_log_match(ls: Seq<LogModel>, dir: Seq<char>) -> int
    decreases ls.len(),
{
    if ls.len() == 0 {
        -1
    } else if ls[0].dir == dir {
        0
    } else {
        let r = first_log_match(ls.drop_first(), dir);
        if r == -1 {
            -1
        } else {
            r + 1
        }
    }
}

/// `first_log_match` returns -1 exactly when no log has the directory, and
/// otherwise the least index of a log for it.
pub proof fn lemma_first_log_match(ls: Seq<LogModel>, dir: Seq<char>)
    ensures
        (first_log_match(ls, dir) == -1) <==> (forall|j: int|
            0 <= j < ls.len() ==> ls[j].dir != dir),
        first_log_match(ls, dir) != -1 ==> {
            let i = first_log_match(ls, dir);
            &&& 0 <= i < ls.len()
            &&& ls[i].dir == dir
            &&& forall|j: int| 0 <= j < i ==> ls[j].dir != dir
        },
    decreases ls.len(),
{
    if ls.len() > 0 && ls[0].dir != dir {
        let tail = ls.drop_first();
        lemma_first_log_match(tail, dir);
        assert(forall|j: int| 0 <= j < tail.len() ==> tail[j] == ls[j + 1]);
        let r = first_log_match(tail, dir);
        if r == -1 {
            assert forall|j: int| 0 <= j < ls.len() implies ls[j].dir != dir by {
                if j > 0 {
                    assert(ls[j] == tail[j - 1]);
                }
            }
        } else {
            assert(ls[r + 1] == tail[r]);
            assert forall|j: int| 0 <= j < r + 1 implies ls[j].dir != dir by {
                if j > 0 {
                    assert(ls[j] == tail[j - 1]);
                }
            }
        }
    }
}

/// The link entries recorded for `dir`, if any log exists for it.
pub open spec fn find_log(ls: Seq<LogModel>, dir: Seq<char>) -> Option<LogModel> {
    let i = first_log_match(ls, dir);
    if i == -1 {
        None
    } else {
        Some(ls[i])
    }
}

/// Remove the first log for `dir`; no change when none exists.
pub open spec fn remove_log(ls: Seq<LogModel>, dir: Seq<char>) -> Seq<LogModel> {
    let i = first_log_match(ls, dir);
    if i == -1 {
        ls
    } else {
        ls.remove(i)
    }
}

/// The first pair in a resource list whose name is `name`, if any.
#[verifier::loop_isolation(false)]
pub fn find_resource_vec<'a>(resources: &'a Vec<ResourcePair>, name: &str) -> (r: Option<
    &'a ResourcePair,
>)
    ensures
        match r {
            Some(p) => find_pair(pairs_view(resources@), name@) == Some(p@),
            None => find_pair(pairs_view(resources@), name@) is None,
        },
{
    let n = resources.len();
    let mut i: usize = 0;
    while i < n
        invariant
            n == resources@.len(),
            i <= n,
            forall|j: int| 0 <= j < i ==> pairs_view(resources@)[j].name != name@,
        decreases n - i,
    {
        let hit = str_eq(resources[i].name.as_str(), name);
        proof {
            assert(pairs_view(resources@)[i as int] == resources@[i as int]@);
        }
        if hit {
            proof {
                lemma_first_pair_match(pairs_view(resources@), name@);
                assert(first_pair_match(pairs_view(resources@), name@) == i as int);
            }
            return Some(&resources[i]);
        }
        i += 1;
    }
    proof {
        lemma_first_pair_match(pairs_view(resources@), name@);
    }
    None
}

impl Config {
    /// An empty registry, as first use with no stored file initializes.
    pub fn empty() -> (c: Config)
        ensures
            c@.resources.len() == 0,
            c@.links.len() == 0,
    {
        Config { resources: Vec::new(), links: Vec::new() }
    }

    /// The first registered resource named `name`, if any.
    pub fn get_resource<'a>(&'a self, name: &str) -> (r: Option<&'a ResourcePair>)
        ensures
            match r {
                Some(p) => find_pair(self@.resources, name@) == Some(p@),
                None => find_pair(self@.resources, name@) is None,
            },
    {
        find_resource_vec(&self.resources, name)
    }

    /// Add-or-replace a resource by name; the link log is untouched.
    #[verifier::loop_isolation(false)]
    pub fn add_resource(&mut self, name: &str, path: &String)
        ensures
            final(self)@.resources == upsert_pair(old(self)@.resources, name@, path@),
            final(self)@.links == old(self)@.links,
    {
        let n = self.resources.len();
        let mut i: usize = 0;
        while i < n
            invariant
                *self == *old(self),
                n == self.resources.len(),
                i <= n,
                forall|j: int| 0 <= j < i ==> old(self)@.resources[j].name != name@,
            decreases n - i,
        {
            let hit = str_eq(self.resources[i].name.as_str(), name);
            proof {
                assert(old(self)@.resources[i as int] == self.resources@[i as int]@);
            }
            if hit {
                proof {
                    lemma_first_pair_match(old(self)@.resources, name@);
                    assert(first_pair_match(old(self)@.resources, name@) == i as int);
                }
                let prev = self.resources.remove(i);
                let fresh = ResourcePair { name: prev.name, path: path.clone() };
                self.resources.insert(i, fresh);
                proof {
                    let target = upsert_pair(old(self)@.resources, name@, path@);
                    assert forall|j: int| 0 <= j < self@.resources.len() implies self@.resources[j]
                        == target[j] by {
                        assert(self@.resources[j] == self.resources@[j]@);
                    }
                    assert(self@.resources =~= target);
                    assert(self@.links =~= old(self)@.links);
                }
                return ;
            }
            i += 1;
        }
        proof {
            lemma_first_pair_match(old(self)@.resources, name@);
        }
        let fresh = ResourcePair { name: String::from_str(name), path: path.clone() };
        self.resources.push(fresh);
        proof {
            assert forall|j: int| 0 <= j < self@.resources.len() implies self@.resources[j]
                == upsert_pair(old(self)@.resources, name@, path@)[j] by {
                assert(self@.resources[j] == self.resources@[j]@);
            }
            assert(self@.resources =~= upsert_pair(old(self)@.resources, name@, path@));
            assert(self@.links =~= old(self)@.links);
        }
    }

    /// Remove one resource by name, or all of them; the link log is
    /// untouched either way, and a call with neither a name nor `all`
    /// changes nothing.
    #[verifier::loop_isolation(false)]
    pub fn remove_resource(&mut self, name: Option<&str>, all: bool)
        ensures
            all ==> final(self)@.resources.len() == 0 && final(self)@.links == old(self)@.links,
            !all ==> match name {
                Some(n) => final(self)@.resources == remove_pair(old(self)@.resources, n@)
                    && final(self)@.links == old(self)@.links,
                None => *final(self) == *old(self),
            },
    {
        if all {
            self.resources.clear();
            proof {
                assert(self@.links =~= old(self)@.links);
            }
            return ;
        }
        match name {
            Some(n) => {
                        let count = self.resources.len();
                let mut i: usize = 0;
                while i < count
                    invariant
                        *self == *old(self),
                        count == self.resources.len(),
                        i <= count,
                        forall|j: int| 0 <= j < i ==> old(self)@.resources[j].name != n@,
                    decreases count - i,
                {
                    let hit = str_eq(self.resources[i].name.as_str(), n);
                    proof {
                        assert(old(self)@.resources[i as int] == self.resources@[i as int]@);
                    }
                    if hit {
                        proof {
                            lemma_first_pair_match(old(self)@.resources, n@);
                            assert(first_pair_match(old(self)@.resources, n@) == i as int);
                        }
                        self.resources.remove(i);
                        proof {
                            assert forall|j: int| 0 <= j < self@.resources.len() implies
                                self@.resources[j] == remove_pair(old(self)@.resources, n@)[j] by {
                                assert(self@.resources[j] == self.resources@[j]@);
                            }
                            assert(self@.resources =~= remove_pair(old(self)@.resources, n@));
                            assert(self@.links =~= old(self)@.links);
                        }
                        return ;
                    }
                    i += 1;
                }
                proof {
                    lemma_first_pair_match(old(self)@.resources, n@);
                    assert(self@.resources =~= remove_pair(old(self)@.resources, n@));
                }
            },
            None => {},
        }
    }

    /// Tear a directory's recorded link-set out of the log, returning the
    /// entries that were recorded for it so their links can be removed from
    /// disk; the resource table is untouched.
    #[verifier::loop_isolation(false)]
    pub fn remove_link(&mut self, dir: &str) -> (removed: Vec<ResourcePair>)
        ensures
            final(self)@.links == remove_log(old(self)@.links, dir@),
            final(self)@.resources == old(self)@.resources,
            pairs_view(removed@) == match find_log(old(self)@.links, dir@) {
                Some(l) => l.link,
                None => Seq::<PairModel>::empty(),
            },
    {
        let n = self.links.len();
        let mut i: usize = 0;
        while i < n
            invariant
                *self == *old(self),
                n == self.links.len(),
                i <= n,
                forall|j: int| 0 <= j < i ==> old(self)@.links[j].dir != dir@,
            decreases n - i,
        {
            let hit = str_eq(self.links[i].dir.as_str(), dir);
            proof {
                assert(old(self)@.links[i as int] == self.links@[i as int]@);
            }
            if hit {
                proof {
                    lemma_first_log_match(old(self)@.links, dir@);
                    assert(first_log_match(old(self)@.links, dir@) == i as int);
                }
                let mut removed: Vec<ResourcePair> = Vec::new();
                let m = self.links[i].link.len();
                let mut k: usize = 0;
                while k < m
                    invariant
                        *self == *old(self),
                        i < self.links.len(),
                        old(self)@.links[i as int] == self.links@[i as int]@,
                        m == self.links@[i as int].link@.len(),
                        k <= m,
                        pairs_view(removed@) =~= old(self)@.links[i as int].link.take(k as int),
                    decreases m - k,
                {
                    let p = self.links[i].link[k].duplicate();
                    proof {
                        assert(p@ == self.links@[i as int].link@[k as int]@);
                        assert(p@ == old(self)@.links[i as int].link[k as int]);
                    }
                    let ghost prior = removed@;
                    removed.push(p);
                    proof {
                        let target = old(self)@.links[i as int].link.take(k as int + 1);
                        assert forall|j: int| 0 <= j < removed@.len() implies pairs_view(removed@)[j]
                            == target[j] by {
                            if j < k as int {
                                assert(pairs_view(prior)[j] == old(self)@.links[i as int].link.take(
                                    k as int,
                                )[j]);
                                assert(removed@[j] == prior[j]);
                            } else {
                                assert(removed@[j] == p);
                            }
                        }
                        assert(pairs_view(removed@) =~= target);
                    }
                    k += 1;
                }
                self.links.remove(i);
                proof {
                    assert forall|j: int| 0 <= j < self@.links.len() implies self@.links[j]
                        == remove_log(old(self)@.links, dir@)[j] by {
                        assert(self@.links[j] == self.links@[j]@);
                    }
                    assert(self@.links =~= remove_log(old(self)@.links, dir@));
                    assert(self@.resources =~= old(self)@.resources);
                    assert(pairs_view(removed@) =~= old(self)@.links[i as int].link);
                }
                return removed;
            }
            i += 1;
        }
        let none_removed: Vec<ResourcePair> = Vec::new();
        proof {
            lemma_first_log_match(old(self)@.links, dir@);
            assert(self@.links =~= remove_log(old(self)@.links, dir@));
            assert(pairs_view(none_removed@) =~= Seq::<PairModel>::empty());
        }
        none_removed
    }
}

/// Copies of the pairs in `v`, in order.
#[verifier::loop_isolation(false)]
fn duplicate_pairs(v: &Vec<ResourcePair>) -> (r: Vec<ResourcePair>)
    ensures
        r@ == v@,
{
    let n = v.len();
    let mut r: Vec<ResourcePair> = Vec::new();
    while r.len() < n
        invariant
            n == v@.len(),
            r@.len() <= n,
            r@ == v@.take(r@.len() as int),
        decreases n - r.len(),
    {
        let i = r.len();
        r.push(v[i].duplicate());
        proof {
            assert(r@ =~= v@.take(r@.len() as int));
        }
    }
    proof {
        assert(r@ =~= v@);
    }
    r
}

impl Config {
    /// Resolve `manifest` for `dir` and append the resulting link-set to
    /// the log; the returned resolution holds the filesystem actions the
    /// caller performs and the references that were skipped with a
    /// diagnostic. On a malformed manifest the registry is unchanged.
    pub fn add_link(&mut self, dir: &str, manifest: &ManifestNode, disk: &Vec<String>) -> (r:
        Result<Resolution, LinkerError>)
        ensures
            resolve_outcome(r, dir@, *manifest, old(self)@.resources, strs_view(disk@)),
            final(self)@.resources == old(self)@.resources,
            r matches Ok(res) ==> final(self)@.links == old(self)@.links.push(
                (LogModel { dir: dir@, link: res@.entries }),
            ),
            r matches Err(e) ==> *final(self) == *old(self),
    {
        match resolve(dir, manifest, &self.resources, disk) {
            Ok(res) => {
                let entries_copy = duplicate_pairs(&res.entries);
                let log = LinkerLog { dir: String::from_str(dir), link: entries_copy };
                let ghost logv = log@;
                self.links.push(log);
                proof {
                    assert(logv == (LogModel { dir: dir@, link: res@.entries }));
                    assert forall|j: int| 0 <= j < self@.links.len() implies self@.links[j]
                        == old(self)@.links.push(logv)[j] by {
                        assert(self@.links[j] == self.links@[j]@);
                        if j < old(self)@.links.len() {
                            assert(old(self)@.links[j] == old(self).links@[j]@);
                        }
                    }
                    assert(self@.links =~= old(self)@.links.push(logv));
                    assert(self@.resources =~= old(self)@.resources);
                }
                Ok(res)
            },
            Err(e) => Err(e),
        }
    }

    /// Re-link a directory: tear its recorded link-set out of the log,
    /// resolve the manifest anew, and record the fresh set. The first
    /// element of the result lists the previously recorded entries, whose
    /// links the caller removes from disk before performing the new
    /// actions. On a malformed manifest the registry is unchanged and
    /// nothing is torn down.
    pub fn link(&mut self, dir: &str, manifest: &ManifestNode, disk: &Vec<String>) -> (r: Result<
        (Vec<ResourcePair>, Resolution),
        LinkerError,
    >)
        ensures
            final(self)@.resources == old(self)@.resources,
            (match r {
                Ok(pr) => {
                    &&& pairs_view(pr.0@) == (match find_log(old(self)@.links, dir@) {
                        Some(l) => l.link,
                        None => Seq::<PairModel>::empty(),
                    })
                    &&& final(self)@.links == remove_log(old(self)@.links, dir@).push(
                        (LogModel { dir: dir@, link: pr.1@.entries }),
                    )
                    &&& resolve_outcome(
                        Ok(pr.1),
                        dir@,
                        *manifest,
                        old(self)@.resources,
                        strs_view(disk@),
                    )
                },
                Err(e) => *final(self) == *old(self) && resolve_outcome(
                    Err(e),
                    dir@,
                    *manifest,
                    old(self)@.resources,
                    strs_view(disk@),
                ),
            }),
    {
        match resolve(dir, manifest, &self.resources, disk) {
            Ok(res) => {
                let removed = self.remove_link(dir);
                let entries_copy = duplicate_pairs(&res.entries);
                let log = LinkerLog { dir: String::from_str(dir), link: entries_copy };
                let ghost logv = log@;
                let ghost mid = self.links@;
                self.links.push(log);
                proof {
                    assert(logv == (LogModel { dir: dir@, link: res@.entries }));
                    assert(logs_view(mid) == remove_log(old(self)@.links, dir@));
                    assert forall|j: int| 0 <= j < self@.links.len() implies self@.links[j]
                        == logs_view(mid).push(logv)[j] by {
                        assert(self@.links[j] == self.links@[j]@);
                        if j < mid.len() {
                            assert(logs_view(mid)[j] == mid[j]@);
                        }
                    }
                    assert(self@.links =~= logs_view(mid).push(logv));
                }
                Ok((removed, res))
            },
            Err(e) => Err(e),
        }
    }
}

/// Every directory occurs at most once in the log.
pub open spec fn unique_dirs(ls: Seq<LogModel>) -> bool {
    forall|i: int, j: int|
        0 <= i < ls.len() && 0 <= j < ls.len() && i != j ==> ls[i].dir != ls[j].dir
}

/// Re-linking replaces, never accumulates: on a log whose directories are
/// unique, tearing down `dir` and recording a fresh link-set for it leaves
/// `dir` mapped to exactly the fresh entries, and keeps the directories
/// unique.
pub proof fn lemma_relink_replaces(ls: Seq<LogModel>, dir: Seq<char>, fresh: Seq<PairModel>)
    requires
        unique_dirs(ls),
    ensures
        ({
            let after = remove_log(ls, dir).push(LogModel { dir, link: fresh });
            &&& find_log(after, dir) == Some(LogModel { dir, link: fresh })
            &&& unique_dirs(after)
        }),
{
    lemma_first_log_match(ls, dir);
    let i0 = first_log_match(ls, dir);
    let rem = remove_log(ls, dir);
    assert forall|m: int| 0 <= m < rem.len() implies rem[m].dir != dir by {
        if i0 != -1 {
            if m < i0 {
                assert(rem[m] == ls[m]);
            } else {
                assert(rem[m] == ls[m + 1]);
            }
        }
    }
    assert forall|m: int, k: int|
        0 <= m < rem.len() && 0 <= k < rem.len() && m != k implies rem[m].dir != rem[k].dir by {
        if i0 == -1 {
        } else {
            let m0 = if m < i0 { m } else { m + 1 };
            let k0 = if k < i0 { k } else { k + 1 };
            assert(rem[m] == ls[m0]);
            assert(rem[k] == ls[k0]);
        }
    }
    let after = rem.push(LogModel { dir, link: fresh });
    lemma_first_log_match(after, dir);
    assert(after[rem.len() as int].dir == dir);
    assert(first_log_match(after, dir) == rem.len());
}

/// Adding a resource and looking it up round-trips: after an upsert of
/// (`name`, `path`), the lookup of `name` yields exactly that pair.
pub proof fn lemma_upsert_find(rs: Seq<PairModel>, name: Seq<char>, path: Seq<char>)
    ensures
        find_pair(upsert_pair(rs, name, path), name) == Some(PairModel { name, path }),
{
    lemma_first_pair_match(rs, name);
    let i = first_pair_match(rs, name);
    if i == -1 {
        let after = rs.push(PairModel { name, path });
        lemma_first_pair_match(after, name);
        assert(after[rs.len() as int].name == name);
        assert(first_pair_match(after, name) == rs.len());
    } else {
        let after = rs.update(i, PairModel { name, path });
        lemma_first_pair_match(after, name);
        assert(after[i].name == name);
        assert(first_pair_match(after, name) == i);
    }
}

/// Removal is exact: removing `name` deletes the first pair with that
/// name and no other, keeping every remaining pair in order; removing an
/// absent name changes nothing.
pub proof fn lemma_remove_exact(rs: Seq<PairModel>, name: Seq<char>)
    ensures
        find_pair(rs, name) is None ==> remove_pair(rs, name) == rs,
        find_pair(rs, name) is Some ==> {
            let i = first_pair_match(rs, name);
            &&& remove_pair(rs, name).len() == rs.len() - 1
            &&& forall|j: int| 0 <= j < i ==> remove_pair(rs, name)[j] == rs[j]
            &&& forall|j: int|
                i <= j < rs.len() - 1 ==> remove_pair(rs, name)[j] == rs[j + 1]
        },
{
    lemma_first_pair_match(rs, name);
}

} // verus!
