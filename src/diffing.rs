//! Building a diff: content groups keyed by hash, and their classification into a manifest.
use crate::common::FoldiffError;
use crate::manifest::{
    paths_view, DiffManifest, DuplicatedFile, ManifestModel, NewFile, PatchedFile, SENTINEL,
};
use crate::common::VERSION_NUMBER_LATEST;
use crate::hash::xxh64;
use std::collections::BTreeMap;
use vstd::hash_map::StringHashMap;
use vstd::prelude::*;
use vstd::std_specs::cmp::OrdSpec;
use vstd::std_specs::iter::IteratorSpec;

verus! {

broadcast use vstd::std_specs::btree::group_btree_axioms, vstd::laws_cmp::group_laws_cmp;

/// The paths that carry one content, in the old tree and in the new tree.
pub struct DiffingFileData {
    pub paths_old: Vec<String>,
    pub paths_new: Vec<String>,
}

/// A content group as values: old paths, new paths.
pub type Group = (Seq<Seq<char>>, Seq<Seq<char>>);

pub open spec fn group_view(d: DiffingFileData) -> Group {
    (paths_view(d.paths_old@), paths_view(d.paths_new@))
}

/// An in-memory diff under construction.
pub struct DiffingDiff {
    blobs_new: Vec<String>,
    blobs_patch: Vec<String>,
    old_root: String,
    new_root: String,
    files: BTreeMap<u64, DiffingFileData>,
    file_paths_old: StringHashMap<u64>,
    file_paths_new: StringHashMap<u64>,
}

/// Strictly increasing.
pub open spec fn increasing(s: Seq<u64>) -> bool {
    forall|i: int, j: int| 0 <= i < j < s.len() ==> s[i] < s[j]
}

/// The elements of a finite set of hashes in increasing order.
pub open spec fn sorted_keys(s: Set<u64>) -> Seq<u64> {
    choose|ks: Seq<u64>| increasing(ks) && ks.to_set() == s
}

/// Two increasing sequences with the same elements are the same sequence.
#[verifier::rlimit(40)]
pub proof fn lemma_increasing_unique(a: Seq<u64>, b: Seq<u64>)
    requires
        increasing(a),
        increasing(b),
        a.to_set() == b.to_set(),
    ensures
        a == b,
    decreases a.len(),
{
    if a.len() == 0 {
        if b.len() > 0 {
            assert(b.to_set().contains(b[0]));
        }
        assert(a =~= b);
    } else {
        assert(a.to_set().contains(a[0]));
        assert(b.len() > 0);
        assert(b.to_set().contains(b[0]));
        let j = choose|j: int| 0 <= j < b.len() && b[j] == a[0];
        let i = choose|i: int| 0 <= i < a.len() && a[i] == b[0];
        assert(a[0] == b[0]) by {
            if i > 0 {
                assert(a[0] < a[i]);
            }
            if j > 0 {
                assert(b[0] < b[j]);
            }
        }
        let a2 = a.drop_first();
        let b2 = b.drop_first();
        assert forall|x: u64| a2.to_set().contains(x) <==> b2.to_set().contains(x) by {
            if a2.to_set().contains(x) {
                let k = choose|k: int| 0 <= k < a2.len() && a2[k] == x;
                assert(a.to_set().contains(x));
                assert(a[k + 1] == x && a[0] < x);
                let l = choose|l: int| 0 <= l < b.len() && b[l] == x;
                assert(l > 0);
                assert(b2[l - 1] == x);
            }
            if b2.to_set().contains(x) {
                let k = choose|k: int| 0 <= k < b2.len() && b2[k] == x;
                assert(b.to_set().contains(x));
                assert(b[k + 1] == x && b[0] < x);
                let l = choose|l: int| 0 <= l < a.len() && a[l] == x;
                assert(l > 0);
                assert(a2[l - 1] == x);
            }
        }
        assert(a2.to_set() =~= b2.to_set());
        lemma_increasing_unique(a2, b2);
        assert(a =~= b) by {
            assert(a == seq![a[0]] + a2);
            assert(b == seq![b[0]] + b2);
        }
    }
}

/// An increasing listing of a set is its sorted listing.
pub proof fn lemma_sorted_keys(ks: Seq<u64>, s: Set<u64>)
    requires
        increasing(ks),
        ks.to_set() == s,
    ensures
        sorted_keys(s) == ks,
{
    let c = sorted_keys(s);
    assert(increasing(c) && c.to_set() == s);
    lemma_increasing_unique(c, ks);
}

/// What classification has produced so far: the manifest and the paths whose content goes
/// into new blobs and patch blobs, in slot order.
pub struct BuildState {
    pub m: ManifestModel,
    pub blobs_new: Seq<Seq<char>>,
    pub blobs_patch: Seq<Seq<char>>,
}

pub open spec fn empty_state() -> BuildState {
    BuildState { m: ManifestModel::empty(), blobs_new: Seq::empty(), blobs_patch: Seq::empty() }
}

pub open spec fn with_manifest(st: BuildState, m: ManifestModel) -> BuildState {
    BuildState { m, blobs_new: st.blobs_new, blobs_patch: st.blobs_patch }
}

/// Classifies the content group of hash `h` (old paths `g.0`, new paths `g.1`), given the
/// `path -> hash` maps of both trees.
pub open spec fn classify_group(
    st: BuildState,
    h: u64,
    g: Group,
    old_map: Map<Seq<char>, u64>,
    new_map: Map<Seq<char>, u64>,
) -> BuildState {
    let o = g.0;
    let n = g.1;
    let m = st.m;
    if o.len() == 1 && n.len() == 1 && o[0] == n[0] {
        // unchanged
        with_manifest(st, ManifestModel { untouched: m.untouched.push((h, o[0])), ..m })
    } else if (o.len() == 1 && n.len() == 1) || n.len() > 1 || o.len() > 1 {
        // duplicated or renamed
        if o.len() == 0 {
            BuildState {
                m: ManifestModel {
                    duplicated: m.duplicated.push((h, st.blobs_new.len() as u64, o, n)),
                    ..m
                },
                blobs_new: st.blobs_new.push(n[0]),
                blobs_patch: st.blobs_patch,
            }
        } else {
            with_manifest(st, ManifestModel { duplicated: m.duplicated.push((h, SENTINEL, o, n)), ..m })
        }
    } else if o.len() == 0 && n.len() == 1 {
        let p = n[0];
        if old_map.contains_key(p) {
            // same path, other content
            BuildState {
                m: ManifestModel {
                    patched: m.patched.push((old_map[p], h, st.blobs_patch.len() as u64, p)),
                    ..m
                },
                blobs_new: st.blobs_new,
                blobs_patch: st.blobs_patch.push(p),
            }
        } else {
            BuildState {
                m: ManifestModel {
                    new_files: m.new_files.push((h, st.blobs_new.len() as u64, p)),
                    ..m
                },
                blobs_new: st.blobs_new.push(p),
                blobs_patch: st.blobs_patch,
            }
        }
    } else if o.len() == 1 && n.len() == 0 {
        let p = o[0];
        if new_map.contains_key(p) {
            // the group that holds the new content of `p` records it as patched
            st
        } else {
            with_manifest(st, ManifestModel { deleted: m.deleted.push((h, p)), ..m })
        }
    } else {
        st
    }
}

/// Classifies the groups of `groups` whose hashes are listed in `ks`, in that order.
pub open spec fn classify(
    ks: Seq<u64>,
    groups: Map<u64, Group>,
    old_map: Map<Seq<char>, u64>,
    new_map: Map<Seq<char>, u64>,
) -> BuildState
    decreases ks.len(),
{
    if ks.len() == 0 {
        empty_state()
    } else {
        classify_group(
            classify(ks.drop_last(), groups, old_map, new_map),
            ks.last(),
            groups[ks.last()],
            old_map,
            new_map,
        )
    }
}

impl DiffingDiff {
    /// The content groups: for each hash, its old paths and its new paths.
    pub closed spec fn groups(&self) -> Map<u64, Group> {
        self.files@.map_values(|d: DiffingFileData| group_view(d))
    }

    /// The old tree's `path -> hash` map.
    pub closed spec fn old_map(&self) -> Map<Seq<char>, u64> {
        self.file_paths_old@
    }

    /// The new tree's `path -> hash` map.
    pub closed spec fn new_map(&self) -> Map<Seq<char>, u64> {
        self.file_paths_new@
    }

    /// Paths whose new content fills the new blobs, in slot order.
    pub closed spec fn spec_blobs_new(&self) -> Seq<Seq<char>> {
        paths_view(self.blobs_new@)
    }

    /// Paths whose patches fill the patch blobs, in slot order.
    pub closed spec fn spec_blobs_patch(&self) -> Seq<Seq<char>> {
        paths_view(self.blobs_patch@)
    }

    pub closed spec fn spec_old_root(&self) -> Seq<char> {
        self.old_root@
    }

    pub closed spec fn spec_new_root(&self) -> Seq<char> {
        self.new_root@
    }

    /// The result of classifying every group in hash order.
    pub open spec fn classified(&self) -> BuildState {
        classify(sorted_keys(self.groups().dom()), self.groups(), self.old_map(), self.new_map())
    }

    /// Group `h` lists each of its paths once, has at least one path, and agrees with the
    /// two `path -> hash` maps.
    pub open spec fn group_ok(&self, h: u64) -> bool {
        let g = self.groups()[h];
        &&& g.0.no_duplicates()
        &&& g.1.no_duplicates()
        &&& g.0.len() + g.1.len() > 0
        &&& forall|i: int|
            0 <= i < g.0.len() ==> self.old_map().contains_key(#[trigger] g.0[i])
                && self.old_map()[g.0[i]] == h
        &&& forall|i: int|
            0 <= i < g.1.len() ==> self.new_map().contains_key(#[trigger] g.1[i])
                && self.new_map()[g.1[i]] == h
    }

    /// Every group lists each of its paths once, has at least one path, and agrees with the
    /// two `path -> hash` maps.
    pub closed spec fn wf(&self) -> bool {
        &&& forall|h: u64| #[trigger] self.groups().contains_key(h) ==> self.group_ok(h)
        &&& forall|p: Seq<char>| #[trigger]
            self.old_map().contains_key(p) ==> self.groups().contains_key(self.old_map()[p])
                && self.groups()[self.old_map()[p]].0.contains(p)
        &&& forall|p: Seq<char>| #[trigger]
            self.new_map().contains_key(p) ==> self.groups().contains_key(self.new_map()[p])
                && self.groups()[self.new_map()[p]].1.contains(p)
    }

    /// An empty diff between the trees rooted at `old_root` and `new_root`.
    pub fn new(old_root: String, new_root: String) -> (r: Self)
        ensures
            r.wf(),
            r.groups() == Map::<u64, Group>::empty(),
            r.old_map() == Map::<Seq<char>, u64>::empty(),
            r.new_map() == Map::<Seq<char>, u64>::empty(),
            r.spec_blobs_new() == Seq::<Seq<char>>::empty(),
            r.spec_blobs_patch() == Seq::<Seq<char>>::empty(),
            r.spec_old_root() == old_root@,
            r.spec_new_root() == new_root@,
    {
        let r = DiffingDiff {
            blobs_new: Vec::new(),
            blobs_patch: Vec::new(),
            old_root,
            new_root,
            files: BTreeMap::new(),
            file_paths_old: StringHashMap::new(),
            file_paths_new: StringHashMap::new(),
        };
        assert(r.groups() =~= Map::<u64, Group>::empty());
        assert(r.spec_blobs_new() =~= Seq::<Seq<char>>::empty());
        assert(r.spec_blobs_patch() =~= Seq::<Seq<char>>::empty());
        r
    }

    /// The old tree's root.
    pub fn old_root(&self) -> (r: &String)
        ensures
            r@ == self.spec_old_root(),
    {
        &self.old_root
    }

    /// The new tree's root.
    pub fn new_root(&self) -> (r: &String)
        ensures
            r@ == self.spec_new_root(),
    {
        &self.new_root
    }

    /// The paths (relative to the new root) whose contents fill the new blobs, in slot order.
    pub fn blobs_new(&self) -> (r: &Vec<String>)
        ensures
            paths_view(r@) == self.spec_blobs_new(),
    {
        &self.blobs_new
    }

    /// The paths (relative to both roots) whose patches fill the patch blobs, in slot order.
    pub fn blobs_patch(&self) -> (r: &Vec<String>)
        ensures
            paths_view(r@) == self.spec_blobs_patch(),
    {
        &self.blobs_patch
    }
}

/// A copy of a list of paths.
fn clone_paths(v: &Vec<String>) -> (r: Vec<String>)
    ensures
        paths_view(r@) == paths_view(v@),
{
    let mut r: Vec<String> = Vec::new();
    let mut i: usize = 0;
    while i < v.len()
        invariant
            i <= v@.len(),
            r@.len() == i,
            forall|k: int| 0 <= k < i ==> r@[k]@ == #[trigger] v@[k]@,
        decreases v@.len() - i,
    {
        r.push(v[i].clone());
        i = i + 1;
    }
    assert(paths_view(r@) =~= paths_view(v@));
    r
}


/// The group of hash `h` after `p` is added on the given side.
pub open spec fn added_group(groups: Map<u64, Group>, h: u64, in_new: bool, p: Seq<char>) -> Group {
    if groups.contains_key(h) {
        let g = groups[h];
        if in_new {
            (g.0, g.1.push(p))
        } else {
            (g.0.push(p), g.1)
        }
    } else if in_new {
        (Seq::empty(), seq![p])
    } else {
        (seq![p], Seq::empty())
    }
}

/// The current state of a builder as values: its model is unchanged by a refused addition.
pub open spec fn same_model(a: &DiffingDiff, b: &DiffingDiff) -> bool {
    &&& a.groups() == b.groups()
    &&& a.old_map() == b.old_map()
    &&& a.new_map() == b.new_map()
    &&& a.spec_blobs_new() == b.spec_blobs_new()
    &&& a.spec_blobs_patch() == b.spec_blobs_patch()
    &&& a.spec_old_root() == b.spec_old_root()
    &&& a.spec_new_root() == b.spec_new_root()
}

impl DiffingDiff {
    /// Records that the file at `path` (relative to its root) on the given side has content
    /// hash `hash`. A path already recorded on that side is refused and nothing changes.
#[verifier::rlimit(40)]
    pub fn add_file(&mut self, in_new: bool, path: String, hash: u64) -> (r: Result<(), FoldiffError>)
        requires
            old(self).wf(),
        ensures
            final(self).wf(),
            ({
                let side = if in_new { old(self).new_map() } else { old(self).old_map() };
                if side.contains_key(path@) {
                    &&& r == Err::<(), FoldiffError>(FoldiffError::DuplicatePath)
                    &&& same_model(final(self), old(self))
                } else {
                    &&& r is Ok
                    &&& final(self).groups() == old(self).groups().insert(
                        hash,
                        added_group(old(self).groups(), hash, in_new, path@),
                    )
                    &&& final(self).old_map() == if in_new {
                        old(self).old_map()
                    } else {
                        old(self).old_map().insert(path@, hash)
                    }
                    &&& final(self).new_map() == if in_new {
                        old(self).new_map().insert(path@, hash)
                    } else {
                        old(self).new_map()
                    }
                    &&& final(self).spec_blobs_new() == old(self).spec_blobs_new()
                    &&& final(self).spec_blobs_patch() == old(self).spec_blobs_patch()
                    &&& final(self).spec_old_root() == old(self).spec_old_root()
                    &&& final(self).spec_new_root() == old(self).spec_new_root()
                }
            }),
    {
        let present = if in_new {
            self.file_paths_new.contains_key(path.as_str())
        } else {
            self.file_paths_old.contains_key(path.as_str())
        };
        if present {
            return Err(FoldiffError::DuplicatePath);
        }
        let ghost g0 = self.groups();
        let ghost p = path@;
        let entry = self.files.remove(&hash);
        let data = match entry {
            Some(d) => {
                let mut d = d;
                if in_new {
                    d.paths_new.push(path.clone());
                } else {
                    d.paths_old.push(path.clone());
                }
                d
            },
            None => {
                let mut one: Vec<String> = Vec::new();
                one.push(path.clone());
                if in_new {
                    DiffingFileData { paths_old: Vec::new(), paths_new: one }
                } else {
                    DiffingFileData { paths_old: one, paths_new: Vec::new() }
                }
            },
        };
        assert(group_view(data) =~~= added_group(g0, hash, in_new, p));
        self.files.insert(hash, data);
        if in_new {
            self.file_paths_new.insert(path, hash);
        } else {
            self.file_paths_old.insert(path, hash);
        }
        assert(self.groups() =~= g0.insert(hash, added_group(g0, hash, in_new, p)));
        proof {
            self.lemma_add_keeps_wf(*old(self), in_new, p, hash);
        }
        Ok(())
    }

    #[verifier::rlimit(40)]
    proof fn lemma_add_keeps_wf(&self, prev: DiffingDiff, in_new: bool, p: Seq<char>, h: u64)
        requires
            prev.wf(),
            !(if in_new { prev.new_map() } else { prev.old_map() }).contains_key(p),
            self.groups() == prev.groups().insert(h, added_group(prev.groups(), h, in_new, p)),
            self.old_map() == if in_new { prev.old_map() } else { prev.old_map().insert(p, h) },
            self.new_map() == if in_new { prev.new_map().insert(p, h) } else { prev.new_map() },
        ensures
            self.wf(),
    {
        let g0 = prev.groups();
        assert forall|k: u64| #[trigger] self.groups().contains_key(k) implies self.group_ok(k) by {
            let g = self.groups()[k];
            assert(g.0.no_duplicates() && g.1.no_duplicates() && g.0.len() + g.1.len() > 0) by {
                if k == h && g0.contains_key(h) {
                    let old_g = g0[h];
                    if in_new {
                        assert forall|i: int| 0 <= i < old_g.1.len() implies old_g.1[i] != p by {
                            assert(prev.new_map().contains_key(old_g.1[i]));
                        }
                        assert(g.1 == old_g.1.push(p));
                        assert forall|i: int| 0 <= i < g.1.len() implies #[trigger] self.new_map().contains_key(g.1[i])
                            && self.new_map()[g.1[i]] == k by {
                            if i < old_g.1.len() {
                                assert(g.1[i] == old_g.1[i]);
                            }
                        }
                        assert(g.1.no_duplicates()) by {
                            assert forall|i: int, j: int| 0 <= i < j < g.1.len() implies g.1[i] != g.1[j] by {
                                if j == old_g.1.len() {
                                    assert(g.1[i] == old_g.1[i]);
                                }
                            }
                        }
                        assert forall|i: int| 0 <= i < g.0.len() implies #[trigger] self.old_map().contains_key(g.0[i])
                            && self.old_map()[g.0[i]] == k by {
                            assert(prev.old_map().contains_key(old_g.0[i]));
                        }
                    } else {
                        assert forall|i: int| 0 <= i < old_g.0.len() implies old_g.0[i] != p by {
                            assert(prev.old_map().contains_key(old_g.0[i]));
                        }
                        assert(g.0 == old_g.0.push(p));
                        assert forall|i: int| 0 <= i < g.0.len() implies #[trigger] self.old_map().contains_key(g.0[i])
                            && self.old_map()[g.0[i]] == k by {
                            if i < old_g.0.len() {
                                assert(g.0[i] == old_g.0[i]);
                            }
                        }
                        assert(g.0.no_duplicates()) by {
                            assert forall|i: int, j: int| 0 <= i < j < g.0.len() implies g.0[i] != g.0[j] by {
                                if j == old_g.0.len() {
                                    assert(g.0[i] == old_g.0[i]);
                                }
                            }
                        }
                        assert forall|i: int| 0 <= i < g.1.len() implies #[trigger] self.new_map().contains_key(g.1[i])
                            && self.new_map()[g.1[i]] == k by {
                            assert(prev.new_map().contains_key(old_g.1[i]));
                        }
                    }
                } else if k == h {
                    if in_new {
                        assert(g.1 == seq![p]);
                        assert(g.0.len() == 0);
                    } else {
                        assert(g.0 == seq![p]);
                        assert(g.1.len() == 0);
                    }
                } else {
                    let old_g = g0[k];
                    assert(g == old_g);
                    assert forall|i: int| 0 <= i < g.0.len() implies #[trigger] self.old_map().contains_key(g.0[i])
                        && self.old_map()[g.0[i]] == k by {
                        assert(prev.old_map().contains_key(old_g.0[i]));
                    }
                    assert forall|i: int| 0 <= i < g.1.len() implies #[trigger] self.new_map().contains_key(g.1[i])
                        && self.new_map()[g.1[i]] == k by {
                        assert(prev.new_map().contains_key(old_g.1[i]));
                    }
                }
            }
            assert(forall|i: int| 0 <= i < g.0.len() ==> #[trigger] self.old_map().contains_key(g.0[i]) && self.old_map()[g.0[i]] == k);
            assert(forall|i: int| 0 <= i < g.1.len() ==> #[trigger] self.new_map().contains_key(g.1[i]) && self.new_map()[g.1[i]] == k);
        }
        assert forall|q: Seq<char>| #[trigger] self.old_map().contains_key(q) implies self.groups().contains_key(self.old_map()[q])
            && self.groups()[self.old_map()[q]].0.contains(q) by {
            if !in_new && q == p {
                let g = self.groups()[h];
                assert(g.0[g.0.len() - 1] == p);
            } else {
                let k = prev.old_map()[q];
                assert(g0.contains_key(k) && g0[k].0.contains(q));
                let i = choose|i: int| 0 <= i < g0[k].0.len() && g0[k].0[i] == q;
                assert(self.groups()[k].0[i] == q);
            }
        }
        assert forall|q: Seq<char>| #[trigger] self.new_map().contains_key(q) implies self.groups().contains_key(self.new_map()[q])
            && self.groups()[self.new_map()[q]].1.contains(q) by {
            if in_new && q == p {
                let g = self.groups()[h];
                assert(g.1[g.1.len() - 1] == p);
            } else {
                let k = prev.new_map()[q];
                assert(g0.contains_key(k) && g0[k].1.contains(q));
                let i = choose|i: int| 0 <= i < g0[k].1.len() && g0[k].1[i] == q;
                assert(self.groups()[k].1[i] == q);
            }
        }
    }
}


impl DiffingDiff {
    /// The hashes of all content groups, in increasing order.
#[verifier::rlimit(40)]
    fn sorted_hashes(&self) -> (v: Vec<u64>)
        ensures
            increasing(v@),
            v@.to_set() == self.groups().dom(),
    {
        let mut v: Vec<u64> = Vec::new();
        let iter = self.files.iter();
        let ghost items = iter.remaining();
        for kv in it: iter
            invariant
                it.seq() == items,
                v@.len() == it.index(),
                forall|i: int| 0 <= i < it.index() ==> v@[i] == *(#[trigger] items[i]).0,
        {
            let (k, _d) = kv;
            v.push(*k);
        }
        let ghost ks = items.map_values(|kv: (&u64, &DiffingFileData)| *kv.0);
        assert(v@ =~= ks);
        assert(vstd::std_specs::btree::increasing_seq(ks));
        assert forall|i: int, j: int| 0 <= i < j < v@.len() implies v@[i] < v@[j] by {
            assert(ks[i].cmp_spec(&ks[j]) is Less);
        }
        assert forall|k: u64| self.files@.dom().contains(k) <==> v@.to_set().contains(k) by {
            if self.files@.dom().contains(k) {
                assert(items.contains((&k, &self.files@[k])));
                let i = choose|i: int| 0 <= i < items.len() && items[i] == (&k, &self.files@[k]);
                assert(v@[i] == k);
            }
            if v@.to_set().contains(k) {
                let i = choose|i: int| 0 <= i < v@.len() && v@[i] == k;
                assert(self.files@.contains_key(*items[i].0));
            }
        }
        assert(v@.to_set() =~= self.groups().dom());
        v
    }

    /// Classifies every content group, in increasing hash order, into the five manifest
    /// categories, and records which paths fill the new blobs and the patch blobs.
    #[verifier::rlimit(40)]
    pub fn generate_manifest(&mut self) -> (r: DiffManifest)
        ensures
            r@ == old(self).classified().m,
            r.version == VERSION_NUMBER_LATEST,
            final(self).spec_blobs_new() == old(self).classified().blobs_new,
            final(self).spec_blobs_patch() == old(self).classified().blobs_patch,
            final(self).groups() == old(self).groups(),
            final(self).old_map() == old(self).old_map(),
            final(self).new_map() == old(self).new_map(),
            final(self).spec_old_root() == old(self).spec_old_root(),
            final(self).spec_new_root() == old(self).spec_new_root(),
            old(self).wf() ==> final(self).wf(),
    {
        let keys = self.sorted_hashes();
        let ghost groups = self.groups();
        let ghost om = self.old_map();
        let ghost nm = self.new_map();
        proof {
            lemma_sorted_keys(keys@, groups.dom());
        }
        let mut manifest = DiffManifest::with_version(VERSION_NUMBER_LATEST);
        let mut blobs_new: Vec<String> = Vec::new();
        let mut blobs_patch: Vec<String> = Vec::new();
        let mut i: usize = 0;
        assert(keys@.take(0) =~= Seq::<u64>::empty());
        assert(paths_view(blobs_new@) =~= Seq::<Seq<char>>::empty());
        assert(paths_view(blobs_patch@) =~= Seq::<Seq<char>>::empty());
        while i < keys.len()
            invariant
                i <= keys@.len(),
                keys@.to_set() == groups.dom(),
                groups == self.groups(),
                om == self.old_map(),
                nm == self.new_map(),
                manifest.version == VERSION_NUMBER_LATEST,
                (BuildState {
                    m: manifest@,
                    blobs_new: paths_view(blobs_new@),
                    blobs_patch: paths_view(blobs_patch@),
                }) == classify(keys@.take(i as int), groups, om, nm),
            decreases keys@.len() - i,
        {
            let h = keys[i];
            let ghost prev = BuildState {
                m: manifest@,
                blobs_new: paths_view(blobs_new@),
                blobs_patch: paths_view(blobs_patch@),
            };
            assert(keys@.take(i + 1).drop_last() =~= keys@.take(i as int));
            assert(keys@.to_set().contains(h));
            let g = match self.files.get(&h) {
                Some(g) => g,
                None => {
                    assert(false);
                    return manifest;
                },
            };
            let ghost gv = group_view(*g);
            assert(gv == groups[h]);
            let no = g.paths_old.len();
            let nn = g.paths_new.len();
            if no == 1 && nn == 1 && g.paths_old[0] == g.paths_new[0] {
                manifest.untouched_files.push((h, g.paths_old[0].clone()));
                assert(manifest@.untouched =~= prev.m.untouched.push((h, gv.0[0])));
            } else if (no == 1 && nn == 1) || nn > 1 || no > 1 {
                let idx: u64 = if no == 0 {
                    let ix = blobs_new.len() as u64;
                    blobs_new.push(g.paths_new[0].clone());
                    assert(paths_view(blobs_new@) =~= prev.blobs_new.push(gv.1[0]));
                    ix
                } else {
                    SENTINEL
                };
                manifest.duplicated_files.push(
                    DuplicatedFile {
                        hash: h,
                        idx,
                        old_paths: clone_paths(&g.paths_old),
                        new_paths: clone_paths(&g.paths_new),
                    },
                );
                assert(manifest@.duplicated =~= prev.m.duplicated.push((h, idx, gv.0, gv.1)));
            } else if no == 0 && nn == 1 {
                let p = &g.paths_new[0];
                match self.file_paths_old.get(p.as_str()) {
                    Some(old_hash) => {
                        let index = blobs_patch.len() as u64;
                        manifest.patched_files.push(
                            PatchedFile { old_hash: *old_hash, new_hash: h, index, path: p.clone() },
                        );
                        blobs_patch.push(p.clone());
                        assert(manifest@.patched =~= prev.m.patched.push((om[gv.1[0]], h, index, gv.1[0])));
                        assert(paths_view(blobs_patch@) =~= prev.blobs_patch.push(gv.1[0]));
                    },
                    None => {
                        let index = blobs_new.len() as u64;
                        manifest.new_files.push(NewFile { hash: h, index, path: p.clone() });
                        blobs_new.push(p.clone());
                        assert(manifest@.new_files =~= prev.m.new_files.push((h, index, gv.1[0])));
                        assert(paths_view(blobs_new@) =~= prev.blobs_new.push(gv.1[0]));
                    },
                }
            } else if no == 1 && nn == 0 {
                let p = &g.paths_old[0];
                if !self.file_paths_new.contains_key(p.as_str()) {
                    manifest.deleted_files.push((h, p.clone()));
                    assert(manifest@.deleted =~= prev.m.deleted.push((h, gv.0[0])));
                }
            }
            i = i + 1;
        }
        assert(keys@.take(keys@.len() as int) =~= keys@);
        self.blobs_new = blobs_new;
        self.blobs_patch = blobs_patch;
        proof {
            if old(self).wf() {
                assert(self.groups() == old(self).groups());
                assert forall|h: u64| #[trigger] self.groups().contains_key(h) implies self.group_ok(h) by {
                    assert(old(self).group_ok(h));
                }
            }
        }
        manifest
    }
}


/// How many times `p` occurs in `s`.
pub open spec fn count_in(s: Seq<Seq<char>>, p: Seq<char>) -> nat
    decreases s.len(),
{
    if s.len() == 0 {
        0
    } else {
        count_in(s.drop_last(), p) + if s.last() == p { 1nat } else { 0nat }
    }
}

pub open spec fn count_pairs(s: Seq<(u64, Seq<char>)>, p: Seq<char>, h: u64) -> nat
    decreases s.len(),
{
    if s.len() == 0 {
        0
    } else {
        count_pairs(s.drop_last(), p, h) + if s.last() == (h, p) { 1nat } else { 0nat }
    }
}

pub open spec fn count_new_files(s: Seq<(u64, u64, Seq<char>)>, p: Seq<char>, h: u64) -> nat
    decreases s.len(),
{
    if s.len() == 0 {
        0
    } else {
        count_new_files(s.drop_last(), p, h) + if s.last().0 == h && s.last().2 == p { 1nat } else { 0nat }
    }
}

pub open spec fn count_patched_new(s: Seq<(u64, u64, u64, Seq<char>)>, p: Seq<char>, h: u64) -> nat
    decreases s.len(),
{
    if s.len() == 0 {
        0
    } else {
        count_patched_new(s.drop_last(), p, h) + if s.last().1 == h && s.last().3 == p { 1nat } else { 0nat }
    }
}

pub open spec fn count_dup_new(s: Seq<(u64, u64, Seq<Seq<char>>, Seq<Seq<char>>)>, p: Seq<char>, h: u64) -> nat
    decreases s.len(),
{
    if s.len() == 0 {
        0
    } else {
        count_dup_new(s.drop_last(), p, h) + if s.last().0 == h { count_in(s.last().3, p) } else { 0nat }
    }
}

/// How many entries of `m` place content of hash `h` at path `p` in the new tree.
pub open spec fn count_new_side(m: ManifestModel, p: Seq<char>, h: u64) -> nat {
    count_pairs(m.untouched, p, h) + count_new_files(m.new_files, p, h) + count_patched_new(m.patched, p, h)
        + count_dup_new(m.duplicated, p, h)
}

proof fn lemma_count_in_unique(s: Seq<Seq<char>>, p: Seq<char>)
    requires
        s.no_duplicates(),
    ensures
        count_in(s, p) == if s.contains(p) { 1nat } else { 0nat },
    decreases s.len(),
{
    if s.len() > 0 {
        let t = s.drop_last();
        assert(t.no_duplicates());
        lemma_count_in_unique(t, p);
        if s.last() == p {
            assert(!t.contains(p));
        }
        assert(s.contains(p) <==> (t.contains(p) || s.last() == p)) by {
            if s.contains(p) {
                let i = choose|i: int| 0 <= i < s.len() && s[i] == p;
                if i < t.len() {
                    assert(t[i] == p);
                }
            }
            if t.contains(p) {
                let i = choose|i: int| 0 <= i < t.len() && t[i] == p;
                assert(s[i] == p);
            }
        }
    }
}

/// One classification step adds, for content `h` at path `p` on the new side, as many entries
/// as the group lists `p` among its new paths (none when the group's hash is not `h`).
#[verifier::rlimit(40)]
proof fn lemma_step_new_side(
    st: BuildState,
    k: u64,
    g: Group,
    om: Map<Seq<char>, u64>,
    nm: Map<Seq<char>, u64>,
    p: Seq<char>,
    h: u64,
)
    ensures
        count_new_side(classify_group(st, k, g, om, nm).m, p, h) == count_new_side(st.m, p, h) + if k == h {
            count_in(g.1, p)
        } else {
            0nat
        },
{
    let o = g.0;
    let n = g.1;
    let m = st.m;
    let r = classify_group(st, k, g, om, nm).m;
    if n.len() == 1 {
        assert(n.drop_last() =~= Seq::<Seq<char>>::empty());
        assert(count_in(n.drop_last(), p) == 0);
        assert(n.last() == n[0]);
    }
    if o.len() == 1 && n.len() == 1 && o[0] == n[0] {
        assert(r.untouched.drop_last() =~= m.untouched);
        assert(count_in(n, p) == if n[0] == p { 1nat } else { 0nat });
        assert(count_pairs(r.untouched, p, h) == count_pairs(m.untouched, p, h) + if (k, o[0]) == (h, p) { 1nat } else { 0nat });
        assert(r.new_files == m.new_files && r.patched == m.patched && r.duplicated == m.duplicated);
    } else if (o.len() == 1 && n.len() == 1) || n.len() > 1 || o.len() > 1 {
        assert(r.duplicated.drop_last() =~= m.duplicated);
        assert(r.untouched == m.untouched && r.new_files == m.new_files && r.patched == m.patched);
    } else if o.len() == 0 && n.len() == 1 {
        assert(count_in(n, p) == if n[0] == p { 1nat } else { 0nat });
        if om.contains_key(n[0]) {
            assert(r.patched.drop_last() =~= m.patched);
            assert(r.untouched == m.untouched && r.new_files == m.new_files && r.duplicated == m.duplicated);
        } else {
            assert(r.new_files.drop_last() =~= m.new_files);
            assert(r.untouched == m.untouched && r.patched == m.patched && r.duplicated == m.duplicated);
        }
    } else {
        assert(n.len() == 0);
        assert(r.untouched == m.untouched && r.new_files == m.new_files && r.patched == m.patched && r.duplicated == m.duplicated);
    }
}

/// After classifying the groups listed in `ks` (each once), content `h` sits at new path `p`
/// in exactly as many entries as groups of `ks` with hash `h` list `p`.
#[verifier::rlimit(40)]
proof fn lemma_prefix_new_side(d: &DiffingDiff, ks: Seq<u64>, p: Seq<char>, h: u64)
    requires
        d.wf(),
        ks.no_duplicates(),
        forall|i: int| 0 <= i < ks.len() ==> d.groups().contains_key(#[trigger] ks[i]),
    ensures
        count_new_side(classify(ks, d.groups(), d.old_map(), d.new_map()).m, p, h) == if ks.contains(h)
            && d.new_map().contains_key(p) && d.new_map()[p] == h {
            1nat
        } else {
            0nat
        },
    decreases ks.len(),
{
    if ks.len() == 0 {
        assert(empty_state().m == ManifestModel::empty());
    } else {
        let t = ks.drop_last();
        let k = ks.last();
        assert(t.no_duplicates());
        lemma_prefix_new_side(d, t, p, h);
        lemma_step_new_side(classify(t, d.groups(), d.old_map(), d.new_map()), k, d.groups()[k], d.old_map(), d.new_map(), p, h);
        assert(d.groups().contains_key(k));
        assert(d.group_ok(k));
        let g = d.groups()[k];
        lemma_count_in_unique(g.1, p);
        assert(g.1.contains(p) <==> (d.new_map().contains_key(p) && d.new_map()[p] == k)) by {
            if g.1.contains(p) {
                let i = choose|i: int| 0 <= i < g.1.len() && g.1[i] == p;
                assert(d.new_map().contains_key(g.1[i]));
            }
        }
        assert(ks.contains(h) <==> (t.contains(h) || k == h)) by {
            if ks.contains(h) {
                let i = choose|i: int| 0 <= i < ks.len() && ks[i] == h;
                if i < t.len() {
                    assert(t[i] == h);
                }
            }
            if t.contains(h) {
                let i = choose|i: int| 0 <= i < t.len() && t[i] == h;
                assert(ks[i] == h);
            }
        }
        if k == h {
            assert(!t.contains(h)) by {
                if t.contains(h) {
                    let i = choose|i: int| 0 <= i < t.len() && t[i] == h;
                    assert(ks[i] == ks[ks.len() - 1]);
                }
            }
        }
    }
}

/// The new side of a manifest is the new tree: for every path and hash, the manifest has
/// exactly one entry placing content of that hash at that path in the new tree if the new
/// tree holds such a file, and none otherwise. So no path appears twice on the new side,
/// and applying the manifest writes every new file, each with the hash it has in the new tree.
#[verifier::rlimit(40)]
pub proof fn lemma_new_side_is_new_tree(d: &DiffingDiff, p: Seq<char>, h: u64)
    requires
        d.wf(),
    ensures
        count_new_side(d.classified().m, p, h) == if d.new_map().contains_key(p) && d.new_map()[p] == h {
            1nat
        } else {
            0nat
        },
{
    let ks = sorted_keys(d.groups().dom());
    let dom = d.groups().dom();
    assert(dom.finite()) by {
        assert(d.files@.dom().finite());
        assert(dom =~= d.files@.dom());
    }
    let ex = dom.to_seq();
    lemma_sorted_exists(dom);
    assert(increasing(ks) && ks.to_set() == dom);
    assert(ks.no_duplicates()) by {
        assert forall|i: int, j: int| 0 <= i < ks.len() && 0 <= j < ks.len() && i != j implies ks[i] != ks[j] by {
            if i < j {
                assert(ks[i] < ks[j]);
            } else {
                assert(ks[j] < ks[i]);
            }
        }
    }
    assert forall|i: int| 0 <= i < ks.len() implies d.groups().contains_key(#[trigger] ks[i]) by {
        assert(ks.to_set().contains(ks[i]));
    }
    lemma_prefix_new_side(d, ks, p, h);
    if d.new_map().contains_key(p) && d.new_map()[p] == h {
        assert(d.groups().contains_key(h));
        assert(ks.to_set().contains(h));
    }
}

/// A finite set of hashes has an increasing listing.
proof fn lemma_sorted_exists(s: Set<u64>)
    requires
        s.finite(),
    ensures
        increasing(sorted_keys(s)),
        sorted_keys(s).to_set() == s,
    decreases s.len(),
{
    let w = increasing_listing(s);
    assert(increasing(w) && w.to_set() == s);
}

/// An increasing listing of a finite set, built by taking out its largest element.
proof fn increasing_listing(s: Set<u64>) -> (w: Seq<u64>)
    requires
        s.finite(),
    ensures
        increasing(w),
        w.to_set() == s,
    decreases s.len(),
{
    if s.len() == 0 {
        assert(s =~= Set::<u64>::empty());
        assert(Seq::<u64>::empty().to_set() =~= s);
        Seq::empty()
    } else {
        let m = largest(s);
        let rest = s.remove(m);
        let w0 = increasing_listing(rest);
        let w = w0.push(m);
        assert forall|i: int, j: int| 0 <= i < j < w.len() implies w[i] < w[j] by {
            if j == w.len() - 1 {
                assert(w0.to_set().contains(w0[i]));
                assert(rest.contains(w[i]));
            }
        }
        assert(w.to_set() =~= s) by {
            w0.lemma_push_to_set_commute(m);
        }
        w
    }
}

/// The largest element of a finite non-empty set of hashes.
proof fn largest(s: Set<u64>) -> (m: u64)
    requires
        s.finite(),
        s.len() > 0,
    ensures
        s.contains(m),
        forall|x: u64| s.contains(x) ==> x <= m,
    decreases s.len(),
{
    let a = s.choose();
    let rest = s.remove(a);
    if rest.len() == 0 {
        assert forall|x: u64| s.contains(x) implies x <= a by {
            if x != a {
                assert(rest.contains(x));
            }
        }
        a
    } else {
        let b = largest(rest);
        if a > b {
            a
        } else {
            b
        }
    }
}

/// Classification is a function of the builder's contents: two builders holding the same
/// groups and path maps classify to the same manifest and the same blob lists, so running
/// the builder twice on the same scanned files gives identical manifests.
pub proof fn lemma_manifest_determined(a: &DiffingDiff, b: &DiffingDiff)
    requires
        a.groups() == b.groups(),
        a.old_map() == b.old_map(),
        a.new_map() == b.new_map(),
    ensures
        a.classified() == b.classified(),
{
}


pub open spec fn count_patched_old(s: Seq<(u64, u64, u64, Seq<char>)>, p: Seq<char>, h: u64) -> nat
    decreases s.len(),
{
    if s.len() == 0 {
        0
    } else {
        count_patched_old(s.drop_last(), p, h) + if s.last().0 == h && s.last().3 == p { 1nat } else { 0nat }
    }
}

pub open spec fn count_dup_old(s: Seq<(u64, u64, Seq<Seq<char>>, Seq<Seq<char>>)>, p: Seq<char>, h: u64) -> nat
    decreases s.len(),
{
    if s.len() == 0 {
        0
    } else {
        count_dup_old(s.drop_last(), p, h) + if s.last().0 == h { count_in(s.last().2, p) } else { 0nat }
    }
}

/// How many entries of `m` expect content of hash `h` at path `p` in the old tree.
pub open spec fn count_old_side(m: ManifestModel, p: Seq<char>, h: u64) -> nat {
    count_pairs(m.untouched, p, h) + count_pairs(m.deleted, p, h) + count_patched_old(m.patched, p, h)
        + count_dup_old(m.duplicated, p, h)
}

/// A group that classification records as duplicated (or moved).
pub open spec fn is_dup_group(g: Group) -> bool {
    &&& !(g.0.len() == 1 && g.1.len() == 1 && g.0[0] == g.1[0])
    &&& ((g.0.len() == 1 && g.1.len() == 1) || g.1.len() > 1 || g.0.len() > 1)
}

/// How many old-side entries group `g` itself makes for path `p`.
pub open spec fn own_old(g: Group, p: Seq<char>, nm: Map<Seq<char>, u64>) -> nat {
    let o = g.0;
    let n = g.1;
    if o.len() == 1 && n.len() == 1 && o[0] == n[0] {
        if o[0] == p { 1 } else { 0 }
    } else if (o.len() == 1 && n.len() == 1) || n.len() > 1 || o.len() > 1 {
        count_in(o, p)
    } else if o.len() == 1 && n.len() == 0 {
        if o[0] == p && !nm.contains_key(p) { 1 } else { 0 }
    } else {
        0
    }
}

/// Whether group `g`, holding only a new file at `p` that also exists in the old tree with
/// hash `h`, records `p` as patched.
pub open spec fn patches_at(g: Group, p: Seq<char>, h: u64, om: Map<Seq<char>, u64>) -> bool {
    g.0.len() == 0 && g.1.len() == 1 && g.1[0] == p && om.contains_key(p) && om[p] == h
}

#[verifier::rlimit(40)]
proof fn lemma_step_old_side(
    st: BuildState,
    k: u64,
    g: Group,
    om: Map<Seq<char>, u64>,
    nm: Map<Seq<char>, u64>,
    p: Seq<char>,
    h: u64,
)
    ensures
        count_old_side(classify_group(st, k, g, om, nm).m, p, h) == count_old_side(st.m, p, h)
            + (if k == h { own_old(g, p, nm) } else { 0nat })
            + (if patches_at(g, p, h, om) { 1nat } else { 0nat }),
{
    let o = g.0;
    let n = g.1;
    let m = st.m;
    let r = classify_group(st, k, g, om, nm).m;
    if o.len() == 1 {
        assert(o.drop_last() =~= Seq::<Seq<char>>::empty());
        assert(count_in(o.drop_last(), p) == 0);
        assert(o.last() == o[0]);
    }
    if o.len() == 1 && n.len() == 1 && o[0] == n[0] {
        assert(r.untouched.drop_last() =~= m.untouched);
        assert(r.deleted == m.deleted && r.patched == m.patched && r.duplicated == m.duplicated);
    } else if (o.len() == 1 && n.len() == 1) || n.len() > 1 || o.len() > 1 {
        assert(r.duplicated.drop_last() =~= m.duplicated);
        assert(r.untouched == m.untouched && r.deleted == m.deleted && r.patched == m.patched);
    } else if o.len() == 0 && n.len() == 1 {
        if om.contains_key(n[0]) {
            assert(r.patched.drop_last() =~= m.patched);
            assert(r.untouched == m.untouched && r.deleted == m.deleted && r.duplicated == m.duplicated);
        } else {
            assert(r.untouched == m.untouched && r.deleted == m.deleted && r.patched == m.patched && r.duplicated == m.duplicated);
        }
    } else if o.len() == 1 && n.len() == 0 {
        if !nm.contains_key(o[0]) {
            assert(r.deleted.drop_last() =~= m.deleted);
        }
        assert(r.untouched == m.untouched && r.patched == m.patched && r.duplicated == m.duplicated);
    } else {
        assert(r.untouched == m.untouched && r.deleted == m.deleted && r.patched == m.patched && r.duplicated == m.duplicated);
    }
}

#[verifier::rlimit(40)]
proof fn lemma_prefix_old_side(d: &DiffingDiff, ks: Seq<u64>, p: Seq<char>, h: u64)
    requires
        d.wf(),
        ks.no_duplicates(),
        forall|i: int| 0 <= i < ks.len() ==> d.groups().contains_key(#[trigger] ks[i]),
    ensures
        count_old_side(classify(ks, d.groups(), d.old_map(), d.new_map()).m, p, h)
            == (if ks.contains(h) { own_old(d.groups()[h], p, d.new_map()) } else { 0nat })
            + (if d.new_map().contains_key(p) && ks.contains(d.new_map()[p])
                && patches_at(d.groups()[d.new_map()[p]], p, h, d.old_map()) { 1nat } else { 0nat }),
    decreases ks.len(),
{
    if ks.len() > 0 {
        let t = ks.drop_last();
        let k = ks.last();
        assert(t.no_duplicates());
        lemma_prefix_old_side(d, t, p, h);
        lemma_step_old_side(classify(t, d.groups(), d.old_map(), d.new_map()), k, d.groups()[k], d.old_map(), d.new_map(), p, h);
        assert(d.groups().contains_key(k));
        assert(d.group_ok(k));
        assert(forall|x: u64| ks.contains(x) <==> (t.contains(x) || k == x)) by {
            assert forall|x: u64| ks.contains(x) <==> (t.contains(x) || k == x) by {
                if ks.contains(x) {
                    let i = choose|i: int| 0 <= i < ks.len() && ks[i] == x;
                    if i < t.len() {
                        assert(t[i] == x);
                    }
                }
                if t.contains(x) {
                    let i = choose|i: int| 0 <= i < t.len() && t[i] == x;
                    assert(ks[i] == x);
                }
            }
        }
        assert(!t.contains(k)) by {
            if t.contains(k) {
                let i = choose|i: int| 0 <= i < t.len() && t[i] == k;
                assert(ks[i] == ks[ks.len() - 1]);
            }
        }
        let g = d.groups()[k];
        assert(d.group_ok(k));
        lemma_group_paths(d, k);
        if patches_at(g, p, h, d.old_map()) {
            assert(g.1[0] == p);
            assert(d.new_map().contains_key(g.1[0]) && d.new_map()[g.1[0]] == k);
        }
    }
}

/// Each path that a group lists maps to that group's hash.
proof fn lemma_group_paths(d: &DiffingDiff, k: u64)
    requires
        d.group_ok(k),
    ensures
        forall|i: int| 0 <= i < d.groups()[k].0.len() ==> d.old_map().contains_key(#[trigger] d.groups()[k].0[i])
            && d.old_map()[d.groups()[k].0[i]] == k,
        forall|i: int| 0 <= i < d.groups()[k].1.len() ==> d.new_map().contains_key(#[trigger] d.groups()[k].1[i])
            && d.new_map()[d.groups()[k].1[i]] == k,
        d.groups()[k].0.no_duplicates(),
        d.groups()[k].1.no_duplicates(),
{
}

/// A path that is patched while its old content is also recorded as duplicated or moved:
/// the one shape of input for which the old side of the manifest lists a path twice.
pub open spec fn rename_collides(d: &DiffingDiff, p: Seq<char>) -> bool {
    &&& d.old_map().contains_key(p)
    &&& d.new_map().contains_key(p)
    &&& d.groups()[d.new_map()[p]].0.len() == 0
    &&& d.groups()[d.new_map()[p]].1 == seq![p]
    &&& is_dup_group(d.groups()[d.old_map()[p]])
}

/// Path uniqueness on the old side: every old-side entry at path `p` expects the content
/// that `p` has in the old tree, and unless `p` is patched while its old content is recorded
/// as duplicated or moved, there is at most one such entry.
#[verifier::rlimit(40)]
pub proof fn lemma_old_side_unique(d: &DiffingDiff, p: Seq<char>, h: u64)
    requires
        d.wf(),
        !rename_collides(d, p),
    ensures
        count_old_side(d.classified().m, p, h) <= 1,
        count_old_side(d.classified().m, p, h) > 0 ==> d.old_map().contains_key(p) && d.old_map()[p] == h,
{
    let ks = sorted_keys(d.groups().dom());
    let dom = d.groups().dom();
    assert(dom.finite()) by {
        assert(d.files@.dom().finite());
        assert(dom =~= d.files@.dom());
    }
    lemma_sorted_exists(dom);
    assert(ks.no_duplicates()) by {
        assert forall|i: int, j: int| 0 <= i < ks.len() && 0 <= j < ks.len() && i != j implies ks[i] != ks[j] by {
            if i < j {
                assert(ks[i] < ks[j]);
            } else {
                assert(ks[j] < ks[i]);
            }
        }
    }
    assert forall|i: int| 0 <= i < ks.len() implies d.groups().contains_key(#[trigger] ks[i]) by {
        assert(ks.to_set().contains(ks[i]));
    }
    lemma_prefix_old_side(d, ks, p, h);
    let om = d.old_map();
    let nm = d.new_map();
    if ks.contains(h) {
        assert(ks.to_set().contains(h));
        assert(d.groups().contains_key(h));
        assert(d.group_ok(h));
        lemma_group_paths(d, h);
        let g = d.groups()[h];
        lemma_count_in_unique(g.0, p);
        if own_old(g, p, nm) > 0 {
            assert(g.0.contains(p));
            let i = choose|i: int| 0 <= i < g.0.len() && g.0[i] == p;
            assert(om.contains_key(g.0[i]) && om[g.0[i]] == h);
            if nm.contains_key(p) && ks.contains(nm[p]) && patches_at(d.groups()[nm[p]], p, h, om) {
                let n = d.groups()[nm[p]];
                assert(n.1 =~= seq![p]);
                if g.0.len() == 1 && g.1.len() == 1 && g.0[0] == g.1[0] {
                    assert(nm.contains_key(g.1[0]) && nm[g.1[0]] == h);
                    assert(false);
                } else if (g.0.len() == 1 && g.1.len() == 1) || g.1.len() > 1 || g.0.len() > 1 {
                    assert(is_dup_group(g));
                    assert(rename_collides(d, p));
                } else if g.0.len() == 1 && g.1.len() == 0 {
                    assert(false);
                } else {
                    assert(false);
                }
            }
        }
    }
}


/// How many duplicated entries take their content from a new blob.
pub open spec fn count_dup_blobs(s: Seq<(u64, u64, Seq<Seq<char>>, Seq<Seq<char>>)>) -> nat
    decreases s.len(),
{
    if s.len() == 0 {
        0
    } else {
        count_dup_blobs(s.drop_last()) + if s.last().2.len() == 0 { 1nat } else { 0nat }
    }
}

/// Every entry that carries a blob index names the slot filled from its own path; duplicated
/// entries with old paths carry the sentinel; and the blob lists hold nothing else.
pub open spec fn slots_ok(st: BuildState) -> bool {
    let m = st.m;
    &&& forall|i: int|
        0 <= i < m.new_files.len() ==> (#[trigger] m.new_files[i]).1 < st.blobs_new.len()
            && st.blobs_new[m.new_files[i].1 as int] == m.new_files[i].2
    &&& forall|i: int|
        0 <= i < m.patched.len() ==> (#[trigger] m.patched[i]).2 < st.blobs_patch.len()
            && st.blobs_patch[m.patched[i].2 as int] == m.patched[i].3
    &&& forall|i: int|
        0 <= i < m.duplicated.len() ==> if (#[trigger] m.duplicated[i]).2.len() == 0 {
            &&& m.duplicated[i].3.len() > 0
            &&& m.duplicated[i].1 < st.blobs_new.len()
            &&& st.blobs_new[m.duplicated[i].1 as int] == m.duplicated[i].3[0]
        } else {
            m.duplicated[i].1 == SENTINEL
        }
    &&& st.blobs_new.len() == m.new_files.len() + count_dup_blobs(m.duplicated)
    &&& st.blobs_patch.len() == m.patched.len()
}

#[verifier::rlimit(40)]
proof fn lemma_step_slots(st: BuildState, k: u64, g: Group, om: Map<Seq<char>, u64>, nm: Map<Seq<char>, u64>)
    requires
        slots_ok(st),
        st.blobs_new.len() < u64::MAX,
        st.blobs_patch.len() < u64::MAX,
    ensures
        slots_ok(classify_group(st, k, g, om, nm)),
{
    let r = classify_group(st, k, g, om, nm);
    let m = st.m;
    let o = g.0;
    let n = g.1;
    if o.len() == 1 && n.len() == 1 && o[0] == n[0] {
    } else if (o.len() == 1 && n.len() == 1) || n.len() > 1 || o.len() > 1 {
        assert(r.m.duplicated.drop_last() =~= m.duplicated);
        assert forall|i: int| 0 <= i < r.m.duplicated.len() implies if (#[trigger] r.m.duplicated[i]).2.len() == 0 {
            &&& r.m.duplicated[i].3.len() > 0
            &&& r.m.duplicated[i].1 < r.blobs_new.len()
            &&& r.blobs_new[r.m.duplicated[i].1 as int] == r.m.duplicated[i].3[0]
        } else {
            r.m.duplicated[i].1 == SENTINEL
        } by {
            if i < m.duplicated.len() {
                assert(r.m.duplicated[i] == m.duplicated[i]);
            }
        }
        if o.len() == 0 {
            assert forall|i: int| 0 <= i < r.m.new_files.len() implies (#[trigger] r.m.new_files[i]).1 < r.blobs_new.len()
                && r.blobs_new[r.m.new_files[i].1 as int] == r.m.new_files[i].2 by {
                assert(m.new_files[i] == r.m.new_files[i]);
            }
        }
    } else if o.len() == 0 && n.len() == 1 {
        if om.contains_key(n[0]) {
            assert forall|i: int| 0 <= i < r.m.patched.len() implies (#[trigger] r.m.patched[i]).2 < r.blobs_patch.len()
                && r.blobs_patch[r.m.patched[i].2 as int] == r.m.patched[i].3 by {
                if i < m.patched.len() {
                    assert(r.m.patched[i] == m.patched[i]);
                }
            }
        } else {
            assert forall|i: int| 0 <= i < r.m.new_files.len() implies (#[trigger] r.m.new_files[i]).1 < r.blobs_new.len()
                && r.blobs_new[r.m.new_files[i].1 as int] == r.m.new_files[i].2 by {
                if i < m.new_files.len() {
                    assert(r.m.new_files[i] == m.new_files[i]);
                }
            }
            assert forall|i: int| 0 <= i < r.m.duplicated.len() implies if (#[trigger] r.m.duplicated[i]).2.len() == 0 {
                &&& r.m.duplicated[i].3.len() > 0
                &&& r.m.duplicated[i].1 < r.blobs_new.len()
                &&& r.blobs_new[r.m.duplicated[i].1 as int] == r.m.duplicated[i].3[0]
            } else {
                r.m.duplicated[i].1 == SENTINEL
            } by {
                assert(r.m.duplicated[i] == m.duplicated[i]);
            }
        }
    }
}

proof fn lemma_prefix_slots(ks: Seq<u64>, groups: Map<u64, Group>, om: Map<Seq<char>, u64>, nm: Map<Seq<char>, u64>)
    requires
        ks.len() < u64::MAX,
    ensures
        slots_ok(classify(ks, groups, om, nm)),
        classify(ks, groups, om, nm).blobs_new.len() <= ks.len(),
        classify(ks, groups, om, nm).blobs_patch.len() <= ks.len(),
    decreases ks.len(),
{
    if ks.len() == 0 {
        let e = empty_state();
        assert(count_dup_blobs(e.m.duplicated) == 0);
    } else {
        let t = ks.drop_last();
        lemma_prefix_slots(t, groups, om, nm);
        lemma_step_slots(classify(t, groups, om, nm), ks.last(), groups[ks.last()], om, nm);
    }
}

/// The blob slots of a manifest are consistent: each new file and each duplicated entry
/// without old paths names the new-blob slot that is filled from its (first) path, each
/// patched file names the patch-blob slot filled from its path, duplicated entries with old
/// paths carry the sentinel, and the slots are exactly as many as the entries that use them.
#[verifier::rlimit(40)]
pub proof fn lemma_blob_slots(d: &DiffingDiff)
    requires
        d.groups().dom().len() < u64::MAX,
    ensures
        slots_ok(d.classified()),
{
    let dom = d.groups().dom();
    assert(dom.finite()) by {
        assert(d.files@.dom().finite());
        assert(dom =~= d.files@.dom());
    }
    lemma_sorted_exists(dom);
    let ks = sorted_keys(dom);
    assert(ks.no_duplicates()) by {
        assert forall|i: int, j: int| 0 <= i < ks.len() && 0 <= j < ks.len() && i != j implies ks[i] != ks[j] by {
            if i < j {
                assert(ks[i] < ks[j]);
            } else {
                assert(ks[j] < ks[i]);
            }
        }
    }
    ks.unique_seq_to_set();
    lemma_prefix_slots(ks, d.groups(), d.old_map(), d.new_map());
}


/// Each manifest entry lists paths of the content group of its hash.
pub open spec fn entries_in_groups(m: ManifestModel, groups: Map<u64, Group>, om: Map<Seq<char>, u64>) -> bool {
    &&& forall|i: int|
        0 <= i < m.untouched.len() ==> groups.contains_key((#[trigger] m.untouched[i]).0)
            && groups[m.untouched[i].0].0.contains(m.untouched[i].1)
            && groups[m.untouched[i].0].1.contains(m.untouched[i].1)
    &&& forall|i: int|
        0 <= i < m.new_files.len() ==> groups.contains_key((#[trigger] m.new_files[i]).0)
            && groups[m.new_files[i].0].1.contains(m.new_files[i].2)
    &&& forall|i: int|
        0 <= i < m.patched.len() ==> groups.contains_key((#[trigger] m.patched[i]).1)
            && groups[m.patched[i].1].1.contains(m.patched[i].3) && om.contains_key(m.patched[i].3)
            && om[m.patched[i].3] == m.patched[i].0
    &&& forall|i: int|
        0 <= i < m.duplicated.len() ==> groups.contains_key((#[trigger] m.duplicated[i]).0)
            && m.duplicated[i].2 == groups[m.duplicated[i].0].0 && m.duplicated[i].3 == groups[m.duplicated[i].0].1
}

#[verifier::rlimit(40)]
proof fn lemma_step_entries(st: BuildState, k: u64, groups: Map<u64, Group>, om: Map<Seq<char>, u64>, nm: Map<Seq<char>, u64>)
    requires
        entries_in_groups(st.m, groups, om),
        groups.contains_key(k),
    ensures
        entries_in_groups(classify_group(st, k, groups[k], om, nm).m, groups, om),
{
    let g = groups[k];
    let o = g.0;
    let n = g.1;
    let m = st.m;
    let r = classify_group(st, k, g, om, nm).m;
    if o.len() > 0 {
        assert(o.contains(o[0]));
    }
    if n.len() > 0 {
        assert(n.contains(n[0]));
    }
    if o.len() == 1 && n.len() == 1 && o[0] == n[0] {
        assert forall|i: int| 0 <= i < r.untouched.len() implies groups.contains_key((#[trigger] r.untouched[i]).0)
            && groups[r.untouched[i].0].0.contains(r.untouched[i].1)
            && groups[r.untouched[i].0].1.contains(r.untouched[i].1) by {
            if i < m.untouched.len() {
                assert(r.untouched[i] == m.untouched[i]);
            }
        }
    } else if (o.len() == 1 && n.len() == 1) || n.len() > 1 || o.len() > 1 {
        assert forall|i: int| 0 <= i < r.duplicated.len() implies groups.contains_key((#[trigger] r.duplicated[i]).0)
            && r.duplicated[i].2 == groups[r.duplicated[i].0].0 && r.duplicated[i].3 == groups[r.duplicated[i].0].1 by {
            if i < m.duplicated.len() {
                assert(r.duplicated[i] == m.duplicated[i]);
            }
        }
    } else if o.len() == 0 && n.len() == 1 {
        if om.contains_key(n[0]) {
            assert forall|i: int| 0 <= i < r.patched.len() implies groups.contains_key((#[trigger] r.patched[i]).1)
                && groups[r.patched[i].1].1.contains(r.patched[i].3) && om.contains_key(r.patched[i].3)
                && om[r.patched[i].3] == r.patched[i].0 by {
                if i < m.patched.len() {
                    assert(r.patched[i] == m.patched[i]);
                }
            }
        } else {
            assert forall|i: int| 0 <= i < r.new_files.len() implies groups.contains_key((#[trigger] r.new_files[i]).0)
                && groups[r.new_files[i].0].1.contains(r.new_files[i].2) by {
                if i < m.new_files.len() {
                    assert(r.new_files[i] == m.new_files[i]);
                }
            }
        }
    } else if o.len() == 1 && n.len() == 0 {
    }
}

proof fn lemma_prefix_entries(ks: Seq<u64>, groups: Map<u64, Group>, om: Map<Seq<char>, u64>, nm: Map<Seq<char>, u64>)
    requires
        forall|i: int| 0 <= i < ks.len() ==> groups.contains_key(#[trigger] ks[i]),
    ensures
        entries_in_groups(classify(ks, groups, om, nm).m, groups, om),
    decreases ks.len(),
{
    if ks.len() > 0 {
        let t = ks.drop_last();
        assert forall|i: int| 0 <= i < t.len() implies groups.contains_key(#[trigger] t[i]) by {
            assert(t[i] == ks[i]);
        }
        lemma_prefix_entries(t, groups, om, nm);
        assert(groups.contains_key(ks[ks.len() - 1]));
        lemma_step_entries(classify(t, groups, om, nm), ks.last(), groups, om, nm);
    }
}

/// The content hash of every file of a tree.
pub open spec fn tree_hashes(t: Map<Seq<char>, Seq<u8>>) -> Map<Seq<char>, u64> {
    t.map_values(|c: Seq<u8>| xxh64(c))
}

/// No two different contents of the two trees share a hash.
pub open spec fn no_collisions(o: Map<Seq<char>, Seq<u8>>, n: Map<Seq<char>, Seq<u8>>) -> bool {
    &&& forall|p: Seq<char>, q: Seq<char>|
        o.contains_key(p) && n.contains_key(q) && #[trigger] xxh64(o[p]) == #[trigger] xxh64(n[q]) ==> o[p] == n[q]
    &&& forall|p: Seq<char>, q: Seq<char>|
        n.contains_key(p) && n.contains_key(q) && #[trigger] xxh64(n[p]) == #[trigger] xxh64(n[q]) ==> n[p] == n[q]
}

/// Round trip: when the new blobs hold the new content of the paths they were filled from,
/// and each patch blob rebuilds the new content of its path, every entry of the manifest
/// produces at each of its new paths exactly that path's content in the new tree, provided
/// no two different contents share a hash. Together with the new side covering the new tree
/// once per path, applying the diff to the old tree gives the new tree.
#[verifier::rlimit(40)]
pub proof fn lemma_round_trip(
    d: &DiffingDiff,
    old_tree: Map<Seq<char>, Seq<u8>>,
    new_tree: Map<Seq<char>, Seq<u8>>,
    new_blobs: Seq<Seq<u8>>,
    patch_outputs: Seq<Seq<u8>>,
)
    requires
        d.wf(),
        d.old_map() == tree_hashes(old_tree),
        d.new_map() == tree_hashes(new_tree),
        no_collisions(old_tree, new_tree),
        d.groups().dom().len() < u64::MAX,
        new_blobs.len() == d.classified().blobs_new.len(),
        forall|i: int| 0 <= i < new_blobs.len() ==> #[trigger] new_blobs[i] == new_tree[d.classified().blobs_new[i]],
        patch_outputs.len() == d.classified().blobs_patch.len(),
        forall|i: int|
            0 <= i < patch_outputs.len() ==> #[trigger] patch_outputs[i] == new_tree[d.classified().blobs_patch[i]],
    ensures
        ({
            let m = d.classified().m;
            &&& forall|i: int|
                0 <= i < m.untouched.len() ==> old_tree[(#[trigger] m.untouched[i]).1] == new_tree[m.untouched[i].1]
            &&& forall|i: int|
                0 <= i < m.new_files.len() ==> new_blobs[(#[trigger] m.new_files[i]).1 as int] == new_tree[m.new_files[i].2]
            &&& forall|i: int|
                0 <= i < m.patched.len() ==> patch_outputs[(#[trigger] m.patched[i]).2 as int] == new_tree[m.patched[i].3]
            &&& forall|i: int, j: int|
                0 <= i < m.duplicated.len() && 0 <= j < m.duplicated[i].3.len() ==> if m.duplicated[i].2.len() > 0 {
                    old_tree[m.duplicated[i].2[0]] == new_tree[#[trigger] m.duplicated[i].3[j]]
                } else {
                    new_blobs[m.duplicated[i].1 as int] == new_tree[m.duplicated[i].3[j]]
                }
        }),
{
    let st = d.classified();
    let m = st.m;
    let groups = d.groups();
    let om = d.old_map();
    let nm = d.new_map();
    let dom = groups.dom();
    assert(dom.finite()) by {
        assert(d.files@.dom().finite());
        assert(dom =~= d.files@.dom());
    }
    lemma_sorted_exists(dom);
    let ks = sorted_keys(dom);
    assert forall|i: int| 0 <= i < ks.len() implies groups.contains_key(#[trigger] ks[i]) by {
        assert(ks.to_set().contains(ks[i]));
    }
    lemma_prefix_entries(ks, groups, om, nm);
    lemma_blob_slots(d);
    assert forall|i: int| 0 <= i < m.untouched.len() implies old_tree[(#[trigger] m.untouched[i]).1] == new_tree[m.untouched[i].1] by {
        let (h, p) = m.untouched[i];
        assert(d.group_ok(h));
        lemma_group_paths(d, h);
        let g = groups[h];
        let a = choose|a: int| 0 <= a < g.0.len() && g.0[a] == p;
        let b = choose|b: int| 0 <= b < g.1.len() && g.1[b] == p;
        assert(om[g.0[a]] == h && nm[g.1[b]] == h);
        assert(old_tree.contains_key(p) && new_tree.contains_key(p));
        assert(xxh64(old_tree[p]) == xxh64(new_tree[p]));
    }
    assert forall|i: int| 0 <= i < m.new_files.len() implies new_blobs[(#[trigger] m.new_files[i]).1 as int] == new_tree[m.new_files[i].2] by {
        let e = m.new_files[i];
        assert(st.blobs_new[e.1 as int] == e.2);
    }
    assert forall|i: int| 0 <= i < m.patched.len() implies patch_outputs[(#[trigger] m.patched[i]).2 as int] == new_tree[m.patched[i].3] by {
        let e = m.patched[i];
        assert(st.blobs_patch[e.2 as int] == e.3);
    }
    assert forall|i: int, j: int| 0 <= i < m.duplicated.len() && 0 <= j < m.duplicated[i].3.len() implies if m.duplicated[i].2.len() > 0 {
        old_tree[m.duplicated[i].2[0]] == new_tree[#[trigger] m.duplicated[i].3[j]]
    } else {
        new_blobs[m.duplicated[i].1 as int] == new_tree[m.duplicated[i].3[j]]
    } by {
        let e = m.duplicated[i];
        let h = e.0;
        assert(d.group_ok(h));
        lemma_group_paths(d, h);
        let g = groups[h];
        assert(nm[g.1[j]] == h);
        let q = e.3[j];
        assert(new_tree.contains_key(q));
        if e.2.len() > 0 {
            assert(om[g.0[0]] == h);
            assert(old_tree.contains_key(e.2[0]));
            assert(xxh64(old_tree[e.2[0]]) == xxh64(new_tree[q]));
        } else {
            assert(st.blobs_new[e.1 as int] == e.3[0]);
            assert(nm[g.1[0]] == h);
            assert(xxh64(new_tree[e.3[0]]) == xxh64(new_tree[q]));
        }
    }
}


/// A rename: content at a single old path that sits at a single, different new path is
/// recorded as duplicated from the old tree, with the sentinel, and takes no blob slot.
pub proof fn lemma_rename_classified(
    st: BuildState,
    h: u64,
    a: Seq<char>,
    b: Seq<char>,
    om: Map<Seq<char>, u64>,
    nm: Map<Seq<char>, u64>,
)
    requires
        a != b,
    ensures
        classify_group(st, h, (seq![a], seq![b]), om, nm) == (BuildState {
            m: ManifestModel { duplicated: st.m.duplicated.push((h, SENTINEL, seq![a], seq![b])), ..st.m },
            blobs_new: st.blobs_new,
            blobs_patch: st.blobs_patch,
        }),
{
}

/// A modification: new content at a path that the old tree also holds is recorded as patched
/// against that path's old hash, in the next patch slot, which is filled from that path; the
/// old content alone at that path is not recorded as deleted.
pub proof fn lemma_modify_classified(
    st: BuildState,
    h_old: u64,
    h_new: u64,
    p: Seq<char>,
    om: Map<Seq<char>, u64>,
    nm: Map<Seq<char>, u64>,
)
    requires
        om.contains_key(p),
        nm.contains_key(p),
    ensures
        classify_group(st, h_new, (Seq::empty(), seq![p]), om, nm) == (BuildState {
            m: ManifestModel {
                patched: st.m.patched.push((om[p], h_new, st.blobs_patch.len() as u64, p)),
                ..st.m
            },
            blobs_new: st.blobs_new,
            blobs_patch: st.blobs_patch.push(p),
        }),
        classify_group(st, h_old, (seq![p], Seq::empty()), om, nm) == st,
{
}

} // verus!
