//! Checking trees: the files that a manifest vouches for, and comparing directory listings.
use crate::manifest::{paths_view, DiffManifest, DuplicatedFile, HashAndPath, ManifestModel, NewFile, PatchedFile};
use crate::common::FoldiffError;
use vstd::hash_map::StringHashMap;
use vstd::prelude::*;

verus! {

/// A file that must exist with the given content hash, in the old tree or in the new one.
pub struct ExpectedFile {
    pub hash: u64,
    pub in_new: bool,
    pub path: String,
}

pub type ExpectedModel = (u64, bool, Seq<char>);

pub open spec fn expected_view(v: Seq<ExpectedFile>) -> Seq<ExpectedModel> {
    v.map_values(|e: ExpectedFile| (e.hash, e.in_new, e.path@))
}

/// Untouched files are checked on both sides.
pub open spec fn exp_untouched(u: Seq<(u64, Seq<char>)>) -> Seq<ExpectedModel>
    decreases u.len(),
{
    if u.len() == 0 {
        Seq::empty()
    } else {
        let e = u.last();
        exp_untouched(u.drop_last()) + seq![(e.0, false, e.1), (e.0, true, e.1)]
    }
}

/// Patched files are checked against the old hash on the old side, the new hash on the new.
pub open spec fn exp_patched(p: Seq<(u64, u64, u64, Seq<char>)>) -> Seq<ExpectedModel>
    decreases p.len(),
{
    if p.len() == 0 {
        Seq::empty()
    } else {
        let e = p.last();
        exp_patched(p.drop_last()) + seq![(e.0, false, e.3), (e.1, true, e.3)]
    }
}

/// Every listed path of a duplicated entry carries its hash.
pub open spec fn exp_dup(h: u64, olds: Seq<Seq<char>>, news: Seq<Seq<char>>) -> Seq<ExpectedModel> {
    olds.map_values(|p: Seq<char>| (h, false, p)) + news.map_values(|p: Seq<char>| (h, true, p))
}

pub open spec fn exp_dups(d: Seq<(u64, u64, Seq<Seq<char>>, Seq<Seq<char>>)>) -> Seq<ExpectedModel>
    decreases d.len(),
{
    if d.len() == 0 {
        Seq::empty()
    } else {
        let e = d.last();
        exp_dups(d.drop_last()) + exp_dup(e.0, e.2, e.3)
    }
}

/// Every `(hash, side, path)` that a manifest implies for the two trees.
pub open spec fn expected_of(m: ManifestModel) -> Seq<ExpectedModel> {
    exp_untouched(m.untouched) + m.deleted.map_values(|e: (u64, Seq<char>)| (e.0, false, e.1))
        + m.new_files.map_values(|e: (u64, u64, Seq<char>)| (e.0, true, e.2)) + exp_patched(m.patched)
        + exp_dups(m.duplicated)
}

/// Every file that `manifest` vouches for, with the hash it must have and the tree it is in.
#[verifier::rlimit(40)]
pub fn expected_files(manifest: &DiffManifest) -> (r: Vec<ExpectedFile>)
    ensures
        expected_view(r@) == expected_of(manifest@),
{
    let mut r: Vec<ExpectedFile> = Vec::new();
    let m = manifest;
    let mut i: usize = 0;
    while i < m.untouched_files.len()
        invariant
            i <= m.untouched_files@.len(),
            expected_view(r@) == exp_untouched(m@.untouched.take(i as int)),
        decreases m.untouched_files@.len() - i,
    {
        let (h, p) = (m.untouched_files[i].0, &m.untouched_files[i].1);
        r.push(ExpectedFile { hash: h, in_new: false, path: p.clone() });
        r.push(ExpectedFile { hash: h, in_new: true, path: p.clone() });
        i = i + 1;
        assert(m@.untouched.take(i as int).drop_last() =~= m@.untouched.take(i - 1));
        assert(expected_view(r@) =~= exp_untouched(m@.untouched.take(i as int)));
    }
    assert(m@.untouched.take(i as int) =~= m@.untouched);
    let ghost base1 = expected_view(r@);
    let mut i: usize = 0;
    while i < m.deleted_files.len()
        invariant
            i <= m.deleted_files@.len(),
            expected_view(r@) == base1 + m@.deleted.take(i as int).map_values(|e: (u64, Seq<char>)| (e.0, false, e.1)),
        decreases m.deleted_files@.len() - i,
    {
        let ghost prev = expected_view(r@);
        r.push(ExpectedFile { hash: m.deleted_files[i].0, in_new: false, path: m.deleted_files[i].1.clone() });
        assert(expected_view(r@) =~= prev.push((m@.deleted[i as int].0, false, m@.deleted[i as int].1)));
        assert(m@.deleted.take(i + 1).map_values(|e: (u64, Seq<char>)| (e.0, false, e.1)) =~= m@.deleted.take(i as int).map_values(|e: (u64, Seq<char>)| (e.0, false, e.1)).push((m@.deleted[i as int].0, false, m@.deleted[i as int].1)));
        i = i + 1;
        assert(expected_view(r@) =~= base1 + m@.deleted.take(i as int).map_values(|e: (u64, Seq<char>)| (e.0, false, e.1)));
    }
    assert(m@.deleted.take(i as int) =~= m@.deleted);
    let ghost base2 = expected_view(r@);
    let mut i: usize = 0;
    while i < m.new_files.len()
        invariant
            i <= m.new_files@.len(),
            expected_view(r@) == base2 + m@.new_files.take(i as int).map_values(|e: (u64, u64, Seq<char>)| (e.0, true, e.2)),
        decreases m.new_files@.len() - i,
    {
        let ghost prev = expected_view(r@);
        r.push(ExpectedFile { hash: m.new_files[i].hash, in_new: true, path: m.new_files[i].path.clone() });
        assert(expected_view(r@) =~= prev.push((m@.new_files[i as int].0, true, m@.new_files[i as int].2)));
        assert(m@.new_files.take(i + 1).map_values(|e: (u64, u64, Seq<char>)| (e.0, true, e.2)) =~= m@.new_files.take(i as int).map_values(|e: (u64, u64, Seq<char>)| (e.0, true, e.2)).push((m@.new_files[i as int].0, true, m@.new_files[i as int].2)));
        i = i + 1;
        assert(expected_view(r@) =~= base2 + m@.new_files.take(i as int).map_values(|e: (u64, u64, Seq<char>)| (e.0, true, e.2)));
    }
    assert(m@.new_files.take(i as int) =~= m@.new_files);
    let ghost base3 = expected_view(r@);
    let mut i: usize = 0;
    while i < m.patched_files.len()
        invariant
            i <= m.patched_files@.len(),
            expected_view(r@) == base3 + exp_patched(m@.patched.take(i as int)),
        decreases m.patched_files@.len() - i,
    {
        let pf = &m.patched_files[i];
        let ghost prev = expected_view(r@);
        r.push(ExpectedFile { hash: pf.old_hash, in_new: false, path: pf.path.clone() });
        r.push(ExpectedFile { hash: pf.new_hash, in_new: true, path: pf.path.clone() });
        let ghost e = m@.patched[i as int];
        assert(e == (pf.old_hash, pf.new_hash, pf.index, pf.path@));
        assert(expected_view(r@) =~= prev + seq![(e.0, false, e.3), (e.1, true, e.3)]);
        i = i + 1;
        assert(m@.patched.take(i as int).drop_last() =~= m@.patched.take(i - 1));
        assert(expected_view(r@) =~= base3 + exp_patched(m@.patched.take(i as int)));
    }
    assert(m@.patched.take(i as int) =~= m@.patched);
    let ghost base4 = expected_view(r@);
    let mut i: usize = 0;
    while i < m.duplicated_files.len()
        invariant
            i <= m.duplicated_files@.len(),
            expected_view(r@) == base4 + exp_dups(m@.duplicated.take(i as int)),
        decreases m.duplicated_files@.len() - i,
    {
        let d = &m.duplicated_files[i];
        let ghost before = expected_view(r@);
        let mut j: usize = 0;
        while j < d.old_paths.len()
            invariant
                j <= d.old_paths@.len(),
                expected_view(r@) == before + paths_view(d.old_paths@).take(j as int).map_values(|p: Seq<char>| (d.hash, false, p)),
            decreases d.old_paths@.len() - j,
        {
            let ghost prev = expected_view(r@);
            r.push(ExpectedFile { hash: d.hash, in_new: false, path: d.old_paths[j].clone() });
            assert(expected_view(r@) =~= prev.push((d.hash, false, d.old_paths@[j as int]@)));
            assert(paths_view(d.old_paths@).take(j + 1).map_values(|p: Seq<char>| (d.hash, false, p)) =~= paths_view(d.old_paths@).take(j as int).map_values(|p: Seq<char>| (d.hash, false, p)).push((d.hash, false, d.old_paths@[j as int]@)));
            j = j + 1;
            assert(expected_view(r@) =~= before + paths_view(d.old_paths@).take(j as int).map_values(|p: Seq<char>| (d.hash, false, p)));
        }
        assert(paths_view(d.old_paths@).take(j as int) =~= paths_view(d.old_paths@));
        let ghost mid = expected_view(r@);
        let mut j: usize = 0;
        while j < d.new_paths.len()
            invariant
                j <= d.new_paths@.len(),
                expected_view(r@) == mid + paths_view(d.new_paths@).take(j as int).map_values(|p: Seq<char>| (d.hash, true, p)),
            decreases d.new_paths@.len() - j,
        {
            let ghost prev = expected_view(r@);
            r.push(ExpectedFile { hash: d.hash, in_new: true, path: d.new_paths[j].clone() });
            assert(expected_view(r@) =~= prev.push((d.hash, true, d.new_paths@[j as int]@)));
            assert(paths_view(d.new_paths@).take(j + 1).map_values(|p: Seq<char>| (d.hash, true, p)) =~= paths_view(d.new_paths@).take(j as int).map_values(|p: Seq<char>| (d.hash, true, p)).push((d.hash, true, d.new_paths@[j as int]@)));
            j = j + 1;
            assert(expected_view(r@) =~= mid + paths_view(d.new_paths@).take(j as int).map_values(|p: Seq<char>| (d.hash, true, p)));
        }
        assert(paths_view(d.new_paths@).take(j as int) =~= paths_view(d.new_paths@));
        i = i + 1;
        assert(m@.duplicated.take(i as int).drop_last() =~= m@.duplicated.take(i - 1));
        assert(expected_view(r@) =~= base4 + exp_dups(m@.duplicated.take(i as int)));
    }
    assert(m@.duplicated.take(i as int) =~= m@.duplicated);
    assert(expected_view(r@) =~= expected_of(manifest@));
    r
}

/// Judges one vouched-for file: `actual` is its content hash, or nothing if it is missing.
pub fn check_expected(e: &ExpectedFile, actual: Option<u64>) -> (r: Result<(), FoldiffError>)
    ensures
        actual is None <==> r == Err::<(), FoldiffError>(FoldiffError::MissingFile),
        r is Ok <==> actual == Some(e.hash),
        actual is Some && actual.unwrap() != e.hash ==> r == Err::<(), FoldiffError>(if e.in_new {
            FoldiffError::DestinationMismatch { expected: e.hash, actual: actual.unwrap() }
        } else {
            FoldiffError::SourceMismatch { expected: e.hash, actual: actual.unwrap() }
        }),
{
    match actual {
        None => Err(FoldiffError::MissingFile),
        Some(h) => if h == e.hash {
            Ok(())
        } else if e.in_new {
            Err(FoldiffError::DestinationMismatch { expected: e.hash, actual: h })
        } else {
            Err(FoldiffError::SourceMismatch { expected: e.hash, actual: h })
        },
    }
}

/// How two directory listings compare, by name.
pub struct NameComparison {
    /// Names in the first listing only, in its order.
    pub only_first: Vec<String>,
    /// Names in the second listing only, in its order.
    pub only_second: Vec<String>,
    /// Names in both, in the first listing's order.
    pub both: Vec<String>,
}

/// The names of `a` that are (`keep == true`) or are not in `b`, in order.
pub open spec fn names_where(a: Seq<Seq<char>>, b: Set<Seq<char>>, keep: bool) -> Seq<Seq<char>>
    decreases a.len(),
{
    if a.len() == 0 {
        Seq::empty()
    } else if b.contains(a.last()) == keep {
        names_where(a.drop_last(), b, keep).push(a.last())
    } else {
        names_where(a.drop_last(), b, keep)
    }
}

/// The set of names of a listing, as a lookup table.
fn name_set(v: &Vec<String>) -> (r: StringHashMap<bool>)
    ensures
        r@.dom() == paths_view(v@).to_set(),
{
    let mut r: StringHashMap<bool> = StringHashMap::new();
    let mut i: usize = 0;
    while i < v.len()
        invariant
            i <= v@.len(),
            r@.dom() == paths_view(v@).take(i as int).to_set(),
        decreases v@.len() - i,
    {
        r.insert(v[i].clone(), true);
        i = i + 1;
        assert(paths_view(v@).take(i as int) =~= paths_view(v@).take(i - 1).push(v@[i - 1]@));
        proof {
            paths_view(v@).take(i - 1).lemma_push_to_set_commute(v@[i - 1]@);
        }
        assert(r@.dom() =~= paths_view(v@).take(i as int).to_set());
    }
    assert(paths_view(v@).take(i as int) =~= paths_view(v@));
    r
}

/// The names of `a` that are (`keep`) or are not in the table `b`.
fn select_names(a: &Vec<String>, b: &StringHashMap<bool>, keep: bool) -> (r: Vec<String>)
    ensures
        paths_view(r@) == names_where(paths_view(a@), b@.dom(), keep),
{
    let mut r: Vec<String> = Vec::new();
    let mut i: usize = 0;
    while i < a.len()
        invariant
            i <= a@.len(),
            paths_view(r@) == names_where(paths_view(a@).take(i as int), b@.dom(), keep),
        decreases a@.len() - i,
    {
        assert(paths_view(a@).take(i + 1).drop_last() =~= paths_view(a@).take(i as int));
        if b.contains_key(a[i].as_str()) == keep {
            r.push(a[i].clone());
            assert(paths_view(r@) =~= names_where(paths_view(a@).take(i as int), b@.dom(), keep).push(a@[i as int]@));
        }
        i = i + 1;
    }
    assert(paths_view(a@).take(i as int) =~= paths_view(a@));
    r
}

/// Compares two directory listings by name.
pub fn compare_names(a: &Vec<String>, b: &Vec<String>) -> (r: NameComparison)
    ensures
        paths_view(r.only_first@) == names_where(paths_view(a@), paths_view(b@).to_set(), false),
        paths_view(r.only_second@) == names_where(paths_view(b@), paths_view(a@).to_set(), false),
        paths_view(r.both@) == names_where(paths_view(a@), paths_view(b@).to_set(), true),
{
    let sa = name_set(a);
    let sb = name_set(b);
    NameComparison {
        only_first: select_names(a, &sb, false),
        only_second: select_names(b, &sa, false),
        both: select_names(a, &sb, true),
    }
}

} // verus!
