use vstd::prelude::*;

pub mod archive;
pub mod paths;
pub mod text;
pub mod wheels;

use crate::wheels::{normalize_spec, SpecMetadata, Wheel};

verus! {

/// One indexed package: the artifact paths known for it, in discovery order.
pub struct Project {
    pub files: Vec<String>,
}

impl View for Project {
    type V = Seq<Seq<char>>;

    open spec fn view(&self) -> Seq<Seq<char>> {
        self.files.deep_view()
    }
}

/// One index entry as mathematics: the normalized key, the canonical declared
/// name it stands for, and that project's artifact paths.
#[verifier::ext_equal]
pub ghost struct SpecEntry {
    pub normalized: Seq<char>,
    pub canonical: Seq<char>,
    pub files: Seq<Seq<char>>,
}

/// The whole index: an alias table from normalized to canonical names, and
/// the projects keyed by canonical name. The two tables are kept aligned:
/// the i-th alias names the i-th project.
pub struct State {
    pub normalized_project_names: Vec<(String, String)>,
    pub projects: Vec<(String, Project)>,
}

/// No two entries share a normalized key, every entry's key is the
/// normalization of its canonical name, and no entry lists a path twice.
pub open spec fn entries_wf(es: Seq<SpecEntry>) -> bool {
    &&& forall|i: int, j: int|
        0 <= i < j < es.len() ==> (#[trigger] es[i]).normalized != (#[trigger] es[j]).normalized
    &&& forall|i: int|
        0 <= i < es.len() ==> (#[trigger] es[i]).normalized == normalize_spec(es[i].canonical)
    &&& forall|i: int| 0 <= i < es.len() ==> no_dup_files((#[trigger] es[i]).files)
}

pub open spec fn no_dup_files(fs: Seq<Seq<char>>) -> bool {
    forall|i: int, j: int| 0 <= i < j < fs.len() ==> #[trigger] fs[i] != #[trigger] fs[j]
}

/// The first entry carrying normalized key `n`.
pub open spec fn find_norm(es: Seq<SpecEntry>, n: Seq<char>) -> Option<int>
    decreases es.len(),
{
    if es.len() == 0 {
        None
    } else if es[0].normalized == n {
        Some(0int)
    } else {
        match find_norm(es.drop_first(), n) {
            None => None,
            Some(j) => Some(j + 1),
        }
    }
}

pub proof fn lemma_find_norm_none(es: Seq<SpecEntry>, n: Seq<char>)
    requires
        forall|j: int| 0 <= j < es.len() ==> (#[trigger] es[j]).normalized != n,
    ensures
        find_norm(es, n) is None,
    decreases es.len(),
{
    if es.len() > 0 {
        lemma_find_norm_none(es.drop_first(), n);
    }
}

pub proof fn lemma_find_norm_first(es: Seq<SpecEntry>, n: Seq<char>, i: int)
    requires
        0 <= i < es.len(),
        es[i].normalized == n,
        forall|j: int| 0 <= j < i ==> (#[trigger] es[j]).normalized != n,
    ensures
        find_norm(es, n) == Some(i),
    decreases es.len(),
{
    if i > 0 {
        lemma_find_norm_first(es.drop_first(), n, i - 1);
    }
}

pub proof fn lemma_find_norm_props(es: Seq<SpecEntry>, n: Seq<char>)
    ensures
        (match find_norm(es, n) {
            Some(i) => 0 <= i < es.len() && es[i].normalized == n && forall|j: int|
                0 <= j < i ==> (#[trigger] es[j]).normalized != n,
            None => forall|j: int| 0 <= j < es.len() ==> (#[trigger] es[j]).normalized != n,
        }),
    decreases es.len(),
{
    if es.len() > 0 && es[0].normalized != n {
        lemma_find_norm_props(es.drop_first(), n);
        match find_norm(es.drop_first(), n) {
            Some(j) => {
                assert(es[j + 1] == es.drop_first()[j]);
                assert forall|k: int| 0 <= k < j + 1 implies (#[trigger] es[k]).normalized
                    != n by {
                    if k > 0 {
                        assert(es.drop_first()[k - 1] == es[k]);
                    }
                }
            },
            None => {
                assert forall|k: int| 0 <= k < es.len() implies (#[trigger] es[k]).normalized
                    != n by {
                    if k > 0 {
                        assert(es.drop_first()[k - 1] == es[k]);
                    }
                }
            },
        }
    }
}

/// How one successfully extracted archive lands in the index under
/// construction: a fresh entry for a new normalized key; otherwise the
/// canonical name is overwritten (last writer wins) and the path appended
/// unless already present.
pub open spec fn insert_entry(es: Seq<SpecEntry>, path: Seq<char>, name: Seq<char>) -> Seq<
    SpecEntry,
> {
    let n = normalize_spec(name);
    match find_norm(es, n) {
        None => es.push(SpecEntry { normalized: n, canonical: name, files: seq![path] }),
        Some(i) => es.update(
            i,
            SpecEntry {
                normalized: n,
                canonical: name,
                files: if es[i].files.contains(path) {
                    es[i].files
                } else {
                    es[i].files.push(path)
                },
            },
        ),
    }
}

/// The index a completed rebuild pass owes for the extracted archives
/// `items`, in scan order, starting from nothing.
pub open spec fn snapshot_of(items: Seq<(Seq<char>, SpecMetadata)>) -> Seq<SpecEntry>
    decreases items.len(),
{
    if items.len() == 0 {
        Seq::<SpecEntry>::empty()
    } else {
        insert_entry(snapshot_of(items.drop_last()), items.last().0, items.last().1.name)
    }
}

pub open spec fn items_view(items: Seq<(String, Wheel)>) -> Seq<(Seq<char>, SpecMetadata)> {
    items.map_values(|p: (String, Wheel)| (p.0@, p.1@))
}

/// Inserting one archive keeps the index well formed.
pub proof fn lemma_insert_entry_wf(es: Seq<SpecEntry>, path: Seq<char>, name: Seq<char>)
    requires
        entries_wf(es),
    ensures
        entries_wf(insert_entry(es, path, name)),
{
    let n = normalize_spec(name);
    lemma_find_norm_props(es, n);
    let es2 = insert_entry(es, path, name);
    match find_norm(es, n) {
        None => {
            assert forall|i: int, j: int| 0 <= i < j < es2.len() implies (#[trigger] es2[i]).normalized
                != (#[trigger] es2[j]).normalized by {}
        },
        Some(i) => {
            if !es[i].files.contains(path) {
                assert forall|a: int, b: int|
                    0 <= a < b < es2[i].files.len() implies (#[trigger] es2[i].files[a]) != (
                #[trigger] es2[i].files[b]) by {
                    if b == es2[i].files.len() - 1 {
                        assert(es[i].files[a] != path);
                    }
                }
            }
        },
    }
}

/// Every index a rebuild pass can produce is well formed: this holds of the
/// empty starting index and is preserved by every insertion.
pub proof fn lemma_snapshot_wf(items: Seq<(Seq<char>, SpecMetadata)>)
    ensures
        entries_wf(snapshot_of(items)),
    decreases items.len(),
{
    if items.len() > 0 {
        lemma_snapshot_wf(items.drop_last());
        lemma_insert_entry_wf(snapshot_of(items.drop_last()), items.last().0, items.last().1.name);
    }
}

/// Well-formedness also covers the canonical names: no two entries share one,
/// so the alias table and the project table cover each other one for one.
pub proof fn lemma_entries_bijective(es: Seq<SpecEntry>)
    requires
        entries_wf(es),
    ensures
        forall|i: int, j: int|
            0 <= i < j < es.len() ==> (#[trigger] es[i]).canonical != (#[trigger] es[j]).canonical,
{
    assert forall|i: int, j: int|
        0 <= i < j < es.len() implies (#[trigger] es[i]).canonical != (#[trigger] es[j]).canonical by {
        if es[i].canonical == es[j].canonical {
            assert(es[i].normalized == es[j].normalized);
        }
    }
}

/// Where the artifact scanner looks: the base directory holding the wheel
/// archives, as a plain path string.
pub struct Config {
    pub base: String,
}

/// One rebuild request, tagged with which producer issued it.
#[derive(Debug)]
pub struct UpdateTrigger {
    pub source: String,
}

/// Why a whole rebuild cycle was abandoned.
#[derive(Debug, Clone, Copy, PartialEq, Eq, Structural)]
pub enum ScanError {
    /// The base directory's listing could not be obtained at all.
    DirectoryUnreadable,
}

fn contains_path(files: &Vec<String>, p: &String) -> (b: bool)
    ensures
        b == files.deep_view().contains(p@),
{
    let mut i: usize = 0;
    while i < files.len()
        invariant
            i <= files@.len(),
            forall|j: int| 0 <= j < i ==> files.deep_view()[j] != p@,
        decreases files@.len() - i,
    {
        if files[i].eq(p) {
            proof {
                assert(files.deep_view()[i as int] == p@);
            }
            return true;
        }
        i = i + 1;
    }
    proof {
        if files.deep_view().contains(p@) {
            let j = choose|j: int|
                0 <= j < files.deep_view().len() && files.deep_view()[j] == p@;
            assert(files.deep_view()[j] != p@);
        }
    }
    false
}

fn find_alias(v: &Vec<(String, String)>, n: &String) -> (r: Option<usize>)
    ensures
        (match r {
            Some(i) => i < v@.len() && v@[i as int].0@ == n@ && forall|j: int|
                0 <= j < i ==> (#[trigger] v@[j]).0@ != n@,
            None => forall|j: int| 0 <= j < v@.len() ==> (#[trigger] v@[j]).0@ != n@,
        }),
{
    let mut i: usize = 0;
    while i < v.len()
        invariant
            i <= v@.len(),
            forall|j: int| 0 <= j < i ==> (#[trigger] v@[j]).0@ != n@,
        decreases v@.len() - i,
    {
        if v[i].0.eq(n) {
            return Some(i);
        }
        i = i + 1;
    }
    None
}

impl State {
    /// The index's mathematical contents, entry by entry.
    pub open spec fn entries(&self) -> Seq<SpecEntry> {
        Seq::new(
            self.projects@.len() as nat,
            |i: int|
                SpecEntry {
                    normalized: self.normalized_project_names@[i].0@,
                    canonical: self.projects@[i].0@,
                    files: self.projects@[i].1@,
                },
        )
    }

    /// The two tables line up: same length, and the i-th alias maps to the
    /// i-th project's canonical name.
    pub open spec fn aligned(&self) -> bool {
        &&& self.normalized_project_names@.len() == self.projects@.len()
        &&& forall|i: int|
            0 <= i < self.projects@.len() ==> (#[trigger] self.normalized_project_names@[i]).1@
                == self.projects@[i].0@
    }

    pub open spec fn wf(&self) -> bool {
        self.aligned() && entries_wf(self.entries())
    }

    /// The empty index that exists from process start.
    pub fn new() -> (s: State)
        ensures
            s.wf(),
            s.entries() == Seq::<SpecEntry>::empty(),
    {
        let s = State { normalized_project_names: Vec::new(), projects: Vec::new() };
        proof {
            assert(s.entries() =~= Seq::<SpecEntry>::empty());
        }
        s
    }
}

/// The first path in `fs` whose file-name component is `f`.
pub open spec fn find_file(fs: Seq<Seq<char>>, f: Seq<char>) -> Option<int>
    decreases fs.len(),
{
    if fs.len() == 0 {
        None
    } else if crate::paths::spec_file_name(fs[0]) == f {
        Some(0int)
    } else {
        match find_file(fs.drop_first(), f) {
            None => None,
            Some(j) => Some(j + 1),
        }
    }
}

pub proof fn lemma_find_file_none(fs: Seq<Seq<char>>, f: Seq<char>)
    requires
        forall|j: int| 0 <= j < fs.len() ==> crate::paths::spec_file_name(#[trigger] fs[j]) != f,
    ensures
        find_file(fs, f) is None,
    decreases fs.len(),
{
    if fs.len() > 0 {
        lemma_find_file_none(fs.drop_first(), f);
    }
}

pub proof fn lemma_find_file_first(fs: Seq<Seq<char>>, f: Seq<char>, i: int)
    requires
        0 <= i < fs.len(),
        crate::paths::spec_file_name(fs[i]) == f,
        forall|j: int| 0 <= j < i ==> crate::paths::spec_file_name(#[trigger] fs[j]) != f,
    ensures
        find_file(fs, f) == Some(i),
    decreases fs.len(),
{
    if i > 0 {
        lemma_find_file_first(fs.drop_first(), f, i - 1);
    }
}

impl State {
    /// Answers a project listing request: the project known under this
    /// normalized name, or nothing, which is the only signal an unknown
    /// project ever produces.
    pub fn lookup_project(&self, normalized: &String) -> (r: Option<&Project>)
        ensures
            self.wf() ==> (match find_norm(self.entries(), normalized@) {
                Some(i) => r is Some && r.unwrap()@ == self.entries()[i].files,
                None => r is None,
            }),
    {
        let ghost es = self.entries();
        match find_alias(&self.normalized_project_names, normalized) {
            Some(i) => {
                proof {
                    if self.wf() {
                        assert forall|j: int| 0 <= j < i implies (#[trigger] es[j]).normalized
                            != normalized@ by {
                            assert(es[j].normalized == self.normalized_project_names@[j].0@);
                        }
                        assert(es[i as int].normalized == self.normalized_project_names@[
                            i as int
                        ].0@);
                        lemma_find_norm_first(es, normalized@, i as int);
                    }
                }
                if i < self.projects.len() {
                    Some(&self.projects[i].1)
                } else {
                    None
                }
            },
            None => {
                proof {
                    if self.wf() {
                        assert forall|j: int| 0 <= j < es.len() implies (
                        #[trigger] es[j]).normalized != normalized@ by {
                            assert(es[j].normalized == self.normalized_project_names@[j].0@);
                        }
                        lemma_find_norm_none(es, normalized@);
                    }
                }
                None
            },
        }
    }

    /// Answers a download request: the stored path of the artifact of this
    /// project whose file name is `file`, or nothing when the project or the
    /// file is unknown.
    pub fn resolve_file(&self, normalized: &String, file: &String) -> (r: Option<String>)
        ensures
            self.wf() ==> (match find_norm(self.entries(), normalized@) {
                Some(i) => (match find_file(self.entries()[i].files, file@) {
                    Some(j) => r is Some && r.unwrap()@ == self.entries()[i].files[j],
                    None => r is None,
                }),
                None => r is None,
            }),
    {
        let ghost es = self.entries();
        let project = match self.lookup_project(normalized) {
            Some(p) => p,
            None => {
                return None;
            },
        };
        let ghost i = find_norm(es, normalized@)->Some_0;
        proof {
            if self.wf() {
                lemma_find_norm_props(es, normalized@);
            }
        }
        let mut j: usize = 0;
        while j < project.files.len()
            invariant
                es == self.entries(),
                self.wf() ==> find_norm(es, normalized@) == Some(i) && 0 <= i < es.len() && project@
                    == es[i].files,
                project@.len() == project.files@.len(),
                j <= project.files@.len(),
                forall|k: int|
                    0 <= k < j ==> crate::paths::spec_file_name(#[trigger] project@[k]) != file@,
            decreases project.files@.len() - j,
        {
            let fname = crate::paths::file_name(&project.files[j]);
            if fname.eq(file) {
                proof {
                    lemma_find_file_first(project@, file@, j as int);
                    assert(project@[j as int] == project.files@[j as int]@);
                }
                return Some(project.files[j].clone());
            }
            j = j + 1;
        }
        proof {
            lemma_find_file_none(project@, file@);
        }
        None
    }
}

/// Builds a fresh index from the archives one completed scan pass extracted,
/// entirely off to the side of any live index.
pub fn rebuild(items: &Vec<(String, Wheel)>) -> (s: State)
    ensures
        s.wf(),
        s.entries() == snapshot_of(items_view(items@)),
{
    let ghost iv = items_view(items@);
    let mut st = State { normalized_project_names: Vec::new(), projects: Vec::new() };
    proof {
        assert(st.entries() =~= Seq::<SpecEntry>::empty());
        assert(iv.take(0) =~= Seq::<(Seq<char>, SpecMetadata)>::empty());
    }
    let mut k: usize = 0;
    while k < items.len()
        invariant
            iv == items_view(items@),
            iv.len() == items@.len(),
            k <= items@.len(),
            st.aligned(),
            st.entries() == snapshot_of(iv.take(k as int)),
        decreases items@.len() - k,
    {
        let ghost es = st.entries();
        let pair = &items[k];
        let path = &pair.0;
        let name = &pair.1.meta.name;
        let n = pair.1.meta.normalized_name();
        proof {
            assert(iv[k as int] == (path@, pair.1@));
        }
        match find_alias(&st.normalized_project_names, &n) {
            None => {
                proof {
                    assert forall|j: int| 0 <= j < es.len() implies (#[trigger] es[j]).normalized
                        != n@ by {
                        assert(es[j].normalized == st.normalized_project_names@[j].0@);
                    }
                    lemma_find_norm_none(es, n@);
                }
                st.normalized_project_names.push((n, name.clone()));
                let mut files: Vec<String> = Vec::new();
                files.push(path.clone());
                st.projects.push((name.clone(), Project { files }));
                proof {
                    assert(st.entries() =~~= es.push(
                        SpecEntry { normalized: n@, canonical: name@, files: seq![path@] },
                    ));
                }
            },
            Some(i) => {
                proof {
                    assert(es[i as int].normalized == st.normalized_project_names@[i as int].0@);
                    assert forall|j: int| 0 <= j < i implies (#[trigger] es[j]).normalized
                        != n@ by {
                        assert(es[j].normalized == st.normalized_project_names@[j].0@);
                    }
                    lemma_find_norm_first(es, n@, i as int);
                }
                let old_pair = st.projects.remove(i);
                let mut files = old_pair.1.files;
                if !contains_path(&files, path) {
                    files.push(path.clone());
                }
                st.projects.insert(i, (name.clone(), Project { files }));
                let alias = st.normalized_project_names.remove(i);
                st.normalized_project_names.insert(i, (alias.0, name.clone()));
                proof {
                    let updated = SpecEntry {
                        normalized: n@,
                        canonical: name@,
                        files: if es[i as int].files.contains(path@) {
                            es[i as int].files
                        } else {
                            es[i as int].files.push(path@)
                        },
                    };
                    assert(st.entries() =~~= es.update(i as int, updated));
                }
            },
        }
        k = k + 1;
        proof {
            assert(iv.take(k as int).drop_last() =~= iv.take(k as int - 1));
            assert(iv.take(k as int).last() == iv[k as int - 1]);
            assert(st.entries() == snapshot_of(iv.take(k as int)));
        }
    }
    proof {
        assert(iv.take(items@.len() as int) =~= iv);
        lemma_snapshot_wf(iv);
    }
    st
}

/// The extractions that succeeded, in scan order; a failed extraction only
/// drops its own file.
pub open spec fn spec_successes(s: Seq<(String, Result<Wheel, crate::wheels::ExtractError>)>) -> Seq<
    (String, Wheel),
>
    decreases s.len(),
{
    if s.len() == 0 {
        Seq::<(String, Wheel)>::empty()
    } else {
        let rest = spec_successes(s.drop_last());
        match s.last().1 {
            Ok(w) => rest.push((s.last().0, w)),
            Err(_) => rest,
        }
    }
}

/// Keeps the archives whose extraction succeeded and discards each failed
/// one, so no single bad archive can abort a rebuild pass.
pub fn collect_scanned(outcomes: Vec<(String, Result<Wheel, crate::wheels::ExtractError>)>) -> (r:
    Vec<(String, Wheel)>)
    ensures
        r@ == spec_successes(outcomes@),
{
    let mut out: Vec<(String, Wheel)> = Vec::new();
    let mut outcomes = outcomes;
    let ghost all = outcomes@;
    proof {
        assert(all.take(0) =~= Seq::<(String, Result<Wheel, crate::wheels::ExtractError>)>::empty());
    }
    let total = outcomes.len();
    proof {
        assert(all.len() == total);
    }
    let mut k: usize = 0;
    while outcomes.len() > 0
        invariant
            all.len() <= usize::MAX,
            outcomes@ == all.skip(k as int),
            k + outcomes@.len() == all.len(),
            out@ == spec_successes(all.take(k as int)),
        decreases outcomes@.len(),
    {
        let (path, outcome) = outcomes.remove(0);
        proof {
            assert(all.skip(k as int)[0] == all[k as int]);
        }
        match outcome {
            Ok(w) => {
                out.push((path, w));
            },
            Err(_) => {},
        }
        k = k + 1;
        proof {
            assert(all.skip(k as int) =~= all.skip(k as int - 1).drop_first());
            assert(all.take(k as int).drop_last() =~= all.take(k as int - 1));
            assert(all.take(k as int).last() == all[k as int - 1]);
            assert(out@ == spec_successes(all.take(k as int)));
        }
    }
    proof {
        assert(all.take(all.len() as int) =~= all);
    }
    out
}

/// One rebuild cycle's effect on the live index: a successful scan replaces
/// the whole index with the snapshot its archives determine, and a failed
/// scan leaves the index exactly as it was. In either case the index a
/// reader sees is one completed pass's snapshot, never a mixture.
pub fn update_cycle(state: &mut State, scan: Result<Vec<(String, Wheel)>, ScanError>)
    ensures
        (match scan {
            Ok(items) => final(state).wf() && final(state).entries() == snapshot_of(
                items_view(items@),
            ),
            Err(_) => *final(state) == *old(state),
        }),
{
    match scan {
        Ok(items) => {
            *state = rebuild(&items);
        },
        Err(_) => {},
    }
}

} // verus!
