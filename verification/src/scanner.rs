//! Conflict scanner: classifies the regular files of a directory listing as
//! loose override files or packed archives, accumulates a map from resource
//! name to the paths that provide it, and finalizes that map into a
//! deterministic conflict report.
//!
//! Paths are plain strings with `/` separators; walking the directory tree
//! and reading archive bytes is the caller's business.

use vstd::multiset::Multiset;
use vstd::prelude::*;
use vstd::relations::sorted_by;

use crate::erf::{
    spec_entry_name, spec_file_count, spec_parse_ok, spec_read_error_matches, spec_version_tag,
    ErfError, ErfFile,
};
use crate::text::{
    chars_le_order, file_name_of, is_override_path, last_index_of, lemma_chars_le_total_ordering,
    lower_ascii, lower_chars, rfind_char, sort_strings, spec_file_name, spec_is_override_path,
    views_of,
};

verus! {

/// An archive that could not be read or parsed, or a scan root that could
/// not be opened.
#[derive(Debug)]
pub enum ScanError {
    /// An archive failed to parse; the scan skipped its contribution.
    Erf { path: String, source: ErfError },
    /// The scan root itself does not exist or cannot be traversed.
    RootNotFound { path: String },
}

/// A packed archive: the bare file name has an extension that folds to
/// `erf`.
pub open spec fn spec_is_erf_path(p: Seq<char>) -> bool {
    let f = spec_file_name(p);
    let d = last_index_of(f, '.');
    d > 0 && lower_chars(f.subrange(d + 1, f.len() as int)) == "erf"@
}

/// Whether `path` names a packed archive, judged by its extension alone.
pub fn is_erf_file(path: &str) -> (r: bool)
    ensures
        r == spec_is_erf_path(path@),
{
    let fname = file_name_of(path);
    let n = fname.as_str().unicode_len();
    match rfind_char(fname.as_str(), '.') {
        None => false,
        Some(d) => {
            if d == 0 {
                false
            } else {
                let ext = fname.as_str().substring_char(d + 1, n);
                let low = lower_ascii(ext);
                low == String::from_str("erf")
            }
        },
    }
}

/// Fixed names that never count as conflicts (folded to lower case before
/// the comparison).
pub open spec fn spec_should_ignore(name: Seq<char>) -> bool {
    ||| lower_chars(name) == "manifest.xml"@
    ||| lower_chars(name) == "credits.txt"@
    ||| lower_chars(name) == "readme.txt"@
}

/// Whether `name` is one of the fixed always-duplicated metadata names.
pub fn should_ignore(name: &str) -> (r: bool)
    ensures
        r == spec_should_ignore(name@),
{
    let low = lower_ascii(name);
    low == String::from_str("manifest.xml") || low == String::from_str("credits.txt") || low
        == String::from_str("readme.txt")
}

/// The conflict map: resource names in first-seen order, each with the
/// paths that provide it.
#[derive(Debug)]
pub struct Conflicts {
    pub entries: Vec<(String, Vec<String>)>,
}

/// The mathematical shape of one map entry: key and path list, as character
/// sequences.
pub open spec fn entry_model(e: (String, Vec<String>)) -> (Seq<char>, Seq<Seq<char>>) {
    (e.0@, views_of(e.1@))
}

/// The mathematical shape of a whole entry list.
pub open spec fn vec_model(entries: Seq<(String, Vec<String>)>) -> Seq<
    (Seq<char>, Seq<Seq<char>>),
> {
    entries.map_values(|e: (String, Vec<String>)| entry_model(e))
}

/// First position of `key` in the model, or -1.
pub open spec fn model_index(m: Seq<(Seq<char>, Seq<Seq<char>>)>, key: Seq<char>) -> int
    decreases m.len(),
{
    if m.len() == 0 {
        -1
    } else if m[0].0 == key {
        0
    } else {
        let r = model_index(m.drop_first(), key);
        if r < 0 {
            -1
        } else {
            r + 1
        }
    }
}

/// Whether the map records `key`.
pub open spec fn model_contains(m: Seq<(Seq<char>, Seq<Seq<char>>)>, key: Seq<char>) -> bool {
    model_index(m, key) >= 0
}

/// The path list recorded for `key`, empty when the key is absent.
pub open spec fn model_paths(m: Seq<(Seq<char>, Seq<Seq<char>>)>, key: Seq<char>) -> Seq<
    Seq<char>,
> {
    if model_contains(m, key) {
        m[model_index(m, key)].1
    } else {
        Seq::empty()
    }
}

/// `model_index` finds the first occurrence of `key`, if there is one.
pub proof fn lemma_model_index_props(m: Seq<(Seq<char>, Seq<Seq<char>>)>, key: Seq<char>)
    ensures
        -1 <= model_index(m, key) < m.len(),
        model_index(m, key) >= 0 ==> m[model_index(m, key)].0 == key,
        model_index(m, key) >= 0 ==> forall|t: int|
            0 <= t < model_index(m, key) ==> (#[trigger] m[t]).0 != key,
        model_index(m, key) == -1 ==> forall|t: int|
            0 <= t < m.len() ==> (#[trigger] m[t]).0 != key,
    decreases m.len(),
{
    if m.len() > 0 && m[0].0 != key {
        lemma_model_index_props(m.drop_first(), key);
        assert forall|t: int| 1 <= t < m.len() implies m[t] == m.drop_first()[t - 1] by {}
    }
}

/// Recording one more path under `key`: an existing key keeps its place and
/// grows its list, a new key is appended with a singleton list.
pub open spec fn model_add(
    m: Seq<(Seq<char>, Seq<Seq<char>>)>,
    key: Seq<char>,
    path: Seq<char>,
) -> Seq<(Seq<char>, Seq<Seq<char>>)> {
    let i = model_index(m, key);
    if i >= 0 {
        m.update(i, (key, m[i].1.push(path)))
    } else {
        m.push((key, seq![path]))
    }
}

/// Recording `path` under every key of `keys`, in order.
pub open spec fn model_add_all(
    m: Seq<(Seq<char>, Seq<Seq<char>>)>,
    keys: Seq<Seq<char>>,
    path: Seq<char>,
) -> Seq<(Seq<char>, Seq<Seq<char>>)>
    decreases keys.len(),
{
    if keys.len() == 0 {
        m
    } else {
        model_add_all(model_add(m, keys[0], path), keys.drop_first(), path)
    }
}

/// Recording under one more key is one more `model_add`.
pub proof fn lemma_model_add_all_snoc(
    m: Seq<(Seq<char>, Seq<Seq<char>>)>,
    keys: Seq<Seq<char>>,
    k: Seq<char>,
    path: Seq<char>,
)
    ensures
        model_add_all(m, keys.push(k), path) == model_add(model_add_all(m, keys, path), k, path),
    decreases keys.len(),
{
    if keys.len() == 0 {
        assert(keys.push(k)[0] == k);
        assert(keys.push(k).drop_first() =~= keys);
        assert(model_add_all(m, keys, path) == m);
        assert(model_add_all(m, keys.push(k), path) == model_add_all(
            model_add(m, k, path),
            keys,
            path,
        ));
        assert(model_add_all(model_add(m, k, path), keys, path) == model_add(m, k, path));
    } else {
        assert(keys.push(k)[0] == keys[0]);
        assert(keys.push(k).drop_first() =~= keys.drop_first().push(k));
        let madd = model_add(m, keys[0], path);
        assert(model_add_all(m, keys.push(k), path) == model_add_all(
            madd,
            keys.drop_first().push(k),
            path,
        ));
        lemma_model_add_all_snoc(madd, keys.drop_first(), k, path);
        assert(model_add_all(m, keys, path) == model_add_all(madd, keys.drop_first(), path));
    }
}

impl Conflicts {
    /// The mathematical shape of the map.
    pub open spec fn model(&self) -> Seq<(Seq<char>, Seq<Seq<char>>)> {
        vec_model(self.entries@)
    }

    /// An empty map.
    pub fn new() -> (r: Conflicts)
        ensures
            r.model() == Seq::<(Seq<char>, Seq<Seq<char>>)>::empty(),
    {
        let r = Conflicts { entries: Vec::new() };
        proof {
            assert(r.model() =~= Seq::<(Seq<char>, Seq<Seq<char>>)>::empty());
        }
        r
    }

    /// Number of distinct keys.
    pub fn len(&self) -> (r: usize)
        ensures
            r == self.model().len(),
    {
        self.entries.len()
    }

    /// The paths recorded for `key`, if the key is present.
    pub fn get(&self, key: &str) -> (r: Option<&Vec<String>>)
        ensures
            r matches Some(paths) ==> model_contains(self.model(), key@) && views_of(paths@)
                == model_paths(self.model(), key@),
            r is None ==> !model_contains(self.model(), key@),
    {
        let wanted = String::from_str(key);
        let n = self.entries.len();
        let mut j: usize = 0;
        while j < n
            invariant
                j <= n,
                n == self.entries@.len(),
                wanted@ == key@,
                forall|t: int| 0 <= t < j ==> (#[trigger] self.entries@[t]).0@ != key@,
            decreases n - j,
        {
            if self.entries[j].0 == wanted {
                proof {
                    lemma_model_index_props(self.model(), key@);
                    let a = model_index(self.model(), key@);
                    assert(self.model()[j as int].0 == key@);
                    assert(a == j as int) by {
                        if a == -1 {
                            assert(self.model()[j as int].0 != key@);
                        } else if a < j as int {
                            assert(self.model()[a].0 == key@);
                            assert(self.entries@[a].0@ != key@);
                        } else if a > j as int {
                            assert(self.model()[j as int].0 != key@);
                        }
                    }
                }
                return Some(&self.entries[j].1);
            }
            j = j + 1;
        }
        proof {
            lemma_model_index_props(self.model(), key@);
            let a = model_index(self.model(), key@);
            if a >= 0 {
                assert(self.model()[a].0 == key@);
                assert(self.entries@[a].0@ != key@);
            }
        }
        None
    }

    /// Records one more provider of `key`.
    fn add_path(&mut self, key: String, path: String)
        ensures
            final(self).model() == model_add(old(self).model(), key@, path@),
    {
        let n = self.entries.len();
        let mut j: usize = 0;
        while j < n
            invariant
                j <= n,
                n == self.entries@.len(),
                self.entries@ == old(self).entries@,
                forall|t: int| 0 <= t < j ==> (#[trigger] self.entries@[t]).0@ != key@,
            decreases n - j,
        {
            if self.entries[j].0 == key {
                proof {
                    lemma_model_index_props(self.model(), key@);
                    let a = model_index(self.model(), key@);
                    assert(self.model()[j as int].0 == key@);
                    assert(a == j as int) by {
                        if a == -1 {
                            assert(self.model()[j as int].0 != key@);
                        } else if a < j as int {
                            assert(self.model()[a].0 == key@);
                            assert(self.entries@[a].0@ != key@);
                        } else if a > j as int {
                            assert(self.model()[j as int].0 != key@);
                        }
                    }
                }
                let ghost pv = path@;
                let e = &mut self.entries[j];
                e.1.push(path);
                proof {
                    let om = old(self).model();
                    assert(views_of(self.entries@[j as int].1@) =~= om[j as int].1.push(pv));
                    assert(self.model() =~= om.update(
                        j as int,
                        (om[j as int].0, om[j as int].1.push(pv)),
                    ));
                    assert(om[j as int].0 == key@);
                }
                return;
            }
            j = j + 1;
        }
        proof {
            lemma_model_index_props(self.model(), key@);
            let a = model_index(self.model(), key@);
            if a >= 0 {
                assert(self.model()[a].0 == key@);
                assert(self.entries@[a].0@ != key@);
            }
        }
        let mut paths: Vec<String> = Vec::new();
        let ghost pv = path@;
        paths.push(path);
        self.entries.push((key, paths));
        proof {
            assert(views_of(paths@) =~= seq![pv]);
            assert(self.model() =~= old(self).model().push((key@, seq![pv])));
        }
    }
}

/// Records a loose override file under its bare file name; a path with an
/// empty file-name component contributes nothing.
pub fn process_loose_file(path: &str, conflicts: &mut Conflicts)
    ensures
        spec_file_name(path@).len() > 0 ==> final(conflicts).model() == model_add(
            old(conflicts).model(),
            spec_file_name(path@),
            path@,
        ),
        spec_file_name(path@).len() == 0 ==> final(conflicts).model() == old(conflicts).model(),
{
    let name = file_name_of(path);
    if name.as_str().unicode_len() > 0 {
        conflicts.add_path(name, String::from_str(path));
    }
}

/// The archive parses as a whole: recognized header and a well-formed table
/// of contents.
pub open spec fn spec_erf_ok(data: Seq<u8>) -> bool {
    &&& data.len() >= 16
    &&& spec_version_tag(data) is Some
    &&& spec_parse_ok(data, spec_version_tag(data)->0)
}

/// The names an archive contributes: every table-of-contents name, in
/// record order.
pub open spec fn spec_toc_names(data: Seq<u8>) -> Seq<Seq<char>> {
    Seq::new(
        spec_file_count(data) as nat,
        |i: int| spec_entry_name(data, spec_version_tag(data)->0, i),
    )
}

/// Parses one archive and records every table-of-contents name against the
/// archive's own path. A failed parse changes nothing and is reported as a
/// path-tagged error.
pub fn process_erf_file(path: &str, data: &[u8], conflicts: &mut Conflicts) -> (r: Result<
    (),
    ScanError,
>)
    ensures
        r is Ok <==> spec_erf_ok(data@),
        spec_erf_ok(data@) ==> final(conflicts).model() == model_add_all(
            old(conflicts).model(),
            spec_toc_names(data@),
            path@,
        ),
        !spec_erf_ok(data@) ==> final(conflicts).model() == old(conflicts).model(),
        r matches Err(e) ==> (e matches ScanError::Erf { path: p, source } && p@ == path@
            && spec_read_error_matches(source, data@)),
{
    let erf = match ErfFile::from_reader(data) {
        Ok(f) => f,
        Err(e) => {
            return Err(ScanError::Erf { path: String::from_str(path), source: e });
        },
    };
    let ghost names = spec_toc_names(data@);
    let ghost m0 = conflicts.model();
    let n = erf.toc.len();
    proof {
        assert(names.len() == n);
        assert(model_add_all(m0, names.take(0), path@) == m0) by {
            assert(names.take(0) =~= Seq::<Seq<char>>::empty());
        }
    }
    let mut i: usize = 0;
    while i < n
        invariant
            i <= n,
            n == erf.toc@.len(),
            n == names.len(),
            forall|k: int| 0 <= k < n ==> (#[trigger] erf.toc@[k]).name@ == names[k],
            conflicts.model() == model_add_all(m0, names.take(i as int), path@),
            m0 == old(conflicts).model(),
        decreases n - i,
    {
        let key = erf.toc[i].name.clone();
        conflicts.add_path(key, String::from_str(path));
        proof {
            assert(names.take(i as int + 1) =~= names.take(i as int).push(names[i as int]));
            lemma_model_add_all_snoc(m0, names.take(i as int), names[i as int], path@);
        }
        i = i + 1;
    }
    proof {
        assert(names.take(n as int) =~= names);
    }
    Ok(())
}

/// An entry survives into the final map: at least two providers and not an
/// excluded name.
pub open spec fn spec_keep(e: (Seq<char>, Seq<Seq<char>>)) -> bool {
    e.1.len() >= 2 && !spec_should_ignore(e.0)
}

/// `spec_keep` as a predicate value, for use with `Seq::filter`.
pub open spec fn keep_fn() -> spec_fn((Seq<char>, Seq<Seq<char>>)) -> bool {
    |e: (Seq<char>, Seq<Seq<char>>)| spec_keep(e)
}

/// An entry with its path list put into ascending lexicographic order.
pub open spec fn sorted_entry(e: (Seq<char>, Seq<Seq<char>>)) -> (Seq<char>, Seq<Seq<char>>) {
    (e.0, e.1.sort_by(chars_le_order()))
}

/// The finalized map: entries that keep at least two providers and are not
/// excluded, in first-seen order, each path list sorted.
pub open spec fn spec_finalize(m: Seq<(Seq<char>, Seq<Seq<char>>)>) -> Seq<
    (Seq<char>, Seq<Seq<char>>),
> {
    m.filter(keep_fn()).map_values(|e: (Seq<char>, Seq<Seq<char>>)| sorted_entry(e))
}

/// Every entry of a finalized map has at least two providers, no excluded
/// name, and an ascending path list whose contents are those accumulated.
pub proof fn lemma_finalize_entry_props(m: Seq<(Seq<char>, Seq<Seq<char>>)>, i: int)
    requires
        0 <= i < spec_finalize(m).len(),
    ensures
        spec_finalize(m)[i].1.len() >= 2,
        !spec_should_ignore(spec_finalize(m)[i].0),
        sorted_by(spec_finalize(m)[i].1, chars_le_order()),
        spec_finalize(m)[i].1.to_multiset() == m.filter(keep_fn())[i].1.to_multiset(),
        spec_finalize(m)[i].0 == m.filter(keep_fn())[i].0,
{
    let f = m.filter(keep_fn());
    m.lemma_filter_pred(keep_fn(), i);
    assert(spec_finalize(m)[i] == sorted_entry(f[i]));
    lemma_chars_le_total_ordering();
    f[i].1.lemma_sort_by_ensures(chars_le_order());
    f[i].1.to_multiset_ensures();
    f[i].1.sort_by(chars_le_order()).to_multiset_ensures();
    assert(f[i].1.sort_by(chars_le_order()).len() == f[i].1.len());
}

/// Filters the accumulated map down to real conflicts (at least two
/// providers, name not excluded) and sorts every surviving path list.
pub fn finalize_conflicts(acc: Conflicts) -> (r: Conflicts)
    ensures
        r.model() == spec_finalize(acc.model()),
        forall|i: int| 0 <= i < r.model().len() ==> (#[trigger] r.model()[i]).1.len() >= 2,
        forall|i: int|
            0 <= i < r.model().len() ==> !spec_should_ignore((#[trigger] r.model()[i]).0),
        forall|i: int|
            0 <= i < r.model().len() ==> sorted_by((#[trigger] r.model()[i]).1, chars_le_order()),
{
    let ghost m0 = acc.model();
    let mut rem = acc;
    let mut out: Vec<(String, Vec<String>)> = Vec::new();
    let ghost mut i: int = 0;
    proof {
        reveal(Seq::filter);
        assert(m0.take(0) =~= Seq::<(Seq<char>, Seq<Seq<char>>)>::empty());
        assert(rem.model() =~= m0.skip(0));
        assert(vec_model(out@) =~= spec_finalize(m0.take(0)));
    }
    while rem.entries.len() > 0
        invariant
            0 <= i <= m0.len(),
            rem.model() == m0.skip(i),
            vec_model(out@) == spec_finalize(m0.take(i)),
        decreases rem.entries@.len(),
    {
        let ghost rem_before = rem.entries@;
        let e = rem.entries.remove(0);
        proof {
            assert(m0.skip(i).len() == m0.len() - i);
            assert(0 <= i < m0.len());
            assert(entry_model(e) == m0.skip(i)[0]);
            assert(m0.skip(i)[0] == m0[i]);
            assert(vec_model(rem.entries@) =~= vec_model(rem_before).drop_first());
            assert(vec_model(rem_before).drop_first() =~= m0.skip(i + 1));
        }
        let plen = e.1.len();
        let keep_it = plen >= 2 && !should_ignore(e.0.as_str());
        proof {
            assert(views_of(e.1@).len() == e.1@.len());
            assert(keep_it == spec_keep(m0[i]));
            reveal(Seq::filter);
            assert(m0.take(i + 1).drop_last() =~= m0.take(i));
            assert(m0.take(i + 1).last() == m0[i]);
            if spec_keep(m0[i]) {
                assert(m0.take(i + 1).filter(keep_fn()) == m0.take(i).filter(keep_fn()).push(
                    m0[i],
                ));
            } else {
                assert(m0.take(i + 1).filter(keep_fn()) == m0.take(i).filter(keep_fn()));
            }
        }
        if keep_it {
            let key = e.0;
            let mut paths = e.1;
            let ghost before_views = views_of(paths@);
            sort_strings(&mut paths);
            proof {
                lemma_chars_le_total_ordering();
                m0[i].1.lemma_sort_by_ensures(chars_le_order());
                assert(before_views == m0[i].1);
                vstd::seq_lib::lemma_sorted_unique(
                    views_of(paths@),
                    m0[i].1.sort_by(chars_le_order()),
                    chars_le_order(),
                );
                assert(views_of(paths@) == m0[i].1.sort_by(chars_le_order()));
            }
            let ghost out_before = out@;
            let ghost key_view = key@;
            let ghost sorted_views = views_of(paths@);
            out.push((key, paths));
            proof {
                assert(vec_model(out@) =~= vec_model(out_before).push((key_view, sorted_views)));
                assert((key_view, sorted_views) == sorted_entry(m0[i]));
                assert(spec_finalize(m0.take(i + 1)) =~= spec_finalize(m0.take(i)).push(
                    sorted_entry(m0[i]),
                ));
            }
        } else {
            proof {
                assert(spec_finalize(m0.take(i + 1)) =~= spec_finalize(m0.take(i)));
            }
        }
        proof {
            i = i + 1;
        }
    }
    proof {
        assert(m0.skip(i) =~= rem.model());
        assert(m0.skip(i).len() == 0);
        assert(i == m0.len());
        assert(m0.take(i) =~= m0);
    }
    let r = Conflicts { entries: out };
    proof {
        assert forall|t: int| 0 <= t < r.model().len() implies (#[trigger] r.model()[t]).1.len()
            >= 2 && !spec_should_ignore(r.model()[t].0) && sorted_by(
            r.model()[t].1,
            chars_le_order(),
        ) by {
            lemma_finalize_entry_props(m0, t);
        }
    }
    r
}

/// One regular file handed to the scan: its path and, when the file bears
/// the archive extension, its bytes (`None` when they could not be read).
pub struct ScanFile {
    pub path: String,
    pub data: Option<Vec<u8>>,
}

/// The mathematical shape of one listed file.
pub open spec fn file_model(f: ScanFile) -> (Seq<char>, Option<Seq<u8>>) {
    (f.path@, if f.data is Some { Some(f.data->0@) } else { None })
}

/// The mathematical shape of a whole listing.
pub open spec fn files_model(files: Seq<ScanFile>) -> Seq<(Seq<char>, Option<Seq<u8>>)> {
    files.map_values(|f: ScanFile| file_model(f))
}

/// The conflict keys one file contributes: every table-of-contents name of
/// a parsable archive, the bare file name of a loose override file, nothing
/// otherwise. A file that both lies in the override tree and bears the
/// archive extension counts as an archive.
pub open spec fn spec_keys_of(root: Seq<char>, f: (Seq<char>, Option<Seq<u8>>)) -> Seq<Seq<char>> {
    if spec_is_erf_path(f.0) {
        if f.1 is Some && spec_erf_ok(f.1->0) {
            spec_toc_names(f.1->0)
        } else {
            Seq::empty()
        }
    } else if spec_is_override_path(root, f.0) && spec_file_name(f.0).len() > 0 {
        seq![spec_file_name(f.0)]
    } else {
        Seq::empty()
    }
}

/// The accumulated (unfiltered) map after every listed file has
/// contributed, file by file in listing order.
pub open spec fn spec_scan_acc(
    root: Seq<char>,
    files: Seq<(Seq<char>, Option<Seq<u8>>)>,
    m: Seq<(Seq<char>, Seq<Seq<char>>)>,
) -> Seq<(Seq<char>, Seq<Seq<char>>)>
    decreases files.len(),
{
    if files.len() == 0 {
        m
    } else {
        spec_scan_acc(
            root,
            files.drop_first(),
            model_add_all(m, spec_keys_of(root, files[0]), files[0].0),
        )
    }
}

/// An archive whose bytes were read but failed to parse; the scan skips it
/// and reports a warning.
pub open spec fn spec_failed_archive(f: (Seq<char>, Option<Seq<u8>>)) -> bool {
    spec_is_erf_path(f.0) && f.1 is Some && !spec_erf_ok(f.1->0)
}

/// `spec_failed_archive` as a predicate value, for use with `Seq::filter`.
pub open spec fn failed_fn() -> spec_fn((Seq<char>, Option<Seq<u8>>)) -> bool {
    |f: (Seq<char>, Option<Seq<u8>>)| spec_failed_archive(f)
}

/// Scans one listing of regular files: archives contribute their
/// table-of-contents names against the archive path, loose override files
/// their bare names against their own path; the finalized conflict map and
/// one path-tagged warning per unparsable archive come back.
pub fn scan_listing(root: &str, files: &Vec<ScanFile>) -> (r: (Conflicts, Vec<ScanError>))
    ensures
        r.0.model() == spec_finalize(
            spec_scan_acc(root@, files_model(files@), Seq::empty()),
        ),
        forall|i: int| 0 <= i < r.0.model().len() ==> (#[trigger] r.0.model()[i]).1.len() >= 2,
        forall|i: int|
            0 <= i < r.0.model().len() ==> !spec_should_ignore((#[trigger] r.0.model()[i]).0),
        forall|i: int|
            0 <= i < r.0.model().len() ==> sorted_by(
                (#[trigger] r.0.model()[i]).1,
                chars_le_order(),
            ),
        r.1@.len() == files_model(files@).filter(failed_fn()).len(),
        forall|i: int|
            0 <= i < r.1@.len() ==> ((#[trigger] r.1@[i]) matches ScanError::Erf { path, source }
                && path@ == files_model(files@).filter(failed_fn())[i].0
                && spec_read_error_matches(
                source,
                files_model(files@).filter(failed_fn())[i].1->0,
            )),
{
    let ghost fm = files_model(files@);
    let mut acc = Conflicts::new();
    let mut warnings: Vec<ScanError> = Vec::new();
    let n = files.len();
    proof {
        reveal(Seq::filter);
        assert(fm.skip(0) =~= fm);
        assert(fm.take(0) =~= Seq::<(Seq<char>, Option<Seq<u8>>)>::empty());
    }
    let mut i: usize = 0;
    while i < n
        invariant
            i <= n,
            n == files@.len(),
            fm == files_model(files@),
            fm.len() == n,
            spec_scan_acc(root@, fm, Seq::empty()) == spec_scan_acc(
                root@,
                fm.skip(i as int),
                acc.model(),
            ),
            warnings@.len() == fm.take(i as int).filter(failed_fn()).len(),
            forall|t: int|
                0 <= t < warnings@.len() ==> ((#[trigger] warnings@[t]) matches ScanError::Erf {
                    path,
                    source,
                } && path@ == fm.take(i as int).filter(failed_fn())[t].0
                    && spec_read_error_matches(
                    source,
                    fm.take(i as int).filter(failed_fn())[t].1->0,
                )),
        decreases n - i,
    {
        let ghost acc_before = acc.model();
        let ghost warnings_before = warnings@;
        let f = &files[i];
        proof {
            assert(fm[i as int] == file_model(files@[i as int]));
        }
        let ghost fmi = fm[i as int];
        let mut warned = false;
        if is_erf_file(f.path.as_str()) {
            match &f.data {
                Some(d) => {
                    match process_erf_file(f.path.as_str(), d.as_slice(), &mut acc) {
                        Ok(()) => {},
                        Err(err) => {
                            warnings.push(err);
                            warned = true;
                        },
                    }
                },
                None => {},
            }
        } else if is_override_path(root, f.path.as_str()) {
            process_loose_file(f.path.as_str(), &mut acc);
        }
        proof {
            let keys = spec_keys_of(root@, fmi);
            assert(acc.model() == model_add_all(acc_before, keys, fmi.0)) by {
                if spec_is_erf_path(fmi.0) {
                    if fmi.1 is Some && spec_erf_ok(fmi.1->0) {
                    } else {
                        assert(keys =~= Seq::<Seq<char>>::empty());
                    }
                } else if spec_is_override_path(root@, fmi.0) && spec_file_name(fmi.0).len()
                    > 0 {
                    assert(keys =~= seq![spec_file_name(fmi.0)]);
                    assert(keys[0] == spec_file_name(fmi.0));
                    assert(keys.drop_first() =~= Seq::<Seq<char>>::empty());
                    let once = model_add(acc_before, spec_file_name(fmi.0), fmi.0);
                    assert(model_add_all(once, keys.drop_first(), fmi.0) == once);
                    assert(model_add_all(acc_before, keys, fmi.0) == once);
                } else {
                    assert(keys =~= Seq::<Seq<char>>::empty());
                }
            }
            assert(fm.skip(i as int)[0] == fmi);
            assert(fm.skip(i as int).drop_first() =~= fm.skip(i as int + 1));
            assert(spec_scan_acc(root@, fm.skip(i as int), acc_before) == spec_scan_acc(
                root@,
                fm.skip(i as int + 1),
                acc.model(),
            ));
            reveal(Seq::filter);
            assert(fm.take(i as int + 1).drop_last() =~= fm.take(i as int));
            assert(fm.take(i as int + 1).last() == fmi);
            if warned {
                assert(spec_failed_archive(fmi));
                assert(fm.take(i as int + 1).filter(failed_fn()) == fm.take(i as int).filter(
                    failed_fn(),
                ).push(fmi));
                assert(warnings@ =~= warnings_before.push(warnings@.last()));
            } else {
                assert(!spec_failed_archive(fmi));
                assert(fm.take(i as int + 1).filter(failed_fn()) == fm.take(i as int).filter(
                    failed_fn(),
                ));
            }
        }
        i = i + 1;
    }
    proof {
        assert(fm.skip(n as int) =~= Seq::<(Seq<char>, Option<Seq<u8>>)>::empty());
        assert(spec_scan_acc(root@, fm, Seq::empty()) == acc.model());
        assert(fm.take(n as int) =~= fm);
    }
    let result = finalize_conflicts(acc);
    (result, warnings)
}

/// `path` repeated `n` times.
pub open spec fn repeat_path(p: Seq<char>, n: nat) -> Seq<Seq<char>> {
    Seq::new(n, |t: int| p)
}

/// How many times `key` occurs in `keys`.
pub open spec fn occ(keys: Seq<Seq<char>>, key: Seq<char>) -> nat
    decreases keys.len(),
{
    if keys.len() == 0 {
        0
    } else {
        (if keys[0] == key {
            1nat
        } else {
            0nat
        }) + occ(keys.drop_first(), key)
    }
}

proof fn lemma_model_index_same_keys(
    m1: Seq<(Seq<char>, Seq<Seq<char>>)>,
    m2: Seq<(Seq<char>, Seq<Seq<char>>)>,
    key: Seq<char>,
)
    requires
        m1.len() == m2.len(),
        forall|j: int| 0 <= j < m1.len() ==> (#[trigger] m1[j]).0 == (#[trigger] m2[j]).0,
    ensures
        model_index(m1, key) == model_index(m2, key),
    decreases m1.len(),
{
    if m1.len() > 0 {
        assert(m1[0].0 == m2[0].0);
        if m1[0].0 != key {
            assert forall|j: int|
                0 <= j < m1.drop_first().len() implies (#[trigger] m1.drop_first()[j]).0 == (
            #[trigger] m2.drop_first()[j]).0 by {
                assert(m1.drop_first()[j] == m1[j + 1]);
                assert(m2.drop_first()[j] == m2[j + 1]);
            }
            lemma_model_index_same_keys(m1.drop_first(), m2.drop_first(), key);
        }
    }
}

proof fn lemma_model_index_push(
    m: Seq<(Seq<char>, Seq<Seq<char>>)>,
    e: (Seq<char>, Seq<Seq<char>>),
    key: Seq<char>,
)
    ensures
        model_index(m.push(e), key) == (if model_index(m, key) >= 0 {
            model_index(m, key)
        } else if e.0 == key {
            m.len() as int
        } else {
            -1
        }),
    decreases m.len(),
{
    if m.len() == 0 {
        assert(m.push(e)[0] == e);
        if e.0 != key {
            assert(m.push(e).drop_first() =~= Seq::<(Seq<char>, Seq<Seq<char>>)>::empty());
            assert(model_index(m.push(e).drop_first(), key) == -1);
        }
    } else {
        assert(m.push(e)[0] == m[0]);
        assert(m.push(e).drop_first() =~= m.drop_first().push(e));
        if m[0].0 != key {
            lemma_model_index_push(m.drop_first(), e, key);
            assert(model_index(m.push(e).drop_first(), key) == model_index(
                m.drop_first().push(e),
                key,
            ));
        }
    }
}

/// Per-key effect of recording one path under one key.
proof fn lemma_model_add_key(
    m: Seq<(Seq<char>, Seq<Seq<char>>)>,
    k: Seq<char>,
    p: Seq<char>,
    key: Seq<char>,
)
    ensures
        model_contains(model_add(m, k, p), key) <==> (model_contains(m, key) || key == k),
        key == k ==> model_paths(model_add(m, k, p), key) == model_paths(m, key).push(p),
        key != k ==> model_paths(model_add(m, k, p), key) == model_paths(m, key),
{
    lemma_model_index_props(m, k);
    lemma_model_index_props(m, key);
    let i = model_index(m, k);
    if i >= 0 {
        let m2 = m.update(i, (k, m[i].1.push(p)));
        assert(m[i].0 == k);
        assert forall|j: int|
            0 <= j < m.len() implies (#[trigger] m[j]).0 == (#[trigger] m2[j]).0 by {}
        lemma_model_index_same_keys(m, m2, key);
        lemma_model_index_props(m2, key);
        if key == k {
            assert(model_paths(m2, key) == m[i].1.push(p));
        } else {
            let j = model_index(m, key);
            if j >= 0 {
                assert(m[j].0 == key);
                assert(j != i);
                assert(m2[j] == m[j]);
            }
        }
    } else {
        let m2 = m.push((k, seq![p]));
        lemma_model_index_push(m, (k, seq![p]), key);
        lemma_model_index_props(m2, key);
        if key == k {
            assert(model_index(m2, key) == m.len());
            assert(m2[m.len() as int] == (k, seq![p]));
            assert(model_paths(m2, key) =~= model_paths(m, key).push(p));
        } else {
            let j = model_index(m, key);
            if j >= 0 {
                assert(m2[j] == m[j]);
            }
        }
    }
}

/// Per-key effect of recording one path under a whole key list.
proof fn lemma_model_add_all_key(
    m: Seq<(Seq<char>, Seq<Seq<char>>)>,
    keys: Seq<Seq<char>>,
    p: Seq<char>,
    key: Seq<char>,
)
    ensures
        model_contains(model_add_all(m, keys, p), key) <==> (model_contains(m, key) || occ(
            keys,
            key,
        ) > 0),
        model_paths(model_add_all(m, keys, p), key) == model_paths(m, key) + repeat_path(
            p,
            occ(keys, key),
        ),
    decreases keys.len(),
{
    if keys.len() == 0 {
        assert(model_paths(m, key) + repeat_path(p, 0) =~= model_paths(m, key));
    } else {
        let m1 = model_add(m, keys[0], p);
        lemma_model_add_key(m, keys[0], p, key);
        lemma_model_add_all_key(m1, keys.drop_first(), p, key);
        if keys[0] == key {
            assert(model_paths(m1, key) == model_paths(m, key).push(p));
            assert(occ(keys, key) == 1 + occ(keys.drop_first(), key));
            assert(model_paths(m, key).push(p) + repeat_path(p, occ(keys.drop_first(), key))
                =~= model_paths(m, key) + repeat_path(p, occ(keys, key)));
        } else {
            assert(occ(keys, key) == occ(keys.drop_first(), key));
        }
    }
}

/// The multiset of paths that the listed files contribute to `key`.
pub open spec fn spec_key_contributions(
    root: Seq<char>,
    files: Seq<(Seq<char>, Option<Seq<u8>>)>,
    key: Seq<char>,
) -> Multiset<Seq<char>>
    decreases files.len(),
{
    if files.len() == 0 {
        Multiset::empty()
    } else {
        repeat_path(files[0].0, occ(spec_keys_of(root, files[0]), key)).to_multiset().add(
            spec_key_contributions(root, files.drop_first(), key),
        )
    }
}

/// The accumulated map records, under every key, exactly the contributions
/// of the listed files (in some order), on top of what was there before.
proof fn lemma_scan_acc_key(
    root: Seq<char>,
    files: Seq<(Seq<char>, Option<Seq<u8>>)>,
    m: Seq<(Seq<char>, Seq<Seq<char>>)>,
    key: Seq<char>,
)
    ensures
        model_contains(spec_scan_acc(root, files, m), key) <==> (model_contains(m, key)
            || spec_key_contributions(root, files, key).len() > 0),
        model_paths(spec_scan_acc(root, files, m), key).to_multiset() == model_paths(
            m,
            key,
        ).to_multiset().add(spec_key_contributions(root, files, key)),
    decreases files.len(),
{
    broadcast use vstd::multiset::group_multiset_axioms;
    broadcast use vstd::seq_lib::group_to_multiset_ensures;

    if files.len() == 0 {
        assert(model_paths(m, key).to_multiset().add(Multiset::empty()) =~= model_paths(
            m,
            key,
        ).to_multiset());
    } else {
        let p0 = files[0].0;
        let keys0 = spec_keys_of(root, files[0]);
        let rep0 = repeat_path(p0, occ(keys0, key));
        let m1 = model_add_all(m, keys0, p0);
        lemma_model_add_all_key(m, keys0, p0, key);
        lemma_scan_acc_key(root, files.drop_first(), m1, key);
        vstd::seq_lib::lemma_multiset_commutative(model_paths(m, key), rep0);
        rep0.to_multiset_ensures();
        assert(rep0.to_multiset().len() == occ(keys0, key));
        let rest = spec_key_contributions(root, files.drop_first(), key);
        assert(model_paths(m, key).to_multiset().add(rep0.to_multiset()).add(rest)
            =~= model_paths(m, key).to_multiset().add(rep0.to_multiset().add(rest)));
    }
}

/// Removing one file from a listing removes exactly its contribution.
proof fn lemma_contributions_remove(
    root: Seq<char>,
    files: Seq<(Seq<char>, Option<Seq<u8>>)>,
    idx: int,
    key: Seq<char>,
)
    requires
        0 <= idx < files.len(),
    ensures
        spec_key_contributions(root, files, key) == spec_key_contributions(
            root,
            files.remove(idx),
            key,
        ).add(repeat_path(files[idx].0, occ(spec_keys_of(root, files[idx]), key)).to_multiset()),
    decreases files.len(),
{
    broadcast use vstd::multiset::group_multiset_axioms;

    let rep = |f: (Seq<char>, Option<Seq<u8>>)|
        repeat_path(f.0, occ(spec_keys_of(root, f), key)).to_multiset();
    if idx == 0 {
        assert(files.remove(0) =~= files.drop_first());
        assert(spec_key_contributions(root, files.drop_first(), key).add(rep(files[0]))
            =~= rep(files[0]).add(spec_key_contributions(root, files.drop_first(), key)));
    } else {
        assert(files.remove(idx)[0] == files[0]);
        assert(files.remove(idx).drop_first() =~= files.drop_first().remove(idx - 1));
        assert(files.drop_first()[idx - 1] == files[idx]);
        lemma_contributions_remove(root, files.drop_first(), idx - 1, key);
        let a = rep(files[0]);
        let b = spec_key_contributions(root, files.drop_first().remove(idx - 1), key);
        let c = rep(files[idx]);
        assert(a.add(b.add(c)) =~= a.add(b).add(c));
    }
}

/// The contribution to each key depends only on which files are listed, not
/// on their order.
proof fn lemma_contributions_permutation(
    root: Seq<char>,
    l1: Seq<(Seq<char>, Option<Seq<u8>>)>,
    l2: Seq<(Seq<char>, Option<Seq<u8>>)>,
    key: Seq<char>,
)
    requires
        l1.to_multiset() == l2.to_multiset(),
    ensures
        spec_key_contributions(root, l1, key) == spec_key_contributions(root, l2, key),
    decreases l1.len(),
{
    broadcast use vstd::multiset::group_multiset_axioms;

    l1.to_multiset_ensures();
    l2.to_multiset_ensures();
    if l1.len() == 0 {
        assert(l2.to_multiset().len() == 0);
        assert(l2.len() == 0);
    } else {
        let f = l1[0];
        assert(l1.contains(f));
        assert(l1.to_multiset().contains(f));
        assert(l2.contains(f));
        let idx = choose|t: int| 0 <= t < l2.len() && l2[t] == f;
        lemma_contributions_remove(root, l2, idx, key);
        assert(l1.drop_first() =~= l1.remove(0));
        l1.remove_ensures(0);
        l2.remove_ensures(idx);
        assert(l1.remove(0).to_multiset() =~= l1.to_multiset().remove(f));
        assert(l2.remove(idx).to_multiset() =~= l2.to_multiset().remove(f));
        lemma_contributions_permutation(root, l1.drop_first(), l2.remove(idx), key);
        let a = repeat_path(f.0, occ(spec_keys_of(root, f), key)).to_multiset();
        let b = spec_key_contributions(root, l1.drop_first(), key);
        assert(a.add(b) =~= b.add(a));
    }
}

/// Scanning is traversal-order independent: two listings that hold the
/// same files accumulate, under every key, the same multiset of paths; the
/// finalized report then sorts those paths, so it is identical for both.
pub proof fn lemma_scan_order_independent(
    root: Seq<char>,
    l1: Seq<(Seq<char>, Option<Seq<u8>>)>,
    l2: Seq<(Seq<char>, Option<Seq<u8>>)>,
)
    requires
        l1.to_multiset() == l2.to_multiset(),
    ensures
        forall|key: Seq<char>|
            model_contains(#[trigger] spec_scan_acc(root, l1, Seq::empty()), key)
                <==> model_contains(spec_scan_acc(root, l2, Seq::empty()), key),
        forall|key: Seq<char>|
            #[trigger] model_paths(spec_scan_acc(root, l1, Seq::empty()), key).to_multiset()
                == model_paths(spec_scan_acc(root, l2, Seq::empty()), key).to_multiset(),
{
    broadcast use vstd::multiset::group_multiset_axioms;

    assert forall|key: Seq<char>|
        (model_contains(#[trigger] spec_scan_acc(root, l1, Seq::empty()), key)
            <==> model_contains(spec_scan_acc(root, l2, Seq::empty()), key)) && model_paths(
            spec_scan_acc(root, l1, Seq::empty()),
            key,
        ).to_multiset() == model_paths(spec_scan_acc(root, l2, Seq::empty()), key).to_multiset()
        by {
        lemma_scan_acc_key(root, l1, Seq::empty(), key);
        lemma_scan_acc_key(root, l2, Seq::empty(), key);
        lemma_contributions_permutation(root, l1, l2, key);
        let e = Seq::<(Seq<char>, Seq<Seq<char>>)>::empty();
        assert(model_index(e, key) == -1);
        assert(model_paths(e, key) =~= Seq::<Seq<char>>::empty());
        model_paths(e, key).to_multiset_ensures();
        assert(model_paths(e, key).to_multiset().len() == 0);
        assert(model_paths(e, key).to_multiset() =~= Multiset::<Seq<char>>::empty());
        assert(model_paths(e, key).to_multiset().add(spec_key_contributions(root, l1, key))
            =~= spec_key_contributions(root, l1, key));
        assert(model_paths(e, key).to_multiset().add(spec_key_contributions(root, l2, key))
            =~= spec_key_contributions(root, l2, key));
    }
}

/// No key occurs twice in the map.
pub open spec fn model_keys_unique(m: Seq<(Seq<char>, Seq<Seq<char>>)>) -> bool {
    forall|j1: int, j2: int|
        0 <= j1 < j2 < m.len() ==> (#[trigger] m[j1]).0 != (#[trigger] m[j2]).0
}

proof fn lemma_model_add_unique(m: Seq<(Seq<char>, Seq<Seq<char>>)>, k: Seq<char>, p: Seq<char>)
    requires
        model_keys_unique(m),
    ensures
        model_keys_unique(model_add(m, k, p)),
{
    lemma_model_index_props(m, k);
    let i = model_index(m, k);
    if i >= 0 {
        let m2 = m.update(i, (k, m[i].1.push(p)));
        assert(m[i].0 == k);
        assert forall|j1: int, j2: int| 0 <= j1 < j2 < m2.len() implies (#[trigger] m2[j1]).0 != (
        #[trigger] m2[j2]).0 by {
            assert(m2[j1].0 == m[j1].0);
            assert(m2[j2].0 == m[j2].0);
        }
    } else {
        let m2 = m.push((k, seq![p]));
        assert forall|j1: int, j2: int| 0 <= j1 < j2 < m2.len() implies (#[trigger] m2[j1]).0 != (
        #[trigger] m2[j2]).0 by {
            if j2 == m.len() {
                assert(m2[j1].0 == m[j1].0);
                assert(m2[j2].0 == k);
            } else {
                assert(m2[j1].0 == m[j1].0);
                assert(m2[j2].0 == m[j2].0);
            }
        }
    }
}

proof fn lemma_model_add_all_unique(
    m: Seq<(Seq<char>, Seq<Seq<char>>)>,
    keys: Seq<Seq<char>>,
    p: Seq<char>,
)
    requires
        model_keys_unique(m),
    ensures
        model_keys_unique(model_add_all(m, keys, p)),
    decreases keys.len(),
{
    if keys.len() > 0 {
        lemma_model_add_unique(m, keys[0], p);
        lemma_model_add_all_unique(model_add(m, keys[0], p), keys.drop_first(), p);
    }
}

/// The accumulated map never records a key twice.
proof fn lemma_scan_acc_unique(
    root: Seq<char>,
    files: Seq<(Seq<char>, Option<Seq<u8>>)>,
    m: Seq<(Seq<char>, Seq<Seq<char>>)>,
)
    requires
        model_keys_unique(m),
    ensures
        model_keys_unique(spec_scan_acc(root, files, m)),
    decreases files.len(),
{
    if files.len() > 0 {
        lemma_model_add_all_unique(m, spec_keys_of(root, files[0]), files[0].0);
        lemma_scan_acc_unique(
            root,
            files.drop_first(),
            model_add_all(m, spec_keys_of(root, files[0]), files[0].0),
        );
    }
}

proof fn lemma_model_index_prepend(
    e: (Seq<char>, Seq<Seq<char>>),
    s: Seq<(Seq<char>, Seq<Seq<char>>)>,
    key: Seq<char>,
)
    ensures
        model_index(seq![e] + s, key) == (if e.0 == key {
            0
        } else if model_index(s, key) >= 0 {
            1 + model_index(s, key)
        } else {
            -1
        }),
{
    let m = seq![e] + s;
    assert(m[0] == e);
    assert(m.drop_first() =~= s);
}

/// Per-key shape of the finalized map, for a map without duplicate keys: a
/// key survives exactly when it was accumulated and kept, and its list is
/// the accumulated list, sorted.
proof fn lemma_finalize_key(m: Seq<(Seq<char>, Seq<Seq<char>>)>, key: Seq<char>)
    requires
        model_keys_unique(m),
    ensures
        model_contains(spec_finalize(m), key) <==> (model_contains(m, key) && spec_keep(
            (key, model_paths(m, key)),
        )),
        model_contains(spec_finalize(m), key) ==> model_paths(spec_finalize(m), key)
            == model_paths(m, key).sort_by(chars_le_order()),
    decreases m.len(),
{
    reveal(Seq::filter);
    let mapper = |e: (Seq<char>, Seq<Seq<char>>)| sorted_entry(e);
    if m.len() == 0 {
        assert(m.filter(keep_fn()).len() == 0);
        assert(spec_finalize(m).len() == 0);
    } else {
        let e0 = m[0];
        let rest = m.drop_first();
        assert forall|j1: int, j2: int|
            0 <= j1 < j2 < rest.len() implies (#[trigger] rest[j1]).0 != (
        #[trigger] rest[j2]).0 by {
            assert(rest[j1] == m[j1 + 1]);
            assert(rest[j2] == m[j2 + 1]);
        }
        lemma_finalize_key(rest, key);
        // decompose the filter at the front
        assert(m =~= seq![e0] + rest);
        Seq::filter_distributes_over_add(seq![e0], rest, keep_fn());
        assert(seq![e0].drop_last() =~= Seq::<(Seq<char>, Seq<Seq<char>>)>::empty());
        assert(Seq::<(Seq<char>, Seq<Seq<char>>)>::empty().filter(keep_fn()).len() == 0);
        assert(seq![e0].last() == e0);
        let fe0 = seq![e0].filter(keep_fn());
        assert(fe0 == if keep_fn()(e0) {
            Seq::<(Seq<char>, Seq<Seq<char>>)>::empty().push(e0)
        } else {
            Seq::<(Seq<char>, Seq<Seq<char>>)>::empty()
        });
        let fin = spec_finalize(m);
        let fin_rest = spec_finalize(rest);
        assert(m.filter(keep_fn()) == fe0 + rest.filter(keep_fn()));
        if spec_keep(e0) {
            assert(fe0 =~= seq![e0]);
            assert(fin =~= seq![sorted_entry(e0)] + fin_rest) by {
                assert(m.filter(keep_fn()) =~= seq![e0] + rest.filter(keep_fn()));
            }
            lemma_model_index_prepend(sorted_entry(e0), fin_rest, key);
        } else {
            assert(fe0.len() == 0);
            assert(fin =~= fin_rest) by {
                assert(m.filter(keep_fn()) =~= rest.filter(keep_fn()));
            }
        }
        // relate the whole map's lookup to the rest's
        if e0.0 == key {
            assert(model_index(m, key) == 0);
            assert(model_paths(m, key) == e0.1);
            // uniqueness: the key cannot recur in the rest
            assert(model_index(rest, key) == -1) by {
                lemma_model_index_props(rest, key);
                if model_index(rest, key) >= 0 {
                    let j = model_index(rest, key);
                    assert(m[j + 1].0 == key);
                    assert(m[0].0 != m[j + 1].0);
                }
            }
            if spec_keep(e0) {
                assert(model_index(fin, key) == 0);
                assert(model_paths(fin, key) == e0.1.sort_by(chars_le_order()));
            } else {
                assert(!(model_contains(rest, key) && spec_keep((key, model_paths(rest, key)))));
                assert(!model_contains(fin_rest, key));
            }
        } else {
            assert(model_index(m, key) == (if model_index(rest, key) >= 0 {
                1 + model_index(rest, key)
            } else {
                -1
            })) by {
                lemma_model_index_prepend(e0, rest, key);
                assert(m == seq![e0] + rest);
            }
            if model_index(rest, key) >= 0 {
                lemma_model_index_props(rest, key);
                let j = model_index(rest, key);
                assert(rest[j] == m[j + 1]);
                assert(m[model_index(m, key)] == rest[j]);
                assert(model_paths(m, key) == model_paths(rest, key));
            }
            if spec_keep(e0) {
                assert(sorted_entry(e0).0 == e0.0);
                if model_contains(fin_rest, key) {
                    lemma_model_index_props(fin_rest, key);
                    let jf = model_index(fin_rest, key);
                    assert(model_index(fin, key) == 1 + jf);
                    assert(fin == seq![sorted_entry(e0)] + fin_rest);
                    assert((seq![sorted_entry(e0)] + fin_rest)[1 + jf] == fin_rest[jf]);
                    assert(model_paths(fin, key) == model_paths(fin_rest, key));
                } else {
                    assert(!model_contains(fin, key));
                }
            }
        }
    }
}

/// The finalized conflict report is a function of the set of listed files
/// alone: two scans of the same files, in any order, report exactly the
/// same keys, each with exactly the same ordered path list.
pub proof fn lemma_report_order_independent(
    root: Seq<char>,
    l1: Seq<(Seq<char>, Option<Seq<u8>>)>,
    l2: Seq<(Seq<char>, Option<Seq<u8>>)>,
)
    requires
        l1.to_multiset() == l2.to_multiset(),
    ensures
        forall|key: Seq<char>|
            model_contains(
                #[trigger] spec_finalize(spec_scan_acc(root, l1, Seq::empty())),
                key,
            ) <==> model_contains(spec_finalize(spec_scan_acc(root, l2, Seq::empty())), key),
        forall|key: Seq<char>|
            #[trigger] model_paths(spec_finalize(spec_scan_acc(root, l1, Seq::empty())), key)
                == model_paths(spec_finalize(spec_scan_acc(root, l2, Seq::empty())), key),
{
    broadcast use vstd::seq_lib::group_to_multiset_ensures;

    let a1 = spec_scan_acc(root, l1, Seq::empty());
    let a2 = spec_scan_acc(root, l2, Seq::empty());
    assert(model_keys_unique(Seq::<(Seq<char>, Seq<Seq<char>>)>::empty()));
    lemma_scan_acc_unique(root, l1, Seq::empty());
    lemma_scan_acc_unique(root, l2, Seq::empty());
    lemma_scan_order_independent(root, l1, l2);
    lemma_chars_le_total_ordering();
    assert forall|key: Seq<char>|
        (model_contains(#[trigger] spec_finalize(a1), key) <==> model_contains(
            spec_finalize(a2),
            key,
        )) && model_paths(spec_finalize(a1), key) == model_paths(spec_finalize(a2), key) by {
        lemma_finalize_key(a1, key);
        lemma_finalize_key(a2, key);
        let p1 = model_paths(a1, key);
        let p2 = model_paths(a2, key);
        assert(p1.to_multiset() == p2.to_multiset());
        p1.to_multiset_ensures();
        p2.to_multiset_ensures();
        assert(p1.len() == p2.len());
        p1.lemma_sort_by_ensures(chars_le_order());
        p2.lemma_sort_by_ensures(chars_le_order());
        vstd::seq_lib::lemma_sorted_unique(
            p1.sort_by(chars_le_order()),
            p2.sort_by(chars_le_order()),
            chars_le_order(),
        );
        if !model_contains(spec_finalize(a1), key) {
            assert(model_paths(spec_finalize(a1), key) =~= Seq::<Seq<char>>::empty());
            assert(model_paths(spec_finalize(a2), key) =~= Seq::<Seq<char>>::empty());
        }
    }
}

/// Sorting makes the report canonical: two sorted path lists that hold the
/// same paths are identical.
pub proof fn lemma_sorted_paths_canonical(a: Seq<Seq<char>>, b: Seq<Seq<char>>)
    requires
        sorted_by(a, chars_le_order()),
        sorted_by(b, chars_le_order()),
        a.to_multiset() == b.to_multiset(),
    ensures
        a == b,
{
    lemma_chars_le_total_ordering();
    vstd::seq_lib::lemma_sorted_unique(a, b, chars_le_order());
}

} // verus!
