//! What has been indexed: each file's SHA-256 at indexing time and the ids
//! of the chunks that belong to the index.
//!
//! Reading and writing `index_state.json` and hashing files is the caller's
//! part; this module decides which files are new, changed or removed.
use vstd::prelude::*;
use crate::text::{chars_of, has_prefix, starts_with, string_of};

verus! {

/// Metadata about a single indexed file.
#[derive(Debug)]
pub struct FileMetadata {
    /// Hex SHA-256 of the file's contents.
    pub sha256: String,
}

/// Persistent state tracking what has been indexed.
#[derive(Debug)]
pub struct IndexState {
    /// Format version of the state.
    pub version: u32,
    /// Each indexed file's path with its metadata; no path occurs twice.
    pub files: Vec<(String, FileMetadata)>,
    /// All chunk ids that belong to this index state.
    pub chunk_ids: Vec<String>,
}

/// The path-to-hash map of a list of file entries, later entries winning.
pub open spec fn file_map(files: Seq<(String, FileMetadata)>) -> Map<Seq<char>, Seq<char>>
    decreases files.len(),
{
    if files.len() == 0 {
        Map::empty()
    } else {
        file_map(files.drop_last()).insert(files.last().0@, files.last().1.sha256@)
    }
}

/// The path-to-hash map of a list of (path, hash) pairs, later pairs winning.
pub open spec fn pair_map(pairs: Seq<(String, String)>) -> Map<Seq<char>, Seq<char>>
    decreases pairs.len(),
{
    if pairs.len() == 0 {
        Map::empty()
    } else {
        pair_map(pairs.drop_last()).insert(pairs.last().0@, pairs.last().1@)
    }
}

/// No path occurs twice among the (path, hash) pairs.
pub open spec fn distinct_pairs(pairs: Seq<(String, String)>) -> bool {
    forall|i: int, j: int| 0 <= i < j < pairs.len() ==> (#[trigger] pairs[i]).0@ != (#[trigger] pairs[j]).0@
}

/// The strings of a list, as character sequences.
pub open spec fn strs(v: Seq<String>) -> Seq<Seq<char>> {
    v.map_values(|s: String| s@)
}

/// The id prefix of the chunks of file `path`.
pub open spec fn chunk_prefix(path: Seq<char>) -> Seq<char> {
    seq!['c', 'h', 'u', 'n', 'k', '_'] + path
}

/// The placeholder chunk id recorded for file `path`.
pub open spec fn chunk_id_of(path: Seq<char>) -> Seq<char> {
    chunk_prefix(path) + seq!['_', '0']
}

/// Paths among `cur` (in order) that the map does not know.
pub open spec fn new_paths(cur: Seq<(String, String)>, m: Map<Seq<char>, Seq<char>>) -> Seq<Seq<char>>
    decreases cur.len(),
{
    if cur.len() == 0 {
        seq![]
    } else {
        let rest = new_paths(cur.drop_last(), m);
        if !m.contains_key(cur.last().0@) { rest.push(cur.last().0@) } else { rest }
    }
}

/// Paths among `cur` (in order) that the map knows with another hash.
pub open spec fn changed_paths(cur: Seq<(String, String)>, m: Map<Seq<char>, Seq<char>>) -> Seq<Seq<char>>
    decreases cur.len(),
{
    if cur.len() == 0 {
        seq![]
    } else {
        let rest = changed_paths(cur.drop_last(), m);
        let p = cur.last().0@;
        if m.contains_key(p) && m[p] != cur.last().1@ { rest.push(p) } else { rest }
    }
}

/// The ids among `ids` (in order) that start with `pre`.
pub open spec fn ids_with_prefix(ids: Seq<Seq<char>>, pre: Seq<char>) -> Seq<Seq<char>>
    decreases ids.len(),
{
    if ids.len() == 0 {
        seq![]
    } else {
        let rest = ids_with_prefix(ids.drop_last(), pre);
        if has_prefix(ids.last(), pre) { rest.push(ids.last()) } else { rest }
    }
}

/// `path` is one of the paths of `cur`.
pub open spec fn has_path(cur: Seq<(String, String)>, path: Seq<char>) -> bool {
    exists|i: int| 0 <= i < cur.len() && (#[trigger] cur[i]).0@ == path
}

/// The chunk ids of saved files (in order) that `cur` no longer has.
pub open spec fn removed_ids(files: Seq<(String, FileMetadata)>, cur: Seq<(String, String)>, ids: Seq<Seq<char>>) -> Seq<Seq<char>>
    decreases files.len(),
{
    if files.len() == 0 {
        seq![]
    } else {
        let rest = removed_ids(files.drop_last(), cur, ids);
        let p = files.last().0@;
        if !has_path(cur, p) { rest + ids_with_prefix(ids, chunk_prefix(p)) } else { rest }
    }
}

/// Some file of `cur` is unknown to the map or known with another hash.
pub open spec fn differs(cur: Seq<(String, String)>, m: Map<Seq<char>, Seq<char>>) -> bool {
    exists|i: int| 0 <= i < cur.len() && !(m.contains_key((#[trigger] cur[i]).0@) && m[cur[i].0@] == cur[i].1@)
}

impl IndexState {
    /// No path occurs twice among the saved files.
    pub open spec fn wf(&self) -> bool {
        forall|i: int, j: int|
            0 <= i < j < self.files@.len() ==> (#[trigger] self.files@[i]).0@ != (#[trigger] self.files@[j]).0@
    }

    /// The saved files as a map from path to hash.
    pub open spec fn saved(&self) -> Map<Seq<char>, Seq<char>> {
        file_map(self.files@)
    }

    /// An empty state of version 1.
    pub fn new() -> (s: Self)
        ensures
            s.wf(),
            s.version == 1,
            s.saved() == Map::<Seq<char>, Seq<char>>::empty(),
            s.files@.len() == 0,
            s.chunk_ids@.len() == 0,
    {
        IndexState { version: 1, files: Vec::new(), chunk_ids: Vec::new() }
    }

    /// Records `meta` for `path`, replacing what was saved for it.
    pub fn insert_file(&mut self, path: String, meta: FileMetadata)
        requires
            old(self).wf(),
        ensures
            final(self).wf(),
            final(self).saved() == old(self).saved().insert(path@, meta.sha256@),
            final(self).version == old(self).version,
            final(self).chunk_ids == old(self).chunk_ids,
    {
        match position_of(&self.files, &path) {
            Some(i) => {
                let ghost before = self.files@;
                self.files.set(i, (path, meta));
                proof {
                    lemma_file_map_update(before, i as int, self.files@[i as int]);
                }
            },
            None => {
                let ghost before = self.files@;
                self.files.push((path, meta));
                proof {
                    assert(self.files@.drop_last() =~= before);
                }
            },
        }
    }

    /// Splits `current_files` (path and current hash, no path twice) into
    /// new files, changed files, and the chunk ids of saved files that are
    /// gone: `(new_files, changed_files, removed_chunk_ids)`.
    pub fn compare(&self, current_files: &Vec<(String, String)>) -> (r: (Vec<String>, Vec<String>, Vec<String>))
        requires
            self.wf(),
        ensures
            strs(r.0@) == new_paths(current_files@, self.saved()),
            strs(r.1@) == changed_paths(current_files@, self.saved()),
            strs(r.2@) == removed_ids(self.files@, current_files@, strs(self.chunk_ids@)),
    {
        let ghost m = self.saved();
        let mut new_files: Vec<String> = Vec::new();
        let mut changed_files: Vec<String> = Vec::new();
        let mut i: usize = 0;
        while i < current_files.len()
            invariant
                self.wf(),
                m == self.saved(),
                i <= current_files@.len(),
                strs(new_files@) == new_paths(current_files@.take(i as int), m),
                strs(changed_files@) == changed_paths(current_files@.take(i as int), m),
            decreases current_files@.len() - i,
        {
            let ghost pre = current_files@.take(i as int);
            proof {
                assert(current_files@.take(i + 1).drop_last() =~= pre);
                assert(current_files@.take(i + 1).last() == current_files@[i as int]);
            }
            let path = &current_files[i].0;
            let hash = &current_files[i].1;
            let saved = self.saved_hash(path);
            match saved {
                Some(h) => {
                    if !(*h == *hash) {
                        let ghost before = changed_files@;
                        changed_files.push(path.clone());
                        proof {
                            assert(strs(changed_files@) =~= strs(before).push(path@));
                        }
                    }
                },
                None => {
                    let ghost before = new_files@;
                    new_files.push(path.clone());
                    proof {
                        assert(strs(new_files@) =~= strs(before).push(path@));
                    }
                },
            }
            i += 1;
        }
        proof {
            assert(current_files@.take(current_files@.len() as int) =~= current_files@);
        }
        let mut removed: Vec<String> = Vec::new();
        let mut k: usize = 0;
        while k < self.files.len()
            invariant
                k <= self.files@.len(),
                strs(removed@) == removed_ids(self.files@.take(k as int), current_files@, strs(self.chunk_ids@)),
            decreases self.files@.len() - k,
        {
            proof {
                assert(self.files@.take(k + 1).drop_last() =~= self.files@.take(k as int));
                assert(self.files@.take(k + 1).last() == self.files@[k as int]);
            }
            let path = &self.files[k].0;
            if !contains_path(current_files, path) {
                let prefix = chunk_prefix_chars(path);
                let mut found = ids_starting_with(&self.chunk_ids, &prefix);
                let ghost before = removed@;
                let ghost fv = found@;
                removed.append(&mut found);
                proof {
                    assert(strs(removed@) =~= strs(before) + strs(fv));
                }
            }
            k += 1;
        }
        proof {
            assert(self.files@.take(self.files@.len() as int) =~= self.files@);
        }
        (new_files, changed_files, removed)
    }

    /// The hash saved for `path`, if any.
    pub fn saved_hash(&self, path: &String) -> (r: Option<&String>)
        requires
            self.wf(),
        ensures
            match r {
                Some(h) => self.saved().contains_key(path@) && self.saved()[path@] == h@,
                None => !self.saved().contains_key(path@),
            },
    {
        let mut i: usize = 0;
        while i < self.files.len()
            invariant
                self.wf(),
                i <= self.files@.len(),
                forall|k: int| 0 <= k < i ==> (#[trigger] self.files@[k]).0@ != path@,
            decreases self.files@.len() - i,
        {
            if self.files[i].0 == *path {
                proof {
                    lemma_file_map_at(self.files@, i as int);
                }
                return Some(&self.files[i].1.sha256);
            }
            i += 1;
        }
        proof {
            lemma_file_map_absent(self.files@, path@);
        }
        None
    }

    /// Records the current hashes of `files` (path and hash, no path twice)
    /// and replaces the chunk ids by one placeholder id per file.
    pub fn update_files(&mut self, files: Vec<(String, String)>)
        requires
            old(self).wf(),
            distinct_pairs(files@),
        ensures
            final(self).wf(),
            final(self).saved() == old(self).saved().union_prefer_right(pair_map(files@)),
            strs(final(self).chunk_ids@) == files@.map_values(|p: (String, String)| chunk_id_of(p.0@)),
            final(self).version == old(self).version,
    {
        let ghost old_saved = self.saved();
        let mut ids: Vec<String> = Vec::new();
        let mut i: usize = 0;
        while i < files.len()
            invariant
                self.wf(),
                i <= files@.len(),
                self.saved() == old_saved.union_prefer_right(pair_map(files@.take(i as int))),
                self.version == old(self).version,
                strs(ids@) == files@.take(i as int).map_values(|p: (String, String)| chunk_id_of(p.0@)),
            decreases files@.len() - i,
        {
            let ghost pre = files@.take(i as int);
            proof {
                assert(files@.take(i + 1).drop_last() =~= pre);
                assert(files@.take(i + 1).last() == files@[i as int]);
            }
            let path = files[i].0.clone();
            let hash = files[i].1.clone();
            let mut id = chunk_prefix_chars(&path);
            id.push('_');
            id.push('0');
            proof {
                assert(id@ =~= chunk_id_of(files@[i as int].0@));
            }
            let id_string = string_of(id.as_slice());
            self.insert_file(path, FileMetadata { sha256: hash });
            let ghost before = ids@;
            ids.push(id_string);
            proof {
                assert(strs(ids@) =~= strs(before).push(chunk_id_of(files@[i as int].0@)));
                assert(files@.take(i + 1).map_values(|p: (String, String)| chunk_id_of(p.0@))
                    =~= pre.map_values(|p: (String, String)| chunk_id_of(p.0@)).push(chunk_id_of(files@[i as int].0@)));
                assert(old_saved.union_prefer_right(pair_map(pre)).insert(files@[i as int].0@, files@[i as int].1@)
                    =~= old_saved.union_prefer_right(pair_map(files@.take(i + 1))));
            }
            i += 1;
        }
        proof {
            assert(files@.take(files@.len() as int) =~= files@);
        }
        self.chunk_ids = ids;
    }

    /// Whether some file of `current_files` is new or has changed.
    pub fn has_changes(&self, current_files: &Vec<(String, String)>) -> (res: bool)
        requires
            self.wf(),
        ensures
            res == differs(current_files@, self.saved()),
    {
        let (new_files, changed_files, _) = self.compare(current_files);
        proof {
            lemma_differs(current_files@, self.saved());
        }
        new_files.len() > 0 || changed_files.len() > 0
    }
}

impl Default for IndexState {
    fn default() -> (s: Self)
        ensures
            s.wf(),
            s.version == 1,
            s.saved() == Map::<Seq<char>, Seq<char>>::empty(),
            s.chunk_ids@.len() == 0,
    {
        IndexState::new()
    }
}

/// The index of the entry for `path`, if any.
fn position_of(files: &Vec<(String, FileMetadata)>, path: &String) -> (r: Option<usize>)
    ensures
        match r {
            Some(i) => i < files@.len() && files@[i as int].0@ == path@,
            None => forall|k: int| 0 <= k < files@.len() ==> (#[trigger] files@[k]).0@ != path@,
        },
{
    let mut i: usize = 0;
    while i < files.len()
        invariant
            i <= files@.len(),
            forall|k: int| 0 <= k < i ==> (#[trigger] files@[k]).0@ != path@,
        decreases files@.len() - i,
    {
        if files[i].0 == *path {
            return Some(i);
        }
        i += 1;
    }
    None
}

/// `"chunk_"` followed by `path`.
fn chunk_prefix_chars(path: &String) -> (r: Vec<char>)
    ensures
        r@ == chunk_prefix(path@),
{
    let mut r: Vec<char> = Vec::new();
    r.push('c');
    r.push('h');
    r.push('u');
    r.push('n');
    r.push('k');
    r.push('_');
    let mut p = chars_of(path.as_str());
    r.append(&mut p);
    proof {
        assert(r@ =~= chunk_prefix(path@));
    }
    r
}

/// Whether one of the pairs has path `path`.
fn contains_path(cur: &Vec<(String, String)>, path: &String) -> (res: bool)
    ensures
        res == has_path(cur@, path@),
{
    let mut i: usize = 0;
    while i < cur.len()
        invariant
            i <= cur@.len(),
            forall|k: int| 0 <= k < i ==> (#[trigger] cur@[k]).0@ != path@,
        decreases cur@.len() - i,
    {
        if cur[i].0 == *path {
            return true;
        }
        i += 1;
    }
    false
}

/// Copies of the ids that start with `prefix`, in order.
fn ids_starting_with(ids: &Vec<String>, prefix: &Vec<char>) -> (r: Vec<String>)
    ensures
        strs(r@) == ids_with_prefix(strs(ids@), prefix@),
{
    let mut r: Vec<String> = Vec::new();
    let mut i: usize = 0;
    while i < ids.len()
        invariant
            i <= ids@.len(),
            strs(r@) == ids_with_prefix(strs(ids@.take(i as int)), prefix@),
        decreases ids@.len() - i,
    {
        proof {
            assert(strs(ids@.take(i + 1)).drop_last() =~= strs(ids@.take(i as int)));
            assert(strs(ids@.take(i + 1)).last() == ids@[i as int]@);
        }
        let id = chars_of(ids[i].as_str());
        if starts_with(id.as_slice(), prefix.as_slice()) {
            let ghost before = r@;
            r.push(ids[i].clone());
            proof {
                assert(strs(r@) =~= strs(before).push(ids@[i as int]@));
            }
        }
        i += 1;
    }
    proof {
        assert(ids@.take(ids@.len() as int) =~= ids@);
    }
    r
}

/// With distinct paths, the entry at `i` gives the map's value for its path.
proof fn lemma_file_map_at(files: Seq<(String, FileMetadata)>, i: int)
    requires
        0 <= i < files.len(),
        forall|a: int, b: int| 0 <= a < b < files.len() ==> (#[trigger] files[a]).0@ != (#[trigger] files[b]).0@,
    ensures
        file_map(files).contains_key(files[i].0@),
        file_map(files)[files[i].0@] == files[i].1.sha256@,
    decreases files.len(),
{
    if i < files.len() - 1 {
        assert(files.drop_last()[i] == files[i]);
        assert(files[files.len() - 1] == files.last());
        lemma_file_map_at(files.drop_last(), i);
    }
}

/// A path that no entry has is not in the map.
proof fn lemma_file_map_absent(files: Seq<(String, FileMetadata)>, p: Seq<char>)
    requires
        forall|k: int| 0 <= k < files.len() ==> (#[trigger] files[k]).0@ != p,
    ensures
        !file_map(files).contains_key(p),
    decreases files.len(),
{
    if files.len() > 0 {
        assert(files[files.len() - 1] == files.last());
        lemma_file_map_absent(files.drop_last(), p);
    }
}

/// Replacing the entry at `i` by one with the same path updates that path.
proof fn lemma_file_map_update(files: Seq<(String, FileMetadata)>, i: int, e: (String, FileMetadata))
    requires
        0 <= i < files.len(),
        e.0@ == files[i].0@,
        forall|a: int, b: int| 0 <= a < b < files.len() ==> (#[trigger] files[a]).0@ != (#[trigger] files[b]).0@,
    ensures
        file_map(files.update(i, e)) == file_map(files).insert(e.0@, e.1.sha256@),
    decreases files.len(),
{
    let u = files.update(i, e);
    if i == files.len() - 1 {
        assert(u.drop_last() =~= files.drop_last());
        assert(file_map(u) =~= file_map(files).insert(e.0@, e.1.sha256@));
    } else {
        assert(u.drop_last() =~= files.drop_last().update(i, e));
        assert(files.drop_last()[i] == files[i]);
        lemma_file_map_update(files.drop_last(), i, e);
        assert(files[files.len() - 1] == files.last());
        assert(files.last().0@ != e.0@);
        assert(file_map(u) =~= file_map(files).insert(e.0@, e.1.sha256@));
    }
}

/// Some path is new or changed exactly when the lists of them are not both empty.
proof fn lemma_differs(cur: Seq<(String, String)>, m: Map<Seq<char>, Seq<char>>)
    ensures
        differs(cur, m) <==> (new_paths(cur, m).len() > 0 || changed_paths(cur, m).len() > 0),
    decreases cur.len(),
{
    if cur.len() > 0 {
        let rest = cur.drop_last();
        lemma_differs(rest, m);
        if differs(cur, m) {
            let i = choose|i: int| 0 <= i < cur.len() && !(m.contains_key((#[trigger] cur[i]).0@) && m[cur[i].0@] == cur[i].1@);
            if i < cur.len() - 1 {
                assert(rest[i] == cur[i]);
            }
        }
        if differs(rest, m) {
            let i = choose|i: int| 0 <= i < rest.len() && !(m.contains_key((#[trigger] rest[i]).0@) && m[rest[i].0@] == rest[i].1@);
            assert(cur[i] == rest[i]);
        }
        assert(cur[cur.len() - 1] == cur.last());
    }
}

/// With distinct paths, each pair gives the map's value for its path.
proof fn lemma_pair_map_at(pairs: Seq<(String, String)>, i: int)
    requires
        0 <= i < pairs.len(),
        distinct_pairs(pairs),
    ensures
        pair_map(pairs).contains_key(pairs[i].0@),
        pair_map(pairs)[pairs[i].0@] == pairs[i].1@,
    decreases pairs.len(),
{
    if i < pairs.len() - 1 {
        assert(pairs.drop_last()[i] == pairs[i]);
        assert(pairs[pairs.len() - 1] == pairs.last());
        lemma_pair_map_at(pairs.drop_last(), i);
    }
}

/// Once a state has recorded `files`, comparing it against the same files
/// finds nothing new or changed.
pub proof fn lemma_update_then_unchanged(saved: Map<Seq<char>, Seq<char>>, files: Seq<(String, String)>)
    requires
        distinct_pairs(files),
    ensures
        !differs(files, saved.union_prefer_right(pair_map(files))),
{
    let m = saved.union_prefer_right(pair_map(files));
    assert forall|i: int| 0 <= i < files.len() implies
        m.contains_key((#[trigger] files[i]).0@) && m[files[i].0@] == files[i].1@ by {
        lemma_pair_map_at(files, i);
    }
}

/// A state that has saved nothing sees changes exactly when some file is current.
pub proof fn lemma_empty_state_changes(files: Seq<(String, String)>)
    ensures
        differs(files, Map::<Seq<char>, Seq<char>>::empty()) <==> files.len() > 0,
{
    if files.len() > 0 {
        assert(!Map::<Seq<char>, Seq<char>>::empty().contains_key(files[0].0@));
    }
}

/// A path of `cur` without its last entry is a path of `cur`; a path of
/// `cur` is the last one's or one of the others'.
proof fn lemma_has_path_last(cur: Seq<(String, String)>, p: Seq<char>)
    requires
        cur.len() > 0,
    ensures
        has_path(cur, p) <==> (has_path(cur.drop_last(), p) || cur.last().0@ == p),
{
    let d = cur.drop_last();
    if has_path(cur, p) {
        let i = choose|i: int| 0 <= i < cur.len() && (#[trigger] cur[i]).0@ == p;
        if i < d.len() {
            assert(d[i] == cur[i]);
        }
    }
    if has_path(d, p) {
        let i = choose|i: int| 0 <= i < d.len() && (#[trigger] d[i]).0@ == p;
        assert(cur[i] == d[i]);
    }
    if cur.last().0@ == p {
        assert(cur[cur.len() - 1] == cur.last());
    }
}

/// The new paths are exactly the current paths the map does not know.
proof fn lemma_new_paths_set(cur: Seq<(String, String)>, m: Map<Seq<char>, Seq<char>>)
    ensures
        forall|p: Seq<char>| #[trigger] new_paths(cur, m).contains(p) <==> (has_path(cur, p) && !m.contains_key(p)),
    decreases cur.len(),
{
    if cur.len() > 0 {
        lemma_new_paths_set(cur.drop_last(), m);
        assert forall|p: Seq<char>| #[trigger] new_paths(cur, m).contains(p) <==> (has_path(cur, p) && !m.contains_key(p)) by {
            lemma_has_path_last(cur, p);
            let rest = new_paths(cur.drop_last(), m);
            if !m.contains_key(cur.last().0@) {
                assert(rest.push(cur.last().0@).contains(p) <==> (rest.contains(p) || cur.last().0@ == p)) by {
                    if rest.push(cur.last().0@).contains(p) {
                        let k = choose|k: int| 0 <= k < rest.len() + 1 && rest.push(cur.last().0@)[k] == p;
                        if k < rest.len() {
                            assert(rest[k] == p);
                        }
                    }
                    if rest.contains(p) {
                        let k = choose|k: int| 0 <= k < rest.len() && rest[k] == p;
                        assert(rest.push(cur.last().0@)[k] == p);
                    }
                    assert(rest.push(cur.last().0@)[rest.len() as int] == cur.last().0@);
                }
            }
        }
    }
}

/// The changed paths are exactly the current paths the map knows with
/// another hash.
proof fn lemma_changed_paths_set(cur: Seq<(String, String)>, m: Map<Seq<char>, Seq<char>>)
    ensures
        forall|p: Seq<char>| #[trigger] changed_paths(cur, m).contains(p) <==> exists|i: int|
            0 <= i < cur.len() && (#[trigger] cur[i]).0@ == p && m.contains_key(p) && m[p] != cur[i].1@,
    decreases cur.len(),
{
    if cur.len() > 0 {
        lemma_changed_paths_set(cur.drop_last(), m);
        let d = cur.drop_last();
        let l = cur.last();
        assert(cur[cur.len() - 1] == l);
        assert forall|p: Seq<char>| #[trigger] changed_paths(cur, m).contains(p) <==> exists|i: int|
            0 <= i < cur.len() && (#[trigger] cur[i]).0@ == p && m.contains_key(p) && m[p] != cur[i].1@ by {
            let rest = changed_paths(d, m);
            let here = m.contains_key(l.0@) && m[l.0@] != l.1@;
            if here {
                assert(rest.push(l.0@)[rest.len() as int] == l.0@);
                if rest.push(l.0@).contains(p) {
                    let k = choose|k: int| 0 <= k < rest.len() + 1 && rest.push(l.0@)[k] == p;
                    if k < rest.len() {
                        assert(rest[k] == p);
                    }
                }
                if rest.contains(p) {
                    let k = choose|k: int| 0 <= k < rest.len() && rest[k] == p;
                    assert(rest.push(l.0@)[k] == p);
                }
            }
            if exists|i: int| 0 <= i < cur.len() && (#[trigger] cur[i]).0@ == p && m.contains_key(p) && m[p] != cur[i].1@ {
                let i = choose|i: int| 0 <= i < cur.len() && (#[trigger] cur[i]).0@ == p && m.contains_key(p) && m[p] != cur[i].1@;
                if i < d.len() {
                    assert(d[i] == cur[i]);
                }
            }
            if exists|i: int| 0 <= i < d.len() && (#[trigger] d[i]).0@ == p && m.contains_key(p) && m[p] != d[i].1@ {
                let i = choose|i: int| 0 <= i < d.len() && (#[trigger] d[i]).0@ == p && m.contains_key(p) && m[p] != d[i].1@;
                assert(cur[i] == d[i]);
            }
        }
    }
}

/// With no path twice among the current files, no path is reported new, or
/// changed, twice.
proof fn lemma_compare_no_repeats(cur: Seq<(String, String)>, m: Map<Seq<char>, Seq<char>>)
    requires
        distinct_pairs(cur),
    ensures
        new_paths(cur, m).no_duplicates(),
        changed_paths(cur, m).no_duplicates(),
    decreases cur.len(),
{
    if cur.len() > 0 {
        let d = cur.drop_last();
        let l = cur.last();
        assert(distinct_pairs(d)) by {
            assert forall|i: int, j: int| 0 <= i < j < d.len() implies (#[trigger] d[i]).0@ != (#[trigger] d[j]).0@ by {
                assert(d[i] == cur[i] && d[j] == cur[j]);
            }
        }
        lemma_compare_no_repeats(d, m);
        lemma_new_paths_set(d, m);
        lemma_changed_paths_set(d, m);
        assert(!has_path(d, l.0@)) by {
            if has_path(d, l.0@) {
                let i = choose|i: int| 0 <= i < d.len() && (#[trigger] d[i]).0@ == l.0@;
                assert(cur[i] == d[i]);
                assert(cur[cur.len() - 1] == l);
            }
        }
        let rn = new_paths(d, m);
        if !m.contains_key(l.0@) {
            assert(!rn.contains(l.0@));
            assert forall|a: int, b: int| 0 <= a < b < rn.push(l.0@).len() implies rn.push(l.0@)[a] != rn.push(l.0@)[b] by {
                if b == rn.len() {
                    assert(rn.push(l.0@)[a] == rn[a]);
                } else {
                    assert(rn.push(l.0@)[a] == rn[a] && rn.push(l.0@)[b] == rn[b]);
                }
            }
        }
        let rc = changed_paths(d, m);
        if m.contains_key(l.0@) && m[l.0@] != l.1@ {
            assert(!rc.contains(l.0@)) by {
                if rc.contains(l.0@) {
                    let i = choose|i: int| 0 <= i < d.len() && (#[trigger] d[i]).0@ == l.0@ && m.contains_key(l.0@) && m[l.0@] != d[i].1@;
                    assert(has_path(d, l.0@));
                }
            }
            assert forall|a: int, b: int| 0 <= a < b < rc.push(l.0@).len() implies rc.push(l.0@)[a] != rc.push(l.0@)[b] by {
                if b == rc.len() {
                    assert(rc.push(l.0@)[a] == rc[a]);
                } else {
                    assert(rc.push(l.0@)[a] == rc[a] && rc.push(l.0@)[b] == rc[b]);
                }
            }
        }
    }
}

/// The ids kept by a prefix filter are exactly the ids with that prefix.
proof fn lemma_ids_with_prefix_set(ids: Seq<Seq<char>>, pre: Seq<char>)
    ensures
        forall|id: Seq<char>| #[trigger] ids_with_prefix(ids, pre).contains(id) <==> (ids.contains(id) && has_prefix(id, pre)),
    decreases ids.len(),
{
    if ids.len() > 0 {
        let d = ids.drop_last();
        let l = ids.last();
        lemma_ids_with_prefix_set(d, pre);
        assert(ids[ids.len() - 1] == l);
        assert forall|id: Seq<char>| #[trigger] ids_with_prefix(ids, pre).contains(id) <==> (ids.contains(id) && has_prefix(id, pre)) by {
            let rest = ids_with_prefix(d, pre);
            if has_prefix(l, pre) {
                assert(rest.push(l)[rest.len() as int] == l);
                if rest.push(l).contains(id) {
                    let k = choose|k: int| 0 <= k < rest.len() + 1 && rest.push(l)[k] == id;
                    if k < rest.len() {
                        assert(rest[k] == id);
                    }
                }
                if rest.contains(id) {
                    let k = choose|k: int| 0 <= k < rest.len() && rest[k] == id;
                    assert(rest.push(l)[k] == id);
                }
            }
            if ids.contains(id) {
                let k = choose|k: int| 0 <= k < ids.len() && ids[k] == id;
                if k < d.len() {
                    assert(d[k] == id);
                }
            }
            if d.contains(id) {
                let k = choose|k: int| 0 <= k < d.len() && d[k] == id;
                assert(ids[k] == id);
            }
        }
    }
}

/// The removed ids are exactly the ids that start with the chunk prefix of
/// a saved file that is no longer current.
proof fn lemma_removed_ids_set(files: Seq<(String, FileMetadata)>, cur: Seq<(String, String)>, ids: Seq<Seq<char>>)
    ensures
        forall|id: Seq<char>| #[trigger] removed_ids(files, cur, ids).contains(id) <==> (ids.contains(id) && exists|k: int|
            0 <= k < files.len() && !has_path(cur, (#[trigger] files[k]).0@) && has_prefix(id, chunk_prefix(files[k].0@))),
    decreases files.len(),
{
    if files.len() > 0 {
        let d = files.drop_last();
        let l = files.last();
        lemma_removed_ids_set(d, cur, ids);
        lemma_ids_with_prefix_set(ids, chunk_prefix(l.0@));
        assert(files[files.len() - 1] == l);
        assert forall|id: Seq<char>| #[trigger] removed_ids(files, cur, ids).contains(id) <==> (ids.contains(id) && exists|k: int|
            0 <= k < files.len() && !has_path(cur, (#[trigger] files[k]).0@) && has_prefix(id, chunk_prefix(files[k].0@))) by {
            let rest = removed_ids(d, cur, ids);
            let mine = ids_with_prefix(ids, chunk_prefix(l.0@));
            if !has_path(cur, l.0@) {
                if (rest + mine).contains(id) {
                    let k = choose|k: int| 0 <= k < (rest + mine).len() && (rest + mine)[k] == id;
                    if k < rest.len() {
                        assert(rest[k] == id);
                    } else {
                        assert(mine[k - rest.len()] == id);
                    }
                }
                if rest.contains(id) {
                    let k = choose|k: int| 0 <= k < rest.len() && rest[k] == id;
                    assert((rest + mine)[k] == id);
                }
                if mine.contains(id) {
                    let k = choose|k: int| 0 <= k < mine.len() && mine[k] == id;
                    assert((rest + mine)[rest.len() + k] == id);
                }
            }
            if exists|k: int| 0 <= k < files.len() && !has_path(cur, (#[trigger] files[k]).0@) && has_prefix(id, chunk_prefix(files[k].0@)) {
                let k = choose|k: int| 0 <= k < files.len() && !has_path(cur, (#[trigger] files[k]).0@) && has_prefix(id, chunk_prefix(files[k].0@));
                if k < d.len() {
                    assert(d[k] == files[k]);
                }
            }
            if exists|k: int| 0 <= k < d.len() && !has_path(cur, (#[trigger] d[k]).0@) && has_prefix(id, chunk_prefix(d[k].0@)) {
                let k = choose|k: int| 0 <= k < d.len() && !has_path(cur, (#[trigger] d[k]).0@) && has_prefix(id, chunk_prefix(d[k].0@));
                assert(files[k] == d[k]);
            }
        }
    }
}

/// What a comparison reports, as sets: the new files are the current paths
/// the saved state does not know; the changed files are the current paths it
/// knows with another hash; the removed ids are the chunk ids that start with
/// the chunk prefix of a saved file that is no longer current. With no path
/// twice among the current files, no path is reported twice.
pub proof fn lemma_compare_sets(files: Seq<(String, FileMetadata)>, cur: Seq<(String, String)>, ids: Seq<Seq<char>>)
    ensures
        forall|p: Seq<char>| #[trigger] new_paths(cur, file_map(files)).contains(p)
            <==> (has_path(cur, p) && !file_map(files).contains_key(p)),
        forall|p: Seq<char>| #[trigger] changed_paths(cur, file_map(files)).contains(p) <==> exists|i: int|
            0 <= i < cur.len() && (#[trigger] cur[i]).0@ == p && file_map(files).contains_key(p) && file_map(files)[p] != cur[i].1@,
        forall|id: Seq<char>| #[trigger] removed_ids(files, cur, ids).contains(id) <==> (ids.contains(id) && exists|k: int|
            0 <= k < files.len() && !has_path(cur, (#[trigger] files[k]).0@) && has_prefix(id, chunk_prefix(files[k].0@))),
        distinct_pairs(cur) ==> new_paths(cur, file_map(files)).no_duplicates(),
        distinct_pairs(cur) ==> changed_paths(cur, file_map(files)).no_duplicates(),
{
    lemma_new_paths_set(cur, file_map(files));
    lemma_changed_paths_set(cur, file_map(files));
    lemma_removed_ids_set(files, cur, ids);
    if distinct_pairs(cur) {
        lemma_compare_no_repeats(cur, file_map(files));
    }
}

} // verus!
