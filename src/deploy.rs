use vstd::prelude::*;

use crate::arch::ConfigError;
use crate::selector::names;
use crate::text::same_text;

verus! {

/// What an entry of a directory tree is.
#[derive(Debug, Clone, Copy, PartialEq, Eq, Structural)]
pub enum EntryKind {
    File,
    Directory,
}

/// One entry of a directory tree: its path relative to the tree's root, its
/// kind, and, for a file, its bytes (empty for a directory).
#[derive(Debug, Clone)]
pub struct TreeEntry {
    pub path: Vec<String>,
    pub kind: EntryKind,
    pub content: Vec<u8>,
}

impl TreeEntry {
    pub open spec fn key(&self) -> Seq<Seq<char>> {
        names(self.path@)
    }

    pub open spec fn node(&self) -> (EntryKind, Seq<u8>) {
        (self.kind, self.content@)
    }
}

/// The tree that a list of entries describes: each path with what the last
/// entry for it holds.
pub open spec fn tree_of(entries: Seq<TreeEntry>) -> Map<Seq<Seq<char>>, (EntryKind, Seq<u8>)>
    decreases entries.len(),
{
    if entries.len() == 0 {
        Map::empty()
    } else {
        tree_of(entries.drop_last()).insert(entries.last().key(), entries.last().node())
    }
}

/// What mirroring `source` into `dest` leaves: every entry of the source,
/// overwriting what was there, and every other entry of the destination
/// untouched.
pub open spec fn mirrored(
    dest: Map<Seq<Seq<char>>, (EntryKind, Seq<u8>)>,
    source: Map<Seq<Seq<char>>, (EntryKind, Seq<u8>)>,
) -> Map<Seq<Seq<char>>, (EntryKind, Seq<u8>)> {
    dest.union_prefer_right(source)
}

fn copy_path(p: &Vec<String>) -> (r: Vec<String>)
    ensures
        names(r@) == names(p@),
{
    let mut path: Vec<String> = Vec::new();
    let mut i: usize = 0;
    while i < p.len()
        invariant
            i <= p@.len(),
            path@.len() == i,
            forall|k: int| 0 <= k < i ==> path@[k]@ == p@[k]@,
        decreases p@.len() - i,
    {
        let s = p[i].clone();
        assert(s@ == p@[i as int]@);
        path.push(s);
        i = i + 1;
    }
    assert(names(path@) =~= names(p@));
    path
}

fn copy_entry(e: &TreeEntry) -> (r: TreeEntry)
    ensures
        r.key() == e.key(),
        r.node() == e.node(),
{
    let path = copy_path(&e.path);
    let mut content: Vec<u8> = Vec::new();
    let mut k: usize = 0;
    while k < e.content.len()
        invariant
            k <= e.content@.len(),
            content@ == e.content@.take(k as int),
        decreases e.content@.len() - k,
    {
        content.push(e.content[k]);
        assert(content@ =~= e.content@.take(k as int + 1));
        k = k + 1;
    }
    assert(e.content@.take(e.content@.len() as int) =~= e.content@);
    TreeEntry { path, kind: e.kind, content }
}

/// Mirrors the tree `source` into the tree `dest`: every file and directory
/// of the source is written at the same relative path, files overwrite what
/// was there, and no entry of the destination is removed.
pub fn mirror(dest: &mut Vec<TreeEntry>, source: &Vec<TreeEntry>)
    ensures
        tree_of(final(dest)@) == mirrored(tree_of(old(dest)@), tree_of(source@)),
{
    let ghost start = tree_of(old(dest)@);
    let mut i: usize = 0;
    while i < source.len()
        invariant
            i <= source@.len(),
            start == tree_of(old(dest)@),
            tree_of(dest@) == mirrored(start, tree_of(source@.take(i as int))),
        decreases source@.len() - i,
    {
        let e = copy_entry(&source[i]);
        let ghost before = dest@;
        dest.push(e);
        proof {
            assert(dest@.drop_last() =~= before);
            assert(source@.take(i as int + 1).drop_last() =~= source@.take(i as int));
            assert(tree_of(dest@) =~= mirrored(start, tree_of(source@.take(i as int + 1))));
        }
        i = i + 1;
    }
    assert(source@.take(source@.len() as int) =~= source@);
}

/// Mirroring is idempotent: mirroring the same source a second time changes
/// nothing, and entries added to the destination between the two mirrors
/// (at paths the source does not hold) survive the second one.
pub proof fn lemma_mirror_idempotent(
    dest: Map<Seq<Seq<char>>, (EntryKind, Seq<u8>)>,
    source: Map<Seq<Seq<char>>, (EntryKind, Seq<u8>)>,
    added: Map<Seq<Seq<char>>, (EntryKind, Seq<u8>)>,
)
    ensures
        mirrored(mirrored(dest, source), source) == mirrored(dest, source),
        mirrored(mirrored(dest, source).union_prefer_right(added), source) == mirrored(
            dest.union_prefer_right(added),
            source,
        ),
        forall|p: Seq<Seq<char>>|
            #![trigger added.contains_key(p)]
            added.contains_key(p) && !source.contains_key(p) ==> mirrored(
                mirrored(dest, source).union_prefer_right(added),
                source,
            ).contains_key(p) && mirrored(mirrored(dest, source).union_prefer_right(added), source)[p]
                == added[p],
{
    assert(mirrored(mirrored(dest, source), source) =~= mirrored(dest, source));
    assert(mirrored(mirrored(dest, source).union_prefer_right(added), source) =~= mirrored(
        dest.union_prefer_right(added),
        source,
    ));
}

/// A directory where artifacts are deployed for `profile`: a directory named
/// `profile` with no ancestor of that name (the search does not go below a
/// match).
pub open spec fn is_profile_target(e: TreeEntry, profile: Seq<char>) -> bool {
    &&& e.kind == EntryKind::Directory
    &&& e.key().len() > 0
    &&& e.key().last() == profile
    &&& forall|j: int| 0 <= j < e.key().len() - 1 ==> e.key()[j] != profile
}

/// The paths of the profile targets among the first `k` entries, in order.
pub open spec fn profile_targets(entries: Seq<TreeEntry>, profile: Seq<char>, k: int) -> Seq<
    Seq<Seq<char>>,
>
    decreases k,
{
    if k <= 0 {
        Seq::empty()
    } else if is_profile_target(entries[k - 1], profile) {
        profile_targets(entries, profile, k - 1).push(entries[k - 1].key())
    } else {
        profile_targets(entries, profile, k - 1)
    }
}

/// The paths of a list of paths.
pub open spec fn paths_of(v: Seq<Vec<String>>) -> Seq<Seq<Seq<char>>> {
    v.map_values(|p: Vec<String>| names(p@))
}

fn profile_target(e: &TreeEntry, profile: &str) -> (r: bool)
    ensures
        r == is_profile_target(*e, profile@),
{
    if e.kind != EntryKind::Directory || e.path.len() == 0 {
        assert(names(e.path@).len() == e.path@.len());
        return false;
    }
    let n = e.path.len();
    assert(names(e.path@).len() == n);
    if !same_text(e.path[n - 1].as_str(), profile) {
        return false;
    }
    let mut j: usize = 0;
    while j < n - 1
        invariant
            n == e.path@.len(),
            n > 0,
            j <= n - 1,
            names(e.path@).len() == n,
            forall|q: int| 0 <= q < j ==> names(e.path@)[q] != profile@,
        decreases n - 1 - j,
    {
        if same_text(e.path[j].as_str(), profile) {
            assert(names(e.path@)[j as int] == profile@);
            return false;
        }
        j = j + 1;
    }
    true
}

/// Finds, in a listing of an output tree, every directory named `profile`
/// that is not itself below such a directory, whatever its depth; these are
/// the directories that artifacts are deployed into.
pub fn find_profile_dirs(tree: &Vec<TreeEntry>, profile: &str) -> (r: Vec<Vec<String>>)
    ensures
        paths_of(r@) == profile_targets(tree@, profile@, tree@.len() as int),
{
    let mut r: Vec<Vec<String>> = Vec::new();
    let mut i: usize = 0;
    while i < tree.len()
        invariant
            i <= tree@.len(),
            paths_of(r@) == profile_targets(tree@, profile@, i as int),
        decreases tree@.len() - i,
    {
        if profile_target(&tree[i], profile) {
            let path = copy_path(&tree[i].path);
            let ghost before = r@;
            r.push(path);
            assert(paths_of(r@) =~= paths_of(before).push(tree@[i as int].key()));
        }
        i = i + 1;
    }
    r
}

/// The profile search finds every target, at any depth below the root, and
/// nothing else.
pub proof fn lemma_profile_targets_exact(entries: Seq<TreeEntry>, profile: Seq<char>, k: int)
    requires
        0 <= k <= entries.len(),
    ensures
        forall|q: int|
            0 <= q < k && is_profile_target(#[trigger] entries[q], profile) ==> profile_targets(
                entries,
                profile,
                k,
            ).contains(entries[q].key()),
        forall|p: Seq<Seq<char>>|
            profile_targets(entries, profile, k).contains(p) ==> exists|q: int|
                0 <= q < k && is_profile_target(#[trigger] entries[q], profile) && entries[q].key()
                    == p,
    decreases k,
{
    if k > 0 {
        lemma_profile_targets_exact(entries, profile, k - 1);
        let prev = profile_targets(entries, profile, k - 1);
        let cur = profile_targets(entries, profile, k);
        assert forall|q: int|
            0 <= q < k && is_profile_target(#[trigger] entries[q], profile) implies cur.contains(
            entries[q].key(),
        ) by {
            if q < k - 1 {
                let w = choose|w: int| 0 <= w < prev.len() && prev[w] == entries[q].key();
                if is_profile_target(entries[k - 1], profile) {
                    assert(cur[w] == entries[q].key());
                }
            } else {
                assert(cur[cur.len() - 1] == entries[q].key());
            }
        }
        assert forall|p: Seq<Seq<char>>| cur.contains(p) implies exists|q: int|
            0 <= q < k && is_profile_target(#[trigger] entries[q], profile) && entries[q].key()
                == p by {
            let w = choose|w: int| 0 <= w < cur.len() && cur[w] == p;
            if w < prev.len() {
                assert(prev.contains(p));
            } else {
                assert(is_profile_target(entries[k - 1], profile));
            }
        }
    }
}

/// The text of `s` before its first `;`.
pub open spec fn before_separator(s: Seq<char>, r: Seq<char>) -> bool {
    &&& r.len() < s.len()
    &&& s[r.len() as int] == ';'
    &&& r == s.take(r.len() as int)
    &&& !r.contains(';')
}

/// The build-artifact directory named by a search path: the text before its
/// first `;`. A search path without `;` is a configuration error that names it.
pub fn build_root(search_path: &str) -> (r: Result<String, ConfigError>)
    ensures
        match r {
            Ok(root) => before_separator(search_path@, root@),
            Err(ConfigError::MissingPathSeparator(m)) => !search_path@.contains(';') && m@
                == search_path@,
            Err(_) => false,
        },
{
    let n = search_path.unicode_len();
    let mut i: usize = 0;
    while i < n
        invariant
            n == search_path@.len(),
            i <= n,
            forall|q: int| 0 <= q < i ==> search_path@[q] != ';',
        decreases n - i,
    {
        if search_path.get_char(i) == ';' {
            let root = search_path.substring_char(0, i).to_owned();
            assert(root@ == search_path@.take(i as int));
            return Ok(root);
        }
        i = i + 1;
    }
    Err(ConfigError::MissingPathSeparator(search_path.to_owned()))
}

} // verus!
