use vstd::prelude::*;

verus! {

/// Whether an entry is a plain file or a folder holding other entries.
#[derive(Clone, Copy, Debug, PartialEq, Eq, Structural)]
pub enum FileType {
    File,
    Folder,
}

/// Why an operation on the tree was refused.
#[derive(Clone, Copy, Debug, PartialEq, Eq, Structural)]
pub enum TreeError {
    /// The path does not lead to an existing entry.
    NotFound,
    /// The path passes through, or ends at, a file where a folder is needed.
    NotAFolder,
}

/// One file or folder of the scanned tree, owning its children.
pub struct Entry {
    pub name: String,
    pub file_type: FileType,
    pub size: u64,
    pub num_descendants: u64,
    pub children: Vec<Entry>,
}

/// Total size of a sequence of entries.
pub open spec fn sum_sizes(s: Seq<Entry>) -> int
    decreases s.len(),
{
    if s.len() == 0 {
        0
    } else {
        sum_sizes(s.drop_last()) + s.last().size
    }
}

/// Number of entries in a sequence and beneath them.
pub open spec fn sum_counts(s: Seq<Entry>) -> int
    decreases s.len(),
{
    if s.len() == 0 {
        0
    } else {
        sum_counts(s.drop_last()) + 1 + s.last().num_descendants
    }
}

pub open spec fn unique_names(s: Seq<Entry>) -> bool {
    forall|i: int, j: int|
        0 <= i < s.len() && 0 <= j < s.len() && i != j ==> s[i].name@ != s[j].name@
}

/// Well-formedness: every folder's size and descendant count are the rollups of its
/// children, files have no children, and sibling names are distinct.
pub open spec fn wf_entry(e: Entry) -> bool
    decreases e,
{
    &&& (e.file_type == FileType::File ==> e.children@.len() == 0 && e.num_descendants == 0)
    &&& (e.file_type == FileType::Folder ==> e.size == sum_sizes(e.children@)
        && e.num_descendants == sum_counts(e.children@))
    &&& unique_names(e.children@)
    &&& all_wf(e.children@)
}

/// Every entry of the sequence is well formed.
pub open spec fn all_wf(s: Seq<Entry>) -> bool
    decreases s,
{
    if s.len() == 0 {
        true
    } else {
        all_wf(s.subrange(0, s.len() - 1)) && wf_entry(s[s.len() - 1])
    }
}

proof fn lemma_all_wf(s: Seq<Entry>)
    ensures
        all_wf(s) <==> forall|i: int| 0 <= i < s.len() ==> #[trigger] wf_entry(s[i]),
    decreases s.len(),
{
    if s.len() > 0 {
        let t = s.subrange(0, s.len() - 1);
        lemma_all_wf(t);
        assert(forall|j: int| 0 <= j < t.len() ==> t[j] == s[j]);
        if forall|i: int| 0 <= i < s.len() ==> #[trigger] wf_entry(s[i]) {
            assert forall|j: int| 0 <= j < t.len() implies #[trigger] wf_entry(t[j]) by {
                assert(wf_entry(s[j]));
            }
            assert(wf_entry(s[s.len() - 1]));
        }
        if all_wf(s) {
            assert forall|j: int| 0 <= j < s.len() implies #[trigger] wf_entry(s[j]) by {
                if j < s.len() - 1 {
                    assert(wf_entry(t[j]));
                }
            }
        }
    }
}

/// Index of the first entry of `s` named `name`, or -1.
pub open spec fn index_of(s: Seq<Entry>, name: Seq<char>) -> int
    decreases s.len(),
{
    if s.len() == 0 {
        -1
    } else {
        let r = index_of(s.drop_last(), name);
        if r >= 0 {
            r
        } else if s.last().name@ == name {
            s.len() - 1
        } else {
            -1
        }
    }
}

/// The entry reached from `e` by following the names of `p`.
pub open spec fn lookup(e: Entry, p: Seq<Seq<char>>) -> Option<Entry>
    decreases p.len(),
{
    if p.len() == 0 {
        Some(e)
    } else {
        let i = index_of(e.children@, p[0]);
        if i < 0 {
            None
        } else {
            lookup(e.children@[i], p.drop_first())
        }
    }
}

/// Some proper prefix of `p` leads from `e` to a file.
pub open spec fn blocked(e: Entry, p: Seq<Seq<char>>) -> bool
    decreases p.len(),
{
    if p.len() <= 1 {
        false
    } else {
        let i = index_of(e.children@, p[0]);
        i >= 0 && (e.children@[i].file_type == FileType::File || blocked(
            e.children@[i],
            p.drop_first(),
        ))
    }
}

/// How many segments of `p`, counted from the first that does not exist, are missing.
pub open spec fn missing(e: Entry, p: Seq<Seq<char>>) -> int
    decreases p.len(),
{
    if p.len() == 0 {
        0
    } else {
        let i = index_of(e.children@, p[0]);
        if i < 0 {
            p.len() as int
        } else {
            missing(e.children@[i], p.drop_first())
        }
    }
}

/// How many leading segments of `p` lead from `e` through folders.
pub open spec fn valid_depth(e: Entry, p: Seq<Seq<char>>) -> int
    decreases p.len(),
{
    if p.len() == 0 {
        0
    } else {
        let i = index_of(e.children@, p[0]);
        if i >= 0 && e.children@[i].file_type == FileType::Folder {
            1 + valid_depth(e.children@[i], p.drop_first())
        } else {
            0
        }
    }
}

pub open spec fn names(path: Seq<String>) -> Seq<Seq<char>> {
    path.map_values(|s: String| s@)
}

pub open spec fn suffix(path: Seq<String>, k: int) -> Seq<Seq<char>> {
    names(path.subrange(k, path.len() as int))
}

pub open spec fn size_or_zero(x: Option<Entry>) -> int {
    match x {
        Some(y) => y.size as int,
        None => 0,
    }
}

pub open spec fn descendants_or_zero(x: Option<Entry>) -> int {
    match x {
        Some(y) => y.num_descendants as int,
        None => 0,
    }
}

/// Neither path is a prefix of the other: they part at some segment.
pub open spec fn diverge(p: Seq<Seq<char>>, q: Seq<Seq<char>>) -> bool
    decreases p.len(),
{
    p.len() > 0 && q.len() > 0 && (p[0] != q[0] || diverge(p.drop_first(), q.drop_first()))
}

/// Every entry on a path that parts from `p` is the same in `new` as in `old`.
pub open spec fn unchanged_beside(old: Entry, new: Entry, p: Seq<Seq<char>>) -> bool {
    forall|q: Seq<Seq<char>>| #[trigger] diverge(p, q) ==> lookup(new, q) == lookup(old, q)
}

proof fn lemma_index_same_names(s1: Seq<Entry>, s2: Seq<Entry>, n: Seq<char>)
    requires
        s1.len() == s2.len(),
        forall|j: int| 0 <= j < s1.len() ==> s1[j].name@ == s2[j].name@,
    ensures
        index_of(s1, n) == index_of(s2, n),
    decreases s1.len(),
{
    if s1.len() > 0 {
        let t1 = s1.drop_last();
        let t2 = s2.drop_last();
        assert forall|j: int| 0 <= j < t1.len() implies t1[j].name@ == t2[j].name@ by {
            assert(t1[j] == s1[j]);
            assert(t2[j] == s2[j]);
        }
        lemma_index_same_names(t1, t2, n);
        assert(s1.last().name@ == s2.last().name@);
    }
}

proof fn lemma_index_push(s: Seq<Entry>, x: Entry, n: Seq<char>)
    requires
        x.name@ != n,
    ensures
        index_of(s.push(x), n) == index_of(s, n),
{
    assert(s.push(x).drop_last() =~= s);
}

proof fn lemma_index_remove(s: Seq<Entry>, i: int, n: Seq<char>)
    requires
        0 <= i < s.len(),
        s[i].name@ != n,
    ensures
        index_of(s, n) < 0 ==> index_of(s.remove(i), n) < 0,
        index_of(s, n) >= 0 ==> index_of(s.remove(i), n) >= 0 && s.remove(i)[index_of(
            s.remove(i),
            n,
        )] == s[index_of(s, n)],
{
    let t = s.remove(i);
    lemma_index_of(s, n);
    lemma_index_of(t, n);
    let r = index_of(s, n);
    let r2 = index_of(t, n);
    if r2 >= 0 {
        if r2 < i {
            assert(t[r2] == s[r2]);
        } else {
            assert(t[r2] == s[r2 + 1]);
        }
    }
    if r >= 0 {
        if r < i {
            assert(t[r] == s[r]);
            if r2 >= 0 && r2 < r {
                assert(t[r2] == s[r2]);
            }
        } else {
            assert(t[r - 1] == s[r]);
            if r2 >= 0 && r2 < r - 1 {
                if r2 < i {
                    assert(t[r2] == s[r2]);
                } else {
                    assert(t[r2] == s[r2 + 1]);
                }
            }
        }
    }
}

proof fn lemma_frame_update(e: Entry, i: int, x: Entry, new: Entry, p: Seq<Seq<char>>)
    requires
        0 <= i < e.children@.len(),
        p.len() > 0,
        index_of(e.children@, p[0]) == i,
        x.name@ == e.children@[i].name@,
        new.children@ == e.children@.update(i, x),
        p.len() == 1 || unchanged_beside(e.children@[i], x, p.drop_first()),
    ensures
        unchanged_beside(e, new, p),
{
    lemma_index_of(e.children@, p[0]);
    let s = e.children@;
    let t = new.children@;
    assert forall|j: int| 0 <= j < s.len() implies s[j].name@ == t[j].name@ by {}
    assert forall|q: Seq<Seq<char>>| #[trigger] diverge(p, q) implies lookup(new, q) == lookup(e, q) by {
        lemma_index_same_names(s, t, q[0]);
        lemma_index_of(s, q[0]);
        if q[0] != p[0] {
            let j = index_of(s, q[0]);
            if j >= 0 {
                assert(j != i);
                assert(t[j] == s[j]);
            }
        } else {
            assert(diverge(p.drop_first(), q.drop_first()));
        }
    }
}

proof fn lemma_frame_push(e: Entry, x: Entry, new: Entry, p: Seq<Seq<char>>)
    requires
        p.len() > 0,
        index_of(e.children@, p[0]) < 0,
        x.name@ == p[0],
        new.children@ == e.children@.push(x),
        p.len() == 1 || forall|q: Seq<Seq<char>>|
            #[trigger] diverge(p.drop_first(), q) ==> lookup(x, q) is None,
    ensures
        unchanged_beside(e, new, p),
{
    let s = e.children@;
    let t = new.children@;
    lemma_index_of(s, p[0]);
    assert forall|q: Seq<Seq<char>>| #[trigger] diverge(p, q) implies lookup(new, q) == lookup(e, q) by {
        lemma_index_of(s, q[0]);
        if q[0] != p[0] {
            lemma_index_push(s, x, q[0]);
            let j = index_of(s, q[0]);
            if j >= 0 {
                assert(t[j] == s[j]);
            }
        } else {
            lemma_index_unique_push(s, x);
            assert(diverge(p.drop_first(), q.drop_first()));
        }
    }
}

proof fn lemma_index_unique_push(s: Seq<Entry>, x: Entry)
    requires
        index_of(s, x.name@) < 0,
    ensures
        index_of(s.push(x), x.name@) == s.len(),
{
    assert(s.push(x).drop_last() =~= s);
}

proof fn lemma_frame_remove(e: Entry, i: int, new: Entry, p: Seq<Seq<char>>)
    requires
        p.len() == 1,
        0 <= i < e.children@.len(),
        index_of(e.children@, p[0]) == i,
        new.children@ == e.children@.remove(i),
    ensures
        unchanged_beside(e, new, p),
{
    let s = e.children@;
    lemma_index_of(s, p[0]);
    assert forall|q: Seq<Seq<char>>| #[trigger] diverge(p, q) implies lookup(new, q) == lookup(e, q) by {
        assert(p.drop_first().len() == 0);
        assert(!diverge(p.drop_first(), q.drop_first()));
        assert(q[0] != p[0]);
        lemma_index_remove(s, i, q[0]);
    }
}

/// `new` is `old` after writing an entry of kind `ft` (and, for a file, of `size`) at `p`:
/// an existing folder written as a folder is kept as it is, anything else is replaced by
/// a fresh entry, and the rollups of `old` change by exactly the difference.
pub open spec fn inserted(old: Entry, new: Entry, p: Seq<Seq<char>>, size: u64, ft: FileType) -> bool {
    let prev = lookup(old, p);
    let kept = ft == FileType::Folder && prev is Some && prev->0.file_type == FileType::Folder;
    match lookup(new, p) {
        Some(x) => {
            &&& x.file_type == ft
            &&& (ft == FileType::File ==> x.size == size)
            &&& (kept ==> x == prev->0)
            &&& (!kept ==> x.num_descendants == 0 && x.children@.len() == 0)
            &&& (!kept && ft == FileType::Folder ==> x.size == 0)
            &&& new.size == old.size - size_or_zero(prev) + x.size
            &&& new.num_descendants == old.num_descendants - descendants_or_zero(prev) + missing(old, p)
                + x.num_descendants
        },
        None => false,
    }
}

proof fn lemma_index_of(s: Seq<Entry>, name: Seq<char>)
    ensures
        -1 <= index_of(s, name) < s.len(),
        index_of(s, name) >= 0 ==> s[index_of(s, name)].name@ == name,
        index_of(s, name) >= 0 ==> forall|j: int| 0 <= j < index_of(s, name) ==> s[j].name@ != name,
        index_of(s, name) < 0 ==> forall|j: int| 0 <= j < s.len() ==> s[j].name@ != name,
    decreases s.len(),
{
    if s.len() > 0 {
        let t = s.drop_last();
        lemma_index_of(t, name);
        assert(forall|j: int| 0 <= j < t.len() ==> t[j] == s[j]);
    }
}

proof fn lemma_index_unique(s: Seq<Entry>, name: Seq<char>, i: int)
    requires
        unique_names(s),
        0 <= i < s.len(),
        s[i].name@ == name,
    ensures
        index_of(s, name) == i,
{
    lemma_index_of(s, name);
}

proof fn lemma_sum_update(s: Seq<Entry>, i: int, x: Entry)
    requires
        0 <= i < s.len(),
    ensures
        sum_sizes(s.update(i, x)) == sum_sizes(s) - s[i].size + x.size,
        sum_counts(s.update(i, x)) == sum_counts(s) - s[i].num_descendants + x.num_descendants,
    decreases s.len(),
{
    let t = s.update(i, x);
    if i == s.len() - 1 {
        assert(t.drop_last() =~= s.drop_last());
    } else {
        assert(t.drop_last() =~= s.drop_last().update(i, x));
        lemma_sum_update(s.drop_last(), i, x);
    }
}

proof fn lemma_sum_push(s: Seq<Entry>, x: Entry)
    ensures
        sum_sizes(s.push(x)) == sum_sizes(s) + x.size,
        sum_counts(s.push(x)) == sum_counts(s) + 1 + x.num_descendants,
{
    assert(s.push(x).drop_last() =~= s);
}

proof fn lemma_sum_nonneg(s: Seq<Entry>)
    ensures
        sum_sizes(s) >= 0,
        sum_counts(s) >= s.len(),
    decreases s.len(),
{
    if s.len() > 0 {
        lemma_sum_nonneg(s.drop_last());
    }
}

proof fn lemma_sum_remove(s: Seq<Entry>, i: int)
    requires
        0 <= i < s.len(),
    ensures
        sum_sizes(s.remove(i)) == sum_sizes(s) - s[i].size,
        sum_counts(s.remove(i)) == sum_counts(s) - 1 - s[i].num_descendants,
    decreases s.len(),
{
    if i == s.len() - 1 {
        assert(s.remove(i) =~= s.drop_last());
    } else {
        assert(s.remove(i).drop_last() =~= s.drop_last().remove(i));
        lemma_sum_remove(s.drop_last(), i);
    }
}

proof fn lemma_suffix(path: Seq<String>, k: int)
    requires
        0 <= k < path.len(),
    ensures
        suffix(path, k).len() == path.len() - k,
        suffix(path, k)[0] == path[k]@,
        suffix(path, k).drop_first() =~= suffix(path, k + 1),
{
}

proof fn lemma_missing_le(e: Entry, p: Seq<Seq<char>>)
    ensures
        0 <= missing(e, p) <= p.len(),
        lookup(e, p) is Some ==> missing(e, p) == 0,
        lookup(e, p) is None ==> missing(e, p) >= 1,
    decreases p.len(),
{
    if p.len() > 0 {
        let i = index_of(e.children@, p[0]);
        if i >= 0 {
            lemma_missing_le(e.children@[i], p.drop_first());
        }
    }
}

/// Finds the child named `name`.
fn find_child(children: &Vec<Entry>, name: &String) -> (r: Option<usize>)
    ensures
        match r {
            Some(i) => i < children@.len() && i as int == index_of(children@, name@),
            None => index_of(children@, name@) < 0,
        },
{
    let mut i: usize = 0;
    while i < children.len()
        invariant
            0 <= i <= children.len(),
            forall|j: int| 0 <= j < i ==> children@[j].name@ != name@,
        decreases children.len() - i,
    {
        if children[i].name == *name {
            proof {
                lemma_index_of(children@, name@);
            }
            return Some(i);
        }
        i += 1;
    }
    proof {
        lemma_index_of(children@, name@);
    }
    None
}

/// A new entry without children: a file of `size`, or an empty folder.
fn new_leaf(name: String, size: u64, file_type: FileType) -> (r: Entry)
    ensures
        r.name == name,
        r.file_type == file_type,
        r.size == (if file_type == FileType::File { size } else { 0 }),
        r.num_descendants == 0,
        r.children@.len() == 0,
        wf_entry(r),
{
    let s: u64 = match file_type {
        FileType::File => size,
        FileType::Folder => 0,
    };
    let r = Entry { name, file_type, size: s, num_descendants: 0, children: Vec::new() };
    assert(r.children@ =~= Seq::<Entry>::empty());
    r
}

fn is_blocked(e: &Entry, path: &Vec<String>, k: usize) -> (r: bool)
    requires
        k <= path.len(),
    ensures
        r == blocked(*e, suffix(path@, k as int)),
    decreases path.len() - k,
{
    if path.len() - k <= 1 {
        return false;
    }
    proof {
        lemma_suffix(path@, k as int);
    }
    match find_child(&e.children, &path[k]) {
        None => false,
        Some(i) => {
            let c = &e.children[i];
            match c.file_type {
                FileType::File => true,
                FileType::Folder => is_blocked(c, path, k + 1),
            }
        },
    }
}

proof fn lemma_children_update(e: Entry, i: int, x: Entry)
    requires
        wf_entry(e),
        0 <= i < e.children@.len(),
        wf_entry(x),
        x.name@ == e.children@[i].name@,
    ensures
        unique_names(e.children@.update(i, x)),
        all_wf(e.children@.update(i, x)),
        index_of(e.children@.update(i, x), x.name@) == i,
{
    let t = e.children@.update(i, x);
    lemma_all_wf(e.children@);
    lemma_all_wf(t);
    assert forall|j: int| 0 <= j < e.children@.len() implies #[trigger] wf_entry(t[j]) by {
        if j != i {
            assert(wf_entry(e.children@[j]));
        }
    }
    lemma_index_unique(t, x.name@, i);
}

proof fn lemma_children_push(e: Entry, x: Entry)
    requires
        wf_entry(e),
        wf_entry(x),
        index_of(e.children@, x.name@) < 0,
    ensures
        unique_names(e.children@.push(x)),
        all_wf(e.children@.push(x)),
        index_of(e.children@.push(x), x.name@) == e.children@.len(),
{
    let t = e.children@.push(x);
    lemma_all_wf(e.children@);
    lemma_all_wf(t);
    lemma_index_of(e.children@, x.name@);
    assert forall|j: int| 0 <= j < t.len() implies #[trigger] wf_entry(t[j]) by {
        if j < e.children@.len() {
            assert(wf_entry(e.children@[j]));
        }
    }
    lemma_index_unique(t, x.name@, e.children@.len() as int);
}

proof fn lemma_child_bounds(e: Entry, i: int)
    requires
        wf_entry(e),
        e.file_type == FileType::Folder,
        0 <= i < e.children@.len(),
    ensures
        e.children@[i].size <= e.size,
        e.children@[i].num_descendants + 1 <= e.num_descendants,
        wf_entry(e.children@[i]),
{
    lemma_all_wf(e.children@);
    lemma_sum_remove(e.children@, i);
    lemma_sum_nonneg(e.children@.remove(i));
}

/// Writes an entry at `suffix(path, k)` below the folder `e`, creating missing folders.
fn insert_at(e: &mut Entry, path: &Vec<String>, k: usize, size: u64, file_type: FileType)
    requires
        wf_entry(*old(e)),
        old(e).file_type == FileType::Folder,
        k < path.len(),
        !blocked(*old(e), suffix(path@, k as int)),
        old(e).size + size <= u64::MAX,
        old(e).num_descendants + path.len() - k <= u64::MAX,
    ensures
        wf_entry(*final(e)),
        final(e).file_type == FileType::Folder,
        final(e).name == old(e).name,
        inserted(*old(e), *final(e), suffix(path@, k as int), size, file_type),
        unchanged_beside(*old(e), *final(e), suffix(path@, k as int)),
        final(e).size <= old(e).size + size,
        final(e).num_descendants <= old(e).num_descendants + path.len() - k,
    decreases path.len() - k,
{
    let ghost p = suffix(path@, k as int);
    let ghost e0 = *e;
    proof {
        lemma_suffix(path@, k as int);
        lemma_missing_le(e0, p);
        lemma_index_of(e0.children@, p[0]);
    }
    let idx = find_child(&e.children, &path[k]);
    if k + 1 == path.len() {
        assert(p.drop_first().len() == 0);
        match idx {
            Some(i) => {
                proof {
                    lemma_child_bounds(e0, i as int);
                }
                match (file_type, e.children[i].file_type) {
                    (FileType::Folder, FileType::Folder) => {
                        assert(lookup(e0, p) == Some(e0.children@[i as int]));
                        return ;
                    },
                    _ => {},
                }
                let old_child = e.children.remove(i);
                let leaf = new_leaf(path[k].clone(), size, file_type);
                e.size = e.size - old_child.size + leaf.size;
                e.num_descendants = e.num_descendants - old_child.num_descendants;
                e.children.insert(i, leaf);
                proof {
                    assert(e.children@ =~= e0.children@.update(i as int, leaf));
                    lemma_sum_update(e0.children@, i as int, leaf);
                    lemma_children_update(e0, i as int, leaf);
                    assert(leaf.name@ == p[0]);
                    assert(e.children@[i as int] == leaf);
                    assert(index_of(e.children@, p[0]) == i);
                    assert(lookup(*e, p) == lookup(leaf, p.drop_first()));
                    assert(lookup(*e, p) == Some(leaf));
                    assert(old_child == e0.children@[i as int]);
                    assert(index_of(e0.children@, p[0]) == i);
                    assert(lookup(e0, p) == lookup(old_child, p.drop_first()));
                    assert(lookup(e0, p) == Some(old_child));
                    assert(!(file_type == FileType::Folder && old_child.file_type == FileType::Folder));
                    assert(inserted(e0, *e, p, size, file_type));
                    lemma_frame_update(e0, i as int, leaf, *e, p);
                }
            },
            None => {
                let leaf = new_leaf(path[k].clone(), size, file_type);
                e.size = e.size + leaf.size;
                e.num_descendants = e.num_descendants + 1;
                e.children.push(leaf);
                proof {
                    lemma_sum_push(e0.children@, leaf);
                    lemma_children_push(e0, leaf);
                    assert(leaf.name@ == p[0]);
                    assert(lookup(*e, p) == lookup(leaf, p.drop_first()));
                    assert(lookup(*e, p) == Some(leaf));
                    assert(inserted(e0, *e, p, size, file_type));
                    lemma_frame_push(e0, leaf, *e, p);
                }
            },
        }
    } else {
        match idx {
            Some(i) => {
                proof {
                    lemma_child_bounds(e0, i as int);
                }
                let mut child = e.children.remove(i);
                let ghost c0 = child;
                let old_size = child.size;
                let old_descendants = child.num_descendants;
                insert_at(&mut child, path, k + 1, size, file_type);
                e.size = e.size - old_size;
                e.size = e.size + child.size;
                e.num_descendants = e.num_descendants - old_descendants;
                e.num_descendants = e.num_descendants + child.num_descendants;
                e.children.insert(i, child);
                proof {
                    assert(e.children@ =~= e0.children@.update(i as int, child));
                    lemma_sum_update(e0.children@, i as int, child);
                    lemma_children_update(e0, i as int, child);
                    assert(child.name@ == p[0]);
                    assert(e.children@[i as int] == child);
                    assert(lookup(*e, p) == lookup(child, p.drop_first()));
                    assert(lookup(e0, p) == lookup(c0, p.drop_first()));
                    assert(missing(e0, p) == missing(c0, p.drop_first()));
                    assert(inserted(e0, *e, p, size, file_type));
                    lemma_frame_update(e0, i as int, child, *e, p);
                }
            },
            None => {
                let mut child = new_leaf(path[k].clone(), 0, FileType::Folder);
                let ghost c0 = child;
                proof {
                    assert(lookup(c0, p.drop_first()) is None);
                    assert(missing(c0, p.drop_first()) == p.drop_first().len());
                }
                insert_at(&mut child, path, k + 1, size, file_type);
                e.size = e.size + child.size;
                e.num_descendants = e.num_descendants + 1 + child.num_descendants;
                e.children.push(child);
                proof {
                    lemma_sum_push(e0.children@, child);
                    lemma_children_push(e0, child);
                    assert(child.name@ == p[0]);
                    assert(lookup(*e, p) == lookup(child, p.drop_first()));
                    assert(lookup(e0, p) is None);
                    assert(missing(e0, p) == p.len());
                    assert(inserted(e0, *e, p, size, file_type));
                    assert forall|q: Seq<Seq<char>>| #[trigger] diverge(p.drop_first(), q) implies lookup(
                        child,
                        q,
                    ) is None by {
                        assert(lookup(child, q) == lookup(c0, q));
                    }
                    lemma_frame_push(e0, child, *e, p);
                }
            },
        }
    }
}

proof fn lemma_remove_unique(e: Entry, i: int)
    requires
        wf_entry(e),
        0 <= i < e.children@.len(),
    ensures
        unique_names(e.children@.remove(i)),
        all_wf(e.children@.remove(i)),
        index_of(e.children@.remove(i), e.children@[i].name@) < 0,
{
    let t = e.children@.remove(i);
    let n = e.children@[i].name@;
    lemma_all_wf(e.children@);
    lemma_all_wf(t);
    assert forall|j: int| 0 <= j < t.len() implies #[trigger] wf_entry(t[j]) by {
        if j < i {
            assert(wf_entry(e.children@[j]));
        } else {
            assert(wf_entry(e.children@[j + 1]));
        }
    }
    lemma_index_of(t, n);
    if index_of(t, n) >= 0 {
        let j = index_of(t, n);
        if j < i {
            assert(e.children@[j].name@ == n);
        } else {
            assert(e.children@[j + 1].name@ == n);
        }
    }
}

proof fn lemma_file_no_lookup(e: Entry, p: Seq<Seq<char>>)
    requires
        wf_entry(e),
        p.len() > 0,
        lookup(e, p) is Some,
    ensures
        e.file_type == FileType::Folder,
{
    lemma_index_of(e.children@, p[0]);
}

/// Removes the entry at `suffix(path, k)` below the folder `e` and returns it.
fn delete_at(e: &mut Entry, path: &Vec<String>, k: usize) -> (removed: Entry)
    requires
        wf_entry(*old(e)),
        old(e).file_type == FileType::Folder,
        k < path.len(),
        lookup(*old(e), suffix(path@, k as int)) is Some,
    ensures
        wf_entry(*final(e)),
        final(e).file_type == FileType::Folder,
        final(e).name == old(e).name,
        lookup(*old(e), suffix(path@, k as int)) == Some(removed),
        lookup(*final(e), suffix(path@, k as int)) is None,
        unchanged_beside(*old(e), *final(e), suffix(path@, k as int)),
        final(e).size == old(e).size - removed.size,
        final(e).num_descendants == old(e).num_descendants - 1 - removed.num_descendants,
    decreases path.len() - k,
{
    let ghost p = suffix(path@, k as int);
    let ghost e0 = *e;
    proof {
        lemma_suffix(path@, k as int);
        lemma_index_of(e0.children@, p[0]);
    }
    let idx = find_child(&e.children, &path[k]);
    let i = match idx {
        Some(i) => i,
        None => {
            proof {
                assert(false);
            }
            0
        },
    };
    proof {
        lemma_child_bounds(e0, i as int);
        lemma_sum_remove(e0.children@, i as int);
    }
    if k + 1 == path.len() {
        let removed = e.children.remove(i);
        e.size = e.size - removed.size;
        e.num_descendants = e.num_descendants - 1 - removed.num_descendants;
        proof {
            lemma_remove_unique(e0, i as int);
            assert(lookup(e0, p) == lookup(removed, p.drop_first()));
            lemma_frame_remove(e0, i as int, *e, p);
        }
        removed
    } else {
        let mut child = e.children.remove(i);
        let ghost c0 = child;
        proof {
            assert(lookup(e0, p) == lookup(c0, p.drop_first()));
            lemma_file_no_lookup(c0, p.drop_first());
        }
        let removed = delete_at(&mut child, path, k + 1);
        e.size = e.size - removed.size;
        e.num_descendants = e.num_descendants - 1 - removed.num_descendants;
        e.children.insert(i, child);
        proof {
            assert(e.children@ =~= e0.children@.update(i as int, child));
            lemma_sum_update(e0.children@, i as int, child);
            lemma_children_update(e0, i as int, child);
            assert(child.name@ == p[0]);
            assert(lookup(*e, p) == lookup(child, p.drop_first()));
            lemma_frame_update(e0, i as int, child, *e, p);
        }
        removed
    }
}

/// Number of leading segments of `suffix(path, k)` that lead from `e` through folders.
fn folder_depth(e: &Entry, path: &Vec<String>, k: usize) -> (r: usize)
    requires
        k <= path.len(),
    ensures
        r == valid_depth(*e, suffix(path@, k as int)),
        r <= path.len() - k,
    decreases path.len() - k,
{
    if k == path.len() {
        return 0;
    }
    proof {
        lemma_suffix(path@, k as int);
    }
    match find_child(&e.children, &path[k]) {
        None => 0,
        Some(i) => {
            let c = &e.children[i];
            match c.file_type {
                FileType::File => 0,
                FileType::Folder => 1 + folder_depth(c, path, k + 1),
            }
        },
    }
}

/// The folder reached from `e` by `suffix(path, k)`.
fn folder_at<'a>(e: &'a Entry, path: &Vec<String>, k: usize) -> (r: &'a Entry)
    requires
        k <= path.len(),
        e.file_type == FileType::Folder,
        valid_depth(*e, suffix(path@, k as int)) == path.len() - k,
    ensures
        lookup(*e, suffix(path@, k as int)) == Some(*r),
        r.file_type == FileType::Folder,
    decreases path.len() - k,
{
    if k == path.len() {
        return e;
    }
    proof {
        lemma_suffix(path@, k as int);
    }
    match find_child(&e.children, &path[k]) {
        None => e,
        Some(i) => folder_at(&e.children[i], path, k + 1),
    }
}

proof fn lemma_depth_take(e: Entry, p: Seq<Seq<char>>, j: int)
    requires
        0 <= j <= valid_depth(e, p),
    ensures
        valid_depth(e, p.take(j)) == j,
    decreases p.len(),
{
    lemma_depth_le(e, p);
    if j > 0 {
        let i = index_of(e.children@, p[0]);
        assert(p.take(j)[0] == p[0]);
        assert(p.take(j).drop_first() =~= p.drop_first().take(j - 1));
        lemma_depth_take(e.children@[i], p.drop_first(), j - 1);
    }
}

proof fn lemma_depth_le(e: Entry, p: Seq<Seq<char>>)
    ensures
        0 <= valid_depth(e, p) <= p.len(),
    decreases p.len(),
{
    if p.len() > 0 {
        let i = index_of(e.children@, p[0]);
        if i >= 0 {
            lemma_depth_le(e.children@[i], p.drop_first());
        }
    }
}

proof fn lemma_depth_push(e: Entry, p: Seq<Seq<char>>, f: Entry, n: Seq<char>)
    requires
        valid_depth(e, p) == p.len(),
        lookup(e, p) == Some(f),
        index_of(f.children@, n) >= 0,
        f.children@[index_of(f.children@, n)].file_type == FileType::Folder,
    ensures
        valid_depth(e, p.push(n)) == p.len() + 1,
        lookup(e, p.push(n)) == Some(f.children@[index_of(f.children@, n)]),
    decreases p.len(),
{
    lemma_index_of(f.children@, n);
    lemma_depth_le(e, p);
    let q = p.push(n);
    if p.len() == 0 {
        assert(f == e);
        assert(q[0] == n);
        assert(q.drop_first().len() == 0);
        let i = index_of(e.children@, n);
        assert(valid_depth(e.children@[i], q.drop_first()) == 0);
        assert(lookup(e.children@[i], q.drop_first()) == Some(e.children@[i]));
    } else {
        let i = index_of(e.children@, p[0]);
        lemma_index_of(e.children@, p[0]);
        assert(q[0] == p[0]);
        assert(q.drop_first() =~= p.drop_first().push(n));
        assert(lookup(e, p) == lookup(e.children@[i], p.drop_first()));
        lemma_depth_push(e.children@[i], p.drop_first(), f, n);
        assert(lookup(e, q) == lookup(e.children@[i], q.drop_first()));
    }
}

proof fn lemma_full_depth_lookup(e: Entry, p: Seq<Seq<char>>)
    requires
        e.file_type == FileType::Folder,
        valid_depth(e, p) == p.len(),
    ensures
        lookup(e, p) is Some,
        lookup(e, p)->0.file_type == FileType::Folder,
    decreases p.len(),
{
    if p.len() > 0 {
        let i = index_of(e.children@, p[0]);
        lemma_full_depth_lookup(e.children@[i], p.drop_first());
    }
}

proof fn lemma_names(path: Seq<String>)
    ensures
        suffix(path, 0) == names(path),
        names(path).len() == path.len(),
{
    assert(path.subrange(0, path.len() as int) =~= path);
}

/// Totals of one folder, as shown for the scan root and for the current folder.
#[derive(Clone, Debug, PartialEq, Eq)]
pub struct FolderInfo {
    pub path: String,
    pub size: u128,
    pub num_descendants: u64,
}

/// What is known of one child of the current folder.
#[derive(Clone, Debug, PartialEq, Eq)]
pub struct ChildInfo {
    pub name: String,
    pub size: u64,
    pub file_type: FileType,
    pub num_descendants: u64,
}

/// `files` describes the children of `f`, one for one and in order.
pub open spec fn lists_children(files: Seq<ChildInfo>, f: Entry) -> bool {
    &&& files.len() == f.children@.len()
    &&& forall|j: int|
        0 <= j < files.len() ==> {
            let c = #[trigger] f.children@[j];
            &&& files[j].name == c.name
            &&& files[j].size == c.size
            &&& files[j].file_type == c.file_type
            &&& files[j].num_descendants == c.num_descendants
        }
}

/// The scanned tree, the folder being viewed, and the scan's counters.
pub struct FileTree {
    pub base_folder: Entry,
    pub current_path: Vec<String>,
    pub path_in_filesystem: String,
    pub failed_to_read: u64,
    pub space_freed: u128,
}

impl FileTree {
    /// The root is a well-formed folder and the current path leads through folders.
    pub open spec fn wf(&self) -> bool {
        &&& wf_entry(self.base_folder)
        &&& self.base_folder.file_type == FileType::Folder
        &&& valid_depth(self.base_folder, names(self.current_path@)) == self.current_path@.len()
    }

    /// The folder being viewed.
    pub open spec fn current_folder_spec(&self) -> Entry {
        lookup(self.base_folder, names(self.current_path@))->0
    }

    /// `self` is `old` with the current path cut back to the folders that still exist.
    pub open spec fn settled_from(&self, old: &FileTree) -> bool {
        &&& self.current_path@ == old.current_path@.take(
            valid_depth(self.base_folder, names(old.current_path@)),
        )
        &&& self.path_in_filesystem == old.path_in_filesystem
        &&& self.failed_to_read == old.failed_to_read
    }

    /// An empty tree for the folder at `path_in_filesystem`.
    pub fn new(path_in_filesystem: String) -> (r: FileTree)
        ensures
            r.wf(),
            r.total_size_spec() == 0,
            r.base_folder.num_descendants == 0,
            r.base_folder.children@.len() == 0,
            r.current_path@.len() == 0,
            r.path_in_filesystem == path_in_filesystem,
            r.failed_to_read == 0,
            r.space_freed == 0,
    {
        let base_folder = new_leaf(String::new(), 0, FileType::Folder);
        let r = FileTree {
            base_folder,
            current_path: Vec::new(),
            path_in_filesystem,
            failed_to_read: 0,
            space_freed: 0,
        };
        assert(names(r.current_path@).len() == 0);
        r
    }

    pub open spec fn total_size_spec(&self) -> int {
        self.base_folder.size as int
    }

    /// Total size of everything scanned.
    pub fn get_total_size(&self) -> (r: u64)
        ensures
            r == self.base_folder.size,
    {
        self.base_folder.size
    }

    /// Number of entries scanned, the root excluded.
    pub fn get_total_descendants(&self) -> (r: u64)
        ensures
            r == self.base_folder.num_descendants,
    {
        self.base_folder.num_descendants
    }

    /// Counts one entry that could not be read, saturating at the counter's maximum.
    pub fn increment_failed_to_read(&mut self)
        ensures
            final(self).failed_to_read == (if old(self).failed_to_read == u64::MAX {
                u64::MAX
            } else {
                (old(self).failed_to_read + 1) as u64
            }),
            final(self).base_folder == old(self).base_folder,
            final(self).current_path == old(self).current_path,
            final(self).space_freed == old(self).space_freed,
            final(self).path_in_filesystem == old(self).path_in_filesystem,
    {
        if self.failed_to_read < u64::MAX {
            self.failed_to_read = self.failed_to_read + 1;
        }
    }

    /// Cuts the current path back to the longest prefix that leads through folders.
    fn settle_current_path(&mut self)
        requires
            wf_entry(old(self).base_folder),
            old(self).base_folder.file_type == FileType::Folder,
        ensures
            final(self).wf(),
            final(self).settled_from(&*old(self)),
            final(self).base_folder == old(self).base_folder,
            final(self).space_freed == old(self).space_freed,
    {
        proof {
            lemma_names(self.current_path@);
        }
        let depth = folder_depth(&self.base_folder, &self.current_path, 0);
        let ghost p = names(self.current_path@);
        self.current_path.truncate(depth);
        proof {
            assert(names(self.current_path@) =~= p.take(depth as int));
            lemma_depth_take(self.base_folder, p, depth as int);
            assert(self.current_path@ =~= old(self).current_path@.take(depth as int));
        }
    }

    /// Records the entry at `path` (relative to the root) with kind `file_type` and, for a
    /// file, `size`. Missing folders on the way are created; a folder already there and
    /// written again as a folder is kept with its contents; anything else already there is
    /// replaced. The empty path names the root and changes nothing.
    pub fn add_entry(&mut self, path: &Vec<String>, size: u64, file_type: FileType) -> (r: Result<
        (),
        TreeError,
    >)
        requires
            old(self).wf(),
            old(self).base_folder.size + size <= u64::MAX,
            old(self).base_folder.num_descendants + path.len() <= u64::MAX,
        ensures
            final(self).wf(),
            r is Err <==> blocked(old(self).base_folder, names(path@)),
            r is Err ==> r == Err::<(), TreeError>(TreeError::NotAFolder) && *final(self) == *old(
                self,
            ),
            r is Ok && path.len() == 0 ==> *final(self) == *old(self),
            r is Ok && path.len() > 0 ==> inserted(
                old(self).base_folder,
                final(self).base_folder,
                names(path@),
                size,
                file_type,
            ),
            r is Ok ==> final(self).settled_from(&*old(self)),
            r is Ok ==> unchanged_beside(old(self).base_folder, final(self).base_folder, names(path@)),
            final(self).space_freed == old(self).space_freed,
    {
        proof {
            lemma_names(path@);
            lemma_names(self.current_path@);
            lemma_depth_take(self.base_folder, names(self.current_path@), self.current_path@.len() as int);
            assert(self.current_path@.take(self.current_path@.len() as int) =~= self.current_path@);
        }
        if path.len() == 0 {
            return Ok(());
        }
        if is_blocked(&self.base_folder, path, 0) {
            return Err(TreeError::NotAFolder);
        }
        insert_at(&mut self.base_folder, path, 0, size, file_type);
        self.settle_current_path();
        Ok(())
    }

    /// Records one report of the scan: the entry at `path` with `size` and `file_type`.
    /// A report that cannot be recorded, because a file stands on its path or because the
    /// totals would no longer fit their counters, is counted in `failed_to_read` instead.
    /// Returns whether the entry was recorded.
    pub fn record_scanned(&mut self, path: &Vec<String>, size: u64, file_type: FileType) -> (r: bool)
        requires
            old(self).wf(),
        ensures
            final(self).wf(),
            final(self).space_freed == old(self).space_freed,
            r ==> final(self).failed_to_read == old(self).failed_to_read,
            r && path.len() > 0 ==> inserted(
                old(self).base_folder,
                final(self).base_folder,
                names(path@),
                size,
                file_type,
            ),
            r ==> unchanged_beside(old(self).base_folder, final(self).base_folder, names(path@)),
            r && path@.len() == 0 ==> final(self).base_folder == old(self).base_folder
                && final(self).current_path == old(self).current_path,
            r <==> (old(self).base_folder.size + size <= u64::MAX
                && old(self).base_folder.num_descendants + path.len() <= u64::MAX
                && !blocked(old(self).base_folder, names(path@))),
            !r ==> final(self).base_folder == old(self).base_folder
                && final(self).current_path == old(self).current_path
                && final(self).failed_to_read == (if old(self).failed_to_read == u64::MAX {
                u64::MAX
            } else {
                (old(self).failed_to_read + 1) as u64
            }),
    {
        let fits = size <= u64::MAX - self.base_folder.size && path.len() as u64 <= u64::MAX
            - self.base_folder.num_descendants;
        if !fits {
            self.increment_failed_to_read();
            return false;
        }
        match self.add_entry(path, size, file_type) {
            Ok(()) => true,
            Err(_) => {
                self.increment_failed_to_read();
                false
            },
        }
    }

    /// Removes the entry at `path` (relative to the root) with everything beneath it,
    /// takes its size and count off every folder above it, and adds its size to
    /// `space_freed`. Returns the size removed. The root itself cannot be removed.
    pub fn delete_entry(&mut self, path: &Vec<String>) -> (r: Result<u64, TreeError>)
        requires
            old(self).wf(),
            old(self).space_freed + old(self).base_folder.size <= u128::MAX,
        ensures
            final(self).wf(),
            r is Err <==> (path.len() == 0 || lookup(old(self).base_folder, names(path@)) is None),
            r is Err ==> r == Err::<u64, TreeError>(TreeError::NotFound) && *final(self) == *old(
                self,
            ),
            r is Ok ==> ({
                let x = lookup(old(self).base_folder, names(path@))->0;
                &&& r == Ok::<u64, TreeError>(x.size)
                &&& lookup(final(self).base_folder, names(path@)) is None
                &&& unchanged_beside(old(self).base_folder, final(self).base_folder, names(path@))
                &&& final(self).base_folder.size == old(self).base_folder.size - x.size
                &&& final(self).base_folder.num_descendants == old(self).base_folder.num_descendants
                    - 1 - x.num_descendants
                &&& final(self).space_freed == old(self).space_freed + x.size
                &&& final(self).settled_from(&*old(self))
            }),
    {
        proof {
            lemma_names(path@);
        }
        if path.len() == 0 {
            return Err(TreeError::NotFound);
        }
        if !exists_at(&self.base_folder, path, 0) {
            return Err(TreeError::NotFound);
        }
        let removed = delete_at(&mut self.base_folder, path, 0);
        self.space_freed = self.space_freed + removed.size as u128;
        self.settle_current_path();
        Ok(removed.size)
    }

    /// Moves into the child folder `name` of the current folder.
    pub fn enter_folder(&mut self, name: &String) -> (r: Result<(), TreeError>)
        requires
            old(self).wf(),
        ensures
            final(self).wf(),
            ({
                let f = old(self).current_folder_spec();
                let i = index_of(f.children@, name@);
                &&& i < 0 ==> r == Err::<(), TreeError>(TreeError::NotFound)
                &&& i >= 0 && f.children@[i].file_type == FileType::File ==> r == Err::<
                    (),
                    TreeError,
                >(TreeError::NotAFolder)
                &&& i >= 0 && f.children@[i].file_type == FileType::Folder ==> r is Ok
            }),
            r is Err ==> *final(self) == *old(self),
            r is Ok ==> final(self).current_path@ == old(self).current_path@.push(*name),
            final(self).base_folder == old(self).base_folder,
            final(self).path_in_filesystem == old(self).path_in_filesystem,
            final(self).failed_to_read == old(self).failed_to_read,
            final(self).space_freed == old(self).space_freed,
    {
        proof {
            lemma_names(self.current_path@);
            lemma_full_depth_lookup(self.base_folder, names(self.current_path@));
        }
        let f = folder_at(&self.base_folder, &self.current_path, 0);
        match find_child(&f.children, name) {
            None => Err(TreeError::NotFound),
            Some(i) => {
                match f.children[i].file_type {
                    FileType::File => Err(TreeError::NotAFolder),
                    FileType::Folder => {
                        let ghost p = names(self.current_path@);
                        proof {
                            lemma_depth_push(self.base_folder, p, *f, name@);
                        }
                        self.current_path.push(name.clone());
                        proof {
                            assert(names(self.current_path@) =~= p.push(name@));
                        }
                        Ok(())
                    },
                }
            },
        }
    }

    /// Moves to the parent of the current folder; at the root nothing changes.
    pub fn leave_folder(&mut self)
        requires
            old(self).wf(),
        ensures
            final(self).wf(),
            final(self).current_path@ == (if old(self).current_path@.len() == 0 {
                old(self).current_path@
            } else {
                old(self).current_path@.drop_last()
            }),
            final(self).base_folder == old(self).base_folder,
            final(self).path_in_filesystem == old(self).path_in_filesystem,
            final(self).failed_to_read == old(self).failed_to_read,
            final(self).space_freed == old(self).space_freed,
    {
        if self.current_path.len() > 0 {
            let ghost p = names(self.current_path@);
            let n = self.current_path.len() - 1;
            self.current_path.truncate(n);
            proof {
                lemma_depth_take(self.base_folder, p, n as int);
                assert(names(self.current_path@) =~= p.take(n as int));
                assert(self.current_path@ =~= old(self).current_path@.drop_last());
            }
        }
    }

    /// The children of the current folder, in the order the folder holds them.
    pub fn current_children(&self) -> (r: Vec<ChildInfo>)
        requires
            self.wf(),
        ensures
            lists_children(r@, self.current_folder_spec()),
    {
        proof {
            lemma_names(self.current_path@);
            lemma_full_depth_lookup(self.base_folder, names(self.current_path@));
        }
        let f = folder_at(&self.base_folder, &self.current_path, 0);
        let mut r: Vec<ChildInfo> = Vec::new();
        let mut j: usize = 0;
        while j < f.children.len()
            invariant
                j <= f.children@.len(),
                *f == self.current_folder_spec(),
                r@.len() == j,
                forall|q: int|
                    0 <= q < j ==> {
                        let c = #[trigger] f.children@[q];
                        &&& r@[q].name == c.name
                        &&& r@[q].size == c.size
                        &&& r@[q].file_type == c.file_type
                        &&& r@[q].num_descendants == c.num_descendants
                    },
            decreases f.children@.len() - j,
        {
            let c = &f.children[j];
            r.push(
                ChildInfo {
                    name: c.name.clone(),
                    size: c.size,
                    file_type: c.file_type,
                    num_descendants: c.num_descendants,
                },
            );
            j += 1;
        }
        r
    }

    /// Totals of the scan root, for display.
    pub fn base_folder_info(&self) -> (r: FolderInfo)
        ensures
            r.path == self.path_in_filesystem,
            r.size == self.base_folder.size,
            r.num_descendants == self.base_folder.num_descendants,
    {
        FolderInfo {
            path: self.path_in_filesystem.clone(),
            size: self.base_folder.size as u128,
            num_descendants: self.base_folder.num_descendants,
        }
    }

    /// Size and count of the current folder.
    pub fn current_folder_totals(&self) -> (r: (u64, u64))
        requires
            self.wf(),
        ensures
            r.0 == self.current_folder_spec().size,
            r.1 == self.current_folder_spec().num_descendants,
    {
        proof {
            lemma_names(self.current_path@);
            lemma_full_depth_lookup(self.base_folder, names(self.current_path@));
        }
        let f = folder_at(&self.base_folder, &self.current_path, 0);
        (f.size, f.num_descendants)
    }
}

/// Whether `suffix(path, k)` leads from `e` to an existing entry.
fn exists_at(e: &Entry, path: &Vec<String>, k: usize) -> (r: bool)
    requires
        k <= path.len(),
    ensures
        r == lookup(*e, suffix(path@, k as int)) is Some,
    decreases path.len() - k,
{
    if k == path.len() {
        return true;
    }
    proof {
        lemma_suffix(path@, k as int);
    }
    match find_child(&e.children, &path[k]) {
        None => false,
        Some(i) => exists_at(&e.children[i], path, k + 1),
    }
}

proof fn lemma_lookup_wf(e: Entry, p: Seq<Seq<char>>)
    requires
        wf_entry(e),
        lookup(e, p) is Some,
    ensures
        wf_entry(lookup(e, p)->0),
        p.len() > 0 ==> e.file_type == FileType::Folder,
        !blocked(e, p),
    decreases p.len(),
{
    if p.len() > 0 {
        let i = index_of(e.children@, p[0]);
        lemma_index_of(e.children@, p[0]);
        lemma_all_wf(e.children@);
        assert(wf_entry(e.children@[i]));
        lemma_lookup_wf(e.children@[i], p.drop_first());
    }
}

/// After any sequence of insertions and deletions on a tree that started empty, every
/// folder reachable from the root holds as its size the sum of its children's sizes and
/// as its descendant count the number of entries beneath it.
pub proof fn lemma_rollups_consistent(t: FileTree, p: Seq<Seq<char>>)
    requires
        t.wf(),
        lookup(t.base_folder, p) is Some,
        lookup(t.base_folder, p)->0.file_type == FileType::Folder,
    ensures
        lookup(t.base_folder, p)->0.size == sum_sizes(lookup(t.base_folder, p)->0.children@),
        lookup(t.base_folder, p)->0.num_descendants == sum_counts(
            lookup(t.base_folder, p)->0.children@,
        ),
{
    lemma_lookup_wf(t.base_folder, p);
}

/// Writing the same entry twice changes the tree's totals exactly as writing it once: the
/// second write cannot fail, and leaves size and descendant count as they were.
pub proof fn lemma_insert_twice(t0: FileTree, t1: FileTree, t2: FileTree, p: Seq<Seq<char>>, size: u64, ft: FileType)
    requires
        t1.wf(),
        inserted(t0.base_folder, t1.base_folder, p, size, ft),
        inserted(t1.base_folder, t2.base_folder, p, size, ft),
    ensures
        !blocked(t1.base_folder, p),
        t2.base_folder.size == t1.base_folder.size,
        t2.base_folder.num_descendants == t1.base_folder.num_descendants,
{
    lemma_missing_le(t1.base_folder, p);
    lemma_lookup_wf(t1.base_folder, p);
}

} // verus!
