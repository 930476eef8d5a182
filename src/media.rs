use vstd::prelude::*;

verus! {

/// A stored media file.
#[derive(Debug)]
pub struct MediaFile {
    pub name: String,
    pub data: Vec<u8>,
}

/// The active media files and the trash area.
#[derive(Debug)]
pub struct MediaStore {
    pub files: Vec<MediaFile>,
    pub trash: Vec<MediaFile>,
}

/// A file seen as its name and its bytes.
pub open spec fn file_view(f: MediaFile) -> (Seq<char>, Seq<u8>) {
    (f.name@, f.data@)
}

/// The files of `fs` as names and bytes, in order.
pub open spec fn files_view(fs: Seq<MediaFile>) -> Seq<(Seq<char>, Seq<u8>)> {
    fs.map_values(|f: MediaFile| file_view(f))
}

/// No two files share a name.
pub open spec fn names_unique(fs: Seq<(Seq<char>, Seq<u8>)>) -> bool {
    forall|i: int, j: int| 0 <= i < j < fs.len() ==> (#[trigger] fs[i]).0 != (#[trigger] fs[j]).0
}

/// The `k`-th name tried for `name`: `name` followed by `k` dashes.
pub open spec fn candidate(name: Seq<char>, k: nat) -> Seq<char> {
    name + Seq::new(k, |i: int| '-')
}

/// `name` can take `data`: no file has it, or the one that has it holds `data`.
pub open spec fn fits(fs: Seq<(Seq<char>, Seq<u8>)>, name: Seq<char>, data: Seq<u8>) -> bool {
    forall|i: int| 0 <= i < fs.len() && (#[trigger] fs[i]).0 == name ==> fs[i].1 == data
}

/// Some file is `name` holding `data`.
pub open spec fn holds(fs: Seq<(Seq<char>, Seq<u8>)>, name: Seq<char>, data: Seq<u8>) -> bool {
    exists|i: int| 0 <= i < fs.len() && fs[i] == (name, data)
}

/// `k` is the first try at which `name` fits `data`.
pub open spec fn first_fit(fs: Seq<(Seq<char>, Seq<u8>)>, name: Seq<char>, data: Seq<u8>, k: nat) -> bool {
    &&& fits(fs, candidate(name, k), data)
    &&& forall|j: nat| j < k ==> !fits(fs, #[trigger] candidate(name, j), data)
}

/// The files after storing `data` under `name`, which fits it.
pub open spec fn stored(fs: Seq<(Seq<char>, Seq<u8>)>, name: Seq<char>, data: Seq<u8>) -> Seq<(Seq<char>, Seq<u8>)> {
    if holds(fs, name, data) {
        fs
    } else {
        fs.push((name, data))
    }
}

/// Storing the same bytes under the same desired name a second time lands
/// on the name of the first time and changes nothing; storing other bytes
/// there cannot reuse that name.
pub proof fn lemma_add_file_twice(fs: Seq<(Seq<char>, Seq<u8>)>, name: Seq<char>, data: Seq<u8>, other: Seq<u8>, k: nat)
    requires
        names_unique(fs),
        first_fit(fs, name, data, k),
        other != data,
    ensures
        ({
            let after = stored(fs, candidate(name, k), data);
            &&& names_unique(after)
            &&& first_fit(after, name, data, k)
            &&& holds(after, candidate(name, k), data)
            &&& stored(after, candidate(name, k), data) == after
            &&& !fits(after, candidate(name, k), other)
        }),
{
    let c = candidate(name, k);
    let after = stored(fs, c, data);
    if !holds(fs, c, data) {
        assert(after[fs.len() as int] == (c, data));
        assert forall|i: int| 0 <= i < fs.len() implies (#[trigger] fs[i]).0 != c by {
            if fs[i].0 == c {
                assert(fs[i] == (c, data));
            }
        }
    } else {
        let w = choose|i: int| 0 <= i < fs.len() && fs[i] == (c, data);
        assert(after[w] == (c, data));
    }
    assert(holds(after, c, data));
    assert forall|j: nat| j < k implies !fits(after, #[trigger] candidate(name, j), data) by {
        assert(!fits(fs, candidate(name, j), data));
        let i = choose|i: int| 0 <= i < fs.len() && (#[trigger] fs[i]).0 == candidate(name, j) && fs[i].1 != data;
        assert(after[i] == fs[i]);
    }
    let w = choose|i: int| 0 <= i < after.len() && after[i] == (c, data);
    assert(after[w].0 == c && after[w].1 != other);
}

impl MediaStore {
    /// Names and bytes of the active files.
    pub open spec fn view_files(&self) -> Seq<(Seq<char>, Seq<u8>)> {
        files_view(self.files@)
    }

    /// Names and bytes of the trashed files.
    pub open spec fn view_trash(&self) -> Seq<(Seq<char>, Seq<u8>)> {
        files_view(self.trash@)
    }

    /// Active file names are unique.
    pub open spec fn wf(&self) -> bool {
        names_unique(self.view_files())
    }

    /// An empty store.
    pub fn new() -> (r: MediaStore)
        ensures
            r.wf(),
            r.files@.len() == 0,
            r.trash@.len() == 0,
    {
        MediaStore { files: Vec::new(), trash: Vec::new() }
    }

    /// Index of the active file called `name`.
    pub fn lookup(&self, name: &String) -> (r: Option<usize>)
        ensures
            match r {
                Some(i) => i < self.files@.len() && self.files@[i as int].name@ == name@,
                None => forall|i: int| 0 <= i < self.files@.len() ==> (#[trigger] self.files@[i]).name@ != name@,
            },
    {
        let mut i: usize = 0;
        while i < self.files.len()
            invariant
                i <= self.files@.len(),
                forall|j: int| 0 <= j < i ==> (#[trigger] self.files@[j]).name@ != name@,
            decreases self.files@.len() - i,
        {
            if self.files[i].name == *name {
                return Some(i);
            }
            i = i + 1;
        }
        None
    }

    /// The length of the longest active name.
    fn longest_name(&self) -> (r: usize)
        ensures
            forall|i: int| 0 <= i < self.files@.len() ==> (#[trigger] self.files@[i]).name@.len() <= r,
    {
        let mut r: usize = 0;
        let mut i: usize = 0;
        while i < self.files.len()
            invariant
                i <= self.files@.len(),
                forall|j: int| 0 <= j < i ==> (#[trigger] self.files@[j]).name@.len() <= r,
            decreases self.files@.len() - i,
        {
            let l = self.files[i].name.as_str().unicode_len();
            if l > r {
                r = l;
            }
            i = i + 1;
        }
        r
    }

    /// Stores `data` under the first of `desired`, `desired-`, `desired--`, …
    /// that no file has taken with other bytes, and returns that name. A name
    /// already holding the same bytes is reused and nothing is written.
    pub fn add_file(&mut self, desired: &str, data: Vec<u8>) -> (r: String)
        requires
            old(self).wf(),
        ensures
            final(self).wf(),
            exists|k: nat| first_fit(old(self).view_files(), desired@, data@, k) && r@ == candidate(desired@, k),
            final(self).view_files() == stored(old(self).view_files(), r@, data@),
            final(self).trash == old(self).trash,
    {
        let longest = self.longest_name();
        let dl = desired.unicode_len();
        let maxlen = if longest > dl { longest } else { dl };
        let mut cand = String::from_str(desired);
        let ghost mut k: nat = 0;
        proof {
            reveal_strlit("-");
            assert(cand@ =~= candidate(desired@, 0));
        }
        loop
            invariant
                self == old(self),
                self.wf(),
                forall|i: int| 0 <= i < self.files@.len() ==> (#[trigger] self.files@[i]).name@.len() <= maxlen,
                cand@ == candidate(desired@, k),
                cand@.len() <= maxlen + 1,
                forall|j: nat| j < k ==> !fits(self.view_files(), #[trigger] candidate(desired@, j), data@),
            decreases maxlen + 1 - cand@.len(),
        {
            let ghost fs = self.view_files();
            match self.lookup(&cand) {
                None => {
                    assert(fits(fs, cand@, data@)) by {
                        assert forall|i: int| 0 <= i < fs.len() && (#[trigger] fs[i]).0 == cand@ implies fs[i].1 == data@ by {
                            assert(fs[i].0 == self.files@[i].name@);
                        }
                    }
                    assert(!holds(fs, cand@, data@)) by {
                        if holds(fs, cand@, data@) {
                            let w = choose|i: int| 0 <= i < fs.len() && fs[i] == (cand@, data@);
                            assert(self.files@[w].name@ == fs[w].0);
                        }
                    }
                    let name = cand.clone();
                    self.files.push(MediaFile { name, data });
                    proof {
                        assert(self.view_files() =~= fs.push((cand@, data@)));
                        assert forall|i: int| 0 <= i < fs.len() implies (#[trigger] fs[i]).0 != cand@ by {
                            assert(fs[i].0 == old(self).files@[i].name@);
                        }
                    }
                    return cand;
                },
                Some(i) => {
                    if same_bytes(&self.files[i].data, &data) {
                        proof {
                            assert(fs[i as int] == (cand@, data@));
                            assert(fits(fs, cand@, data@)) by {
                                assert forall|q: int| 0 <= q < fs.len() && (#[trigger] fs[q]).0 == cand@ implies fs[q].1 == data@ by {
                                    if q != i {
                                        if q < i {
                                            assert(fs[q].0 != fs[i as int].0);
                                        } else {
                                            assert(fs[i as int].0 != fs[q].0);
                                        }
                                    }
                                }
                            }
                        }
                        return cand;
                    }
                    proof {
                        assert(fs[i as int].0 == cand@);
                        assert(!fits(fs, candidate(desired@, k), data@));
                    }
                    cand.append("-");
                    proof {
                        reveal_strlit("-");
                        assert(cand@ =~= candidate(desired@, k + 1));
                        k = k + 1;
                    }
                },
            }
        }
    }
}

/// File `f` is present with its bytes under its name or a dashed variant.
pub open spec fn restored(fs: Seq<(Seq<char>, Seq<u8>)>, f: MediaFile) -> bool {
    exists|k: nat| holds(fs, candidate(f.name@, k), f.data@)
}

/// `f` is a file of `trash` stored under its name or a dashed variant.
pub open spec fn from_trash(f: (Seq<char>, Seq<u8>), trash: Seq<MediaFile>) -> bool {
    exists|q: int, k: nat| 0 <= q < trash.len() && f == (candidate(trash[q].name@, k), trash[q].data@)
}

/// Some string of `names` is `n`.
pub open spec fn named(names: Seq<String>, n: Seq<char>) -> bool {
    exists|i: int| 0 <= i < names.len() && names[i]@ == n
}

/// A file whose name is among `names`.
pub open spec fn file_named(names: Seq<String>) -> spec_fn((Seq<char>, Seq<u8>)) -> bool {
    |f: (Seq<char>, Seq<u8>)| named(names, f.0)
}

/// A file whose name is not among `names`.
pub open spec fn file_not_named(names: Seq<String>) -> spec_fn((Seq<char>, Seq<u8>)) -> bool {
    |f: (Seq<char>, Seq<u8>)| !named(names, f.0)
}

/// Filtering keeps names unique.
pub proof fn lemma_filter_names_unique(fs: Seq<(Seq<char>, Seq<u8>)>, p: spec_fn((Seq<char>, Seq<u8>)) -> bool)
    requires
        names_unique(fs),
    ensures
        names_unique(fs.filter(p)),
    decreases fs.len(),
{
    reveal(Seq::filter);
    if fs.len() > 0 {
        let d = fs.drop_last();
        assert(names_unique(d));
        lemma_filter_names_unique(d, p);
        if p(fs.last()) {
            let f = d.filter(p);
            assert forall|i: int| 0 <= i < f.len() implies (#[trigger] f[i]).0 != fs.last().0 by {
                assert(f.contains(f[i]));
                d.lemma_filter_contains_rev(p, f[i]);
                let j = choose|j: int| 0 <= j < d.len() && d[j] == f[i];
                assert(fs[j] == d[j]);
                assert(fs[j].0 != fs[fs.len() - 1].0);
            }
        }
    }
}

/// Whether some string of `names` equals `n`.
pub fn is_named(names: &Vec<String>, n: &String) -> (r: bool)
    ensures
        r == named(names@, n@),
{
    let mut i: usize = 0;
    while i < names.len()
        invariant
            i <= names@.len(),
            forall|j: int| 0 <= j < i ==> names@[j]@ != n@,
        decreases names@.len() - i,
    {
        if names[i] == *n {
            assert(names@[i as int]@ == n@);
            return true;
        }
        i = i + 1;
    }
    false
}

impl MediaFile {
    /// A copy of this file.
    pub fn copy(&self) -> (r: MediaFile)
        ensures
            file_view(r) == file_view(*self),
    {
        let data = self.data.clone();
        assert(data@ =~= self.data@);
        MediaFile { name: self.name.clone(), data }
    }
}

impl MediaStore {
    /// Moves the active files named in `names` to the trash, keeping the
    /// order of both lists; returns how many moved. Unknown names are ignored.
    pub fn trash_files(&mut self, names: &Vec<String>) -> (r: usize)
        requires
            old(self).wf(),
        ensures
            final(self).wf(),
            final(self).view_files() == old(self).view_files().filter(file_not_named(names@)),
            final(self).view_trash() == old(self).view_trash() + old(self).view_files().filter(
                file_named(names@),
            ),
            r == old(self).view_files().filter(file_named(names@)).len(),
    {
        let ghost fs = self.view_files();
        let mut kept: Vec<MediaFile> = Vec::new();
        let mut moved: Vec<MediaFile> = Vec::new();
        let mut i: usize = 0;
        while i < self.files.len()
            invariant
                self == old(self),
                fs == self.view_files(),
                i <= fs.len(),
                files_view(kept@) == fs.take(i as int).filter(file_not_named(names@)),
                files_view(moved@) == fs.take(i as int).filter(file_named(names@)),
            decreases fs.len() - i,
        {
            proof {
                crate::notes::lemma_filter_take_step(fs, file_not_named(names@), i as int);
                crate::notes::lemma_filter_take_step(fs, file_named(names@), i as int);
                assert(fs[i as int] == file_view(self.files@[i as int]));
                assert(file_named(names@)(fs[i as int]) == named(names@, self.files@[i as int].name@));
                assert(file_not_named(names@)(fs[i as int]) == !named(names@, self.files@[i as int].name@));
            }
            let f = self.files[i].copy();
            let ghost m0 = moved@;
            let ghost k0 = kept@;
            if is_named(names, &self.files[i].name) {
                moved.push(f);
                assert(files_view(moved@) =~= files_view(m0).push(file_view(f)));
            } else {
                kept.push(f);
                assert(files_view(kept@) =~= files_view(k0).push(file_view(f)));
            }
            i = i + 1;
        }
        assert(fs.take(fs.len() as int) =~= fs);
        let count = moved.len();
        proof {
            lemma_filter_names_unique(fs, file_not_named(names@));
        }
        self.files = kept;
        let ghost t0 = self.view_trash();
        let ghost kept_view = self.view_files();
        assert(kept_view == fs.filter(file_not_named(names@)));
        let mut j: usize = 0;
        while j < moved.len()
            invariant
                j <= moved@.len(),
                self.view_files() == kept_view,
                names_unique(kept_view),
                files_view(self.trash@) == t0 + files_view(moved@).take(j as int),
            decreases moved@.len() - j,
        {
            let f = moved[j].copy();
            let ghost tb = self.trash@;
            self.trash.push(f);
            assert(files_view(self.trash@) =~= files_view(tb).push(file_view(f)));
            assert(files_view(moved@).take(j + 1) =~= files_view(moved@).take(j as int).push(file_view(moved@[j as int])));
            j = j + 1;
            assert(files_view(self.trash@) =~= t0 + files_view(moved@).take(j as int));
        }
        assert(files_view(moved@).take(j as int) =~= files_view(moved@));
        count
    }

    /// Deletes every trashed file for good; returns how many there were.
    pub fn empty_trash(&mut self) -> (r: usize)
        requires
            old(self).wf(),
        ensures
            final(self).wf(),
            final(self).trash@.len() == 0,
            final(self).files == old(self).files,
            r == old(self).trash@.len(),
    {
        let n = self.trash.len();
        self.trash = Vec::new();
        n
    }

    /// Moves every trashed file back, each stored as `add_file` stores it:
    /// under its own name, or under a dashed variant where another file now
    /// holds that name with other bytes. Active files are never overwritten.
    pub fn restore_trash(&mut self) -> (r: usize)
        requires
            old(self).wf(),
        ensures
            final(self).wf(),
            final(self).trash@.len() == 0,
            r == old(self).trash@.len(),
            final(self).view_files().len() >= old(self).view_files().len(),
            final(self).view_files().take(old(self).view_files().len() as int) == old(self).view_files(),
            forall|q: int| 0 <= q < old(self).trash@.len() ==> #[trigger] restored(
                final(self).view_files(),
                old(self).trash@[q],
            ),
            final(self).view_files().len() <= old(self).view_files().len() + old(self).trash@.len(),
            forall|i: int| old(self).view_files().len() <= i < final(self).view_files().len() ==> from_trash(
                #[trigger] final(self).view_files()[i],
                old(self).trash@,
            ),
    {
        let mut trash: Vec<MediaFile> = Vec::new();
        std::mem::swap(&mut trash, &mut self.trash);
        let ghost f0 = self.view_files();
        let mut i: usize = 0;
        while i < trash.len()
            invariant
                trash@ == old(self).trash@,
                self.wf(),
                self.trash@.len() == 0,
                i <= trash@.len(),
                self.view_files().len() >= f0.len(),
                self.view_files().take(f0.len() as int) == f0,
                f0 == old(self).view_files(),
                forall|q: int| 0 <= q < i ==> #[trigger] restored(self.view_files(), trash@[q]),
                self.view_files().len() <= f0.len() + i,
                forall|a: int| f0.len() <= a < self.view_files().len() ==> from_trash(
                    #[trigger] self.view_files()[a],
                    trash@,
                ),
            decreases trash@.len() - i,
        {
            let ghost before = self.view_files();
            let data = trash[i].data.clone();
            assert(data@ =~= trash@[i as int].data@);
            let name = self.add_file(trash[i].name.as_str(), data);
            proof {
                let after = self.view_files();
                assert(after.take(before.len() as int) =~= before);
                assert(after.take(f0.len() as int) =~= f0) by {
                    assert forall|a: int| 0 <= a < f0.len() implies after[a] == f0[a] by {
                        assert(after[a] == before[a]);
                        assert(before.take(f0.len() as int)[a] == before[a]);
                    }
                }
                let kk = choose|k: nat| first_fit(before, trash@[i as int].name@, data@, k) && name@ == candidate(trash@[i as int].name@, k);
                assert forall|a: int| f0.len() <= a < after.len() implies from_trash(#[trigger] after[a], trash@) by {
                    if a < before.len() {
                        assert(after[a] == before[a]);
                    } else {
                        assert(after[a] == (name@, data@));
                        assert(after[a] == (candidate(trash@[i as int].name@, kk), trash@[i as int].data@));
                    }
                }
                assert forall|q: int| 0 <= q < i + 1 implies #[trigger] restored(after, trash@[q]) by {
                    if q < i {
                        assert(restored(before, trash@[q]));
                        let k = choose|k: nat| holds(before, candidate(trash@[q].name@, k), trash@[q].data@);
                        let w = choose|w: int| 0 <= w < before.len() && before[w] == (candidate(trash@[q].name@, k), trash@[q].data@);
                        assert(after[w] == before[w]);
                        assert(holds(after, candidate(trash@[q].name@, k), trash@[q].data@));
                    } else {
                        let k = choose|k: nat| first_fit(before, trash@[i as int].name@, data@, k) && name@ == candidate(trash@[i as int].name@, k);
                        if holds(before, name@, data@) {
                            let w = choose|w: int| 0 <= w < before.len() && before[w] == (name@, data@);
                            assert(after[w] == before[w]);
                        } else {
                            assert(after[before.len() as int] == (name@, data@));
                        }
                        assert(holds(after, candidate(trash@[q].name@, k), trash@[q].data@));
                    }
                }
            }
            i = i + 1;
        }
        trash.len()
    }
}

/// Moving files named in `names` to the trash and then restoring the trash
/// brings every moved file back with its bytes, under its name or a dashed
/// variant of it, and keeps every file that was active at the restore.
pub proof fn lemma_trash_round_trip(before: MediaStore, trashed: MediaStore, restored_store: MediaStore, names: Seq<String>)
    requires
        trashed.view_trash() == before.view_trash() + before.view_files().filter(file_named(names)),
        restored_store.view_files().len() >= trashed.view_files().len(),
        restored_store.view_files().take(trashed.view_files().len() as int) == trashed.view_files(),
        forall|q: int| 0 <= q < trashed.trash@.len() ==> #[trigger] restored(
            restored_store.view_files(),
            trashed.trash@[q],
        ),
    ensures
        forall|i: int| 0 <= i < before.view_files().len() && named(names, #[trigger] before.view_files()[i].0)
            ==> exists|k: nat| holds(
            restored_store.view_files(),
            candidate(before.view_files()[i].0, k),
            before.view_files()[i].1,
        ),
        forall|i: int| 0 <= i < trashed.view_files().len() ==> #[trigger] restored_store.view_files()[i]
            == trashed.view_files()[i],
{
    let moved = before.view_files().filter(file_named(names));
    assert forall|i: int| 0 <= i < before.view_files().len() && named(names, #[trigger] before.view_files()[i].0) implies exists|k: nat|
        holds(restored_store.view_files(), candidate(before.view_files()[i].0, k), before.view_files()[i].1) by {
        let f = before.view_files()[i];
        before.view_files().filter_lemma(file_named(names));
        assert(file_named(names)(f));
        assert(moved.contains(f));
        let w = choose|w: int| 0 <= w < moved.len() && moved[w] == f;
        let q = before.view_trash().len() + w;
        assert(trashed.view_trash()[q] == f);
        assert(trashed.view_trash().len() == trashed.trash@.len());
        assert(trashed.view_trash()[q] == file_view(trashed.trash@[q]));
        assert(restored(restored_store.view_files(), trashed.trash@[q]));
    }
    assert forall|i: int| 0 <= i < trashed.view_files().len() implies #[trigger] restored_store.view_files()[i]
        == trashed.view_files()[i] by {
        assert(restored_store.view_files().take(trashed.view_files().len() as int)[i] == restored_store.view_files()[i]);
    }
}

/// Whether two byte strings are equal.
pub fn same_bytes(a: &Vec<u8>, b: &Vec<u8>) -> (r: bool)
    ensures
        r == (a@ == b@),
{
    if a.len() != b.len() {
        return false;
    }
    let mut i: usize = 0;
    while i < a.len()
        invariant
            i <= a@.len(),
            a@.len() == b@.len(),
            forall|j: int| 0 <= j < i ==> a@[j] == b@[j],
        decreases a@.len() - i,
    {
        if a[i] != b[i] {
            return false;
        }
        i = i + 1;
    }
    assert(a@ =~= b@);
    true
}

} // verus!
