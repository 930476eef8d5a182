use vstd::prelude::*;

use crate::collection::{texts, Collection, Note};
use crate::ids::{contains_note_id, NoteId};
use crate::media::{files_view, is_named, named, MediaStore};

verus! {

/// `f` holds the opening `[sound:` of a media reference at position `i`.
pub open spec fn sound_prefix_at(f: Seq<char>, i: int) -> bool {
    0 <= i && i + 7 <= f.len() && f.subrange(i, i + 7) == seq!['[', 's', 'o', 'u', 'n', 'd', ':']
}

/// `f` holds the media reference `[sound:n]` at position `i`.
pub open spec fn ref_at(f: Seq<char>, i: int, n: Seq<char>) -> bool {
    &&& sound_prefix_at(f, i)
    &&& n.len() > 0
    &&& i + 7 + n.len() < f.len()
    &&& f.subrange(i + 7, i + 7 + n.len()) == n
    &&& f[i + 7 + n.len()] == ']'
    &&& !n.contains(']')
}

/// Field text `f` refers to the media file `n`.
pub open spec fn refers(f: Seq<char>, n: Seq<char>) -> bool {
    exists|i: int| ref_at(f, i, n)
}

/// Whether `f` holds `[sound:` at position `i`.
fn has_sound_prefix(f: &str, len: usize, i: usize) -> (r: bool)
    requires
        len == f@.len(),
    ensures
        r == sound_prefix_at(f@, i as int),
{
    if i > len || len - i < 7 {
        return false;
    }
    let r = f.get_char(i) == '[' && f.get_char(i + 1) == 's' && f.get_char(i + 2) == 'o'
        && f.get_char(i + 3) == 'u' && f.get_char(i + 4) == 'n' && f.get_char(i + 5) == 'd'
        && f.get_char(i + 6) == ':';
    if r {
        assert(f@.subrange(i as int, i + 7) =~= seq!['[', 's', 'o', 'u', 'n', 'd', ':']);
    } else {
        assert(!sound_prefix_at(f@, i as int)) by {
            if sound_prefix_at(f@, i as int) {
                let s = f@.subrange(i as int, i + 7);
                assert(s[0] == f@[i as int] && s[1] == f@[i + 1] && s[2] == f@[i + 2] && s[3] == f@[i + 3]
                    && s[4] == f@[i + 4] && s[5] == f@[i + 5] && s[6] == f@[i + 6]);
            }
        }
    }
    r
}

/// The media names that field text `f` refers to, in order of appearance.
pub fn field_refs(f: &str) -> (r: Vec<String>)
    ensures
        forall|k: int| 0 <= k < r@.len() ==> refers(f@, (#[trigger] r@[k])@),
        forall|n: Seq<char>| refers(f@, n) ==> exists|k: int| 0 <= k < r@.len() && (#[trigger] r@[k])@ == n,
{
    let len = f.unicode_len();
    let mut out: Vec<String> = Vec::new();
    let mut i: usize = 0;
    while i < len
        invariant
            len == f@.len(),
            i <= len,
            forall|k: int| 0 <= k < out@.len() ==> refers(f@, (#[trigger] out@[k])@),
            forall|p: int, n: Seq<char>| 0 <= p < i && ref_at(f@, p, n) ==> exists|k: int|
                0 <= k < out@.len() && (#[trigger] out@[k])@ == n,
        decreases len - i,
    {
        if has_sound_prefix(f, len, i) {
            let mut j: usize = i + 7;
            while j < len && f.get_char(j) != ']'
                invariant
                    len == f@.len(),
                    i + 7 <= j <= len,
                    forall|q: int| i + 7 <= q < j ==> f@[q] != ']',
                decreases len - j,
            {
                j = j + 1;
            }
            let ghost out0 = out@;
            if j < len && j > i + 7 {
                let name = String::from_str(f.substring_char(i + 7, j));
                let ghost n = name@;
                proof {
                    assert(!n.contains(']')) by {
                        if n.contains(']') {
                            let q = choose|q: int| 0 <= q < n.len() && n[q] == ']';
                            assert(f@[i + 7 + q] == ']');
                        }
                    }
                    assert(ref_at(f@, i as int, n));
                }
                out.push(name);
                assert(out@[out@.len() - 1]@ == n);
            }
            proof {
                assert forall|p: int, n: Seq<char>| 0 <= p < i + 1 && ref_at(f@, p, n) implies exists|k: int|
                    0 <= k < out@.len() && (#[trigger] out@[k])@ == n by {
                    if p < i {
                        let k = choose|k: int| 0 <= k < out0.len() && (#[trigger] out0[k])@ == n;
                        assert(out@[k] == out0[k]);
                    } else {
                        let e = i + 7 + n.len();
                        assert(f@[e] == ']');
                        assert forall|q: int| i + 7 <= q < e implies f@[q] != ']' by {
                            assert(f@.subrange(i + 7, e)[q - i - 7] == f@[q]);
                            assert(n[q - i - 7] == f@[q]);
                            if f@[q] == ']' {
                                assert(n.contains(']'));
                            }
                        }
                        if j < e {
                            assert(f@[j as int] == ']');
                        }
                        assert(j == e);
                        assert(out@[out@.len() - 1]@ =~= n);
                    }
                }
            }
        } else {
            proof {
                assert forall|p: int, n: Seq<char>| 0 <= p < i + 1 && ref_at(f@, p, n) implies exists|k: int|
                    0 <= k < out@.len() && (#[trigger] out@[k])@ == n by {
                    if p == i {
                        assert(sound_prefix_at(f@, i as int));
                    }
                }
            }
        }
        i = i + 1;
    }
    proof {
        assert forall|n: Seq<char>| refers(f@, n) implies exists|k: int| 0 <= k < out@.len() && (#[trigger] out@[k])@ == n by {
            let p = choose|p: int| ref_at(f@, p, n);
            assert(0 <= p < len);
        }
    }
    out
}

/// Some field of `note` refers to `n`.
pub open spec fn note_refers(note: Note, n: Seq<char>) -> bool {
    exists|j: int| 0 <= j < note.fields@.len() && refers((#[trigger] note.fields@[j])@, n)
}

/// Some note of `notes` refers to `n`.
pub open spec fn referenced(notes: Seq<Note>, n: Seq<char>) -> bool {
    exists|i: int| 0 <= i < notes.len() && note_refers(#[trigger] notes[i], n)
}

/// Some active file is called `n`.
pub open spec fn present(fs: Seq<(Seq<char>, Seq<u8>)>, n: Seq<char>) -> bool {
    exists|i: int| 0 <= i < fs.len() && fs[i].0 == n
}

/// `note` refers to a file that is not present.
pub open spec fn note_missing_media(note: Note, fs: Seq<(Seq<char>, Seq<u8>)>) -> bool {
    exists|n: Seq<char>| note_refers(note, n) && !present(fs, n)
}

/// A file that no note refers to.
pub open spec fn unreferenced(notes: Seq<Note>) -> spec_fn((Seq<char>, Seq<u8>)) -> bool {
    |f: (Seq<char>, Seq<u8>)| !referenced(notes, f.0)
}

/// The name of a file.
pub open spec fn file_name() -> spec_fn((Seq<char>, Seq<u8>)) -> Seq<char> {
    |f: (Seq<char>, Seq<u8>)| f.0
}

/// What a media check found.
#[derive(Debug)]
pub struct MediaCheckOutput {
    /// Active files that no note refers to, in store order.
    pub unused: Vec<String>,
    /// Names that notes refer to but no active file has, each once.
    pub missing: Vec<String>,
    /// Notes that refer to a missing name.
    pub missing_media_notes: Vec<NoteId>,
    pub trash_count: usize,
}

/// Appends the strings of `src` to `dst`.
fn append_strings(dst: &mut Vec<String>, src: &Vec<String>)
    ensures
        texts(final(dst)@) == texts(old(dst)@) + texts(src@),
{
    let ghost d0 = texts(dst@);
    let mut k: usize = 0;
    while k < src.len()
        invariant
            k <= src@.len(),
            texts(dst@) == d0 + texts(src@).take(k as int),
        decreases src@.len() - k,
    {
        let ghost before = dst@;
        dst.push(src[k].clone());
        assert(texts(dst@) =~= texts(before).push(src@[k as int]@));
        k = k + 1;
        assert(texts(dst@) =~= d0 + texts(src@).take(k as int));
    }
    assert(texts(src@).take(k as int) =~= texts(src@));
}

/// The names that `note` refers to.
pub fn note_refs(note: &Note) -> (r: Vec<String>)
    ensures
        forall|n: Seq<char>| texts(r@).contains(n) <==> note_refers(*note, n),
{
    let mut out: Vec<String> = Vec::new();
    let mut j: usize = 0;
    while j < note.fields.len()
        invariant
            j <= note.fields@.len(),
            forall|n: Seq<char>| texts(out@).contains(n) <==> exists|q: int| 0 <= q < j && refers(
                (#[trigger] note.fields@[q])@,
                n,
            ),
        decreases note.fields@.len() - j,
    {
        let refs = field_refs(note.fields[j].as_str());
        let ghost o0 = texts(out@);
        append_strings(&mut out, &refs);
        proof {
            assert forall|n: Seq<char>| texts(out@).contains(n) <==> exists|q: int| 0 <= q < j + 1 && refers(
                (#[trigger] note.fields@[q])@,
                n,
            ) by {
                if texts(out@).contains(n) {
                    let w = choose|w: int| 0 <= w < texts(out@).len() && texts(out@)[w] == n;
                    if w >= o0.len() {
                        assert(texts(out@)[w] == texts(refs@)[w - o0.len()]);
                        assert(texts(refs@)[w - o0.len()] == refs@[w - o0.len()]@);
                        assert(refs@[w - o0.len()]@ == n);
                        assert(refers(note.fields@[j as int]@, n));
                    } else {
                        assert(o0.contains(n));
                    }
                }
                if exists|q: int| 0 <= q < j + 1 && refers((#[trigger] note.fields@[q])@, n) {
                    let q = choose|q: int| 0 <= q < j + 1 && refers((#[trigger] note.fields@[q])@, n);
                    if q < j {
                        assert(o0.contains(n));
                        let w = choose|w: int| 0 <= w < o0.len() && o0[w] == n;
                        assert(texts(out@)[w] == n);
                    } else {
                        let k = choose|k: int| 0 <= k < refs@.len() && (#[trigger] refs@[k])@ == n;
                        assert(texts(out@)[o0.len() + k] == n);
                    }
                }
            }
        }
        j = j + 1;
    }
    out
}

/// The names that some note of `notes` refers to.
pub fn all_refs(notes: &Vec<Note>) -> (r: Vec<String>)
    ensures
        forall|n: Seq<char>| texts(r@).contains(n) <==> referenced(notes@, n),
{
    let mut out: Vec<String> = Vec::new();
    let mut i: usize = 0;
    while i < notes.len()
        invariant
            i <= notes@.len(),
            forall|n: Seq<char>| texts(out@).contains(n) <==> exists|q: int| 0 <= q < i && note_refers(
                #[trigger] notes@[q],
                n,
            ),
        decreases notes@.len() - i,
    {
        let refs = note_refs(&notes[i]);
        let ghost o0 = texts(out@);
        append_strings(&mut out, &refs);
        proof {
            assert forall|n: Seq<char>| texts(out@).contains(n) <==> exists|q: int| 0 <= q < i + 1 && note_refers(
                #[trigger] notes@[q],
                n,
            ) by {
                if texts(out@).contains(n) {
                    let w = choose|w: int| 0 <= w < texts(out@).len() && texts(out@)[w] == n;
                    if w >= o0.len() {
                        assert(texts(refs@)[w - o0.len()] == n);
                        assert(texts(refs@).contains(n));
                    } else {
                        assert(o0.contains(n));
                    }
                }
                if exists|q: int| 0 <= q < i + 1 && note_refers(#[trigger] notes@[q], n) {
                    let q = choose|q: int| 0 <= q < i + 1 && note_refers(#[trigger] notes@[q], n);
                    if q < i {
                        assert(o0.contains(n));
                        let w = choose|w: int| 0 <= w < o0.len() && o0[w] == n;
                        assert(texts(out@)[w] == n);
                    } else {
                        assert(texts(refs@).contains(n));
                        let k = choose|k: int| 0 <= k < texts(refs@).len() && texts(refs@)[k] == n;
                        assert(texts(out@)[o0.len() + k] == n);
                    }
                }
            }
        }
        i = i + 1;
    }
    out
}

/// `m` holds exactly the missing names that the first `i` notes refer to.
pub open spec fn missing_upto(notes: Seq<Note>, fs: Seq<(Seq<char>, Seq<u8>)>, m: Seq<Seq<char>>, i: int) -> bool {
    forall|n: Seq<char>| m.contains(n) <==> (exists|q: int| 0 <= q < i && note_refers(#[trigger] notes[q], n))
        && !present(fs, n)
}

/// `ids` holds exactly the ids of the first `i` notes that miss media.
pub open spec fn ids_upto(notes: Seq<Note>, fs: Seq<(Seq<char>, Seq<u8>)>, ids: Seq<NoteId>, i: int) -> bool {
    forall|id: NoteId| ids.contains(id) <==> exists|q: int| 0 <= q < i && (#[trigger] notes[q]).id == id
        && note_missing_media(notes[q], fs)
}

/// Membership after a push.
pub proof fn lemma_push_contains<A>(s: Seq<A>, x: A, n: A)
    ensures
        s.push(x).contains(n) <==> (s.contains(n) || n == x),
{
    if s.contains(n) {
        let i = choose|i: int| 0 <= i < s.len() && s[i] == n;
        assert(s.push(x)[i] == n);
    }
    if n == x {
        assert(s.push(x)[s.len() as int] == n);
    }
    if s.push(x).contains(n) {
        let i = choose|i: int| 0 <= i < s.len() + 1 && s.push(x)[i] == n;
        if i < s.len() {
            assert(s[i] == n);
        }
    }
}

/// `named` is membership among the texts.
pub proof fn lemma_named_texts(v: Seq<String>, n: Seq<char>)
    ensures
        named(v, n) == texts(v).contains(n),
{
    if named(v, n) {
        let i = choose|i: int| 0 <= i < v.len() && v[i]@ == n;
        assert(texts(v)[i] == n);
    }
    if texts(v).contains(n) {
        let i = choose|i: int| 0 <= i < texts(v).len() && texts(v)[i] == n;
        assert(v[i]@ == n);
    }
}

impl MediaStore {
    /// Whether an active file is called `n`.
    pub fn is_present(&self, n: &String) -> (r: bool)
        ensures
            r == present(self.view_files(), n@),
    {
        match self.lookup(n) {
            Some(i) => {
                assert(self.view_files()[i as int].0 == n@);
                true
            },
            None => {
                assert forall|i: int| 0 <= i < self.view_files().len() implies self.view_files()[i].0 != n@ by {
                    assert(self.view_files()[i].0 == self.files@[i].name@);
                }
                false
            },
        }
    }
}

impl Collection {
    /// Compares the names that notes refer to with the active files: which
    /// files are unused, which names are missing, which notes refer to a
    /// missing name, and how many files sit in the trash.
    pub fn check_media(&self) -> (r: MediaCheckOutput)
        ensures
            texts(r.unused@) == self.media.view_files().filter(unreferenced(self.notes@)).map_values(file_name()),
            forall|n: Seq<char>| texts(r.missing@).contains(n) <==> referenced(self.notes@, n) && !present(
                self.media.view_files(),
                n,
            ),
            forall|a: int, b: int| 0 <= a < b < r.missing@.len() ==> (#[trigger] r.missing@[a])@ != (
            #[trigger] r.missing@[b])@,
            forall|id: NoteId| r.missing_media_notes@.contains(id) <==> exists|i: int| 0 <= i < self.notes@.len()
                && (#[trigger] self.notes@[i]).id == id && note_missing_media(self.notes@[i], self.media.view_files()),
            r.trash_count == self.media.trash@.len(),
    {
        let ghost fs = self.media.view_files();
        let ghost notes = self.notes@;
        let all = all_refs(&self.notes);
        let mut unused: Vec<String> = Vec::new();
        let mut i: usize = 0;
        while i < self.media.files.len()
            invariant
                i <= fs.len(),
                fs == self.media.view_files(),
                forall|n: Seq<char>| texts(all@).contains(n) <==> referenced(notes, n),
                texts(unused@) == fs.take(i as int).filter(unreferenced(notes)).map_values(file_name()),
            decreases fs.len() - i,
        {
            proof {
                crate::notes::lemma_filter_take_step(fs, unreferenced(notes), i as int);
                assert(fs[i as int].0 == self.media.files@[i as int].name@);
                assert(unreferenced(notes)(fs[i as int]) == !referenced(notes, fs[i as int].0));
                lemma_named_texts(all@, fs[i as int].0);
            }
            if !is_named(&all, &self.media.files[i].name) {
                let ghost u0 = unused@;
                unused.push(self.media.files[i].name.clone());
                assert(texts(unused@) =~= texts(u0).push(fs[i as int].0));
                assert(fs.take(i + 1).filter(unreferenced(notes)).map_values(file_name()) =~= fs.take(
                    i as int,
                ).filter(unreferenced(notes)).map_values(file_name()).push(fs[i as int].0));
            }
            i = i + 1;
        }
        assert(fs.take(fs.len() as int) =~= fs);
        let mut missing: Vec<String> = Vec::new();
        let mut ids: Vec<NoteId> = Vec::new();
        let mut i: usize = 0;
        while i < self.notes.len()
            invariant
                i <= notes.len(),
                notes == self.notes@,
                fs == self.media.view_files(),
                missing_upto(notes, fs, texts(missing@), i as int),
                forall|a: int, b: int| 0 <= a < b < missing@.len() ==> (#[trigger] missing@[a])@ != (
                #[trigger] missing@[b])@,
                ids_upto(notes, fs, ids@, i as int),
            decreases notes.len() - i,
        {
            let refs = note_refs(&self.notes[i]);
            let ghost m0 = texts(missing@);
            let mut flag = false;
            let mut k: usize = 0;
            while k < refs.len()
                invariant
                    k <= refs@.len(),
                    i < notes.len(),
                    notes == self.notes@,
                    fs == self.media.view_files(),
                    forall|n: Seq<char>| texts(refs@).contains(n) <==> note_refers(notes[i as int], n),
                    forall|n: Seq<char>| texts(missing@).contains(n) <==> (m0.contains(n) || (texts(refs@).take(
                        k as int,
                    ).contains(n) && !present(fs, n))),
                    missing_upto(notes, fs, m0, i as int),
                    forall|a: int, b: int| 0 <= a < b < missing@.len() ==> (#[trigger] missing@[a])@ != (
                    #[trigger] missing@[b])@,
                    flag <==> exists|n: Seq<char>| texts(refs@).take(k as int).contains(n) && !present(fs, n),
                decreases refs@.len() - k,
            {
                let ghost nk = refs@[k as int]@;
                let ghost t_start = texts(missing@);
                assert(texts(refs@).take(k + 1) =~= texts(refs@).take(k as int).push(nk));
                proof {
                    assert forall|n: Seq<char>| texts(refs@).take(k + 1).contains(n) <==> (texts(refs@).take(
                        k as int,
                    ).contains(n) || n == nk) by {
                        lemma_push_contains(texts(refs@).take(k as int), nk, n);
                    }
                }
                if !self.media.is_present(&refs[k]) {
                    flag = true;
                    assert(texts(refs@).take(k + 1).contains(nk)) by {
                        assert(texts(refs@).take(k + 1)[k as int] == nk);
                    }
                    proof {
                        lemma_named_texts(missing@, nk);
                    }
                    if !is_named(&missing, &refs[k]) {
                        let ghost mb = missing@;
                        missing.push(refs[k].clone());
                        assert(texts(missing@) =~= texts(mb).push(nk));
                        assert forall|n: Seq<char>| texts(missing@).contains(n) <==> (t_start.contains(n) || n == nk) by {
                            lemma_push_contains(t_start, nk, n);
                        }
                        assert forall|a: int, b: int| 0 <= a < b < missing@.len() implies (#[trigger] missing@[a])@ != (
                        #[trigger] missing@[b])@ by {
                            if b == mb.len() {
                                assert(texts(mb)[a] == mb[a]@);
                            } else {
                                assert(missing@[a] == mb[a] && missing@[b] == mb[b]);
                            }
                        }
                    }
                }
                k = k + 1;
            }
            assert(texts(refs@).take(refs@.len() as int) =~= texts(refs@));
            proof {
                assert(ids_upto(notes, fs, ids@, i as int));
                assert forall|n: Seq<char>| texts(missing@).contains(n) <==> (exists|q: int| 0 <= q < i + 1 && note_refers(
                    #[trigger] notes[q],
                    n,
                )) && !present(fs, n) by {
                    assert(texts(refs@).take(k as int) == texts(refs@));
                    if texts(missing@).contains(n) {
                        if m0.contains(n) {
                            let q = choose|q: int| 0 <= q < i && note_refers(#[trigger] notes[q], n);
                            assert(0 <= q < i + 1 && note_refers(notes[q], n));
                        } else {
                            assert(texts(refs@).contains(n));
                            assert(note_refers(notes[i as int], n));
                        }
                    }
                    if (exists|q: int| 0 <= q < i + 1 && note_refers(#[trigger] notes[q], n)) && !present(fs, n) {
                        let q = choose|q: int| 0 <= q < i + 1 && note_refers(#[trigger] notes[q], n);
                        if q < i {
                            assert(m0.contains(n));
                        } else {
                            assert(texts(refs@).contains(n));
                        }
                    }
                }
                assert(flag == note_missing_media(notes[i as int], fs));
                assert(missing_upto(notes, fs, texts(missing@), i + 1));
            }
            if flag {
                let ghost ib = ids@;
                ids.push(self.notes[i].id);
                proof {
                    assert forall|id: NoteId| ids@.contains(id) <==> exists|q: int| 0 <= q < i + 1 && (#[trigger] notes[q]).id == id
                        && note_missing_media(notes[q], fs) by {
                        if ids@.contains(id) {
                            let w = choose|w: int| 0 <= w < ids@.len() && ids@[w] == id;
                            if w < ib.len() {
                                assert(ib.contains(id));
                            } else {
                                assert(notes[i as int].id == id);
                            }
                        }
                        if exists|q: int| 0 <= q < i + 1 && (#[trigger] notes[q]).id == id && note_missing_media(notes[q], fs) {
                            let q = choose|q: int| 0 <= q < i + 1 && (#[trigger] notes[q]).id == id && note_missing_media(notes[q], fs);
                            if q < i {
                                assert(ib.contains(id));
                                let w = choose|w: int| 0 <= w < ib.len() && ib[w] == id;
                                assert(ids@[w] == id);
                            } else {
                                assert(ids@[ib.len() as int] == id);
                            }
                        }
                    }
                    assert(ids_upto(notes, fs, ids@, i + 1));
                }
            } else {
                proof {
                    assert forall|id: NoteId| ids@.contains(id) <==> exists|q: int| 0 <= q < i + 1 && (#[trigger] notes[q]).id == id
                        && note_missing_media(notes[q], fs) by {
                        if exists|q: int| 0 <= q < i + 1 && (#[trigger] notes[q]).id == id && note_missing_media(notes[q], fs) {
                            let q = choose|q: int| 0 <= q < i + 1 && (#[trigger] notes[q]).id == id && note_missing_media(notes[q], fs);
                            assert(q < i);
                        }
                    }
                    assert(ids_upto(notes, fs, ids@, i + 1));
                }
            }
            i = i + 1;
        }
        assert(missing_upto(notes, fs, texts(missing@), notes.len() as int));
        assert forall|n: Seq<char>| texts(missing@).contains(n) <==> referenced(notes, n) && !present(fs, n) by {
            assert(missing_upto(notes, fs, texts(missing@), notes.len() as int));
            if referenced(notes, n) {
                let q = choose|q: int| 0 <= q < notes.len() && note_refers(#[trigger] notes[q], n);
                assert(0 <= q < notes.len() && note_refers(notes[q], n));
            }
        }
        assert(ids_upto(notes, fs, ids@, notes.len() as int));
        MediaCheckOutput { unused, missing, missing_media_notes: ids, trash_count: self.media.trash.len() }
    }
}

} // verus!
