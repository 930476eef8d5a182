use vstd::prelude::*;

use crate::collection::Note;

verus! {

/// The number written by the decimal digits `d`.
pub open spec fn digits_value(d: Seq<char>) -> int
    decreases d.len(),
{
    if d.len() == 0 {
        0
    } else {
        digits_value(d.drop_last()) * 10 + (d.last() as int - '0' as int)
    }
}

pub open spec fn is_digit(c: char) -> bool {
    '0' <= c && c <= '9'
}

/// Field text `f` opens the cloze deletion number `n` at position `i`:
/// `{{c`, then `len` decimal digits worth `n`, then `::`.
pub open spec fn cloze_at(f: Seq<char>, i: int, len: int, n: u32) -> bool {
    &&& 0 <= i
    &&& len >= 1
    &&& i + 3 + len + 2 <= f.len()
    &&& f[i] == '{' && f[i + 1] == '{' && f[i + 2] == 'c'
    &&& forall|q: int| i + 3 <= q < i + 3 + len ==> is_digit(#[trigger] f[q])
    &&& f[i + 3 + len] == ':' && f[i + 3 + len + 1] == ':'
    &&& digits_value(f.subrange(i + 3, i + 3 + len)) == n
}

/// Field text `f` holds a cloze deletion numbered `n`.
pub open spec fn has_cloze(f: Seq<char>, n: u32) -> bool {
    exists|i: int, len: int| cloze_at(f, i, len, n)
}

/// Some field of `note` holds a cloze deletion numbered `n`.
pub open spec fn note_has_cloze(note: Note, n: u32) -> bool {
    exists|j: int| 0 <= j < note.fields@.len() && has_cloze((#[trigger] note.fields@[j])@, n)
}

/// One of the first `j` fields of `note` holds cloze number `n`.
pub open spec fn cloze_upto(note: Note, n: u32, j: int) -> bool {
    exists|q: int| 0 <= q < j && has_cloze((#[trigger] note.fields@[q])@, n)
}

/// Whether `v` holds `x`.
fn contains_u32(v: &Vec<u32>, x: u32) -> (r: bool)
    ensures
        r == v@.contains(x),
{
    let mut i: usize = 0;
    while i < v.len()
        invariant
            i <= v@.len(),
            forall|j: int| 0 <= j < i ==> v@[j] != x,
        decreases v@.len() - i,
    {
        if v[i] == x {
            assert(v@[i as int] == x);
            return true;
        }
        i = i + 1;
    }
    false
}

/// Adds to `set` each cloze number found in `f` that it does not hold yet.
fn add_cloze_numbers_in_string(f: &str, set: &mut Vec<u32>)
    requires
        forall|a: int, b: int| 0 <= a < b < old(set)@.len() ==> old(set)@[a] != old(set)@[b],
    ensures
        forall|a: int, b: int| 0 <= a < b < final(set)@.len() ==> final(set)@[a] != final(set)@[b],
        forall|n: u32| #[trigger] final(set)@.contains(n) <==> old(set)@.contains(n) || has_cloze(f@, n),
{
    let len = f.unicode_len();
    let ghost s0 = set@;
    let mut i: usize = 0;
    while i < len
        invariant
            len == f@.len(),
            i <= len,
            forall|a: int, b: int| 0 <= a < b < set@.len() ==> set@[a] != set@[b],
            forall|n: u32| set@.contains(n) ==> s0.contains(n) || has_cloze(f@, n),
            forall|n: u32| s0.contains(n) ==> set@.contains(n),
            forall|p: int, l: int, n: u32| 0 <= p < i && cloze_at(f@, p, l, n) ==> set@.contains(n),
        decreases len - i,
    {
        if len - i >= 3 && f.get_char(i) == '{' && f.get_char(i + 1) == '{' && f.get_char(i + 2) == 'c' {
            let mut j: usize = i + 3;
            let mut value: u64 = 0;
            let mut big = false;
            while j < len && '0' <= f.get_char(j) && f.get_char(j) <= '9'
                invariant
                    len == f@.len(),
                    i + 3 <= j <= len,
                    forall|q: int| i + 3 <= q < j ==> is_digit(#[trigger] f@[q]),
                    !big ==> value == digits_value(f@.subrange(i + 3, j as int)) && value <= u32::MAX,
                    big ==> digits_value(f@.subrange(i + 3, j as int)) > u32::MAX,
                decreases len - j,
            {
                let c = f.get_char(j);
                let d = (c as u32 - '0' as u32) as u64;
                assert(f@.subrange(i + 3, j + 1).drop_last() =~= f@.subrange(i + 3, j as int));
                if !big {
                    value = value * 10 + d;
                    if value > 4294967295 {
                        big = true;
                    }
                }
                j = j + 1;
            }
            if !big && j > i + 3 && len - j >= 2 && f.get_char(j) == ':' && f.get_char(j + 1) == ':' {
                let n = value as u32;
                assert(cloze_at(f@, i as int, j - i - 3, n));
                if !contains_u32(set, n) {
                    let ghost sb = set@;
                    set.push(n);
                    proof {
                        assert forall|m: u32| sb.contains(m) implies set@.contains(m) by {
                            let w = choose|w: int| 0 <= w < sb.len() && sb[w] == m;
                            assert(set@[w] == m);
                        }
                        assert forall|m: u32| set@.contains(m) implies s0.contains(m) || has_cloze(f@, m) by {
                            let w = choose|w: int| 0 <= w < set@.len() && set@[w] == m;
                            if w < sb.len() {
                                assert(sb[w] == m);
                            }
                        }
                        assert(set@[set@.len() - 1] == n);
                    }
                }
            }
            proof {
                assert forall|p: int, l: int, m: u32| 0 <= p < i + 1 && cloze_at(f@, p, l, m) implies set@.contains(m) by {
                    if p == i {
                        let e = i + 3 + l;
                        assert(!is_digit(f@[e]));
                        if j < e {
                            assert(is_digit(f@[j as int]));
                        }
                        if j > e {
                            assert(is_digit(f@[e]));
                        }
                        assert(j == e);
                    }
                }
            }
        } else {
            proof {
                assert forall|p: int, l: int, m: u32| 0 <= p < i + 1 && cloze_at(f@, p, l, m) implies set@.contains(m) by {
                    if p == i {
                        assert(f@[p] == '{');
                    }
                }
            }
        }
        i = i + 1;
    }
    proof {
        assert forall|n: u32| has_cloze(f@, n) implies set@.contains(n) by {
            let (p, l) = choose|p: int, l: int| cloze_at(f@, p, l, n);
            assert(cloze_at(f@, p, l, n));
        }
    }
}

/// The distinct cloze deletion numbers found in the fields of `note`.
pub fn cloze_numbers_in_note(note: &Note) -> (r: Vec<u32>)
    ensures
        forall|a: int, b: int| 0 <= a < b < r@.len() ==> r@[a] != r@[b],
        forall|n: u32| r@.contains(n) <==> note_has_cloze(*note, n),
{
    let mut set: Vec<u32> = Vec::new();
    let mut j: usize = 0;
    while j < note.fields.len()
        invariant
            j <= note.fields@.len(),
            forall|a: int, b: int| 0 <= a < b < set@.len() ==> set@[a] != set@[b],
            forall|n: u32| #[trigger] set@.contains(n) <==> cloze_upto(*note, n, j as int),
        decreases note.fields@.len() - j,
    {
        let ghost s0 = set@;
        let fj = note.fields[j].as_str();
        assert(fj@ == note.fields@[j as int]@);
        add_cloze_numbers_in_string(fj, &mut set);
        proof {
            assert forall|n: u32| #[trigger] set@.contains(n) implies cloze_upto(*note, n, j + 1) by {
                if !s0.contains(n) {
                    assert(has_cloze(note.fields@[j as int]@, n));
                } else {
                    assert(cloze_upto(*note, n, j as int));
                    let q = choose|q: int| 0 <= q < j && has_cloze((#[trigger] note.fields@[q])@, n);
                    assert(has_cloze(note.fields@[q]@, n));
                }
            }
            assert forall|n: u32| cloze_upto(*note, n, j + 1) implies #[trigger] set@.contains(n) by {
                let q = choose|q: int| 0 <= q < j + 1 && has_cloze((#[trigger] note.fields@[q])@, n);
                if q < j {
                    assert(cloze_upto(*note, n, j as int));
                    assert(s0.contains(n));
                } else {
                    assert(has_cloze(fj@, n));
                }
            }
        }
        j = j + 1;
    }
    set
}

} // verus!
