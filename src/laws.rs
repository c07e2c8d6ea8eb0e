//! Properties that relate the archive's operations, proved over the spec
//! functions that their contracts use.

use crate::error::WadError;
use crate::name::{normalize, trim_nulls, upper};
use crate::wad::{
    all_matches, dir_offset, entry_count, entry_matches, fault, first_bad_lump, iwad_tag,
    kind_of_tag, last_match, lemma_some_bad_lump, lump_fits, lump_offset, lump_size, pwad_tag,
    tag, valid_archive, Wad,
};
use vstd::prelude::*;

verus! {

/// The header is valid apart from its tag: counts are non-negative and the
/// directory and every lump lie inside the buffer.
pub open spec fn valid_but_tag(b: Seq<u8>) -> bool {
    &&& b.len() >= 12
    &&& entry_count(b) >= 0
    &&& dir_offset(b) >= 0
    &&& dir_offset(b) + 16 * entry_count(b) <= b.len()
    &&& forall|i: int| 0 <= i < entry_count(b) ==> lump_fits(b, i)
}

/// With everything else valid, opening succeeds exactly when the tag is
/// `IWAD` or `PWAD`; any other tag is refused with `InvalidKind` carrying the
/// four bytes found.
pub proof fn lemma_tag_decides(b: Seq<u8>)
    requires
        valid_but_tag(b),
    ensures
        valid_archive(b) <==> (tag(b) == iwad_tag() || tag(b) == pwad_tag()),
        !(tag(b) == iwad_tag() || tag(b) == pwad_tag()) ==> {
            &&& fault(b) matches Some(WadError::InvalidKind(t))
            &&& t@ == tag(b)
        },
{
    if tag(b) == iwad_tag() || tag(b) == pwad_tag() {
        assert(!exists|i: int| first_bad_lump(b, i));
    } else {
        let t: [u8; 4] = [b[0], b[1], b[2], b[3]];
        assert(t@ =~= tag(b));
    }
}

/// A buffer shorter than the header is refused with `MissingHeader`, whatever
/// it holds.
pub proof fn lemma_short_buffer(b: Seq<u8>)
    requires
        b.len() < 12,
    ensures
        fault(b) == Some(WadError::MissingHeader),
{
}

/// With a valid tag and non-negative counts, a directory that ends past the
/// buffer is refused with `DirectoryOutOfBounds`; one that ends exactly at the
/// end of the buffer is accepted when its lumps fit.
pub proof fn lemma_directory_bound(b: Seq<u8>)
    requires
        b.len() >= 12,
        kind_of_tag(tag(b)) is Some,
        entry_count(b) >= 0,
        dir_offset(b) >= 0,
    ensures
        dir_offset(b) + 16 * entry_count(b) > b.len() ==> fault(b) == Some(
            WadError::DirectoryOutOfBounds,
        ),
        dir_offset(b) + 16 * entry_count(b) == b.len() && (forall|i: int|
            0 <= i < entry_count(b) ==> lump_fits(b, i)) ==> valid_archive(b),
{
    if dir_offset(b) + 16 * entry_count(b) == b.len() && (forall|i: int|
        0 <= i < entry_count(b) ==> lump_fits(b, i)) {
        assert(!exists|i: int| first_bad_lump(b, i));
    }
}

/// In an opened archive every lump lies inside the buffer, so the bytes that
/// `read_lump` returns for entry `i` are exactly `size` bytes from `offset`,
/// the fields that `lump_at` gives for it.
pub proof fn lemma_lump_in_buffer(w: &Wad, i: int)
    requires
        w.wf(),
        0 <= i < entry_count(w@),
    ensures
        0 <= lump_offset(w@, i),
        lump_offset(w@, i) + lump_size(w@, i) <= w@.len(),
        w@.subrange(lump_offset(w@, i), lump_offset(w@, i) + lump_size(w@, i)).len() == lump_size(
            w@,
            i,
        ),
{
    if !lump_fits(w@, i) {
        lemma_some_bad_lump(w@, i);
    }
}

proof fn lemma_two_matches(b: Seq<u8>, q: Seq<u8>, i: int, j: int, n: int)
    requires
        0 <= i < j,
        0 <= n,
        entry_matches(b, i, q),
        entry_matches(b, j, q),
        forall|k: int| 0 <= k < n && k != i && k != j ==> !entry_matches(b, k, q),
    ensures
        n <= i ==> last_match(b, q, n) is None && all_matches(b, q, n) == Seq::<int>::empty(),
        i < n <= j ==> last_match(b, q, n) == Some(i) && all_matches(b, q, n) == seq![i],
        j < n ==> last_match(b, q, n) == Some(j) && all_matches(b, q, n) == seq![i, j],
    decreases n,
{
    if n > 0 {
        lemma_two_matches(b, q, i, j, n - 1);
        if n - 1 == i {
            assert(all_matches(b, q, n) =~= seq![i]);
        } else if n - 1 == j {
            assert(all_matches(b, q, n) =~= seq![i, j]);
        }
    }
}

/// Where exactly two entries `i < j` carry the normalized name `q`, the single
/// lookup finds the later one and the full lookup lists both in order.
pub proof fn lemma_last_one_wins(b: Seq<u8>, q: Seq<u8>, i: int, j: int)
    requires
        0 <= i < j < entry_count(b),
        entry_matches(b, i, q),
        entry_matches(b, j, q),
        forall|k: int| 0 <= k < entry_count(b) && k != i && k != j ==> !entry_matches(b, k, q),
    ensures
        last_match(b, q, entry_count(b)) == Some(j),
        all_matches(b, q, entry_count(b)) == seq![i, j],
{
    lemma_two_matches(b, q, i, j, entry_count(b));
}

proof fn lemma_trim_upper(s: Seq<u8>)
    ensures
        trim_nulls(s.map_values(|c: u8| upper(c))) == trim_nulls(s).map_values(|c: u8| upper(c)),
    decreases s.len(),
{
    let u = s.map_values(|c: u8| upper(c));
    if s.len() > 0 {
        assert(u.drop_last() =~= s.drop_last().map_values(|c: u8| upper(c)));
        assert(u.last() == upper(s.last()));
        lemma_trim_upper(s.drop_last());
    }
}

proof fn lemma_trim_padding(s: Seq<u8>, pad: nat)
    ensures
        trim_nulls(s + Seq::new(pad, |k: int| 0u8)) == trim_nulls(s),
    decreases pad,
{
    let p = s + Seq::new(pad, |k: int| 0u8);
    if pad == 0 {
        assert(p =~= s);
    } else {
        assert(p.drop_last() =~= s + Seq::new((pad - 1) as nat, |k: int| 0u8));
        lemma_trim_padding(s, (pad - 1) as nat);
    }
}

/// Names are compared without regard to ASCII letter case and to trailing
/// zero bytes: two names that agree once upper-cased, and a name followed by
/// any number of zero bytes, normalize alike.
pub proof fn lemma_name_equivalence(s: Seq<u8>, t: Seq<u8>, pad: nat)
    ensures
        s.map_values(|c: u8| upper(c)) == t.map_values(|c: u8| upper(c)) ==> normalize(s)
            == normalize(t),
        normalize(s + Seq::new(pad, |k: int| 0u8)) == normalize(s),
{
    lemma_trim_upper(s);
    lemma_trim_upper(t);
    let us = trim_nulls(s).map_values(|c: u8| upper(c));
    let ut = trim_nulls(t).map_values(|c: u8| upper(c));
    assert(us.map_values(|c: u8| upper(c)) =~= us);
    assert(ut.map_values(|c: u8| upper(c)) =~= ut);
    if s.map_values(|c: u8| upper(c)) == t.map_values(|c: u8| upper(c)) {
        assert(trim_nulls(s.map_values(|c: u8| upper(c))) == trim_nulls(
            t.map_values(|c: u8| upper(c)),
        ));
        assert(normalize(s) =~= trim_nulls(s.map_values(|c: u8| upper(c))).map_values(
            |c: u8| upper(c),
        ));
        assert(normalize(t) =~= trim_nulls(t.map_values(|c: u8| upper(c))).map_values(
            |c: u8| upper(c),
        ));
    }
    lemma_trim_padding(s, pad);
}

/// A header with a valid tag, no entries and an offset inside the buffer
/// opens, and no name is found in it.
pub proof fn lemma_empty_directory(b: Seq<u8>, q: Seq<u8>)
    requires
        b.len() >= 12,
        kind_of_tag(tag(b)) is Some,
        entry_count(b) == 0,
        0 <= dir_offset(b) <= b.len(),
    ensures
        valid_archive(b),
        last_match(b, q, entry_count(b)) is None,
        all_matches(b, q, entry_count(b)) == Seq::<int>::empty(),
{
    assert(!exists|i: int| first_bad_lump(b, i));
}

/// With the header and directory valid, a single entry whose lump ends past
/// the buffer is refused with `LumpOutOfBounds` naming that entry.
pub proof fn lemma_bad_lump_named(b: Seq<u8>, i: int)
    requires
        b.len() >= 12,
        kind_of_tag(tag(b)) is Some,
        entry_count(b) >= 0,
        dir_offset(b) >= 0,
        dir_offset(b) + 16 * entry_count(b) <= b.len(),
        0 <= i < entry_count(b),
        !lump_fits(b, i),
        forall|j: int| 0 <= j < entry_count(b) && j != i ==> lump_fits(b, j),
    ensures
        fault(b) == Some(WadError::LumpOutOfBounds(i as usize)),
{
    assert(first_bad_lump(b, i));
    let k = choose|k: int| first_bad_lump(b, k);
    assert(k == i);
}

} // verus!
