//! Ordering bitmaps so that each differs little from the one before it, and
//! storing each as its difference from the one before.

use vstd::prelude::*;

verus! {

/// `roaring::RoaringBitmap`: a set of 32-bit numbers, carried through as it
/// is.
#[verifier::external_type_specification]
#[verifier::external_body]
pub struct ExRoaringBitmap(roaring::RoaringBitmap);

/// The numbers that a bitmap holds.
pub uninterp spec fn bitmap_members(bitmap: roaring::RoaringBitmap) -> Set<u32>;

/// `RoaringBitmap::eq`: whether the two bitmaps hold the same numbers.
#[verifier::external_body]
fn same_members(one: &roaring::RoaringBitmap, other: &roaring::RoaringBitmap) -> (same: bool)
    ensures
        same == (bitmap_members(*one) == bitmap_members(*other)),
{
    one == other
}

/// `BitXor::bitxor` of two bitmaps: the bitmap of the numbers that one of
/// the two holds and the other does not.
#[verifier::external_body]
fn difference(one: &roaring::RoaringBitmap, other: &roaring::RoaringBitmap) -> (delta:
    roaring::RoaringBitmap)
    ensures
        differs_by(bitmap_members(*one), bitmap_members(*other), bitmap_members(delta)),
{
    one ^ other
}

/// `RoaringBitmap::clone`: a bitmap that holds the same numbers.
#[verifier::external_body]
fn copy_of(bitmap: &roaring::RoaringBitmap) -> (copy: roaring::RoaringBitmap)
    ensures
        bitmap_members(copy) == bitmap_members(*bitmap),
{
    bitmap.clone()
}

/// `RoaringBitmap::serialized_size`: the number of bytes that the bitmap
/// takes when it is written out. It depends on how the bitmap is held, not
/// on its numbers alone.
#[verifier::external_body]
fn written_size(bitmap: &roaring::RoaringBitmap) -> (bytes: usize) {
    bitmap.serialized_size()
}

/// `delta` holds the numbers that one of the two sets holds and the other
/// does not.
pub open spec fn differs_by(one: Set<u32>, other: Set<u32>, delta: Set<u32>) -> bool {
    forall|value: u32| delta.contains(value) <==> (one.contains(value) != other.contains(value))
}

/// How many of the flags are set.
pub(crate) open spec fn count_set(flags: Seq<bool>) -> nat
    decreases flags.len(),
{
    if flags.len() == 0 {
        0
    } else {
        count_set(flags.drop_last()) + if flags.last() {
            1nat
        } else {
            0nat
        }
    }
}

proof fn lemma_some_flag_set(flags: Seq<bool>)
    requires
        count_set(flags) > 0,
    ensures
        exists|i: int| 0 <= i < flags.len() && flags[i],
    decreases flags.len(),
{
    if flags.len() > 0 && !flags.last() {
        lemma_some_flag_set(flags.drop_last());
        let i = choose|i: int| 0 <= i < flags.drop_last().len() && flags.drop_last()[i];
        assert(flags[i]);
    }
}

proof fn lemma_flag_cleared(flags: Seq<bool>, place: int)
    requires
        0 <= place < flags.len(),
        flags[place],
    ensures
        count_set(flags.update(place, false)) + 1 == count_set(flags),
    decreases flags.len(),
{
    if place == flags.len() - 1 {
        assert(flags.update(place, false).drop_last() =~= flags.drop_last());
    } else {
        lemma_flag_cleared(flags.drop_last(), place);
        assert(flags.update(place, false).drop_last() =~= flags.drop_last().update(place, false));
    }
}

proof fn lemma_all_flags_set(flags: Seq<bool>)
    requires
        forall|i: int| 0 <= i < flags.len() ==> flags[i],
    ensures
        count_set(flags) == flags.len(),
    decreases flags.len(),
{
    if flags.len() > 0 {
        lemma_all_flags_set(flags.drop_last());
    }
}

/// The order is sound: it names each bitmap once; the first bitmap stands
/// as it is, and each later one as its difference from the one before it;
/// and a bitmap that holds the same numbers as the one before it comes
/// before every bitmap that does not.
pub open spec fn is_reordering(
    bitmaps: Seq<roaring::RoaringBitmap>,
    out: Seq<(usize, roaring::RoaringBitmap)>,
) -> bool {
    &&& out.len() == bitmaps.len()
    &&& forall|k: int| 0 <= k < out.len() ==> (#[trigger] out[k]).0 < bitmaps.len()
    &&& forall|k: int, l: int| 0 <= k < l < out.len() ==> (#[trigger] out[k]).0 != (#[trigger] out[l]).0
    &&& out.len() > 0 ==> bitmap_members(out[0].1) == bitmap_members(bitmaps[out[0].0 as int])
    &&& forall|k: int|
        1 <= k < out.len() ==> differs_by(
            bitmap_members(bitmaps[(#[trigger] out[k]).0 as int]),
            bitmap_members(bitmaps[out[k - 1].0 as int]),
            bitmap_members(out[k].1),
        )
    &&& forall|k: int, l: int|
        1 <= k < l < out.len() && bitmap_members(bitmaps[(#[trigger] out[l]).0 as int])
            == bitmap_members(bitmaps[out[k - 1].0 as int]) ==> bitmap_members(
            bitmaps[(#[trigger] out[k]).0 as int],
        ) == bitmap_members(bitmaps[out[k - 1].0 as int])
}

/// The place of a bitmap among those left that takes the fewest bytes when
/// written out.
fn smallest_left(bitmaps: &Vec<roaring::RoaringBitmap>, left: &Vec<bool>) -> (place: usize)
    requires
        left@.len() == bitmaps@.len(),
        count_set(left@) > 0,
    ensures
        place < bitmaps@.len(),
        left@[place as int],
{
    proof {
        lemma_some_flag_set(left@);
    }
    let mut best: Option<(usize, usize)> = None;
    let mut i: usize = 0;
    while i < bitmaps.len()
        invariant
            i <= bitmaps@.len(),
            left@.len() == bitmaps@.len(),
            best matches Some(found) ==> found.0 < bitmaps@.len() && left@[found.0 as int],
            best is None ==> forall|j: int| 0 <= j < i ==> !left@[j],
        decreases bitmaps@.len() - i,
    {
        if left[i] {
            let bytes = written_size(&bitmaps[i]);
            let smaller = match best {
                Some(found) => bytes < found.1,
                None => true,
            };
            if smaller {
                best = Some((i, bytes));
            }
        }
        i += 1;
    }
    match best {
        Some(found) => found.0,
        None => {
            proof {
                assert(false);
            }
            0
        },
    }
}

/// Orders the bitmaps: the one that takes the fewest bytes first; then,
/// again and again, one that holds the same numbers as the last or, where
/// there is none, the one whose difference from the last takes the fewest
/// bytes. Each bitmap but the first is given as its difference from the one
/// before it.
pub fn reorder(bitmaps: &Vec<roaring::RoaringBitmap>) -> (out: Vec<(usize, roaring::RoaringBitmap)>)
    ensures
        is_reordering(bitmaps@, out@),
{
    let mut out: Vec<(usize, roaring::RoaringBitmap)> = Vec::new();
    if bitmaps.len() == 0 {
        return out;
    }
    let mut left: Vec<bool> = Vec::new();
    let mut i: usize = 0;
    while i < bitmaps.len()
        invariant
            i <= bitmaps@.len(),
            left@.len() == i,
            forall|j: int| 0 <= j < i ==> left@[j],
        decreases bitmaps@.len() - i,
    {
        left.push(true);
        i += 1;
    }
    proof {
        lemma_all_flags_set(left@);
    }
    let first = smallest_left(bitmaps, &left);
    proof {
        lemma_flag_cleared(left@, first as int);
    }
    left.set(first, false);
    out.push((first, copy_of(&bitmaps[first])));
    let mut last: usize = first;
    while out.len() < bitmaps.len()
        invariant
            1 <= out@.len() <= bitmaps@.len(),
            left@.len() == bitmaps@.len(),
            count_set(left@) + out@.len() == bitmaps@.len(),
            last == out@[out@.len() - 1].0,
            forall|k: int| 0 <= k < out@.len() ==> (#[trigger] out@[k]).0 < bitmaps@.len() && !left@[out@[k].0 as int],
            forall|k: int, l: int|
                0 <= k < l < out@.len() ==> (#[trigger] out@[k]).0 != (#[trigger] out@[l]).0,
            bitmap_members(out@[0].1) == bitmap_members(bitmaps@[out@[0].0 as int]),
            forall|k: int|
                1 <= k < out@.len() ==> differs_by(
                    bitmap_members(bitmaps@[(#[trigger] out@[k]).0 as int]),
                    bitmap_members(bitmaps@[out@[k - 1].0 as int]),
                    bitmap_members(out@[k].1),
                ),
            forall|k: int, place: int|
                1 <= k < out@.len() && 0 <= place < bitmaps@.len() && left@[place]
                    && bitmap_members(bitmaps@[place]) == bitmap_members(
                    bitmaps@[(#[trigger] out@[k - 1]).0 as int],
                ) ==> bitmap_members(bitmaps@[out@[k].0 as int]) == #[trigger] bitmap_members(
                    bitmaps@[place],
                ),
            forall|k: int, l: int|
                1 <= k < l < out@.len() && bitmap_members(bitmaps@[(#[trigger] out@[l]).0 as int])
                    == bitmap_members(bitmaps@[out@[k - 1].0 as int]) ==> bitmap_members(
                    bitmaps@[(#[trigger] out@[k]).0 as int],
                ) == bitmap_members(bitmaps@[out@[k - 1].0 as int]),
        decreases bitmaps@.len() - out@.len(),
    {
        let mut twin: Option<usize> = None;
        let mut j: usize = 0;
        while j < bitmaps.len() && twin.is_none()
            invariant
                j <= bitmaps@.len(),
                left@.len() == bitmaps@.len(),
                last < bitmaps@.len(),
                twin matches Some(found) ==> found < bitmaps@.len() && left@[found as int]
                    && bitmap_members(bitmaps@[found as int]) == bitmap_members(
                    bitmaps@[last as int],
                ),
                twin is None ==> forall|place: int|
                    0 <= place < j && left@[place] ==> bitmap_members(bitmaps@[place])
                        != bitmap_members(bitmaps@[last as int]),
            decreases bitmaps@.len() - j,
        {
            if left[j] && same_members(&bitmaps[j], &bitmaps[last]) {
                twin = Some(j);
            }
            j += 1;
        }
        let best = match twin {
            Some(found) => found,
            None => {
                let mut least: Option<(usize, usize)> = None;
                let mut c: usize = 0;
                proof {
                    lemma_some_flag_set(left@);
                }
                while c < bitmaps.len()
                    invariant
                        c <= bitmaps@.len(),
                        left@.len() == bitmaps@.len(),
                        last < bitmaps@.len(),
                        least matches Some(found) ==> found.0 < bitmaps@.len() && left@[found.0 as int],
                        least is None ==> forall|place: int| 0 <= place < c ==> !left@[place],
                    decreases bitmaps@.len() - c,
                {
                    if left[c] {
                        let bytes = written_size(&difference(&bitmaps[c], &bitmaps[last]));
                        let smaller = match least {
                            Some(found) => bytes < found.1,
                            None => true,
                        };
                        if smaller {
                            least = Some((c, bytes));
                        }
                    }
                    c += 1;
                }
                match least {
                    Some(found) => found.0,
                    None => {
                        proof {
                            assert(false);
                        }
                        0
                    },
                }
            },
        };
        let delta = difference(&bitmaps[best], &bitmaps[last]);
        proof {
            lemma_flag_cleared(left@, best as int);
        }
        let ghost before = out@;
        let ghost left_before = left@;
        left.set(best, false);
        out.push((best, delta));
        proof {
            assert forall|k: int, l: int| 0 <= k < l < out@.len() implies (#[trigger] out@[k]).0 != (
            #[trigger] out@[l]).0 by {
                if l == before.len() {
                    assert(!left_before[before[k].0 as int]);
                } else {
                    assert(before[k].0 != before[l].0);
                }
            }
            assert forall|k: int, l: int|
                1 <= k < l < out@.len() && bitmap_members(bitmaps@[(#[trigger] out@[l]).0 as int])
                    == bitmap_members(bitmaps@[out@[k - 1].0 as int]) implies bitmap_members(
                bitmaps@[(#[trigger] out@[k]).0 as int],
            ) == bitmap_members(bitmaps@[out@[k - 1].0 as int]) by {
                if l == before.len() {
                    assert(left_before[best as int]);
                    assert(before[k - 1] == out@[k - 1]);
                    assert(bitmap_members(bitmaps@[before[k].0 as int]) == bitmap_members(
                        bitmaps@[best as int],
                    ));
                } else {
                    assert(before[l] == out@[l]);
                    assert(before[k] == out@[k]);
                }
            }
        }
        last = best;
    }
    out
}

} // verus!
