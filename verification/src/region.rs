//! The regions of a file that are compressed by themselves, in file order.

use crate::nef::{ChunksView, NefChunks};
use vstd::prelude::*;

verus! {

#[derive(Debug, Clone, Copy, PartialEq, Eq, Structural)]
pub enum RegionKind {
    RawStrip,
    Jpeg,
}

/// A chunk of the file.
#[derive(Debug, Clone, Copy)]
pub struct Region {
    pub offset: u64,
    pub length: u64,
    pub kind: RegionKind,
}

/// The chunks of a file: the raw strip, then the JPEGs as they were found.
pub open spec fn regions_of(chunks: ChunksView) -> Seq<Region> {
    seq![
        Region {
            offset: chunks.raw_strip.offset,
            length: chunks.raw_strip.length,
            kind: RegionKind::RawStrip,
        },
    ] + Seq::new(
        chunks.jpegs.len(),
        |i: int|
            Region {
                offset: chunks.jpegs[i].offset,
                length: chunks.jpegs[i].length as u64,
                kind: RegionKind::Jpeg,
            },
    )
}

/// Puts a region behind all that do not start after it.
pub open spec fn with_region(s: Seq<Region>, r: Region) -> Seq<Region>
    decreases s.len(),
{
    if s.len() == 0 || s.last().offset <= r.offset {
        s.push(r)
    } else {
        with_region(s.drop_last(), r).push(s.last())
    }
}

/// The regions ordered by where they start; of those that start at the same
/// place, the first stays first.
pub open spec fn in_file_order(s: Seq<Region>) -> Seq<Region>
    decreases s.len(),
{
    if s.len() == 0 {
        Seq::empty()
    } else {
        with_region(in_file_order(s.drop_last()), s.last())
    }
}

/// No region starts before the one in front of it.
pub open spec fn ordered(s: Seq<Region>) -> bool {
    forall|i: int, j: int|
        0 <= i <= j < s.len() ==> (#[trigger] s[i]).offset <= (#[trigger] s[j]).offset
}

/// The regions that start at `at`, in their order.
pub open spec fn starting_at(s: Seq<Region>, at: u64) -> Seq<Region>
    decreases s.len(),
{
    if s.len() == 0 {
        Seq::empty()
    } else if s.last().offset == at {
        starting_at(s.drop_last(), at).push(s.last())
    } else {
        starting_at(s.drop_last(), at)
    }
}

proof fn lemma_with_region(s: Seq<Region>, r: Region)
    requires
        ordered(s),
    ensures
        ordered(with_region(s, r)),
        with_region(s, r).to_multiset() == s.to_multiset().insert(r),
        with_region(s, r).len() == s.len() + 1,
        forall|i: int|
            0 <= i <= s.len() ==> (#[trigger] with_region(s, r)[i]) == r || exists|j: int|
                0 <= j < s.len() && #[trigger] s[j] == with_region(s, r)[i],
    decreases s.len(),
{
    broadcast use vstd::seq_lib::group_to_multiset_ensures;

    let t = with_region(s, r);
    if s.len() == 0 || s.last().offset <= r.offset {
        assert forall|i: int, j: int| 0 <= i <= j < t.len() implies (#[trigger] t[i]).offset <= (
        #[trigger] t[j]).offset by {
            if j == s.len() && i < j {
                assert(s[i].offset <= s[s.len() - 1].offset);
            }
        }
        assert forall|i: int| 0 <= i <= s.len() implies (#[trigger] t[i]) == r || exists|j: int|
            0 <= j < s.len() && #[trigger] s[j] == t[i] by {
            if i < s.len() {
                assert(s[i] == t[i]);
            }
        }
    } else {
        let d = s.drop_last();
        let e = with_region(d, r);
        lemma_with_region(d, r);
        assert forall|i: int| 0 <= i < e.len() implies (#[trigger] e[i]).offset
            <= s.last().offset by {
            if e[i] != r {
                let j = choose|j: int| 0 <= j < d.len() && #[trigger] d[j] == e[i];
                assert(s[j].offset <= s[s.len() - 1].offset);
            }
        }
        assert forall|i: int| 0 <= i <= s.len() implies (#[trigger] t[i]) == r || exists|j: int|
            0 <= j < s.len() && #[trigger] s[j] == t[i] by {
            if i < e.len() {
                assert(e[i] == t[i]);
                if e[i] != r {
                    let j = choose|j: int| 0 <= j < d.len() && #[trigger] d[j] == e[i];
                    assert(s[j] == t[i]);
                }
            } else {
                assert(s[s.len() - 1] == t[i]);
            }
        }
        assert(s =~= d.push(s.last()));
        assert(t.to_multiset() =~= e.to_multiset().insert(s.last()));
        assert(s.to_multiset() =~= d.to_multiset().insert(s.last()));
        assert(t.to_multiset() =~= s.to_multiset().insert(r));
    }
}

proof fn lemma_with_region_stable(s: Seq<Region>, r: Region, at: u64)
    ensures
        starting_at(with_region(s, r), at) == starting_at(s.push(r), at),
    decreases s.len(),
{
    reveal_with_fuel(starting_at, 3);
    assert(s.push(r).drop_last() =~= s);
    if s.len() > 0 && s.last().offset > r.offset {
        let d = s.drop_last();
        let t = with_region(s, r);
        lemma_with_region_stable(d, r, at);
        assert(t.drop_last() =~= with_region(d, r));
        assert(d.push(r).drop_last() =~= d);
    }
}

/// Ordering keeps every region, orders them by their places, and keeps the
/// order of those at the same place.
pub proof fn lemma_in_file_order(s: Seq<Region>)
    ensures
        ordered(in_file_order(s)),
        in_file_order(s).len() == s.len(),
        in_file_order(s).to_multiset() == s.to_multiset(),
        forall|at: u64|
            #![trigger starting_at(s, at)]
            starting_at(in_file_order(s), at) == starting_at(s, at),
    decreases s.len(),
{
    broadcast use vstd::seq_lib::group_to_multiset_ensures;

    if s.len() > 0 {
        let d = s.drop_last();
        lemma_in_file_order(d);
        lemma_with_region(in_file_order(d), s.last());
        assert(s =~= d.push(s.last()));
        assert(s.to_multiset() =~= d.to_multiset().insert(s.last()));
        assert forall|at: u64|
            #![trigger starting_at(s, at)]
            starting_at(in_file_order(s), at) == starting_at(s, at) by {
            let o = in_file_order(d);
            lemma_with_region_stable(o, s.last(), at);
            assert(o.push(s.last()).drop_last() =~= o);
            assert(starting_at(d, at) == starting_at(o, at));
        }
    }
}

/// Two regions have no byte in common.
pub open spec fn apart(a: Region, b: Region) -> bool {
    a.offset + a.length <= b.offset || b.offset + b.length <= a.offset
}

/// No region is empty, and no two have a byte in common.
pub open spec fn disjoint(s: Seq<Region>) -> bool {
    &&& forall|i: int| 0 <= i < s.len() ==> (#[trigger] s[i]).length > 0
    &&& forall|i: int, j: int|
        0 <= i < j < s.len() ==> apart(#[trigger] s[i], #[trigger] s[j])
}

/// Ordering keeps regions apart.
proof fn lemma_with_region_disjoint(s: Seq<Region>, r: Region)
    requires
        ordered(s),
        disjoint(s.push(r)),
    ensures
        disjoint(with_region(s, r)),
    decreases s.len(),
{
    let all = s.push(r);
    assert(all[s.len() as int] == r);
    if s.len() > 0 && s.last().offset > r.offset {
        let d = s.drop_last();
        let e = with_region(d, r);
        let last = s.last();
        assert forall|i: int, j: int| 0 <= i < j < d.push(r).len() implies apart(
            #[trigger] d.push(r)[i],
            #[trigger] d.push(r)[j],
        ) by {
            let k = if j == d.len() {
                s.len() as int
            } else {
                j
            };
            assert(apart(all[i], all[k]));
        }
        assert forall|i: int| 0 <= i < d.push(r).len() implies (#[trigger] d.push(r)[i]).length
            > 0 by {
            let k = if i == d.len() {
                s.len() as int
            } else {
                i
            };
            assert(all[k].length > 0);
        }
        lemma_with_region_disjoint(d, r);
        lemma_with_region(d, r);
        assert(all[d.len() as int] == last);
        assert forall|i: int| 0 <= i < e.len() implies apart(#[trigger] e[i], last) by {
            if e[i] == r {
                assert(apart(all[d.len() as int], all[s.len() as int]));
            } else {
                let j = choose|j: int| 0 <= j < d.len() && #[trigger] d[j] == e[i];
                assert(all[j] == e[i]);
                assert(apart(all[j], all[d.len() as int]));
            }
        }
        let t = with_region(s, r);
        assert(t == e.push(last));
        assert(last.length > 0);
        assert forall|i: int, j: int| 0 <= i < j < t.len() implies apart(
            #[trigger] t[i],
            #[trigger] t[j],
        ) by {
            if j == e.len() {
                assert(apart(e[i], last));
            } else {
                assert(apart(e[i], e[j]));
            }
        }
    }
}

/// Regions that have no byte in common have none in file order either.
pub proof fn lemma_in_file_order_disjoint(s: Seq<Region>)
    requires
        disjoint(s),
    ensures
        disjoint(in_file_order(s)),
    decreases s.len(),
{
    if s.len() > 0 {
        let d = s.drop_last();
        let r = s.last();
        let o = in_file_order(d);
        assert forall|i: int, j: int| 0 <= i < j < d.len() implies apart(
            #[trigger] d[i],
            #[trigger] d[j],
        ) by {
            assert(apart(s[i], s[j]));
        }
        lemma_in_file_order_disjoint(d);
        lemma_in_file_order(d);
        let all = o.push(r);
        assert forall|i: int, j: int| 0 <= i < j < all.len() implies apart(
            #[trigger] all[i],
            #[trigger] all[j],
        ) by {
            if j == o.len() {
                lemma_ordered_from(d, i);
                let k = choose|k: int| 0 <= k < d.len() && #[trigger] d[k] == o[i];
                assert(apart(s[k], s[s.len() - 1]));
            } else {
                assert(apart(o[i], o[j]));
            }
        }
        lemma_with_region_disjoint(o, r);
    }
}

/// Every region in file order is one of the regions.
pub proof fn lemma_ordered_from(s: Seq<Region>, i: int)
    requires
        0 <= i < in_file_order(s).len(),
    ensures
        exists|k: int| 0 <= k < s.len() && #[trigger] s[k] == in_file_order(s)[i],
{
    broadcast use vstd::seq_lib::group_to_multiset_ensures;

    lemma_in_file_order(s);
    let o = in_file_order(s);
    assert(o.contains(o[i]));
    assert(o.to_multiset().count(o[i]) > 0);
    assert(s.to_multiset().count(o[i]) > 0);
    assert(s.contains(o[i]));
}

/// Where a region is put.
proof fn lemma_region_place(s: Seq<Region>, r: Region, p: int)
    requires
        0 <= p <= s.len(),
        p > 0 ==> s[p - 1].offset <= r.offset,
        forall|j: int| p <= j < s.len() ==> (#[trigger] s[j]).offset > r.offset,
    ensures
        with_region(s, r) == s.insert(p, r),
    decreases s.len(),
{
    if p == s.len() {
        assert(s.insert(p, r) =~= s.push(r));
    } else {
        assert(s[s.len() - 1].offset > r.offset);
        let d = s.drop_last();
        lemma_region_place(d, r, p);
        assert(s.insert(p, r) =~= d.insert(p, r).push(s.last()));
    }
}

fn add_region(regions: &mut Vec<Region>, r: Region)
    ensures
        final(regions)@ == with_region(old(regions)@, r),
{
    let mut p: usize = regions.len();
    while p > 0 && regions[p - 1].offset > r.offset
        invariant
            regions@ == old(regions)@,
            0 <= p <= regions@.len(),
            forall|j: int| p <= j < regions@.len() ==> (#[trigger] regions@[j]).offset > r.offset,
        decreases p,
    {
        p = p - 1;
    }
    proof {
        lemma_region_place(regions@, r, p as int);
    }
    regions.insert(p, r);
}

/// The chunks of a file in file order.
pub fn file_regions(chunks: &NefChunks) -> (r: Vec<Region>)
    ensures
        r@ == in_file_order(regions_of(chunks@)),
{
    let ghost all = regions_of(chunks@);
    let mut regions: Vec<Region> = Vec::new();
    let strip = Region {
        offset: chunks.raw_strip.offset,
        length: chunks.raw_strip.length,
        kind: RegionKind::RawStrip,
    };
    add_region(&mut regions, strip);
    proof {
        reveal_with_fuel(in_file_order, 2);
        assert(all.take(1).drop_last() =~= Seq::empty());
        assert(all.take(1).last() == strip);
    }
    let mut i: usize = 0;
    while i < chunks.jpegs.len()
        invariant
            all == regions_of(chunks@),
            0 <= i <= chunks.jpegs@.len(),
            regions@ == in_file_order(all.take(i + 1)),
        decreases chunks.jpegs@.len() - i,
    {
        let jpeg = &chunks.jpegs[i];
        let r = Region {
            offset: jpeg.offset,
            length: jpeg.length as u64,
            kind: RegionKind::Jpeg,
        };
        proof {
            assert(all.take(i + 2).drop_last() =~= all.take(i + 1));
            assert(all.take(i + 2).last() == r);
        }
        add_region(&mut regions, r);
        i = i + 1;
    }
    assert(all.take(all.len() as int) =~= all);
    regions
}

} // verus!
