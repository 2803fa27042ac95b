//! The search for pictures.

use vstd::prelude::*;

use crate::image_format::{
    header_at, record_valid, validate_image_record, ImageRecord, IMAGE_HEADER_SIZE,
};
use crate::order::sort_distinct;

verus! {

/// Where the pictures of known firmware begin, relative to the clean section.
pub const IMAGE_SCAN_START_CANDIDATE_BINA_REL: usize = 0x0141f4a0;

/// Where a record ends.
pub open spec fn record_end(r: ImageRecord) -> int {
    r.offset + r.header.size()
}

/// `places` lists the places of `records` by rising offset, equal offsets in the order in which
/// they stand.
pub open spec fn by_offset(records: Seq<ImageRecord>, places: Seq<int>) -> bool {
    &&& places.len() == records.len()
    &&& forall|i: int| 0 <= i < places.len() ==> 0 <= #[trigger] places[i] < records.len()
    &&& forall|i: int, j: int|
        #![trigger places[i], places[j]]
        0 <= i < j < places.len() ==> records[places[i]].offset < records[places[j]].offset || (
        records[places[i]].offset == records[places[j]].offset && places[i] < places[j])
}

/// The records at the given places.
pub open spec fn at_places(records: Seq<ImageRecord>, places: Seq<int>) -> Seq<ImageRecord> {
    Seq::new(places.len(), |i: int| records[places[i]])
}

/// The records that are left when, from the first to the last, each is dropped that begins
/// before `end` or before the end of the last one kept.
pub open spec fn without_overlaps(records: Seq<ImageRecord>, end: int) -> Seq<ImageRecord>
    decreases records.len(),
{
    if records.len() == 0 {
        Seq::empty()
    } else if records[0].offset >= end {
        seq![records[0]] + without_overlaps(records.drop_first(), record_end(records[0]))
    } else {
        without_overlaps(records.drop_first(), end)
    }
}

/// The pictures of at least `min_area` pixels that begin at `off` or any number of 4-byte steps
/// after it.
pub open spec fn candidates(buf: Seq<u8>, off: int, min_area: int) -> Seq<ImageRecord>
    decreases buf.len() - off,
{
    if off + IMAGE_HEADER_SIZE > buf.len() {
        Seq::empty()
    } else if record_valid(buf, off) && header_at(buf, off).pixels() >= min_area {
        seq![ImageRecord { offset: off as usize, header: header_at(buf, off) }] + candidates(
            buf,
            off + 4,
            min_area,
        )
    } else {
        candidates(buf, off + 4, min_area)
    }
}

const PLACES: u128 = 0x1_0000_0000_0000_0000;

proof fn lemma_key(offset: int, place: int)
    requires
        0 <= offset < PLACES,
        0 <= place < PLACES,
    ensures
        (offset * PLACES + place) % (PLACES as int) == place,
        (offset * PLACES + place) / (PLACES as int) == offset,
{
}

fn sorted_places(records: &Vec<ImageRecord>) -> (r: Vec<usize>)
    ensures
        by_offset(records@, r@.map_values(|p: usize| p as int)),
{
    let mut keys: Vec<u128> = Vec::new();
    let mut i: usize = 0;
    while i < records.len()
        invariant
            i <= records@.len(),
            keys@.len() == i,
            forall|k: int|
                0 <= k < i ==> #[trigger] keys@[k] == records@[k].offset as int * PLACES + k,
        decreases records@.len() - i,
    {
        keys.push(records[i].offset as u128 * PLACES + i as u128);
        i += 1;
    }
    assert(keys@.no_duplicates()) by {
        assert forall|j: int, k: int| 0 <= j < keys@.len() && 0 <= k < keys@.len() && j
            != k implies keys@[j] != keys@[k] by {
            lemma_key(records@[j].offset as int, j);
            lemma_key(records@[k].offset as int, k);
        }
    }
    let sorted = sort_distinct(keys.as_slice());
    let mut places: Vec<usize> = Vec::new();
    let mut j: usize = 0;
    proof {
        assert forall|k: int| 0 <= k < sorted@.len() implies {
            let p = (#[trigger] sorted@[k]) % PLACES;
            p < records@.len() && sorted@[k] == records@[p as int].offset as int * PLACES + p
        } by {
            assert(keys@.contains(sorted@[k]));
            let q = choose|q: int| 0 <= q < keys@.len() && keys@[q] == sorted@[k];
            lemma_key(records@[q].offset as int, q);
        }
    }
    while j < sorted.len()
        invariant
            j <= sorted@.len(),
            places@.len() == j,
            records@.len() <= usize::MAX,
            forall|k: int| 0 <= k < sorted@.len() ==> (#[trigger] sorted@[k]) % PLACES < records@.len(),
            forall|k: int| 0 <= k < j ==> #[trigger] places@[k] == sorted@[k] % PLACES,
        decreases sorted@.len() - j,
    {
        places.push((sorted[j] % PLACES) as usize);
        j += 1;
    }
    proof {
        let ps = places@.map_values(|p: usize| p as int);
        assert forall|i: int| 0 <= i < ps.len() implies 0 <= #[trigger] ps[i] < records@.len() by {
            assert(places@[i] == sorted@[i] % PLACES);
        }
        assert forall|i: int, j: int|
            #![trigger ps[i], ps[j]]
            0 <= i < j < ps.len() implies records@[ps[i]].offset < records@[ps[j]].offset || (
        records@[ps[i]].offset == records@[ps[j]].offset && ps[i] < ps[j]) by {
            assert(places@[i] == sorted@[i] % PLACES);
            assert(places@[j] == sorted@[j] % PLACES);
            assert(sorted@[i] < sorted@[j]);
            lemma_key(records@[ps[i]].offset as int, ps[i]);
            lemma_key(records@[ps[j]].offset as int, ps[j]);
        }
    }
    places
}

/// Sorts the records by offset and keeps of overlapping ones the first.
pub fn remove_overlaps(records: Vec<ImageRecord>) -> (r: Vec<ImageRecord>)
    ensures
        exists|places: Seq<int>| #[trigger]
            by_offset(records@, places) && r@ == without_overlaps(at_places(records@, places), 0),
{
    let places = sorted_places(&records);
    let ghost ps = places@.map_values(|p: usize| p as int);
    let ghost sorted = at_places(records@, ps);
    let mut selected: Vec<ImageRecord> = Vec::new();
    let mut current_end: u128 = 0;
    let mut i: usize = 0;
    assert(sorted.skip(0) =~= sorted);
    while i < places.len()
        invariant
            i <= places@.len(),
            ps == places@.map_values(|p: usize| p as int),
            by_offset(records@, ps),
            sorted == at_places(records@, ps),
            selected@ + without_overlaps(sorted.skip(i as int), current_end as int)
                == without_overlaps(sorted, 0),
        decreases places@.len() - i,
    {
        assert(0 <= ps[i as int] < records@.len());
        let record = records[places[i]];
        let ghost rest = sorted.skip(i as int);
        assert(rest[0] == record);
        assert(rest.drop_first() =~= sorted.skip(i + 1));
        let ghost before = selected@;
        if record.offset as u128 >= current_end {
            current_end = record.offset as u128 + IMAGE_HEADER_SIZE as u128
                + record.header.palette_entries as u128 * 2 + record.header.rle_words as u128 * 2;
            selected.push(record);
            assert(current_end == record_end(record));
            assert(selected@ + without_overlaps(sorted.skip(i + 1), current_end as int) =~= before
                + (seq![record] + without_overlaps(sorted.skip(i + 1), current_end as int)));
        }
        i += 1;
    }
    assert(sorted.skip(i as int) =~= Seq::empty());
    assert(selected@ =~= without_overlaps(sorted, 0));
    selected
}

/// Finds the pictures of at least `min_area` pixels, looking every four bytes from `scan_start`
/// on. Of overlapping finds the first one counts.
pub fn find_image_records(clean_bina: &[u8], scan_start: usize, min_area: usize) -> (r: Vec<
    ImageRecord,
>)
    ensures
        r@ == without_overlaps(candidates(clean_bina@, scan_start as int, min_area as int), 0),
{
    let ghost all = candidates(clean_bina@, scan_start as int, min_area as int);
    let mut records: Vec<ImageRecord> = Vec::new();
    let mut off: usize = scan_start;
    while off <= clean_bina.len() && clean_bina.len() - off >= IMAGE_HEADER_SIZE
        invariant
            records@ + candidates(clean_bina@, off as int, min_area as int) == all,
            forall|i: int| 0 <= i < records@.len() ==> (#[trigger] records@[i]).offset < off,
            forall|i: int, j: int|
                0 <= i < j < records@.len() ==> records@[i].offset < records@[j].offset,
        decreases clean_bina@.len() - off,
    {
        let ghost before = records@;
        if let Some(record) = validate_image_record(clean_bina, off) {
            if record.area() >= min_area {
                records.push(record);
                assert(records@ + candidates(clean_bina@, off + 4, min_area as int) =~= before + (
                seq![record] + candidates(clean_bina@, off + 4, min_area as int)));
            }
        }
        off += 4;
    }
    assert(records@ =~= all);
    let r = remove_overlaps(records);
    proof {
        let places = choose|places: Seq<int>| #[trigger]
            by_offset(all, places) && r@ == without_overlaps(at_places(all, places), 0);
        lemma_sorted_already(all, places);
        assert(at_places(all, places) =~= all);
    }
    r
}

proof fn lemma_sorted_already(records: Seq<ImageRecord>, places: Seq<int>)
    requires
        by_offset(records, places),
        forall|i: int, j: int|
            0 <= i < j < records.len() ==> records[i].offset < records[j].offset,
    ensures
        forall|i: int| 0 <= i < places.len() ==> places[i] == i,
{
    assert forall|i: int, j: int| 0 <= i < j < places.len() implies places[i] < places[j] by {
        if places[i] > places[j] {
            assert(records[places[j]].offset < records[places[i]].offset);
        }
    }
    assert forall|i: int| 0 <= i < places.len() implies places[i] == i by {
        lemma_rising_places(places, i);
    }
}

proof fn lemma_rising_places(places: Seq<int>, i: int)
    requires
        0 <= i < places.len(),
        forall|i: int| 0 <= i < places.len() ==> 0 <= #[trigger] places[i] < places.len(),
        forall|i: int, j: int| 0 <= i < j < places.len() ==> places[i] < places[j],
    ensures
        places[i] == i,
{
    lemma_rising_low(places, i);
    lemma_rising_high(places, i);
}

proof fn lemma_rising_low(places: Seq<int>, i: int)
    requires
        0 <= i < places.len(),
        forall|i: int| 0 <= i < places.len() ==> 0 <= #[trigger] places[i] < places.len(),
        forall|i: int, j: int| 0 <= i < j < places.len() ==> places[i] < places[j],
    ensures
        places[i] >= i,
    decreases i,
{
    if i > 0 {
        lemma_rising_low(places, i - 1);
        assert(places[i - 1] < places[i]);
    }
}

proof fn lemma_rising_high(places: Seq<int>, i: int)
    requires
        0 <= i < places.len(),
        forall|i: int| 0 <= i < places.len() ==> 0 <= #[trigger] places[i] < places.len(),
        forall|i: int, j: int| 0 <= i < j < places.len() ==> places[i] < places[j],
    ensures
        places[i] <= i,
    decreases places.len() - i,
{
    if i < places.len() - 1 {
        lemma_rising_high(places, i + 1);
        assert(places[i] < places[i + 1]);
    }
}

proof fn lemma_all_places(records: Seq<ImageRecord>, places: Seq<int>, p: int)
    requires
        by_offset(records, places),
        0 <= p < records.len(),
    ensures
        places.contains(p),
{
    let range = vstd::set_lib::set_int_range(0, records.len() as int);
    assert forall|i: int, j: int| 0 <= i < places.len() && 0 <= j < places.len() && i
        != j implies places[i] != places[j] by {
        if i < j {
            assert(records[places[i]].offset < records[places[j]].offset || places[i] < places[j]);
        } else {
            assert(records[places[j]].offset < records[places[i]].offset || places[j] < places[i]);
        }
    }
    places.unique_seq_to_set();
    vstd::set_lib::lemma_int_range(0, records.len() as int);
    assert(places.to_set().subset_of(range));
    vstd::set_lib::lemma_len_subset(places.to_set(), range);
    vstd::set_lib::lemma_subset_equality(places.to_set(), range);
    assert(range.contains(p));
}

/// Records have one order by offset.
pub proof fn order_by_offset_is_unique(records: Seq<ImageRecord>, a: Seq<int>, b: Seq<int>)
    requires
        by_offset(records, a),
        by_offset(records, b),
    ensures
        a == b,
{
    lemma_orders_agree(records, a, b, a.len() as int);
    assert(a =~= b);
}

proof fn lemma_orders_agree(records: Seq<ImageRecord>, a: Seq<int>, b: Seq<int>, n: int)
    requires
        by_offset(records, a),
        by_offset(records, b),
        0 <= n <= a.len(),
    ensures
        forall|i: int| 0 <= i < n ==> a[i] == b[i],
    decreases n,
{
    if n > 0 {
        let i = n - 1;
        lemma_orders_agree(records, a, b, i);
        lemma_all_places(records, b, a[i]);
        lemma_all_places(records, a, b[i]);
        let j = choose|j: int| 0 <= j < b.len() && b[j] == a[i];
        let k = choose|k: int| 0 <= k < a.len() && a[k] == b[i];
        if j < i {
            assert(a[j] == a[i]);
        }
        if k < i {
            assert(b[k] == b[i]);
        }
        if i < j && i < k {
            assert(b[i] == a[k] && b[j] == a[i]);
        }
    }
}

/// Whether the records follow one another without overlapping.
pub open spec fn disjoint_in_order(records: Seq<ImageRecord>) -> bool {
    forall|i: int, j: int|
        #![trigger records[i], records[j]]
        0 <= i < j < records.len() ==> record_end(records[i]) <= records[j].offset
}

/// What is left after overlaps are removed does not overlap, begins no earlier than `end`, and
/// was there before.
pub proof fn remaining_records_are_disjoint(records: Seq<ImageRecord>, end: int)
    ensures
        disjoint_in_order(without_overlaps(records, end)),
        forall|i: int|
            0 <= i < without_overlaps(records, end).len() ==> (#[trigger] without_overlaps(
                records,
                end,
            )[i]).offset >= end && records.contains(without_overlaps(records, end)[i]),
    decreases records.len(),
{
    if records.len() > 0 {
        let first = records[0];
        let rest = records.drop_first();
        let kept = without_overlaps(records, end);
        let next_end = if first.offset >= end {
            record_end(first)
        } else {
            end
        };
        remaining_records_are_disjoint(rest, next_end);
        let tail = without_overlaps(rest, next_end);
        let n: int = if first.offset >= end {
            1
        } else {
            0
        };
        assert forall|i: int| 0 <= i < kept.len() implies (#[trigger] kept[i]).offset >= end
            && records.contains(kept[i]) by {
            if n == 1 && i == 0 {
                assert(records[0] == kept[0]);
            } else {
                assert(kept[i] == tail[i - n]);
                assert(rest.contains(tail[i - n]));
                let k = choose|k: int| 0 <= k < rest.len() && rest[k] == tail[i - n];
                assert(records[k + 1] == kept[i]);
            }
        }
        assert forall|i: int, j: int|
            #![trigger kept[i], kept[j]]
            0 <= i < j < kept.len() implies record_end(kept[i]) <= kept[j].offset by {
            assert(kept[j] == tail[j - n]);
            if n == 1 && i == 0 {
                assert(kept[0] == first);
            } else {
                assert(kept[i] == tail[i - n]);
            }
        }
    }
}

/// Every record that was dropped begins inside one that was kept, or before `end`.
pub proof fn dropped_records_overlap(records: Seq<ImageRecord>, end: int, c: ImageRecord)
    requires
        records.contains(c),
        forall|i: int, j: int|
            0 <= i < j < records.len() ==> records[i].offset <= records[j].offset,
    ensures
        without_overlaps(records, end).contains(c) || c.offset < end || exists|k: int|
            0 <= k < without_overlaps(records, end).len() && (#[trigger] without_overlaps(
                records,
                end,
            )[k]).offset <= c.offset < record_end(without_overlaps(records, end)[k]),
    decreases records.len(),
{
    let first = records[0];
    let rest = records.drop_first();
    let kept = without_overlaps(records, end);
    let at = choose|at: int| 0 <= at < records.len() && records[at] == c;
    if first.offset >= end {
        assert(kept[0] == first);
        let tail = without_overlaps(rest, record_end(first));
        if at > 0 {
            assert(rest[at - 1] == c);
            dropped_records_overlap(rest, record_end(first), c);
            if tail.contains(c) {
                let k = choose|k: int| 0 <= k < tail.len() && tail[k] == c;
                assert(kept[k + 1] == c);
            } else if c.offset < record_end(first) {
                assert(kept[0].offset <= c.offset < record_end(kept[0]));
            } else {
                let k = choose|k: int|
                    0 <= k < tail.len() && (#[trigger] tail[k]).offset <= c.offset < record_end(
                        tail[k],
                    );
                assert(kept[k + 1] == tail[k]);
            }
        }
    } else if at > 0 {
        assert(rest[at - 1] == c);
        dropped_records_overlap(rest, end, c);
    }
}

proof fn lemma_disjoint_kept(records: Seq<ImageRecord>, end: int)
    requires
        disjoint_in_order(records),
        records.len() > 0 ==> records[0].offset >= end,
    ensures
        without_overlaps(records, end) == records,
    decreases records.len(),
{
    if records.len() > 0 {
        let rest = records.drop_first();
        if rest.len() > 0 {
            assert(rest[0] == records[1]);
            assert(record_end(records[0]) <= records[1].offset);
        }
        assert(disjoint_in_order(rest)) by {
            assert forall|i: int, j: int|
                #![trigger rest[i], rest[j]]
                0 <= i < j < rest.len() implies record_end(rest[i]) <= rest[j].offset by {
                assert(rest[i] == records[i + 1]);
                assert(rest[j] == records[j + 1]);
            }
        }
        lemma_disjoint_kept(rest, record_end(records[0]));
        assert(seq![records[0]] + rest =~= records);
    } else {
        assert(records =~= Seq::empty());
    }
}

/// Removing overlaps from records that do not overlap any more changes nothing: whatever order
/// of places the second round finds, it keeps all of them as they are.
pub proof fn removing_overlaps_twice_is_once(records: Seq<ImageRecord>, places: Seq<int>)
    requires
        disjoint_in_order(records),
        by_offset(records, places),
    ensures
        without_overlaps(at_places(records, places), 0) == records,
{
    assert forall|i: int, j: int| 0 <= i < j < records.len() implies records[i].offset
        < records[j].offset by {
        assert(record_end(records[i]) <= records[j].offset);
    }
    lemma_sorted_already(records, places);
    assert(at_places(records, places) =~= records);
    lemma_disjoint_kept(records, 0);
}

/// `r` is a picture of at least `min_area` pixels at one of the places that are looked at.
pub open spec fn candidate(buf: Seq<u8>, scan_start: int, min_area: int, r: ImageRecord) -> bool {
    &&& r.offset >= scan_start
    &&& (r.offset - scan_start) % 4 == 0
    &&& record_valid(buf, r.offset as int)
    &&& r.header == header_at(buf, r.offset as int)
    &&& r.header.pixels() >= min_area
}

proof fn lemma_candidate_sooner(buf: Seq<u8>, scan_start: int, min_area: int, r: ImageRecord)
    requires
        candidate(buf, scan_start + 4, min_area, r),
    ensures
        candidate(buf, scan_start, min_area, r),
{
    let d = r.offset - (scan_start + 4);
    assert((d + 4) % 4 == d % 4);
}

proof fn lemma_candidates_sound(buf: Seq<u8>, scan_start: int, min_area: int, i: int)
    requires
        0 <= scan_start,
        buf.len() <= usize::MAX,
        0 <= i < candidates(buf, scan_start, min_area).len(),
    ensures
        candidate(buf, scan_start, min_area, candidates(buf, scan_start, min_area)[i]),
    decreases buf.len() - scan_start,
{
    let all = candidates(buf, scan_start, min_area);
    let rest = candidates(buf, scan_start + 4, min_area);
    if record_valid(buf, scan_start) && header_at(buf, scan_start).pixels() >= min_area {
        let here = ImageRecord { offset: scan_start as usize, header: header_at(buf, scan_start) };
        assert(all == seq![here] + rest);
        if i > 0 {
            assert(all[i] == rest[i - 1]);
            lemma_candidates_sound(buf, scan_start + 4, min_area, i - 1);
            lemma_candidate_sooner(buf, scan_start, min_area, rest[i - 1]);
        } else {
            assert(all[0] == here);
            assert(candidate(buf, scan_start, min_area, here));
        }
    } else {
        assert(all == rest);
        lemma_candidates_sound(buf, scan_start + 4, min_area, i);
        lemma_candidate_sooner(buf, scan_start, min_area, rest[i]);
    }
}

proof fn lemma_candidates_rise(buf: Seq<u8>, scan_start: int, min_area: int, i: int, j: int)
    requires
        0 <= scan_start,
        buf.len() <= usize::MAX,
        0 <= i < j < candidates(buf, scan_start, min_area).len(),
    ensures
        candidates(buf, scan_start, min_area)[i].offset < candidates(
            buf,
            scan_start,
            min_area,
        )[j].offset,
    decreases buf.len() - scan_start,
{
    let all = candidates(buf, scan_start, min_area);
    let rest = candidates(buf, scan_start + 4, min_area);
    if record_valid(buf, scan_start) && header_at(buf, scan_start).pixels() >= min_area {
        assert(all[j] == rest[j - 1]);
        if i > 0 {
            assert(all[i] == rest[i - 1]);
            lemma_candidates_rise(buf, scan_start + 4, min_area, i - 1, j - 1);
        } else {
            lemma_candidates_sound(buf, scan_start + 4, min_area, j - 1);
        }
    } else {
        lemma_candidates_rise(buf, scan_start + 4, min_area, i, j);
    }
}

proof fn lemma_candidates_complete(buf: Seq<u8>, scan_start: int, min_area: int, r: ImageRecord)
    requires
        0 <= scan_start,
        buf.len() <= usize::MAX,
        candidate(buf, scan_start, min_area, r),
    ensures
        candidates(buf, scan_start, min_area).contains(r),
    decreases buf.len() - scan_start,
{
    let all = candidates(buf, scan_start, min_area);
    let rest = candidates(buf, scan_start + 4, min_area);
    if r.offset == scan_start {
        assert(all[0] == r);
    } else {
        lemma_candidates_complete(buf, scan_start + 4, min_area, r);
        let k = choose|k: int| 0 <= k < rest.len() && rest[k] == r;
        if record_valid(buf, scan_start) && header_at(buf, scan_start).pixels() >= min_area {
            assert(all[k + 1] == r);
        } else {
            assert(all[k] == r);
        }
    }
}

/// The candidates are, by rising offset, exactly the pictures at the places looked at.
pub proof fn candidates_are_the_pictures(buf: Seq<u8>, scan_start: int, min_area: int)
    requires
        0 <= scan_start,
        buf.len() <= usize::MAX,
    ensures
        forall|i: int|
            0 <= i < candidates(buf, scan_start, min_area).len() ==> candidate(
                buf,
                scan_start,
                min_area,
                #[trigger] candidates(buf, scan_start, min_area)[i],
            ),
        forall|i: int, j: int|
            0 <= i < j < candidates(buf, scan_start, min_area).len() ==> candidates(
                buf,
                scan_start,
                min_area,
            )[i].offset < candidates(buf, scan_start, min_area)[j].offset,
        forall|r: ImageRecord| #[trigger]
            candidate(buf, scan_start, min_area, r) ==> candidates(
                buf,
                scan_start,
                min_area,
            ).contains(r),
{
    let all = candidates(buf, scan_start, min_area);
    assert forall|i: int| 0 <= i < all.len() implies candidate(
        buf,
        scan_start,
        min_area,
        #[trigger] all[i],
    ) by {
        lemma_candidates_sound(buf, scan_start, min_area, i);
    }
    assert forall|i: int, j: int| 0 <= i < j < all.len() implies all[i].offset < all[j].offset by {
        lemma_candidates_rise(buf, scan_start, min_area, i, j);
    }
    assert forall|r: ImageRecord| #[trigger]
        candidate(buf, scan_start, min_area, r) implies all.contains(r) by {
        lemma_candidates_complete(buf, scan_start, min_area, r);
    }
}

/// What a scan finds: pictures, in order and without overlap; and every picture at a place
/// looked at is among the finds or begins inside one of them.
pub proof fn scan_is_sound_and_complete(buf: Seq<u8>, scan_start: int, min_area: int)
    requires
        0 <= scan_start,
        buf.len() <= usize::MAX,
    ensures
        ({
            let found = without_overlaps(candidates(buf, scan_start, min_area), 0);
            &&& disjoint_in_order(found)
            &&& forall|i: int|
                0 <= i < found.len() ==> candidate(buf, scan_start, min_area, #[trigger] found[i])
            &&& forall|r: ImageRecord| #[trigger]
                candidate(buf, scan_start, min_area, r) ==> found.contains(r) || exists|k: int|
                    0 <= k < found.len() && (#[trigger] found[k]).offset <= r.offset < record_end(
                        found[k],
                    )
        }),
{
    let all = candidates(buf, scan_start, min_area);
    let found = without_overlaps(all, 0);
    candidates_are_the_pictures(buf, scan_start, min_area);
    remaining_records_are_disjoint(all, 0);
    assert forall|i: int| 0 <= i < found.len() implies candidate(
        buf,
        scan_start,
        min_area,
        #[trigger] found[i],
    ) by {
        assert(all.contains(found[i]));
        let k = choose|k: int| 0 <= k < all.len() && all[k] == found[i];
        assert(candidate(buf, scan_start, min_area, all[k]));
    }
    assert forall|r: ImageRecord| #[trigger]
        candidate(buf, scan_start, min_area, r) implies found.contains(r) || exists|k: int|
        0 <= k < found.len() && (#[trigger] found[k]).offset <= r.offset < record_end(found[k]) by {
        dropped_records_overlap(all, 0, r);
    }
}

/// Where a record ends follows from its header: twelve bytes, and two for each entry of the
/// palette and each word.
pub proof fn records_end_behind_their_words(r: ImageRecord)
    ensures
        record_end(r) == r.offset + 12 + 2 * r.header.palette_entries + 2 * r.header.rle_words,
{
}

/// Every picture of at least `min_area` pixels that begins a number of 4-byte steps behind the
/// start is found, or begins inside one that is; and only such pictures are found, in order, each
/// behind the end of the one before.
pub proof fn every_picture_is_found(buf: Seq<u8>, scan_start: int, min_area: int, r: ImageRecord)
    requires
        0 <= scan_start,
        buf.len() <= usize::MAX,
        record_valid(buf, r.offset as int),
        r.header == header_at(buf, r.offset as int),
        r.offset >= scan_start,
        (r.offset - scan_start) % 4 == 0,
        r.header.width * r.header.height >= min_area,
    ensures
        ({
            let found = without_overlaps(candidates(buf, scan_start, min_area), 0);
            &&& found.contains(r) || exists|k: int|
                0 <= k < found.len() && (#[trigger] found[k]).offset <= r.offset
                    < found[k].offset + 12 + 2 * found[k].header.palette_entries + 2
                    * found[k].header.rle_words
        }),
{
    scan_is_sound_and_complete(buf, scan_start, min_area);
    assert(candidate(buf, scan_start, min_area, r));
}

/// What is found: pictures of at least `min_area` pixels, each a number of 4-byte steps behind the
/// start and behind the end of those before it.
pub proof fn only_pictures_are_found(buf: Seq<u8>, scan_start: int, min_area: int, i: int, j: int)
    requires
        0 <= scan_start,
        buf.len() <= usize::MAX,
        0 <= i < j < without_overlaps(candidates(buf, scan_start, min_area), 0).len() || 0 <= i == j
            < without_overlaps(candidates(buf, scan_start, min_area), 0).len(),
    ensures
        ({
            let found = without_overlaps(candidates(buf, scan_start, min_area), 0);
            let (r, next) = (found[i], found[j]);
            &&& record_valid(buf, r.offset as int)
            &&& r.header == header_at(buf, r.offset as int)
            &&& r.offset >= scan_start
            &&& (r.offset - scan_start) % 4 == 0
            &&& r.header.width * r.header.height >= min_area
            &&& i < j ==> r.offset + 12 + 2 * r.header.palette_entries + 2 * r.header.rle_words
                <= next.offset
        }),
{
    scan_is_sound_and_complete(buf, scan_start, min_area);
    let found = without_overlaps(candidates(buf, scan_start, min_area), 0);
    assert(candidate(buf, scan_start, min_area, found[i]));
    if i < j {
        assert(record_end(found[i]) <= found[j].offset);
    }
}

/// Putting records in order keeps every one of them once, and lets none stand before one of a
/// smaller offset, nor records of one offset change places.
pub proof fn ordering_keeps_the_records(records: Seq<ImageRecord>, places: Seq<int>, p: int)
    requires
        by_offset(records, places),
        0 <= p < records.len(),
    ensures
        at_places(records, places).len() == records.len(),
        exists|i: int| 0 <= i < places.len() && #[trigger] places[i] == p,
        forall|i: int, j: int|
            0 <= i < places.len() && 0 <= j < places.len() && #[trigger] places[i] == p
                && #[trigger] places[j] == p ==> i == j,
        forall|i: int, j: int|
            0 <= i < j < places.len() ==> (#[trigger] at_places(records, places)[i]).offset <= (
            #[trigger] at_places(records, places)[j]).offset,
        forall|i: int, j: int|
            0 <= i < j < places.len() && records[places[i]].offset == records[places[j]].offset
                ==> #[trigger] places[i] < #[trigger] places[j],
        forall|i: int|
            0 <= i < places.len() ==> #[trigger] at_places(records, places)[i]
                == records[places[i]],
{
    lemma_all_places(records, places, p);
    let i = choose|i: int| 0 <= i < places.len() && places[i] == p;
    assert(places[i] == p);
    assert forall|i: int, j: int|
        0 <= i < places.len() && 0 <= j < places.len() && #[trigger] places[i] == p
            && #[trigger] places[j] == p implies i == j by {
        if i < j {
            assert(places[i] < places[j] || records[places[i]].offset < records[places[j]].offset);
        } else if j < i {
            assert(places[j] < places[i] || records[places[j]].offset < records[places[i]].offset);
        }
    }
    assert forall|i: int, j: int| 0 <= i < j < places.len() implies (#[trigger] at_places(
        records,
        places,
    )[i]).offset <= (#[trigger] at_places(records, places)[j]).offset by {
        assert(places[i] == places[i] && places[j] == places[j]);
        assert(records[places[i]].offset <= records[places[j]].offset);
    }
}

} // verus!
