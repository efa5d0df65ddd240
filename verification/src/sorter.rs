//! The tilesort driver and its two phases.
//!
//! The scan phase walks the input once, caches every key, detects run
//! boundaries and feeds each completed tile straight into the tile index.
//! The restructure phase copies tile contents from a snapshot of the input
//! into the destination positions dictated by index order.

use vstd::prelude::*;

verus! {

use vstd::relations::{sorted_by, total_ordering};
use vstd::seq_lib::group_to_multiset_ensures;
use vstd::seq_lib::lemma_sorted_unique;
use crate::key_extractor::{IdentityKey, KeyExtractor};
use crate::tile_index::{
    distinct_seq, in_tiles, insert_effect, insert_pre, key_le, lemma_subrange_split_ms,
    lemma_tiles_take_one, lemma_total_nonneg, lemma_total_take_skip, tile_covers, tile_end,
    tile_seg, tile_wf, tiles_chain, tiles_disjoint, tiles_elems, tiles_ms, tiles_total, tiles_wf,
    Tile, TileIndex,
};

/// `s` is ordered in the active direction: non-decreasing when ascending,
/// non-increasing when descending.
pub open spec fn sorted_in_dir(s: Seq<u64>, reverse: bool) -> bool {
    forall|i: int, j: int| 0 <= i < j < s.len() ==> key_le(reverse, s[i], s[j])
}

/// The keys that `e` assigns to the elements of `s`, position by position.
pub open spec fn key_seq<E: KeyExtractor>(e: &E, s: Seq<u64>) -> Seq<u64> {
    Seq::new(s.len(), |i: int| e.key_spec(s[i]))
}

/// Two key tables that agree on every position a tile set reaches support
/// the same well-formedness judgement.
proof fn lemma_tiles_wf_agree(ts: Seq<Tile>, keys1: Seq<u64>, keys2: Seq<u64>, reverse: bool)
    requires
        tiles_wf(ts, keys1, reverse),
        forall|k: int| 0 <= k < ts.len() ==> tile_end(#[trigger] ts[k]) <= keys2.len(),
        forall|i: int| 0 <= i < keys1.len() && i < keys2.len() ==> keys1[i] == keys2[i],
    ensures
        tiles_wf(ts, keys2, reverse),
{
    assert forall|k: int| 0 <= k < ts.len() implies tile_wf(#[trigger] ts[k], keys2, reverse) by {
        assert(tile_wf(ts[k], keys1, reverse));
        assert forall|i: int, j: int|
            ts[k].start_index <= i <= j < tile_end(ts[k]) implies key_le(
            reverse,
            keys2[i],
            keys2[j],
        ) by {
            assert(key_le(reverse, keys1[i], keys1[j]));
        }
    }
}

/// A well-formed, chained tile index concatenates to an ordered sequence,
/// every element of which comes no earlier than the first tile's key.
proof fn lemma_chain_sorted(ts: Seq<Tile>, keys: Seq<u64>, reverse: bool)
    requires
        tiles_wf(ts, keys, reverse),
        tiles_chain(ts, reverse),
    ensures
        sorted_in_dir(tiles_elems(ts, keys), reverse),
        forall|i: int|
            0 <= i < tiles_elems(ts, keys).len() ==> ts.len() > 0 && key_le(
                reverse,
                ts[0].tile_key,
                #[trigger] tiles_elems(ts, keys)[i],
            ),
    decreases ts.len(),
{
    if ts.len() > 0 {
        let head = ts[0];
        let rest = ts.drop_first();
        let seg = tile_seg(head, keys);
        let tail = tiles_elems(rest, keys);
        let whole = tiles_elems(ts, keys);
        assert forall|k: int| 0 <= k < rest.len() implies tile_wf(
            #[trigger] rest[k],
            keys,
            reverse,
        ) by {
            assert(rest[k] == ts[k + 1]);
        }
        assert forall|k1: int, k2: int| 0 <= k1 < k2 < rest.len() implies key_le(
            reverse,
            #[trigger] rest[k1].tile_key,
            #[trigger] rest[k2].tile_key,
        ) && tiles_disjoint(rest[k1], rest[k2]) by {
            assert(rest[k1] == ts[k1 + 1] && rest[k2] == ts[k2 + 1]);
        }
        assert forall|k: int| 0 <= k < rest.len() - 1 implies key_le(
            reverse,
            #[trigger] rest[k].end_key,
            rest[k + 1].tile_key,
        ) by {
            assert(rest[k] == ts[k + 1] && rest[k + 1] == ts[k + 2]);
        }
        lemma_chain_sorted(rest, keys, reverse);
        assert(whole == seg + tail);
        assert(seg.len() == head.count);
        assert forall|i: int, j: int| 0 <= i < j < whole.len() implies key_le(
            reverse,
            whole[i],
            whole[j],
        ) by {
            if j < seg.len() {
                assert(whole[i] == keys[head.start_index + i]);
                assert(whole[j] == keys[head.start_index + j]);
            } else if i >= seg.len() {
                assert(whole[i] == tail[i - seg.len()]);
                assert(whole[j] == tail[j - seg.len()]);
            } else {
                assert(whole[i] == keys[head.start_index + i]);
                assert(whole[j] == tail[j - seg.len()]);
                assert(key_le(reverse, keys[head.start_index + i], head.end_key));
                assert(rest.len() > 0);
                assert(rest[0] == ts[1]);
                assert(key_le(reverse, head.end_key, ts[1].tile_key));
                assert(key_le(reverse, rest[0].tile_key, tail[j - seg.len()]));
            }
        }
        assert forall|i: int| 0 <= i < whole.len() implies key_le(
            reverse,
            head.tile_key,
            whole[i],
        ) by {
            if i < seg.len() {
                assert(whole[i] == keys[head.start_index + i]);
            } else {
                assert(whole[i] == tail[i - seg.len()]);
                assert(rest[0] == ts[1]);
                assert(key_le(reverse, head.tile_key, head.end_key));
                assert(key_le(reverse, head.end_key, ts[1].tile_key));
                assert(key_le(reverse, rest[0].tile_key, tail[i - seg.len()]));
            }
        }
    }
}

/// Extracting keys commutes with concatenating tile segments.
proof fn lemma_tiles_elems_map<E: KeyExtractor>(e: &E, ts: Seq<Tile>, s: Seq<u64>)
    requires
        forall|k: int| 0 <= k < ts.len() ==> tile_end(#[trigger] ts[k]) <= s.len(),
    ensures
        key_seq(e, tiles_elems(ts, s)) == tiles_elems(ts, key_seq(e, s)),
    decreases ts.len(),
{
    let ks = key_seq(e, s);
    if ts.len() == 0 {
        assert(key_seq(e, tiles_elems(ts, s)) =~= tiles_elems(ts, ks));
    } else {
        let rest = ts.drop_first();
        assert forall|k: int| 0 <= k < rest.len() implies tile_end(#[trigger] rest[k]) <= s.len() by {
            assert(rest[k] == ts[k + 1]);
        }
        lemma_tiles_elems_map(e, rest, s);
        assert(tile_end(ts[0]) <= s.len());
        assert(key_seq(e, tile_seg(ts[0], s) + tiles_elems(rest, s)) =~= key_seq(
            e,
            tile_seg(ts[0], s),
        ) + key_seq(e, tiles_elems(rest, s)));
        assert(key_seq(e, tile_seg(ts[0], s)) =~= tile_seg(ts[0], ks));
    }
}

/// Phase 1: scan through the data and build the tile index.
///
/// Each maximal monotonic run is closed as soon as a break is seen and
/// inserted at once, because a later run's key range can fall between or
/// inside an earlier run's; the index's splitting resolves that online.
#[verifier::loop_isolation(false)]
#[verifier::rlimit(60)]
pub fn scan_phase<E: KeyExtractor>(data: &Vec<u64>, key_extractor: &E, reverse: bool) -> (r:
    TileIndex)
    requires
        data@.len() >= 1,
    ensures
        tiles_wf(r@, key_seq(key_extractor, data@), reverse),
        tiles_total(r@) == data@.len(),
        forall|s: Seq<u64>|
            s.len() >= data@.len() ==> #[trigger] tiles_ms(r@, s) == s.subrange(
                0,
                data@.len() as int,
            ).to_multiset(),
        distinct_seq(key_seq(key_extractor, data@)) ==> tiles_chain(r@, reverse),
        sorted_in_dir(key_seq(key_extractor, data@), reverse) ==> r@.len() == 1
            && r@[0].start_index == 0 && r@[0].count == data@.len(),
{
    let ghost kseq = key_seq(key_extractor, data@);
    let n = data.len();
    let mut tile_index = TileIndex::new();
    let mut element_keys: Vec<u64> = Vec::new();

    let d0 = data[0];
    let k0 = key_extractor.extract_key(&d0);
    element_keys.push(k0);
    assert(element_keys@ =~= kseq.subrange(0, 1));

    proof {
        assert(tiles_total(tile_index@) == 0);
        assert forall|s2: Seq<u64>| s2.len() >= 1 implies #[trigger] tiles_ms(tile_index@, s2)
            == s2.subrange(0, 0).to_multiset() by {
            assert(tiles_elems(tile_index@, s2) == Seq::<u64>::empty());
            assert(s2.subrange(0, 0) =~= Seq::<u64>::empty());
        }
    }
    let mut run_start: usize = 0;
    let mut idx: usize = 1;
    while idx < n
        invariant
            1 <= idx <= n,
            element_keys@ == kseq.subrange(0, idx as int),
            0 <= run_start < idx,
            tiles_wf(tile_index@, kseq, reverse),
            forall|i: int| in_tiles(tile_index@, i) ==> 0 <= i < run_start,
            tiles_total(tile_index@) == run_start,
            forall|i: int, j: int|
                run_start <= i <= j < idx ==> key_le(reverse, kseq[i], kseq[j]),
            forall|s2: Seq<u64>|
                s2.len() >= idx ==> #[trigger] tiles_ms(tile_index@, s2) == s2.subrange(
                    0,
                    run_start as int,
                ).to_multiset(),
            distinct_seq(kseq) ==> tiles_chain(tile_index@, reverse),
            sorted_in_dir(kseq, reverse) ==> run_start == 0 && tile_index@.len() == 0,
        decreases n - idx,
    {
        let d = data[idx];
        let key = key_extractor.extract_key(&d);
        element_keys.push(key);
        assert(element_keys@ =~= kseq.subrange(0, idx as int + 1));

        let prev_key = element_keys[idx - 1];
        assert(prev_key == kseq[idx as int - 1]);

        // A break: the new key would make the current run non-monotonic.
        let finish_tile = if reverse {
            key > prev_key
        } else {
            key < prev_key
        };

        if finish_tile {
            let ghost ts0 = tile_index@;
            let ghost ekeys = element_keys@;
            let start_key = element_keys[run_start];
            let new_tile = Tile::new(run_start, idx - run_start, start_key, prev_key);
            proof {
                assert(tile_wf(new_tile, ekeys, reverse)) by {
                    assert forall|i: int, j: int|
                        new_tile.start_index <= i <= j < tile_end(new_tile) implies key_le(
                        reverse,
                        ekeys[i],
                        ekeys[j],
                    ) by {
                        assert(ekeys[i] == kseq[i] && ekeys[j] == kseq[j]);
                        assert(key_le(reverse, kseq[i], kseq[j]));
                    }
                }
                assert forall|k: int| 0 <= k < ts0.len() implies tile_end(#[trigger] ts0[k])
                    <= ekeys.len() by {
                    assert(1 <= ts0[k].count);
                    assert(tile_covers(ts0[k], tile_end(ts0[k]) - 1));
                    assert(in_tiles(ts0, tile_end(ts0[k]) - 1));
                }
                lemma_tiles_wf_agree(ts0, kseq, ekeys, reverse);
                assert forall|k: int| 0 <= k < ts0.len() implies tiles_disjoint(
                    new_tile,
                    #[trigger] ts0[k],
                ) by {
                    assert(tile_covers(ts0[k], tile_end(ts0[k]) - 1));
                    assert(in_tiles(ts0, tile_end(ts0[k]) - 1));
                }
                assert(insert_pre(ts0, new_tile, ekeys, reverse));
                if distinct_seq(kseq) {
                    assert forall|i: int, j: int| 0 <= i < j < ekeys.len() implies ekeys[i]
                        != ekeys[j] by {
                        assert(ekeys[i] == kseq[i] && ekeys[j] == kseq[j]);
                    }
                    assert(distinct_seq(ekeys));
                }
            }
            tile_index.insert_tile(new_tile, &element_keys, reverse);
            proof {
                let ts1 = tile_index@;
                assert(insert_effect(ts0, ts1, new_tile, ekeys, reverse));
                assert forall|k: int| 0 <= k < ts1.len() implies tile_end(#[trigger] ts1[k])
                    <= kseq.len() by {
                    assert(tile_wf(ts1[k], ekeys, reverse));
                }
                lemma_tiles_wf_agree(ts1, ekeys, kseq, reverse);
                assert forall|s2: Seq<u64>| s2.len() >= idx + 1 implies #[trigger] tiles_ms(
                    ts1,
                    s2,
                ) == s2.subrange(0, idx as int).to_multiset() by {
                    assert(tiles_ms(ts1, s2) == tiles_ms(ts0, s2).add(
                        tile_seg(new_tile, s2).to_multiset(),
                    ));
                    assert(tiles_ms(ts0, s2) == s2.subrange(0, run_start as int).to_multiset());
                    lemma_subrange_split_ms(s2, 0, run_start as int, idx as int);
                }
                assert(sorted_in_dir(kseq, reverse) ==> false) by {
                    if sorted_in_dir(kseq, reverse) {
                        assert(key_le(reverse, kseq[idx - 1], kseq[idx as int]));
                    }
                }
            }
            run_start = idx;
        } else {
            proof {
                assert(key_le(reverse, kseq[idx as int - 1], kseq[idx as int]));
                assert forall|i: int, j: int|
                    run_start <= i <= j < idx + 1 implies key_le(reverse, kseq[i], kseq[j]) by {
                    if j == idx as int && i < j {
                        assert(key_le(reverse, kseq[i], kseq[idx as int - 1]));
                    }
                }
            }
        }
        idx = idx + 1;
    }

    // Close and insert the final run.
    assert(element_keys@ == kseq) by {
        assert(kseq.subrange(0, n as int) =~= kseq);
    }
    let ghost ts0 = tile_index@;
    let start_key = element_keys[run_start];
    let last_key = element_keys[n - 1];
    let final_tile = Tile::new(run_start, n - run_start, start_key, last_key);
    proof {
        assert(tile_wf(final_tile, kseq, reverse));
        assert forall|k: int| 0 <= k < ts0.len() implies tiles_disjoint(
            final_tile,
            #[trigger] ts0[k],
        ) by {
            assert(tile_covers(ts0[k], tile_end(ts0[k]) - 1));
            assert(in_tiles(ts0, tile_end(ts0[k]) - 1));
        }
        assert(insert_pre(ts0, final_tile, kseq, reverse));
    }
    tile_index.insert_tile(final_tile, &element_keys, reverse);
    proof {
        let ts1 = tile_index@;
        assert(insert_effect(ts0, ts1, final_tile, kseq, reverse));
        assert forall|s2: Seq<u64>| s2.len() >= n implies #[trigger] tiles_ms(ts1, s2)
            == s2.subrange(0, n as int).to_multiset() by {
            assert(tiles_ms(ts1, s2) == tiles_ms(ts0, s2).add(
                tile_seg(final_tile, s2).to_multiset(),
            ));
            assert(tiles_ms(ts0, s2) == s2.subrange(0, run_start as int).to_multiset());
            lemma_subrange_split_ms(s2, 0, run_start as int, n as int);
        }
        if sorted_in_dir(kseq, reverse) {
            assert(ts1.len() == 1);
            assert(ts1.drop_first() =~= Seq::<Tile>::empty());
            assert(tiles_total(Seq::<Tile>::empty()) == 0);
            assert(tiles_total(ts1) == ts1[0].count);
            assert(tile_end(ts1[0]) <= kseq.len());
        }
    }
    tile_index
}

/// Phase 2: copy tile contents from a snapshot of the original data into the
/// destination positions dictated by index order.
///
/// Copying verbatim suffices: each tile is internally monotonic and the
/// index order is the desired global order.
#[verifier::loop_isolation(false)]
pub fn restructure_phase(data: &mut Vec<u64>, tile_index: &TileIndex)
    requires
        tiles_total(tile_index@) == old(data)@.len(),
        forall|k: int|
            0 <= k < tile_index@.len() ==> 1 <= (#[trigger] tile_index@[k]).count && tile_end(
                tile_index@[k],
            ) <= old(data)@.len(),
    ensures
        final(data)@ == tiles_elems(tile_index@, old(data)@),
{
    let ghost ts = tile_index@;
    let n = data.len();

    // Snapshot the original data once.
    let mut original: Vec<u64> = Vec::new();
    let mut c: usize = 0;
    while c < n
        invariant
            c <= n,
            data@ == old(data)@,
            original@ == data@.subrange(0, c as int),
        decreases n - c,
    {
        original.push(data[c]);
        assert(original@ =~= data@.subrange(0, c as int + 1));
        c = c + 1;
    }
    assert(original@ =~= old(data)@);

    // Copy tiles in index order.
    let mut write_pos: usize = 0;
    let mut t: usize = 0;
    while t < tile_index.len()
        invariant
            t <= ts.len(),
            data@.len() == n,
            original@ == old(data)@,
            write_pos == tiles_total(ts.take(t as int)),
            0 <= write_pos <= n,
            data@.subrange(0, write_pos as int) == tiles_elems(ts.take(t as int), original@),
        decreases ts.len() - t,
    {
        let tile = tile_index.get(t).unwrap();
        let start = tile.start_idx();
        let cnt = tile.len();
        proof {
            lemma_tiles_take_one(ts, t as int, original@);
            lemma_total_take_skip(ts, t as int + 1, original@);
            lemma_total_nonneg(ts.skip(t as int + 1));
        }
        assert(write_pos + cnt <= n);

        let ghost before = data@;
        let mut j: usize = 0;
        while j < cnt
            invariant
                0 <= j <= cnt,
                data@.len() == n,
                write_pos + cnt <= n,
                start + cnt <= n,
                data@.subrange(0, write_pos as int) == before.subrange(0, write_pos as int),
                data@.subrange(write_pos as int, write_pos + j) == original@.subrange(
                    start as int,
                    start + j,
                ),
            decreases cnt - j,
        {
            let v = original[start + j];
            data[write_pos + j] = v;
            proof {
                let prev = before.subrange(0, write_pos as int);
                assert(data@.subrange(0, write_pos as int) =~= prev);
                assert(data@.subrange(write_pos as int, write_pos + j + 1) =~= original@.subrange(
                    start as int,
                    start + j + 1,
                ));
            }
            j = j + 1;
        }
        proof {
            assert(data@.subrange(0, (write_pos + cnt) as int) =~= data@.subrange(
                0,
                write_pos as int,
            ) + data@.subrange(write_pos as int, write_pos + cnt));
            assert(tile_seg(ts[t as int], original@) == original@.subrange(
                start as int,
                start + cnt,
            ));
            assert(data@.subrange(0, (write_pos + cnt) as int) == tiles_elems(
                ts.take(t as int + 1),
                original@,
            ));
        }
        write_pos = write_pos + cnt;
        t = t + 1;
    }
    proof {
        assert(ts.take(ts.len() as int) =~= ts);
        assert(data@.subrange(0, n as int) =~= data@);
    }
}

/// Main tilesort implementation with custom key extraction.
///
/// Sorts `data` in place by the keys `key_extractor` assigns: the result is
/// always a permutation of the input; with pairwise distinct keys it is
/// ordered in the requested direction; an input already ordered in the
/// requested direction, and any input of length at most one, is unchanged.
pub fn tilesort_impl_with_key<E: KeyExtractor>(data: &mut Vec<u64>, key_extractor: &E, reverse: bool)
    ensures
        final(data)@.to_multiset() == old(data)@.to_multiset(),
        final(data)@.len() == old(data)@.len(),
        distinct_seq(key_seq(key_extractor, old(data)@)) ==> sorted_in_dir(
            key_seq(key_extractor, final(data)@),
            reverse,
        ),
        sorted_in_dir(key_seq(key_extractor, old(data)@), reverse) ==> final(data)@ == old(
            data,
        )@,
        old(data)@.len() <= 1 ==> final(data)@ == old(data)@,
{
    let ghost orig = data@;
    let ghost kseq = key_seq(key_extractor, data@);
    if data.len() <= 1 {
        proof {
            assert(key_seq(key_extractor, data@).len() == data@.len());
        }
        return;
    }

    let n = data.len();

    // Phase 1: scan and build the tile index.
    let tile_index = scan_phase(data, key_extractor, reverse);
    let ghost ts = tile_index@;

    proof {
        assert forall|k: int|
            0 <= k < ts.len() implies 1 <= (#[trigger] ts[k]).count && tile_end(ts[k])
            <= orig.len() by {
            assert(tile_wf(ts[k], kseq, reverse));
        }
    }

    // Phase 2: restructure using the tile index.
    restructure_phase(data, &tile_index);

    proof {
        broadcast use group_to_multiset_ensures;

        assert(data@ == tiles_elems(ts, orig));
        assert(tiles_ms(ts, orig) == orig.subrange(0, n as int).to_multiset());
        assert(orig.subrange(0, n as int) =~= orig);
        assert(data@.to_multiset() == orig.to_multiset());
        assert(data@.to_multiset().len() == data@.len());
        assert(orig.to_multiset().len() == orig.len());
        if distinct_seq(kseq) {
            lemma_chain_sorted(ts, kseq, reverse);
            lemma_tiles_elems_map(key_extractor, ts, orig);
            assert(key_seq(key_extractor, data@) == tiles_elems(ts, kseq));
            assert(sorted_in_dir(key_seq(key_extractor, data@), reverse));
        }
        if sorted_in_dir(kseq, reverse) {
            assert(ts.len() == 1 && ts[0].start_index == 0 && ts[0].count == n);
            assert(ts.drop_first() =~= Seq::<Tile>::empty());
            assert(tiles_elems(Seq::<Tile>::empty(), orig) == Seq::<u64>::empty());
            assert(data@ == tile_seg(ts[0], orig) + Seq::<u64>::empty());
            assert(tile_seg(ts[0], orig) == orig.subrange(0, n as int));
            assert(data@ =~= orig);
        }
    }
}

/// Main tilesort implementation with the identity key.
///
/// Sorts `data` in place: the result is always a permutation of the input;
/// with pairwise distinct values it is ordered in the requested direction;
/// an input already ordered in the requested direction is unchanged.
pub fn tilesort_impl(data: &mut Vec<u64>, reverse: bool)
    ensures
        final(data)@.to_multiset() == old(data)@.to_multiset(),
        final(data)@.len() == old(data)@.len(),
        distinct_seq(old(data)@) ==> sorted_in_dir(final(data)@, reverse),
        sorted_in_dir(old(data)@, reverse) ==> final(data)@ == old(data)@,
        old(data)@.len() <= 1 ==> final(data)@ == old(data)@,
{
    let identity = IdentityKey;
    proof {
        assert(key_seq(&identity, old(data)@) =~= old(data)@);
    }
    tilesort_impl_with_key(data, &identity, reverse);
    proof {
        assert(key_seq(&identity, data@) =~= data@);
    }
}

/// Sorting ascending and then reversing the whole output yields exactly the
/// descending sort, for any input with pairwise distinct values: an ordered
/// permutation of such an input is unique in each direction.
pub proof fn lemma_reverse_of_ascending(input: Seq<u64>, ascending: Seq<u64>, descending: Seq<u64>)
    requires
        distinct_seq(input),
        ascending.to_multiset() == input.to_multiset(),
        sorted_in_dir(ascending, false),
        descending.to_multiset() == input.to_multiset(),
        sorted_in_dir(descending, true),
    ensures
        ascending.reverse() == descending,
{
    let geq = |a: u64, b: u64| a >= b;
    assert(total_ordering(geq)) by {
        assert forall|a: u64| #[trigger] geq(a, a) by {}
        assert forall|a: u64, b: u64| #[trigger] geq(a, b) && #[trigger] geq(b, a) implies a
            == b by {}
        assert forall|a: u64, b: u64, c: u64|
            #[trigger] geq(a, b) && #[trigger] geq(b, c) implies geq(a, c) by {}
        assert forall|a: u64, b: u64| #[trigger] geq(a, b) || #[trigger] geq(b, a) by {}
    }
    ascending.lemma_reverse_to_multiset();
    assert(sorted_by(ascending.reverse(), geq)) by {
        assert forall|i: int, j: int|
            0 <= i < j < ascending.reverse().len() implies #[trigger] geq(
            ascending.reverse()[i],
            ascending.reverse()[j],
        ) by {
            let len = ascending.len() as int;
            assert(ascending.reverse()[i] == ascending[len - 1 - i]);
            assert(ascending.reverse()[j] == ascending[len - 1 - j]);
            assert(key_le(false, ascending[len - 1 - j], ascending[len - 1 - i]));
        }
    }
    assert(sorted_by(descending, geq)) by {
        assert forall|i: int, j: int| 0 <= i < j < descending.len() implies #[trigger] geq(
            descending[i],
            descending[j],
        ) by {
            assert(key_le(true, descending[i], descending[j]));
        }
    }
    lemma_sorted_unique(ascending.reverse(), descending, geq);
}

} // verus!
