//! Tiles and the self-splitting, key-ordered tile index.
//!
//! A tile describes a contiguous index range of the original data whose keys
//! are monotonic in the active sort direction.  The tile index keeps tiles
//! ordered by tile key and with pairwise disjoint index ranges; inserting a
//! tile whose key range conflicts with a resident tile splits one of the two
//! at a boundary found by binary search over the cached keys.

use vstd::prelude::*;

verus! {

use vstd::multiset::Multiset;
use vstd::seq_lib::lemma_multiset_commutative;

/// `a` comes no later than `b` in the active direction.
pub open spec fn key_le(reverse: bool, a: u64, b: u64) -> bool {
    if reverse {
        a >= b
    } else {
        a <= b
    }
}

/// `a` comes strictly before `b` in the active direction.
pub open spec fn key_lt(reverse: bool, a: u64, b: u64) -> bool {
    if reverse {
        a > b
    } else {
        a < b
    }
}

/// A contiguous run of the original data, monotonic in the active direction.
///
/// A tile is never mutated after creation: a split replaces it with two new
/// tiles.
#[derive(Clone, Copy, Debug)]
pub struct Tile {
    /// Starting index in the original array.
    pub start_index: usize,
    /// Number of elements in this tile.
    pub count: usize,
    /// Key of the first element (the "tile key").
    pub tile_key: u64,
    /// Key of the last element (for range checking).
    pub end_key: u64,
}

/// The index one past the last element of `t`.
pub open spec fn tile_end(t: Tile) -> int {
    t.start_index + t.count
}

/// `t` covers the original index `i`.
pub open spec fn tile_covers(t: Tile, i: int) -> bool {
    t.start_index <= i < tile_end(t)
}

/// `t` is a well-formed descriptor over the cached key table `keys`:
/// non-empty, in bounds, monotonic in the active direction, and with its two
/// boundary keys equal to the keys of its first and last element.
pub open spec fn tile_wf(t: Tile, keys: Seq<u64>, reverse: bool) -> bool {
    &&& 1 <= t.count
    &&& tile_end(t) <= keys.len()
    &&& t.tile_key == keys[t.start_index as int]
    &&& t.end_key == keys[tile_end(t) - 1]
    &&& forall|i: int, j: int|
        t.start_index <= i <= j < tile_end(t) ==> key_le(reverse, keys[i], keys[j])
}

/// The index ranges of `a` and `b` share no position.
pub open spec fn tiles_disjoint(a: Tile, b: Tile) -> bool {
    tile_end(a) <= b.start_index || tile_end(b) <= a.start_index
}

/// The tile index invariant: every tile well formed, tiles ordered by tile
/// key in the active direction, and index ranges pairwise disjoint.
pub open spec fn tiles_wf(ts: Seq<Tile>, keys: Seq<u64>, reverse: bool) -> bool {
    &&& forall|k: int| 0 <= k < ts.len() ==> tile_wf(#[trigger] ts[k], keys, reverse)
    &&& forall|k1: int, k2: int|
        0 <= k1 < k2 < ts.len() ==> key_le(reverse, #[trigger] ts[k1].tile_key, #[trigger] ts[k2].tile_key)
    &&& forall|k1: int, k2: int|
        0 <= k1 < k2 < ts.len() ==> tiles_disjoint(#[trigger] ts[k1], #[trigger] ts[k2])
}

/// Adjacent tiles have non-conflicting key ranges: each tile's end key comes
/// no later than the next tile's tile key.  Together with well-formedness
/// this makes the concatenation of the tiles ordered.
pub open spec fn tiles_chain(ts: Seq<Tile>, reverse: bool) -> bool {
    forall|k: int| 0 <= k < ts.len() - 1 ==> key_le(reverse, #[trigger] ts[k].end_key, ts[k + 1].tile_key)
}

/// Some tile of `ts` covers the original index `i`.
pub open spec fn in_tiles(ts: Seq<Tile>, i: int) -> bool {
    exists|k: int| 0 <= k < ts.len() && tile_covers(#[trigger] ts[k], i)
}

/// The total number of elements covered by the tiles of `ts`.
pub open spec fn tiles_total(ts: Seq<Tile>) -> int
    decreases ts.len(),
{
    if ts.len() == 0 {
        0
    } else {
        ts[0].count + tiles_total(ts.drop_first())
    }
}

/// The segment of `s` that the tile `t` covers.
pub open spec fn tile_seg(t: Tile, s: Seq<u64>) -> Seq<u64> {
    s.subrange(t.start_index as int, tile_end(t))
}

/// The concatenation of the segments of `s` covered by the tiles of `ts`, in
/// index order.
pub open spec fn tiles_elems(ts: Seq<Tile>, s: Seq<u64>) -> Seq<u64>
    decreases ts.len(),
{
    if ts.len() == 0 {
        Seq::empty()
    } else {
        tile_seg(ts[0], s) + tiles_elems(ts.drop_first(), s)
    }
}

/// The multiset of the elements of `s` covered by the tiles of `ts`.
pub open spec fn tiles_ms(ts: Seq<Tile>, s: Seq<u64>) -> Multiset<u64> {
    tiles_elems(ts, s).to_multiset()
}

impl Tile {
    /// Build a tile descriptor from its four fields.
    pub fn new(start_index: usize, count: usize, tile_key: u64, end_key: u64) -> (t: Tile)
        ensures
            t == (Tile { start_index, count, tile_key, end_key }),
    {
        Tile { start_index, count, tile_key, end_key }
    }

    /// The tile's starting index in the original array.
    pub fn start_idx(&self) -> (r: usize)
        ensures
            r == self.start_index,
    {
        self.start_index
    }

    /// The index one past the tile's last element.
    pub fn end_idx(&self) -> (r: usize)
        requires
            tile_end(*self) <= usize::MAX,
        ensures
            r == tile_end(*self),
    {
        self.start_index + self.count
    }

    /// The index of the tile's last element.
    pub fn end_index(&self) -> (r: usize)
        requires
            1 <= self.count,
            tile_end(*self) <= usize::MAX,
        ensures
            r == tile_end(*self) - 1,
    {
        self.end_idx() - 1
    }

    /// The number of elements in the tile.
    pub fn len(&self) -> (r: usize)
        ensures
            r == self.count,
    {
        self.count
    }

    /// Binary search over the cached keys restricted to this tile's range:
    /// the position where `split_key` would be inserted to keep the range
    /// ordered in the active direction.
    pub fn find_split_point(&self, element_keys: &Vec<u64>, split_key: u64, reverse: bool) -> (r:
        usize)
        requires
            tile_wf(*self, element_keys@, reverse),
        ensures
            self.start_index <= r <= tile_end(*self),
            forall|i: int|
                self.start_index <= i < r ==> key_lt(reverse, element_keys@[i], split_key),
            forall|i: int|
                r <= i < tile_end(*self) ==> key_le(reverse, split_key, element_keys@[i]),
    {
        let n = element_keys.len();
        let mut lo: usize = self.start_index;
        let mut hi: usize = self.start_index + self.count;
        while lo < hi
            invariant
                self.start_index <= lo <= hi <= tile_end(*self),
                tile_wf(*self, element_keys@, reverse),
                forall|i: int|
                    self.start_index <= i < lo ==> key_lt(reverse, element_keys@[i], split_key),
                forall|i: int|
                    hi <= i < tile_end(*self) ==> key_le(reverse, split_key, element_keys@[i]),
            decreases hi - lo,
        {
            let mid: usize = lo + (hi - lo) / 2;
            let k = element_keys[mid];
            let before = if reverse {
                k > split_key
            } else {
                k < split_key
            };
            if before {
                assert forall|i: int| self.start_index <= i < mid + 1 implies key_lt(
                    reverse,
                    element_keys@[i],
                    split_key,
                ) by {
                    if lo <= i <= mid {
                        assert(key_le(reverse, element_keys@[i], element_keys@[mid as int]));
                    }
                }
                lo = mid + 1;
            } else {
                assert forall|i: int| mid <= i < tile_end(*self) implies key_le(
                    reverse,
                    split_key,
                    element_keys@[i],
                ) by {
                    assert(key_le(reverse, element_keys@[mid as int], element_keys@[i]));
                }
                hi = mid;
            }
        }
        lo
    }
}

/// Concatenating tile sequences concatenates their segments, adds their
/// totals, and unions their coverage.
pub proof fn lemma_tiles_concat(ts1: Seq<Tile>, ts2: Seq<Tile>, s: Seq<u64>)
    ensures
        tiles_elems(ts1 + ts2, s) == tiles_elems(ts1, s) + tiles_elems(ts2, s),
        tiles_total(ts1 + ts2) == tiles_total(ts1) + tiles_total(ts2),
    decreases ts1.len(),
{
    if ts1.len() == 0 {
        assert(ts1 + ts2 =~= ts2);
        assert(tiles_elems(ts1, s) + tiles_elems(ts2, s) =~= tiles_elems(ts2, s));
    } else {
        lemma_tiles_concat(ts1.drop_first(), ts2, s);
        assert((ts1 + ts2).drop_first() =~= ts1.drop_first() + ts2);
        assert((ts1 + ts2)[0] == ts1[0]);
        assert(tile_seg(ts1[0], s) + (tiles_elems(ts1.drop_first(), s) + tiles_elems(ts2, s)) =~= (
        tile_seg(ts1[0], s) + tiles_elems(ts1.drop_first(), s)) + tiles_elems(ts2, s));
    }
}

/// Coverage of a concatenation is the union of the two coverages.
pub proof fn lemma_in_tiles_concat(ts1: Seq<Tile>, ts2: Seq<Tile>)
    ensures
        forall|i: int| in_tiles(ts1 + ts2, i) <==> in_tiles(ts1, i) || in_tiles(ts2, i),
{
    assert forall|i: int| in_tiles(ts1 + ts2, i) implies in_tiles(ts1, i) || in_tiles(ts2, i) by {
        let k = choose|k: int| 0 <= k < (ts1 + ts2).len() && tile_covers(#[trigger] (ts1 + ts2)[k], i);
        if k < ts1.len() {
            assert(tile_covers(ts1[k], i));
        } else {
            assert(tile_covers(ts2[k - ts1.len()], i));
        }
    }
    assert forall|i: int| in_tiles(ts1, i) implies in_tiles(ts1 + ts2, i) by {
        let k = choose|k: int| 0 <= k < ts1.len() && tile_covers(#[trigger] ts1[k], i);
        assert(tile_covers((ts1 + ts2)[k], i));
    }
    assert forall|i: int| in_tiles(ts2, i) implies in_tiles(ts1 + ts2, i) by {
        let k = choose|k: int| 0 <= k < ts2.len() && tile_covers(#[trigger] ts2[k], i);
        assert(tile_covers((ts1 + ts2)[k + ts1.len()], i));
    }
}

/// Inserting a tile adds its segment to the element multiset, its count to
/// the total, and its range to the coverage.
pub proof fn lemma_tiles_insert(ts: Seq<Tile>, pos: int, t: Tile, s: Seq<u64>)
    requires
        0 <= pos <= ts.len(),
    ensures
        tiles_ms(ts.insert(pos, t), s) == tiles_ms(ts, s).add(tile_seg(t, s).to_multiset()),
        tiles_total(ts.insert(pos, t)) == tiles_total(ts) + t.count,
        forall|i: int| in_tiles(ts.insert(pos, t), i) <==> in_tiles(ts, i) || tile_covers(t, i),
{
    let single = seq![t];
    let left = ts.take(pos);
    let right = ts.skip(pos);
    assert(ts.insert(pos, t) =~= (left + single) + right);
    assert(ts =~= left + right);
    assert(tiles_elems(Seq::<Tile>::empty(), s) == Seq::<u64>::empty());
    assert(tiles_total(Seq::<Tile>::empty()) == 0);
    assert(single.drop_first() =~= Seq::<Tile>::empty());
    assert(tiles_elems(single, s) == tile_seg(t, s) + Seq::<u64>::empty());
    assert(tile_seg(t, s) + Seq::<u64>::empty() =~= tile_seg(t, s));
    assert(tiles_total(single) == t.count);
    lemma_tiles_concat(left, single, s);
    lemma_tiles_concat(left + single, right, s);
    lemma_tiles_concat(left, right, s);
    lemma_in_tiles_concat(left, single);
    lemma_in_tiles_concat(left + single, right);
    lemma_in_tiles_concat(left, right);
    assert forall|i: int| in_tiles(single, i) <==> tile_covers(t, i) by {
        if tile_covers(t, i) {
            assert(tile_covers(single[0], i));
        }
    }
    assert forall|i: int|
        in_tiles(ts.insert(pos, t), i) <==> in_tiles(ts, i) || tile_covers(t, i) by {
        assert(in_tiles((left + single) + right, i) <==> in_tiles(left + single, i) || in_tiles(
            right,
            i,
        ));
        assert(in_tiles(left + right, i) <==> in_tiles(left, i) || in_tiles(right, i));
        assert(in_tiles(left + single, i) <==> in_tiles(left, i) || in_tiles(single, i));
    }
    lemma_multiset_commutative(tiles_elems(left + single, s), tiles_elems(right, s));
    lemma_multiset_commutative(tiles_elems(left, s), tiles_elems(single, s));
    lemma_multiset_commutative(tiles_elems(left, s), tiles_elems(right, s));
    assert(tiles_ms(ts.insert(pos, t), s) =~= tiles_ms(ts, s).add(tile_seg(t, s).to_multiset()));
}

/// Removing a tile subtracts its segment from the element multiset and its
/// count from the total; coverage loses at most that tile's range.
pub proof fn lemma_tiles_remove(ts: Seq<Tile>, pos: int, s: Seq<u64>)
    requires
        0 <= pos < ts.len(),
    ensures
        tiles_ms(ts, s) == tiles_ms(ts.remove(pos), s).add(tile_seg(ts[pos], s).to_multiset()),
        tiles_total(ts.remove(pos)) == tiles_total(ts) - ts[pos].count,
        forall|i: int|
            in_tiles(ts, i) <==> in_tiles(ts.remove(pos), i) || tile_covers(ts[pos], i),
{
    assert(ts =~= ts.remove(pos).insert(pos, ts[pos]));
    lemma_tiles_insert(ts.remove(pos), pos, ts[pos], s);
}

/// A middle boundary splits a subrange's multiset into the two sides' sum.
pub proof fn lemma_subrange_split_ms(s: Seq<u64>, a: int, b: int, c: int)
    requires
        0 <= a <= b <= c <= s.len(),
    ensures
        s.subrange(a, c).to_multiset() == s.subrange(a, b).to_multiset().add(
            s.subrange(b, c).to_multiset(),
        ),
{
    assert(s.subrange(a, c) =~= s.subrange(a, b) + s.subrange(b, c));
    lemma_multiset_commutative(s.subrange(a, b), s.subrange(b, c));
}

/// Taking one more tile appends its segment and adds its count.
pub proof fn lemma_tiles_take_one(ts: Seq<Tile>, t: int, s: Seq<u64>)
    requires
        0 <= t < ts.len(),
    ensures
        tiles_elems(ts.take(t + 1), s) == tiles_elems(ts.take(t), s) + tile_seg(ts[t], s),
        tiles_total(ts.take(t + 1)) == tiles_total(ts.take(t)) + ts[t].count,
{
    let single = seq![ts[t]];
    assert(ts.take(t + 1) =~= ts.take(t) + single);
    lemma_tiles_concat(ts.take(t), single, s);
    assert(tiles_elems(Seq::<Tile>::empty(), s) == Seq::<u64>::empty());
    assert(tiles_total(Seq::<Tile>::empty()) == 0);
    assert(single.drop_first() =~= Seq::<Tile>::empty());
    assert(tiles_elems(single, s) == tile_seg(ts[t], s) + Seq::<u64>::empty());
    assert(tile_seg(ts[t], s) + Seq::<u64>::empty() =~= tile_seg(ts[t], s));
    assert(tiles_total(single) == ts[t].count);
}

/// The total splits across a prefix and the matching suffix.
pub proof fn lemma_total_take_skip(ts: Seq<Tile>, t: int, s: Seq<u64>)
    requires
        0 <= t <= ts.len(),
    ensures
        tiles_total(ts) == tiles_total(ts.take(t)) + tiles_total(ts.skip(t)),
{
    assert(ts =~= ts.take(t) + ts.skip(t));
    lemma_tiles_concat(ts.take(t), ts.skip(t), s);
}

/// In a well-formed, chained index, the key range of an earlier tile ends no
/// later than a strictly later tile's range begins.
pub proof fn lemma_key_ranges_separated(
    ts: Seq<Tile>,
    keys: Seq<u64>,
    reverse: bool,
    k1: int,
    k2: int,
)
    requires
        tiles_wf(ts, keys, reverse),
        tiles_chain(ts, reverse),
        0 <= k1 < k2 < ts.len(),
    ensures
        key_le(reverse, ts[k1].end_key, ts[k2].tile_key),
    decreases k2 - k1,
{
    if k1 + 1 < k2 {
        lemma_key_ranges_separated(ts, keys, reverse, k1, k2 - 1);
        let prev = ts[k2 - 1];
        assert(key_le(reverse, keys[prev.start_index as int], keys[tile_end(prev) - 1]));
    }
}

/// With every tile non-empty, the total covers at least one element per tile.
pub proof fn lemma_total_ge_len(ts: Seq<Tile>)
    requires
        forall|k: int| 0 <= k < ts.len() ==> 1 <= (#[trigger] ts[k]).count,
    ensures
        tiles_total(ts) >= ts.len(),
    decreases ts.len(),
{
    if ts.len() > 0 {
        assert(forall|k: int|
            0 <= k < ts.drop_first().len() ==> 1 <= (#[trigger] ts.drop_first()[k]).count);
        lemma_total_ge_len(ts.drop_first());
    }
}

/// The total is never negative.
pub proof fn lemma_total_nonneg(ts: Seq<Tile>)
    ensures
        tiles_total(ts) >= 0,
    decreases ts.len(),
{
    if ts.len() > 0 {
        lemma_total_nonneg(ts.drop_first());
    }
}

/// `k` lies strictly inside the open key range of `t`.
pub open spec fn key_within(reverse: bool, k: u64, t: Tile) -> bool {
    key_lt(reverse, t.tile_key, k) && key_lt(reverse, k, t.end_key)
}

/// No two positions of `s` hold the same value.
pub open spec fn distinct_seq(s: Seq<u64>) -> bool {
    forall|i: int, j: int| 0 <= i < j < s.len() ==> s[i] != s[j]
}

/// What a caller must establish before inserting `t` into the index `pre`.
pub open spec fn insert_pre(pre: Seq<Tile>, t: Tile, keys: Seq<u64>, reverse: bool) -> bool {
    &&& tiles_wf(pre, keys, reverse)
    &&& tile_wf(t, keys, reverse)
    &&& forall|k: int| 0 <= k < pre.len() ==> tiles_disjoint(t, #[trigger] pre[k])
}

/// The net effect of admitting `t` into the index: the invariants hold again,
/// at least one tile was added, exactly `t`'s elements joined the coverage,
/// and (for distinct keys) adjacent key ranges still do not conflict.
pub open spec fn insert_effect(
    pre: Seq<Tile>,
    post: Seq<Tile>,
    t: Tile,
    keys: Seq<u64>,
    reverse: bool,
) -> bool {
    &&& tiles_wf(post, keys, reverse)
    &&& post.len() > pre.len()
    &&& (pre.len() == 0 ==> post.len() == 1)
    &&& tiles_total(post) == tiles_total(pre) + t.count
    &&& forall|i: int| in_tiles(post, i) ==> in_tiles(pre, i) || tile_covers(t, i)
    &&& forall|s: Seq<u64>|
        s.len() >= keys.len() ==> #[trigger] tiles_ms(post, s) == tiles_ms(pre, s).add(
            tile_seg(t, s).to_multiset(),
        )
    &&& (distinct_seq(keys) && tiles_chain(pre, reverse)) ==> tiles_chain(post, reverse)
}

/// With distinct keys, a resident tile whose tile key does not come after the
/// incoming tile's, and whose open key range does not contain it, ends no
/// later than the incoming tile begins.
proof fn lemma_neighbor_clear(
    ts: Seq<Tile>,
    t: Tile,
    k: int,
    keys: Seq<u64>,
    reverse: bool,
)
    requires
        tiles_wf(ts, keys, reverse),
        tile_wf(t, keys, reverse),
        distinct_seq(keys),
        0 <= k < ts.len(),
        tiles_disjoint(t, ts[k]),
        key_le(reverse, ts[k].tile_key, t.tile_key),
        !key_within(reverse, t.tile_key, ts[k]),
    ensures
        key_le(reverse, ts[k].end_key, t.tile_key),
{
    let cur = ts[k];
    if cur.tile_key == t.tile_key {
        assert(cur.start_index != t.start_index);
        assert(keys[cur.start_index as int] != keys[t.start_index as int]);
        assert(false);
    }
}

/// Inserting a tile at a position consistent with the tile-key order, with a
/// range disjoint from every resident tile, preserves the index invariants.
proof fn lemma_plain_insert_wf(ts: Seq<Tile>, pos: int, t: Tile, keys: Seq<u64>, reverse: bool)
    requires
        tiles_wf(ts, keys, reverse),
        tile_wf(t, keys, reverse),
        forall|k: int| 0 <= k < ts.len() ==> tiles_disjoint(t, #[trigger] ts[k]),
        0 <= pos <= ts.len(),
        forall|k: int| 0 <= k < pos ==> key_le(reverse, #[trigger] ts[k].tile_key, t.tile_key),
        pos < ts.len() ==> key_lt(reverse, t.tile_key, ts[pos].tile_key),
    ensures
        tiles_wf(ts.insert(pos, t), keys, reverse),
{
    let ts1 = ts.insert(pos, t);
    assert forall|k: int| 0 <= k < ts1.len() implies tile_wf(#[trigger] ts1[k], keys, reverse) by {
        if k < pos {
            assert(ts1[k] == ts[k]);
        } else if k == pos {
        } else {
            assert(ts1[k] == ts[k - 1]);
        }
    }
    assert forall|k1: int, k2: int| 0 <= k1 < k2 < ts1.len() implies key_le(
        reverse,
        #[trigger] ts1[k1].tile_key,
        #[trigger] ts1[k2].tile_key,
    ) && tiles_disjoint(ts1[k1], ts1[k2]) by {
        let o1: int = if k1 < pos { k1 } else { k1 - 1 };
        let o2: int = if k2 < pos { k2 } else { k2 - 1 };
        if k1 != pos {
            assert(ts1[k1] == ts[o1]);
        }
        if k2 != pos {
            assert(ts1[k2] == ts[o2]);
        }
        if k1 == pos {
            assert(key_lt(reverse, t.tile_key, ts[pos].tile_key));
            if o2 > pos {
                assert(key_le(reverse, ts[pos].tile_key, ts[o2].tile_key));
            }
        } else if k2 == pos {
            assert(key_le(reverse, ts[o1].tile_key, t.tile_key));
        }
    }
}

/// The ordered collection of tiles, maintained sorted by tile key and with
/// pairwise disjoint index ranges, supporting insertion with splitting.
#[derive(Debug)]
pub struct TileIndex {
    tiles: Vec<Tile>,
}

impl View for TileIndex {
    type V = Seq<Tile>;

    closed spec fn view(&self) -> Seq<Tile> {
        self.tiles@
    }
}

impl TileIndex {
    /// An empty tile index.
    pub fn new() -> (r: TileIndex)
        ensures
            r@ == Seq::<Tile>::empty(),
            r@.len() == 0,
    {
        TileIndex { tiles: Vec::new() }
    }

    /// The number of tiles currently held.
    pub fn len(&self) -> (r: usize)
        ensures
            r == self@.len(),
    {
        self.tiles.len()
    }

    /// Whether the index holds no tile.
    pub fn is_empty(&self) -> (r: bool)
        ensures
            r == (self@.len() == 0),
    {
        self.tiles.len() == 0
    }

    /// The tile at `index`, or `None` past the end.
    pub fn get(&self, index: usize) -> (r: Option<Tile>)
        ensures
            match r {
                Some(t) => index < self@.len() && t == self@[index as int],
                None => self@.len() <= index,
            },
    {
        if index < self.tiles.len() {
            Some(self.tiles[index])
        } else {
            None
        }
    }

    /// The tiles in index order, as a fresh vector of copies.
    pub fn iter(&self) -> (r: Vec<Tile>)
        ensures
            r@ == self@,
    {
        let mut r: Vec<Tile> = Vec::new();
        let mut i: usize = 0;
        while i < self.tiles.len()
            invariant
                i <= self@.len(),
                r@ == self@.subrange(0, i as int),
            decreases self@.len() - i,
        {
            r.push(self.tiles[i]);
            assert(r@ =~= self@.subrange(0, i as int + 1));
            i = i + 1;
        }
        assert(r@ =~= self@);
        r
    }

    /// Insert `tile` at position `index`, shifting later tiles.
    pub fn insert(&mut self, index: usize, tile: Tile)
        requires
            index <= old(self)@.len(),
        ensures
            final(self)@ == old(self)@.insert(index as int, tile),
    {
        self.tiles.insert(index, tile);
    }

    /// Append `tile` at the end.
    pub fn push(&mut self, tile: Tile)
        ensures
            final(self)@ == old(self)@.push(tile),
    {
        self.tiles.push(tile);
    }

    /// Insert a new tile into the tile index, splitting the new tile or a
    /// resident tile when their key ranges conflict.
    ///
    /// The tile index invariants hold again when the call returns, exactly
    /// the new tile's elements have joined the coverage, and — when the
    /// cached keys are pairwise distinct — adjacent tiles' key ranges still
    /// do not conflict, so concatenation order remains the sorted order.
    #[verifier::loop_isolation(false)]
    #[verifier::rlimit(100)]
    pub fn insert_tile(&mut self, new_tile: Tile, element_keys: &Vec<u64>, reverse: bool)
        requires
            insert_pre(old(self)@, new_tile, element_keys@, reverse),
        ensures
            insert_effect(old(self)@, final(self)@, new_tile, element_keys@, reverse),
        decreases new_tile.count + tiles_total(old(self)@) - old(self)@.len(), 1int,
    {
        let ghost ts0 = self@;
        let ghost keys = element_keys@;

        // If this is the first tile, just add it.
        if self.is_empty() {
            self.push(new_tile);
            proof {
                assert(self@ =~= ts0.insert(0, new_tile));
                lemma_plain_insert_wf(ts0, 0, new_tile, keys, reverse);
                assert(tiles_total(self@) == tiles_total(ts0) + new_tile.count) by {
                    lemma_tiles_insert(ts0, 0, new_tile, keys);
                }
                assert forall|i: int| in_tiles(self@, i) implies in_tiles(ts0, i) || tile_covers(
                    new_tile,
                    i,
                ) by {
                    lemma_tiles_insert(ts0, 0, new_tile, keys);
                }
                assert forall|s: Seq<u64>| s.len() >= keys.len() implies #[trigger] tiles_ms(
                    self@,
                    s,
                ) == tiles_ms(ts0, s).add(tile_seg(new_tile, s).to_multiset()) by {
                    lemma_tiles_insert(ts0, 0, new_tile, s);
                }
            }
            return;
        }

        // Find where the new tile's key should be inserted, checking every
        // tile passed over for containment of the new tile's key.
        let mut insert_position: usize = self.len();
        let mut i: usize = 0;
        let mut found_position: bool = false;
        while !found_position && i < self.len()
            invariant
                self@ == ts0,
                0 <= i <= ts0.len(),
                !found_position ==> insert_position == ts0.len(),
                found_position ==> insert_position == i && i < ts0.len() && key_lt(
                    reverse,
                    new_tile.tile_key,
                    ts0[i as int].tile_key,
                ),
                forall|k: int|
                    0 <= k < i ==> key_le(reverse, #[trigger] ts0[k].tile_key, new_tile.tile_key),
                forall|k: int| 0 <= k < i ==> !key_within(reverse, new_tile.tile_key, #[trigger] ts0[k]),
            decreases ts0.len() - i + (if found_position { 0int } else { 1int }),
        {
            let current = self.get(i).unwrap();

            let should_insert_before = if reverse {
                new_tile.tile_key > current.tile_key
            } else {
                new_tile.tile_key < current.tile_key
            };

            if should_insert_before {
                insert_position = i;
                found_position = true;
                continue ;
            }

            // Check whether the new tile's key falls strictly inside this
            // resident tile's key range: then the resident tile is split.
            let new_within_existing = if reverse {
                new_tile.tile_key < current.tile_key && new_tile.tile_key > current.end_key
            } else {
                new_tile.tile_key > current.tile_key && new_tile.tile_key < current.end_key
            };

            if new_within_existing {
                self.split_existing_and_insert(i, new_tile, element_keys, reverse);
                return;
            }

            i = i + 1;
        }

        // Check whether the new tile's key range extends past the tile that
        // would follow it: then the new tile itself is split.
        let mut j: usize = insert_position;
        while j < self.len()
            invariant
                self@ == ts0,
                insert_position <= j <= ts0.len(),
                forall|k: int|
                    insert_position <= k < j ==> key_le(
                        reverse,
                        new_tile.end_key,
                        #[trigger] ts0[k].tile_key,
                    ),
            decreases ts0.len() - j,
        {
            let existing = self.get(j).unwrap();

            let overlaps = if reverse {
                new_tile.end_key < existing.tile_key
            } else {
                new_tile.end_key > existing.tile_key
            };

            if overlaps {
                self.split_new_tile_and_insert(
                    new_tile,
                    element_keys,
                    insert_position,
                    j,
                    reverse,
                );
                return;
            }

            j = j + 1;
        }

        // No conflict: insert unmodified.
        self.insert(insert_position, new_tile);
        proof {
            let pos = insert_position as int;
            assert(self@ == ts0.insert(pos, new_tile));
            lemma_plain_insert_wf(ts0, pos, new_tile, keys, reverse);
            lemma_tiles_insert(ts0, pos, new_tile, keys);
            assert forall|s: Seq<u64>| s.len() >= keys.len() implies #[trigger] tiles_ms(
                self@,
                s,
            ) == tiles_ms(ts0, s).add(tile_seg(new_tile, s).to_multiset()) by {
                lemma_tiles_insert(ts0, pos, new_tile, s);
            }
            if distinct_seq(keys) && tiles_chain(ts0, reverse) {
                assert forall|k: int| 0 <= k < self@.len() - 1 implies key_le(
                    reverse,
                    #[trigger] self@[k].end_key,
                    self@[k + 1].tile_key,
                ) by {
                    if k + 1 < pos {
                        assert(self@[k] == ts0[k] && self@[k + 1] == ts0[k + 1]);
                    } else if k + 1 == pos {
                        assert(self@[k] == ts0[k]);
                        lemma_neighbor_clear(ts0, new_tile, k, keys, reverse);
                    } else if k == pos {
                        assert(self@[k + 1] == ts0[k]);
                        assert(key_le(reverse, new_tile.end_key, ts0[pos].tile_key));
                    } else {
                        assert(self@[k] == ts0[k - 1] && self@[k + 1] == ts0[k]);
                    }
                }
            }
        }
    }

    /// Split the new tile at the key where the next resident tile begins,
    /// keep the first piece at the insertion point, and recursively insert
    /// the second piece, which may overlap further tiles.
    #[verifier::rlimit(100)]
    fn split_new_tile_and_insert(
        &mut self,
        new_tile: Tile,
        element_keys: &Vec<u64>,
        insert_position: usize,
        overlapping_tile_index: usize,
        reverse: bool,
    )
        requires
            insert_pre(old(self)@, new_tile, element_keys@, reverse),
            insert_position <= overlapping_tile_index < old(self)@.len(),
            key_lt(
                reverse,
                new_tile.tile_key,
                old(self)@[insert_position as int].tile_key,
            ),
            key_lt(
                reverse,
                old(self)@[overlapping_tile_index as int].tile_key,
                new_tile.end_key,
            ),
            forall|k: int|
                0 <= k < insert_position ==> key_le(
                    reverse,
                    #[trigger] old(self)@[k].tile_key,
                    new_tile.tile_key,
                ),
            forall|k: int|
                0 <= k < insert_position ==> !key_within(
                    reverse,
                    new_tile.tile_key,
                    #[trigger] old(self)@[k],
                ),
            forall|k: int|
                insert_position <= k < overlapping_tile_index ==> key_le(
                    reverse,
                    new_tile.end_key,
                    #[trigger] old(self)@[k].tile_key,
                ),
        ensures
            insert_effect(old(self)@, final(self)@, new_tile, element_keys@, reverse),
        decreases new_tile.count + tiles_total(old(self)@) - old(self)@.len(), 0int,
    {
        let ghost ts0 = self@;
        let ghost keys = element_keys@;
        let n = element_keys.len();

        // The key where the overlapping resident tile's range begins.
        let overlapping_tile = self.get(overlapping_tile_index).unwrap();
        let split_key = overlapping_tile.tile_key;

        let split_point = new_tile.find_split_point(element_keys, split_key, reverse);

        // The split point is strictly interior to the new tile: its first key
        // comes before the split key and its last key after it.
        proof {
            assert(key_lt(reverse, new_tile.tile_key, split_key));
            if split_point == new_tile.start_index {
                assert(key_le(reverse, split_key, keys[new_tile.start_index as int]));
                assert(false);
            }
            if split_point >= tile_end(new_tile) {
                assert(key_lt(reverse, keys[tile_end(new_tile) - 1], split_key));
                assert(false);
            }
        }
        assert(new_tile.start_index < split_point < tile_end(new_tile));

        let first_piece = Tile::new(
            new_tile.start_index,
            split_point - new_tile.start_index,
            new_tile.tile_key,
            element_keys[split_point - 1],
        );

        let second_piece = Tile::new(
            split_point,
            (new_tile.start_index + new_tile.count) - split_point,
            element_keys[split_point],
            new_tile.end_key,
        );

        proof {
            assert(tile_wf(first_piece, keys, reverse));
            assert(tile_wf(second_piece, keys, reverse));
        }

        // Insert the first piece at the insertion point.
        self.insert(insert_position, first_piece);

        let ghost ts1 = self@;
        let ghost pos = insert_position as int;
        proof {
            assert(ts1 == ts0.insert(pos, first_piece));
            lemma_plain_insert_wf(ts0, pos, first_piece, keys, reverse);
            lemma_tiles_insert(ts0, pos, first_piece, keys);
            lemma_total_ge_len(ts1);
            assert forall|k: int| 0 <= k < ts1.len() implies tiles_disjoint(
                second_piece,
                #[trigger] ts1[k],
            ) by {
                if k < pos {
                    assert(ts1[k] == ts0[k]);
                } else if k > pos {
                    assert(ts1[k] == ts0[k - 1]);
                }
            }
            if distinct_seq(keys) && tiles_chain(ts0, reverse) {
                assert forall|k: int| 0 <= k < ts1.len() - 1 implies key_le(
                    reverse,
                    #[trigger] ts1[k].end_key,
                    ts1[k + 1].tile_key,
                ) by {
                    if k + 1 < pos {
                        assert(ts1[k] == ts0[k] && ts1[k + 1] == ts0[k + 1]);
                    } else if k + 1 == pos {
                        assert(ts1[k] == ts0[k]);
                        lemma_neighbor_clear(ts0, new_tile, k, keys, reverse);
                    } else if k == pos {
                        assert(ts1[k + 1] == ts0[k]);
                        if pos < overlapping_tile_index {
                            assert(key_le(reverse, new_tile.end_key, ts0[pos].tile_key));
                            assert(key_le(
                                reverse,
                                keys[split_point - 1],
                                keys[tile_end(new_tile) - 1],
                            ));
                        } else {
                            assert(key_lt(reverse, keys[split_point - 1], split_key));
                        }
                    } else {
                        assert(ts1[k] == ts0[k - 1] && ts1[k + 1] == ts0[k]);
                    }
                }
                assert(tiles_chain(ts1, reverse));
            }
        }

        // Recursively insert the second piece.
        self.insert_tile(second_piece, element_keys, reverse);

        proof {
            let ts2 = self@;
            assert(ts2.len() > ts0.len());
            assert(tiles_total(ts2) == tiles_total(ts0) + new_tile.count);
            assert forall|i: int| in_tiles(ts2, i) implies in_tiles(ts0, i) || tile_covers(
                new_tile,
                i,
            ) by {
                if in_tiles(ts1, i) && !in_tiles(ts0, i) {
                    assert(tile_covers(first_piece, i));
                }
            }
            assert forall|s: Seq<u64>| s.len() >= keys.len() implies #[trigger] tiles_ms(
                ts2,
                s,
            ) == tiles_ms(ts0, s).add(tile_seg(new_tile, s).to_multiset()) by {
                lemma_tiles_insert(ts0, pos, first_piece, s);
                lemma_subrange_split_ms(
                    s,
                    new_tile.start_index as int,
                    split_point as int,
                    tile_end(new_tile),
                );
                assert(tile_seg(first_piece, s).to_multiset().add(
                    tile_seg(second_piece, s).to_multiset(),
                ) == tile_seg(new_tile, s).to_multiset());
                assert(tiles_ms(ts2, s) == tiles_ms(ts1, s).add(
                    tile_seg(second_piece, s).to_multiset(),
                ));
                assert(tiles_ms(ts2, s) =~= tiles_ms(ts0, s).add(
                    tile_seg(new_tile, s).to_multiset(),
                ));
            }
        }
    }

    /// Split the resident tile whose open key range contains the new tile's
    /// key, re-insert the new tile between the pieces, then re-insert the
    /// second piece, each possibly splitting further.
    #[verifier::rlimit(100)]
    fn split_existing_and_insert(
        &mut self,
        tile_idx: usize,
        new_tile: Tile,
        element_keys: &Vec<u64>,
        reverse: bool,
    )
        requires
            insert_pre(old(self)@, new_tile, element_keys@, reverse),
            tile_idx < old(self)@.len(),
            key_within(reverse, new_tile.tile_key, old(self)@[tile_idx as int]),
        ensures
            insert_effect(old(self)@, final(self)@, new_tile, element_keys@, reverse),
        decreases new_tile.count + tiles_total(old(self)@) - old(self)@.len(), 0int,
    {
        let ghost ts0 = self@;
        let ghost keys = element_keys@;
        let n = element_keys.len();

        let original_tile = self.get(tile_idx).unwrap();

        // Split the resident tile at the new tile's key.
        let split_point = original_tile.find_split_point(
            element_keys,
            new_tile.tile_key,
            reverse,
        );

        // The split point is strictly interior to the resident tile, since
        // the new tile's key lies strictly inside its open key range.
        proof {
            if split_point == original_tile.start_index {
                assert(key_le(reverse, new_tile.tile_key, keys[original_tile.start_index as int]));
                assert(false);
            }
            if split_point >= tile_end(original_tile) {
                assert(key_lt(reverse, keys[tile_end(original_tile) - 1], new_tile.tile_key));
                assert(false);
            }
        }
        assert(original_tile.start_index < split_point < tile_end(original_tile));

        let first_piece = Tile::new(
            original_tile.start_index,
            split_point - original_tile.start_index,
            original_tile.tile_key,
            element_keys[split_point - 1],
        );

        let second_piece = Tile::new(
            split_point,
            (original_tile.start_index + original_tile.count) - split_point,
            element_keys[split_point],
            original_tile.end_key,
        );

        proof {
            assert(tile_wf(first_piece, keys, reverse));
            assert(tile_wf(second_piece, keys, reverse));
        }

        // Replace the resident tile with its first piece.
        self.tiles.remove(tile_idx);
        self.tiles.insert(tile_idx, first_piece);

        let ghost ts1 = self@;
        let ghost ti = tile_idx as int;
        proof {
            assert(ts1 =~= ts0.update(ti, first_piece));
            assert forall|k: int| 0 <= k < ts1.len() implies tile_wf(
                #[trigger] ts1[k],
                keys,
                reverse,
            ) by {
                if k != ti {
                    assert(ts1[k] == ts0[k]);
                }
            }
            assert forall|k1: int, k2: int| 0 <= k1 < k2 < ts1.len() implies key_le(
                reverse,
                #[trigger] ts1[k1].tile_key,
                #[trigger] ts1[k2].tile_key,
            ) && tiles_disjoint(ts1[k1], ts1[k2]) by {
                assert(key_le(reverse, ts0[k1].tile_key, ts0[k2].tile_key));
                assert(tiles_disjoint(ts0[k1], ts0[k2]));
            }
            assert(tiles_wf(ts1, keys, reverse));
            assert forall|k: int| 0 <= k < ts1.len() implies tiles_disjoint(
                new_tile,
                #[trigger] ts1[k],
            ) by {
                if k != ti {
                    assert(ts1[k] == ts0[k]);
                } else {
                    assert(tiles_disjoint(new_tile, ts0[ti]));
                }
            }
            lemma_total_ge_len(ts1);
            lemma_tiles_remove(ts0, ti, keys);
            lemma_tiles_insert(ts0.remove(ti), ti, first_piece, keys);
            assert(ts1 =~= ts0.remove(ti).insert(ti, first_piece));
            if distinct_seq(keys) && tiles_chain(ts0, reverse) {
                assert forall|k: int| 0 <= k < ts1.len() - 1 implies key_le(
                    reverse,
                    #[trigger] ts1[k].end_key,
                    ts1[k + 1].tile_key,
                ) by {
                    assert(key_le(reverse, ts0[k].end_key, ts0[k + 1].tile_key));
                    if k == ti {
                        assert(key_le(
                            reverse,
                            keys[split_point - 1],
                            keys[tile_end(original_tile) - 1],
                        ));
                    }
                }
                assert(tiles_chain(ts1, reverse));
            }
        }

        // Recursively insert the new tile; it may need further splitting.
        self.insert_tile(new_tile, element_keys, reverse);

        let ghost ts2 = self@;
        proof {
            assert forall|k: int| 0 <= k < ts2.len() implies tiles_disjoint(
                second_piece,
                #[trigger] ts2[k],
            ) by {
                let t2 = ts2[k];
                if !tiles_disjoint(second_piece, t2) {
                    let x: int = if second_piece.start_index >= t2.start_index {
                        second_piece.start_index as int
                    } else {
                        t2.start_index as int
                    };
                    assert(tile_covers(second_piece, x) && tile_covers(t2, x));
                    assert(in_tiles(ts2, x));
                    assert(in_tiles(ts1, x) || tile_covers(new_tile, x));
                    assert(tile_covers(original_tile, x));
                    assert(tiles_disjoint(new_tile, ts0[ti]));
                    assert(!tile_covers(new_tile, x));
                    let m = choose|m: int| 0 <= m < ts1.len() && tile_covers(#[trigger] ts1[m], x);
                    if m == ti {
                        assert(tile_covers(first_piece, x));
                    } else {
                        assert(ts1[m] == ts0[m]);
                        assert(tiles_disjoint(ts0[m], ts0[ti]) || tiles_disjoint(
                            ts0[ti],
                            ts0[m],
                        ));
                    }
                    assert(false);
                }
            }
            lemma_total_ge_len(ts2);
            lemma_total_nonneg(ts2);
        }

        // Recursively insert the second piece of the resident tile.
        self.insert_tile(second_piece, element_keys, reverse);

        proof {
            let ts3 = self@;
            assert(ts3.len() > ts0.len());
            assert(tiles_total(ts3) == tiles_total(ts0) + new_tile.count);
            assert forall|i: int| in_tiles(ts3, i) implies in_tiles(ts0, i) || tile_covers(
                new_tile,
                i,
            ) by {
                if in_tiles(ts2, i) && !in_tiles(ts0, i) && !tile_covers(new_tile, i) {
                    assert(in_tiles(ts1, i));
                    let m = choose|m: int| 0 <= m < ts1.len() && tile_covers(#[trigger] ts1[m], i);
                    if m == ti {
                        assert(tile_covers(original_tile, i));
                        assert(in_tiles(ts0, i));
                    } else {
                        assert(ts1[m] == ts0[m]);
                        assert(in_tiles(ts0, i));
                    }
                    assert(false);
                }
                if tile_covers(second_piece, i) {
                    assert(tile_covers(original_tile, i));
                    assert(in_tiles(ts0, i));
                }
            }
            assert forall|s: Seq<u64>| s.len() >= keys.len() implies #[trigger] tiles_ms(
                ts3,
                s,
            ) == tiles_ms(ts0, s).add(tile_seg(new_tile, s).to_multiset()) by {
                lemma_tiles_remove(ts0, ti, s);
                lemma_tiles_insert(ts0.remove(ti), ti, first_piece, s);
                lemma_subrange_split_ms(
                    s,
                    original_tile.start_index as int,
                    split_point as int,
                    tile_end(original_tile),
                );
                assert(tiles_ms(ts1, s) == tiles_ms(ts0.remove(ti), s).add(
                    tile_seg(first_piece, s).to_multiset(),
                ));
                assert(tiles_ms(ts2, s) == tiles_ms(ts1, s).add(
                    tile_seg(new_tile, s).to_multiset(),
                ));
                assert(tiles_ms(ts3, s) == tiles_ms(ts2, s).add(
                    tile_seg(second_piece, s).to_multiset(),
                ));
                assert(tiles_ms(ts3, s) =~= tiles_ms(ts0, s).add(
                    tile_seg(new_tile, s).to_multiset(),
                ));
            }
        }
    }
}

} // verus!
