//! The kernel's physical memory map: a table-backed set of claimed,
//! pairwise non-overlapping regions inside a fixed managed range.
//!
//! A region is a half-open pair of byte addresses `(start, end)` with
//! `start < end`. Claiming inserts a region into the first empty table slot
//! and hands back a [`MapArea`] capability; freeing requires that capability.
//! Touching endpoints do not count as an overlap.

use vstd::prelude::*;

verus! {

/// Max amount of entries in `TableMemoryMapper`.
pub const TABLE_SIZE: usize = 400;

/// Two regions overlap when one's start lies strictly inside the other.
/// Regions that merely touch at an endpoint do not overlap.
pub open spec fn overlaps(a: (usize, usize), b: (usize, usize)) -> bool {
    (a.0 < b.0 && b.0 < a.1) || (b.0 < a.0 && a.0 < b.1)
}

/// Some stored slot of `t` overlaps the region `r`.
pub open spec fn conflicts_with(t: Seq<Option<(usize, usize)>>, r: (usize, usize)) -> bool {
    exists|i: int|
        0 <= i < t.len() && (#[trigger] t[i] matches Some(e) && overlaps(e, r))
}

/// The first stored region of `t` that overlaps `r` (in table order).
pub open spec fn first_conflict(t: Seq<Option<(usize, usize)>>, r: (usize, usize)) -> (usize,
    usize)
    decreases t.len(),
{
    if t.len() == 0 {
        (0, 0)
    } else {
        match t[0] {
            Some(e) => if overlaps(e, r) {
                e
            } else {
                first_conflict(t.drop_first(), r)
            },
            None => first_conflict(t.drop_first(), r),
        }
    }
}

/// Index of the first empty slot of `t` (or `t.len()` when the table is full).
pub open spec fn first_none(t: Seq<Option<(usize, usize)>>) -> int
    decreases t.len(),
{
    if t.len() == 0 {
        0
    } else if t[0] is None {
        0
    } else {
        1 + first_none(t.drop_first())
    }
}

/// Index of the first slot of `t` that stores exactly the region `r`
/// (or `t.len()` when no slot does).
pub open spec fn first_eq(t: Seq<Option<(usize, usize)>>, r: (usize, usize)) -> int
    decreases t.len(),
{
    if t.len() == 0 {
        0
    } else if t[0] == Some(r) {
        0
    } else {
        1 + first_eq(t.drop_first(), r)
    }
}

/// Some slot of `t` is empty.
pub open spec fn has_empty_slot(t: Seq<Option<(usize, usize)>>) -> bool {
    exists|i: int| 0 <= i < t.len() && #[trigger] t[i] is None
}

/// The region `r` is stored in some slot of `t`.
pub open spec fn stores(t: Seq<Option<(usize, usize)>>, r: (usize, usize)) -> bool {
    exists|i: int| 0 <= i < t.len() && #[trigger] t[i] == Some(r)
}

/// Every stored region lies inside `[low, high]` and is well formed.
pub open spec fn table_within(t: Seq<Option<(usize, usize)>>, low: usize, high: usize) -> bool {
    forall|i: int|
        0 <= i < t.len() ==> (#[trigger] t[i] matches Some(e) ==> low <= e.0 && e.0 < e.1 && e.1
            <= high)
}

/// No two stored regions overlap.
pub open spec fn table_disjoint(t: Seq<Option<(usize, usize)>>) -> bool {
    forall|i: int, j: int|
        0 <= i < t.len() && 0 <= j < t.len() && i != j ==> ((#[trigger] t[i], #[trigger] t[j])
            matches (Some(a), Some(b)) ==> !overlaps(a, b))
}

/// Error returned by `claim`.
///
/// - `AlreadyOccupiedBy` carries the occupant region that intersects the request.
/// - `OutOfBound` carries the managed dimensions the request fell outside of.
#[derive(Clone, Copy, PartialEq, Eq, Debug)]
pub enum MemoryMapperError {
    AlreadyOccupiedBy((usize, usize)),
    OutOfBound((usize, usize)),
}

/// Capability representing ownership of a claimed region.
///
/// Holds no reference into the map; `free` looks the region up again by value.
pub struct MapArea {
    region: (usize, usize),
}

impl MapArea {
    /// The claimed region this capability stands for.
    pub closed spec fn region_spec(&self) -> (usize, usize) {
        self.region
    }

    // Created only by `claim` and `force_free`.
    fn new(region: (usize, usize)) -> (a: Self)
        ensures
            a.region_spec() == region,
    {
        MapArea { region }
    }

    /// Read the claimed region out of the capability.
    pub fn region(&self) -> (r: (usize, usize))
        ensures
            r == self.region_spec(),
    {
        self.region
    }
}

/// Memory mapper that stores claimed regions in a statically sized table.
pub struct TableMemoryMapper {
    start: usize,
    end: usize,
    table: Vec<Option<(usize, usize)>>,
}

impl TableMemoryMapper {
    /// Low end of the managed dimensions.
    pub closed spec fn low(&self) -> usize {
        self.start
    }

    /// High end of the managed dimensions.
    pub closed spec fn high(&self) -> usize {
        self.end
    }

    /// The occupancy table: `TABLE_SIZE` slots, each possibly holding a region.
    pub closed spec fn table_view(&self) -> Seq<Option<(usize, usize)>> {
        self.table@
    }

    /// Map invariant: fixed table size, well-formed dimensions, every stored
    /// region inside the dimensions, and no two stored regions overlapping.
    pub open spec fn wf(&self) -> bool {
        &&& self.table_view().len() == TABLE_SIZE
        &&& self.low() <= self.high()
        &&& table_within(self.table_view(), self.low(), self.high())
        &&& table_disjoint(self.table_view())
    }

    /// A region may be claimed from this map state: it sits inside the
    /// managed dimensions and overlaps nothing stored.
    pub open spec fn claimable(&self, region: (usize, usize)) -> bool {
        &&& self.low() <= region.0
        &&& region.1 <= self.high()
        &&& !conflicts_with(self.table_view(), region)
    }

    /// Create a mapper managing `region`.
    ///
    /// The caller is responsible for the region being readable and writable
    /// at the current privilege level, holding no live objects, and not being
    /// managed elsewhere; none of that is visible to this structure.
    #[verifier::loop_isolation(false)]
    pub fn manage(region: (usize, usize)) -> (m: Self)
        requires
            region.0 <= region.1,
        ensures
            m.wf(),
            m.low() == region.0,
            m.high() == region.1,
            m.table_view() =~= Seq::new(TABLE_SIZE as nat, |i: int| None::<(usize, usize)>),
    {
        let mut table: Vec<Option<(usize, usize)>> = Vec::new();
        let mut i: usize = 0;
        while i < TABLE_SIZE
            invariant
                i <= TABLE_SIZE,
                table@.len() == i,
                forall|k: int| 0 <= k < i ==> table@[k] is None,
            decreases TABLE_SIZE - i,
        {
            table.push(None);
            i = i + 1;
        }
        TableMemoryMapper { start: region.0, end: region.1, table }
    }

    /// The complete managed region.
    pub fn dimensions(&self) -> (r: (usize, usize))
        ensures
            r == (self.low(), self.high()),
    {
        (self.start, self.end)
    }

    /// Every slot of the table is occupied. A full table makes a claim that
    /// would otherwise succeed fatal, so callers test this first.
    #[verifier::loop_isolation(false)]
    pub fn is_full(&self) -> (r: bool)
        requires
            self.wf(),
        ensures
            r == !has_empty_slot(self.table_view()),
    {
        let mut i: usize = 0;
        while i < TABLE_SIZE
            invariant
                i <= TABLE_SIZE,
                forall|k: int| 0 <= k < i ==> #[trigger] self.table_view()[k] is Some,
            decreases TABLE_SIZE - i,
        {
            if self.table[i].is_none() {
                return false;
            }
            i = i + 1;
        }
        true
    }

    /// The exact region `region` is currently stored in the table.
    #[verifier::loop_isolation(false)]
    pub fn is_claimed(&self, region: (usize, usize)) -> (r: bool)
        requires
            self.wf(),
        ensures
            r == stores(self.table_view(), region),
    {
        let mut i: usize = 0;
        while i < TABLE_SIZE
            invariant
                i <= TABLE_SIZE,
                forall|k: int| 0 <= k < i ==> #[trigger] self.table_view()[k] != Some(region),
            decreases TABLE_SIZE - i,
        {
            match self.table[i] {
                Some(e) => {
                    if e.0 == region.0 && e.1 == region.1 {
                        return true;
                    }
                },
                None => {},
            }
            i = i + 1;
        }
        false
    }

    /// Claim a region: bound-check it against the managed dimensions, reject
    /// it if it overlaps any stored region (returning the first occupant in
    /// table order), otherwise store it in the first empty slot and hand back
    /// a capability.
    ///
    /// A claim that would succeed on a full table is a capacity bug and is
    /// excluded by precondition; callers test [`Self::is_full`] first.
    #[verifier::loop_isolation(false)]
    pub fn claim(&mut self, region: (usize, usize)) -> (result: Result<
        MapArea,
        MemoryMapperError,
    >)
        requires
            old(self).wf(),
            region.0 < region.1,
            old(self).claimable(region) ==> has_empty_slot(old(self).table_view()),
        ensures
            final(self).wf(),
            final(self).low() == old(self).low(),
            final(self).high() == old(self).high(),
            ({
                let t = old(self).table_view();
                let low = old(self).low();
                let high = old(self).high();
                if !(low <= region.0 && region.1 <= high) {
                    &&& result == Err::<MapArea, MemoryMapperError>(
                        MemoryMapperError::OutOfBound((low, high)),
                    )
                    &&& final(self).table_view() == t
                } else if conflicts_with(t, region) {
                    &&& result == Err::<MapArea, MemoryMapperError>(
                        MemoryMapperError::AlreadyOccupiedBy(first_conflict(t, region)),
                    )
                    &&& final(self).table_view() == t
                } else {
                    &&& result matches Ok(a) && a.region_spec() == region
                    &&& final(self).table_view() == t.update(first_none(t), Some(region))
                }
            }),
    {
        let (start, end) = region;
        if start < self.start || end > self.end {
            return Err(MemoryMapperError::OutOfBound((self.start, self.end)));
        }
        // Scan every stored entry for an intersection with the request.
        let mut i: usize = 0;
        while i < TABLE_SIZE
            invariant
                i <= TABLE_SIZE,
                *self == *old(self),
                forall|k: int|
                    0 <= k < i ==> !(#[trigger] self.table_view()[k] matches Some(e) && overlaps(
                        e,
                        region,
                    )),
            decreases TABLE_SIZE - i,
        {
            match self.table[i] {
                Some(e) => {
                    if (e.0 < start && e.1 > start) || (e.0 > start && e.0 < end) {
                        proof {
                            lemma_first_conflict_at(self.table_view(), region, i as int);
                        }
                        return Err(MemoryMapperError::AlreadyOccupiedBy(e));
                    }
                },
                None => {},
            }
            i = i + 1;
        }
        // Store the request in the first empty slot.
        let mut j: usize = 0;
        while j < TABLE_SIZE
            invariant
                j <= TABLE_SIZE,
                *self == *old(self),
                forall|k: int| 0 <= k < j ==> #[trigger] self.table_view()[k] is Some,
            decreases TABLE_SIZE - j,
        {
            if self.table[j].is_none() {
                proof {
                    lemma_first_none_at(self.table_view(), j as int);
                }
                self.table.set(j, Some(region));
                return Ok(MapArea::new(region));
            }
            j = j + 1;
        }
        proof {
            assert(!has_empty_slot(old(self).table_view()));
            assert(old(self).claimable(region));
            assert(false);
        }
        vstd::pervasive::unreached()
    }

    /// Disown a capability and clear the first table slot holding its region.
    ///
    /// Freeing a region that is not stored would mean the capability was
    /// forged, double-freed or force-freed — a fatal integrity error, not a
    /// recoverable one. That input is excluded by precondition, and callers
    /// test [`Self::is_claimed`] first.
    #[verifier::loop_isolation(false)]
    pub fn free(&mut self, area: MapArea)
        requires
            old(self).wf(),
            stores(old(self).table_view(), area.region_spec()),
        ensures
            final(self).wf(),
            final(self).low() == old(self).low(),
            final(self).high() == old(self).high(),
            final(self).table_view() == old(self).table_view().update(
                first_eq(old(self).table_view(), area.region_spec()),
                None::<(usize, usize)>,
            ),
    {
        let region = area.region;
        let mut i: usize = 0;
        while i < TABLE_SIZE
            invariant
                i <= TABLE_SIZE,
                *self == *old(self),
                forall|k: int| 0 <= k < i ==> #[trigger] self.table_view()[k] != Some(region),
            decreases TABLE_SIZE - i,
        {
            let hit = match self.table[i] {
                Some(e) => e.0 == region.0 && e.1 == region.1,
                None => false,
            };
            if hit {
                proof {
                    lemma_first_eq_at(self.table_view(), region, i as int);
                }
                self.table.set(i, None);
                return ;
            }
            i = i + 1;
        }
        proof {
            assert(!stores(old(self).table_view(), area.region_spec()));
            assert(false);
        }
    }

    /// Forcefully remove a region without holding its capability. Meant for
    /// teardown, when the caller knows no capability holder remains.
    pub fn force_free(&mut self, region: (usize, usize))
        requires
            old(self).wf(),
            stores(old(self).table_view(), region),
        ensures
            final(self).wf(),
            final(self).low() == old(self).low(),
            final(self).high() == old(self).high(),
            final(self).table_view() == old(self).table_view().update(
                first_eq(old(self).table_view(), region),
                None::<(usize, usize)>,
            ),
    {
        let area = MapArea::new(region);
        self.free(area);
    }
}

/// The regions stored in `t`, in table order, with empty slots skipped.
/// This is exactly the sequence a snapshot iterator yields.
pub open spec fn claimed_seq(t: Seq<Option<(usize, usize)>>) -> Seq<(usize, usize)>
    decreases t.len(),
{
    if t.len() == 0 {
        Seq::empty()
    } else {
        match t[0] {
            Some(e) => seq![e] + claimed_seq(t.drop_first()),
            None => claimed_seq(t.drop_first()),
        }
    }
}

/// Insert `x` into `s` before the first element whose start exceeds `x`'s.
pub open spec fn insert_by_start(s: Seq<(usize, usize)>, x: (usize, usize)) -> Seq<(usize, usize)>
    decreases s.len(),
{
    if s.len() == 0 {
        seq![x]
    } else if x.0 < s[0].0 {
        seq![x] + s
    } else {
        seq![s[0]] + insert_by_start(s.drop_first(), x)
    }
}

/// Insertion sort of regions by ascending start.
pub open spec fn sort_by_start(s: Seq<(usize, usize)>) -> Seq<(usize, usize)>
    decreases s.len(),
{
    if s.len() == 0 {
        Seq::empty()
    } else {
        insert_by_start(sort_by_start(s.drop_last()), s.last())
    }
}

/// The complement of the start-sorted claimed regions `s` inside
/// `[cursor, high]`: a cursor threads through `s`, and every hole between it
/// and the next claimed start becomes a gap, ending with the tail up to `high`.
pub open spec fn gaps_of(s: Seq<(usize, usize)>, cursor: usize, high: usize) -> Seq<(usize,
    usize)>
    decreases s.len(),
{
    if s.len() == 0 {
        if cursor < high {
            seq![(cursor, high)]
        } else {
            Seq::empty()
        }
    } else {
        (if cursor < s[0].0 {
            seq![(cursor, s[0].0)]
        } else {
            Seq::empty()
        }) + gaps_of(s.drop_first(), s[0].1, high)
    }
}

/// The address `a` lies inside some region of `s` (half-open).
pub open spec fn covers(s: Seq<(usize, usize)>, a: int) -> bool {
    exists|i: int| 0 <= i < s.len() && (#[trigger] s[i]).0 <= a < s[i].1
}

/// Any two regions of `s`, in order, do not even touch out of order:
/// the earlier one ends no later than the later one starts, or vice versa.
pub open spec fn seq_separated(s: Seq<(usize, usize)>) -> bool {
    forall|i: int, j: int|
        0 <= i < j < s.len() ==> ((#[trigger] s[i]).1 <= (#[trigger] s[j]).0 || s[j].1 <= s[i].0)
}

/// The stored regions of `t` are pairwise fully ordered: one ends before the
/// other starts. Strictly stronger than `table_disjoint` — regions sharing a
/// start satisfy the overlap test yet are not separated.
pub open spec fn table_separated(t: Seq<Option<(usize, usize)>>) -> bool {
    forall|i: int, j: int|
        0 <= i < t.len() && 0 <= j < t.len() && i != j ==> ((#[trigger] t[i], #[trigger] t[j])
            matches (Some(a), Some(b)) ==> (a.1 <= b.0 || b.1 <= a.0))
}

/// Every region of `s` starts no earlier than `low`, is non-empty, and ends
/// no later than `high`.
pub open spec fn seq_within(s: Seq<(usize, usize)>, low: usize, high: usize) -> bool {
    forall|k: int| 0 <= k < s.len() ==> low <= (#[trigger] s[k]).0 && s[k].0 < s[k].1 && s[k].1 <= high
}

/// Regions are in ascending order and do not overlap: each ends no later
/// than any later one starts.
pub open spec fn chained(s: Seq<(usize, usize)>) -> bool {
    forall|i: int, j: int| 0 <= i < j < s.len() ==> (#[trigger] s[i]).1 <= (#[trigger] s[j]).0
}

/// Snapshot iterator over the claimed regions of a [`TableMemoryMapper`].
///
/// Holds a copy of the occupied slots, so walking it never observes a
/// concurrent claim or free splicing entries.
pub struct TableMap {
    entries: Vec<(usize, usize)>,
    count: usize,
}

impl TableMap {
    /// The snapshot of claimed regions, in table order.
    pub closed spec fn entries_view(&self) -> Seq<(usize, usize)> {
        self.entries@
    }

    /// How many entries have been yielded so far.
    pub closed spec fn pos(&self) -> int {
        self.count as int
    }

    /// Yield the next claimed region of the snapshot, or `None` when done.
    pub fn next(&mut self) -> (r: Option<(usize, usize)>)
        requires
            0 <= old(self).pos() <= old(self).entries_view().len(),
        ensures
            final(self).entries_view() == old(self).entries_view(),
            if old(self).pos() < old(self).entries_view().len() {
                r == Some(old(self).entries_view()[old(self).pos()]) && final(self).pos() == old(
                    self,
                ).pos() + 1
            } else {
                r is None && final(self).pos() == old(self).pos()
            },
    {
        if self.count < self.entries.len() {
            let e = self.entries[self.count];
            self.count = self.count + 1;
            Some(e)
        } else {
            None
        }
    }

    /// The remaining entries, all at once.
    pub fn collect(&mut self) -> (v: Vec<(usize, usize)>)
        requires
            0 <= old(self).pos() <= old(self).entries_view().len(),
        ensures
            v@ == old(self).entries_view().skip(old(self).pos()),
            final(self).pos() == final(self).entries_view().len(),
            final(self).entries_view() == old(self).entries_view(),
    {
        let mut v: Vec<(usize, usize)> = Vec::new();
        loop
            invariant
                0 <= self.pos() <= self.entries_view().len(),
                self.entries_view() == old(self).entries_view(),
                old(self).pos() <= self.pos(),
                v@ == old(self).entries_view().subrange(old(self).pos(), self.pos()),
            ensures
                self.pos() == self.entries_view().len(),
                self.entries_view() == old(self).entries_view(),
                v@ == old(self).entries_view().skip(old(self).pos()),
            decreases self.entries_view().len() - self.pos(),
        {
            let ghost prev = self.pos();
            match self.next() {
                Some(e) => {
                    v.push(e);
                    proof {
                        assert(v@ =~= old(self).entries_view().subrange(
                            old(self).pos(),
                            self.pos(),
                        ));
                    }
                },
                None => {
                    proof {
                        assert(v@ =~= old(self).entries_view().skip(old(self).pos()));
                    }
                    break ;
                },
            }
        }
        v
    }
}

/// Iterator over the free space between the claimed regions of a
/// [`TableMemoryMapper`], in ascending start order.
pub struct MapGaps {
    items: Vec<(usize, usize)>,
    count: usize,
}

impl MapGaps {
    /// The gaps, in ascending start order.
    pub closed spec fn items_view(&self) -> Seq<(usize, usize)> {
        self.items@
    }

    /// How many gaps have been yielded so far.
    pub closed spec fn pos(&self) -> int {
        self.count as int
    }

    /// Yield the next gap, or `None` when done.
    pub fn next(&mut self) -> (r: Option<(usize, usize)>)
        requires
            0 <= old(self).pos() <= old(self).items_view().len(),
        ensures
            final(self).items_view() == old(self).items_view(),
            if old(self).pos() < old(self).items_view().len() {
                r == Some(old(self).items_view()[old(self).pos()]) && final(self).pos() == old(
                    self,
                ).pos() + 1
            } else {
                r is None && final(self).pos() == old(self).pos()
            },
    {
        if self.count < self.items.len() {
            let e = self.items[self.count];
            self.count = self.count + 1;
            Some(e)
        } else {
            None
        }
    }
}

impl TableMemoryMapper {
    /// Snapshot the claimed regions, in table order.
    #[verifier::loop_isolation(false)]
    pub fn iter(&self) -> (tm: TableMap)
        requires
            self.wf(),
        ensures
            tm.entries_view() == claimed_seq(self.table_view()),
            tm.pos() == 0,
    {
        let mut entries: Vec<(usize, usize)> = Vec::new();
        let mut i: usize = 0;
        while i < TABLE_SIZE
            invariant
                i <= TABLE_SIZE,
                entries@ == claimed_seq(self.table_view().take(i as int)),
            decreases TABLE_SIZE - i,
        {
            proof {
                assert(self.table_view().take(i + 1) =~= self.table_view().take(i as int).push(
                    self.table_view()[i as int],
                ));
                lemma_claimed_seq_snoc(self.table_view().take(i as int), self.table_view()[i as int]);
            }
            match self.table[i] {
                Some(e) => {
                    entries.push(e);
                },
                None => {},
            }
            i = i + 1;
        }
        proof {
            assert(self.table_view().take(TABLE_SIZE as int) =~= self.table_view());
        }
        TableMap { entries, count: 0 }
    }

    /// Compute the free space inside the managed dimensions: snapshot the
    /// claimed regions, sort them by start, and thread a cursor through them,
    /// emitting every hole, ending with the tail up to the high end.
    #[verifier::loop_isolation(false)]
    pub fn gaps(&self) -> (mg: MapGaps)
        requires
            self.wf(),
        ensures
            mg.items_view() == gaps_of(
                sort_by_start(claimed_seq(self.table_view())),
                self.low(),
                self.high(),
            ),
            mg.pos() == 0,
    {
        let mut tm = self.iter();
        let entries = tm.collect();
        proof {
            assert(entries@ =~= claimed_seq(self.table_view()));
        }
        // Sort the snapshot by ascending start.
        let mut sorted: Vec<(usize, usize)> = Vec::new();
        let mut i: usize = 0;
        while i < entries.len()
            invariant
                i <= entries@.len(),
                sorted@ == sort_by_start(entries@.take(i as int)),
            decreases entries@.len() - i,
        {
            proof {
                assert(entries@.take(i + 1).drop_last() =~= entries@.take(i as int));
            }
            sorted = insert_sorted(&sorted, entries[i]);
            i = i + 1;
        }
        proof {
            assert(entries@.take(entries@.len() as int) =~= entries@);
        }
        // Thread the cursor.
        let mut items: Vec<(usize, usize)> = Vec::new();
        let mut cursor: usize = self.start;
        let mut j: usize = 0;
        proof {
            assert(sorted@.skip(0) =~= sorted@);
            assert(items@ + gaps_of(sorted@, self.low(), self.high()) =~= gaps_of(
                sorted@,
                self.low(),
                self.high(),
            ));
        }
        while j < sorted.len()
            invariant
                j <= sorted@.len(),
                items@ + gaps_of(sorted@.skip(j as int), cursor, self.high()) == gaps_of(
                    sorted@,
                    self.low(),
                    self.high(),
                ),
            decreases sorted@.len() - j,
        {
            let e = sorted[j];
            proof {
                assert(sorted@.skip(j as int)[0] == e);
                assert(sorted@.skip(j as int).drop_first() =~= sorted@.skip(j + 1));
            }
            if e.0 > cursor {
                items.push((cursor, e.0));
            }
            cursor = e.1;
            j = j + 1;
            proof {
                assert(items@ + gaps_of(sorted@.skip(j as int), cursor, self.high()) =~= gaps_of(
                    sorted@,
                    self.low(),
                    self.high(),
                ));
            }
        }
        proof {
            assert(sorted@.skip(sorted@.len() as int) =~= Seq::<(usize, usize)>::empty());
        }
        if cursor < self.end {
            items.push((cursor, self.end));
        }
        proof {
            assert(items@ =~= gaps_of(
                sort_by_start(claimed_seq(self.table_view())),
                self.low(),
                self.high(),
            ));
        }
        MapGaps { items, count: 0 }
    }
}

/// Insert `x` into the start-sorted vector `v`, keeping the order that
/// [`insert_by_start`] defines.
fn insert_sorted(v: &Vec<(usize, usize)>, x: (usize, usize)) -> (r: Vec<(usize, usize)>)
    ensures
        r@ == insert_by_start(v@, x),
{
    let mut p: usize = 0;
    loop
        invariant
            p <= v@.len(),
            forall|k: int| 0 <= k < p ==> !(x.0 < (#[trigger] v@[k]).0),
        ensures
            p <= v@.len(),
            forall|k: int| 0 <= k < p ==> !(x.0 < (#[trigger] v@[k]).0),
            p < v@.len() ==> x.0 < v@[p as int].0,
        decreases v@.len() - p,
    {
        if p == v.len() {
            break ;
        }
        if x.0 < v[p].0 {
            break ;
        }
        p = p + 1;
    }
    let mut r: Vec<(usize, usize)> = Vec::new();
    let mut i: usize = 0;
    while i < p
        invariant
            i <= p <= v@.len(),
            r@ == v@.take(i as int),
        decreases p - i,
    {
        r.push(v[i]);
        i = i + 1;
        proof {
            assert(r@ =~= v@.take(i as int));
        }
    }
    r.push(x);
    let mut j: usize = p;
    while j < v.len()
        invariant
            p <= j <= v@.len(),
            r@ == v@.take(p as int) + seq![x] + v@.subrange(p as int, j as int),
        decreases v@.len() - j,
    {
        r.push(v[j]);
        j = j + 1;
        proof {
            assert(r@ =~= v@.take(p as int) + seq![x] + v@.subrange(p as int, j as int));
        }
    }
    proof {
        assert(v@.subrange(p as int, v@.len() as int) =~= v@.skip(p as int));
        lemma_insert_by_start_at(v@, x, p as int);
    }
    r
}

/// Appending a slot to the table appends its region (if any) to the claimed
/// sequence.
proof fn lemma_claimed_seq_snoc(t: Seq<Option<(usize, usize)>>, s: Option<(usize, usize)>)
    ensures
        claimed_seq(t.push(s)) == claimed_seq(t) + (match s {
            Some(e) => seq![e],
            None => Seq::<(usize, usize)>::empty(),
        }),
    decreases t.len(),
{
    if t.len() == 0 {
        assert(t.push(s).drop_first() =~= t);
        match s {
            Some(e) => {
                assert(claimed_seq(t.push(s)) =~= claimed_seq(t) + seq![e]);
            },
            None => {
                assert(claimed_seq(t.push(s)) =~= claimed_seq(t));
            },
        }
    } else {
        assert(t.push(s).drop_first() =~= t.drop_first().push(s));
        lemma_claimed_seq_snoc(t.drop_first(), s);
        assert(claimed_seq(t.push(s)) =~= claimed_seq(t) + (match s {
            Some(e) => seq![e],
            None => Seq::<(usize, usize)>::empty(),
        }));
    }
}

/// When slots `0..p` start no later than `x` and slot `p` (if any) starts
/// after `x`, inserting `x` by start splices it exactly at position `p`.
proof fn lemma_insert_by_start_at(s: Seq<(usize, usize)>, x: (usize, usize), p: int)
    requires
        0 <= p <= s.len(),
        forall|k: int| 0 <= k < p ==> !(x.0 < (#[trigger] s[k]).0),
        p < s.len() ==> x.0 < s[p].0,
    ensures
        insert_by_start(s, x) == s.take(p) + seq![x] + s.skip(p),
    decreases p,
{
    if p == 0 {
        if s.len() == 0 {
            assert(insert_by_start(s, x) =~= s.take(0) + seq![x] + s.skip(0));
        } else {
            assert(insert_by_start(s, x) =~= s.take(0) + seq![x] + s.skip(0));
        }
    } else {
        lemma_insert_by_start_at(s.drop_first(), x, p - 1);
        assert(s.drop_first().take(p - 1) =~= s.take(p).drop_first());
        assert(s.drop_first().skip(p - 1) =~= s.skip(p));
        assert(insert_by_start(s, x) =~= s.take(p) + seq![x] + s.skip(p));
    }
}

/// If slots `0..i` are all occupied and slot `i` is empty, then `i` is the
/// first empty slot.
proof fn lemma_first_none_at(t: Seq<Option<(usize, usize)>>, i: int)
    requires
        0 <= i < t.len(),
        t[i] is None,
        forall|k: int| 0 <= k < i ==> #[trigger] t[k] is Some,
    ensures
        first_none(t) == i,
    decreases i,
{
    if i > 0 {
        lemma_first_none_at(t.drop_first(), i - 1);
    }
}

/// If slots `0..i` hold nothing equal to `r` and slot `i` holds `r`, then `i`
/// is the first slot storing `r`.
proof fn lemma_first_eq_at(t: Seq<Option<(usize, usize)>>, r: (usize, usize), i: int)
    requires
        0 <= i < t.len(),
        t[i] == Some(r),
        forall|k: int| 0 <= k < i ==> #[trigger] t[k] != Some(r),
    ensures
        first_eq(t, r) == i,
    decreases i,
{
    if i > 0 {
        lemma_first_eq_at(t.drop_first(), r, i - 1);
    }
}

/// If no slot before `i` conflicts with `r` and slot `i` stores a region
/// overlapping `r`, that region is the first conflict.
proof fn lemma_first_conflict_at(t: Seq<Option<(usize, usize)>>, r: (usize, usize), i: int)
    requires
        0 <= i < t.len(),
        t[i] matches Some(e) && overlaps(e, r),
        forall|k: int|
            0 <= k < i ==> !(#[trigger] t[k] matches Some(e) && overlaps(e, r)),
    ensures
        t[i] matches Some(e) && first_conflict(t, r) == e,
        conflicts_with(t, r),
    decreases i,
{
    if i > 0 {
        lemma_first_conflict_at(t.drop_first(), r, i - 1);
    }
}


/// Regions of `s` start in ascending order.
pub open spec fn sorted_starts(s: Seq<(usize, usize)>) -> bool {
    forall|i: int, j: int|
        0 <= i <= j < s.len() ==> (#[trigger] s[i]).0 <= (#[trigger] s[j]).0
}

/// First-empty-slot facts: when the table has an empty slot, `first_none`
/// points at one, and every earlier slot is occupied.
pub proof fn lemma_first_none_props(t: Seq<Option<(usize, usize)>>)
    requires
        has_empty_slot(t),
    ensures
        0 <= first_none(t) < t.len(),
        t[first_none(t)] is None,
        forall|k: int| 0 <= k < first_none(t) ==> #[trigger] t[k] is Some,
    decreases t.len(),
{
    if t.len() == 0 {
    } else if t[0] is None {
    } else {
        assert(has_empty_slot(t.drop_first())) by {
            let i = choose|i: int| 0 <= i < t.len() && #[trigger] t[i] is None;
            assert(t.drop_first()[i - 1] is None);
        }
        lemma_first_none_props(t.drop_first());
        assert forall|k: int| 0 <= k < first_none(t) implies #[trigger] t[k] is Some by {
            if k > 0 {
                assert(t.drop_first()[k - 1] is Some);
            }
        }
    }
}

/// The occupant that `claim` reports for an overlapping request is a stored
/// region and genuinely overlaps the request: overlap detection never
/// invents a region.
pub proof fn lemma_first_conflict_props(t: Seq<Option<(usize, usize)>>, r: (usize, usize))
    requires
        conflicts_with(t, r),
    ensures
        stores(t, first_conflict(t, r)),
        overlaps(first_conflict(t, r), r),
    decreases t.len(),
{
    if t.len() == 0 {
        assert(false);
    } else {
        let head = t[0];
        if head matches Some(e) && overlaps(e, r) {
            assert(t[0] == Some(first_conflict(t, r)));
        } else {
            assert(conflicts_with(t.drop_first(), r)) by {
                let i = choose|i: int|
                    0 <= i < t.len() && (#[trigger] t[i] matches Some(e) && overlaps(e, r));
                assert(i != 0);
                assert(t.drop_first()[i - 1] == t[i]);
            }
            lemma_first_conflict_props(t.drop_first(), r);
            let i = choose|i: int|
                0 <= i < t.drop_first().len() && #[trigger] t.drop_first()[i] == Some(
                    first_conflict(t.drop_first(), r),
                );
            assert(t[i + 1] == Some(first_conflict(t, r)));
        }
    }
}

/// Non-overlap of claims: two stored regions with distinct starts never
/// share an address — one ends no later than the other starts. Two claims
/// sharing a start are admitted by the fixed touching-endpoints overlap
/// rule, so distinct starts must be assumed here.
pub proof fn lemma_claimed_non_overlap(m: &TableMemoryMapper, a: (usize, usize), b: (usize, usize))
    requires
        m.wf(),
        stores(m.table_view(), a),
        stores(m.table_view(), b),
        a.0 != b.0,
    ensures
        a.1 <= b.0 || b.1 <= a.0,
{
    let t = m.table_view();
    let i = choose|i: int| 0 <= i < t.len() && #[trigger] t[i] == Some(a);
    let j = choose|j: int| 0 <= j < t.len() && #[trigger] t[j] == Some(b);
    assert(i != j);
    assert(!overlaps(a, b));
}

/// Claim/free round-trip: claiming a region that is not yet stored writes it
/// into the first empty slot, and freeing the returned capability clears
/// exactly that slot again, restoring the table to its prior state.
pub proof fn lemma_claim_free_roundtrip(t: Seq<Option<(usize, usize)>>, r: (usize, usize))
    requires
        has_empty_slot(t),
        !stores(t, r),
    ensures
        ({
            let t1 = t.update(first_none(t), Some(r));
            &&& stores(t1, r)
            &&& t1.update(first_eq(t1, r), None::<(usize, usize)>) == t
        }),
{
    lemma_first_none_props(t);
    let i = first_none(t);
    let t1 = t.update(i, Some(r));
    assert(t1[i] == Some(r));
    assert forall|k: int| 0 <= k < i implies #[trigger] t1[k] != Some(r) by {
        assert(t[k] != Some(r));
    }
    lemma_first_eq_at(t1, r, i);
    assert(t1.update(i, None::<(usize, usize)>) =~= t);
}

/// An address is covered by a concatenation exactly when either part covers it.
proof fn lemma_covers_concat(x: Seq<(usize, usize)>, y: Seq<(usize, usize)>, a: int)
    ensures
        covers(x + y, a) <==> covers(x, a) || covers(y, a),
{
    if covers(x + y, a) {
        let i = choose|i: int| 0 <= i < (x + y).len() && ((#[trigger] (x + y)[i]).0 <= a < (x + y)[i].1);
        if i < x.len() {
            assert(x[i] == (x + y)[i]);
        } else {
            assert(y[i - x.len()] == (x + y)[i]);
        }
    }
    if covers(x, a) {
        let i = choose|i: int| 0 <= i < x.len() && ((#[trigger] x[i]).0 <= a < x[i].1);
        assert((x + y)[i] == x[i]);
    }
    if covers(y, a) {
        let i = choose|i: int| 0 <= i < y.len() && ((#[trigger] y[i]).0 <= a < y[i].1);
        assert((x + y)[x.len() + i] == y[i]);
    }
}

/// Coverage of a non-empty sequence splits into its head and its tail.
proof fn lemma_covers_unfold(s: Seq<(usize, usize)>, a: int)
    requires
        s.len() > 0,
    ensures
        covers(s, a) <==> ((s[0].0 <= a < s[0].1) || covers(s.drop_first(), a)),
{
    if covers(s, a) {
        let i = choose|i: int| 0 <= i < s.len() && ((#[trigger] s[i]).0 <= a < s[i].1);
        if i > 0 {
            assert(s.drop_first()[i - 1] == s[i]);
        }
    }
    if covers(s.drop_first(), a) {
        let i = choose|i: int|
            0 <= i < s.drop_first().len() && ((#[trigger] s.drop_first()[i]).0 <= a
                < s.drop_first()[i].1);
        assert(s[i + 1] == s.drop_first()[i]);
    }
}

/// Coverage depends only on which regions appear in the sequence.
proof fn lemma_covers_members(s: Seq<(usize, usize)>, a: int)
    ensures
        covers(s, a) <==> exists|y: (usize, usize)| #[trigger] s.contains(y) && y.0 <= a < y.1,
{
    if covers(s, a) {
        let i = choose|i: int| 0 <= i < s.len() && ((#[trigger] s[i]).0 <= a < s[i].1);
        assert(s.contains(s[i]));
    }
    if exists|y: (usize, usize)| #[trigger] s.contains(y) && y.0 <= a < y.1 {
        let y = choose|y: (usize, usize)| #[trigger] s.contains(y) && y.0 <= a < y.1;
        let i = choose|i: int| 0 <= i < s.len() && #[trigger] s[i] == y;
    }
}

/// A region yielded by the claimed sequence is stored in the table.
proof fn lemma_claimed_seq_stores(t: Seq<Option<(usize, usize)>>, x: (usize, usize))
    requires
        claimed_seq(t).contains(x),
    ensures
        stores(t, x),
    decreases t.len(),
{
    if t.len() == 0 {
    } else {
        let rest = t.drop_first();
        let idx = choose|idx: int|
            0 <= idx < claimed_seq(t).len() && #[trigger] claimed_seq(t)[idx] == x;
        match t[0] {
            Some(e) => {
                if idx == 0 {
                    assert(t[0] == Some(x));
                } else {
                    assert(claimed_seq(rest)[idx - 1] == x);
                    assert(claimed_seq(rest).contains(x));
                    lemma_claimed_seq_stores(rest, x);
                    let i = choose|i: int| 0 <= i < rest.len() && #[trigger] rest[i] == Some(x);
                    assert(t[i + 1] == Some(x));
                }
            },
            None => {
                assert(claimed_seq(rest).contains(x));
                lemma_claimed_seq_stores(rest, x);
                let i = choose|i: int| 0 <= i < rest.len() && #[trigger] rest[i] == Some(x);
                assert(t[i + 1] == Some(x));
            },
        }
    }
}

/// The claimed sequence inherits the table's bounds and pairwise separation.
proof fn lemma_claimed_seq_props(t: Seq<Option<(usize, usize)>>, low: usize, high: usize)
    requires
        table_within(t, low, high),
        table_separated(t),
    ensures
        seq_within(claimed_seq(t), low, high),
        seq_separated(claimed_seq(t)),
    decreases t.len(),
{
    if t.len() == 0 {
    } else {
        let rest = t.drop_first();
        assert forall|k: int| 0 <= k < rest.len() implies (#[trigger] rest[k] matches Some(e)
            ==> low <= e.0 && e.0 < e.1 && e.1 <= high) by {
            assert(rest[k] == t[k + 1]);
        }
        assert forall|i: int, j: int|
            0 <= i < rest.len() && 0 <= j < rest.len() && i != j implies ((
        #[trigger] rest[i],
        #[trigger] rest[j],
        ) matches (Some(a), Some(b)) ==> (a.1 <= b.0 || b.1 <= a.0)) by {
            assert(rest[i] == t[i + 1]);
            assert(rest[j] == t[j + 1]);
        }
        lemma_claimed_seq_props(rest, low, high);
        let cs = claimed_seq(t);
        let cr = claimed_seq(rest);
        match t[0] {
            None => {},
            Some(e) => {
                assert forall|k: int| 0 <= k < cs.len() implies low <= (#[trigger] cs[k]).0
                    && cs[k].0 < cs[k].1 && cs[k].1 <= high by {
                    if k > 0 {
                        assert(cs[k] == cr[k - 1]);
                    }
                }
                assert forall|i: int, j: int| 0 <= i < j < cs.len() implies ((
                #[trigger] cs[i]).1 <= (#[trigger] cs[j]).0 || cs[j].1 <= cs[i].0) by {
                    if i == 0 {
                        assert(cs[j] == cr[j - 1]);
                        assert(cr.contains(cs[j]));
                        lemma_claimed_seq_stores(rest, cs[j]);
                        let m = choose|m: int|
                            0 <= m < rest.len() && #[trigger] rest[m] == Some(cs[j]);
                        assert(t[m + 1] == Some(cs[j]));
                        assert(t[0] == Some(e));
                    } else {
                        assert(cs[i] == cr[i - 1]);
                        assert(cs[j] == cr[j - 1]);
                    }
                }
            },
        }
    }
}

/// Inserting by start adds exactly one region and keeps order, bounds and
/// separation.
proof fn lemma_insert_by_start_props(s: Seq<(usize, usize)>, x: (usize, usize))
    ensures
        insert_by_start(s, x).len() == s.len() + 1,
        forall|y: (usize, usize)|
            #[trigger] insert_by_start(s, x).contains(y) <==> (s.contains(y) || y == x),
        sorted_starts(s) ==> sorted_starts(insert_by_start(s, x)),
        (seq_separated(s) && (forall|k: int|
            0 <= k < s.len() ==> (x.1 <= (#[trigger] s[k]).0 || s[k].1 <= x.0))) ==> seq_separated(
            insert_by_start(s, x),
        ),
    decreases s.len(),
{
    let ins = insert_by_start(s, x);
    if s.len() == 0 {
        assert forall|y: (usize, usize)| #[trigger] ins.contains(y) <==> (s.contains(y) || y == x)
            by {
            if ins.contains(y) {
                let i = choose|i: int| 0 <= i < ins.len() && #[trigger] ins[i] == y;
                assert(y == x);
            }
            if y == x {
                assert(ins[0] == y);
            }
        }
    } else if x.0 < s[0].0 {
        assert(ins == seq![x] + s);
        assert forall|y: (usize, usize)| #[trigger] ins.contains(y) <==> (s.contains(y) || y == x)
            by {
            if ins.contains(y) {
                let i = choose|i: int| 0 <= i < ins.len() && #[trigger] ins[i] == y;
                if i > 0 {
                    assert(s[i - 1] == y);
                }
            }
            if s.contains(y) {
                let i = choose|i: int| 0 <= i < s.len() && #[trigger] s[i] == y;
                assert(ins[i + 1] == y);
            }
            if y == x {
                assert(ins[0] == y);
            }
        }
        if sorted_starts(s) {
            assert forall|i: int, j: int| 0 <= i <= j < ins.len() implies (#[trigger] ins[i]).0
                <= (#[trigger] ins[j]).0 by {
                if i > 0 {
                    assert(ins[i] == s[i - 1] && ins[j] == s[j - 1]);
                } else if j > 0 {
                    assert(ins[j] == s[j - 1]);
                }
            }
        }
        if seq_separated(s) && (forall|k: int|
            0 <= k < s.len() ==> (x.1 <= (#[trigger] s[k]).0 || s[k].1 <= x.0)) {
            assert forall|i: int, j: int| 0 <= i < j < ins.len() implies ((#[trigger] ins[i]).1
                <= (#[trigger] ins[j]).0 || ins[j].1 <= ins[i].0) by {
                if i > 0 {
                    assert(ins[i] == s[i - 1] && ins[j] == s[j - 1]);
                } else {
                    assert(ins[j] == s[j - 1]);
                }
            }
        }
    } else {
        let rest = s.drop_first();
        lemma_insert_by_start_props(rest, x);
        let insr = insert_by_start(rest, x);
        assert(ins == seq![s[0]] + insr);
        assert forall|y: (usize, usize)| #[trigger] ins.contains(y) <==> (s.contains(y) || y == x)
            by {
            if ins.contains(y) {
                let i = choose|i: int| 0 <= i < ins.len() && #[trigger] ins[i] == y;
                if i == 0 {
                    assert(s[0] == y);
                } else {
                    assert(insr[i - 1] == y);
                    assert(insr.contains(y));
                    if rest.contains(y) {
                        let m = choose|m: int| 0 <= m < rest.len() && #[trigger] rest[m] == y;
                        assert(s[m + 1] == y);
                    }
                }
            }
            if s.contains(y) {
                let i = choose|i: int| 0 <= i < s.len() && #[trigger] s[i] == y;
                if i == 0 {
                    assert(ins[0] == y);
                } else {
                    assert(rest[i - 1] == y);
                    assert(rest.contains(y));
                    assert(insr.contains(y));
                    let m = choose|m: int| 0 <= m < insr.len() && #[trigger] insr[m] == y;
                    assert(ins[m + 1] == y);
                }
            }
            if y == x {
                assert(insr.contains(y));
                let m = choose|m: int| 0 <= m < insr.len() && #[trigger] insr[m] == y;
                assert(ins[m + 1] == y);
            }
        }
        if sorted_starts(s) {
            assert forall|k: int| 0 <= k < rest.len() implies (#[trigger] rest[k]).0
                <= rest[k].0 by {}
            assert(sorted_starts(rest)) by {
                assert forall|i: int, j: int| 0 <= i <= j < rest.len() implies (
                #[trigger] rest[i]).0 <= (#[trigger] rest[j]).0 by {
                    assert(rest[i] == s[i + 1] && rest[j] == s[j + 1]);
                }
            }
            assert forall|i: int, j: int| 0 <= i <= j < ins.len() implies (#[trigger] ins[i]).0
                <= (#[trigger] ins[j]).0 by {
                if i == 0 && j > 0 {
                    assert(ins[j] == insr[j - 1]);
                    assert(insr.contains(insr[j - 1]));
                    let y = insr[j - 1];
                    if rest.contains(y) {
                        let m = choose|m: int| 0 <= m < rest.len() && #[trigger] rest[m] == y;
                        assert(s[m + 1] == y);
                    } else {
                        assert(y == x);
                    }
                } else if i > 0 {
                    assert(ins[i] == insr[i - 1] && ins[j] == insr[j - 1]);
                }
            }
        }
        if seq_separated(s) && (forall|k: int|
            0 <= k < s.len() ==> (x.1 <= (#[trigger] s[k]).0 || s[k].1 <= x.0)) {
            assert(seq_separated(rest)) by {
                assert forall|i: int, j: int| 0 <= i < j < rest.len() implies ((
                #[trigger] rest[i]).1 <= (#[trigger] rest[j]).0 || rest[j].1 <= rest[i].0) by {
                    assert(rest[i] == s[i + 1] && rest[j] == s[j + 1]);
                }
            }
            assert forall|k: int| 0 <= k < rest.len() implies (x.1 <= (#[trigger] rest[k]).0
                || rest[k].1 <= x.0) by {
                assert(rest[k] == s[k + 1]);
            }
            assert forall|i: int, j: int| 0 <= i < j < ins.len() implies ((#[trigger] ins[i]).1
                <= (#[trigger] ins[j]).0 || ins[j].1 <= ins[i].0) by {
                if i == 0 {
                    assert(ins[j] == insr[j - 1]);
                    assert(insr.contains(insr[j - 1]));
                    let y = insr[j - 1];
                    if rest.contains(y) {
                        let m = choose|m: int| 0 <= m < rest.len() && #[trigger] rest[m] == y;
                        assert(s[m + 1] == y);
                    } else {
                        assert(y == x);
                    }
                } else {
                    assert(ins[i] == insr[i - 1] && ins[j] == insr[j - 1]);
                }
            }
        }
    }
}

/// Sorting by start is a reordering: same regions, ascending starts,
/// separation kept.
proof fn lemma_sort_by_start_props(s: Seq<(usize, usize)>)
    ensures
        sort_by_start(s).len() == s.len(),
        forall|y: (usize, usize)| #[trigger] sort_by_start(s).contains(y) <==> s.contains(y),
        sorted_starts(sort_by_start(s)),
        seq_separated(s) ==> seq_separated(sort_by_start(s)),
    decreases s.len(),
{
    if s.len() == 0 {
    } else {
        let butlast = s.drop_last();
        let x = s.last();
        assert(seq_separated(s) ==> seq_separated(butlast)) by {
            if seq_separated(s) {
                assert forall|i: int, j: int| 0 <= i < j < butlast.len() implies ((
                #[trigger] butlast[i]).1 <= (#[trigger] butlast[j]).0 || butlast[j].1
                    <= butlast[i].0) by {
                    assert(butlast[i] == s[i] && butlast[j] == s[j]);
                }
            }
        }
        lemma_sort_by_start_props(butlast);
        let sb = sort_by_start(butlast);
        lemma_insert_by_start_props(sb, x);
        let ins = insert_by_start(sb, x);
        assert forall|y: (usize, usize)| #[trigger] ins.contains(y) <==> s.contains(y) by {
            if ins.contains(y) {
                if sb.contains(y) {
                    let m = choose|m: int| 0 <= m < butlast.len() && #[trigger] butlast[m] == y;
                    assert(s[m] == y);
                } else {
                    assert(y == x);
                    assert(s[s.len() - 1] == y);
                }
            }
            if s.contains(y) {
                let i = choose|i: int| 0 <= i < s.len() && #[trigger] s[i] == y;
                if i < s.len() - 1 {
                    assert(butlast[i] == y);
                    assert(butlast.contains(y));
                } else {
                    assert(y == x);
                }
            }
        }
        if seq_separated(s) {
            assert forall|k: int| 0 <= k < sb.len() implies (x.1 <= (#[trigger] sb[k]).0
                || sb[k].1 <= x.0) by {
                assert(sb.contains(sb[k]));
                assert(butlast.contains(sb[k]));
                let m = choose|m: int| 0 <= m < butlast.len() && #[trigger] butlast[m] == sb[k];
                assert(s[m] == sb[k]);
                assert(s[s.len() - 1] == x);
            }
        }
    }
}

/// Sorted, separated, well-formed regions form an ascending chain.
proof fn lemma_sorted_separated_chained(s: Seq<(usize, usize)>, low: usize, high: usize)
    requires
        sorted_starts(s),
        seq_separated(s),
        seq_within(s, low, high),
    ensures
        chained(s),
{
    assert forall|i: int, j: int| 0 <= i < j < s.len() implies (#[trigger] s[i]).1
        <= (#[trigger] s[j]).0 by {
        if s[j].1 <= s[i].0 {
            assert(s[j].0 < s[j].1);
            assert(s[i].0 <= s[j].0);
            assert(false);
        }
    }
}

/// The gap computation is exact: inside `[cursor, high)` an address is in a
/// gap precisely when no claimed region holds it, gaps stay inside the
/// range, and they come out as an ascending chain.
proof fn lemma_gaps_of_props(s: Seq<(usize, usize)>, cursor: usize, high: usize)
    requires
        seq_within(s, cursor, high),
        chained(s),
        cursor <= high,
    ensures
        forall|a: int|
            cursor <= a < high ==> (covers(s, a) <==> !covers(gaps_of(s, cursor, high), a)),
        forall|a: int| !(cursor <= a < high) ==> !covers(gaps_of(s, cursor, high), a),
        seq_within(gaps_of(s, cursor, high), cursor, high) || gaps_of(s, cursor, high).len() == 0,
        chained(gaps_of(s, cursor, high)),
    decreases s.len(),
{
    let g = gaps_of(s, cursor, high);
    if s.len() == 0 {
        assert forall|a: int| !(cursor <= a < high) implies !covers(g, a) by {
            if covers(g, a) {
                let i = choose|i: int| 0 <= i < g.len() && ((#[trigger] g[i]).0 <= a < g[i].1);
            }
        }
        assert forall|a: int| cursor <= a < high implies (covers(s, a) <==> !covers(g, a)) by {
            assert(g[0] == (cursor, high));
            assert(covers(g, a));
            if covers(s, a) {
                let i = choose|i: int| 0 <= i < s.len() && ((#[trigger] s[i]).0 <= a < s[i].1);
            }
        }
    } else {
        let e = s[0];
        let rest = s.drop_first();
        assert forall|k: int| 0 <= k < rest.len() implies e.1 <= (#[trigger] rest[k]).0
            && rest[k].0 < rest[k].1 && rest[k].1 <= high by {
            assert(rest[k] == s[k + 1]);
            assert(s[0].1 <= s[k + 1].0);
        }
        assert(chained(rest)) by {
            assert forall|i: int, j: int| 0 <= i < j < rest.len() implies (#[trigger] rest[i]).1
                <= (#[trigger] rest[j]).0 by {
                assert(rest[i] == s[i + 1] && rest[j] == s[j + 1]);
            }
        }
        assert(e.1 <= high);
        lemma_gaps_of_props(rest, e.1, high);
        let g0: Seq<(usize, usize)> = if cursor < e.0 {
            seq![(cursor, e.0)]
        } else {
            Seq::empty()
        };
        let grest = gaps_of(rest, e.1, high);
        assert(g == g0 + grest);
        assert forall|a: int| cursor <= a < high implies (covers(s, a) <==> !covers(g, a)) by {
            lemma_covers_concat(g0, grest, a);
            lemma_covers_unfold(s, a);
            if a < e.0 {
                assert(!covers(rest, a)) by {
                    if covers(rest, a) {
                        let k = choose|k: int| 0 <= k < rest.len() && ((#[trigger] rest[k]).0 <= a < rest[k].1);
                    }
                }
                assert(covers(g0, a)) by {
                    assert(g0[0] == (cursor, e.0));
                }
            } else if a < e.1 {
                assert(covers(s, a));
                assert(!covers(g0, a)) by {
                    if covers(g0, a) {
                        let k = choose|k: int| 0 <= k < g0.len() && ((#[trigger] g0[k]).0 <= a < g0[k].1);
                    }
                }
            } else {
                assert(!covers(g0, a)) by {
                    if covers(g0, a) {
                        let k = choose|k: int| 0 <= k < g0.len() && ((#[trigger] g0[k]).0 <= a < g0[k].1);
                    }
                }
            }
        }
        assert forall|a: int| !(cursor <= a < high) implies !covers(g, a) by {
            lemma_covers_concat(g0, grest, a);
            if covers(g0, a) {
                let k = choose|k: int| 0 <= k < g0.len() && ((#[trigger] g0[k]).0 <= a < g0[k].1);
            }
        }
        assert forall|k: int| 0 <= k < g.len() implies cursor <= (#[trigger] g[k]).0 && g[k].0
            < g[k].1 && g[k].1 <= high by {
            if k < g0.len() {
                assert(g[k] == g0[k]);
            } else {
                assert(g[k] == grest[k - g0.len()]);
                if grest.len() > 0 {
                    assert(e.1 <= grest[k - g0.len()].0);
                }
                assert(cursor <= e.0);
            }
        }
        assert forall|i: int, j: int| 0 <= i < j < g.len() implies (#[trigger] g[i]).1
            <= (#[trigger] g[j]).0 by {
            if i < g0.len() {
                assert(g[i] == g0[i]);
                assert(g[j] == grest[j - g0.len()]);
                assert(e.1 <= grest[j - g0.len()].0);
            } else {
                assert(g[i] == grest[i - g0.len()] && g[j] == grest[j - g0.len()]);
            }
        }
    }
}

/// Completeness: the claimed regions and the computed gaps partition the
/// managed range — every address in `[low, high)` lies in exactly one of
/// the two — and the gaps come out as an ascending chain inside the range.
/// Stored regions are assumed pairwise separated: claims sharing a start,
/// which the fixed touching-endpoints overlap rule admits, void the
/// partition.
pub proof fn lemma_iter_gaps_complete(m: &TableMemoryMapper, a: int)
    requires
        m.wf(),
        table_separated(m.table_view()),
        m.low() <= a < m.high(),
    ensures
        covers(claimed_seq(m.table_view()), a) <==> !covers(
            gaps_of(sort_by_start(claimed_seq(m.table_view())), m.low(), m.high()),
            a,
        ),
        chained(gaps_of(sort_by_start(claimed_seq(m.table_view())), m.low(), m.high())),
        seq_within(gaps_of(sort_by_start(claimed_seq(m.table_view())), m.low(), m.high()), m.low(), m.high())
            || gaps_of(sort_by_start(claimed_seq(m.table_view())), m.low(), m.high()).len() == 0,
{
    let t = m.table_view();
    let cs = claimed_seq(t);
    let ss = sort_by_start(cs);
    lemma_claimed_seq_props(t, m.low(), m.high());
    lemma_sort_by_start_props(cs);
    assert forall|k: int| 0 <= k < ss.len() implies m.low() <= (#[trigger] ss[k]).0 && ss[k].0
        < ss[k].1 && ss[k].1 <= m.high() by {
        assert(ss.contains(ss[k]));
        assert(cs.contains(ss[k]));
        let i = choose|i: int| 0 <= i < cs.len() && #[trigger] cs[i] == ss[k];
    }
    assert(seq_separated(ss)) by {
        assert(seq_separated(cs));
    }
    lemma_sorted_separated_chained(ss, m.low(), m.high());
    lemma_gaps_of_props(ss, m.low(), m.high());
    lemma_covers_members(cs, a);
    lemma_covers_members(ss, a);
    assert(covers(cs, a) <==> covers(ss, a)) by {
        if covers(cs, a) {
            let y = choose|y: (usize, usize)| #[trigger] cs.contains(y) && y.0 <= a < y.1;
            assert(ss.contains(y));
        }
        if covers(ss, a) {
            let y = choose|y: (usize, usize)| #[trigger] ss.contains(y) && y.0 <= a < y.1;
            assert(cs.contains(y));
        }
    }
}

} // verus!
