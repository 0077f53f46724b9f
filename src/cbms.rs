use vstd::prelude::*;

verus! {

/// Failure to place a cursor on a requested bar.
#[derive(Clone, Copy, Debug, PartialEq, Eq, Structural)]
pub enum CBMSError {
    BarOutOfRange,
    BarIsEmpty,
}

/// One measure's region in the two flat sequences of a store: the half-open
/// slot range in `command_cnt` and the half-open range in `commands`.
#[derive(Clone, Copy, Debug)]
pub struct MeasureCommandSet {
    pub measure: u32,
    pub command_cnt_idx: (usize, usize),
    pub commands_idx: (usize, usize),
}

/// A value for one channel; the value is opaque to the store.
#[derive(Clone, Copy, Debug, PartialEq, Eq, Structural)]
pub struct ChannelCommand {
    pub channel: u32,
    pub value: u32,
}

/// A position in bar-time: `measure + slot / slots`.
#[derive(Clone, Copy, Debug, PartialEq, Eq, Structural)]
pub struct BarTime {
    pub measure: u32,
    pub slot: usize,
    pub slots: usize,
}

/// Bar-time `a` is not later than `b` (compared as rationals within a bar).
pub open spec fn bar_time_le(a: BarTime, b: BarTime) -> bool {
    a.measure < b.measure || (a.measure == b.measure && a.slot * b.slots <= b.slot * a.slots)
}

/// Sum of the first `k` entries of `s`.
pub open spec fn prefix_sum(s: Seq<usize>, k: int) -> int
    decreases k,
{
    if k <= 0 || k > s.len() {
        0
    } else {
        prefix_sum(s, k - 1) + s[k - 1] as int
    }
}

/// Prefix sums never decrease.
pub proof fn lemma_prefix_sum_mono(s: Seq<usize>, i: int, j: int)
    requires
        0 <= i <= j <= s.len(),
    ensures
        prefix_sum(s, i) <= prefix_sum(s, j),
    decreases j - i,
{
    if i < j {
        lemma_prefix_sum_mono(s, i, j - 1);
    }
}

/// Extending a sequence keeps the sums of its prefixes.
pub proof fn lemma_prefix_sum_extend(s: Seq<usize>, t: Seq<usize>, k: int)
    requires
        0 <= k <= s.len(),
    ensures
        prefix_sum(s + t, k) == prefix_sum(s, k),
    decreases k,
{
    if k > 0 {
        lemma_prefix_sum_extend(s, t, k - 1);
        assert((s + t)[k - 1] == s[k - 1]);
    }
}

/// The compiled chart: slot sizes, the flat command sequence, and the
/// per-measure regions of both.
#[derive(Debug)]
pub struct CBMS {
    pub command_cnt: Vec<usize>,
    pub commands: Vec<ChannelCommand>,
    pub measure_sets: Vec<MeasureCommandSet>,
}

impl CBMS {
    /// The store's invariants: measures strictly increase, the regions are
    /// non-empty, contiguous and cover both sequences, and each region of
    /// `commands` holds exactly as many commands as its slots count.
    pub open spec fn wf(&self) -> bool {
        let ms = self.measure_sets@;
        let cc = self.command_cnt@;
        &&& self.commands@.len() == prefix_sum(cc, cc.len() as int)
        &&& ms.len() == 0 ==> cc.len() == 0
        &&& ms.len() > 0 ==> ms[0].command_cnt_idx.0 == 0 && ms.last().command_cnt_idx.1 == cc.len()
        &&& forall|i: int|
            #![trigger ms[i]]
            0 <= i < ms.len() ==> {
                &&& ms[i].command_cnt_idx.0 < ms[i].command_cnt_idx.1
                &&& ms[i].command_cnt_idx.1 <= cc.len()
                &&& ms[i].commands_idx.0 == prefix_sum(cc, ms[i].command_cnt_idx.0 as int)
                &&& ms[i].commands_idx.1 == prefix_sum(cc, ms[i].command_cnt_idx.1 as int)
                &&& (ms[i].measure as int) < usize::MAX
            }
        &&& forall|i: int|
            #![trigger ms[i - 1]]
            0 < i < ms.len() ==> ms[i].command_cnt_idx.0 == ms[i - 1].command_cnt_idx.1
        &&& forall|i: int, j: int|
            #![trigger ms[i], ms[j]]
            0 <= i < j < ms.len() ==> ms[i].measure < ms[j].measure && ms[i].command_cnt_idx.1
                <= ms[j].command_cnt_idx.0
    }

    /// One past the highest emitted measure, or zero for an empty store.
    pub open spec fn spec_bar_count(&self) -> int {
        if self.measure_sets@.len() == 0 {
            0
        } else {
            self.measure_sets@.last().measure + 1
        }
    }

    /// The bar-time of slot `k`, which lies in the region of measure set `j`.
    pub open spec fn slot_time(&self, j: int, k: int) -> BarTime {
        let ms = self.measure_sets@[j];
        BarTime {
            measure: ms.measure,
            slot: (k - ms.command_cnt_idx.0) as usize,
            slots: (ms.command_cnt_idx.1 - ms.command_cnt_idx.0) as usize,
        }
    }

    pub open spec fn set_holds_slot(&self, j: int, k: int) -> bool {
        &&& 0 <= j < self.measure_sets@.len()
        &&& self.measure_sets@[j].command_cnt_idx.0 <= k < self.measure_sets@[j].command_cnt_idx.1
    }

    /// An empty store.
    pub fn new() -> (r: Self)
        ensures
            r.wf(),
            r.command_cnt@.len() == 0,
            r.commands@.len() == 0,
            r.measure_sets@.len() == 0,
    {
        CBMS { command_cnt: Vec::new(), commands: Vec::new(), measure_sets: Vec::new() }
    }

    pub fn bar_count(&self) -> (r: usize)
        requires
            self.wf(),
        ensures
            r == self.spec_bar_count(),
    {
        let len = self.measure_sets.len();
        if len == 0 {
            return 0;
        }
        assert(self.measure_sets@[len - 1] == self.measure_sets@.last());
        self.measure_sets[len - 1].measure as usize + 1
    }

    pub fn command(&self, idx: usize) -> (r: Option<ChannelCommand>)
        ensures
            idx < self.commands@.len() ==> r == Some(self.commands@[idx as int]),
            idx >= self.commands@.len() ==> r.is_none(),
    {
        if idx < self.commands.len() {
            Some(self.commands[idx])
        } else {
            None
        }
    }
}

/// Slot times follow slot order: a slot never comes before an earlier one.
pub proof fn lemma_slot_time_mono(cbms: &CBMS, j0: int, k0: int, j: int, k: int)
    requires
        cbms.wf(),
        cbms.set_holds_slot(j0, k0),
        cbms.set_holds_slot(j, k),
        k0 <= k,
    ensures
        bar_time_le(cbms.slot_time(j0, k0), cbms.slot_time(j, k)),
{
    let ms = cbms.measure_sets@;
    if j < j0 {
        assert(ms[j].command_cnt_idx.1 <= ms[j0].command_cnt_idx.0);
    } else if j > j0 {
        assert(ms[j0].measure < ms[j].measure);
    } else {
        let a = k0 - ms[j].command_cnt_idx.0;
        let b = k - ms[j].command_cnt_idx.0;
        let n = ms[j].command_cnt_idx.1 - ms[j].command_cnt_idx.0;
        assert(a * n <= b * n) by (nonlinear_arith)
            requires
                0 <= a <= b,
                n > 0,
        ;
    }
}

/// Each command index of a well-formed store lies in exactly one slot, and
/// a later command index never has an earlier bar-time than a former one:
/// walking the commands in order walks bar-time forward.
pub proof fn lemma_commands_in_time_order(cbms: &CBMS, i: int, k: int, j: int, i2: int, k2: int, j2: int)
    requires
        cbms.wf(),
        i <= i2,
        cbms.set_holds_slot(j, k),
        cbms.set_holds_slot(j2, k2),
        prefix_sum(cbms.command_cnt@, k) <= i < prefix_sum(cbms.command_cnt@, k + 1),
        prefix_sum(cbms.command_cnt@, k2) <= i2 < prefix_sum(cbms.command_cnt@, k2 + 1),
    ensures
        k <= k2,
        i == i2 ==> k == k2,
        bar_time_le(cbms.slot_time(j, k), cbms.slot_time(j2, k2)),
{
    let cc = cbms.command_cnt@;
    if k > k2 {
        lemma_prefix_sum_mono(cc, k2 + 1, k);
    }
    if i == i2 && k < k2 {
        lemma_prefix_sum_mono(cc, k + 1, k2);
    }
    lemma_slot_time_mono(cbms, j, k, j2, k2);
}

/// Position data of a measure cursor, without the store it walks.
pub struct CBMSIteratorData {
    pub current_set: usize,
    pub current_cmd_pos: usize,
    pub current_cmd_cnt_pos: usize,
}

impl Default for CBMSIteratorData {
    fn default() -> (r: Self)
        ensures
            r.current_set == 0,
            r.current_cmd_pos == 0,
            r.current_cmd_cnt_pos == 0,
    {
        CBMSIteratorData { current_set: 0, current_cmd_pos: 0, current_cmd_cnt_pos: 0 }
    }
}

/// A read-only cursor over a store that yields one slot per step: the range
/// of its commands and its bar-time.
pub struct CBMSIterator<'a> {
    pub cbms: &'a CBMS,
    pub current_set: usize,
    pub current_cmd_pos: usize,
    pub current_cmd_cnt_pos: usize,
}

/// A read-only cursor over a store that yields one command index per step,
/// with the bar-time of the slot that holds it.
pub struct CBMSFlatten<'a> {
    pub iter: CBMSIterator<'a>,
    pub idx: usize,
    pub range: (usize, usize),
    pub bms_time: BarTime,
}

/// A player bound to a store.
pub struct CBMSPlayer<'a> {
    pub cbms: &'a CBMS,
}

impl<'a> CBMSPlayer<'a> {
    pub fn new(cbms: &'a CBMS) -> (r: Self)
        ensures
            *r.cbms == *cbms,
    {
        CBMSPlayer { cbms }
    }
}

impl CBMS {
    /// A cursor at the first slot of the store.
    pub fn iter(&self) -> (r: CBMSIterator<'_>)
        requires
            self.wf(),
        ensures
            r.wf(),
            *r.cbms == *self,
            r.current_set == 0,
            r.current_cmd_cnt_pos == 0,
            r.current_cmd_pos == 0,
    {
        CBMSIterator::new(self)
    }

    /// A cursor at the first slot of measure `bar`.
    pub fn iter_from_bar(&self, bar: usize) -> (r: Result<CBMSIterator<'_>, CBMSError>)
        requires
            self.wf(),
        ensures
            bar >= self.spec_bar_count() ==> r == Err::<CBMSIterator<'_>, CBMSError>(
                CBMSError::BarOutOfRange,
            ),
            bar < self.spec_bar_count() && !self.has_measure(bar as int) ==> r == Err::<
                CBMSIterator<'_>,
                CBMSError,
            >(CBMSError::BarIsEmpty),
            r is Ok <==> bar < self.spec_bar_count() && self.has_measure(bar as int),
            r matches Ok(it) ==> {
                let ms = self.measure_sets@[it.current_set as int];
                &&& it.wf()
                &&& *it.cbms == *self
                &&& it.current_set < self.measure_sets@.len()
                &&& ms.measure == bar
                &&& it.current_cmd_cnt_pos == ms.command_cnt_idx.0
                &&& it.current_cmd_pos == ms.commands_idx.0
            },
    {
        if bar >= self.bar_count() {
            return Err(CBMSError::BarOutOfRange);
        }
        let len = self.measure_sets.len();
        let mut k: usize = 0;
        while k < len && (self.measure_sets[k].measure as usize) < bar
            invariant
                self.wf(),
                len == self.measure_sets@.len(),
                k <= len,
                forall|j: int| 0 <= j < k ==> (#[trigger] self.measure_sets@[j].measure) < bar,
            decreases len - k,
        {
            k += 1;
        }
        if k < len && self.measure_sets[k].measure as usize == bar {
            let ms = self.measure_sets[k];
            Ok(
                CBMSIterator {
                    cbms: self,
                    current_set: k,
                    current_cmd_pos: ms.commands_idx.0,
                    current_cmd_cnt_pos: ms.command_cnt_idx.0,
                },
            )
        } else {
            proof {
                assert forall|j: int| 0 <= j < len implies #[trigger] self.measure_sets@[j].measure
                    != bar by {
                    if j > k {
                        assert(self.measure_sets@[k as int].measure
                            < self.measure_sets@[j].measure);
                    }
                }
            }
            Err(CBMSError::BarIsEmpty)
        }
    }

    /// Some region belongs to measure `bar`.
    pub open spec fn has_measure(&self, bar: int) -> bool {
        exists|k: int|
            0 <= k < self.measure_sets@.len() && #[trigger] self.measure_sets@[k].measure == bar
    }

    /// Cursor data at the start of the region with index `bar`.
    pub fn iter_data_from_bar(&self, bar: usize) -> (r: CBMSIteratorData)
        requires
            bar < self.measure_sets@.len(),
        ensures
            r.current_set == bar,
            r.current_cmd_pos == self.measure_sets@[bar as int].commands_idx.0,
            r.current_cmd_cnt_pos == self.measure_sets@[bar as int].command_cnt_idx.0,
    {
        CBMSIteratorData {
            current_set: bar,
            current_cmd_pos: self.measure_sets[bar].commands_idx.0,
            current_cmd_cnt_pos: self.measure_sets[bar].command_cnt_idx.0,
        }
    }
}

impl<'a> CBMSIterator<'a> {
    /// The cursor's position is a slot boundary inside (or at the end of)
    /// its current region, and its command position matches it.
    pub open spec fn wf(&self) -> bool {
        let ms = self.cbms.measure_sets@;
        let cc = self.cbms.command_cnt@;
        &&& self.cbms.wf()
        &&& self.current_cmd_cnt_pos <= cc.len()
        &&& self.current_cmd_pos == prefix_sum(cc, self.current_cmd_cnt_pos as int)
        &&& self.current_set <= ms.len()
        &&& self.current_set < ms.len() ==> ms[self.current_set as int].command_cnt_idx.0
            <= self.current_cmd_cnt_pos <= ms[self.current_set as int].command_cnt_idx.1
        &&& self.current_set == ms.len() ==> self.current_cmd_cnt_pos == cc.len()
    }

    pub fn new(bms: &'a CBMS) -> (r: Self)
        requires
            bms.wf(),
        ensures
            r.wf(),
            *r.cbms == *bms,
            r.current_set == 0,
            r.current_cmd_cnt_pos == 0,
            r.current_cmd_pos == 0,
    {
        CBMSIterator { cbms: bms, current_set: 0, current_cmd_pos: 0, current_cmd_cnt_pos: 0 }
    }

    /// Yields the next slot: its command range and its bar-time.
    pub fn next(&mut self) -> (r: Option<((usize, usize), BarTime)>)
        requires
            old(self).wf(),
        ensures
            final(self).wf(),
            *final(self).cbms == *old(self).cbms,
            r is None <==> old(self).current_cmd_cnt_pos == old(self).cbms.command_cnt@.len(),
            r is None ==> final(self).current_cmd_cnt_pos == old(self).current_cmd_cnt_pos,
            r matches Some((range, t)) ==> {
                let k = old(self).current_cmd_cnt_pos as int;
                let cc = old(self).cbms.command_cnt@;
                &&& final(self).current_cmd_cnt_pos == k + 1
                &&& range.0 == prefix_sum(cc, k)
                &&& range.1 == prefix_sum(cc, k + 1)
                &&& old(self).cbms.set_holds_slot(final(self).current_set as int, k)
                &&& t == old(self).cbms.slot_time(final(self).current_set as int, k)
            },
    {
        let len = self.cbms.measure_sets.len();
        while self.current_set < len && self.current_cmd_cnt_pos
            >= self.cbms.measure_sets[self.current_set].command_cnt_idx.1
            invariant
                self.wf(),
                len == self.cbms.measure_sets@.len(),
                self.cbms == old(self).cbms,
                self.current_cmd_cnt_pos == old(self).current_cmd_cnt_pos,
                self.current_cmd_pos == old(self).current_cmd_pos,
            decreases len - self.current_set,
        {
            proof {
                let j = self.current_set as int;
                if j + 1 < len {
                    assert(self.cbms.measure_sets@[j + 1 - 1] == self.cbms.measure_sets@[j]);
                } else {
                    assert(self.cbms.measure_sets@[j] == self.cbms.measure_sets@.last());
                }
            }
            self.current_set += 1;
        }
        if self.current_set >= len {
            return None;
        }
        let set = self.cbms.measure_sets[self.current_set];
        let pos = self.current_cmd_cnt_pos;
        let cnt = self.cbms.command_cnt[pos];
        proof {
            lemma_prefix_sum_mono(
                self.cbms.command_cnt@,
                pos + 1,
                self.cbms.command_cnt@.len() as int,
            );
        }
        let range = (self.current_cmd_pos, self.current_cmd_pos + cnt);
        let t = BarTime {
            measure: set.measure,
            slot: pos - set.command_cnt_idx.0,
            slots: set.command_cnt_idx.1 - set.command_cnt_idx.0,
        };
        self.current_cmd_cnt_pos = pos + 1;
        self.current_cmd_pos = self.current_cmd_pos + cnt;
        Some((range, t))
    }

    /// A command-by-command cursor that starts where this one stands.
    pub fn flatten(self) -> (r: CBMSFlatten<'a>)
        requires
            self.wf(),
        ensures
            r.wf(),
            r.iter == self,
            r.idx == self.current_cmd_pos,
            r.bms_time == (BarTime { measure: 0, slot: 0, slots: 1 }),
    {
        let p = self.current_cmd_pos;
        let start = BarTime { measure: 0, slot: 0, slots: 1 };
        proof {
            assert forall|j: int, k2: int|
                self.current_cmd_cnt_pos <= k2 && #[trigger] self.cbms.set_holds_slot(
                    j,
                    k2,
                ) implies bar_time_le(start, self.cbms.slot_time(j, k2)) by {
                let t = self.cbms.slot_time(j, k2);
                assert(0 * t.slots == 0);
                assert(t.slot * 1 == t.slot);
            }
        }
        CBMSFlatten { iter: self, idx: p, range: (p, p), bms_time: start }
    }
}

impl<'a> CBMSFlatten<'a> {
    /// The cursor sits inside the command range of the slot it last took,
    /// whose bar-time it keeps, and that time is not after any slot still
    /// ahead of it.
    pub open spec fn wf(&self) -> bool {
        let it = self.iter;
        let cc = it.cbms.command_cnt@;
        let k = it.current_cmd_cnt_pos as int;
        &&& it.wf()
        &&& self.range.1 == it.current_cmd_pos
        &&& self.range.0 <= self.idx <= self.range.1
        &&& self.idx < self.range.1 ==> {
            &&& k >= 1
            &&& self.range.0 == prefix_sum(cc, k - 1)
            &&& it.cbms.set_holds_slot(it.current_set as int, k - 1)
            &&& self.bms_time == it.cbms.slot_time(it.current_set as int, k - 1)
        }
        &&& forall|j: int, k2: int|
            k <= k2 && #[trigger] it.cbms.set_holds_slot(j, k2) ==> bar_time_le(
                self.bms_time,
                it.cbms.slot_time(j, k2),
            )
    }

    /// Yields the next command index and the bar-time of its slot.
    pub fn next(&mut self) -> (r: Option<(usize, BarTime)>)
        requires
            old(self).wf(),
        ensures
            final(self).wf(),
            *final(self).iter.cbms == *old(self).iter.cbms,
            r is None <==> old(self).idx == old(self).iter.cbms.commands@.len(),
            r matches Some((i, t)) ==> {
                let k = final(self).iter.current_cmd_cnt_pos - 1;
                let cc = old(self).iter.cbms.command_cnt@;
                &&& i == old(self).idx
                &&& final(self).idx == i + 1
                &&& t == final(self).bms_time
                &&& bar_time_le(old(self).bms_time, t)
                &&& old(self).iter.cbms.set_holds_slot(final(self).iter.current_set as int, k)
                &&& prefix_sum(cc, k) <= i < prefix_sum(cc, k + 1)
                &&& t == old(self).iter.cbms.slot_time(final(self).iter.current_set as int, k)
            },
    {
        let ghost t0 = self.bms_time;
        let ghost cbms = *self.iter.cbms;
        let ghost i0 = self.idx;
        proof {
            lemma_prefix_sum_mono(
                cbms.command_cnt@,
                self.iter.current_cmd_cnt_pos as int,
                cbms.command_cnt@.len() as int,
            );
        }
        while self.idx >= self.range.1
            invariant
                self.wf(),
                *self.iter.cbms == cbms,
                cbms == *old(self).iter.cbms,
                self.idx == i0,
                i0 == old(self).idx,
                i0 <= cbms.commands@.len(),
                forall|j: int, k2: int|
                    self.iter.current_cmd_cnt_pos <= k2 && #[trigger] cbms.set_holds_slot(j, k2) ==> bar_time_le(
                        t0,
                        cbms.slot_time(j, k2),
                    ),
                bar_time_le(t0, self.bms_time),
            decreases cbms.command_cnt@.len() - self.iter.current_cmd_cnt_pos,
        {
            let ghost k = self.iter.current_cmd_cnt_pos as int;
            match self.iter.next() {
                None => {
                    return None;
                },
                Some((r, t)) => {
                    proof {
                        let j = self.iter.current_set as int;
                        assert(cbms.set_holds_slot(j, k));
                        assert forall|j2: int, k2: int|
                            self.iter.current_cmd_cnt_pos <= k2 && #[trigger] cbms.set_holds_slot(
                                j2,
                                k2,
                            ) implies bar_time_le(t, cbms.slot_time(j2, k2)) by {
                            lemma_slot_time_mono(&cbms, j, k, j2, k2);
                        }
                        lemma_prefix_sum_mono(cbms.command_cnt@, k + 1, cbms.command_cnt@.len() as int);
                    }
                    self.range = r;
                    self.bms_time = t;
                    self.idx = r.0;
                },
            }
        }
        proof {
            lemma_prefix_sum_mono(
                cbms.command_cnt@,
                self.iter.current_cmd_cnt_pos as int,
                cbms.command_cnt@.len() as int,
            );
        }
        let i = self.idx;
        self.idx = i + 1;
        Some((i, self.bms_time))
    }
}

/// The value of the last command of `cmds` on channel `ch`, if any.
pub open spec fn last_channel_value(cmds: Seq<ChannelCommand>, ch: int) -> Option<u32>
    decreases cmds.len(),
{
    if cmds.len() == 0 {
        None
    } else if cmds.last().channel == ch {
        Some(cmds.last().value)
    } else {
        last_channel_value(cmds.drop_last(), ch)
    }
}

impl CBMS {
    /// The commands of slot `k`.
    pub open spec fn slot_commands(&self, k: int) -> Seq<ChannelCommand> {
        self.commands@.subrange(
            prefix_sum(self.command_cnt@, k),
            prefix_sum(self.command_cnt@, k + 1),
        )
    }

    /// One row per slot of measure `bar`, first slot first; entry `c` of a row
    /// holds the value of the last command of that slot on channel
    /// `channels_beg + c`, for `channels_cnt` channels.
    pub fn bar_grid(&self, bar: usize, channels_beg: u32, channels_cnt: u32) -> (r: Result<
        Vec<Vec<Option<u32>>>,
        CBMSError,
    >)
        requires
            self.wf(),
        ensures
            bar >= self.spec_bar_count() ==> r == Err::<Vec<Vec<Option<u32>>>, CBMSError>(
                CBMSError::BarOutOfRange,
            ),
            bar < self.spec_bar_count() && !self.has_measure(bar as int) ==> r == Err::<
                Vec<Vec<Option<u32>>>,
                CBMSError,
            >(CBMSError::BarIsEmpty),
            r is Ok <==> bar < self.spec_bar_count() && self.has_measure(bar as int),
            r matches Ok(grid) ==> exists|j: int|
                0 <= j < self.measure_sets@.len() && #[trigger] self.measure_sets@[j].measure == bar
                    && {
                    let lo = self.measure_sets@[j].command_cnt_idx.0;
                    let hi = self.measure_sets@[j].command_cnt_idx.1;
                    &&& grid@.len() == hi - lo
                    &&& forall|s: int|
                        #![trigger grid@[s]]
                        0 <= s < grid@.len() ==> grid@[s]@.len() == channels_cnt && forall|c: int|
                            0 <= c < channels_cnt ==> #[trigger] grid@[s]@[c] == last_channel_value(
                                self.slot_commands(lo + s),
                                channels_beg + c,
                            )
                },
    {
        let it = match self.iter_from_bar(bar) {
            Ok(it) => it,
            Err(e) => {
                return Err(e);
            },
        };
        let j = it.current_set;
        let set = self.measure_sets[j];
        let lo = set.command_cnt_idx.0;
        let hi = set.command_cnt_idx.1;
        let mut grid: Vec<Vec<Option<u32>>> = Vec::new();
        let mut k: usize = lo;
        let mut pos: usize = set.commands_idx.0;
        while k < hi
            invariant
                self.wf(),
                0 <= j < self.measure_sets@.len(),
                set == self.measure_sets@[j as int],
                lo == set.command_cnt_idx.0,
                hi == set.command_cnt_idx.1,
                lo <= k <= hi,
                hi <= self.command_cnt@.len(),
                pos == prefix_sum(self.command_cnt@, k as int),
                grid@.len() == k - lo,
                forall|s: int|
                    #![trigger grid@[s]]
                    0 <= s < grid@.len() ==> grid@[s]@.len() == channels_cnt && forall|c: int|
                        0 <= c < channels_cnt ==> #[trigger] grid@[s]@[c] == last_channel_value(
                            self.slot_commands(lo + s),
                            channels_beg + c,
                        ),
            decreases hi - k,
        {
            let mut row: Vec<Option<u32>> = Vec::new();
            let mut c: u32 = 0;
            while c < channels_cnt
                invariant
                    c <= channels_cnt,
                    row@.len() == c,
                    forall|x: int| 0 <= x < c ==> row@[x] is None,
                decreases channels_cnt - c,
            {
                row.push(None);
                c += 1;
            }
            proof {
                lemma_prefix_sum_mono(self.command_cnt@, k + 1, self.command_cnt@.len() as int);
                lemma_prefix_sum_mono(self.command_cnt@, k as int, k + 1);
            }
            let end = pos + self.command_cnt[k];
            let ghost p0 = pos;
            let mut i: usize = pos;
            while i < end
                invariant
                    self.wf(),
                    p0 <= i <= end,
                    end == prefix_sum(self.command_cnt@, k + 1),
                    end <= self.commands@.len(),
                    row@.len() == channels_cnt,
                    forall|c: int|
                        0 <= c < channels_cnt ==> #[trigger] row@[c] == last_channel_value(
                            self.commands@.subrange(p0 as int, i as int),
                            channels_beg + c,
                        ),
                decreases end - i,
            {
                let cmd = self.commands[i];
                let ghost prev = self.commands@.subrange(p0 as int, i as int);
                let ghost next = self.commands@.subrange(p0 as int, i + 1);
                assert(next.drop_last() == prev);
                assert(next.last() == cmd);
                if cmd.channel >= channels_beg && ((cmd.channel - channels_beg) as u32) < channels_cnt {
                    let x = (cmd.channel - channels_beg) as usize;
                    row.set(x, Some(cmd.value));
                }
                i += 1;
            }
            grid.push(row);
            proof {
                assert(grid@[k - lo] == row);
            }
            pos = end;
            k += 1;
        }
        assert(grid@.len() == hi - lo);
        Ok(grid)
    }
}

} // verus!
