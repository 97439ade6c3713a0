//! Which bind group sits in which slot, and which slots the current pipeline layout can use.
use vstd::prelude::*;

use crate::hub::{BindGroup, PipelineLayout};
use crate::id::{
    BindGroupId, BindGroupLayoutId, DynamicOffset, PipelineLayoutId, MAX_BIND_GROUPS,
};

verus! {

/// A bind group together with its layout.
#[derive(Clone, Copy, Debug, PartialEq, Eq, Structural)]
pub struct BindGroupPair {
    pub layout_id: BindGroupLayoutId,
    pub group_id: BindGroupId,
}

/// One bind group slot.
#[derive(Debug)]
pub struct BindGroupEntry {
    /// The layout that the current pipeline wants here.
    pub expected_layout_id: Option<BindGroupLayoutId>,
    /// The bind group that the user has put here.
    pub provided: Option<BindGroupPair>,
    /// The dynamic offsets that came with it.
    pub dynamic_offsets: Vec<DynamicOffset>,
}

/// What became of a slot when a new layout was expected of it.
#[derive(Clone, Copy, Debug, PartialEq, Eq, Structural)]
pub enum LayoutChange {
    /// The same layout was expected before.
    Unchanged,
    /// The expectation is new, and this bind group meets it.
    Match(BindGroupId),
    /// The expectation is new, and no bind group in the slot meets it.
    Mismatch,
}

/// The slots of a pass and the pipeline layout that they are held against.
#[derive(Debug)]
pub struct Binder {
    pub pipeline_layout_id: Option<PipelineLayoutId>,
    pub entries: Vec<BindGroupEntry>,
}

/// What a [`BindGroupEntry`] stands for.
#[verifier::ext_equal]
pub struct Slot {
    pub expected: Option<BindGroupLayoutId>,
    pub provided: Option<BindGroupPair>,
    pub offsets: Seq<DynamicOffset>,
}

/// What a [`Binder`] stands for.
#[verifier::ext_equal]
pub struct Slots {
    pub layout: Option<PipelineLayoutId>,
    pub slots: Seq<Slot>,
}

impl Slot {
    pub open spec fn empty() -> Slot {
        Slot { expected: None, provided: None, offsets: Seq::empty() }
    }

    /// A bind group of the expected layout is in the slot.
    pub open spec fn compatible(self) -> bool {
        &&& self.expected matches Some(wanted)
        &&& self.provided matches Some(pair)
        &&& pair.layout_id == wanted
    }

    /// A layout is expected, and the slot does not meet it.
    pub open spec fn conflicting(self) -> bool {
        self.expected is Some && !self.compatible()
    }

    /// The slot already holds this bind group with these offsets.
    pub open spec fn holds(self, group_id: BindGroupId, offsets: Seq<DynamicOffset>) -> bool {
        &&& self.provided matches Some(pair)
        &&& pair.group_id == group_id
        &&& self.offsets == offsets
    }

    /// The slot with this bind group in it.
    pub open spec fn provide(self, pair: BindGroupPair, offsets: Seq<DynamicOffset>) -> Slot {
        Slot { expected: self.expected, provided: Some(pair), offsets }
    }

    /// The slot with this layout expected of it.
    pub open spec fn expecting(self, layout: Option<BindGroupLayoutId>) -> Slot {
        Slot { expected: layout, provided: self.provided, offsets: self.offsets }
    }

    /// What [`BindGroupEntry::expect_layout`] reports.
    pub open spec fn layout_change(self, layout_id: BindGroupLayoutId) -> LayoutChange {
        if self.expected == Some(layout_id) {
            LayoutChange::Unchanged
        } else if self.expecting(Some(layout_id)).compatible() {
            LayoutChange::Match(self.provided->0.group_id)
        } else {
            LayoutChange::Mismatch
        }
    }
}

/// How many slots, counted from the first, are compatible without a gap.
pub open spec fn compatible_count(slots: Seq<Slot>) -> nat
    decreases slots.len(),
{
    if slots.len() == 0 || !slots[0].compatible() {
        0
    } else {
        1 + compatible_count(slots.drop_first())
    }
}

/// [`compatible_count`] is the length of the longest compatible prefix.
pub proof fn lemma_compatible_count(slots: Seq<Slot>)
    ensures
        compatible_count(slots) <= slots.len(),
        forall|j: int| 0 <= j < compatible_count(slots) ==> (#[trigger] slots[j]).compatible(),
        compatible_count(slots) < slots.len() ==> !slots[compatible_count(
            slots,
        ) as int].compatible(),
    decreases slots.len(),
{
    if slots.len() > 0 && slots[0].compatible() {
        let rest = slots.drop_first();
        lemma_compatible_count(rest);
        assert forall|j: int| 0 <= j < compatible_count(slots) implies (
        #[trigger] slots[j]).compatible() by {
            if j > 0 {
                assert(rest[j - 1] == slots[j]);
            }
        }
    }
}

impl Slots {
    /// The slots of a new pass on a device that offers `max_bind_groups` of them.
    pub open spec fn empty(max_bind_groups: u32) -> Slots {
        let count = if max_bind_groups < MAX_BIND_GROUPS {
            max_bind_groups as nat
        } else {
            MAX_BIND_GROUPS as nat
        };
        Slots { layout: None, slots: Seq::new(count, |i: int| Slot::empty()) }
    }

    /// The slots after a bind group is put into slot `index`.
    pub open spec fn provide(
        self,
        index: int,
        pair: BindGroupPair,
        offsets: Seq<DynamicOffset>,
    ) -> Slots {
        if self.slots[index].holds(pair.group_id, offsets) {
            self
        } else {
            Slots {
                layout: self.layout,
                slots: self.slots.update(index, self.slots[index].provide(pair, offsets)),
            }
        }
    }

    /// Where the run of slots ends that has to be bound once a bind group was put into slot
    /// `index`, with the layout to bind them under; nothing if there is none to bind.
    ///
    /// A slot that already held the bind group, or that lies above an incompatible one, is not
    /// bound. A slot that was compatible before is bound alone; otherwise the compatible slots
    /// above it, which it had blocked, follow.
    pub open spec fn to_bind(
        self,
        index: int,
        pair: BindGroupPair,
        offsets: Seq<DynamicOffset>,
    ) -> Option<(PipelineLayoutId, nat)> {
        let count = compatible_count(self.provide(index, pair, offsets).slots);
        if self.slots[index].holds(pair.group_id, offsets) || index >= count {
            None
        } else {
            match self.layout {
                None => None,
                Some(layout) => Some(
                    (
                        layout,
                        if self.slots[index].compatible() {
                            (index + 1) as nat
                        } else {
                            count
                        },
                    ),
                ),
            }
        }
    }

    /// The slots under a new pipeline layout, before its expectations are put in. Expectations
    /// carry over only below `kept`.
    pub open spec fn relayout(self, layout: PipelineLayoutId, kept: int) -> Slots {
        Slots {
            layout: Some(layout),
            slots: Seq::new(
                self.slots.len(),
                |i: int|
                    if i < kept {
                        self.slots[i]
                    } else {
                        self.slots[i].expecting(None)
                    },
            ),
        }
    }

    /// The bit for slot `i` in [`Binder::invalid_mask`].
    pub open spec fn invalid(self, i: int) -> bool {
        0 <= i < self.slots.len() && self.slots[i].conflicting()
    }

    /// `i` is the first slot that conflicts with the current layout.
    pub open spec fn first_invalid(self, i: int) -> bool {
        self.invalid(i) && forall|j: int| 0 <= j < i ==> !#[trigger] self.invalid(j)
    }
}

/// How many expectations survive the change from layout `old` to layout `new`: those that `new`
/// will set anew, if push constants need not be invalidated.
pub open spec fn kept_expectations(old: Option<PipelineLayout>, new: PipelineLayout) -> int {
    match old {
        Some(old) if old.push_constant_ranges@ == new.push_constant_ranges@ => {
            new.bind_group_layout_ids@.len() as int
        },
        _ => 0,
    }
}

impl View for BindGroupEntry {
    type V = Slot;

    open spec fn view(&self) -> Slot {
        Slot {
            expected: self.expected_layout_id,
            provided: self.provided,
            offsets: self.dynamic_offsets@,
        }
    }
}

/// The slots that a list of entries stands for.
pub open spec fn slots_of(entries: Seq<BindGroupEntry>) -> Seq<Slot> {
    entries.map_values(|e: BindGroupEntry| e@)
}

impl View for Binder {
    type V = Slots;

    open spec fn view(&self) -> Slots {
        Slots { layout: self.pipeline_layout_id, slots: slots_of(self.entries@) }
    }
}

/// Whether two lists of offsets are the same.
pub fn same_offsets(a: &[DynamicOffset], b: &[DynamicOffset]) -> (r: bool)
    ensures
        r == (a@ == b@),
{
    if a.len() != b.len() {
        return false;
    }
    let mut i: usize = 0;
    while i < a.len()
        invariant
            i <= a@.len(),
            a@.len() == b@.len(),
            forall|j: int| 0 <= j < i ==> a@[j] == b@[j],
        decreases a@.len() - i,
    {
        if a[i] != b[i] {
            return false;
        }
        i = i + 1;
    }
    assert(a@ =~= b@);
    true
}

/// A copy of a list of offsets.
pub fn copy_offsets(offsets: &[DynamicOffset]) -> (r: Vec<DynamicOffset>)
    ensures
        r@ == offsets@,
{
    let mut r: Vec<DynamicOffset> = Vec::new();
    r.extend_from_slice(offsets);
    assert(r@ =~= offsets@);
    r
}

impl BindGroupEntry {
    fn new() -> (r: BindGroupEntry)
        ensures
            r@ == Slot::empty(),
    {
        BindGroupEntry { expected_layout_id: None, provided: None, dynamic_offsets: Vec::new() }
    }

    /// Expects `layout_id` of the slot from now on, and says whether the slot meets it.
    pub fn expect_layout(&mut self, layout_id: BindGroupLayoutId) -> (r: LayoutChange)
        ensures
            final(self)@ == old(self)@.expecting(Some(layout_id)),
            r == old(self)@.layout_change(layout_id),
    {
        let unchanged: bool = match self.expected_layout_id {
            Some(expected) => expected == layout_id,
            None => false,
        };
        if unchanged {
            return LayoutChange::Unchanged;
        }
        self.expected_layout_id = Some(layout_id);
        match self.provided {
            Some(pair) => {
                if pair.layout_id == layout_id {
                    LayoutChange::Match(pair.group_id)
                } else {
                    LayoutChange::Mismatch
                }
            },
            None => LayoutChange::Mismatch,
        }
    }

    /// Whether the slot meets what is expected of it; nothing if nothing is expected.
    pub fn is_valid(&self) -> (r: Option<bool>)
        ensures
            r == (if self@.expected is Some {
                Some(self@.compatible())
            } else {
                None
            }),
    {
        match self.expected_layout_id {
            None => None,
            Some(expected) => match self.provided {
                None => Some(false),
                Some(pair) => Some(pair.layout_id == expected),
            },
        }
    }
}

impl Binder {
    pub fn new(max_bind_groups: u32) -> (r: Binder)
        ensures
            r@ == Slots::empty(max_bind_groups),
    {
        let count: usize = if (max_bind_groups as usize) < MAX_BIND_GROUPS {
            max_bind_groups as usize
        } else {
            MAX_BIND_GROUPS
        };
        let mut entries: Vec<BindGroupEntry> = Vec::new();
        let mut i: usize = 0;
        while i < count
            invariant
                i <= count,
                entries@.len() == i,
                forall|j: int| 0 <= j < i ==> (#[trigger] entries@[j])@ == Slot::empty(),
            decreases count - i,
        {
            entries.push(BindGroupEntry::new());
            i = i + 1;
        }
        let r = Binder { pipeline_layout_id: None, entries };
        assert(r@.slots =~= Slots::empty(max_bind_groups).slots);
        r
    }

    /// How many slots, counted from the first, are compatible without a gap.
    pub fn compatible_count(&self) -> (r: usize)
        ensures
            r == compatible_count(self@.slots),
    {
        let mut i: usize = 0;
        proof {
            lemma_compatible_count(self@.slots);
        }
        while i < self.entries.len()
            invariant
                i <= self.entries@.len(),
                i <= compatible_count(self@.slots),
                compatible_count(self@.slots) <= self@.slots.len(),
                self@.slots.len() == self.entries@.len(),
                forall|j: int|
                    0 <= j < compatible_count(self@.slots) ==> (
                    #[trigger] self@.slots[j]).compatible(),
                compatible_count(self@.slots) < self@.slots.len()
                    ==> !self@.slots[compatible_count(self@.slots) as int].compatible(),
            decreases self.entries@.len() - i,
        {
            assert(self@.slots[i as int] == self.entries@[i as int]@);
            let compatible: bool = match self.entries[i].is_valid() {
                Some(valid) => valid,
                None => false,
            };
            if !compatible {
                return i;
            }
            i = i + 1;
        }
        i
    }

    /// One bit for each slot, from the lowest: whether the slot fails what is expected of it.
    pub fn invalid_mask(&self) -> (r: u8)
        requires
            self@.slots.len() <= MAX_BIND_GROUPS,
        ensures
            forall|j: u8| j < 8 ==> ((#[trigger] (r >> j)) & 1u8 == 1u8) == self@.invalid(j as int),
    {
        let mut mask: u8 = 0;
        let mut i: usize = 0;
        assert(forall|j: u8| j < 8 ==> (#[trigger] (0u8 >> j)) & 1u8 == 0u8) by (bit_vector);
        while i < self.entries.len()
            invariant
                i <= self.entries@.len() <= MAX_BIND_GROUPS,
                self@.slots.len() == self.entries@.len(),
                forall|j: u8|
                    j < 8 ==> ((#[trigger] (mask >> j)) & 1u8 == 1u8) == (j < i && self@.invalid(
                        j as int,
                    )),
            decreases self.entries@.len() - i,
        {
            assert(self@.slots[i as int] == self.entries@[i as int]@);
            let valid: bool = match self.entries[i].is_valid() {
                Some(valid) => valid,
                None => true,
            };
            let ghost before = mask;
            if !valid {
                let bit: u8 = i as u8;
                mask = mask | (1u8 << bit);
                assert(forall|j: u8|
                    j < 8 ==> (#[trigger] (mask >> j)) & 1u8 == (if j == bit {
                        1u8
                    } else {
                        (before >> j) & 1u8
                    })) by (bit_vector)
                    requires
                        bit < 8,
                        mask == before | (1u8 << bit),
                ;
            }
            i = i + 1;
        }
        mask
    }

    /// Puts a bind group into slot `index`. If that makes slots ready to be bound, gives the
    /// layout to bind them under and where the run of slots that starts at `index` ends.
    pub fn provide_entry(
        &mut self,
        index: usize,
        bind_group_id: BindGroupId,
        bind_group: &BindGroup,
        offsets: &[DynamicOffset],
    ) -> (r: Option<(PipelineLayoutId, usize)>)
        requires
            index < old(self)@.slots.len(),
        ensures
            final(self)@ == old(self)@.provide(
                index as int,
                (BindGroupPair { layout_id: bind_group.layout_id, group_id: bind_group_id }),
                offsets@,
            ),
            match (
                r,
                old(self)@.to_bind(
                    index as int,
                    (BindGroupPair { layout_id: bind_group.layout_id, group_id: bind_group_id }),
                    offsets@,
                ),
            ) {
                (None, None) => true,
                (Some((layout, end)), Some((spec_layout, spec_end))) => layout == spec_layout && end
                    == spec_end,
                _ => false,
            },
    {
        let ghost before = self@;
        let ghost pair = BindGroupPair { layout_id: bind_group.layout_id, group_id: bind_group_id };
        assert(before.slots[index as int] == self.entries@[index as int]@);
        let holds: bool = match self.entries[index].provided {
            Some(pair) => pair.group_id == bind_group_id && same_offsets(
                offsets,
                self.entries[index].dynamic_offsets.as_slice(),
            ),
            None => false,
        };
        if holds {
            return None;
        }
        let was_compatible: bool = match self.entries[index].is_valid() {
            Some(valid) => valid,
            None => false,
        };
        let entry = BindGroupEntry {
            expected_layout_id: self.entries[index].expected_layout_id,
            provided: Some(
                BindGroupPair { layout_id: bind_group.layout_id, group_id: bind_group_id },
            ),
            dynamic_offsets: copy_offsets(offsets),
        };
        self.entries.set(index, entry);
        assert(self@.slots =~= before.provide(index as int, pair, offsets@).slots);
        let count: usize = self.compatible_count();
        if index >= count {
            return None;
        }
        match self.pipeline_layout_id {
            None => None,
            Some(layout) => Some(
                (
                    layout,
                    if was_compatible {
                        index + 1
                    } else {
                        count
                    },
                ),
            ),
        }
    }

    /// Holds the slots against a new pipeline layout. `old_layout` is the layout that they were
    /// held against so far.
    pub fn change_pipeline_layout(
        &mut self,
        old_layout: Option<&PipelineLayout>,
        new_id: PipelineLayoutId,
        new_layout: &PipelineLayout,
    )
        ensures
            final(self)@ == old(self)@.relayout(
                new_id,
                kept_expectations(
                    match old_layout {
                        Some(layout) => Some(*layout),
                        None => None,
                    },
                    *new_layout,
                ),
            ),
    {
        let ghost before = self@;
        self.pipeline_layout_id = Some(new_id);
        let kept: usize = match old_layout {
            Some(layout) => if same_ranges(layout, new_layout) {
                new_layout.bind_group_layout_ids.len()
            } else {
                0
            },
            None => 0,
        };
        let mut i: usize = kept;
        while i < self.entries.len()
            invariant
                kept <= i,
                self.pipeline_layout_id == Some(new_id),
                self.entries@.len() == before.slots.len(),
                forall|j: int|
                    0 <= j < self.entries@.len() ==> (#[trigger] self.entries@[j])@ == (if kept <= j
                        < i {
                        before.slots[j].expecting(None)
                    } else {
                        before.slots[j]
                    }),
            decreases self.entries@.len() - i,
        {
            let ghost unchanged = self.entries@[i as int];
            self.entries[i].expected_layout_id = None;
            assert(self.entries@[i as int]@ =~= unchanged@.expecting(None));
            i = i + 1;
        }
        assert(self@.slots =~= before.relayout(new_id, kept as int).slots);
    }
}

/// Whether two layouts have the same push constant ranges.
pub fn same_ranges(a: &PipelineLayout, b: &PipelineLayout) -> (r: bool)
    ensures
        r == (a.push_constant_ranges@ == b.push_constant_ranges@),
{
    if a.push_constant_ranges.len() != b.push_constant_ranges.len() {
        return false;
    }
    let mut i: usize = 0;
    while i < a.push_constant_ranges.len()
        invariant
            i <= a.push_constant_ranges@.len(),
            a.push_constant_ranges@.len() == b.push_constant_ranges@.len(),
            forall|j: int|
                0 <= j < i ==> a.push_constant_ranges@[j] == b.push_constant_ranges@[j],
        decreases a.push_constant_ranges@.len() - i,
    {
        if a.push_constant_ranges[i] != b.push_constant_ranges[i] {
            return false;
        }
        i = i + 1;
    }
    assert(a.push_constant_ranges@ =~= b.push_constant_ranges@);
    true
}

} // verus!
