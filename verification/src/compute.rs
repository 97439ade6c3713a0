//! A compute pass as it is recorded: a list of commands beside the data that they refer to.
use vstd::prelude::*;

use crate::id::{
    BindGroupId, BufferAddress, BufferId, CommandEncoderId, ComputePipelineId, DynamicOffset,
    PUSH_CONSTANT_ALIGNMENT,
};
use crate::text::{decimal, format_u64};

verus! {

/// One recorded command. Data of varying length lies in the lists of the [`BasePass`] around it:
/// dynamic offsets and label bytes in the order of the commands that use them, push constants at
/// the place that the command names.
#[derive(Clone, Copy, Debug, PartialEq, Eq)]
pub enum ComputeCommand {
    /// Puts a bind group into slot `index`, with the next `num_dynamic_offsets` offsets.
    SetBindGroup { index: u8, num_dynamic_offsets: u8, bind_group_id: BindGroupId },
    SetPipeline(ComputePipelineId),
    /// Writes `size_bytes` bytes of push constants at `offset`, from the words at `values_offset`.
    SetPushConstant { offset: u32, size_bytes: u32, values_offset: u32 },
    Dispatch([u32; 3]),
    DispatchIndirect { buffer_id: BufferId, offset: BufferAddress },
    /// Opens a debug group labelled with the next `len` bytes.
    PushDebugGroup { color: u32, len: usize },
    PopDebugGroup,
    /// Leaves a mark labelled with the next `len` bytes.
    InsertDebugMarker { color: u32, len: usize },
}

/// A recorded pass: commands, and the data that they refer to.
#[derive(Debug)]
pub struct BasePass<C> {
    pub commands: Vec<C>,
    /// Dynamic offsets, in the order of the commands that use them.
    pub dynamic_offsets: Vec<DynamicOffset>,
    /// Label bytes, in the order of the commands that use them.
    pub string_data: Vec<u8>,
    /// Push constant words.
    pub push_constant_data: Vec<u32>,
}

/// A [`BasePass`], borrowed.
#[derive(Debug)]
pub struct BasePassRef<'a, C> {
    pub commands: &'a [C],
    pub dynamic_offsets: &'a [DynamicOffset],
    pub string_data: &'a [u8],
    pub push_constant_data: &'a [u32],
}

/// What a [`BasePass`] or a [`BasePassRef`] stands for.
#[verifier::ext_equal]
pub struct PassData<C> {
    pub commands: Seq<C>,
    pub dynamic_offsets: Seq<DynamicOffset>,
    pub string_data: Seq<u8>,
    pub push_constant_data: Seq<u32>,
}

impl<C> View for BasePass<C> {
    type V = PassData<C>;

    open spec fn view(&self) -> PassData<C> {
        PassData {
            commands: self.commands@,
            dynamic_offsets: self.dynamic_offsets@,
            string_data: self.string_data@,
            push_constant_data: self.push_constant_data@,
        }
    }
}

impl<'a, C> View for BasePassRef<'a, C> {
    type V = PassData<C>;

    open spec fn view(&self) -> PassData<C> {
        PassData {
            commands: self.commands@,
            dynamic_offsets: self.dynamic_offsets@,
            string_data: self.string_data@,
            push_constant_data: self.push_constant_data@,
        }
    }
}

impl<C> PassData<C> {
    pub open spec fn empty() -> PassData<C> {
        PassData {
            commands: Seq::empty(),
            dynamic_offsets: Seq::empty(),
            string_data: Seq::empty(),
            push_constant_data: Seq::empty(),
        }
    }
}

impl<C> BasePass<C> {
    pub fn new() -> (r: BasePass<C>)
        ensures
            r@ == PassData::<C>::empty(),
    {
        BasePass {
            commands: Vec::new(),
            dynamic_offsets: Vec::new(),
            string_data: Vec::new(),
            push_constant_data: Vec::new(),
        }
    }

    pub fn as_ref(&self) -> (r: BasePassRef<'_, C>)
        ensures
            r@ == self@,
    {
        BasePassRef {
            commands: self.commands.as_slice(),
            dynamic_offsets: self.dynamic_offsets.as_slice(),
            string_data: self.string_data.as_slice(),
            push_constant_data: self.push_constant_data.as_slice(),
        }
    }
}

impl<C: Copy> BasePass<C> {
    /// A pass of its own with the same contents.
    pub fn from_ref(base: &BasePassRef<'_, C>) -> (r: BasePass<C>)
        ensures
            r@ == base@,
    {
        let mut r: BasePass<C> = BasePass::new();
        let mut i: usize = 0;
        while i < base.commands.len()
            invariant
                i <= base.commands@.len(),
                r@ == (PassData { commands: base.commands@.take(i as int), ..PassData::empty() }),
            decreases base.commands@.len() - i,
        {
            r.commands.push(base.commands[i]);
            i = i + 1;
            assert(r.commands@ =~= base.commands@.take(i as int));
        }
        r.dynamic_offsets.extend_from_slice(base.dynamic_offsets);
        r.string_data.extend_from_slice(base.string_data);
        r.push_constant_data.extend_from_slice(base.push_constant_data);
        assert(r@ =~= base@);
        r
    }
}

/// How many dynamic offsets a command takes.
pub open spec fn offsets_taken(command: ComputeCommand) -> nat {
    match command {
        ComputeCommand::SetBindGroup { num_dynamic_offsets, .. } => num_dynamic_offsets as nat,
        _ => 0,
    }
}

/// How many label bytes a command takes.
pub open spec fn text_taken(command: ComputeCommand) -> nat {
    match command {
        ComputeCommand::PushDebugGroup { len, .. } => len as nat,
        ComputeCommand::InsertDebugMarker { len, .. } => len as nat,
        _ => 0,
    }
}

/// Whether the words that a command names exist among `available`.
pub open spec fn constants_present(command: ComputeCommand, available: nat) -> bool {
    match command {
        ComputeCommand::SetPushConstant { size_bytes, values_offset, .. } => values_offset
            + size_bytes / PUSH_CONSTANT_ALIGNMENT <= available,
        _ => true,
    }
}

/// How many dynamic offsets a list of commands takes in all.
pub open spec fn total_offsets(commands: Seq<ComputeCommand>) -> nat
    decreases commands.len(),
{
    if commands.len() == 0 {
        0
    } else {
        total_offsets(commands.drop_last()) + offsets_taken(commands.last())
    }
}

/// How many label bytes a list of commands takes in all.
pub open spec fn total_text(commands: Seq<ComputeCommand>) -> nat
    decreases commands.len(),
{
    if commands.len() == 0 {
        0
    } else {
        total_text(commands.drop_last()) + text_taken(commands.last())
    }
}

impl PassData<ComputeCommand> {
    /// The commands use up the dynamic offsets and the label bytes exactly, and the push constants
    /// that they name exist.
    pub open spec fn well_formed(self) -> bool {
        &&& total_offsets(self.commands) == self.dynamic_offsets.len()
        &&& total_text(self.commands) == self.string_data.len()
        &&& forall|i: int|
            0 <= i < self.commands.len() ==> constants_present(
                #[trigger] self.commands[i],
                self.push_constant_data.len(),
            )
    }

    /// The pass with one more command and the data that it brings.
    pub open spec fn record(
        self,
        command: ComputeCommand,
        offsets: Seq<DynamicOffset>,
        text: Seq<u8>,
        constants: Seq<u32>,
    ) -> PassData<ComputeCommand> {
        PassData {
            commands: self.commands.push(command),
            dynamic_offsets: self.dynamic_offsets + offsets,
            string_data: self.string_data + text,
            push_constant_data: self.push_constant_data + constants,
        }
    }

    /// The pass with one more command that brings no data.
    pub open spec fn record_bare(self, command: ComputeCommand) -> PassData<ComputeCommand> {
        self.record(command, Seq::empty(), Seq::empty(), Seq::empty())
    }
}

/// A command that brings exactly the data that it takes keeps a pass well formed.
pub proof fn lemma_record_well_formed(
    data: PassData<ComputeCommand>,
    command: ComputeCommand,
    offsets: Seq<DynamicOffset>,
    text: Seq<u8>,
    constants: Seq<u32>,
)
    requires
        data.well_formed(),
        offsets.len() == offsets_taken(command),
        text.len() == text_taken(command),
        constants_present(command, data.push_constant_data.len() + constants.len()),
    ensures
        data.record(command, offsets, text, constants).well_formed(),
{
    let after = data.record(command, offsets, text, constants);
    assert(after.commands.drop_last() =~= data.commands);
    assert forall|i: int| 0 <= i < after.commands.len() implies constants_present(
        #[trigger] after.commands[i],
        after.push_constant_data.len(),
    ) by {
        if i < data.commands.len() {
            assert(after.commands[i] == data.commands[i]);
        }
    }
}

/// A compute pass that is being recorded for the command encoder `parent_id`.
pub struct ComputePass {
    pub base: BasePass<ComputeCommand>,
    pub parent_id: CommandEncoderId,
}

impl ComputePass {
    /// What the pass holds so far.
    pub open spec fn data(self) -> PassData<ComputeCommand> {
        self.base@
    }

    pub fn new(parent_id: CommandEncoderId) -> (r: ComputePass)
        ensures
            r.data() == PassData::<ComputeCommand>::empty(),
            r.data().well_formed(),
            r.parent_id == parent_id,
    {
        ComputePass { base: BasePass::new(), parent_id }
    }

    pub fn parent_id(&self) -> (r: CommandEncoderId)
        ensures
            r == self.parent_id,
    {
        self.parent_id
    }

    /// A one-line description of the pass.
    pub fn debug_string(&self) -> (r: String)
        ensures
            r@ == "ComputePass { encoder_id: "@ + decimal(self.parent_id as nat) + ", data: "@
                + decimal(self.data().commands.len()) + " commands and "@ + decimal(
                self.data().dynamic_offsets.len(),
            ) + " dynamic offsets }"@,
    {
        let mut r: String = String::new();
        r.append("ComputePass { encoder_id: ");
        r.append(format_u64(self.parent_id).as_str());
        r.append(", data: ");
        r.append(format_u64(self.base.commands.len() as u64).as_str());
        r.append(" commands and ");
        r.append(format_u64(self.base.dynamic_offsets.len() as u64).as_str());
        r.append(" dynamic offsets }");
        r
    }
}

/// How a compute pass is to be begun. There is nothing to choose yet.
#[derive(Clone, Debug)]
pub struct ComputePassDescriptor {
    pub todo: u32,
}

impl Default for ComputePassDescriptor {
    fn default() -> (r: ComputePassDescriptor)
        ensures
            r.todo == 0,
    {
        ComputePassDescriptor { todo: 0 }
    }
}

} // verus!
