//! Typed port buffers, handles, and the per-module port stores.
//!
//! Every port carries one block per evaluation.  An in-port is always either
//! linked to exactly one out-port or holds a constant block; an out-port owns
//! its block and the list of in-ports subscribed to it.  Element types are
//! tagged at run time and checked when ports are linked.

use vstd::prelude::*;

use crate::constants::BUFFER_LEN;
use crate::midi::{MidiEvent, MidiEvents};

verus! {

/// Whether a named port is a single port or a variadic run of ports.
#[derive(Clone, Copy, Debug, PartialEq, Eq, Structural)]
pub enum BufferArity {
    Single,
    Variadic,
}

/// The element kind a port carries: audio samples or MIDI event lists.
#[derive(Clone, Copy, Debug, PartialEq, Eq, Structural)]
pub enum BufferElemEnum {
    Signal,
    Midi,
}

/// The direction of a port as seen from its module.
#[derive(Clone, Copy, Debug, PartialEq, Eq, Structural)]
pub enum BufferDirEnum {
    In,
    Out,
}

/// Direction and element kind together.
#[derive(Clone, Copy, Debug, PartialEq, Eq, Structural)]
pub struct BufferType {
    pub dir: BufferDirEnum,
    pub elem: BufferElemEnum,
}

/// The kind of identifier a lookup or creation failed on.
#[derive(Clone, Copy, Debug, PartialEq, Eq, Structural)]
pub enum HostIdentifier {
    Module,
    GroupedModule,
    Group,
    GroupInstance,
    Buffer(BufferType),
}

/// Errors raised while a module declares its ports.
#[derive(Clone, Debug)]
pub enum ModuleError {
    /// Two ports of the same direction and element kind share a name.
    DuplicateBufferIdentifier { ident: String, buffer_type: BufferType },
}

/// Errors raised by the host while the graph is built.
#[derive(Clone, Debug)]
pub enum HostError {
    /// A module failed to initialize, reported under the module's name.
    ModuleInit { module_name: String, source: ModuleError },
    /// A grouped module failed to initialize.
    GroupedModuleInit { group_name: String, module_name: String, source: ModuleError },
    /// A name is already taken in its scope.
    DuplicateIdentifier { ident: String, ident_type: HostIdentifier },
    /// A name was not found in its scope.
    NonexistentIdentifier { ident: String, ident_type: HostIdentifier },
    /// An index into a variadic port run is out of bounds.
    VariadicBufferOutOfBounds { idx: usize, len: usize },
    /// A single-port lookup found a variadic port, or the other way round.
    UnexpectedBufferArity { expected: BufferArity, found: BufferArity },
    /// A link was attempted between ports of different element kinds.
    BufferElemMismatch { out_elem: BufferElemEnum, in_elem: BufferElemEnum },
    /// A group operation was attempted across two different groups.
    BufferGroupMismatch,
    /// An instance handle was used with a grouped module of another group.
    InstanceGroupMismatch,
}

pub type ModuleResult<T> = Result<T, ModuleError>;

pub type HostResult<T> = Result<T, HostError>;

/// One element value: the payload of a single sample slot.
#[derive(Clone, Debug)]
pub enum ElemValue {
    Signal(i64),
    Midi(MidiEvents),
}

impl ElemValueView {
    /// The element kind of this value.
    pub open spec fn elem(self) -> BufferElemEnum {
        match self {
            ElemValueView::Signal(_) => BufferElemEnum::Signal,
            ElemValueView::Midi(_) => BufferElemEnum::Midi,
        }
    }
}

impl ElemValue {
    /// The element kind of this value.
    pub open spec fn spec_elem(self) -> BufferElemEnum {
        match self {
            ElemValue::Signal(_) => BufferElemEnum::Signal,
            ElemValue::Midi(_) => BufferElemEnum::Midi,
        }
    }

    /// The element kind of this value.
    pub fn elem(&self) -> (e: BufferElemEnum)
        ensures
            e == self.spec_elem(),
    {
        match self {
            ElemValue::Signal(_) => BufferElemEnum::Signal,
            ElemValue::Midi(_) => BufferElemEnum::Midi,
        }
    }

    /// The default value of an element kind: a zero sample, an empty event
    /// list.
    pub fn default_of(elem: BufferElemEnum) -> (v: ElemValue)
        ensures
            v@ == default_value_of(elem),
            v.spec_elem() == elem,
    {
        match elem {
            BufferElemEnum::Signal => ElemValue::Signal(0),
            BufferElemEnum::Midi => ElemValue::Midi(Vec::new()),
        }
    }
}

/// The mathematical value of one element.
#[verifier::ext_equal]
pub enum ElemValueView {
    Signal(i64),
    Midi(Seq<MidiEvent>),
}

impl View for ElemValue {
    type V = ElemValueView;

    open spec fn view(&self) -> ElemValueView {
        match self {
            ElemValue::Signal(x) => ElemValueView::Signal(*x),
            ElemValue::Midi(v) => ElemValueView::Midi(v@),
        }
    }
}

/// The default element value of a kind.
pub open spec fn default_value_of(elem: BufferElemEnum) -> ElemValueView {
    match elem {
        BufferElemEnum::Signal => ElemValueView::Signal(0),
        BufferElemEnum::Midi => ElemValueView::Midi(Seq::empty()),
    }
}

/// One block: a fixed-length run of sample slots of one element kind.
#[derive(Clone, Debug)]
pub enum Block {
    Signal(Vec<i64>),
    Midi(Vec<MidiEvents>),
}

/// The mathematical value of one block.
#[verifier::ext_equal]
pub enum BlockView {
    Signal(Seq<i64>),
    Midi(Seq<Seq<MidiEvent>>),
}

/// The per-slot views of a sequence of event lists.
pub open spec fn midi_views(v: Seq<MidiEvents>) -> Seq<Seq<MidiEvent>> {
    Seq::new(v.len(), |i: int| v[i]@)
}

impl View for Block {
    type V = BlockView;

    open spec fn view(&self) -> BlockView {
        match self {
            Block::Signal(v) => BlockView::Signal(v@),
            Block::Midi(v) => BlockView::Midi(midi_views(v@)),
        }
    }
}

impl BlockView {
    /// The element kind of a block value.
    pub open spec fn elem(self) -> BufferElemEnum {
        match self {
            BlockView::Signal(_) => BufferElemEnum::Signal,
            BlockView::Midi(_) => BufferElemEnum::Midi,
        }
    }

    /// The number of sample slots of a block value.
    pub open spec fn len(self) -> nat {
        match self {
            BlockView::Signal(s) => s.len(),
            BlockView::Midi(s) => s.len(),
        }
    }

    /// A block is well formed when it holds exactly one slot per sample.
    pub open spec fn wf(self) -> bool {
        self.len() == BUFFER_LEN
    }

    /// The element value in slot `i` of a block value.
    pub open spec fn slot(self, i: int) -> ElemValueView {
        match self {
            BlockView::Signal(s) => ElemValueView::Signal(s[i]),
            BlockView::Midi(s) => ElemValueView::Midi(s[i]),
        }
    }
}

/// The block every slot of which holds `v`.
pub open spec fn const_block_view(v: ElemValueView) -> BlockView {
    match v {
        ElemValueView::Signal(x) => BlockView::Signal(Seq::new(BUFFER_LEN as nat, |i: int| x)),
        ElemValueView::Midi(e) => BlockView::Midi(Seq::new(BUFFER_LEN as nat, |i: int| e)),
    }
}

impl Block {
    /// The element kind of this block.
    pub fn elem(&self) -> (e: BufferElemEnum)
        ensures
            e == self@.elem(),
    {
        match self {
            Block::Signal(_) => BufferElemEnum::Signal,
            Block::Midi(_) => BufferElemEnum::Midi,
        }
    }
}

/// Copy a MIDI event list.
pub fn copy_events(v: &MidiEvents) -> (r: MidiEvents)
    ensures
        r@ == v@,
{
    let mut r: MidiEvents = Vec::new();
    let mut i: usize = 0;
    while i < v.len()
        invariant
            i <= v.len(),
            r@ == v@.subrange(0, i as int),
        decreases v.len() - i,
    {
        r.push(v[i]);
        proof {
            assert(r@ =~= v@.subrange(0, i + 1));
        }
        i = i + 1;
    }
    proof {
        assert(r@ =~= v@);
    }
    r
}

/// Copy an element value.
pub fn copy_value(v: &ElemValue) -> (r: ElemValue)
    ensures
        r@ == v@,
{
    match v {
        ElemValue::Signal(x) => ElemValue::Signal(*x),
        ElemValue::Midi(ev) => ElemValue::Midi(copy_events(ev)),
    }
}

/// Copy a block.
pub fn copy_block(b: &Block) -> (r: Block)
    ensures
        r@ == b@,
{
    match b {
        Block::Signal(v) => {
            let mut s: Vec<i64> = Vec::new();
            let mut i: usize = 0;
            while i < v.len()
                invariant
                    i <= v.len(),
                    s@ == v@.subrange(0, i as int),
                decreases v.len() - i,
            {
                s.push(v[i]);
                proof {
                    assert(s@ =~= v@.subrange(0, i + 1));
                }
                i = i + 1;
            }
            proof {
                assert(s@ =~= v@);
            }
            Block::Signal(s)
        },
        Block::Midi(v) => {
            let mut s: Vec<MidiEvents> = Vec::new();
            let mut i: usize = 0;
            while i < v.len()
                invariant
                    i <= v.len(),
                    s@.len() == i,
                    forall|j: int| 0 <= j < i ==> s@[j]@ == v@[j]@,
                decreases v.len() - i,
            {
                let events = copy_events(&v[i]);
                s.push(events);
                i = i + 1;
            }
            proof {
                assert(midi_views(s@) =~= midi_views(v@));
            }
            Block::Midi(s)
        },
    }
}

/// Build the block that a constant in-port holds: every slot carries the
/// given value.
pub fn make_constant_block(value: &ElemValue) -> (b: Block)
    ensures
        b@ == const_block_view(value@),
        b@.elem() == value.spec_elem(),
        b@.wf(),
{
    match value {
        ElemValue::Signal(x) => {
            let mut s: Vec<i64> = Vec::new();
            while s.len() < BUFFER_LEN
                invariant
                    s@.len() <= BUFFER_LEN,
                    forall|i: int| 0 <= i < s@.len() ==> s@[i] == *x,
                decreases BUFFER_LEN - s@.len(),
            {
                s.push(*x);
            }
            proof {
                assert(s@ =~= Seq::new(BUFFER_LEN as nat, |i: int| *x));
            }
            Block::Signal(s)
        },
        ElemValue::Midi(ev) => {
            let mut s: Vec<MidiEvents> = Vec::new();
            while s.len() < BUFFER_LEN
                invariant
                    s@.len() <= BUFFER_LEN,
                    forall|i: int| 0 <= i < s@.len() ==> s@[i]@ == ev@,
                decreases BUFFER_LEN - s@.len(),
            {
                let events = copy_events(ev);
                s.push(events);
            }
            proof {
                assert(midi_views(s@) =~= Seq::new(BUFFER_LEN as nat, |i: int| ev@));
            }
            Block::Midi(s)
        },
    }
}

/// A handle to one port within one direction of one module.
#[derive(Clone, Copy, Debug, PartialEq, Eq, Structural)]
pub struct BufferHandle {
    pub idx: usize,
}

impl BufferHandle {
    pub fn new(idx: usize) -> (h: BufferHandle)
        ensures
            h.idx == idx,
    {
        BufferHandle { idx }
    }
}

/// A handle to a variadic run of ports.
#[derive(Clone, Copy, Debug, PartialEq, Eq, Structural)]
pub struct VariadicBufferHandle {
    pub num_args: usize,
    pub buffer: BufferHandle,
}

impl VariadicBufferHandle {
    /// The single-port handle of slot `idx` of this run.
    pub fn at(&self, idx: usize) -> (r: HostResult<BufferHandle>)
        requires
            self.buffer.idx + self.num_args <= usize::MAX,
        ensures
            idx < self.num_args ==> r == Ok::<BufferHandle, HostError>(
                BufferHandle { idx: (self.buffer.idx + idx) as usize },
            ),
            idx >= self.num_args ==> r == Err::<BufferHandle, HostError>(
                HostError::VariadicBufferOutOfBounds { idx, len: self.num_args },
            ),
    {
        if idx >= self.num_args {
            Err(HostError::VariadicBufferOutOfBounds { idx, len: self.num_args })
        } else {
            Ok(BufferHandle::new(self.buffer.idx + idx))
        }
    }

    /// All single-port handles of this run, in slot order.
    pub fn all(&self) -> (r: Vec<BufferHandle>)
        requires
            self.buffer.idx + self.num_args <= usize::MAX,
        ensures
            r@.len() == self.num_args,
            forall|i: int|
                0 <= i < self.num_args ==> r@[i] == (BufferHandle {
                    idx: (self.buffer.idx + i) as usize,
                }),
    {
        let mut out: Vec<BufferHandle> = Vec::new();
        let mut i: usize = 0;
        while i < self.num_args
            invariant
                i <= self.num_args,
                self.buffer.idx + self.num_args <= usize::MAX,
                out@.len() == i,
                forall|j: int|
                    0 <= j < i ==> out@[j] == (BufferHandle {
                        idx: (self.buffer.idx + j) as usize,
                    }),
            decreases self.num_args - i,
        {
            out.push(BufferHandle::new(self.buffer.idx + i));
            i = i + 1;
        }
        out
    }
}

/// A stable handle to a module in the host's store.
#[derive(Clone, Copy, Debug, PartialEq, Eq, Structural)]
pub struct ModuleHandle {
    pub idx: usize,
}

/// A handle to one port of one module, tagged with its direction and element
/// kind.
#[derive(Clone, Copy, Debug, PartialEq, Eq, Structural)]
pub struct ModuleBufferHandle {
    pub module_handle: ModuleHandle,
    pub ty: BufferType,
    pub buf_handle: BufferHandle,
}

/// A handle to a variadic run of ports of one module.
#[derive(Clone, Copy, Debug, PartialEq, Eq, Structural)]
pub struct ModuleVariadicBufferHandle {
    pub module_handle: ModuleHandle,
    pub ty: BufferType,
    pub buf_handle: VariadicBufferHandle,
}

impl ModuleVariadicBufferHandle {
    /// The module-port handle of slot `idx` of this run.
    pub fn at(&self, idx: usize) -> (r: HostResult<ModuleBufferHandle>)
        requires
            self.buf_handle.buffer.idx + self.buf_handle.num_args <= usize::MAX,
        ensures
            idx < self.buf_handle.num_args ==> r == Ok::<ModuleBufferHandle, HostError>(
                ModuleBufferHandle {
                    module_handle: self.module_handle,
                    ty: self.ty,
                    buf_handle: BufferHandle { idx: (self.buf_handle.buffer.idx + idx) as usize },
                },
            ),
            idx >= self.buf_handle.num_args ==> r == Err::<ModuleBufferHandle, HostError>(
                HostError::VariadicBufferOutOfBounds { idx, len: self.buf_handle.num_args },
            ),
    {
        match self.buf_handle.at(idx) {
            Ok(h) => Ok(
                ModuleBufferHandle {
                    module_handle: self.module_handle,
                    ty: self.ty,
                    buf_handle: h,
                },
            ),
            Err(e) => Err(e),
        }
    }
}

/// The state of an in-port: linked to a producer's out-port, or holding a
/// constant block.
#[derive(Clone, Debug)]
pub enum BufferInPort {
    OutBuffer(ModuleBufferHandle),
    Constant(Block),
}

/// The mathematical value of an in-port.
#[verifier::ext_equal]
pub enum BufferInPortView {
    OutBuffer(ModuleBufferHandle),
    Constant(BlockView),
}

impl View for BufferInPort {
    type V = BufferInPortView;

    open spec fn view(&self) -> BufferInPortView {
        match self {
            BufferInPort::OutBuffer(h) => BufferInPortView::OutBuffer(*h),
            BufferInPort::Constant(b) => BufferInPortView::Constant(b@),
        }
    }
}

impl BufferInPortView {
    /// The element kind this in-port currently carries.
    pub open spec fn elem(self) -> BufferElemEnum {
        match self {
            BufferInPortView::OutBuffer(h) => h.ty.elem,
            BufferInPortView::Constant(b) => b.elem(),
        }
    }

    /// Whether this in-port is linked to a producer.
    pub open spec fn is_linked(self) -> bool {
        self is OutBuffer
    }

    /// The handle of the out-port this in-port is linked to (meaningful only
    /// when linked).
    pub open spec fn src(self) -> ModuleBufferHandle {
        self->OutBuffer_0
    }

    /// The in-port holding a constant block of the given value.
    pub open spec fn constant_of(v: ElemValueView) -> BufferInPortView {
        BufferInPortView::Constant(const_block_view(v))
    }

    /// The default in-port of an element kind.
    pub open spec fn default_of(elem: BufferElemEnum) -> BufferInPortView {
        BufferInPortView::Constant(const_block_view(default_value_of(elem)))
    }
}

impl BufferInPort {
    /// An in-port holding a constant block of the given value.
    pub fn with_constant(value: &ElemValue) -> (p: BufferInPort)
        ensures
            p@ == BufferInPortView::constant_of(value@),
            p@.elem() == value.spec_elem(),
    {
        BufferInPort::Constant(make_constant_block(value))
    }

    /// The default in-port of an element kind: a constant block of the
    /// kind's default value.
    pub fn default_for(elem: BufferElemEnum) -> (p: BufferInPort)
        ensures
            p@ == BufferInPortView::default_of(elem),
            p@.elem() == elem,
    {
        let v = ElemValue::default_of(elem);
        BufferInPort::with_constant(&v)
    }
}

/// An out-port: its owned block and the in-ports subscribed to it.
#[derive(Clone, Debug)]
pub struct BufferOutPort {
    pub buffer: Block,
    pub dependents: Vec<ModuleBufferHandle>,
}

/// The mathematical value of an out-port.
#[verifier::ext_equal]
pub struct BufferOutPortView {
    pub buffer: BlockView,
    pub dependents: Seq<ModuleBufferHandle>,
}

impl View for BufferOutPort {
    type V = BufferOutPortView;

    open spec fn view(&self) -> BufferOutPortView {
        BufferOutPortView { buffer: self.buffer@, dependents: self.dependents@ }
    }
}

/// A registered port name: a single handle or a variadic run.
#[derive(Clone, Copy, Debug, PartialEq, Eq, Structural)]
pub enum HandleArity {
    Single(BufferHandle),
    Variadic(VariadicBufferHandle),
}

/// One entry of a port name table.
#[derive(Clone, Debug)]
pub struct NameEntry {
    pub name: String,
    pub elem: BufferElemEnum,
    pub arity: HandleArity,
}

/// The mathematical value of a name-table entry.
#[verifier::ext_equal]
pub struct NameEntryView {
    pub name: Seq<char>,
    pub elem: BufferElemEnum,
    pub arity: HandleArity,
}

impl View for NameEntry {
    type V = NameEntryView;

    open spec fn view(&self) -> NameEntryView {
        NameEntryView { name: self.name@, elem: self.elem, arity: self.arity }
    }
}

impl NameEntryView {
    /// Whether this entry registers the given name in the given element
    /// namespace.
    pub open spec fn is_match(self, name: Seq<char>, elem: BufferElemEnum) -> bool {
        self.name == name && self.elem == elem
    }
}

/// The views of a sequence of name entries.
pub open spec fn name_views(s: Seq<NameEntry>) -> Seq<NameEntryView> {
    Seq::new(s.len(), |i: int| s[i]@)
}

/// Whether some entry of a name table registers the given name in the given
/// element namespace.
pub open spec fn names_has(names: Seq<NameEntryView>, name: Seq<char>, elem: BufferElemEnum) -> bool {
    exists|i: int| 0 <= i < names.len() && (#[trigger] names[i]).is_match(name, elem)
}

/// The entry of a name table registering the given name in the given
/// element namespace.
pub open spec fn names_entry_for(
    names: Seq<NameEntryView>,
    name: Seq<char>,
    elem: BufferElemEnum,
) -> NameEntryView {
    names[choose|i: int| 0 <= i < names.len() && (#[trigger] names[i]).is_match(name, elem)]
}

/// The ports of one direction of one module: the port slots in declaration
/// order and the name table over them.
pub struct BufferPorts<P> {
    pub dir: BufferDirEnum,
    pub num_args: usize,
    pub buffers: Vec<P>,
    pub handles: Vec<NameEntry>,
}

/// The mathematical value of a port store.
#[verifier::ext_equal]
pub struct PortsView<PV> {
    pub dir: BufferDirEnum,
    pub num_args: usize,
    pub buffers: Seq<PV>,
    pub names: Seq<NameEntryView>,
}

impl<P: View> View for BufferPorts<P> {
    type V = PortsView<P::V>;

    open spec fn view(&self) -> PortsView<P::V> {
        PortsView {
            dir: self.dir,
            num_args: self.num_args,
            buffers: Seq::new(self.buffers@.len(), |i: int| self.buffers@[i]@),
            names: name_views(self.handles@),
        }
    }
}

impl<PV> PortsView<PV> {
    /// An entry's handles stay within the port slots, and a variadic entry
    /// has the store's arity.
    pub open spec fn entry_in_range(self, e: NameEntryView) -> bool {
        match e.arity {
            HandleArity::Single(h) => h.idx < self.buffers.len(),
            HandleArity::Variadic(v) => v.num_args == self.num_args && v.buffer.idx + v.num_args
                <= self.buffers.len(),
        }
    }

    /// The name table is consistent: entries stay in range and no name is
    /// registered twice within one element namespace.
    pub open spec fn names_wf(self) -> bool {
        &&& forall|i: int| 0 <= i < self.names.len() ==> self.entry_in_range(#[trigger] self.names[i])
        &&& forall|i: int, j: int|
            0 <= i < j < self.names.len() ==> !self.names[j].is_match(
                self.names[i].name,
                self.names[i].elem,
            )
    }

    /// Whether some entry registers the given name in the given namespace.
    pub open spec fn has_name(self, name: Seq<char>, elem: BufferElemEnum) -> bool {
        names_has(self.names, name, elem)
    }

    /// The entry registering the given name in the given namespace.
    pub open spec fn entry_for(self, name: Seq<char>, elem: BufferElemEnum) -> NameEntryView {
        names_entry_for(self.names, name, elem)
    }

    /// The name-table entry `add_buffer` registers.
    pub open spec fn added_entry(
        self,
        marker: BufferArity,
        name: Seq<char>,
        elem: BufferElemEnum,
    ) -> NameEntryView {
        NameEntryView {
            name,
            elem,
            arity: match marker {
                BufferArity::Single => HandleArity::Single(
                    BufferHandle { idx: self.buffers.len() as usize },
                ),
                BufferArity::Variadic => HandleArity::Variadic(
                    VariadicBufferHandle {
                        num_args: self.num_args,
                        buffer: BufferHandle { idx: self.buffers.len() as usize },
                    },
                ),
            },
        }
    }
}

impl<P: View> BufferPorts<P> {
    /// An empty port store.
    pub fn new(dir: BufferDirEnum, num_args: usize) -> (r: BufferPorts<P>)
        ensures
            r@.dir == dir,
            r@.num_args == num_args,
            r@.buffers == Seq::<P::V>::empty(),
            r@.names == Seq::<NameEntryView>::empty(),
    {
        let r = BufferPorts { dir, num_args, buffers: Vec::new(), handles: Vec::new() };
        proof {
            assert(r@.buffers =~= Seq::<P::V>::empty());
            assert(r@.names =~= Seq::<NameEntryView>::empty());
        }
        r
    }

    /// The port a handle points at.
    pub fn get_buf(&self, handle: BufferHandle) -> (r: &P)
        requires
            handle.idx < self@.buffers.len(),
        ensures
            r@ == self@.buffers[handle.idx as int],
    {
        &self.buffers[handle.idx]
    }

    /// Mutable access to the port a handle points at.
    pub fn get_buf_mut(&mut self, handle: BufferHandle) -> (r: &mut P)
        requires
            handle.idx < old(self)@.buffers.len(),
        ensures
            (*r)@ == old(self)@.buffers[handle.idx as int],
            final(self)@.buffers == old(self)@.buffers.update(handle.idx as int, (*final(r))@),
            final(self)@.dir == old(self)@.dir,
            final(self)@.num_args == old(self)@.num_args,
            final(self)@.names == old(self)@.names,
    {
        &mut self.buffers[handle.idx]
    }

    /// Replace the port a handle points at.
    pub fn set_buf(&mut self, handle: BufferHandle, port: P)
        requires
            handle.idx < old(self)@.buffers.len(),
        ensures
            final(self)@.buffers == old(self)@.buffers.update(handle.idx as int, port@),
            final(self)@.dir == old(self)@.dir,
            final(self)@.num_args == old(self)@.num_args,
            final(self)@.names == old(self)@.names,
    {
        self.buffers.set(handle.idx, port);
    }

    /// The index of the entry registering a name, if any.
    fn find_name(&self, name: &String, elem: BufferElemEnum) -> (r: Option<usize>)
        ensures
            match r {
                Some(i) => i < self@.names.len() && self@.names[i as int].is_match(name@, elem),
                None => !self@.has_name(name@, elem),
            },
    {
        let mut i: usize = 0;
        while i < self.handles.len()
            invariant
                i <= self@.names.len(),
                self@.names.len() == self.handles@.len(),
                forall|j: int| 0 <= j < i ==> !(#[trigger] self@.names[j]).is_match(name@, elem),
            decreases self.handles@.len() - i,
        {
            let e = &self.handles[i];
            if e.name == *name && e.elem == elem {
                return Some(i);
            }
            i = i + 1;
        }
        None
    }

    /// Look up a single port by name within an element namespace.
    pub fn get_handle(&self, name: &String, elem: BufferElemEnum) -> (r: HostResult<BufferHandle>)
        requires
            self@.names_wf(),
        ensures
            match r {
                Ok(h) => self@.has_name(name@, elem) && self@.entry_for(name@, elem).arity
                    == HandleArity::Single(h),
                Err(HostError::UnexpectedBufferArity { .. }) => self@.has_name(name@, elem)
                    && self@.entry_for(name@, elem).arity is Variadic,
                Err(HostError::NonexistentIdentifier { .. }) => !self@.has_name(name@, elem),
                Err(_) => false,
            },
            r is Ok <==> self@.has_name(name@, elem) && self@.entry_for(name@, elem).arity
                is Single,
    {
        proof {
            self.lemma_entry_for(name@, elem);
        }
        match self.find_name(name, elem) {
            Some(i) => {
                proof {
                    self.lemma_entry_unique(name@, elem, i as int);
                }
                match self.handles[i].arity {
                    HandleArity::Single(h) => Ok(h),
                    HandleArity::Variadic(_) => Err(
                        HostError::UnexpectedBufferArity {
                            expected: BufferArity::Single,
                            found: BufferArity::Variadic,
                        },
                    ),
                }
            },
            None => Err(
                HostError::NonexistentIdentifier {
                    ident: name.clone(),
                    ident_type: HostIdentifier::Buffer(BufferType { dir: self.dir, elem }),
                },
            ),
        }
    }

    /// Look up a variadic port run by name within an element namespace.
    pub fn get_variadic_handle(&self, name: &String, elem: BufferElemEnum) -> (r: HostResult<
        VariadicBufferHandle,
    >)
        requires
            self@.names_wf(),
        ensures
            match r {
                Ok(h) => self@.has_name(name@, elem) && self@.entry_for(name@, elem).arity
                    == HandleArity::Variadic(h),
                Err(HostError::UnexpectedBufferArity { .. }) => self@.has_name(name@, elem)
                    && self@.entry_for(name@, elem).arity is Single,
                Err(HostError::NonexistentIdentifier { .. }) => !self@.has_name(name@, elem),
                Err(_) => false,
            },
            r is Ok <==> self@.has_name(name@, elem) && self@.entry_for(name@, elem).arity
                is Variadic,
    {
        proof {
            self.lemma_entry_for(name@, elem);
        }
        match self.find_name(name, elem) {
            Some(i) => {
                proof {
                    self.lemma_entry_unique(name@, elem, i as int);
                }
                match self.handles[i].arity {
                    HandleArity::Variadic(h) => Ok(h),
                    HandleArity::Single(_) => Err(
                        HostError::UnexpectedBufferArity {
                            expected: BufferArity::Variadic,
                            found: BufferArity::Single,
                        },
                    ),
                }
            },
            None => Err(
                HostError::NonexistentIdentifier {
                    ident: name.clone(),
                    ident_type: HostIdentifier::Buffer(BufferType { dir: self.dir, elem }),
                },
            ),
        }
    }

    /// Trigger helper: tie `has_name` to `entry_for`.
    proof fn lemma_entry_for(&self, name: Seq<char>, elem: BufferElemEnum)
        ensures
            self@.has_name(name, elem) ==> exists|i: int|
                0 <= i < self@.names.len() && (#[trigger] self@.names[i]).is_match(name, elem)
                    && self@.entry_for(name, elem) == self@.names[i],
    {
    }

    /// Any matching entry is the `entry_for` its name, given uniqueness is
    /// not even needed: `entry_for` picks some matching entry, and the
    /// caller's entry matches too; they agree on arity only under
    /// `names_wf`.  This lemma needs `names_wf`.
    proof fn lemma_entry_unique(&self, name: Seq<char>, elem: BufferElemEnum, i: int)
        requires
            self@.names_wf(),
            0 <= i < self@.names.len(),
            self@.names[i].is_match(name, elem),
        ensures
            self@.entry_for(name, elem) == self@.names[i],
    {
        assert(self@.has_name(name, elem));
        let j = choose|j: int|
            0 <= j < self@.names.len() && (#[trigger] self@.names[j]).is_match(name, elem);
        if i < j {
            assert(!self@.names[j].is_match(self@.names[i].name, self@.names[i].elem));
        } else if j < i {
            assert(!self@.names[i].is_match(self@.names[j].name, self@.names[j].elem));
        }
    }

    /// Register a name for a run of freshly built ports and append the ports
    /// to the slots.  `ports` holds one port for a single entry and
    /// `num_args` ports for a variadic one.
    pub fn add_buffer(
        &mut self,
        marker: BufferArity,
        ports: Vec<P>,
        name: &String,
        elem: BufferElemEnum,
    ) -> (r: ModuleResult<()>)
        requires
            old(self)@.names_wf(),
            old(self)@.buffers.len() + ports@.len() <= usize::MAX,
            match marker {
                BufferArity::Single => ports@.len() == 1,
                BufferArity::Variadic => ports@.len() == old(self)@.num_args,
            },
        ensures
            final(self)@.names_wf(),
            final(self)@.dir == old(self)@.dir,
            final(self)@.num_args == old(self)@.num_args,
            match r {
                Ok(()) => {
                    &&& !old(self)@.has_name(name@, elem)
                    &&& final(self)@.buffers == old(self)@.buffers + Seq::new(
                        ports@.len(),
                        |i: int| ports@[i]@,
                    )
                    &&& final(self)@.names == old(self)@.names.push(
                        old(self)@.added_entry(marker, name@, elem),
                    )
                },
                Err(_) => {
                    &&& old(self)@.has_name(name@, elem)
                    &&& final(self)@ == old(self)@
                },
            },
            r is Ok <==> !old(self)@.has_name(name@, elem),
    {
        match self.find_name(name, elem) {
            Some(_) => Err(
                ModuleError::DuplicateBufferIdentifier {
                    ident: name.clone(),
                    buffer_type: BufferType { dir: self.dir, elem },
                },
            ),
            None => {
                let ghost old_view = self@;
                let ghost ports_view = ports@;
                let idx = self.buffers.len();
                let arity = match marker {
                    BufferArity::Single => HandleArity::Single(BufferHandle { idx }),
                    BufferArity::Variadic => HandleArity::Variadic(
                        VariadicBufferHandle {
                            num_args: self.num_args,
                            buffer: BufferHandle { idx },
                        },
                    ),
                };
                let mut ports = ports;
                self.buffers.append(&mut ports);
                self.handles.push(NameEntry { name: name.clone(), elem, arity });
                proof {
                    assert(self@.buffers =~= old_view.buffers + Seq::new(
                        ports_view.len(),
                        |i: int| ports_view[i]@,
                    ));
                    assert(self@.names =~= old_view.names.push(
                        old_view.added_entry(marker, name@, elem),
                    ));
                    assert forall|i: int| 0 <= i < self@.names.len() implies self@.entry_in_range(
                        #[trigger] self@.names[i],
                    ) by {
                        if i < old_view.names.len() {
                            assert(old_view.entry_in_range(old_view.names[i]));
                        }
                    }
                }
                Ok(())
            },
        }
    }
}

/// A declared in-port: its arity, name, and the value its constant block
/// holds while unlinked.
#[derive(Clone, Debug)]
pub struct InDecl {
    pub arity: BufferArity,
    pub name: String,
    pub default: ElemValue,
}

/// The mathematical value of an in-port declaration.
#[verifier::ext_equal]
pub struct InDeclView {
    pub arity: BufferArity,
    pub name: Seq<char>,
    pub default: ElemValueView,
}

impl View for InDecl {
    type V = InDeclView;

    open spec fn view(&self) -> InDeclView {
        InDeclView { arity: self.arity, name: self.name@, default: self.default@ }
    }
}

/// A declared out-port: its arity, name, and element kind.
#[derive(Clone, Debug)]
pub struct OutDecl {
    pub arity: BufferArity,
    pub name: String,
    pub elem: BufferElemEnum,
}

/// The mathematical value of an out-port declaration.
#[verifier::ext_equal]
pub struct OutDeclView {
    pub arity: BufferArity,
    pub name: Seq<char>,
    pub elem: BufferElemEnum,
}

impl View for OutDecl {
    type V = OutDeclView;

    open spec fn view(&self) -> OutDeclView {
        OutDeclView { arity: self.arity, name: self.name@, elem: self.elem }
    }
}

/// The number of port slots a declaration of the given arity occupies.
pub open spec fn arity_slots(arity: BufferArity, num_args: usize) -> nat {
    match arity {
        BufferArity::Single => 1,
        BufferArity::Variadic => num_args as nat,
    }
}

/// The in-port slots that a list of declarations lays out, in order: each
/// declaration contributes a run of constant ports holding its default.
pub open spec fn in_slots_of(ins: Seq<InDeclView>, num_args: usize) -> Seq<BufferInPortView>
    decreases ins.len(),
{
    if ins.len() == 0 {
        Seq::empty()
    } else {
        in_slots_of(ins.drop_last(), num_args) + Seq::new(
            arity_slots(ins.last().arity, num_args),
            |i: int| BufferInPortView::Constant(const_block_view(ins.last().default)),
        )
    }
}

/// The name table that a list of in-port declarations builds.
pub open spec fn in_names_of(ins: Seq<InDeclView>, num_args: usize) -> Seq<NameEntryView>
    decreases ins.len(),
{
    if ins.len() == 0 {
        Seq::empty()
    } else {
        let start = in_slots_of(ins.drop_last(), num_args).len();
        in_names_of(ins.drop_last(), num_args).push(
            NameEntryView {
                name: ins.last().name,
                elem: ins.last().default.elem(),
                arity: match ins.last().arity {
                    BufferArity::Single => HandleArity::Single(
                        BufferHandle { idx: start as usize },
                    ),
                    BufferArity::Variadic => HandleArity::Variadic(
                        VariadicBufferHandle {
                            num_args,
                            buffer: BufferHandle { idx: start as usize },
                        },
                    ),
                },
            },
        )
    }
}

/// The out-port slots that a list of declarations lays out: each slot starts
/// with a default block and no subscribers.
pub open spec fn out_slots_of(outs: Seq<OutDeclView>, num_args: usize) -> Seq<BufferOutPortView>
    decreases outs.len(),
{
    if outs.len() == 0 {
        Seq::empty()
    } else {
        out_slots_of(outs.drop_last(), num_args) + Seq::new(
            arity_slots(outs.last().arity, num_args),
            |i: int| BufferOutPortView {
                buffer: const_block_view(default_value_of(outs.last().elem)),
                dependents: Seq::empty(),
            },
        )
    }
}

/// The name table that a list of out-port declarations builds.
pub open spec fn out_names_of(outs: Seq<OutDeclView>, num_args: usize) -> Seq<NameEntryView>
    decreases outs.len(),
{
    if outs.len() == 0 {
        Seq::empty()
    } else {
        let start = out_slots_of(outs.drop_last(), num_args).len();
        out_names_of(outs.drop_last(), num_args).push(
            NameEntryView {
                name: outs.last().name,
                elem: outs.last().elem,
                arity: match outs.last().arity {
                    BufferArity::Single => HandleArity::Single(
                        BufferHandle { idx: start as usize },
                    ),
                    BufferArity::Variadic => HandleArity::Variadic(
                        VariadicBufferHandle {
                            num_args,
                            buffer: BufferHandle { idx: start as usize },
                        },
                    ),
                },
            },
        )
    }
}

/// A module's port declarations, collected while the module initializes.
pub struct ModuleDescriptor {
    pub num_args: usize,
    pub next_idx_buf_in: usize,
    pub next_idx_buf_out: usize,
    pub buf_in: Vec<InDecl>,
    pub buf_out: Vec<OutDecl>,
}

/// The mathematical value of a descriptor.
#[verifier::ext_equal]
pub struct DescriptorView {
    pub num_args: usize,
    pub ins: Seq<InDeclView>,
    pub outs: Seq<OutDeclView>,
}

impl View for ModuleDescriptor {
    type V = DescriptorView;

    open spec fn view(&self) -> DescriptorView {
        DescriptorView {
            num_args: self.num_args,
            ins: Seq::new(self.buf_in@.len(), |i: int| self.buf_in@[i]@),
            outs: Seq::new(self.buf_out@.len(), |i: int| self.buf_out@[i]@),
        }
    }
}

/// A finished module: its initial state and its port declarations.
pub struct BuiltModuleDescriptor<T> {
    pub initial_data: T,
    pub buffers_descriptors: ModuleDescriptor,
}

impl ModuleDescriptor {
    /// The slot counters agree with the declarations.
    pub open spec fn wf(self) -> bool {
        &&& self.next_idx_buf_in as int == in_slots_of(self@.ins, self.num_args).len()
        &&& self.next_idx_buf_out as int == out_slots_of(self@.outs, self.num_args).len()
    }

    /// A fresh descriptor for a module of the given variadic arity.
    pub fn new(num_args: usize) -> (r: ModuleDescriptor)
        ensures
            r@.num_args == num_args,
            r@.ins == Seq::<InDeclView>::empty(),
            r@.outs == Seq::<OutDeclView>::empty(),
            r.wf(),
    {
        let r = ModuleDescriptor {
            num_args,
            next_idx_buf_in: 0,
            next_idx_buf_out: 0,
            buf_in: Vec::new(),
            buf_out: Vec::new(),
        };
        proof {
            assert(r@.ins =~= Seq::<InDeclView>::empty());
            assert(r@.outs =~= Seq::<OutDeclView>::empty());
        }
        r
    }

    /// Finish the descriptor around the module's initial state.
    pub fn build<T>(self, initial_data: T) -> (r: BuiltModuleDescriptor<T>)
        ensures
            r.initial_data == initial_data,
            r.buffers_descriptors@ == self@,
            r.buffers_descriptors.wf() == self.wf(),
    {
        BuiltModuleDescriptor { initial_data, buffers_descriptors: self }
    }

    /// Declare a single in-port whose constant state holds `default`.
    pub fn with_buf_in_default(&mut self, name: &str, default: ElemValue) -> (h: BufferHandle)
        requires
            old(self).wf(),
            old(self).next_idx_buf_in + 1 <= usize::MAX,
        ensures
            final(self).wf(),
            h.idx == old(self).next_idx_buf_in,
            final(self)@.num_args == old(self)@.num_args,
            final(self)@.outs == old(self)@.outs,
            final(self)@.ins == old(self)@.ins.push(
                InDeclView { arity: BufferArity::Single, name: name@, default: default@ },
            ),
    {
        let h = BufferHandle { idx: self.next_idx_buf_in };
        let ghost old_ins = self@.ins;
        self.buf_in.push(InDecl { arity: BufferArity::Single, name: name.to_owned(), default });
        self.next_idx_buf_in = self.next_idx_buf_in + 1;
        proof {
            assert(self@.ins =~= old_ins.push(
                InDeclView { arity: BufferArity::Single, name: name@, default: default@ },
            ));
            assert(self@.ins.drop_last() =~= old_ins);
            assert(self@.outs =~= old(self)@.outs);
        }
        h
    }

    /// Declare a single in-port whose constant state holds the element
    /// kind's default.
    pub fn with_buf_in(&mut self, name: &str, elem: BufferElemEnum) -> (h: BufferHandle)
        requires
            old(self).wf(),
            old(self).next_idx_buf_in + 1 <= usize::MAX,
        ensures
            final(self).wf(),
            h.idx == old(self).next_idx_buf_in,
            final(self)@.num_args == old(self)@.num_args,
            final(self)@.outs == old(self)@.outs,
            final(self)@.ins == old(self)@.ins.push(
                InDeclView {
                    arity: BufferArity::Single,
                    name: name@,
                    default: default_value_of(elem),
                },
            ),
    {
        let v = ElemValue::default_of(elem);
        self.with_buf_in_default(name, v)
    }

    /// Declare a single out-port.
    pub fn with_buf_out(&mut self, name: &str, elem: BufferElemEnum) -> (h: BufferHandle)
        requires
            old(self).wf(),
            old(self).next_idx_buf_out + 1 <= usize::MAX,
        ensures
            final(self).wf(),
            h.idx == old(self).next_idx_buf_out,
            final(self)@.num_args == old(self)@.num_args,
            final(self)@.ins == old(self)@.ins,
            final(self)@.outs == old(self)@.outs.push(
                OutDeclView { arity: BufferArity::Single, name: name@, elem },
            ),
    {
        let h = BufferHandle { idx: self.next_idx_buf_out };
        let ghost old_outs = self@.outs;
        self.buf_out.push(OutDecl { arity: BufferArity::Single, name: name.to_owned(), elem });
        self.next_idx_buf_out = self.next_idx_buf_out + 1;
        proof {
            assert(self@.outs =~= old_outs.push(
                OutDeclView { arity: BufferArity::Single, name: name@, elem },
            ));
            assert(self@.outs.drop_last() =~= old_outs);
            assert(self@.ins =~= old(self)@.ins);
        }
        h
    }

    /// Declare a variadic in-port whose constant state holds `default` in
    /// each slot.
    pub fn with_variadic_buf_in_default(&mut self, name: &str, default: ElemValue) -> (h:
        VariadicBufferHandle)
        requires
            old(self).wf(),
            old(self).next_idx_buf_in + old(self).num_args <= usize::MAX,
        ensures
            final(self).wf(),
            h.num_args == old(self)@.num_args,
            h.buffer.idx == old(self).next_idx_buf_in,
            final(self)@.num_args == old(self)@.num_args,
            final(self)@.outs == old(self)@.outs,
            final(self)@.ins == old(self)@.ins.push(
                InDeclView { arity: BufferArity::Variadic, name: name@, default: default@ },
            ),
    {
        let h = VariadicBufferHandle {
            num_args: self.num_args,
            buffer: BufferHandle { idx: self.next_idx_buf_in },
        };
        let ghost old_ins = self@.ins;
        self.buf_in.push(InDecl { arity: BufferArity::Variadic, name: name.to_owned(), default });
        self.next_idx_buf_in = self.next_idx_buf_in + self.num_args;
        proof {
            assert(self@.ins =~= old_ins.push(
                InDeclView { arity: BufferArity::Variadic, name: name@, default: default@ },
            ));
            assert(self@.ins.drop_last() =~= old_ins);
            assert(self@.outs =~= old(self)@.outs);
        }
        h
    }

    /// Declare a variadic in-port holding the element kind's default.
    pub fn with_variadic_buf_in(&mut self, name: &str, elem: BufferElemEnum) -> (h:
        VariadicBufferHandle)
        requires
            old(self).wf(),
            old(self).next_idx_buf_in + old(self).num_args <= usize::MAX,
        ensures
            final(self).wf(),
            h.num_args == old(self)@.num_args,
            h.buffer.idx == old(self).next_idx_buf_in,
            final(self)@.num_args == old(self)@.num_args,
            final(self)@.outs == old(self)@.outs,
            final(self)@.ins == old(self)@.ins.push(
                InDeclView {
                    arity: BufferArity::Variadic,
                    name: name@,
                    default: default_value_of(elem),
                },
            ),
    {
        let v = ElemValue::default_of(elem);
        self.with_variadic_buf_in_default(name, v)
    }

    /// Declare a variadic out-port.
    pub fn with_variadic_buf_out(&mut self, name: &str, elem: BufferElemEnum) -> (h:
        VariadicBufferHandle)
        requires
            old(self).wf(),
            old(self).next_idx_buf_out + old(self).num_args <= usize::MAX,
        ensures
            final(self).wf(),
            h.num_args == old(self)@.num_args,
            h.buffer.idx == old(self).next_idx_buf_out,
            final(self)@.num_args == old(self)@.num_args,
            final(self)@.ins == old(self)@.ins,
            final(self)@.outs == old(self)@.outs.push(
                OutDeclView { arity: BufferArity::Variadic, name: name@, elem },
            ),
    {
        let h = VariadicBufferHandle {
            num_args: self.num_args,
            buffer: BufferHandle { idx: self.next_idx_buf_out },
        };
        let ghost old_outs = self@.outs;
        self.buf_out.push(OutDecl { arity: BufferArity::Variadic, name: name.to_owned(), elem });
        self.next_idx_buf_out = self.next_idx_buf_out + self.num_args;
        proof {
            assert(self@.outs =~= old_outs.push(
                OutDeclView { arity: BufferArity::Variadic, name: name@, elem },
            ));
            assert(self@.outs.drop_last() =~= old_outs);
            assert(self@.ins =~= old(self)@.ins);
        }
        h
    }
}

/// No two in-port declarations share a name within one element namespace.
pub open spec fn in_decls_unique(ins: Seq<InDeclView>) -> bool {
    forall|i: int, j: int|
        0 <= i < j < ins.len() ==> !(ins[i].name == ins[j].name && (#[trigger] ins[i]).default.elem()
            == (#[trigger] ins[j]).default.elem())
}

/// No two out-port declarations share a name within one element namespace.
pub open spec fn out_decls_unique(outs: Seq<OutDeclView>) -> bool {
    forall|i: int, j: int|
        0 <= i < j < outs.len() ==> !((#[trigger] outs[i]).name == (#[trigger] outs[j]).name
            && outs[i].elem == outs[j].elem)
}

/// The name table of in-port declarations registers exactly the declared
/// names, in order.
pub proof fn lemma_in_names_index(ins: Seq<InDeclView>, num_args: usize)
    ensures
        in_names_of(ins, num_args).len() == ins.len(),
        forall|k: int|
            0 <= k < ins.len() ==> (#[trigger] in_names_of(ins, num_args)[k]).name == ins[k].name
                && in_names_of(ins, num_args)[k].elem == ins[k].default.elem(),
    decreases ins.len(),
{
    if ins.len() > 0 {
        lemma_in_names_index(ins.drop_last(), num_args);
        assert forall|k: int|
            0 <= k < ins.len() implies (#[trigger] in_names_of(ins, num_args)[k]).name
            == ins[k].name && in_names_of(ins, num_args)[k].elem == ins[k].default.elem() by {
            if k < ins.len() - 1 {
                assert(in_names_of(ins, num_args)[k] == in_names_of(ins.drop_last(), num_args)[k]);
                assert(ins.drop_last()[k] == ins[k]);
            }
        }
    }
}

/// The name table of out-port declarations registers exactly the declared
/// names, in order.
pub proof fn lemma_out_names_index(outs: Seq<OutDeclView>, num_args: usize)
    ensures
        out_names_of(outs, num_args).len() == outs.len(),
        forall|k: int|
            0 <= k < outs.len() ==> (#[trigger] out_names_of(outs, num_args)[k]).name
                == outs[k].name && out_names_of(outs, num_args)[k].elem == outs[k].elem,
    decreases outs.len(),
{
    if outs.len() > 0 {
        lemma_out_names_index(outs.drop_last(), num_args);
        assert forall|k: int|
            0 <= k < outs.len() implies (#[trigger] out_names_of(outs, num_args)[k]).name
            == outs[k].name && out_names_of(outs, num_args)[k].elem == outs[k].elem by {
            if k < outs.len() - 1 {
                assert(out_names_of(outs, num_args)[k] == out_names_of(
                    outs.drop_last(),
                    num_args,
                )[k]);
                assert(outs.drop_last()[k] == outs[k]);
            }
        }
    }
}

/// Prefixes of a declaration list lay out no more slots than the whole list.
pub proof fn lemma_in_slots_prefix_le(ins: Seq<InDeclView>, num_args: usize, i: int)
    requires
        0 <= i <= ins.len(),
    ensures
        in_slots_of(ins.subrange(0, i), num_args).len() <= in_slots_of(ins, num_args).len(),
    decreases ins.len() - i,
{
    if i == ins.len() {
        assert(ins.subrange(0, i) =~= ins);
    } else {
        lemma_in_slots_prefix_le(ins, num_args, i + 1);
        assert(ins.subrange(0, i + 1).drop_last() =~= ins.subrange(0, i));
        assert(in_slots_of(ins.subrange(0, i + 1), num_args).len() == in_slots_of(
            ins.subrange(0, i),
            num_args,
        ).len() + arity_slots(ins[i].arity, num_args));
    }
}

/// Prefixes of a declaration list lay out no more slots than the whole list.
pub proof fn lemma_out_slots_prefix_le(outs: Seq<OutDeclView>, num_args: usize, i: int)
    requires
        0 <= i <= outs.len(),
    ensures
        out_slots_of(outs.subrange(0, i), num_args).len() <= out_slots_of(outs, num_args).len(),
    decreases outs.len() - i,
{
    if i == outs.len() {
        assert(outs.subrange(0, i) =~= outs);
    } else {
        lemma_out_slots_prefix_le(outs, num_args, i + 1);
        assert(outs.subrange(0, i + 1).drop_last() =~= outs.subrange(0, i));
        assert(out_slots_of(outs.subrange(0, i + 1), num_args).len() == out_slots_of(
            outs.subrange(0, i),
            num_args,
        ).len() + arity_slots(outs[i].arity, num_args));
    }
}

/// Allocate the in-port store a descriptor declares: each declaration
/// becomes a run of constant ports holding its default value.
pub fn build_in_ports(descriptor: &ModuleDescriptor) -> (r: ModuleResult<
    BufferPorts<BufferInPort>,
>)
    requires
        descriptor.wf(),
    ensures
        match r {
            Ok(p) => {
                &&& p@.dir == BufferDirEnum::In
                &&& p@.num_args == descriptor@.num_args
                &&& p@.buffers == in_slots_of(descriptor@.ins, descriptor@.num_args)
                &&& p@.names == in_names_of(descriptor@.ins, descriptor@.num_args)
                &&& p@.names_wf()
            },
            Err(_) => !in_decls_unique(descriptor@.ins),
        },
        r is Ok <==> in_decls_unique(descriptor@.ins),
{
    let ghost ins = descriptor@.ins;
    let na = descriptor.num_args;
    let mut ports: BufferPorts<BufferInPort> = BufferPorts::new(BufferDirEnum::In, na);
    let mut i: usize = 0;
    proof {
        assert(ins.subrange(0, 0) =~= Seq::<InDeclView>::empty());
    }
    while i < descriptor.buf_in.len()
        invariant
            descriptor.wf(),
            na == descriptor@.num_args,
            ins == descriptor@.ins,
            i <= descriptor.buf_in@.len(),
            ins.len() == descriptor.buf_in@.len(),
            ports@.dir == BufferDirEnum::In,
            ports@.num_args == na,
            ports@.buffers == in_slots_of(ins.subrange(0, i as int), na),
            ports@.names == in_names_of(ins.subrange(0, i as int), na),
            ports@.names_wf(),
            in_decls_unique(ins.subrange(0, i as int)),
        decreases descriptor.buf_in@.len() - i,
    {
        let decl = &descriptor.buf_in[i];
        proof {
            assert(decl@ == ins[i as int]);
        }
        let n_slots: usize = match decl.arity {
            BufferArity::Single => 1,
            BufferArity::Variadic => na,
        };
        let mut run: Vec<BufferInPort> = Vec::new();
        while run.len() < n_slots
            invariant
                run@.len() <= n_slots,
                forall|k: int|
                    0 <= k < run@.len() ==> run@[k]@ == BufferInPortView::constant_of(
                        decl.default@,
                    ),
            decreases n_slots - run@.len(),
        {
            run.push(BufferInPort::with_constant(&decl.default));
        }
        proof {
            assert(ins.subrange(0, i + 1).drop_last() =~= ins.subrange(0, i as int));
            assert(ins.subrange(0, i + 1).last() == ins[i as int]);
            lemma_in_slots_prefix_le(ins, na, i + 1);
            assert(ports@.buffers.len() + run@.len() == in_slots_of(ins.subrange(0, i + 1), na).len());
            assert(in_slots_of(ins, na).len() == descriptor.next_idx_buf_in);
        }
        let elem = decl.default.elem();
        let res = ports.add_buffer(decl.arity, run, &decl.name, elem);
        match res {
            Ok(()) => {
                proof {
                    assert(ports@.buffers =~= in_slots_of(ins.subrange(0, i + 1), na));
                    assert(ports@.names =~= in_names_of(ins.subrange(0, i + 1), na));
                    lemma_in_names_index(ins.subrange(0, i as int), na);
                    assert forall|k: int, l: int|
                        0 <= k < l < i + 1 implies !(ins.subrange(0, i + 1)[k].name
                        == ins.subrange(0, i + 1)[l].name && (#[trigger] ins.subrange(
                        0,
                        i + 1,
                    )[k]).default.elem() == (#[trigger] ins.subrange(0, i + 1)[l]).default.elem()) by {
                        if l == i as int {
                            if ins[k].name == ins[i as int].name && ins[k].default.elem() == ins[i as int].default.elem() {
                                let names_prefix = in_names_of(ins.subrange(0, i as int), na);
                                assert(names_prefix[k].is_match(decl.name@, elem));
                                assert(names_prefix.len() == i);
                            }
                        }
                    }
                }
            },
            Err(e) => {
                proof {
                    lemma_in_names_index(ins.subrange(0, i as int), na);
                    let names_prefix = in_names_of(ins.subrange(0, i as int), na);
                    let k = choose|k: int|
                        0 <= k < names_prefix.len() && (#[trigger] names_prefix[k]).is_match(
                            decl.name@,
                            elem,
                        );
                    assert(ins[k].name == ins[i as int].name && ins[k].default.elem()
                        == ins[i as int].default.elem());
                }
                return Err(e);
            },
        }
        i = i + 1;
    }
    proof {
        assert(ins.subrange(0, ins.len() as int) =~= ins);
    }
    Ok(ports)
}

/// Allocate the out-port store a descriptor declares: each declaration
/// becomes a run of default blocks with no subscribers.
pub fn build_out_ports(descriptor: &ModuleDescriptor) -> (r: ModuleResult<
    BufferPorts<BufferOutPort>,
>)
    requires
        descriptor.wf(),
    ensures
        match r {
            Ok(p) => {
                &&& p@.dir == BufferDirEnum::Out
                &&& p@.num_args == descriptor@.num_args
                &&& p@.buffers == out_slots_of(descriptor@.outs, descriptor@.num_args)
                &&& p@.names == out_names_of(descriptor@.outs, descriptor@.num_args)
                &&& p@.names_wf()
            },
            Err(_) => !out_decls_unique(descriptor@.outs),
        },
        r is Ok <==> out_decls_unique(descriptor@.outs),
{
    let ghost outs = descriptor@.outs;
    let na = descriptor.num_args;
    let mut ports: BufferPorts<BufferOutPort> = BufferPorts::new(BufferDirEnum::Out, na);
    let mut i: usize = 0;
    proof {
        assert(outs.subrange(0, 0) =~= Seq::<OutDeclView>::empty());
    }
    while i < descriptor.buf_out.len()
        invariant
            descriptor.wf(),
            na == descriptor@.num_args,
            outs == descriptor@.outs,
            i <= descriptor.buf_out@.len(),
            outs.len() == descriptor.buf_out@.len(),
            ports@.dir == BufferDirEnum::Out,
            ports@.num_args == na,
            ports@.buffers == out_slots_of(outs.subrange(0, i as int), na),
            ports@.names == out_names_of(outs.subrange(0, i as int), na),
            ports@.names_wf(),
            out_decls_unique(outs.subrange(0, i as int)),
        decreases descriptor.buf_out@.len() - i,
    {
        let decl = &descriptor.buf_out[i];
        proof {
            assert(decl@ == outs[i as int]);
        }
        let n_slots: usize = match decl.arity {
            BufferArity::Single => 1,
            BufferArity::Variadic => na,
        };
        let mut run: Vec<BufferOutPort> = Vec::new();
        while run.len() < n_slots
            invariant
                run@.len() <= n_slots,
                forall|k: int|
                    0 <= k < run@.len() ==> run@[k]@ == (BufferOutPortView {
                        buffer: const_block_view(default_value_of(decl.elem)),
                        dependents: Seq::empty(),
                    }),
            decreases n_slots - run@.len(),
        {
            let v = ElemValue::default_of(decl.elem);
            let port = BufferOutPort { buffer: make_constant_block(&v), dependents: Vec::new() };
            proof {
                assert(port@.dependents =~= Seq::<ModuleBufferHandle>::empty());
            }
            run.push(port);
        }
        proof {
            assert(outs.subrange(0, i + 1).drop_last() =~= outs.subrange(0, i as int));
            assert(outs.subrange(0, i + 1).last() == outs[i as int]);
            lemma_out_slots_prefix_le(outs, na, i + 1);
            assert(ports@.buffers.len() + run@.len() == out_slots_of(
                outs.subrange(0, i + 1),
                na,
            ).len());
            assert(out_slots_of(outs, na).len() == descriptor.next_idx_buf_out);
        }
        let res = ports.add_buffer(decl.arity, run, &decl.name, decl.elem);
        match res {
            Ok(()) => {
                proof {
                    assert(ports@.buffers =~= out_slots_of(outs.subrange(0, i + 1), na));
                    assert(ports@.names =~= out_names_of(outs.subrange(0, i + 1), na));
                    lemma_out_names_index(outs.subrange(0, i as int), na);
                    assert forall|k: int, l: int|
                        0 <= k < l < i + 1 implies !((#[trigger] outs.subrange(0, i + 1)[k]).name
                        == (#[trigger] outs.subrange(0, i + 1)[l]).name && outs.subrange(
                        0,
                        i + 1,
                    )[k].elem == outs.subrange(0, i + 1)[l].elem) by {
                        if l == i as int {
                            if outs[k].name == outs[i as int].name && outs[k].elem == outs[i as int].elem {
                                let names_prefix = out_names_of(outs.subrange(0, i as int), na);
                                assert(names_prefix[k].is_match(decl.name@, decl.elem));
                                assert(names_prefix.len() == i);
                            }
                        }
                    }
                }
            },
            Err(e) => {
                proof {
                    lemma_out_names_index(outs.subrange(0, i as int), na);
                    let names_prefix = out_names_of(outs.subrange(0, i as int), na);
                    let k = choose|k: int|
                        0 <= k < names_prefix.len() && (#[trigger] names_prefix[k]).is_match(
                            decl.name@,
                            decl.elem,
                        );
                    assert(outs[k].name == outs[i as int].name && outs[k].elem
                        == outs[i as int].elem);
                }
                return Err(e);
            },
        }
        i = i + 1;
    }
    proof {
        assert(outs.subrange(0, outs.len() as int) =~= outs);
    }
    Ok(ports)
}

/// The read-only input blocks handed to a module's fill step, one per
/// in-port slot.
pub struct ModuleBuffersIn {
    pub blocks: Vec<Block>,
}

impl View for ModuleBuffersIn {
    type V = Seq<BlockView>;

    open spec fn view(&self) -> Seq<BlockView> {
        Seq::new(self.blocks@.len(), |i: int| self.blocks@[i]@)
    }
}

impl ModuleBuffersIn {
    /// The input block of a single in-port.
    pub fn get(&self, handle: BufferHandle) -> (r: &Block)
        requires
            handle.idx < self@.len(),
        ensures
            r@ == self@[handle.idx as int],
    {
        &self.blocks[handle.idx]
    }

    /// The input block of slot `k` of a variadic in-port.
    pub fn get_variadic(&self, handle: VariadicBufferHandle, k: usize) -> (r: &Block)
        requires
            k < handle.num_args,
            handle.buffer.idx + handle.num_args <= self@.len(),
        ensures
            r@ == self@[handle.buffer.idx + k],
    {
        let n = self.blocks.len();
        assert(handle.buffer.idx + k < n);
        &self.blocks[handle.buffer.idx + k]
    }
}

/// The output blocks a module's fill step writes, one per out-port slot.
pub struct ModuleBuffersOut {
    pub blocks: Vec<Block>,
}

impl View for ModuleBuffersOut {
    type V = Seq<BlockView>;

    open spec fn view(&self) -> Seq<BlockView> {
        Seq::new(self.blocks@.len(), |i: int| self.blocks@[i]@)
    }
}

impl ModuleBuffersOut {
    /// The output block of a single out-port.
    pub fn get(&self, handle: BufferHandle) -> (r: &Block)
        requires
            handle.idx < self@.len(),
        ensures
            r@ == self@[handle.idx as int],
    {
        &self.blocks[handle.idx]
    }

    /// Replace the output block of a single out-port.
    pub fn set(&mut self, handle: BufferHandle, block: Block)
        requires
            handle.idx < old(self)@.len(),
        ensures
            final(self)@ == old(self)@.update(handle.idx as int, block@),
    {
        self.blocks.set(handle.idx, block);
        proof {
            assert(self@ =~= old(self)@.update(handle.idx as int, block@));
        }
    }

    /// Replace the output block of slot `k` of a variadic out-port.
    pub fn set_variadic(&mut self, handle: VariadicBufferHandle, k: usize, block: Block)
        requires
            k < handle.num_args,
            handle.buffer.idx + handle.num_args <= old(self)@.len(),
        ensures
            final(self)@ == old(self)@.update(handle.buffer.idx + k, block@),
    {
        let n = self.blocks.len();
        assert(handle.buffer.idx + k < n);
        self.blocks.set(handle.buffer.idx + k, block);
        proof {
            assert(self@ =~= old(self)@.update(handle.buffer.idx + k, block@));
        }
    }
}

} // verus!
