//! The host: the graph store, the link operations, and the scheduler.
//!
//! The host owns every module behind a stable integer handle, keeps the
//! name tables, and maintains two invariants through every mutation: the
//! bidirectional subscriber index is consistent (an in-port is linked to an
//! out-port exactly when the out-port lists it as a dependent), and each
//! module's dependency count equals its number of linked in-ports.

use vstd::prelude::*;

use crate::constants::BUFFER_LEN;
use crate::midi::{midi_input_outs, slider_ins, slider_outs, MidiInput, MidiInputView, MidiSlider};
use crate::modules::{
    audio_out_ins, envelope_ins, envelope_outs, fill_module, kind_fill_spec,
    lemma_kind_fill_preserves, op_ins, op_outs, poly_ins, poly_outs, signal_of, AudioOutputModule,
    EnvState, Envelope, EnvelopeStage, MidiPoly, MidiPolyView, ModuleKind, ModuleKindView,
    ModuleSettings, Op,
};
use crate::ports::{
    arity_slots, build_in_ports, build_out_ports, const_block_view, copy_block, default_value_of,
    in_decls_unique, in_names_of, in_slots_of, out_decls_unique, out_names_of, out_slots_of,
    BufferArity, BufferDirEnum, BufferElemEnum, BufferHandle, BufferInPort, BufferInPortView,
    Block, BlockView, BufferOutPort, BufferOutPortView, BufferPorts, BufferType, HandleArity, HostError,
    ElemValue, HostIdentifier, HostResult, InDeclView, ModuleBufferHandle, ModuleDescriptor, ModuleError,
    ModuleBuffersIn, ModuleBuffersOut, ModuleResult, ModuleVariadicBufferHandle, NameEntryView,
    OutDeclView, PortsView,
    VariadicBufferHandle,
};

verus! {

/// A module's in-ports, its dependency count, and the per-pass progress
/// counter the scheduler uses.
pub struct ModuleBuffersInInternal {
    pub num_dependencies: usize,
    pub num_finished_dependencies: usize,
    pub ports: BufferPorts<BufferInPort>,
}

/// A module's out-ports.
pub struct ModuleBuffersOutInternal {
    pub ports: BufferPorts<BufferOutPort>,
}

/// One module as the host stores it.
pub struct ModuleInternals {
    pub kind: ModuleKind,
    pub num_args: usize,
    pub buf_in: ModuleBuffersInInternal,
    pub buf_out: ModuleBuffersOutInternal,
}

/// The mathematical value of one stored module.
#[verifier::ext_equal]
pub struct ModuleView {
    pub kind: ModuleKindView,
    pub num_args: usize,
    pub num_dependencies: usize,
    pub num_finished_dependencies: usize,
    pub ins: PortsView<BufferInPortView>,
    pub outs: PortsView<BufferOutPortView>,
}

impl View for ModuleInternals {
    type V = ModuleView;

    open spec fn view(&self) -> ModuleView {
        ModuleView {
            kind: self.kind@,
            num_args: self.num_args,
            num_dependencies: self.buf_in.num_dependencies,
            num_finished_dependencies: self.buf_in.num_finished_dependencies,
            ins: self.buf_in.ports@,
            outs: self.buf_out.ports@,
        }
    }
}

/// The number of linked in-ports in a port list.
pub open spec fn count_linked(ports: Seq<BufferInPortView>) -> nat
    decreases ports.len(),
{
    if ports.len() == 0 {
        0
    } else {
        count_linked(ports.drop_last()) + if ports.last().is_linked() {
            1nat
        } else {
            0nat
        }
    }
}

/// The handle under which an in-port appears in a subscriber list.
pub open spec fn in_handle_of(m: int, p: int, elem: BufferElemEnum) -> ModuleBufferHandle {
    ModuleBufferHandle {
        module_handle: ModuleHandle { idx: m as usize },
        ty: BufferType { dir: BufferDirEnum::In, elem },
        buf_handle: BufferHandle { idx: p as usize },
    }
}

/// The handle under which an out-port appears in a link.
pub open spec fn out_handle_of(m: int, p: int, elem: BufferElemEnum) -> ModuleBufferHandle {
    ModuleBufferHandle {
        module_handle: ModuleHandle { idx: m as usize },
        ty: BufferType { dir: BufferDirEnum::Out, elem },
        buf_handle: BufferHandle { idx: p as usize },
    }
}

use crate::ports::ModuleHandle;

/// A group of K instances: its fixed instance count, the named instances,
/// and the names of the grouped modules created in it.
pub struct Group {
    pub num_instances: usize,
    pub named_instances: Vec<(String, GroupInstanceHandle)>,
    pub grouped_names: Vec<String>,
}

/// The mathematical value of a group.
#[verifier::ext_equal]
pub struct GroupView {
    pub num_instances: usize,
    pub named_instances: Seq<(Seq<char>, GroupInstanceHandle)>,
    pub grouped_names: Seq<Seq<char>>,
}

impl View for Group {
    type V = GroupView;

    open spec fn view(&self) -> GroupView {
        GroupView {
            num_instances: self.num_instances,
            named_instances: Seq::new(
                self.named_instances@.len(),
                |i: int| (self.named_instances@[i].0@, self.named_instances@[i].1),
            ),
            grouped_names: Seq::new(
                self.grouped_names@.len(),
                |i: int| self.grouped_names@[i]@,
            ),
        }
    }
}

/// A stable handle to a group.
#[derive(Clone, Copy, Debug, PartialEq, Eq, Structural)]
pub struct GroupHandle {
    pub idx: usize,
}

/// A handle to one named instance slot of a group.
#[derive(Clone, Copy, Debug, PartialEq, Eq, Structural)]
pub struct GroupInstanceHandle {
    pub group: GroupHandle,
    pub offset: usize,
}

/// A joining grouped module: one module whose variadic arity is the group's
/// instance count.
#[derive(Clone, Copy, Debug, PartialEq, Eq, Structural)]
pub struct GroupJoiningModuleHandle {
    pub group: GroupHandle,
    pub handle: ModuleHandle,
}

impl GroupJoiningModuleHandle {
    /// The plain module handle behind the grouped one.
    pub fn ungrouped(&self) -> (h: ModuleHandle)
        ensures
            h == self.handle,
    {
        self.handle
    }
}

/// An instance grouped module: one sibling module per group instance.
#[derive(Clone, Debug)]
pub struct GroupInstanceModuleHandle {
    pub group: GroupHandle,
    pub handles: Vec<ModuleHandle>,
}

impl GroupInstanceModuleHandle {
    /// The plain module handle of one named instance slot.
    pub fn ungrouped(&self, instance: GroupInstanceHandle) -> (r: HostResult<ModuleHandle>)
        requires
            instance.group == self.group ==> instance.offset < self.handles@.len(),
        ensures
            instance.group == self.group ==> r == Ok::<ModuleHandle, HostError>(
                self.handles@[instance.offset as int],
            ),
            instance.group != self.group ==> r matches Err(HostError::InstanceGroupMismatch),
    {
        if self.group != instance.group {
            Err(HostError::InstanceGroupMismatch)
        } else {
            Ok(self.handles[instance.offset])
        }
    }
}

/// A flat run of K single-port handles, one per group instance.
#[derive(Clone, Debug)]
pub struct GroupBufferHandle {
    pub group: GroupHandle,
    pub handles: Vec<ModuleBufferHandle>,
}

/// A run of K variadic port handles, one per group instance.
#[derive(Clone, Debug)]
pub struct GroupVariadicBufferHandle {
    pub group: GroupHandle,
    pub handles: Vec<ModuleVariadicBufferHandle>,
}

impl GroupVariadicBufferHandle {
    /// The flat group handle of slot `idx` of each variadic run.
    pub fn at(&self, idx: usize) -> (r: HostResult<GroupBufferHandle>)
        requires
            forall|i: int|
                0 <= i < self.handles@.len() ==> (#[trigger] self.handles@[i]).buf_handle.buffer.idx
                    + self.handles@[i].buf_handle.num_args <= usize::MAX,
        ensures
            (forall|i: int|
                0 <= i < self.handles@.len() ==> idx < (#[trigger] self.handles@[i]).buf_handle.num_args)
                ==> (r matches Ok(g) && g.group == self.group && g.handles@.len()
                == self.handles@.len() && (forall|i: int|
                0 <= i < self.handles@.len() ==> (#[trigger] g.handles@[i]) == (ModuleBufferHandle {
                    module_handle: self.handles@[i].module_handle,
                    ty: self.handles@[i].ty,
                    buf_handle: BufferHandle {
                        idx: (self.handles@[i].buf_handle.buffer.idx + idx) as usize,
                    },
                }))),
            (exists|i: int|
                0 <= i < self.handles@.len() && idx >= (#[trigger] self.handles@[i]).buf_handle.num_args)
                ==> (exists|i: int|
                {
                    &&& 0 <= i < self.handles@.len()
                    &&& idx >= (#[trigger] self.handles@[i]).buf_handle.num_args
                    &&& (forall|j: int|
                        0 <= j < i ==> idx < (#[trigger] self.handles@[j]).buf_handle.num_args)
                    &&& r == Err::<GroupBufferHandle, HostError>(
                        HostError::VariadicBufferOutOfBounds {
                            idx,
                            len: self.handles@[i].buf_handle.num_args,
                        },
                    )
                }),
    {
        let mut out: Vec<ModuleBufferHandle> = Vec::new();
        let mut i: usize = 0;
        while i < self.handles.len()
            invariant
                i <= self.handles@.len(),
                out@.len() == i,
                forall|j: int|
                    0 <= j < self.handles@.len() ==> (#[trigger] self.handles@[j]).buf_handle.buffer.idx
                        + self.handles@[j].buf_handle.num_args <= usize::MAX,
                forall|j: int|
                    0 <= j < i ==> idx < (#[trigger] self.handles@[j]).buf_handle.num_args
                        && out@[j] == (ModuleBufferHandle {
                        module_handle: self.handles@[j].module_handle,
                        ty: self.handles@[j].ty,
                        buf_handle: BufferHandle {
                            idx: (self.handles@[j].buf_handle.buffer.idx + idx) as usize,
                        },
                    }),
            decreases self.handles@.len() - i,
        {
            let h = &self.handles[i];
            match h.at(idx) {
                Ok(mh) => {
                    out.push(mh);
                },
                Err(e) => {
                    return Err(e);
                },
            }
            i = i + 1;
        }
        Ok(GroupBufferHandle { group: self.group, handles: out })
    }
}

impl ModuleVariadicBufferHandle {
    /// The flat group handle that aligns each slot of this variadic run
    /// with one instance of a group.
    pub fn all(&self, group: GroupHandle) -> (r: GroupBufferHandle)
        requires
            self.buf_handle.buffer.idx + self.buf_handle.num_args <= usize::MAX,
        ensures
            r.group == group,
            r.handles@.len() == self.buf_handle.num_args,
            forall|i: int|
                0 <= i < self.buf_handle.num_args ==> (#[trigger] r.handles@[i]) == (ModuleBufferHandle {
                    module_handle: self.module_handle,
                    ty: self.ty,
                    buf_handle: BufferHandle {
                        idx: (self.buf_handle.buffer.idx + i) as usize,
                    },
                }),
    {
        let mut out: Vec<ModuleBufferHandle> = Vec::new();
        let mut i: usize = 0;
        while i < self.buf_handle.num_args
            invariant
                i <= self.buf_handle.num_args,
                self.buf_handle.buffer.idx + self.buf_handle.num_args <= usize::MAX,
                out@.len() == i,
                forall|j: int|
                    0 <= j < i ==> (#[trigger] out@[j]) == (ModuleBufferHandle {
                        module_handle: self.module_handle,
                        ty: self.ty,
                        buf_handle: BufferHandle {
                            idx: (self.buf_handle.buffer.idx + j) as usize,
                        },
                    }),
            decreases self.buf_handle.num_args - i,
        {
            out.push(
                ModuleBufferHandle {
                    module_handle: self.module_handle,
                    ty: self.ty,
                    buf_handle: BufferHandle { idx: self.buf_handle.buffer.idx + i },
                },
            );
            i = i + 1;
        }
        GroupBufferHandle { group, handles: out }
    }
}

/// The host: the module store, the group store, the audio output, and the
/// name tables over both stores.
pub struct Host {
    pub modules: Vec<Option<ModuleInternals>>,
    pub module_handles: Vec<(String, ModuleHandle)>,
    pub groups: Vec<Group>,
    pub group_handles: Vec<(String, GroupHandle)>,
    pub output_handle: ModuleHandle,
}

/// The mathematical value of the host.
#[verifier::ext_equal]
pub struct HostView {
    pub modules: Seq<Option<ModuleView>>,
    pub module_names: Seq<(Seq<char>, ModuleHandle)>,
    pub groups: Seq<GroupView>,
    pub group_names: Seq<(Seq<char>, GroupHandle)>,
    pub output_handle: ModuleHandle,
}

impl View for Host {
    type V = HostView;

    open spec fn view(&self) -> HostView {
        HostView {
            modules: Seq::new(
                self.modules@.len(),
                |i: int| match self.modules@[i] {
                    Some(m) => Some(m@),
                    None => None,
                },
            ),
            module_names: Seq::new(
                self.module_handles@.len(),
                |i: int| (self.module_handles@[i].0@, self.module_handles@[i].1),
            ),
            groups: Seq::new(self.groups@.len(), |i: int| self.groups@[i]@),
            group_names: Seq::new(
                self.group_handles@.len(),
                |i: int| (self.group_handles@[i].0@, self.group_handles@[i].1),
            ),
            output_handle: self.output_handle,
        }
    }
}

impl HostView {
    /// Whether `m` indexes a live module.
    pub open spec fn live(self, m: int) -> bool {
        0 <= m < self.modules.len() && self.modules[m] is Some
    }

    /// The live module at `m`.
    pub open spec fn at(self, m: int) -> ModuleView {
        match self.modules[m] {
            Some(mv) => mv,
            None => vstd::pervasive::arbitrary(),
        }
    }

    /// A handle is a valid in-port handle: it points at a live module's
    /// in-port slot and carries the port's direction and element kind.
    pub open spec fn valid_in(self, h: ModuleBufferHandle) -> bool {
        &&& self.live(h.module_handle.idx as int)
        &&& h.ty.dir == BufferDirEnum::In
        &&& h.buf_handle.idx < self.at(h.module_handle.idx as int).ins.buffers.len()
        &&& h.ty.elem == self.at(h.module_handle.idx as int).ins.buffers[h.buf_handle.idx as int].elem()
    }

    /// A handle is a valid out-port handle.
    pub open spec fn valid_out(self, h: ModuleBufferHandle) -> bool {
        &&& self.live(h.module_handle.idx as int)
        &&& h.ty.dir == BufferDirEnum::Out
        &&& h.buf_handle.idx < self.at(h.module_handle.idx as int).outs.buffers.len()
        &&& h.ty.elem == self.at(h.module_handle.idx as int).outs.buffers[h.buf_handle.idx as int].buffer.elem()
    }

    /// The in-port a valid in-handle points at.
    pub open spec fn in_port(self, h: ModuleBufferHandle) -> BufferInPortView {
        self.at(h.module_handle.idx as int).ins.buffers[h.buf_handle.idx as int]
    }

    /// The out-port a valid out-handle points at.
    pub open spec fn out_port(self, h: ModuleBufferHandle) -> BufferOutPortView {
        self.at(h.module_handle.idx as int).outs.buffers[h.buf_handle.idx as int]
    }

    /// Structural consistency of one module's ports and counters.
    pub open spec fn module_wf(self, m: int) -> bool {
        let mv = self.at(m);
        &&& mv.ins.buffers.len() <= usize::MAX
        &&& mv.outs.buffers.len() <= usize::MAX
        &&& mv.ins.dir == BufferDirEnum::In
        &&& mv.outs.dir == BufferDirEnum::Out
        &&& mv.ins.num_args == mv.num_args
        &&& mv.outs.num_args == mv.num_args
        &&& mv.ins.names_wf()
        &&& mv.outs.names_wf()
        &&& mv.kind.wf(mv.num_args)
        &&& mv.ins.buffers.len() == mv.kind.in_elems(mv.num_args).len()
        &&& mv.outs.buffers.len() == mv.kind.out_elems(mv.num_args).len()
        &&& (forall|p: int|
            0 <= p < mv.ins.buffers.len() ==> (#[trigger] mv.ins.buffers[p]).elem()
                == mv.kind.in_elems(mv.num_args)[p])
        &&& (forall|p: int|
            0 <= p < mv.outs.buffers.len() ==> (#[trigger] mv.outs.buffers[p]).buffer.elem()
                == mv.kind.out_elems(mv.num_args)[p])
        &&& (forall|p: int|
            0 <= p < mv.ins.buffers.len() ==> ((#[trigger] mv.ins.buffers[p]) matches
                BufferInPortView::Constant(b) ==> b.wf()))
        &&& (forall|p: int| 0 <= p < mv.outs.buffers.len() ==> (#[trigger] mv.outs.buffers[p]).buffer.wf())
        &&& mv.num_dependencies == count_linked(mv.ins.buffers)
    }

    /// Every link of module `m` points at a live out-port of the right kind
    /// which lists the in-port as a subscriber.
    pub open spec fn module_links_wf(self, m: int) -> bool {
        let mv = self.at(m);
        forall|p: int|
            0 <= p < mv.ins.buffers.len() ==> ((#[trigger] mv.ins.buffers[p]) matches
                BufferInPortView::OutBuffer(h) ==> {
                &&& self.valid_out(h)
                &&& self.out_port(h).dependents.contains(in_handle_of(m, p, h.ty.elem))
            })
    }

    /// Every subscriber entry of module `m` points back at exactly the
    /// out-port that lists it, and no entry repeats.
    pub open spec fn module_dependents_wf(self, m: int) -> bool {
        let mv = self.at(m);
        forall|p: int|
            0 <= p < mv.outs.buffers.len() ==> {
                let dep = (#[trigger] mv.outs.buffers[p]).dependents;
                let elem = mv.outs.buffers[p].buffer.elem();
                &&& (forall|k: int|
                    0 <= k < dep.len() ==> {
                        &&& self.valid_in(#[trigger] dep[k])
                        &&& dep[k].ty.elem == elem
                        &&& self.in_port(dep[k]) == BufferInPortView::OutBuffer(
                            out_handle_of(m, p, elem),
                        )
                    })
                &&& (forall|k1: int, k2: int| 0 <= k1 < k2 < dep.len() ==> dep[k1] != dep[k2])
            }
    }

    /// The module name table points at live modules and never repeats a
    /// name.
    pub open spec fn names_wf(self) -> bool {
        &&& (forall|i: int|
            0 <= i < self.module_names.len() ==> self.live(
                (#[trigger] self.module_names[i]).1.idx as int,
            ))
        &&& (forall|i: int, j: int|
            0 <= i < j < self.module_names.len() ==> (#[trigger] self.module_names[i]).0 != (
            #[trigger] self.module_names[j]).0)
    }

    /// Whether a module of the given name exists.
    pub open spec fn has_module_name(self, name: Seq<char>) -> bool {
        exists|i: int| 0 <= i < self.module_names.len() && (#[trigger] self.module_names[i]).0 == name
    }

    /// The group name table points at stored groups and never repeats a
    /// name; group-local tables never repeat a name either.
    pub open spec fn groups_wf(self) -> bool {
        &&& (forall|i: int|
            0 <= i < self.group_names.len() ==> (#[trigger] self.group_names[i]).1.idx
                < self.groups.len())
        &&& (forall|i: int, j: int|
            0 <= i < j < self.group_names.len() ==> (#[trigger] self.group_names[i]).0 != (
            #[trigger] self.group_names[j]).0)
        &&& (forall|g: int, i: int, j: int|
            0 <= g < self.groups.len() && 0 <= i < j < self.groups[g].named_instances.len()
                ==> (#[trigger] self.groups[g].named_instances[i]).0 != (#[trigger] self.groups[g].named_instances[j]).0)
        &&& (forall|g: int, i: int|
            0 <= g < self.groups.len() && 0 <= i < self.groups[g].named_instances.len()
                ==> (#[trigger] self.groups[g].named_instances[i]).1.offset
                < self.groups[g].num_instances)
        &&& (forall|g: int, i: int, j: int|
            0 <= g < self.groups.len() && 0 <= i < j < self.groups[g].grouped_names.len()
                ==> (#[trigger] self.groups[g].grouped_names[i]) != (#[trigger] self.groups[g].grouped_names[j]))
        &&& (forall|g: int|
            0 <= g < self.groups.len() ==> (#[trigger] self.groups[g]).num_instances <= usize::MAX
                - 8)
    }

    /// Whether a group of the given name exists.
    pub open spec fn has_group_name(self, name: Seq<char>) -> bool {
        exists|i: int| 0 <= i < self.group_names.len() && (#[trigger] self.group_names[i]).0 == name
    }

    /// The host invariant: every live module is consistent, the subscriber
    /// index is bidirectionally consistent, the name tables are sound, and
    /// the installed audio output module is live and of the sink kind.
    pub open spec fn wf(self) -> bool {
        &&& self.modules.len() <= usize::MAX
        &&& (forall|m: int| self.live(m) ==> self.module_wf(m))
        &&& (forall|m: int| self.live(m) ==> self.module_links_wf(m))
        &&& (forall|m: int| self.live(m) ==> self.module_dependents_wf(m))
        &&& self.names_wf()
        &&& self.groups_wf()
        &&& self.live(self.output_handle.idx as int)
        &&& self.at(self.output_handle.idx as int).kind is AudioOut
    }

    /// A handle points at an existing in-port slot of a live module and is
    /// tagged as an in-handle.
    pub open spec fn in_shape(self, h: ModuleBufferHandle) -> bool {
        &&& self.live(h.module_handle.idx as int)
        &&& h.ty.dir == BufferDirEnum::In
        &&& h.buf_handle.idx < self.at(h.module_handle.idx as int).ins.buffers.len()
    }

    /// A handle points at an existing out-port slot of a live module and is
    /// tagged as an out-handle.
    pub open spec fn out_shape(self, h: ModuleBufferHandle) -> bool {
        &&& self.live(h.module_handle.idx as int)
        &&& h.ty.dir == BufferDirEnum::Out
        &&& h.buf_handle.idx < self.at(h.module_handle.idx as int).outs.buffers.len()
    }

    /// The name table of one direction of a module's ports.
    pub open spec fn port_names(self, m: int, dir: BufferDirEnum) -> Seq<NameEntryView> {
        if dir is In {
            self.at(m).ins.names
        } else {
            self.at(m).outs.names
        }
    }

    /// Whether module `m` registers `name` as a single port of the given
    /// direction and element kind.
    pub open spec fn has_single_port(
        self,
        m: int,
        dir: BufferDirEnum,
        elem: BufferElemEnum,
        name: Seq<char>,
    ) -> bool {
        &&& crate::ports::names_has(self.port_names(m, dir), name, elem)
        &&& crate::ports::names_entry_for(self.port_names(m, dir), name, elem).arity is Single
    }

    /// The handle module `m` registers under `name` as a single port.
    pub open spec fn single_port_handle(
        self,
        m: int,
        dir: BufferDirEnum,
        elem: BufferElemEnum,
        name: Seq<char>,
    ) -> BufferHandle {
        crate::ports::names_entry_for(self.port_names(m, dir), name, elem).arity->Single_0
    }

    /// Whether module `m` registers `name` as a variadic port run of the
    /// given direction and element kind.
    pub open spec fn has_variadic_port(
        self,
        m: int,
        dir: BufferDirEnum,
        elem: BufferElemEnum,
        name: Seq<char>,
    ) -> bool {
        &&& crate::ports::names_has(self.port_names(m, dir), name, elem)
        &&& crate::ports::names_entry_for(self.port_names(m, dir), name, elem).arity is Variadic
    }

    /// The handle module `m` registers under `name` as a variadic port run.
    pub open spec fn variadic_port_handle(
        self,
        m: int,
        dir: BufferDirEnum,
        elem: BufferElemEnum,
        name: Seq<char>,
    ) -> VariadicBufferHandle {
        crate::ports::names_entry_for(self.port_names(m, dir), name, elem).arity->Variadic_0
    }

    /// The number of port slots of one direction of a module.
    pub open spec fn port_slots(self, m: int, dir: BufferDirEnum) -> nat {
        if dir is In {
            self.at(m).ins.buffers.len()
        } else {
            self.at(m).outs.buffers.len()
        }
    }

    /// Module `c` consumes (directly depends on) module `p`.
    pub open spec fn depends_on(self, c: int, p: int) -> bool {
        exists|j: int|
            0 <= j < self.at(c).ins.buffers.len() && ((#[trigger] self.at(c).ins.buffers[j]) matches
                BufferInPortView::OutBuffer(h) && h.module_handle.idx == p)
    }
}

/// A port list with no links has a zero linked count.
pub proof fn lemma_count_linked_no_links(ports: Seq<BufferInPortView>)
    requires
        forall|j: int| 0 <= j < ports.len() ==> !(#[trigger] ports[j]).is_linked(),
    ensures
        count_linked(ports) == 0,
    decreases ports.len(),
{
    if ports.len() > 0 {
        lemma_count_linked_no_links(ports.drop_last());
    }
}

/// Replacing one in-port changes the linked count exactly by the link-state
/// difference.
pub proof fn lemma_count_linked_update(ports: Seq<BufferInPortView>, j: int, p: BufferInPortView)
    requires
        0 <= j < ports.len(),
    ensures
        count_linked(ports.update(j, p)) + (if ports[j].is_linked() {
            1nat
        } else {
            0nat
        }) == count_linked(ports) + (if p.is_linked() {
            1nat
        } else {
            0nat
        }),
    decreases ports.len(),
{
    if j == ports.len() - 1 {
        assert(ports.update(j, p).drop_last() =~= ports.drop_last());
        assert(ports.update(j, p).last() == p);
    } else {
        assert(ports.update(j, p).drop_last() =~= ports.drop_last().update(j, p));
        assert(ports.update(j, p).last() == ports.last());
        lemma_count_linked_update(ports.drop_last(), j, p);
    }
}

/// A linked port contributes to the linked count.
pub proof fn lemma_count_linked_at(ports: Seq<BufferInPortView>, p: int)
    requires
        0 <= p < ports.len(),
        ports[p].is_linked(),
    ensures
        count_linked(ports) >= 1,
    decreases ports.len(),
{
    if p == ports.len() - 1 {
    } else {
        assert(ports.drop_last()[p] == ports[p]);
        lemma_count_linked_at(ports.drop_last(), p);
    }
}

/// An unlinked port keeps the linked count below the port count.
pub proof fn lemma_count_linked_missing(ports: Seq<BufferInPortView>, p: int)
    requires
        0 <= p < ports.len(),
        !ports[p].is_linked(),
    ensures
        count_linked(ports) <= ports.len() - 1,
    decreases ports.len(),
{
    if p == ports.len() - 1 {
        lemma_count_linked_le(ports.drop_last());
    } else {
        assert(ports.drop_last()[p] == ports[p]);
        lemma_count_linked_missing(ports.drop_last(), p);
    }
}

/// Removing one element keeps every other element.
pub proof fn lemma_remove_contains_other(s: Seq<ModuleBufferHandle>, k: int, x: ModuleBufferHandle)
    requires
        0 <= k < s.len(),
        s[k] != x,
        s.contains(x),
    ensures
        s.remove(k).contains(x),
{
    let j = choose|j: int| 0 <= j < s.len() && s[j] == x;
    if j < k {
        assert(s.remove(k)[j] == x);
    } else {
        assert(s.remove(k)[j - 1] == x);
    }
}

/// Removing an element keeps pairwise distinctness.
pub proof fn lemma_remove_nodup(s: Seq<ModuleBufferHandle>, k: int)
    requires
        0 <= k < s.len(),
        forall|k1: int, k2: int| 0 <= k1 < k2 < s.len() ==> s[k1] != s[k2],
    ensures
        forall|k1: int, k2: int|
            0 <= k1 < k2 < s.remove(k).len() ==> s.remove(k)[k1] != s.remove(k)[k2],
{
    assert forall|k1: int, k2: int|
        0 <= k1 < k2 < s.remove(k).len() implies s.remove(k)[k1] != s.remove(k)[k2] by {
        let j1 = if k1 < k {
            k1
        } else {
            k1 + 1
        };
        let j2 = if k2 < k {
            k2
        } else {
            k2 + 1
        };
        assert(s.remove(k)[k1] == s[j1]);
        assert(s.remove(k)[k2] == s[j2]);
    }
}

/// After removing the only occurrence of an element from a duplicate-free
/// sequence, the element is gone.
pub proof fn lemma_remove_no_more(s: Seq<ModuleBufferHandle>, k: int)
    requires
        0 <= k < s.len(),
        forall|k1: int, k2: int| 0 <= k1 < k2 < s.len() ==> s[k1] != s[k2],
    ensures
        !s.remove(k).contains(s[k]),
{
    if s.remove(k).contains(s[k]) {
        let j = choose|j: int| 0 <= j < s.remove(k).len() && s.remove(k)[j] == s[k];
        if j < k {
            assert(s[j] == s[k]);
        } else {
            assert(s[j + 1] == s[k]);
        }
    }
}

/// The count of linked ports never exceeds the port count.
pub proof fn lemma_count_linked_le(ports: Seq<BufferInPortView>)
    ensures
        count_linked(ports) <= ports.len(),
    decreases ports.len(),
{
    if ports.len() > 0 {
        lemma_count_linked_le(ports.drop_last());
    }
}

/// The host with one in-port replaced and that module's dependency count
/// set.
pub open spec fn with_in_port(
    v: HostView,
    m: int,
    p: int,
    newp: BufferInPortView,
    ndeps: usize,
) -> HostView {
    let mv = v.at(m);
    HostView {
        modules: v.modules.update(
            m,
            Some(
                ModuleView {
                    num_dependencies: ndeps,
                    ins: PortsView { buffers: mv.ins.buffers.update(p, newp), ..mv.ins },
                    ..mv
                },
            ),
        ),
        ..v
    }
}

/// The host with subscriber entry `k` of out-port `q` of module `m`
/// removed.
pub open spec fn with_removed_dep(v: HostView, m: int, q: int, k: int) -> HostView {
    let mv = v.at(m);
    let port = mv.outs.buffers[q];
    HostView {
        modules: v.modules.update(
            m,
            Some(
                ModuleView {
                    outs: PortsView {
                        buffers: mv.outs.buffers.update(
                            q,
                            BufferOutPortView { dependents: port.dependents.remove(k), ..port },
                        ),
                        ..mv.outs
                    },
                    ..mv
                },
            ),
        ),
        ..v
    }
}

/// The host with a subscriber entry appended to out-port `q` of module `m`.
pub open spec fn with_pushed_dep(v: HostView, m: int, q: int, d: ModuleBufferHandle) -> HostView {
    let mv = v.at(m);
    let port = mv.outs.buffers[q];
    HostView {
        modules: v.modules.update(
            m,
            Some(
                ModuleView {
                    outs: PortsView {
                        buffers: mv.outs.buffers.update(
                            q,
                            BufferOutPortView { dependents: port.dependents.push(d), ..port },
                        ),
                        ..mv.outs
                    },
                    ..mv
                },
            ),
        ),
        ..v
    }
}

/// What setting an in-port leaves behind: the port replaced, the dependency
/// count adjusted, the old producer's subscriber entry removed, the new
/// producer's entry appended.
pub open spec fn sbi_spec(v: HostView, m: int, p: int, newp: BufferInPortView) -> HostView {
    let oldp = v.at(m).ins.buffers[p];
    let elem = oldp.elem();
    let ih = in_handle_of(m, p, elem);
    let nd = v.at(m).num_dependencies;
    let ndeps = if oldp.is_linked() && !newp.is_linked() {
        (nd - 1) as usize
    } else if !oldp.is_linked() && newp.is_linked() {
        (nd + 1) as usize
    } else {
        nd
    };
    let v1 = with_in_port(v, m, p, newp, ndeps);
    let v2 = if oldp.is_linked() {
        let hs = oldp.src();
        let deps = v1.at(hs.module_handle.idx as int).outs.buffers[hs.buf_handle.idx as int].dependents;
        let k = choose|k: int| 0 <= k < deps.len() && deps[k] == ih;
        with_removed_dep(v1, hs.module_handle.idx as int, hs.buf_handle.idx as int, k)
    } else {
        v1
    };
    if newp.is_linked() {
        let hn = newp.src();
        with_pushed_dep(v2, hn.module_handle.idx as int, hn.buf_handle.idx as int, ih)
    } else {
        v2
    }
}

/// The input blocks a module's fill step reads: for linked ports the
/// producer's out-block, for constant ports the stored block.
pub open spec fn gather_spec(v: HostView, m: int) -> Seq<BlockView> {
    Seq::new(
        v.at(m).ins.buffers.len(),
        |p: int|
            match v.at(m).ins.buffers[p] {
                BufferInPortView::Constant(b) => b,
                BufferInPortView::OutBuffer(h) => v.out_port(h).buffer,
            },
    )
}

/// One module's fill step as the scheduler performs it: inputs gathered,
/// the kind's fill applied, output blocks written back, the progress counter
/// saturated.
pub open spec fn process_one_spec(v: HostView, m: int, now: u64) -> HostView {
    let mv = v.at(m);
    let outs_before = Seq::new(mv.outs.buffers.len(), |q: int| mv.outs.buffers[q].buffer);
    let (k2, outs2) = kind_fill_spec(mv.kind, mv.num_args, gather_spec(v, m), outs_before, now);
    let v1 = HostView {
        modules: v.modules.update(
            m,
            Some(
                ModuleView {
                    kind: k2,
                    num_finished_dependencies: mv.num_dependencies,
                    outs: PortsView {
                        buffers: Seq::new(
                            mv.outs.buffers.len(),
                            |q: int| BufferOutPortView {
                                buffer: outs2[q],
                                dependents: mv.outs.buffers[q].dependents,
                            },
                        ),
                        ..mv.outs
                    },
                    ..mv
                },
            ),
        ),
        ..v
    };
    v1
}

/// The state after the modules of `order` were processed in order.
pub open spec fn run_schedule(v: HostView, order: Seq<usize>, now: u64) -> HostView
    decreases order.len(),
{
    if order.len() == 0 {
        v
    } else {
        process_one_spec(run_schedule(v, order.drop_last(), now), order.last() as int, now)
    }
}

/// The state at the start of a pass: every live module's progress counter
/// zeroed.
pub open spec fn reset_finished(v: HostView) -> HostView {
    HostView {
        modules: Seq::new(
            v.modules.len(),
            |m: int|
                match v.modules[m] {
                    Some(mv) => Some(ModuleView { num_finished_dependencies: 0, ..mv }),
                    None => None,
                },
        ),
        ..v
    }
}

/// The graph structure two host states share when only module states, block
/// contents, progress counters, and the audio output differ: liveness, port
/// layouts, links, subscribers, and dependency counts.
pub open spec fn same_graph(a: HostView, b: HostView) -> bool {
    &&& b.modules.len() == a.modules.len()
    &&& (forall|c: int| b.live(c) <==> a.live(c))
    &&& (forall|c: int|
        a.live(c) ==> {
            &&& (#[trigger] b.at(c)).num_args == a.at(c).num_args
            &&& b.at(c).num_dependencies == a.at(c).num_dependencies
            &&& b.at(c).ins == a.at(c).ins
            &&& b.at(c).outs.dir == a.at(c).outs.dir
            &&& b.at(c).outs.num_args == a.at(c).outs.num_args
            &&& b.at(c).outs.names == a.at(c).outs.names
            &&& b.at(c).outs.buffers.len() == a.at(c).outs.buffers.len()
            &&& b.at(c).kind.in_elems(b.at(c).num_args) == a.at(c).kind.in_elems(a.at(c).num_args)
            &&& b.at(c).kind.out_elems(b.at(c).num_args) == a.at(c).kind.out_elems(
                a.at(c).num_args,
            )
            &&& (forall|q: int|
                0 <= q < a.at(c).outs.buffers.len() ==> (#[trigger] b.at(c).outs.buffers[q]).dependents
                    == a.at(c).outs.buffers[q].dependents)
            &&& (forall|q: int|
                0 <= q < a.at(c).outs.buffers.len() ==> (#[trigger] b.at(c).outs.buffers[q]).buffer.elem()
                    == a.at(c).outs.buffers[q].buffer.elem())
        })
    &&& b.module_names == a.module_names
    &&& b.groups == a.groups
    &&& b.group_names == a.group_names
    &&& b.output_handle == a.output_handle
}

/// The number of linked in-ports whose producer module is marked done.
pub open spec fn count_src(ports: Seq<BufferInPortView>, done: Seq<bool>) -> nat
    decreases ports.len(),
{
    if ports.len() == 0 {
        0
    } else {
        count_src(ports.drop_last(), done) + if ports.last() matches
            BufferInPortView::OutBuffer(h) && 0 <= h.module_handle.idx < done.len() && done[h.module_handle.idx as int] {
            1nat
        } else {
            0nat
        }
    }
}

/// The done count never exceeds the linked count; they agree exactly when
/// every linked producer is done.
pub proof fn lemma_count_src(ports: Seq<BufferInPortView>, done: Seq<bool>)
    requires
        forall|j: int|
            0 <= j < ports.len() ==> ((#[trigger] ports[j]) matches BufferInPortView::OutBuffer(h)
                ==> 0 <= h.module_handle.idx < done.len()),
    ensures
        count_src(ports, done) <= count_linked(ports),
        count_src(ports, done) == count_linked(ports) <==> (forall|j: int|
            0 <= j < ports.len() ==> ((#[trigger] ports[j]) matches BufferInPortView::OutBuffer(h)
                ==> done[h.module_handle.idx as int])),
    decreases ports.len(),
{
    if ports.len() > 0 {
        assert(forall|j: int|
            0 <= j < ports.drop_last().len() ==> ports.drop_last()[j] == ports[j]);
        lemma_count_src(ports.drop_last(), done);
        let l = ports.len() - 1;
        if count_src(ports, done) == count_linked(ports) {
            assert forall|j: int|
                0 <= j < ports.len() implies ((#[trigger] ports[j]) matches
                BufferInPortView::OutBuffer(h) ==> done[h.module_handle.idx as int]) by {
                if j < l {
                    assert(ports.drop_last()[j] == ports[j]);
                }
            }
        }
        if forall|j: int|
            0 <= j < ports.len() ==> ((#[trigger] ports[j]) matches BufferInPortView::OutBuffer(h)
                ==> done[h.module_handle.idx as int]) {
            assert(count_src(ports.drop_last(), done) == count_linked(ports.drop_last()));
        }
    }
}

/// The number of `true` entries of a flag list.
pub open spec fn count_done(s: Seq<bool>) -> nat
    decreases s.len(),
{
    if s.len() == 0 {
        0
    } else {
        count_done(s.drop_last()) + if s.last() {
            1nat
        } else {
            0nat
        }
    }
}

/// Marking one flag raises the done count by one.
pub proof fn lemma_count_done_set(s: Seq<bool>, i: int)
    requires
        0 <= i < s.len(),
        !s[i],
    ensures
        count_done(s.update(i, true)) == count_done(s) + 1,
    decreases s.len(),
{
    if i == s.len() - 1 {
        assert(s.update(i, true).drop_last() =~= s.drop_last());
    } else {
        assert(s.update(i, true).drop_last() =~= s.drop_last().update(i, true));
        assert(s.update(i, true).last() == s.last());
        lemma_count_done_set(s.drop_last(), i);
    }
}

/// The done count never exceeds the flag count.
pub proof fn lemma_count_done_le(s: Seq<bool>)
    ensures
        count_done(s) <= s.len(),
    decreases s.len(),
{
    if s.len() > 0 {
        lemma_count_done_le(s.drop_last());
    }
}

/// The scheduler's bookkeeping invariant: done flags mark live modules, the
/// order lists exactly the done modules without repetition, and every entry
/// of the order follows all modules it depends on.
pub open spec fn sched_inv(pre: HostView, done: Seq<bool>, order: Seq<usize>) -> bool {
    &&& (forall|j: int| 0 <= j < done.len() && #[trigger] done[j] ==> pre.live(j))
    &&& (forall|j: int|
        0 <= j < order.len() ==> (#[trigger] order[j]) < done.len() && done[order[j] as int])
    &&& (forall|j: int| 0 <= j < done.len() && #[trigger] done[j] ==> order.contains(j as usize))
    &&& (forall|i: int, j: int| 0 <= i < j < order.len() ==> order[i] != order[j])
    &&& (forall|i: int, p: int|
        0 <= i < order.len() && #[trigger] pre.depends_on(order[i] as int, p) ==> exists|j: int|
            0 <= j < i && order[j] == p)
}

/// Recording a module whose producers are all done preserves the
/// scheduler's bookkeeping invariant.
proof fn lemma_try_process_inv(pre: HostView, d1: Seq<bool>, order0: Seq<usize>, m: int)
    requires
        pre.wf(),
        sched_inv(pre, d1, order0),
        pre.live(m),
        0 <= m < d1.len(),
        !d1[m],
        d1.len() == pre.modules.len(),
        pre.modules.len() <= usize::MAX,
        forall|j: int|
            0 <= j < pre.at(m).ins.buffers.len() ==> ((#[trigger] pre.at(m).ins.buffers[j])
                matches BufferInPortView::OutBuffer(h) ==> 0 <= h.module_handle.idx < d1.len()
                && d1[h.module_handle.idx as int]),
    ensures
        sched_inv(pre, d1.update(m, true), order0.push(m as usize)),
{
    let done2 = d1.update(m, true);
    let order2 = order0.push(m as usize);
    assert forall|j: int| 0 <= j < done2.len() && #[trigger] done2[j] implies pre.live(j) by {
        if j != m {
            assert(d1[j]);
        }
    }
    assert forall|j: int|
        0 <= j < done2.len() && #[trigger] done2[j] implies order2.contains(j as usize) by {
        if j == m {
            assert(order2[order2.len() - 1] == m as usize);
        } else {
            assert(d1[j]);
            let i = choose|i: int| 0 <= i < order0.len() && order0[i] == j as usize;
            assert(order2[i] == j as usize);
        }
    }
    assert forall|i: int, j: int| 0 <= i < j < order2.len() implies order2[i] != order2[j] by {
        if j == order2.len() - 1 {
            assert(order2[j] == m as usize);
            if order2[i] == m as usize {
                assert(order0[i] == m as usize);
                assert(d1[m]);
            }
        }
    }
    assert forall|i: int, p: int|
        0 <= i < order2.len() && #[trigger] pre.depends_on(order2[i] as int, p) implies exists|
        j: int,
    |
        0 <= j < i && order2[j] == p by {
        if i < order0.len() {
            assert(order0[i] == order2[i]);
            assert(pre.depends_on(order0[i] as int, p));
            let j = choose|j: int| 0 <= j < i && order0[j] == p;
            assert(order2[j] == p);
        } else {
            assert(order2[i] == m as usize);
            let jj = choose|jj: int|
                0 <= jj < pre.at(m).ins.buffers.len() && ((#[trigger] pre.at(m).ins.buffers[jj])
                    matches BufferInPortView::OutBuffer(h) && h.module_handle.idx == p);
            match pre.at(m).ins.buffers[jj] {
                BufferInPortView::OutBuffer(h) => {
                    assert(d1[h.module_handle.idx as int]);
                    assert(order0.contains(h.module_handle.idx as usize));
                    let j = choose|j: int|
                        0 <= j < order0.len() && order0[j] == h.module_handle.idx as usize;
                    assert(order2[j] == p);
                },
                BufferInPortView::Constant(_) => {},
            }
        }
    }
}

/// At a fixpoint of the readiness scan, every unprocessed module waits on
/// an unprocessed producer; in particular every module without dependencies
/// was processed.
proof fn lemma_schedule_complete(pre: HostView, done: Seq<bool>, order: Seq<usize>)
    requires
        pre.wf(),
        sched_inv(pre, done, order),
        done.len() == pre.modules.len(),
        forall|c: int|
            0 <= c < done.len() && pre.live(c) && !done[c] ==> count_src(
                pre.at(c).ins.buffers,
                done,
            ) < pre.at(c).num_dependencies,
    ensures
        forall|i: int| 0 <= i < order.len() ==> pre.live(order[i] as int),
        forall|m: int|
            pre.live(m) && !order.contains(m as usize) ==> exists|p: int|
                pre.depends_on(m, p) && !order.contains(p as usize),
        forall|m: int|
            pre.live(m) && pre.at(m).num_dependencies == 0 ==> order.contains(m as usize),
{
    assert forall|m: int|
        pre.live(m) && !order.contains(m as usize) implies exists|p: int|
        pre.depends_on(m, p) && !order.contains(p as usize) by {
        if done[m] {
            assert(order.contains(m as usize));
        }
        assert(count_src(pre.at(m).ins.buffers, done) < pre.at(m).num_dependencies);
        assert(pre.module_wf(m));
        let ins = pre.at(m).ins.buffers;
        assert forall|j: int|
            0 <= j < ins.len() implies ((#[trigger] ins[j]) matches
            BufferInPortView::OutBuffer(h) ==> 0 <= h.module_handle.idx < done.len()) by {
            match ins[j] {
                BufferInPortView::OutBuffer(h) => {
                    assert(pre.module_links_wf(m));
                    assert(pre.valid_out(h));
                },
                BufferInPortView::Constant(_) => {},
            }
        }
        lemma_count_src(ins, done);
        let j = choose|j: int|
            !(0 <= j < ins.len() ==> ((#[trigger] ins[j]) matches BufferInPortView::OutBuffer(h)
                ==> done[h.module_handle.idx as int]));
        match ins[j] {
            BufferInPortView::OutBuffer(h) => {
                let pp = h.module_handle.idx as int;
                assert(pre.depends_on(m, pp));
                if order.contains(pp as usize) {
                    let i = choose|i: int| 0 <= i < order.len() && order[i] == pp as usize;
                    assert(done[pp]);
                }
            },
            BufferInPortView::Constant(_) => {
                assert(false);
            },
        }
    }
    assert forall|m: int|
        pre.live(m) && pre.at(m).num_dependencies == 0 implies order.contains(m as usize) by {
        assert(pre.module_wf(m));
        assert(count_linked(pre.at(m).ins.buffers) == 0);
        if !order.contains(m as usize) {
            let p = choose|p: int| pre.depends_on(m, p) && !order.contains(p as usize);
            let j = choose|j: int|
                0 <= j < pre.at(m).ins.buffers.len() && ((#[trigger] pre.at(m).ins.buffers[j])
                    matches BufferInPortView::OutBuffer(h) && h.module_handle.idx == p);
            lemma_count_linked_at(pre.at(m).ins.buffers, j);
        }
    }
}

/// The instance-name views of an optional name list.
pub open spec fn instance_names_of(named: Option<&Vec<String>>) -> Seq<Seq<char>> {
    match named {
        Some(v) => Seq::new(v@.len(), |i: int| v@[i]@),
        None => Seq::<Seq<char>>::empty(),
    }
}

/// Whether a name list repeats a name.
pub open spec fn has_dup_names(names: Seq<Seq<char>>) -> bool {
    exists|i: int, j: int| 0 <= i < j < names.len() && names[i] == names[j]
}

/// Registering a fresh group preserves the host invariant.
proof fn lemma_group_push_wf(
    pre: HostView,
    post: HostView,
    g: GroupView,
    name: Seq<char>,
    h: GroupHandle,
)
    requires
        pre.wf(),
        !pre.has_group_name(name),
        g.num_instances <= usize::MAX - 8,
        h.idx == pre.groups.len(),
        forall|i: int|
            0 <= i < g.named_instances.len() ==> (#[trigger] g.named_instances[i]).1.offset
                < g.num_instances,
        forall|i: int, j: int|
            0 <= i < j < g.named_instances.len() ==> (#[trigger] g.named_instances[i]).0 != (
            #[trigger] g.named_instances[j]).0,
        forall|i: int, j: int|
            0 <= i < j < g.grouped_names.len() ==> (#[trigger] g.grouped_names[i]) != (
            #[trigger] g.grouped_names[j]),
        post == (HostView {
            groups: pre.groups.push(g),
            group_names: pre.group_names.push((name, h)),
            ..pre
        }),
    ensures
        post.wf(),
{
    assert forall|m: int| post.live(m) implies post.module_wf(m) && post.module_links_wf(m)
        && post.module_dependents_wf(m) by {
        assert(pre.live(m));
        assert(post.at(m) == pre.at(m));
        assert(pre.module_wf(m) && pre.module_links_wf(m) && pre.module_dependents_wf(m));
        lemma_same_modules_links(pre, post, m);
    }
    assert forall|i: int, j: int|
        0 <= i < j < post.group_names.len() implies (#[trigger] post.group_names[i]).0 != (
    #[trigger] post.group_names[j]).0 by {
        if j == post.group_names.len() - 1 {
            assert(post.group_names[j].0 == name);
            if post.group_names[i].0 == name {
                assert(pre.group_names[i].0 == name);
                assert(pre.has_group_name(name));
            }
        }
    }
    assert forall|i: int|
        0 <= i < post.module_names.len() implies post.live(
        (#[trigger] post.module_names[i]).1.idx as int,
    ) by {
        assert(pre.live(pre.module_names[i].1.idx as int));
    }
    let n = pre.groups.len() as int;
    assert forall|i: int|
        0 <= i < post.group_names.len() implies (#[trigger] post.group_names[i]).1.idx
        < post.groups.len() by {
        if i < pre.group_names.len() {
            assert(pre.group_names[i].1.idx < pre.groups.len());
        }
    }
    assert forall|g2: int, i: int, j: int|
        0 <= g2 < post.groups.len() && 0 <= i < j < post.groups[g2].named_instances.len() implies (
    #[trigger] post.groups[g2].named_instances[i]).0 != (#[trigger] post.groups[g2].named_instances[j]).0 by {
        if g2 < n {
            assert(post.groups[g2] == pre.groups[g2]);
        } else {
            assert(post.groups[g2] == g);
        }
    }
    assert forall|g2: int, i: int|
        0 <= g2 < post.groups.len() && 0 <= i < post.groups[g2].named_instances.len() implies (
    #[trigger] post.groups[g2].named_instances[i]).1.offset < post.groups[g2].num_instances by {
        if g2 < n {
            assert(post.groups[g2] == pre.groups[g2]);
        } else {
            assert(post.groups[g2] == g);
        }
    }
    assert forall|g2: int, i: int, j: int|
        0 <= g2 < post.groups.len() && 0 <= i < j < post.groups[g2].grouped_names.len() implies (
    #[trigger] post.groups[g2].grouped_names[i]) != (#[trigger] post.groups[g2].grouped_names[j]) by {
        if g2 < n {
            assert(post.groups[g2] == pre.groups[g2]);
        } else {
            assert(post.groups[g2] == g);
        }
    }
    assert forall|g2: int|
        0 <= g2 < post.groups.len() implies (#[trigger] post.groups[g2]).num_instances
        <= usize::MAX - 8 by {
        if g2 < n {
            assert(post.groups[g2] == pre.groups[g2]);
        } else {
            assert(post.groups[g2] == g);
        }
    }
    assert(post.at(post.output_handle.idx as int) == pre.at(pre.output_handle.idx as int));
}

/// Replacing one module's kind state without touching its port layout
/// preserves the host invariant.
proof fn lemma_kind_state_update_wf(v: HostView, m: int, k2: ModuleKindView, post: HostView)
    requires
        v.wf(),
        v.live(m),
        k2.wf(v.at(m).num_args),
        k2.in_elems(v.at(m).num_args) == v.at(m).kind.in_elems(v.at(m).num_args),
        k2.out_elems(v.at(m).num_args) == v.at(m).kind.out_elems(v.at(m).num_args),
        v.at(m).kind is AudioOut ==> k2 is AudioOut,
        post == (HostView {
            modules: v.modules.update(m, Some(ModuleView { kind: k2, ..v.at(m) })),
            ..v
        }),
    ensures
        post.wf(),
{
    assert(forall|c: int| post.live(c) <==> v.live(c));
    assert forall|c: int| post.live(c) implies post.module_wf(c) && post.module_links_wf(c)
        && post.module_dependents_wf(c) by {
        assert(v.live(c));
        assert(v.module_wf(c) && v.module_links_wf(c) && v.module_dependents_wf(c));
        assert(post.at(c).ins == v.at(c).ins);
        assert(post.at(c).outs == v.at(c).outs);
        lemma_names_wf_transfer(v.at(c).ins, post.at(c).ins);
        lemma_names_wf_transfer(v.at(c).outs, post.at(c).outs);
        assert forall|q: int|
            0 <= q < post.at(c).ins.buffers.len() implies ((#[trigger] post.at(c).ins.buffers[q])
            matches BufferInPortView::OutBuffer(h) ==> {
            &&& post.valid_out(h)
            &&& post.out_port(h).dependents.contains(in_handle_of(c, q, h.ty.elem))
        }) by {
            match post.at(c).ins.buffers[q] {
                BufferInPortView::OutBuffer(h) => {
                    assert(v.valid_out(h));
                    assert(post.at(h.module_handle.idx as int).outs == v.at(
                        h.module_handle.idx as int,
                    ).outs);
                },
                BufferInPortView::Constant(_) => {},
            }
        }
        assert forall|q: int|
            0 <= q < post.at(c).outs.buffers.len() implies {
            let dep = (#[trigger] post.at(c).outs.buffers[q]).dependents;
            let e = post.at(c).outs.buffers[q].buffer.elem();
            &&& (forall|j: int|
                0 <= j < dep.len() ==> {
                    &&& post.valid_in(#[trigger] dep[j])
                    &&& dep[j].ty.elem == e
                    &&& post.in_port(dep[j]) == BufferInPortView::OutBuffer(out_handle_of(c, q, e))
                })
            &&& (forall|j1: int, j2: int| 0 <= j1 < j2 < dep.len() ==> dep[j1] != dep[j2])
        } by {
            let dep = post.at(c).outs.buffers[q].dependents;
            assert forall|j: int| 0 <= j < dep.len() implies {
                &&& post.valid_in(#[trigger] dep[j])
                &&& dep[j].ty.elem == post.at(c).outs.buffers[q].buffer.elem()
                &&& post.in_port(dep[j]) == BufferInPortView::OutBuffer(
                    out_handle_of(c, q, post.at(c).outs.buffers[q].buffer.elem()),
                )
            } by {
                assert(v.valid_in(dep[j]));
                assert(post.at(dep[j].module_handle.idx as int).ins == v.at(
                    dep[j].module_handle.idx as int,
                ).ins);
            }
        }
    }
    assert forall|i: int|
        0 <= i < post.module_names.len() implies post.live(
        (#[trigger] post.module_names[i]).1.idx as int,
    ) by {
        assert(v.live(v.module_names[i].1.idx as int));
    }
    assert(post.at(post.output_handle.idx as int).kind is AudioOut) by {
        if post.output_handle.idx as int == m {
            assert(v.at(m).kind is AudioOut);
        }
    }
}

/// Graph sameness composes.
proof fn lemma_same_graph_trans(a: HostView, b: HostView, c: HostView)
    requires
        same_graph(a, b),
        same_graph(b, c),
    ensures
        same_graph(a, c),
{
    assert forall|x: int| a.live(x) implies {
        &&& (#[trigger] c.at(x)).num_args == a.at(x).num_args
        &&& c.at(x).num_dependencies == a.at(x).num_dependencies
        &&& c.at(x).ins == a.at(x).ins
        &&& c.at(x).outs.dir == a.at(x).outs.dir
        &&& c.at(x).outs.num_args == a.at(x).outs.num_args
        &&& c.at(x).outs.names == a.at(x).outs.names
        &&& c.at(x).outs.buffers.len() == a.at(x).outs.buffers.len()
        &&& c.at(x).kind.in_elems(c.at(x).num_args) == a.at(x).kind.in_elems(a.at(x).num_args)
        &&& c.at(x).kind.out_elems(c.at(x).num_args) == a.at(x).kind.out_elems(a.at(x).num_args)
        &&& (forall|q: int|
            0 <= q < a.at(x).outs.buffers.len() ==> (#[trigger] c.at(x).outs.buffers[q]).dependents
                == a.at(x).outs.buffers[q].dependents)
        &&& (forall|q: int|
            0 <= q < a.at(x).outs.buffers.len() ==> (#[trigger] c.at(x).outs.buffers[q]).buffer.elem()
                == a.at(x).outs.buffers[q].buffer.elem())
    } by {
        assert(b.live(x));
    }
}

/// Zeroing the progress counters preserves the host invariant and the graph
/// structure.
proof fn lemma_reset_wf(v: HostView)
    requires
        v.wf(),
    ensures
        reset_finished(v).wf(),
        same_graph(v, reset_finished(v)),
{
    let post = reset_finished(v);
    assert(forall|c: int| post.live(c) <==> v.live(c));
    assert forall|c: int| post.live(c) implies post.module_wf(c) && post.module_links_wf(c)
        && post.module_dependents_wf(c) by {
        assert(v.live(c));
        assert(v.module_wf(c) && v.module_links_wf(c) && v.module_dependents_wf(c));
        assert(post.at(c).ins == v.at(c).ins);
        assert(post.at(c).outs == v.at(c).outs);
        assert(post.at(c).kind == v.at(c).kind);
        lemma_names_wf_transfer(v.at(c).ins, post.at(c).ins);
        lemma_names_wf_transfer(v.at(c).outs, post.at(c).outs);
        assert forall|q: int|
            0 <= q < post.at(c).ins.buffers.len() implies ((#[trigger] post.at(c).ins.buffers[q])
            matches BufferInPortView::OutBuffer(h) ==> {
            &&& post.valid_out(h)
            &&& post.out_port(h).dependents.contains(in_handle_of(c, q, h.ty.elem))
        }) by {
            match post.at(c).ins.buffers[q] {
                BufferInPortView::OutBuffer(h) => {
                    assert(v.valid_out(h));
                    assert(post.at(h.module_handle.idx as int).outs == v.at(
                        h.module_handle.idx as int,
                    ).outs);
                },
                BufferInPortView::Constant(_) => {},
            }
        }
        assert forall|q: int|
            0 <= q < post.at(c).outs.buffers.len() implies {
            let dep = (#[trigger] post.at(c).outs.buffers[q]).dependents;
            let e = post.at(c).outs.buffers[q].buffer.elem();
            &&& (forall|j: int|
                0 <= j < dep.len() ==> {
                    &&& post.valid_in(#[trigger] dep[j])
                    &&& dep[j].ty.elem == e
                    &&& post.in_port(dep[j]) == BufferInPortView::OutBuffer(out_handle_of(c, q, e))
                })
            &&& (forall|j1: int, j2: int| 0 <= j1 < j2 < dep.len() ==> dep[j1] != dep[j2])
        } by {
            let dep = post.at(c).outs.buffers[q].dependents;
            assert forall|j: int| 0 <= j < dep.len() implies {
                &&& post.valid_in(#[trigger] dep[j])
                &&& dep[j].ty.elem == post.at(c).outs.buffers[q].buffer.elem()
                &&& post.in_port(dep[j]) == BufferInPortView::OutBuffer(
                    out_handle_of(c, q, post.at(c).outs.buffers[q].buffer.elem()),
                )
            } by {
                assert(v.valid_in(dep[j]));
                assert(post.at(dep[j].module_handle.idx as int).ins == v.at(
                    dep[j].module_handle.idx as int,
                ).ins);
            }
        }
    }
    assert forall|i: int|
        0 <= i < post.module_names.len() implies post.live(
        (#[trigger] post.module_names[i]).1.idx as int,
    ) by {
        assert(v.live(v.module_names[i].1.idx as int));
    }
    assert(post.at(post.output_handle.idx as int).kind == v.at(v.output_handle.idx as int).kind);
}

/// Processing one module preserves the host invariant and the graph
/// structure.
#[verifier::rlimit(100)]
#[verifier::spinoff_prover]
proof fn lemma_process_one_wf(v: HostView, m: int, now: u64)
    requires
        v.wf(),
        v.live(m),
    ensures
        process_one_spec(v, m, now).wf(),
        same_graph(v, process_one_spec(v, m, now)),
{
    let post = process_one_spec(v, m, now);
    let mv = v.at(m);
    let outs_before = Seq::new(mv.outs.buffers.len(), |q: int| mv.outs.buffers[q].buffer);
    assert(v.module_wf(m));
    assert forall|k: int|
        0 <= k < outs_before.len() implies (#[trigger] outs_before[k]).elem() == mv.kind.out_elems(
        mv.num_args,
    )[k] && outs_before[k].wf() by {}
    lemma_kind_fill_preserves(mv.kind, mv.num_args, gather_spec(v, m), outs_before, now);
    let k2 = kind_fill_spec(mv.kind, mv.num_args, gather_spec(v, m), outs_before, now).0;
    let outs2 = kind_fill_spec(mv.kind, mv.num_args, gather_spec(v, m), outs_before, now).1;
    // pointwise characterization
    assert(post.modules.len() == v.modules.len());
    assert(forall|c: int| post.live(c) <==> v.live(c));
    assert forall|c: int| v.live(c) implies {
        &&& (#[trigger] post.at(c)).num_args == v.at(c).num_args
        &&& post.at(c).num_dependencies == v.at(c).num_dependencies
        &&& post.at(c).ins == v.at(c).ins
        &&& post.at(c).outs.dir == v.at(c).outs.dir
        &&& post.at(c).outs.num_args == v.at(c).outs.num_args
        &&& post.at(c).outs.names == v.at(c).outs.names
        &&& post.at(c).outs.buffers.len() == v.at(c).outs.buffers.len()
        &&& post.at(c).kind == (if c == m {
            k2
        } else {
            v.at(c).kind
        })
        &&& (forall|q: int|
            0 <= q < v.at(c).outs.buffers.len() ==> (#[trigger] post.at(c).outs.buffers[q]).dependents
                == v.at(c).outs.buffers[q].dependents)
        &&& (forall|q: int|
            0 <= q < v.at(c).outs.buffers.len() ==> (#[trigger] post.at(c).outs.buffers[q]).buffer
                == (if c == m {
                outs2[q]
            } else {
                v.at(c).outs.buffers[q].buffer
            }))
    } by {}
    // every live module stays well formed
    assert forall|c: int| post.live(c) implies post.module_wf(c) by {
        assert(v.live(c));
        assert(v.module_wf(c));
        lemma_names_wf_transfer(v.at(c).ins, post.at(c).ins);
        lemma_names_wf_transfer(v.at(c).outs, post.at(c).outs);
        assert forall|q: int|
            0 <= q < post.at(c).outs.buffers.len() implies (#[trigger] post.at(
            c,
        ).outs.buffers[q]).buffer.elem() == post.at(c).kind.out_elems(post.at(c).num_args)[q]
            && post.at(c).outs.buffers[q].buffer.wf() by {
            if c != m {
                assert(post.at(c).outs.buffers[q].buffer == v.at(c).outs.buffers[q].buffer);
            }
        }
        assert(post.at(c).ins =~= v.at(c).ins);
        assert(post.at(c).num_dependencies == count_linked(post.at(c).ins.buffers));
    }
    // links stay bidirectionally consistent
    assert forall|c: int| post.live(c) implies post.module_links_wf(c) by {
        assert(v.live(c) && v.module_links_wf(c));
        assert forall|q: int|
            0 <= q < post.at(c).ins.buffers.len() implies ((#[trigger] post.at(c).ins.buffers[q])
            matches BufferInPortView::OutBuffer(h) ==> {
            &&& post.valid_out(h)
            &&& post.out_port(h).dependents.contains(in_handle_of(c, q, h.ty.elem))
        }) by {
            match post.at(c).ins.buffers[q] {
                BufferInPortView::OutBuffer(h) => {
                    assert(v.at(c).ins.buffers[q] == post.at(c).ins.buffers[q]);
                    assert(v.valid_out(h));
                    let hm = h.module_handle.idx as int;
                    let hq = h.buf_handle.idx as int;
                    assert(post.at(hm).outs.buffers[hq].buffer.elem() == v.at(
                        hm,
                    ).outs.buffers[hq].buffer.elem());
                    assert(post.out_port(h).dependents == v.out_port(h).dependents);
                },
                BufferInPortView::Constant(_) => {},
            }
        }
    }
    // subscriber entries stay consistent
    assert forall|c: int| post.live(c) implies post.module_dependents_wf(c) by {
        assert(v.live(c) && v.module_dependents_wf(c));
        assert forall|q: int|
            0 <= q < post.at(c).outs.buffers.len() implies {
            let dep = (#[trigger] post.at(c).outs.buffers[q]).dependents;
            let e = post.at(c).outs.buffers[q].buffer.elem();
            &&& (forall|j: int|
                0 <= j < dep.len() ==> {
                    &&& post.valid_in(#[trigger] dep[j])
                    &&& dep[j].ty.elem == e
                    &&& post.in_port(dep[j]) == BufferInPortView::OutBuffer(out_handle_of(c, q, e))
                })
            &&& (forall|j1: int, j2: int| 0 <= j1 < j2 < dep.len() ==> dep[j1] != dep[j2])
        } by {
            let dep = post.at(c).outs.buffers[q].dependents;
            let e = post.at(c).outs.buffers[q].buffer.elem();
            assert(dep == v.at(c).outs.buffers[q].dependents);
            assert(e == v.at(c).outs.buffers[q].buffer.elem());
            assert forall|j: int| 0 <= j < dep.len() implies {
                &&& post.valid_in(#[trigger] dep[j])
                &&& dep[j].ty.elem == e
                &&& post.in_port(dep[j]) == BufferInPortView::OutBuffer(out_handle_of(c, q, e))
            } by {
                assert(v.valid_in(dep[j]));
                assert(post.at(dep[j].module_handle.idx as int).ins == v.at(
                    dep[j].module_handle.idx as int,
                ).ins);
            }
        }
    }
    assert forall|i: int|
        0 <= i < post.module_names.len() implies post.live(
        (#[trigger] post.module_names[i]).1.idx as int,
    ) by {
        assert(v.live(v.module_names[i].1.idx as int));
    }
    assert(post.at(post.output_handle.idx as int).kind is AudioOut) by {
        if post.output_handle.idx as int == m {
            assert(v.at(m).kind is AudioOut);
        }
    }
}

/// The subscriber index of a well-formed host is bidirectionally
/// consistent: an in-port linked to an out-port appears in that out-port's
/// subscriber list exactly once, and every subscriber entry points back at
/// an in-port that is linked to exactly that out-port.  Every mutation of
/// the host keeps `wf`, so this holds after any sequence of operations.
pub proof fn lemma_subscriber_index_consistent(v: HostView, c: int, q: int)
    requires
        v.wf(),
        v.live(c),
        0 <= q < v.at(c).ins.buffers.len(),
    ensures
        (v.at(c).ins.buffers[q] matches BufferInPortView::OutBuffer(h) ==> {
            let deps = v.out_port(h).dependents;
            let ih = in_handle_of(c, q, h.ty.elem);
            &&& v.valid_out(h)
            &&& deps.contains(ih)
            &&& forall|k1: int, k2: int|
                0 <= k1 < deps.len() && 0 <= k2 < deps.len() && deps[k1] == ih && deps[k2] == ih
                    ==> k1 == k2
        }),
{
    assert(v.module_links_wf(c));
    match v.at(c).ins.buffers[q] {
        BufferInPortView::OutBuffer(h) => {
            assert(v.valid_out(h));
            assert(v.module_dependents_wf(h.module_handle.idx as int));
            let deps = v.out_port(h).dependents;
            assert forall|k1: int, k2: int|
                0 <= k1 < deps.len() && 0 <= k2 < deps.len() && deps[k1] == in_handle_of(
                    c,
                    q,
                    h.ty.elem,
                ) && deps[k2] == in_handle_of(c, q, h.ty.elem) implies k1 == k2 by {
                if k1 < k2 {
                    assert(deps[k1] != deps[k2]);
                } else if k2 < k1 {
                    assert(deps[k2] != deps[k1]);
                }
            }
        },
        BufferInPortView::Constant(_) => {},
    }
}

/// Every subscriber entry of a well-formed host points back at an in-port
/// linked to exactly the listing out-port — the other direction of the
/// bidirectional index.
pub proof fn lemma_subscribers_point_back(v: HostView, m: int, p: int)
    requires
        v.wf(),
        v.live(m),
        0 <= p < v.at(m).outs.buffers.len(),
    ensures
        ({
            let dep = v.at(m).outs.buffers[p].dependents;
            let e = v.at(m).outs.buffers[p].buffer.elem();
            forall|k: int|
                0 <= k < dep.len() ==> v.valid_in(#[trigger] dep[k]) && v.in_port(dep[k])
                    == BufferInPortView::OutBuffer(out_handle_of(m, p, e))
        }),
{
    assert(v.module_dependents_wf(m));
}

/// In a well-formed host every module's dependency count equals the number
/// of its linked in-ports.  Every mutation of the host keeps `wf`, so this
/// holds after any sequence of operations.
pub proof fn lemma_dependency_count(v: HostView, m: int)
    requires
        v.wf(),
        v.live(m),
    ensures
        v.at(m).num_dependencies == count_linked(v.at(m).ins.buffers),
{
    assert(v.module_wf(m));
}

/// Setting an in-port leaves the port layout (counts and element kinds) of
/// every module unchanged.
#[verifier::rlimit(100)]
#[verifier::spinoff_prover]
proof fn lemma_sbi_frame(v: HostView, m: int, p: int, newp: BufferInPortView)
    requires
        v.wf(),
        v.live(m),
        0 <= p < v.at(m).ins.buffers.len(),
        newp.elem() == v.at(m).ins.buffers[p].elem(),
        (newp matches BufferInPortView::OutBuffer(h) ==> {
            &&& v.live(h.module_handle.idx as int)
            &&& h.ty.dir == BufferDirEnum::Out
            &&& h.buf_handle.idx < v.at(h.module_handle.idx as int).outs.buffers.len()
        }),
    ensures
        ({
            let post = sbi_spec(v, m, p, newp);
            &&& post.modules.len() == v.modules.len()
            &&& (forall|c: int| post.live(c) <==> v.live(c))
            &&& (forall|c: int|
                v.live(c) ==> (#[trigger] post.at(c)).ins.buffers.len() == v.at(
                    c,
                ).ins.buffers.len() && post.at(c).outs.buffers.len() == v.at(c).outs.buffers.len()
                    && post.at(c).num_args == v.at(c).num_args)
            &&& (forall|c: int, q: int|
                v.live(c) && 0 <= q < v.at(c).ins.buffers.len() ==> (#[trigger] post.at(
                    c,
                ).ins.buffers[q]).elem() == v.at(c).ins.buffers[q].elem())
            &&& (forall|c: int, q: int|
                v.live(c) && 0 <= q < v.at(c).outs.buffers.len() ==> (#[trigger] post.at(
                    c,
                ).outs.buffers[q]).buffer.elem() == v.at(c).outs.buffers[q].buffer.elem())
            &&& post.groups == v.groups
            &&& post.group_names == v.group_names
            &&& post.module_names == v.module_names
        }),
{
    let post = sbi_spec(v, m, p, newp);
    let oldp = v.at(m).ins.buffers[p];
    let elem = oldp.elem();
    let ih = in_handle_of(m, p, elem);
    let old_linked = oldp.is_linked();
    let new_linked = newp.is_linked();
    let hs = oldp.src();
    let mo = hs.module_handle.idx as int;
    let po = hs.buf_handle.idx as int;
    let hn = newp.src();
    let mn = hn.module_handle.idx as int;
    let pn = hn.buf_handle.idx as int;
    if old_linked {
        assert(v.module_links_wf(m));
        assert(v.valid_out(hs));
        assert(v.out_port(hs).dependents.contains(ih));
        assert(v.module_dependents_wf(mo));
    }
    let deps_o = v.at(mo).outs.buffers[po].dependents;
    let k = choose|k: int| 0 <= k < deps_o.len() && deps_o[k] == ih;
    if old_linked {
        assert(0 <= k < deps_o.len() && deps_o[k] == ih);
    }
    assert forall|c: int| v.live(c) implies {
        &&& (#[trigger] post.at(c)).num_args == v.at(c).num_args
        &&& post.at(c).ins.buffers == (if c == m {
            v.at(m).ins.buffers.update(p, newp)
        } else {
            v.at(c).ins.buffers
        })
        &&& post.at(c).outs.buffers.len() == v.at(c).outs.buffers.len()
        &&& (forall|q: int|
            0 <= q < v.at(c).outs.buffers.len() ==> (#[trigger] post.at(c).outs.buffers[q]).buffer
                == v.at(c).outs.buffers[q].buffer)
    } by {}
    assert forall|c: int, q: int|
        v.live(c) && 0 <= q < v.at(c).ins.buffers.len() implies (#[trigger] post.at(
        c,
    ).ins.buffers[q]).elem() == v.at(c).ins.buffers[q].elem() by {
        if c == m && q == p {
        } else if c == m {
            assert(post.at(c).ins.buffers[q] == v.at(m).ins.buffers.update(p, newp)[q]);
        } else {
            assert(post.at(c).ins.buffers[q] == v.at(c).ins.buffers[q]);
        }
    }
    assert forall|c: int, q: int|
        v.live(c) && 0 <= q < v.at(c).outs.buffers.len() implies (#[trigger] post.at(
        c,
    ).outs.buffers[q]).buffer.elem() == v.at(c).outs.buffers[q].buffer.elem() by {
        assert(post.at(c).outs.buffers[q].buffer == v.at(c).outs.buffers[q].buffer);
    }
}

/// The host after element-wise linking of the first `k` pairs of out- and
/// in-port handles, each link performed as by [`Host::link`].
pub open spec fn link_group_fold(
    v: HostView,
    outs: Seq<ModuleBufferHandle>,
    ins: Seq<ModuleBufferHandle>,
    k: int,
) -> HostView
    decreases k,
{
    if k <= 0 {
        v
    } else {
        let v1 = link_group_fold(v, outs, ins, k - 1);
        let o = outs[k - 1];
        let i = ins[k - 1];
        let oe = v1.at(o.module_handle.idx as int).outs.buffers[o.buf_handle.idx as int].buffer.elem();
        sbi_spec(
            v1,
            i.module_handle.idx as int,
            i.buf_handle.idx as int,
            BufferInPortView::OutBuffer(
                out_handle_of(o.module_handle.idx as int, o.buf_handle.idx as int, oe),
            ),
        )
    }
}

/// The host after the first `k` in-port handles were set to a constant
/// block of `valv`, each as by [`Host::link_value`].
pub open spec fn link_value_fold(
    v: HostView,
    valv: crate::ports::ElemValueView,
    ins: Seq<ModuleBufferHandle>,
    k: int,
) -> HostView
    decreases k,
{
    if k <= 0 {
        v
    } else {
        let v1 = link_value_fold(v, valv, ins, k - 1);
        let i = ins[k - 1];
        sbi_spec(
            v1,
            i.module_handle.idx as int,
            i.buf_handle.idx as int,
            BufferInPortView::constant_of(valv),
        )
    }
}

/// A name table stays well formed over a port store of unchanged size.
proof fn lemma_names_wf_transfer<PV>(a: PortsView<PV>, b: PortsView<PV>)
    requires
        a.names_wf(),
        b.names == a.names,
        b.buffers.len() == a.buffers.len(),
        b.num_args == a.num_args,
    ensures
        b.names_wf(),
{
    assert forall|i: int| 0 <= i < b.names.len() implies b.entry_in_range(#[trigger] b.names[i]) by {
        assert(a.entry_in_range(a.names[i]));
    }
}

/// Setting an in-port preserves the host invariant.
#[verifier::rlimit(100)]
#[verifier::spinoff_prover]
proof fn lemma_sbi_wf(v: HostView, m: int, p: int, newp: BufferInPortView)
    requires
        v.wf(),
        v.live(m),
        0 <= p < v.at(m).ins.buffers.len(),
        newp.elem() == v.at(m).ins.buffers[p].elem(),
        (newp matches BufferInPortView::Constant(b) ==> b.wf()),
        (newp matches BufferInPortView::OutBuffer(h) ==> {
            &&& v.live(h.module_handle.idx as int)
            &&& h.ty.dir == BufferDirEnum::Out
            &&& h.buf_handle.idx < v.at(h.module_handle.idx as int).outs.buffers.len()
            &&& h.ty.elem == v.at(
                h.module_handle.idx as int,
            ).outs.buffers[h.buf_handle.idx as int].buffer.elem()
            &&& h == out_handle_of(h.module_handle.idx as int, h.buf_handle.idx as int, h.ty.elem)
        }),
    ensures
        sbi_spec(v, m, p, newp).wf(),
{
    let post = sbi_spec(v, m, p, newp);
    let oldp = v.at(m).ins.buffers[p];
    let elem = oldp.elem();
    let ih = in_handle_of(m, p, elem);
    let old_linked = oldp.is_linked();
    let new_linked = newp.is_linked();
    let hs = oldp.src();
    let mo = hs.module_handle.idx as int;
    let po = hs.buf_handle.idx as int;
    let hn = newp.src();
    let mn = hn.module_handle.idx as int;
    let pn = hn.buf_handle.idx as int;
    if old_linked {
        assert(v.module_links_wf(m));
        assert(v.valid_out(hs));
        assert(v.out_port(hs).dependents.contains(ih));
        assert(hs.ty.elem == elem);
    }
    let deps_o = v.at(mo).outs.buffers[po].dependents;
    let k = choose|k: int| 0 <= k < deps_o.len() && deps_o[k] == ih;
    if old_linked {
        assert(0 <= k < deps_o.len() && deps_o[k] == ih);
        assert(v.module_dependents_wf(mo));
    }
    // Characterize the composite state pointwise.
    assert(post.modules.len() == v.modules.len());
    assert(forall|c: int| post.live(c) <==> v.live(c));
    assert forall|c: int| v.live(c) implies {
        &&& (#[trigger] post.at(c)).kind == v.at(c).kind
        &&& post.at(c).num_args == v.at(c).num_args
        &&& post.at(c).num_finished_dependencies == v.at(c).num_finished_dependencies
        &&& post.at(c).ins.dir == v.at(c).ins.dir
        &&& post.at(c).ins.num_args == v.at(c).ins.num_args
        &&& post.at(c).ins.names == v.at(c).ins.names
        &&& post.at(c).outs.dir == v.at(c).outs.dir
        &&& post.at(c).outs.num_args == v.at(c).outs.num_args
        &&& post.at(c).outs.names == v.at(c).outs.names
        &&& post.at(c).ins.buffers == (if c == m {
            v.at(m).ins.buffers.update(p, newp)
        } else {
            v.at(c).ins.buffers
        })
        &&& post.at(c).num_dependencies == (if c == m {
            if old_linked && !new_linked {
                (v.at(m).num_dependencies - 1) as usize
            } else if !old_linked && new_linked {
                (v.at(m).num_dependencies + 1) as usize
            } else {
                v.at(m).num_dependencies
            }
        } else {
            v.at(c).num_dependencies
        })
        &&& post.at(c).outs.buffers.len() == v.at(c).outs.buffers.len()
        &&& (forall|q: int|
            0 <= q < v.at(c).outs.buffers.len() ==> (#[trigger] post.at(c).outs.buffers[q]).buffer
                == v.at(c).outs.buffers[q].buffer)
        &&& (forall|q: int|
            0 <= q < v.at(c).outs.buffers.len() ==> (#[trigger] post.at(c).outs.buffers[q]).dependents
                == {
                let base = if old_linked && c == mo && q == po {
                    deps_o.remove(k)
                } else {
                    v.at(c).outs.buffers[q].dependents
                };
                if new_linked && c == mn && q == pn {
                    base.push(ih)
                } else {
                    base
                }
            })
    } by {}
    // Dependency counts.
    assert(v.module_wf(m));
    lemma_count_linked_update(v.at(m).ins.buffers, p, newp);
    if old_linked {
        lemma_count_linked_at(v.at(m).ins.buffers, p);
    } else {
        lemma_count_linked_missing(v.at(m).ins.buffers, p);
    }
    lemma_count_linked_le(v.at(m).ins.buffers);
    // module_wf for every live module.
    assert forall|c: int| post.live(c) implies post.module_wf(c) by {
        assert(v.live(c));
        assert(v.module_wf(c));
        lemma_names_wf_transfer(v.at(c).ins, post.at(c).ins);
        lemma_names_wf_transfer(v.at(c).outs, post.at(c).outs);
        assert forall|q: int|
            0 <= q < post.at(c).outs.buffers.len() implies (#[trigger] post.at(
            c,
        ).outs.buffers[q]).buffer.elem() == post.at(c).kind.out_elems(post.at(c).num_args)[q]
            && post.at(c).outs.buffers[q].buffer.wf() by {
            assert(post.at(c).outs.buffers[q].buffer == v.at(c).outs.buffers[q].buffer);
        }
        if c == m {
            assert(post.at(m).ins.buffers[p].elem() == v.at(m).kind.in_elems(v.at(m).num_args)[p]);
            assert forall|q: int|
                0 <= q < post.at(m).ins.buffers.len() implies (#[trigger] post.at(
                m,
            ).ins.buffers[q]).elem() == post.at(m).kind.in_elems(post.at(m).num_args)[q] && (
            post.at(m).ins.buffers[q] matches BufferInPortView::Constant(b) ==> b.wf()) by {
                if q != p {
                    assert(post.at(m).ins.buffers[q] == v.at(m).ins.buffers[q]);
                }
            }
            assert(post.at(m).ins.buffers == v.at(m).ins.buffers.update(p, newp));
            assert(post.at(m).num_dependencies == count_linked(post.at(m).ins.buffers));
        } else {
            assert(post.at(c).ins.buffers == v.at(c).ins.buffers);
            assert(post.at(c).num_dependencies == count_linked(post.at(c).ins.buffers));
        }
    }
    // module_links_wf for every live module.
    assert forall|c: int| post.live(c) implies post.module_links_wf(c) by {
        assert(v.live(c) && v.module_links_wf(c));
        assert forall|q: int|
            0 <= q < post.at(c).ins.buffers.len() implies ((#[trigger] post.at(c).ins.buffers[q])
            matches BufferInPortView::OutBuffer(h) ==> {
            &&& post.valid_out(h)
            &&& post.out_port(h).dependents.contains(in_handle_of(c, q, h.ty.elem))
        }) by {
            match post.at(c).ins.buffers[q] {
                BufferInPortView::OutBuffer(h) => {
                    if c == m && q == p {
                        // the freshly installed link
                        assert(h == hn);
                        assert(post.valid_out(h));
                        let dep_new = post.out_port(hn).dependents;
                        assert(dep_new.last() == ih);
                        assert(in_handle_of(m, p, hn.ty.elem) == ih);
                        assert(dep_new.contains(ih));
                    } else {
                        // an untouched link
                        assert(v.at(c).ins.buffers[q] == post.at(c).ins.buffers[q]);
                        assert(v.valid_out(h));
                        assert(post.valid_out(h));
                        let ihc = in_handle_of(c, q, h.ty.elem);
                        assert(v.out_port(h).dependents.contains(ihc));
                        let hm = h.module_handle.idx as int;
                        let hq = h.buf_handle.idx as int;
                        assert(ihc.module_handle.idx == c && ihc.buf_handle.idx == q);
                        assert(ih.module_handle.idx == m && ih.buf_handle.idx == p);
                        assert(ihc != ih);
                        let base = if old_linked && hm == mo && hq == po {
                            deps_o.remove(k)
                        } else {
                            v.at(hm).outs.buffers[hq].dependents
                        };
                        if old_linked && hm == mo && hq == po {
                            lemma_remove_contains_other(deps_o, k, ihc);
                        }
                        assert(base.contains(ihc));
                        if new_linked && hm == mn && hq == pn {
                            let j = choose|j: int| 0 <= j < base.len() && base[j] == ihc;
                            assert(base.push(ih)[j] == ihc);
                            assert(base.push(ih).contains(ihc));
                        }
                        assert(post.out_port(h).dependents.contains(ihc));
                    }
                },
                BufferInPortView::Constant(_) => {},
            }
        }
    }
    // module_dependents_wf for every live module.
    assert forall|c: int| post.live(c) implies post.module_dependents_wf(c) by {
        assert(v.live(c) && v.module_dependents_wf(c));
        assert forall|q: int|
            0 <= q < post.at(c).outs.buffers.len() implies {
            let dep = (#[trigger] post.at(c).outs.buffers[q]).dependents;
            let e = post.at(c).outs.buffers[q].buffer.elem();
            &&& (forall|j: int|
                0 <= j < dep.len() ==> {
                    &&& post.valid_in(#[trigger] dep[j])
                    &&& dep[j].ty.elem == e
                    &&& post.in_port(dep[j]) == BufferInPortView::OutBuffer(out_handle_of(c, q, e))
                })
            &&& (forall|j1: int, j2: int| 0 <= j1 < j2 < dep.len() ==> dep[j1] != dep[j2])
        } by {
            let e = v.at(c).outs.buffers[q].buffer.elem();
            let pre_dep = v.at(c).outs.buffers[q].dependents;
            assert(post.at(c).outs.buffers[q].buffer == v.at(c).outs.buffers[q].buffer);
            let base = if old_linked && c == mo && q == po {
                deps_o.remove(k)
            } else {
                pre_dep
            };
            let dep = if new_linked && c == mn && q == pn {
                base.push(ih)
            } else {
                base
            };
            assert(post.at(c).outs.buffers[q].dependents == dep);
            // every base entry is a pre entry other than the removed one,
            // is valid, and does not point at (m, p)
            assert forall|j: int| 0 <= j < base.len() implies {
                &&& post.valid_in(#[trigger] base[j])
                &&& base[j].ty.elem == e
                &&& post.in_port(base[j]) == BufferInPortView::OutBuffer(out_handle_of(c, q, e))
                &&& base[j] != ih
            } by {
                let j0 = if old_linked && c == mo && q == po {
                    if j < k {
                        j
                    } else {
                        j + 1
                    }
                } else {
                    j
                };
                assert(0 <= j0 < pre_dep.len() && pre_dep[j0] == base[j]);
                assert(old_linked && c == mo && q == po ==> j0 != k);
                let d = base[j];
                assert(v.valid_in(d));
                assert(d.ty.elem == e);
                assert(v.in_port(d) == BufferInPortView::OutBuffer(out_handle_of(c, q, e)));
                // d never points at the updated in-port (m, p)
                if d.module_handle.idx == m && d.buf_handle.idx == p {
                    // then (m, p) was linked to (c, q), so this is the old
                    // producer and d is the removed entry
                    assert(oldp == BufferInPortView::OutBuffer(out_handle_of(c, q, e)));
                    assert(old_linked);
                    assert(hs == out_handle_of(c, q, e));
                    assert(c == mo && q == po);
                    assert(d.ty.dir == BufferDirEnum::In);
                    assert(d.ty.elem == e);
                    assert(elem == hs.ty.elem);
                    assert(d == ih);
                    assert(pre_dep[j0] == ih && pre_dep[k] == ih && j0 != k);
                    assert(false);
                }
                assert(post.in_port(d) == v.in_port(d));
                assert(post.valid_in(d));
                if d == ih {
                    assert(d.module_handle.idx == m && d.buf_handle.idx == p);
                    assert(false);
                }
            }
            // base stays duplicate-free
            if old_linked && c == mo && q == po {
                lemma_remove_nodup(pre_dep, k);
            }
            if new_linked && c == mn && q == pn {
                // the pushed entry is fresh and valid
                assert(!base.contains(ih)) by {
                    if base.contains(ih) {
                        let j = choose|j: int| 0 <= j < base.len() && base[j] == ih;
                        assert(base[j] != ih);
                    }
                }
                assert forall|j1: int, j2: int|
                    0 <= j1 < j2 < dep.len() implies dep[j1] != dep[j2] by {
                    if j2 == dep.len() - 1 {
                        assert(dep[j2] == ih);
                        assert(dep[j1] == base[j1]);
                        if base[j1] == ih {
                            assert(base.contains(ih));
                        }
                    }
                }
                assert(e == hn.ty.elem);
                assert forall|j: int| 0 <= j < dep.len() implies {
                    &&& post.valid_in(#[trigger] dep[j])
                    &&& dep[j].ty.elem == e
                    &&& post.in_port(dep[j]) == BufferInPortView::OutBuffer(
                        out_handle_of(c, q, e),
                    )
                } by {
                    if j == dep.len() - 1 {
                        assert(dep[j] == ih);
                        assert(post.in_port(ih) == newp);
                        assert(newp == BufferInPortView::OutBuffer(hn));
                        assert(hn == out_handle_of(c, q, e));
                    } else {
                        assert(dep[j] == base[j]);
                    }
                }
            }
        }
    }
    assert forall|i: int|
        0 <= i < post.module_names.len() implies post.live(
        (#[trigger] post.module_names[i]).1.idx as int,
    ) by {
        assert(v.live(v.module_names[i].1.idx as int));
    }
    assert(post.at(post.output_handle.idx as int).kind == v.at(v.output_handle.idx as int).kind);
}

/// A freshly built module: consistent ports, no links yet, no subscribers,
/// zero counters.
pub open spec fn fresh_module_wf(mv: ModuleView) -> bool {
    &&& mv.ins.buffers.len() <= usize::MAX
    &&& mv.outs.buffers.len() <= usize::MAX
    &&& mv.ins.dir == BufferDirEnum::In
    &&& mv.outs.dir == BufferDirEnum::Out
    &&& mv.ins.num_args == mv.num_args
    &&& mv.outs.num_args == mv.num_args
    &&& mv.ins.names_wf()
    &&& mv.outs.names_wf()
    &&& mv.kind.wf(mv.num_args)
    &&& mv.ins.buffers.len() == mv.kind.in_elems(mv.num_args).len()
    &&& mv.outs.buffers.len() == mv.kind.out_elems(mv.num_args).len()
    &&& (forall|p: int|
        0 <= p < mv.ins.buffers.len() ==> (#[trigger] mv.ins.buffers[p]).elem()
            == mv.kind.in_elems(mv.num_args)[p])
    &&& (forall|p: int|
        0 <= p < mv.outs.buffers.len() ==> (#[trigger] mv.outs.buffers[p]).buffer.elem()
            == mv.kind.out_elems(mv.num_args)[p])
    &&& (forall|p: int|
        0 <= p < mv.ins.buffers.len() ==> ((#[trigger] mv.ins.buffers[p]) matches
            BufferInPortView::Constant(b) && b.wf()))
    &&& (forall|p: int| 0 <= p < mv.outs.buffers.len() ==> (#[trigger] mv.outs.buffers[p]).buffer.wf())
    &&& (forall|p: int|
        0 <= p < mv.outs.buffers.len() ==> (#[trigger] mv.outs.buffers[p]).dependents
            == Seq::<ModuleBufferHandle>::empty())
    &&& mv.num_dependencies == 0
    &&& mv.num_finished_dependencies == 0
}

/// The module a descriptor and an initial kind state assemble into.
pub open spec fn descriptor_module_view(
    kind: ModuleKindView,
    num_args: usize,
    ins: Seq<InDeclView>,
    outs: Seq<OutDeclView>,
) -> ModuleView {
    ModuleView {
        kind,
        num_args,
        num_dependencies: 0,
        num_finished_dependencies: 0,
        ins: PortsView {
            dir: BufferDirEnum::In,
            num_args,
            buffers: in_slots_of(ins, num_args),
            names: in_names_of(ins, num_args),
        },
        outs: PortsView {
            dir: BufferDirEnum::Out,
            num_args,
            buffers: out_slots_of(outs, num_args),
            names: out_names_of(outs, num_args),
        },
    }
}

/// The module that [`Host::create_variadic_module`] builds from settings.
pub open spec fn settings_module_view(
    s: crate::modules::ModuleSettingsView,
    num_args: usize,
) -> ModuleView {
    match s {
        crate::modules::ModuleSettingsView::Op(op) => descriptor_module_view(
            ModuleKindView::Op(
                Op {
                    op,
                    signal_in: VariadicBufferHandle {
                        num_args,
                        buffer: BufferHandle { idx: 0 },
                    },
                    signal_out: BufferHandle { idx: 0 },
                },
            ),
            num_args,
            op_ins(op),
            op_outs(),
        ),
        crate::modules::ModuleSettingsView::Envelope(st) => descriptor_module_view(
            ModuleKindView::Envelope(
                Envelope {
                    midi_in: BufferHandle { idx: 0 },
                    signal_in: BufferHandle { idx: 1 },
                    signal_out: BufferHandle { idx: 0 },
                    settings: st,
                    state: EnvState {
                        stage: EnvelopeStage::Silence,
                        time_elapsed: 0,
                        num_notes: 0,
                        release_amplitude: 0,
                    },
                },
            ),
            num_args,
            envelope_ins(),
            envelope_outs(),
        ),
        crate::modules::ModuleSettingsView::MidiSlider(st) => descriptor_module_view(
            ModuleKindView::MidiSlider(
                MidiSlider {
                    midi_in: BufferHandle { idx: 0 },
                    signal_out: BufferHandle { idx: 0 },
                    settings: st,
                    range: crate::sample::sat_sub_spec(st.max as int, st.min as int) as i64,
                    current_val: st.default,
                },
            ),
            num_args,
            slider_ins(),
            slider_outs(),
        ),
        crate::modules::ModuleSettingsView::MidiPoly => descriptor_module_view(
            ModuleKindView::MidiPoly(
                MidiPolyView {
                    notes: Seq::empty(),
                    port_order: Seq::new(num_args as nat, |i: int| i as usize),
                    midi_in: BufferHandle { idx: 0 },
                    midi_out: VariadicBufferHandle {
                        num_args,
                        buffer: BufferHandle { idx: 0 },
                    },
                },
            ),
            num_args,
            poly_ins(),
            poly_outs(),
        ),
        crate::modules::ModuleSettingsView::MidiInput => descriptor_module_view(
            ModuleKindView::MidiInput(
                MidiInputView {
                    buf_out: BufferHandle { idx: 0 },
                    start_time_micros: 0,
                    event_queue: Seq::empty(),
                },
            ),
            num_args,
            Seq::empty(),
            midi_input_outs(),
        ),
    }
}

/// Allocate a module's port stores from its descriptor and assemble it.
fn module_from_descriptor(kind: ModuleKind, desc: ModuleDescriptor, num_args: usize) -> (r:
    ModuleResult<ModuleInternals>)
    requires
        desc.wf(),
        desc@.num_args == num_args,
        in_decls_unique(desc@.ins),
        out_decls_unique(desc@.outs),
    ensures
        r is Ok,
        r matches Ok(m) ==> m@ == descriptor_module_view(kind@, num_args, desc@.ins, desc@.outs)
            && m@.ins.names_wf() && m@.outs.names_wf() && m@.ins.buffers.len() <= usize::MAX
            && m@.outs.buffers.len() <= usize::MAX,
{
    let ins_ports = match build_in_ports(&desc) {
        Ok(p) => p,
        Err(e) => {
            proof {
                assert(false);
            }
            return Err(e);
        },
    };
    let outs_ports = match build_out_ports(&desc) {
        Ok(p) => p,
        Err(e) => {
            proof {
                assert(false);
            }
            return Err(e);
        },
    };
    let n_in = ins_ports.buffers.len();
    let n_out = outs_ports.buffers.len();
    let module = ModuleInternals {
        kind,
        num_args,
        buf_in: ModuleBuffersInInternal {
            num_dependencies: 0,
            num_finished_dependencies: 0,
            ports: ins_ports,
        },
        buf_out: ModuleBuffersOutInternal { ports: outs_ports },
    };
    proof {
        assert(module@.ins.buffers.len() == n_in);
        assert(module@.outs.buffers.len() == n_out);
        assert(module@ =~= descriptor_module_view(kind@, num_args, desc@.ins, desc@.outs));
    }
    Ok(module)
}

/// Build the module a settings value describes.
fn build_module(settings: &ModuleSettings, num_args: usize) -> (r: ModuleResult<ModuleInternals>)
    requires
        num_args <= usize::MAX - 8,
    ensures
        r is Ok,
        r matches Ok(m) ==> m@ == settings_module_view(settings@, num_args)
            && fresh_module_wf(m@),
{
    match settings {
        ModuleSettings::Op(op) => {
            let op = *op;
            let built = Op::init(ModuleDescriptor::new(num_args), op);
            proof {
                assert(in_decls_unique(op_ins(op)));
                assert(out_decls_unique(op_outs()));
            }
            let r = module_from_descriptor(
                ModuleKind::Op(built.initial_data),
                built.buffers_descriptors,
                num_args,
            );
            match r {
                Ok(m) => {
                    proof {
                        lemma_op_fresh(op, num_args, m@);
                    }
                    Ok(m)
                },
                Err(e) => {
                    proof {
                        assert(false);
                    }
                    Err(e)
                },
            }
        },
        ModuleSettings::Envelope(st) => {
            let st = *st;
            let built = Envelope::init(ModuleDescriptor::new(num_args), st);
            proof {
                assert(in_decls_unique(envelope_ins()));
                assert(out_decls_unique(envelope_outs()));
            }
            let r = module_from_descriptor(
                ModuleKind::Envelope(built.initial_data),
                built.buffers_descriptors,
                num_args,
            );
            match r {
                Ok(m) => {
                    proof {
                        lemma_envelope_fresh(m@);
                        assert(m@ =~= settings_module_view(
                            crate::modules::ModuleSettingsView::Envelope(st),
                            num_args,
                        ));
                    }
                    Ok(m)
                },
                Err(e) => {
                    proof {
                        assert(false);
                    }
                    Err(e)
                },
            }
        },
        ModuleSettings::MidiSlider(st) => {
            let st = *st;
            let built = MidiSlider::init(ModuleDescriptor::new(num_args), st);
            proof {
                assert(in_decls_unique(slider_ins()));
                assert(out_decls_unique(slider_outs()));
            }
            let r = module_from_descriptor(
                ModuleKind::MidiSlider(built.initial_data),
                built.buffers_descriptors,
                num_args,
            );
            match r {
                Ok(m) => {
                    proof {
                        lemma_single_midi_in_fresh(m@);
                        assert(m@ =~= settings_module_view(
                            crate::modules::ModuleSettingsView::MidiSlider(st),
                            num_args,
                        ));
                    }
                    Ok(m)
                },
                Err(e) => {
                    proof {
                        assert(false);
                    }
                    Err(e)
                },
            }
        },
        ModuleSettings::MidiPoly => {
            let built = MidiPoly::init(ModuleDescriptor::new(num_args));
            proof {
                assert(in_decls_unique(poly_ins()));
                assert(out_decls_unique(poly_outs()));
            }
            let r = module_from_descriptor(
                ModuleKind::MidiPoly(built.initial_data),
                built.buffers_descriptors,
                num_args,
            );
            match r {
                Ok(m) => {
                    proof {
                        lemma_poly_fresh(m@);
                        assert(m@ =~= settings_module_view(
                            crate::modules::ModuleSettingsView::MidiPoly,
                            num_args,
                        ));
                    }
                    Ok(m)
                },
                Err(e) => {
                    proof {
                        assert(false);
                    }
                    Err(e)
                },
            }
        },
        ModuleSettings::MidiInput => {
            let built = MidiInput::init(ModuleDescriptor::new(num_args));
            proof {
                assert(in_decls_unique(Seq::<InDeclView>::empty()));
                assert(out_decls_unique(midi_input_outs()));
            }
            let r = module_from_descriptor(
                ModuleKind::MidiInput(built.initial_data),
                built.buffers_descriptors,
                num_args,
            );
            match r {
                Ok(m) => {
                    proof {
                        lemma_midi_input_fresh(m@);
                        assert(m@ =~= settings_module_view(
                            crate::modules::ModuleSettingsView::MidiInput,
                            num_args,
                        ));
                    }
                    Ok(m)
                },
                Err(e) => {
                    proof {
                        assert(false);
                    }
                    Err(e)
                },
            }
        },
    }
}

/// An envelope module assembled from its descriptor is fresh and well
/// formed.
proof fn lemma_envelope_fresh(mv: ModuleView)
    requires
        mv.kind is Envelope,
        mv.kind.wf(mv.num_args),
        mv.num_dependencies == 0,
        mv.num_finished_dependencies == 0,
        mv.ins == (PortsView {
            dir: BufferDirEnum::In,
            num_args: mv.num_args,
            buffers: in_slots_of(envelope_ins(), mv.num_args),
            names: in_names_of(envelope_ins(), mv.num_args),
        }),
        mv.outs == (PortsView {
            dir: BufferDirEnum::Out,
            num_args: mv.num_args,
            buffers: out_slots_of(envelope_outs(), mv.num_args),
            names: out_names_of(envelope_outs(), mv.num_args),
        }),
        mv.ins.names_wf(),
        mv.outs.names_wf(),
        mv.ins.buffers.len() <= usize::MAX,
        mv.outs.buffers.len() <= usize::MAX,
    ensures
        fresh_module_wf(mv),
{
    assert(envelope_ins().drop_last() =~= seq![
        InDeclView {
            arity: BufferArity::Single,
            name: "in"@,
            default: crate::ports::ElemValueView::Midi(Seq::empty()),
        },
    ]);
    assert(envelope_ins().drop_last().drop_last() =~= Seq::<InDeclView>::empty());
    assert(envelope_outs().drop_last() =~= Seq::<OutDeclView>::empty());
    assert(in_slots_of(Seq::<InDeclView>::empty(), mv.num_args) =~= Seq::<
        BufferInPortView,
    >::empty());
    assert(in_slots_of(envelope_ins().drop_last(), mv.num_args) =~= seq![
        BufferInPortView::Constant(
            const_block_view(crate::ports::ElemValueView::Midi(Seq::empty())),
        ),
    ]);
    assert(in_slots_of(envelope_ins(), mv.num_args) =~= seq![
        BufferInPortView::Constant(
            const_block_view(crate::ports::ElemValueView::Midi(Seq::empty())),
        ),
        BufferInPortView::Constant(const_block_view(crate::ports::ElemValueView::Signal(0))),
    ]);
    assert(out_slots_of(envelope_outs(), mv.num_args) =~= Seq::new(
        1nat,
        |i: int| BufferOutPortView {
            buffer: const_block_view(default_value_of(BufferElemEnum::Signal)),
            dependents: Seq::empty(),
        },
    ));
    assert(forall|p: int|
        0 <= p < mv.ins.buffers.len() ==> !(#[trigger] mv.ins.buffers[p]).is_linked());
    lemma_count_linked_no_links(mv.ins.buffers);
}

/// A slider module assembled from its descriptor is fresh and well formed.
proof fn lemma_single_midi_in_fresh(mv: ModuleView)
    requires
        mv.kind is MidiSlider,
        mv.kind.wf(mv.num_args),
        mv.num_dependencies == 0,
        mv.num_finished_dependencies == 0,
        mv.ins == (PortsView {
            dir: BufferDirEnum::In,
            num_args: mv.num_args,
            buffers: in_slots_of(slider_ins(), mv.num_args),
            names: in_names_of(slider_ins(), mv.num_args),
        }),
        mv.outs == (PortsView {
            dir: BufferDirEnum::Out,
            num_args: mv.num_args,
            buffers: out_slots_of(slider_outs(), mv.num_args),
            names: out_names_of(slider_outs(), mv.num_args),
        }),
        mv.ins.names_wf(),
        mv.outs.names_wf(),
        mv.ins.buffers.len() <= usize::MAX,
        mv.outs.buffers.len() <= usize::MAX,
    ensures
        fresh_module_wf(mv),
{
    assert(slider_ins().drop_last() =~= Seq::<InDeclView>::empty());
    assert(slider_outs().drop_last() =~= Seq::<OutDeclView>::empty());
    assert(in_slots_of(slider_ins(), mv.num_args) =~= Seq::new(
        1nat,
        |i: int|
            BufferInPortView::Constant(
                const_block_view(crate::ports::ElemValueView::Midi(Seq::empty())),
            ),
    ));
    assert(out_slots_of(slider_outs(), mv.num_args) =~= Seq::new(
        1nat,
        |i: int| BufferOutPortView {
            buffer: const_block_view(default_value_of(BufferElemEnum::Signal)),
            dependents: Seq::empty(),
        },
    ));
    assert(forall|p: int|
        0 <= p < mv.ins.buffers.len() ==> !(#[trigger] mv.ins.buffers[p]).is_linked());
    lemma_count_linked_no_links(mv.ins.buffers);
}

/// A polyphony splitter assembled from its descriptor is fresh and well
/// formed.
proof fn lemma_poly_fresh(mv: ModuleView)
    requires
        mv.kind is MidiPoly,
        mv.kind.wf(mv.num_args),
        mv.num_dependencies == 0,
        mv.num_finished_dependencies == 0,
        mv.ins == (PortsView {
            dir: BufferDirEnum::In,
            num_args: mv.num_args,
            buffers: in_slots_of(poly_ins(), mv.num_args),
            names: in_names_of(poly_ins(), mv.num_args),
        }),
        mv.outs == (PortsView {
            dir: BufferDirEnum::Out,
            num_args: mv.num_args,
            buffers: out_slots_of(poly_outs(), mv.num_args),
            names: out_names_of(poly_outs(), mv.num_args),
        }),
        mv.ins.names_wf(),
        mv.outs.names_wf(),
        mv.ins.buffers.len() <= usize::MAX,
        mv.outs.buffers.len() <= usize::MAX,
    ensures
        fresh_module_wf(mv),
{
    reveal(crate::modules::poly_order_wf);
    assert(poly_ins().drop_last() =~= Seq::<InDeclView>::empty());
    assert(poly_outs().drop_last() =~= Seq::<OutDeclView>::empty());
    assert(in_slots_of(poly_ins(), mv.num_args) =~= Seq::new(
        1nat,
        |i: int|
            BufferInPortView::Constant(
                const_block_view(crate::ports::ElemValueView::Midi(Seq::empty())),
            ),
    ));
    assert(out_slots_of(poly_outs(), mv.num_args) =~= Seq::new(
        mv.num_args as nat,
        |i: int| BufferOutPortView {
            buffer: const_block_view(default_value_of(BufferElemEnum::Midi)),
            dependents: Seq::empty(),
        },
    ));
    assert(forall|p: int|
        0 <= p < mv.ins.buffers.len() ==> !(#[trigger] mv.ins.buffers[p]).is_linked());
    lemma_count_linked_no_links(mv.ins.buffers);
}

/// A MIDI input module assembled from its descriptor is fresh and well
/// formed.
proof fn lemma_midi_input_fresh(mv: ModuleView)
    requires
        mv.kind is MidiInput,
        mv.kind.wf(mv.num_args),
        mv.num_dependencies == 0,
        mv.num_finished_dependencies == 0,
        mv.ins == (PortsView {
            dir: BufferDirEnum::In,
            num_args: mv.num_args,
            buffers: in_slots_of(Seq::<InDeclView>::empty(), mv.num_args),
            names: in_names_of(Seq::<InDeclView>::empty(), mv.num_args),
        }),
        mv.outs == (PortsView {
            dir: BufferDirEnum::Out,
            num_args: mv.num_args,
            buffers: out_slots_of(midi_input_outs(), mv.num_args),
            names: out_names_of(midi_input_outs(), mv.num_args),
        }),
        mv.ins.names_wf(),
        mv.outs.names_wf(),
        mv.ins.buffers.len() <= usize::MAX,
        mv.outs.buffers.len() <= usize::MAX,
    ensures
        fresh_module_wf(mv),
{
    assert(midi_input_outs().drop_last() =~= Seq::<OutDeclView>::empty());
    assert(in_slots_of(Seq::<InDeclView>::empty(), mv.num_args) =~= Seq::<
        BufferInPortView,
    >::empty());
    assert(out_slots_of(midi_input_outs(), mv.num_args) =~= Seq::new(
        1nat,
        |i: int| BufferOutPortView {
            buffer: const_block_view(default_value_of(BufferElemEnum::Midi)),
            dependents: Seq::empty(),
        },
    ));
    assert(forall|p: int|
        0 <= p < mv.ins.buffers.len() ==> !(#[trigger] mv.ins.buffers[p]).is_linked());
    lemma_count_linked_no_links(mv.ins.buffers);
}

/// The audio output module assembled from its descriptor is fresh and well
/// formed.
proof fn lemma_audio_out_fresh(mv: ModuleView)
    requires
        mv == descriptor_module_view(
            ModuleKindView::AudioOut(AudioOutputModule { signal_in: BufferHandle { idx: 0 } }),
            0,
            audio_out_ins(),
            Seq::<OutDeclView>::empty(),
        ),
        mv.ins.names_wf(),
        mv.outs.names_wf(),
    ensures
        fresh_module_wf(mv),
{
    assert(audio_out_ins().drop_last() =~= Seq::<InDeclView>::empty());
    assert(in_slots_of(audio_out_ins(), 0) =~= Seq::new(
        1nat,
        |i: int|
            BufferInPortView::Constant(
                const_block_view(crate::ports::ElemValueView::Signal(0)),
            ),
    ));
    assert(out_slots_of(Seq::<OutDeclView>::empty(), 0) =~= Seq::<BufferOutPortView>::empty());
    assert(forall|p: int|
        0 <= p < mv.ins.buffers.len() ==> !(#[trigger] mv.ins.buffers[p]).is_linked());
}

/// An [`Op`] module assembled from its descriptor is fresh and well formed.
proof fn lemma_op_fresh(op: crate::modules::OpType, num_args: usize, mv: ModuleView)
    requires
        num_args <= usize::MAX - 8,
        mv == descriptor_module_view(
            ModuleKindView::Op(
                Op {
                    op,
                    signal_in: VariadicBufferHandle {
                        num_args,
                        buffer: BufferHandle { idx: 0 },
                    },
                    signal_out: BufferHandle { idx: 0 },
                },
            ),
            num_args,
            op_ins(op),
            op_outs(),
        ),
        mv.ins.names_wf(),
        mv.outs.names_wf(),
    ensures
        fresh_module_wf(mv),
        mv == settings_module_view(crate::modules::ModuleSettingsView::Op(op), num_args),
{
    let d: i64 = if op is Multiply {
        crate::constants::SIGNAL_UNIT
    } else {
        0
    };
    assert(op_ins(op).drop_last() =~= Seq::<InDeclView>::empty());
    assert(op_outs().drop_last() =~= Seq::<OutDeclView>::empty());
    assert(in_slots_of(op_ins(op), num_args) =~= Seq::new(
        num_args as nat,
        |i: int|
            BufferInPortView::Constant(
                const_block_view(crate::ports::ElemValueView::Signal(d)),
            ),
    ));
    assert(out_slots_of(op_outs(), num_args) =~= Seq::new(
        1nat,
        |i: int| BufferOutPortView {
            buffer: const_block_view(default_value_of(BufferElemEnum::Signal)),
            dependents: Seq::empty(),
        },
    ));
    assert(forall|p: int|
        0 <= p < mv.ins.buffers.len() ==> !(#[trigger] mv.ins.buffers[p]).is_linked());
    lemma_count_linked_no_links(mv.ins.buffers);
}

impl Host {
    /// Whether a module name is free; scans the name table.
    fn module_name_taken(&self, name: &String) -> (r: bool)
        ensures
            r == self@.has_module_name(name@),
    {
        let mut i: usize = 0;
        let n = self.module_handles.len();
        while i < n
            invariant
                i <= n,
                n == self@.module_names.len(),
                n == self.module_handles@.len(),
                forall|j: int| 0 <= j < i ==> (#[trigger] self@.module_names[j]).0 != name@,
            decreases n - i,
        {
            let e = &self.module_handles[i];
            if e.0 == *name {
                proof {
                    assert(self@.module_names[i as int].0 == name@);
                }
                return true;
            }
            i = i + 1;
        }
        false
    }

    /// Append a fresh module to the store under a new handle.
    fn insert_module(&mut self, module: ModuleInternals) -> (h: ModuleHandle)
        requires
            old(self)@.wf(),
            fresh_module_wf(module@),
        ensures
            final(self)@.wf(),
            h.idx == old(self)@.modules.len(),
            final(self)@.modules == old(self)@.modules.push(Some(module@)),
            final(self)@.module_names == old(self)@.module_names,
            final(self)@.groups == old(self)@.groups,
            final(self)@.group_names == old(self)@.group_names,
            final(self)@.output_handle == old(self)@.output_handle,
    {
        let idx = self.modules.len();
        self.modules.push(Some(module));
        let n2 = self.modules.len();
        proof {
            assert(self@.modules.len() == n2);
            assert(self@.modules =~= old(self)@.modules.push(Some(module@)));
            assert(self@.module_names =~= old(self)@.module_names);
            assert(self@.groups =~= old(self)@.groups);
            assert(self@.group_names =~= old(self)@.group_names);
            assert(self@ =~= (HostView {
                modules: old(self)@.modules.push(Some(module@)),
                ..old(self)@
            }));
            lemma_push_module_wf(old(self)@, self@, module@);
        }
        ModuleHandle { idx }
    }

    /// The handle of the installed audio output module.
    pub fn get_output_module(&self) -> (h: ModuleHandle)
        ensures
            h == self@.output_handle,
    {
        self.output_handle
    }

    /// The block currently on the sink module's in-port: the producer's
    /// out-block when linked, the constant block otherwise.  After a pass
    /// this is the block the sink received; the caller hands it to the
    /// audio output ([`crate::output::AudioOutput::write`]).
    pub fn sink_block(&self) -> (r: Vec<i64>)
        requires
            self@.wf(),
        ensures
            BlockView::Signal(r@) == gather_spec(self@, self@.output_handle.idx as int)[0],
            r@.len() == BUFFER_LEN,
    {
        let sink = self.output_handle;
        let module = match &self.modules[sink.idx] {
            Some(m) => m,
            None => {
                proof {
                    assert(false);
                }
                return Vec::new();
            },
        };
        proof {
            assert(module@ == self@.at(sink.idx as int));
            assert(self@.module_wf(sink.idx as int));
            assert(self@.module_links_wf(sink.idx as int));
            assert(self@.at(sink.idx as int).ins.buffers[0].elem() == BufferElemEnum::Signal);
        }
        let b: Block = match module.buf_in.ports.get_buf(BufferHandle { idx: 0 }) {
            BufferInPort::Constant(cb) => copy_block(cb),
            BufferInPort::OutBuffer(h) => {
                proof {
                    assert(self@.valid_out(*h));
                }
                let prod = match &self.modules[h.module_handle.idx] {
                    Some(pm) => pm,
                    None => {
                        proof {
                            assert(false);
                        }
                        return Vec::new();
                    },
                };
                proof {
                    assert(prod@ == self@.at(h.module_handle.idx as int));
                    assert(self@.module_wf(h.module_handle.idx as int));
                }
                copy_block(&prod.buf_out.ports.get_buf(h.buf_handle).buffer)
            },
        };
        match b {
            Block::Signal(v) => v,
            Block::Midi(_) => {
                proof {
                    assert(false);
                }
                Vec::new()
            },
        }
    }

    /// Create a module with the given variadic arity.  Fails, leaving the
    /// host unchanged, exactly when the name is already taken.
    pub fn create_variadic_module(
        &mut self,
        name: &str,
        settings: ModuleSettings,
        num_args: usize,
    ) -> (r: HostResult<ModuleHandle>)
        requires
            old(self)@.wf(),
            num_args <= usize::MAX - 8,
        ensures
            final(self)@.wf(),
            old(self)@.has_module_name(name@) ==> (r matches Err(
                HostError::DuplicateIdentifier { .. },
            ) && final(self)@ == old(self)@),
            !old(self)@.has_module_name(name@) ==> (r matches Ok(h) && h.idx == old(
                self,
            )@.modules.len() && final(self)@ == (HostView {
                modules: old(self)@.modules.push(
                    Some(settings_module_view(settings@, num_args)),
                ),
                module_names: old(self)@.module_names.push((name@, h)),
                ..old(self)@
            })),
            r is Ok <==> !old(self)@.has_module_name(name@),
    {
        let key: String = name.to_owned();
        if self.module_name_taken(&key) {
            return Err(
                HostError::DuplicateIdentifier { ident: key, ident_type: HostIdentifier::Module },
            );
        }
        let module = match build_module(&settings, num_args) {
            Ok(m) => m,
            Err(e) => {
                proof {
                    assert(false);
                }
                return Err(HostError::ModuleInit { module_name: key, source: e });
            },
        };
        let handle = self.insert_module(module);
        let ghost mid = self@;
        self.module_handles.push((key, handle));
        proof {
            assert(self@.module_names =~= mid.module_names.push((name@, handle)));
            assert(self@.modules =~= mid.modules);
            assert(self@.groups =~= mid.groups);
            assert(self@.group_names =~= mid.group_names);
            lemma_push_name_wf(mid, self@, name@, handle);
            assert(self@ =~= (HostView {
                modules: old(self)@.modules.push(
                    Some(settings_module_view(settings@, num_args)),
                ),
                module_names: old(self)@.module_names.push((name@, handle)),
                ..old(self)@
            }));
        }
        Ok(handle)
    }

    /// A fresh host with the audio output module installed under the name
    /// `audio_out` and handle 0.
    pub fn new() -> (r: HostResult<Host>)
        ensures
            r is Ok,
            r matches Ok(h) ==> {
                &&& h@.wf()
                &&& h@.modules =~= seq![
                    Some(
                        descriptor_module_view(
                            ModuleKindView::AudioOut(
                                AudioOutputModule { signal_in: BufferHandle { idx: 0 } },
                            ),
                            0,
                            audio_out_ins(),
                            Seq::<OutDeclView>::empty(),
                        ),
                    ),
                ]
                &&& h@.module_names =~= seq![("audio_out"@, ModuleHandle { idx: 0 })]
                &&& h@.groups =~= Seq::<GroupView>::empty()
                &&& h@.group_names =~= Seq::<(Seq<char>, GroupHandle)>::empty()
                &&& h@.output_handle == (ModuleHandle { idx: 0 })
            },
    {
        let built = AudioOutputModule::init(ModuleDescriptor::new(0));
        proof {
            assert(in_decls_unique(audio_out_ins()));
            assert(out_decls_unique(Seq::<OutDeclView>::empty()));
        }
        let module = match module_from_descriptor(
            ModuleKind::AudioOut(built.initial_data),
            built.buffers_descriptors,
            0,
        ) {
            Ok(m) => m,
            Err(e) => {
                proof {
                    assert(false);
                }
                return Err(
                    HostError::ModuleInit { module_name: "audio_out".to_owned(), source: e },
                );
            },
        };
        proof {
            lemma_audio_out_fresh(module@);
        }
        let mut modules: Vec<Option<ModuleInternals>> = Vec::new();
        modules.push(Some(module));
        let mut module_handles: Vec<(String, ModuleHandle)> = Vec::new();
        module_handles.push(("audio_out".to_owned(), ModuleHandle { idx: 0 }));
        let host = Host {
            modules,
            module_handles,
            groups: Vec::new(),
            group_handles: Vec::new(),
            output_handle: ModuleHandle { idx: 0 },
        };
        proof {
            assert(host@.modules =~= seq![Some(module@)]);
            assert(host@.module_names =~= seq![("audio_out"@, ModuleHandle { idx: 0 })]);
            assert(host@.groups =~= Seq::<GroupView>::empty());
            assert(host@.group_names =~= Seq::<(Seq<char>, GroupHandle)>::empty());
            assert(host@.live(0));
            assert(host@.at(0) == module@);
            assert forall|m: int| host@.live(m) implies host@.module_wf(m)
                && host@.module_links_wf(m) && host@.module_dependents_wf(m) by {
                assert(m == 0);
                assert(forall|p: int|
                    0 <= p < module@.ins.buffers.len() ==> !(#[trigger] module@.ins.buffers[p]).is_linked());
                lemma_count_linked_no_links(module@.ins.buffers);
                assert forall|p: int|
                    0 <= p < host@.at(0).ins.buffers.len() implies !((#[trigger] host@.at(
                    0,
                ).ins.buffers[p]) is OutBuffer) by {
                    assert(module@.ins.buffers[p] is Constant);
                }
            }
        }
        Ok(host)
    }

    /// Create a module with no variadic ports.  Fails, leaving the host
    /// unchanged, exactly when the name is already taken.
    pub fn create_module(&mut self, name: &str, settings: ModuleSettings) -> (r: HostResult<
        ModuleHandle,
    >)
        requires
            old(self)@.wf(),
        ensures
            final(self)@.wf(),
            old(self)@.has_module_name(name@) ==> (r matches Err(
                HostError::DuplicateIdentifier { .. },
            ) && final(self)@ == old(self)@),
            !old(self)@.has_module_name(name@) ==> (r matches Ok(h) && h.idx == old(
                self,
            )@.modules.len() && final(self)@ == (HostView {
                modules: old(self)@.modules.push(Some(settings_module_view(settings@, 0))),
                module_names: old(self)@.module_names.push((name@, h)),
                ..old(self)@
            })),
            r is Ok <==> !old(self)@.has_module_name(name@),
    {
        self.create_variadic_module(name, settings, 0)
    }

    /// Replace in-port `p` of module `m` and set the module's dependency
    /// count.
    fn mod_set_in_port(&mut self, m: usize, p: usize, port: BufferInPort, ndeps: usize)
        requires
            old(self)@.live(m as int),
            p < old(self)@.at(m as int).ins.buffers.len(),
        ensures
            final(self)@ == with_in_port(old(self)@, m as int, p as int, port@, ndeps),
    {
        let ghost port_view = port@;
        let mut slot: Option<ModuleInternals> = None;
        self.modules.set_and_swap(m, &mut slot);
        let mut module = slot.unwrap();
        proof {
            assert(module@ == old(self)@.at(m as int));
        }
        module.buf_in.ports.set_buf(BufferHandle { idx: p }, port);
        module.buf_in.num_dependencies = ndeps;
        proof {
            assert(module@ =~= (ModuleView {
                num_dependencies: ndeps,
                ins: PortsView {
                    buffers: old(self)@.at(m as int).ins.buffers.update(p as int, port_view),
                    ..old(self)@.at(m as int).ins
                },
                ..old(self)@.at(m as int)
            }));
        }
        self.modules.set(m, Some(module));
        proof {
            assert(self@.modules =~= old(self)@.modules.update(m as int, Some(module@)));
            assert(self@ =~= with_in_port(old(self)@, m as int, p as int, port_view, ndeps));
        }
    }

    /// Remove the subscriber entry equal to `target` from out-port `q` of
    /// module `m`.
    fn mod_remove_dependent(&mut self, m: usize, q: usize, target: ModuleBufferHandle)
        requires
            old(self)@.live(m as int),
            q < old(self)@.at(m as int).outs.buffers.len(),
            old(self)@.at(m as int).outs.buffers[q as int].dependents.contains(target),
            forall|k1: int, k2: int|
                0 <= k1 < k2 < old(self)@.at(m as int).outs.buffers[q as int].dependents.len()
                    ==> old(self)@.at(m as int).outs.buffers[q as int].dependents[k1] != old(
                    self,
                )@.at(m as int).outs.buffers[q as int].dependents[k2],
        ensures
            ({
                let deps = old(self)@.at(m as int).outs.buffers[q as int].dependents;
                let k = choose|k: int| 0 <= k < deps.len() && deps[k] == target;
                &&& 0 <= k < deps.len()
                &&& deps[k] == target
                &&& final(self)@ == with_removed_dep(old(self)@, m as int, q as int, k)
            }),
    {
        let mut slot: Option<ModuleInternals> = None;
        self.modules.set_and_swap(m, &mut slot);
        let mut module = slot.unwrap();
        proof {
            assert(module@ == old(self)@.at(m as int));
        }
        let mut port = BufferOutPort { buffer: Block::Signal(Vec::new()), dependents: Vec::new() };
        module.buf_out.ports.buffers.set_and_swap(q, &mut port);
        let ghost deps0 = port.dependents@;
        let mut i: usize = 0;
        let n = port.dependents.len();
        let mut found: usize = n;
        while i < n && found == n
            invariant
                i <= n,
                found <= n,
                n == port.dependents@.len(),
                port.dependents@ == deps0,
                found == n ==> forall|j: int| 0 <= j < i ==> deps0[j] != target,
                found < n ==> deps0[found as int] == target,
                exists|k: int| 0 <= k < deps0.len() && deps0[k] == target,
            decreases n - i, (if found == n { 1int } else { 0int }),
        {
            if port.dependents[i] == target {
                found = i;
            } else {
                i = i + 1;
            }
        }
        proof {
            if found == n {
                assert(i == n);
                assert(forall|j: int| 0 <= j < n ==> deps0[j] != target);
                let k = choose|k: int| 0 <= k < deps0.len() && deps0[k] == target;
                assert(0 <= k < n);
                assert(deps0[k] != target);
                assert(false);
            }
            assert(found < n);
            assert(deps0[found as int] == target);
        }
        port.dependents.remove(found);
        module.buf_out.ports.buffers.set(q, port);
        proof {
            let pre = old(self)@;
            let deps = pre.at(m as int).outs.buffers[q as int].dependents;
            let k = choose|k: int| 0 <= k < deps.len() && deps[k] == target;
            assert(deps == deps0);
            assert(k == found as int);
            assert(module@ =~= (ModuleView {
                outs: PortsView {
                    buffers: pre.at(m as int).outs.buffers.update(
                        q as int,
                        BufferOutPortView {
                            dependents: deps.remove(k),
                            ..pre.at(m as int).outs.buffers[q as int]
                        },
                    ),
                    ..pre.at(m as int).outs
                },
                ..pre.at(m as int)
            }));
        }
        self.modules.set(m, Some(module));
        proof {
            let pre = old(self)@;
            let deps = pre.at(m as int).outs.buffers[q as int].dependents;
            let k = choose|k: int| 0 <= k < deps.len() && deps[k] == target;
            assert(self@.modules =~= pre.modules.update(m as int, Some(module@)));
            assert(self@ =~= with_removed_dep(pre, m as int, q as int, k));
        }
    }

    /// Append a subscriber entry to out-port `q` of module `m`.
    fn mod_push_dependent(&mut self, m: usize, q: usize, dep: ModuleBufferHandle)
        requires
            old(self)@.live(m as int),
            q < old(self)@.at(m as int).outs.buffers.len(),
        ensures
            final(self)@ == with_pushed_dep(old(self)@, m as int, q as int, dep),
    {
        let mut slot: Option<ModuleInternals> = None;
        self.modules.set_and_swap(m, &mut slot);
        let mut module = slot.unwrap();
        proof {
            assert(module@ == old(self)@.at(m as int));
        }
        let mut port = BufferOutPort { buffer: Block::Signal(Vec::new()), dependents: Vec::new() };
        module.buf_out.ports.buffers.set_and_swap(q, &mut port);
        port.dependents.push(dep);
        module.buf_out.ports.buffers.set(q, port);
        proof {
            let pre = old(self)@;
            assert(module@ =~= (ModuleView {
                outs: PortsView {
                    buffers: pre.at(m as int).outs.buffers.update(
                        q as int,
                        BufferOutPortView {
                            dependents: pre.at(m as int).outs.buffers[q as int].dependents.push(
                                dep,
                            ),
                            ..pre.at(m as int).outs.buffers[q as int]
                        },
                    ),
                    ..pre.at(m as int).outs
                },
                ..pre.at(m as int)
            }));
        }
        self.modules.set(m, Some(module));
        proof {
            assert(self@.modules =~= old(self)@.modules.update(m as int, Some(module@)));
            assert(self@ =~= with_pushed_dep(old(self)@, m as int, q as int, dep));
        }
    }

    /// Set in-port `port_handle` to `new`: install the port, adjust the
    /// module's dependency count, unsubscribe from the old producer, and
    /// subscribe to the new one.
    fn set_buffer_in(&mut self, port_handle: ModuleBufferHandle, new: BufferInPort)
        requires
            old(self)@.wf(),
            old(self)@.in_shape(port_handle),
            new@.elem() == old(self)@.in_port(port_handle).elem(),
            (new@ matches BufferInPortView::Constant(b) ==> b.wf()),
            (new@ matches BufferInPortView::OutBuffer(h) ==> old(self)@.out_shape(h) && h
                == out_handle_of(
                h.module_handle.idx as int,
                h.buf_handle.idx as int,
                old(self)@.out_port(h).buffer.elem(),
            ) && h.ty.elem == new@.elem()),
        ensures
            final(self)@.wf(),
            final(self)@ == sbi_spec(
                old(self)@,
                port_handle.module_handle.idx as int,
                port_handle.buf_handle.idx as int,
                new@,
            ),
    {
        let m = port_handle.module_handle.idx;
        let p = port_handle.buf_handle.idx;
        let ghost pre = self@;
        let ghost newp = new@;
        let ghost oldp = pre.at(m as int).ins.buffers[p as int];
        let ghost elem = oldp.elem();
        let ghost ih = in_handle_of(m as int, p as int, elem);
        let (old_linked, old_src, nd, n_in) = {
            let module = match &self.modules[m] {
                Some(module) => module,
                None => {
                    proof {
                        assert(false);
                    }
                    return ;
                },
            };
            proof {
                assert(module@ == pre.at(m as int));
            }
            let nd = module.buf_in.num_dependencies;
            let n_in = module.buf_in.ports.buffers.len();
            match module.buf_in.ports.get_buf(BufferHandle { idx: p }) {
                BufferInPort::OutBuffer(h) => (true, *h, nd, n_in),
                BufferInPort::Constant(_) => (
                    false,
                    ModuleBufferHandle {
                        module_handle: ModuleHandle { idx: 0 },
                        ty: BufferType { dir: BufferDirEnum::Out, elem: BufferElemEnum::Signal },
                        buf_handle: BufferHandle { idx: 0 },
                    },
                    nd,
                    n_in,
                ),
            }
        };
        let new_linked = match &new {
            BufferInPort::OutBuffer(_) => true,
            BufferInPort::Constant(_) => false,
        };
        let new_src = match &new {
            BufferInPort::OutBuffer(h) => *h,
            BufferInPort::Constant(_) => ModuleBufferHandle {
                module_handle: ModuleHandle { idx: 0 },
                ty: BufferType { dir: BufferDirEnum::Out, elem: BufferElemEnum::Signal },
                buf_handle: BufferHandle { idx: 0 },
            },
        };
        proof {
            assert(pre.module_wf(m as int));
            assert(nd == count_linked(pre.at(m as int).ins.buffers));
            lemma_count_linked_le(pre.at(m as int).ins.buffers);
            if oldp.is_linked() {
                lemma_count_linked_at(pre.at(m as int).ins.buffers, p as int);
            } else {
                lemma_count_linked_missing(pre.at(m as int).ins.buffers, p as int);
            }
        }
        let ndeps: usize = if old_linked && !new_linked {
            nd - 1
        } else if !old_linked && new_linked {
            nd + 1
        } else {
            nd
        };
        self.mod_set_in_port(m, p, new, ndeps);
        if old_linked {
            proof {
                assert(pre.module_links_wf(m as int));
                assert(pre.valid_out(old_src));
                assert(pre.out_port(old_src).dependents.contains(ih));
                assert(pre.module_dependents_wf(old_src.module_handle.idx as int));
            }
            self.mod_remove_dependent(
                old_src.module_handle.idx,
                old_src.buf_handle.idx,
                ModuleBufferHandle {
                    module_handle: ModuleHandle { idx: m },
                    ty: BufferType { dir: BufferDirEnum::In, elem: old_src.ty.elem },
                    buf_handle: BufferHandle { idx: p },
                },
            );
        }
        if new_linked {
            self.mod_push_dependent(
                new_src.module_handle.idx,
                new_src.buf_handle.idx,
                ModuleBufferHandle {
                    module_handle: ModuleHandle { idx: m },
                    ty: BufferType { dir: BufferDirEnum::In, elem: new_src.ty.elem },
                    buf_handle: BufferHandle { idx: p },
                },
            );
        }
        proof {
            assert(self@ =~= sbi_spec(pre, m as int, p as int, newp));
            lemma_sbi_wf(pre, m as int, p as int, newp);
        }
    }

    /// Read the element kind of the port a handle points at.
    fn port_elem(&self, h: ModuleBufferHandle) -> (e: BufferElemEnum)
        requires
            self@.wf(),
            h.ty.dir == BufferDirEnum::In ==> self@.in_shape(h),
            h.ty.dir == BufferDirEnum::Out ==> self@.out_shape(h),
        ensures
            h.ty.dir == BufferDirEnum::In ==> e == self@.in_port(h).elem(),
            h.ty.dir == BufferDirEnum::Out ==> e == self@.out_port(h).buffer.elem(),
    {
        let module = match &self.modules[h.module_handle.idx] {
            Some(module) => module,
            None => {
                proof {
                    assert(false);
                }
                return BufferElemEnum::Signal;
            },
        };
        proof {
            assert(module@ == self@.at(h.module_handle.idx as int));
        }
        match h.ty.dir {
            BufferDirEnum::In => {
                match module.buf_in.ports.get_buf(h.buf_handle) {
                    BufferInPort::OutBuffer(src) => src.ty.elem,
                    BufferInPort::Constant(b) => b.elem(),
                }
            },
            BufferDirEnum::Out => module.buf_out.ports.get_buf(h.buf_handle).buffer.elem(),
        }
    }

    /// Link an in-port to an out-port.  The ports' element kinds are checked
    /// at run time; on a mismatch nothing changes.  On success the in-port
    /// subscribes to the out-port, replacing its previous state.
    pub fn link(&mut self, buf_out: ModuleBufferHandle, buf_in: ModuleBufferHandle) -> (r:
        HostResult<()>)
        requires
            old(self)@.wf(),
            old(self)@.out_shape(buf_out),
            old(self)@.in_shape(buf_in),
        ensures
            final(self)@.wf(),
            ({
                let oe = old(self)@.out_port(buf_out).buffer.elem();
                let ie = old(self)@.in_port(buf_in).elem();
                if oe == ie {
                    r is Ok && final(self)@ == sbi_spec(
                        old(self)@,
                        buf_in.module_handle.idx as int,
                        buf_in.buf_handle.idx as int,
                        BufferInPortView::OutBuffer(
                            out_handle_of(
                                buf_out.module_handle.idx as int,
                                buf_out.buf_handle.idx as int,
                                oe,
                            ),
                        ),
                    )
                } else {
                    (r matches Err(HostError::BufferElemMismatch { .. })) && final(self)@ == old(
                        self,
                    )@
                }
            }),
    {
        let oe = self.port_elem(
            ModuleBufferHandle { ty: BufferType { dir: BufferDirEnum::Out, elem: buf_out.ty.elem }, ..buf_out },
        );
        let ie = self.port_elem(
            ModuleBufferHandle { ty: BufferType { dir: BufferDirEnum::In, elem: buf_in.ty.elem }, ..buf_in },
        );
        if oe != ie {
            return Err(HostError::BufferElemMismatch { out_elem: oe, in_elem: ie });
        }
        let src = ModuleBufferHandle {
            module_handle: buf_out.module_handle,
            ty: BufferType { dir: BufferDirEnum::Out, elem: oe },
            buf_handle: buf_out.buf_handle,
        };
        self.set_buffer_in(
            ModuleBufferHandle {
                module_handle: buf_in.module_handle,
                ty: BufferType { dir: BufferDirEnum::In, elem: ie },
                buf_handle: buf_in.buf_handle,
            },
            BufferInPort::OutBuffer(src),
        );
        Ok(())
    }

    /// Set an in-port to a constant block holding `value` in every slot.
    /// The element kinds are checked at run time; on a mismatch nothing
    /// changes.
    pub fn link_value(&mut self, value: ElemValue, buf_in: ModuleBufferHandle) -> (r: HostResult<
        (),
    >)
        requires
            old(self)@.wf(),
            old(self)@.in_shape(buf_in),
        ensures
            final(self)@.wf(),
            ({
                let ie = old(self)@.in_port(buf_in).elem();
                if value@.elem() == ie {
                    r is Ok && final(self)@ == sbi_spec(
                        old(self)@,
                        buf_in.module_handle.idx as int,
                        buf_in.buf_handle.idx as int,
                        BufferInPortView::constant_of(value@),
                    )
                } else {
                    (r matches Err(HostError::BufferElemMismatch { .. })) && final(self)@ == old(
                        self,
                    )@
                }
            }),
    {
        let ie = self.port_elem(
            ModuleBufferHandle { ty: BufferType { dir: BufferDirEnum::In, elem: buf_in.ty.elem }, ..buf_in },
        );
        let ve = value.elem();
        if ve != ie {
            return Err(HostError::BufferElemMismatch { out_elem: ve, in_elem: ie });
        }
        let port = BufferInPort::with_constant(&value);
        self.set_buffer_in(
            ModuleBufferHandle {
                module_handle: buf_in.module_handle,
                ty: BufferType { dir: BufferDirEnum::In, elem: ie },
                buf_handle: buf_in.buf_handle,
            },
            port,
        );
        Ok(())
    }

    /// Run one module's fill step: gather its input blocks, fill, and write
    /// the output blocks back.
    fn process_one(&mut self, m: usize, now: u64)
        requires
            old(self)@.wf(),
            old(self)@.live(m as int),
        ensures
            final(self)@.wf(),
            final(self)@ == process_one_spec(old(self)@, m as int, now),
            same_graph(old(self)@, final(self)@),
    {
        let ghost pre = self@;
        proof {
            assert(pre.module_wf(m as int));
            assert(pre.module_links_wf(m as int));
        }
        let n_in = match &self.modules[m] {
            Some(mm) => mm.buf_in.ports.buffers.len(),
            None => {
                proof {
                    assert(false);
                }
                return ;
            },
        };
        let mut blocks: Vec<Block> = Vec::new();
        let mut p: usize = 0;
        while p < n_in
            invariant
                self@ == pre,
                pre.wf(),
                pre.live(m as int),
                n_in == pre.at(m as int).ins.buffers.len(),
                p <= n_in,
                blocks@.len() == p,
                forall|j: int| 0 <= j < p ==> (#[trigger] blocks@[j])@ == gather_spec(pre, m as int)[j],
            decreases n_in - p,
        {
            let module = match &self.modules[m] {
                Some(mm) => mm,
                None => {
                    proof {
                        assert(false);
                    }
                    return ;
                },
            };
            proof {
                assert(module@ == pre.at(m as int));
                assert(pre.module_links_wf(m as int));
            }
            let b: Block = match module.buf_in.ports.get_buf(BufferHandle { idx: p }) {
                BufferInPort::Constant(cb) => copy_block(cb),
                BufferInPort::OutBuffer(h) => {
                    proof {
                        assert(pre.at(m as int).ins.buffers[p as int]
                            == BufferInPortView::OutBuffer(*h));
                        assert(pre.valid_out(*h));
                    }
                    let prod = match &self.modules[h.module_handle.idx] {
                        Some(pm) => pm,
                        None => {
                            proof {
                                assert(false);
                            }
                            return ;
                        },
                    };
                    proof {
                        assert(prod@ == pre.at(h.module_handle.idx as int));
                    }
                    copy_block(&prod.buf_out.ports.get_buf(h.buf_handle).buffer)
                },
            };
            blocks.push(b);
            p = p + 1;
        }
        let buffers_in = ModuleBuffersIn { blocks };
        proof {
            assert(buffers_in@ =~= gather_spec(pre, m as int));
        }
        let n_out = match &self.modules[m] {
            Some(mm) => mm.buf_out.ports.buffers.len(),
            None => {
                proof {
                    assert(false);
                }
                return ;
            },
        };
        let ghost outs_before = Seq::new(
            pre.at(m as int).outs.buffers.len(),
            |q: int| pre.at(m as int).outs.buffers[q].buffer,
        );
        let mut oblocks: Vec<Block> = Vec::new();
        let mut q: usize = 0;
        while q < n_out
            invariant
                self@ == pre,
                pre.wf(),
                pre.live(m as int),
                n_out == pre.at(m as int).outs.buffers.len(),
                outs_before == Seq::new(
                    pre.at(m as int).outs.buffers.len(),
                    |j: int| pre.at(m as int).outs.buffers[j].buffer,
                ),
                q <= n_out,
                oblocks@.len() == q,
                forall|j: int| 0 <= j < q ==> (#[trigger] oblocks@[j])@ == outs_before[j],
            decreases n_out - q,
        {
            let module = match &self.modules[m] {
                Some(mm) => mm,
                None => {
                    proof {
                        assert(false);
                    }
                    return ;
                },
            };
            proof {
                assert(module@ == pre.at(m as int));
            }
            let b = copy_block(&module.buf_out.ports.get_buf(BufferHandle { idx: q }).buffer);
            oblocks.push(b);
            q = q + 1;
        }
        let mut buffers_out = ModuleBuffersOut { blocks: oblocks };
        proof {
            assert(buffers_out@ =~= outs_before);
        }
        let mut slot: Option<ModuleInternals> = None;
        self.modules.set_and_swap(m, &mut slot);
        let mut module = slot.unwrap();
        proof {
            assert(module@ == pre.at(m as int));
        }
        let num_args = module.num_args;
        proof {
            assert(pre.module_wf(m as int));
            assert forall|j: int|
                0 <= j < buffers_in@.len() implies (#[trigger] buffers_in@[j]).elem() == module.kind@.in_elems(
                num_args,
            )[j] && buffers_in@[j].wf() by {
                match pre.at(m as int).ins.buffers[j] {
                    BufferInPortView::Constant(b) => {},
                    BufferInPortView::OutBuffer(h) => {
                        assert(pre.valid_out(h));
                        assert(pre.module_wf(h.module_handle.idx as int));
                    },
                }
            }
        }
        fill_module(&mut module.kind, num_args, &buffers_in, &mut buffers_out, now);
        module.buf_in.num_finished_dependencies = module.buf_in.num_dependencies;
        let ghost filled = buffers_out@;
        let mut q2: usize = 0;
        while q2 < n_out
            invariant
                q2 <= n_out,
                n_out == pre.at(m as int).outs.buffers.len(),
                filled.len() == n_out,
                buffers_out@.len() == n_out,
                module.buf_out.ports.buffers@.len() == n_out,
                module@.outs.dir == pre.at(m as int).outs.dir,
                module@.outs.num_args == pre.at(m as int).outs.num_args,
                module@.outs.names == pre.at(m as int).outs.names,
                module@.kind == kind_fill_spec(
                    pre.at(m as int).kind,
                    num_args,
                    gather_spec(pre, m as int),
                    outs_before,
                    now,
                ).0,
                module@.ins == pre.at(m as int).ins,
                module@.num_args == pre.at(m as int).num_args,
                module@.num_dependencies == pre.at(m as int).num_dependencies,
                module@.num_finished_dependencies == pre.at(m as int).num_dependencies,
                forall|j: int|
                    q2 <= j < n_out ==> (#[trigger] buffers_out@[j]) == filled[j],
                forall|j: int|
                    0 <= j < q2 ==> (#[trigger] module@.outs.buffers[j]) == (BufferOutPortView {
                        buffer: filled[j],
                        dependents: pre.at(m as int).outs.buffers[j].dependents,
                    }),
                forall|j: int|
                    q2 <= j < n_out ==> (#[trigger] module@.outs.buffers[j]) == pre.at(
                        m as int,
                    ).outs.buffers[j],
            decreases n_out - q2,
        {
            let ghost bo0 = buffers_out@;
            let ghost mo0 = module@;
            let mut blk = Block::Signal(Vec::new());
            buffers_out.blocks.set_and_swap(q2, &mut blk);
            let mut port = BufferOutPort { buffer: Block::Signal(Vec::new()), dependents: Vec::new() };
            module.buf_out.ports.buffers.set_and_swap(q2, &mut port);
            port.buffer = blk;
            module.buf_out.ports.buffers.set(q2, port);
            proof {
                assert(blk@ == bo0[q2 as int]);
                assert forall|j: int| 0 <= j < n_out && j != q2 implies #[trigger] buffers_out@[j]
                    == bo0[j] by {}
                assert forall|j: int| 0 <= j < n_out && j != q2 implies #[trigger] module@.outs.buffers[j]
                    == mo0.outs.buffers[j] by {}
                assert(module@.outs.buffers[q2 as int] == (BufferOutPortView {
                    buffer: bo0[q2 as int],
                    dependents: mo0.outs.buffers[q2 as int].dependents,
                }));
            }
            q2 = q2 + 1;
        }
        self.modules.set(m, Some(module));
        proof {
            assert(self@ =~~= process_one_spec(pre, m as int, now));
            lemma_process_one_wf(pre, m as int, now);
        }
    }

    /// Count the linked in-ports of `m` whose producer is marked done.
    fn count_ready(&self, m: usize, done: &Vec<bool>) -> (cnt: usize)
        requires
            self@.wf(),
            self@.live(m as int),
        ensures
            cnt == count_src(self@.at(m as int).ins.buffers, done@),
    {
        let ghost ins = self@.at(m as int).ins.buffers;
        let n_in = match &self.modules[m] {
            Some(mm) => mm.buf_in.ports.buffers.len(),
            None => {
                proof {
                    assert(false);
                }
                0
            },
        };
        proof {
            assert(ins.subrange(0, 0) =~= Seq::<BufferInPortView>::empty());
        }
        let n = done.len();
        let mut cnt: usize = 0;
        let mut p: usize = 0;
        while p < n_in
            invariant
                p <= n_in,
                cnt <= p,
                self@.wf(),
                self@.live(m as int),
                n == done@.len(),
                ins == self@.at(m as int).ins.buffers,
                n_in == ins.len(),
                cnt == count_src(ins.subrange(0, p as int), done@),
            decreases n_in - p,
        {
            let module = match &self.modules[m] {
                Some(mm) => mm,
                None => {
                    proof {
                        assert(false);
                    }
                    return 0;
                },
            };
            proof {
                assert(module@ == self@.at(m as int));
                assert(ins.subrange(0, p + 1).drop_last() =~= ins.subrange(0, p as int));
                assert(ins.subrange(0, p + 1).last() == ins[p as int]);
            }
            match module.buf_in.ports.get_buf(BufferHandle { idx: p }) {
                BufferInPort::OutBuffer(h) => {
                    if h.module_handle.idx < n && done[h.module_handle.idx] {
                        cnt = cnt + 1;
                    }
                },
                BufferInPort::Constant(_) => {},
            }
            p = p + 1;
        }
        proof {
            assert(ins.subrange(0, n_in as int) =~= ins);
        }
        cnt
    }

    /// If module `m` is live, unprocessed, and all its producers have
    /// finished, process it and record it.
    fn try_process(
        &mut self,
        m: usize,
        now: u64,
        done: &mut Vec<bool>,
        order: &mut Vec<usize>,
        Ghost(pre): Ghost<HostView>,
        Ghost(base): Ghost<HostView>,
    ) -> (did: bool)
        requires
            old(self)@.wf(),
            pre.wf(),
            base == reset_finished(pre),
            old(done)@.len() == pre.modules.len(),
            pre.modules.len() <= usize::MAX,
            m < pre.modules.len(),
            old(self)@ == run_schedule(base, old(order)@, now),
            same_graph(pre, old(self)@),
            sched_inv(pre, old(done)@, old(order)@),
        ensures
            final(self)@.wf(),
            final(self)@ == run_schedule(base, final(order)@, now),
            same_graph(pre, final(self)@),
            final(done)@.len() == old(done)@.len(),
            sched_inv(pre, final(done)@, final(order)@),
            !did ==> final(done)@ == old(done)@ && final(order)@ == old(order)@ && final(self)@
                == old(self)@ && (pre.live(m as int) && !old(done)@[m as int] ==> count_src(
                pre.at(m as int).ins.buffers,
                old(done)@,
            ) < pre.at(m as int).num_dependencies),
            did ==> count_done(final(done)@) == count_done(old(done)@) + 1,
    {
        let live_m = match &self.modules[m] {
            Some(_) => true,
            None => false,
        };
        proof {
            assert(self@.live(m as int) == pre.live(m as int));
        }
        if !live_m || done[m] {
            return false;
        }
        let ghost ins = pre.at(m as int).ins.buffers;
        let cnt = self.count_ready(m, done);
        let nd = match &self.modules[m] {
            Some(mm) => mm.buf_in.num_dependencies,
            None => {
                proof {
                    assert(false);
                }
                0
            },
        };
        proof {
            assert(self@.at(m as int).ins == pre.at(m as int).ins);
            assert(self@.at(m as int).num_dependencies == pre.at(m as int).num_dependencies);
            assert(pre.module_wf(m as int));
            assert(nd == count_linked(ins));
            assert forall|j: int|
                0 <= j < ins.len() implies ((#[trigger] ins[j]) matches
                BufferInPortView::OutBuffer(h) ==> 0 <= h.module_handle.idx < done@.len()) by {
                match ins[j] {
                    BufferInPortView::OutBuffer(h) => {
                        assert(pre.module_links_wf(m as int));
                        assert(pre.valid_out(h));
                    },
                    BufferInPortView::Constant(_) => {},
                }
            }
            lemma_count_src(ins, done@);
        }
        if cnt != nd {
            return false;
        }
        let ghost order0 = order@;
        let ghost state0 = self@;
        let ghost d1 = done@;
        self.process_one(m, now);
        done.set(m, true);
        order.push(m);
        proof {
            lemma_count_done_set(d1, m as int);
            assert(order@.drop_last() =~= order0);
            assert(order@.last() == m);
            assert(self@ == run_schedule(base, order@, now));
            lemma_same_graph_trans(pre, state0, self@);
            lemma_try_process_inv(pre, d1, order0, m as int);
        }
        true
    }

    /// One scan over all modules: process every ready module once.
    fn scan_pass(
        &mut self,
        n: usize,
        now: u64,
        done: &mut Vec<bool>,
        order: &mut Vec<usize>,
        Ghost(pre): Ghost<HostView>,
        Ghost(base): Ghost<HostView>,
    ) -> (progressed: bool)
        requires
            old(self)@.wf(),
            pre.wf(),
            base == reset_finished(pre),
            n == pre.modules.len(),
            n <= usize::MAX,
            old(done)@.len() == n,
            old(self)@ == run_schedule(base, old(order)@, now),
            same_graph(pre, old(self)@),
            sched_inv(pre, old(done)@, old(order)@),
        ensures
            final(self)@.wf(),
            final(self)@ == run_schedule(base, final(order)@, now),
            same_graph(pre, final(self)@),
            final(done)@.len() == n,
            sched_inv(pre, final(done)@, final(order)@),
            progressed ==> count_done(final(done)@) >= count_done(old(done)@) + 1,
            !progressed ==> final(done)@ == old(done)@ && final(order)@ == old(order)@ && (forall|
                c: int,
            |
                0 <= c < n && pre.live(c) && !final(done)@[c] ==> count_src(
                    pre.at(c).ins.buffers,
                    final(done)@,
                ) < pre.at(c).num_dependencies),
    {
        let ghost done_start = done@;
        let ghost order_start = order@;
        let mut progressed = false;
        let mut m: usize = 0;
        while m < n
            invariant
                m <= n,
                self@.wf(),
                pre.wf(),
                base == reset_finished(pre),
                n == pre.modules.len(),
                n <= usize::MAX,
                done@.len() == n,
                self@ == run_schedule(base, order@, now),
                same_graph(pre, self@),
                sched_inv(pre, done@, order@),
                count_done(done@) >= count_done(done_start) + (if progressed {
                    1int
                } else {
                    0int
                }),
                !progressed ==> done@ == done_start && order@ == order_start && self@ == run_schedule(
                    base,
                    order_start,
                    now,
                ),
                !progressed ==> (forall|c: int|
                    0 <= c < m && pre.live(c) && !done@[c] ==> count_src(
                        pre.at(c).ins.buffers,
                        done@,
                    ) < pre.at(c).num_dependencies),
            decreases n - m,
        {
            let ghost d_before = done@;
            let did = self.try_process(m, now, done, order, Ghost(pre), Ghost(base));
            if did {
                progressed = true;
            }
            m = m + 1;
        }
        progressed
    }

    /// Evaluate the graph once: zero the progress counters, then repeatedly
    /// run every module whose producers have all finished, until no module
    /// is ready.  Returns the evaluation order.
    ///
    /// The order lists each processed module exactly once; a module is
    /// processed only after every module it depends on, and every module
    /// whose dependencies were all processed is itself processed — on an
    /// acyclic graph that is every module, in topological order.
    pub fn process_block(&mut self, now: u64) -> (order: Vec<usize>)
        requires
            old(self)@.wf(),
        ensures
            final(self)@.wf(),
            final(self)@ == run_schedule(reset_finished(old(self)@), order@, now),
            same_graph(old(self)@, final(self)@),
            forall|i: int| 0 <= i < order@.len() ==> old(self)@.live(order@[i] as int),
            forall|i: int, j: int| 0 <= i < j < order@.len() ==> order@[i] != order@[j],
            forall|i: int, p: int|
                0 <= i < order@.len() && old(self)@.depends_on(order@[i] as int, p) ==> exists|
                    j: int,
                |
                    0 <= j < i && order@[j] == p,
            forall|m: int|
                old(self)@.live(m) && !order@.contains(m as usize) ==> exists|p: int|
                    old(self)@.depends_on(m, p) && !order@.contains(p as usize),
            forall|m: int|
                old(self)@.live(m) && old(self)@.at(m).num_dependencies == 0 ==> order@.contains(
                    m as usize,
                ),
    {
        let ghost pre = self@;
        let n = self.modules.len();
        // zero the progress counters
        let mut i: usize = 0;
        while i < n
            invariant
                i <= n,
                n == pre.modules.len(),
                self@.modules.len() == n,
                self@.module_names == pre.module_names,
                self@.groups == pre.groups,
                self@.group_names == pre.group_names,
                self@.output_handle == pre.output_handle,
                forall|j: int|
                    0 <= j < n ==> self@.modules[j] == (if j < i {
                        reset_finished(pre).modules[j]
                    } else {
                        pre.modules[j]
                    }),
            decreases n - i,
        {
            let ghost s0 = self@;
            let mut slot: Option<ModuleInternals> = None;
            self.modules.set_and_swap(i, &mut slot);
            match slot {
                Some(mut module) => {
                    proof {
                        assert(s0.modules[i as int] == Some(module@));
                        assert(pre.modules[i as int] == Some(module@));
                    }
                    module.buf_in.num_finished_dependencies = 0;
                    self.modules.set(i, Some(module));
                    proof {
                        assert(module@ =~= (ModuleView {
                            num_finished_dependencies: 0,
                            ..pre.at(i as int)
                        }));
                        assert(self@.modules[i as int] == reset_finished(pre).modules[i as int]);
                    }
                },
                None => {
                    self.modules.set(i, None);
                    proof {
                        assert(s0.modules[i as int] is None);
                        assert(pre.modules[i as int] is None);
                        assert(self@.modules[i as int] == reset_finished(pre).modules[i as int]);
                    }
                },
            }
            proof {
                assert forall|j: int|
                    0 <= j < n implies self@.modules[j] == (if j < i + 1 {
                    reset_finished(pre).modules[j]
                } else {
                    pre.modules[j]
                }) by {
                    if j != i {
                        assert(self@.modules[j] == s0.modules[j]);
                    }
                }
            }
            i = i + 1;
        }
        proof {
            assert(self@ =~~= reset_finished(pre));
            lemma_reset_wf(pre);
        }
        let ghost base = self@;
        let mut done: Vec<bool> = Vec::new();
        while done.len() < n
            invariant
                done@.len() <= n,
                forall|j: int| 0 <= j < done@.len() ==> !(#[trigger] done@[j]),
            decreases n - done@.len(),
        {
            done.push(false);
        }
        let mut order: Vec<usize> = Vec::new();
        let mut progressed = true;
        proof {
            assert(order@ =~= Seq::<usize>::empty());
            assert(self@ == run_schedule(base, order@, now));
            lemma_count_done_le(done@);
        }
        while progressed
            invariant
                self@.wf(),
                pre.wf(),
                base == reset_finished(pre),
                base.wf(),
                n == pre.modules.len(),
                n <= usize::MAX,
                self@ == run_schedule(base, order@, now),
                same_graph(pre, self@),
                done@.len() == n,
                sched_inv(pre, done@, order@),
                !progressed ==> (forall|c: int|
                    0 <= c < n && pre.live(c) && !done@[c] ==> count_src(
                        pre.at(c).ins.buffers,
                        done@,
                    ) < pre.at(c).num_dependencies),
            decreases (n - count_done(done@)), (if progressed {
                1int
            } else {
                0int
            }),
        {
            proof {
                lemma_count_done_le(done@);
            }
            progressed = self.scan_pass(n, now, &mut done, &mut order, Ghost(pre), Ghost(base));
            proof {
                lemma_count_done_le(done@);
            }
        }
        proof {
            lemma_schedule_complete(pre, done@, order@);
        }
        order
    }

    /// Link the K out-ports of one grouped handle to the K in-ports of
    /// another, element-wise.  Fails without touching any port when the two
    /// handles belong to different groups, have different lengths, or any
    /// pair of ports disagrees on element kind; on success the K links
    /// behave exactly as if performed individually.
    #[verifier::rlimit(100)]
    pub fn link_group(&mut self, buf_out: &GroupBufferHandle, buf_in: &GroupBufferHandle) -> (r:
        HostResult<()>)
        requires
            old(self)@.wf(),
            forall|i: int|
                0 <= i < buf_out.handles@.len() ==> old(self)@.out_shape(
                    #[trigger] buf_out.handles@[i],
                ),
            forall|i: int|
                0 <= i < buf_in.handles@.len() ==> old(self)@.in_shape(
                    #[trigger] buf_in.handles@[i],
                ),
        ensures
            final(self)@.wf(),
            (buf_out.group != buf_in.group || buf_out.handles@.len() != buf_in.handles@.len())
                ==> ((r matches Err(HostError::BufferGroupMismatch)) && final(self)@ == old(
                self,
            )@),
            (buf_out.group == buf_in.group && buf_out.handles@.len() == buf_in.handles@.len() && (
            exists|i: int|
                0 <= i < buf_out.handles@.len() && (#[trigger] old(self)@.out_port(
                    buf_out.handles@[i],
                )).buffer.elem() != old(self)@.in_port(buf_in.handles@[i]).elem())) ==> ((
            r matches Err(HostError::BufferElemMismatch { .. })) && final(self)@ == old(self)@),
            (buf_out.group == buf_in.group && buf_out.handles@.len() == buf_in.handles@.len() && (
            forall|i: int|
                0 <= i < buf_out.handles@.len() ==> (#[trigger] old(self)@.out_port(
                    buf_out.handles@[i],
                )).buffer.elem() == old(self)@.in_port(buf_in.handles@[i]).elem())) ==> (r is Ok
                && final(self)@ == link_group_fold(
                old(self)@,
                buf_out.handles@,
                buf_in.handles@,
                buf_out.handles@.len() as int,
            )),
    {
        let ghost pre = self@;
        if buf_out.group != buf_in.group {
            return Err(HostError::BufferGroupMismatch);
        }
        let k = buf_out.handles.len();
        if k != buf_in.handles.len() {
            return Err(HostError::BufferGroupMismatch);
        }
        // check every pair's element kinds before touching anything
        let mut i: usize = 0;
        while i < k
            invariant
                i <= k,
                self@ == pre,
                pre.wf(),
                pre == old(self)@,
                k == buf_out.handles@.len(),
                k == buf_in.handles@.len(),
                buf_out.group == buf_in.group,
                forall|j: int|
                    0 <= j < k ==> pre.out_shape(#[trigger] buf_out.handles@[j]) && pre.in_shape(
                        buf_in.handles@[j],
                    ),
                forall|j: int|
                    0 <= j < i ==> (#[trigger] pre.out_port(buf_out.handles@[j])).buffer.elem()
                        == pre.in_port(buf_in.handles@[j]).elem(),
            decreases k - i,
        {
            let oe = self.port_elem(buf_out.handles[i]);
            let ie = self.port_elem(buf_in.handles[i]);
            if oe != ie {
                return Err(HostError::BufferElemMismatch { out_elem: oe, in_elem: ie });
            }
            i = i + 1;
        }
        // apply the K links
        let mut i2: usize = 0;
        while i2 < k
            invariant
                i2 <= k,
                pre.wf(),
                pre == old(self)@,
                k == buf_out.handles@.len(),
                k == buf_in.handles@.len(),
                buf_out.group == buf_in.group,
                self@.wf(),
                self@ == link_group_fold(pre, buf_out.handles@, buf_in.handles@, i2 as int),
                self@.modules.len() == pre.modules.len(),
                forall|c: int| self@.live(c) <==> pre.live(c),
                forall|c: int|
                    pre.live(c) ==> (#[trigger] self@.at(c)).ins.buffers.len() == pre.at(
                        c,
                    ).ins.buffers.len() && self@.at(c).outs.buffers.len() == pre.at(
                        c,
                    ).outs.buffers.len(),
                forall|c: int, q: int|
                    pre.live(c) && 0 <= q < pre.at(c).ins.buffers.len() ==> (#[trigger] self@.at(
                        c,
                    ).ins.buffers[q]).elem() == pre.at(c).ins.buffers[q].elem(),
                forall|c: int, q: int|
                    pre.live(c) && 0 <= q < pre.at(c).outs.buffers.len() ==> (#[trigger] self@.at(
                        c,
                    ).outs.buffers[q]).buffer.elem() == pre.at(c).outs.buffers[q].buffer.elem(),
                forall|j: int|
                    0 <= j < k ==> pre.out_shape(#[trigger] buf_out.handles@[j]) && pre.in_shape(
                        buf_in.handles@[j],
                    ),
                forall|j: int|
                    0 <= j < k ==> (#[trigger] pre.out_port(buf_out.handles@[j])).buffer.elem()
                        == pre.in_port(buf_in.handles@[j]).elem(),
            decreases k - i2,
        {
            let ghost mid = self@;
            let o = buf_out.handles[i2];
            let h_in = buf_in.handles[i2];
            proof {
                assert(mid.out_shape(o));
                assert(mid.in_shape(h_in));
                assert(mid.out_port(o).buffer.elem() == pre.out_port(o).buffer.elem());
                assert(mid.in_port(h_in).elem() == pre.in_port(h_in).elem());
                lemma_sbi_frame(
                    mid,
                    h_in.module_handle.idx as int,
                    h_in.buf_handle.idx as int,
                    BufferInPortView::OutBuffer(
                        out_handle_of(
                            o.module_handle.idx as int,
                            o.buf_handle.idx as int,
                            mid.out_port(o).buffer.elem(),
                        ),
                    ),
                );
            }
            match self.link(o, h_in) {
                Ok(()) => {},
                Err(_) => {
                    proof {
                        assert(false);
                    }
                    return Err(HostError::BufferGroupMismatch);
                },
            }
            i2 = i2 + 1;
        }
        Ok(())
    }

    /// Fan one out-port out to every in-port of a grouped handle.  Fails
    /// without touching any port when any target disagrees on element kind.
    #[verifier::rlimit(100)]
    pub fn link_group_ext(&mut self, buf_out: ModuleBufferHandle, buf_in: &GroupBufferHandle)
        -> (r: HostResult<()>)
        requires
            old(self)@.wf(),
            old(self)@.out_shape(buf_out),
            forall|i: int|
                0 <= i < buf_in.handles@.len() ==> old(self)@.in_shape(
                    #[trigger] buf_in.handles@[i],
                ),
        ensures
            final(self)@.wf(),
            (exists|i: int|
                0 <= i < buf_in.handles@.len() && (#[trigger] old(self)@.in_port(
                    buf_in.handles@[i],
                )).elem() != old(self)@.out_port(buf_out).buffer.elem()) ==> ((r matches Err(
                HostError::BufferElemMismatch { .. },
            )) && final(self)@ == old(self)@),
            (forall|i: int|
                0 <= i < buf_in.handles@.len() ==> (#[trigger] old(self)@.in_port(
                    buf_in.handles@[i],
                )).elem() == old(self)@.out_port(buf_out).buffer.elem()) ==> (r is Ok
                && final(self)@ == link_group_fold(
                old(self)@,
                Seq::new(buf_in.handles@.len(), |i: int| buf_out),
                buf_in.handles@,
                buf_in.handles@.len() as int,
            )),
    {
        let ghost pre = self@;
        let ghost outs = Seq::new(buf_in.handles@.len(), |i: int| buf_out);
        let k = buf_in.handles.len();
        let mut i: usize = 0;
        while i < k
            invariant
                i <= k,
                self@ == pre,
                pre.wf(),
                pre == old(self)@,
                k == buf_in.handles@.len(),
                pre.out_shape(buf_out),
                forall|j: int| 0 <= j < k ==> pre.in_shape(#[trigger] buf_in.handles@[j]),
                forall|j: int|
                    0 <= j < i ==> (#[trigger] pre.in_port(buf_in.handles@[j])).elem()
                        == pre.out_port(buf_out).buffer.elem(),
            decreases k - i,
        {
            let oe = self.port_elem(buf_out);
            let ie = self.port_elem(buf_in.handles[i]);
            if oe != ie {
                return Err(HostError::BufferElemMismatch { out_elem: oe, in_elem: ie });
            }
            i = i + 1;
        }
        let mut i2: usize = 0;
        while i2 < k
            invariant
                i2 <= k,
                pre.wf(),
                pre == old(self)@,
                k == buf_in.handles@.len(),
                outs == Seq::new(buf_in.handles@.len(), |i: int| buf_out),
                self@.wf(),
                self@ == link_group_fold(pre, outs, buf_in.handles@, i2 as int),
                self@.modules.len() == pre.modules.len(),
                forall|c: int| self@.live(c) <==> pre.live(c),
                forall|c: int|
                    pre.live(c) ==> (#[trigger] self@.at(c)).ins.buffers.len() == pre.at(
                        c,
                    ).ins.buffers.len() && self@.at(c).outs.buffers.len() == pre.at(
                        c,
                    ).outs.buffers.len(),
                forall|c: int, q: int|
                    pre.live(c) && 0 <= q < pre.at(c).ins.buffers.len() ==> (#[trigger] self@.at(
                        c,
                    ).ins.buffers[q]).elem() == pre.at(c).ins.buffers[q].elem(),
                forall|c: int, q: int|
                    pre.live(c) && 0 <= q < pre.at(c).outs.buffers.len() ==> (#[trigger] self@.at(
                        c,
                    ).outs.buffers[q]).buffer.elem() == pre.at(c).outs.buffers[q].buffer.elem(),
                pre.out_shape(buf_out),
                forall|j: int| 0 <= j < k ==> pre.in_shape(#[trigger] buf_in.handles@[j]),
                forall|j: int|
                    0 <= j < k ==> (#[trigger] pre.in_port(buf_in.handles@[j])).elem()
                        == pre.out_port(buf_out).buffer.elem(),
            decreases k - i2,
        {
            let ghost mid = self@;
            let h_in = buf_in.handles[i2];
            proof {
                assert(mid.out_shape(buf_out));
                assert(mid.in_shape(h_in));
                assert(mid.out_port(buf_out).buffer.elem() == pre.out_port(buf_out).buffer.elem());
                assert(mid.in_port(h_in).elem() == pre.in_port(h_in).elem());
                assert(outs[i2 as int] == buf_out);
                lemma_sbi_frame(
                    mid,
                    h_in.module_handle.idx as int,
                    h_in.buf_handle.idx as int,
                    BufferInPortView::OutBuffer(
                        out_handle_of(
                            buf_out.module_handle.idx as int,
                            buf_out.buf_handle.idx as int,
                            mid.out_port(buf_out).buffer.elem(),
                        ),
                    ),
                );
            }
            match self.link(buf_out, h_in) {
                Ok(()) => {},
                Err(_) => {
                    proof {
                        assert(false);
                    }
                    return Err(HostError::BufferGroupMismatch);
                },
            }
            i2 = i2 + 1;
        }
        Ok(())
    }

    /// Set every in-port of a grouped handle to a constant block of
    /// `value`.  Fails without touching any port when any target disagrees
    /// on element kind.
    #[verifier::rlimit(100)]
    pub fn link_group_value(&mut self, value: ElemValue, buf_in: &GroupBufferHandle) -> (r:
        HostResult<()>)
        requires
            old(self)@.wf(),
            forall|i: int|
                0 <= i < buf_in.handles@.len() ==> old(self)@.in_shape(
                    #[trigger] buf_in.handles@[i],
                ),
        ensures
            final(self)@.wf(),
            (exists|i: int|
                0 <= i < buf_in.handles@.len() && (#[trigger] old(self)@.in_port(
                    buf_in.handles@[i],
                )).elem() != value@.elem()) ==> ((r matches Err(
                HostError::BufferElemMismatch { .. },
            )) && final(self)@ == old(self)@),
            (forall|i: int|
                0 <= i < buf_in.handles@.len() ==> (#[trigger] old(self)@.in_port(
                    buf_in.handles@[i],
                )).elem() == value@.elem()) ==> (r is Ok && final(self)@ == link_value_fold(
                old(self)@,
                value@,
                buf_in.handles@,
                buf_in.handles@.len() as int,
            )),
    {
        let ghost pre = self@;
        let k = buf_in.handles.len();
        let ve = value.elem();
        let mut i: usize = 0;
        while i < k
            invariant
                i <= k,
                self@ == pre,
                pre.wf(),
                pre == old(self)@,
                k == buf_in.handles@.len(),
                ve == value@.elem(),
                forall|j: int| 0 <= j < k ==> pre.in_shape(#[trigger] buf_in.handles@[j]),
                forall|j: int|
                    0 <= j < i ==> (#[trigger] pre.in_port(buf_in.handles@[j])).elem() == ve,
            decreases k - i,
        {
            let ie = self.port_elem(buf_in.handles[i]);
            if ve != ie {
                return Err(HostError::BufferElemMismatch { out_elem: ve, in_elem: ie });
            }
            i = i + 1;
        }
        let mut i2: usize = 0;
        while i2 < k
            invariant
                i2 <= k,
                pre.wf(),
                pre == old(self)@,
                k == buf_in.handles@.len(),
                ve == value@.elem(),
                self@.wf(),
                self@ == link_value_fold(pre, value@, buf_in.handles@, i2 as int),
                self@.modules.len() == pre.modules.len(),
                forall|c: int| self@.live(c) <==> pre.live(c),
                forall|c: int|
                    pre.live(c) ==> (#[trigger] self@.at(c)).ins.buffers.len() == pre.at(
                        c,
                    ).ins.buffers.len() && self@.at(c).outs.buffers.len() == pre.at(
                        c,
                    ).outs.buffers.len(),
                forall|c: int, q: int|
                    pre.live(c) && 0 <= q < pre.at(c).ins.buffers.len() ==> (#[trigger] self@.at(
                        c,
                    ).ins.buffers[q]).elem() == pre.at(c).ins.buffers[q].elem(),
                forall|c: int, q: int|
                    pre.live(c) && 0 <= q < pre.at(c).outs.buffers.len() ==> (#[trigger] self@.at(
                        c,
                    ).outs.buffers[q]).buffer.elem() == pre.at(c).outs.buffers[q].buffer.elem(),
                forall|j: int| 0 <= j < k ==> pre.in_shape(#[trigger] buf_in.handles@[j]),
                forall|j: int|
                    0 <= j < k ==> (#[trigger] pre.in_port(buf_in.handles@[j])).elem() == ve,
            decreases k - i2,
        {
            let ghost mid = self@;
            let h_in = buf_in.handles[i2];
            proof {
                assert(mid.in_shape(h_in));
                assert(mid.in_port(h_in).elem() == pre.in_port(h_in).elem());
                lemma_sbi_frame(
                    mid,
                    h_in.module_handle.idx as int,
                    h_in.buf_handle.idx as int,
                    BufferInPortView::constant_of(value@),
                );
            }
            let v2 = crate::ports::copy_value(&value);
            match self.link_value(v2, h_in) {
                Ok(()) => {},
                Err(_) => {
                    proof {
                        assert(false);
                    }
                    return Err(HostError::BufferGroupMismatch);
                },
            }
            i2 = i2 + 1;
        }
        Ok(())
    }

    /// Stage one raw MIDI message, with its arrival time in microseconds,
    /// on a MIDI input module; the next pass places it into a block.  Fails
    /// when the module is not a MIDI input.
    pub fn stage_midi(&mut self, handle: ModuleHandle, time_micros: u64, bytes: Vec<u8>) -> (r:
        HostResult<()>)
        requires
            old(self)@.wf(),
            old(self)@.live(handle.idx as int),
        ensures
            final(self)@.wf(),
            ({
                let m = handle.idx as int;
                if old(self)@.at(m).kind is MidiInput {
                    let st = old(self)@.at(m).kind->MidiInput_0;
                    r is Ok && final(self)@ == (HostView {
                        modules: old(self)@.modules.update(
                            m,
                            Some(
                                ModuleView {
                                    kind: ModuleKindView::MidiInput(
                                        crate::midi::MidiInputView {
                                            event_queue: st.event_queue.push(
                                                crate::midi::StagedEventView {
                                                    time_micros,
                                                    bytes: bytes@,
                                                },
                                            ),
                                            ..st
                                        },
                                    ),
                                    ..old(self)@.at(m)
                                },
                            ),
                        ),
                        ..old(self)@
                    })
                } else {
                    (r matches Err(HostError::NonexistentIdentifier { .. })) && final(self)@
                        == old(self)@
                }
            }),
    {
        let ghost pre = self@;
        let m = handle.idx;
        let mut slot: Option<ModuleInternals> = None;
        self.modules.set_and_swap(m, &mut slot);
        let mut module = match slot {
            Some(module) => module,
            None => {
                proof {
                    assert(false);
                }
                return Err(
                    HostError::NonexistentIdentifier {
                        ident: String::new(),
                        ident_type: HostIdentifier::Module,
                    },
                );
            },
        };
        proof {
            assert(pre.modules[m as int] == Some(module@));
        }
        let is_midi_input = match &module.kind {
            ModuleKind::MidiInput(_) => true,
            _ => false,
        };
        if !is_midi_input {
            self.modules.set(m, Some(module));
            proof {
                assert(self@ =~= pre);
            }
            return Err(
                HostError::NonexistentIdentifier {
                    ident: String::new(),
                    ident_type: HostIdentifier::Module,
                },
            );
        }
        match &mut module.kind {
            ModuleKind::MidiInput(st) => {
                st.event_queue.push(crate::midi::StagedEvent { time_micros, bytes });
            },
            _ => {},
        }
        proof {
            assert(module@.kind matches ModuleKindView::MidiInput(st2) && st2.event_queue
                =~= pre.at(m as int).kind->MidiInput_0.event_queue.push(
                crate::midi::StagedEventView { time_micros, bytes: bytes@ },
            ));
        }
        self.modules.set(m, Some(module));
        proof {
            let ghost k2 = self@.at(m as int).kind;
            assert(self@ =~= (HostView {
                modules: pre.modules.update(
                    m as int,
                    Some(ModuleView { kind: k2, ..pre.at(m as int) }),
                ),
                ..pre
            }));
            lemma_kind_state_update_wf(pre, m as int, k2, self@);
        }
        Ok(())
    }

    /// Whether a grouped-module name is taken within a group.
    fn grouped_name_taken(&self, group: usize, name: &String) -> (r: bool)
        requires
            group < self@.groups.len(),
        ensures
            r == exists|i: int|
                0 <= i < self@.groups[group as int].grouped_names.len() && (
                #[trigger] self@.groups[group as int].grouped_names[i]) == name@,
    {
        let g = &self.groups[group];
        proof {
            assert(g@ == self@.groups[group as int]);
        }
        let mut i: usize = 0;
        let n = g.grouped_names.len();
        while i < n
            invariant
                i <= n,
                n == g.grouped_names@.len(),
                g@ == self@.groups[group as int],
                forall|j: int| 0 <= j < i ==> (#[trigger] g@.grouped_names[j]) != name@,
            decreases n - i,
        {
            let e = &g.grouped_names[i];
            if *e == *name {
                proof {
                    assert(g@.grouped_names[i as int] == name@);
                }
                return true;
            }
            i = i + 1;
        }
        false
    }

    /// Record a grouped-module name in a group.
    fn push_grouped_name(&mut self, group: usize, name: String)
        requires
            old(self)@.wf(),
            group < old(self)@.groups.len(),
            !exists|i: int|
                0 <= i < old(self)@.groups[group as int].grouped_names.len() && (#[trigger] old(
                    self,
                )@.groups[group as int].grouped_names[i]) == name@,
        ensures
            final(self)@.wf(),
            final(self)@ == (HostView {
                groups: old(self)@.groups.update(
                    group as int,
                    GroupView {
                        grouped_names: old(self)@.groups[group as int].grouped_names.push(name@),
                        ..old(self)@.groups[group as int]
                    },
                ),
                ..old(self)@
            }),
    {
        let ghost pre = self@;
        let mut g = Group { num_instances: 0, named_instances: Vec::new(), grouped_names: Vec::new() };
        self.groups.set_and_swap(group, &mut g);
        proof {
            assert(g@ == pre.groups[group as int]);
        }
        let ghost g0 = g@;
        g.grouped_names.push(name);
        proof {
            assert(g@ =~= (GroupView { grouped_names: g0.grouped_names.push(name@), ..g0 }));
        }
        self.groups.set(group, g);
        proof {
            assert(self@ =~= (HostView {
                groups: pre.groups.update(
                    group as int,
                    GroupView {
                        grouped_names: pre.groups[group as int].grouped_names.push(name@),
                        ..pre.groups[group as int]
                    },
                ),
                ..pre
            }));
            assert forall|m: int| self@.live(m) implies self@.module_wf(m)
                && self@.module_links_wf(m) && self@.module_dependents_wf(m) by {
                assert(pre.live(m));
                assert(self@.at(m) == pre.at(m));
                assert(pre.module_wf(m) && pre.module_links_wf(m) && pre.module_dependents_wf(m));
                lemma_same_modules_links(pre, self@, m);
            }
            assert forall|i: int|
                0 <= i < self@.module_names.len() implies self@.live(
                (#[trigger] self@.module_names[i]).1.idx as int,
            ) by {
                assert(pre.live(pre.module_names[i].1.idx as int));
            }
            let gidx = group as int;
            assert forall|g2: int, i: int, j: int|
                0 <= g2 < self@.groups.len() && 0 <= i < j
                    < self@.groups[g2].grouped_names.len() implies (#[trigger] self@.groups[g2].grouped_names[i])
                != (#[trigger] self@.groups[g2].grouped_names[j]) by {
                if g2 != gidx {
                    assert(self@.groups[g2] == pre.groups[g2]);
                } else {
                    if j == self@.groups[g2].grouped_names.len() - 1 {
                        assert(self@.groups[g2].grouped_names[j] == name@);
                        assert(pre.groups[gidx].grouped_names[i] != name@);
                    } else {
                        assert(self@.groups[g2].grouped_names[i] == pre.groups[g2].grouped_names[i]);
                        assert(self@.groups[g2].grouped_names[j] == pre.groups[g2].grouped_names[j]);
                    }
                }
            }
            assert forall|g2: int, i: int, j: int|
                0 <= g2 < self@.groups.len() && 0 <= i < j
                    < self@.groups[g2].named_instances.len() implies (#[trigger] self@.groups[g2].named_instances[i]).0
                != (#[trigger] self@.groups[g2].named_instances[j]).0 by {
                if g2 != gidx {
                    assert(self@.groups[g2] == pre.groups[g2]);
                } else {
                    assert(self@.groups[g2].named_instances == pre.groups[g2].named_instances);
                }
            }
            assert forall|g2: int, i: int|
                0 <= g2 < self@.groups.len() && 0 <= i
                    < self@.groups[g2].named_instances.len() implies (#[trigger] self@.groups[g2].named_instances[i]).1.offset
                < self@.groups[g2].num_instances by {
                if g2 != gidx {
                    assert(self@.groups[g2] == pre.groups[g2]);
                } else {
                    assert(self@.groups[g2].named_instances == pre.groups[g2].named_instances);
                    assert(self@.groups[g2].num_instances == pre.groups[g2].num_instances);
                }
            }
            assert forall|g2: int|
                0 <= g2 < self@.groups.len() implies (#[trigger] self@.groups[g2]).num_instances
                <= usize::MAX - 8 by {
                if g2 != gidx {
                    assert(self@.groups[g2] == pre.groups[g2]);
                }
            }
            assert(self@.at(self@.output_handle.idx as int) == pre.at(
                pre.output_handle.idx as int,
            ));
        }
    }

    /// Create one module whose variadic arity is the group's instance
    /// count, registered in the group under `name`.  Fails, leaving the
    /// host unchanged, when the name is taken in the group.
    pub fn create_group_joining_module(
        &mut self,
        group_handle: GroupHandle,
        name: &str,
        settings: ModuleSettings,
    ) -> (r: HostResult<GroupJoiningModuleHandle>)
        requires
            old(self)@.wf(),
            group_handle.idx < old(self)@.groups.len(),
        ensures
            final(self)@.wf(),
            ({
                let taken = exists|i: int|
                    0 <= i < old(self)@.groups[group_handle.idx as int].grouped_names.len() && (
                    #[trigger] old(self)@.groups[group_handle.idx as int].grouped_names[i])
                        == name@;
                if taken {
                    (r matches Err(HostError::DuplicateIdentifier { .. })) && final(self)@ == old(
                        self,
                    )@
                } else {
                    r matches Ok(h) && h.group == group_handle && h.handle.idx == old(
                        self,
                    )@.modules.len() && final(self)@ == (HostView {
                        modules: old(self)@.modules.push(
                            Some(
                                settings_module_view(
                                    settings@,
                                    old(self)@.groups[group_handle.idx as int].num_instances,
                                ),
                            ),
                        ),
                        groups: old(self)@.groups.update(
                            group_handle.idx as int,
                            GroupView {
                                grouped_names: old(self)@.groups[group_handle.idx as int].grouped_names.push(
                                    name@,
                                ),
                                ..old(self)@.groups[group_handle.idx as int]
                            },
                        ),
                        ..old(self)@
                    })
                }
            }),
    {
        let key: String = name.to_owned();
        if self.grouped_name_taken(group_handle.idx, &key) {
            return Err(
                HostError::DuplicateIdentifier {
                    ident: key,
                    ident_type: HostIdentifier::GroupedModule,
                },
            );
        }
        let num_args = self.groups[group_handle.idx].num_instances;
        proof {
            assert(num_args == self@.groups[group_handle.idx as int].num_instances);
        }
        let module = match build_module(&settings, num_args) {
            Ok(m) => m,
            Err(e) => {
                proof {
                    assert(false);
                }
                return Err(
                    HostError::GroupedModuleInit {
                        group_name: String::new(),
                        module_name: key,
                        source: e,
                    },
                );
            },
        };
        let handle = self.insert_module(module);
        self.push_grouped_name(group_handle.idx, key);
        Ok(GroupJoiningModuleHandle { group: group_handle, handle })
    }

    /// Create one module per group instance, all from the same settings and
    /// with the given variadic arity, registered in the group under `name`.
    /// Fails, leaving the host unchanged, when the name is taken in the
    /// group.
    pub fn create_group_instance_variadic_module(
        &mut self,
        group_handle: GroupHandle,
        name: &str,
        settings: &ModuleSettings,
        num_args: usize,
    ) -> (r: HostResult<GroupInstanceModuleHandle>)
        requires
            old(self)@.wf(),
            group_handle.idx < old(self)@.groups.len(),
            num_args <= usize::MAX - 8,
        ensures
            final(self)@.wf(),
            ({
                let taken = exists|i: int|
                    0 <= i < old(self)@.groups[group_handle.idx as int].grouped_names.len() && (
                    #[trigger] old(self)@.groups[group_handle.idx as int].grouped_names[i])
                        == name@;
                let kk = old(self)@.groups[group_handle.idx as int].num_instances;
                if taken {
                    (r matches Err(HostError::DuplicateIdentifier { .. })) && final(self)@ == old(
                        self,
                    )@
                } else {
                    r matches Ok(h) && h.group == group_handle && h.handles@.len() == kk && (
                    forall|i: int|
                        0 <= i < kk ==> (#[trigger] h.handles@[i]).idx == old(
                            self,
                        )@.modules.len() + i) && final(self)@ == (HostView {
                        modules: old(self)@.modules + Seq::new(
                            kk as nat,
                            |i: int| Some(settings_module_view(settings@, num_args)),
                        ),
                        groups: old(self)@.groups.update(
                            group_handle.idx as int,
                            GroupView {
                                grouped_names: old(self)@.groups[group_handle.idx as int].grouped_names.push(
                                    name@,
                                ),
                                ..old(self)@.groups[group_handle.idx as int]
                            },
                        ),
                        ..old(self)@
                    })
                }
            }),
    {
        let ghost pre = self@;
        let key: String = name.to_owned();
        if self.grouped_name_taken(group_handle.idx, &key) {
            return Err(
                HostError::DuplicateIdentifier {
                    ident: key,
                    ident_type: HostIdentifier::GroupedModule,
                },
            );
        }
        let kk = self.groups[group_handle.idx].num_instances;
        proof {
            assert(kk == pre.groups[group_handle.idx as int].num_instances);
        }
        let base = self.modules.len();
        let mut handles: Vec<ModuleHandle> = Vec::new();
        let mut i: usize = 0;
        while i < kk
            invariant
                i <= kk,
                pre.wf(),
                pre == old(self)@,
                num_args <= usize::MAX - 8,
                base == pre.modules.len(),
                self@.wf(),
                handles@.len() == i,
                forall|j: int| 0 <= j < i ==> (#[trigger] handles@[j]).idx == base + j,
                self@.modules == pre.modules + Seq::new(
                    i as nat,
                    |j: int| Some(settings_module_view(settings@, num_args)),
                ),
                self@.module_names == pre.module_names,
                self@.groups == pre.groups,
                self@.group_names == pre.group_names,
                self@.output_handle == pre.output_handle,
            decreases kk - i,
        {
            let module = match build_module(settings, num_args) {
                Ok(m) => m,
                Err(e) => {
                    proof {
                        assert(false);
                    }
                    return Err(
                        HostError::GroupedModuleInit {
                            group_name: String::new(),
                            module_name: key,
                            source: e,
                        },
                    );
                },
            };
            let h = self.insert_module(module);
            handles.push(h);
            proof {
                assert(self@.modules =~= pre.modules + Seq::new(
                    (i + 1) as nat,
                    |j: int| Some(settings_module_view(settings@, num_args)),
                ));
            }
            i = i + 1;
        }
        self.push_grouped_name(group_handle.idx, key);
        proof {
            assert(self@ =~= (HostView {
                modules: pre.modules + Seq::new(
                    kk as nat,
                    |i: int| Some(settings_module_view(settings@, num_args)),
                ),
                groups: pre.groups.update(
                    group_handle.idx as int,
                    GroupView {
                        grouped_names: pre.groups[group_handle.idx as int].grouped_names.push(
                            name@,
                        ),
                        ..pre.groups[group_handle.idx as int]
                    },
                ),
                ..pre
            }));
        }
        Ok(GroupInstanceModuleHandle { group: group_handle, handles })
    }

    /// Create one non-variadic module per group instance.
    pub fn create_group_instance_module(
        &mut self,
        group_handle: GroupHandle,
        name: &str,
        settings: &ModuleSettings,
    ) -> (r: HostResult<GroupInstanceModuleHandle>)
        requires
            old(self)@.wf(),
            group_handle.idx < old(self)@.groups.len(),
        ensures
            final(self)@.wf(),
            ({
                let taken = exists|i: int|
                    0 <= i < old(self)@.groups[group_handle.idx as int].grouped_names.len() && (
                    #[trigger] old(self)@.groups[group_handle.idx as int].grouped_names[i])
                        == name@;
                let kk = old(self)@.groups[group_handle.idx as int].num_instances;
                if taken {
                    (r matches Err(HostError::DuplicateIdentifier { .. })) && final(self)@ == old(
                        self,
                    )@
                } else {
                    r matches Ok(h) && h.group == group_handle && h.handles@.len() == kk && (
                    forall|i: int|
                        0 <= i < kk ==> (#[trigger] h.handles@[i]).idx == old(
                            self,
                        )@.modules.len() + i) && final(self)@ == (HostView {
                        modules: old(self)@.modules + Seq::new(
                            kk as nat,
                            |i: int| Some(settings_module_view(settings@, 0)),
                        ),
                        groups: old(self)@.groups.update(
                            group_handle.idx as int,
                            GroupView {
                                grouped_names: old(self)@.groups[group_handle.idx as int].grouped_names.push(
                                    name@,
                                ),
                                ..old(self)@.groups[group_handle.idx as int]
                            },
                        ),
                        ..old(self)@
                    })
                }
            }),
    {
        self.create_group_instance_variadic_module(group_handle, name, settings, 0)
    }

    /// The flat group handle of one named port of a joining grouped module:
    /// the K slots of the module's variadic port, one per instance.
    pub fn group_joining_buf(
        &self,
        handle: GroupJoiningModuleHandle,
        dir: BufferDirEnum,
        elem: BufferElemEnum,
        name: &str,
    ) -> (r: HostResult<GroupBufferHandle>)
        requires
            self@.wf(),
            self@.live(handle.handle.idx as int),
        ensures
            r is Ok <==> self@.has_variadic_port(handle.handle.idx as int, dir, elem, name@),
            r matches Ok(g) ==> ({
                let v = self@.variadic_port_handle(handle.handle.idx as int, dir, elem, name@);
                &&& g.group == handle.group
                &&& g.handles@.len() == v.num_args
                &&& v.buffer.idx + v.num_args <= self@.port_slots(handle.handle.idx as int, dir)
                &&& (forall|i: int|
                    0 <= i < v.num_args ==> (#[trigger] g.handles@[i]) == (ModuleBufferHandle {
                        module_handle: handle.handle,
                        ty: BufferType { dir, elem },
                        buf_handle: BufferHandle { idx: (v.buffer.idx + i) as usize },
                    }))
            }),
            r matches Err(e) ==> (if crate::ports::names_has(
                self@.port_names(handle.handle.idx as int, dir),
                name@,
                elem,
            ) {
                e matches HostError::UnexpectedBufferArity { .. }
            } else {
                e matches HostError::NonexistentIdentifier { .. }
            }),
    {
        match self.variadic_buf(handle.handle, dir, elem, name) {
            Ok(v) => Ok(v.all(handle.group)),
            Err(e) => Err(e),
        }
    }

    /// The flat group handle of one named single port across the instances
    /// of an instance grouped module.
    pub fn group_instance_buf(
        &self,
        handle: &GroupInstanceModuleHandle,
        dir: BufferDirEnum,
        elem: BufferElemEnum,
        name: &str,
    ) -> (r: HostResult<GroupBufferHandle>)
        requires
            self@.wf(),
            forall|i: int|
                0 <= i < handle.handles@.len() ==> self@.live(
                    (#[trigger] handle.handles@[i]).idx as int,
                ),
        ensures
            r is Ok <==> (forall|i: int|
                0 <= i < handle.handles@.len() ==> self@.has_single_port(
                    (#[trigger] handle.handles@[i]).idx as int,
                    dir,
                    elem,
                    name@,
                )),
            r matches Ok(g) ==> g.group == handle.group && g.handles@.len()
                == handle.handles@.len() && (forall|i: int|
                0 <= i < g.handles@.len() ==> (#[trigger] g.handles@[i]) == (ModuleBufferHandle {
                    module_handle: handle.handles@[i],
                    ty: BufferType { dir, elem },
                    buf_handle: self@.single_port_handle(
                        handle.handles@[i].idx as int,
                        dir,
                        elem,
                        name@,
                    ),
                }) && g.handles@[i].buf_handle.idx < self@.port_slots(
                    handle.handles@[i].idx as int,
                    dir,
                )),
            r matches Err(e) ==> (exists|i: int|
                {
                    &&& 0 <= i < handle.handles@.len()
                    &&& !self@.has_single_port(
                        (#[trigger] handle.handles@[i]).idx as int,
                        dir,
                        elem,
                        name@,
                    )
                    &&& (forall|j: int|
                        0 <= j < i ==> self@.has_single_port(
                            (#[trigger] handle.handles@[j]).idx as int,
                            dir,
                            elem,
                            name@,
                        ))
                    &&& (if crate::ports::names_has(
                        self@.port_names(handle.handles@[i].idx as int, dir),
                        name@,
                        elem,
                    ) {
                        e matches HostError::UnexpectedBufferArity { .. }
                    } else {
                        e matches HostError::NonexistentIdentifier { .. }
                    })
                }),
    {
        let mut out: Vec<ModuleBufferHandle> = Vec::new();
        let mut i: usize = 0;
        while i < handle.handles.len()
            invariant
                i <= handle.handles@.len(),
                self@.wf(),
                forall|j: int|
                    0 <= j < handle.handles@.len() ==> self@.live(
                        (#[trigger] handle.handles@[j]).idx as int,
                    ),
                out@.len() == i,
                forall|j: int|
                    0 <= j < i ==> self@.has_single_port(
                        (#[trigger] handle.handles@[j]).idx as int,
                        dir,
                        elem,
                        name@,
                    ),
                forall|j: int|
                    0 <= j < i ==> (#[trigger] out@[j]) == (ModuleBufferHandle {
                        module_handle: handle.handles@[j],
                        ty: BufferType { dir, elem },
                        buf_handle: self@.single_port_handle(
                            handle.handles@[j].idx as int,
                            dir,
                            elem,
                            name@,
                        ),
                    }) && out@[j].buf_handle.idx < self@.port_slots(
                        handle.handles@[j].idx as int,
                        dir,
                    ),
            decreases handle.handles@.len() - i,
        {
            match self.buf(handle.handles[i], dir, elem, name) {
                Ok(h) => {
                    out.push(h);
                },
                Err(e) => {
                    return Err(e);
                },
            }
            i = i + 1;
        }
        Ok(GroupBufferHandle { group: handle.group, handles: out })
    }

    /// The group-variadic handle of one named variadic port across the
    /// instances of an instance grouped module.
    pub fn group_instance_variadic_buf(
        &self,
        handle: &GroupInstanceModuleHandle,
        dir: BufferDirEnum,
        elem: BufferElemEnum,
        name: &str,
    ) -> (r: HostResult<GroupVariadicBufferHandle>)
        requires
            self@.wf(),
            forall|i: int|
                0 <= i < handle.handles@.len() ==> self@.live(
                    (#[trigger] handle.handles@[i]).idx as int,
                ),
        ensures
            r is Ok <==> (forall|i: int|
                0 <= i < handle.handles@.len() ==> self@.has_variadic_port(
                    (#[trigger] handle.handles@[i]).idx as int,
                    dir,
                    elem,
                    name@,
                )),
            r matches Ok(g) ==> g.group == handle.group && g.handles@.len()
                == handle.handles@.len() && (forall|i: int|
                0 <= i < g.handles@.len() ==> (#[trigger] g.handles@[i]) == (ModuleVariadicBufferHandle {
                    module_handle: handle.handles@[i],
                    ty: BufferType { dir, elem },
                    buf_handle: self@.variadic_port_handle(
                        handle.handles@[i].idx as int,
                        dir,
                        elem,
                        name@,
                    ),
                }) && g.handles@[i].buf_handle.buffer.idx + g.handles@[i].buf_handle.num_args
                    <= self@.port_slots(handle.handles@[i].idx as int, dir) && self@.port_slots(
                    handle.handles@[i].idx as int,
                    dir,
                ) <= usize::MAX),
            r matches Err(e) ==> (exists|i: int|
                {
                    &&& 0 <= i < handle.handles@.len()
                    &&& !self@.has_variadic_port(
                        (#[trigger] handle.handles@[i]).idx as int,
                        dir,
                        elem,
                        name@,
                    )
                    &&& (forall|j: int|
                        0 <= j < i ==> self@.has_variadic_port(
                            (#[trigger] handle.handles@[j]).idx as int,
                            dir,
                            elem,
                            name@,
                        ))
                    &&& (if crate::ports::names_has(
                        self@.port_names(handle.handles@[i].idx as int, dir),
                        name@,
                        elem,
                    ) {
                        e matches HostError::UnexpectedBufferArity { .. }
                    } else {
                        e matches HostError::NonexistentIdentifier { .. }
                    })
                }),
    {
        let mut out: Vec<ModuleVariadicBufferHandle> = Vec::new();
        let mut i: usize = 0;
        while i < handle.handles.len()
            invariant
                i <= handle.handles@.len(),
                self@.wf(),
                forall|j: int|
                    0 <= j < handle.handles@.len() ==> self@.live(
                        (#[trigger] handle.handles@[j]).idx as int,
                    ),
                out@.len() == i,
                forall|j: int|
                    0 <= j < i ==> self@.has_variadic_port(
                        (#[trigger] handle.handles@[j]).idx as int,
                        dir,
                        elem,
                        name@,
                    ),
                forall|j: int|
                    0 <= j < i ==> (#[trigger] out@[j]) == (ModuleVariadicBufferHandle {
                        module_handle: handle.handles@[j],
                        ty: BufferType { dir, elem },
                        buf_handle: self@.variadic_port_handle(
                            handle.handles@[j].idx as int,
                            dir,
                            elem,
                            name@,
                        ),
                    }) && out@[j].buf_handle.buffer.idx + out@[j].buf_handle.num_args
                        <= self@.port_slots(handle.handles@[j].idx as int, dir)
                        && self@.port_slots(handle.handles@[j].idx as int, dir) <= usize::MAX,
            decreases handle.handles@.len() - i,
        {
            match self.variadic_buf(handle.handles[i], dir, elem, name) {
                Ok(h) => {
                    out.push(h);
                },
                Err(e) => {
                    return Err(e);
                },
            }
            i = i + 1;
        }
        Ok(GroupVariadicBufferHandle { group: handle.group, handles: out })
    }

    /// Whether a group name is taken.
    fn group_name_taken(&self, name: &String) -> (r: bool)
        ensures
            r == self@.has_group_name(name@),
    {
        let mut i: usize = 0;
        let n = self.group_handles.len();
        while i < n
            invariant
                i <= n,
                n == self@.group_names.len(),
                n == self.group_handles@.len(),
                forall|j: int| 0 <= j < i ==> (#[trigger] self@.group_names[j]).0 != name@,
            decreases n - i,
        {
            let e = &self.group_handles[i];
            if e.0 == *name {
                proof {
                    assert(self@.group_names[i as int].0 == name@);
                }
                return true;
            }
            i = i + 1;
        }
        false
    }

    /// Declare a group of `anonymous_instances` unnamed instances plus one
    /// instance per given name.  Fails, leaving the host unchanged, when the
    /// group name or an instance name is already taken.
    pub fn create_group(
        &mut self,
        name: &str,
        anonymous_instances: usize,
        named_instances: Option<&Vec<String>>,
    ) -> (r: HostResult<GroupHandle>)
        requires
            old(self)@.wf(),
            anonymous_instances + (match named_instances {
                Some(v) => v@.len(),
                None => 0,
            }) <= usize::MAX - 8,
        ensures
            final(self)@.wf(),
            (old(self)@.has_group_name(name@) || has_dup_names(instance_names_of(named_instances)))
                ==> ((r matches Err(HostError::DuplicateIdentifier { .. })) && final(self)@ == old(
                self,
            )@),
            !(old(self)@.has_group_name(name@) || has_dup_names(
                instance_names_of(named_instances),
            )) ==> (r matches Ok(h) && h.idx == old(self)@.groups.len() && final(self)@
                == (HostView {
                groups: old(self)@.groups.push(
                    GroupView {
                        num_instances: (anonymous_instances + instance_names_of(
                            named_instances,
                        ).len()) as usize,
                        named_instances: Seq::new(
                            instance_names_of(named_instances).len(),
                            |i: int|
                                (
                                    instance_names_of(named_instances)[i],
                                    GroupInstanceHandle { group: h, offset: i as usize },
                                ),
                        ),
                        grouped_names: Seq::empty(),
                    },
                ),
                group_names: old(self)@.group_names.push((name@, h)),
                ..old(self)@
            })),
            r is Ok <==> !(old(self)@.has_group_name(name@) || has_dup_names(
                instance_names_of(named_instances),
            )),
    {
        let ghost pre = self@;
        let key: String = name.to_owned();
        if self.group_name_taken(&key) {
            return Err(
                HostError::DuplicateIdentifier { ident: key, ident_type: HostIdentifier::Group },
            );
        }
        let idx = self.groups.len();
        let handle = GroupHandle { idx };
        let ghost names_view = match named_instances {
            Some(v) => Seq::new(v@.len(), |i: int| v@[i]@),
            None => Seq::<Seq<char>>::empty(),
        };
        let mut num_instances = anonymous_instances;
        let mut named: Vec<(String, GroupInstanceHandle)> = Vec::new();
        match named_instances {
            Some(list) => {
                let mut i: usize = 0;
                while i < list.len()
                    invariant
                        i <= list@.len(),
                        names_view.len() == list@.len(),
                        forall|j: int| 0 <= j < list@.len() ==> names_view[j] == list@[j]@,
                        num_instances == anonymous_instances + i,
                        anonymous_instances + list@.len() <= usize::MAX - 8,
                        pre.wf(),
                        named@.len() == i,
                        forall|j: int|
                            0 <= j < i ==> (#[trigger] named@[j]).0@ == names_view[j]
                                && named@[j].1 == (GroupInstanceHandle {
                                group: handle,
                                offset: j as usize,
                            }),
                        forall|j1: int, j2: int|
                            0 <= j1 < j2 < i ==> names_view[j1] != names_view[j2],
                        self@ == pre,
                        pre == old(self)@,
                        named_instances == Some(list),
                        handle.idx == old(self)@.groups.len(),
                        !old(self)@.has_group_name(name@),
                        names_view == (match named_instances {
                            Some(v) => Seq::new(v@.len(), |l: int| v@[l]@),
                            None => Seq::<Seq<char>>::empty(),
                        }),
                    decreases list@.len() - i,
                {
                    let instance_name = &list[i];
                    // reject a duplicate instance name
                    let mut j: usize = 0;
                    while j < named.len()
                        invariant
                            j <= named@.len(),
                            named@.len() == i,
                            i < list@.len(),
                            names_view.len() == list@.len(),
                            forall|l: int| 0 <= l < list@.len() ==> names_view[l] == list@[l]@,
                            instance_name == &list[i as int],
                            forall|l: int| 0 <= l < i ==> (#[trigger] named@[l]).0@ == names_view[l],
                            forall|l: int| 0 <= l < j ==> names_view[l] != names_view[i as int],
                            self@ == pre,
                            pre.wf(),
                            pre == old(self)@,
                            named_instances == Some(list),
                            !old(self)@.has_group_name(name@),
                        decreases named@.len() - j,
                    {
                        let e = &named[j];
                        if e.0 == *instance_name {
                            proof {
                                assert(names_view[j as int] == names_view[i as int]);
                                let names = match named_instances {
                                    Some(v) => Seq::new(v@.len(), |l: int| v@[l]@),
                                    None => Seq::<Seq<char>>::empty(),
                                };
                                assert(names =~= names_view);
                                assert(names[j as int] == names[i as int]);
                                assert(0 <= j < i < names.len());
                                assert(instance_names_of(named_instances) == names);
                                assert(has_dup_names(instance_names_of(named_instances)));
                            }
                            return Err(
                                HostError::DuplicateIdentifier {
                                    ident: instance_name.clone(),
                                    ident_type: HostIdentifier::GroupInstance,
                                },
                            );
                        }
                        j = j + 1;
                    }
                    named.push(
                        (instance_name.clone(), GroupInstanceHandle { group: handle, offset: i }),
                    );
                    num_instances = num_instances + 1;
                    i = i + 1;
                }
            },
            None => {},
        }
        proof {
            assert(instance_names_of(named_instances) =~= names_view);
            if has_dup_names(instance_names_of(named_instances)) {
                let (a, b) = choose|a: int, b: int|
                    0 <= a < b < names_view.len() && names_view[a] == names_view[b];
                assert(false);
            }
        }
        let group = Group { num_instances, named_instances: named, grouped_names: Vec::new() };
        proof {
            assert(group@.named_instances =~= Seq::new(
                names_view.len(),
                |i: int| (names_view[i], GroupInstanceHandle { group: handle, offset: i as usize }),
            ));
            assert(group@.grouped_names =~= Seq::<Seq<char>>::empty());
        }
        self.groups.push(group);
        self.group_handles.push((key, handle));
        proof {
            assert(self@.groups =~= pre.groups.push(group@));
            assert(self@.group_names =~= pre.group_names.push((name@, handle)));
            assert(self@.modules =~= pre.modules);
            assert(self@.module_names =~= pre.module_names);
            assert(self@ =~= (HostView {
                groups: pre.groups.push(group@),
                group_names: pre.group_names.push((name@, handle)),
                ..pre
            }));
            lemma_group_push_wf(pre, self@, group@, name@, handle);
        }
        Ok(handle)
    }

    /// Look up a single port of a module by direction, element kind, and
    /// name.
    pub fn buf(&self, handle: ModuleHandle, dir: BufferDirEnum, elem: BufferElemEnum, name: &str)
        -> (r: HostResult<ModuleBufferHandle>)
        requires
            self@.wf(),
            self@.live(handle.idx as int),
        ensures
            ({
                let names = self@.port_names(handle.idx as int, dir);
                &&& match r {
                    Ok(h) => {
                        &&& h.module_handle == handle
                        &&& h.ty == (BufferType { dir, elem })
                        &&& crate::ports::names_has(names, name@, elem)
                        &&& crate::ports::names_entry_for(names, name@, elem).arity
                            == HandleArity::Single(h.buf_handle)
                        &&& h.buf_handle.idx < self@.port_slots(handle.idx as int, dir)
                    },
                    Err(HostError::UnexpectedBufferArity { .. }) => crate::ports::names_has(
                        names,
                        name@,
                        elem,
                    ) && crate::ports::names_entry_for(names, name@, elem).arity is Variadic,
                    Err(HostError::NonexistentIdentifier { .. }) => !crate::ports::names_has(
                        names,
                        name@,
                        elem,
                    ),
                    Err(_) => false,
                }
                &&& (r is Ok <==> crate::ports::names_has(names, name@, elem)
                    && crate::ports::names_entry_for(names, name@, elem).arity is Single)
            }),
    {
        let m = match &self.modules[handle.idx] {
            Some(m) => m,
            None => {
                proof {
                    assert(false);
                }
                return Err(
                    HostError::NonexistentIdentifier {
                        ident: name.to_owned(),
                        ident_type: HostIdentifier::Module,
                    },
                );
            },
        };
        proof {
            assert(m@ == self@.at(handle.idx as int));
        }
        let key: String = name.to_owned();
        let bh = match dir {
            BufferDirEnum::In => m.buf_in.ports.get_handle(&key, elem),
            BufferDirEnum::Out => m.buf_out.ports.get_handle(&key, elem),
        };
        let ghost names = self@.port_names(handle.idx as int, dir);
        match bh {
            Ok(b) => {
                proof {
                    let i = choose|i: int|
                        0 <= i < names.len() && (#[trigger] names[i]).is_match(name@, elem);
                    assert(crate::ports::names_entry_for(names, name@, elem) == names[i]);
                    if dir is In {
                        assert(self@.at(handle.idx as int).ins.entry_in_range(names[i]));
                    } else {
                        assert(self@.at(handle.idx as int).outs.entry_in_range(names[i]));
                    }
                }
                Ok(ModuleBufferHandle { module_handle: handle, ty: BufferType { dir, elem }, buf_handle: b })
            },
            Err(e) => Err(e),
        }
    }

    /// Look up a variadic port run of a module by direction, element kind,
    /// and name.
    pub fn variadic_buf(
        &self,
        handle: ModuleHandle,
        dir: BufferDirEnum,
        elem: BufferElemEnum,
        name: &str,
    ) -> (r: HostResult<ModuleVariadicBufferHandle>)
        requires
            self@.wf(),
            self@.live(handle.idx as int),
        ensures
            ({
                let names = self@.port_names(handle.idx as int, dir);
                &&& match r {
                    Ok(h) => {
                        &&& h.module_handle == handle
                        &&& h.ty == (BufferType { dir, elem })
                        &&& crate::ports::names_has(names, name@, elem)
                        &&& crate::ports::names_entry_for(names, name@, elem).arity
                            == HandleArity::Variadic(h.buf_handle)
                        &&& h.buf_handle.num_args == self@.at(handle.idx as int).num_args || h.buf_handle.num_args == self@.at(handle.idx as int).ins.num_args || h.buf_handle.num_args == self@.at(handle.idx as int).outs.num_args
                        &&& h.buf_handle.buffer.idx + h.buf_handle.num_args <= self@.port_slots(
                            handle.idx as int,
                            dir,
                        )
                        &&& self@.port_slots(handle.idx as int, dir) <= usize::MAX
                    },
                    Err(HostError::UnexpectedBufferArity { .. }) => crate::ports::names_has(
                        names,
                        name@,
                        elem,
                    ) && crate::ports::names_entry_for(names, name@, elem).arity is Single,
                    Err(HostError::NonexistentIdentifier { .. }) => !crate::ports::names_has(
                        names,
                        name@,
                        elem,
                    ),
                    Err(_) => false,
                }
                &&& (r is Ok <==> crate::ports::names_has(names, name@, elem)
                    && crate::ports::names_entry_for(names, name@, elem).arity is Variadic)
            }),
    {
        let m = match &self.modules[handle.idx] {
            Some(m) => m,
            None => {
                proof {
                    assert(false);
                }
                return Err(
                    HostError::NonexistentIdentifier {
                        ident: name.to_owned(),
                        ident_type: HostIdentifier::Module,
                    },
                );
            },
        };
        proof {
            assert(m@ == self@.at(handle.idx as int));
        }
        let key: String = name.to_owned();
        let n_slots: usize = match dir {
            BufferDirEnum::In => m.buf_in.ports.buffers.len(),
            BufferDirEnum::Out => m.buf_out.ports.buffers.len(),
        };
        let bh = match dir {
            BufferDirEnum::In => m.buf_in.ports.get_variadic_handle(&key, elem),
            BufferDirEnum::Out => m.buf_out.ports.get_variadic_handle(&key, elem),
        };
        let ghost names = self@.port_names(handle.idx as int, dir);
        match bh {
            Ok(b) => {
                proof {
                    let i = choose|i: int|
                        0 <= i < names.len() && (#[trigger] names[i]).is_match(name@, elem);
                    assert(crate::ports::names_entry_for(names, name@, elem) == names[i]);
                    if dir is In {
                        assert(self@.at(handle.idx as int).ins.entry_in_range(names[i]));
                    } else {
                        assert(self@.at(handle.idx as int).outs.entry_in_range(names[i]));
                    }
                    assert(self@.port_slots(handle.idx as int, dir) == n_slots);
                }
                Ok(
                    ModuleVariadicBufferHandle {
                        module_handle: handle,
                        ty: BufferType { dir, elem },
                        buf_handle: b,
                    },
                )
            },
            Err(e) => Err(e),
        }
    }
}

/// Appending a fresh module preserves the host invariant.
proof fn lemma_push_module_wf(pre: HostView, post: HostView, mv: ModuleView)
    requires
        pre.wf(),
        fresh_module_wf(mv),
        post == (HostView { modules: pre.modules.push(Some(mv)), ..pre }),
        post.modules.len() <= usize::MAX,
    ensures
        post.wf(),
{
    let n = pre.modules.len() as int;
    assert forall|m: int| post.live(m) implies post.module_wf(m) by {
        if m < n {
            assert(pre.live(m));
            assert(pre.module_wf(m));
            assert(post.at(m) == pre.at(m));
        } else {
            assert(post.at(m) == mv);
            assert(forall|p: int|
                0 <= p < mv.ins.buffers.len() ==> !(#[trigger] mv.ins.buffers[p]).is_linked());
            lemma_count_linked_no_links(mv.ins.buffers);
        }
    }
    assert forall|m: int| post.live(m) implies post.module_links_wf(m) by {
        if m < n {
            assert(pre.module_links_wf(m));
            assert(post.at(m) == pre.at(m));
            assert forall|p: int|
                0 <= p < post.at(m).ins.buffers.len() implies ((#[trigger] post.at(
                m,
            ).ins.buffers[p]) matches BufferInPortView::OutBuffer(h) ==> {
                &&& post.valid_out(h)
                &&& post.out_port(h).dependents.contains(in_handle_of(m, p, h.ty.elem))
            }) by {
                match post.at(m).ins.buffers[p] {
                    BufferInPortView::OutBuffer(h) => {
                        assert(pre.at(m).ins.buffers[p] == post.at(m).ins.buffers[p]);
                        assert(pre.valid_out(h));
                        assert(post.at(h.module_handle.idx as int) == pre.at(
                            h.module_handle.idx as int,
                        ));
                    },
                    BufferInPortView::Constant(_) => {},
                }
            }
        } else {
            assert(post.at(m) == mv);
            assert forall|p: int|
                0 <= p < post.at(m).ins.buffers.len() implies !((#[trigger] post.at(
                m,
            ).ins.buffers[p]) is OutBuffer) by {
                assert(mv.ins.buffers[p] is Constant);
            }
        }
    }
    assert forall|m: int| post.live(m) implies post.module_dependents_wf(m) by {
        if m < n {
            assert(pre.module_dependents_wf(m));
            assert(post.at(m) == pre.at(m));
            assert forall|p: int|
                0 <= p < post.at(m).outs.buffers.len() implies {
                let dep = (#[trigger] post.at(m).outs.buffers[p]).dependents;
                let elem = post.at(m).outs.buffers[p].buffer.elem();
                &&& (forall|k: int|
                    0 <= k < dep.len() ==> {
                        &&& post.valid_in(#[trigger] dep[k])
                        &&& dep[k].ty.elem == elem
                        &&& post.in_port(dep[k]) == BufferInPortView::OutBuffer(
                            out_handle_of(m, p, elem),
                        )
                    })
                &&& (forall|k1: int, k2: int| 0 <= k1 < k2 < dep.len() ==> dep[k1] != dep[k2])
            } by {
                let dep = post.at(m).outs.buffers[p].dependents;
                let elem = post.at(m).outs.buffers[p].buffer.elem();
                assert(pre.at(m).outs.buffers[p] == post.at(m).outs.buffers[p]);
                assert forall|k: int| 0 <= k < dep.len() implies {
                    &&& post.valid_in(#[trigger] dep[k])
                    &&& dep[k].ty.elem == elem
                    &&& post.in_port(dep[k]) == BufferInPortView::OutBuffer(
                        out_handle_of(m, p, elem),
                    )
                } by {
                    assert(pre.valid_in(dep[k]));
                    assert(post.at(dep[k].module_handle.idx as int) == pre.at(
                        dep[k].module_handle.idx as int,
                    ));
                }
            }
        } else {
            assert(post.at(m) == mv);
            assert forall|p: int|
                0 <= p < post.at(m).outs.buffers.len() implies (#[trigger] post.at(
                m,
            ).outs.buffers[p]).dependents.len() == 0 by {
                assert(mv.outs.buffers[p].dependents == Seq::<ModuleBufferHandle>::empty());
            }
        }
    }
    assert forall|i: int|
        0 <= i < post.module_names.len() implies post.live(
        (#[trigger] post.module_names[i]).1.idx as int,
    ) by {
        assert(pre.live(pre.module_names[i].1.idx as int));
    }
    assert(post.live(post.output_handle.idx as int));
    assert(post.at(post.output_handle.idx as int) == pre.at(pre.output_handle.idx as int));
}

/// Registering a fresh name preserves the host invariant.
proof fn lemma_push_name_wf(pre: HostView, post: HostView, name: Seq<char>, h: ModuleHandle)
    requires
        pre.wf(),
        !pre.has_module_name(name),
        pre.live(h.idx as int),
        post == (HostView { module_names: pre.module_names.push((name, h)), ..pre }),
    ensures
        post.wf(),
{
    let n = pre.module_names.len() as int;
    assert forall|m: int| post.live(m) implies post.module_wf(m) && post.module_links_wf(m)
        && post.module_dependents_wf(m) by {
        assert(pre.live(m));
        assert(post.at(m) == pre.at(m));
        assert(pre.module_wf(m) && pre.module_links_wf(m) && pre.module_dependents_wf(m));
        lemma_same_modules_links(pre, post, m);
    }
    assert forall|i: int, j: int|
        0 <= i < j < post.module_names.len() implies (#[trigger] post.module_names[i]).0 != (
    #[trigger] post.module_names[j]).0 by {
        if j < n {
        } else {
            assert(post.module_names[j].0 == name);
            assert(!pre.has_module_name(name));
            if post.module_names[i].0 == name {
                assert(pre.module_names[i].0 == name);
                assert(pre.has_module_name(name));
            }
        }
    }
    assert(post.at(post.output_handle.idx as int) == pre.at(pre.output_handle.idx as int));
}

/// Two host views with the same module store agree on every per-module
/// invariant.
proof fn lemma_same_modules_links(pre: HostView, post: HostView, m: int)
    requires
        pre.modules == post.modules,
        pre.live(m),
        pre.module_wf(m),
        pre.module_links_wf(m),
        pre.module_dependents_wf(m),
    ensures
        post.module_wf(m),
        post.module_links_wf(m),
        post.module_dependents_wf(m),
{
    assert(post.at(m) == pre.at(m));
    assert forall|p: int|
        0 <= p < post.at(m).ins.buffers.len() implies ((#[trigger] post.at(m).ins.buffers[p])
        matches BufferInPortView::OutBuffer(h) ==> {
        &&& post.valid_out(h)
        &&& post.out_port(h).dependents.contains(in_handle_of(m, p, h.ty.elem))
    }) by {
        match post.at(m).ins.buffers[p] {
            BufferInPortView::OutBuffer(h) => {
                assert(pre.valid_out(h));
                assert(post.at(h.module_handle.idx as int) == pre.at(h.module_handle.idx as int));
            },
            BufferInPortView::Constant(_) => {},
        }
    }
    assert forall|p: int|
        0 <= p < post.at(m).outs.buffers.len() implies {
        let dep = (#[trigger] post.at(m).outs.buffers[p]).dependents;
        let elem = post.at(m).outs.buffers[p].buffer.elem();
        &&& (forall|k: int|
            0 <= k < dep.len() ==> {
                &&& post.valid_in(#[trigger] dep[k])
                &&& dep[k].ty.elem == elem
                &&& post.in_port(dep[k]) == BufferInPortView::OutBuffer(out_handle_of(m, p, elem))
            })
        &&& (forall|k1: int, k2: int| 0 <= k1 < k2 < dep.len() ==> dep[k1] != dep[k2])
    } by {
        let dep = post.at(m).outs.buffers[p].dependents;
        let elem = post.at(m).outs.buffers[p].buffer.elem();
        assert forall|k: int| 0 <= k < dep.len() implies {
            &&& post.valid_in(#[trigger] dep[k])
            &&& dep[k].ty.elem == elem
            &&& post.in_port(dep[k]) == BufferInPortView::OutBuffer(out_handle_of(m, p, elem))
        } by {
            assert(pre.valid_in(dep[k]));
            assert(post.at(dep[k].module_handle.idx as int) == pre.at(
                dep[k].module_handle.idx as int,
            ));
        }
    }
}

} // verus!
