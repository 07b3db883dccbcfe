use synth_host::constants::{BUFFER_LEN, SIGNAL_UNIT};
use synth_host::host::Host;
use synth_host::modules::{ModuleKind, ModuleSettings, OpType};
use synth_host::ports::{Block, BufferDirEnum, BufferElemEnum, ElemValue, HostError};

fn signal_out_block(host: &Host, idx: usize) -> Vec<i64> {
    match &host.modules[idx] {
        Some(m) => match &m.buf_out.ports.buffers[0].buffer {
            Block::Signal(v) => v.clone(),
            Block::Midi(_) => panic!("expected a signal block"),
        },
        None => panic!("module not live"),
    }
}

#[test]
fn create_module_duplicate_name_fails_and_leaves_graph_unchanged() {
    let mut host = Host::new().unwrap();
    let n_before = host.modules.len();
    host.create_module("op", ModuleSettings::Op(OpType::Add)).unwrap();
    let n_mid = host.modules.len();
    let r = host.create_module("op", ModuleSettings::Op(OpType::Multiply));
    assert!(matches!(r, Err(HostError::DuplicateIdentifier { .. })));
    assert_eq!(host.modules.len(), n_mid);
    assert_eq!(n_mid, n_before + 1);
    // the name table still resolves the module created first
    let r2 = host.create_module("op2", ModuleSettings::Op(OpType::Add));
    assert!(r2.is_ok());
}

#[test]
fn audio_out_module_is_installed_under_its_name() {
    let mut host = Host::new().unwrap();
    let out = host.get_output_module();
    assert_eq!(out.idx, 0);
    let r = host.create_module("audio_out", ModuleSettings::Op(OpType::Add));
    assert!(matches!(r, Err(HostError::DuplicateIdentifier { .. })));
}

#[test]
fn link_mismatched_element_kinds_is_rejected() {
    let mut host = Host::new().unwrap();
    let op = host.create_module("op", ModuleSettings::Op(OpType::Add)).unwrap();
    let midi = host.create_module("midi", ModuleSettings::MidiInput).unwrap();
    let midi_out = host
        .buf(midi, BufferDirEnum::Out, BufferElemEnum::Midi, "out")
        .unwrap();
    let sink_in = host
        .buf(host.get_output_module(), BufferDirEnum::In, BufferElemEnum::Signal, "in")
        .unwrap();
    let r = host.link(midi_out, sink_in);
    assert!(matches!(r, Err(HostError::BufferElemMismatch { .. })));
    // and a matching link works
    let op_out = host.buf(op, BufferDirEnum::Out, BufferElemEnum::Signal, "out").unwrap();
    assert!(host.link(op_out, sink_in).is_ok());
}

#[test]
fn link_value_of_wrong_kind_is_rejected() {
    let mut host = Host::new().unwrap();
    let sink_in = host
        .buf(host.get_output_module(), BufferDirEnum::In, BufferElemEnum::Signal, "in")
        .unwrap();
    let r = host.link_value(ElemValue::Midi(Vec::new()), sink_in);
    assert!(matches!(r, Err(HostError::BufferElemMismatch { .. })));
    assert!(host.link_value(ElemValue::Signal(7), sink_in).is_ok());
}

#[test]
fn port_lookup_reports_missing_names_and_wrong_arity() {
    let mut host = Host::new().unwrap();
    let op = host
        .create_variadic_module("op", ModuleSettings::Op(OpType::Add), 2)
        .unwrap();
    let r = host.buf(op, BufferDirEnum::In, BufferElemEnum::Signal, "nope");
    assert!(matches!(r, Err(HostError::NonexistentIdentifier { .. })));
    // "in" is variadic, so the single-port lookup refuses it
    let r2 = host.buf(op, BufferDirEnum::In, BufferElemEnum::Signal, "in");
    assert!(matches!(r2, Err(HostError::UnexpectedBufferArity { .. })));
    let v = host
        .variadic_buf(op, BufferDirEnum::In, BufferElemEnum::Signal, "in")
        .unwrap();
    assert!(v.at(0).is_ok());
    assert!(v.at(1).is_ok());
    assert!(matches!(v.at(2), Err(HostError::VariadicBufferOutOfBounds { .. })));
}

#[test]
fn schedule_runs_each_module_once_in_dependency_order() {
    let mut host = Host::new().unwrap();
    let src = host
        .create_variadic_module("src", ModuleSettings::Op(OpType::Add), 1)
        .unwrap();
    let mid = host
        .create_variadic_module("mid", ModuleSettings::Op(OpType::Add), 1)
        .unwrap();
    let src_out = host.buf(src, BufferDirEnum::Out, BufferElemEnum::Signal, "out").unwrap();
    let mid_in = host
        .variadic_buf(mid, BufferDirEnum::In, BufferElemEnum::Signal, "in")
        .unwrap()
        .at(0)
        .unwrap();
    let mid_out = host.buf(mid, BufferDirEnum::Out, BufferElemEnum::Signal, "out").unwrap();
    let sink_in = host
        .buf(host.get_output_module(), BufferDirEnum::In, BufferElemEnum::Signal, "in")
        .unwrap();
    host.link(src_out, mid_in).unwrap();
    host.link(mid_out, sink_in).unwrap();
    let order = host.process_block(0);
    // each live module exactly once
    assert_eq!(order.len(), 3);
    let mut seen = vec![false; host.modules.len()];
    for &m in &order {
        assert!(!seen[m]);
        seen[m] = true;
    }
    // topological: producers come first
    let pos = |idx: usize| order.iter().position(|&m| m == idx).unwrap();
    assert!(pos(src.idx) < pos(mid.idx));
    assert!(pos(mid.idx) < pos(host.get_output_module().idx));
}

#[test]
fn constant_dc_block_reaches_the_audio_output() {
    // multiply two constant half-scale inputs; the sink receives a quarter-scale block
    let mut host = Host::new().unwrap();
    let op = host
        .create_variadic_module("op", ModuleSettings::Op(OpType::Multiply), 2)
        .unwrap();
    let ins = host
        .variadic_buf(op, BufferDirEnum::In, BufferElemEnum::Signal, "in")
        .unwrap();
    let half = SIGNAL_UNIT / 2;
    host.link_value(ElemValue::Signal(half), ins.at(0).unwrap()).unwrap();
    host.link_value(ElemValue::Signal(half), ins.at(1).unwrap()).unwrap();
    let op_out = host.buf(op, BufferDirEnum::Out, BufferElemEnum::Signal, "out").unwrap();
    let sink_in = host
        .buf(host.get_output_module(), BufferDirEnum::In, BufferElemEnum::Signal, "in")
        .unwrap();
    host.link(op_out, sink_in).unwrap();
    host.process_block(0);
    // the sink received the quarter-scale block; hand it to the audio output
    let block = host.sink_block();
    assert_eq!(block.len(), BUFFER_LEN);
    for &s in &block {
        assert_eq!(s, SIGNAL_UNIT / 4);
    }
    let mut out = synth_host::output::AudioOutput::new();
    assert!(out.can_write());
    out.write(&block);
    // the reader first drains the silent block it was holding, then swaps
    // to the freshly written one
    for _ in 0..BUFFER_LEN {
        assert_eq!(out.next_sample(), 0);
    }
    for _ in 0..BUFFER_LEN {
        assert_eq!(out.next_sample(), SIGNAL_UNIT / 4);
    }
    // no further block was produced: underrun reads silence
    assert_eq!(out.next_sample(), 0);
    assert_eq!(out.next_sample(), 0);
}

#[test]
fn fan_in_adds_the_same_source_three_times() {
    let mut host = Host::new().unwrap();
    let src = host
        .create_variadic_module("src", ModuleSettings::Op(OpType::Add), 1)
        .unwrap();
    let src_in = host
        .variadic_buf(src, BufferDirEnum::In, BufferElemEnum::Signal, "in")
        .unwrap()
        .at(0)
        .unwrap();
    let third = 300_000i64;
    host.link_value(ElemValue::Signal(third), src_in).unwrap();
    let add = host
        .create_variadic_module("add", ModuleSettings::Op(OpType::Add), 3)
        .unwrap();
    let src_out = host.buf(src, BufferDirEnum::Out, BufferElemEnum::Signal, "out").unwrap();
    let add_ins = host
        .variadic_buf(add, BufferDirEnum::In, BufferElemEnum::Signal, "in")
        .unwrap();
    for k in 0..3 {
        host.link(src_out, add_ins.at(k).unwrap()).unwrap();
    }
    host.process_block(0);
    let out = signal_out_block(&host, add.idx);
    assert_eq!(out.len(), BUFFER_LEN);
    for &s in &out {
        assert_eq!(s, 900_000);
    }
}

#[test]
fn relinking_keeps_dependency_counts_consistent() {
    let mut host = Host::new().unwrap();
    let a = host
        .create_variadic_module("a", ModuleSettings::Op(OpType::Add), 1)
        .unwrap();
    let b = host
        .create_variadic_module("b", ModuleSettings::Op(OpType::Add), 1)
        .unwrap();
    let c = host
        .create_variadic_module("c", ModuleSettings::Op(OpType::Add), 1)
        .unwrap();
    let a_out = host.buf(a, BufferDirEnum::Out, BufferElemEnum::Signal, "out").unwrap();
    let b_out = host.buf(b, BufferDirEnum::Out, BufferElemEnum::Signal, "out").unwrap();
    let c_in = host
        .variadic_buf(c, BufferDirEnum::In, BufferElemEnum::Signal, "in")
        .unwrap()
        .at(0)
        .unwrap();
    let deps = |host: &Host, m: usize| host.modules[m].as_ref().unwrap().buf_in.num_dependencies;
    assert_eq!(deps(&host, c.idx), 0);
    host.link(a_out, c_in).unwrap();
    assert_eq!(deps(&host, c.idx), 1);
    // linked -> linked keeps the count at one, and moves the subscription
    host.link(b_out, c_in).unwrap();
    assert_eq!(deps(&host, c.idx), 1);
    let a_subs = host.modules[a.idx].as_ref().unwrap().buf_out.ports.buffers[0].dependents.len();
    let b_subs = host.modules[b.idx].as_ref().unwrap().buf_out.ports.buffers[0].dependents.len();
    assert_eq!(a_subs, 0);
    assert_eq!(b_subs, 1);
    // linked -> constant releases the subscription
    host.link_value(ElemValue::Signal(0), c_in).unwrap();
    assert_eq!(deps(&host, c.idx), 0);
    let b_subs2 = host.modules[b.idx].as_ref().unwrap().buf_out.ports.buffers[0].dependents.len();
    assert_eq!(b_subs2, 0);
}

#[test]
fn group_link_arity_and_group_are_checked() {
    let mut host = Host::new().unwrap();
    let g1 = host.create_group("g1", 2, None).unwrap();
    let g2 = host.create_group("g2", 3, None).unwrap();
    let ops1 = host
        .create_group_instance_variadic_module(g1, "ops", &ModuleSettings::Op(OpType::Add), 1)
        .unwrap();
    let ops2 = host
        .create_group_instance_variadic_module(g2, "ops", &ModuleSettings::Op(OpType::Add), 1)
        .unwrap();
    let outs1 = host
        .group_instance_buf(&ops1, BufferDirEnum::Out, BufferElemEnum::Signal, "out")
        .unwrap();
    let ins2 = host
        .group_instance_variadic_buf(&ops2, BufferDirEnum::In, BufferElemEnum::Signal, "in")
        .unwrap()
        .at(0)
        .unwrap();
    let before: Vec<usize> = (0..host.modules.len())
        .map(|m| host.modules[m].as_ref().map_or(0, |mm| mm.buf_in.num_dependencies))
        .collect();
    let r = host.link_group(&outs1, &ins2);
    assert!(matches!(r, Err(HostError::BufferGroupMismatch)));
    let after: Vec<usize> = (0..host.modules.len())
        .map(|m| host.modules[m].as_ref().map_or(0, |mm| mm.buf_in.num_dependencies))
        .collect();
    assert_eq!(before, after);
}

#[test]
fn group_broadcast_reaches_every_instance() {
    let mut host = Host::new().unwrap();
    let g = host.create_group("g", 4, None).unwrap();
    let ops = host
        .create_group_instance_variadic_module(g, "ops", &ModuleSettings::Op(OpType::Add), 1)
        .unwrap();
    let src = host
        .create_variadic_module("src", ModuleSettings::Op(OpType::Add), 1)
        .unwrap();
    let src_in = host
        .variadic_buf(src, BufferDirEnum::In, BufferElemEnum::Signal, "in")
        .unwrap()
        .at(0)
        .unwrap();
    host.link_value(ElemValue::Signal(123_456), src_in).unwrap();
    let src_out = host.buf(src, BufferDirEnum::Out, BufferElemEnum::Signal, "out").unwrap();
    let ins = host
        .group_instance_variadic_buf(&ops, BufferDirEnum::In, BufferElemEnum::Signal, "in")
        .unwrap()
        .at(0)
        .unwrap();
    host.link_group_ext(src_out, &ins).unwrap();
    host.process_block(0);
    for k in 0..4 {
        let out = signal_out_block(&host, ops.handles[k].idx);
        for &s in &out {
            assert_eq!(s, 123_456);
        }
    }
}

#[test]
fn group_link_value_sets_every_instance() {
    let mut host = Host::new().unwrap();
    let g = host.create_group("g", 3, None).unwrap();
    let ops = host
        .create_group_instance_variadic_module(g, "ops", &ModuleSettings::Op(OpType::Add), 1)
        .unwrap();
    let ins = host
        .group_instance_variadic_buf(&ops, BufferDirEnum::In, BufferElemEnum::Signal, "in")
        .unwrap()
        .at(0)
        .unwrap();
    host.link_group_value(ElemValue::Signal(11), &ins).unwrap();
    host.process_block(0);
    for k in 0..3 {
        let out = signal_out_block(&host, ops.handles[k].idx);
        for &s in &out {
            assert_eq!(s, 11);
        }
    }
}

#[test]
fn create_group_duplicate_names_fail() {
    let mut host = Host::new().unwrap();
    host.create_group("g", 1, None).unwrap();
    let r = host.create_group("g", 2, None);
    assert!(matches!(r, Err(HostError::DuplicateIdentifier { .. })));
    let names = vec!["x".to_owned(), "x".to_owned()];
    let r2 = host.create_group("h", 0, Some(&names));
    assert!(matches!(r2, Err(HostError::DuplicateIdentifier { .. })));
    // grouped module names are scoped per group
    let g = host.create_group("h", 2, None).unwrap();
    host.create_group_joining_module(g, "m", ModuleSettings::Op(OpType::Add)).unwrap();
    let r3 = host.create_group_joining_module(g, "m", ModuleSettings::Op(OpType::Add));
    assert!(matches!(r3, Err(HostError::DuplicateIdentifier { .. })));
}

#[test]
fn joining_module_takes_the_group_arity() {
    let mut host = Host::new().unwrap();
    let g = host.create_group("g", 3, None).unwrap();
    let join = host
        .create_group_joining_module(g, "join", ModuleSettings::Op(OpType::Add))
        .unwrap();
    let m = join.ungrouped();
    assert_eq!(host.modules[m.idx].as_ref().unwrap().num_args, 3);
    let gb = host
        .group_joining_buf(join, BufferDirEnum::In, BufferElemEnum::Signal, "in")
        .unwrap();
    assert_eq!(gb.handles.len(), 3);
}

#[test]
fn named_instances_resolve_by_offset() {
    let mut host = Host::new().unwrap();
    let names = vec!["left".to_owned(), "right".to_owned()];
    let g = host.create_group("g", 0, Some(&names)).unwrap();
    let ops = host
        .create_group_instance_module(g, "ops", &ModuleSettings::Op(OpType::Add))
        .unwrap();
    // offsets follow the order the names were given
    let left = host.groups[g.idx].named_instances[0].1;
    let right = host.groups[g.idx].named_instances[1].1;
    assert_eq!(ops.ungrouped(left).unwrap(), ops.handles[0]);
    assert_eq!(ops.ungrouped(right).unwrap(), ops.handles[1]);
    let foreign = synth_host::host::GroupInstanceHandle {
        group: synth_host::host::GroupHandle { idx: g.idx + 1 },
        offset: 0,
    };
    assert!(matches!(ops.ungrouped(foreign), Err(HostError::InstanceGroupMismatch)));
}

#[test]
fn negate_subtracts_inputs_from_zero() {
    let mut host = Host::new().unwrap();
    let op = host
        .create_variadic_module("op", ModuleSettings::Op(OpType::Negate), 2)
        .unwrap();
    let ins = host
        .variadic_buf(op, BufferDirEnum::In, BufferElemEnum::Signal, "in")
        .unwrap();
    host.link_value(ElemValue::Signal(250_000), ins.at(0).unwrap()).unwrap();
    host.link_value(ElemValue::Signal(100_000), ins.at(1).unwrap()).unwrap();
    host.process_block(0);
    let out = signal_out_block(&host, op.idx);
    for &s in &out {
        assert_eq!(s, -350_000);
    }
}

#[test]
fn kind_of_module_is_visible_to_the_scheduler_only_through_blocks() {
    // an unlinked module is a source and runs exactly once per pass
    let mut host = Host::new().unwrap();
    let op = host
        .create_variadic_module("op", ModuleSettings::Op(OpType::Add), 0)
        .unwrap();
    let order1 = host.process_block(0);
    let order2 = host.process_block(0);
    assert_eq!(order1.iter().filter(|&&m| m == op.idx).count(), 1);
    assert_eq!(order2.iter().filter(|&&m| m == op.idx).count(), 1);
    match &host.modules[op.idx].as_ref().unwrap().kind {
        ModuleKind::Op(_) => {},
        _ => panic!("kind changed"),
    }
}
