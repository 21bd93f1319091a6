use uniform_provider::binding::{BindKind, BindingData, BindingDescriptor, ErrorKind, UniformValue};
use uniform_provider::command::{BufferUsage, Command};
use uniform_provider::frame::{collect_shader_defs, Frame, FrameOutput};
use uniform_provider::provider::UniformResourceProvider;

fn desc(name: &str, kind: BindKind) -> BindingDescriptor {
    BindingDescriptor { name: name.to_string(), kind }
}

fn bytes_ref(b: Vec<u8>) -> BindingData {
    BindingData { bytes_ref: Some(b), bytes_owned: None, texture: None }
}

fn bytes_owned(b: Vec<u8>) -> BindingData {
    BindingData { bytes_ref: None, bytes_owned: Some(b), texture: None }
}

fn texture(t: u64) -> BindingData {
    BindingData { bytes_ref: None, bytes_owned: None, texture: Some(t) }
}

fn value(bindings: Vec<BindingData>) -> UniformValue {
    UniformValue { bindings, shader_defs: None }
}

fn empty_frame() -> Frame {
    Frame { asset_entities: vec![], assets: vec![], direct_entities: vec![], textures: vec![] }
}

fn direct_frame(entities: Vec<(u64, UniformValue)>) -> Frame {
    Frame { direct_entities: entities, ..empty_frame() }
}

fn run(p: &mut UniformResourceProvider, f: &Frame) -> FrameOutput {
    p.update(f).expect("frame should succeed")
}

fn uniform_buffers_created(out: &FrameOutput) -> Vec<(u64, u64)> {
    out.commands
        .iter()
        .filter_map(|c| match c {
            Command::CreateBuffer { resource, size, usage: BufferUsage::CopyDstUniform } => Some((*resource, *size)),
            _ => None,
        })
        .collect()
}

fn binds_of(out: &FrameOutput, entity: u64, name: &str) -> Vec<u64> {
    out.commands
        .iter()
        .filter_map(|c| match c {
            Command::Bind { entity: e, name: n, resource } if *e == entity && n == name => Some(*resource),
            _ => None,
        })
        .collect()
}

fn color_entities(ids: &[u64]) -> Vec<(u64, UniformValue)> {
    ids.iter().map(|&e| (e, value(vec![bytes_ref(vec![e as u8, 1, 2, 3])]))).collect()
}

#[test]
fn three_direct_colors_share_one_packed_buffer() {
    let mut p = UniformResourceProvider::new(vec![desc("Color", BindKind::Uniform)]);
    let out = run(&mut p, &direct_frame(color_entities(&[10, 11, 12])));
    assert_eq!(p.dynamic_buffers.len(), 1);
    let b = &p.dynamic_buffers[0];
    assert_eq!(b.name, "Color");
    assert_eq!(b.capacity, 6);
    assert_eq!(b.count, 3);
    assert_eq!(b.offsets, vec![(10, 0), (11, 256), (12, 512)]);
    let resource = b.resource.expect("buffer allocated");
    assert_eq!(uniform_buffers_created(&out), vec![(resource, 256 * 6)]);
    assert!(out.commands.iter().any(|c| matches!(c,
        Command::SetNamedResource { name, resource: r } if name == "Color" && *r == resource)));
    let (staging, data) = out
        .commands
        .iter()
        .find_map(|c| match c {
            Command::CreateBufferMapped { resource, data } => Some((*resource, data.clone())),
            _ => None,
        })
        .expect("staging buffer");
    assert_eq!(data.len(), 768);
    for (k, e) in [10u8, 11, 12].iter().enumerate() {
        assert_eq!(&data[256 * k..256 * k + 4], &[*e, 1, 2, 3]);
        assert!(data[256 * k + 4..256 * (k + 1)].iter().all(|&x| x == 0));
    }
    assert!(out.commands.iter().any(|c| matches!(c,
        Command::CopyBufferToBuffer { source, source_offset: 0, destination, destination_offset: 0, size: 768 }
            if *source == staging && *destination == resource)));
    assert!(out.commands.iter().any(|c| matches!(c, Command::RemoveBuffer { resource: r } if *r == staging)));
}

#[test]
fn two_entities_of_one_material_share_its_tint_buffer() {
    let mut p = UniformResourceProvider::new(vec![desc("Tint", BindKind::Uniform)]);
    let f = Frame {
        asset_entities: vec![(1, 7), (2, 7)],
        assets: vec![(7, value(vec![bytes_ref(vec![9, 8, 7, 6])]))],
        ..empty_frame()
    };
    let out = run(&mut p, &f);
    let created = uniform_buffers_created(&out);
    assert_eq!(created.len(), 1);
    assert_eq!(created[0].1, 256);
    assert_eq!(binds_of(&out, 1, "Tint"), vec![created[0].0]);
    assert_eq!(binds_of(&out, 2, "Tint"), vec![created[0].0]);
    assert!(out.commands.iter().any(|c| matches!(c,
        Command::CreateBufferMapped { data, .. } if *data == vec![9, 8, 7, 6])));
    assert!(p.dynamic_buffers.is_empty());
}

#[test]
fn two_entities_of_one_texture_share_its_gpu_texture() {
    let mut p = UniformResourceProvider::new(vec![desc("Albedo", BindKind::SampledTexture)]);
    let f = Frame {
        direct_entities: vec![(1, value(vec![texture(42)])), (2, value(vec![texture(42)]))],
        textures: vec![42],
        ..empty_frame()
    };
    let out = run(&mut p, &f);
    let created: Vec<u64> = out
        .commands
        .iter()
        .filter_map(|c| match c {
            Command::CreateTexture { resource, texture: 42 } => Some(*resource),
            _ => None,
        })
        .collect();
    assert_eq!(created.len(), 1);
    assert_eq!(binds_of(&out, 1, "Albedo"), created);
    assert_eq!(binds_of(&out, 2, "Albedo"), created);
}

#[test]
fn sampler_is_resolved_apart_from_texture() {
    let mut p = UniformResourceProvider::new(vec![
        desc("Albedo", BindKind::SampledTexture),
        desc("AlbedoSampler", BindKind::Sampler),
    ]);
    let f = Frame {
        direct_entities: vec![(1, value(vec![texture(5), texture(5)]))],
        textures: vec![5],
        ..empty_frame()
    };
    let out = run(&mut p, &f);
    let tex = binds_of(&out, 1, "Albedo");
    let smp = binds_of(&out, 1, "AlbedoSampler");
    assert_eq!(tex.len(), 1);
    assert_eq!(smp.len(), 1);
    assert_ne!(tex[0], smp[0]);
    assert!(out.commands.iter().any(|c| matches!(c, Command::CreateSampler { resource, texture: 5 } if *resource == smp[0])));
    assert_eq!(p.texture_resources, vec![(5, tex[0])]);
    assert_eq!(p.sampler_resources, vec![(5, smp[0])]);
}

#[test]
fn resolved_texture_needs_no_store_entry_later() {
    let mut p = UniformResourceProvider::new(vec![desc("Albedo", BindKind::SampledTexture)]);
    let first = Frame { direct_entities: vec![(1, value(vec![texture(3)]))], textures: vec![3], ..empty_frame() };
    let r1 = binds_of(&run(&mut p, &first), 1, "Albedo");
    let second = direct_frame(vec![(1, value(vec![texture(3)]))]);
    let out = run(&mut p, &second);
    assert_eq!(binds_of(&out, 1, "Albedo"), r1);
    assert!(!out.commands.iter().any(|c| matches!(c, Command::CreateTexture { .. })));
}

#[test]
fn capacity_does_not_grow_after_first_allocation() {
    let mut p = UniformResourceProvider::new(vec![desc("Color", BindKind::Uniform)]);
    run(&mut p, &direct_frame(color_entities(&[1, 2])));
    let resource = p.dynamic_buffers[0].resource;
    assert_eq!(p.dynamic_buffers[0].capacity, 4);
    let out = run(&mut p, &direct_frame(color_entities(&[1, 2, 3, 4, 5])));
    assert_eq!(p.dynamic_buffers[0].capacity, 4);
    assert_eq!(p.dynamic_buffers[0].count, 5);
    assert_eq!(p.dynamic_buffers[0].resource, resource);
    assert!(uniform_buffers_created(&out).is_empty());
    assert!(out.commands.iter().any(|c| matches!(c, Command::CopyBufferToBuffer { size: 1280, .. })));
}

#[test]
fn removed_entity_loses_its_registration_and_offset() {
    let mut p = UniformResourceProvider::new(vec![desc("Color", BindKind::Uniform)]);
    run(&mut p, &direct_frame(color_entities(&[1, 2, 3])));
    run(&mut p, &direct_frame(color_entities(&[1, 3])));
    let b = &p.dynamic_buffers[0];
    assert_eq!(b.entities, vec![1, 3]);
    assert_eq!(b.count, 2);
    assert_eq!(b.offsets, vec![(1, 0), (3, 256)]);
}

#[test]
fn offsets_are_aligned_and_distinct() {
    let mut p = UniformResourceProvider::new(vec![desc("A", BindKind::Uniform), desc("B", BindKind::Uniform)]);
    let ents: Vec<(u64, UniformValue)> =
        (0..7u64).map(|e| (e * 3, value(vec![bytes_ref(vec![1]), bytes_owned(vec![2, 2])]))).collect();
    run(&mut p, &direct_frame(ents));
    assert_eq!(p.dynamic_buffers.len(), 2);
    for b in &p.dynamic_buffers {
        let offs: Vec<u64> = b.offsets.iter().map(|o| o.1).collect();
        assert!(offs.iter().all(|o| o % 256 == 0));
        let mut sorted = offs.clone();
        sorted.dedup();
        assert_eq!(sorted.len(), offs.len());
        assert_eq!(b.capacity, 14);
    }
}

#[test]
fn asset_buffer_is_created_once_across_frames() {
    let mut p = UniformResourceProvider::new(vec![desc("Tint", BindKind::Uniform)]);
    let f = Frame {
        asset_entities: vec![(1, 7)],
        assets: vec![(7, value(vec![bytes_ref(vec![1, 2])]))],
        ..empty_frame()
    };
    let first = run(&mut p, &f);
    let second = run(&mut p, &f);
    assert_eq!(uniform_buffers_created(&first).len(), 1);
    assert!(uniform_buffers_created(&second).is_empty());
    assert!(!second.commands.iter().any(|c| matches!(c, Command::CreateBufferMapped { .. })));
    assert_eq!(binds_of(&first, 1, "Tint"), binds_of(&second, 1, "Tint"));
}

#[test]
fn ensure_asset_resource_twice_returns_one_handle() {
    let mut p = UniformResourceProvider::new(vec![desc("Tint", BindKind::Uniform)]);
    let mut cmds = Vec::new();
    let name = "Tint".to_string();
    let r1 = p.ensure_asset_resource(3, &name, &vec![5, 6, 7], &mut cmds);
    assert_eq!(cmds.len(), 4);
    assert!(matches!(&cmds[0], Command::CreateBuffer { resource, size: 256, usage: BufferUsage::CopyDstUniform } if *resource == r1));
    assert!(matches!(&cmds[1], Command::CreateBufferMapped { resource, data } if *resource == r1 + 1 && *data == vec![5, 6, 7]));
    assert!(matches!(&cmds[2], Command::CopyBufferToBuffer { size: 3, destination, .. } if *destination == r1));
    assert!(matches!(&cmds[3], Command::RemoveBuffer { resource } if *resource == r1 + 1));
    let r2 = p.ensure_asset_resource(3, &name, &vec![9], &mut cmds);
    assert_eq!(r1, r2);
    assert_eq!(cmds.len(), 4);
    assert_eq!(p.asset_resources.len(), 1);
    let r3 = p.ensure_asset_resource(4, &name, &vec![9], &mut cmds);
    assert_ne!(r3, r1);
}

#[test]
fn asset_not_loaded_is_skipped() {
    let mut p = UniformResourceProvider::new(vec![desc("Tint", BindKind::Uniform)]);
    let f = Frame { asset_entities: vec![(1, 99)], ..empty_frame() };
    let out = run(&mut p, &f);
    assert!(out.commands.is_empty());
    assert!(p.asset_resources.is_empty());
}

#[test]
fn empty_frame_does_nothing() {
    let mut p = UniformResourceProvider::new(vec![desc("Color", BindKind::Uniform)]);
    let out = run(&mut p, &empty_frame());
    assert!(out.commands.is_empty());
    assert!(out.shader_defs.is_empty());
    assert!(p.dynamic_buffers.is_empty());
    assert_eq!(p.next_resource, 0);
}

#[test]
fn initialize_runs_a_frame() {
    let mut p = UniformResourceProvider::new(vec![desc("Color", BindKind::Uniform)]);
    let out = p.initialize(&direct_frame(color_entities(&[4]))).unwrap();
    assert_eq!(uniform_buffers_created(&out).len(), 1);
    assert_eq!(p.dynamic_buffers[0].capacity, 2);
}

#[test]
fn reference_bytes_are_preferred_to_owned_ones() {
    let mut p = UniformResourceProvider::new(vec![desc("Color", BindKind::Uniform)]);
    let data = BindingData { bytes_ref: Some(vec![1]), bytes_owned: Some(vec![2]), texture: None };
    run(&mut p, &direct_frame(vec![(1, value(vec![data]))]));
    assert_eq!(p.dynamic_buffers[0].values, vec![vec![1]]);
    run(&mut p, &direct_frame(vec![(1, value(vec![bytes_owned(vec![2, 3])]))]));
    assert_eq!(p.dynamic_buffers[0].values, vec![vec![2, 3]]);
}

fn expect_error(p: &mut UniformResourceProvider, f: &Frame) -> uniform_provider::binding::ProviderError {
    let before = format!("{:?}", p);
    let e = p.update(f).expect_err("frame should fail");
    assert_eq!(format!("{:?}", p), before);
    e
}

#[test]
fn unsupported_kind_is_reported() {
    let mut p = UniformResourceProvider::new(vec![desc("Color", BindKind::Uniform), desc("Storage", BindKind::Other)]);
    let e = expect_error(&mut p, &direct_frame(vec![(8, value(vec![bytes_ref(vec![1]), bytes_ref(vec![1])]))]));
    assert_eq!(e.entity, 8);
    assert_eq!(e.binding, "Storage");
    assert_eq!(e.kind, ErrorKind::UnsupportedBindKind);
}

#[test]
fn missing_uniform_bytes_are_reported() {
    let mut p = UniformResourceProvider::new(vec![desc("Color", BindKind::Uniform)]);
    let e = expect_error(&mut p, &direct_frame(vec![(1, value(vec![bytes_ref(vec![1])])), (2, value(vec![texture(1)]))]));
    assert_eq!(e.entity, 2);
    assert_eq!(e.kind, ErrorKind::MissingUniformBytes);
}

#[test]
fn oversized_uniform_is_reported() {
    let mut p = UniformResourceProvider::new(vec![desc("Color", BindKind::Uniform)]);
    let e = expect_error(&mut p, &direct_frame(vec![(1, value(vec![bytes_ref(vec![0; 257])]))]));
    assert_eq!(e.kind, ErrorKind::UniformTooLarge);
    let ok = run(&mut p, &direct_frame(vec![(1, value(vec![bytes_ref(vec![0; 256])]))]));
    assert_eq!(uniform_buffers_created(&ok).len(), 1);
}

#[test]
fn missing_texture_handle_is_reported() {
    let mut p = UniformResourceProvider::new(vec![desc("Albedo", BindKind::Sampler)]);
    let e = expect_error(&mut p, &direct_frame(vec![(1, value(vec![bytes_ref(vec![1])]))]));
    assert_eq!(e.kind, ErrorKind::MissingTextureHandle);
    assert_eq!(e.binding, "Albedo");
}

#[test]
fn missing_texture_asset_is_reported() {
    let mut p = UniformResourceProvider::new(vec![desc("Albedo", BindKind::SampledTexture)]);
    let f = Frame {
        asset_entities: vec![(5, 1)],
        assets: vec![(1, value(vec![texture(77)]))],
        textures: vec![76],
        ..empty_frame()
    };
    let e = expect_error(&mut p, &f);
    assert_eq!(e.entity, 5);
    assert_eq!(e.kind, ErrorKind::MissingTexture(77));
}

#[test]
fn asset_entities_are_checked_before_direct_ones() {
    let mut p = UniformResourceProvider::new(vec![desc("Color", BindKind::Uniform)]);
    let f = Frame {
        asset_entities: vec![(2, 1)],
        assets: vec![(1, value(vec![bytes_ref(vec![0; 300])]))],
        direct_entities: vec![(1, value(vec![texture(0)]))],
        ..empty_frame()
    };
    let e = expect_error(&mut p, &f);
    assert_eq!(e.entity, 2);
    assert_eq!(e.kind, ErrorKind::UniformTooLarge);
}

#[test]
fn shader_defs_of_direct_then_asset_entities() {
    let mut direct = value(vec![]);
    direct.shader_defs = Some(vec!["LIT".to_string(), "SKIN".to_string()]);
    let mut shared = value(vec![]);
    shared.shader_defs = Some(vec!["TEXTURED".to_string()]);
    let f = Frame {
        asset_entities: vec![(2, 9), (3, 10)],
        assets: vec![(9, shared)],
        direct_entities: vec![(1, direct)],
        textures: vec![],
    };
    let expected = vec![(1, "LIT".to_string()), (1, "SKIN".to_string()), (2, "TEXTURED".to_string())];
    assert_eq!(collect_shader_defs(&f), expected);
    let mut p = UniformResourceProvider::new(vec![]);
    assert_eq!(run(&mut p, &f).shader_defs, expected);
}

#[test]
fn frame_issues_exactly_the_expected_commands() {
    let mut p = UniformResourceProvider::new(vec![
        desc("Tint", BindKind::Uniform),
        desc("Albedo", BindKind::SampledTexture),
    ]);
    let f = Frame {
        asset_entities: vec![(1, 7), (2, 7), (3, 8)],
        assets: vec![(7, value(vec![bytes_ref(vec![4, 5]), texture(30)]))],
        direct_entities: vec![(4, value(vec![bytes_ref(vec![6]), texture(30)]))],
        textures: vec![30],
    };
    let out = run(&mut p, &f);
    let kinds: Vec<String> = out
        .commands
        .iter()
        .map(|c| match c {
            Command::CreateBuffer { resource, size, .. } => format!("buffer {} {}", resource, size),
            Command::CreateBufferMapped { resource, data } => format!("mapped {} {}", resource, data.len()),
            Command::CopyBufferToBuffer { source, destination, size, .. } => format!("copy {} {} {}", source, destination, size),
            Command::RemoveBuffer { resource } => format!("remove {}", resource),
            Command::CreateTexture { resource, texture } => format!("texture {} {}", resource, texture),
            Command::CreateSampler { resource, texture } => format!("sampler {} {}", resource, texture),
            Command::Bind { entity, name, resource } => format!("bind {} {} {}", entity, name, resource),
            Command::SetNamedResource { name, resource } => format!("named {} {}", name, resource),
        })
        .collect();
    let expected = vec![
        "buffer 0 256", "mapped 1 2", "copy 1 0 2", "remove 1", "bind 1 Tint 0",
        "texture 2 30", "bind 1 Albedo 2",
        "bind 2 Tint 0", "bind 2 Albedo 2",
        "bind 4 Albedo 2",
        "buffer 3 512", "named Tint 3",
        "mapped 4 256", "copy 4 3 256", "remove 4",
    ];
    assert_eq!(kinds, expected);
    assert_eq!(p.next_resource, 5);
}

#[test]
fn initialize_and_update_from_one_state_agree() {
    let make = || UniformResourceProvider::new(vec![desc("Color", BindKind::Uniform), desc("Albedo", BindKind::Sampler)]);
    let f = Frame {
        direct_entities: vec![(1, value(vec![bytes_ref(vec![1]), texture(2)])), (5, value(vec![bytes_owned(vec![3]), texture(2)]))],
        textures: vec![2],
        ..empty_frame()
    };
    let (mut p1, mut p2) = (make(), make());
    let o1 = p1.initialize(&f).unwrap();
    let o2 = p2.update(&f).unwrap();
    assert_eq!(format!("{:?}", o1), format!("{:?}", o2));
    assert_eq!(format!("{:?}", p1), format!("{:?}", p2));
}
