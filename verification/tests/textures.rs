use std::sync::Arc;

use ash::vk::FormatFeatureFlags2;
use smelter_media::dmabuf::{
    checked_va_array_count, dmabuf_layer_from_prime_parts, fixed_u32, DmaBufFrame, DmaBufLayer,
    DmaBufObject, DmaBufPlane, ExportedVaSurface, PrimeDescriptor, PrimeLayer, RawPrimeDescriptor,
    RawPrimeObject, VaapiDmaBufFrame, DRM_FORMAT_NV12,
};
use smelter_media::h264_decoder::{
    coded_resolution, frame_from_dmabuf, AccessUnit, DecodeOutcome, DecoderEvent, DecoderState,
    EventReaction, InputKind, NextStep, SplitReaction, SplitterAction, VaapiDecodedFrameCache,
    RETAINED_HANDLE_COUNT,
};
use smelter_media::media::{Extent, Resolution, VideoResolution};
use smelter_media::output_texture::{
    exported_nv12_frame, find_memory_type_index, nv12_texture_extent, nv12_texture_use,
    pad_to_256, plan_nv12_import, select_nv12_modifier, unpad_rows, validate_nv12_dmabuf,
    wants_another, Allocation, CreateOutputTextureError, ExportedPlane, ModifierProperties, Nv12DmaBufOutput,
    OutputFrameFormat, OutputTexturePlan, PlanarYuvVariant, PlaneLayout, TextureUse,
    POOL_SIZE, REQUIRED_FEATURES,
};
use smelter_media::time::Duration;

type DmaBuf = DmaBufFrame<u32, i32>;

const SIZE: Resolution = Resolution { width: 64, height: 48 };

fn plane(offset: u32, pitch: u32) -> DmaBufPlane {
    DmaBufPlane { object_index: 0, offset, pitch }
}

fn dmabuf(texture: u32, fourcc: u32, width: u32) -> DmaBuf {
    DmaBufFrame {
        texture,
        fourcc,
        width,
        height: 48,
        objects: vec![DmaBufObject { fd: 3, size: 5_000, modifier: 7 }],
        layers: vec![DmaBufLayer {
            drm_format: fourcc,
            planes: vec![plane(0, 64), plane(3_072, 64)],
        }],
    }
}

#[test]
fn nv12_is_spelled_in_its_code() {
    assert_eq!(DRM_FORMAT_NV12, u32::from_le_bytes(*b"NV12"));
}

#[test]
fn descriptors_have_four_slots() {
    assert_eq!(checked_va_array_count("plane", 4), Ok(4));
    assert_eq!(
        checked_va_array_count("plane", 5).unwrap_err(),
        "plane count 5 exceeds VA-API descriptor limit"
    );
    assert_eq!(fixed_u32(&[]), [0, 0, 0, 0]);
    assert_eq!(fixed_u32(&[1, 2]), [1, 2, 0, 0]);
    assert_eq!(fixed_u32(&[1, 2, 3, 4, 5]), [1, 2, 3, 4]);
}

#[test]
fn layers_are_read_from_descriptors() {
    let layer =
        dmabuf_layer_from_prime_parts(9, 2, [0, 1, 2, 3], [10, 11, 12, 13], [20, 21, 22, 23])
            .unwrap();
    assert_eq!(layer.drm_format, 9);
    assert_eq!(
        layer.planes,
        vec![
            DmaBufPlane { object_index: 0, offset: 10, pitch: 20 },
            DmaBufPlane { object_index: 1, offset: 11, pitch: 21 },
        ]
    );
    assert_eq!(
        dmabuf_layer_from_prime_parts(9, 6, [0; 4], [0; 4], [0; 4]).unwrap_err(),
        "DRM PRIME layer plane count 6 exceeds VA-API descriptor limit"
    );
}

fn prime_layer(num_planes: u32) -> PrimeLayer {
    PrimeLayer {
        drm_format: 5,
        num_planes,
        object_index: [0, 1, 0, 0],
        offset: [0, 100, 0, 0],
        pitch: [64, 32, 0, 0],
    }
}

#[test]
fn owned_descriptors_become_surfaces() {
    let descriptor = |planes| PrimeDescriptor {
        fourcc: 1,
        width: 2,
        height: 3,
        objects: vec![DmaBufObject { fd: "fd", size: 4, modifier: 5 }],
        layers: vec![prime_layer(2), prime_layer(planes)],
    };
    let surface = ExportedVaSurface::from_drm_prime(descriptor(1)).ok().unwrap();
    assert_eq!((surface.fourcc, surface.width, surface.height), (1, 2, 3));
    assert_eq!(surface.objects[0].fd, "fd");
    assert_eq!(surface.layers[0].planes.len(), 2);
    assert_eq!(surface.layers[0].planes[1].object_index, 1);
    assert_eq!(surface.layers[1].planes.len(), 1);
    assert_eq!(
        ExportedVaSurface::from_drm_prime(descriptor(5)).err().unwrap(),
        "DRM PRIME layer plane count 5 exceeds VA-API descriptor limit"
    );
}

fn raw_descriptor(num_objects: u32, num_layers: u32, num_planes: u32) -> RawPrimeDescriptor {
    let object = |fd| RawPrimeObject { fd, size: 10, modifier: 20 };
    RawPrimeDescriptor {
        fourcc: 1,
        width: 2,
        height: 3,
        num_objects,
        objects: [object(4), object(5), object(6), object(7)],
        num_layers,
        layers: [prime_layer(num_planes); 4],
    }
}

#[test]
fn raw_descriptors_become_surfaces() {
    let surface = ExportedVaSurface::from_raw_prime(raw_descriptor(2, 1, 2)).ok().unwrap();
    assert_eq!(surface.objects.len(), 2);
    assert_eq!(surface.objects[1].fd, 5);
    assert_eq!(surface.layers.len(), 1);
    assert_eq!(surface.layers[0].planes[1].offset, 100);
    let error = |descriptor| ExportedVaSurface::from_raw_prime(descriptor).err().unwrap();
    assert_eq!(
        error(raw_descriptor(5, 9, 9)),
        "DRM PRIME object count 5 exceeds VA-API descriptor limit"
    );
    assert_eq!(
        error(raw_descriptor(1, 9, 9)),
        "DRM PRIME layer count 9 exceeds VA-API descriptor limit"
    );
    assert_eq!(
        error(raw_descriptor(1, 1, 9)),
        "DRM PRIME layer plane count 9 exceeds VA-API descriptor limit"
    );
    // layers that are not in use are not looked at
    assert!(ExportedVaSurface::from_raw_prime(raw_descriptor(0, 0, 9)).is_ok());
}

#[test]
fn frames_are_described_for_import() {
    let frame = VaapiDmaBufFrame::new(Arc::new(dmabuf(1, DRM_FORMAT_NV12, 64)));
    assert_eq!(frame.layer().planes.len(), 2);
    let descriptor = frame.va_surface_attribute();
    assert_eq!((descriptor.fourcc, descriptor.width, descriptor.height), (DRM_FORMAT_NV12, 64, 48));
    assert_eq!(descriptor.num_objects, 1);
    assert_eq!((descriptor.objects[0].size, descriptor.objects[0].modifier), (5_000, 7));
    assert_eq!(descriptor.layer.num_planes, 2);
    assert_eq!(descriptor.layer.offset, [0, 3_072, 0, 0]);
    assert_eq!(descriptor.layer.pitch, [64, 64, 0, 0]);
    // and what was described is read again as it was
    let again = ExportedVaSurface::from_drm_prime(PrimeDescriptor {
        fourcc: descriptor.fourcc,
        width: descriptor.width,
        height: descriptor.height,
        objects: Vec::<DmaBufObject<i32>>::new(),
        layers: vec![descriptor.layer],
    })
    .ok()
    .unwrap();
    assert_eq!(again.layers[0].planes, frame.layer().planes);
}

#[test]
fn frames_from_an_allocator_are_checked() {
    assert!(validate_nv12_dmabuf(&dmabuf(1, DRM_FORMAT_NV12, 64), SIZE).is_ok());
    let error = validate_nv12_dmabuf(&dmabuf(1, 12, 64), SIZE).unwrap_err();
    assert_eq!(error.message(), "NV12 DMA-BUF allocator returned fourcc 12, expected NV12");
    let error = validate_nv12_dmabuf(&dmabuf(1, DRM_FORMAT_NV12, 32), SIZE).unwrap_err();
    assert_eq!(
        error.message(),
        "NV12 DMA-BUF allocator returned resolution Resolution { width: 32, height: 48 }, \
         expected Resolution { width: 64, height: 48 }"
    );
}

fn allocation(index: u32) -> Allocation<u32, i32, String> {
    Ok((Arc::new(dmabuf(index, DRM_FORMAT_NV12, 64)), Some(format!("texture {index}"))))
}

fn allocations() -> Vec<Allocation<u32, i32, String>> {
    (0..POOL_SIZE as u32).map(allocation).collect()
}

#[test]
fn pictures_are_reused_in_a_ring() {
    let mut ring = Nv12DmaBufOutput::new(SIZE, allocations()).ok().unwrap();
    assert_eq!(ring.resolution(), SIZE);
    for round in 0..3 {
        for index in 0..POOL_SIZE as u32 {
            let (texture, frame) = ring.next_frame();
            assert_eq!(texture, &format!("texture {index}"), "round {round}");
            assert_eq!(frame.texture, index);
        }
    }
}

#[test]
fn the_first_bad_allocation_is_reported() {
    let mut failed = allocations();
    failed[3] = Err("out of memory".to_string());
    failed[5] = Ok((Arc::new(dmabuf(1, 0, 64)), None));
    match Nv12DmaBufOutput::new(SIZE, failed).err().unwrap() {
        error @ CreateOutputTextureError::DmaBufAllocation(_) => assert_eq!(
            error.message(),
            "Failed to allocate NV12 DMA-BUF output frame: out of memory"
        ),
        other => panic!("unexpected {other:?}"),
    }
    // nothing has to be allocated after a failure
    let stopped = vec![allocation(0), Ok((Arc::new(dmabuf(1, DRM_FORMAT_NV12, 64)), None))];
    let error = Nv12DmaBufOutput::new(SIZE, stopped).err().unwrap();
    assert_eq!(
        error.message(),
        "NV12 DMA-BUF allocator returned a non-NV12 wgpu texture"
    );
}

#[test]
fn pictures_are_allocated_until_the_ring_is_full_or_one_fails() {
    let mut made = Vec::new();
    while wants_another(&made, SIZE) {
        made.push(allocation(made.len() as u32));
    }
    assert_eq!(made.len(), POOL_SIZE);
    let mut made = vec![allocation(0)];
    assert!(wants_another(&made, SIZE));
    made.push(Err("out of memory".to_string()));
    assert!(!wants_another(&made, SIZE));
    made[1] = Ok((Arc::new(dmabuf(1, DRM_FORMAT_NV12, 32)), Some("small".to_string())));
    assert!(!wants_another(&made, SIZE));
    made[1] = Ok((Arc::new(dmabuf(1, DRM_FORMAT_NV12, 64)), None));
    assert!(!wants_another(&made, SIZE));
}

#[test]
fn outputs_are_rendered_to_what_their_format_asks_for() {
    let plan = |format: OutputFrameFormat<u8>| OutputTexturePlan::new(SIZE, format);
    for (format, expected) in [
        (OutputFrameFormat::PlanarYuv420Bytes, PlanarYuvVariant::YUV420),
        (OutputFrameFormat::PlanarYuv422Bytes, PlanarYuvVariant::YUV422),
        (OutputFrameFormat::PlanarYuv444Bytes, PlanarYuvVariant::YUV444),
    ] {
        assert!(matches!(
            plan(format),
            OutputTexturePlan::PlanarYuvTextures { variant, resolution }
                if variant == expected && resolution == SIZE
        ));
    }
    assert!(matches!(
        plan(OutputFrameFormat::RgbaWgpuTexture),
        OutputTexturePlan::Rgba8UnormWgpuTexture { resolution } if resolution == SIZE
    ));
    assert!(matches!(
        plan(OutputFrameFormat::Nv12WgpuTexture),
        OutputTexturePlan::Nv12WgpuTexture { resolution } if resolution == SIZE
    ));
    assert!(matches!(
        plan(OutputFrameFormat::Nv12DmaBuf),
        OutputTexturePlan::Nv12DmaBuf { allocator: None, .. }
    ));
    assert!(matches!(
        plan(OutputFrameFormat::Nv12DmaBufWithAllocator(4)),
        OutputTexturePlan::Nv12DmaBuf { allocator: Some(4), .. }
    ));
}

#[test]
fn required_features_are_those_of_vulkan() {
    let required = FormatFeatureFlags2::SAMPLED_IMAGE
        | FormatFeatureFlags2::TRANSFER_DST
        | FormatFeatureFlags2::TRANSFER_SRC;
    assert_eq!(required.as_raw(), REQUIRED_FEATURES);
    assert_eq!(
        ash::vk::MemoryPropertyFlags::DEVICE_LOCAL.as_raw(),
        smelter_media::output_texture::DEVICE_LOCAL
    );
}

#[test]
fn tiled_modifiers_are_preferred() {
    let modifier = |modifier, plane_count, tiling_features| ModifierProperties {
        modifier,
        plane_count,
        tiling_features,
    };
    let all = REQUIRED_FEATURES | 0xf0;
    let linear = modifier(0, 2, all);
    let poor = modifier(1, 2, 1);
    let three = modifier(2, 3, all);
    let tiled = modifier(3, 2, all);
    let other = modifier(4, 2, all);
    assert_eq!(select_nv12_modifier(&[linear, poor, three, tiled, other]), Some(3));
    assert_eq!(select_nv12_modifier(&[poor, linear, three]), Some(0));
    assert_eq!(select_nv12_modifier(&[poor, three]), None);
    assert_eq!(select_nv12_modifier(&[]), None);
}

#[test]
fn memory_has_to_be_allowed_and_local() {
    assert_eq!(find_memory_type_index(0b110, &[1, 2, 3]), Some(2));
    assert_eq!(find_memory_type_index(0b111, &[1, 2, 3]), Some(0));
    assert_eq!(find_memory_type_index(0b010, &[1, 2, 3]), None);
    assert_eq!(find_memory_type_index(1 << 31, &[1; 32]), Some(31));
}

#[test]
fn imports_are_planned_or_refused() {
    let frame = dmabuf(1, DRM_FORMAT_NV12, 64);
    let plan =
        plan_nv12_import(DRM_FORMAT_NV12, 64, 48, &frame.objects, &frame.layers, true).unwrap();
    assert_eq!(plan.extent, Extent { width: 64, height: 48, depth_or_array_layers: 1 });
    assert_eq!(plan.modifier, 7);
    assert_eq!(
        plan.plane_layouts,
        vec![
            PlaneLayout { offset: 0, size: 5_000, row_pitch: 64 },
            PlaneLayout { offset: 3_072, size: 1_928, row_pitch: 64 },
        ]
    );
    assert_eq!(plan.usage, nv12_texture_use(true));
    assert_eq!(
        nv12_texture_use(false),
        TextureUse { sampled: true, copy_dst: true, copy_src: true, render_attachment: false }
    );
    let error = |fourcc, objects: &Vec<DmaBufObject<i32>>, layers: &Vec<DmaBufLayer>| {
        plan_nv12_import(fourcc, 64, 48, objects, layers, false).unwrap_err()
    };
    assert_eq!(
        error(7, &frame.objects, &frame.layers),
        "expected NV12 DMA-BUF, got fourcc 7"
    );
    assert_eq!(
        error(DRM_FORMAT_NV12, &vec![], &frame.layers),
        "only single-object single-layer NV12 DMA-BUF imports are supported"
    );
    let one_plane =
        vec![DmaBufLayer { drm_format: DRM_FORMAT_NV12, planes: vec![plane(0, 64)] }];
    assert_eq!(
        error(DRM_FORMAT_NV12, &frame.objects, &one_plane),
        "NV12 DMA-BUF import requires exactly two planes"
    );
}

#[test]
fn exports_describe_two_planes_of_one_object() {
    let luma = ExportedPlane { offset: 0, row_pitch: 64 };
    let chroma = ExportedPlane { offset: 3_072, row_pitch: 64 };
    let export = |size, luma, chroma| exported_nv12_frame("texture", SIZE, 3, size, 9, luma, chroma);
    let frame = export(5_000, luma, chroma).unwrap();
    assert_eq!((frame.fourcc, frame.width, frame.height), (DRM_FORMAT_NV12, 64, 48));
    assert_eq!((frame.objects[0].size, frame.objects[0].modifier), (5_000, 9));
    assert_eq!(frame.layers[0].planes, vec![plane(0, 64), plane(3_072, 64)]);
    assert!(plan_nv12_import(frame.fourcc, 64, 48, &frame.objects, &frame.layers, false).is_ok());
    let big = 1 << 32;
    let wide = ExportedPlane { offset: 0, row_pitch: big };
    let far = ExportedPlane { offset: big, row_pitch: 64 };
    for (result, message) in [
        (export(big, luma, chroma), "DMA-BUF allocation is larger than VA-API can describe"),
        (export(1, far, chroma), "NV12 Y offset does not fit u32"),
        (export(1, wide, chroma), "NV12 Y pitch does not fit u32"),
        (export(1, luma, far), "NV12 UV offset does not fit u32"),
        (export(1, luma, wide), "NV12 UV pitch does not fit u32"),
    ] {
        assert_eq!(result.unwrap_err(), message);
    }
    assert_eq!(
        nv12_texture_extent(SIZE),
        Extent { width: 64, height: 48, depth_or_array_layers: 1 }
    );
}

#[test]
fn rows_are_read_without_their_padding() {
    assert_eq!((pad_to_256(1), pad_to_256(256), pad_to_256(257)), (256, 256, 512));
    let mut data = vec![9u8; 512];
    data[..3].copy_from_slice(&[1, 2, 3]);
    data[256..259].copy_from_slice(&[4, 5, 6]);
    assert_eq!(unpad_rows(&data, 3).as_ref(), &[1, 2, 3, 4, 5, 6]);
    assert_eq!(unpad_rows(&data[..260], 3).as_ref(), &[1, 2, 3, 4, 5, 6]);
    assert_eq!(unpad_rows(&[], 3).as_ref(), &[] as &[u8]);
}

#[test]
fn decoded_pictures_are_imported_once_per_surface() {
    let mut cache: VaapiDecodedFrameCache<u32, u32, i32> = VaapiDecodedFrameCache::new();
    let pts = Duration::from_millis(5);
    assert!(!cache.is_imported(8));
    let frame = cache
        .frame_from_decoded(8, 0, Some(Ok(Arc::new(dmabuf(1, DRM_FORMAT_NV12, 64)))), pts)
        .unwrap();
    assert_eq!((frame.pts, frame.resolution, frame.data.texture), (pts, SIZE, 1));
    assert!(cache.is_imported(8));
    let again = cache.frame_from_decoded(8, 1, None, pts).unwrap();
    assert!(Arc::ptr_eq(&frame.data, &again.data));
    assert_eq!(
        cache.frame_from_decoded(9, 2, Some(Err("no".to_string())), pts).unwrap_err(),
        "no"
    );
    assert!(!cache.is_imported(9));
    cache.clear_imported_frames();
    assert!(!cache.is_imported(8));
}

#[test]
fn the_newest_pictures_are_kept_alive() {
    let mut cache: VaapiDecodedFrameCache<Arc<usize>, u32, i32> = VaapiDecodedFrameCache::new();
    let handles: Vec<_> = (0..RETAINED_HANDLE_COUNT + 2).map(Arc::new).collect();
    for handle in &handles {
        cache.retain_handle(Arc::clone(handle));
    }
    let alive: Vec<_> =
        handles.iter().filter(|handle| Arc::strong_count(handle) == 2).map(|h| **h).collect();
    assert_eq!(alive, (2..RETAINED_HANDLE_COUNT + 2).collect::<Vec<_>>());
}

#[test]
fn access_units_are_decoded_step_by_step() {
    let mut unit = AccessUnit::new(vec![0, 0, 1, 9, 0, 0, 1, 8, 0]);
    assert_eq!(unit.step(), NextStep::Decode);
    assert_eq!(unit.after(DecodeOutcome::CheckEvents), NextStep::CollectThenDecode);
    assert_eq!(unit.after(DecodeOutcome::Consumed(4)), NextStep::Decode);
    assert_eq!(unit.rest(), &[0, 0, 1, 8, 0]);
    // no start code is left
    assert_eq!(unit.after(DecodeOutcome::Consumed(4)), NextStep::Stop);
    assert_eq!(AccessUnit::new(vec![]).step(), NextStep::Stop);
    let mut stuck = AccessUnit::new(vec![0, 0, 1, 9]);
    assert_eq!(stuck.after(DecodeOutcome::Consumed(0)), NextStep::Stop);
    assert_eq!(stuck.after(DecodeOutcome::Failed), NextStep::Stop);
}

#[test]
fn decoders_follow_their_input() {
    let ready = |synced| DecoderEvent::FrameReady { synced };
    let mut state = DecoderState::new();
    assert_eq!(state.on_event(ready(true)), EventReaction::HandOn);
    assert_eq!(state.on_event(ready(false)), EventReaction::Drop);
    assert_eq!(state.on_event(DecoderEvent::FormatChanged), EventReaction::ForgetImported);
    assert_eq!(state.on_input(InputKind::Chunk { present: false }), SplitterAction::PutChunk);
    assert_eq!(state.on_event(ready(true)), EventReaction::Drop);
    assert_eq!(state.on_input(InputKind::LostData), SplitterAction::MarkMissing);
    assert_eq!(state.on_input(InputKind::AuDelimiter), SplitterAction::Flush);
    assert_eq!(state.on_event(ready(true)), EventReaction::Drop);
    state.on_input(InputKind::Chunk { present: true });
    assert_eq!(state.on_event(ready(true)), EventReaction::HandOn);
    assert_eq!(state.on_split(true), SplitReaction::Decode);
    assert_eq!(state.on_split(false), SplitReaction::RequestKeyframe);
    assert_eq!(coded_resolution(None), VideoResolution { width: 16, height: 16 });
    let known = VideoResolution { width: 640, height: 480 };
    assert_eq!(coded_resolution(Some(known)), known);
}

#[test]
fn a_decoded_picture_is_a_frame() {
    let dmabuf = Arc::new(dmabuf(5, DRM_FORMAT_NV12, 64));
    let frame = frame_from_dmabuf(Arc::clone(&dmabuf), Duration::from_millis(9));
    assert_eq!(frame.resolution, SIZE);
    assert!(Arc::ptr_eq(&frame.data, &dmabuf));
}
