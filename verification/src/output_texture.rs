//! Textures that output pictures are rendered to.

use crate::dmabuf::{DmaBufFrame, DmaBufLayer, DmaBufObject, DmaBufPlane, DRM_FORMAT_NV12};
use crate::media::{Extent, Resolution};
use crate::shared_bytes::{bytes_contents, bytes_from_vec};
use crate::text::{decimal, decimal_text};
use std::sync::Arc;
use vstd::prelude::*;

verus! {

/// How many pictures a ring of output pictures holds.
pub const POOL_SIZE: usize = 16;

/// How the chroma planes of a picture are subsampled.
#[derive(Debug, Clone, Copy, PartialEq, Eq, Structural)]
pub enum PlanarYuvVariant {
    YUV420,
    YUV422,
    YUV444,
}

/// In which form output pictures are wanted.
#[derive(Debug)]
pub enum OutputFrameFormat<A> {
    PlanarYuv420Bytes,
    PlanarYuv422Bytes,
    PlanarYuv444Bytes,
    RgbaWgpuTexture,
    Nv12WgpuTexture,
    Nv12DmaBuf,
    /// With the allocator that provides the pictures.
    Nv12DmaBufWithAllocator(A),
}

/// What an output is rendered to.
#[derive(Debug)]
pub enum OutputTexturePlan<A> {
    /// Planes that are read back.
    PlanarYuvTextures { variant: PlanarYuvVariant, resolution: Resolution },
    Rgba8UnormWgpuTexture { resolution: Resolution },
    Nv12WgpuTexture { resolution: Resolution },
    /// A ring of pictures in shared device memory.
    Nv12DmaBuf { resolution: Resolution, allocator: Option<A> },
}

impl<A> OutputTexturePlan<A> {
    /// What an output of this size and form is rendered to.
    pub fn new(resolution: Resolution, format: OutputFrameFormat<A>) -> (r: Self)
        ensures
            r == match format {
                OutputFrameFormat::PlanarYuv420Bytes => OutputTexturePlan::PlanarYuvTextures {
                    variant: PlanarYuvVariant::YUV420,
                    resolution,
                },
                OutputFrameFormat::PlanarYuv422Bytes => OutputTexturePlan::PlanarYuvTextures {
                    variant: PlanarYuvVariant::YUV422,
                    resolution,
                },
                OutputFrameFormat::PlanarYuv444Bytes => OutputTexturePlan::PlanarYuvTextures {
                    variant: PlanarYuvVariant::YUV444,
                    resolution,
                },
                OutputFrameFormat::RgbaWgpuTexture => OutputTexturePlan::Rgba8UnormWgpuTexture {
                    resolution,
                },
                OutputFrameFormat::Nv12WgpuTexture => OutputTexturePlan::Nv12WgpuTexture {
                    resolution,
                },
                OutputFrameFormat::Nv12DmaBuf => OutputTexturePlan::Nv12DmaBuf {
                    resolution,
                    allocator: None,
                },
                OutputFrameFormat::Nv12DmaBufWithAllocator(allocator) =>
                OutputTexturePlan::Nv12DmaBuf { resolution, allocator: Some(allocator) },
            },
    {
        match format {
            OutputFrameFormat::PlanarYuv420Bytes => OutputTexturePlan::PlanarYuvTextures {
                variant: PlanarYuvVariant::YUV420,
                resolution,
            },
            OutputFrameFormat::PlanarYuv422Bytes => OutputTexturePlan::PlanarYuvTextures {
                variant: PlanarYuvVariant::YUV422,
                resolution,
            },
            OutputFrameFormat::PlanarYuv444Bytes => OutputTexturePlan::PlanarYuvTextures {
                variant: PlanarYuvVariant::YUV444,
                resolution,
            },
            OutputFrameFormat::RgbaWgpuTexture => OutputTexturePlan::Rgba8UnormWgpuTexture {
                resolution,
            },
            OutputFrameFormat::Nv12WgpuTexture => OutputTexturePlan::Nv12WgpuTexture {
                resolution,
            },
            OutputFrameFormat::Nv12DmaBuf => OutputTexturePlan::Nv12DmaBuf {
                resolution,
                allocator: None,
            },
            OutputFrameFormat::Nv12DmaBufWithAllocator(allocator) => OutputTexturePlan::Nv12DmaBuf {
                resolution,
                allocator: Some(allocator),
            },
        }
    }
}

/// Why the textures of an output could not be made.
#[derive(Debug)]
pub enum CreateOutputTextureError {
    DmaBufAllocation(String),
    InvalidDmaBufFourcc(u32),
    InvalidDmaBufResolution { actual: Resolution, expected: Resolution },
    InvalidDmaBufTexture,
}

/// A resolution in messages.
pub open spec fn resolution_text(resolution: Resolution) -> Seq<char> {
    "Resolution { width: "@ + decimal_text(resolution.width as nat) + ", height: "@ + decimal_text(
        resolution.height as nat,
    ) + " }"@
}

fn describe_resolution(resolution: Resolution) -> (r: String)
    ensures
        r@ == resolution_text(resolution),
{
    let width = decimal(resolution.width as u64);
    let height = decimal(resolution.height as u64);
    String::from_str("Resolution { width: ").concat(width.as_str()).concat(", height: ").concat(
        height.as_str(),
    ).concat(" }")
}

impl CreateOutputTextureError {
    /// The message that tells what went wrong.
    pub open spec fn text(self) -> Seq<char> {
        match self {
            CreateOutputTextureError::DmaBufAllocation(cause) =>
            "Failed to allocate NV12 DMA-BUF output frame: "@ + cause@,
            CreateOutputTextureError::InvalidDmaBufFourcc(fourcc) =>
            "NV12 DMA-BUF allocator returned fourcc "@ + decimal_text(fourcc as nat)
                + ", expected NV12"@,
            CreateOutputTextureError::InvalidDmaBufResolution { actual, expected } =>
            "NV12 DMA-BUF allocator returned resolution "@ + resolution_text(actual)
                + ", expected "@ + resolution_text(expected),
            CreateOutputTextureError::InvalidDmaBufTexture =>
            "NV12 DMA-BUF allocator returned a non-NV12 wgpu texture"@,
        }
    }

    /// The message that tells what went wrong.
    pub fn message(&self) -> (r: String)
        ensures
            r@ == self.text(),
    {
        match self {
            CreateOutputTextureError::DmaBufAllocation(cause) => {
                String::from_str("Failed to allocate NV12 DMA-BUF output frame: ").concat(
                    cause.as_str(),
                )
            },
            CreateOutputTextureError::InvalidDmaBufFourcc(fourcc) => {
                let number = decimal(*fourcc as u64);
                String::from_str("NV12 DMA-BUF allocator returned fourcc ").concat(
                    number.as_str(),
                ).concat(", expected NV12")
            },
            CreateOutputTextureError::InvalidDmaBufResolution { actual, expected } => {
                let actual = describe_resolution(*actual);
                let expected = describe_resolution(*expected);
                String::from_str("NV12 DMA-BUF allocator returned resolution ").concat(
                    actual.as_str(),
                ).concat(", expected ").concat(expected.as_str())
            },
            CreateOutputTextureError::InvalidDmaBufTexture => {
                String::from_str("NV12 DMA-BUF allocator returned a non-NV12 wgpu texture")
            },
        }
    }
}

/// What is wrong with a picture that an allocator returned.
pub open spec fn dmabuf_fault<X, O>(
    frame: DmaBufFrame<X, O>,
    expected: Resolution,
) -> Option<CreateOutputTextureError> {
    let actual = Resolution { width: frame.width as usize, height: frame.height as usize };
    if frame.fourcc != DRM_FORMAT_NV12 {
        Some(CreateOutputTextureError::InvalidDmaBufFourcc(frame.fourcc))
    } else if actual != expected {
        Some(CreateOutputTextureError::InvalidDmaBufResolution { actual, expected })
    } else {
        None
    }
}

/// Whether an allocator returned what was asked for: a picture in NV12 of the right size.
pub fn validate_nv12_dmabuf<X, O>(dmabuf: &DmaBufFrame<X, O>, expected: Resolution) -> (r: Result<
    (),
    CreateOutputTextureError,
>)
    ensures
        r == match dmabuf_fault(*dmabuf, expected) {
            Some(fault) => Err::<(), CreateOutputTextureError>(fault),
            None => Ok::<(), CreateOutputTextureError>(()),
        },
{
    if dmabuf.fourcc() != DRM_FORMAT_NV12 {
        return Err(CreateOutputTextureError::InvalidDmaBufFourcc(dmabuf.fourcc()));
    }
    let actual = dmabuf.resolution();
    if actual != expected {
        return Err(CreateOutputTextureError::InvalidDmaBufResolution { actual, expected });
    }
    Ok(())
}

/// A picture of a ring and the texture it is rendered through.
#[derive(Debug)]
pub struct PooledNv12DmaBufFrame<X, O, T> {
    pub dmabuf: Arc<DmaBufFrame<X, O>>,
    pub texture: T,
}

/// What came of the attempt to provide a picture: the picture with its texture, if it could be
/// rendered to, or why there is none.
pub type Allocation<X, O, T> = Result<(Arc<DmaBufFrame<X, O>>, Option<T>), String>;

/// What is wrong with what an attempt to provide a picture came to.
pub open spec fn allocation_fault<X, O, T>(
    allocation: Allocation<X, O, T>,
    resolution: Resolution,
) -> Option<CreateOutputTextureError> {
    match allocation {
        Err(cause) => Some(CreateOutputTextureError::DmaBufAllocation(cause)),
        Ok((frame, texture)) => match dmabuf_fault(*frame, resolution) {
            Some(fault) => Some(fault),
            None => if texture is None {
                Some(CreateOutputTextureError::InvalidDmaBufTexture)
            } else {
                None
            },
        },
    }
}

/// The first of the attempts that came to nothing.
pub open spec fn first_fault<X, O, T>(
    allocations: Seq<Allocation<X, O, T>>,
    resolution: Resolution,
    at: int,
) -> bool {
    &&& 0 <= at < allocations.len()
    &&& allocation_fault(allocations[at], resolution) is Some
    &&& forall|i: int|
        0 <= i < at ==> allocation_fault(#[trigger] allocations[i], resolution) is None
}

/// Whether another picture is to be provided for a ring: some are missing, and none so far came to
/// nothing.
pub fn wants_another<X, O, T>(allocations: &Vec<Allocation<X, O, T>>, resolution: Resolution) -> (r:
    bool)
    ensures
        r == (allocations@.len() < POOL_SIZE && forall|i: int|
            0 <= i < allocations@.len() ==> allocation_fault(
                #[trigger] allocations@[i],
                resolution,
            ) is None),
{
    let mut i: usize = 0;
    while i < allocations.len()
        invariant
            i <= allocations@.len(),
            forall|k: int|
                0 <= k < i ==> allocation_fault(#[trigger] allocations@[k], resolution) is None,
        decreases allocations@.len() - i,
    {
        let usable = match &allocations[i] {
            Err(_) => false,
            Ok((dmabuf, texture)) => {
                validate_nv12_dmabuf(&**dmabuf, resolution).is_ok() && texture.is_some()
            },
        };
        if !usable {
            return false;
        }
        i = i + 1;
    }
    allocations.len() < POOL_SIZE
}

/// A ring of output pictures.
pub struct Nv12DmaBufOutput<X, O, T> {
    frames: Vec<PooledNv12DmaBufFrame<X, O, T>>,
    next_index: usize,
    resolution: Resolution,
}

impl<X, O, T> Nv12DmaBufOutput<X, O, T> {
    pub closed spec fn frames(self) -> Seq<PooledNv12DmaBufFrame<X, O, T>> {
        self.frames@
    }

    /// The place of the picture that is next.
    pub closed spec fn next(self) -> int {
        self.next_index as int
    }

    pub closed spec fn size(self) -> Resolution {
        self.resolution
    }

    pub open spec fn wf(self) -> bool {
        0 <= self.next() < self.frames().len()
    }

    /// A ring of the pictures that were provided, or what was wrong with the first one that is not
    /// right.
    pub fn new(resolution: Resolution, allocations: Vec<Allocation<X, O, T>>) -> (r: Result<
        Self,
        CreateOutputTextureError,
    >)
        requires
            allocations@.len() == POOL_SIZE || exists|at: int|
                first_fault(allocations@, resolution, at),
        ensures
            match r {
                Ok(ring) => {
                    &&& ring.wf()
                    &&& ring.next() == 0
                    &&& ring.size() == resolution
                    &&& ring.frames().len() == POOL_SIZE
                    &&& allocations@.len() == POOL_SIZE
                    &&& forall|i: int|
                        0 <= i < POOL_SIZE ==> {
                            &&& allocation_fault(#[trigger] allocations@[i], resolution) is None
                            &&& allocations@[i]->Ok_0.0 == ring.frames()[i].dmabuf
                            &&& allocations@[i]->Ok_0.1 == Some(ring.frames()[i].texture)
                        }
                },
                Err(fault) => exists|at: int|
                    #[trigger] first_fault(allocations@, resolution, at) && Some(fault)
                        == allocation_fault(allocations@[at], resolution),
            },
    {
        let ghost given = allocations@;
        let mut rest = allocations;
        let mut frames: Vec<PooledNv12DmaBufFrame<X, O, T>> = Vec::new();
        assert(rest@ =~= given.skip(0));
        while rest.len() > 0
            invariant
                given == allocations@,
                frames@.len() + rest@.len() == given.len(),
                rest@ == given.skip(frames@.len() as int),
                forall|i: int|
                    0 <= i < frames@.len() ==> {
                        &&& allocation_fault(#[trigger] given[i], resolution) is None
                        &&& given[i]->Ok_0.0 == frames@[i].dmabuf
                        &&& given[i]->Ok_0.1 == Some(frames@[i].texture)
                    },
            decreases rest@.len(),
        {
            let ghost at = frames@.len() as int;
            let allocation = rest.remove(0);
            assert(allocation == given[at]);
            assert(rest@ =~= given.skip(at + 1));
            match allocation {
                Err(cause) => {
                    assert(first_fault(given, resolution, at));
                    return Err(CreateOutputTextureError::DmaBufAllocation(cause));
                },
                Ok((dmabuf, texture)) => {
                    if let Err(fault) = validate_nv12_dmabuf(&*dmabuf, resolution) {
                        assert(first_fault(given, resolution, at));
                        return Err(fault);
                    }
                    match texture {
                        Some(texture) => {
                            frames.push(PooledNv12DmaBufFrame { dmabuf, texture });
                        },
                        None => {
                            assert(first_fault(given, resolution, at));
                            return Err(CreateOutputTextureError::InvalidDmaBufTexture);
                        },
                    }
                },
            }
        }
        proof {
            if given.len() != POOL_SIZE {
                let at = choose|at: int| first_fault(given, resolution, at);
                assert(allocation_fault(given[at], resolution) is None);
            }
        }
        Ok(Nv12DmaBufOutput { frames, next_index: 0, resolution })
    }

    pub fn resolution(&self) -> (r: Resolution)
        ensures
            r == self.size(),
    {
        self.resolution
    }

    /// The next picture of the ring and its texture.
    pub fn next_frame(&mut self) -> (r: (&T, Arc<DmaBufFrame<X, O>>))
        requires
            old(self).wf(),
        ensures
            *r.0 == old(self).frames()[old(self).next()].texture,
            r.1 == old(self).frames()[old(self).next()].dmabuf,
            final(self).wf(),
            final(self).frames() == old(self).frames(),
            final(self).size() == old(self).size(),
            final(self).next() == ring_place(
                old(self).next(),
                1,
                old(self).frames().len() as int,
            ),
    {
        let index: usize = self.next_index;
        let len: usize = self.frames.len();
        self.next_index = if index + 1 == len {
            0
        } else {
            index + 1
        };
        proof {
            assert(index + 1 < len ==> (index + 1) % (len as int) == index + 1)
                by (nonlinear_arith)
                requires
                    index >= 0,
                    len > 0,
            ;
            assert((len as int) % (len as int) == 0) by (nonlinear_arith)
                requires
                    len > 0,
            ;
        }
        let frame = &self.frames[index];
        (&frame.texture, Arc::clone(&frame.dmabuf))
    }
}

/// The place `steps` after `place` in a ring of `len`.
pub open spec fn ring_place(place: int, steps: int, len: int) -> int {
    (place + steps) % len
}

/// A picture is used again only after every other one of the ring was.
pub proof fn lemma_ring_reuses_last(place: int, steps: int, len: int)
    requires
        0 <= place < len,
        0 < steps <= len,
    ensures
        ring_place(place, steps, len) == place <==> steps == len,
{
    if steps == len {
        assert((place + len) % len == place) by (nonlinear_arith)
            requires
                0 <= place < len,
        ;
    } else if place + steps < len {
        assert((place + steps) % len == place + steps) by (nonlinear_arith)
            requires
                0 <= place + steps < len,
        ;
    } else {
        assert((place + steps) % len == place + steps - len) by (nonlinear_arith)
            requires
                0 <= place + steps - len < len,
        ;
    }
}

/// What a format modifier offers.
#[derive(Debug, Clone, Copy, PartialEq, Eq, Structural)]
pub struct ModifierProperties {
    pub modifier: u64,
    pub plane_count: u32,
    /// The bits of the features that pictures with this modifier have.
    pub tiling_features: u64,
}

/// The features that an output picture needs: it can be sampled, copied to and copied from.
pub const REQUIRED_FEATURES: u64 = 0xC001;

/// A picture with this modifier can be exported in NV12.
pub open spec fn supports_nv12_export(modifier: ModifierProperties) -> bool {
    modifier.plane_count == 2 && modifier.tiling_features & REQUIRED_FEATURES == REQUIRED_FEATURES
}

/// `at` is the first place at which the list holds what is wanted.
pub open spec fn is_first(
    modifiers: Seq<ModifierProperties>,
    wanted: spec_fn(ModifierProperties) -> bool,
    at: int,
) -> bool {
    &&& 0 <= at < modifiers.len()
    &&& wanted(modifiers[at])
    &&& forall|i: int| 0 <= i < at ==> !wanted(#[trigger] modifiers[i])
}

/// The modifier is the first usable one that is not linear, or else the first usable one.
pub open spec fn is_selected(modifiers: Seq<ModifierProperties>, modifier: u64) -> bool {
    let usable = |m: ModifierProperties| supports_nv12_export(m);
    let tiled = |m: ModifierProperties| supports_nv12_export(m) && m.modifier != 0;
    exists|at: int|
        {
            &&& modifiers[at].modifier == modifier
            &&& #[trigger] is_first(modifiers, tiled, at) || (is_first(modifiers, usable, at)
                && forall|i: int|
                0 <= i < modifiers.len() ==> !tiled(#[trigger] modifiers[i]))
        }
}

/// The modifier for exported pictures: the first usable one that is not linear, or else the first
/// usable one.
pub fn select_nv12_modifier(modifiers: &[ModifierProperties]) -> (r: Option<u64>)
    ensures
        match r {
            Some(modifier) => is_selected(modifiers@, modifier),
            None => forall|i: int|
                0 <= i < modifiers@.len() ==> !supports_nv12_export(#[trigger] modifiers@[i]),
        },
{
    let ghost usable = |m: ModifierProperties| supports_nv12_export(m);
    let ghost tiled = |m: ModifierProperties| supports_nv12_export(m) && m.modifier != 0;
    let mut fallback: Option<u64> = None;
    let ghost mut fallback_at: int = 0;
    let mut i: usize = 0;
    while i < modifiers.len()
        invariant
            i <= modifiers@.len(),
            usable == (|m: ModifierProperties| supports_nv12_export(m)),
            tiled == (|m: ModifierProperties| supports_nv12_export(m) && m.modifier != 0),
            forall|k: int| 0 <= k < i ==> !tiled(#[trigger] modifiers@[k]),
            match fallback {
                Some(modifier) => is_first(modifiers@, usable, fallback_at)
                    && modifiers@[fallback_at].modifier == modifier,
                None => forall|k: int|
                    0 <= k < i ==> !supports_nv12_export(#[trigger] modifiers@[k]),
            },
        decreases modifiers@.len() - i,
    {
        let candidate = modifiers[i];
        if candidate.plane_count == 2 && candidate.tiling_features & REQUIRED_FEATURES
            == REQUIRED_FEATURES {
            if candidate.modifier != 0 {
                assert(is_first(modifiers@, tiled, i as int));
                return Some(candidate.modifier);
            }
            if fallback.is_none() {
                fallback = Some(candidate.modifier);
                proof {
                    fallback_at = i as int;
                    assert(is_first(modifiers@, usable, i as int));
                }
            }
        }
        i = i + 1;
    }
    proof {
        if fallback is Some {
            let _ = is_first(modifiers@, tiled, fallback_at);
        }
    }
    fallback
}

/// The bit that marks memory as local to the device.
pub const DEVICE_LOCAL: u32 = 1;

/// Memory of this type may be used, and it is local to the device.
pub open spec fn usable_memory(type_bits: u32, flags: Seq<u32>, index: int) -> bool {
    type_bits & (1u32 << (index as u32)) != 0 && flags[index] & DEVICE_LOCAL == DEVICE_LOCAL
}

/// The first type of memory that may be used and is local to the device. `flags` holds the
/// properties of each type.
pub fn find_memory_type_index(type_bits: u32, flags: &[u32]) -> (r: Option<u32>)
    requires
        flags@.len() <= 32,
    ensures
        match r {
            Some(index) => {
                &&& index < flags@.len()
                &&& usable_memory(type_bits, flags@, index as int)
                &&& forall|i: int|
                    0 <= i < index ==> !(#[trigger] usable_memory(type_bits, flags@, i))
            },
            None => forall|i: int|
                0 <= i < flags@.len() ==> !(#[trigger] usable_memory(type_bits, flags@, i)),
        },
{
    let mut index: u32 = 0;
    while (index as usize) < flags.len()
        invariant
            index <= flags@.len() <= 32,
            forall|i: int| 0 <= i < index ==> !(#[trigger] usable_memory(type_bits, flags@, i)),
        decreases flags@.len() - index,
    {
        let allowed = type_bits & (1u32 << index) != 0;
        if allowed && flags[index as usize] & DEVICE_LOCAL == DEVICE_LOCAL {
            assert(usable_memory(type_bits, flags@, index as int));
            return Some(index);
        }
        assert(!usable_memory(type_bits, flags@, index as int));
        index = index + 1;
    }
    None
}

/// Where a plane of an imported picture lies in its memory.
#[derive(Debug, Clone, Copy, PartialEq, Eq, Structural)]
pub struct PlaneLayout {
    pub offset: u64,
    pub size: u64,
    pub row_pitch: u64,
}

/// What a texture is used for.
#[derive(Debug, Clone, Copy, PartialEq, Eq, Structural)]
pub struct TextureUse {
    pub sampled: bool,
    pub copy_dst: bool,
    pub copy_src: bool,
    pub render_attachment: bool,
}

/// What a picture in NV12 is used for: it is sampled and copied, and rendered to where that is
/// wanted.
pub fn nv12_texture_use(render_attachment: bool) -> (r: TextureUse)
    ensures
        r == (TextureUse { sampled: true, copy_dst: true, copy_src: true, render_attachment }),
{
    TextureUse { sampled: true, copy_dst: true, copy_src: true, render_attachment }
}

/// The size of the texture that shows a picture.
pub fn nv12_texture_extent(resolution: Resolution) -> (r: Extent)
    ensures
        r == (Extent {
            width: resolution.width as u32,
            height: resolution.height as u32,
            depth_or_array_layers: 1,
        }),
{
    Extent {
        width: resolution.width as u32,
        height: resolution.height as u32,
        depth_or_array_layers: 1,
    }
}

/// How a picture is imported.
#[derive(Debug)]
pub struct ImportPlan {
    pub extent: Extent,
    pub modifier: u64,
    pub plane_layouts: Vec<PlaneLayout>,
    pub usage: TextureUse,
}

/// Why a picture is not imported.
pub open spec fn import_fault<O>(
    fourcc: u32,
    objects: Seq<DmaBufObject<O>>,
    layers: Seq<DmaBufLayer>,
) -> Option<Seq<char>> {
    if fourcc != DRM_FORMAT_NV12 {
        Some("expected NV12 DMA-BUF, got fourcc "@ + decimal_text(fourcc as nat))
    } else if objects.len() != 1 || layers.len() != 1 {
        Some("only single-object single-layer NV12 DMA-BUF imports are supported"@)
    } else if layers[0].planes@.len() != 2 {
        Some("NV12 DMA-BUF import requires exactly two planes"@)
    } else {
        None
    }
}

/// Where a plane lies in the memory of its object.
pub open spec fn plane_layout<O>(objects: Seq<DmaBufObject<O>>, plane: DmaBufPlane) -> PlaneLayout {
    PlaneLayout {
        offset: plane.offset as u64,
        size: (objects[plane.object_index as int].size - plane.offset) as u64,
        row_pitch: plane.pitch as u64,
    }
}

/// How a picture in NV12 is imported: one object, one layer, two planes.
pub fn plan_nv12_import<O>(
    fourcc: u32,
    width: u32,
    height: u32,
    objects: &Vec<DmaBufObject<O>>,
    layers: &Vec<DmaBufLayer>,
    render_attachment: bool,
) -> (r: Result<ImportPlan, String>)
    requires
        import_fault(fourcc, objects@, layers@) is None ==> forall|i: int|
            0 <= i < 2 ==> (#[trigger] layers@[0].planes@[i]).object_index == 0
                && layers@[0].planes@[i].offset <= objects@[0].size,
    ensures
        match r {
            Ok(plan) => {
                &&& import_fault(fourcc, objects@, layers@) is None
                &&& plan.extent == (Extent { width, height, depth_or_array_layers: 1 })
                &&& plan.modifier == objects@[0].modifier
                &&& plan.plane_layouts@ == layers@[0].planes@.map_values(
                    |plane: DmaBufPlane| plane_layout(objects@, plane),
                )
                &&& plan.usage == (TextureUse {
                    sampled: true,
                    copy_dst: true,
                    copy_src: true,
                    render_attachment,
                })
            },
            Err(message) => import_fault(fourcc, objects@, layers@) == Some(message@),
        },
{
    if fourcc != DRM_FORMAT_NV12 {
        let number = decimal(fourcc as u64);
        return Err(
            String::from_str("expected NV12 DMA-BUF, got fourcc ").concat(number.as_str()),
        );
    }
    if objects.len() != 1 || layers.len() != 1 {
        return Err(
            String::from_str("only single-object single-layer NV12 DMA-BUF imports are supported"),
        );
    }
    let planes = &layers[0].planes;
    if planes.len() != 2 {
        return Err(String::from_str("NV12 DMA-BUF import requires exactly two planes"));
    }
    let first = planes[0];
    let second = planes[1];
    assert(layers@[0].planes@[0] == first && layers@[0].planes@[1] == second);
    let size: u32 = objects[0].size;
    let mut plane_layouts: Vec<PlaneLayout> = Vec::new();
    plane_layouts.push(
        PlaneLayout {
            offset: first.offset as u64,
            size: size as u64 - first.offset as u64,
            row_pitch: first.pitch as u64,
        },
    );
    plane_layouts.push(
        PlaneLayout {
            offset: second.offset as u64,
            size: size as u64 - second.offset as u64,
            row_pitch: second.pitch as u64,
        },
    );
    assert(plane_layouts@ =~= layers@[0].planes@.map_values(
        |plane: DmaBufPlane| plane_layout(objects@, plane),
    ));
    Ok(
        ImportPlan {
            extent: Extent { width, height, depth_or_array_layers: 1 },
            modifier: objects[0].modifier,
            plane_layouts,
            usage: nv12_texture_use(render_attachment),
        },
    )
}

/// Where a plane of an exported picture lies in its memory.
#[derive(Debug, Clone, Copy, PartialEq, Eq, Structural)]
pub struct ExportedPlane {
    pub offset: u64,
    pub row_pitch: u64,
}

/// Why the layout of an exported picture cannot be described.
pub open spec fn export_fault(size: u64, luma: ExportedPlane, chroma: ExportedPlane) -> Option<
    Seq<char>,
> {
    if size > u32::MAX {
        Some("DMA-BUF allocation is larger than VA-API can describe"@)
    } else if luma.offset > u32::MAX {
        Some("NV12 Y offset does not fit u32"@)
    } else if luma.row_pitch > u32::MAX {
        Some("NV12 Y pitch does not fit u32"@)
    } else if chroma.offset > u32::MAX {
        Some("NV12 UV offset does not fit u32"@)
    } else if chroma.row_pitch > u32::MAX {
        Some("NV12 UV pitch does not fit u32"@)
    } else {
        None
    }
}

/// The frame that an exported picture becomes: one object, one layer, two planes.
pub fn exported_nv12_frame<X, O>(
    texture: X,
    resolution: Resolution,
    fd: O,
    size: u64,
    modifier: u64,
    luma: ExportedPlane,
    chroma: ExportedPlane,
) -> (r: Result<DmaBufFrame<X, O>, String>)
    ensures
        match r {
            Ok(frame) => {
                &&& export_fault(size, luma, chroma) is None
                &&& frame.texture == texture
                &&& frame.fourcc == DRM_FORMAT_NV12
                &&& frame.width == resolution.width as u32
                &&& frame.height == resolution.height as u32
                &&& frame.objects@ == seq![DmaBufObject { fd, size: size as u32, modifier }]
                &&& frame.layers@.len() == 1
                &&& frame.layers@[0].drm_format == DRM_FORMAT_NV12
                &&& frame.layers@[0].planes@ == seq![
                    DmaBufPlane {
                        object_index: 0,
                        offset: luma.offset as u32,
                        pitch: luma.row_pitch as u32,
                    },
                    DmaBufPlane {
                        object_index: 0,
                        offset: chroma.offset as u32,
                        pitch: chroma.row_pitch as u32,
                    },
                ]
            },
            Err(message) => export_fault(size, luma, chroma) == Some(message@),
        },
{
    let limit: u64 = u32::MAX as u64;
    if size > limit {
        return Err(String::from_str("DMA-BUF allocation is larger than VA-API can describe"));
    }
    if luma.offset > limit {
        return Err(String::from_str("NV12 Y offset does not fit u32"));
    }
    if luma.row_pitch > limit {
        return Err(String::from_str("NV12 Y pitch does not fit u32"));
    }
    if chroma.offset > limit {
        return Err(String::from_str("NV12 UV offset does not fit u32"));
    }
    if chroma.row_pitch > limit {
        return Err(String::from_str("NV12 UV pitch does not fit u32"));
    }
    let mut objects: Vec<DmaBufObject<O>> = Vec::new();
    objects.push(DmaBufObject { fd, size: size as u32, modifier });
    let mut planes: Vec<DmaBufPlane> = Vec::new();
    planes.push(
        DmaBufPlane {
            object_index: 0,
            offset: luma.offset as u32,
            pitch: luma.row_pitch as u32,
        },
    );
    planes.push(
        DmaBufPlane {
            object_index: 0,
            offset: chroma.offset as u32,
            pitch: chroma.row_pitch as u32,
        },
    );
    let mut layers: Vec<DmaBufLayer> = Vec::new();
    layers.push(DmaBufLayer { drm_format: DRM_FORMAT_NV12, planes });
    assert(objects@ =~= seq![DmaBufObject { fd, size: size as u32, modifier }]);
    Ok(
        DmaBufFrame {
            texture,
            fourcc: DRM_FORMAT_NV12,
            width: resolution.width as u32,
            height: resolution.height as u32,
            objects,
            layers,
        },
    )
}

/// What was exported can be imported again, with the planes where they were.
pub proof fn lemma_exported_frame_is_importable<X, O>(
    frame: DmaBufFrame<X, O>,
    object: DmaBufObject<O>,
    luma: DmaBufPlane,
    chroma: DmaBufPlane,
)
    requires
        frame.fourcc == DRM_FORMAT_NV12,
        frame.objects@ == seq![object],
        frame.layers@.len() == 1,
        frame.layers@[0].planes@ == seq![luma, chroma],
    ensures
        import_fault(frame.fourcc, frame.objects@, frame.layers@) is None,
{
}

/// How many bytes a row of a texture takes when it is read back: whole blocks of 256.
pub open spec fn padded_row(width: int) -> int {
    (width + 255) / 256 * 256
}

/// How many bytes a row of a texture takes when it is read back: whole blocks of 256.
pub fn pad_to_256(width: u32) -> (r: u32)
    requires
        width <= 0xffff_ff00,
    ensures
        r == padded_row(width as int),
        r >= width,
        width > 0 ==> r > 0,
{
    (width + 255) / 256 * 256
}

/// The rows of a picture, without what follows them in each block of `padded` bytes.
pub open spec fn rows_of(data: Seq<u8>, padded: int, width: int) -> Seq<u8>
    decreases data.len(),
{
    if padded <= 0 || data.len() == 0 {
        Seq::empty()
    } else if data.len() <= padded {
        data.take(width)
    } else {
        data.take(width) + rows_of(data.skip(padded), padded, width)
    }
}

/// The picture in what was read back from a texture whose rows are `width` bytes long: the rows,
/// without the padding between them. The last row may come without padding.
pub fn unpad_rows(data: &[u8], width: u32) -> (r: bytes::Bytes)
    requires
        0 < width <= 0xffff_ff00,
        data@.len() as int % padded_row(width as int) == 0 || data@.len() as int % padded_row(
            width as int,
        ) >= width,
    ensures
        bytes_contents(r) == rows_of(data@, padded_row(width as int), width as int),
{
    let padded: usize = pad_to_256(width) as usize;
    let row: usize = width as usize;
    let ghost goal = rows_of(data@, padded as int, row as int);
    let mut out: Vec<u8> = Vec::new();
    let mut start: usize = 0;
    assert(data@.skip(0) =~= data@);
    assert(goal =~= out@ + rows_of(data@.skip(0), padded as int, row as int));
    while start < data.len()
        invariant
            0 < row <= padded,
            goal == rows_of(data@, padded_row(width as int), width as int),
            start <= data@.len(),
            (data@.len() - start) % (padded as int) == 0 || (data@.len() - start) % (padded as int)
                >= row,
            goal == out@ + rows_of(data@.skip(start as int), padded as int, row as int),
        decreases data@.len() - start,
    {
        let ghost rest = data@.skip(start as int);
        let left: usize = data.len() - start;
        proof {
            if left < padded {
                assert(left as int % (padded as int) == left) by (nonlinear_arith)
                    requires
                        0 < left < padded,
                ;
            } else {
                assert((left - padded) % (padded as int) == left as int % (padded as int))
                    by (nonlinear_arith)
                    requires
                        padded > 0,
                ;
            }
        }
        let ghost before = out@;
        out.extend_from_slice(vstd::slice::slice_subrange(data, start, start + row));
        proof {
            assert(data@.subrange(start as int, start + row) =~= rest.take(row as int));
            assert(out@ =~= before + rest.take(row as int));
        }
        if left <= padded {
            assert(out@ =~= goal);
            return bytes_from_vec(out);
        }
        proof {
            assert(rest.skip(padded as int) =~= data@.skip(start + padded));
            assert(goal =~= out@ + rows_of(
                data@.skip(start + padded),
                padded as int,
                row as int,
            ));
        }
        start = start + padded;
    }
    assert(data@.skip(start as int) =~= Seq::<u8>::empty());
    assert(out@ =~= goal);
    bytes_from_vec(out)
}

/// A row is padded to whole blocks of 256 bytes, and by less than one block.
pub proof fn lemma_rows_are_padded_to_blocks(width: nat)
    ensures
        padded_row(width as int) % 256 == 0,
        width <= padded_row(width as int) < width + 256,
{
}

/// Every byte of every row comes out, and nothing of the padding: the picture has `rows` times `width`
/// bytes, and byte `column` of a row is the one that stood there in the padded data, whose last row may
/// be cut off anywhere behind its content.
pub proof fn lemma_rows_come_out_whole(
    data: Seq<u8>,
    padded: int,
    width: int,
    rows: int,
    last: int,
    row: int,
    column: int,
)
    requires
        0 < width <= padded,
        width <= last <= padded,
        data.len() == (rows - 1) * padded + last,
        0 <= row < rows,
        0 <= column < width,
    ensures
        rows_of(data, padded, width).len() == rows * width,
        0 <= row * width + column < rows * width,
        rows_of(data, padded, width)[row * width + column] == data[row * padded + column],
    decreases rows,
{
    assert(0 <= row * width && row * width + column < rows * width) by (nonlinear_arith)
        requires
            0 <= row < rows,
            0 <= column < width,
    ;
    if rows == 1 {
        assert(rows * width == width) by (nonlinear_arith)
            requires
                rows == 1,
        ;
    } else {
        let rest = data.skip(padded);
        let before = rows - 1;
        assert((rows - 1) * padded == (before - 1) * padded + padded) by (nonlinear_arith)
            requires
                before == rows - 1,
        ;
        assert((before - 1) * padded >= 0) by (nonlinear_arith)
            requires
                before >= 1,
                padded > 0,
        ;
        assert(rest.len() == (before - 1) * padded + last);
        assert(rows * width == width + before * width) by (nonlinear_arith)
            requires
                before == rows - 1,
        ;
        if row == 0 {
            lemma_rows_come_out_whole(rest, padded, width, before, last, 0, column);
        } else {
            let above = row - 1;
            lemma_rows_come_out_whole(rest, padded, width, before, last, above, column);
            assert(row * width == width + above * width) by (nonlinear_arith)
                requires
                    above == row - 1,
            ;
            assert(row * padded == padded + above * padded) by (nonlinear_arith)
                requires
                    above == row - 1,
            ;
            assert(0 <= above * padded && above * padded + column < rest.len())
                by (nonlinear_arith)
                requires
                    0 <= above <= before - 1,
                    0 <= column < width <= last,
                    padded > 0,
                    rest.len() == (before - 1) * padded + last,
            ;
        }
    }
}

/// Pictures of the ring follow each other: one step after `steps` steps is the next step, and the ring
/// has sixteen.
pub proof fn lemma_ring_goes_round(place: int, steps: int, len: int)
    requires
        0 <= place < len,
        0 <= steps,
    ensures
        0 <= ring_place(place, steps, len) < len,
        ring_place(place, steps, len) + 1 < len ==> ring_place(place, steps + 1, len)
            == ring_place(place, steps, len) + 1,
        ring_place(place, steps, len) + 1 == len ==> ring_place(place, steps + 1, len) == 0,
        POOL_SIZE == 16,
{
    let total = place + steps;
    let reached = total % len;
    assert(0 <= reached < len) by (nonlinear_arith)
        requires
            len > 0,
            reached == total % len,
    ;
    assert(reached + 1 < len ==> (total + 1) % len == reached + 1) by (nonlinear_arith)
        requires
            0 < len,
            reached == total % len,
    ;
    assert(reached + 1 == len ==> (total + 1) % len == 0) by (nonlinear_arith)
        requires
            0 < len,
            reached == total % len,
    ;
}

/// A picture can be exported exactly if it has two planes and each of the three features that it needs:
/// that it is sampled, copied from and copied to.
pub proof fn lemma_export_needs_every_feature(modifier: ModifierProperties)
    ensures
        supports_nv12_export(modifier) <==> {
            let features = modifier.tiling_features;
            modifier.plane_count == 2 && features & 1 != 0 && features & 0x4000 != 0 && features
                & 0x8000 != 0
        },
{
    let features = modifier.tiling_features;
    assert(features & 0xC001 == 0xC001 <==> (features & 1 != 0 && features & 0x4000 != 0
        && features & 0x8000 != 0)) by (bit_vector);
}

/// What is selected can be exported, and is linear only where nothing else can be; of several that are
/// as good, it is the first.
pub proof fn lemma_selected_modifier_is_the_best(
    modifiers: Seq<ModifierProperties>,
    modifier: u64,
    other: int,
)
    requires
        is_selected(modifiers, modifier),
        0 <= other < modifiers.len(),
        supports_nv12_export(modifiers[other]),
    ensures
        modifiers[other].modifier != 0 ==> modifier != 0,
        exists|at: int|
            {
                &&& 0 <= at < modifiers.len()
                &&& (#[trigger] modifiers[at]).modifier == modifier
                &&& supports_nv12_export(modifiers[at])
                &&& other < at ==> modifier != 0 && modifiers[other].modifier == 0
            },
{
    let usable = |m: ModifierProperties| supports_nv12_export(m);
    let tiled = |m: ModifierProperties| supports_nv12_export(m) && m.modifier != 0;
    let at = choose|at: int|
        {
            &&& modifiers[at].modifier == modifier
            &&& #[trigger] is_first(modifiers, tiled, at) || (is_first(modifiers, usable, at)
                && forall|i: int|
                0 <= i < modifiers.len() ==> !tiled(#[trigger] modifiers[i]))
        };
    assert(0 <= at < modifiers.len());
    assert(modifiers[at].modifier == modifier);
    assert(supports_nv12_export(modifiers[at]));
    if is_first(modifiers, tiled, at) {
        assert(tiled(modifiers[at]));
        if other < at {
            assert(!tiled(modifiers[other]));
        }
    } else {
        assert(!tiled(modifiers[other]));
        if other < at {
            assert(!usable(modifiers[other]));
        }
    }
}

/// Memory may be used exactly if the bit of its type is set and its own first property, to be local to
/// the device, is.
pub proof fn lemma_memory_is_allowed_and_local(type_bits: u32, flags: Seq<u32>, index: u32)
    requires
        index < 32,
    ensures
        usable_memory(type_bits, flags, index as int) <==> (type_bits >> index) % 2 == 1
            && flags[index as int] % 2 == 1,
{
    assert(type_bits & (1u32 << index) != 0 <==> (type_bits >> index) % 2 == 1) by (bit_vector)
        requires
            index < 32,
    ;
    let own = flags[index as int];
    assert(own & 1 == 1 <==> own % 2 == 1) by (bit_vector);
}

/// A picture that an allocator returned is right exactly if it is in NV12 and has the size that was
/// asked for; the form is judged first.
pub proof fn lemma_which_pictures_are_right<X, O>(frame: DmaBufFrame<X, O>, expected: Resolution)
    ensures
        ({
            let fault = dmabuf_fault(frame, expected);
            let right_size = frame.width as usize == expected.width && frame.height as usize
                == expected.height;
            &&& fault is None <==> frame.fourcc == DRM_FORMAT_NV12 && right_size
            &&& frame.fourcc != DRM_FORMAT_NV12 ==> fault == Some(
                CreateOutputTextureError::InvalidDmaBufFourcc(frame.fourcc),
            )
            &&& frame.fourcc == DRM_FORMAT_NV12 && !right_size ==> {
                &&& fault is Some
                &&& fault->0 matches CreateOutputTextureError::InvalidDmaBufResolution {
                    actual,
                    expected: wanted,
                } && actual.width == frame.width as usize && actual.height == frame.height as usize
                    && wanted == expected
            }
        }),
{
}

/// An attempt is of use exactly if it brought a right picture that can be rendered to. Only where it did
/// not is the first fault reported: no picture, a wrong one, and then no texture.
pub proof fn lemma_which_attempts_are_of_use<X, O, T>(
    allocation: Allocation<X, O, T>,
    resolution: Resolution,
)
    ensures
        ({
            let fault = allocation_fault(allocation, resolution);
            match allocation {
                Err(cause) => fault == Some(CreateOutputTextureError::DmaBufAllocation(cause)),
                Ok((frame, texture)) => {
                    &&& dmabuf_fault(*frame, resolution) is Some ==> fault == dmabuf_fault(
                        *frame,
                        resolution,
                    )
                    &&& dmabuf_fault(*frame, resolution) is None && texture is None ==> fault
                        == Some(CreateOutputTextureError::InvalidDmaBufTexture)
                    &&& dmabuf_fault(*frame, resolution) is None && texture is Some ==> fault
                        is None
                },
            }
        }),
{
}

/// A picture is imported exactly if it is in NV12, in one object and one layer, with two planes.
pub proof fn lemma_which_pictures_are_imported<O>(
    fourcc: u32,
    objects: Seq<DmaBufObject<O>>,
    layers: Seq<DmaBufLayer>,
)
    ensures
        import_fault(fourcc, objects, layers) is None <==> fourcc == DRM_FORMAT_NV12
            && objects.len() == 1 && layers.len() == 1 && layers[0].planes@.len() == 2,
{
}

/// A plane reaches from its offset to the end of its object.
pub proof fn lemma_plane_reaches_to_the_end<O>(objects: Seq<DmaBufObject<O>>, plane: DmaBufPlane)
    requires
        plane.object_index < objects.len(),
        plane.offset <= objects[plane.object_index as int].size,
    ensures
        plane_layout(objects, plane).offset == plane.offset,
        plane_layout(objects, plane).offset + plane_layout(objects, plane).size
            == objects[plane.object_index as int].size,
        plane_layout(objects, plane).row_pitch == plane.pitch,
{
}

/// A picture can be described exactly if its size, and the offset and pitch of both planes, fit into 32
/// bits.
pub proof fn lemma_which_layouts_can_be_described(
    size: u64,
    luma: ExportedPlane,
    chroma: ExportedPlane,
)
    ensures
        export_fault(size, luma, chroma) is None <==> size < 0x1_0000_0000 && luma.offset
            < 0x1_0000_0000 && luma.row_pitch < 0x1_0000_0000 && chroma.offset < 0x1_0000_0000
            && chroma.row_pitch < 0x1_0000_0000,
{
}

/// The first attempt that came to nothing is the one that is reported: every other one that did comes
/// after it.
pub proof fn lemma_first_fault_is_reported<X, O, T>(
    allocations: Seq<Allocation<X, O, T>>,
    resolution: Resolution,
    at: int,
    other: int,
)
    requires
        first_fault(allocations, resolution, at),
        0 <= other < allocations.len(),
        allocations[other] is Err || allocations[other]->Ok_0.1 is None,
    ensures
        0 <= at <= other,
{
    if other < at {
        assert(allocation_fault(allocations[other], resolution) is None);
    }
}

} // verus!
