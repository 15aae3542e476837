//! Pictures in shared device memory, and the descriptions in which they travel.

use crate::media::Resolution;
use crate::text::{decimal, decimal_text, lemma_decimal_is_read_back};
use std::sync::Arc;
use vstd::prelude::*;

verus! {

/// The code of the NV12 pixel format: the letters of its name, first letter lowest.
pub const DRM_FORMAT_NV12: u32 = 0x3231_564E;

/// How many objects, layers and planes a surface descriptor has room for.
pub const DESCRIPTOR_SLOTS: usize = 4;

/// A piece of device memory. `O` is what keeps it alive.
#[derive(Debug)]
pub struct DmaBufObject<O> {
    pub fd: O,
    pub size: u32,
    pub modifier: u64,
}

/// Where a plane of a picture lies.
#[derive(Debug, Clone, Copy, PartialEq, Eq, Structural)]
pub struct DmaBufPlane {
    pub object_index: usize,
    pub offset: u32,
    pub pitch: u32,
}

/// The planes of a picture.
#[derive(Debug)]
pub struct DmaBufLayer {
    pub drm_format: u32,
    pub planes: Vec<DmaBufPlane>,
}

/// A picture in shared device memory. `X` is the texture that shows it.
#[derive(Debug)]
pub struct DmaBufFrame<X, O> {
    pub texture: X,
    pub fourcc: u32,
    pub width: u32,
    pub height: u32,
    pub objects: Vec<DmaBufObject<O>>,
    pub layers: Vec<DmaBufLayer>,
}

impl<X, O> DmaBufFrame<X, O> {
    pub fn fourcc(&self) -> (r: u32)
        ensures
            r == self.fourcc,
    {
        self.fourcc
    }

    pub fn resolution(&self) -> (r: Resolution)
        ensures
            r == (Resolution { width: self.width as usize, height: self.height as usize }),
    {
        Resolution { width: self.width as usize, height: self.height as usize }
    }
}

/// The message that a descriptor holds more than it has room for.
pub open spec fn too_many_message(name: Seq<char>, count: nat) -> Seq<char> {
    name + " count "@ + decimal_text(count) + " exceeds VA-API descriptor limit"@
}

/// Whether a descriptor has room for that many.
pub fn checked_va_array_count(name: &str, count: u32) -> (r: Result<usize, String>)
    ensures
        match r {
            Ok(checked) => count <= DESCRIPTOR_SLOTS && checked == count,
            Err(message) => count > DESCRIPTOR_SLOTS && message@ == too_many_message(
                name@,
                count as nat,
            ),
        },
{
    if count as usize > DESCRIPTOR_SLOTS {
        let number = decimal(count as u64);
        let message = String::from_str(name).concat(" count ").concat(number.as_str()).concat(
            " exceeds VA-API descriptor limit",
        );
        return Err(message);
    }
    Ok(count as usize)
}

/// The first values, as many as a descriptor has room for, and zeros.
pub open spec fn padded_slots(values: Seq<u32>) -> Seq<u32> {
    Seq::new(
        4,
        |i: int|
            if i < values.len() {
                values[i]
            } else {
                0
            },
    )
}

/// Fills the slots of a descriptor with values. What there is no room for is left out.
pub fn fixed_u32(values: &[u32]) -> (r: [u32; 4])
    ensures
        r@ == padded_slots(values@),
{
    let first: u32 = if values.len() > 0 {
        values[0]
    } else {
        0
    };
    let second: u32 = if values.len() > 1 {
        values[1]
    } else {
        0
    };
    let third: u32 = if values.len() > 2 {
        values[2]
    } else {
        0
    };
    let fourth: u32 = if values.len() > 3 {
        values[3]
    } else {
        0
    };
    let r = [first, second, third, fourth];
    assert(r@ =~= padded_slots(values@));
    r
}

/// The planes that a descriptor lists.
pub open spec fn listed_planes(
    count: int,
    object_index: Seq<usize>,
    offset: Seq<u32>,
    pitch: Seq<u32>,
) -> Seq<DmaBufPlane> {
    Seq::new(
        count as nat,
        |i: int|
            DmaBufPlane { object_index: object_index[i], offset: offset[i], pitch: pitch[i] },
    )
}

/// The layer that a descriptor describes.
pub fn dmabuf_layer_from_prime_parts(
    drm_format: u32,
    num_planes: u32,
    object_index: [usize; 4],
    offset: [u32; 4],
    pitch: [u32; 4],
) -> (r: Result<DmaBufLayer, String>)
    ensures
        match r {
            Ok(layer) => {
                &&& num_planes <= DESCRIPTOR_SLOTS
                &&& layer.drm_format == drm_format
                &&& layer.planes@ == listed_planes(
                    num_planes as int,
                    object_index@,
                    offset@,
                    pitch@,
                )
            },
            Err(message) => num_planes > DESCRIPTOR_SLOTS && message@ == too_many_message(
                "DRM PRIME layer plane"@,
                num_planes as nat,
            ),
        },
{
    let plane_count: usize = match checked_va_array_count("DRM PRIME layer plane", num_planes) {
        Ok(count) => count,
        Err(message) => {
            return Err(message);
        },
    };
    let mut planes: Vec<DmaBufPlane> = Vec::new();
    let mut index: usize = 0;
    while index < plane_count
        invariant
            index <= plane_count <= 4,
            planes@ == listed_planes(index as int, object_index@, offset@, pitch@),
        decreases plane_count - index,
    {
        planes.push(
            DmaBufPlane {
                object_index: object_index[index],
                offset: offset[index],
                pitch: pitch[index],
            },
        );
        index = index + 1;
        assert(planes@ =~= listed_planes(index as int, object_index@, offset@, pitch@));
    }
    Ok(DmaBufLayer { drm_format, planes })
}

/// A layer as a descriptor describes it.
#[derive(Debug, Clone, Copy)]
pub struct PrimeLayer {
    pub drm_format: u32,
    pub num_planes: u32,
    pub object_index: [u32; 4],
    pub offset: [u32; 4],
    pub pitch: [u32; 4],
}

/// An object as a raw descriptor describes it.
#[derive(Debug, Clone, Copy)]
pub struct RawPrimeObject {
    pub fd: i32,
    pub size: u32,
    pub modifier: u64,
}

/// A raw surface descriptor: slots, and how many of them are in use.
#[derive(Debug, Clone, Copy)]
pub struct RawPrimeDescriptor {
    pub fourcc: u32,
    pub width: u32,
    pub height: u32,
    pub num_objects: u32,
    pub objects: [RawPrimeObject; 4],
    pub num_layers: u32,
    pub layers: [PrimeLayer; 4],
}

/// A surface descriptor that owns its objects.
pub struct PrimeDescriptor<O> {
    pub fourcc: u32,
    pub width: u32,
    pub height: u32,
    pub objects: Vec<DmaBufObject<O>>,
    pub layers: Vec<PrimeLayer>,
}

/// A surface that was exported.
pub struct ExportedVaSurface<O> {
    pub fourcc: u32,
    pub width: u32,
    pub height: u32,
    pub objects: Vec<DmaBufObject<O>>,
    pub layers: Vec<DmaBufLayer>,
}

/// The layer is what the descriptor describes.
pub open spec fn describes(prime: PrimeLayer, layer: DmaBufLayer) -> bool {
    &&& layer.drm_format == prime.drm_format
    &&& layer.planes@ == listed_planes(
        prime.num_planes as int,
        prime.object_index@.map_values(|index: u32| index as usize),
        prime.offset@,
        prime.pitch@,
    )
}

/// Each layer is what the descriptor describes.
pub open spec fn all_described(primes: Seq<PrimeLayer>, layers: Seq<DmaBufLayer>) -> bool {
    &&& layers.len() == primes.len()
    &&& forall|i: int|
        0 <= i < layers.len() ==> describes(primes[i], #[trigger] layers[i])
}

/// The first layer that has more planes than there is room for.
pub open spec fn first_overfull(primes: Seq<PrimeLayer>, at: int) -> bool {
    &&& 0 <= at < primes.len()
    &&& primes[at].num_planes > DESCRIPTOR_SLOTS
    &&& forall|i: int| 0 <= i < at ==> (#[trigger] primes[i]).num_planes <= DESCRIPTOR_SLOTS
}

/// The layers that a descriptor describes.
fn layers_from_prime(primes: &[PrimeLayer], count: usize) -> (r: Result<Vec<DmaBufLayer>, String>)
    requires
        count <= primes@.len(),
    ensures
        match r {
            Ok(layers) => all_described(primes@.take(count as int), layers@) && forall|i: int|
                0 <= i < count ==> (#[trigger] primes@[i]).num_planes <= DESCRIPTOR_SLOTS,
            Err(message) => exists|at: int|
                #[trigger] first_overfull(primes@.take(count as int), at) && message@
                    == too_many_message(
                    "DRM PRIME layer plane"@,
                    primes@[at].num_planes as nat,
                ),
        },
{
    let ghost listed = primes@.take(count as int);
    let mut layers: Vec<DmaBufLayer> = Vec::new();
    let mut index: usize = 0;
    while index < count
        invariant
            index <= count <= primes@.len(),
            listed == primes@.take(count as int),
            all_described(primes@.take(index as int), layers@),
            forall|i: int| 0 <= i < index ==> (#[trigger] primes@[i]).num_planes <= DESCRIPTOR_SLOTS,
        decreases count - index,
    {
        let prime = primes[index];
        let object_index: [usize; 4] = [
            prime.object_index[0] as usize,
            prime.object_index[1] as usize,
            prime.object_index[2] as usize,
            prime.object_index[3] as usize,
        ];
        assert(object_index@ =~= prime.object_index@.map_values(|index: u32| index as usize));
        let layer = dmabuf_layer_from_prime_parts(
            prime.drm_format,
            prime.num_planes,
            object_index,
            prime.offset,
            prime.pitch,
        );
        match layer {
            Ok(layer) => {
                layers.push(layer);
            },
            Err(message) => {
                proof {
                    assert forall|i: int| 0 <= i < index implies (
                    #[trigger] listed[i]).num_planes <= DESCRIPTOR_SLOTS by {
                        assert(primes@[i].num_planes <= DESCRIPTOR_SLOTS);
                    }
                    assert(first_overfull(listed, index as int));
                }
                return Err(message);
            },
        }
        proof {
            let before = primes@.take(index as int);
            let more = primes@.take(index + 1);
            assert forall|i: int| 0 <= i < layers@.len() implies describes(
                more[i],
                #[trigger] layers@[i],
            ) by {
                if i < index {
                    assert(before[i] == more[i]);
                }
            }
        }
        index = index + 1;
    }
    Ok(layers)
}

impl<O> ExportedVaSurface<O> {
    /// The surface that a descriptor with its own objects describes.
    pub fn from_drm_prime(descriptor: PrimeDescriptor<O>) -> (r: Result<Self, String>)
        ensures
            match r {
                Ok(surface) => {
                    &&& surface.fourcc == descriptor.fourcc
                    &&& surface.width == descriptor.width
                    &&& surface.height == descriptor.height
                    &&& surface.objects == descriptor.objects
                    &&& all_described(descriptor.layers@, surface.layers@)
                    &&& forall|i: int|
                        0 <= i < descriptor.layers@.len() ==> (
                        #[trigger] descriptor.layers@[i]).num_planes <= DESCRIPTOR_SLOTS
                },
                Err(message) => exists|at: int|
                    #[trigger] first_overfull(descriptor.layers@, at) && message@
                        == too_many_message(
                        "DRM PRIME layer plane"@,
                        descriptor.layers@[at].num_planes as nat,
                    ),
            },
    {
        let count: usize = descriptor.layers.len();
        assert(descriptor.layers@.take(count as int) =~= descriptor.layers@);
        let layers = match layers_from_prime(descriptor.layers.as_slice(), count) {
            Ok(layers) => layers,
            Err(message) => {
                return Err(message);
            },
        };
        Ok(
            ExportedVaSurface {
                fourcc: descriptor.fourcc,
                width: descriptor.width,
                height: descriptor.height,
                objects: descriptor.objects,
                layers,
            },
        )
    }
}

/// The objects that a raw descriptor lists.
pub open spec fn listed_objects(objects: Seq<RawPrimeObject>, count: int) -> Seq<DmaBufObject<i32>> {
    Seq::new(
        count as nat,
        |i: int|
            DmaBufObject {
                fd: objects[i].fd,
                size: objects[i].size,
                modifier: objects[i].modifier,
            },
    )
}

impl ExportedVaSurface<i32> {
    /// The surface that a raw descriptor describes.
    pub fn from_raw_prime(descriptor: RawPrimeDescriptor) -> (r: Result<Self, String>)
        ensures
            match r {
                Ok(surface) => {
                    &&& descriptor.num_objects <= DESCRIPTOR_SLOTS
                    &&& descriptor.num_layers <= DESCRIPTOR_SLOTS
                    &&& surface.fourcc == descriptor.fourcc
                    &&& surface.width == descriptor.width
                    &&& surface.height == descriptor.height
                    &&& surface.objects@ == listed_objects(
                        descriptor.objects@,
                        descriptor.num_objects as int,
                    )
                    &&& all_described(
                        descriptor.layers@.take(descriptor.num_layers as int),
                        surface.layers@,
                    )
                    &&& forall|i: int|
                        0 <= i < descriptor.num_layers ==> (
                        #[trigger] descriptor.layers@[i]).num_planes <= DESCRIPTOR_SLOTS
                },
                Err(message) => if descriptor.num_objects > DESCRIPTOR_SLOTS {
                    message@ == too_many_message(
                        "DRM PRIME object"@,
                        descriptor.num_objects as nat,
                    )
                } else if descriptor.num_layers > DESCRIPTOR_SLOTS {
                    message@ == too_many_message("DRM PRIME layer"@, descriptor.num_layers as nat)
                } else {
                    exists|at: int|
                        #[trigger] first_overfull(
                            descriptor.layers@.take(descriptor.num_layers as int),
                            at,
                        ) && message@ == too_many_message(
                            "DRM PRIME layer plane"@,
                            descriptor.layers@[at].num_planes as nat,
                        )
                },
            },
    {
        let object_count: usize = match checked_va_array_count(
            "DRM PRIME object",
            descriptor.num_objects,
        ) {
            Ok(count) => count,
            Err(message) => {
                return Err(message);
            },
        };
        let layer_count: usize = match checked_va_array_count(
            "DRM PRIME layer",
            descriptor.num_layers,
        ) {
            Ok(count) => count,
            Err(message) => {
                return Err(message);
            },
        };
        let mut objects: Vec<DmaBufObject<i32>> = Vec::new();
        let mut index: usize = 0;
        while index < object_count
            invariant
                index <= object_count <= 4,
                objects@ == listed_objects(descriptor.objects@, index as int),
            decreases object_count - index,
        {
            let object = descriptor.objects[index];
            objects.push(
                DmaBufObject { fd: object.fd, size: object.size, modifier: object.modifier },
            );
            index = index + 1;
            assert(objects@ =~= listed_objects(descriptor.objects@, index as int));
        }
        let layers = match layers_from_prime(descriptor.layers.as_slice(), layer_count) {
            Ok(layers) => layers,
            Err(message) => {
                return Err(message);
            },
        };
        Ok(
            ExportedVaSurface {
                fourcc: descriptor.fourcc,
                width: descriptor.width,
                height: descriptor.height,
                objects,
                layers,
            },
        )
    }
}

/// What a surface descriptor says of an object, apart from the object itself.
#[derive(Debug, Clone, Copy, PartialEq, Eq, Structural)]
pub struct DescriptorObject {
    pub size: u32,
    pub modifier: u64,
}

/// The description under which a picture is imported as a surface. It has one layer.
#[derive(Debug)]
pub struct SurfaceDescriptor {
    pub fourcc: u32,
    pub width: u32,
    pub height: u32,
    pub num_objects: u32,
    /// What is said of the first objects, as many as there is room for.
    pub objects: Vec<DescriptorObject>,
    pub layer: PrimeLayer,
}

/// A picture that can be imported as a surface: it is in NV12 and has one layer.
#[derive(Debug)]
pub struct VaapiDmaBufFrame<X, O> {
    frame: Arc<DmaBufFrame<X, O>>,
}

impl<X, O> VaapiDmaBufFrame<X, O> {
    pub closed spec fn frame(self) -> DmaBufFrame<X, O> {
        *self.frame
    }

    pub open spec fn wf(self) -> bool {
        self.frame().fourcc == DRM_FORMAT_NV12 && self.frame().layers@.len() == 1
    }

    pub fn new(frame: Arc<DmaBufFrame<X, O>>) -> (r: Self)
        requires
            frame.fourcc == DRM_FORMAT_NV12,
            frame.layers@.len() == 1,
        ensures
            r.frame() == *frame,
            r.wf(),
    {
        VaapiDmaBufFrame { frame }
    }

    /// The one layer of the picture.
    pub fn layer(&self) -> (r: &DmaBufLayer)
        requires
            self.wf(),
        ensures
            *r == self.frame().layers@[0],
    {
        &self.frame.layers[0]
    }

    /// The description under which the picture is imported.
    pub fn va_surface_attribute(&self) -> (r: SurfaceDescriptor)
        requires
            self.wf(),
        ensures
            r.fourcc == self.frame().fourcc,
            r.width == self.frame().width,
            r.height == self.frame().height,
            r.num_objects == self.frame().objects@.len() as u32,
            r.objects@ == described_objects(self.frame().objects@),
            r.layer.drm_format == self.frame().layers@[0].drm_format,
            r.layer.num_planes == self.frame().layers@[0].planes@.len() as u32,
            r.layer.object_index@ == padded_slots(
                self.frame().layers@[0].planes@.map_values(
                    |plane: DmaBufPlane| plane.object_index as u32,
                ),
            ),
            r.layer.offset@ == padded_slots(
                self.frame().layers@[0].planes@.map_values(|plane: DmaBufPlane| plane.offset),
            ),
            r.layer.pitch@ == padded_slots(
                self.frame().layers@[0].planes@.map_values(|plane: DmaBufPlane| plane.pitch),
            ),
    {
        let layer = self.layer();
        let mut object_index: Vec<u32> = Vec::new();
        let mut offset: Vec<u32> = Vec::new();
        let mut pitch: Vec<u32> = Vec::new();
        let mut i: usize = 0;
        while i < layer.planes.len()
            invariant
                i <= layer.planes@.len(),
                object_index@ == layer.planes@.take(i as int).map_values(
                    |plane: DmaBufPlane| plane.object_index as u32,
                ),
                offset@ == layer.planes@.take(i as int).map_values(
                    |plane: DmaBufPlane| plane.offset,
                ),
                pitch@ == layer.planes@.take(i as int).map_values(
                    |plane: DmaBufPlane| plane.pitch,
                ),
            decreases layer.planes@.len() - i,
        {
            object_index.push(layer.planes[i].object_index as u32);
            offset.push(layer.planes[i].offset);
            pitch.push(layer.planes[i].pitch);
            i = i + 1;
            proof {
                let more = layer.planes@.take(i as int);
                assert(object_index@ =~= more.map_values(
                    |plane: DmaBufPlane| plane.object_index as u32,
                ));
                assert(offset@ =~= more.map_values(|plane: DmaBufPlane| plane.offset));
                assert(pitch@ =~= more.map_values(|plane: DmaBufPlane| plane.pitch));
            }
        }
        assert(layer.planes@.take(i as int) =~= layer.planes@);
        let mut objects: Vec<DescriptorObject> = Vec::new();
        let mut k: usize = 0;
        let ghost all = described_objects(self.frame().objects@);
        assert(all.take(0) =~= Seq::<DescriptorObject>::empty());
        while k < self.frame.objects.len() && k < DESCRIPTOR_SLOTS
            invariant
                k <= self.frame().objects@.len(),
                k <= DESCRIPTOR_SLOTS,
                all == described_objects(self.frame().objects@),
                objects@ == all.take(k as int),
            decreases DESCRIPTOR_SLOTS - k,
        {
            let object = &self.frame.objects[k];
            objects.push(DescriptorObject { size: object.size, modifier: object.modifier });
            k = k + 1;
            assert(objects@ =~= all.take(k as int));
        }
        assert(all.take(k as int) =~= all);
        SurfaceDescriptor {
            fourcc: self.frame.fourcc,
            width: self.frame.width,
            height: self.frame.height,
            num_objects: self.frame.objects.len() as u32,
            objects,
            layer: PrimeLayer {
                drm_format: layer.drm_format,
                num_planes: layer.planes.len() as u32,
                object_index: fixed_u32(object_index.as_slice()),
                offset: fixed_u32(offset.as_slice()),
                pitch: fixed_u32(pitch.as_slice()),
            },
        }
    }
}

/// What is said of the first objects, as many as a descriptor has room for.
pub open spec fn described_objects<O>(objects: Seq<DmaBufObject<O>>) -> Seq<DescriptorObject> {
    Seq::new(
        if objects.len() < 4 {
            objects.len()
        } else {
            4
        },
        |i: int| DescriptorObject { size: objects[i].size, modifier: objects[i].modifier },
    )
}

/// A layer that fits into a descriptor comes out of it as it went in.
pub proof fn lemma_layer_survives_descriptor(layer: DmaBufLayer, prime: PrimeLayer, out: DmaBufLayer)
    requires
        layer.planes@.len() <= 4,
        forall|i: int|
            0 <= i < layer.planes@.len() ==> (#[trigger] layer.planes@[i]).object_index
                <= u32::MAX,
        prime.drm_format == layer.drm_format,
        prime.num_planes == layer.planes@.len() as u32,
        prime.object_index@ == padded_slots(
            layer.planes@.map_values(|plane: DmaBufPlane| plane.object_index as u32),
        ),
        prime.offset@ == padded_slots(
            layer.planes@.map_values(|plane: DmaBufPlane| plane.offset),
        ),
        prime.pitch@ == padded_slots(layer.planes@.map_values(|plane: DmaBufPlane| plane.pitch)),
        describes(prime, out),
    ensures
        out.drm_format == layer.drm_format,
        out.planes@ == layer.planes@,
{
    assert forall|i: int| 0 <= i < layer.planes@.len() implies out.planes@[i]
        == layer.planes@[i] by {
        let plane = layer.planes@[i];
        assert(prime.object_index@[i] == plane.object_index as u32);
    }
    assert(out.planes@ =~= layer.planes@);
}

/// The code of NV12 spells its name, first letter lowest, and a descriptor has four slots of each kind.
pub proof fn lemma_format_spells_its_name()
    ensures
        DRM_FORMAT_NV12 == 'N' as int + 256 * 'V' as int + 65_536 * '1' as int + 16_777_216
            * '2' as int,
        DESCRIPTOR_SLOTS == 4,
{
}

/// Four slots are filled in order, and those that nothing is left for are zero.
pub proof fn lemma_slots_are_filled_in_order(values: Seq<u32>, i: int)
    requires
        0 <= i < 4,
    ensures
        padded_slots(values).len() == 4,
        i < values.len() ==> padded_slots(values)[i] == values[i],
        i >= values.len() ==> padded_slots(values)[i] == 0,
{
}

/// Each plane of a layer lies where its own slots say: in that object, at that offset, with that pitch.
pub proof fn lemma_plane_lies_where_its_slots_say(prime: PrimeLayer, layer: DmaBufLayer, i: int)
    requires
        describes(prime, layer),
        0 <= i < prime.num_planes <= 4,
    ensures
        layer.drm_format == prime.drm_format,
        layer.planes@.len() == prime.num_planes,
        layer.planes@[i].object_index == prime.object_index@[i],
        layer.planes@[i].offset == prime.offset@[i],
        layer.planes@[i].pitch == prime.pitch@[i],
{
}

/// The objects that are in use come out in order, each with its own size and modifier; a descriptor says
/// so much of the first four.
pub proof fn lemma_objects_keep_size_and_modifier(objects: Seq<RawPrimeObject>, count: int, i: int)
    requires
        0 <= i < count <= objects.len(),
    ensures
        ({
            let listed = listed_objects(objects, count);
            let described = described_objects(listed);
            &&& listed.len() == count
            &&& listed[i].fd == objects[i].fd
            &&& listed[i].size == objects[i].size
            &&& listed[i].modifier == objects[i].modifier
            &&& count <= 4 ==> described.len() == count
            &&& count > 4 ==> described.len() == 4
            &&& i < 4 ==> described[i].size == objects[i].size && described[i].modifier
                == objects[i].modifier
        }),
{
}

/// A layer is refused exactly if it has more than four planes, and the first such layer is the one that
/// is reported.
pub proof fn lemma_first_layer_with_too_many_planes(primes: Seq<PrimeLayer>, at: int, other: int)
    requires
        first_overfull(primes, at),
        0 <= other < primes.len(),
        primes[other].num_planes > 4,
    ensures
        0 <= at <= other,
        primes[at].num_planes > 4,
{
    if other < at {
        assert(primes[other].num_planes <= DESCRIPTOR_SLOTS);
    }
}

/// Each layer is described at its own place, and none is left out.
pub proof fn lemma_every_layer_is_described(
    primes: Seq<PrimeLayer>,
    layers: Seq<DmaBufLayer>,
    i: int,
)
    requires
        all_described(primes, layers),
        0 <= i < primes.len(),
    ensures
        layers.len() == primes.len(),
        layers[i].drm_format == primes[i].drm_format,
        layers[i].planes@.len() == primes[i].num_planes,
{
    assert(describes(primes[i], layers[i]));
}

/// The message begins with what there is too much of, and tells how many there are: it differs where
/// the number does.
pub proof fn lemma_message_tells_the_number(name: Seq<char>, count: nat, other: nat)
    requires
        count != other,
    ensures
        too_many_message(name, count).take(name.len() as int) == name,
        too_many_message(name, count) != too_many_message(name, other),
{
    lemma_decimal_is_read_back(count);
    lemma_decimal_is_read_back(other);
    let one = too_many_message(name, count);
    let another = too_many_message(name, other);
    let start = (name + " count "@).len() as int;
    let tail = " exceeds VA-API descriptor limit"@.len() as int;
    assert(one.take(name.len() as int) =~= name);
    assert(one.subrange(start, one.len() - tail) =~= decimal_text(count));
    assert(another.subrange(start, another.len() - tail) =~= decimal_text(other));
}

} // verus!
