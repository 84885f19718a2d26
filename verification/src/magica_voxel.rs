//! The voxel-model byte format: a header, then length-prefixed chunks that
//! carry the model's size and its voxels.

use vstd::prelude::*;
use vstd::seq_lib::lemma_concat_associative;

verus! {

/// The four bytes of `e`, least significant first.
pub open spec fn le_bytes(e: u32) -> Seq<u8> {
    seq![
        (e % 256) as u8,
        ((e / 256) % 256) as u8,
        ((e / 65536) % 256) as u8,
        (e / 16777216) as u8,
    ]
}

/// Appends the four bytes of an identifier.
fn push_id(id: [u8; 4], w: &mut Vec<u8>)
    ensures
        final(w)@ == old(w)@ + id@,
{
    w.push(id[0]);
    w.push(id[1]);
    w.push(id[2]);
    w.push(id[3]);
    assert(w@ =~= old(w)@ + id@);
}

/// A chunk of the format: an identifier, the byte lengths of its content and
/// of its children, then the content and the children themselves.
pub trait SerializableChunk: Sized {
    /// The chunk's four-byte identifier.
    spec fn id_spec() -> Seq<u8>;

    /// What the chunk needs to hold before it can be written.
    spec fn writable(&self) -> bool;

    /// The bytes of the chunk's content.
    spec fn content_spec(&self) -> Seq<u8>;

    /// The bytes of the chunk's children.
    spec fn children_spec(&self) -> Seq<u8>;

    /// Appends the four bytes of `e`, least significant first.
    fn write_u32(e: u32, w: &mut Vec<u8>)
        ensures
            final(w)@ == old(w)@ + le_bytes(e),
    {
        w.push((e % 256) as u8);
        w.push(((e / 256) % 256) as u8);
        w.push(((e / 65536) % 256) as u8);
        w.push((e / 16777216) as u8);
        assert(w@ =~= old(w)@ + le_bytes(e));
    }

    /// The chunk's four-byte identifier.
    fn get_id() -> (r: [u8; 4])
        ensures
            r@ == Self::id_spec(),
    ;

    /// The byte length of the chunk's content.
    fn get_content_size_bytes(&self) -> (r: u32)
        requires
            self.writable(),
        ensures
            r == self.content_spec().len(),
    ;

    /// The byte length of the chunk's children.
    fn get_children_size_bytes(&self) -> (r: u32)
        requires
            self.writable(),
        ensures
            r == self.children_spec().len(),
    ;

    /// Appends the chunk's identifier.
    fn write_id(w: &mut Vec<u8>)
        ensures
            final(w)@ == old(w)@ + Self::id_spec(),
    {
        push_id(Self::get_id(), w);
    }

    /// Appends the byte length of the chunk's content.
    fn write_content_size(&self, w: &mut Vec<u8>)
        requires
            self.writable(),
        ensures
            final(w)@ == old(w)@ + le_bytes(self.content_spec().len() as u32),
    {
        Self::write_u32(self.get_content_size_bytes(), w);
    }

    /// Appends the byte length of the chunk's children.
    fn write_children_size(&self, w: &mut Vec<u8>)
        requires
            self.writable(),
        ensures
            final(w)@ == old(w)@ + le_bytes(self.children_spec().len() as u32),
    {
        Self::write_u32(self.get_children_size_bytes(), w);
    }

    /// Appends the chunk's content.
    fn write_content(&self, w: &mut Vec<u8>)
        requires
            self.writable(),
        ensures
            final(w)@ == old(w)@ + self.content_spec(),
    ;

    /// Appends the chunk's children.
    fn write_children(&self, w: &mut Vec<u8>)
        requires
            self.writable(),
        ensures
            final(w)@ == old(w)@ + self.children_spec(),
    ;

    /// Appends the whole chunk.
    fn write(&self, w: &mut Vec<u8>)
        requires
            self.writable(),
        ensures
            final(w)@ == old(w)@ + (Self::id_spec() + le_bytes(self.content_spec().len() as u32)
                + le_bytes(self.children_spec().len() as u32) + self.content_spec()
                + self.children_spec()),
    {
        Self::write_id(w);
        self.write_content_size(w);
        self.write_children_size(w);
        self.write_content(w);
        self.write_children(w);
        proof {
            let a = Self::id_spec();
            let b = le_bytes(self.content_spec().len() as u32);
            let c = le_bytes(self.children_spec().len() as u32);
            let d = self.content_spec();
            let e = self.children_spec();
            lemma_concat_associative(old(w)@, a, b);
            lemma_concat_associative(old(w)@, a + b, c);
            lemma_concat_associative(old(w)@, a + b + c, d);
            lemma_concat_associative(old(w)@, a + b + c + d, e);
        }
    }
}

/// A whole chunk as bytes: identifier, the two lengths, content, children.
pub open spec fn chunk_bytes<C: SerializableChunk>(chunk: &C) -> Seq<u8> {
    C::id_spec() + le_bytes(chunk.content_spec().len() as u32) + le_bytes(
        chunk.children_spec().len() as u32,
    ) + chunk.content_spec() + chunk.children_spec()
}

/// The model's extent along each axis.
#[derive(Clone, Copy, Debug)]
pub struct SizeChunk {
    pub size_x: u32,
    pub size_y: u32,
    pub size_z: u32,
}

impl SerializableChunk for SizeChunk {
    open spec fn id_spec() -> Seq<u8> {
        // "SIZE"
        seq![0x53u8, 0x49u8, 0x5Au8, 0x45u8]
    }

    open spec fn writable(&self) -> bool {
        true
    }

    open spec fn content_spec(&self) -> Seq<u8> {
        le_bytes(self.size_x) + le_bytes(self.size_y) + le_bytes(self.size_z)
    }

    open spec fn children_spec(&self) -> Seq<u8> {
        Seq::empty()
    }

    fn get_id() -> (r: [u8; 4]) {
        let id: [u8; 4] = [0x53, 0x49, 0x5A, 0x45];
        assert(id@ =~= Self::id_spec());
        id
    }

    fn get_content_size_bytes(&self) -> (r: u32) {
        12
    }

    fn get_children_size_bytes(&self) -> (r: u32) {
        0
    }

    fn write_content(&self, w: &mut Vec<u8>) {
        Self::write_u32(self.size_x, w);
        Self::write_u32(self.size_y, w);
        Self::write_u32(self.size_z, w);
        assert(w@ =~= old(w)@ + self.content_spec());
    }

    fn write_children(&self, w: &mut Vec<u8>) {
        assert(w@ =~= old(w)@ + self.children_spec());
    }
}

/// One voxel of the model: its position and its palette index.
#[derive(Clone, Copy, Debug)]
pub struct XYZI {
    pub x: u32,
    pub y: u32,
    pub z: u32,
    pub i: u32,
}

/// The sixteen bytes of one voxel: x, y, z and the index, four bytes each.
pub open spec fn xyzi_bytes(v: XYZI) -> Seq<u8> {
    le_bytes(v.x) + le_bytes(v.y) + le_bytes(v.z) + le_bytes(v.i)
}

/// The bytes of a run of voxels, one after the other.
pub open spec fn xyzi_run_bytes(voxels: Seq<XYZI>) -> Seq<u8>
    decreases voxels.len(),
{
    if voxels.len() == 0 {
        Seq::empty()
    } else {
        xyzi_run_bytes(voxels.drop_last()) + xyzi_bytes(voxels.last())
    }
}

/// A run of voxels takes sixteen bytes per voxel.
pub proof fn lemma_xyzi_run_len(voxels: Seq<XYZI>)
    ensures
        xyzi_run_bytes(voxels).len() == 16 * voxels.len(),
    decreases voxels.len(),
{
    if voxels.len() > 0 {
        lemma_xyzi_run_len(voxels.drop_last());
    }
}

/// The model's voxels, with the count the writer announced for them.
#[derive(Clone, Copy, Debug)]
pub struct XYZIChunk<'a> {
    pub num_voxels: u32,
    pub voxels: &'a [XYZI],
}

impl<'a> SerializableChunk for XYZIChunk<'a> {
    open spec fn id_spec() -> Seq<u8> {
        // "XYZI"
        seq![0x58u8, 0x59u8, 0x5Au8, 0x49u8]
    }

    /// The announced count is the number of voxels held, and their bytes
    /// can be counted in thirty-two bits.
    open spec fn writable(&self) -> bool {
        &&& self.num_voxels == self.voxels@.len()
        &&& 16 * self.num_voxels <= u32::MAX
    }

    open spec fn content_spec(&self) -> Seq<u8> {
        xyzi_run_bytes(self.voxels@)
    }

    open spec fn children_spec(&self) -> Seq<u8> {
        Seq::empty()
    }

    fn get_id() -> (r: [u8; 4]) {
        let id: [u8; 4] = [0x58, 0x59, 0x5A, 0x49];
        assert(id@ =~= Self::id_spec());
        id
    }

    fn get_content_size_bytes(&self) -> (r: u32) {
        proof {
            lemma_xyzi_run_len(self.voxels@);
        }
        self.num_voxels * 16
    }

    fn get_children_size_bytes(&self) -> (r: u32) {
        0
    }

    fn write_content(&self, w: &mut Vec<u8>) {
        let mut count: usize = 0;
        while count < self.voxels.len()
            invariant
                0 <= count <= self.voxels@.len(),
                w@ == old(w)@ + xyzi_run_bytes(self.voxels@.take(count as int)),
            decreases self.voxels@.len() - count,
        {
            let xyzi = self.voxels[count];
            let ghost before = w@;
            Self::write_u32(xyzi.x, w);
            Self::write_u32(xyzi.y, w);
            Self::write_u32(xyzi.z, w);
            Self::write_u32(xyzi.i, w);
            proof {
                let done = self.voxels@.take(count as int);
                let more = self.voxels@.take(count + 1);
                assert(more.drop_last() =~= done);
                assert(more.last() == xyzi);
                assert(w@ =~= before + xyzi_bytes(xyzi));
                lemma_concat_associative(old(w)@, xyzi_run_bytes(done), xyzi_bytes(xyzi));
            }
            count += 1;
        }
        assert(self.voxels@.take(count as int) =~= self.voxels@);
    }

    fn write_children(&self, w: &mut Vec<u8>) {
        assert(w@ =~= old(w)@ + self.children_spec());
    }
}

/// A voxel position as the path search produces it.
pub type Vec3 = (usize, usize, usize);

/// The palette index of the voxels of one layer: fifty per layer, counted
/// from one, cut to a byte.
pub open spec fn layer_id_spec(layer: nat) -> u8 {
    (((layer + 1) * 50) % 256) as u8
}

/// The palette index of the voxels of one layer.
pub fn layer_id(layer: usize) -> (r: u8)
    ensures
        r == layer_id_spec(layer as nat),
{
    let low: usize = layer % 256;
    assert(((layer + 1) * 50) % 256 == ((low + 1) * 50) % 256) by (nonlinear_arith)
        requires
            low == layer % 256,
    ;
    (((low + 1) * 50) % 256) as u8
}

/// The four bytes of one voxel of a layer: each coordinate cut to a byte,
/// then the layer's palette index.
pub open spec fn voxel_record(v: Vec3, layer: nat) -> Seq<u8> {
    seq![(v.0 % 256) as u8, (v.1 % 256) as u8, (v.2 % 256) as u8, layer_id_spec(layer)]
}

/// The bytes of the voxels of one layer, in their order.
pub open spec fn group_bytes(group: Seq<Vec3>, layer: nat) -> Seq<u8>
    decreases group.len(),
{
    if group.len() == 0 {
        Seq::empty()
    } else {
        group_bytes(group.drop_last(), layer) + voxel_record(group.last(), layer)
    }
}

/// The bytes of the voxels of all layers, layer after layer.
pub open spec fn layers_bytes(groups: Seq<Vec<Vec3>>) -> Seq<u8>
    decreases groups.len(),
{
    if groups.len() == 0 {
        Seq::empty()
    } else {
        layers_bytes(groups.drop_last()) + group_bytes(
            groups.last()@,
            (groups.len() - 1) as nat,
        )
    }
}

/// The number of voxels in all layers together.
pub open spec fn total_voxels(groups: Seq<Vec<Vec3>>) -> nat
    decreases groups.len(),
{
    if groups.len() == 0 {
        0
    } else {
        total_voxels(groups.drop_last()) + groups.last()@.len()
    }
}

/// Whether the voxels are few enough for every length field of the file to
/// hold its length.
pub open spec fn vox_fits(groups: Seq<Vec<Vec3>>) -> bool {
    40 + 4 * total_voxels(groups) <= u32::MAX
}

/// The voxel chunk of a file: identifier, content length, no children, the
/// voxel count, then four bytes per voxel.
pub open spec fn voxel_chunk_spec(groups: Seq<Vec<Vec3>>) -> Seq<u8> {
    // "XYZI"
    seq![0x58u8, 0x59u8, 0x5Au8, 0x49u8] + le_bytes((4 + 4 * total_voxels(groups)) as u32)
        + le_bytes(0) + le_bytes(total_voxels(groups) as u32) + layers_bytes(groups)
}

/// A whole file: the magic bytes and the version, then the main chunk, which
/// has no content of its own and holds the size chunk and the voxel chunk as
/// its children.
pub open spec fn vox_file_spec(dims: (u32, u32, u32), groups: Seq<Vec<Vec3>>) -> Seq<u8> {
    // "VOX ", then "MAIN"
    seq![0x56u8, 0x4Fu8, 0x58u8, 0x20u8] + le_bytes(150) + seq![0x4Du8, 0x41u8, 0x49u8, 0x4Eu8]
        + le_bytes(0) + le_bytes((40 + 4 * total_voxels(groups)) as u32) + chunk_bytes(
        &SizeChunk { size_x: dims.0, size_y: dims.1, size_z: dims.2 },
    ) + voxel_chunk_spec(groups)
}

/// One layer takes four bytes per voxel.
pub proof fn lemma_group_len(group: Seq<Vec3>, layer: nat)
    ensures
        group_bytes(group, layer).len() == 4 * group.len(),
    decreases group.len(),
{
    if group.len() > 0 {
        lemma_group_len(group.drop_last(), layer);
    }
}

/// All layers together take four bytes per voxel.
pub proof fn lemma_layers_len(groups: Seq<Vec<Vec3>>)
    ensures
        layers_bytes(groups).len() == 4 * total_voxels(groups),
    decreases groups.len(),
{
    if groups.len() > 0 {
        lemma_layers_len(groups.drop_last());
        lemma_group_len(groups.last()@, (groups.len() - 1) as nat);
    }
}

/// The first layers hold no more voxels than all of them.
pub proof fn lemma_total_prefix(groups: Seq<Vec<Vec3>>, k: int)
    requires
        0 <= k <= groups.len(),
    ensures
        total_voxels(groups.take(k)) <= total_voxels(groups),
    decreases groups.len(),
{
    if k == groups.len() {
        assert(groups.take(k) =~= groups);
    } else {
        lemma_total_prefix(groups.drop_last(), k);
        assert(groups.drop_last().take(k) =~= groups.take(k));
    }
}

/// The number of voxels in all layers together, or nothing when they are
/// too many for the length fields of a file.
pub fn count_voxels(voxels: &Vec<Vec<Vec3>>) -> (r: Option<u32>)
    ensures
        vox_fits(voxels@) ==> r == Some(total_voxels(voxels@) as u32),
        !vox_fits(voxels@) ==> r is None,
{
    let limit: usize = 1073741813;
    let mut total: usize = 0;
    let mut k: usize = 0;
    while k < voxels.len()
        invariant
            0 <= k <= voxels@.len(),
            limit == 1073741813,
            total == total_voxels(voxels@.take(k as int)),
            total <= limit,
        decreases voxels@.len() - k,
    {
        let len: usize = voxels[k].len();
        proof {
            assert(voxels@.take(k + 1).drop_last() =~= voxels@.take(k as int));
            lemma_total_prefix(voxels@, k + 1);
        }
        if len > limit - total {
            return None;
        }
        total = total + len;
        k += 1;
    }
    assert(voxels@.take(k as int) =~= voxels@);
    Some(total as u32)
}

/// Appends the bytes of the voxels of one layer.
fn write_group(group: &Vec<Vec3>, layer: usize, w: &mut Vec<u8>)
    ensures
        final(w)@ == old(w)@ + group_bytes(group@, layer as nat),
{
    let id: u8 = layer_id(layer);
    let mut j: usize = 0;
    while j < group.len()
        invariant
            0 <= j <= group@.len(),
            id == layer_id_spec(layer as nat),
            w@ == old(w)@ + group_bytes(group@.take(j as int), layer as nat),
        decreases group@.len() - j,
    {
        let (x, y, z) = group[j];
        let ghost before = w@;
        w.push((x % 256) as u8);
        w.push((y % 256) as u8);
        w.push((z % 256) as u8);
        w.push(id);
        proof {
            let done = group@.take(j as int);
            let more = group@.take(j + 1);
            assert(more.drop_last() =~= done);
            assert(more.last() == (x, y, z));
            assert(w@ =~= before + voxel_record((x, y, z), layer as nat));
            lemma_concat_associative(
                old(w)@,
                group_bytes(done, layer as nat),
                voxel_record((x, y, z), layer as nat),
            );
        }
        j += 1;
    }
    assert(group@.take(j as int) =~= group@);
}

/// Appends the bytes of the voxels of all layers.
fn write_layers(voxels: &Vec<Vec<Vec3>>, w: &mut Vec<u8>)
    ensures
        final(w)@ == old(w)@ + layers_bytes(voxels@),
{
    let mut k: usize = 0;
    while k < voxels.len()
        invariant
            0 <= k <= voxels@.len(),
            w@ == old(w)@ + layers_bytes(voxels@.take(k as int)),
        decreases voxels@.len() - k,
    {
        write_group(&voxels[k], k, w);
        proof {
            let done = voxels@.take(k as int);
            let more = voxels@.take(k + 1);
            assert(more.drop_last() =~= done);
            lemma_concat_associative(
                old(w)@,
                layers_bytes(done),
                group_bytes(voxels@[k as int]@, k as nat),
            );
        }
        k += 1;
    }
    assert(voxels@.take(k as int) =~= voxels@);
}

/// Encodes a model of the given extent as a voxel file. Each layer of
/// voxels gets a palette index of its own; each coordinate is cut to a byte.
pub fn write_to_vox(dims: (u32, u32, u32), voxels: &Vec<Vec<Vec3>>) -> (bytes: Vec<u8>)
    requires
        vox_fits(voxels@),
    ensures
        bytes@ == vox_file_spec(dims, voxels@),
{
    let size = SizeChunk { size_x: dims.0, size_y: dims.1, size_z: dims.2 };
    let mut size_chunk: Vec<u8> = Vec::new();
    size.write(&mut size_chunk);

    let mut records: Vec<u8> = Vec::new();
    write_layers(voxels, &mut records);
    proof {
        lemma_layers_len(voxels@);
        assert(records@ =~= layers_bytes(voxels@));
    }
    let num_voxels: u32 = (records.len() / 4) as u32;

    let mut xyzi_chunk: Vec<u8> = Vec::new();
    push_id([0x58, 0x59, 0x5A, 0x49], &mut xyzi_chunk);
    SizeChunk::write_u32(4 + 4 * num_voxels, &mut xyzi_chunk);
    SizeChunk::write_u32(0, &mut xyzi_chunk);
    SizeChunk::write_u32(num_voxels, &mut xyzi_chunk);
    xyzi_chunk.append(&mut records);
    assert(xyzi_chunk@ =~= voxel_chunk_spec(voxels@));
    assert(size_chunk@ =~= chunk_bytes(&size));
    assert(size_chunk@.len() == 24);

    let mut vox_bytes: Vec<u8> = Vec::new();
    push_id([0x56, 0x4F, 0x58, 0x20], &mut vox_bytes);
    SizeChunk::write_u32(150, &mut vox_bytes);
    push_id([0x4D, 0x41, 0x49, 0x4E], &mut vox_bytes);
    SizeChunk::write_u32(0, &mut vox_bytes);
    SizeChunk::write_u32((size_chunk.len() + xyzi_chunk.len()) as u32, &mut vox_bytes);
    vox_bytes.append(&mut size_chunk);
    vox_bytes.append(&mut xyzi_chunk);
    assert(vox_bytes@ =~= vox_file_spec(dims, voxels@));
    vox_bytes
}

} // verus!
