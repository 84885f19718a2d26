use voxel_octree::magica_voxel::{count_voxels, layer_id};
use voxel_octree::{write_to_vox, SerializableChunk, SizeChunk, XYZIChunk, XYZI};

#[test]
fn size_chunk_bytes() {
    let chunk = SizeChunk { size_x: 1, size_y: 0x0102, size_z: 0x01020304 };
    let mut w = vec![0xEE];
    chunk.write(&mut w);
    assert_eq!(
        w,
        vec![
            0xEE, b'S', b'I', b'Z', b'E', 12, 0, 0, 0, 0, 0, 0, 0, 1, 0, 0, 0, 2, 1, 0, 0, 4, 3, 2, 1
        ]
    );
    assert_eq!(SizeChunk::get_id(), *b"SIZE");
    assert_eq!(chunk.get_content_size_bytes(), 12);
    assert_eq!(chunk.get_children_size_bytes(), 0);
}

#[test]
fn write_u32_is_little_endian() {
    let mut w = Vec::new();
    SizeChunk::write_u32(0xDEADBEEF, &mut w);
    SizeChunk::write_u32(0, &mut w);
    SizeChunk::write_u32(u32::MAX, &mut w);
    assert_eq!(w, vec![0xEF, 0xBE, 0xAD, 0xDE, 0, 0, 0, 0, 255, 255, 255, 255]);
    for e in [1u32, 255, 256, 65535, 65536, 16777215, 16777216, 0x12345678] {
        let mut w = Vec::new();
        SizeChunk::write_u32(e, &mut w);
        assert_eq!(w, e.to_le_bytes().to_vec());
    }
}

#[test]
fn xyzi_chunk_bytes() {
    let voxels = [XYZI { x: 1, y: 2, z: 3, i: 4 }, XYZI { x: 0x100, y: 0, z: 0, i: 255 }];
    let chunk = XYZIChunk { num_voxels: 2, voxels: &voxels };
    assert_eq!(XYZIChunk::get_id(), *b"XYZI");
    assert_eq!(chunk.get_content_size_bytes(), 32);
    assert_eq!(chunk.get_children_size_bytes(), 0);
    let mut w = Vec::new();
    chunk.write(&mut w);
    let mut expect = b"XYZI".to_vec();
    expect.extend(32u32.to_le_bytes());
    expect.extend(0u32.to_le_bytes());
    for n in [1u32, 2, 3, 4, 0x100, 0, 0, 255] {
        expect.extend(n.to_le_bytes());
    }
    assert_eq!(w, expect);
}

#[test]
fn empty_xyzi_chunk_is_a_bare_header() {
    let chunk = XYZIChunk { num_voxels: 0, voxels: &[] };
    let mut w = Vec::new();
    chunk.write(&mut w);
    assert_eq!(w, vec![b'X', b'Y', b'Z', b'I', 0, 0, 0, 0, 0, 0, 0, 0]);
}

#[test]
fn layer_ids_step_by_fifty_and_wrap() {
    assert_eq!(layer_id(0), 50);
    assert_eq!(layer_id(1), 100);
    assert_eq!(layer_id(4), 250);
    assert_eq!(layer_id(5), 44);
    assert_eq!(layer_id(255), 0);
    assert_eq!(layer_id(256), 50);
    assert_eq!(layer_id(usize::MAX), ((usize::MAX as u128 + 1) * 50 % 256) as u8);
}

#[test]
fn count_voxels_sums_the_layers() {
    assert_eq!(count_voxels(&vec![]), Some(0));
    assert_eq!(count_voxels(&vec![vec![], vec![(1, 2, 3)], vec![(0, 0, 0); 4]]), Some(5));
}

#[test]
fn empty_model_file() {
    let bytes = write_to_vox((256, 256, 256), &vec![]);
    let mut expect = b"VOX ".to_vec();
    expect.extend(150u32.to_le_bytes());
    expect.extend(b"MAIN");
    expect.extend(0u32.to_le_bytes());
    expect.extend(40u32.to_le_bytes());
    expect.extend(b"SIZE");
    expect.extend(12u32.to_le_bytes());
    expect.extend(0u32.to_le_bytes());
    expect.extend(256u32.to_le_bytes());
    expect.extend(256u32.to_le_bytes());
    expect.extend(256u32.to_le_bytes());
    expect.extend(b"XYZI");
    expect.extend(4u32.to_le_bytes());
    expect.extend(0u32.to_le_bytes());
    expect.extend(0u32.to_le_bytes());
    assert_eq!(bytes, expect);
}

#[test]
fn two_layer_model_file() {
    let voxels = vec![vec![(1, 2, 3), (255, 256, 257)], vec![(9, 8, 7)]];
    let bytes = write_to_vox((4, 5, 6), &voxels);
    let mut expect = b"VOX ".to_vec();
    expect.extend(150u32.to_le_bytes());
    expect.extend(b"MAIN");
    expect.extend(0u32.to_le_bytes());
    expect.extend(52u32.to_le_bytes());
    expect.extend(b"SIZE");
    expect.extend(12u32.to_le_bytes());
    expect.extend(0u32.to_le_bytes());
    expect.extend(4u32.to_le_bytes());
    expect.extend(5u32.to_le_bytes());
    expect.extend(6u32.to_le_bytes());
    expect.extend(b"XYZI");
    expect.extend(16u32.to_le_bytes());
    expect.extend(0u32.to_le_bytes());
    expect.extend(3u32.to_le_bytes());
    expect.extend([1, 2, 3, 50]);
    expect.extend([255, 0, 1, 50]);
    expect.extend([9, 8, 7, 100]);
    assert_eq!(bytes, expect);
    assert_eq!(bytes.len(), 8 + 12 + 52);
}
