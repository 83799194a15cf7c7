use apttools::apt_aux::dat::TextureMap;
use apttools::apt_aux::texture::{pack_textures, Texture};

fn solid(width: u32, height: u32, color: [u8; 4]) -> Texture {
    let mut rgba = vec![0u8; (width * height * 4) as usize];
    for px in rgba.chunks_mut(4) {
        px.copy_from_slice(&color);
    }
    Texture { width, height, rgba }
}

#[test]
fn parse_mapped_and_unmapped() {
    let m = TextureMap::parse(b"; comment\n5->12\n7=7\n").unwrap();
    assert_eq!(m.texture_id(5), 12);
    assert_eq!(m.texture_id(7), 7);
    assert_eq!(m.texture_id(99), 99); // absent -> identity
    let m2 = TextureMap::parse(&m.serialize()).unwrap();
    assert_eq!(m, m2);
}

#[test]
fn packs_without_overlap_and_preserves_pixels() {
    let textures = vec![
        solid(4, 4, [255, 0, 0, 255]),
        solid(3, 6, [0, 255, 0, 255]),
        solid(5, 2, [0, 0, 255, 255]),
    ];
    let (atlas, rects) = pack_textures(&textures, 64).expect("must fit in 64x64");
    assert_eq!(rects.len(), 3);
    // Square power-of-two atlas.
    assert_eq!(atlas.width, atlas.height);
    assert!(atlas.width.is_power_of_two());

    // Every rect's placed pixels must match its source texture exactly,
    // and rects (with 1px padding) must not overlap each other.
    for (i, t) in textures.iter().enumerate() {
        let r = rects[i];
        assert_eq!(r.width, t.width);
        assert_eq!(r.height, t.height);
        for y in 0..t.height {
            for x in 0..t.width {
                let src = &t.rgba[((y * t.width + x) * 4) as usize..][..4];
                let dst_off = (((r.y + y) * atlas.width + (r.x + x)) * 4) as usize;
                assert_eq!(
                    &atlas.rgba[dst_off..dst_off + 4],
                    src,
                    "mismatch at texture {i} ({x},{y})"
                );
            }
        }
    }
    for a in 0..rects.len() {
        for b in (a + 1)..rects.len() {
            let (ra, rb) = (rects[a], rects[b]);
            let overlap = ra.x < rb.x + rb.width + 1
                && rb.x < ra.x + ra.width + 1
                && ra.y < rb.y + rb.height + 1
                && rb.y < ra.y + ra.height + 1;
            assert!(!overlap, "rects {a} and {b} overlap: {ra:?} vs {rb:?}");
        }
    }
}
