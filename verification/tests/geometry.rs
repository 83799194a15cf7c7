use apttools::apt_aux::ru::FloatUse;
use apttools::apt_aux::{RenderUnit, RuFormat, ShapeGeometry, Style};
use apttools::apt_convert::bitmaps::{
    clean_jpeg_data, decode_jpeg, decode_jpeg3, decode_lossless, decode_pixels, with_alpha,
};
use apttools::apt_convert::extracting::{extract_geometry, ATLAS_TEXTURE_ID};
use apttools::apt_convert::geometry::{
    build_contours, extract_shape_geometry, flatten_quadratic, style_for_fill, style_for_line,
    Filled, Point, Segment,
};
use apttools::apt_convert::swf_read::{ImagePaint, Jpeg, Lossless, PixelFormat};
use apttools::apt_convert::to_swf::encode_bitmap_data;
use apttools::apt_aux::texture::Texture;
use spade::{ConstrainedDelaunayTriangulation, Point2, Triangulation};
use std::io::Write;

fn parse(src: &[u8]) -> ShapeGeometry {
    let floats: Vec<Option<u32>> =
        RuFormat.float_tokens(src).iter().map(|t| t.trim().parse::<f32>().ok().map(f32::to_bits)).collect();
    RuFormat.parse(src, &floats).unwrap()
}

fn number(v: f32) -> String {
    if v.fract() == 0.0 && v.abs() < 1e9 {
        format!("{}", v as i64)
    } else {
        format!("{v}")
    }
}

fn serialize(g: &ShapeGeometry) -> String {
    let texts: Vec<String> = RuFormat
        .float_values(g)
        .iter()
        .map(|f| match f {
            FloatUse::Cell(b) => format!("{}", f32::from_bits(*b)),
            FloatUse::Number(b) => number(f32::from_bits(*b)),
        })
        .collect();
    RuFormat.serialize(g, &texts)
}

fn bits(v: &[(f32, f32)]) -> Vec<(u32, u32)> {
    v.iter().map(|(x, y)| (x.to_bits(), y.to_bits())).collect()
}

#[test]
fn roundtrip_solid_and_textured() {
    let src = "c\r\ns s:10:20:30:40\r\nt 0:0:10:0:10:10\r\nc\r\ns tc:1:2:3:4:7:1:0:0:1:5:6\r\nt 0:0:2:0:2:2\r\n";
    let g = parse(src.as_bytes());
    assert_eq!(g.units.len(), 2);
    match &g.units[0].style {
        Style::Solid { color } => assert_eq!(*color, 10 | 20 << 8 | 30 << 16 | 40 << 24),
        _ => panic!("expected solid"),
    }
    match &g.units[1].style {
        Style::Textured { bitmap_character_id, matrix, .. } => {
            assert_eq!(*bitmap_character_id, 7);
            let cells: Vec<f32> = matrix.iter().map(|b| f32::from_bits(*b)).collect();
            assert_eq!(cells, [1.0, 0.0, 0.0, 1.0, 5.0, 6.0]);
        }
        _ => panic!("expected textured"),
    }
    assert_eq!(g.units[0].vertices, bits(&[(0.0, 0.0), (10.0, 0.0), (10.0, 10.0)]));

    // Re-serialize and re-parse: structure is stable.
    let out = serialize(&g);
    let g2 = parse(out.as_bytes());
    assert_eq!(g, g2);
}

#[test]
fn roundtrip_line_style() {
    let src =
        "c\r\ns l:1.5:131:83:39:255\r\nl 365.5:-73.5:370.5:-73.5:370.5:199.5:365.5:199.5\r\n";
    let g = parse(src.as_bytes());
    assert_eq!(g.units.len(), 1);
    match &g.units[0].style {
        Style::Line { color, width } => {
            assert_eq!(*color, 131 | 83 << 8 | 39 << 16 | 255 << 24);
            assert_eq!(f32::from_bits(*width), 1.5);
        }
        other => panic!("expected line, got {other:?}"),
    }
    assert_eq!(
        g.units[0].vertices,
        bits(&[(365.5, -73.5), (370.5, -73.5), (370.5, 199.5), (365.5, 199.5)])
    );

    let out_str = serialize(&g);
    assert!(
        out_str.contains("\r\nl "),
        "line vertices must use the 'l' command, got: {out_str:?}"
    );
    let g2 = parse(out_str.as_bytes());
    assert_eq!(g, g2);
}

#[test]
fn tiled_textures_stay_tiled() {
    let src = "c\r\ns tw:1:2:3:4:7:1:0:0:1:5.5:6\r\nt 0:0:2:0:2:2\r\n";
    let g = parse(src.as_bytes());
    match &g.units[0].style {
        Style::Textured { clipped, .. } => assert!(!clipped),
        other => panic!("expected textured, got {other:?}"),
    }
    assert_eq!(serialize(&g), src);
}

#[test]
fn bad_geometry_is_refused() {
    for src in [
        "s s:1:2:3:4\n",
        "t 0:0\n",
        "c\ns\n",
        "c\ns s:1:2:3\n",
        "c\ns s:1:2:3:256\n",
        "c\ns l:\n",
        "c\ns tc:1:2:3:4\n",
        "c\ns tc:1:2:3:4:x\n",
        "c\ns tc:1:2:3:4:5:1\n",
        "c\ns q:1\n",
    ] {
        let floats: Vec<Option<u32>> = RuFormat
            .float_tokens(src.as_bytes())
            .iter()
            .map(|t| t.trim().parse::<f32>().ok().map(f32::to_bits))
            .collect();
        assert!(RuFormat.parse(src.as_bytes(), &floats).is_err(), "{src:?}");
    }
    assert_eq!(RuFormat.path_for("/game/Menu", 12), "/game/Menu_geometry/12.ru");
}

fn p(x: i32, y: i32) -> Point {
    Point { x, y }
}

fn s(a: Point, b: Point) -> Segment {
    Segment { from: a, to: b }
}

#[test]
fn ignores_unset_shape_record_flag_zero() {
    // An empty edge list has no contours.
    assert!(build_contours(&[]).is_empty());
}

#[test]
fn segments_are_chained_into_contours() {
    let (a, b, c, d) = (p(0, 0), p(200, 0), p(200, 200), p(0, 200));
    // Two loops, their segments interleaved, and a stray segment.
    let (e, f, g) = (p(50, 50), p(60, 50), p(60, 60));
    let v = [s(a, b), s(e, f), s(b, c), s(f, g), s(g, e), s(c, d), s(d, a), s(p(9, 9), p(8, 8))];
    let out = build_contours(&v);
    assert_eq!(out, vec![vec![a, b, c, d], vec![e, f, g]]);
}

#[test]
fn curves_are_flattened() {
    // As good as straight: one segment.
    assert_eq!(flatten_quadratic(p(0, 0), p(100, 5), p(200, 0)), [s(p(0, 0), p(200, 0))]);
    // A curve that leaves its chord by 1000 twips.
    let v = flatten_quadratic(p(0, 0), p(1000, 2000), p(2000, 0));
    assert_eq!(v.len(), 16);
    assert_eq!(v[7].to, p(1000, 1000));
    assert_eq!(v[0].from, p(0, 0));
    assert_eq!(v[15].to, p(2000, 0));
    for w in v.windows(2) {
        assert_eq!(w[0].to, w[1].from);
    }
    // Nothing to draw.
    assert!(flatten_quadratic(p(3, 3), p(3, 3), p(3, 3)).is_empty());
    // The same points as with floating-point numbers.
    for &(a, b, c) in &[
        (p(-7, 13), p(4001, -977), p(333, 12345)),
        (p(i32::MIN, 0), p(0, i32::MAX), p(i32::MAX, i32::MIN)),
        (p(1, 1), p(-3000, 17), p(2, 3)),
    ] {
        let mut want = vec![];
        halve(fl(a), fl(b), fl(c), 0, &mut want);
        let mut at = a;
        let mut segments = vec![];
        for q in want {
            let to = p(q.0.round() as i32, q.1.round() as i32);
            if to != at {
                segments.push(s(at, to));
                at = to;
            }
        }
        assert_eq!(flatten_quadratic(a, b, c), segments);
    }
}

fn fl(q: Point) -> (f64, f64) {
    (q.x as f64, q.y as f64)
}

fn halve(a: (f64, f64), b: (f64, f64), c: (f64, f64), depth: u32, out: &mut Vec<(f64, f64)>) {
    let (dx, dy) = (a.0 - 2.0 * b.0 + c.0, a.1 - 2.0 * b.1 + c.1);
    if depth >= 10 || 0.25 * (dx * dx + dy * dy).sqrt() <= 4.0 {
        out.push(c);
        return;
    }
    let m = |p: (f64, f64), q: (f64, f64)| ((p.0 + q.0) / 2.0, (p.1 + q.1) / 2.0);
    let (ab, bc) = (m(a, b), m(b, c));
    let abc = m(ab, bc);
    halve(a, ab, abc, depth + 1, out);
    halve(abc, bc, c, depth + 1, out);
}

#[test]
fn styles_of_fills_and_lines() {
    assert_eq!(style_for_fill(None, None, None), Style::Solid { color: 0xFFFF_FFFF });
    assert_eq!(style_for_fill(Some(5), None, None), Style::Solid { color: 5 });
    let image = Some(ImagePaint { id: 3, repeating: true });
    assert_eq!(style_for_fill(None, image, None), Style::Solid { color: 0xFFFF_FFFF });
    assert_eq!(
        style_for_fill(None, image, Some([1; 6])),
        Style::Textured {
            color: 0xFFFF_FFFF,
            bitmap_character_id: 3,
            matrix: [1; 6],
            clipped: false
        }
    );
    assert_eq!(
        style_for_line(Some(30), Some(7)),
        Style::Line { color: 7, width: 1.5f32.to_bits() }
    );
    assert_eq!(
        style_for_line(None, None),
        Style::Line { color: 0xFF00_0000, width: 1.0f32.to_bits() }
    );
}

fn zlib(data: &[u8]) -> Vec<u8> {
    let mut enc = flate2::write::ZlibEncoder::new(Vec::new(), flate2::Compression::default());
    enc.write_all(data).unwrap();
    enc.finish().unwrap()
}

#[test]
fn decodes_rgb32_with_straight_alpha() {
    // 1x1 pixel, half-transparent premultiplied red: alpha=128, premult
    // red = 128 (i.e. 255*0.5 rounded), straight should recover ~255.
    let pixel = [128u8, 128, 0, 0]; // (a, r, g, b)
    let tag = Lossless {
        version: 2,
        id: 1,
        format: PixelFormat::Rgb32,
        width: 1,
        height: 1,
        data: zlib(&pixel),
    };
    let tex = decode_lossless(&tag).unwrap();
    assert_eq!(tex.width, 1);
    assert_eq!(tex.height, 1);
    assert_eq!(tex.rgba[3], 128); // alpha preserved
    assert!(tex.rgba[0] >= 250); // unpremultiplied red back near 255
}

#[test]
fn decodes_colormap8_opaque() {
    // Palette: index 0 = red. One row, one pixel, padded to 4 bytes.
    let mut raw = vec![255u8, 0, 0]; // 1-entry palette (num_colors=0), RGB
    raw.extend_from_slice(&[0, 0, 0, 0]); // pixel row (index 0) padded to 4 bytes
    let tag = Lossless {
        version: 1,
        id: 1,
        format: PixelFormat::ColorMap8 { num_colors: 0 },
        width: 1,
        height: 1,
        data: zlib(&raw),
    };
    let tex = decode_lossless(&tag).unwrap();
    assert_eq!(&tex.rgba, &[255, 0, 0, 255]);
}

#[test]
fn decodes_rgb15_and_cut_off_images() {
    let tag = |format, width, height, version| Lossless {
        version,
        id: 1,
        format,
        width,
        height,
        data: vec![],
    };
    let t = tag(PixelFormat::Rgb15, 1, 2, 1);
    // The second row is missing: it stays clear.
    let tex = decode_pixels(&t, &[0x7C, 0x1F, 0, 0]).unwrap();
    assert_eq!(tex.rgba, [255, 0, 255, 255, 0, 0, 0, 0]);
    let t = tag(PixelFormat::Rgb32, 1, 1, 1);
    assert_eq!(decode_pixels(&t, &[9, 1, 2, 3]).unwrap().rgba, [1, 2, 3, 255]);
    let t = tag(PixelFormat::Rgb32, 1, 1, 2);
    assert_eq!(decode_pixels(&t, &[0, 1, 2, 3]).unwrap().rgba, [0, 0, 0, 0]);
    let t = tag(PixelFormat::ColorMap8 { num_colors: 1 }, 2, 1, 2);
    assert_eq!(
        decode_pixels(&t, &[1, 2, 3, 4, 5, 6, 7, 8, 1, 2, 0, 0]).unwrap().rgba,
        [5, 6, 7, 8, 0, 0, 0, 0]
    );
    assert!(decode_pixels(&t, &[1, 2, 3, 4, 5, 6, 7]).is_none());
    let mut broken = tag(PixelFormat::Rgb32, 1, 1, 2);
    broken.data = vec![1, 2, 3];
    assert!(decode_lossless(&broken).is_none());
}

#[test]
fn embedded_opaque_textures_come_back() {
    let texture = Texture {
        width: 2,
        height: 1,
        rgba: vec![1, 2, 3, 255, 250, 128, 0, 255],
    };
    let tag = Lossless {
        version: 2,
        id: 1,
        format: PixelFormat::Rgb32,
        width: 2,
        height: 1,
        data: encode_bitmap_data(&texture).unwrap(),
    };
    assert_eq!(decode_lossless(&tag).unwrap(), texture);
}

#[test]
fn jpeg_data_is_cleaned() {
    let m = [0xFFu8, 0xD9, 0xFF, 0xD8];
    assert_eq!(clean_jpeg_data(&[1, 2, 3]), [1, 2, 3]);
    let mut d = m.to_vec();
    d.extend([7, 8]);
    d.extend(m);
    d.push(9);
    d.extend(m);
    assert_eq!(clean_jpeg_data(&d), [7, 8, 9, 0xFF, 0xD9, 0xFF, 0xD8]);
    assert_eq!(clean_jpeg_data(&[0xFF, 0xD9, 0xFF]), [0xFF, 0xD9, 0xFF]);
}

fn jpeg_bytes() -> Vec<u8> {
    let img = image::RgbImage::from_pixel(8, 8, image::Rgb([200, 30, 30]));
    let mut out = std::io::Cursor::new(Vec::new());
    img.write_to(&mut out, image::ImageFormat::Jpeg).unwrap();
    out.into_inner()
}

#[test]
fn jpegs_are_decoded_with_their_alpha() {
    let mut data = vec![0xFFu8, 0xD9, 0xFF, 0xD8];
    data.extend(jpeg_bytes());
    let t = decode_jpeg(&data).unwrap();
    assert_eq!((t.width, t.height), (8, 8));
    assert!(t.rgba[0] > 150 && t.rgba[1] < 90);
    let j = Jpeg { id: 1, data: data.clone(), alpha_data: zlib(&[77; 64]) };
    assert_eq!(decode_jpeg3(&j).unwrap().rgba[3], 77);
    // A channel that is too short, or cannot be inflated, leaves it opaque.
    let j = Jpeg { id: 1, data: data.clone(), alpha_data: zlib(&[77; 63]) };
    assert_eq!(decode_jpeg3(&j).unwrap().rgba[3], 255);
    let j = Jpeg { id: 1, data, alpha_data: vec![1, 2] };
    assert_eq!(decode_jpeg3(&j).unwrap().rgba[3], 255);
    assert!(decode_jpeg(&[1, 2, 3]).is_none());
    let t = with_alpha(Texture { width: 1, height: 2, rgba: vec![1; 8] }, &[5, 6]);
    assert_eq!(t.rgba, [1, 1, 1, 5, 1, 1, 1, 6]);
}

#[test]
fn payloads_may_be_of_another_format() {
    let img = image::RgbaImage::from_pixel(2, 1, image::Rgba([1, 2, 3, 4]));
    let mut out = std::io::Cursor::new(Vec::new());
    img.write_to(&mut out, image::ImageFormat::Png).unwrap();
    let t = decode_jpeg(&out.into_inner()).unwrap();
    assert_eq!(t.rgba, [1, 2, 3, 4, 1, 2, 3, 4]);
}

fn twips(x: i32, y: i32) -> swf::PointDelta<swf::Twips> {
    swf::PointDelta::new(swf::Twips::new(x), swf::Twips::new(y))
}

fn square(id: u16) -> swf::Shape {
    let change = swf::StyleChangeData {
        move_to: Some(swf::Point::new(swf::Twips::ZERO, swf::Twips::ZERO)),
        fill_style_0: None,
        fill_style_1: Some(1),
        line_style: Some(1),
        new_styles: None,
    };
    let edge = |x, y| swf::ShapeRecord::StraightEdge { delta: twips(x, y) };
    let side = swf::Twips::new(200);
    let bounds = swf::Rectangle {
        x_min: swf::Twips::ZERO,
        x_max: side,
        y_min: swf::Twips::ZERO,
        y_max: side,
    };
    swf::Shape {
        version: 3,
        id,
        shape_bounds: bounds.clone(),
        edge_bounds: bounds,
        flags: swf::ShapeFlag::empty(),
        styles: swf::ShapeStyles {
            fill_styles: vec![swf::FillStyle::Color(swf::Color { r: 255, g: 0, b: 0, a: 255 })],
            line_styles: vec![swf::LineStyle::new()
                .with_width(swf::Twips::new(40))
                .with_color(swf::Color { r: 1, g: 2, b: 3, a: 4 })],
        },
        shape: vec![
            swf::ShapeRecord::StyleChange(Box::new(change)),
            edge(200, 0),
            edge(0, 200),
            edge(-200, 0),
            edge(0, -200),
        ],
    }
}

fn header() -> swf::Header {
    swf::Header {
        compression: swf::Compression::Zlib,
        version: 8,
        stage_size: swf::Rectangle {
            x_min: swf::Twips::ZERO,
            x_max: swf::Twips::new(2000),
            y_min: swf::Twips::ZERO,
            y_max: swf::Twips::new(1000),
        },
        frame_rate: swf::Fixed8::from_f32(30.0),
        num_frames: 1,
    }
}

fn file(tags: &[swf::Tag]) -> Vec<u8> {
    let mut out = Vec::new();
    swf::write_swf(&header(), tags, &mut out).unwrap();
    out
}

fn lossless(id: u16, width: u16, height: u16) -> swf::Tag<'static> {
    let data = zlib(&[255, 9, 9, 9].repeat(width as usize * height as usize));
    swf::Tag::DefineBitsLossless(swf::DefineBitsLossless {
        version: 2,
        id,
        format: swf::BitmapFormat::Rgb32,
        width,
        height,
        data: std::borrow::Cow::Owned(data),
    })
}

#[test]
fn shapes_and_images_are_extracted() {
    let nested = swf::Sprite {
        id: 9,
        num_frames: 1,
        tags: vec![swf::Tag::DefineShape(Box::new(square(3))), swf::Tag::ShowFrame],
    };
    let data = file(&[
        swf::Tag::DefineShape(Box::new(square(7))),
        lossless(5, 3, 2),
        lossless(2, 1, 1),
        swf::Tag::DefineSprite(nested),
        swf::Tag::ShowFrame,
    ]);
    let x = extract_geometry(&data).unwrap();
    assert_eq!(x.shapes.ids, [3, 7]);
    assert_eq!(x.images.ids, [2, 5]);
    let atlas = x.atlas.as_ref().unwrap();
    assert_eq!(atlas.places.len(), 2);
    assert_eq!((atlas.places[1].width, atlas.places[1].height), (3, 2));
    assert_eq!(x.texture_map.texture_id(5), ATLAS_TEXTURE_ID);
    assert_eq!(x.texture_map.texture_id(2), ATLAS_TEXTURE_ID);
    assert_eq!(x.texture_map.texture_id(99), 99);

    let shape = &x.shapes.values[1];
    assert!(!shape.head.nonzero);
    assert_eq!(shape.outline.fills.len(), 1);
    let corners = [p(0, 0), p(200, 0), p(200, 200), p(0, 200)];
    assert_eq!(shape.outline.fills[0].contours, vec![corners.to_vec()]);
    let triangle = bits(&[(0.0, 0.0), (10.0, 0.0), (10.0, 10.0)]);
    let g = shape.assemble(&vec![Filled { vertices: triangle.clone(), matrix: None }]);
    assert_eq!(
        g.units[0],
        RenderUnit { style: Style::Solid { color: 0xFFFF_0000 }, vertices: triangle }
    );
    assert_eq!(g.units[1].style, Style::Line { color: 0x0401_0203, width: 2f32.to_bits() });
    assert_eq!(
        g.units[1].vertices,
        bits(&[
            (0.0, 0.0),
            (10.0, 0.0),
            (10.0, 0.0),
            (10.0, 10.0),
            (10.0, 10.0),
            (0.0, 10.0),
            (0.0, 10.0),
            (0.0, 0.0)
        ])
    );
    // Without triangles there is no batch for the area.
    assert_eq!(shape.assemble(&vec![]).units.len(), 1);
}

#[test]
fn images_that_do_not_fit_stay_on_their_own() {
    let x = extract_geometry(&file(&[lossless(4, 2100, 1), swf::Tag::ShowFrame])).unwrap();
    assert!(x.atlas.is_none());
    assert_eq!(x.images.ids, [4]);
    assert!(x.texture_map.entries.contains_key(&4));
    assert_eq!(x.texture_map.texture_id(4), 4);
    let x = extract_geometry(&file(&[swf::Tag::ShowFrame])).unwrap();
    assert!(x.atlas.is_none());
    assert!(extract_geometry(b"not a file").is_err());
    assert!(extract_shape_geometry(&[0x40, 0], 8).is_none());
}

#[test]
fn gradients_are_drawn_with_their_first_stop() {
    let stop = |ratio, g| swf::GradientRecord { ratio, color: swf::Color { r: 1, g, b: 3, a: 255 } };
    let gradient = swf::Gradient {
        matrix: swf::Matrix::IDENTITY,
        spread: swf::GradientSpread::Pad,
        interpolation: swf::GradientInterpolation::Rgb,
        records: vec![stop(0, 7), stop(255, 9)],
    };
    let mut shape = square(7);
    shape.styles.fill_styles = vec![swf::FillStyle::LinearGradient(gradient)];
    let x = extract_geometry(&file(&[swf::Tag::DefineShape(Box::new(shape))])).unwrap();
    let triangle = bits(&[(0.0, 0.0), (10.0, 0.0), (10.0, 10.0)]);
    let g = x.shapes.values[0].assemble(&vec![Filled { vertices: triangle, matrix: None }]);
    assert_eq!(g.units[0].style, Style::Solid { color: 0xFF01_0703 });
}

#[test]
fn triangulates_a_square() {
    // A 10x10px square, wound so that its fill is to the right of travel.
    let mut shape = square(1);
    shape.styles.line_styles = vec![];
    if let swf::ShapeRecord::StyleChange(change) = &mut shape.shape[0] {
        change.line_style = None;
    }
    let x = extract_geometry(&file(&[swf::Tag::DefineShape(Box::new(shape))])).unwrap();
    let outline = &x.shapes.values[0];
    let contours = &outline.outline.fills[0].contours;
    let mut cdt: ConstrainedDelaunayTriangulation<Point2<f64>> =
        ConstrainedDelaunayTriangulation::new();
    for contour in contours {
        for p in contour {
            cdt.insert(Point2::new(f64::from(p.x) / 20.0, f64::from(p.y) / 20.0)).unwrap();
        }
    }
    let mut vertices = Vec::new();
    for face in cdt.inner_faces() {
        for v in face.vertices() {
            let at = v.position();
            vertices.push(((at.x as f32).to_bits(), (at.y as f32).to_bits()));
        }
    }
    let geom = outline.assemble(&vec![Filled { vertices, matrix: None }]);
    assert_eq!(geom.units.len(), 1);
    let unit = &geom.units[0];
    assert!(matches!(unit.style, Style::Solid { .. }));
    // 2 triangles cover the square; total area must equal 100 px^2.
    assert_eq!(unit.vertices.len() % 3, 0);
    let at = |v: (u32, u32)| (f64::from(f32::from_bits(v.0)), f64::from(f32::from_bits(v.1)));
    let mut area = 0.0f64;
    for tri in unit.vertices.chunks(3) {
        let ((x0, y0), (x1, y1), (x2, y2)) = (at(tri[0]), at(tri[1]), at(tri[2]));
        area += ((x1 - x0) * (y2 - y0) - (x2 - x0) * (y1 - y0)).abs() / 2.0;
    }
    assert!((area - 100.0).abs() < 1e-6, "expected area 100, got {area}");
}
