use toolpath::codec::{decode_map, encode_map};
use toolpath::geom::{get_bounds, move_to_zero, Point3, Triangle};
use toolpath::gcode::push_mm;
use toolpath::grid::{div_ceil, generate_columns_chunks, generate_grid};
use toolpath::heightmap::{generate_heightmap, generate_rest_map};
use toolpath::partition::{partition_tris, tri_overlaps};
use toolpath::stl::{f32_to_um, stl_to_tri, StlError};
use toolpath::tool::ToolKind;

fn pt(x: i64, y: i64, z: i64) -> Point3 {
    Point3 { x, y, z }
}

fn tri(a: Point3, b: Point3, c: Point3) -> Triangle {
    Triangle { a, b, c }
}

#[test]
fn f32_words_quantize_to_micrometers() {
    assert_eq!(f32_to_um(1.0f32.to_bits()), Some(1000));
    assert_eq!(f32_to_um((-1.0f32).to_bits()), Some(-1000));
    assert_eq!(f32_to_um(0.0f32.to_bits()), Some(0));
    assert_eq!(f32_to_um((-0.0f32).to_bits()), Some(0));
    // 0.7 is not exactly representable; the nearest single float is a
    // hair below, and half-up rounding lands on the intended micrometer
    assert_eq!(f32_to_um(0.7f32.to_bits()), Some(700));
    assert_eq!(f32_to_um(10.5f32.to_bits()), Some(10500));
    assert_eq!(f32_to_um(f32::NAN.to_bits()), None);
    assert_eq!(f32_to_um(f32::INFINITY.to_bits()), None);
    assert_eq!(f32_to_um(1.0e9f32.to_bits()), None);
}

#[test]
fn stl_parse_reads_all_facets() {
    let mut b = vec![7u8; 80];
    b.extend_from_slice(&1u32.to_le_bytes());
    b.extend_from_slice(&[0u8; 12]);
    for w in [1.0f32, 2.0, 0.0, 3.0, 2.0, 0.0, 1.0, 4.0, -1.0] {
        b.extend_from_slice(&w.to_le_bytes());
    }
    b.extend_from_slice(&[0u8; 2]);
    let tris = stl_to_tri(&b).unwrap();
    assert_eq!(tris.len(), 1);
    assert_eq!(tris[0].a, pt(1000, 2000, 0));
    assert_eq!(tris[0].b, pt(3000, 2000, 0));
    assert_eq!(tris[0].c, pt(1000, 4000, -1000));
    let mut short = b.clone();
    short.pop();
    assert_eq!(stl_to_tri(&short).unwrap_err(), StlError::Truncated);
    let mut nan = b.clone();
    nan[96] = 0xff;
    nan[97] = 0xff;
    nan[98] = 0xff;
    nan[99] = 0x7f;
    assert_eq!(stl_to_tri(&nan).unwrap_err(), StlError::BadVertex);
}

#[test]
fn normalization_zeroes_min_xy_and_max_z() {
    let mut tris = vec![
        tri(pt(5000, 7000, 3000), pt(6000, 7000, 3000), pt(5000, 8000, 4000)),
        tri(pt(5500, 7500, 2000), pt(6000, 8000, 2000), pt(5000, 7000, 3500)),
    ];
    move_to_zero(&mut tris);
    let b = get_bounds(&tris);
    assert_eq!(b.p1.x, 0);
    assert_eq!(b.p1.y, 0);
    assert_eq!(b.p2.z, 0);
    assert_eq!(b.p2.x, 1000);
    assert_eq!(b.p2.y, 1000);
    assert_eq!(b.p1.z, -2000);
}

#[test]
fn partition_keeps_overlapping_triangles() {
    let near = tri(pt(0, 0, 0), pt(1000, 0, 0), pt(0, 1000, -500));
    let far = tri(pt(9000, 9000, 0), pt(9500, 9000, 0), pt(9000, 9500, -500));
    let tris = vec![near, far];
    let boxes = vec![
        toolpath::grid::Aabb2 { x1: -500, y1: 0, x2: 500, y2: 1000 },
        toolpath::grid::Aabb2 { x1: 8800, y1: 8800, x2: 9600, y2: 9600 },
    ];
    assert!(tri_overlaps(&near, &boxes[0]));
    assert!(!tri_overlaps(&far, &boxes[0]));
    let parts = partition_tris(&tris, &boxes);
    assert_eq!(parts.len(), 2);
    assert_eq!(parts[0], vec![near]);
    assert_eq!(parts[1], vec![far]);
}

#[test]
fn single_triangle_heightmap_matches_plane() {
    // a single facet spanning half the square: covered samples follow its
    // plane, uncovered samples carry the sentinel bottom
    let mut tris = vec![tri(pt(0, 0, 0), pt(4000, 0, 0), pt(0, 4000, -2000))];
    move_to_zero(&mut tris);
    let b = get_bounds(&tris);
    let grid = generate_grid(&b, 1000);
    let cols = generate_columns_chunks(&b, 1000, 500);
    let parts = partition_tris(&tris, &cols);
    let hm = generate_heightmap(&grid, &parts, b.p1.z);
    assert_eq!(hm.len(), 5);
    assert_eq!(hm[0].len(), 5);
    // plane z = -y / 2 over x + y <= 4000
    assert_eq!(hm[0][0].z, 0);
    assert_eq!(hm[1][1].z, -500);
    assert_eq!(hm[0][4].z, -2000);
    assert_eq!(hm[4][0].z, 0);
    // outside the facet: the sentinel, here also the lowest z
    assert_eq!(hm[4][4].z, -2000);
    assert_eq!(hm[3][2].z, -2000);
    let rest = generate_rest_map(&hm);
    assert_eq!(rest[2][3].x, hm[2][3].x);
    assert_eq!(rest[2][3].z, 0);
}

#[test]
fn offset_columns_spacing() {
    // stepover 100 percent of a 1 mm cutter at 0.1 mm resolution: columns
    // sit exactly ten samples apart
    assert_eq!(div_ceil(1000 * 100, 100 * 100), 10);
}

#[test]
fn vbit_tool_offsets() {
    // 6 mm vbit with a 60 degree included angle: flank slope tan(30)
    let tool = ToolKind::Vbit.create(6000, 577350, 500);
    assert_eq!(tool.radius, 3000);
    // deepest at the disk center, level at the perimeter
    assert!(tool.points.contains(&pt(3000, 3000, -1732)));
    assert!(tool.points.contains(&pt(6000, 3000, 0)));
    assert!(tool.points.contains(&pt(3000, 6000, 0)));
    for p in &tool.points {
        assert!(p.z <= 0 && p.z >= -1733);
    }
}

#[test]
fn ball_and_endmill_tool_offsets() {
    let flat = ToolKind::Endmill.create(2000, 0, 500);
    for p in &flat.points {
        assert_eq!(p.z, 0);
    }
    assert!(flat.points.contains(&pt(1000, 1000, 0)));
    let ball = ToolKind::Ball.create(2000, 0, 500);
    assert!(ball.points.contains(&pt(1000, 1000, 0)));
    // at 500 um from the axis the sphere drops r - sqrt(r^2 - d^2)
    assert!(ball.points.contains(&pt(1500, 1000, -134)));
    assert!(ball.points.contains(&pt(2000, 1000, -1000)));
}

#[test]
fn codec_round_trip_is_identity() {
    let m = vec![
        vec![pt(0, 0, 0), pt(0, 500, -123)],
        vec![pt(500, 0, -4000), pt(500, 500, 7)],
        vec![pt(1000, 0, 0), pt(1000, 500, -1)],
    ];
    let bytes = encode_map(&m);
    assert_eq!(decode_map(&bytes), Some(m));
}

#[test]
fn codec_rejects_malformed_bytes() {
    assert_eq!(decode_map(&vec![]), None);
    assert_eq!(decode_map(&vec![1u8; 7]), None);
    let m = vec![vec![pt(1, 2, 3)]];
    let mut bytes = encode_map(&m);
    bytes.pop();
    assert_eq!(decode_map(&bytes), None);
    let mut extra = encode_map(&m);
    extra.push(0);
    assert_eq!(decode_map(&extra), None);
}

#[test]
fn millimeter_formatting() {
    let mut out = Vec::new();
    push_mm(&mut out, -5000);
    push_mm(&mut out, 0);
    out.push(b' ');
    push_mm(&mut out, 1234567);
    push_mm(&mut out, -25);
    assert_eq!(out, b"-5.0000.000 1234.567-0.025".to_vec());
}
