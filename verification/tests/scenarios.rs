use toolpath::codec::decode_map;
use toolpath::pipeline::{run_pipeline, Config, RunError};
use toolpath::tool::ToolKind;

fn stl_bytes(tris: &[[f32; 9]]) -> Vec<u8> {
    let mut b = vec![0u8; 80];
    b.extend_from_slice(&(tris.len() as u32).to_le_bytes());
    for t in tris {
        b.extend_from_slice(&[0u8; 12]);
        for w in t {
            b.extend_from_slice(&w.to_le_bytes());
        }
        b.extend_from_slice(&[0u8; 2]);
    }
    b
}

fn flat_plate() -> Vec<u8> {
    stl_bytes(&[
        [0.0, 0.0, 0.0, 10.0, 0.0, 0.0, 10.0, 10.0, 0.0],
        [0.0, 0.0, 0.0, 10.0, 10.0, 0.0, 0.0, 10.0, 0.0],
    ])
}

fn pyramid() -> Vec<u8> {
    stl_bytes(&[
        [0.0, 0.0, 0.0, 10.0, 0.0, 0.0, 5.0, 5.0, -5.0],
        [10.0, 0.0, 0.0, 10.0, 10.0, 0.0, 5.0, 5.0, -5.0],
        [10.0, 10.0, 0.0, 0.0, 10.0, 0.0, 5.0, 5.0, -5.0],
        [0.0, 10.0, 0.0, 0.0, 0.0, 0.0, 5.0, 5.0, -5.0],
    ])
}

fn pyramid_config() -> Config {
    Config {
        diameter: 2000,
        kind: ToolKind::Ball,
        slope_ppm: 0,
        stepover: 50,
        resolution: 500,
        stepdown: Some(2000),
    }
}

#[test]
fn flat_plate_single_layer() {
    let cfg = Config {
        diameter: 2000,
        kind: ToolKind::Endmill,
        slope_ppm: 0,
        stepover: 100,
        resolution: 500,
        stepdown: None,
    };
    let out = run_pipeline(&flat_plate(), &cfg, None, None).unwrap();
    assert_eq!(out.layer_count, 1);
    // a fully flat part at the stock top leaves nothing to cut: the file
    // holds only the opening safe-height move
    assert_eq!(out.gcode, b"G1 Z0.000 F300\n".to_vec());
}

#[test]
fn flat_mesh_leaves_stock_untouched() {
    let cfg = Config {
        diameter: 2000,
        kind: ToolKind::Endmill,
        slope_ppm: 0,
        stepover: 100,
        resolution: 500,
        stepdown: None,
    };
    let out = run_pipeline(&flat_plate(), &cfg, None, None).unwrap();
    let rest = decode_map(&out.rest_map).unwrap();
    for col in &rest {
        for p in col {
            assert_eq!(p.z, 0);
        }
    }
}

#[test]
fn pyramid_heightmap_and_layers() {
    let out = run_pipeline(&pyramid(), &pyramid_config(), None, None).unwrap();
    let hm = decode_map(&out.height_map).unwrap();
    // grid pitch 0.5 mm: sample (10, 10) is the apex at (5, 5)
    assert_eq!(hm[10][10].z, -5000);
    assert_eq!(hm[0][0].z, 0);
    for col in &hm {
        for p in col {
            assert!(-5000 <= p.z && p.z <= 0);
        }
    }
    assert!(out.layer_count >= 3);
    // the ball's rim terms keep the tip a radius above the walls around
    // it, and the walls settle one radius above the 45-degree pit floor:
    // the deepest reachable move is two radii short of the apex
    let text = String::from_utf8(out.gcode.clone()).unwrap();
    let mut deepest = 0.0f64;
    for line in text.lines() {
        if line.starts_with("G1 X") {
            if let Some(zpos) = line.find(" Z") {
                let z: f64 = line[zpos + 2..].parse().unwrap();
                if z < deepest {
                    deepest = z;
                }
            }
        }
    }
    assert_eq!(deepest, -3.0);
}

#[test]
fn pyramid_stock_monotonic() {
    let out = run_pipeline(&pyramid(), &pyramid_config(), None, None).unwrap();
    let rest = decode_map(&out.rest_map).unwrap();
    for col in &rest {
        for p in col {
            assert!(p.z <= 0);
            assert!(p.z >= -6000);
        }
    }
}

#[test]
fn deterministic_reload() {
    let fresh = run_pipeline(&pyramid(), &pyramid_config(), None, None).unwrap();
    let again = run_pipeline(&pyramid(), &pyramid_config(), None, None).unwrap();
    assert_eq!(fresh.gcode, again.gcode);
    let reloaded = run_pipeline(
        &pyramid(),
        &pyramid_config(),
        Some(fresh.height_map.clone()),
        None,
    )
    .unwrap();
    assert!(reloaded.heightmap_reused);
    assert_eq!(reloaded.gcode, fresh.gcode);
}

#[test]
fn cache_mismatch_recomputes() {
    let mut coarse_cfg = pyramid_config();
    coarse_cfg.resolution = 1000;
    let coarse = run_pipeline(&pyramid(), &coarse_cfg, None, None).unwrap();
    let fresh = run_pipeline(&pyramid(), &pyramid_config(), None, None).unwrap();
    let mismatched = run_pipeline(
        &pyramid(),
        &pyramid_config(),
        Some(coarse.height_map.clone()),
        None,
    )
    .unwrap();
    assert!(!mismatched.heightmap_reused);
    assert_eq!(mismatched.gcode, fresh.gcode);
}

#[test]
fn bad_config_rejected() {
    let mut cfg = pyramid_config();
    cfg.resolution = 0;
    assert_eq!(
        run_pipeline(&pyramid(), &cfg, None, None).unwrap_err(),
        RunError::BadConfig
    );
    let mut cfg2 = pyramid_config();
    cfg2.stepover = 101;
    assert_eq!(
        run_pipeline(&pyramid(), &cfg2, None, None).unwrap_err(),
        RunError::BadConfig
    );
}

#[test]
fn bad_stl_rejected() {
    let mut short = pyramid();
    short.truncate(100);
    assert_eq!(
        run_pipeline(&short, &pyramid_config(), None, None).unwrap_err(),
        RunError::BadStl
    );
    let mut nan = pyramid();
    // poison the first vertex's x word with a NaN
    nan[96] = 0xff;
    nan[97] = 0xff;
    nan[98] = 0xff;
    nan[99] = 0x7f;
    assert_eq!(
        run_pipeline(&nan, &pyramid_config(), None, None).unwrap_err(),
        RunError::BadStl
    );
}

#[test]
fn empty_mesh_rejected() {
    let empty = stl_bytes(&[]);
    assert_eq!(
        run_pipeline(&empty, &pyramid_config(), None, None).unwrap_err(),
        RunError::EmptyMesh
    );
}

#[test]
fn gcode_z_within_bounds() {
    // every cutting move of the pyramid run stays between the mesh floor
    // and the highest rise the ball's body can force (one tool radius)
    let out = run_pipeline(&pyramid(), &pyramid_config(), None, None).unwrap();
    let text = String::from_utf8(out.gcode.clone()).unwrap();
    for line in text.lines() {
        if let Some(zpos) = line.find(" Z") {
            if line.starts_with("G1 X") {
                let z: f64 = line[zpos + 2..].parse().unwrap();
                assert!(-5.0 <= z && z <= 1.0, "move out of bounds: {line}");
            }
        }
    }
}

#[test]
fn endmill_moves_never_rise_above_stock() {
    // with a flat cutter every cutting move stays at or below the stock top
    let mut cfg = pyramid_config();
    cfg.kind = ToolKind::Endmill;
    let out = run_pipeline(&pyramid(), &cfg, None, None).unwrap();
    let text = String::from_utf8(out.gcode.clone()).unwrap();
    let mut moves = 0;
    for line in text.lines() {
        if line.starts_with("G1 X") {
            if let Some(zpos) = line.find(" Z") {
                let z: f64 = line[zpos + 2..].parse().unwrap();
                assert!(-5.0 <= z && z <= 0.0, "move out of bounds: {line}");
                moves += 1;
            }
        }
    }
    assert!(moves > 0);
}
