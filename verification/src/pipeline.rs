//! The whole toolpath run, as one function from plain values to plain
//! values: STL bytes in, G-code bytes (and the serialized maps) out.
//! Every stage is pinned to its mathematical description, so the run is a
//! function of its inputs: the same bytes and settings give the same
//! G-code, byte for byte.

use crate::geom::{Bounds, Point3, Triangle};
use crate::grid::{ceil_div, floor_div};
use crate::layers::{view2, LayerPoint};
use crate::tool::ToolKind;
use vstd::prelude::*;

verus! {

/// The engine's settings; lengths in micrometers, stepover in percent.
#[derive(Clone, Copy, PartialEq, Eq, Debug)]
pub struct Config {
    pub diameter: i64,
    pub kind: ToolKind,
    /// V-bit flank slope in parts per million; ignored by other shapes.
    pub slope_ppm: i64,
    /// Percent of the diameter between milled columns, 1 to 100.
    pub stepover: i64,
    /// Sampling pitch, 1 to 1000 (0.001 mm to 1 mm).
    pub resolution: i64,
    /// Depth per pass; `None` takes the mesh's full depth in one pass.
    pub stepdown: Option<i64>,
}

#[derive(Clone, Copy, PartialEq, Eq, Structural, Debug)]
pub enum ConfigError {
    BadDiameter,
    BadStepover,
    BadResolution,
    BadSlope,
    BadStepdown,
}

pub open spec fn diameter_ok(c: Config) -> bool {
    2 <= c.diameter <= 2 * crate::tool::RADIUS_LIMIT
}

pub open spec fn stepover_ok(c: Config) -> bool {
    1 <= c.stepover <= 100
}

pub open spec fn slope_ok(c: Config) -> bool {
    0 <= c.slope_ppm <= crate::tool::SLOPE_LIMIT
}

pub open spec fn stepdown_ok(c: Config) -> bool {
    match c.stepdown {
        Option::None => true,
        Option::Some(d) => 1 <= d <= 4 * crate::layers::Z_LIMIT,
    }
}

pub open spec fn config_ok(c: Config) -> bool {
    &&& diameter_ok(c)
    &&& stepover_ok(c)
    &&& crate::grid::valid_resolution(c.resolution)
    &&& slope_ok(c)
    &&& stepdown_ok(c)
}

/// Check the settings; errors are reported in a fixed order.
pub fn validate_config(c: &Config) -> (r: Result<(), ConfigError>)
    ensures
        r is Ok <==> config_ok(*c),
        r == (if !diameter_ok(*c) {
            Result::<(), ConfigError>::Err(ConfigError::BadDiameter)
        } else if !stepover_ok(*c) {
            Result::<(), ConfigError>::Err(ConfigError::BadStepover)
        } else if !crate::grid::valid_resolution(c.resolution) {
            Result::<(), ConfigError>::Err(ConfigError::BadResolution)
        } else if !slope_ok(*c) {
            Result::<(), ConfigError>::Err(ConfigError::BadSlope)
        } else if !stepdown_ok(*c) {
            Result::<(), ConfigError>::Err(ConfigError::BadStepdown)
        } else {
            Result::<(), ConfigError>::Ok(())
        }),
{
    if !(2 <= c.diameter && c.diameter <= 2 * crate::tool::RADIUS_LIMIT) {
        return Err(ConfigError::BadDiameter);
    }
    if !(1 <= c.stepover && c.stepover <= 100) {
        return Err(ConfigError::BadStepover);
    }
    if !(1 <= c.resolution && c.resolution <= 1000) {
        return Err(ConfigError::BadResolution);
    }
    if !(0 <= c.slope_ppm && c.slope_ppm <= crate::tool::SLOPE_LIMIT) {
        return Err(ConfigError::BadSlope);
    }
    match c.stepdown {
        Option::Some(d) => {
            if !(1 <= d && d <= 4 * crate::layers::Z_LIMIT) {
                return Err(ConfigError::BadStepdown);
            }
        },
        Option::None => {},
    }
    Ok(())
}

/// A cached serialized map is reused only when it has the shape of the
/// current grid and plausible stock heights.
pub open spec fn cache_fits(m: Seq<Seq<Point3>>, segments: int, rows: int) -> bool {
    &&& crate::layers::shape_ok(m, segments, rows)
    &&& crate::layers::map_z_in(m, -crate::layers::Z_LIMIT as int, 0)
}

/// Whether a decoded map fits the current grid.
pub fn map_fits(m: &Vec<Vec<Point3>>, segments: usize, rows: usize) -> (r: bool)
    ensures
        r == cache_fits(view2(*m), segments as int, rows as int),
{
    if m.len() != segments {
        return false;
    }
    let mut i: usize = 0;
    while i < m.len()
        invariant
            0 <= i <= m@.len(),
            m@.len() == segments,
            forall|ii: int| 0 <= ii < i ==> (#[trigger] view2(*m)[ii]).len() == rows,
            forall|ii: int, jj: int|
                0 <= ii < i && 0 <= jj < rows ==> -crate::layers::Z_LIMIT <= (
                #[trigger] view2(*m)[ii][jj]).z <= 0,
        decreases m@.len() - i,
    {
        let col = &m[i];
        if col.len() != rows {
            proof {
                assert(view2(*m)[i as int].len() != rows);
            }
            return false;
        }
        let mut j: usize = 0;
        while j < col.len()
            invariant
                0 <= j <= col@.len(),
                0 <= i < m@.len(),
                col@ == m@[i as int]@,
                col@.len() == rows,
                forall|jj: int|
                    0 <= jj < j ==> -crate::layers::Z_LIMIT <= (#[trigger] col@[jj]).z <= 0,
            decreases col@.len() - j,
        {
            let z = col[j].z;
            if z < -crate::layers::Z_LIMIT || z > 0 {
                proof {
                    assert(view2(*m)[i as int][j as int] == col@[j as int]);
                }
                return false;
            }
            j = j + 1;
        }
        proof {
            assert forall|jj: int| 0 <= jj < rows implies -crate::layers::Z_LIMIT <= (
            #[trigger] view2(*m)[i as int][jj]).z <= 0 by {
                assert(view2(*m)[i as int][jj] == col@[jj]);
            };
        }
        i = i + 1;
    }
    true
}

/// Everything one run produces besides its exit status: the G-code, the
/// serialized height and rest maps, and whether a supplied cache was
/// used or silently recomputed.
#[derive(Debug)]
pub struct RunOutput {
    pub gcode: Vec<u8>,
    pub height_map: Vec<u8>,
    pub rest_map: Vec<u8>,
    pub layer_count: usize,
    pub heightmap_reused: bool,
    pub restmap_reused: bool,
}

#[derive(Clone, Copy, PartialEq, Eq, Structural, Debug)]
pub enum RunError {
    BadConfig,
    BadStl,
    EmptyMesh,
}

/// The G-code of a run's layers from index `i` on, threading the cutter
/// position: each layer's segments are gathered, grouped into islands,
/// ordered greedily, and emitted.
pub open spec fn plan_emit(
    layers: Seq<Seq<Seq<LayerPoint>>>,
    i: nat,
    pos: Point3,
    rad: int,
    diam: int,
) -> (Seq<u8>, Point3)
    decreases layers.len() - i,
{
    if i >= layers.len() {
        (Seq::empty(), pos)
    } else {
        let segs = crate::paths::segs_of_layer(layers[i as int]);
        let islands = crate::paths::islands_of(segs, rad);
        let ordered = crate::paths::order_islands(
            islands,
            Seq::new(islands.len(), |t: int| false),
            pos,
            islands.len(),
        );
        let em = crate::gcode::emit_islands(ordered.0, 0, pos, diam);
        let rec = plan_emit(layers, (i + 1) as nat, em.1, rad, diam);
        (em.0 + rec.0, rec.1)
    }
}

/// The whole run, as one mathematical function of the inputs: the mesh is
/// read and normalized, the grid, columns and buckets derived, the height
/// map ray-cast (or reused from a fitting cache), the stock peeled into
/// layers, and the layers planned and printed. Yields the G-code bytes,
/// the serialized height and rest maps, the layer count, and which caches
/// were reused.
pub open spec fn m_mesh0(b: Seq<u8>) -> Seq<Triangle> {
    crate::stl::stl_mesh(b)
}

pub open spec fn m_b0(b: Seq<u8>) -> Bounds {
    choose|bb: Bounds| crate::geom::is_bounds_of(m_mesh0(b), bb)
}

/// The normalized mesh: translated so its minimum x and y and maximum z
/// are zero.
pub open spec fn m_mesh(b: Seq<u8>) -> Seq<Triangle> {
    Seq::new(
        m_mesh0(b).len(),
        |i: int|
            crate::geom::translate_tri(
                m_mesh0(b)[i],
                -m_b0(b).p1.x,
                -m_b0(b).p1.y,
                -m_b0(b).p2.z,
            ),
    )
}

/// The normalized mesh's bounds.
pub open spec fn m_nb(b: Seq<u8>) -> Bounds {
    Bounds {
        p1: Point3 { x: 0, y: 0, z: (m_b0(b).p1.z - m_b0(b).p2.z) as i64 },
        p2: Point3 {
            x: (m_b0(b).p2.x - m_b0(b).p1.x) as i64,
            y: (m_b0(b).p2.y - m_b0(b).p1.y) as i64,
            z: 0,
        },
    }
}

pub open spec fn m_segments(b: Seq<u8>, c: Config) -> int {
    crate::grid::grid_segments(m_nb(b), c.resolution as int)
}

pub open spec fn m_rows(b: Seq<u8>, c: Config) -> int {
    crate::grid::grid_rows(m_nb(b), c.resolution as int)
}

/// The per-chunk triangle buckets.
pub open spec fn m_parts(b: Seq<u8>, c: Config) -> Seq<Seq<Triangle>> {
    Seq::new(
        crate::grid::chunk_count(m_segments(b, c)) as nat,
        |ci: int|
            m_mesh(b).filter(
                |t: Triangle|
                    crate::partition::tri_hits_box(
                        t,
                        crate::grid::chunk_box(
                            m_nb(b),
                            c.resolution as int,
                            c.diameter as int / 2,
                            m_segments(b, c),
                            ci,
                        ),
                    ),
            ),
    )
}

/// The ray-cast height map.
pub open spec fn m_hm_fresh(b: Seq<u8>, c: Config) -> Seq<Seq<Point3>> {
    Seq::new(
        m_segments(b, c) as nat,
        |i: int|
            Seq::new(
                m_rows(b, c) as nat,
                |j: int|
                    Point3 {
                        x: (i * c.resolution) as i64,
                        y: (j * c.resolution) as i64,
                        z: crate::heightmap::drop_z(
                            m_parts(b, c)[i / 10],
                            i * c.resolution,
                            j * c.resolution,
                            m_nb(b).p1.z as int,
                        ) as i64,
                    },
            ),
    )
}

pub open spec fn m_hm_reused(b: Seq<u8>, c: Config, hmc: Option<Seq<u8>>) -> bool {
    match hmc {
        Option::None => false,
        Option::Some(hb) => match crate::codec::spec_decode(hb) {
            Option::None => false,
            Option::Some(m) => cache_fits(m, m_segments(b, c), m_rows(b, c)),
        },
    }
}

/// The height map a run works from: a fitting cache, else the fresh one.
pub open spec fn m_hm(b: Seq<u8>, c: Config, hmc: Option<Seq<u8>>) -> Seq<Seq<Point3>> {
    if m_hm_reused(b, c, hmc) {
        crate::codec::spec_decode(hmc->0)->0
    } else {
        m_hm_fresh(b, c)
    }
}

pub open spec fn m_rest_reused(b: Seq<u8>, c: Config, rmc: Option<Seq<u8>>) -> bool {
    match rmc {
        Option::None => false,
        Option::Some(rb) => match crate::codec::spec_decode(rb) {
            Option::None => false,
            Option::Some(m) => cache_fits(m, m_segments(b, c), m_rows(b, c)),
        },
    }
}

/// The starting stock map: a fitting cache, else flat at the stock top.
pub open spec fn m_rest(
    b: Seq<u8>,
    c: Config,
    hmc: Option<Seq<u8>>,
    rmc: Option<Seq<u8>>,
) -> Seq<Seq<Point3>> {
    if m_rest_reused(b, c, rmc) {
        crate::codec::spec_decode(rmc->0)->0
    } else {
        Seq::new(
            m_segments(b, c) as nat,
            |i: int|
                Seq::new(
                    m_rows(b, c) as nat,
                    |j: int|
                        Point3 {
                            x: m_hm(b, c, hmc)[i][j].x,
                            y: m_hm(b, c, hmc)[i][j].y,
                            z: 0,
                        },
                ),
        )
    }
}

/// The cutter template's offsets.
pub open spec fn m_pts(c: Config) -> Seq<Point3> {
    let radius = c.diameter as int / 2;
    let n = floor_div(2 * radius, c.resolution as int) + 1;
    crate::tool::tool_rows(
        c.kind,
        radius,
        c.slope_ppm as int,
        c.resolution as int,
        n as nat,
        n as nat,
    )
}

/// Depth of cut per pass: the setting, or the mesh's full depth.
pub open spec fn m_d(b: Seq<u8>, c: Config) -> int {
    match c.stepdown {
        Option::None => -(m_nb(b).p1.z as int),
        Option::Some(dd) => dd as int,
    }
}

/// The layer loop's iteration cap.
pub open spec fn m_cap(b: Seq<u8>, c: Config) -> int {
    if m_d(b, c) == 0 {
        1
    } else {
        ceil_div(-(m_nb(b).p1.z as int), m_d(b, c)) + 1
    }
}

/// The layer loop's run: the layers and the final stock.
pub open spec fn m_run(b: Seq<u8>, c: Config, hmc: Option<Seq<u8>>, rmc: Option<Seq<u8>>) -> (
    Seq<Seq<Seq<LayerPoint>>>,
    Seq<Seq<Point3>>,
) {
    crate::layers::run_layers(
        m_hm(b, c, hmc),
        m_rest(b, c, hmc, rmc),
        m_pts(c),
        c.resolution as int,
        m_segments(b, c),
        m_rows(b, c),
        floor_div(c.diameter as int / 2, c.resolution as int),
        ceil_div(c.diameter as int * c.stepover as int, 100 * c.resolution as int),
        m_d(b, c),
        m_cap(b, c) as nat,
        false,
    )
}

/// The flood-fill radius in micrometers: whole lattice cells covering the
/// diameter.
pub open spec fn m_rad(c: Config) -> int {
    ceil_div(c.diameter as int, c.resolution as int) * (c.resolution as int)
}

/// The whole run, as one mathematical function of the inputs. Yields the
/// G-code bytes, the serialized height and rest maps, the layer count,
/// and which caches were reused.
pub open spec fn run_model(
    b: Seq<u8>,
    c: Config,
    hmc: Option<Seq<u8>>,
    rmc: Option<Seq<u8>>,
) -> (Seq<u8>, Seq<u8>, Seq<u8>, int, bool, bool) {
    let run = m_run(b, c, hmc, rmc);
    let em = plan_emit(run.0, 0, Point3 { x: 0, y: 0, z: 0 }, m_rad(c), c.diameter as int);
    (
        crate::gcode::header() + em.0,
        crate::codec::spec_encode(m_hm(b, c, hmc)),
        crate::codec::spec_encode(run.1),
        run.0.len() as int,
        m_hm_reused(b, c, hmc),
        m_rest_reused(b, c, rmc),
    )
}

/// Print the G-code of a run's layers: the opening safe-height move, then
/// each layer planned and emitted in order.
#[verifier::rlimit(100)]
#[verifier::spinoff_prover]
fn gcode_of_layers(layer_vecs: &Vec<Vec<Vec<LayerPoint>>>, rad: i64, diam: i64) -> (g: Vec<u8>)
    requires
        forall|l2: int|
            0 <= l2 < layer_vecs@.len() ==> crate::layers::layer_vals_ok(
                #[trigger] crate::layers::view3(*layer_vecs)[l2],
            ),
        0 <= rad <= crate::codec::CODE_LIMIT,
        2 <= diam <= 1_000_000,
    ensures
        g@ == crate::gcode::header() + plan_emit(
            crate::layers::view3(*layer_vecs),
            0,
            Point3 { x: 0, y: 0, z: 0 },
            rad as int,
            diam as int,
        ).0,
{
    let ghost run0 = crate::layers::view3(*layer_vecs);
    let mut gcode: Vec<u8> = Vec::new();
    gcode.push(71);
    gcode.push(49);
    gcode.push(32);
    gcode.push(90);
    gcode.push(48);
    gcode.push(46);
    gcode.push(48);
    gcode.push(48);
    gcode.push(48);
    gcode.push(32);
    gcode.push(70);
    gcode.push(51);
    gcode.push(48);
    gcode.push(48);
    gcode.push(10);
    proof {
        assert(gcode@ =~= crate::gcode::header());
    }
    let mut pos = Point3 { x: 0, y: 0, z: 0 };
    let ghost pspec = plan_emit(run0, 0, pos, rad as int, diam as int);
    let ghost mut built: Seq<u8> = Seq::empty();
    let mut li: usize = 0;
    let nl = layer_vecs.len();
    while li < nl
        invariant
            0 <= li <= nl,
            nl == layer_vecs@.len(),
            run0 == crate::layers::view3(*layer_vecs),
            forall|l2: int|
                0 <= l2 < run0.len() ==> crate::layers::layer_vals_ok(#[trigger] run0[l2]),
            crate::codec::point_ok(pos),
            0 <= rad <= crate::codec::CODE_LIMIT,
            2 <= diam <= 1_000_000,
            gcode@ == crate::gcode::header() + built,
            pspec == plan_emit(run0, 0, Point3 { x: 0, y: 0, z: 0 }, rad as int, diam as int),
            pspec.0 == built + plan_emit(run0, li as nat, pos, rad as int, diam as int).0,
            pspec.1 == plan_emit(run0, li as nat, pos, rad as int, diam as int).1,
        decreases nl - li,
    {
        let layer = &layer_vecs[li];
        let ghost lv = view2(*layer);
        proof {
            assert(lv == run0[li as int]);
            assert(crate::layers::layer_vals_ok(lv));
            crate::paths::lemma_segs_nonempty(lv);
            crate::paths::lemma_segs_points_ok(lv);
        }
        let segs = crate::paths::layer_segments(layer);
        let ghost segss = crate::paths::segs_of_layer(lv);
        proof {
            assert(Seq::new(segs@.len() as nat, |i: int| segs@[i]@) =~~= segss);
            assert forall|i: int| 0 <= i < segs@.len() implies (#[trigger] segs@[i])@.len() > 0 by {
                assert(segs@[i]@ == segss[i]);
            };
            assert forall|i: int, j: int|
                0 <= i < segs@.len() && 0 <= j < segs@[i]@.len() implies crate::codec::point_ok(
                #[trigger] segs@[i]@[j],
            ) by {
                assert(segs@[i]@ == segss[i]);
                assert(crate::codec::point_ok(segss[i][j]));
            };
        }
        let islands = crate::paths::get_islands(&segs, rad);
        let ghost islss = crate::paths::islands_of(segss, rad as int);
        let ghost iview = Seq::new(
            islands@.len() as nat,
            |t: int| Seq::new(islands@[t]@.len() as nat, |u: int| islands@[t]@[u]@),
        );
        proof {
            crate::paths::lemma_islands_of_wf(segss, rad as int);
            assert(iview =~~= islss) by {
                assert forall|t: int| 0 <= t < islss.len() implies #[trigger] iview[t]
                    =~= islss[t] by {
                    assert forall|u: int| 0 <= u < islss[t].len() implies #[trigger] iview[t][u]
                        == islss[t][u] by {
                        assert(islands@[t]@[u]@ == islss[t][u]);
                    };
                };
            };
            assert(crate::paths::islands_wf(iview)) by {
                let groups = crate::paths::islands_rec(
                    crate::paths::reach_of(segss, rad as int),
                    segss.len(),
                );
                assert forall|t: int, u: int|
                    0 <= t < iview.len() && 0 <= u < (#[trigger] iview[t]).len() implies iview[t].len()
                    > 0 && (#[trigger] iview[t][u]).len() > 0 && (forall|q: int|
                    0 <= q < iview[t][u].len() ==> crate::codec::point_ok(
                        #[trigger] iview[t][u][q],
                    )) by {
                    assert(islss[t][u] == segss[groups[t][u]]);
                    assert(segss[groups[t][u]].len() > 0);
                };
            };
            assert forall|t: int| 0 <= t < islands@.len() implies (#[trigger] islands@[t])@.len()
                > 0 by {
                assert(iview[t].len() == islands@[t]@.len());
            };
        }
        let ordered = crate::paths::order_islands_exec(&islands, pos);
        let ghost ordspec = crate::paths::order_islands(
            islss,
            Seq::new(islss.len(), |t: int| false),
            pos,
            islss.len(),
        );
        proof {
            assert(Seq::new(islands@.len() as nat, |t: int| false) =~= Seq::new(
                islss.len(),
                |t: int| false,
            ));
            crate::paths::lemma_order_islands_wf(
                islss,
                Seq::new(islss.len(), |t: int| false),
                pos,
                islss.len(),
            );
            let ov = Seq::new(
                ordered.0@.len() as nat,
                |t: int| Seq::new(ordered.0@[t]@.len() as nat, |u: int| ordered.0@[t]@[u]@),
            );
            assert(ov =~~= ordspec.0) by {
                assert forall|t: int| 0 <= t < ordspec.0.len() implies #[trigger] ov[t]
                    =~= ordspec.0[t] by {
                    assert forall|u: int| 0 <= u < ordspec.0[t].len() implies #[trigger] ov[t][u]
                        == ordspec.0[t][u] by {
                        assert(ordered.0@[t]@[u]@ == ordspec.0[t][u]);
                    };
                };
            };
            assert forall|t: int| 0 <= t < ordered.0@.len() implies (
            #[trigger] ordered.0@[t])@.len() > 0 by {
                assert(ov[t].len() == ordspec.0[t].len());
            };
            assert forall|t: int, u: int|
                0 <= t < ordered.0@.len() && 0 <= u < ordered.0@[t]@.len() implies (
            #[trigger] ordered.0@[t]@[u])@.len() > 0 by {
                assert(ov[t][u] == ordspec.0[t][u]);
            };
            assert forall|t: int, u: int, q: int|
                0 <= t < ordered.0@.len() && 0 <= u < ordered.0@[t]@.len() && 0 <= q
                    < ordered.0@[t]@[u]@.len() implies crate::codec::point_ok(
                #[trigger] ordered.0@[t]@[u]@[q],
            ) by {
                assert(ov[t][u] == ordspec.0[t][u]);
                assert(crate::codec::point_ok(ordspec.0[t][u][q]));
            };
        }
        let np = crate::gcode::emit_layer(&mut gcode, &ordered.0, pos, diam);
        proof {
            let em = crate::gcode::emit_islands(ordspec.0, 0, pos, diam as int);
            assert(Seq::new(
                ordered.0@.len() as nat,
                |t: int| Seq::new(ordered.0@[t]@.len() as nat, |u: int| ordered.0@[t]@[u]@),
            ) =~~= ordspec.0);
            assert(np == em.1);
            built = built + em.0;
            assert(gcode@ =~= crate::gcode::header() + built);
        }
        pos = np;
        li = li + 1;
        proof {
            assert(pspec.0 =~= built + plan_emit(run0, li as nat, pos, rad as int, diam as int).0);
        }
    }
    proof {
        assert(g_end(gcode@, crate::gcode::header(), built, pspec.0));
    }
    gcode
}

/// The final byte string is the header followed by the whole plan.
pub open spec fn g_end(g: Seq<u8>, h: Seq<u8>, built: Seq<u8>, p0: Seq<u8>) -> bool {
    g == h + built && built == p0
}

/// The derived grid and buckets satisfy what the ray-cast needs: every
/// sample within range, every bucket a mesh within range, and a bucket
/// for every run of ten columns.
#[verifier::rlimit(100)]
#[verifier::spinoff_prover]
proof fn lemma_heightmap_pre(
    b: Seq<u8>,
    c: Config,
    trisv: Seq<Triangle>,
    gv: Seq<Seq<Point3>>,
    columnsv: Seq<crate::grid::Aabb2>,
    partsv: Seq<Seq<Triangle>>,
)
    requires
        config_ok(c),
        trisv == m_mesh(b),
        crate::geom::mesh_in_range(trisv, 2 * crate::geom::COORD_LIMIT as int),
        crate::grid::normalized_bounds(m_nb(b)),
        gv.len() == m_segments(b, c),
        forall|i: int| 0 <= i < gv.len() ==> (#[trigger] gv[i]).len() == m_rows(b, c),
        forall|i: int, j: int|
            0 <= i < gv.len() && 0 <= j < gv[i].len() ==> (#[trigger] gv[i][j])
                == crate::grid::grid_point(m_nb(b), c.resolution as int, i, j),
        columnsv.len() == crate::grid::chunk_count(m_segments(b, c)),
        partsv.len() == columnsv.len(),
        forall|ci: int|
            0 <= ci < partsv.len() ==> (#[trigger] partsv[ci]) == trisv.filter(
                |t: Triangle| crate::partition::tri_hits_box(t, columnsv[ci]),
            ),
    ensures
        gv.len() <= partsv.len() * 10,
        forall|i: int, j: int|
            0 <= i < gv.len() && 0 <= j < gv[i].len() ==> crate::geom::pt_in_range(
                #[trigger] gv[i][j],
                crate::heightmap::GEO_LIMIT as int,
            ),
        forall|ci: int|
            0 <= ci < partsv.len() ==> crate::geom::mesh_in_range(
                #[trigger] partsv[ci],
                crate::heightmap::GEO_LIMIT as int,
            ),
{
    let nbs = m_nb(b);
    let res = c.resolution;
    let segments_i = m_segments(b, c);
    assert(1 <= segments_i <= nbs.p2.x + 1) by {
        vstd::arithmetic::div_mod::lemma_div_pos_is_pos(nbs.p2.x as int, res as int);
        vstd::arithmetic::div_mod::lemma_div_nonincreasing(nbs.p2.x as int, res as int);
    };
    assert(1 <= m_rows(b, c) <= nbs.p2.y + 1) by {
        vstd::arithmetic::div_mod::lemma_div_pos_is_pos(nbs.p2.y as int, res as int);
        vstd::arithmetic::div_mod::lemma_div_nonincreasing(nbs.p2.y as int, res as int);
    };
    assert(gv.len() <= partsv.len() * 10) by {
        crate::grid::lemma_ceil_div_props(segments_i, 10);
    };
    assert forall|i: int, j: int|
        0 <= i < gv.len() && 0 <= j < gv[i].len() implies crate::geom::pt_in_range(
        #[trigger] gv[i][j],
        crate::heightmap::GEO_LIMIT as int,
    ) by {
        assert(gv[i][j] == crate::grid::grid_point(nbs, res as int, i, j));
        let qx = nbs.p2.x as int / (res as int);
        let qy = nbs.p2.y as int / (res as int);
        assert(i <= qx && j <= qy);
        vstd::arithmetic::mul::lemma_mul_inequality(i, qx, res as int);
        vstd::arithmetic::mul::lemma_mul_inequality(j, qy, res as int);
        assert(qx * res <= nbs.p2.x) by {
            vstd::arithmetic::div_mod::lemma_fundamental_div_mod(nbs.p2.x as int, res as int);
            vstd::arithmetic::div_mod::lemma_mod_division_less_than_divisor(
                nbs.p2.x as int,
                res as int,
            );
            assert(qx * res == (res as int) * qx) by (nonlinear_arith);
        };
        assert(qy * res <= nbs.p2.y) by {
            vstd::arithmetic::div_mod::lemma_fundamental_div_mod(nbs.p2.y as int, res as int);
            vstd::arithmetic::div_mod::lemma_mod_division_less_than_divisor(
                nbs.p2.y as int,
                res as int,
            );
            assert(qy * res == (res as int) * qy) by (nonlinear_arith);
        };
        assert(0 <= i * res) by (nonlinear_arith)
            requires
                0 <= i && 1 <= res,
        ;
        assert(0 <= j * res) by (nonlinear_arith)
            requires
                0 <= j && 1 <= res,
        ;
    };
    assert forall|ci: int| 0 <= ci < partsv.len() implies crate::geom::mesh_in_range(
        #[trigger] partsv[ci],
        crate::heightmap::GEO_LIMIT as int,
    ) by {
        assert(partsv[ci] == trisv.filter(
            |t: Triangle| crate::partition::tri_hits_box(t, columnsv[ci]),
        ));
        assert forall|ti: int| 0 <= ti < partsv[ci].len() implies crate::geom::tri_in_range(
            #[trigger] partsv[ci][ti],
            crate::heightmap::GEO_LIMIT as int,
        ) by {
            crate::partition::lemma_filter_elt(
                trisv,
                |t: Triangle| crate::partition::tri_hits_box(t, columnsv[ci]),
                ti,
            );
        };
    };
}

/// The exec stages' outputs assemble to the model's fresh height map,
/// with its heights between the stock floor and top and its stored
/// values in the codec's range.
#[verifier::rlimit(100)]
#[verifier::spinoff_prover]
proof fn lemma_fresh_hm_glue(
    b: Seq<u8>,
    c: Config,
    trisv: Seq<Triangle>,
    gv: Seq<Seq<Point3>>,
    columnsv: Seq<crate::grid::Aabb2>,
    partsv: Seq<Seq<Triangle>>,
    hmv: Seq<Seq<Point3>>,
)
    requires
        config_ok(c),
        crate::stl::stl_ok(b),
        m_mesh0(b).len() > 0,
        trisv == m_mesh(b),
        crate::geom::mesh_in_range(trisv, 2 * crate::geom::COORD_LIMIT as int),
        crate::geom::is_bounds_of(trisv, m_nb(b)),
        crate::grid::normalized_bounds(m_nb(b)),
        gv.len() == m_segments(b, c),
        forall|i: int| 0 <= i < gv.len() ==> (#[trigger] gv[i]).len() == m_rows(b, c),
        forall|i: int, j: int|
            0 <= i < gv.len() && 0 <= j < gv[i].len() ==> (#[trigger] gv[i][j])
                == crate::grid::grid_point(m_nb(b), c.resolution as int, i, j),
        columnsv.len() == crate::grid::chunk_count(m_segments(b, c)),
        forall|ci: int|
            0 <= ci < columnsv.len() ==> (#[trigger] columnsv[ci]) == crate::grid::chunk_box(
                m_nb(b),
                c.resolution as int,
                c.diameter as int / 2,
                m_segments(b, c),
                ci,
            ),
        partsv.len() == columnsv.len(),
        forall|ci: int|
            0 <= ci < partsv.len() ==> (#[trigger] partsv[ci]) == trisv.filter(
                |t: Triangle| crate::partition::tri_hits_box(t, columnsv[ci]),
            ),
        hmv.len() == gv.len(),
        forall|i: int| 0 <= i < hmv.len() ==> (#[trigger] hmv[i]).len() == m_rows(b, c),
        forall|i: int, j: int|
            0 <= i < hmv.len() && 0 <= j < hmv[i].len() ==> (#[trigger] hmv[i][j]) == (Point3 {
                x: gv[i][j].x,
                y: gv[i][j].y,
                z: crate::heightmap::drop_z(
                    partsv[i / 10],
                    gv[i][j].x as int,
                    gv[i][j].y as int,
                    m_nb(b).p1.z as int,
                ) as i64,
            }),
    ensures
        hmv == m_hm_fresh(b, c),
        crate::layers::map_z_in(hmv, m_nb(b).p1.z as int, 0),
        forall|i: int, j: int|
            0 <= i < hmv.len() && 0 <= j < hmv[i].len() ==> crate::codec::point_ok(
                #[trigger] hmv[i][j],
            ),
{
    let nbs = m_nb(b);
    let res = c.resolution;
    let segments_i = m_segments(b, c);
    let rows_i = m_rows(b, c);
    let bottom = nbs.p1.z;
    let partss = m_parts(b, c);
    let hm_fresh_spec = m_hm_fresh(b, c);
    assert(1 <= segments_i <= nbs.p2.x + 1) by {
        vstd::arithmetic::div_mod::lemma_div_pos_is_pos(nbs.p2.x as int, res as int);
        vstd::arithmetic::div_mod::lemma_div_nonincreasing(nbs.p2.x as int, res as int);
    };
    assert(1 <= rows_i <= nbs.p2.y + 1) by {
        vstd::arithmetic::div_mod::lemma_div_pos_is_pos(nbs.p2.y as int, res as int);
        vstd::arithmetic::div_mod::lemma_div_nonincreasing(nbs.p2.y as int, res as int);
    };
    assert forall|ci: int| 0 <= ci < partsv.len() implies (#[trigger] partsv[ci])
        =~~= partss[ci] by {
        assert(columnsv[ci] == crate::grid::chunk_box(
            nbs,
            res as int,
            c.diameter as int / 2,
            segments_i,
            ci,
        ));
    };
    assert(hmv =~~= hm_fresh_spec) by {
        assert forall|i: int, j: int|
            0 <= i < segments_i && 0 <= j < rows_i implies hmv[i][j] == hm_fresh_spec[i][j] by {
            assert(gv[i][j] == crate::grid::grid_point(nbs, res as int, i, j));
            assert(0 <= i * res <= 0x2_0000_0000 * 1000 && 0 <= j * res <= 0x2_0000_0000 * 1000)
                by (nonlinear_arith)
                requires
                    0 <= i <= 0x2_0000_0000 && 0 <= j <= 0x2_0000_0000 && 1 <= res <= 1000,
            ;
            vstd::arithmetic::div_mod::lemma_div_pos_is_pos(i, 10);
            assert(i / 10 < partsv.len()) by {
                crate::grid::lemma_ceil_div_props(segments_i, 10);
                assert(10 * (i / 10) <= i) by {
                    vstd::arithmetic::div_mod::lemma_fundamental_div_mod(i, 10);
                    vstd::arithmetic::div_mod::lemma_mod_division_less_than_divisor(i, 10);
                };
                assert(i / 10 < crate::grid::chunk_count(segments_i)) by (nonlinear_arith)
                    requires
                        10 * (i / 10) <= i && i < segments_i && segments_i <= 10
                            * crate::grid::chunk_count(segments_i),
                ;
            };
            assert(partsv[i / 10] =~~= partss[i / 10]);
        };
    };
    assert forall|i: int, j: int|
        0 <= i < segments_i && 0 <= j < rows_i implies bottom <= (
    #[trigger] hm_fresh_spec[i][j]).z <= 0 by {
        vstd::arithmetic::div_mod::lemma_div_pos_is_pos(i, 10);
        assert(i / 10 < partss.len()) by {
            crate::grid::lemma_ceil_div_props(segments_i, 10);
            assert(10 * (i / 10) <= i) by {
                vstd::arithmetic::div_mod::lemma_fundamental_div_mod(i, 10);
                vstd::arithmetic::div_mod::lemma_mod_division_less_than_divisor(i, 10);
            };
            assert(i / 10 < crate::grid::chunk_count(segments_i)) by (nonlinear_arith)
                requires
                    10 * (i / 10) <= i && i < segments_i && segments_i <= 10
                        * crate::grid::chunk_count(segments_i),
            ;
        };
        assert forall|ti: int|
            0 <= ti < partss[i / 10].len() implies bottom <= (
        #[trigger] partss[i / 10][ti]).a.z <= 0 && bottom <= partss[i / 10][ti].b.z <= 0 && bottom
            <= partss[i / 10][ti].c.z <= 0 by {
            crate::partition::lemma_filter_elt(
                trisv,
                |t: Triangle|
                    crate::partition::tri_hits_box(
                        t,
                        crate::grid::chunk_box(nbs, res as int, c.diameter as int / 2, segments_i, i / 10),
                    ),
                ti,
            );
            assert(partss[i / 10] == trisv.filter(
                |t: Triangle|
                    crate::partition::tri_hits_box(
                        t,
                        crate::grid::chunk_box(nbs, res as int, c.diameter as int / 2, segments_i, i / 10),
                    ),
            ));
            let w = choose|wi: int| 0 <= wi < trisv.len() && trisv[wi] == partss[i / 10][ti];
            assert(crate::geom::tri_within(trisv[w], nbs));
        };
        crate::heightmap::lemma_drop_z_bounds(
            partss[i / 10],
            i * res,
            j * res,
            bottom as int,
            bottom as int,
            0,
        );
    };
    assert forall|i: int, j: int|
        0 <= i < hmv.len() && 0 <= j < hmv[i].len() implies crate::codec::point_ok(
        #[trigger] hmv[i][j],
    ) by {
        assert(hmv[i][j] == hm_fresh_spec[i][j]);
        assert(0 <= i * res <= 0x2_0000_0000 * 1000 && 0 <= j * res <= 0x2_0000_0000 * 1000)
            by (nonlinear_arith)
            requires
                0 <= i <= 0x2_0000_0000 && 0 <= j <= 0x2_0000_0000 && 1 <= res <= 1000,
        ;
    };
}

/// Read, normalize and ray-cast: from STL bytes and settings to the
/// fresh height map, the grid shape, and the stock floor.
#[verifier::rlimit(100)]
#[verifier::spinoff_prover]
fn compute_fresh(stl_bytes: &Vec<u8>, c: &Config) -> (r: Result<
    (Vec<Vec<Point3>>, usize, usize, i64),
    RunError,
>)
    requires
        config_ok(*c),
    ensures
        r is Ok <==> (crate::stl::stl_ok(stl_bytes@) && crate::stl::stl_mesh(stl_bytes@).len()
            > 0),
        r == (if !crate::stl::stl_ok(stl_bytes@) {
            Result::<(Vec<Vec<Point3>>, usize, usize, i64), RunError>::Err(RunError::BadStl)
        } else if crate::stl::stl_mesh(stl_bytes@).len() == 0 {
            Result::<(Vec<Vec<Point3>>, usize, usize, i64), RunError>::Err(RunError::EmptyMesh)
        } else {
            r
        }),
        r matches Result::Ok(out) ==> ({
            let b = stl_bytes@;
            &&& view2(out.0) == m_hm_fresh(b, *c)
            &&& out.1 as int == m_segments(b, *c)
            &&& out.2 as int == m_rows(b, *c)
            &&& out.3 == m_nb(b).p1.z
            &&& 1 <= out.1 <= 0x8000_0000
            &&& 1 <= out.2 <= 0x8000_0000
            &&& -2 * crate::geom::COORD_LIMIT <= out.3 <= 0
            &&& crate::layers::shape_ok(view2(out.0), out.1 as int, out.2 as int)
            &&& crate::layers::map_z_in(view2(out.0), out.3 as int, 0)
            &&& (forall|i: int, j: int|
                0 <= i < out.0@.len() && 0 <= j < out.0@[i]@.len() ==> crate::codec::point_ok(
                    #[trigger] out.0@[i]@[j],
                ))
        }),
{
    let ghost bseq = stl_bytes@;
    let mut tris = match crate::stl::stl_to_tri(stl_bytes) {
        Result::Ok(t) => t,
        Result::Err(_) => {
            return Err(RunError::BadStl);
        },
    };
    if tris.len() == 0 {
        return Err(RunError::EmptyMesh);
    }
    let ghost mesh0 = crate::stl::stl_mesh(bseq);
    proof {
        crate::stl::lemma_stl_mesh_range(bseq);
    }
    let b_exec = crate::geom::get_bounds(&tris);
    let ghost b0 = m_b0(bseq);
    proof {
        crate::geom::lemma_bounds_unique(mesh0, b0, b_exec);
    }
    crate::geom::move_to_zero(&mut tris);
    let nb = crate::geom::get_bounds(&tris);
    let ghost nbs = m_nb(bseq);
    proof {
        crate::geom::lemma_bounds_unique(tris@, nb, nbs);
        crate::geom::lemma_bounds_in_range(mesh0, b0, crate::geom::COORD_LIMIT as int);
        assert(crate::grid::normalized_bounds(nbs));
    }
    let res = c.resolution;
    let radius = c.diameter / 2;
    let grid = crate::grid::generate_grid(&nb, res);
    let columns = crate::grid::generate_columns_chunks(&nb, res, radius);
    let parts = crate::partition::partition_tris(&tris, &columns);
    let ghost segments_i = m_segments(bseq, *c);
    let ghost rows_i = m_rows(bseq, *c);
    let segments = grid.len();
    let rows = grid[0].len();
    let bottom = nb.p1.z;
    proof {
        assert(segments == segments_i);
        assert(rows == rows_i);
        assert(1 <= segments_i <= nbs.p2.x + 1) by {
            vstd::arithmetic::div_mod::lemma_div_pos_is_pos(nbs.p2.x as int, res as int);
            vstd::arithmetic::div_mod::lemma_div_nonincreasing(nbs.p2.x as int, res as int);
        };
        assert(1 <= rows_i <= nbs.p2.y + 1) by {
            vstd::arithmetic::div_mod::lemma_div_pos_is_pos(nbs.p2.y as int, res as int);
            vstd::arithmetic::div_mod::lemma_div_nonincreasing(nbs.p2.y as int, res as int);
        };
    }
    let hm_fresh = {
        proof {
            assert(tris@ =~~= m_mesh(bseq));
            lemma_heightmap_pre(
                bseq,
                *c,
                tris@,
                view2(grid),
                columns@,
                Seq::new(parts@.len() as nat, |ci: int| parts@[ci]@),
            );
            assert forall|i: int, j: int|
                0 <= i < grid@.len() && 0 <= j < grid@[i]@.len() implies crate::geom::pt_in_range(
                #[trigger] grid@[i]@[j],
                crate::heightmap::GEO_LIMIT as int,
            ) by {
                assert(view2(grid)[i][j] == grid@[i]@[j]);
            };
            assert forall|ci: int| 0 <= ci < parts@.len() implies crate::geom::mesh_in_range(
                (#[trigger] parts@[ci])@,
                crate::heightmap::GEO_LIMIT as int,
            ) by {
                assert(Seq::new(parts@.len() as nat, |c2: int| parts@[c2]@)[ci] == parts@[ci]@);
            };
        }
        crate::heightmap::generate_heightmap(&grid, &parts, bottom)
    };
    proof {
        assert(tris@ =~~= m_mesh(bseq));
        lemma_fresh_hm_glue(
            bseq,
            *c,
            tris@,
            view2(grid),
            columns@,
            Seq::new(parts@.len() as nat, |ci: int| parts@[ci]@),
            view2(hm_fresh),
        );
        assert(crate::layers::map_z_in(view2(hm_fresh), bottom as int, 0));
        assert forall|i: int, j: int|
            0 <= i < hm_fresh@.len() && 0 <= j < hm_fresh@[i]@.len()
                implies crate::codec::point_ok(#[trigger] hm_fresh@[i]@[j]) by {
            assert(hm_fresh@[i]@[j] == view2(hm_fresh)[i][j]);
        };
    }
    Ok((hm_fresh, segments, rows, bottom))
}

/// One full run: STL bytes and settings in, G-code and serialized maps
/// out. Fails fast on bad settings, a malformed STL, or an empty mesh;
/// a supplied cache that does not fit the grid is silently recomputed.
#[verifier::rlimit(100)]
#[verifier::spinoff_prover]
pub fn run_pipeline(
    stl_bytes: &Vec<u8>,
    c: &Config,
    hm_cache: Option<Vec<u8>>,
    rm_cache: Option<Vec<u8>>,
) -> (r: Result<RunOutput, RunError>)
    ensures
        r is Err ==> (!config_ok(*c) || !crate::stl::stl_ok(stl_bytes@) || crate::stl::stl_mesh(
            stl_bytes@,
        ).len() == 0),
        r is Ok ==> config_ok(*c) && crate::stl::stl_ok(stl_bytes@) && crate::stl::stl_mesh(
            stl_bytes@,
        ).len() > 0,
        r matches Result::Ok(out) ==> ({
            let model = run_model(
                stl_bytes@,
                *c,
                match hm_cache {
                    Option::None => Option::None,
                    Option::Some(hb) => Option::Some(hb@),
                },
                match rm_cache {
                    Option::None => Option::None,
                    Option::Some(rb) => Option::Some(rb@),
                },
            );
            &&& out.gcode@ == model.0
            &&& out.height_map@ == model.1
            &&& out.rest_map@ == model.2
            &&& out.layer_count as int == model.3
            &&& out.heightmap_reused == model.4
            &&& out.restmap_reused == model.5
        }),
        r == (if !config_ok(*c) {
            Result::<RunOutput, RunError>::Err(RunError::BadConfig)
        } else if !crate::stl::stl_ok(stl_bytes@) {
            Result::<RunOutput, RunError>::Err(RunError::BadStl)
        } else if crate::stl::stl_mesh(stl_bytes@).len() == 0 {
            Result::<RunOutput, RunError>::Err(RunError::EmptyMesh)
        } else {
            r
        }),
{
    let ghost bseq = stl_bytes@;
    if validate_config(c).is_err() {
        return Err(RunError::BadConfig);
    }
    let (hm_fresh, segments, rows, bottom) = match compute_fresh(stl_bytes, c) {
        Result::Ok(t) => t,
        Result::Err(e) => {
            return Err(e);
        },
    };
    let res = c.resolution;
    let radius = c.diameter / 2;
    let ghost segments_i = m_segments(bseq, *c);
    let ghost rows_i = m_rows(bseq, *c);
    let ghost hmc_spec: Option<Seq<u8>> = (match hm_cache {
        Option::None => Option::None,
        Option::Some(ref hb) => Option::Some(hb@),
    });
    let ghost rmc_spec: Option<Seq<u8>> = (match rm_cache {
        Option::None => Option::None,
        Option::Some(ref rb) => Option::Some(rb@),
    });
    let ghost model = run_model(bseq, *c, hmc_spec, rmc_spec);
    let (hm, hm_reused): (Vec<Vec<Point3>>, bool) = match hm_cache {
        Option::None => (hm_fresh, false),
        Option::Some(hb) => match crate::codec::decode_map(&hb) {
            Option::Some(m) => {
                if map_fits(&m, segments, rows) {
                    (m, true)
                } else {
                    (hm_fresh, false)
                }
            },
            Option::None => (hm_fresh, false),
        },
    };
    let ghost hms = m_hm(bseq, *c, hmc_spec);
    proof {
        assert(hm_reused == m_hm_reused(bseq, *c, hmc_spec));
        assert(view2(hm) =~~= hms);
        assert(crate::layers::shape_ok(view2(hm), segments_i, rows_i));
        assert(crate::layers::map_z_in(view2(hm), -crate::layers::Z_LIMIT as int, 0));
        assert forall|i: int, j: int|
            0 <= i < hm@.len() && 0 <= j < hm@[i]@.len() implies crate::codec::point_ok(
            #[trigger] hm@[i]@[j],
        ) by {
            assert(hm@[i]@[j] == view2(hm)[i][j]);
        };
    }
    let rest_fresh = crate::heightmap::generate_rest_map(&hm);
    let (rest, rm_reused): (Vec<Vec<Point3>>, bool) = match rm_cache {
        Option::None => (rest_fresh, false),
        Option::Some(rb) => match crate::codec::decode_map(&rb) {
            Option::Some(m) => {
                if map_fits(&m, segments, rows) {
                    (m, true)
                } else {
                    (rest_fresh, false)
                }
            },
            Option::None => (rest_fresh, false),
        },
    };
    let ghost rests = m_rest(bseq, *c, hmc_spec, rmc_spec);
    proof {
        assert(rm_reused == m_rest_reused(bseq, *c, rmc_spec));
        assert(view2(rest) =~~= rests);
        assert(crate::layers::shape_ok(view2(rest), segments_i, rows_i));
        assert(crate::layers::map_z_in(view2(rest), -crate::layers::Z_LIMIT as int, 0));
    }
    let tool = c.kind.create(c.diameter, c.slope_ppm, res);
    let d: i64 = match c.stepdown {
        Option::Some(dd) => dd,
        Option::None => -bottom,
    };
    let cap: u64 = if d == 0 {
        1
    } else {
        crate::grid::div_ceil_u64((-bottom) as u64, d as u64) + 1
    };
    proof {
        assert(2 <= c.diameter as int * c.stepover as int <= 100_000_000) by (nonlinear_arith)
            requires
                2 <= c.diameter <= 1_000_000 && 1 <= c.stepover <= 100,
        ;
    }
    let first_i = crate::grid::div_floor(radius, res);
    let k_i = crate::grid::div_ceil(c.diameter * c.stepover, 100 * res);
    proof {
        vstd::arithmetic::div_mod::lemma_div_pos_is_pos(radius as int, res as int);
        vstd::arithmetic::div_mod::lemma_div_nonincreasing(radius as int, res as int);
        crate::grid::lemma_ceil_div_props(c.diameter as int * c.stepover as int, 100 * res as int);
        assert(1 <= k_i <= 1_000_000) by (nonlinear_arith)
            requires
                k_i == ceil_div(c.diameter as int * c.stepover as int, 100 * (res as int)) && 2
                    <= c.diameter as int * c.stepover as int <= 100_000_000 && 100 <= 100 * (
                res as int) <= 100_000 && (100 * (res as int)) * (k_i - 1) < c.diameter as int
                    * c.stepover as int <= (100 * (res as int)) * k_i,
        ;
        assert(d as int == m_d(bseq, *c));
        assert(cap as int == m_cap(bseq, *c));
    }
    let first = first_i as usize;
    let k = k_i as usize;
    let (layer_vecs, final_stock) = crate::layers::generate_layers(
        &hm,
        rest,
        &tool,
        res,
        d,
        segments,
        rows,
        first,
        k,
        cap,
    );
    let ghost run = m_run(bseq, *c, hmc_spec, rmc_spec);
    proof {
        assert(tool.points@ == m_pts(*c));
        assert(run == crate::layers::run_layers(
            hms,
            rests,
            tool.points@,
            res as int,
            segments_i,
            rows_i,
            first as int,
            k as int,
            d as int,
            cap as nat,
            false,
        ));
        assert(crate::layers::view3(layer_vecs) == run.0);
        assert(view2(final_stock) == run.1);
        crate::layers::lemma_run_layers_wf(
            hms,
            rests,
            tool.points@,
            res as int,
            segments_i,
            rows_i,
            first as int,
            k as int,
            d as int,
            cap as nat,
            false,
        );
    }
    proof {
        assert forall|i: int, j: int|
            0 <= i < final_stock@.len() && 0 <= j < final_stock@[i]@.len()
                implies crate::codec::point_ok(#[trigger] final_stock@[i]@[j]) by {
            assert(final_stock@[i]@[j] == view2(final_stock)[i][j]);
            assert(view2(final_stock)[i][j].x == rests[i][j].x && view2(final_stock)[i][j].y
                == rests[i][j].y);
            assert(crate::codec::point_ok(rest@[i]@[j]));
            assert(rest@[i]@[j] == rests[i][j]);
        };
        assert forall|i: int| 0 <= i < hm@.len() implies (#[trigger] hm@[i])@.len()
            == hm@[0]@.len() by {
            assert(view2(hm)[i] == hm@[i]@);
            assert(view2(hm)[0] == hm@[0]@);
            assert(view2(hm)[i].len() == rows_i && view2(hm)[0].len() == rows_i);
        };
        assert forall|i: int| 0 <= i < final_stock@.len() implies (
        #[trigger] final_stock@[i])@.len() == final_stock@[0]@.len() by {
            assert(view2(final_stock)[i] == final_stock@[i]@);
            assert(view2(final_stock)[0] == final_stock@[0]@);
            assert(view2(final_stock)[i].len() == rows_i && view2(final_stock)[0].len()
                == rows_i);
        };
    }
    let height_map = crate::codec::encode_map(&hm);
    let rest_map = crate::codec::encode_map(&final_stock);
    let radq = crate::grid::div_ceil(c.diameter, res);
    proof {
        assert(0 <= radq * res <= 2_000_000 && (radq * res) as int == m_rad(*c)) by {
            crate::grid::lemma_ceil_div_props(c.diameter as int, res as int);
            assert(0 <= ceil_div(c.diameter as int, res as int) * (res as int) && ceil_div(
                c.diameter as int,
                res as int,
            ) * (res as int) <= 2_000_000) by (nonlinear_arith)
                requires
                    1 <= res <= 1000 && 2 <= c.diameter <= 1_000_000 && (res as int) * (ceil_div(
                        c.diameter as int,
                        res as int,
                    ) - 1) < c.diameter as int <= (res as int) * ceil_div(
                        c.diameter as int,
                        res as int,
                    ),
            ;
        };
    }
    let rad = radq * res;
    proof {
        assert(0 <= rad <= crate::codec::CODE_LIMIT && rad as int == m_rad(*c));
        assert forall|l2: int|
            0 <= l2 < layer_vecs@.len() implies crate::layers::layer_vals_ok(
            #[trigger] crate::layers::view3(layer_vecs)[l2],
        ) by {
            assert(crate::layers::view3(layer_vecs)[l2] == run.0[l2]);
        };
    }
    let gcode = gcode_of_layers(&layer_vecs, rad, c.diameter);
    let layer_count = layer_vecs.len();
    proof {
        assert(gcode@ == model.0);
        assert(height_map@ == model.1);
        assert(rest_map@ == model.2);
        assert(layer_count as int == model.3);
    }
    Ok(RunOutput {
        gcode,
        height_map,
        rest_map,
        layer_count,
        heightmap_reused: hm_reused,
        restmap_reused: rm_reused,
    })
}


/// Running the engine twice on the same inputs yields the same outputs,
/// byte for byte: the run is a mathematical function of the STL bytes,
/// the settings, and the caches.
pub proof fn lemma_run_deterministic(
    b: Seq<u8>,
    c: Config,
    hmc: Option<Seq<u8>>,
    rmc: Option<Seq<u8>>,
    first_run: (Seq<u8>, Seq<u8>, Seq<u8>, int, bool, bool),
    second_run: (Seq<u8>, Seq<u8>, Seq<u8>, int, bool, bool),
)
    requires
        first_run == run_model(b, c, hmc, rmc),
        second_run == run_model(b, c, hmc, rmc),
    ensures
        first_run == second_run,
        first_run.0 == second_run.0,
{
}

} // verus!
