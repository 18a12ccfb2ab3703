use chisel::fields::Plane;
use chisel::generic::GenericNode;
use chisel::geometry::{planes_to_sides, side_to_triangles, solid_planes, Point3, StandardPlane, Vertex};
use chisel::vmf::Vmf;

fn p(x: i64, y: i64, z: i64) -> Point3 {
    Point3 { x, y, z }
}

fn plane(a: Point3, b: Point3, c: Point3) -> StandardPlane {
    StandardPlane::from_points(&a, &b, &c)
}

fn coords(v: &Vertex) -> (f64, f64, f64) {
    assert!(v.w > 0);
    (v.x as f64 / v.w as f64, v.y as f64 / v.w as f64, v.z as f64 / v.w as f64)
}

fn unit_cube() -> Vec<StandardPlane> {
    vec![
        plane(p(0, 0, 0), p(0, 1, 0), p(0, 0, 1)),
        plane(p(1, 0, 0), p(1, 0, 1), p(1, 1, 0)),
        plane(p(0, 0, 0), p(0, 0, 1), p(1, 0, 0)),
        plane(p(0, 1, 0), p(1, 1, 0), p(0, 1, 1)),
        plane(p(0, 0, 0), p(1, 0, 0), p(0, 1, 0)),
        plane(p(0, 0, 1), p(0, 1, 1), p(1, 0, 1)),
    ]
}

#[test]
fn plane_equation() {
    let (a, b, c) = (p(3, -2, 7), p(10, 4, -1), p(-5, 8, 2));
    let s = plane(a, b, c);
    assert_eq!((s.nx, s.ny, s.nz), (50, 99, 118));
    let dot = |q: Point3| s.nx * q.x as i128 + s.ny * q.y as i128 + s.nz * q.z as i128;
    assert_eq!(s.d, dot(a));
    assert_eq!(s.d, dot(b));
    assert_eq!(s.d, dot(c));
    let along = |q: Point3| {
        s.nx * (q.x - a.x) as i128 + s.ny * (q.y - a.y) as i128 + s.nz * (q.z - a.z) as i128
    };
    assert_eq!(along(b), 0);
    assert_eq!(along(c), 0);
}

#[test]
fn unique_intersection() {
    let x0 = plane(p(0, 0, 0), p(0, 1, 0), p(0, 0, 1));
    let y0 = plane(p(0, 0, 0), p(0, 0, 1), p(1, 0, 0));
    let z0 = plane(p(0, 0, 0), p(1, 0, 0), p(0, 1, 0));
    let v = x0.intersection_point(&y0, &z0).unwrap();
    assert_eq!((v.x, v.y, v.z), (0, 0, 0));
    assert!(v.w > 0);
}

#[test]
fn intersection_off_origin() {
    let x2 = plane(p(2, 0, 0), p(2, 1, 0), p(2, 0, 1));
    let y3 = plane(p(0, 3, 0), p(0, 3, 1), p(1, 3, 0));
    let z5 = plane(p(0, 0, 5), p(1, 0, 5), p(0, 1, 5));
    let v = x2.intersection_point(&y3, &z5).unwrap();
    assert_eq!(coords(&v), (2.0, 3.0, 5.0));
}

#[test]
fn degenerate_triple() {
    let a = plane(p(0, 0, 0), p(1, 0, 0), p(0, 1, 0));
    let b = plane(p(0, 0, 1), p(1, 0, 1), p(0, 1, 1));
    let c = plane(p(0, 0, 2), p(1, 0, 2), p(0, 1, 2));
    assert_eq!((a.nx, a.ny, a.nz), (b.nx, b.ny, b.nz));
    assert_eq!((b.nx, b.ny, b.nz), (c.nx, c.ny, c.nz));
    assert_ne!(a.d, b.d);
    assert!(a.intersection_point(&b, &c).is_none());
}

#[test]
fn cube_reconstruction() {
    let sides = planes_to_sides(&unit_cube());
    assert_eq!(sides.len(), 6);
    let mut corners: Vec<(f64, f64, f64)> = Vec::new();
    for side in &sides {
        assert_eq!(side.len(), 4);
        for v in side {
            let c = coords(v);
            if !corners.contains(&c) {
                corners.push(c);
            }
        }
    }
    assert_eq!(corners.len(), 8);
    for x in [0.0, 1.0] {
        for y in [0.0, 1.0] {
            for z in [0.0, 1.0] {
                assert!(corners.contains(&(x, y, z)));
            }
        }
    }
}

#[test]
fn cube_face_order() {
    let sides = planes_to_sides(&unit_cube());
    let first: Vec<(f64, f64, f64)> = sides[0].iter().map(coords).collect();
    assert_eq!(first, vec![(0.0, 0.0, 0.0), (0.0, 0.0, 1.0), (0.0, 1.0, 1.0), (0.0, 1.0, 0.0)]);
}

#[test]
fn insufficient_planes() {
    let cube = unit_cube();
    assert!(planes_to_sides(&cube[..3]).is_empty());
    assert!(planes_to_sides(&[]).is_empty());
}

#[test]
fn fan_triangles() {
    assert_eq!(side_to_triangles(4), vec![(2, 1, 0), (3, 2, 0)]);
    assert!(side_to_triangles(2).is_empty());
}

#[test]
fn plane_from_document_swaps_axes() {
    let plane = Plane::parse("(0 0 0) (0 1 0) (1 0 0)").unwrap();
    let s = StandardPlane::new(&plane).unwrap();
    assert_eq!(s, StandardPlane::from_points(&p(0, 0, 0), &p(0, 0, 1), &p(1, 0, 0)));
    let fractional = Plane::parse("(0.5 0 0) (0 1 0) (1 0 0)").unwrap();
    let s = StandardPlane::new(&fractional).unwrap();
    let b = StandardPlane::from_points(&p(5, 0, 0), &p(0, 0, 10), &p(10, 0, 0));
    assert_eq!(s, StandardPlane { nx: b.nx * 10, ny: b.ny * 10, nz: b.nz * 10, d: b.d });
    for (x, y, z) in [(0.5, 0.0, 0.0), (0.0, 0.0, 1.0), (1.0, 0.0, 0.0)] {
        assert_eq!(s.nx as f64 * x + s.ny as f64 * y + s.nz as f64 * z, s.d as f64);
    }
    let out_of_range = Plane::parse("(100000 0 0) (0 1 0) (1 0 0)").unwrap();
    assert!(StandardPlane::new(&out_of_range).is_none());
}

#[test]
fn cube_solid_from_text() {
    let mut text = String::from("versioninfo\n{\n\"editorversion\" \"400\"\n\"editorbuild\" \"8000\"\n\"mapversion\" \"1\"\n\"formatversion\" \"100\"\n\"prefab\" \"0\"\n}\nworld\n{\n\"id\" \"1\"\nsolid\n{\n\"id\" \"7\"\n");
    let planes = [
        "(0 0 0) (0 0 64.5) (0 64 0)",
        "(64 0 0) (64 64 0) (64 0 64)",
        "(0 0 0) (64 0 0) (0 0 64)",
        "(0 64 0) (0 64 64) (64 64 0)",
        "(0 0 0) (0 64 0) (64 0 0)",
        "(0 0 64) (64 0 64) (0 64 64)",
    ];
    for (i, pl) in planes.iter().enumerate() {
        text += &format!(
            "side\n{{\n\"id\" \"{}\"\n\"plane\" \"{}\"\n\"material\" \"DEV/GRID\"\n\"uaxis\" \"[1 0 0 0] 0.25\"\n\"vaxis\" \"[0 -1 0 0] 0.25\"\n\"rotation\" \"0\"\n\"lightmapscale\" \"16\"\n\"smoothing_groups\" \"0\"\n}}\n",
            i + 1,
            pl
        );
    }
    text += "}\n}\n";
    let vmf = Vmf::parse(GenericNode::parse(&text).unwrap()).unwrap();
    assert_eq!(vmf.world.solids.len(), 1);
    let planes = solid_planes(&vmf.world.solids[0]).unwrap();
    assert_eq!(planes.len(), 6);
    let faces = planes_to_sides(&planes);
    assert_eq!(faces.len(), 6);
    assert!(faces.iter().all(|f| f.len() == 4));
}

#[test]
fn decimal_cube_faces() {
    let planes: Vec<StandardPlane> = [
        "(0 0 0) (0 0 0.5) (0 0.5 0)",
        "(0.5 0 0) (0.5 0.5 0) (0.5 0 0.5)",
        "(0 0 0) (0.5 0 0) (0 0 0.5)",
        "(0 0.5 0) (0 0.5 0.5) (0.5 0.5 0)",
        "(0 0 0) (0 0.5 0) (0.5 0 0)",
        "(0 0 0.5) (0.5 0 0.5) (0 0.5 0.5)",
    ]
    .iter()
    .map(|t| StandardPlane::new(&Plane::parse(t).unwrap()).unwrap())
    .collect();
    let faces = planes_to_sides(&planes);
    assert_eq!(faces.len(), 6);
    for face in &faces {
        assert_eq!(face.len(), 4);
        for v in face {
            let (x, y, z) = coords(v);
            for c in [x, y, z] {
                assert!(c == 0.0 || c == 0.5);
            }
        }
    }
}

#[test]
fn side_without_plane_is_reported() {
    let text = "solid\n{\n\"id\" \"3\"\nside\n{\n\"id\" \"9\"\n\"plane\" \"(0 0 0) (0 100000 0) (1 0 0)\"\n\"material\" \"M\"\n\"uaxis\" \"[1 0 0 0] 0.25\"\n\"vaxis\" \"[0 -1 0 0] 0.25\"\n\"rotation\" \"0\"\n\"lightmapscale\" \"16\"\n\"smoothing_groups\" \"0\"\n}\n}\n";
    let mut top = GenericNode::parse(text).unwrap();
    let solid = chisel::vmf::Solid::parse(top.take_children("solid").unwrap().pop().unwrap()).unwrap();
    assert_eq!(solid_planes(&solid).unwrap_err(), 9);
}
