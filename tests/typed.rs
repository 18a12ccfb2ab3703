use chisel::error::Error;
use chisel::fields::{Deserializer, Plane, UV};
use chisel::generic::GenericNode;
use chisel::num::{parse_u32, u32_text, Num};
use chisel::vmf::{Side, Solid, VersionInfo, Vmf, World};

fn chars(s: &str) -> Vec<char> {
    s.chars().collect()
}

fn text(v: Vec<char>) -> String {
    v.into_iter().collect()
}

const SIDE_1: &str = "side\n{\n\"id\" \"1\"\n\"plane\" \"(0 0 0) (0 64 0) (64 0 0)\"\n\"material\" \"TOOLS/NODRAW\"\n\"uaxis\" \"[1 0 0 0] 0.25\"\n\"vaxis\" \"[0 -1 0 0] 0.25\"\n\"rotation\" \"0\"\n\"lightmapscale\" \"16\"\n\"smoothing_groups\" \"0\"\n\"extra\" \"kept\"\n}\n";
const SIDE_2: &str = "side\n{\n\"id\" \"2\"\n\"plane\" \"(0 0 64) (64 0 64) (0 64 64)\"\n\"material\" \"TOOLS/NODRAW\"\n\"uaxis\" \"[1 0 0 0] 0.25\"\n\"vaxis\" \"[0 -1 0 0] 0.25\"\n\"rotation\" \"0\"\n\"lightmapscale\" \"16\"\n\"smoothing_groups\" \"0\"\n}\n";

fn solid_node() -> GenericNode {
    let doc = format!("solid\n{{\n\"id\" \"5\"\n{}{}editor\n{{\n\"color\" \"0 255 0\"\n}}\n}}\n", SIDE_1, SIDE_2);
    let mut top = GenericNode::parse(&doc).unwrap();
    top.take_children("solid").unwrap().pop().unwrap()
}

#[test]
fn repeated_side_blocks_as_entities() {
    let solid = Solid::parse(solid_node()).unwrap();
    assert_eq!(solid.id, 5);
    assert_eq!(solid.sides.len(), 2);
    assert_eq!(solid.sides[0].id, 1);
    assert_eq!(solid.sides[1].id, 2);
    assert_eq!(solid.rest.children_nodes[0].0, "editor");
}

#[test]
fn side_fields() {
    let mut top = GenericNode::parse(SIDE_1).unwrap();
    let node = top.take_children("side").unwrap().pop().unwrap();
    let side = Side::parse(node).unwrap();
    assert_eq!(side.material, "TOOLS/NODRAW");
    assert_eq!(side.u_axis, UV([Num::whole(1), Num::whole(0), Num::whole(0), Num::whole(0)], Num { mantissa: 25, scale: 2 }));
    assert_eq!(side.v_axis.0[1], Num::whole(-1));
    assert_eq!(side.lightmap_scale, 16);
    assert_eq!(side.plane.points[1].y, Num::whole(64));
    assert_eq!(side.rest.key_value_pairs, vec![("extra".to_string(), vec!["kept".to_string()])]);
}

#[test]
fn side_written_back() {
    let mut top = GenericNode::parse(SIDE_1).unwrap();
    let node = top.take_children("side").unwrap().pop().unwrap();
    let side = Side::parse(node).unwrap();
    let g = side.as_generic();
    assert_eq!(g.get_value("extra"), "kept");
    assert_eq!(g.get_value("id"), "1");
    assert_eq!(g.get_value("plane"), "(0 0 0) (0 64 0) (64 0 0)");
    assert_eq!(g.get_value("uaxis"), "[1 0 0 0] 0.25");
    assert_eq!(g.get_value("vaxis"), "[0 -1 0 0] 0.25");
    assert_eq!(g.get_value("lightmapscale"), "16");
    let again = Side::parse(g).unwrap();
    assert_eq!(again.plane, side.plane);
    assert_eq!(again.u_axis, side.u_axis);
}

#[test]
fn missing_field() {
    let mut g = GenericNode::new();
    g.set_value("id", "3");
    assert_eq!(Side::parse(g).unwrap_err(), Error::MissingField("plane".to_string()));
    let mut s = GenericNode::new();
    s.set_value("id", "3");
    assert_eq!(Solid::parse(s).unwrap_err(), Error::MissingField("side".to_string()));
    assert_eq!(World::parse(GenericNode::new()).unwrap_err(), Error::MissingField("solid".to_string()));
    assert_eq!(Vmf::parse(GenericNode::new()).unwrap_err(), Error::MissingField("versioninfo".to_string()));
}

#[test]
fn malformed_field() {
    let mut g = GenericNode::new();
    g.set_value("id", "x3");
    assert_eq!(Side::parse(g).unwrap_err(), Error::FieldParseError("id".to_string()));
    let mut g = GenericNode::new();
    g.set_value("id", "3");
    g.set_value("plane", "(0 0 0) (1 1)");
    assert_eq!(Side::parse(g).unwrap_err(), Error::FieldParseError("plane".to_string()));
}

#[test]
fn version_info_round_trip() {
    let g = GenericNode::parse("\"editorversion\" \"400\" \"editorbuild\" \"8000\" \"mapversion\" \"3\" \"formatversion\" \"100\" \"prefab\" \"0\"").unwrap();
    let v = VersionInfo::parse(g).unwrap();
    assert_eq!(v, VersionInfo { editor_version: 400, editor_build: 8000, map_version: 3, format_version: 100, prefab: 0 });
    let back = v.as_generic();
    assert_eq!(back.to_string(), "\"editorversion\" \"400\"\r\n\"editorbuild\" \"8000\"\r\n\"mapversion\" \"3\"\r\n\"formatversion\" \"100\"\r\n\"prefab\" \"0\"\r\n");
}

#[test]
fn document_keeps_unknown_blocks() {
    let doc = format!("versioninfo\n{{\n\"editorversion\" \"400\"\n\"editorbuild\" \"1\"\n\"mapversion\" \"2\"\n\"formatversion\" \"100\"\n\"prefab\" \"0\"\n}}\ncameras\n{{\n\"activecamera\" \"-1\"\n}}\nworld\n{{\n\"id\" \"1\"\nsolid\n{{\n\"id\" \"5\"\n{}{}}}\n}}\n", SIDE_1, SIDE_2);
    let vmf = Vmf::parse(GenericNode::parse(&doc).unwrap()).unwrap();
    assert_eq!(vmf.version_info.editor_build, 1);
    assert_eq!(vmf.world.solids[0].sides.len(), 2);
    assert_eq!(vmf.rest.children_nodes[0].0, "cameras");
    let g = vmf.as_generic();
    let again = Vmf::parse(GenericNode::parse(&g.to_string()).unwrap()).unwrap();
    assert_eq!(again.world.solids[0].sides[1].id, 2);
    assert_eq!(again.world.rest.get_value("id"), "1");
}

#[test]
fn numbers() {
    assert_eq!(Num::parse(&chars("0.25")), Some(Num { mantissa: 25, scale: 2 }));
    assert_eq!(Num::parse(&chars("-0.05")), Some(Num { mantissa: -5, scale: 2 }));
    assert_eq!(Num::parse(&chars("128")), Some(Num::whole(128)));
    assert_eq!(Num::parse(&chars("1e5")), None);
    assert_eq!(Num::parse(&chars("1.")), None);
    assert_eq!(Num::parse(&chars("")), None);
    assert_eq!(Num::parse(&chars("-")), None);
    assert_eq!(text(Num { mantissa: -5, scale: 2 }.to_text()), "-0.05");
    assert_eq!(text(Num { mantissa: 1250, scale: 1 }.to_text()), "125.0");
    assert_eq!(text(Num::whole(-64).to_text()), "-64");
}

#[test]
fn unsigned_numbers() {
    assert_eq!(parse_u32(&chars("4294967295")), Some(4294967295));
    assert_eq!(parse_u32(&chars("4294967296")), None);
    assert_eq!(parse_u32(&chars("")), None);
    assert_eq!(parse_u32(&chars("+1")), None);
    assert_eq!(text(u32_text(0)), "0");
    assert_eq!(text(u32_text(1907)), "1907");
}

#[test]
fn field_texts() {
    let p = Plane::parse("(1 2 3) (4.5 -6 7) (0 0 0) trailing").unwrap();
    assert_eq!(text(p.to_text()), "(1 2 3) (4.5 -6 7) (0 0 0)");
    let u = UV::parse("[0 1 0 -32.5]   0.5  ").unwrap();
    assert_eq!(text(u.to_text()), "[0 1 0 -32.5] 0.5");
    assert!(UV::parse("[0 1 0 0] 0.5 1").is_none());
    let mut de = Deserializer::from_str("ab:cd");
    assert_eq!(de.jump_past(':'), Some(vec!['a', 'b']));
    assert_eq!(de.jump_past(':'), None);
    assert_eq!(de.rest(), vec!['c', 'd']);
    assert_eq!(de.jump_past('d'), Some(vec!['c']));
}
