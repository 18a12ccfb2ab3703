//! Typed entities of a level document. Each takes from a generic node the
//! fields it models and keeps the rest of the node as it was, so that writing
//! the entity back gives every field it did not model unchanged.
use vstd::prelude::*;
use crate::error::Error;
use crate::fields::{plane_of, plane_text, uv_of, uv_text, Plane, UV};
use crate::generic::{
    find_entry, lemma_find_at, first_value, replace_entry, take_blocks, take_last_value, trees_view, GenericNode, Tree,
};
use crate::num::{
    decimal_text, lemma_decimal_round_trip, num_of, num_text, parse_u32, u32_of, u32_text, Num,
};
use crate::text::{chars_of, string_of};

verus! {

/// Why a typed entity could not be read, in terms of field names.
pub enum Fault {
    Missing(Seq<char>),
    Malformed(Seq<char>),
}

pub open spec fn fault_of(e: Error) -> Option<Fault> {
    match e {
        Error::MissingField(s) => Some(Fault::Missing(s@)),
        Error::FieldParseError(s) => Some(Fault::Malformed(s@)),
        _ => None,
    }
}

/// The last value of `k`, and the tree without `k`.
pub open spec fn text_field(t: Tree, k: Seq<char>) -> Result<(Seq<char>, Tree), Fault> {
    match take_last_value(t, k) {
        None => Err(Fault::Missing(k)),
        Some((v, r)) => Ok((v, r)),
    }
}

pub open spec fn u32_field(t: Tree, k: Seq<char>) -> Result<(u32, Tree), Fault> {
    match text_field(t, k) {
        Err(f) => Err(f),
        Ok((v, r)) => match u32_of(v) {
            None => Err(Fault::Malformed(k)),
            Some(n) => Ok((n, r)),
        },
    }
}

pub open spec fn num_field(t: Tree, k: Seq<char>) -> Result<(Num, Tree), Fault> {
    match text_field(t, k) {
        Err(f) => Err(f),
        Ok((v, r)) => match num_of(v) {
            None => Err(Fault::Malformed(k)),
            Some(n) => Ok((n, r)),
        },
    }
}

pub open spec fn plane_field(t: Tree, k: Seq<char>) -> Result<(Seq<crate::fields::Point>, Tree), Fault> {
    match text_field(t, k) {
        Err(f) => Err(f),
        Ok((v, r)) => match plane_of(v) {
            None => Err(Fault::Malformed(k)),
            Some(p) => Ok((p, r)),
        },
    }
}

pub open spec fn uv_field(t: Tree, k: Seq<char>) -> Result<((Seq<Num>, Num), Tree), Fault> {
    match text_field(t, k) {
        Err(f) => Err(f),
        Ok((v, r)) => match uv_of(v) {
            None => Err(Fault::Malformed(k)),
            Some(u) => Ok((u, r)),
        },
    }
}

/// What a [`Side`] holds.
pub struct SideView {
    pub id: u32,
    pub plane: Seq<crate::fields::Point>,
    pub material: Seq<char>,
    pub u_axis: (Seq<Num>, Num),
    pub v_axis: (Seq<Num>, Num),
    pub rotation: Num,
    pub lightmap_scale: u32,
    pub smoothing_groups: u32,
    pub rest: Tree,
}

/// The side that a `side` block holds.
#[verifier::opaque]
pub open spec fn side_of(t: Tree) -> Result<SideView, Fault> {
    match u32_field(t, "id"@) {
        Err(f) => Err(f),
        Ok((id, t1)) => match plane_field(t1, "plane"@) {
            Err(f) => Err(f),
            Ok((plane, t2)) => match text_field(t2, "material"@) {
                Err(f) => Err(f),
                Ok((material, t3)) => match uv_field(t3, "uaxis"@) {
                    Err(f) => Err(f),
                    Ok((u_axis, t4)) => match uv_field(t4, "vaxis"@) {
                        Err(f) => Err(f),
                        Ok((v_axis, t5)) => match num_field(t5, "rotation"@) {
                            Err(f) => Err(f),
                            Ok((rotation, t6)) => match u32_field(t6, "lightmapscale"@) {
                                Err(f) => Err(f),
                                Ok((lightmap_scale, t7)) => match u32_field(
                                    t7,
                                    "smoothing_groups"@,
                                ) {
                                    Err(f) => Err(f),
                                    Ok((smoothing_groups, rest)) => Ok(
                                        SideView {
                                            id,
                                            plane,
                                            material,
                                            u_axis,
                                            v_axis,
                                            rotation,
                                            lightmap_scale,
                                            smoothing_groups,
                                            rest,
                                        },
                                    ),
                                },
                            },
                        },
                    },
                },
            },
        },
    }
}

/// Sets the one value of `k`.
pub open spec fn with_value(t: Tree, k: Seq<char>, v: Seq<char>) -> Tree {
    Tree { pairs: replace_entry(t.pairs, k, seq![v]), ..t }
}

/// Sets the children named `name`.
pub open spec fn with_children(t: Tree, name: Seq<char>, cs: Seq<Tree>) -> Tree {
    Tree { blocks: replace_entry(t.blocks, name, cs), ..t }
}

/// The node that writes a side back: its remaining fields with its own.
#[verifier::opaque]
pub open spec fn side_tree(v: SideView) -> Tree {
    with_value(
        with_value(
            with_value(
                with_value(
                    with_value(
                        with_value(
                            with_value(
                                with_value(v.rest, "id"@, decimal_text(v.id as nat)),
                                "plane"@,
                                plane_text(v.plane),
                            ),
                            "material"@,
                            v.material,
                        ),
                        "uaxis"@,
                        uv_text(v.u_axis.0, v.u_axis.1),
                    ),
                    "vaxis"@,
                    uv_text(v.v_axis.0, v.v_axis.1),
                ),
                "rotation"@,
                num_text(v.rotation),
            ),
            "lightmapscale"@,
            decimal_text(v.lightmap_scale as nat),
        ),
        "smoothing_groups"@,
        decimal_text(v.smoothing_groups as nat),
    )
}

/// One bounding face of a solid.
#[derive(Debug)]
pub struct Side {
    pub id: u32,
    pub plane: Plane,
    pub material: String,
    pub u_axis: UV,
    pub v_axis: UV,
    pub rotation: Num,
    pub lightmap_scale: u32,
    pub smoothing_groups: u32,
    pub rest: GenericNode,
}

impl View for Side {
    type V = SideView;

    open spec fn view(&self) -> SideView {
        SideView {
            id: self.id,
            plane: self.plane.points@,
            material: self.material@,
            u_axis: (self.u_axis.0@, self.u_axis.1),
            v_axis: (self.v_axis.0@, self.v_axis.1),
            rotation: self.rotation,
            lightmap_scale: self.lightmap_scale,
            smoothing_groups: self.smoothing_groups,
            rest: self.rest@,
        }
    }
}

fn missing(k: &str) -> (e: Error)
    ensures
        fault_of(e) == Some(Fault::Missing(k@)),
{
    Error::MissingField(k.to_owned())
}

fn malformed(k: &str) -> (e: Error)
    ensures
        fault_of(e) == Some(Fault::Malformed(k@)),
{
    Error::FieldParseError(k.to_owned())
}

fn take_text(g: &mut GenericNode, k: &str) -> (r: Result<String, Error>)
    ensures
        match text_field(old(g)@, k@) {
            Ok((v, t)) => r matches Ok(s) && s@ == v && final(g)@ == t,
            Err(f) => r matches Err(e) && fault_of(e) == Some(f),
        },
{
    match g.take_value(k) {
        Some(s) => Ok(s),
        None => Err(missing(k)),
    }
}

fn take_u32(g: &mut GenericNode, k: &str) -> (r: Result<u32, Error>)
    ensures
        match u32_field(old(g)@, k@) {
            Ok((v, t)) => r == Ok::<u32, Error>(v) && final(g)@ == t,
            Err(f) => r matches Err(e) && fault_of(e) == Some(f),
        },
{
    let s = take_text(g, k)?;
    match parse_u32(&chars_of(s.as_str())) {
        Some(v) => Ok(v),
        None => Err(malformed(k)),
    }
}

fn take_num(g: &mut GenericNode, k: &str) -> (r: Result<Num, Error>)
    ensures
        match num_field(old(g)@, k@) {
            Ok((v, t)) => r == Ok::<Num, Error>(v) && final(g)@ == t && v.wf(),
            Err(f) => r matches Err(e) && fault_of(e) == Some(f),
        },
{
    let s = take_text(g, k)?;
    match Num::parse(&chars_of(s.as_str())) {
        Some(v) => Ok(v),
        None => Err(malformed(k)),
    }
}

fn take_plane(g: &mut GenericNode, k: &str) -> (r: Result<Plane, Error>)
    ensures
        match plane_field(old(g)@, k@) {
            Ok((v, t)) => r matches Ok(p) && p.points@ == v && p.wf() && final(g)@ == t,
            Err(f) => r matches Err(e) && fault_of(e) == Some(f),
        },
{
    let s = take_text(g, k)?;
    match Plane::parse(s.as_str()) {
        Some(v) => Ok(v),
        None => Err(malformed(k)),
    }
}

fn take_uv(g: &mut GenericNode, k: &str) -> (r: Result<UV, Error>)
    ensures
        match uv_field(old(g)@, k@) {
            Ok((v, t)) => r matches Ok(u) && (u.0@, u.1) == v && u.wf() && final(g)@ == t,
            Err(f) => r matches Err(e) && fault_of(e) == Some(f),
        },
{
    let s = take_text(g, k)?;
    match UV::parse(s.as_str()) {
        Some(v) => Ok(v),
        None => Err(malformed(k)),
    }
}

impl Side {
    pub open spec fn wf(&self) -> bool {
        self.plane.wf() && self.u_axis.wf() && self.v_axis.wf() && self.rotation.wf()
    }

    /// Reads a side from the node of a `side` block.
    pub fn parse(g: GenericNode) -> (r: Result<Side, Error>)
        ensures
            match side_of(g@) {
                Ok(v) => r matches Ok(s) && s@ == v && s.wf(),
                Err(f) => r matches Err(e) && fault_of(e) == Some(f),
            },
    {
        reveal(side_of);
        let mut g = g;
        let id = take_u32(&mut g, "id")?;
        let plane = take_plane(&mut g, "plane")?;
        let material = take_text(&mut g, "material")?;
        let u_axis = take_uv(&mut g, "uaxis")?;
        let v_axis = take_uv(&mut g, "vaxis")?;
        let rotation = take_num(&mut g, "rotation")?;
        let lightmap_scale = take_u32(&mut g, "lightmapscale")?;
        let smoothing_groups = take_u32(&mut g, "smoothing_groups")?;
        Ok(
            Side {
                id,
                plane,
                material,
                u_axis,
                v_axis,
                rotation,
                lightmap_scale,
                smoothing_groups,
                rest: g,
            },
        )
    }

    /// The node of this side: the fields it did not model, and its own.
    pub fn as_generic(&self) -> (r: GenericNode)
        requires
            self.wf(),
        ensures
            r@ == side_tree(self@),
    {
        reveal(side_tree);
        let mut g = self.rest.clone_node();
        g.set_value("id", string_of(u32_text(self.id)).as_str());
        g.set_value("plane", string_of(self.plane.to_text()).as_str());
        g.set_value("material", self.material.as_str());
        g.set_value("uaxis", string_of(self.u_axis.to_text()).as_str());
        g.set_value("vaxis", string_of(self.v_axis.to_text()).as_str());
        g.set_value("rotation", string_of(self.rotation.to_text()).as_str());
        g.set_value("lightmapscale", string_of(u32_text(self.lightmap_scale)).as_str());
        g.set_value("smoothing_groups", string_of(u32_text(self.smoothing_groups)).as_str());
        g
    }
}

/// The sides that a list of `side` blocks holds; the first that cannot be
/// read decides the fault.
pub open spec fn sides_from(ts: Seq<Tree>) -> Result<Seq<SideView>, Fault>
    decreases ts.len(),
{
    if ts.len() == 0 {
        Ok(Seq::empty())
    } else {
        match sides_from(ts.drop_last()) {
            Err(f) => Err(f),
            Ok(vs) => match side_of(ts.last()) {
                Err(f) => Err(f),
                Ok(v) => Ok(vs.push(v)),
            },
        }
    }
}

proof fn lemma_sides_err(ts: Seq<Tree>, k: int, m: int)
    requires
        0 <= k <= m <= ts.len(),
        sides_from(ts.take(k)) is Err,
    ensures
        sides_from(ts.take(m)) == sides_from(ts.take(k)),
    decreases m - k,
{
    if m > k {
        lemma_sides_err(ts, k, m - 1);
        assert(ts.take(m).drop_last() =~= ts.take(m - 1));
    }
}

proof fn lemma_sides_from(ts: Seq<Tree>)
    requires
        sides_from(ts) is Ok,
    ensures
        sides_from(ts)->Ok_0.len() == ts.len(),
        forall|i: int|
            0 <= i < ts.len() ==> side_of(#[trigger] ts[i]) == Ok::<SideView, Fault>(
                sides_from(ts)->Ok_0[i],
            ),
    decreases ts.len(),
{
    if ts.len() > 0 {
        let front = ts.drop_last();
        lemma_sides_from(front);
        assert forall|i: int| 0 <= i < ts.len() implies side_of(#[trigger] ts[i]) == Ok::<
            SideView,
            Fault,
        >(sides_from(ts)->Ok_0[i]) by {
            if i < ts.len() - 1 {
                assert(ts[i] == front[i]);
            }
        }
    }
}

/// A solid holds one side for each of its `side` blocks, in the order of the
/// blocks, each read from its block.
pub proof fn lemma_solid_sides_in_order(t: Tree)
    requires
        solid_of(t) is Ok,
    ensures
        ({
            let blocks = take_blocks(t, "side"@)->Some_0.0;
            let sides = solid_of(t)->Ok_0.sides;
            &&& sides.len() == blocks.len()
            &&& forall|i: int|
                0 <= i < blocks.len() ==> side_of(#[trigger] blocks[i]) == Ok::<SideView, Fault>(
                    sides[i],
                )
        }),
{
    reveal(solid_of);
    lemma_sides_from(take_blocks(t, "side"@)->Some_0.0);
}

pub open spec fn sides_view(v: Seq<Side>) -> Seq<SideView> {
    Seq::new(v.len(), |i: int| v[i]@)
}

/// What a [`Solid`] holds.
pub struct SolidView {
    pub id: u32,
    pub sides: Seq<SideView>,
    pub rest: Tree,
}

/// The solid that a `solid` block holds.
#[verifier::opaque]
pub open spec fn solid_of(t: Tree) -> Result<SolidView, Fault> {
    match take_blocks(t, "side"@) {
        None => Err(Fault::Missing("side"@)),
        Some((ss, t1)) => match sides_from(ss) {
            Err(f) => Err(f),
            Ok(sides) => match u32_field(t1, "id"@) {
                Err(f) => Err(f),
                Ok((id, rest)) => Ok(SolidView { id, sides, rest }),
            },
        },
    }
}

#[verifier::opaque]
pub open spec fn solid_tree(v: SolidView) -> Tree {
    with_children(
        with_value(v.rest, "id"@, decimal_text(v.id as nat)),
        "side"@,
        Seq::new(v.sides.len(), |i: int| side_tree(v.sides[i])),
    )
}

/// A convex solid: the sides whose planes bound it.
#[derive(Debug)]
pub struct Solid {
    pub id: u32,
    pub sides: Vec<Side>,
    pub rest: GenericNode,
}

impl View for Solid {
    type V = SolidView;

    open spec fn view(&self) -> SolidView {
        SolidView { id: self.id, sides: sides_view(self.sides@), rest: self.rest@ }
    }
}

/// The items of `v` in reverse order.
fn reversed<T>(v: Vec<T>) -> (r: Vec<T>)
    ensures
        r@.len() == v@.len(),
        forall|i: int| 0 <= i < v@.len() ==> #[trigger] r@[i] == v@[v@.len() - 1 - i],
{
    let ghost orig = v@;
    let mut v = v;
    let mut r: Vec<T> = Vec::new();
    while v.len() > 0
        invariant
            v@ == orig.take(v@.len() as int),
            r@.len() + v@.len() == orig.len(),
            forall|i: int| 0 <= i < r@.len() ==> #[trigger] r@[i] == orig[orig.len() - 1 - i],
        decreases v@.len(),
    {
        match v.pop() {
            Some(x) => {
                r.push(x);
                assert(v@ =~= orig.take(v@.len() as int));
            },
            None => {},
        }
    }
    r
}

fn parse_sides(nodes: Vec<GenericNode>) -> (r: Result<Vec<Side>, Error>)
    ensures
        match sides_from(trees_view(nodes@)) {
            Ok(vs) => r matches Ok(v) && sides_view(v@) == vs && forall|i: int|
                0 <= i < v@.len() ==> #[trigger] v@[i].wf(),
            Err(f) => r matches Err(e) && fault_of(e) == Some(f),
        },
{
    let ghost ts = trees_view(nodes@);
    let ghost n = nodes@.len();
    let mut rev = reversed(nodes);
    let mut out: Vec<Side> = Vec::new();
    assert(ts.take(0) =~= Seq::<Tree>::empty());
    assert(sides_view(out@) =~= Seq::<SideView>::empty());
    loop
        invariant
            out@.len() <= n,
            n == ts.len(),
            ts == trees_view(nodes@),
            rev@.len() == n - out@.len(),
            forall|i: int| 0 <= i < rev@.len() ==> #[trigger] rev@[i]@ == ts[n - 1 - i],
            sides_from(ts.take(out@.len() as int)) == Ok::<Seq<SideView>, Fault>(sides_view(out@)),
            forall|i: int| 0 <= i < out@.len() ==> #[trigger] out@[i].wf(),
        ensures
            sides_from(ts) == Ok::<Seq<SideView>, Fault>(sides_view(out@)),
            forall|i: int| 0 <= i < out@.len() ==> #[trigger] out@[i].wf(),
        decreases rev@.len(),
    {
        let ghost k = out@.len() as int;
        match rev.pop() {
            None => {
                assert(ts.take(k) =~= ts);
                break;
            },
            Some(g) => {
                assert(g@ == ts[k]);
                assert(ts.take(k + 1).drop_last() =~= ts.take(k));
                assert(ts.take(k + 1).last() == ts[k]);
                match Side::parse(g) {
                    Err(e) => {
                        proof {
                            let f = side_of(ts[k])->Err_0;
                            assert(side_of(ts[k]) == Err::<SideView, Fault>(f));
                            assert(sides_from(ts.take(k + 1)) == Err::<Seq<SideView>, Fault>(f));
                            assert(k + 1 <= n);
                            lemma_sides_err(ts, k + 1, n as int);
                            assert(ts.take(n as int) =~= ts);
                        }
                        return Err(e);
                    },
                    Ok(side) => {
                        let ghost before = out@;
                        out.push(side);
                        assert(sides_view(out@) =~= sides_view(before).push(side@));
                    },
                }
            },
        }
    }
    Ok(out)
}

impl Solid {
    pub open spec fn wf(&self) -> bool {
        forall|i: int| 0 <= i < self.sides@.len() ==> #[trigger] self.sides@[i].wf()
    }

    /// Reads a solid from the node of a `solid` block.
    pub fn parse(g: GenericNode) -> (r: Result<Solid, Error>)
        ensures
            match solid_of(g@) {
                Ok(v) => r matches Ok(s) && s@ == v && s.wf(),
                Err(f) => r matches Err(e) && fault_of(e) == Some(f),
            },
    {
        reveal(solid_of);
        let mut g = g;
        let nodes = match g.take_children("side") {
            Some(nodes) => nodes,
            None => {
                return Err(missing("side"));
            },
        };
        let sides = parse_sides(nodes)?;
        let id = take_u32(&mut g, "id")?;
        Ok(Solid { id, sides, rest: g })
    }

    /// The node of this solid: the fields it did not model, its id and its sides.
    pub fn as_generic(&self) -> (r: GenericNode)
        requires
            self.wf(),
        ensures
            r@ == solid_tree(self@),
    {
        reveal(solid_tree);
        let mut g = self.rest.clone_node();
        g.set_value("id", string_of(u32_text(self.id)).as_str());
        let mut children: Vec<GenericNode> = Vec::new();
        let mut i: usize = 0;
        while i < self.sides.len()
            invariant
                self.wf(),
                i <= self.sides@.len(),
                trees_view(children@) == Seq::new(i as nat, |j: int| side_tree(self.sides@[j]@)),
                children@.len() == i,
            decreases self.sides@.len() - i,
        {
            assert(self.sides@[i as int].wf());
            let c = self.sides[i].as_generic();
            let ghost before = children@;
            children.push(c);
            proof {
                let want = Seq::new((i + 1) as nat, |j: int| side_tree(self.sides@[j]@));
                assert(c@ == side_tree(self.sides@[i as int]@));
                assert forall|j: int| 0 <= j <= i implies trees_view(children@)[j] == want[j] by {
                    if j < i {
                        assert(children@[j] == before[j]);
                        assert(trees_view(before)[j] == side_tree(self.sides@[j]@));
                    } else {
                        assert(children@[j] == c);
                    }
                }
                assert(trees_view(children@) =~= want);
            }
            i = i + 1;
        }
        assert(trees_view(children@) =~= Seq::new(self@.sides.len(), |j: int| side_tree(self@.sides[j])));
        g.set_children("side", children);
        g
    }
}

/// The solids that a list of `solid` blocks holds; the first that cannot be
/// read decides the fault.
pub open spec fn solids_from(ts: Seq<Tree>) -> Result<Seq<SolidView>, Fault>
    decreases ts.len(),
{
    if ts.len() == 0 {
        Ok(Seq::empty())
    } else {
        match solids_from(ts.drop_last()) {
            Err(f) => Err(f),
            Ok(vs) => match solid_of(ts.last()) {
                Err(f) => Err(f),
                Ok(v) => Ok(vs.push(v)),
            },
        }
    }
}

proof fn lemma_solids_err(ts: Seq<Tree>, k: int, m: int)
    requires
        0 <= k <= m <= ts.len(),
        solids_from(ts.take(k)) is Err,
    ensures
        solids_from(ts.take(m)) == solids_from(ts.take(k)),
    decreases m - k,
{
    if m > k {
        lemma_solids_err(ts, k, m - 1);
        assert(ts.take(m).drop_last() =~= ts.take(m - 1));
    }
}

pub open spec fn solids_view(v: Seq<Solid>) -> Seq<SolidView> {
    Seq::new(v.len(), |i: int| v[i]@)
}

fn parse_solids(nodes: Vec<GenericNode>) -> (r: Result<Vec<Solid>, Error>)
    ensures
        match solids_from(trees_view(nodes@)) {
            Ok(vs) => r matches Ok(v) && solids_view(v@) == vs && forall|i: int|
                0 <= i < v@.len() ==> #[trigger] v@[i].wf(),
            Err(f) => r matches Err(e) && fault_of(e) == Some(f),
        },
{
    let ghost ts = trees_view(nodes@);
    let ghost n = nodes@.len();
    let mut rev = reversed(nodes);
    let mut out: Vec<Solid> = Vec::new();
    assert(ts.take(0) =~= Seq::<Tree>::empty());
    assert(solids_view(out@) =~= Seq::<SolidView>::empty());
    loop
        invariant
            out@.len() <= n,
            n == ts.len(),
            ts == trees_view(nodes@),
            rev@.len() == n - out@.len(),
            forall|i: int| 0 <= i < rev@.len() ==> #[trigger] rev@[i]@ == ts[n - 1 - i],
            solids_from(ts.take(out@.len() as int)) == Ok::<Seq<SolidView>, Fault>(solids_view(out@)),
            forall|i: int| 0 <= i < out@.len() ==> #[trigger] out@[i].wf(),
        ensures
            solids_from(ts) == Ok::<Seq<SolidView>, Fault>(solids_view(out@)),
            forall|i: int| 0 <= i < out@.len() ==> #[trigger] out@[i].wf(),
        decreases rev@.len(),
    {
        let ghost k = out@.len() as int;
        match rev.pop() {
            None => {
                assert(ts.take(k) =~= ts);
                break;
            },
            Some(g) => {
                assert(g@ == ts[k]);
                assert(ts.take(k + 1).drop_last() =~= ts.take(k));
                assert(ts.take(k + 1).last() == ts[k]);
                match Solid::parse(g) {
                    Err(e) => {
                        proof {
                            let f = solid_of(ts[k])->Err_0;
                            assert(solid_of(ts[k]) == Err::<SolidView, Fault>(f));
                            assert(solids_from(ts.take(k + 1)) == Err::<Seq<SolidView>, Fault>(f));
                            lemma_solids_err(ts, k + 1, n as int);
                            assert(ts.take(n as int) =~= ts);
                        }
                        return Err(e);
                    },
                    Ok(solid) => {
                        let ghost before = out@;
                        out.push(solid);
                        assert(solids_view(out@) =~= solids_view(before).push(solid@));
                    },
                }
            },
        }
    }
    Ok(out)
}

/// What a [`World`] holds.
pub struct WorldView {
    pub solids: Seq<SolidView>,
    pub rest: Tree,
}

/// The world that a `world` block holds.
pub open spec fn world_of(t: Tree) -> Result<WorldView, Fault> {
    match take_blocks(t, "solid"@) {
        None => Err(Fault::Missing("solid"@)),
        Some((ss, rest)) => match solids_from(ss) {
            Err(f) => Err(f),
            Ok(solids) => Ok(WorldView { solids, rest }),
        },
    }
}

pub open spec fn world_tree(v: WorldView) -> Tree {
    with_children(v.rest, "solid"@, Seq::new(v.solids.len(), |i: int| solid_tree(v.solids[i])))
}

/// The level geometry: its solids.
#[derive(Debug)]
pub struct World {
    pub solids: Vec<Solid>,
    pub rest: GenericNode,
}

impl View for World {
    type V = WorldView;

    open spec fn view(&self) -> WorldView {
        WorldView { solids: solids_view(self.solids@), rest: self.rest@ }
    }
}

impl World {
    pub open spec fn wf(&self) -> bool {
        forall|i: int| 0 <= i < self.solids@.len() ==> #[trigger] self.solids@[i].wf()
    }

    /// Reads the world from the node of the `world` block.
    pub fn parse(g: GenericNode) -> (r: Result<World, Error>)
        ensures
            match world_of(g@) {
                Ok(v) => r matches Ok(w) && w@ == v && w.wf(),
                Err(f) => r matches Err(e) && fault_of(e) == Some(f),
            },
    {
        let mut g = g;
        let nodes = match g.take_children("solid") {
            Some(nodes) => nodes,
            None => {
                return Err(missing("solid"));
            },
        };
        let solids = parse_solids(nodes)?;
        Ok(World { solids, rest: g })
    }

    /// The node of the world: the fields it did not model and its solids.
    pub fn as_generic(&self) -> (r: GenericNode)
        requires
            self.wf(),
        ensures
            r@ == world_tree(self@),
    {
        let mut g = self.rest.clone_node();
        let mut children: Vec<GenericNode> = Vec::new();
        let mut i: usize = 0;
        while i < self.solids.len()
            invariant
                self.wf(),
                i <= self.solids@.len(),
                trees_view(children@) == Seq::new(i as nat, |j: int| solid_tree(self.solids@[j]@)),
                children@.len() == i,
            decreases self.solids@.len() - i,
        {
            assert(self.solids@[i as int].wf());
            let c = self.solids[i].as_generic();
            let ghost before = children@;
            children.push(c);
            proof {
                let want = Seq::new((i + 1) as nat, |j: int| solid_tree(self.solids@[j]@));
                assert(c@ == solid_tree(self.solids@[i as int]@));
                assert forall|j: int| 0 <= j <= i implies trees_view(children@)[j] == want[j] by {
                    if j < i {
                        assert(children@[j] == before[j]);
                        assert(trees_view(before)[j] == solid_tree(self.solids@[j]@));
                    } else {
                        assert(children@[j] == c);
                    }
                }
                assert(trees_view(children@) =~= want);
            }
            i = i + 1;
        }
        assert(trees_view(children@) =~= Seq::new(self@.solids.len(), |j: int| solid_tree(self@.solids[j])));
        g.set_children("solid", children);
        g
    }
}

/// The version block of a document.
#[derive(Clone, Copy, Debug, PartialEq, Eq)]
pub struct VersionInfo {
    pub editor_version: u32,
    pub editor_build: u32,
    pub map_version: u32,
    pub format_version: u32,
    pub prefab: u32,
}

/// The number that the first value of `k` spells.
pub open spec fn first_u32(t: Tree, k: Seq<char>) -> Result<u32, Fault> {
    match first_value(t, k) {
        None => Err(Fault::Missing(k)),
        Some(v) => match u32_of(v) {
            None => Err(Fault::Malformed(k)),
            Some(n) => Ok(n),
        },
    }
}

/// The version information that a `versioninfo` block holds.
pub open spec fn version_of(t: Tree) -> Result<VersionInfo, Fault> {
    match first_u32(t, "editorversion"@) {
        Err(f) => Err(f),
        Ok(editor_version) => match first_u32(t, "editorbuild"@) {
            Err(f) => Err(f),
            Ok(editor_build) => match first_u32(t, "mapversion"@) {
                Err(f) => Err(f),
                Ok(map_version) => match first_u32(t, "formatversion"@) {
                    Err(f) => Err(f),
                    Ok(format_version) => match first_u32(t, "prefab"@) {
                        Err(f) => Err(f),
                        Ok(prefab) => Ok(
                            VersionInfo {
                                editor_version,
                                editor_build,
                                map_version,
                                format_version,
                                prefab,
                            },
                        ),
                    },
                },
            },
        },
    }
}

pub open spec fn version_tree(v: VersionInfo) -> Tree {
    with_value(
        with_value(
            with_value(
                with_value(
                    with_value(
                        crate::generic::empty_tree(),
                        "editorversion"@,
                        decimal_text(v.editor_version as nat),
                    ),
                    "editorbuild"@,
                    decimal_text(v.editor_build as nat),
                ),
                "mapversion"@,
                decimal_text(v.map_version as nat),
            ),
            "formatversion"@,
            decimal_text(v.format_version as nat),
        ),
        "prefab"@,
        decimal_text(v.prefab as nat),
    )
}

proof fn lemma_u32_text(n: u32)
    ensures
        u32_of(decimal_text(n as nat)) == Some(n),
{
    lemma_decimal_round_trip(n as nat);
}

/// The version block that `VersionInfo::as_generic` writes reads back as the
/// same version information.
pub proof fn lemma_version_round_trip(v: VersionInfo)
    ensures
        version_of(version_tree(v)) == Ok::<VersionInfo, Fault>(v),
{
    reveal_strlit("editorversion");
    reveal_strlit("editorbuild");
    reveal_strlit("mapversion");
    reveal_strlit("formatversion");
    reveal_strlit("prefab");
    let (k1, k2, k3, k4, k5) = (
        "editorversion"@,
        "editorbuild"@,
        "mapversion"@,
        "formatversion"@,
        "prefab"@,
    );
    assert(k1.len() == 13 && k2.len() == 11 && k3.len() == 10 && k4.len() == 13 && k5.len() == 6);
    assert(k1[0] == 'e' && k4[0] == 'f');
    let (t1, t2, t3, t4, t5) = (
        decimal_text(v.editor_version as nat),
        decimal_text(v.editor_build as nat),
        decimal_text(v.map_version as nat),
        decimal_text(v.format_version as nat),
        decimal_text(v.prefab as nat),
    );
    let e = crate::generic::empty_tree();
    lemma_find_at(e.pairs, k1, 0, 0);
    let a1 = with_value(e, k1, t1);
    assert(a1.pairs =~= seq![(k1, seq![t1])]);
    lemma_find_at(a1.pairs, k2, 0, 1);
    let a2 = with_value(a1, k2, t2);
    assert(a2.pairs =~= seq![(k1, seq![t1]), (k2, seq![t2])]);
    lemma_find_at(a2.pairs, k3, 0, 2);
    let a3 = with_value(a2, k3, t3);
    assert(a3.pairs =~= seq![(k1, seq![t1]), (k2, seq![t2]), (k3, seq![t3])]);
    lemma_find_at(a3.pairs, k4, 0, 3);
    let a4 = with_value(a3, k4, t4);
    assert(a4.pairs =~= seq![(k1, seq![t1]), (k2, seq![t2]), (k3, seq![t3]), (k4, seq![t4])]);
    lemma_find_at(a4.pairs, k5, 0, 4);
    let a5 = with_value(a4, k5, t5);
    let ps = seq![(k1, seq![t1]), (k2, seq![t2]), (k3, seq![t3]), (k4, seq![t4]), (k5, seq![t5])];
    assert(a5.pairs =~= ps);
    assert(version_tree(v) == a5);
    lemma_find_at(ps, k1, 0, 0);
    lemma_find_at(ps, k2, 0, 1);
    lemma_find_at(ps, k3, 0, 2);
    lemma_find_at(ps, k4, 0, 3);
    lemma_find_at(ps, k5, 0, 4);
    lemma_u32_text(v.editor_version);
    lemma_u32_text(v.editor_build);
    lemma_u32_text(v.map_version);
    lemma_u32_text(v.format_version);
    lemma_u32_text(v.prefab);
}

fn read_u32(g: &GenericNode, k: &str) -> (r: Result<u32, Error>)
    ensures
        match first_u32(g@, k@) {
            Ok(v) => r == Ok::<u32, Error>(v),
            Err(f) => r matches Err(e) && fault_of(e) == Some(f),
        },
{
    match g.find_value(k) {
        None => Err(missing(k)),
        Some(s) => match parse_u32(&chars_of(s.as_str())) {
            Some(v) => Ok(v),
            None => Err(malformed(k)),
        },
    }
}

impl VersionInfo {
    /// Reads the version information from the node of the `versioninfo` block.
    pub fn parse(g: GenericNode) -> (r: Result<VersionInfo, Error>)
        ensures
            match version_of(g@) {
                Ok(v) => r == Ok::<VersionInfo, Error>(v),
                Err(f) => r matches Err(e) && fault_of(e) == Some(f),
            },
    {
        let editor_version = read_u32(&g, "editorversion")?;
        let editor_build = read_u32(&g, "editorbuild")?;
        let map_version = read_u32(&g, "mapversion")?;
        let format_version = read_u32(&g, "formatversion")?;
        let prefab = read_u32(&g, "prefab")?;
        Ok(VersionInfo { editor_version, editor_build, map_version, format_version, prefab })
    }

    /// The node of the version information.
    pub fn as_generic(&self) -> (r: GenericNode)
        ensures
            r@ == version_tree(*self),
    {
        let mut g = GenericNode::new();
        g.set_value("editorversion", string_of(u32_text(self.editor_version)).as_str());
        g.set_value("editorbuild", string_of(u32_text(self.editor_build)).as_str());
        g.set_value("mapversion", string_of(u32_text(self.map_version)).as_str());
        g.set_value("formatversion", string_of(u32_text(self.format_version)).as_str());
        g.set_value("prefab", string_of(u32_text(self.prefab)).as_str());
        g
    }
}

/// What a [`Vmf`] holds.
pub struct VmfView {
    pub version_info: VersionInfo,
    pub world: WorldView,
    pub rest: Tree,
}

/// The document that a top-level node holds: its last `versioninfo` block
/// and its last `world` block.
pub open spec fn vmf_of(t: Tree) -> Result<VmfView, Fault> {
    match take_blocks(t, "versioninfo"@) {
        None => Err(Fault::Missing("versioninfo"@)),
        Some((vs, t1)) => if vs.len() == 0 {
            Err(Fault::Missing("versioninfo"@))
        } else {
            match take_blocks(t1, "world"@) {
                None => Err(Fault::Missing("world"@)),
                Some((ws, rest)) => if ws.len() == 0 {
                    Err(Fault::Missing("world"@))
                } else {
                    match version_of(vs.last()) {
                        Err(f) => Err(f),
                        Ok(version_info) => match world_of(ws.last()) {
                            Err(f) => Err(f),
                            Ok(world) => Ok(VmfView { version_info, world, rest }),
                        },
                    }
                },
            }
        },
    }
}

pub open spec fn vmf_tree(v: VmfView) -> Tree {
    with_children(
        with_children(v.rest, "versioninfo"@, seq![version_tree(v.version_info)]),
        "world"@,
        seq![world_tree(v.world)],
    )
}

/// A level document.
#[derive(Debug)]
pub struct Vmf {
    pub version_info: VersionInfo,
    pub world: World,
    pub rest: GenericNode,
}

impl View for Vmf {
    type V = VmfView;

    open spec fn view(&self) -> VmfView {
        VmfView { version_info: self.version_info, world: self.world@, rest: self.rest@ }
    }
}

impl Vmf {
    pub open spec fn wf(&self) -> bool {
        self.world.wf()
    }

    /// Reads a document from its top-level node.
    pub fn parse(g: GenericNode) -> (r: Result<Vmf, Error>)
        ensures
            match vmf_of(g@) {
                Ok(v) => r matches Ok(d) && d@ == v && d.wf(),
                Err(f) => r matches Err(e) && fault_of(e) == Some(f),
            },
    {
        let mut g = g;
        let mut infos = match g.take_children("versioninfo") {
            Some(v) => v,
            None => {
                return Err(missing("versioninfo"));
            },
        };
        let version_info = match infos.pop() {
            Some(v) => v,
            None => {
                return Err(missing("versioninfo"));
            },
        };
        let mut worlds = match g.take_children("world") {
            Some(v) => v,
            None => {
                return Err(missing("world"));
            },
        };
        let world = match worlds.pop() {
            Some(v) => v,
            None => {
                return Err(missing("world"));
            },
        };
        let version_info = VersionInfo::parse(version_info)?;
        let world = World::parse(world)?;
        Ok(Vmf { version_info, world, rest: g })
    }

    /// The top-level node of the document.
    pub fn as_generic(&self) -> (r: GenericNode)
        requires
            self.wf(),
        ensures
            r@ == vmf_tree(self@),
    {
        let mut g = self.rest.clone_node();
        g.set_child("versioninfo", self.version_info.as_generic());
        g.set_child("world", self.world.as_generic());
        g
    }
}

} // verus!
