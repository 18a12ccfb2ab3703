//! Field values of the level format: points and planes written as
//! `(x y z) (x y z) (x y z)` and texture axes written as `[a b c d] e`.
use vstd::prelude::*;
use crate::num::{num_of, num_text, Num};
use crate::text::{chars_of, lemma_scan_bounds, scan, scan_chars, Stop};

verus! {

/// The text before the next `c` at or after `pos`, and the position after that `c`.
pub open spec fn jump(s: Seq<char>, pos: int, c: char) -> Option<(Seq<char>, int)> {
    let e = scan(s, pos, Stop::Char(c));
    if e >= s.len() {
        None
    } else {
        Some((s.subrange(pos, e), e + 1))
    }
}

/// The number written before the next `c`, and the position after that `c`.
pub open spec fn num_until(s: Seq<char>, pos: int, c: char) -> Option<(Num, int)> {
    match jump(s, pos, c) {
        None => None,
        Some((t, p)) => match num_of(t) {
            None => None,
            Some(n) => Some((n, p)),
        },
    }
}

/// A cursor over the text of one field.
pub struct Deserializer {
    input: Vec<char>,
    pos: usize,
}

impl Deserializer {
    pub closed spec fn input(&self) -> Seq<char> {
        self.input@
    }

    pub closed spec fn pos(&self) -> int {
        self.pos as int
    }

    pub open spec fn wf(&self) -> bool {
        0 <= self.pos() <= self.input().len()
    }

    pub fn from_str(input: &str) -> (r: Deserializer)
        ensures
            r.input() == input@,
            r.pos() == 0,
            r.wf(),
    {
        Deserializer { input: chars_of(input), pos: 0 }
    }

    /// Moves past the next `c`, giving the text before it.
    pub fn jump_past(&mut self, c: char) -> (r: Option<Vec<char>>)
        requires
            old(self).wf(),
        ensures
            final(self).wf(),
            final(self).input() == old(self).input(),
            match jump(old(self).input(), old(self).pos(), c) {
                None => r is None && final(self).pos() == old(self).pos(),
                Some((t, p)) => r matches Some(v) && v@ == t && final(self).pos() == p,
            },
    {
        let e = scan_chars(&self.input, self.pos, Stop::Char(c));
        proof {
            lemma_scan_bounds(self.input@, self.pos as int, Stop::Char(c));
        }
        if e == self.input.len() {
            return None;
        }
        let mut v: Vec<char> = Vec::new();
        let mut i: usize = self.pos;
        while i < e
            invariant
                self.pos <= i <= e < self.input@.len(),
                v@ == self.input@.subrange(self.pos as int, i as int),
            decreases e - i,
        {
            v.push(self.input[i]);
            i = i + 1;
            assert(v@ =~= self.input@.subrange(self.pos as int, i as int));
        }
        self.pos = e + 1;
        Some(v)
    }

    /// Reads the number written before the next `c` and moves past that `c`.
    pub fn parse_num(&mut self, c: char) -> (r: Option<Num>)
        requires
            old(self).wf(),
        ensures
            final(self).wf(),
            final(self).input() == old(self).input(),
            match num_until(old(self).input(), old(self).pos(), c) {
                None => r is None,
                Some((n, p)) => r == Some(n) && final(self).pos() == p && n.wf(),
            },
    {
        match self.jump_past(c) {
            None => None,
            Some(t) => Num::parse(&t),
        }
    }

    /// The characters not read yet.
    pub fn rest(&self) -> (r: Vec<char>)
        requires
            self.wf(),
        ensures
            r@ == self.input().skip(self.pos()),
    {
        let mut v: Vec<char> = Vec::new();
        let mut i: usize = self.pos;
        while i < self.input.len()
            invariant
                self.pos <= i <= self.input@.len(),
                v@ == self.input@.subrange(self.pos as int, i as int),
            decreases self.input@.len() - i,
        {
            v.push(self.input[i]);
            i = i + 1;
            assert(v@ =~= self.input@.subrange(self.pos as int, i as int));
        }
        assert(v@ =~= self.input@.skip(self.pos as int));
        v
    }
}

/// A point of the level format, Z up.
#[derive(Clone, Copy, Debug, PartialEq, Eq)]
pub struct Point {
    pub x: Num,
    pub y: Num,
    pub z: Num,
}

impl Point {
    pub open spec fn wf(&self) -> bool {
        self.x.wf() && self.y.wf() && self.z.wf()
    }
}

/// Three points of a plane, in the order that orients it.
#[derive(Clone, Copy, Debug, PartialEq, Eq)]
pub struct Plane {
    pub points: [Point; 3],
}

/// A texture axis `[a b c d]` and its scale.
#[derive(Clone, Copy, Debug, PartialEq, Eq)]
pub struct UV(pub [Num; 4], pub Num);

/// The point written as `(x y z)` after `pos`, and the position after it.
pub open spec fn point_at(s: Seq<char>, pos: int) -> Option<(Point, int)> {
    match jump(s, pos, '(') {
        None => None,
        Some((_, at0)) => match num_until(s, at0, ' ') {
            None => None,
            Some((x, at1)) => match num_until(s, at1, ' ') {
                None => None,
                Some((y, at2)) => match num_until(s, at2, ')') {
                    None => None,
                    Some((z, at3)) => Some((Point { x, y, z }, at3)),
                },
            },
        },
    }
}

/// The three points that the text of a plane gives; what follows the third
/// is not read.
pub open spec fn plane_of(s: Seq<char>) -> Option<Seq<Point>> {
    match point_at(s, 0) {
        None => None,
        Some((a, at1)) => match point_at(s, at1) {
            None => None,
            Some((b, at2)) => match point_at(s, at2) {
                None => None,
                Some((c, _)) => Some(seq![a, b, c]),
            },
        },
    }
}

/// The number alone in `s` between whitespace.
pub open spec fn lone_num(s: Seq<char>) -> Option<Num> {
    let a = scan(s, 0, Stop::NonSpace);
    let b = scan(s, a, Stop::Space);
    if scan(s, b, Stop::NonSpace) < s.len() {
        None
    } else {
        num_of(s.subrange(a, b))
    }
}

/// The four axis numbers and the scale that the text of a texture axis gives.
pub open spec fn uv_of(s: Seq<char>) -> Option<(Seq<Num>, Num)> {
    match jump(s, 0, '[') {
        None => None,
        Some((_, at0)) => match num_until(s, at0, ' ') {
            None => None,
            Some((a, at1)) => match num_until(s, at1, ' ') {
                None => None,
                Some((b, at2)) => match num_until(s, at2, ' ') {
                    None => None,
                    Some((c, at3)) => match num_until(s, at3, ']') {
                        None => None,
                        Some((d, at4)) => match lone_num(s.skip(at4)) {
                            None => None,
                            Some(e) => Some((seq![a, b, c, d], e)),
                        },
                    },
                },
            },
        },
    }
}

pub open spec fn point_text(p: Point) -> Seq<char> {
    seq!['('] + num_text(p.x) + seq![' '] + num_text(p.y) + seq![' '] + num_text(p.z) + seq![')']
}

pub open spec fn plane_text(ps: Seq<Point>) -> Seq<char> {
    point_text(ps[0]) + seq![' '] + point_text(ps[1]) + seq![' '] + point_text(ps[2])
}

pub open spec fn uv_text(axis: Seq<Num>, scale: Num) -> Seq<char> {
    seq!['['] + num_text(axis[0]) + seq![' '] + num_text(axis[1]) + seq![' '] + num_text(axis[2])
        + seq![' '] + num_text(axis[3]) + seq![']', ' '] + num_text(scale)
}

fn push_all(out: &mut Vec<char>, v: &Vec<char>)
    ensures
        final(out)@ == old(out)@ + v@,
{
    let mut i: usize = 0;
    while i < v.len()
        invariant
            i <= v@.len(),
            out@ == old(out)@ + v@.take(i as int),
        decreases v@.len() - i,
    {
        out.push(v[i]);
        i = i + 1;
        assert(out@ =~= old(out)@ + v@.take(i as int));
    }
    assert(v@.take(i as int) =~= v@);
}

fn read_point(de: &mut Deserializer) -> (r: Option<Point>)
    requires
        old(de).wf(),
    ensures
        final(de).wf(),
        final(de).input() == old(de).input(),
        match point_at(old(de).input(), old(de).pos()) {
            None => r is None,
            Some((p, q)) => r == Some(p) && final(de).pos() == q && p.wf(),
        },
{
    match de.jump_past('(') {
        None => None,
        Some(_) => match de.parse_num(' ') {
            None => None,
            Some(x) => match de.parse_num(' ') {
                None => None,
                Some(y) => match de.parse_num(')') {
                    None => None,
                    Some(z) => Some(Point { x, y, z }),
                },
            },
        },
    }
}

fn write_point(out: &mut Vec<char>, p: &Point)
    requires
        p.wf(),
    ensures
        final(out)@ == old(out)@ + point_text(*p),
{
    out.push('(');
    push_all(out, &p.x.to_text());
    out.push(' ');
    push_all(out, &p.y.to_text());
    out.push(' ');
    push_all(out, &p.z.to_text());
    out.push(')');
    assert(final(out)@ =~= old(out)@ + point_text(*p));
}

impl Plane {
    pub open spec fn wf(&self) -> bool {
        forall|i: int| 0 <= i < 3 ==> #[trigger] self.points@[i].wf()
    }

    /// Reads the text of a plane: three points, each `(x y z)`.
    pub fn parse(input: &str) -> (r: Option<Plane>)
        ensures
            match plane_of(input@) {
                None => r is None,
                Some(ps) => r matches Some(p) && p.points@ == ps && p.wf(),
            },
    {
        let mut de = Deserializer::from_str(input);
        match read_point(&mut de) {
            None => None,
            Some(a) => match read_point(&mut de) {
                None => None,
                Some(b) => match read_point(&mut de) {
                    None => None,
                    Some(c) => {
                        let p = Plane { points: [a, b, c] };
                        assert(p.points@ =~= seq![a, b, c]);
                        Some(p)
                    },
                },
            },
        }
    }

    /// The text of this plane: its three points separated by spaces.
    pub fn to_text(&self) -> (r: Vec<char>)
        requires
            self.wf(),
        ensures
            r@ == plane_text(self.points@),
    {
        let mut out: Vec<char> = Vec::new();
        assert(self.points@[0].wf() && self.points@[1].wf() && self.points@[2].wf());
        write_point(&mut out, &self.points[0]);
        out.push(' ');
        write_point(&mut out, &self.points[1]);
        out.push(' ');
        write_point(&mut out, &self.points[2]);
        assert(out@ =~= plane_text(self.points@));
        out
    }
}

fn read_lone_num(s: &Vec<char>) -> (r: Option<Num>)
    ensures
        r == lone_num(s@),
        r matches Some(n) ==> n.wf(),
{
    let a = scan_chars(s, 0, Stop::NonSpace);
    proof {
        lemma_scan_bounds(s@, 0, Stop::NonSpace);
    }
    let b = scan_chars(s, a, Stop::Space);
    proof {
        lemma_scan_bounds(s@, a as int, Stop::Space);
    }
    let c = scan_chars(s, b, Stop::NonSpace);
    if c < s.len() {
        return None;
    }
    let mut v: Vec<char> = Vec::new();
    let mut i: usize = a;
    while i < b
        invariant
            a <= i <= b <= s@.len(),
            v@ == s@.subrange(a as int, i as int),
        decreases b - i,
    {
        v.push(s[i]);
        i = i + 1;
        assert(v@ =~= s@.subrange(a as int, i as int));
    }
    Num::parse(&v)
}

impl UV {
    pub open spec fn wf(&self) -> bool {
        (forall|i: int| 0 <= i < 4 ==> #[trigger] self.0@[i].wf()) && self.1.wf()
    }

    /// Reads the text of a texture axis: `[a b c d] e`.
    pub fn parse(input: &str) -> (r: Option<UV>)
        ensures
            match uv_of(input@) {
                None => r is None,
                Some((axis, scale)) => r matches Some(u) && u.0@ == axis && u.1 == scale && u.wf(),
            },
    {
        let mut de = Deserializer::from_str(input);
        match de.jump_past('[') {
            None => None,
            Some(_) => match de.parse_num(' ') {
                None => None,
                Some(a) => match de.parse_num(' ') {
                    None => None,
                    Some(b) => match de.parse_num(' ') {
                        None => None,
                        Some(c) => match de.parse_num(']') {
                            None => None,
                            Some(d) => {
                                let rest = de.rest();
                                match read_lone_num(&rest) {
                                    None => None,
                                    Some(e) => {
                                        let u = UV([a, b, c, d], e);
                                        assert(u.0@ =~= seq![a, b, c, d]);
                                        Some(u)
                                    },
                                }
                            },
                        },
                    },
                },
            },
        }
    }

    /// The text of this texture axis: `[a b c d] e`.
    pub fn to_text(&self) -> (r: Vec<char>)
        requires
            self.wf(),
        ensures
            r@ == uv_text(self.0@, self.1),
    {
        assert(self.0@[0].wf() && self.0@[1].wf() && self.0@[2].wf() && self.0@[3].wf());
        let mut out: Vec<char> = Vec::new();
        out.push('[');
        push_all(&mut out, &self.0[0].to_text());
        out.push(' ');
        push_all(&mut out, &self.0[1].to_text());
        out.push(' ');
        push_all(&mut out, &self.0[2].to_text());
        out.push(' ');
        push_all(&mut out, &self.0[3].to_text());
        out.push(']');
        out.push(' ');
        push_all(&mut out, &self.1.to_text());
        assert(out@ =~= uv_text(self.0@, self.1));
        out
    }
}

} // verus!
