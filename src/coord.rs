//! Points of the integer plane, with the neighbourhoods and distance that grid puzzles use.
use crate::graph::{eq_by_value, search_space, Vertex};
use crate::walks::{ends, ends_within, settles, settles_within, walk_back};
use std::rc::Rc;
use vstd::prelude::*;

verus! {

/// A point with integer coordinates; `y` grows upward.
#[derive(Clone, Copy, Debug, Hash)]
pub struct Cartesian {
    pub x: i32,
    pub y: i32,
}

impl PartialEq for Cartesian {
    fn eq(&self, other: &Cartesian) -> (r: bool)
        ensures
            r == (self.x == other.x && self.y == other.y),
    {
        self.x == other.x && self.y == other.y
    }
}

impl Eq for Cartesian {}

impl vstd::std_specs::cmp::PartialEqSpecImpl for Cartesian {
    open spec fn obeys_eq_spec() -> bool {
        true
    }

    open spec fn eq_spec(&self, other: &Cartesian) -> bool {
        self.x == other.x && self.y == other.y
    }
}

/// The point at integer coordinates `(x, y)`.
pub open spec fn pt(x: int, y: int) -> Cartesian {
    Cartesian { x: x as i32, y: y as i32 }
}

/// `|v|` over the integers.
pub open spec fn abs(v: int) -> nat {
    if v < 0 {
        (-v) as nat
    } else {
        v as nat
    }
}

/// The Manhattan distance `|dx| + |dy|` of two points.
pub open spec fn manhattan(a: Cartesian, b: Cartesian) -> nat {
    abs(a.x - b.x) + abs(a.y - b.y)
}

/// Both coordinates can move by one in either direction without leaving `i32`.
pub open spec fn inner(c: Cartesian) -> bool {
    i32::MIN < c.x < i32::MAX && i32::MIN < c.y < i32::MAX
}

/// The four axis neighbours: west, north, east, south.
pub open spec fn neigh4_of(c: Cartesian) -> Seq<Cartesian> {
    seq![pt(c.x - 1, c.y as int), pt(c.x as int, c.y + 1), pt(c.x + 1, c.y as int), pt(c.x as int, c.y - 1)]
}

/// The eight surrounding points, clockwise from the west.
pub open spec fn neigh8_of(c: Cartesian) -> Seq<Cartesian> {
    seq![
        pt(c.x - 1, c.y as int),
        pt(c.x - 1, c.y + 1),
        pt(c.x as int, c.y + 1),
        pt(c.x + 1, c.y + 1),
        pt(c.x + 1, c.y as int),
        pt(c.x + 1, c.y - 1),
        pt(c.x as int, c.y - 1),
        pt(c.x - 1, c.y - 1),
    ]
}

/// Componentwise sum, wrapping at the bounds of `i32`.
pub open spec fn plus(a: Cartesian, b: Cartesian) -> Cartesian {
    Cartesian { x: a.x.wrapping_add(b.x), y: a.y.wrapping_add(b.y) }
}

impl Cartesian {
    pub fn new(x: i32, y: i32) -> (r: Cartesian)
        ensures
            r.x == x,
            r.y == y,
    {
        Cartesian { x: x, y: y }
    }

    /// Creates a list of points around `self` excluding diagonal
    pub fn neigh4(&self) -> (r: Vec<Cartesian>)
        requires
            inner(*self),
        ensures
            r@ == neigh4_of(*self),
    {
        let x = self.x;
        let y = self.y;
        let r = vec![
            Cartesian::new(x - 1, y),
            Cartesian::new(x, y + 1),
            Cartesian::new(x + 1, y),
            Cartesian::new(x, y - 1),
        ];
        assert(r@ =~= neigh4_of(*self));
        r
    }

    /// Creates a list of points around `self` including diagonal
    pub fn neigh8(&self) -> (r: Vec<Cartesian>)
        requires
            inner(*self),
        ensures
            r@ == neigh8_of(*self),
    {
        let x = self.x;
        let y = self.y;
        let r = vec![
            Cartesian::new(x - 1, y),
            Cartesian::new(x - 1, y + 1),
            Cartesian::new(x, y + 1),
            Cartesian::new(x + 1, y + 1),
            Cartesian::new(x + 1, y),
            Cartesian::new(x + 1, y - 1),
            Cartesian::new(x, y - 1),
            Cartesian::new(x - 1, y - 1),
        ];
        assert(r@ =~= neigh8_of(*self));
        r
    }

    /// Calculate the manhattan distance between two points
    pub fn manhattan_distance(&self, other: &Self) -> (r: usize)
        requires
            manhattan(*self, *other) <= usize::MAX,
        ensures
            r == manhattan(*self, *other),
    {
        let dx: i64 = self.x as i64 - other.x as i64;
        let dy: i64 = self.y as i64 - other.y as i64;
        let x_dist: u64 = if dx < 0 { (-dx) as u64 } else { dx as u64 };
        let y_dist: u64 = if dy < 0 { (-dy) as u64 } else { dy as u64 };
        (x_dist + y_dist) as usize
    }
}

impl std::ops::Add for Cartesian {
    type Output = Cartesian;

    fn add(self, other: Cartesian) -> (r: Cartesian)
        ensures
            r == plus(self, other),
    {
        Cartesian { x: self.x.wrapping_add(other.x), y: self.y.wrapping_add(other.y) }
    }
}

impl vstd::std_specs::ops::AddSpecImpl for Cartesian {
    open spec fn obeys_add_spec() -> bool {
        true
    }

    open spec fn add_req(self, rhs: Cartesian) -> bool {
        true
    }

    open spec fn add_spec(self, rhs: Cartesian) -> Cartesian {
        plus(self, rhs)
    }
}

impl<'a> std::ops::Add for &'a Cartesian {
    type Output = Cartesian;

    fn add(self, other: Self) -> (r: Cartesian)
        ensures
            r == plus(*self, *other),
    {
        Cartesian { x: self.x.wrapping_add(other.x), y: self.y.wrapping_add(other.y) }
    }
}

impl<'a> vstd::std_specs::ops::AddSpecImpl for &'a Cartesian {
    open spec fn obeys_add_spec() -> bool {
        true
    }

    open spec fn add_req(self, rhs: &'a Cartesian) -> bool {
        true
    }

    open spec fn add_spec(self, rhs: &'a Cartesian) -> Cartesian {
        plus(*self, *rhs)
    }
}

/// Addition of points is commutative.
pub proof fn lemma_plus_commutative(a: Cartesian, b: Cartesian)
    ensures
        plus(a, b) == plus(b, a),
{
}

/// Addition of points is associative.
pub proof fn lemma_plus_associative(a: Cartesian, b: Cartesian, c: Cartesian)
    ensures
        plus(plus(a, b), c) == plus(a, plus(b, c)),
{
    lemma_wrap_assoc(a.x, b.x, c.x);
    lemma_wrap_assoc(a.y, b.y, c.y);
}

proof fn lemma_wrap_assoc(a: i32, b: i32, c: i32)
    ensures
        a.wrapping_add(b).wrapping_add(c) == a.wrapping_add(b.wrapping_add(c)),
{
    assert((((a + b) as i32) + c) as i32 == (a + ((b + c) as i32)) as i32) by (bit_vector);
}

/// The points next to `c` on the grid of `i32` points: west, north, east and south, leaving out
/// those off the grid.
pub open spec fn grid_neighbors(c: Cartesian) -> Seq<Cartesian> {
    (if c.x > i32::MIN { seq![pt(c.x - 1, c.y as int)] } else { seq![] }) + (if c.y < i32::MAX {
        seq![pt(c.x as int, c.y + 1)]
    } else {
        seq![]
    }) + (if c.x < i32::MAX { seq![pt(c.x + 1, c.y as int)] } else { seq![] }) + (if c.y
        > i32::MIN {
        seq![pt(c.x as int, c.y - 1)]
    } else {
        seq![]
    })
}

/// `n`, or `usize::MAX` where `n` does not fit.
pub open spec fn saturate(n: nat) -> nat {
    if n <= usize::MAX {
        n
    } else {
        usize::MAX as nat
    }
}

/// The grid of `i32` points with unit steps along the axes, estimated by Manhattan distance.
impl Vertex for Cartesian {
    open spec fn adjacent(&self) -> Seq<Cartesian> {
        grid_neighbors(*self)
    }

    open spec fn estimate(&self, other: &Cartesian) -> nat {
        saturate(manhattan(*self, *other))
    }

    fn neighbors(&self) -> (r: Vec<Rc<Cartesian>>) {
        let x = self.x;
        let y = self.y;
        let mut r: Vec<Rc<Cartesian>> = Vec::new();
        if x > i32::MIN {
            r.push(Rc::new(Cartesian::new(x - 1, y)));
        }
        let ghost s1 = crate::graph::values(r@);
        if y < i32::MAX {
            r.push(Rc::new(Cartesian::new(x, y + 1)));
        }
        let ghost s2 = crate::graph::values(r@);
        if x < i32::MAX {
            r.push(Rc::new(Cartesian::new(x + 1, y)));
        }
        let ghost s3 = crate::graph::values(r@);
        if y > i32::MIN {
            r.push(Rc::new(Cartesian::new(x, y - 1)));
        }
        proof {
            let w = if x > i32::MIN { seq![pt(x - 1, y as int)] } else { seq![] };
            let n = if y < i32::MAX { seq![pt(x as int, y + 1)] } else { seq![] };
            let e = if x < i32::MAX { seq![pt(x + 1, y as int)] } else { seq![] };
            let so = if y > i32::MIN { seq![pt(x as int, y - 1)] } else { seq![] };
            assert(s1 =~= w);
            assert(s2 =~= w + n);
            assert(s3 =~= w + n + e);
            assert(crate::graph::values(r@) =~= w + n + e + so);
        }
        r
    }

    fn distance(&self, other: &Cartesian) -> (r: usize) {
        let dx: i64 = self.x as i64 - other.x as i64;
        let dy: i64 = self.y as i64 - other.y as i64;
        let x_dist: u64 = if dx < 0 { (-dx) as u64 } else { dx as u64 };
        let y_dist: u64 = if dy < 0 { (-dy) as u64 } else { dy as u64 };
        let d: u64 = x_dist + y_dist;
        if d > usize::MAX as u64 {
            usize::MAX
        } else {
            d as usize
        }
    }
}

proof fn lemma_grid_step(c: Cartesian, d: Cartesian)
    requires
        grid_neighbors(c).contains(d),
    ensures
        manhattan(c, d) == 1,
{
    let w: Seq<Cartesian> = if c.x > i32::MIN { seq![pt(c.x - 1, c.y as int)] } else { seq![] };
    let n: Seq<Cartesian> = if c.y < i32::MAX { seq![pt(c.x as int, c.y + 1)] } else { seq![] };
    let e: Seq<Cartesian> = if c.x < i32::MAX { seq![pt(c.x + 1, c.y as int)] } else { seq![] };
    let so: Seq<Cartesian> = if c.y > i32::MIN { seq![pt(c.x as int, c.y - 1)] } else { seq![] };
    let s = grid_neighbors(c);
    assert(s == w + n + e + so);
    let i = choose|i: int| 0 <= i < s.len() && s[i] == d;
    if i < w.len() {
        assert(d == w[i]);
    } else if i < w.len() + n.len() {
        assert(d == n[i - w.len()]);
    } else if i < w.len() + n.len() + e.len() {
        assert(d == e[i - w.len() - n.len()]);
    } else {
        assert(d == so[i - w.len() - n.len() - e.len()]);
    }
}

proof fn lemma_grid_walk_prefix(p: Seq<Cartesian>, start: Cartesian, goal: Cartesian, k: int)
    requires
        walk_back(p, start, goal),
        0 <= k < p.len(),
    ensures
        manhattan(p[k], goal) <= k,
    decreases k,
{
    if k == 0 {
        assert(saturate(manhattan(p[0], goal)) == 0);
    } else {
        lemma_grid_walk_prefix(p, start, goal, k - 1);
        assert(p[(k - 1) + 1].adjacent().contains(p[k - 1]));
        lemma_grid_step(p[k], p[k - 1]);
    }
}

/// On the grid a walk from `start` to `goal` has at least `manhattan(start, goal) + 1`
/// vertices, so no path that the searches return there is shorter than that.
pub proof fn lemma_grid_walk_length(p: Seq<Cartesian>, start: Cartesian, goal: Cartesian)
    requires
        walk_back(p, start, goal),
    ensures
        p.len() >= manhattan(start, goal) + 1,
{
    lemma_grid_walk_prefix(p, start, goal, p.len() - 1);
}

/// The point that the number `k` in `0..2^64` stands for, row by row.
spec fn point_at(k: int) -> Cartesian {
    pt(k / 0x1_0000_0000 - 0x8000_0000, k % 0x1_0000_0000 - 0x8000_0000)
}

/// The whole `i32` grid is finite and holds every neighbour of its points, so `astar_search`
/// may start anywhere on it.
pub proof fn lemma_grid_search_space(start: Cartesian)
    ensures
        search_space(Set::new(|c: Cartesian| true), start),
{
    let u = Set::new(|c: Cartesian| true);
    let r = vstd::set_lib::set_int_range(0, 0x1_0000_0000_0000_0000);
    vstd::set_lib::lemma_int_range(0, 0x1_0000_0000_0000_0000);
    r.lemma_map_finite(|k: int| point_at(k));
    assert forall|c: Cartesian| #[trigger] u.contains(c) implies r.map(|k: int| point_at(k)).contains(c) by {
        let q = c.x + 0x8000_0000;
        let m = c.y + 0x8000_0000;
        let k = q * 0x1_0000_0000 + m;
        vstd::arithmetic::div_mod::lemma_fundamental_div_mod_converse(k, 0x1_0000_0000, q, m);
        assert(0 <= k < 0x1_0000_0000_0000_0000) by (nonlinear_arith)
            requires
                0 <= q < 0x1_0000_0000,
                0 <= m < 0x1_0000_0000,
                k == q * 0x1_0000_0000 + m,
        ;
        assert(r.contains(k));
        assert(point_at(k) == c);
    }
    vstd::set_lib::lemma_len_subset(u, r.map(|k: int| point_at(k)));
}

/// `==` on points compares coordinates, so the searches can key points by value.
pub proof fn lemma_cartesian_eq_by_value()
    ensures
        eq_by_value::<Cartesian>(),
{
}

/// A point of the quadrant `0..=u16::MAX` squared whose moves lead one step west or one step
/// south: a finite acyclic graph whose walks to the origin are the lattice paths.
#[derive(Clone, Copy, Debug, Hash)]
pub struct LatticePoint {
    pub x: u16,
    pub y: u16,
}

impl PartialEq for LatticePoint {
    fn eq(&self, other: &LatticePoint) -> (r: bool)
        ensures
            r == (self.x == other.x && self.y == other.y),
    {
        self.x == other.x && self.y == other.y
    }
}

impl Eq for LatticePoint {}

impl vstd::std_specs::cmp::PartialEqSpecImpl for LatticePoint {
    open spec fn obeys_eq_spec() -> bool {
        true
    }

    open spec fn eq_spec(&self, other: &LatticePoint) -> bool {
        self.x == other.x && self.y == other.y
    }
}

/// The moves from `p`: west, then south, where they stay in the quadrant.
pub open spec fn lattice_moves(p: LatticePoint) -> Seq<LatticePoint> {
    (if p.x > 0 { seq![LatticePoint { x: (p.x - 1) as u16, y: p.y }] } else { seq![] }) + (if p.y
        > 0 {
        seq![LatticePoint { x: p.x, y: (p.y - 1) as u16 }]
    } else {
        seq![]
    })
}

impl LatticePoint {
    pub fn new(x: u16, y: u16) -> (r: LatticePoint)
        ensures
            r.x == x,
            r.y == y,
    {
        LatticePoint { x: x, y: y }
    }
}

/// Steps toward the origin, estimated by Manhattan distance.
impl Vertex for LatticePoint {
    open spec fn adjacent(&self) -> Seq<LatticePoint> {
        lattice_moves(*self)
    }

    open spec fn estimate(&self, other: &LatticePoint) -> nat {
        abs(self.x - other.x) + abs(self.y - other.y)
    }

    fn neighbors(&self) -> (r: Vec<Rc<LatticePoint>>) {
        let mut r: Vec<Rc<LatticePoint>> = Vec::new();
        if self.x > 0 {
            r.push(Rc::new(LatticePoint::new(self.x - 1, self.y)));
        }
        let ghost s1 = crate::graph::values(r@);
        if self.y > 0 {
            r.push(Rc::new(LatticePoint::new(self.x, self.y - 1)));
        }
        proof {
            let w = if self.x > 0 { seq![LatticePoint { x: (self.x - 1) as u16, y: self.y }] } else { seq![] };
            let so = if self.y > 0 { seq![LatticePoint { x: self.x, y: (self.y - 1) as u16 }] } else { seq![] };
            assert(s1 =~= w);
            assert(crate::graph::values(r@) =~= w + so);
        }
        r
    }

    fn distance(&self, other: &LatticePoint) -> (r: usize) {
        let dx: u32 = if self.x >= other.x { (self.x - other.x) as u32 } else { (other.x - self.x) as u32 };
        let dy: u32 = if self.y >= other.y { (self.y - other.y) as u32 } else { (other.y - self.y) as u32 };
        (dx + dy) as usize
    }
}

/// Every walk from `p` ends within `p.x + p.y + 1` vertices, whether it stops at a goal or
/// runs on to the origin.
proof fn lemma_lattice_finite_walks(p: LatticePoint, goal: LatticePoint, n: nat)
    requires
        n > p.x + p.y,
    ensures
        ends_within(p, n),
        settles_within(p, goal, n),
    decreases n,
{
    let s = lattice_moves(p);
    assert forall|i: int| 0 <= i < s.len() implies ends_within(#[trigger] s[i], (n - 1) as nat)
        && settles_within(s[i], goal, (n - 1) as nat) by {
        assert(s[i].x + s[i].y + 1 == p.x + p.y);
        lemma_lattice_finite_walks(s[i], goal, (n - 1) as nat);
    }
}

/// The lattice is acyclic and finite below each point: `count_paths` and `bfs_search_all` may
/// start anywhere on it.
pub proof fn lemma_lattice_walks_end(p: LatticePoint, goal: LatticePoint)
    ensures
        ends(p),
        settles(p, goal),
{
    lemma_lattice_finite_walks(p, goal, (p.x + p.y + 1) as nat);
}

/// `==` on lattice points compares coordinates.
pub proof fn lemma_lattice_eq_by_value()
    ensures
        eq_by_value::<LatticePoint>(),
{
}

} // verus!
