//! The piece catalogue: cell values, coordinates, and the seven blocks with
//! their rotation transform.
use rand::Rng;
use vstd::prelude::*;

verus! {

/// A grid cell: empty space, the permanent border, or one of the seven piece
/// colors.
#[derive(Clone, Copy, Debug, PartialEq, Eq, Structural)]
pub enum Cell {
    Empty,
    Wall,
    SkyBlue,
    Blue,
    Orange,
    Yellow,
    Green,
    Purple,
    Red,
}

impl Cell {
    /// True of the seven piece colors, false of `Empty` and `Wall`.
    pub open spec fn is_color(self) -> bool {
        self != Cell::Empty && self != Cell::Wall
    }
}

/// A (row, column) coordinate pair.
#[derive(Clone, Copy, Debug, PartialEq, Eq, Structural)]
pub struct Point(pub u32, pub u32);

impl Point {
    pub fn row(&self) -> (r: u32)
        ensures
            r == self.0,
    {
        self.0
    }

    pub fn col(&self) -> (c: u32)
        ensures
            c == self.1,
    {
        self.1
    }
}

/// Side of the bounding square that every shape lives in.
pub const BLOCK_SIZE: u32 = 4;

/// Number of distinct piece kinds in the catalogue.
pub const KIND_COUNT: u32 = 7;

/// The color of catalogue entry `kind`.
pub open spec fn kind_color(kind: int) -> Cell {
    if kind == 0 {
        Cell::SkyBlue
    } else if kind == 1 {
        Cell::Blue
    } else if kind == 2 {
        Cell::Orange
    } else if kind == 3 {
        Cell::Yellow
    } else if kind == 4 {
        Cell::Green
    } else if kind == 5 {
        Cell::Purple
    } else {
        Cell::Red
    }
}

/// The hand-authored cell offsets of catalogue entry `kind`, within the
/// `BLOCK_SIZE x BLOCK_SIZE` bounding box.
pub open spec fn kind_shape(kind: int) -> Seq<Point> {
    if kind == 0 {
        seq![Point(0, 1), Point(1, 1), Point(2, 1), Point(3, 1)]
    } else if kind == 1 {
        seq![Point(1, 0), Point(1, 1), Point(1, 2), Point(2, 2)]
    } else if kind == 2 {
        seq![Point(2, 1), Point(1, 1), Point(1, 2), Point(1, 3)]
    } else if kind == 3 {
        seq![Point(1, 1), Point(1, 2), Point(2, 1), Point(2, 2)]
    } else if kind == 4 {
        seq![Point(2, 0), Point(2, 1), Point(1, 1), Point(1, 2)]
    } else if kind == 5 {
        seq![Point(1, 1), Point(1, 2), Point(1, 3), Point(2, 2)]
    } else {
        seq![Point(1, 1), Point(1, 2), Point(2, 2), Point(2, 3)]
    }
}

/// One quarter turn about the fixed bounding box: offset (r, c) maps to
/// (c, BLOCK_SIZE - 1 - r).
pub open spec fn rot_point(p: Point) -> Point {
    Point(p.1, (BLOCK_SIZE - 1 - p.0) as u32)
}

/// A whole shape after one quarter turn.
pub open spec fn turned_shape(s: Seq<Point>) -> Seq<Point> {
    s.map_values(|p: Point| rot_point(p))
}

/// An immutable catalogue entry: bounding-box side, color, and occupied cell
/// offsets.
pub struct Block {
    pub size: u32,
    pub color: Cell,
    pub shape: Vec<Point>,
}

impl Block {
    /// Well-formedness: the fixed bounding box, four occupied offsets that
    /// all lie inside it, and a genuine piece color.
    pub open spec fn wf(self) -> bool {
        &&& self.size == BLOCK_SIZE
        &&& self.shape@.len() == 4
        &&& forall|i: int|
            0 <= i < self.shape@.len() ==> (#[trigger] self.shape@[i]).0 < BLOCK_SIZE
                && self.shape@[i].1 < BLOCK_SIZE
        &&& self.color.is_color()
    }

    /// True when this block is catalogue entry `kind`.
    pub open spec fn is_kind(self, kind: int) -> bool {
        self.color == kind_color(kind) && self.shape@ == kind_shape(kind)
    }

    pub fn kindCount() -> (n: u32)
        ensures
            n == KIND_COUNT,
    {
        KIND_COUNT
    }

    pub fn getSize(&self) -> (s: u32)
        ensures
            s == self.size,
    {
        self.size
    }

    pub fn getColor(&self) -> (c: Cell)
        ensures
            c == self.color,
    {
        self.color
    }

    /// Read-only view of the occupied offsets.
    pub fn getShape(&self) -> (s: &Vec<Point>)
        ensures
            s@ == self.shape@,
    {
        &self.shape
    }

    /// The catalogue entry for `kind`. A kind at or above `KIND_COUNT` is a
    /// contract violation, so it is excluded up front.
    pub fn new(kind: u32) -> (b: Block)
        requires
            kind < KIND_COUNT,
        ensures
            b.wf(),
            b.is_kind(kind as int),
    {
        let (color, shape): (Cell, Vec<Point>) = if kind == 0 {
            (Cell::SkyBlue, vec![Point(0, 1), Point(1, 1), Point(2, 1), Point(3, 1)])
        } else if kind == 1 {
            (Cell::Blue, vec![Point(1, 0), Point(1, 1), Point(1, 2), Point(2, 2)])
        } else if kind == 2 {
            (Cell::Orange, vec![Point(2, 1), Point(1, 1), Point(1, 2), Point(1, 3)])
        } else if kind == 3 {
            (Cell::Yellow, vec![Point(1, 1), Point(1, 2), Point(2, 1), Point(2, 2)])
        } else if kind == 4 {
            (Cell::Green, vec![Point(2, 0), Point(2, 1), Point(1, 1), Point(1, 2)])
        } else if kind == 5 {
            (Cell::Purple, vec![Point(1, 1), Point(1, 2), Point(1, 3), Point(2, 2)])
        } else {
            (Cell::Red, vec![Point(1, 1), Point(1, 2), Point(2, 2), Point(2, 3)])
        };
        proof {
            assert(shape@ =~= kind_shape(kind as int));
        }
        Block { size: BLOCK_SIZE, color, shape }
    }

    /// A block of a uniformly random kind.
    pub fn new_rand() -> (b: Block)
        ensures
            b.wf(),
            exists|kind: int| 0 <= kind < KIND_COUNT && b.is_kind(kind),
    {
        let kind = random_kind();
        let b = Block::new(kind);
        proof {
            assert(b.is_kind(kind as int));
        }
        b
    }

    /// A new block, turned one quarter about the bounding box. Same size and
    /// color; no re-centering, so the result may collide where the original
    /// did not (the caller's occupancy check decides).
    pub fn turn(&self) -> (b: Block)
        requires
            self.wf(),
        ensures
            b.wf(),
            b.size == self.size,
            b.color == self.color,
            b.shape@ == turned_shape(self.shape@),
    {
        let mut shape: Vec<Point> = Vec::new();
        let mut i: usize = 0;
        while i < self.shape.len()
            invariant
                self.wf(),
                i <= self.shape@.len(),
                shape@.len() == i,
                forall|j: int| 0 <= j < i ==> shape@[j] == rot_point(#[trigger] self.shape@[j]),
            decreases self.shape@.len() - i,
        {
            let p = self.shape[i];
            shape.push(Point(p.1, self.size - 1 - p.0));
            i += 1;
        }
        proof {
            assert(shape@ =~= turned_shape(self.shape@));
        }
        Block { size: self.size, color: self.color, shape }
    }

    /// An independent copy, field for field.
    pub(crate) fn duplicate(&self) -> (b: Block)
        ensures
            b.size == self.size,
            b.color == self.color,
            b.shape@ == self.shape@,
    {
        let mut shape: Vec<Point> = Vec::new();
        let mut i: usize = 0;
        while i < self.shape.len()
            invariant
                i <= self.shape@.len(),
                shape@.len() == i,
                forall|j: int| 0 <= j < i ==> shape@[j] == #[trigger] self.shape@[j],
            decreases self.shape@.len() - i,
        {
            let p = self.shape[i];
            shape.push(p);
            i += 1;
        }
        proof {
            assert(shape@ =~= self.shape@);
        }
        Block { size: self.size, color: self.color, shape }
    }
}

/// Two blocks with equal fields.
pub open spec fn block_eq(a: Block, b: Block) -> bool {
    a.size == b.size && a.color == b.color && a.shape@ == b.shape@
}

/// Relies on rand::Rng::gen_range on rand::thread_rng(): a value drawn from
/// the given nonempty half-open range, hence always below its upper bound.
#[verifier::external_body]
fn random_kind() -> (k: u32)
    ensures
        k < KIND_COUNT,
{
    rand::thread_rng().gen_range(0..KIND_COUNT)
}

/// Rotation reversibility: four quarter turns return any in-box shape to
/// exactly the original offsets.
pub proof fn lemma_turn_four_times(s: Seq<Point>)
    requires
        forall|i: int| 0 <= i < s.len() ==> (#[trigger] s[i]).0 < BLOCK_SIZE && s[i].1 < BLOCK_SIZE,
    ensures
        turned_shape(turned_shape(turned_shape(turned_shape(s)))) == s,
{
    assert(turned_shape(turned_shape(turned_shape(turned_shape(s)))) =~= s);
}

} // verus!
