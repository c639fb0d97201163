//! Tiles, their shapes and rotations, and the sides of the board.

use vstd::prelude::*;

verus! {

/// A side of a tile, or an edge of the board.
#[derive(Clone, Copy, PartialEq, Eq, Debug, Structural)]
pub enum Side {
    Top,
    Right,
    Bottom,
    Left,
}

/// The shape of the corridor on a tile.
#[derive(Clone, Copy, PartialEq, Eq, Debug, Structural)]
pub enum TileVariant {
    /// 0°   is └
    /// 90°  is ┌
    /// 180° is ┐
    /// 270° is ┘
    LShape,
    /// 0°   is ┬
    /// 90°  is ┤
    /// 180° is ┴
    /// 270° is ├
    TShape,
    /// 0°   is │
    /// 90°  is ─
    /// 180° is │
    /// 270° is ─
    IShape,
}

/// Clockwise rotation of a tile.
#[derive(Clone, Copy, PartialEq, Eq, Debug, Structural)]
pub enum Rotation {
    Zero,
    Ninety,
    OneEighty,
    TwoSeventy,
}

/// A collectible item, identified by a positive number.
#[derive(Clone, Copy, PartialEq, Eq, Debug, Structural)]
pub struct Item(usize);

/// A line of the board, named by the edge at which a tile enters it.
///
/// The index always goes from left to right or from top to bottom.
#[derive(Clone, Copy, PartialEq, Eq, Debug, Structural)]
pub struct SideIndex {
    side: Side,
    index: usize,
}

/// One tile of the maze.
#[derive(Clone, Copy, PartialEq, Eq, Debug)]
pub struct Tile {
    id: usize,
    variant: TileVariant,
    rotation: Rotation,
    item: Option<Item>,
}

/// The tile that is currently off the board.
#[derive(Clone, Copy, PartialEq, Eq, Debug)]
pub struct FreeTile {
    tile: Tile,
    side_with_index: Option<SideIndex>,
}

/// The edge across the board from `side`.
pub open spec fn opposite(side: Side) -> Side {
    match side {
        Side::Top => Side::Bottom,
        Side::Right => Side::Left,
        Side::Bottom => Side::Top,
        Side::Left => Side::Right,
    }
}

/// The sides on which a tile of the given shape and rotation is open, in the
/// order in which a walk tries them.
pub open spec fn open_sides(variant: TileVariant, rotation: Rotation) -> Seq<Side> {
    match (variant, rotation) {
        (TileVariant::LShape, Rotation::Zero) => seq![Side::Top, Side::Right],
        (TileVariant::LShape, Rotation::Ninety) => seq![Side::Bottom, Side::Right],
        (TileVariant::LShape, Rotation::OneEighty) => seq![Side::Bottom, Side::Left],
        (TileVariant::LShape, Rotation::TwoSeventy) => seq![Side::Top, Side::Left],
        (TileVariant::TShape, Rotation::Zero) => seq![Side::Bottom, Side::Left, Side::Right],
        (TileVariant::TShape, Rotation::Ninety) => seq![Side::Top, Side::Bottom, Side::Left],
        (TileVariant::TShape, Rotation::OneEighty) => seq![Side::Top, Side::Left, Side::Right],
        (TileVariant::TShape, Rotation::TwoSeventy) => seq![Side::Top, Side::Bottom, Side::Right],
        (TileVariant::IShape, Rotation::Zero) => seq![Side::Top, Side::Bottom],
        (TileVariant::IShape, Rotation::OneEighty) => seq![Side::Top, Side::Bottom],
        (TileVariant::IShape, Rotation::Ninety) => seq![Side::Left, Side::Right],
        (TileVariant::IShape, Rotation::TwoSeventy) => seq![Side::Left, Side::Right],
    }
}

/// No side is listed twice among the open sides of a tile.
pub proof fn lemma_open_sides_distinct(variant: TileVariant, rotation: Rotation)
    ensures
        open_sides(variant, rotation).no_duplicates(),
{
}

impl Item {
    #[verifier::type_invariant]
    spec fn positive(self) -> bool {
        self.0 != 0
    }

    /// The number that identifies the item.
    pub closed spec fn id(self) -> nat {
        self.0 as nat
    }

    pub fn new(id: usize) -> (item: Self)
        requires
            id != 0,
        ensures
            item.id() == id,
    {
        Self(id)
    }

    pub fn get_id(&self) -> (id: usize)
        ensures
            id == self.id(),
            id != 0,
    {
        proof {
            use_type_invariant(self);
        }
        self.0
    }

    /// Two items are the same value exactly when their numbers agree.
    pub proof fn lemma_id_determines(a: Item, b: Item)
        ensures
            a.id() == b.id() <==> a == b,
    {
    }
}

impl Tile {
    pub closed spec fn id(self) -> nat {
        self.id as nat
    }

    pub closed spec fn variant(self) -> TileVariant {
        self.variant
    }

    pub closed spec fn rotation(self) -> Rotation {
        self.rotation
    }

    pub closed spec fn item(self) -> Option<Item> {
        self.item
    }

    /// The sides on which this tile is open.
    pub open spec fn connection(self) -> Seq<Side> {
        open_sides(self.variant(), self.rotation())
    }

    /// Whether the tile is open on `side`.
    pub open spec fn is_open(self, side: Side) -> bool {
        self.connection().contains(side)
    }

    /// This tile turned to `rotation`.
    pub closed spec fn rotated(self, rotation: Rotation) -> Tile {
        Tile { rotation, ..self }
    }

    pub fn new(id: usize, variant: TileVariant, rotation: Rotation, item: Option<Item>) -> (tile:
        Self)
        ensures
            tile.id() == id,
            tile.variant() == variant,
            tile.rotation() == rotation,
            tile.item() == item,
    {
        Self { id, variant, rotation, item }
    }

    pub fn get_connection(&self) -> (sides: Vec<Side>)
        ensures
            sides@ == self.connection(),
    {
        let sides = match (self.variant, self.rotation) {
            (TileVariant::LShape, Rotation::Zero) => vec![Side::Top, Side::Right],
            (TileVariant::LShape, Rotation::Ninety) => vec![Side::Bottom, Side::Right],
            (TileVariant::LShape, Rotation::OneEighty) => vec![Side::Bottom, Side::Left],
            (TileVariant::LShape, Rotation::TwoSeventy) => vec![Side::Top, Side::Left],
            (TileVariant::TShape, Rotation::Zero) => vec![Side::Bottom, Side::Left, Side::Right],
            (TileVariant::TShape, Rotation::Ninety) => vec![Side::Top, Side::Bottom, Side::Left],
            (TileVariant::TShape, Rotation::OneEighty) => vec![Side::Top, Side::Left, Side::Right],
            (TileVariant::TShape, Rotation::TwoSeventy) => vec![
                Side::Top,
                Side::Bottom,
                Side::Right,
            ],
            (TileVariant::IShape, Rotation::Zero | Rotation::OneEighty) => vec![
                Side::Top,
                Side::Bottom,
            ],
            (TileVariant::IShape, Rotation::Ninety | Rotation::TwoSeventy) => vec![
                Side::Left,
                Side::Right,
            ],
        };
        assert(sides@ =~= self.connection());
        sides
    }

    pub fn get_item(&self) -> (item: Option<Item>)
        ensures
            item == self.item(),
    {
        self.item
    }

    pub fn get_id(&self) -> (id: usize)
        ensures
            id == self.id(),
    {
        self.id
    }

    pub fn get_variant(&self) -> (variant: TileVariant)
        ensures
            variant == self.variant(),
    {
        self.variant
    }

    pub fn get_rotation(&self) -> (rotation: Rotation)
        ensures
            rotation == self.rotation(),
    {
        self.rotation
    }

    /// Turning a tile changes its rotation and nothing else.
    pub proof fn lemma_rotated(self, rotation: Rotation)
        ensures
            self.rotated(rotation).rotation() == rotation,
            self.rotated(rotation).id() == self.id(),
            self.rotated(rotation).variant() == self.variant(),
            self.rotated(rotation).item() == self.item(),
            self.rotated(self.rotation()) == self,
    {
    }
}

impl FreeTile {
    /// The tile that is off the board.
    pub closed spec fn tile(self) -> Tile {
        self.tile
    }

    /// The line and edge at which pushing the tile back in is forbidden.
    pub closed spec fn side_index(self) -> Option<SideIndex> {
        self.side_with_index
    }

    pub fn new(tile: Tile) -> (free: Self)
        ensures
            free.tile() == tile,
            free.side_index().is_none(),
    {
        Self { tile, side_with_index: None }
    }

    pub fn get_side_index(&self) -> (side_index: Option<SideIndex>)
        ensures
            side_index == self.side_index(),
    {
        self.side_with_index
    }

    pub fn get_tile(&self) -> (tile: Tile)
        ensures
            tile == self.tile(),
    {
        self.tile
    }

    pub fn set_rotation(&mut self, rotation: Rotation)
        ensures
            final(self).tile() == old(self).tile().rotated(rotation),
            final(self).tile().rotation() == rotation,
            final(self).tile().id() == old(self).tile().id(),
            final(self).tile().variant() == old(self).tile().variant(),
            final(self).tile().item() == old(self).tile().item(),
            final(self).side_index() == old(self).side_index(),
    {
        self.tile.rotation = rotation;
    }

    pub fn tile_mut(&mut self) -> (tile: &mut Tile)
        ensures
            *tile == old(self).tile(),
            final(self).tile() == *final(tile),
            final(self).side_index() == old(self).side_index(),
    {
        &mut self.tile
    }

    pub fn set_side_index(&mut self, side_index: SideIndex)
        ensures
            final(self).side_index() == Some(side_index),
            final(self).tile() == old(self).tile(),
    {
        self.side_with_index = Some(side_index);
    }
}

impl SideIndex {
    pub closed spec fn side(self) -> Side {
        self.side
    }

    pub closed spec fn index(self) -> nat {
        self.index as nat
    }

    /// The same line, entered from the opposite edge.
    pub closed spec fn shifted(self) -> SideIndex {
        SideIndex { side: opposite(self.side), index: self.index }
    }

    pub fn new(side: Side, index: usize) -> (side_index: Self)
        ensures
            side_index.side() == side,
            side_index.index() == index,
    {
        Self { side, index }
    }

    pub fn get_side(&self) -> (side: Side)
        ensures
            side == self.side(),
    {
        self.side
    }

    pub fn get_index(&self) -> (index: usize)
        ensures
            index == self.index(),
    {
        self.index
    }

    pub fn shift(&self) -> (shifted: Self)
        ensures
            shifted == self.shifted(),
            shifted.side() == opposite(self.side()),
            shifted.index() == self.index(),
    {
        let side = match self.side {
            Side::Top => Side::Bottom,
            Side::Right => Side::Left,
            Side::Bottom => Side::Top,
            Side::Left => Side::Right,
        };

        Self { side, index: self.index }
    }

    /// The opposite entry names the same line from the other edge, and the
    /// opposite of the opposite is the entry itself.
    pub proof fn lemma_shifted(self)
        ensures
            self.shifted().side() == opposite(self.side()),
            self.shifted().index() == self.index(),
            self.shifted().shifted() == self,
            self.shifted() != self,
    {
    }

    /// A line entry is determined by its edge and its index.
    pub proof fn lemma_side_and_index_determine(a: SideIndex, b: SideIndex)
        ensures
            (a.side() == b.side() && a.index() == b.index()) <==> a == b,
    {
    }
}

} // verus!
