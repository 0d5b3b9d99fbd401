//! The value of a single tile, its visibility, and what a player may see of it.
use vstd::prelude::*;

verus! {

/// The hidden value of a tile: the number of mines among its neighbours, or a mine.
#[derive(Copy, Clone, Debug, PartialEq, Eq, Structural)]
pub enum Tile {
    Zero,
    One,
    Two,
    Three,
    Four,
    Five,
    Six,
    Seven,
    Eight,
    Bomb,
}

/// The hint that a tile shows when opened; `None` for a mine.
pub open spec fn tile_count(t: Tile) -> Option<u8> {
    match t {
        Tile::Zero => Some(0u8),
        Tile::One => Some(1u8),
        Tile::Two => Some(2u8),
        Tile::Three => Some(3u8),
        Tile::Four => Some(4u8),
        Tile::Five => Some(5u8),
        Tile::Six => Some(6u8),
        Tile::Seven => Some(7u8),
        Tile::Eight => Some(8u8),
        Tile::Bomb => None,
    }
}

/// The hint tile that shows `n` neighbouring mines, for `n` in `0..=8`.
pub open spec fn tile_of_count(n: int) -> Tile
    recommends
        0 <= n <= 8,
{
    if n == 0 {
        Tile::Zero
    } else if n == 1 {
        Tile::One
    } else if n == 2 {
        Tile::Two
    } else if n == 3 {
        Tile::Three
    } else if n == 4 {
        Tile::Four
    } else if n == 5 {
        Tile::Five
    } else if n == 6 {
        Tile::Six
    } else if n == 7 {
        Tile::Seven
    } else {
        Tile::Eight
    }
}

impl Tile {
    /// Whether this tile holds a mine.
    pub fn is_bomb(self) -> (r: bool)
        ensures
            r == (self == Tile::Bomb),
    {
        matches!(self, Tile::Bomb)
    }

    /// The number of mines around this tile, or `None` if it is a mine itself.
    pub fn as_count(self) -> (r: Option<u8>)
        ensures
            r == tile_count(self),
    {
        match self {
            Tile::Zero => Some(0),
            Tile::One => Some(1),
            Tile::Two => Some(2),
            Tile::Three => Some(3),
            Tile::Four => Some(4),
            Tile::Five => Some(5),
            Tile::Six => Some(6),
            Tile::Seven => Some(7),
            Tile::Eight => Some(8),
            Tile::Bomb => None,
        }
    }

    /// The hint tile for `v` neighbouring mines; `None` above eight.
    pub fn from_count(v: u8) -> (r: Option<Tile>)
        ensures
            v <= 8 ==> r == Some(tile_of_count(v as int)),
            v > 8 ==> r is None,
            r matches Some(t) ==> tile_count(t) == Some(v),
    {
        match v {
            0 => Some(Tile::Zero),
            1 => Some(Tile::One),
            2 => Some(Tile::Two),
            3 => Some(Tile::Three),
            4 => Some(Tile::Four),
            5 => Some(Tile::Five),
            6 => Some(Tile::Six),
            7 => Some(Tile::Seven),
            8 => Some(Tile::Eight),
            _ => None,
        }
    }

    /// A one-character label: a blank for zero, the digit for a hint, `B` for a mine.
    pub fn as_str_count(self) -> (r: &'static str)
        ensures
            r@ == tile_label(self),
    {
        let r = match self {
            Tile::Zero => " ",
            Tile::One => "1",
            Tile::Two => "2",
            Tile::Three => "3",
            Tile::Four => "4",
            Tile::Five => "5",
            Tile::Six => "6",
            Tile::Seven => "7",
            Tile::Eight => "8",
            Tile::Bomb => "B",
        };
        proof {
            reveal_strlit(" ");
            reveal_strlit("1");
            reveal_strlit("2");
            reveal_strlit("3");
            reveal_strlit("4");
            reveal_strlit("5");
            reveal_strlit("6");
            reveal_strlit("7");
            reveal_strlit("8");
            reveal_strlit("B");
        }
        r
    }
}

impl TryFrom<u8> for Tile {
    type Error = ();

    /// The hint tile for `v` neighbouring mines; an error above eight.
    fn try_from(v: u8) -> (r: Result<Tile, ()>) {
        match Tile::from_count(v) {
            Some(t) => Ok(t),
            None => Err(()),
        }
    }
}

impl vstd::std_specs::convert::TryFromSpecImpl<u8> for Tile {
    open spec fn obeys_try_from_spec() -> bool {
        true
    }

    open spec fn try_from_spec(v: u8) -> Result<Tile, ()> {
        if v <= 8 {
            Ok(tile_of_count(v as int))
        } else {
            Err(())
        }
    }
}

/// The label of a tile as a string of one character.
pub open spec fn tile_label(t: Tile) -> Seq<char> {
    match t {
        Tile::Zero => seq![' '],
        Tile::One => seq!['1'],
        Tile::Two => seq!['2'],
        Tile::Three => seq!['3'],
        Tile::Four => seq!['4'],
        Tile::Five => seq!['5'],
        Tile::Six => seq!['6'],
        Tile::Seven => seq!['7'],
        Tile::Eight => seq!['8'],
        Tile::Bomb => seq!['B'],
    }
}

/// Whether a tile is closed, open, or carries a flag.
#[derive(Copy, Clone, Debug, PartialEq, Eq, Structural)]
pub enum Visibility {
    Visible,
    NotVisible,
    Flagged,
}

/// A cell of the board: its hidden value and its visibility.
#[derive(Copy, Clone, Debug, PartialEq, Eq, Structural)]
pub struct BoardTile {
    pub tile: Tile,
    pub visible: Visibility,
}

/// The result of toggling a flag on an open tile.
#[derive(Copy, Clone, Debug, PartialEq, Eq, Structural)]
pub struct AlreadyOpen;

/// The visibility after a flag toggle: closed and flagged swap, open stays open.
pub open spec fn toggled(v: Visibility) -> Visibility {
    match v {
        Visibility::Visible => Visibility::Visible,
        Visibility::NotVisible => Visibility::Flagged,
        Visibility::Flagged => Visibility::NotVisible,
    }
}

impl BoardTile {
    /// Flags a closed tile or unflags a flagged one; an open tile is refused.
    pub fn swap_flag(&mut self) -> (r: Result<(), AlreadyOpen>)
        ensures
            final(self).tile == old(self).tile,
            final(self).visible == toggled(old(self).visible),
            r is Err <==> old(self).visible == Visibility::Visible,
    {
        match self.visible {
            Visibility::Visible => Err(AlreadyOpen),
            Visibility::NotVisible => {
                self.visible = Visibility::Flagged;
                Ok(())
            },
            Visibility::Flagged => {
                self.visible = Visibility::NotVisible;
                Ok(())
            },
        }
    }
}

/// What a player may see of a tile.
#[derive(Copy, Clone, Debug, PartialEq, Eq, Structural)]
pub enum VisibleTile {
    NotVisible,
    Visible(Tile),
    Flagged,
}

/// What a player sees of a cell.
pub open spec fn visible_of(t: BoardTile) -> VisibleTile {
    match t.visible {
        Visibility::Visible => VisibleTile::Visible(t.tile),
        Visibility::NotVisible => VisibleTile::NotVisible,
        Visibility::Flagged => VisibleTile::Flagged,
    }
}

impl BoardTile {
    /// What a player sees of this cell.
    pub fn to_visible(self) -> (r: VisibleTile)
        ensures
            r == visible_of(self),
    {
        match self.visible {
            Visibility::Visible => VisibleTile::Visible(self.tile),
            Visibility::NotVisible => VisibleTile::NotVisible,
            Visibility::Flagged => VisibleTile::Flagged,
        }
    }
}

} // verus!
