//! The terrain layer: cell kinds and the rectangular map they form.

use vstd::prelude::*;

use crate::textutil::chars_to_string;

verus! {

/// The symbol standing for a `Void` cell in level text.
pub const SYMBOL_VOID: char = ' ';

/// The symbol standing for a `Floor` cell in level text.
pub const SYMBOL_FLOOR: char = '.';

/// The symbol standing for a `Wall` cell in level text.
pub const SYMBOL_WALL: char = '#';

/// The symbol standing for a `Target` cell in level text.
pub const SYMBOL_TARGET: char = 'X';

/// Terrain of a single square of the map.
#[derive(Clone, Copy, Debug, PartialEq, Eq, Structural)]
pub enum CellKind {
    /// Empty space outside the playing area; neither the player nor a crate
    /// may stand here.
    Void,
    /// Ordinary ground that can be walked upon.
    Floor,
    /// A wall; nothing can cross it.
    Wall,
    /// A destination square for crates; it can be crossed.
    Target,
}

impl CellKind {
    /// A cell permits occupancy exactly when it is `Floor` or `Target`.
    pub open spec fn spec_is_crossable(&self) -> bool {
        self is Floor || self is Target
    }

    /// Whether the player or a crate may stand on this kind of cell.
    #[verifier::when_used_as_spec(spec_is_crossable)]
    pub fn is_crossable(&self) -> (r: bool)
        ensures
            r == self.spec_is_crossable(),
    {
        matches!(self, CellKind::Floor | CellKind::Target)
    }
}

/// The level-text symbol written for a cell kind.
pub open spec fn spec_cell_symbol(k: CellKind) -> char {
    match k {
        CellKind::Void => SYMBOL_VOID,
        CellKind::Floor => SYMBOL_FLOOR,
        CellKind::Wall => SYMBOL_WALL,
        CellKind::Target => SYMBOL_TARGET,
    }
}

/// The cell kind a level-text symbol stands for, `None` for a foreign symbol.
pub open spec fn spec_symbol_cell(c: char) -> Option<CellKind> {
    if c == SYMBOL_VOID {
        Some(CellKind::Void)
    } else if c == SYMBOL_FLOOR {
        Some(CellKind::Floor)
    } else if c == SYMBOL_WALL {
        Some(CellKind::Wall)
    } else if c == SYMBOL_TARGET {
        Some(CellKind::Target)
    } else {
        None
    }
}

/// The level-text symbol written for a cell kind.
pub fn cell_symbol(k: CellKind) -> (c: char)
    ensures
        c == spec_cell_symbol(k),
{
    match k {
        CellKind::Void => SYMBOL_VOID,
        CellKind::Floor => SYMBOL_FLOOR,
        CellKind::Wall => SYMBOL_WALL,
        CellKind::Target => SYMBOL_TARGET,
    }
}

/// The cell kind a level-text symbol stands for, `None` for a foreign symbol.
pub fn symbol_cell(c: char) -> (k: Option<CellKind>)
    ensures
        k == spec_symbol_cell(c),
{
    if c == SYMBOL_VOID {
        Some(CellKind::Void)
    } else if c == SYMBOL_FLOOR {
        Some(CellKind::Floor)
    } else if c == SYMBOL_WALL {
        Some(CellKind::Wall)
    } else if c == SYMBOL_TARGET {
        Some(CellKind::Target)
    } else {
        None
    }
}

/// Reading back the symbol written for a cell yields that cell again.
pub proof fn lemma_symbol_cell_inverse(k: CellKind)
    ensures
        spec_symbol_cell(spec_cell_symbol(k)) == Some(k),
{
}

/// The product of two `u32` values fits in a `u64`.
proof fn lemma_u32_mul_fits_u64(a: u32, b: u32)
    ensures
        (a as int) * (b as int) <= u32::MAX * u32::MAX,
        (a as int) * (b as int) >= 0,
{
    assert((a as int) * (b as int) <= u32::MAX * u32::MAX && (a as int) * (b as int) >= 0)
        by (nonlinear_arith)
        requires
            0 <= a <= u32::MAX,
            0 <= b <= u32::MAX,
    ;
}

/// The error raised when a map cannot be built.
#[derive(Clone, Copy, Debug, PartialEq, Eq, Structural)]
pub enum MapError {
    /// `width * height` does not fit in the cell index type (`u32`).
    InvalidDimensions,
    /// The level text holds a symbol that stands for no cell kind.
    UnknownSymbol(char),
}

/// Mathematical model of a map: its dimensions and the row-major grid of
/// cells.
#[verifier::ext_equal]
pub struct GridModel {
    pub width: nat,
    pub height: nat,
    pub cells: Seq<CellKind>,
}

impl GridModel {
    /// The grid is rectangular and every cell index fits in `u32`.
    pub open spec fn wf(self) -> bool {
        &&& self.cells.len() == self.width * self.height
        &&& self.width * self.height <= u32::MAX
    }

    /// Total lookup: any out-of-bounds coordinate reads as `Void`.
    pub open spec fn cell(self, i: int, j: int) -> CellKind {
        if 0 <= i < self.width && 0 <= j < self.height {
            self.cells[j * self.width + i]
        } else {
            CellKind::Void
        }
    }
}

/// One row of the map as level text: the symbol of each cell of row `j`.
pub open spec fn render_row(g: GridModel, j: int) -> Seq<char> {
    Seq::new(g.width, |i: int| spec_cell_symbol(g.cell(i, j)))
}

/// The map as level text from row `j` on: each row's symbols followed by a
/// newline.
pub open spec fn render_rows(g: GridModel, j: int) -> Seq<char>
    decreases g.height - j,
{
    if j < 0 || j >= g.height {
        Seq::empty()
    } else {
        render_row(g, j) + seq!['\n'] + render_rows(g, j + 1)
    }
}

/// The map as level text: one line of symbols per row, each line ended by a
/// newline.
pub open spec fn render(g: GridModel) -> Seq<char> {
    render_rows(g, 0)
}

/// The map on which the crates and the player move. Its grid is fixed once
/// the map is constructed.
#[derive(Debug)]
pub struct Grid {
    width: u32,
    height: u32,
    squares: Vec<CellKind>,
}

impl View for Grid {
    type V = GridModel;

    closed spec fn view(&self) -> GridModel {
        GridModel {
            width: self.width as nat,
            height: self.height as nat,
            cells: self.squares@,
        }
    }
}

impl PartialEq for Grid {
    /// Two maps are equal when they have the same dimensions and cells.
    fn eq(&self, other: &Grid) -> (r: bool) {
        proof {
            use_type_invariant(self);
            use_type_invariant(other);
        }
        if self.width != other.width || self.height != other.height {
            return false;
        }
        let mut n: usize = 0;
        while n < self.squares.len()
            invariant
                n <= self.squares@.len(),
                self.squares@.len() == other.squares@.len(),
                forall|k: int| 0 <= k < n ==> self.squares@[k] == other.squares@[k],
            decreases self.squares@.len() - n,
        {
            let a = self.squares[n];
            let b = other.squares[n];
            if a != b {
                return false;
            }
            n += 1;
        }
        proof {
            assert(self.squares@ =~= other.squares@);
            assert(self@ =~= other@);
        }
        true
    }
}

impl Eq for Grid {

}

impl vstd::std_specs::cmp::PartialEqSpecImpl for Grid {
    open spec fn obeys_eq_spec() -> bool {
        true
    }

    open spec fn eq_spec(&self, other: &Grid) -> bool {
        self@ == other@
    }
}

impl Grid {
    #[verifier::type_invariant]
    closed spec fn type_wf(self) -> bool {
        self@.wf()
    }

    /// Whether a `width * height` grid is representable: every cell index
    /// must fit in `u32`.
    pub open spec fn dims_ok(width: u32, height: u32) -> bool {
        width * height <= u32::MAX
    }

    /// Creates a map of the given dimensions filled with `Void`.
    pub fn new(width: u32, height: u32) -> (r: Result<Grid, MapError>)
        ensures
            match r {
                Ok(m) => {
                    &&& Self::dims_ok(width, height)
                    &&& m@.width == width
                    &&& m@.height == height
                    &&& forall|i: int, j: int| m@.cell(i, j) == CellKind::Void
                },
                Err(e) => e == MapError::InvalidDimensions && !Self::dims_ok(width, height),
            },
    {
        proof {
            lemma_u32_mul_fits_u64(width, height);
        }
        let len64 = (width as u64) * (height as u64);
        if len64 > u32::MAX as u64 {
            return Err(MapError::InvalidDimensions);
        }
        let len = len64 as usize;
        let mut squares: Vec<CellKind> = Vec::new();
        while squares.len() < len
            invariant
                len == width * height,
                squares@.len() <= len,
                forall|k: int| 0 <= k < squares@.len() ==> squares@[k] == CellKind::Void,
            decreases len - squares.len(),
        {
            squares.push(CellKind::Void);
        }
        let m = Grid { width, height, squares };
        proof {
            assert forall|i: int, j: int| m@.cell(i, j) == CellKind::Void by {
                if 0 <= i < m@.width && 0 <= j < m@.height {
                    assert(0 <= j * (width as int) + i < (width as int) * (height as int))
                        by (nonlinear_arith)
                        requires
                            0 <= i < width as int,
                            0 <= j < height as int,
                    ;
                }
            }
        }
        Ok(m)
    }

    /// Assembles a map from an explicit row-major cell vector. Yields `None`
    /// when the vector does not have exactly `width * height` cells or the
    /// dimensions are not representable.
    pub fn from_cells(width: u32, height: u32, cells: Vec<CellKind>) -> (r: Option<Grid>)
        ensures
            match r {
                Some(m) => {
                    &&& Self::dims_ok(width, height)
                    &&& cells@.len() == width * height
                    &&& m@ == (GridModel {
                        width: width as nat,
                        height: height as nat,
                        cells: cells@,
                    })
                },
                None => !(Self::dims_ok(width, height) && cells@.len() == width * height),
            },
    {
        proof {
            lemma_u32_mul_fits_u64(width, height);
        }
        let len64 = (width as u64) * (height as u64);
        if len64 > u32::MAX as u64 {
            return None;
        }
        if (cells.len() as u64) != len64 {
            return None;
        }
        Some(Grid { width, height, squares: cells })
    }

    /// Width of the map.
    pub fn width(&self) -> (r: u32)
        ensures
            r == self@.width,
    {
        self.width
    }

    /// Height of the map.
    pub fn height(&self) -> (r: u32)
        ensures
            r == self@.height,
    {
        self.height
    }

    /// The cell at column `i` and row `j`, or `None` when the coordinates
    /// fall outside the map.
    pub fn try_get(&self, i: u32, j: u32) -> (r: Option<CellKind>)
        ensures
            r == (if i < self@.width && j < self@.height {
                Some(self@.cell(i as int, j as int))
            } else {
                None::<CellKind>
            }),
    {
        proof {
            use_type_invariant(self);
        }
        if i < self.width && j < self.height {
            proof {
                assert((j as int) * (self.width as int) + (i as int) < (self.width as int) * (
                self.height as int)) by (nonlinear_arith)
                    requires
                        i < self.width,
                        j < self.height,
                ;
            }
            let idx = (j as usize) * (self.width as usize) + (i as usize);
            Some(self.squares[idx])
        } else {
            None
        }
    }

    /// Same as [`Grid::try_get`], but out-of-bounds coordinates read as
    /// `Void`: every coordinate pair is a legal query.
    pub fn get(&self, i: u32, j: u32) -> (r: CellKind)
        ensures
            r == self@.cell(i as int, j as int),
    {
        match self.try_get(i, j) {
            Some(c) => c,
            None => CellKind::Void,
        }
    }

    /// The map as level text: `height` lines of `width` symbols, each line
    /// ended by a newline.
    #[verifier::loop_isolation(false)]
    pub fn to_text(&self) -> (r: String)
        ensures
            r@ == render(self@),
    {
        let ghost g = self@;
        let w = self.width();
        let h = self.height();
        let mut buf: Vec<char> = Vec::new();
        let mut j: u32 = 0;
        proof {
            assert(buf@ + render_rows(g, 0) =~= render_rows(g, 0));
        }
        while j < h
            invariant
                0 <= j <= h,
                buf@ + render_rows(g, j as int) == render(g),
            decreases h - j,
        {
            let ghost row_start = buf@;
            let mut i: u32 = 0;
            while i < w
                invariant
                    0 <= i <= w,
                    0 <= j < h,
                    buf@ == row_start + render_row(g, j as int).take(i as int),
                decreases w - i,
            {
                let c = cell_symbol(self.get(i, j));
                buf.push(c);
                i += 1;
                proof {
                    assert(render_row(g, j as int).take(i as int) =~= render_row(
                        g,
                        j as int,
                    ).take(i - 1).push(render_row(g, j as int)[i - 1]));
                }
            }
            buf.push('\n');
            proof {
                assert(render_row(g, j as int).take(w as int) =~= render_row(g, j as int));
                assert(buf@ =~= row_start + (render_row(g, j as int) + seq!['\n']));
                assert(buf@ + render_rows(g, j + 1) =~= row_start + render_rows(g, j as int));
            }
            j += 1;
        }
        proof {
            assert(render_rows(g, h as int) =~= Seq::<char>::empty());
            assert(buf@ =~= render(g));
        }
        chars_to_string(&buf)
    }
}

} // verus!
