//! The level parser: turns a plain-text level source into a board.
//!
//! A level source holds exactly three non-empty blocks separated by blank
//! lines: the map rows, one `"x,y"` line for the player, and one `"x,y"`
//! line per crate in stable order. The whole grammar is written down as spec
//! functions, and each parsing function is proved to compute exactly what
//! they say.

use vstd::arithmetic::div_mod::{
    lemma_fundamental_div_mod, lemma_fundamental_div_mod_converse, lemma_mod_bound,
};
use vstd::prelude::*;

use crate::board::{Board, BoardModel};
use crate::map::{
    lemma_symbol_cell_inverse, render, render_row, render_rows, spec_cell_symbol,
    spec_symbol_cell, symbol_cell,
    CellKind, Grid, GridModel, MapError,
};
use crate::movable::Crate;
use crate::textutil::{
    chars_of, chars_to_string, drop_empty, lemma_max_line_len_bound, lemma_max_line_len_const,
    lemma_split_char_concat, lemma_split_char_none, lemma_strip_leading_skip,
    lemma_strip_trailing_take, lines_of, max_line_len, parse_u32, spec_parse_u32, split_blocks,
    split_char, split_char_exec, split_level_blocks, strip_blank_edges,
};

verus! {

/// The typed failure a level source can produce. Construction aborts on the
/// first failure; no partial board is ever returned.
#[derive(Debug, PartialEq, Eq)]
pub enum LevelParseError {
    /// The source has no non-empty block at all.
    MissingMap,
    /// No block follows the map block.
    MissingPlayerCoordinates,
    /// No block follows the player block.
    MissingCratesCoordinates,
    /// The map block names a foreign symbol, or its dimensions do not fit.
    CantParseMap(MapError),
    /// The player block is no `"x,y"` line; carries that raw block.
    CantParsePlayerCoordinates(String),
    /// A line of the crates block is no `"x,y"` line; carries that raw line.
    CantParseCrateCoordinates(String),
}

/// Spec-level mirror of [`LevelParseError`], carrying raw text as character
/// sequences.
pub enum ParseFail {
    MissingMap,
    MissingPlayerCoordinates,
    MissingCratesCoordinates,
    CantParseMap(MapError),
    CantParsePlayerCoordinates(Seq<char>),
    CantParseCrateCoordinates(Seq<char>),
}

/// The exec error `e` reports exactly the spec-level failure `f`.
pub open spec fn error_matches(e: LevelParseError, f: ParseFail) -> bool {
    match (e, f) {
        (LevelParseError::MissingMap, ParseFail::MissingMap) => true,
        (
            LevelParseError::MissingPlayerCoordinates,
            ParseFail::MissingPlayerCoordinates,
        ) => true,
        (
            LevelParseError::MissingCratesCoordinates,
            ParseFail::MissingCratesCoordinates,
        ) => true,
        (LevelParseError::CantParseMap(a), ParseFail::CantParseMap(b)) => a == b,
        (
            LevelParseError::CantParsePlayerCoordinates(s),
            ParseFail::CantParsePlayerCoordinates(q),
        ) => s@ == q,
        (
            LevelParseError::CantParseCrateCoordinates(s),
            ParseFail::CantParseCrateCoordinates(q),
        ) => s@ == q,
        _ => false,
    }
}

/// The coordinates a `"x,y"` line gives: the first two comma-separated
/// fields must be decimal numbers fitting in `u32`; further fields are
/// ignored.
pub open spec fn spec_parse_coords(line: Seq<char>) -> Option<(u32, u32)> {
    let fs = split_char(line, ',');
    if fs.len() < 2 {
        None
    } else {
        match (spec_parse_u32(fs[0]), spec_parse_u32(fs[1])) {
            (Some(x), Some(y)) => Some((x, y)),
            _ => None,
        }
    }
}

/// The first character of `l` that stands for no cell kind.
pub open spec fn line_bad(l: Seq<char>) -> Option<char>
    decreases l.len(),
{
    if l.len() == 0 {
        None
    } else if spec_symbol_cell(l[0]) is None {
        Some(l[0])
    } else {
        line_bad(l.drop_first())
    }
}

/// The first foreign symbol of the map rows, scanning row by row.
pub open spec fn rows_bad(ls: Seq<Seq<char>>) -> Option<char>
    decreases ls.len(),
{
    if ls.len() == 0 {
        None
    } else {
        match line_bad(ls[0]) {
            Some(c) => Some(c),
            None => rows_bad(ls.drop_first()),
        }
    }
}

/// A line whose symbols all stand for cells has no bad character.
pub proof fn lemma_line_bad_none(l: Seq<char>)
    requires
        forall|m: int| 0 <= m < l.len() ==> spec_symbol_cell(#[trigger] l[m]) is Some,
    ensures
        line_bad(l) is None,
    decreases l.len(),
{
    if l.len() > 0 {
        let rest = l.drop_first();
        assert forall|m: int| 0 <= m < rest.len() implies spec_symbol_cell(
            #[trigger] rest[m],
        ) is Some by {
            assert(rest[m] == l[m + 1]);
        }
        lemma_line_bad_none(rest);
    }
}

/// The first foreign symbol of a line is its bad character.
pub proof fn lemma_line_bad_some(l: Seq<char>, i: int)
    requires
        0 <= i < l.len(),
        forall|m: int| 0 <= m < i ==> spec_symbol_cell(#[trigger] l[m]) is Some,
        spec_symbol_cell(l[i]) is None,
    ensures
        line_bad(l) == Some(l[i]),
    decreases l.len(),
{
    if i > 0 {
        let rest = l.drop_first();
        assert forall|m: int| 0 <= m < i - 1 implies spec_symbol_cell(
            #[trigger] rest[m],
        ) is Some by {
            assert(rest[m] == l[m + 1]);
        }
        assert(rest[i - 1] == l[i]);
        lemma_line_bad_some(rest, i - 1);
    }
}

/// Rows whose lines all pass have no bad character.
pub proof fn lemma_rows_bad_none(ls: Seq<Seq<char>>)
    requires
        forall|j: int| 0 <= j < ls.len() ==> line_bad(#[trigger] ls[j]) is None,
    ensures
        rows_bad(ls) is None,
    decreases ls.len(),
{
    if ls.len() > 0 {
        let rest = ls.drop_first();
        assert forall|j: int| 0 <= j < rest.len() implies line_bad(#[trigger] rest[j]) is None by {
            assert(rest[j] == ls[j + 1]);
        }
        lemma_rows_bad_none(rest);
    }
}

/// The bad character of the first failing row is the rows' bad character.
pub proof fn lemma_rows_bad_some(ls: Seq<Seq<char>>, j: int, c: char)
    requires
        0 <= j < ls.len(),
        forall|m: int| 0 <= m < j ==> line_bad(#[trigger] ls[m]) is None,
        line_bad(ls[j]) == Some(c),
    ensures
        rows_bad(ls) == Some(c),
    decreases ls.len(),
{
    if j > 0 {
        let rest = ls.drop_first();
        assert forall|m: int| 0 <= m < j - 1 implies line_bad(#[trigger] rest[m]) is None by {
            assert(rest[m] == ls[m + 1]);
        }
        assert(rest[j - 1] == ls[j]);
        lemma_rows_bad_some(rest, j - 1, c);
    }
}

/// The cell a row's text gives at column `i`: a foreign symbol or a column
/// beyond the row's end reads as `Void` (short rows pad with `Void`).
pub open spec fn line_cell(l: Seq<char>, i: int) -> CellKind {
    if 0 <= i < l.len() {
        match spec_symbol_cell(l[i]) {
            Some(k) => k,
            None => CellKind::Void,
        }
    } else {
        CellKind::Void
    }
}

/// The row-major cells of the grid that the rows `ls` describe at width `w`.
pub open spec fn grid_cells(ls: Seq<Seq<char>>, w: nat) -> Seq<CellKind> {
    Seq::new(ls.len() * w, |n: int| line_cell(ls[n / w as int], n % w as int))
}

/// The grid a map block describes. Its rows are the block's lines with blank
/// edge lines excluded; its width is the length of the longest row, shorter
/// rows padding with `Void`. The dimensions must fit the cell index type,
/// and every symbol must stand for a cell.
pub open spec fn spec_parse_map(b: Seq<char>) -> Result<GridModel, MapError> {
    let ls = strip_blank_edges(split_char(b, '\n'));
    let h = ls.len();
    let w = max_line_len(ls);
    if w > u32::MAX || h > u32::MAX || w * h > u32::MAX {
        Err(MapError::InvalidDimensions)
    } else {
        match rows_bad(ls) {
            Some(c) => Err(MapError::UnknownSymbol(c)),
            None => Ok(GridModel { width: w, height: h, cells: grid_cells(ls, w) }),
        }
    }
}

/// The crate positions the lines give, or the first line that fails.
pub open spec fn spec_parse_crates(ls: Seq<Seq<char>>) -> Result<Seq<(u32, u32)>, Seq<char>>
    decreases ls.len(),
{
    if ls.len() == 0 {
        Ok(Seq::empty())
    } else {
        match spec_parse_coords(ls[0]) {
            None => Err(ls[0]),
            Some(c) => match spec_parse_crates(ls.drop_first()) {
                Err(l) => Err(l),
                Ok(rest) => Ok(seq![c] + rest),
            },
        }
    }
}

/// When every line parses, the crates are exactly the parsed positions in
/// line order.
pub proof fn lemma_parse_crates_ok(ls: Seq<Seq<char>>, cs: Seq<(u32, u32)>)
    requires
        cs.len() == ls.len(),
        forall|j: int| 0 <= j < ls.len() ==> spec_parse_coords(#[trigger] ls[j]) == Some(cs[j]),
    ensures
        spec_parse_crates(ls) == Ok::<Seq<(u32, u32)>, Seq<char>>(cs),
    decreases ls.len(),
{
    if ls.len() > 0 {
        let lrest = ls.drop_first();
        let crest = cs.drop_first();
        assert forall|j: int| 0 <= j < lrest.len() implies spec_parse_coords(#[trigger] lrest[j])
            == Some(crest[j]) by {
            assert(lrest[j] == ls[j + 1]);
            assert(crest[j] == cs[j + 1]);
        }
        lemma_parse_crates_ok(lrest, crest);
        assert(seq![cs[0]] + crest =~= cs);
    } else {
        assert(cs =~= Seq::<(u32, u32)>::empty());
    }
}

/// The first failing line is the reported one.
pub proof fn lemma_parse_crates_err(ls: Seq<Seq<char>>, j: int)
    requires
        0 <= j < ls.len(),
        forall|m: int| 0 <= m < j ==> spec_parse_coords(#[trigger] ls[m]) is Some,
        spec_parse_coords(ls[j]) is None,
    ensures
        spec_parse_crates(ls) == Err::<Seq<(u32, u32)>, Seq<char>>(ls[j]),
    decreases ls.len(),
{
    if j > 0 {
        let rest = ls.drop_first();
        assert forall|m: int| 0 <= m < j - 1 implies spec_parse_coords(
            #[trigger] rest[m],
        ) is Some by {
            assert(rest[m] == ls[m + 1]);
        }
        assert(rest[j - 1] == ls[j]);
        lemma_parse_crates_err(rest, j - 1);
    }
}

/// The board a level source describes, or the failure it produces. The
/// source splits at blank lines into non-empty blocks: the map rows, the
/// player's `"x,y"` line, and one `"x,y"` line per crate. The parsed layout
/// is also the board's saved original layout. The parser checks no board
/// invariant: whether the parsed layout puts everything on crossable ground
/// without overlaps is the caller's to validate.
pub open spec fn spec_parse_level(s: Seq<char>) -> Result<BoardModel, ParseFail> {
    let bs = drop_empty(split_blocks(s));
    if bs.len() < 1 {
        Err(ParseFail::MissingMap)
    } else {
        match spec_parse_map(bs[0]) {
            Err(me) => Err(ParseFail::CantParseMap(me)),
            Ok(grid) => {
                if bs.len() < 2 {
                    Err(ParseFail::MissingPlayerCoordinates)
                } else {
                    match spec_parse_coords(bs[1]) {
                        None => Err(ParseFail::CantParsePlayerCoordinates(bs[1])),
                        Some(player) => {
                            if bs.len() < 3 {
                                Err(ParseFail::MissingCratesCoordinates)
                            } else {
                                match spec_parse_crates(lines_of(bs[2])) {
                                    Err(l) => Err(ParseFail::CantParseCrateCoordinates(l)),
                                    Ok(cs) => Ok(
                                        BoardModel {
                                            grid,
                                            player,
                                            crates: cs,
                                            original_player: player,
                                            original_crates: cs,
                                        },
                                    ),
                                }
                            }
                        },
                    }
                }
            },
        }
    }
}

/// Reads one `"x,y"` coordinate line.
pub fn parse_coords(line: &Vec<char>) -> (r: Option<(u32, u32)>)
    ensures
        r == spec_parse_coords(line@),
{
    let fields = split_char_exec(line, ',');
    if fields.len() < 2 {
        return None;
    }
    let x = parse_u32(&fields[0]);
    let y = parse_u32(&fields[1]);
    match (x, y) {
        (Some(a), Some(b)) => Some((a, b)),
        _ => None,
    }
}

/// Parses one map block into a grid.
#[verifier::loop_isolation(false)]
pub fn parse_map(block: &Vec<char>) -> (r: Result<Grid, MapError>)
    ensures
        match r {
            Ok(g) => spec_parse_map(block@) == Ok::<GridModel, MapError>(g@),
            Err(e) => spec_parse_map(block@) == Err::<GridModel, MapError>(e),
        },
{
    let lines = split_char_exec(block, '\n');
    let ghost lsall = split_char(block@, '\n');
    let mut lo: usize = 0;
    while lo < lines.len() && lines[lo].len() == 0
        invariant
            lo <= lines@.len(),
            lsall == lines@.map_values(|b: Vec<char>| b@),
            forall|m: int| 0 <= m < lo ==> lsall[m].len() == 0,
        decreases lines@.len() - lo,
    {
        lo += 1;
    }
    let mut hi: usize = lines.len();
    while hi > lo && lines[hi - 1].len() == 0
        invariant
            lo <= hi <= lines@.len(),
            lsall == lines@.map_values(|b: Vec<char>| b@),
            forall|m: int| hi <= m < lsall.len() ==> lsall[m].len() == 0,
        decreases hi,
    {
        hi -= 1;
    }
    let ghost ls = lsall.subrange(lo as int, hi as int);
    proof {
        lemma_strip_leading_skip(lsall, lo as int);
        let mid = lsall.skip(lo as int);
        assert forall|m: int| (hi - lo) <= m < mid.len() implies mid[m].len() == 0 by {
            assert(mid[m] == lsall[m + lo]);
        }
        if hi > lo {
            assert(mid[hi - lo - 1] == lsall[hi - 1]);
        }
        lemma_strip_trailing_take(mid, hi - lo);
        assert(mid.take(hi - lo) =~= ls);
        assert(strip_blank_edges(lsall) == ls);
    }
    let h = hi - lo;
    let mut w: usize = 0;
    let mut m: usize = lo;
    while m < hi
        invariant
            lo <= m <= hi <= lines@.len(),
            lsall == lines@.map_values(|b: Vec<char>| b@),
            ls == lsall.subrange(lo as int, hi as int),
            w == max_line_len(lsall.subrange(lo as int, m as int)),
        decreases hi - m,
    {
        proof {
            assert(lsall.subrange(lo as int, m + 1 as int).drop_last() =~= lsall.subrange(
                lo as int,
                m as int,
            ));
            assert(lsall.subrange(lo as int, m + 1 as int).last() == lsall[m as int]);
        }
        let ln = lines[m].len();
        if ln > w {
            w = ln;
        }
        m += 1;
    }
    proof {
        assert(w == max_line_len(ls));
    }
    if (w as u64) > u32::MAX as u64 || (h as u64) > u32::MAX as u64 {
        return Err(MapError::InvalidDimensions);
    }
    proof {
        assert((w as int) * (h as int) <= u32::MAX * u32::MAX && 0 <= (w as int) * (h as int))
            by (nonlinear_arith)
            requires
                0 <= w as int <= u32::MAX,
                0 <= h as int <= u32::MAX,
        ;
    }
    if (w as u64) * (h as u64) > u32::MAX as u64 {
        return Err(MapError::InvalidDimensions);
    }
    let mut cells: Vec<CellKind> = Vec::new();
    let mut j: usize = 0;
    proof {
        assert(cells@ =~= Seq::<CellKind>::empty());
    }
    while j < h
        invariant
            0 <= j <= h,
            h == hi - lo,
            lo <= hi <= lines@.len(),
            lsall == lines@.map_values(|b: Vec<char>| b@),
            ls == lsall.subrange(lo as int, hi as int),
            w == max_line_len(ls),
            w * h <= u32::MAX,
            cells@.len() == j * w,
            forall|n: int|
                0 <= n < cells@.len() ==> cells@[n] == line_cell(ls[n / w as int], n % w as int),
            forall|jj: int| 0 <= jj < j ==> line_bad(#[trigger] ls[jj]) is None,
        decreases h - j,
    {
        let line = &lines[lo + j];
        proof {
            assert(line@ == ls[j as int]);
            lemma_max_line_len_bound(ls);
            assert(ls[j as int].len() <= w);
            assert((j as int) * (w as int) + (w as int) == (j + 1) * (w as int))
                by (nonlinear_arith)
            ;
            assert((j + 1) * (w as int) <= (h as int) * (w as int)) by (nonlinear_arith)
                requires
                    0 <= w as int,
                    j + 1 <= h as int,
            ;
            assert((h as int) * (w as int) == (w as int) * (h as int)) by (nonlinear_arith);
        }
        let mut i: usize = 0;
        while i < w
            invariant
                0 <= i <= w,
                0 <= j < h,
                h == hi - lo,
                lo <= hi <= lines@.len(),
                lsall == lines@.map_values(|b: Vec<char>| b@),
                ls == lsall.subrange(lo as int, hi as int),
                line@ == ls[j as int],
                line@.len() <= w,
                w == max_line_len(ls),
                w * h <= u32::MAX,
                (j + 1) * (w as int) <= (w as int) * (h as int),
                cells@.len() == j * w + i,
                forall|n: int|
                    0 <= n < cells@.len() ==> cells@[n] == line_cell(
                        ls[n / w as int],
                        n % w as int,
                    ),
                forall|jj: int| 0 <= jj < j ==> line_bad(#[trigger] ls[jj]) is None,
                forall|ii: int| 0 <= ii < i && ii < line@.len() ==> spec_symbol_cell(
                    #[trigger] line@[ii],
                ) is Some,
            decreases w - i,
        {
            let cell: CellKind;
            if i < line.len() {
                let c = line[i];
                match symbol_cell(c) {
                    Some(k) => {
                        cell = k;
                    },
                    None => {
                        proof {
                            lemma_line_bad_some(ls[j as int], i as int);
                            lemma_rows_bad_some(ls, j as int, c);
                        }
                        return Err(MapError::UnknownSymbol(c));
                    },
                }
            } else {
                cell = CellKind::Void;
            }
            proof {
                let n = (j as int) * (w as int) + (i as int);
                lemma_fundamental_div_mod_converse(n, w as int, j as int, i as int);
                assert(cell == line_cell(ls[j as int], i as int));
            }
            cells.push(cell);
            i += 1;
        }
        proof {
            assert forall|mm: int| 0 <= mm < ls[j as int].len() implies spec_symbol_cell(
                #[trigger] ls[j as int][mm],
            ) is Some by {
                assert(line@[mm] == ls[j as int][mm]);
            }
            lemma_line_bad_none(ls[j as int]);
            assert((j as int) * (w as int) + (w as int) == (j + 1) * (w as int))
                by (nonlinear_arith)
            ;
        }
        j += 1;
    }
    proof {
        lemma_rows_bad_none(ls);
        assert((h as int) * (w as int) == (w as int) * (h as int)) by (nonlinear_arith);
        assert(cells@ =~= grid_cells(ls, w as nat));
    }
    let g = Grid::from_cells(w as u32, h as u32, cells).unwrap();
    proof {
        assert(g@ =~= GridModel {
            width: w as nat,
            height: h as nat,
            cells: grid_cells(ls, w as nat),
        });
    }
    Ok(g)
}

/// Parses a level source into a playable board: exactly what
/// [`spec_parse_level`] says, with each failure carrying the text it names.
#[verifier::loop_isolation(false)]
pub fn parse_level(src: &str) -> (r: Result<Board, LevelParseError>)
    ensures
        match spec_parse_level(src@) {
            Ok(m) => r matches Ok(b) && b@ == m,
            Err(f) => r matches Err(e) && error_matches(e, f),
        },
{
    let chars = chars_of(src);
    let blocks = split_level_blocks(&chars);
    let ghost bs = drop_empty(split_blocks(src@));
    if blocks.len() < 1 {
        return Err(LevelParseError::MissingMap);
    }
    let map = match parse_map(&blocks[0]) {
        Ok(g) => g,
        Err(e) => {
            return Err(LevelParseError::CantParseMap(e));
        },
    };
    if blocks.len() < 2 {
        return Err(LevelParseError::MissingPlayerCoordinates);
    }
    let player = match parse_coords(&blocks[1]) {
        Some(p) => p,
        None => {
            return Err(
                LevelParseError::CantParsePlayerCoordinates(chars_to_string(&blocks[1])),
            );
        },
    };
    if blocks.len() < 3 {
        return Err(LevelParseError::MissingCratesCoordinates);
    }
    let mut crate_lines = split_char_exec(&blocks[2], '\n');
    let ghost cls = lines_of(bs[2]);
    if crate_lines.len() > 0 && crate_lines[crate_lines.len() - 1].len() == 0 {
        crate_lines.pop();
    }
    proof {
        assert(crate_lines@.map_values(|b: Vec<char>| b@) =~= cls);
    }
    let mut crates: Vec<Crate> = Vec::new();
    let mut j: usize = 0;
    while j < crate_lines.len()
        invariant
            j <= crate_lines@.len(),
            cls == crate_lines@.map_values(|b: Vec<char>| b@),
            crates@.len() == j,
            forall|m: int|
                0 <= m < j ==> spec_parse_coords(#[trigger] cls[m]) == Some(crates@[m]@),
        decreases crate_lines@.len() - j,
    {
        match parse_coords(&crate_lines[j]) {
            Some(p) => {
                crates.push(Crate::new(p.0, p.1));
                j += 1;
            },
            None => {
                proof {
                    lemma_parse_crates_err(cls, j as int);
                }
                return Err(
                    LevelParseError::CantParseCrateCoordinates(
                        chars_to_string(&crate_lines[j]),
                    ),
                );
            },
        }
    }
    let board = Board::new(map, player, crates);
    proof {
        let cs = crates@.map_values(|c: Crate| c@);
        lemma_parse_crates_ok(cls, cs);
        let m = BoardModel {
            grid: map@,
            player,
            crates: cs,
            original_player: player,
            original_crates: cs,
        };
        assert(board@ =~= m);
        assert(spec_parse_level(src@) == Ok::<BoardModel, ParseFail>(m));
    }
    Ok(board)
}

/// The rows of `g` from row `j` on, each as its rendered line.
spec fn rendered_rows(g: GridModel, j: int) -> Seq<Seq<char>> {
    Seq::new((g.height - j) as nat, |m: int| render_row(g, j + m))
}

/// The rendered text from row `j` on splits at newlines into the remaining
/// rows, with one final empty piece from the last newline.
proof fn lemma_render_split(g: GridModel, j: int)
    requires
        0 <= j <= g.height,
    ensures
        split_char(render_rows(g, j), '\n') == rendered_rows(g, j).push(Seq::<char>::empty()),
    decreases g.height - j,
{
    if j == g.height {
        assert(render_rows(g, j) =~= Seq::<char>::empty());
        lemma_split_char_none(Seq::<char>::empty(), '\n');
        assert(seq![Seq::<char>::empty()] =~= rendered_rows(g, j).push(Seq::<char>::empty()));
    } else {
        let row = render_row(g, j);
        assert forall|m: int| 0 <= m < row.len() implies row[m] != '\n' by {
            assert(row[m] == spec_cell_symbol(g.cell(m, j)));
        }
        lemma_split_char_concat(row, render_rows(g, j + 1), '\n');
        lemma_render_split(g, j + 1);
        assert(seq![row] + rendered_rows(g, j + 1).push(Seq::<char>::empty()) =~= rendered_rows(
            g,
            j,
        ).push(Seq::<char>::empty()));
    }
}

/// Writing a map as level text and parsing that text yields the same map
/// back: the serializer and the parser invert each other on every
/// well-formed grid with at least one column and one row.
pub proof fn lemma_map_round_trip(g: GridModel)
    requires
        g.wf(),
        g.width >= 1,
        g.height >= 1,
    ensures
        spec_parse_map(render(g)) == Ok::<GridModel, MapError>(g),
{
    let w = g.width;
    let h = g.height;
    assert(w <= w * h && h <= w * h) by (nonlinear_arith)
        requires
            w >= 1,
            h >= 1,
    ;
    lemma_render_split(g, 0);
    let rows = rendered_rows(g, 0);
    let ps = split_char(render(g), '\n');
    assert(ps == rows.push(Seq::<char>::empty()));
    assert(rows.len() == h);
    assert forall|m: int| 0 <= m < rows.len() implies (#[trigger] rows[m]).len() == w by {
        assert(rows[m] == render_row(g, m));
    }
    assert(ps[0] == rows[0]);
    lemma_strip_leading_skip(ps, 0);
    assert(ps.skip(0) =~= ps);
    assert forall|m: int| h <= m < ps.len() implies (#[trigger] ps[m]).len() == 0 by {
        assert(m == h);
    }
    assert(ps[h - 1] == rows[h - 1]);
    lemma_strip_trailing_take(ps, h as int);
    assert(ps.take(h as int) =~= rows);
    assert(strip_blank_edges(ps) == rows);
    lemma_max_line_len_const(rows, w);
    assert forall|j: int| 0 <= j < rows.len() implies line_bad(#[trigger] rows[j]) is None by {
        assert forall|m: int| 0 <= m < rows[j].len() implies spec_symbol_cell(
            #[trigger] rows[j][m],
        ) is Some by {
            assert(rows[j][m] == spec_cell_symbol(g.cell(m, j)));
            lemma_symbol_cell_inverse(g.cell(m, j));
        }
        lemma_line_bad_none(rows[j]);
    }
    lemma_rows_bad_none(rows);
    assert(rows.len() * w == w * h) by (nonlinear_arith)
        requires
            rows.len() == h,
    ;
    assert forall|n: int| 0 <= n < w * h implies grid_cells(rows, w)[n] == g.cells[n] by {
        lemma_mod_bound(n, w as int);
        lemma_fundamental_div_mod(n, w as int);
        let j = n / w as int;
        let i = n % w as int;
        assert(0 <= j && j < h) by (nonlinear_arith)
            requires
                n == (w as int) * j + i,
                0 <= i < w,
                0 <= n < w * h,
        ;
        assert(rows[j] == render_row(g, j));
        assert(rows[j][i] == spec_cell_symbol(g.cell(i, j)));
        lemma_symbol_cell_inverse(g.cell(i, j));
        assert(j * (w as int) + i == n) by (nonlinear_arith)
            requires
                n == (w as int) * j + i,
        ;
        assert(g.cell(i, j) == g.cells[n]);
    }
    assert(grid_cells(rows, w) =~= g.cells);
    assert(GridModel { width: w, height: h, cells: grid_cells(rows, w) } =~= g);
}

} // verus!
