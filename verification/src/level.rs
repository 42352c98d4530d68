//! The level loader.
//!
//! A level is described by four ordered sections separated by delimiter
//! lines of `=` characters: one metadata line `<name> <width> <height>`,
//! legend lines `<symbol> <flag> <atlasX> <atlasY> <atlasW> <atlasH>`,
//! exactly `height` map rows of `width` symbols each, and start lines
//! `<kind> <args...> <x> <y>`. The whole grammar is written down once as
//! the spec function [`parse_level_spec`]; [`Level::from_str`] is proved
//! to return exactly its value, so parsing is strict, fail-fast and
//! deterministic: either a fully valid level or the error the grammar
//! assigns to the input.

use vstd::prelude::*;

use crate::geom::Vec2;
use crate::grid::Grid;
use crate::lex::{
    dec_val, is_delim_line, is_u16_token, lines_of, tokens_of, views_of,
};
use crate::{EntityType, EntityTypeView, SheetRect, TileData};

verus! {

/// The tiles of a level, in legend declaration order: the tile with id `i`
/// sits at index `i`.
pub struct Tileset {
    pub tiles: Vec<TileData>,
}

impl Tileset {
    pub fn index(&self, i: usize) -> (r: &TileData)
        requires
            i < self.tiles@.len(),
        ensures
            *r == self.tiles@[i as int],
    {
        &self.tiles[i]
    }
}

/// A loaded level: immutable once parsing has produced it.
pub struct Level {
    pub name: Vec<u8>,
    pub grid: Grid,
    pub tileset: Tileset,
    pub starts: Vec<(EntityType, Vec2)>,
}

/// Mathematical image of a [`Level`].
#[verifier::ext_equal]
pub struct LevelView {
    pub name: Seq<u8>,
    pub width: nat,
    pub height: nat,
    pub grid: Seq<u8>,
    pub tiles: Seq<TileData>,
    pub starts: Seq<(EntityTypeView, Vec2)>,
}

impl View for Level {
    type V = LevelView;

    open spec fn view(&self) -> LevelView {
        LevelView {
            name: self.name@,
            width: self.grid.width as nat,
            height: self.grid.height as nat,
            grid: self.grid.data@,
            tiles: self.tileset.tiles@,
            starts: self.starts@.map_values(|s: (EntityType, Vec2)| (s.0@, s.1)),
        }
    }
}

/// Everything parsing guarantees of a level it accepts: the grid holds
/// exactly `width * height` ids, the dimensions fit 16 bits, the tileset
/// has at most 256 entries, and every grid cell references one of them.
pub open spec fn lv_wf(lv: LevelView) -> bool {
    &&& lv.grid.len() == lv.width * lv.height
    &&& lv.width <= 0xFFFF
    &&& lv.height <= 0xFFFF
    &&& lv.tiles.len() <= 256
    &&& forall|i: int| 0 <= i < lv.grid.len() ==> lv.grid[i] < lv.tiles.len()
}

impl Level {
    pub open spec fn wf(self) -> bool {
        lv_wf(self@)
    }
}

/// Why a level text was rejected. `line` is the 1-based source line, or 0
/// for a condition only visible at end of input (missing sections, or a
/// grid whose total size disagrees with the declared dimensions).
#[derive(Debug, PartialEq, Eq)]
pub enum ParseError {
    /// A line or the file as a whole lacks required structure: a missing
    /// token, a second metadata line, content after the final section, or
    /// missing sections.
    Structure { line: usize },
    /// A field is present but malformed: a number that is not unsigned
    /// 16-bit decimal, an unknown legend flag, or a legend past 256
    /// entries, whose tile would have no representable id.
    Field { line: usize },
    /// A legend line re-declares a symbol.
    DuplicateSymbol { line: usize, symbol: Vec<u8> },
    /// A map row references a symbol the legend does not declare.
    UnknownSymbol { line: usize, symbol: Vec<u8> },
    /// A starts line names a kind other than `player`, `enemy` or `door`.
    UnrecognizedEntityKind { line: usize, kind: Vec<u8> },
    /// A map row's token count differs from the declared width, or the
    /// finished grid's length from `width * height`.
    DimensionMismatch { line: usize },
}

/// Mathematical image of a [`ParseError`].
pub enum ParseErrorView {
    Structure { line: int },
    Field { line: int },
    DuplicateSymbol { line: int, symbol: Seq<u8> },
    UnknownSymbol { line: int, symbol: Seq<u8> },
    UnrecognizedEntityKind { line: int, kind: Seq<u8> },
    DimensionMismatch { line: int },
}

impl View for ParseError {
    type V = ParseErrorView;

    open spec fn view(&self) -> ParseErrorView {
        match self {
            ParseError::Structure { line } => ParseErrorView::Structure { line: *line as int },
            ParseError::Field { line } => ParseErrorView::Field { line: *line as int },
            ParseError::DuplicateSymbol { line, symbol } => ParseErrorView::DuplicateSymbol {
                line: *line as int,
                symbol: symbol@,
            },
            ParseError::UnknownSymbol { line, symbol } => ParseErrorView::UnknownSymbol {
                line: *line as int,
                symbol: symbol@,
            },
            ParseError::UnrecognizedEntityKind { line, kind } => {
                ParseErrorView::UnrecognizedEntityKind { line: *line as int, kind: kind@ }
            },
            ParseError::DimensionMismatch { line } => ParseErrorView::DimensionMismatch {
                line: *line as int,
            },
        }
    }
}

/// Parser phase. Delimiter lines advance it; the order makes illegal
/// section sequences unrepresentable.
#[derive(Clone, Copy, Debug, PartialEq, Eq, Structural)]
pub enum Phase {
    Metadata,
    Legend,
    MapRows,
    Starts,
    Done,
}

/// Total transition function of the phases: each delimiter moves one
/// step forward, and `Done` absorbs any further delimiter.
pub open spec fn next_phase(p: Phase) -> Phase {
    match p {
        Phase::Metadata => Phase::Legend,
        Phase::Legend => Phase::MapRows,
        Phase::MapRows => Phase::Starts,
        Phase::Starts => Phase::Done,
        Phase::Done => Phase::Done,
    }
}

impl Phase {
    pub fn next(self) -> (r: Phase)
        ensures
            r == next_phase(self),
    {
        match self {
            Phase::Metadata => Phase::Legend,
            Phase::Legend => Phase::MapRows,
            Phase::MapRows => Phase::Starts,
            Phase::Starts => Phase::Done,
            Phase::Done => Phase::Done,
        }
    }
}

/// One legend entry as the parser accumulates it: symbol, dense id,
/// tile data.
pub type LegendEntry = (Seq<u8>, u8, TileData);

/// Intermediate parser state: the phase plus everything gathered so far.
#[verifier::ext_equal]
pub struct ParseSt {
    pub phase: Phase,
    pub name: Option<Seq<u8>>,
    pub dims: Option<(u16, u16)>,
    pub legend: Seq<LegendEntry>,
    pub grid: Seq<u8>,
    pub starts: Seq<(EntityTypeView, Vec2)>,
}

pub open spec fn init_st() -> ParseSt {
    ParseSt {
        phase: Phase::Metadata,
        name: None,
        dims: None,
        legend: Seq::empty(),
        grid: Seq::empty(),
        starts: Seq::empty(),
    }
}

/// Index of the first legend entry declaring `sym`, if any.
pub open spec fn legend_lookup(legend: Seq<LegendEntry>, sym: Seq<u8>) -> Option<int>
    decreases legend.len(),
{
    if legend.len() == 0 {
        None
    } else if legend[0].0 == sym {
        Some(0)
    } else {
        match legend_lookup(legend.skip(1), sym) {
            None => None,
            Some(i) => Some(i + 1),
        }
    }
}

pub proof fn lemma_legend_lookup(legend: Seq<LegendEntry>, sym: Seq<u8>)
    ensures
        match legend_lookup(legend, sym) {
            Some(i) => 0 <= i < legend.len() && legend[i].0 == sym && forall|k: int|
                0 <= k < i ==> legend[k].0 != sym,
            None => forall|k: int| 0 <= k < legend.len() ==> legend[k].0 != sym,
        },
    decreases legend.len(),
{
    if legend.len() == 0 {
    } else if legend[0].0 == sym {
    } else {
        lemma_legend_lookup(legend.skip(1), sym);
        match legend_lookup(legend, sym) {
            Some(i) => {
                assert forall|k: int| 0 <= k < i implies legend[k].0 != sym by {
                    if k > 0 {
                        assert(legend.skip(1)[k - 1].0 != sym);
                    }
                }
            },
            None => {
                assert forall|k: int| 0 <= k < legend.len() implies legend[k].0 != sym by {
                    if k > 0 {
                        assert(legend.skip(1)[k - 1].0 != sym);
                    }
                }
            },
        }
    }
}

pub open spec fn kw_player() -> Seq<u8> {
    seq![112u8, 108u8, 97u8, 121u8, 101u8, 114u8]  // "player"
}

pub open spec fn kw_enemy() -> Seq<u8> {
    seq![101u8, 110u8, 101u8, 109u8, 121u8]  // "enemy"
}

pub open spec fn kw_door() -> Seq<u8> {
    seq![100u8, 111u8, 111u8, 114u8]  // "door"
}

/// Case-insensitive `o`: the tile is open (passable).
pub open spec fn is_open_flag(t: Seq<u8>) -> bool {
    t.len() == 1 && (t[0] == 111 || t[0] == 79)
}

/// Case-insensitive `s`: the tile is solid.
pub open spec fn is_solid_flag(t: Seq<u8>) -> bool {
    t.len() == 1 && (t[0] == 115 || t[0] == 83)
}

/// The metadata line `<name> <width> <height>`; tokens beyond the third
/// are ignored. A second metadata line is structural, a bad dimension a
/// field error.
pub open spec fn step_metadata(st: ParseSt, toks: Seq<Seq<u8>>, lineno: int) -> Result<
    ParseSt,
    ParseErrorView,
> {
    if st.name is Some {
        Err(ParseErrorView::Structure { line: lineno })
    } else if toks.len() < 3 {
        Err(ParseErrorView::Structure { line: lineno })
    } else if !is_u16_token(toks[1]) {
        Err(ParseErrorView::Field { line: lineno })
    } else if !is_u16_token(toks[2]) {
        Err(ParseErrorView::Field { line: lineno })
    } else {
        Ok(
            ParseSt {
                name: Some(toks[0]),
                dims: Some((dec_val(toks[1]) as u16, dec_val(toks[2]) as u16)),
                ..st
            },
        )
    }
}

/// A legend line `<symbol> <flag> <x> <y> <w> <h>`. The new entry's id is
/// the number of entries declared before it.
pub open spec fn step_legend(st: ParseSt, toks: Seq<Seq<u8>>, lineno: int) -> Result<
    ParseSt,
    ParseErrorView,
> {
    if toks.len() < 1 {
        Err(ParseErrorView::Structure { line: lineno })
    } else if legend_lookup(st.legend, toks[0]) is Some {
        Err(ParseErrorView::DuplicateSymbol { line: lineno, symbol: toks[0] })
    } else if toks.len() < 2 {
        Err(ParseErrorView::Structure { line: lineno })
    } else if !is_open_flag(toks[1]) && !is_solid_flag(toks[1]) {
        Err(ParseErrorView::Field { line: lineno })
    } else if toks.len() < 3 {
        Err(ParseErrorView::Structure { line: lineno })
    } else if !is_u16_token(toks[2]) {
        Err(ParseErrorView::Field { line: lineno })
    } else if toks.len() < 4 {
        Err(ParseErrorView::Structure { line: lineno })
    } else if !is_u16_token(toks[3]) {
        Err(ParseErrorView::Field { line: lineno })
    } else if toks.len() < 5 {
        Err(ParseErrorView::Structure { line: lineno })
    } else if !is_u16_token(toks[4]) {
        Err(ParseErrorView::Field { line: lineno })
    } else if toks.len() < 6 {
        Err(ParseErrorView::Structure { line: lineno })
    } else if !is_u16_token(toks[5]) {
        Err(ParseErrorView::Field { line: lineno })
    } else if st.legend.len() >= 256 {
        Err(ParseErrorView::Field { line: lineno })
    } else {
        let data = TileData {
            solid: is_solid_flag(toks[1]),
            sheet_region: SheetRect {
                x: dec_val(toks[2]) as u16,
                y: dec_val(toks[3]) as u16,
                w: dec_val(toks[4]) as u16,
                h: dec_val(toks[5]) as u16,
            },
        };
        Ok(ParseSt { legend: st.legend.push((toks[0], st.legend.len() as u8, data)), ..st })
    }
}

/// Ids of a map row's symbols, or the first symbol the legend does not
/// declare.
pub open spec fn map_ids(legend: Seq<LegendEntry>, toks: Seq<Seq<u8>>) -> Result<Seq<u8>, Seq<u8>>
    decreases toks.len(),
{
    if toks.len() == 0 {
        Ok(Seq::empty())
    } else {
        match legend_lookup(legend, toks[0]) {
            None => Err(toks[0]),
            Some(i) => match map_ids(legend, toks.skip(1)) {
                Err(s) => Err(s),
                Ok(rest) => Ok(seq![legend[i].1] + rest),
            },
        }
    }
}

/// A map row: every symbol must be declared, and the row must have
/// exactly `width` tokens — never silently padded or truncated.
pub open spec fn step_map(st: ParseSt, toks: Seq<Seq<u8>>, lineno: int) -> Result<
    ParseSt,
    ParseErrorView,
> {
    match st.dims {
        None => Err(ParseErrorView::Structure { line: lineno }),
        Some((w, h)) => match map_ids(st.legend, toks) {
            Err(sym) => Err(ParseErrorView::UnknownSymbol { line: lineno, symbol: sym }),
            Ok(ids) => if toks.len() != w {
                Err(ParseErrorView::DimensionMismatch { line: lineno })
            } else {
                Ok(ParseSt { grid: st.grid + ids, ..st })
            },
        },
    }
}

/// The mandatory trailing `<x> <y>` grid coordinates of a starts line,
/// beginning at token `i`; further tokens are ignored.
pub open spec fn step_start_pos(
    st: ParseSt,
    toks: Seq<Seq<u8>>,
    i: int,
    ety: EntityTypeView,
    lineno: int,
) -> Result<ParseSt, ParseErrorView> {
    if toks.len() < i + 1 {
        Err(ParseErrorView::Structure { line: lineno })
    } else if !is_u16_token(toks[i]) {
        Err(ParseErrorView::Field { line: lineno })
    } else if toks.len() < i + 2 {
        Err(ParseErrorView::Structure { line: lineno })
    } else if !is_u16_token(toks[i + 1]) {
        Err(ParseErrorView::Field { line: lineno })
    } else {
        let v = Vec2 { x: dec_val(toks[i]) as i64, y: dec_val(toks[i + 1]) as i64 };
        Ok(ParseSt { starts: st.starts.push((ety, v)), ..st })
    }
}

/// A starts line `<kind> <args...> <x> <y>`: `player` and `enemy` take no
/// extra arguments, `door` takes a destination level name and grid cell.
pub open spec fn step_starts(st: ParseSt, toks: Seq<Seq<u8>>, lineno: int) -> Result<
    ParseSt,
    ParseErrorView,
> {
    if toks.len() < 1 {
        Err(ParseErrorView::Structure { line: lineno })
    } else if toks[0] == kw_player() {
        step_start_pos(st, toks, 1, EntityTypeView::Player, lineno)
    } else if toks[0] == kw_enemy() {
        step_start_pos(st, toks, 1, EntityTypeView::Enemy, lineno)
    } else if toks[0] == kw_door() {
        if toks.len() < 2 {
            Err(ParseErrorView::Structure { line: lineno })
        } else if toks.len() < 3 {
            Err(ParseErrorView::Structure { line: lineno })
        } else if !is_u16_token(toks[2]) {
            Err(ParseErrorView::Field { line: lineno })
        } else if toks.len() < 4 {
            Err(ParseErrorView::Structure { line: lineno })
        } else if !is_u16_token(toks[3]) {
            Err(ParseErrorView::Field { line: lineno })
        } else {
            let ety = EntityTypeView::Door(
                toks[1],
                dec_val(toks[2]) as u16,
                dec_val(toks[3]) as u16,
            );
            step_start_pos(st, toks, 4, ety, lineno)
        }
    } else {
        Err(ParseErrorView::UnrecognizedEntityKind { line: lineno, kind: toks[0] })
    }
}

/// One line of input: blank lines are ignored, a delimiter advances the
/// phase, anything else is handed to the current phase; any content in
/// `Done` is fatal.
pub open spec fn step_line(st: ParseSt, l: Seq<u8>, lineno: int) -> Result<
    ParseSt,
    ParseErrorView,
> {
    if l.len() == 0 {
        Ok(st)
    } else if is_delim_line(l) {
        Ok(ParseSt { phase: next_phase(st.phase), ..st })
    } else {
        match st.phase {
            Phase::Metadata => step_metadata(st, tokens_of(l), lineno),
            Phase::Legend => step_legend(st, tokens_of(l), lineno),
            Phase::MapRows => step_map(st, tokens_of(l), lineno),
            Phase::Starts => step_starts(st, tokens_of(l), lineno),
            Phase::Done => Err(ParseErrorView::Structure { line: lineno }),
        }
    }
}

/// End of input: a metadata line and all three delimiters must have been
/// seen, and the grid must hold exactly `width * height` ids.
pub open spec fn finalize_st(st: ParseSt) -> Result<LevelView, ParseErrorView> {
    match (st.name, st.dims) {
        (Some(nm), Some((w, h))) => {
            if !(st.phase is Starts || st.phase is Done) {
                Err(ParseErrorView::Structure { line: 0 })
            } else if st.grid.len() != w * h {
                Err(ParseErrorView::DimensionMismatch { line: 0 })
            } else {
                Ok(
                    LevelView {
                        name: nm,
                        width: w as nat,
                        height: h as nat,
                        grid: st.grid,
                        tiles: st.legend.map_values(|e: LegendEntry| e.2),
                        starts: st.starts,
                    },
                )
            }
        },
        _ => Err(ParseErrorView::Structure { line: 0 }),
    }
}

/// The lines of the input folded through [`step_line`] from state `st`,
/// then finished by [`finalize_st`]; the first error aborts everything.
pub open spec fn parse_lines(st: ParseSt, lines: Seq<Seq<u8>>, lineno: int) -> Result<
    LevelView,
    ParseErrorView,
> decreases lines.len(),
{
    if lines.len() == 0 {
        finalize_st(st)
    } else {
        match step_line(st, lines[0], lineno) {
            Err(e) => Err(e),
            Ok(st2) => parse_lines(st2, lines.skip(1), lineno + 1),
        }
    }
}

/// What parsing a level text means: the whole grammar, as one function of
/// the input bytes.
pub open spec fn parse_level_spec(t: Seq<u8>) -> Result<LevelView, ParseErrorView> {
    parse_lines(init_st(), lines_of(t), 1)
}

/// Parser-state invariant: at most 256 legend entries, entry `i` carries
/// id `i` — ids are assigned densely, in declaration order, starting at 0
/// — and every grid id so far references a legend entry.
pub open spec fn st_wf(st: ParseSt) -> bool {
    &&& st.legend.len() <= 256
    &&& forall|i: int| 0 <= i < st.legend.len() ==> #[trigger] st.legend[i].1 == i
    &&& forall|i: int| 0 <= i < st.grid.len() ==> #[trigger] st.grid[i] < st.legend.len()
}

pub proof fn lemma_map_ids_bounds(legend: Seq<LegendEntry>, toks: Seq<Seq<u8>>)
    requires
        forall|i: int| 0 <= i < legend.len() ==> #[trigger] legend[i].1 == i,
    ensures
        match map_ids(legend, toks) {
            Ok(ids) => forall|k: int| 0 <= k < ids.len() ==> #[trigger] ids[k] < legend.len(),
            Err(_) => true,
        },
    decreases toks.len(),
{
    if toks.len() > 0 {
        lemma_legend_lookup(legend, toks[0]);
        lemma_map_ids_bounds(legend, toks.skip(1));
    }
}

/// Each step of the parser preserves the state invariant.
pub proof fn lemma_step_wf(st: ParseSt, l: Seq<u8>, lineno: int)
    requires
        st_wf(st),
    ensures
        match step_line(st, l, lineno) {
            Ok(st2) => st_wf(st2),
            Err(_) => true,
        },
{
    if l.len() == 0 || is_delim_line(l) {
    } else {
        match st.phase {
            Phase::MapRows => {
                let toks = tokens_of(l);
                lemma_map_ids_bounds(st.legend, toks);
            },
            _ => {},
        }
    }
}

/// A level the parser accepts is well formed — in particular its grid
/// holds exactly `width * height` cells, each referencing a tileset
/// entry, and the tileset lists the legend's tiles in declaration order
/// with dense ids.
pub proof fn lemma_parse_lines_wf(st: ParseSt, lines: Seq<Seq<u8>>, lineno: int)
    requires
        st_wf(st),
    ensures
        match parse_lines(st, lines, lineno) {
            Ok(lv) => lv_wf(lv),
            Err(_) => true,
        },
    decreases lines.len(),
{
    if lines.len() == 0 {
    } else {
        match step_line(st, lines[0], lineno) {
            Err(_) => {},
            Ok(st2) => {
                lemma_step_wf(st, lines[0], lineno);
                lemma_parse_lines_wf(st2, lines.skip(1), lineno + 1);
            },
        }
    }
}

/// Every successfully parsed level is well formed.
pub proof fn lemma_parse_wf(t: Seq<u8>)
    ensures
        match parse_level_spec(t) {
            Ok(lv) => lv_wf(lv),
            Err(_) => true,
        },
{
    lemma_parse_lines_wf(init_st(), lines_of(t), 1);
}

/// Executable legend entries as the parser accumulates them: symbol, dense
/// id, tile data.
pub type LegendVec = Vec<(Vec<u8>, u8, TileData)>;

pub open spec fn abs_legend(legend: Seq<(Vec<u8>, u8, TileData)>) -> Seq<LegendEntry> {
    legend.map_values(|e: (Vec<u8>, u8, TileData)| (e.0@, e.1, e.2))
}

pub open spec fn abs_starts(starts: Seq<(EntityType, Vec2)>) -> Seq<(EntityTypeView, Vec2)> {
    starts.map_values(|s: (EntityType, Vec2)| (s.0@, s.1))
}

pub open spec fn abs_name(name: Option<Vec<u8>>) -> Option<Seq<u8>> {
    match name {
        None => None,
        Some(n) => Some(n@),
    }
}

/// The parser state the executable parser's locals stand for.
pub open spec fn abs_st(
    phase: Phase,
    name: Option<Vec<u8>>,
    dims: Option<(u16, u16)>,
    legend: Seq<(Vec<u8>, u8, TileData)>,
    grid: Seq<u8>,
    starts: Seq<(EntityType, Vec2)>,
) -> ParseSt {
    ParseSt {
        phase,
        name: abs_name(name),
        dims,
        legend: abs_legend(legend),
        grid,
        starts: abs_starts(starts),
    }
}

/// `r` with `pre` prepended to a successful id row.
pub open spec fn with_prefix(pre: Seq<u8>, r: Result<Seq<u8>, Seq<u8>>) -> Result<
    Seq<u8>,
    Seq<u8>,
> {
    match r {
        Err(s) => Err(s),
        Ok(ids) => Ok(pre + ids),
    }
}

fn legend_find(legend: &LegendVec, sym: &[u8]) -> (r: Option<usize>)
    ensures
        match r {
            Some(i) => i < legend@.len() && legend_lookup(abs_legend(legend@), sym@) == Some(
                i as int,
            ),
            None => legend_lookup(abs_legend(legend@), sym@) is None,
        },
{
    let mut j: usize = 0;
    while j < legend.len()
        invariant
            j <= legend@.len(),
            forall|k: int| 0 <= k < j ==> abs_legend(legend@)[k].0 != sym@,
        decreases legend@.len() - j,
    {
        if crate::lex::bytes_eq(legend[j].0.as_slice(), sym) {
            proof {
                let leg = abs_legend(legend@);
                assert(leg[j as int].0 == sym@);
                lemma_legend_lookup(leg, sym@);
                match legend_lookup(leg, sym@) {
                    None => {
                        assert(false);
                    },
                    Some(i) => {
                        if i < j {
                            assert(leg[i].0 != sym@);
                            assert(false);
                        }
                        if i > j {
                            assert(leg[j as int].0 != sym@);
                            assert(false);
                        }
                    },
                }
            }
            return Some(j);
        }
        j = j + 1;
    }
    proof {
        let leg = abs_legend(legend@);
        lemma_legend_lookup(leg, sym@);
        match legend_lookup(leg, sym@) {
            None => {},
            Some(i) => {
                assert(leg[i].0 != sym@);
                assert(false);
            },
        }
    }
    None
}

fn is_kw_player(t: &[u8]) -> (r: bool)
    ensures
        r == (t@ == kw_player()),
{
    proof {
        assert(kw_player().len() == 6);
    }
    if t.len() != 6 {
        return false;
    }
    let r = t[0] == 112 && t[1] == 108 && t[2] == 97 && t[3] == 121 && t[4] == 101 && t[5] == 114;
    proof {
        if r {
            assert(t@ =~= kw_player());
        }
    }
    r
}

fn is_kw_enemy(t: &[u8]) -> (r: bool)
    ensures
        r == (t@ == kw_enemy()),
{
    proof {
        assert(kw_enemy().len() == 5);
    }
    if t.len() != 5 {
        return false;
    }
    let r = t[0] == 101 && t[1] == 110 && t[2] == 101 && t[3] == 109 && t[4] == 121;
    proof {
        if r {
            assert(t@ =~= kw_enemy());
        }
    }
    r
}

fn is_kw_door(t: &[u8]) -> (r: bool)
    ensures
        r == (t@ == kw_door()),
{
    proof {
        assert(kw_door().len() == 4);
    }
    if t.len() != 4 {
        return false;
    }
    let r = t[0] == 100 && t[1] == 111 && t[2] == 111 && t[3] == 114;
    proof {
        if r {
            assert(t@ =~= kw_door());
        }
    }
    r
}

fn copy_vec(v: &Vec<u8>) -> (r: Vec<u8>)
    ensures
        r@ == v@,
{
    let r = crate::lex::copy_range(v.as_slice(), 0, v.len());
    proof {
        assert(v@.subrange(0, v@.len() as int) =~= v@);
    }
    r
}

impl Level {
    /// Parses a level text, returning exactly what [`parse_level_spec`]
    /// assigns to it: the loaded level on a well-formed input, and the
    /// grammar's error — with its source line — on anything else. No
    /// partial level is ever produced.
    #[verifier::loop_isolation(false)]
    #[verifier::rlimit(100)]
    pub fn from_str(text: &[u8]) -> (r: Result<Level, ParseError>)
        ensures
            match r {
                Ok(level) => parse_level_spec(text@) == Ok::<LevelView, ParseErrorView>(level@)
                    && level.wf(),
                Err(e) => parse_level_spec(text@) == Err::<LevelView, ParseErrorView>(e@),
            },
    {
        let lines = crate::lex::split_lines(text);
        let mut phase = Phase::Metadata;
        let mut name: Option<Vec<u8>> = None;
        let mut dims: Option<(u16, u16)> = None;
        let mut legend: LegendVec = Vec::new();
        let mut grid: Vec<u8> = Vec::new();
        let mut starts: Vec<(EntityType, Vec2)> = Vec::new();
        let mut i: usize = 0;
        proof {
            assert(abs_legend(legend@) =~= Seq::<LegendEntry>::empty());
            assert(abs_starts(starts@) =~= Seq::<(EntityTypeView, Vec2)>::empty());
            assert(abs_st(phase, name, dims, legend@, grid@, starts@) =~= init_st());
            assert(lines_of(text@).skip(0) =~= lines_of(text@));
        }
        while i < lines.len()
            invariant
                i <= lines@.len(),
                views_of(lines@) == lines_of(text@),
                abs_legend(legend@).len() <= 256,
                forall|k: int| 0 <= k < legend@.len() ==> #[trigger] abs_legend(legend@)[k].1
                    == k,
                parse_lines(
                    abs_st(phase, name, dims, legend@, grid@, starts@),
                    lines_of(text@).skip(i as int),
                    i as int + 1,
                ) == parse_level_spec(text@),
            decreases lines@.len() - i,
        {
            let ghost st0 = abs_st(phase, name, dims, legend@, grid@, starts@);
            let ghost rest = lines_of(text@).skip(i as int);
            let ghost lseq = lines@[i as int]@;
            let lineno: usize = i + 1;
            proof {
                assert(views_of(lines@)[i as int] == lseq);
                assert(rest[0] == lseq);
                assert(rest.skip(1) =~= lines_of(text@).skip(i as int + 1));
                assert(st0.phase == phase);
            }
            let line: &Vec<u8> = &lines[i];
            if line.len() == 0 {
                proof {
                    assert(step_line(st0, lseq, lineno as int) == Ok::<ParseSt, ParseErrorView>(
                        st0,
                    ));
                }
            } else if crate::lex::is_delim(line.as_slice()) {
                phase = phase.next();
                proof {
                    let st2 = ParseSt { phase: next_phase(st0.phase), ..st0 };
                    assert(step_line(st0, lseq, lineno as int) == Ok::<ParseSt, ParseErrorView>(
                        st2,
                    ));
                    assert(abs_st(phase, name, dims, legend@, grid@, starts@) =~= st2);
                }
            } else {
                let toks = crate::lex::tokenize(line.as_slice());
                let ghost tv = tokens_of(lseq);
                proof {
                    assert(views_of(toks@) == tv);
                    assert forall|k: int| 0 <= k < toks@.len() implies #[trigger] toks@[k]@
                        == tv[k] by {
                        assert(views_of(toks@)[k] == toks@[k]@);
                    }
                }
                match phase {
                    Phase::Metadata => {
                        if name.is_some() {
                            proof {
                                assert(st0.name is Some);
                            }
                            return Err(ParseError::Structure { line: lineno });
                        }
                        if toks.len() < 3 {
                            return Err(ParseError::Structure { line: lineno });
                        }
                        let w: u16 = match crate::lex::parse_u16(toks[1].as_slice()) {
                            None => {
                                return Err(ParseError::Field { line: lineno });
                            },
                            Some(v) => v,
                        };
                        let h: u16 = match crate::lex::parse_u16(toks[2].as_slice()) {
                            None => {
                                return Err(ParseError::Field { line: lineno });
                            },
                            Some(v) => v,
                        };
                        name = Some(copy_vec(&toks[0]));
                        dims = Some((w, h));
                        proof {
                            let st2 = ParseSt {
                                name: Some(tv[0]),
                                dims: Some((dec_val(tv[1]) as u16, dec_val(tv[2]) as u16)),
                                ..st0
                            };
                            assert(step_line(st0, lseq, lineno as int) == Ok::<
                                ParseSt,
                                ParseErrorView,
                            >(st2));
                            assert(abs_st(phase, name, dims, legend@, grid@, starts@) =~= st2);
                        }
                    },
                    Phase::Legend => {
                        if toks.len() < 1 {
                            return Err(ParseError::Structure { line: lineno });
                        }
                        if legend_find(&legend, toks[0].as_slice()).is_some() {
                            return Err(
                                ParseError::DuplicateSymbol {
                                    line: lineno,
                                    symbol: copy_vec(&toks[0]),
                                },
                            );
                        }
                        if toks.len() < 2 {
                            return Err(ParseError::Structure { line: lineno });
                        }
                        let fl = &toks[1];
                        let open_f = fl.len() == 1 && (fl[0] == 111 || fl[0] == 79);
                        let solid_f = fl.len() == 1 && (fl[0] == 115 || fl[0] == 83);
                        proof {
                            assert(open_f == is_open_flag(tv[1]));
                            assert(solid_f == is_solid_flag(tv[1]));
                        }
                        if !open_f && !solid_f {
                            return Err(ParseError::Field { line: lineno });
                        }
                        if toks.len() < 3 {
                            return Err(ParseError::Structure { line: lineno });
                        }
                        let ax: u16 = match crate::lex::parse_u16(toks[2].as_slice()) {
                            None => {
                                return Err(ParseError::Field { line: lineno });
                            },
                            Some(v) => v,
                        };
                        if toks.len() < 4 {
                            return Err(ParseError::Structure { line: lineno });
                        }
                        let ay: u16 = match crate::lex::parse_u16(toks[3].as_slice()) {
                            None => {
                                return Err(ParseError::Field { line: lineno });
                            },
                            Some(v) => v,
                        };
                        if toks.len() < 5 {
                            return Err(ParseError::Structure { line: lineno });
                        }
                        let aw: u16 = match crate::lex::parse_u16(toks[4].as_slice()) {
                            None => {
                                return Err(ParseError::Field { line: lineno });
                            },
                            Some(v) => v,
                        };
                        if toks.len() < 6 {
                            return Err(ParseError::Structure { line: lineno });
                        }
                        let ah: u16 = match crate::lex::parse_u16(toks[5].as_slice()) {
                            None => {
                                return Err(ParseError::Field { line: lineno });
                            },
                            Some(v) => v,
                        };
                        if legend.len() >= 256 {
                            return Err(ParseError::Field { line: lineno });
                        }
                        let data = TileData {
                            solid: solid_f,
                            sheet_region: SheetRect { x: ax, y: ay, w: aw, h: ah },
                        };
                        let id: u8 = legend.len() as u8;
                        legend.push((copy_vec(&toks[0]), id, data));
                        proof {
                            let st2 = ParseSt {
                                legend: st0.legend.push((tv[0], st0.legend.len() as u8, data)),
                                ..st0
                            };
                            assert(step_line(st0, lseq, lineno as int) == Ok::<
                                ParseSt,
                                ParseErrorView,
                            >(st2));
                            assert(abs_legend(legend@) =~= st0.legend.push(
                                (tv[0], st0.legend.len() as u8, data),
                            ));
                            assert(abs_st(phase, name, dims, legend@, grid@, starts@) =~= st2);
                        }
                    },
                    Phase::MapRows => {
                        let (w, _h): (u16, u16) = match dims {
                            None => {
                                return Err(ParseError::Structure { line: lineno });
                            },
                            Some(d) => d,
                        };
                        let ghost leg = abs_legend(legend@);
                        let mut ids: Vec<u8> = Vec::new();
                        let mut k: usize = 0;
                        proof {
                            assert(tv.skip(0) =~= tv);
                            match map_ids(leg, tv) {
                                Err(_) => {},
                                Ok(x) => {
                                    assert(Seq::<u8>::empty() + x =~= x);
                                },
                            }
                        }
                        while k < toks.len()
                            invariant
                                k <= toks@.len(),
                                ids@.len() == k,
                                leg == abs_legend(legend@),
                                leg.len() <= 256,
                                forall|j: int| 0 <= j < leg.len() ==> #[trigger] leg[j].1 == j,
                                views_of(toks@) == tv,
                                with_prefix(ids@, map_ids(leg, tv.skip(k as int))) == map_ids(
                                    leg,
                                    tv,
                                ),
                            decreases toks@.len() - k,
                        {
                            proof {
                                assert(toks@[k as int]@ == tv[k as int]);
                                assert(tv.skip(k as int)[0] == tv[k as int]);
                                assert(tv.skip(k as int).skip(1) =~= tv.skip(k as int + 1));
                            }
                            match legend_find(&legend, toks[k].as_slice()) {
                                None => {
                                    proof {
                                        assert(map_ids(leg, tv.skip(k as int)) == Err::<
                                            Seq<u8>,
                                            Seq<u8>,
                                        >(tv[k as int]));
                                        assert(map_ids(leg, tv) == Err::<Seq<u8>, Seq<u8>>(
                                            tv[k as int],
                                        ));
                                        let ev = ParseErrorView::UnknownSymbol {
                                            line: lineno as int,
                                            symbol: tv[k as int],
                                        };
                                        assert(step_line(st0, lseq, lineno as int) == Err::<
                                            ParseSt,
                                            ParseErrorView,
                                        >(ev));
                                        assert(parse_lines(st0, rest, lineno as int) == Err::<
                                            LevelView,
                                            ParseErrorView,
                                        >(ev));
                                    }
                                    return Err(
                                        ParseError::UnknownSymbol {
                                            line: lineno,
                                            symbol: copy_vec(&toks[k]),
                                        },
                                    );
                                },
                                Some(idx) => {
                                    let ghost ids0 = ids@;
                                    proof {
                                        assert(idx < leg.len() <= 256);
                                        assert(leg[idx as int].1 == idx);
                                    }
                                    ids.push(idx as u8);
                                    proof {
                                        assert(ids@ =~= ids0.push(leg[idx as int].1));
                                        match map_ids(leg, tv.skip(k as int + 1)) {
                                            Err(s) => {
                                                assert(map_ids(leg, tv.skip(k as int)) == Err::<
                                                    Seq<u8>,
                                                    Seq<u8>,
                                                >(s));
                                                assert(map_ids(leg, tv) == Err::<
                                                    Seq<u8>,
                                                    Seq<u8>,
                                                >(s));
                                            },
                                            Ok(rest2) => {
                                                assert(map_ids(leg, tv.skip(k as int)) == Ok::<
                                                    Seq<u8>,
                                                    Seq<u8>,
                                                >(seq![leg[idx as int].1] + rest2));
                                                assert(map_ids(leg, tv) == Ok::<
                                                    Seq<u8>,
                                                    Seq<u8>,
                                                >(ids0 + (seq![leg[idx as int].1] + rest2)));
                                                assert(ids0 + (seq![leg[idx as int].1] + rest2)
                                                    =~= ids@ + rest2);
                                            },
                                        }
                                    }
                                },
                            }
                            k = k + 1;
                        }
                        proof {
                            assert(tv.skip(k as int) =~= Seq::<Seq<u8>>::empty());
                            assert(map_ids(leg, tv.skip(k as int)) == Ok::<Seq<u8>, Seq<u8>>(
                                Seq::empty(),
                            ));
                            assert(ids@ + Seq::<u8>::empty() =~= ids@);
                            assert(map_ids(leg, tv) == Ok::<Seq<u8>, Seq<u8>>(ids@));
                        }
                        if ids.len() != w as usize {
                            return Err(ParseError::DimensionMismatch { line: lineno });
                        }
                        grid.append(&mut ids);
                        proof {
                            let st2 = ParseSt { grid: st0.grid + map_ids_ok(leg, tv), ..st0 };
                            assert(grid@ == st0.grid + map_ids_ok(leg, tv));
                            assert(step_line(st0, lseq, lineno as int) == Ok::<
                                ParseSt,
                                ParseErrorView,
                            >(st2));
                            assert(abs_st(phase, name, dims, legend@, grid@, starts@) =~= st2);
                        }
                    },
                    Phase::Starts => {
                        if toks.len() < 1 {
                            return Err(ParseError::Structure { line: lineno });
                        }
                        let (ety, idx): (EntityType, usize) = if is_kw_player(
                            toks[0].as_slice(),
                        ) {
                            (EntityType::Player, 1)
                        } else if is_kw_enemy(toks[0].as_slice()) {
                            (EntityType::Enemy, 1)
                        } else if is_kw_door(toks[0].as_slice()) {
                            if toks.len() < 2 {
                                return Err(ParseError::Structure { line: lineno });
                            }
                            if toks.len() < 3 {
                                return Err(ParseError::Structure { line: lineno });
                            }
                            let dx: u16 = match crate::lex::parse_u16(toks[2].as_slice()) {
                                None => {
                                    return Err(ParseError::Field { line: lineno });
                                },
                                Some(v) => v,
                            };
                            if toks.len() < 4 {
                                return Err(ParseError::Structure { line: lineno });
                            }
                            let dy: u16 = match crate::lex::parse_u16(toks[3].as_slice()) {
                                None => {
                                    return Err(ParseError::Field { line: lineno });
                                },
                                Some(v) => v,
                            };
                            (EntityType::Door(copy_vec(&toks[1]), dx, dy), 4)
                        } else {
                            return Err(
                                ParseError::UnrecognizedEntityKind {
                                    line: lineno,
                                    kind: copy_vec(&toks[0]),
                                },
                            );
                        };
                        let ghost etyv = ety@;
                        proof {
                            assert(step_starts(st0, tv, lineno as int) == step_start_pos(
                                st0,
                                tv,
                                idx as int,
                                etyv,
                                lineno as int,
                            ));
                        }
                        if toks.len() < idx + 1 {
                            return Err(ParseError::Structure { line: lineno });
                        }
                        let px: u16 = match crate::lex::parse_u16(toks[idx].as_slice()) {
                            None => {
                                return Err(ParseError::Field { line: lineno });
                            },
                            Some(v) => v,
                        };
                        if toks.len() < idx + 2 {
                            return Err(ParseError::Structure { line: lineno });
                        }
                        let py: u16 = match crate::lex::parse_u16(toks[idx + 1].as_slice()) {
                            None => {
                                return Err(ParseError::Field { line: lineno });
                            },
                            Some(v) => v,
                        };
                        proof {
                            crate::lex::lemma_dec_val_nonneg(tv[idx as int]);
                            crate::lex::lemma_dec_val_nonneg(tv[idx as int + 1]);
                        }
                        let v = Vec2 { x: px as i64, y: py as i64 };
                        starts.push((ety, v));
                        proof {
                            let st2 = ParseSt { starts: st0.starts.push((etyv, v)), ..st0 };
                            assert(step_line(st0, lseq, lineno as int) == Ok::<
                                ParseSt,
                                ParseErrorView,
                            >(st2));
                            assert(abs_starts(starts@) =~= st0.starts.push((etyv, v)));
                            assert(abs_st(phase, name, dims, legend@, grid@, starts@) =~= st2);
                        }
                    },
                    Phase::Done => {
                        return Err(ParseError::Structure { line: lineno });
                    },
                }
            }
            i = i + 1;
        }
        let ghost stf = abs_st(phase, name, dims, legend@, grid@, starts@);
        proof {
            assert(lines_of(text@).skip(i as int) =~= Seq::<Seq<u8>>::empty());
            assert(parse_lines(stf, lines_of(text@).skip(i as int), i as int + 1) == finalize_st(
                stf,
            ));
        }
        let nm: Vec<u8> = match name {
            None => {
                return Err(ParseError::Structure { line: 0 });
            },
            Some(v) => v,
        };
        let (w, h): (u16, u16) = match dims {
            None => {
                return Err(ParseError::Structure { line: 0 });
            },
            Some(d) => d,
        };
        match phase {
            Phase::Starts => {},
            Phase::Done => {},
            _ => {
                return Err(ParseError::Structure { line: 0 });
            },
        }
        let total_w: usize = w as usize;
        let total_h: usize = h as usize;
        proof {
            assert(total_w * total_h <= 0xFFFF * 0xFFFF) by (nonlinear_arith)
                requires
                    total_w <= 0xFFFF,
                    total_h <= 0xFFFF,
            ;
        }
        let total: usize = total_w * total_h;
        if grid.len() != total {
            return Err(ParseError::DimensionMismatch { line: 0 });
        }
        let mut tiles: Vec<TileData> = Vec::new();
        let mut k: usize = 0;
        while k < legend.len()
            invariant
                k <= legend@.len(),
                tiles@.len() == k,
                forall|j: int| 0 <= j < k ==> tiles@[j] == #[trigger] legend@[j].2,
            decreases legend@.len() - k,
        {
            tiles.push(legend[k].2);
            k = k + 1;
        }
        let g = Grid::new(total_w, total_h, grid);
        let level = Level { name: nm, grid: g, tileset: Tileset { tiles }, starts };
        proof {
            let lv = LevelView {
                name: level.name@,
                width: w as nat,
                height: h as nat,
                grid: level.grid.data@,
                tiles: stf.legend.map_values(|e: LegendEntry| e.2),
                starts: stf.starts,
            };
            assert(level.tileset.tiles@ =~= stf.legend.map_values(|e: LegendEntry| e.2));
            assert(level@ =~= lv);
            assert(finalize_st(stf) == Ok::<LevelView, ParseErrorView>(lv));
            lemma_parse_wf(text@);
        }
        Ok(level)
    }
}

/// The ids [`map_ids`] yields on success.
pub open spec fn map_ids_ok(legend: Seq<LegendEntry>, toks: Seq<Seq<u8>>) -> Seq<u8> {
    match map_ids(legend, toks) {
        Ok(ids) => ids,
        Err(_) => Seq::empty(),
    }
}

impl Level {
    pub fn name(&self) -> (r: &Vec<u8>)
        ensures
            r@ == self@.name,
    {
        &self.name
    }

    pub fn starts(&self) -> (r: &Vec<(EntityType, Vec2)>)
        ensures
            *r == self.starts,
            abs_starts(r@) == self@.starts,
    {
        &self.starts
    }

    pub fn grid_width(&self) -> (w: usize)
        ensures
            w == self@.width,
    {
        self.grid.width()
    }

    pub fn grid_height(&self) -> (h: usize)
        ensures
            h == self@.height,
    {
        self.grid.height()
    }

    /// One sprite per grid cell.
    pub fn sprite_count(&self) -> (n: usize)
        requires
            self.wf(),
        ensures
            n == self@.width * self@.height,
    {
        let n: usize = self.grid.data.len();
        self.grid.width() * self.grid.height()
    }
}

} // verus!
