//! Writing a level back out in the level text format.
//!
//! [`Level::to_text`] renders a loaded level as level text; the round-trip
//! law [`lemma_round_trip`] proves that re-parsing that text reproduces
//! the level exactly — same name, grid, tileset and spawn order. Legend
//! symbols are not kept in a loaded level, so the writer derives a fresh
//! symbol from each tile id.

use vstd::prelude::*;

use crate::lex::{
    dec_val, is_delim_line, is_u16_token, is_ws, lemma_newline_idx, lemma_ws_idx,
    lines_of, newline_idx, strip_cr, tokens_of, ws_idx,
};
use crate::level::{
    kw_door, kw_enemy, kw_player, legend_lookup, lemma_legend_lookup, lv_wf, map_ids, next_phase,
    parse_level_spec, parse_lines, step_line, finalize_st, init_st, LegendEntry, Level,
    LevelView, ParseErrorView, ParseSt, Phase,
};
use crate::EntityType;
use crate::geom::Vec2;
use crate::{EntityTypeView, TileData};

verus! {

/// A byte sequence that survives as one token on one line: non-empty,
/// no whitespace, no line feed.
pub open spec fn token_ok(s: Seq<u8>) -> bool {
    s.len() > 0 && forall|i: int| 0 <= i < s.len() ==> !is_ws(#[trigger] s[i]) && s[i] != 10
}

/// Decimal digits of `v`, most significant first, no leading zeros.
pub open spec fn u16_digits(v: int) -> Seq<u8>
    decreases v,
{
    if v < 10 {
        seq![(48 + v) as u8]
    } else {
        u16_digits(v / 10).push((48 + v % 10) as u8)
    }
}

pub proof fn lemma_u16_digits(v: int)
    requires
        0 <= v <= 0xFFFF,
    ensures
        is_u16_token(u16_digits(v)),
        dec_val(u16_digits(v)) == v,
        token_ok(u16_digits(v)),
        u16_digits(v)[0] != 61,
    decreases v,
{
    if v < 10 {
        let s = u16_digits(v);
        assert((48 + v) as u8 == 48 + v);
        assert(s.len() == 1 && s[0] == 48 + v);
        assert(s.drop_last() =~= Seq::<u8>::empty());
        assert(s.last() == 48 + v);
        assert(dec_val(s) == dec_val(s.drop_last()) * 10 + (s.last() - 48));
        assert(dec_val(s) == v);
    } else {
        vstd::arithmetic::div_mod::lemma_fundamental_div_mod(v, 10);
        vstd::arithmetic::div_mod::lemma_mod_bound(v, 10);
        vstd::arithmetic::div_mod::lemma_div_pos_is_pos(v, 10);
        vstd::arithmetic::div_mod::lemma_multiply_divide_lt(v, 10, 0x10000);
        lemma_u16_digits(v / 10);
        let s = u16_digits(v);
        let pre = u16_digits(v / 10);
        assert(s == pre.push((48 + v % 10) as u8));
        assert(s.drop_last() =~= pre);
        assert(s.last() == (48 + v % 10) as u8);
        assert(dec_val(s) == dec_val(pre) * 10 + (v % 10));
        assert(dec_val(s) == v);
        assert forall|i: int| 0 <= i < s.len() implies {
            &&& crate::lex::is_digit(#[trigger] s[i])
            &&& !is_ws(s[i])
            &&& s[i] != 10
        } by {
            if i < pre.len() {
                assert(s[i] == pre[i]);
            }
        }
    }
}

/// The symbol the writer gives tile id `i`: `t` followed by the decimal
/// id.
pub open spec fn sym_of(i: int) -> Seq<u8> {
    seq![116u8] + u16_digits(i)
}

pub proof fn lemma_sym_of(i: int)
    requires
        0 <= i <= 0xFFFF,
    ensures
        token_ok(sym_of(i)),
        sym_of(i)[0] == 116,
    decreases i,
{
    lemma_u16_digits(i);
    assert forall|k: int| 0 <= k < sym_of(i).len() implies !is_ws(#[trigger] sym_of(i)[k])
        && sym_of(i)[k] != 10 by {
        if k > 0 {
            assert(sym_of(i)[k] == u16_digits(i)[k - 1]);
        }
    }
}

/// Distinct ids get distinct symbols.
pub proof fn lemma_sym_of_injective(i: int, j: int)
    requires
        0 <= i <= 0xFFFF,
        0 <= j <= 0xFFFF,
        i != j,
    ensures
        sym_of(i) != sym_of(j),
{
    lemma_u16_digits(i);
    lemma_u16_digits(j);
    if sym_of(i) == sym_of(j) {
        assert(sym_of(i).len() == sym_of(j).len());
        assert(u16_digits(i).len() == u16_digits(j).len());
        assert(u16_digits(i) =~= u16_digits(j)) by {
            assert forall|k: int| 0 <= k < u16_digits(i).len() implies u16_digits(i)[k]
                == u16_digits(j)[k] by {
                assert(sym_of(i)[k + 1] == u16_digits(i)[k]);
                assert(sym_of(j)[k + 1] == u16_digits(j)[k]);
            }
        }
        assert(dec_val(u16_digits(i)) == dec_val(u16_digits(j)));
        assert(false);
    }
}

/// Tokens joined by single spaces, each followed by one space.
pub open spec fn join_tokens(toks: Seq<Seq<u8>>) -> Seq<u8>
    decreases toks.len(),
{
    if toks.len() == 0 {
        Seq::empty()
    } else {
        toks[0] + seq![32u8] + join_tokens(toks.skip(1))
    }
}

/// A joined line of well-formed tokens splits back into exactly those
/// tokens.
pub proof fn lemma_join_tokens(toks: Seq<Seq<u8>>)
    requires
        forall|i: int| 0 <= i < toks.len() ==> token_ok(#[trigger] toks[i]),
    ensures
        tokens_of(join_tokens(toks)) == toks,
        forall|k: int| 0 <= k < join_tokens(toks).len() ==> #[trigger] join_tokens(toks)[k]
            != 10,
        toks.len() > 0 ==> join_tokens(toks).len() > 0 && join_tokens(toks).last() == 32,
    decreases toks.len(),
{
    if toks.len() == 0 {
        assert(tokens_of(join_tokens(toks)) =~= toks);
    } else {
        let t0 = toks[0];
        let rest = join_tokens(toks.skip(1));
        let l = join_tokens(toks);
        lemma_join_tokens(toks.skip(1));
        assert(l == t0 + seq![32u8] + rest);
        assert forall|k: int| 0 <= k < l.len() implies #[trigger] l[k] != 10 by {
            if k < t0.len() {
                assert(l[k] == t0[k]);
            } else if k == t0.len() {
                assert(l[k] == 32);
            } else {
                assert(l[k] == rest[k - t0.len() - 1]);
            }
        }
        if toks.len() > 0 {
            if rest.len() > 0 {
                assert(l.last() == rest.last());
            } else {
                assert(l.last() == 32);
            }
        }
        // The first whitespace byte of the line is the space after the
        // first token.
        lemma_ws_idx(l);
        assert forall|k: int| 0 <= k < t0.len() implies !is_ws(#[trigger] l[k]) by {
            assert(l[k] == t0[k]);
        }
        assert(is_ws(l[t0.len() as int]));
        if ws_idx(l) < t0.len() {
            assert(is_ws(l[ws_idx(l)]));
            assert(false);
        }
        if ws_idx(l) > t0.len() {
            assert(!is_ws(l[t0.len() as int]));
            assert(false);
        }
        assert(ws_idx(l) == t0.len());
        assert(!is_ws(l[0]));
        assert(l.take(t0.len() as int) =~= t0);
        assert(l.skip(t0.len() as int) =~= seq![32u8] + rest);
        assert(tokens_of(l) == seq![t0] + tokens_of(seq![32u8] + rest));
        assert((seq![32u8] + rest).skip(1) =~= rest);
        assert(tokens_of(seq![32u8] + rest) == tokens_of(rest));
        assert(tokens_of(l) =~= toks);
    }
}

/// Lines, each closed by one line feed.
pub open spec fn join_lines(lines: Seq<Seq<u8>>) -> Seq<u8>
    decreases lines.len(),
{
    if lines.len() == 0 {
        Seq::empty()
    } else {
        lines[0] + seq![10u8] + join_lines(lines.skip(1))
    }
}

/// Joined lines split back into exactly those lines, provided none holds
/// a line feed or ends in a carriage return.
pub proof fn lemma_join_lines(lines: Seq<Seq<u8>>)
    requires
        forall|i: int, k: int|
            0 <= i < lines.len() && 0 <= k < lines[i].len() ==> #[trigger] lines[i][k] != 10,
        forall|i: int|
            0 <= i < lines.len() && lines[i].len() > 0 ==> (#[trigger] lines[i]).last() != 13,
    ensures
        lines_of(join_lines(lines)) == lines,
    decreases lines.len(),
{
    if lines.len() == 0 {
        assert(lines_of(join_lines(lines)) =~= lines);
    } else {
        let l0 = lines[0];
        let rest = join_lines(lines.skip(1));
        let t = join_lines(lines);
        lemma_join_lines(lines.skip(1));
        assert(t == l0 + seq![10u8] + rest);
        lemma_newline_idx(t);
        assert forall|k: int| 0 <= k < l0.len() implies #[trigger] t[k] != 10 by {
            assert(t[k] == l0[k]);
        }
        assert(t[l0.len() as int] == 10);
        if newline_idx(t) < l0.len() {
            assert(t[newline_idx(t)] == 10);
            assert(false);
        }
        if newline_idx(t) > l0.len() {
            assert(t[l0.len() as int] != 10);
            assert(false);
        }
        assert(newline_idx(t) == l0.len());
        assert(newline_idx(t) < t.len());
        assert(t.take(l0.len() as int) =~= l0);
        assert(strip_cr(l0) == l0);
        assert(t.skip(l0.len() as int + 1) =~= rest);
        assert(lines_of(t) == seq![l0] + lines_of(rest));
        assert(lines_of(t) =~= lines);
    }
}

/// The delimiter line the writer emits.
pub open spec fn delim_line() -> Seq<u8> {
    seq![61u8, 61u8, 61u8, 61u8]
}

pub open spec fn flag_tok(solid: bool) -> Seq<u8> {
    if solid {
        seq![115u8]  // "s"
    } else {
        seq![111u8]  // "o"
    }
}

pub open spec fn meta_line(lv: LevelView) -> Seq<u8> {
    join_tokens(
        seq![lv.name, u16_digits(lv.width as int), u16_digits(lv.height as int)],
    )
}

pub open spec fn legend_line(lv: LevelView, i: int) -> Seq<u8> {
    join_tokens(
        seq![
            sym_of(i),
            flag_tok(lv.tiles[i].solid),
            u16_digits(lv.tiles[i].sheet_region.x as int),
            u16_digits(lv.tiles[i].sheet_region.y as int),
            u16_digits(lv.tiles[i].sheet_region.w as int),
            u16_digits(lv.tiles[i].sheet_region.h as int),
        ],
    )
}

pub open spec fn legend_lines_from(lv: LevelView, i: int) -> Seq<Seq<u8>>
    decreases lv.tiles.len() - i,
{
    if i < 0 || i >= lv.tiles.len() {
        Seq::empty()
    } else {
        seq![legend_line(lv, i)] + legend_lines_from(lv, i + 1)
    }
}

pub open spec fn row_syms(lv: LevelView, row: int, c: int) -> Seq<Seq<u8>>
    decreases lv.width - c,
{
    if c < 0 || c >= lv.width {
        Seq::empty()
    } else {
        seq![sym_of(lv.grid[row * lv.width + c] as int)] + row_syms(lv, row, c + 1)
    }
}

pub open spec fn row_line(lv: LevelView, row: int) -> Seq<u8> {
    join_tokens(row_syms(lv, row, 0))
}

pub open spec fn row_lines_from(lv: LevelView, row: int) -> Seq<Seq<u8>>
    decreases lv.height - row,
{
    if row < 0 || row >= lv.height {
        Seq::empty()
    } else {
        seq![row_line(lv, row)] + row_lines_from(lv, row + 1)
    }
}

pub open spec fn start_line(s: (EntityTypeView, Vec2)) -> Seq<u8> {
    match s.0 {
        EntityTypeView::Player => join_tokens(
            seq![kw_player(), u16_digits(s.1.x as int), u16_digits(s.1.y as int)],
        ),
        EntityTypeView::Enemy => join_tokens(
            seq![kw_enemy(), u16_digits(s.1.x as int), u16_digits(s.1.y as int)],
        ),
        EntityTypeView::Door(nm, dx, dy) => join_tokens(
            seq![
                kw_door(),
                nm,
                u16_digits(dx as int),
                u16_digits(dy as int),
                u16_digits(s.1.x as int),
                u16_digits(s.1.y as int),
            ],
        ),
        EntityTypeView::Gold => Seq::empty(),
    }
}

pub open spec fn start_lines_from(lv: LevelView, i: int) -> Seq<Seq<u8>>
    decreases lv.starts.len() - i,
{
    if i < 0 || i >= lv.starts.len() {
        Seq::empty()
    } else {
        seq![start_line(lv.starts[i])] + start_lines_from(lv, i + 1)
    }
}

/// A spawn record the grammar can express: grid coordinates, a door's
/// destination name a single token, and a kind the starts section names.
pub open spec fn start_ok(s: (EntityTypeView, Vec2)) -> bool {
    &&& 0 <= s.1.x <= 0xFFFF
    &&& 0 <= s.1.y <= 0xFFFF
    &&& match s.0 {
        EntityTypeView::Door(nm, _, _) => token_ok(nm),
        EntityTypeView::Gold => false,
        _ => true,
    }
}

/// A level the writer can express in the grammar: well formed, its name
/// a single token, every spawn record expressible.
pub open spec fn serializable(lv: LevelView) -> bool {
    &&& lv_wf(lv)
    &&& token_ok(lv.name)
    &&& forall|i: int| 0 <= i < lv.starts.len() ==> start_ok(#[trigger] lv.starts[i])
}

/// The whole text: the four sections, separated by delimiter lines.
pub open spec fn level_lines(lv: LevelView) -> Seq<Seq<u8>> {
    seq![meta_line(lv)] + seq![delim_line()] + legend_lines_from(lv, 0) + seq![delim_line()]
        + row_lines_from(lv, 0) + seq![delim_line()] + start_lines_from(lv, 0)
}

pub open spec fn level_text(lv: LevelView) -> Seq<u8> {
    join_lines(level_lines(lv))
}

/// Folding lines through the parser without the end-of-input step.
pub open spec fn fold_lines(st: ParseSt, lines: Seq<Seq<u8>>, lineno: int) -> Result<
    ParseSt,
    ParseErrorView,
> decreases lines.len(),
{
    if lines.len() == 0 {
        Ok(st)
    } else {
        match step_line(st, lines[0], lineno) {
            Err(e) => Err(e),
            Ok(st2) => fold_lines(st2, lines.skip(1), lineno + 1),
        }
    }
}

/// Parsing a concatenation folds the first part, then parses the rest
/// from the state reached.
pub proof fn lemma_parse_decompose(st: ParseSt, a: Seq<Seq<u8>>, b: Seq<Seq<u8>>, n: int)
    ensures
        parse_lines(st, a + b, n) == match fold_lines(st, a, n) {
            Err(e) => Err::<LevelView, ParseErrorView>(e),
            Ok(st2) => parse_lines(st2, b, n + a.len()),
        },
    decreases a.len(),
{
    if a.len() == 0 {
        assert(a + b =~= b);
    } else {
        assert((a + b)[0] == a[0]);
        assert((a + b).len() > 0);
        assert((a + b).skip(1) =~= a.skip(1) + b);
        match step_line(st, a[0], n) {
            Err(_) => {},
            Ok(st2) => {
                lemma_parse_decompose(st2, a.skip(1), b, n + 1);
            },
        }
    }
}

/// The first `i` legend entries the writer's lines produce.
pub open spec fn legend_prefix(lv: LevelView, i: int) -> Seq<LegendEntry> {
    Seq::new(i as nat, |j: int| (sym_of(j), j as u8, lv.tiles[j]))
}

/// A line of joined tokens is content: non-empty and no delimiter.
pub proof fn lemma_join_line_is_content(toks: Seq<Seq<u8>>)
    requires
        forall|i: int| 0 <= i < toks.len() ==> token_ok(#[trigger] toks[i]),
        toks.len() > 0,
    ensures
        join_tokens(toks).len() > 0,
        !is_delim_line(join_tokens(toks)),
        tokens_of(join_tokens(toks)) == toks,
    decreases toks.len(),
{
    lemma_join_tokens(toks);
    let l = join_tokens(toks);
    assert(l.last() == 32);
    assert(l[l.len() - 1] != 61);
}

/// The writer's symbols never collide with what the legend already
/// declares, and each already declared symbol is found at its id.
pub proof fn lemma_legend_prefix_lookup(lv: LevelView, i: int, m: int)
    requires
        0 <= i <= 256,
        0 <= m <= 0xFFFF,
    ensures
        m < i ==> legend_lookup(legend_prefix(lv, i), sym_of(m)) == Some(m),
        m >= i ==> legend_lookup(legend_prefix(lv, i), sym_of(m)) is None,
{
    let leg = legend_prefix(lv, i);
    lemma_legend_lookup(leg, sym_of(m));
    match legend_lookup(leg, sym_of(m)) {
        Some(idx) => {
            assert(leg[idx].0 == sym_of(idx));
            if idx != m {
                lemma_sym_of_injective(idx, m);
                assert(false);
            }
        },
        None => {
            if m < i {
                assert(leg[m].0 == sym_of(m));
                assert(false);
            }
        },
    }
}

/// Folding the legend section declares every tile, in order, with dense
/// ids.
pub proof fn lemma_fold_legend(lv: LevelView, st: ParseSt, i: int, n: int)
    requires
        serializable(lv),
        0 <= i <= lv.tiles.len(),
        st.phase is Legend,
        st.legend == legend_prefix(lv, i),
    ensures
        fold_lines(st, legend_lines_from(lv, i), n) == Ok::<ParseSt, ParseErrorView>(
            ParseSt { legend: legend_prefix(lv, lv.tiles.len() as int), ..st },
        ),
    decreases lv.tiles.len() - i,
{
    if i == lv.tiles.len() {
        assert(fold_lines(st, legend_lines_from(lv, i), n) == Ok::<ParseSt, ParseErrorView>(st));
        assert(ParseSt { legend: legend_prefix(lv, lv.tiles.len() as int), ..st } =~= st);
    } else {
        let t = lv.tiles[i];
        let toks = seq![
            sym_of(i),
            flag_tok(t.solid),
            u16_digits(t.sheet_region.x as int),
            u16_digits(t.sheet_region.y as int),
            u16_digits(t.sheet_region.w as int),
            u16_digits(t.sheet_region.h as int),
        ];
        lemma_sym_of(i);
        lemma_u16_digits(t.sheet_region.x as int);
        lemma_u16_digits(t.sheet_region.y as int);
        lemma_u16_digits(t.sheet_region.w as int);
        lemma_u16_digits(t.sheet_region.h as int);
        assert forall|k: int| 0 <= k < toks.len() implies token_ok(#[trigger] toks[k]) by {
            if k == 1 {
                assert(toks[1] == flag_tok(t.solid));
            }
        }
        lemma_join_line_is_content(toks);
        let l = legend_line(lv, i);
        assert(l == join_tokens(toks));
        lemma_legend_prefix_lookup(lv, i, i);
        let data = TileData {
            solid: crate::level::is_solid_flag(toks[1]),
            sheet_region: crate::SheetRect {
                x: dec_val(toks[2]) as u16,
                y: dec_val(toks[3]) as u16,
                w: dec_val(toks[4]) as u16,
                h: dec_val(toks[5]) as u16,
            },
        };
        assert(data == t);
        let st2 = ParseSt { legend: st.legend.push((sym_of(i), i as u8, t)), ..st };
        assert(step_line(st, l, n) == Ok::<ParseSt, ParseErrorView>(st2));
        assert(st2.legend =~= legend_prefix(lv, i + 1));
        assert(st2 =~= (ParseSt { legend: legend_prefix(lv, i + 1), ..st }));
        lemma_fold_legend(lv, ParseSt { legend: legend_prefix(lv, i + 1), ..st }, i + 1, n + 1);
        assert(legend_lines_from(lv, i).skip(1) =~= legend_lines_from(lv, i + 1));
    }
}

/// The ids a written map row stands for, from column `c` on.
pub open spec fn row_ids(lv: LevelView, row: int, c: int) -> Seq<u8>
    decreases lv.width - c,
{
    if c < 0 || c >= lv.width {
        Seq::empty()
    } else {
        seq![lv.grid[row * lv.width + c]] + row_ids(lv, row, c + 1)
    }
}

/// A written map row reads back as exactly the grid cells it encodes.
pub proof fn lemma_row_tokens(lv: LevelView, row: int, c: int)
    requires
        lv_wf(lv),
        0 <= row < lv.height,
        0 <= c <= lv.width,
    ensures
        row_syms(lv, row, c).len() == lv.width - c,
        forall|k: int| 0 <= k < row_syms(lv, row, c).len() ==> token_ok(
            #[trigger] row_syms(lv, row, c)[k],
        ),
        map_ids(legend_prefix(lv, lv.tiles.len() as int), row_syms(lv, row, c)) == Ok::<
            Seq<u8>,
            Seq<u8>,
        >(row_ids(lv, row, c)),
        row_ids(lv, row, c).len() == lv.width - c,
        forall|k: int| 0 <= k < row_ids(lv, row, c).len() ==> #[trigger] row_ids(lv, row, c)[k]
            == lv.grid[row * lv.width + c + k],
    decreases lv.width - c,
{
    if c < lv.width {
        assert(row * lv.width + c < lv.width * lv.height) by (nonlinear_arith)
            requires
                0 <= c,
                c < lv.width,
                0 <= row,
                row < lv.height,
        ;
        let id = lv.grid[row * lv.width + c] as int;
        assert(id < lv.tiles.len());
        lemma_sym_of(id);
        lemma_legend_prefix_lookup(lv, lv.tiles.len() as int, id);
        lemma_row_tokens(lv, row, c + 1);
        let syms = row_syms(lv, row, c);
        let ids = row_ids(lv, row, c);
        assert(syms[0] == sym_of(id));
        assert(syms.skip(1) =~= row_syms(lv, row, c + 1));
        assert(ids.skip(1) =~= row_ids(lv, row, c + 1));
        let leg = legend_prefix(lv, lv.tiles.len() as int);
        assert(leg[id].1 == id as u8);
        assert(map_ids(leg, syms) == Ok::<Seq<u8>, Seq<u8>>(
            seq![leg[id].1] + row_ids(lv, row, c + 1),
        ));
        assert(seq![leg[id].1] + row_ids(lv, row, c + 1) =~= ids);
        assert forall|k: int| 0 <= k < ids.len() implies #[trigger] ids[k] == lv.grid[row
            * lv.width + c + k] by {
            if k > 0 {
                assert(ids[k] == row_ids(lv, row, c + 1)[k - 1]);
            }
        }
        assert forall|k: int| 0 <= k < syms.len() implies token_ok(#[trigger] syms[k]) by {
            if k > 0 {
                assert(syms[k] == row_syms(lv, row, c + 1)[k - 1]);
            }
        }
    }
}

/// Folding the map section accumulates exactly the level's grid.
pub proof fn lemma_fold_rows(lv: LevelView, st: ParseSt, row: int, n: int)
    requires
        serializable(lv),
        0 <= row <= lv.height,
        st.phase is MapRows,
        st.dims == Some((lv.width as u16, lv.height as u16)),
        st.legend == legend_prefix(lv, lv.tiles.len() as int),
        st.grid == lv.grid.take(row * lv.width),
    ensures
        fold_lines(st, row_lines_from(lv, row), n) == Ok::<ParseSt, ParseErrorView>(
            ParseSt { grid: lv.grid, ..st },
        ),
    decreases lv.height - row,
{
    if row == lv.height {
        assert(row * lv.width == lv.width * lv.height) by (nonlinear_arith)
            requires
                row == lv.height,
        ;
        assert(st.grid =~= lv.grid);
        assert(ParseSt { grid: lv.grid, ..st } =~= st);
    } else {
        let l = row_line(lv, row);
        let st2 = if lv.width == 0 {
            st
        } else {
            ParseSt { grid: st.grid + row_ids(lv, row, 0), ..st }
        };
        if lv.width == 0 {
            assert(row_syms(lv, row, 0) =~= Seq::<Seq<u8>>::empty());
            assert(l =~= Seq::<u8>::empty());
            assert(step_line(st, l, n) == Ok::<ParseSt, ParseErrorView>(st));
        } else {
            lemma_row_tokens(lv, row, 0);
            lemma_join_line_is_content(row_syms(lv, row, 0));
            assert(step_line(st, l, n) == Ok::<ParseSt, ParseErrorView>(st2));
        }
        assert((row + 1) * lv.width == row * lv.width + lv.width) by (nonlinear_arith);
        assert((row + 1) * lv.width <= lv.width * lv.height) by (nonlinear_arith)
            requires
                0 <= row,
                row < lv.height,
        ;
        assert(st2.grid =~= lv.grid.take((row + 1) * lv.width)) by {
            if lv.width > 0 {
                assert forall|k: int| 0 <= k < st2.grid.len() implies st2.grid[k] == lv.grid[k]
                    by {
                    if k >= row * lv.width {
                        assert(st2.grid[k] == row_ids(lv, row, 0)[k - row * lv.width]);
                    }
                }
            }
        }
        lemma_fold_rows(
            lv,
            ParseSt { grid: lv.grid.take((row + 1) * lv.width), ..st },
            row + 1,
            n + 1,
        );
        assert(st2 =~= (ParseSt { grid: lv.grid.take((row + 1) * lv.width), ..st }));
        assert(row_lines_from(lv, row).skip(1) =~= row_lines_from(lv, row + 1));
    }
}

/// Folding the starts section reproduces the spawn records in order.
pub proof fn lemma_fold_starts(lv: LevelView, st: ParseSt, i: int, n: int)
    requires
        serializable(lv),
        0 <= i <= lv.starts.len(),
        st.phase is Starts,
        st.starts == lv.starts.take(i),
    ensures
        fold_lines(st, start_lines_from(lv, i), n) == Ok::<ParseSt, ParseErrorView>(
            ParseSt { starts: lv.starts, ..st },
        ),
    decreases lv.starts.len() - i,
{
    if i == lv.starts.len() {
        assert(st.starts =~= lv.starts);
        assert(ParseSt { starts: lv.starts, ..st } =~= st);
    } else {
        let s = lv.starts[i];
        assert(start_ok(s));
        let l = start_line(s);
        lemma_u16_digits(s.1.x as int);
        lemma_u16_digits(s.1.y as int);
        assert(token_ok(kw_player()));
        assert(token_ok(kw_enemy()));
        assert(token_ok(kw_door()));
        assert(kw_player() != kw_enemy() && kw_player() != kw_door() && kw_enemy()
            != kw_door()) by {
            assert(kw_player().len() == 6 && kw_enemy().len() == 5 && kw_door().len() == 4);
        }
        let v = Vec2 { x: (s.1.x as int) as i64, y: (s.1.y as int) as i64 };
        assert(v == s.1);
        let st2 = ParseSt { starts: st.starts.push(s), ..st };
        match s.0 {
            EntityTypeView::Player => {
                let toks = seq![kw_player(), u16_digits(s.1.x as int), u16_digits(s.1.y as int)];
                assert(forall|k: int| 0 <= k < toks.len() ==> token_ok(#[trigger] toks[k]));
                lemma_join_line_is_content(toks);
                assert(step_line(st, l, n) == Ok::<ParseSt, ParseErrorView>(st2));
            },
            EntityTypeView::Enemy => {
                let toks = seq![kw_enemy(), u16_digits(s.1.x as int), u16_digits(s.1.y as int)];
                assert(forall|k: int| 0 <= k < toks.len() ==> token_ok(#[trigger] toks[k]));
                lemma_join_line_is_content(toks);
                assert(toks[0] != kw_player());
                assert(step_line(st, l, n) == Ok::<ParseSt, ParseErrorView>(st2));
            },
            EntityTypeView::Door(nm, dx, dy) => {
                lemma_u16_digits(dx as int);
                lemma_u16_digits(dy as int);
                let toks = seq![
                    kw_door(),
                    nm,
                    u16_digits(dx as int),
                    u16_digits(dy as int),
                    u16_digits(s.1.x as int),
                    u16_digits(s.1.y as int),
                ];
                assert(forall|k: int| 0 <= k < toks.len() ==> token_ok(#[trigger] toks[k]));
                lemma_join_line_is_content(toks);
                assert(toks[0] != kw_player() && toks[0] != kw_enemy());
                assert(step_line(st, l, n) == Ok::<ParseSt, ParseErrorView>(st2));
            },
            EntityTypeView::Gold => {
                assert(false);
            },
        }
        assert(st2.starts =~= lv.starts.take(i + 1));
        assert(st2 =~= (ParseSt { starts: lv.starts.take(i + 1), ..st }));
        lemma_fold_starts(lv, ParseSt { starts: lv.starts.take(i + 1), ..st }, i + 1, n + 1);
        assert(start_lines_from(lv, i).skip(1) =~= start_lines_from(lv, i + 1));
    }
}

/// A line [`lemma_join_lines`] accepts: no line feed, no trailing
/// carriage return.
pub open spec fn line_clean(l: Seq<u8>) -> bool {
    &&& forall|k: int| 0 <= k < l.len() ==> l[k] != 10
    &&& l.len() > 0 ==> l.last() != 13
}

pub proof fn lemma_joined_line_clean(toks: Seq<Seq<u8>>)
    requires
        forall|i: int| 0 <= i < toks.len() ==> token_ok(#[trigger] toks[i]),
    ensures
        line_clean(join_tokens(toks)),
{
    lemma_join_tokens(toks);
}

pub proof fn lemma_legend_lines_clean(lv: LevelView, i: int)
    requires
        serializable(lv),
        0 <= i,
    ensures
        forall|j: int| 0 <= j < legend_lines_from(lv, i).len() ==> line_clean(
            #[trigger] legend_lines_from(lv, i)[j],
        ),
    decreases lv.tiles.len() - i,
{
    if i < lv.tiles.len() {
        let t = lv.tiles[i];
        let toks = seq![
            sym_of(i),
            flag_tok(t.solid),
            u16_digits(t.sheet_region.x as int),
            u16_digits(t.sheet_region.y as int),
            u16_digits(t.sheet_region.w as int),
            u16_digits(t.sheet_region.h as int),
        ];
        lemma_sym_of(i);
        lemma_u16_digits(t.sheet_region.x as int);
        lemma_u16_digits(t.sheet_region.y as int);
        lemma_u16_digits(t.sheet_region.w as int);
        lemma_u16_digits(t.sheet_region.h as int);
        assert forall|k: int| 0 <= k < toks.len() implies token_ok(#[trigger] toks[k]) by {
            if k == 1 {
                assert(toks[1] == flag_tok(t.solid));
            }
        }
        lemma_joined_line_clean(toks);
        lemma_legend_lines_clean(lv, i + 1);
        assert forall|j: int| 0 <= j < legend_lines_from(lv, i).len() implies line_clean(
            #[trigger] legend_lines_from(lv, i)[j],
        ) by {
            if j > 0 {
                assert(legend_lines_from(lv, i)[j] == legend_lines_from(lv, i + 1)[j - 1]);
            }
        }
    }
}

pub proof fn lemma_row_lines_clean(lv: LevelView, row: int)
    requires
        serializable(lv),
        0 <= row,
    ensures
        forall|j: int| 0 <= j < row_lines_from(lv, row).len() ==> line_clean(
            #[trigger] row_lines_from(lv, row)[j],
        ),
    decreases lv.height - row,
{
    if row < lv.height {
        if lv.width == 0 {
            assert(row_syms(lv, row, 0) =~= Seq::<Seq<u8>>::empty());
            assert(line_clean(row_line(lv, row)));
        } else {
            lemma_row_tokens(lv, row, 0);
            lemma_joined_line_clean(row_syms(lv, row, 0));
        }
        lemma_row_lines_clean(lv, row + 1);
        assert forall|j: int| 0 <= j < row_lines_from(lv, row).len() implies line_clean(
            #[trigger] row_lines_from(lv, row)[j],
        ) by {
            if j > 0 {
                assert(row_lines_from(lv, row)[j] == row_lines_from(lv, row + 1)[j - 1]);
            }
        }
    }
}

pub proof fn lemma_start_lines_clean(lv: LevelView, i: int)
    requires
        serializable(lv),
        0 <= i,
    ensures
        forall|j: int| 0 <= j < start_lines_from(lv, i).len() ==> line_clean(
            #[trigger] start_lines_from(lv, i)[j],
        ),
    decreases lv.starts.len() - i,
{
    if i < lv.starts.len() {
        let s = lv.starts[i];
        assert(start_ok(s));
        lemma_u16_digits(s.1.x as int);
        lemma_u16_digits(s.1.y as int);
        assert(token_ok(kw_player()));
        assert(token_ok(kw_enemy()));
        assert(token_ok(kw_door()));
        match s.0 {
            EntityTypeView::Player => {
                let toks = seq![kw_player(), u16_digits(s.1.x as int), u16_digits(s.1.y as int)];
                assert(forall|k: int| 0 <= k < toks.len() ==> token_ok(#[trigger] toks[k]));
                lemma_joined_line_clean(toks);
            },
            EntityTypeView::Enemy => {
                let toks = seq![kw_enemy(), u16_digits(s.1.x as int), u16_digits(s.1.y as int)];
                assert(forall|k: int| 0 <= k < toks.len() ==> token_ok(#[trigger] toks[k]));
                lemma_joined_line_clean(toks);
            },
            EntityTypeView::Door(nm, dx, dy) => {
                lemma_u16_digits(dx as int);
                lemma_u16_digits(dy as int);
                let toks = seq![
                    kw_door(),
                    nm,
                    u16_digits(dx as int),
                    u16_digits(dy as int),
                    u16_digits(s.1.x as int),
                    u16_digits(s.1.y as int),
                ];
                assert(forall|k: int| 0 <= k < toks.len() ==> token_ok(#[trigger] toks[k]));
                lemma_joined_line_clean(toks);
            },
            EntityTypeView::Gold => {
                assert(false);
            },
        }
        lemma_start_lines_clean(lv, i + 1);
        assert forall|j: int| 0 <= j < start_lines_from(lv, i).len() implies line_clean(
            #[trigger] start_lines_from(lv, i)[j],
        ) by {
            if j > 0 {
                assert(start_lines_from(lv, i)[j] == start_lines_from(lv, i + 1)[j - 1]);
            }
        }
    }
}


/// Like [`lemma_parse_decompose`], for the finalization-free fold.
pub proof fn lemma_fold_decompose(st: ParseSt, a: Seq<Seq<u8>>, b: Seq<Seq<u8>>, n: int)
    ensures
        fold_lines(st, a + b, n) == match fold_lines(st, a, n) {
            Err(e) => Err::<ParseSt, ParseErrorView>(e),
            Ok(st2) => fold_lines(st2, b, n + a.len()),
        },
    decreases a.len(),
{
    if a.len() == 0 {
        assert(a + b =~= b);
    } else {
        assert((a + b)[0] == a[0]);
        assert((a + b).len() > 0);
        assert((a + b).skip(1) =~= a.skip(1) + b);
        match step_line(st, a[0], n) {
            Err(_) => {},
            Ok(st2) => {
                lemma_fold_decompose(st2, a.skip(1), b, n + 1);
            },
        }
    }
}

/// State after the metadata line.
pub open spec fn st_meta(lv: LevelView) -> ParseSt {
    ParseSt {
        name: Some(lv.name),
        dims: Some((lv.width as u16, lv.height as u16)),
        ..init_st()
    }
}

/// State once all three delimiters, the legend and the map have been
/// read: everything gathered, phase in the starts section.
pub open spec fn st_loaded(lv: LevelView) -> ParseSt {
    ParseSt {
        phase: Phase::Starts,
        name: Some(lv.name),
        dims: Some((lv.width as u16, lv.height as u16)),
        legend: legend_prefix(lv, lv.tiles.len() as int),
        grid: lv.grid,
        starts: Seq::empty(),
    }
}

/// The metadata, legend and map sections with their delimiters.
pub open spec fn front_lines(lv: LevelView) -> Seq<Seq<u8>> {
    seq![meta_line(lv)] + (seq![delim_line()] + (legend_lines_from(lv, 0) + (seq![delim_line()]
        + (row_lines_from(lv, 0) + seq![delim_line()]))))
}

pub proof fn lemma_delim_step(st: ParseSt, n: int)
    ensures
        step_line(st, delim_line(), n) == Ok::<ParseSt, ParseErrorView>(
            ParseSt { phase: next_phase(st.phase), ..st },
        ),
        fold_lines(st, seq![delim_line()], n) == Ok::<ParseSt, ParseErrorView>(
            ParseSt { phase: next_phase(st.phase), ..st },
        ),
{
    assert(is_delim_line(delim_line()));
    let a = seq![delim_line()];
    let st2 = ParseSt { phase: next_phase(st.phase), ..st };
    assert(a[0] == delim_line());
    assert(a.skip(1) =~= Seq::<Seq<u8>>::empty());
    assert(fold_lines(st2, Seq::<Seq<u8>>::empty(), n + 1) == Ok::<ParseSt, ParseErrorView>(
        st2,
    ));
}

/// Folding the written header — metadata, legend, map, delimiters —
/// gathers exactly the level's data and reaches the starts section.
#[verifier::rlimit(60)]
pub proof fn lemma_fold_front(lv: LevelView)
    requires
        serializable(lv),
    ensures
        fold_lines(init_st(), front_lines(lv), 1) == Ok::<ParseSt, ParseErrorView>(
            st_loaded(lv),
        ),
{
    let m = seq![meta_line(lv)];
    let d = seq![delim_line()];
    let leg = legend_lines_from(lv, 0);
    let rows = row_lines_from(lv, 0);

    let mtoks = seq![lv.name, u16_digits(lv.width as int), u16_digits(lv.height as int)];
    lemma_u16_digits(lv.width as int);
    lemma_u16_digits(lv.height as int);
    assert(forall|k: int| 0 <= k < mtoks.len() ==> token_ok(#[trigger] mtoks[k]));
    lemma_join_line_is_content(mtoks);
    let st1 = st_meta(lv);
    assert((dec_val(mtoks[1]) as u16) == lv.width as u16);
    assert((dec_val(mtoks[2]) as u16) == lv.height as u16);
    assert(step_line(init_st(), meta_line(lv), 1) == Ok::<ParseSt, ParseErrorView>(st1));
    assert(m[0] == meta_line(lv));
    assert(m.skip(1) =~= Seq::<Seq<u8>>::empty());
    assert(fold_lines(st1, Seq::<Seq<u8>>::empty(), 2) == Ok::<ParseSt, ParseErrorView>(st1));
    assert(fold_lines(init_st(), m, 1) == Ok::<ParseSt, ParseErrorView>(st1));

    let r1 = d + (leg + (d + (rows + d)));
    lemma_fold_decompose(init_st(), m, r1, 1);
    assert(front_lines(lv) == m + r1);

    let st2 = ParseSt { phase: Phase::Legend, ..st1 };
    lemma_delim_step(st1, 2);
    let r2 = leg + (d + (rows + d));
    lemma_fold_decompose(st1, d, r2, 2);

    assert(st2.legend =~= legend_prefix(lv, 0));
    lemma_fold_legend(lv, st2, 0, 3);
    let st3 = ParseSt { legend: legend_prefix(lv, lv.tiles.len() as int), ..st2 };
    let r3 = d + (rows + d);
    lemma_fold_decompose(st2, leg, r3, 3);

    let n4 = 3 + leg.len() as int;
    let st4 = ParseSt { phase: Phase::MapRows, ..st3 };
    lemma_delim_step(st3, n4);
    let r4 = rows + d;
    lemma_fold_decompose(st3, d, r4, n4);

    assert(st4.grid =~= lv.grid.take(0 * lv.width as int));
    lemma_fold_rows(lv, st4, 0, n4 + 1);
    let st5 = ParseSt { grid: lv.grid, ..st4 };
    lemma_fold_decompose(st4, rows, d, n4 + 1);

    let n6 = n4 + 1 + rows.len() as int;
    lemma_delim_step(st5, n6);
    let st6 = ParseSt { phase: Phase::Starts, ..st5 };
    assert(st6 =~= st_loaded(lv));
}

/// Every line the writer emits is clean, so the written bytes split back
/// into exactly the written lines.
pub proof fn lemma_level_lines_split(lv: LevelView)
    requires
        serializable(lv),
    ensures
        lines_of(level_text(lv)) == level_lines(lv),
        level_lines(lv) =~= front_lines(lv) + start_lines_from(lv, 0),
{
    let m = seq![meta_line(lv)];
    let d = seq![delim_line()];
    let leg = legend_lines_from(lv, 0);
    let rows = row_lines_from(lv, 0);
    let starts = start_lines_from(lv, 0);
    let big = level_lines(lv);

    let mtoks = seq![lv.name, u16_digits(lv.width as int), u16_digits(lv.height as int)];
    lemma_u16_digits(lv.width as int);
    lemma_u16_digits(lv.height as int);
    assert(forall|k: int| 0 <= k < mtoks.len() ==> token_ok(#[trigger] mtoks[k]));
    lemma_joined_line_clean(mtoks);
    assert(line_clean(delim_line()));
    lemma_legend_lines_clean(lv, 0);
    lemma_row_lines_clean(lv, 0);
    lemma_start_lines_clean(lv, 0);
    assert forall|i: int| 0 <= i < big.len() implies line_clean(#[trigger] big[i]) by {
        let p1 = m + d;
        let p2 = p1 + leg;
        let p3 = p2 + d;
        let p4 = p3 + rows;
        let p5 = p4 + d;
        if i < p1.len() {
        } else if i < p2.len() {
            assert(big[i] == leg[i - p1.len()]);
        } else if i < p3.len() {
        } else if i < p4.len() {
            assert(big[i] == rows[i - p3.len()]);
        } else if i < p5.len() {
        } else {
            assert(big[i] == starts[i - p5.len()]);
        }
    }
    assert forall|i: int, k: int|
        0 <= i < big.len() && 0 <= k < big[i].len() implies #[trigger] big[i][k] != 10 by {
        assert(line_clean(big[i]));
    }
    assert forall|i: int|
        0 <= i < big.len() && big[i].len() > 0 implies (#[trigger] big[i]).last() != 13 by {
        assert(line_clean(big[i]));
    }
    lemma_join_lines(big);
    assert(big =~= front_lines(lv) + starts);
}

/// Round trip: writing a level out and parsing the text back yields that
/// level again — same name, grid, tileset and spawn order.
#[verifier::rlimit(60)]
pub proof fn lemma_round_trip(lv: LevelView)
    requires
        serializable(lv),
    ensures
        parse_level_spec(level_text(lv)) == Ok::<LevelView, ParseErrorView>(lv),
{
    let starts = start_lines_from(lv, 0);
    lemma_level_lines_split(lv);
    assert(parse_level_spec(level_text(lv)) == parse_lines(init_st(), level_lines(lv), 1));
    lemma_parse_decompose(init_st(), front_lines(lv), starts, 1);
    lemma_fold_front(lv);
    let nf = 1 + front_lines(lv).len() as int;
    assert(parse_lines(init_st(), level_lines(lv), 1) == parse_lines(st_loaded(lv), starts, nf));

    assert(st_loaded(lv).starts =~= lv.starts.take(0));
    lemma_fold_starts(lv, st_loaded(lv), 0, nf);
    let st7 = ParseSt { starts: lv.starts, ..st_loaded(lv) };
    lemma_parse_decompose(st_loaded(lv), starts, Seq::empty(), nf);
    assert(starts + Seq::<Seq<u8>>::empty() =~= starts);
    assert(parse_lines(st_loaded(lv), starts, nf) == parse_lines(
        st7,
        Seq::<Seq<u8>>::empty(),
        nf + starts.len() as int,
    ));
    assert(parse_lines(st7, Seq::<Seq<u8>>::empty(), nf + starts.len() as int) == finalize_st(
        st7,
    ));

    let w16 = lv.width as u16;
    let h16 = lv.height as u16;
    assert(st7.grid.len() == w16 * h16);
    let out = LevelView {
        name: lv.name,
        width: w16 as nat,
        height: h16 as nat,
        grid: lv.grid,
        tiles: st7.legend.map_values(|e: LegendEntry| e.2),
        starts: lv.starts,
    };
    assert(finalize_st(st7) == Ok::<LevelView, ParseErrorView>(out));
    assert(out.tiles =~= lv.tiles);
    assert(out =~= lv);
}


/// Appending one more token extends the joined line by that token and a
/// space.
pub proof fn lemma_join_tokens_push(a: Seq<Seq<u8>>, t: Seq<u8>)
    ensures
        join_tokens(a.push(t)) == join_tokens(a) + t + seq![32u8],
    decreases a.len(),
{
    if a.len() == 0 {
        assert(a =~= Seq::<Seq<u8>>::empty());
        assert(a.push(t)[0] == t);
        assert(a.push(t).skip(1) =~= a);
        assert(join_tokens(a.push(t)) == t + seq![32u8] + join_tokens(a));
        assert(join_tokens(a) =~= Seq::<u8>::empty());
        assert(join_tokens(a.push(t)) =~= join_tokens(a) + t + seq![32u8]);
    } else {
        assert(a.push(t)[0] == a[0]);
        assert(a.push(t).skip(1) =~= a.skip(1).push(t));
        lemma_join_tokens_push(a.skip(1), t);
        assert(join_tokens(a.push(t)) == a[0] + seq![32u8] + (join_tokens(a.skip(1)) + t + seq![
            32u8,
        ]));
        assert(join_tokens(a) == a[0] + seq![32u8] + join_tokens(a.skip(1)));
        assert(join_tokens(a.push(t)) =~= join_tokens(a) + t + seq![32u8]);
    }
}

/// Appending one more line extends the joined text by that line and a
/// line feed.
pub proof fn lemma_join_lines_push(a: Seq<Seq<u8>>, l: Seq<u8>)
    ensures
        join_lines(a.push(l)) == join_lines(a) + l + seq![10u8],
    decreases a.len(),
{
    if a.len() == 0 {
        assert(a =~= Seq::<Seq<u8>>::empty());
        assert(a.push(l)[0] == l);
        assert(a.push(l).skip(1) =~= a);
        assert(join_lines(a.push(l)) == l + seq![10u8] + join_lines(a));
        assert(join_lines(a) =~= Seq::<u8>::empty());
        assert(join_lines(a.push(l)) =~= join_lines(a) + l + seq![10u8]);
    } else {
        assert(a.push(l)[0] == a[0]);
        assert(a.push(l).skip(1) =~= a.skip(1).push(l));
        lemma_join_lines_push(a.skip(1), l);
        assert(join_lines(a.push(l)) == a[0] + seq![10u8] + (join_lines(a.skip(1)) + l + seq![
            10u8,
        ]));
        assert(join_lines(a) == a[0] + seq![10u8] + join_lines(a.skip(1)));
        assert(join_lines(a.push(l)) =~= join_lines(a) + l + seq![10u8]);
    }
}

/// Decimal digits of a value, exactly [`u16_digits`].
fn render_u16(v: u16) -> (r: Vec<u8>)
    ensures
        r@ == u16_digits(v as int),
    decreases v,
{
    if v < 10 {
        let mut r: Vec<u8> = Vec::new();
        r.push(48 + v as u8);
        proof {
            assert(r@ =~= u16_digits(v as int));
        }
        r
    } else {
        let mut r = render_u16(v / 10);
        r.push(48 + (v % 10) as u8);
        proof {
            assert(r@ =~= u16_digits(v as int));
        }
        r
    }
}

/// The written symbol of tile id `id`, exactly [`sym_of`].
fn render_sym(id: u8) -> (r: Vec<u8>)
    ensures
        r@ == sym_of(id as int),
{
    let mut r: Vec<u8> = Vec::new();
    r.push(116);
    let mut d = render_u16(id as u16);
    r.append(&mut d);
    proof {
        assert(r@ =~= sym_of(id as int));
    }
    r
}

/// Appends one token and its trailing space.
fn push_tok(line: &mut Vec<u8>, tok: &[u8])
    ensures
        final(line)@ == old(line)@ + tok@ + seq![32u8],
{
    line.extend_from_slice(tok);
    line.push(32);
    proof {
        assert(final(line)@ =~= old(line)@ + tok@ + seq![32u8]);
    }
}

/// Appends one line and its closing line feed.
fn push_line(out: &mut Vec<u8>, line: &[u8])
    ensures
        final(out)@ == old(out)@ + line@ + seq![10u8],
{
    out.extend_from_slice(line);
    out.push(10);
    proof {
        assert(final(out)@ =~= old(out)@ + line@ + seq![10u8]);
    }
}

impl Level {
    /// Writes the level back out in the level text format; re-parsing the
    /// result reproduces the level exactly ([`lemma_round_trip`]). The
    /// level must be expressible: its name one single token, and every
    /// spawn record one the starts section can state.
    #[verifier::loop_isolation(false)]
    #[verifier::rlimit(60)]
    pub fn to_text(&self) -> (r: Vec<u8>)
        requires
            serializable(self@),
        ensures
            r@ == level_text(self@),
    {
        let ghost lv = self@;
        let mut out: Vec<u8> = Vec::new();
        let ghost mut done: Seq<Seq<u8>> = Seq::empty();
        proof {
            assert(out@ =~= join_lines(done));
        }

        // Metadata.
        let mut line: Vec<u8> = Vec::new();
        push_tok(&mut line, self.name.as_slice());
        let dw = render_u16(self.grid.width as u16);
        push_tok(&mut line, dw.as_slice());
        let dh = render_u16(self.grid.height as u16);
        push_tok(&mut line, dh.as_slice());
        proof {
            let mtoks = seq![lv.name, u16_digits(lv.width as int), u16_digits(lv.height as int)];
            lemma_join_tokens_push(Seq::empty(), mtoks[0]);
            lemma_join_tokens_push(seq![mtoks[0]], mtoks[1]);
            lemma_join_tokens_push(seq![mtoks[0], mtoks[1]], mtoks[2]);
            assert(Seq::<Seq<u8>>::empty().push(mtoks[0]) =~= seq![mtoks[0]]);
            assert(seq![mtoks[0]].push(mtoks[1]) =~= seq![mtoks[0], mtoks[1]]);
            assert(seq![mtoks[0], mtoks[1]].push(mtoks[2]) =~= mtoks);
            assert(join_tokens(Seq::<Seq<u8>>::empty()) =~= Seq::<u8>::empty());
            assert(line@ =~= join_tokens(mtoks));
            assert(line@ == meta_line(lv));
        }
        push_line(&mut out, line.as_slice());
        proof {
            lemma_join_lines_push(done, meta_line(lv));
            done = done.push(meta_line(lv));
            assert(out@ == join_lines(done));
        }

        // First delimiter.
        let delim: [u8; 4] = [61, 61, 61, 61];
        push_line(&mut out, delim.as_slice());
        proof {
            assert(delim@ =~= delim_line());
            lemma_join_lines_push(done, delim_line());
            done = done.push(delim_line());
            assert(out@ == join_lines(done));
        }

        // Legend.
        let mut i: usize = 0;
        let ghost done_head = done;
        proof {
            assert(legend_done(lv, 0) =~= Seq::<Seq<u8>>::empty());
            assert(done =~= done_head + legend_done(lv, 0));
        }
        while i < self.tileset.tiles.len()
            invariant
                i <= lv.tiles.len(),
                out@ == join_lines(done),
                done == done_head + legend_done(lv, i as int),
            decreases lv.tiles.len() - i,
        {
            let t = self.tileset.tiles[i];
            let mut line: Vec<u8> = Vec::new();
            let sym = render_sym(i as u8);
            push_tok(&mut line, sym.as_slice());
            let flag: [u8; 1] = if t.solid {
                [115]
            } else {
                [111]
            };
            push_tok(&mut line, flag.as_slice());
            let ax = render_u16(t.sheet_region.x);
            push_tok(&mut line, ax.as_slice());
            let ay = render_u16(t.sheet_region.y);
            push_tok(&mut line, ay.as_slice());
            let aw = render_u16(t.sheet_region.w);
            push_tok(&mut line, aw.as_slice());
            let ah = render_u16(t.sheet_region.h);
            push_tok(&mut line, ah.as_slice());
            proof {
                let toks = seq![
                    sym_of(i as int),
                    flag_tok(t.solid),
                    u16_digits(t.sheet_region.x as int),
                    u16_digits(t.sheet_region.y as int),
                    u16_digits(t.sheet_region.w as int),
                    u16_digits(t.sheet_region.h as int),
                ];
                assert(flag@ =~= flag_tok(t.solid));
                lemma_join_tokens_push(Seq::empty(), toks[0]);
                lemma_join_tokens_push(seq![toks[0]], toks[1]);
                lemma_join_tokens_push(seq![toks[0], toks[1]], toks[2]);
                lemma_join_tokens_push(seq![toks[0], toks[1], toks[2]], toks[3]);
                lemma_join_tokens_push(seq![toks[0], toks[1], toks[2], toks[3]], toks[4]);
                lemma_join_tokens_push(
                    seq![toks[0], toks[1], toks[2], toks[3], toks[4]],
                    toks[5],
                );
                assert(Seq::<Seq<u8>>::empty().push(toks[0]) =~= seq![toks[0]]);
                assert(seq![toks[0]].push(toks[1]) =~= seq![toks[0], toks[1]]);
                assert(seq![toks[0], toks[1]].push(toks[2]) =~= seq![toks[0], toks[1], toks[2]]);
                assert(seq![toks[0], toks[1], toks[2]].push(toks[3]) =~= seq![
                    toks[0],
                    toks[1],
                    toks[2],
                    toks[3],
                ]);
                assert(seq![toks[0], toks[1], toks[2], toks[3]].push(toks[4]) =~= seq![
                    toks[0],
                    toks[1],
                    toks[2],
                    toks[3],
                    toks[4],
                ]);
                assert(seq![toks[0], toks[1], toks[2], toks[3], toks[4]].push(toks[5]) =~= toks);
                assert(join_tokens(Seq::<Seq<u8>>::empty()) =~= Seq::<u8>::empty());
                assert(line@ =~= join_tokens(toks));
                assert(line@ == legend_line(lv, i as int));
            }
            push_line(&mut out, line.as_slice());
            proof {
                lemma_join_lines_push(done, legend_line(lv, i as int));
                done = done.push(legend_line(lv, i as int));
                assert(legend_done(lv, i as int).push(legend_line(lv, i as int)) =~= legend_done(
                    lv,
                    i as int + 1,
                ));
                assert(done =~= done_head + legend_done(lv, i as int + 1));
            }
            i = i + 1;
        }
        proof {
            lemma_legend_done_all(lv, 0);
            assert(legend_done(lv, lv.tiles.len() as int) =~= legend_lines_from(lv, 0));
        }

        // Second delimiter.
        push_line(&mut out, delim.as_slice());
        proof {
            assert(delim@ =~= delim_line());
            lemma_join_lines_push(done, delim_line());
            done = done.push(delim_line());
            assert(out@ == join_lines(done));
        }

        // Map rows.
        let w: usize = self.grid.width;
        let h: usize = self.grid.height;
        let mut row: usize = 0;
        let ghost done_leg = done;
        proof {
            assert(rows_done(lv, 0) =~= Seq::<Seq<u8>>::empty());
            assert(done =~= done_leg + rows_done(lv, 0));
        }
        while row < h
            invariant
                row <= h,
                out@ == join_lines(done),
                done == done_leg + rows_done(lv, row as int),
            decreases h - row,
        {
            let mut line: Vec<u8> = Vec::new();
            let mut c: usize = 0;
            proof {
                assert(row_syms_done(lv, row as int, 0) =~= Seq::<Seq<u8>>::empty());
                assert(line@ =~= join_tokens(row_syms_done(lv, row as int, 0)));
            }
            while c < w
                invariant
                    c <= w,
                    row < h,
                    line@ == join_tokens(row_syms_done(lv, row as int, c as int)),
                decreases w - c,
            {
                proof {
                    assert(row as int * lv.width + c < lv.width * lv.height) by (nonlinear_arith)
                        requires
                            0 <= c,
                            c < lv.width,
                            0 <= (row as int),
                            (row as int) < lv.height,
                    ;
                }
                let n: usize = self.grid.data.len();
                let id: u8 = self.grid.data[row * w + c];
                let sym = render_sym(id);
                push_tok(&mut line, sym.as_slice());
                proof {
                    lemma_join_tokens_push(
                        row_syms_done(lv, row as int, c as int),
                        sym_of(id as int),
                    );
                    assert(row_syms_done(lv, row as int, c as int).push(sym_of(id as int))
                        =~= row_syms_done(lv, row as int, c as int + 1));
                    assert(line@ == join_tokens(row_syms_done(lv, row as int, c as int + 1)));
                }
                c = c + 1;
            }
            proof {
                lemma_row_syms_done_all(lv, row as int, 0);
                assert(row_syms_done(lv, row as int, lv.width as int) =~= row_syms(
                    lv,
                    row as int,
                    0,
                ));
                assert(line@ == row_line(lv, row as int));
            }
            push_line(&mut out, line.as_slice());
            proof {
                lemma_join_lines_push(done, row_line(lv, row as int));
                done = done.push(row_line(lv, row as int));
                assert(rows_done(lv, row as int).push(row_line(lv, row as int)) =~= rows_done(
                    lv,
                    row as int + 1,
                ));
                assert(done =~= done_leg + rows_done(lv, row as int + 1));
            }
            row = row + 1;
        }
        proof {
            lemma_rows_done_all(lv, 0);
            assert(rows_done(lv, lv.height as int) =~= row_lines_from(lv, 0));
        }

        // Third delimiter.
        push_line(&mut out, delim.as_slice());
        proof {
            assert(delim@ =~= delim_line());
            lemma_join_lines_push(done, delim_line());
            done = done.push(delim_line());
            assert(out@ == join_lines(done));
        }

        // Starts.
        let mut k: usize = 0;
        let ghost done_rows = done;
        proof {
            assert(starts_done(lv, 0) =~= Seq::<Seq<u8>>::empty());
            assert(done =~= done_rows + starts_done(lv, 0));
        }
        while k < self.starts.len()
            invariant
                k <= lv.starts.len(),
                out@ == join_lines(done),
                done == done_rows + starts_done(lv, k as int),
            decreases lv.starts.len() - k,
        {
            proof {
                assert(lv.starts[k as int] == (self.starts@[k as int].0@, self.starts@[
                    k as int].1));
                assert(start_ok(lv.starts[k as int]));
            }
            let s = &self.starts[k];
            let pos = s.1;
            let mut line: Vec<u8> = Vec::new();
            match &s.0 {
                EntityType::Player => {
                    let kw: [u8; 6] = [112, 108, 97, 121, 101, 114];
                    push_tok(&mut line, kw.as_slice());
                    let px = render_u16(pos.x as u16);
                    push_tok(&mut line, px.as_slice());
                    let py = render_u16(pos.y as u16);
                    push_tok(&mut line, py.as_slice());
                    proof {
                        let toks = seq![
                            kw_player(),
                            u16_digits(pos.x as int),
                            u16_digits(pos.y as int),
                        ];
                        assert(kw@ =~= kw_player());
                        lemma_join_tokens_push(Seq::empty(), toks[0]);
                        lemma_join_tokens_push(seq![toks[0]], toks[1]);
                        lemma_join_tokens_push(seq![toks[0], toks[1]], toks[2]);
                        assert(Seq::<Seq<u8>>::empty().push(toks[0]) =~= seq![toks[0]]);
                        assert(seq![toks[0]].push(toks[1]) =~= seq![toks[0], toks[1]]);
                        assert(seq![toks[0], toks[1]].push(toks[2]) =~= toks);
                        assert(join_tokens(Seq::<Seq<u8>>::empty()) =~= Seq::<u8>::empty());
                        assert(line@ =~= join_tokens(toks));
                        assert(line@ == start_line(lv.starts[k as int]));
                    }
                },
                EntityType::Enemy => {
                    let kw: [u8; 5] = [101, 110, 101, 109, 121];
                    push_tok(&mut line, kw.as_slice());
                    let px = render_u16(pos.x as u16);
                    push_tok(&mut line, px.as_slice());
                    let py = render_u16(pos.y as u16);
                    push_tok(&mut line, py.as_slice());
                    proof {
                        let toks = seq![
                            kw_enemy(),
                            u16_digits(pos.x as int),
                            u16_digits(pos.y as int),
                        ];
                        assert(kw@ =~= kw_enemy());
                        lemma_join_tokens_push(Seq::empty(), toks[0]);
                        lemma_join_tokens_push(seq![toks[0]], toks[1]);
                        lemma_join_tokens_push(seq![toks[0], toks[1]], toks[2]);
                        assert(Seq::<Seq<u8>>::empty().push(toks[0]) =~= seq![toks[0]]);
                        assert(seq![toks[0]].push(toks[1]) =~= seq![toks[0], toks[1]]);
                        assert(seq![toks[0], toks[1]].push(toks[2]) =~= toks);
                        assert(join_tokens(Seq::<Seq<u8>>::empty()) =~= Seq::<u8>::empty());
                        assert(line@ =~= join_tokens(toks));
                        assert(line@ == start_line(lv.starts[k as int]));
                    }
                },
                EntityType::Door(nm, dx, dy) => {
                    let kw: [u8; 4] = [100, 111, 111, 114];
                    push_tok(&mut line, kw.as_slice());
                    push_tok(&mut line, nm.as_slice());
                    let ddx = render_u16(*dx);
                    push_tok(&mut line, ddx.as_slice());
                    let ddy = render_u16(*dy);
                    push_tok(&mut line, ddy.as_slice());
                    let px = render_u16(pos.x as u16);
                    push_tok(&mut line, px.as_slice());
                    let py = render_u16(pos.y as u16);
                    push_tok(&mut line, py.as_slice());
                    proof {
                        let toks = seq![
                            kw_door(),
                            nm@,
                            u16_digits(*dx as int),
                            u16_digits(*dy as int),
                            u16_digits(pos.x as int),
                            u16_digits(pos.y as int),
                        ];
                        assert(kw@ =~= kw_door());
                        lemma_join_tokens_push(Seq::empty(), toks[0]);
                        lemma_join_tokens_push(seq![toks[0]], toks[1]);
                        lemma_join_tokens_push(seq![toks[0], toks[1]], toks[2]);
                        lemma_join_tokens_push(seq![toks[0], toks[1], toks[2]], toks[3]);
                        lemma_join_tokens_push(
                            seq![toks[0], toks[1], toks[2], toks[3]],
                            toks[4],
                        );
                        lemma_join_tokens_push(
                            seq![toks[0], toks[1], toks[2], toks[3], toks[4]],
                            toks[5],
                        );
                        assert(Seq::<Seq<u8>>::empty().push(toks[0]) =~= seq![toks[0]]);
                        assert(seq![toks[0]].push(toks[1]) =~= seq![toks[0], toks[1]]);
                        assert(seq![toks[0], toks[1]].push(toks[2]) =~= seq![
                            toks[0],
                            toks[1],
                            toks[2],
                        ]);
                        assert(seq![toks[0], toks[1], toks[2]].push(toks[3]) =~= seq![
                            toks[0],
                            toks[1],
                            toks[2],
                            toks[3],
                        ]);
                        assert(seq![toks[0], toks[1], toks[2], toks[3]].push(toks[4]) =~= seq![
                            toks[0],
                            toks[1],
                            toks[2],
                            toks[3],
                            toks[4],
                        ]);
                        assert(seq![toks[0], toks[1], toks[2], toks[3], toks[4]].push(toks[5])
                            =~= toks);
                        assert(join_tokens(Seq::<Seq<u8>>::empty()) =~= Seq::<u8>::empty());
                        assert(line@ =~= join_tokens(toks));
                        assert(line@ == start_line(lv.starts[k as int]));
                    }
                },
                EntityType::Gold => {
                    proof {
                        assert(false);
                    }
                },
            }
            push_line(&mut out, line.as_slice());
            proof {
                lemma_join_lines_push(done, start_line(lv.starts[k as int]));
                done = done.push(start_line(lv.starts[k as int]));
                assert(starts_done(lv, k as int).push(start_line(lv.starts[k as int]))
                    =~= starts_done(lv, k as int + 1));
                assert(done =~= done_rows + starts_done(lv, k as int + 1));
            }
            k = k + 1;
        }
        proof {
            lemma_starts_done_all(lv, 0);
            assert(starts_done(lv, lv.starts.len() as int) =~= start_lines_from(lv, 0));
            assert(done =~= level_lines(lv));
            assert(out@ == level_text(lv));
        }
        out
    }
}

/// The first `i` legend lines.
pub open spec fn legend_done(lv: LevelView, i: int) -> Seq<Seq<u8>> {
    Seq::new(i as nat, |j: int| legend_line(lv, j))
}

pub proof fn lemma_legend_done_all(lv: LevelView, i: int)
    requires
        0 <= i <= lv.tiles.len(),
    ensures
        legend_done(lv, lv.tiles.len() as int).skip(i) =~= legend_lines_from(lv, i),
    decreases lv.tiles.len() - i,
{
    if i < lv.tiles.len() {
        lemma_legend_done_all(lv, i + 1);
        assert(legend_done(lv, lv.tiles.len() as int).skip(i)[0] == legend_line(lv, i));
        assert(legend_done(lv, lv.tiles.len() as int).skip(i).skip(1) =~= legend_done(
            lv,
            lv.tiles.len() as int,
        ).skip(i + 1));
        assert(legend_done(lv, lv.tiles.len() as int).skip(i) =~= seq![legend_line(lv, i)]
            + legend_lines_from(lv, i + 1));
    }
}

/// The first `row` map lines.
pub open spec fn rows_done(lv: LevelView, row: int) -> Seq<Seq<u8>> {
    Seq::new(row as nat, |j: int| row_line(lv, j))
}

pub proof fn lemma_rows_done_all(lv: LevelView, row: int)
    requires
        0 <= row <= lv.height,
    ensures
        rows_done(lv, lv.height as int).skip(row) =~= row_lines_from(lv, row),
    decreases lv.height - row,
{
    if row < lv.height {
        lemma_rows_done_all(lv, row + 1);
        assert(rows_done(lv, lv.height as int).skip(row)[0] == row_line(lv, row));
        assert(rows_done(lv, lv.height as int).skip(row).skip(1) =~= rows_done(
            lv,
            lv.height as int,
        ).skip(row + 1));
        assert(rows_done(lv, lv.height as int).skip(row) =~= seq![row_line(lv, row)]
            + row_lines_from(lv, row + 1));
    }
}

/// The first `c` symbols of one written map row.
pub open spec fn row_syms_done(lv: LevelView, row: int, c: int) -> Seq<Seq<u8>> {
    Seq::new(c as nat, |j: int| sym_of(lv.grid[row * lv.width + j] as int))
}

pub proof fn lemma_row_syms_done_all(lv: LevelView, row: int, c: int)
    requires
        0 <= c <= lv.width,
    ensures
        row_syms_done(lv, row, lv.width as int).skip(c) =~= row_syms(lv, row, c),
    decreases lv.width - c,
{
    if c < lv.width {
        lemma_row_syms_done_all(lv, row, c + 1);
        assert(row_syms_done(lv, row, lv.width as int).skip(c)[0] == sym_of(
            lv.grid[row * lv.width + c] as int,
        ));
        assert(row_syms_done(lv, row, lv.width as int).skip(c).skip(1) =~= row_syms_done(
            lv,
            row,
            lv.width as int,
        ).skip(c + 1));
        assert(row_syms_done(lv, row, lv.width as int).skip(c) =~= seq![
            sym_of(lv.grid[row * lv.width + c] as int),
        ] + row_syms(lv, row, c + 1));
    }
}

/// The first `i` start lines.
pub open spec fn starts_done(lv: LevelView, i: int) -> Seq<Seq<u8>> {
    Seq::new(i as nat, |j: int| start_line(lv.starts[j]))
}

pub proof fn lemma_starts_done_all(lv: LevelView, i: int)
    requires
        0 <= i <= lv.starts.len(),
    ensures
        starts_done(lv, lv.starts.len() as int).skip(i) =~= start_lines_from(lv, i),
    decreases lv.starts.len() - i,
{
    if i < lv.starts.len() {
        lemma_starts_done_all(lv, i + 1);
        assert(starts_done(lv, lv.starts.len() as int).skip(i)[0] == start_line(lv.starts[i]));
        assert(starts_done(lv, lv.starts.len() as int).skip(i).skip(1) =~= starts_done(
            lv,
            lv.starts.len() as int,
        ).skip(i + 1));
        assert(starts_done(lv, lv.starts.len() as int).skip(i) =~= seq![start_line(lv.starts[i])]
            + start_lines_from(lv, i + 1));
    }
}


/// Every token of a line without line feeds is a well-formed token.
pub proof fn lemma_tokens_of_ok(l: Seq<u8>)
    requires
        forall|k: int| 0 <= k < l.len() ==> #[trigger] l[k] != 10,
    ensures
        forall|i: int| 0 <= i < tokens_of(l).len() ==> token_ok(#[trigger] tokens_of(l)[i]),
    decreases l.len(),
{
    if l.len() == 0 {
    } else if is_ws(l[0]) {
        assert forall|k: int| 0 <= k < l.skip(1).len() implies #[trigger] l.skip(1)[k] != 10 by {
            assert(l.skip(1)[k] == l[k + 1]);
        }
        lemma_tokens_of_ok(l.skip(1));
        assert(tokens_of(l) == tokens_of(l.skip(1)));
    } else {
        lemma_ws_idx(l);
        let e = ws_idx(l);
        assert(e >= 1);
        let t0 = l.take(e);
        assert(token_ok(t0)) by {
            assert forall|k: int| 0 <= k < t0.len() implies !is_ws(#[trigger] t0[k]) && t0[k]
                != 10 by {
                assert(t0[k] == l[k]);
            }
        }
        assert forall|k: int| 0 <= k < l.skip(e).len() implies #[trigger] l.skip(e)[k] != 10 by {
            assert(l.skip(e)[k] == l[k + e]);
        }
        lemma_tokens_of_ok(l.skip(e));
        assert forall|i: int| 0 <= i < tokens_of(l).len() implies token_ok(
            #[trigger] tokens_of(l)[i],
        ) by {
            if i > 0 {
                assert(tokens_of(l)[i] == tokens_of(l.skip(e))[i - 1]);
            }
        }
    }
}

/// No line the splitter yields holds a line feed.
pub proof fn lemma_lines_of_no_lf(t: Seq<u8>)
    ensures
        forall|i: int, k: int|
            0 <= i < lines_of(t).len() && 0 <= k < lines_of(t)[i].len() ==> #[trigger] lines_of(
                t,
            )[i][k] != 10,
    decreases t.len(),
{
    if t.len() == 0 {
    } else {
        lemma_newline_idx(t);
        let e = newline_idx(t);
        if e == t.len() {
            assert forall|i: int, k: int|
                0 <= i < lines_of(t).len() && 0 <= k < lines_of(t)[i].len() implies #[trigger]
                lines_of(t)[i][k] != 10 by {
                assert(lines_of(t)[i] == strip_cr(t));
                assert(strip_cr(t)[k] == t[k]);
            }
        } else {
            lemma_lines_of_no_lf(t.skip(e + 1));
            assert forall|i: int, k: int|
                0 <= i < lines_of(t).len() && 0 <= k < lines_of(t)[i].len() implies #[trigger]
                lines_of(t)[i][k] != 10 by {
                if i == 0 {
                    assert(lines_of(t)[0] == strip_cr(t.take(e)));
                    assert(strip_cr(t.take(e))[k] == t[k]);
                } else {
                    assert(lines_of(t)[i] == lines_of(t.skip(e + 1))[i - 1]);
                }
            }
        }
    }
}

/// Everything the parser gathers stays expressible: the name a token,
/// every spawn record one the writer can state.
pub open spec fn st_ser(st: ParseSt) -> bool {
    &&& match st.name {
        Some(nm) => token_ok(nm),
        None => true,
    }
    &&& forall|i: int| 0 <= i < st.starts.len() ==> start_ok(#[trigger] st.starts[i])
}

pub proof fn lemma_step_ser(st: ParseSt, l: Seq<u8>, lineno: int)
    requires
        st_ser(st),
        forall|k: int| 0 <= k < l.len() ==> #[trigger] l[k] != 10,
    ensures
        match step_line(st, l, lineno) {
            Ok(st2) => st_ser(st2),
            Err(_) => true,
        },
{
    if l.len() == 0 || is_delim_line(l) {
    } else {
        lemma_tokens_of_ok(l);
        let toks = tokens_of(l);
        match st.phase {
            Phase::Starts => {
                match step_line(st, l, lineno) {
                    Ok(st2) => {
                        if toks[0] == kw_player() || toks[0] == kw_enemy() {
                            crate::lex::lemma_dec_val_nonneg(toks[1]);
                            crate::lex::lemma_dec_val_nonneg(toks[2]);
                        } else {
                            crate::lex::lemma_dec_val_nonneg(toks[2]);
                            crate::lex::lemma_dec_val_nonneg(toks[3]);
                            crate::lex::lemma_dec_val_nonneg(toks[4]);
                            crate::lex::lemma_dec_val_nonneg(toks[5]);
                        }
                        assert forall|i: int| 0 <= i < st2.starts.len() implies start_ok(
                            #[trigger] st2.starts[i],
                        ) by {
                            if i < st.starts.len() {
                                assert(start_ok(st.starts[i]));
                            }
                        }
                    },
                    Err(_) => {},
                }
            },
            _ => {},
        }
    }
}

pub proof fn lemma_parse_lines_ser(st: ParseSt, lines: Seq<Seq<u8>>, lineno: int)
    requires
        st_ser(st),
        forall|i: int, k: int|
            0 <= i < lines.len() && 0 <= k < lines[i].len() ==> #[trigger] lines[i][k] != 10,
    ensures
        match parse_lines(st, lines, lineno) {
            Ok(lv) => token_ok(lv.name) && forall|i: int|
                0 <= i < lv.starts.len() ==> start_ok(#[trigger] lv.starts[i]),
            Err(_) => true,
        },
    decreases lines.len(),
{
    if lines.len() == 0 {
    } else {
        lemma_step_ser(st, lines[0], lineno);
        match step_line(st, lines[0], lineno) {
            Err(_) => {},
            Ok(st2) => {
                assert forall|i: int, k: int|
                    0 <= i < lines.skip(1).len() && 0 <= k < lines.skip(1)[i].len() implies #[
                    trigger] lines.skip(1)[i][k] != 10 by {
                    assert(lines.skip(1)[i] == lines[i + 1]);
                }
                lemma_parse_lines_ser(st2, lines.skip(1), lineno + 1);
            },
        }
    }
}

/// Round trip for every level the parser accepts: writing it back out
/// and re-parsing reproduces it exactly — identical name, grid, tileset
/// and spawn order.
pub proof fn lemma_parsed_round_trip(t: Seq<u8>)
    ensures
        match parse_level_spec(t) {
            Ok(lv) => serializable(lv) && parse_level_spec(level_text(lv)) == Ok::<
                LevelView,
                ParseErrorView,
            >(lv),
            Err(_) => true,
        },
{
    lemma_lines_of_no_lf(t);
    lemma_parse_lines_ser(init_st(), lines_of(t), 1);
    crate::level::lemma_parse_wf(t);
    match parse_level_spec(t) {
        Ok(lv) => {
            lemma_round_trip(lv);
        },
        Err(_) => {},
    }
}

} // verus!
