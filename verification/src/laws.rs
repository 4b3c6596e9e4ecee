//! Library-level theorems: facts that tie the board model, the win
//! detector and the compact wire format together.

use crate::board::{
    blank_grid, char_tile, compact_grid, connects, end_ok, has_winning_path, hex_adjacent,
    idx_of, in_bounds, is_tile_char, lemma_idx_in_range, reaches, spec_serialize, spec_winner,
    start_ok, tile_char, wf_compact_sized, Tile,
};
use vstd::prelude::*;

verus! {

/// One row of a blank compact board: `n` dots closed by a `|`.
pub open spec fn blank_row(n: int) -> Seq<char> {
    Seq::new(n as nat, |i: int| '.').push('|')
}

/// `k` copies of `row`, concatenated.
pub open spec fn repeat_rows(row: Seq<char>, k: int) -> Seq<char>
    decreases k,
{
    if k <= 0 {
        Seq::empty()
    } else {
        repeat_rows(row, k - 1) + row
    }
}

proof fn lemma_repeat_rows_len(row: Seq<char>, k: int)
    requires
        0 <= k,
    ensures
        repeat_rows(row, k).len() == k * row.len(),
    decreases k,
{
    let w = row.len() as int;
    if k > 0 {
        lemma_repeat_rows_len(row, k - 1);
        assert(k * w == (k - 1) * w + w) by (nonlinear_arith);
        assert(repeat_rows(row, k).len() == (k - 1) * w + w);
    } else {
        assert(k * w == 0) by (nonlinear_arith)
            requires
                k == 0,
        ;
    }
}

proof fn lemma_repeat_rows_index(row: Seq<char>, k: int, j: int)
    requires
        row.len() > 0,
        0 <= k,
        0 <= j < k * row.len(),
    ensures
        repeat_rows(row, k)[j] == row[j % (row.len() as int)],
    decreases k,
{
    lemma_repeat_rows_len(row, k);
    lemma_repeat_rows_len(row, k - 1);
    if j < (k - 1) * row.len() {
        lemma_repeat_rows_index(row, k - 1, j);
    } else {
        let w = row.len() as int;
        let r = j - (k - 1) * w;
        assert(repeat_rows(row, k)[j] == row[r]);
        vstd::arithmetic::div_mod::lemma_fundamental_div_mod_converse(j, w, k - 1, r);
    }
}

/// A freshly initialised board of side `n` serialises to `n` copies of a
/// row of `n` dots, each closed by `|`.
pub proof fn lemma_blank_serialization(n: int)
    requires
        n >= 0,
    ensures
        spec_serialize(blank_grid(n), n) == repeat_rows(blank_row(n), n),
{
    let lhs = spec_serialize(blank_grid(n), n);
    let rhs = repeat_rows(blank_row(n), n);
    lemma_repeat_rows_len(blank_row(n), n);
    assert(blank_row(n).len() == n + 1);
    assert forall|j: int| 0 <= j < lhs.len() implies lhs[j] == rhs[j] by {
        lemma_repeat_rows_index(blank_row(n), n, j);
        assert(rhs[j] == blank_row(n)[j % (n + 1)]);
        vstd::arithmetic::div_mod::lemma_mod_bound(j, n + 1);
        if j % (n + 1) == n {
            assert(blank_row(n)[n] == '|');
        } else {
            assert(blank_row(n)[j % (n + 1)] == '.');
            assert(lhs[j] == tile_char(blank_grid(n)[(j / (n + 1)) * n + (j % (n + 1))]));
            vstd::arithmetic::div_mod::lemma_fundamental_div_mod(j, n + 1);
            let q = j / (n + 1);
            let r = j % (n + 1);
            assert(0 <= q * n + r < n * n) by (nonlinear_arith)
                requires
                    0 <= r < n,
                    0 <= q,
                    j == (n + 1) * q + r,
                    j < n * (n + 1),
            ;
            assert(blank_grid(n)[q * n + r] == Tile::Empty);
        }
    }
    assert(lhs =~= rhs);
}

/// A blank board has no winner, whatever its size.
pub proof fn lemma_blank_no_winner(n: int)
    requires
        n >= 0,
    ensures
        spec_winner(blank_grid(n), n) == Tile::Empty,
{
    lemma_no_stones_no_win(blank_grid(n), n, Tile::Black);
    lemma_no_stones_no_win(blank_grid(n), n, Tile::White);
}

/// A colour without a stone on the board cannot have won.
pub proof fn lemma_no_stones_no_win(g: Seq<Tile>, n: int, color: Tile)
    requires
        color != Tile::Empty,
        forall|i: int| 0 <= i < n * n ==> #[trigger] g[i] != color,
    ensures
        !has_winning_path(g, n, color),
{
    if has_winning_path(g, n, color) {
        let (er, ec): (int, int) = choose|er: int, ec: int|
            #![auto]
            reaches(g, n, color, er, ec) && end_ok(n, color, er, ec);
        let p = choose|p: Seq<(int, int)>| connects(g, n, color, p, er, ec);
        let r0 = p[0].0;
        let c0 = p[0].1;
        lemma_idx_in_range(n, r0, c0);
        assert(g[idx_of(n, r0, c0)] == color);
    }
}

/// Filling one whole column with Black stones gives Black its
/// top-to-bottom win.
pub proof fn lemma_full_column_wins(g: Seq<Tile>, n: int, col: int)
    requires
        n >= 1,
        0 <= col < n,
        forall|r: int| 0 <= r < n ==> #[trigger] g[idx_of(n, r, col)] == Tile::Black,
    ensures
        has_winning_path(g, n, Tile::Black),
{
    let p = Seq::new(n as nat, |i: int| (i, col));
    assert forall|i: int| 0 <= i < p.len() implies in_bounds(n, (#[trigger] p[i]).0, p[i].1)
        && g[idx_of(n, p[i].0, p[i].1)] == Tile::Black by {
        assert(p[i] == (i, col));
        assert(g[idx_of(n, i, col)] == Tile::Black);
    }
    assert forall|i: int| 0 <= i < p.len() - 1 implies hex_adjacent(
        (#[trigger] p[i]).0,
        p[i].1,
        p[i + 1].0,
        p[i + 1].1,
    ) by {
        assert(p[i] == (i, col));
        assert(p[i + 1] == (i + 1, col));
    }
    assert(p[0] == (0int, col));
    assert(p[p.len() - 1] == (n - 1, col));
    assert(connects(g, n, Tile::Black, p, n - 1, col));
    assert(reaches(g, n, Tile::Black, n - 1, col));
    assert(end_ok(n, Tile::Black, n - 1, col));
}

/// Filling one whole row with White stones gives White its
/// left-to-right win.
pub proof fn lemma_full_row_wins(g: Seq<Tile>, n: int, row: int)
    requires
        n >= 1,
        0 <= row < n,
        forall|c: int| 0 <= c < n ==> #[trigger] g[idx_of(n, row, c)] == Tile::White,
    ensures
        has_winning_path(g, n, Tile::White),
{
    let p = Seq::new(n as nat, |i: int| (row, i));
    assert forall|i: int| 0 <= i < p.len() implies in_bounds(n, (#[trigger] p[i]).0, p[i].1)
        && g[idx_of(n, p[i].0, p[i].1)] == Tile::White by {
        assert(p[i] == (row, i));
        assert(g[idx_of(n, row, i)] == Tile::White);
    }
    assert forall|i: int| 0 <= i < p.len() - 1 implies hex_adjacent(
        (#[trigger] p[i]).0,
        p[i].1,
        p[i + 1].0,
        p[i + 1].1,
    ) by {
        assert(p[i] == (row, i));
        assert(p[i + 1] == (row, i + 1));
    }
    assert(p[0] == (row, 0int));
    assert(p[p.len() - 1] == (row, n - 1));
    assert(connects(g, n, Tile::White, p, row, n - 1));
    assert(reaches(g, n, Tile::White, row, n - 1));
    assert(end_ok(n, Tile::White, row, n - 1));
}

/// Stones placed only on the main diagonal never win on a board of side at
/// least two: diagonal neighbours only look connected, they are not
/// hex-adjacent.
pub proof fn lemma_diagonal_no_win(g: Seq<Tile>, n: int, color: Tile)
    requires
        n >= 2,
        color != Tile::Empty,
        forall|r: int, c: int|
            in_bounds(n, r, c) && #[trigger] g[idx_of(n, r, c)] == color ==> r == c,
    ensures
        !has_winning_path(g, n, color),
{
    if has_winning_path(g, n, color) {
        let (er, ec): (int, int) = choose|er: int, ec: int|
            #![auto]
            reaches(g, n, color, er, ec) && end_ok(n, color, er, ec);
        let p = choose|p: Seq<(int, int)>| connects(g, n, color, p, er, ec);
        if p.len() >= 2 {
            let r1 = p[0].0;
            let c1 = p[0].1;
            let r2 = p[1].0;
            let c2 = p[1].1;
            assert(hex_adjacent(r1, c1, r2, c2));
            assert(g[idx_of(n, r1, c1)] == color && in_bounds(n, r1, c1));
            assert(g[idx_of(n, r2, c2)] == color && in_bounds(n, r2, c2));
            assert(r1 == c1 && r2 == c2);
            assert(false);
        } else {
            let r0 = p[0].0;
            let c0 = p[0].1;
            assert(p[p.len() - 1] == p[0]);
            assert(start_ok(color, r0, c0) && end_ok(n, color, r0, c0));
            assert(false);
        }
    }
}

/// Round trip of the compact wire format: reading a well-formed compact
/// string and serialising the board again gives the string back.
pub proof fn lemma_compact_round_trip(s: Seq<char>, n: int)
    requires
        wf_compact_sized(s, n),
    ensures
        spec_serialize(compact_grid(s, n), n) == s,
{
    let g = compact_grid(s, n);
    let lhs = spec_serialize(g, n);
    assert forall|k: int| 0 <= k < lhs.len() implies lhs[k] == s[k] by {
        vstd::arithmetic::div_mod::lemma_mod_bound(k, n + 1);
        if k % (n + 1) == n {
            assert(s[k] == '|');
        } else {
            vstd::arithmetic::div_mod::lemma_fundamental_div_mod(k, n + 1);
            let q = k / (n + 1);
            let r = k % (n + 1);
            let i = q * n + r;
            assert(0 <= q * n + r < n * n) by (nonlinear_arith)
                requires
                    0 <= r < n,
                    0 <= q,
                    k == (n + 1) * q + r,
                    k < n * (n + 1),
            ;
            assert(lhs[k] == tile_char(g[i]));
            vstd::arithmetic::div_mod::lemma_fundamental_div_mod_converse(i, n, q, r);
            assert(g[i] == char_tile(s[q * (n + 1) + r]));
            assert(q * (n + 1) + r == k) by (nonlinear_arith)
                requires
                    k == (n + 1) * q + r,
            ;
            assert(is_tile_char(s[k]));
            assert(tile_char(char_tile(s[k])) == s[k]);
        }
    }
    assert(lhs =~= s);
}

/// Round trip of the compact wire format in the other direction: the
/// serialisation of any grid is well formed and reads back as that grid.
pub proof fn lemma_serialize_reads_back(g: Seq<Tile>, n: int)
    requires
        n >= 0,
        g.len() == n * n,
    ensures
        wf_compact_sized(spec_serialize(g, n), n),
        compact_grid(spec_serialize(g, n), n) == g,
{
    let s = spec_serialize(g, n);
    assert forall|k: int| 0 <= k < s.len() && k % (n + 1) < n implies is_tile_char(
        #[trigger] s[k],
    ) by {
        assert(is_tile_char(tile_char(g[(k / (n + 1)) * n + (k % (n + 1))])));
    }
    assert(wf_compact_sized(s, n));
    let h = compact_grid(s, n);
    assert forall|i: int| 0 <= i < n * n implies h[i] == g[i] by {
        let q = i / n;
        let r = i % n;
        assert(n >= 1) by (nonlinear_arith)
            requires
                n >= 0,
                0 <= i < n * n,
        ;
        vstd::arithmetic::div_mod::lemma_fundamental_div_mod(i, n);
        assert(0 <= r < n && 0 <= q < n) by (nonlinear_arith)
            requires
                n >= 1,
                0 <= i < n * n,
                i == n * q + r,
                q == i / n,
                r == i % n,
        ;
        let k = q * (n + 1) + r;
        assert(0 <= k < n * (n + 1)) by (nonlinear_arith)
            requires
                0 <= q < n,
                0 <= r < n,
                k == q * (n + 1) + r,
        ;
        vstd::arithmetic::div_mod::lemma_fundamental_div_mod_converse(k, n + 1, q, r);
        assert(h[i] == char_tile(s[k]));
        assert(s[k] == tile_char(g[q * n + r]));
        assert(q * n + r == i) by (nonlinear_arith)
            requires
                i == n * q + r,
        ;
        assert(char_tile(tile_char(g[i])) == g[i]);
    }
    assert(h =~= g);
}

} // verus!
