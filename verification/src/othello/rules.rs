//! The capture rule of Othello over a pair of bitboards: the pieces of the
//! player to move (`m`) and of the opponent (`o`).
use vstd::prelude::*;

use crate::bits::{
    has_sq, set_mask, lemma_has_sq_zero, lemma_has_sq_or, lemma_has_sq_single, lemma_set_mask,
    lemma_bits_ext, lemma_or_zero,
};
use super::play::Play;

verus! {

/// Row step of direction `d` (`0..8`): the three upward directions, the two
/// sideways ones, then the three downward ones.
pub open spec fn step_r(d: int) -> int {
    if d < 3 {
        -1
    } else if d < 5 {
        0
    } else {
        1
    }
}

/// Column step of direction `d`.
pub open spec fn step_c(d: int) -> int {
    if d == 0 || d == 3 || d == 5 {
        -1
    } else if d == 1 || d == 6 {
        0
    } else {
        1
    }
}

/// Row reached after `j` steps from row `r` in direction `d`.
pub open spec fn ray_r(r: int, d: int, j: int) -> int {
    if step_r(d) == -1 {
        r - j
    } else if step_r(d) == 1 {
        r + j
    } else {
        r
    }
}

/// Column reached after `j` steps from column `c` in direction `d`.
pub open spec fn ray_c(c: int, d: int, j: int) -> int {
    if step_c(d) == -1 {
        c - j
    } else if step_c(d) == 1 {
        c + j
    } else {
        c
    }
}

pub open spec fn on_board(r: int, c: int) -> bool {
    0 <= r < 8 && 0 <= c < 8
}

pub open spec fn square(r: int, c: int) -> int {
    r * 8 + c
}

/// The point `j` steps along the ray lies on the board.
pub open spec fn ray_on(r: int, c: int, d: int, j: int) -> bool {
    on_board(ray_r(r, d, j), ray_c(c, d, j))
}

/// The square `j` steps along the ray.
pub open spec fn ray_sq(r: int, c: int, d: int, j: int) -> int {
    square(ray_r(r, d, j), ray_c(c, d, j))
}

/// Steps `1..k` of the ray are on the board and hold opponent pieces.
pub open spec fn opp_run(o: u64, r: int, c: int, d: int, k: int) -> bool {
    forall|j: int| 1 <= j < k ==> #[trigger] ray_on(r, c, d, j) && has_sq(o, ray_sq(r, c, d, j))
}

/// A piece of the mover at step `k >= 2` closes a run of opponent pieces.
pub open spec fn closes_at(m: u64, o: u64, r: int, c: int, d: int, k: int) -> bool {
    &&& k >= 2
    &&& opp_run(o, r, c, d, k)
    &&& ray_on(r, c, d, k)
    &&& !has_sq(o, ray_sq(r, c, d, k))
    &&& has_sq(m, ray_sq(r, c, d, k))
}

/// Playing at `(r, c)` captures in direction `d`.
pub open spec fn captures_in_dir(m: u64, o: u64, r: int, c: int, d: int) -> bool {
    exists|k: int| #[trigger] closes_at(m, o, r, c, d, k)
}

/// Square `t` is turned over in direction `d` by playing at `(r, c)`.
pub open spec fn flips_in_dir(m: u64, o: u64, r: int, c: int, d: int, t: int) -> bool {
    exists|j: int, k: int|
        #![trigger closes_at(m, o, r, c, d, k), ray_sq(r, c, d, j)]
        1 <= j < k && closes_at(m, o, r, c, d, k) && t == ray_sq(r, c, d, j)
}

/// Square `t` is turned over by playing at square `s`.
pub open spec fn flipped(m: u64, o: u64, s: int, t: int) -> bool {
    exists|d: int| 0 <= d < 8 && #[trigger] flips_in_dir(m, o, s / 8, s % 8, d, t)
}

/// Some direction captures when playing at square `s`.
pub open spec fn captures_any(m: u64, o: u64, s: int) -> bool {
    exists|d: int| 0 <= d < 8 && #[trigger] captures_in_dir(m, o, s / 8, s % 8, d)
}

/// Square `s` is a legal placement: on the board, empty, and capturing.
pub open spec fn legal(m: u64, o: u64, s: int) -> bool {
    &&& 0 <= s < 64
    &&& !has_sq(m, s)
    &&& !has_sq(o, s)
    &&& captures_any(m, o, s)
}

/// The mover has a legal placement.
pub open spec fn any_legal(m: u64, o: u64) -> bool {
    exists|s: int| #[trigger] legal(m, o, s)
}

/// The squares turned over by playing at `s`, as a bitboard.
pub open spec fn flip_mask(m: u64, o: u64, s: int) -> u64 {
    set_mask(|t: int| flipped(m, o, s, t), 64)
}

/// The legal placements below square `n`, in increasing order.
pub open spec fn plays_upto(m: u64, o: u64, n: int) -> Seq<Play>
    decreases n,
{
    if n <= 0 {
        seq![]
    } else if legal(m, o, n - 1) {
        plays_upto(m, o, n - 1).push(Play((n - 1) as u8))
    } else {
        plays_upto(m, o, n - 1)
    }
}

/// Whatever the ray looks like, it leaves the board within eight steps.
proof fn lemma_ray_bound(r: int, c: int, d: int, j: int)
    requires
        on_board(r, c),
        0 <= d < 8,
        ray_on(r, c, d, j),
        j >= 0,
    ensures
        j < 8,
{
}

/// A ray square after `k` steps is one step beyond the square after `k - 1`.
proof fn lemma_ray_step(r: int, c: int, d: int, k: int)
    requires
        0 <= d < 8,
    ensures
        ray_r(r, d, k + 1) == ray_r(r, d, k) + step_r(d),
        ray_c(c, d, k + 1) == ray_c(c, d, k) + step_c(d),
{
}

/// Where the run of opponent pieces stops, the closing step is unique.
proof fn lemma_closes_unique(m: u64, o: u64, r: int, c: int, d: int, k: int, k2: int)
    requires
        k >= 1,
        opp_run(o, r, c, d, k),
        !(ray_on(r, c, d, k) && has_sq(o, ray_sq(r, c, d, k))),
        closes_at(m, o, r, c, d, k2),
    ensures
        k2 == k,
{
    if k2 > k {
        assert(ray_on(r, c, d, k) && has_sq(o, ray_sq(r, c, d, k)));
    } else if k2 < k {
        assert(ray_on(r, c, d, k2) && has_sq(o, ray_sq(r, c, d, k2)));
    }
}

fn direction(d: usize) -> (r: (i32, i32))
    requires
        d < 8,
    ensures
        r.0 == step_r(d as int),
        r.1 == step_c(d as int),
{
    if d == 0 {
        (-1, -1)
    } else if d == 1 {
        (-1, 0)
    } else if d == 2 {
        (-1, 1)
    } else if d == 3 {
        (0, -1)
    } else if d == 4 {
        (0, 1)
    } else if d == 5 {
        (1, -1)
    } else if d == 6 {
        (1, 0)
    } else {
        (1, 1)
    }
}

/// The squares turned over in direction `d` by a piece placed at `(r, c)`.
fn dir_flips(m: u64, o: u64, r: i32, c: i32, d: usize) -> (mask: u64)
    requires
        on_board(r as int, c as int),
        d < 8,
    ensures
        forall|t: int| #[trigger] has_sq(mask, t) <==> flips_in_dir(m, o, r as int, c as int, d as int, t),
        mask == 0 <==> !captures_in_dir(m, o, r as int, c as int, d as int),
{
    let ghost gr = r as int;
    let ghost gc = c as int;
    let ghost gd = d as int;
    let (dr, dc) = direction(d);
    let mut k: i32 = 1;
    let mut rr: i32 = r + dr;
    let mut cc: i32 = c + dc;
    let mut acc: u64 = 0;
    proof {
        lemma_has_sq_zero();
    }
    while 0 <= rr && rr < 8 && 0 <= cc && cc < 8 && (o >> ((rr * 8 + cc) as u64)) & 1 == 1
        invariant
            on_board(gr, gc),
            0 <= gd < 8,
            dr == step_r(gd),
            dc == step_c(gd),
            1 <= k <= 8,
            rr == ray_r(gr, gd, k as int),
            cc == ray_c(gc, gd, k as int),
            opp_run(o, gr, gc, gd, k as int),
            forall|t: int|
                #[trigger] has_sq(acc, t) <==> exists|j: int|
                    1 <= j < k && t == #[trigger] ray_sq(gr, gc, gd, j),
        decreases 8 - k,
    {
        proof {
            lemma_ray_bound(gr, gc, gd, k as int);
            lemma_ray_step(gr, gc, gd, k as int);
        }
        let sq = (rr * 8 + cc) as u64;
        let ghost old_acc = acc;
        proof {
            lemma_has_sq_or(acc, 1u64 << sq);
            lemma_has_sq_single(sq);
            assert(ray_sq(gr, gc, gd, k as int) == sq);
        }
        acc = acc | (1u64 << sq);
        proof {
            assert forall|t: int|
                #[trigger] has_sq(acc, t) <==> exists|j: int|
                    1 <= j < k + 1 && t == #[trigger] ray_sq(gr, gc, gd, j) by {
                if has_sq(acc, t) {
                    if !has_sq(old_acc, t) {
                        assert(t == ray_sq(gr, gc, gd, k as int));
                    }
                }
                if exists|j: int| 1 <= j < k + 1 && t == #[trigger] ray_sq(gr, gc, gd, j) {
                    let j = choose|j: int| 1 <= j < k + 1 && t == #[trigger] ray_sq(gr, gc, gd, j);
                    if j < k {
                        assert(has_sq(old_acc, t));
                    }
                }
            }
            assert(opp_run(o, gr, gc, gd, k + 1)) by {
                assert forall|j: int| 1 <= j < k + 1 implies #[trigger] ray_on(gr, gc, gd, j)
                    && has_sq(o, ray_sq(gr, gc, gd, j)) by {
                    if j == k {
                        assert(has_sq(o, sq as int));
                    }
                }
            }
        }
        k = k + 1;
        rr = rr + dr;
        cc = cc + dc;
    }
    let ghost kk = k as int;
    let closing = 0 <= rr && rr < 8 && 0 <= cc && cc < 8 && (m >> ((rr * 8 + cc) as u64)) & 1 == 1
        && k >= 2;
    proof {
        if ray_on(gr, gc, gd, kk) {
            assert(ray_sq(gr, gc, gd, kk) == (rr * 8 + cc));
        }
    }
    if closing {
        proof {
            assert(closes_at(m, o, gr, gc, gd, kk));
            assert forall|t: int| #[trigger] has_sq(acc, t) <==> flips_in_dir(m, o, gr, gc, gd, t) by {
                if has_sq(acc, t) {
                    let j = choose|j: int| 1 <= j < k && t == #[trigger] ray_sq(gr, gc, gd, j);
                    assert(closes_at(m, o, gr, gc, gd, kk) && t == ray_sq(gr, gc, gd, j));
                }
                if flips_in_dir(m, o, gr, gc, gd, t) {
                    let (j, k2) = choose|j: int, k2: int|
                        #![trigger closes_at(m, o, gr, gc, gd, k2), ray_sq(gr, gc, gd, j)]
                        1 <= j < k2 && closes_at(m, o, gr, gc, gd, k2) && t == ray_sq(gr, gc, gd, j);
                    lemma_closes_unique(m, o, gr, gc, gd, kk, k2);
                    assert(1 <= j < k && t == ray_sq(gr, gc, gd, j));
                }
            }
            assert(has_sq(acc, ray_sq(gr, gc, gd, 1)));
        }
        acc
    } else {
        proof {
            assert forall|k2: int| !#[trigger] closes_at(m, o, gr, gc, gd, k2) by {
                if closes_at(m, o, gr, gc, gd, k2) {
                    lemma_closes_unique(m, o, gr, gc, gd, kk, k2);
                }
            }
            assert forall|t: int| #[trigger] has_sq(0u64, t) <==> flips_in_dir(m, o, gr, gc, gd, t) by {
                if flips_in_dir(m, o, gr, gc, gd, t) {
                    let (j, k2) = choose|j: int, k2: int|
                        #![trigger closes_at(m, o, gr, gc, gd, k2), ray_sq(gr, gc, gd, j)]
                        1 <= j < k2 && closes_at(m, o, gr, gc, gd, k2) && t == ray_sq(gr, gc, gd, j);
                    assert(closes_at(m, o, gr, gc, gd, k2));
                }
            }
        }
        0
    }
}

/// All squares turned over by placing a piece of the mover on square `s`.
pub fn flips(m: u64, o: u64, s: u8) -> (mask: u64)
    requires
        s < 64,
    ensures
        mask == flip_mask(m, o, s as int),
        mask == 0 <==> !captures_any(m, o, s as int),
{
    let r: i32 = (s / 8) as i32;
    let c: i32 = (s % 8) as i32;
    let ghost gs = s as int;
    let mut acc: u64 = 0;
    let mut d: usize = 0;
    proof {
        lemma_has_sq_zero();
    }
    while d < 8
        invariant
            d <= 8,
            r == gs / 8,
            c == gs % 8,
            0 <= gs < 64,
            forall|t: int| #[trigger] has_sq(acc, t) <==> exists|e: int|
                0 <= e < d && #[trigger] flips_in_dir(m, o, gs / 8, gs % 8, e, t),
            acc == 0 <==> forall|e: int| 0 <= e < d ==> !#[trigger] captures_in_dir(m, o, gs / 8, gs % 8, e),
        decreases 8 - d,
    {
        let f = dir_flips(m, o, r, c, d);
        let ghost old_acc = acc;
        proof {
            lemma_has_sq_or(acc, f);
            lemma_or_zero(acc, f);
        }
        acc = acc | f;
        proof {
            assert forall|t: int| #[trigger] has_sq(acc, t) <==> exists|e: int|
                0 <= e < d + 1 && #[trigger] flips_in_dir(m, o, gs / 8, gs % 8, e, t) by {
                if has_sq(acc, t) && !has_sq(old_acc, t) {
                    assert(flips_in_dir(m, o, gs / 8, gs % 8, d as int, t));
                }
                if exists|e: int| 0 <= e < d + 1 && #[trigger] flips_in_dir(m, o, gs / 8, gs % 8, e, t) {
                    let e = choose|e: int| 0 <= e < d + 1 && #[trigger] flips_in_dir(m, o, gs / 8, gs % 8, e, t);
                    if e < d {
                        assert(has_sq(old_acc, t));
                    }
                }
            }
        }
        d = d + 1;
    }
    proof {
        let f = |t: int| flipped(m, o, gs, t);
        lemma_set_mask(f, 64);
        assert forall|t: int| 0 <= t < 64 implies has_sq(acc, t) == has_sq(flip_mask(m, o, gs), t) by {
            if has_sq(acc, t) {
                let e = choose|e: int| 0 <= e < 8 && #[trigger] flips_in_dir(m, o, gs / 8, gs % 8, e, t);
                assert(flipped(m, o, gs, t));
            }
            if flipped(m, o, gs, t) {
                let e = choose|e: int| 0 <= e < 8 && #[trigger] flips_in_dir(m, o, gs / 8, gs % 8, e, t);
            }
        }
        lemma_bits_ext(acc, flip_mask(m, o, gs));
    }
    acc
}

/// Whether placing a piece of the mover on square `s` is legal.
pub fn is_legal(m: u64, o: u64, s: u8) -> (b: bool)
    ensures
        b == legal(m, o, s as int),
{
    if s >= 64 {
        return false;
    }
    let occupied = ((m >> (s as u64)) & 1 == 1) || ((o >> (s as u64)) & 1 == 1);
    if occupied {
        false
    } else {
        flips(m, o, s) != 0
    }
}

/// The legal placements of the mover, in increasing square order.
pub fn legal_plays(m: u64, o: u64) -> (v: Vec<Play>)
    ensures
        v@ == plays_upto(m, o, 64),
{
    let mut v: Vec<Play> = Vec::new();
    let mut s: u8 = 0;
    while s < 64
        invariant
            s <= 64,
            v@ == plays_upto(m, o, s as int),
        decreases 64 - s,
    {
        if is_legal(m, o, s) {
            v.push(Play(s));
        }
        s = s + 1;
    }
    v
}

/// What `plays_upto` holds: exactly the legal squares below `n`, increasing.
pub proof fn lemma_plays_upto(m: u64, o: u64, n: int)
    requires
        0 <= n <= 64,
    ensures
        plays_upto(m, o, n).len() <= n,
        forall|i: int| 0 <= i < plays_upto(m, o, n).len() ==> (#[trigger] plays_upto(m, o, n)[i]).0 < n
            && legal(m, o, plays_upto(m, o, n)[i].0 as int),
        forall|i: int, j: int| 0 <= i < j < plays_upto(m, o, n).len()
            ==> (#[trigger] plays_upto(m, o, n)[i]).0 < (#[trigger] plays_upto(m, o, n)[j]).0,
        forall|s: int| 0 <= s < n && #[trigger] legal(m, o, s) ==> plays_upto(m, o, n).contains(Play(s as u8)),
        plays_upto(m, o, n).len() > 0 <==> exists|s: int| 0 <= s < n && #[trigger] legal(m, o, s),
    decreases n,
{
    if n > 0 {
        lemma_plays_upto(m, o, n - 1);
        let p = plays_upto(m, o, n - 1);
        let q = plays_upto(m, o, n);
        if legal(m, o, n - 1) {
            assert(q == p.push(Play((n - 1) as u8)));
            assert forall|s: int| 0 <= s < n && #[trigger] legal(m, o, s) implies q.contains(Play(s as u8)) by {
                if s < n - 1 {
                    let i = choose|i: int| 0 <= i < p.len() && p[i] == Play(s as u8);
                    assert(q[i] == Play(s as u8));
                } else {
                    assert(q[q.len() - 1] == Play(s as u8));
                }
            }
            assert(legal(m, o, n - 1));
        } else {
            assert forall|s: int| 0 <= s < n && #[trigger] legal(m, o, s) implies q.contains(Play(s as u8)) by {
                assert(s < n - 1);
            }
            if exists|s: int| 0 <= s < n && #[trigger] legal(m, o, s) {
                let s = choose|s: int| 0 <= s < n && #[trigger] legal(m, o, s);
                assert(s < n - 1);
            }
        }
    }
}

/// No legal placement is left out: the mover can place a piece exactly
/// when the list of legal placements is not empty.
pub proof fn lemma_any_legal_iff_plays(m: u64, o: u64)
    ensures
        any_legal(m, o) <==> plays_upto(m, o, 64).len() > 0,
{
    lemma_plays_upto(m, o, 64);
    if any_legal(m, o) {
        let s = choose|s: int| #[trigger] legal(m, o, s);
        assert(0 <= s < 64 && legal(m, o, s));
    }
    if plays_upto(m, o, 64).len() > 0 {
        let s = choose|s: int| 0 <= s < 64 && #[trigger] legal(m, o, s);
        assert(legal(m, o, s));
    }
}

} // verus!
