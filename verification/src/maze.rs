//! Contains functions to build a maze.
//!
//! This module is not related to the main functionality of the library.
//! It is used to make graphs to try the library on.

use crate::graph::U16orU32;
use rand::rngs::StdRng;
use rand::seq::SliceRandom;
use rand::{Rng, SeedableRng};
use vstd::prelude::*;

verus! {

/// The standard random number generator of rand. Nothing is known of its state.
#[verifier::external_type_specification]
#[verifier::external_body]
pub struct ExStdRng(StdRng);

/// `StdRng::from_seed` of rand: a generator made from the seed.
#[verifier::external_body]
fn rng_from_seed(seed: [u8; 32]) -> (rng: StdRng) {
    StdRng::from_seed(seed)
}

/// `Rng::gen_range` of rand on the range from 0 up to, not including, `n`:
/// some number of that range. An empty range is not accepted.
#[verifier::external_body]
fn gen_below(rng: &mut StdRng, n: usize) -> (r: usize)
    requires
        n > 0,
    ensures
        r < n,
{
    rng.gen_range(0..n)
}

/// `SliceRandom::choose` of rand: some element of the list, or `None`
/// where the list is empty.
#[verifier::external_body]
fn pick(list: &Vec<usize>, rng: &mut StdRng) -> (r: Option<usize>)
    ensures
        match r {
            Some(x) => list@.contains(x),
            None => list@.len() == 0,
        },
{
    list.choose(rng).copied()
}

/// Whether the cells `c` and `n` of a grid `w` wide and `h` high, numbered
/// row by row, lie next to each other.
pub open spec fn adjacent(w: nat, h: nat, c: nat, n: nat) -> bool {
    &&& c < w * h
    &&& n < w * h
    &&& {
        ||| (n == c + 1 && c % w < w - 1)
        ||| (n == c + w)
        ||| (n + 1 == c && c % w > 0)
        ||| (n + w == c)
    }
}

/// How many cells have not been visited.
pub open spec fn unvisited(v: Seq<bool>) -> nat
    decreases v.len(),
{
    if v.len() == 0 {
        0
    } else {
        unvisited(v.drop_last()) + if v[v.len() - 1] {
            0nat
        } else {
            1nat
        }
    }
}

/// Visiting a cell leaves one cell less to visit.
pub proof fn lemma_visit(v: Seq<bool>, i: int)
    requires
        0 <= i < v.len(),
        !v[i],
    ensures
        unvisited(v.update(i, true)) + 1 == unvisited(v),
    decreases v.len(),
{
    let u = v.update(i, true);
    if i == v.len() - 1 {
        assert(u.drop_last() =~= v.drop_last());
    } else {
        lemma_visit(v.drop_last(), i);
        assert(u.drop_last() =~= v.drop_last().update(i, true));
    }
}

/// The passages `maze` are the steps `cells` of a walk over the grid: each
/// leads from a cell to a cell next to it, no cell is entered twice, and
/// the node ids are the cell numbers, as far as the id type can hold them.
pub open spec fn is_walk<N: U16orU32>(w: nat, h: nat, cells: Seq<(nat, nat)>, maze: Seq<(N, N)>) -> bool {
    &&& cells.len() == maze.len()
    &&& forall|i: int|
        0 <= i < cells.len() ==> {
            &&& adjacent(w, h, (#[trigger] cells[i]).0, cells[i].1)
            &&& maze[i].0.index() == cells[i].0 % N::limit()
            &&& maze[i].1.index() == cells[i].1 % N::limit()
        }
    &&& forall|i: int, j: int|
        0 <= i < cells.len() && 0 <= j < cells.len() && i != j ==> (#[trigger] cells[i]).1
            != (#[trigger] cells[j]).1
}

/// Given width and height, build a maze with the provided seed.
///
/// Returns a list of pairs of cells that are connected.
pub fn build_maze_from_seed<N: U16orU32>(w: N, h: N, seed: [u8; 32]) -> (maze: Vec<(N, N)>)
    requires
        w.index() > 0,
        h.index() > 0,
        w.index() * h.index() <= usize::MAX,
    ensures
        exists|cells: Seq<(nat, nat)>| is_walk(w.index(), h.index(), cells, maze@),
        maze@.len() < w.index() * h.index(),
        w.index() * h.index() > 1 ==> maze@.len() > 0,
{
    let mut rng = rng_from_seed(seed);
    build_maze_with_rng(w, h, &mut rng)
}

/// Given width and height, build a maze with the provided random number
/// generator.
///
/// Returns a list of pairs of cells that are connected: a walk that starts
/// at some cell, goes on to a cell next to it that it has not visited,
/// goes back where there is none or where it has gone far enough, and ends
/// when it is back at its start with nowhere to go. In a grid of more than
/// one cell it takes at least one step.
pub fn build_maze_with_rng<N: U16orU32>(w: N, h: N, rng: &mut StdRng) -> (maze: Vec<(N, N)>)
    requires
        w.index() > 0,
        h.index() > 0,
        w.index() * h.index() <= usize::MAX,
    ensures
        exists|cells: Seq<(nat, nat)>| is_walk(w.index(), h.index(), cells, maze@),
        maze@.len() < w.index() * h.index(),
        w.index() * h.index() > 1 ==> maze@.len() > 0,
{
    let w_usize: usize = w.as_usize();
    let h_usize: usize = h.as_usize();
    let size: usize = w_usize * h_usize;
    proof {
        N::lemma_index(w, h);
        N::lemma_index(h, w);
        N::lemma_limits();
        assert(size > 0) by (nonlinear_arith)
            requires
                size == w_usize * h_usize,
                w_usize > 0,
                h_usize > 0,
        ;
    }
    let mut maze: Vec<(N, N)> = Vec::with_capacity(size);
    let mut visited: Vec<bool> = Vec::with_capacity(size);
    visited.resize(size, false);
    let mut stack: Vec<usize> = Vec::new();
    let mut curr: usize = gen_below(rng, size);
    let ghost all_unvisited = visited@;
    visited[curr] = true;
    let mut depth: usize = 0;
    let max_depth: usize = ((w_usize as u64 + h_usize as u64) / 2) as usize;
    let ghost mut cells: Seq<(nat, nat)> = Seq::empty();
    let ghost start = curr;
    proof {
        lemma_none_visited(all_unvisited);
        lemma_visit(all_unvisited, curr as int);
    }
    loop
        invariant
            w_usize == w.index(),
            h_usize == h.index(),
            size == w_usize * h_usize,
            w_usize > 0,
            h_usize > 0,
            visited@.len() == size,
            curr < size,
            visited@[curr as int],
            forall|k: int| 0 <= k < stack@.len() ==> stack@[k] < size && visited@[stack@[k] as int],
            is_walk(w.index(), h.index(), cells, maze@),
            forall|i: int| 0 <= i < cells.len() ==> visited@[(#[trigger] cells[i]).1 as int],
            maze@.len() + unvisited(visited@) + 1 == size,
            depth <= maze@.len(),
            max_depth == (w_usize + h_usize) / 2,
            maze@.len() == 0 ==> forall|i: int|
                0 <= i < size && i != curr ==> !#[trigger] visited@[i],
        ensures
            size > 1 ==> maze@.len() > 0,
        decreases unvisited(visited@), stack@.len(),
    {
        let mut neighbors: Vec<usize> = Vec::new();
        proof {
            assert(curr / w_usize < h_usize) by (nonlinear_arith)
                requires
                    curr < w_usize * h_usize,
                    w_usize > 0,
            ;
            assert(curr == w_usize * (curr / w_usize) + curr % w_usize && curr % w_usize <= curr)
                by (nonlinear_arith)
                requires
                    w_usize > 0,
            ;
            assert(curr % w_usize < w_usize - 1 ==> curr + 1 < w_usize * h_usize)
                by (nonlinear_arith)
                requires
                    curr / w_usize < h_usize,
                    curr == w_usize * (curr / w_usize) + curr % w_usize,
                    w_usize > 0,
            ;
        }
        if curr % w_usize < w_usize - 1 && !visited[curr + 1] {
            neighbors.push(curr + 1);
        }
        if curr / w_usize < h_usize - 1 {
            proof {
                assert(curr + w_usize < w_usize * h_usize) by (nonlinear_arith)
                    requires
                        curr / w_usize < h_usize - 1,
                        curr == w_usize * (curr / w_usize) + curr % w_usize,
                        curr % w_usize < w_usize,
                        w_usize > 0,
                        h_usize > 0,
                ;
            }
            if !visited[curr + w_usize] {
                neighbors.push(curr + w_usize);
            }
        }
        if curr % w_usize > 0 && !visited[curr - 1] {
            neighbors.push(curr - 1);
        }
        if curr / w_usize > 0 {
            proof {
                assert(curr >= w_usize) by (nonlinear_arith)
                    requires
                        curr / w_usize > 0,
                        curr == w_usize * (curr / w_usize) + curr % w_usize,
                        w_usize > 0,
                ;
            }
            if !visited[curr - w_usize] {
                neighbors.push(curr - w_usize);
            }
        }
        assert(forall|k: int|
            0 <= k < neighbors@.len() ==> adjacent(
                w_usize as nat,
                h_usize as nat,
                curr as nat,
                #[trigger] neighbors@[k] as nat,
            ) && !visited@[neighbors@[k] as int]);
        proof {
            if maze@.len() == 0 && size > 1 {
                // the first cell of a grid with more cells has a cell next to it
                assert(w_usize > 1 || h_usize > 1) by (nonlinear_arith)
                    requires
                        size == w_usize * h_usize,
                        size > 1,
                ;
                assert(curr / w_usize < h_usize - 1 || curr / w_usize > 0 || h_usize == 1);
                assert(curr % w_usize < w_usize - 1 || curr % w_usize > 0 || w_usize == 1);
                assert(neighbors@.len() > 0);
                assert(depth < max_depth);
            }
        }
        let picked: Option<usize> = if depth < max_depth {
            pick(&neighbors, rng)
        } else {
            None
        };
        match picked {
            Some(next) => {
                proof {
                    let k = choose|k: int| 0 <= k < neighbors@.len() && neighbors@[k] == next;
                    assert(adjacent(
                        w_usize as nat,
                        h_usize as nat,
                        curr as nat,
                        neighbors@[k] as nat,
                    ));
                    lemma_visit(visited@, next as int);
                    lemma_unvisited_bound(visited@);
                }
                stack.push(curr);
                maze.push((N::from_usize(curr), N::from_usize(next)));
                proof {
                    let old_cells = cells;
                    cells = cells.push((curr as nat, next as nat));
                    assert forall|i: int, j: int|
                        0 <= i < cells.len() && 0 <= j < cells.len() && i != j implies (#[trigger] cells[i]).1
                        != (#[trigger] cells[j]).1 by {
                        if i < old_cells.len() {
                            assert(visited@[old_cells[i].1 as int]);
                        }
                        if j < old_cells.len() {
                            assert(visited@[old_cells[j].1 as int]);
                        }
                    }
                }
                curr = next;
                visited[curr] = true;
                depth += 1;
            },
            None => {
                match stack.pop() {
                    Some(prev) => {
                        curr = prev;
                        depth = 0;
                    },
                    None => {
                        break ;
                    },
                }
            },
        }
    }
    maze
}

/// Where no cell has been visited, all are left to visit.
pub proof fn lemma_none_visited(v: Seq<bool>)
    requires
        forall|i: int| 0 <= i < v.len() ==> !v[i],
    ensures
        unvisited(v) == v.len(),
    decreases v.len(),
{
    if v.len() > 0 {
        lemma_none_visited(v.drop_last());
    }
}

/// No more cells are left to visit than there are cells.
pub proof fn lemma_unvisited_bound(v: Seq<bool>)
    ensures
        unvisited(v) <= v.len(),
    decreases v.len(),
{
    if v.len() > 0 {
        lemma_unvisited_bound(v.drop_last());
    }
}

} // verus!
