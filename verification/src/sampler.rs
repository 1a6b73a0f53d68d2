//! The sampling plan: how the samples of a pixel are shared among the
//! workers, and how a light path is cut off.

use vstd::prelude::*;

verus! {

/// What happens to a light path next.
#[derive(Clone, Copy, Debug, PartialEq, Eq, Structural)]
pub enum PathStep {
    /// The depth budget is used up: the path contributes black.
    Exhausted,
    /// The ray left the scene: the path ends in the background.
    Background,
    /// The ray hit a surface: the path goes on from the scattered ray with
    /// `depth` bounces left.
    Scatter { depth: u32 },
}

/// The samples that each worker takes of every pixel: the whole part of
/// `samples_per_pixel / workers`.
pub open spec fn share(samples_per_pixel: u32, workers: usize) -> int {
    samples_per_pixel as int / workers as int
}

/// The samples that no worker takes.
pub open spec fn dropped(samples_per_pixel: u32, workers: usize) -> int {
    samples_per_pixel as int % workers as int
}

/// The samples that each of `workers` workers takes of every pixel. Every
/// worker takes the same number; what does not divide evenly is dropped.
pub fn samples_per_worker(samples_per_pixel: u32, workers: usize) -> (r: u32)
    requires
        workers > 0,
    ensures
        r == share(samples_per_pixel, workers),
{
    if workers > 0xffff_ffff {
        assert(share(samples_per_pixel, workers) == 0) by (nonlinear_arith)
            requires
                workers > 0xffff_ffff,
                samples_per_pixel <= 0xffff_ffff,
        ;
        0
    } else {
        samples_per_pixel / (workers as u32)
    }
}

/// The workers together take every sample but the dropped ones, and they
/// take all of them exactly where the budget divides evenly.
pub proof fn lemma_shares_add_up(samples_per_pixel: u32, workers: usize)
    requires
        workers > 0,
    ensures
        share(samples_per_pixel, workers) * workers + dropped(samples_per_pixel, workers)
            == samples_per_pixel,
        0 <= dropped(samples_per_pixel, workers) < workers,
        share(samples_per_pixel, workers) * workers == samples_per_pixel <==> dropped(
            samples_per_pixel,
            workers,
        ) == 0,
{
    let s = samples_per_pixel as int;
    let w = workers as int;
    assert(s == (s / w) * w + s % w && 0 <= s % w < w) by (nonlinear_arith)
        requires
            w > 0,
    ;
}

/// The next step of a light path with `depth` bounces left, where `hit`
/// says whether the ray hit a surface.
pub open spec fn step_of(depth: u32, hit: bool) -> PathStep {
    if depth == 0 {
        PathStep::Exhausted
    } else if hit {
        PathStep::Scatter { depth: (depth - 1) as u32 }
    } else {
        PathStep::Background
    }
}

/// How often a path with `depth` bounces left scatters, where `hits` says of
/// each ray in turn whether it hit a surface.
pub open spec fn scatters(depth: u32, hits: Seq<bool>) -> nat
    decreases hits.len(),
{
    if hits.len() == 0 {
        0
    } else {
        match step_of(depth, hits[0]) {
            PathStep::Scatter { depth: left } => 1 + scatters(left, hits.skip(1)),
            _ => 0,
        }
    }
}

/// The next step of a light path with `depth` bounces left, after the scene
/// was asked for the nearest hit. With no bounce left the path is cut off,
/// whatever was hit.
pub fn path_step(depth: u32, hit: bool) -> (step: PathStep)
    ensures
        step == step_of(depth, hit),
{
    if depth == 0 {
        PathStep::Exhausted
    } else if hit {
        PathStep::Scatter { depth: depth - 1 }
    } else {
        PathStep::Background
    }
}

/// The depth budget is a hard cut-off: a path with `depth` bounces left
/// scatters at most `depth` times, however many surfaces lie in its way.
pub proof fn lemma_path_is_cut_off(depth: u32, hits: Seq<bool>)
    ensures
        scatters(depth, hits) <= depth,
    decreases hits.len(),
{
    if hits.len() > 0 {
        match step_of(depth, hits[0]) {
            PathStep::Scatter { depth: left } => {
                lemma_path_is_cut_off(left, hits.skip(1));
            },
            _ => {},
        }
    }
}

} // verus!
