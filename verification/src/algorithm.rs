//! The selectable algorithm variants: a tag for each of the nine
//! rasterizers the library offers, and the dispatch over a sum of
//! requests, each carrying exactly the parameters its algorithm needs.

use crate::aa::{
    bresenham_aa, bresenham_aa_pixels, dda_aa, dda_aa_pixels, step_by_step_aa,
    step_by_step_aa_pixels, wu_line, wu_pixels,
};
use crate::circle::{bresenham_circle, circle_pixels};
use crate::curve::{castle_pitway, castle_pitway_pixels};
use crate::line::{
    bresenham_line, bresenham_pixels, dda, dda_pixels, step_by_step, step_by_step_pixels,
};
use crate::logger::Logger;
use crate::pixel::{AntialiasedPixel, Pixel};
use vstd::prelude::*;
use vstd::string::StringExecFns;

verus! {

/// One of the nine scan-conversion algorithms.
#[derive(Clone, Copy, PartialEq, Eq, Structural, Debug)]
pub enum Algorithm {
    StepByStep,
    DDA,
    BresenhamLine,
    BresenhamCircle,
    CastlePitway,
    WuLine,
    StepByStepAA,
    DdaAA,
    BresenhamAA,
}

impl Algorithm {
    /// The variant's display name.
    pub open spec fn spec_name(self) -> Seq<char> {
        match self {
            Algorithm::StepByStep => "StepByStep"@,
            Algorithm::DDA => "DDA"@,
            Algorithm::BresenhamLine => "BresenhamLine"@,
            Algorithm::BresenhamCircle => "BresenhamCircle"@,
            Algorithm::CastlePitway => "CastlePitway"@,
            Algorithm::WuLine => "WuLine"@,
            Algorithm::StepByStepAA => "StepByStepAA"@,
            Algorithm::DdaAA => "DdaAA"@,
            Algorithm::BresenhamAA => "BresenhamAA"@,
        }
    }

    /// The variant's display name, for labels and log headers.
    pub fn name(&self) -> (r: String)
        ensures
            r@ == self.spec_name(),
    {
        match self {
            Algorithm::StepByStep => String::from_str("StepByStep"),
            Algorithm::DDA => String::from_str("DDA"),
            Algorithm::BresenhamLine => String::from_str("BresenhamLine"),
            Algorithm::BresenhamCircle => String::from_str("BresenhamCircle"),
            Algorithm::CastlePitway => String::from_str("CastlePitway"),
            Algorithm::WuLine => String::from_str("WuLine"),
            Algorithm::StepByStepAA => String::from_str("StepByStepAA"),
            Algorithm::DdaAA => String::from_str("DdaAA"),
            Algorithm::BresenhamAA => String::from_str("BresenhamAA"),
        }
    }
}

/// One drawing request: an algorithm together with exactly the parameters
/// it needs — two endpoints, a center and radius, or a control-point list.
pub enum Request {
    StepByStep(Pixel, Pixel),
    DDA(Pixel, Pixel),
    BresenhamLine(Pixel, Pixel),
    BresenhamCircle(Pixel, i32),
    CastlePitway(Vec<Pixel>),
    WuLine(Pixel, Pixel),
    StepByStepAA(Pixel, Pixel),
    DdaAA(Pixel, Pixel),
    BresenhamAA(Pixel, Pixel),
}

/// What a request rasterizes to: plain pixels or coverage-weighted ones.
pub enum Rendered {
    Pixels(Vec<Pixel>),
    Antialiased(Vec<AntialiasedPixel>),
}

/// Both coordinates lie strictly inside the grid, so the neighbour pixel
/// one step past the point exists.
pub open spec fn strictly_inside(p: Pixel) -> bool {
    i32::MIN < p.x < i32::MAX && i32::MIN < p.y < i32::MAX
}

/// The machine limits the request's rasterizer asks for: the circle must
/// stay on the grid, and the antialiasing variants touch one neighbour
/// past each endpoint.
pub open spec fn request_fits(request: Request) -> bool {
    match request {
        Request::StepByStep(_, _) => true,
        Request::DDA(_, _) => true,
        Request::BresenhamLine(_, _) => true,
        Request::BresenhamCircle(center, radius) => center.x - radius >= i32::MIN && center.x
            + radius <= i32::MAX && center.y - radius >= i32::MIN && center.y + radius <= i32::MAX,
        Request::CastlePitway(_) => true,
        Request::WuLine(p1, p2) => strictly_inside(p1) && strictly_inside(p2),
        Request::StepByStepAA(p1, p2) => strictly_inside(p1) && strictly_inside(p2),
        Request::DdaAA(p1, p2) => strictly_inside(p1) && strictly_inside(p2),
        Request::BresenhamAA(p1, p2) => strictly_inside(p1) && strictly_inside(p2),
    }
}

/// The result the request's algorithm owes: the exact pixel sequence of
/// the matching specification, in the matching representation.
pub open spec fn execute_output(request: Request, r: Rendered) -> bool {
    match request {
        Request::StepByStep(p1, p2) => match r {
            Rendered::Pixels(v) => v@ == step_by_step_pixels(p1, p2),
            _ => false,
        },
        Request::DDA(p1, p2) => match r {
            Rendered::Pixels(v) => v@ == dda_pixels(p1, p2),
            _ => false,
        },
        Request::BresenhamLine(p1, p2) => match r {
            Rendered::Pixels(v) => v@ == bresenham_pixels(p1, p2),
            _ => false,
        },
        Request::BresenhamCircle(center, radius) => match r {
            Rendered::Pixels(v) => v@ == circle_pixels(center, radius as int),
            _ => false,
        },
        Request::CastlePitway(points) => match r {
            Rendered::Pixels(v) => v@ == castle_pitway_pixels(points@),
            _ => false,
        },
        Request::WuLine(p1, p2) => match r {
            Rendered::Antialiased(v) => v@ == wu_pixels(p1, p2),
            _ => false,
        },
        Request::StepByStepAA(p1, p2) => match r {
            Rendered::Antialiased(v) => v@ == step_by_step_aa_pixels(p1, p2),
            _ => false,
        },
        Request::DdaAA(p1, p2) => match r {
            Rendered::Antialiased(v) => v@ == dda_aa_pixels(p1, p2),
            _ => false,
        },
        Request::BresenhamAA(p1, p2) => match r {
            Rendered::Antialiased(v) => v@ == bresenham_aa_pixels(p1, p2),
            _ => false,
        },
    }
}

/// Runs the requested algorithm on its parameters: the exhaustive dispatch
/// over the sum of variants, producing the matching pixel or
/// coverage-weighted sequence through the given trace sink.
pub fn execute<L: Logger>(request: Request, logger: &mut L) -> (r: Rendered)
    requires
        request_fits(request),
    ensures
        execute_output(request, r),
        final (logger).writes() == old(logger).writes(),
        !old(logger).writes() ==> final (logger).trace() == old(logger).trace(),
        old(logger).trace().is_prefix_of(final (logger).trace()),
{
    match request {
        Request::StepByStep(p1, p2) => Rendered::Pixels(step_by_step(p1, p2, logger)),
        Request::DDA(p1, p2) => Rendered::Pixels(dda(p1, p2, logger)),
        Request::BresenhamLine(p1, p2) => Rendered::Pixels(bresenham_line(p1, p2, logger)),
        Request::BresenhamCircle(center, radius) => Rendered::Pixels(
            bresenham_circle(center, radius, logger),
        ),
        Request::CastlePitway(points) => Rendered::Pixels(castle_pitway(&points, logger)),
        Request::WuLine(p1, p2) => Rendered::Antialiased(wu_line(p1, p2, logger)),
        Request::StepByStepAA(p1, p2) => Rendered::Antialiased(step_by_step_aa(p1, p2, logger)),
        Request::DdaAA(p1, p2) => Rendered::Antialiased(dda_aa(p1, p2, logger)),
        Request::BresenhamAA(p1, p2) => Rendered::Antialiased(bresenham_aa(p1, p2, logger)),
    }
}

} // verus!

