//! The bookkeeping of a render: how deep a ray is followed through
//! mirrors and how the colours found on the way combine.

use vstd::prelude::*;
use crate::camera::{pixel_at, lemma_pixel_count_in_image, lemma_pixel_counted_once};
use crate::canvas::{
    Canvas,
    offset,
    painted,
    lemma_offset_in_grid,
    lemma_offset_injective,
    lemma_painted_last_wins,
    lemma_painted_len,
};
use crate::color::{Color, blend_colors};
use crate::double::{reciprocal, reciprocal_of, round_to_leading_bits, rounded};
use crate::shapes::shape::{any_blocks, blocks, occludes, Obstacle};
use crate::scale::{
    bound_key,
    bound_of,
    is_greater,
    is_negative,
    is_number,
    is_positive,
    key_of,
    order_key,
    lemma_key_zero,
};

verus! {

/// How many surfaces the ray of a pixel is followed through: itself
/// and seven mirror rays.
pub const MAX_DEPTH: usize = 8;

/// The bits of the pixel radius of an image: one over the longer side,
/// the side and the quotient each as the nearest number of the double
/// format. Below this distance a surface counts as the one that a ray
/// starts on.
pub open spec fn pixel_radius_of(width: usize, height: usize) -> nat {
    reciprocal_of(
        rounded(
            if width >= height {
                width as nat
            } else {
                height as nat
            },
        ),
    )
}

/// The bits of the pixel radius of an image of `width` by `height`.
pub fn pixel_radius(width: usize, height: usize) -> (bits: u64)
    ensures
        bits == pixel_radius_of(width, height),
{
    let longer: usize = if width >= height {
        width
    } else {
        height
    };
    proof {
        vstd::arithmetic::power2::lemma2_to64();
    }
    reciprocal(round_to_leading_bits(longer as u128, 11))
}

/// A surface whose reflectiveness has the given bits is a mirror: all
/// but those with a reflectiveness of zero or less.
pub open spec fn mirrors(reflectiveness: u64) -> bool {
    is_positive(reflectiveness) || !is_number(reflectiveness)
}

/// Whether a surface is a mirror, by the bits of its reflectiveness.
pub fn is_mirror(reflectiveness: u64) -> (mirror: bool)
    ensures
        mirror == mirrors(reflectiveness),
{
    proof {
        lemma_key_zero(reflectiveness);
    }
    let key = order_key(reflectiveness);
    key > 0 || key == i64::MIN
}

/// What one ray found in the scene.
#[derive(Clone, Copy, Debug, PartialEq, Eq, Structural)]
pub enum Probe {
    /// The ray left the scene without touching a surface.
    Miss,
    /// The ray struck a surface whose shaded colour at that point is
    /// `color`, and whose reflectiveness has the given bits.
    Hit { color: Color, reflectiveness: u64 },
}

/// The colour of a ray that may be followed through `depth` surfaces,
/// where `probes[0]` is what the ray itself found, `probes[1]` what its
/// mirror ray found, and so on. A mirror ray of which nothing is known
/// counts as one that found nothing.
///
/// With no depth left, or nothing struck, the colour is the background.
/// At the last level, or on a surface that is no mirror, it is the
/// surface's own colour. Otherwise it is the blend of that colour and
/// the colour of the mirror ray, both at the same weight.
pub open spec fn cast_color(background: Color, probes: Seq<Probe>, depth: nat) -> Color
    decreases depth,
{
    if depth == 0 || probes.len() == 0 {
        background
    } else {
        match probes[0] {
            Probe::Miss => background,
            Probe::Hit { color, reflectiveness } => if depth == 1 || !mirrors(reflectiveness) {
                color
            } else {
                blend_colors(
                    color,
                    cast_color(background, probes.drop_first(), (depth - 1) as nat),
                    1,
                    2,
                )
            },
        }
    }
}

/// Blends `inner`, the colour found behind the last mirror, back
/// through the colours of the mirrors that wait for it, the innermost
/// (last) first.
pub open spec fn settle(pending: Seq<Color>, inner: Color) -> Color
    decreases pending.len(),
{
    if pending.len() == 0 {
        inner
    } else {
        settle(pending.drop_last(), blend_colors(pending.last(), inner, 1, 2))
    }
}

/// The state of following one ray: what `Cast` holds.
pub struct CastView {
    /// The colour of a ray that strikes nothing.
    pub background: Color,
    /// How many more surfaces the ray may be followed through; none
    /// once the colour is known.
    pub depth: nat,
    /// The colours of the mirrors passed so far, the outermost first.
    pub pending: Seq<Color>,
    /// The colour of the ray, once it is known.
    pub result: Option<Color>,
}

impl CastView {
    /// The state before any ray was traced. With no depth the colour is
    /// known at once.
    pub open spec fn start(background: Color, depth: nat) -> CastView {
        CastView {
            background,
            depth,
            pending: Seq::empty(),
            result: if depth == 0 {
                Some(background)
            } else {
                None
            },
        }
    }

    /// A state that still waits for a ray has depth left for it, and
    /// one that knows its colour has none.
    pub open spec fn sound(self) -> bool {
        self.result is None <==> self.depth > 0
    }

    /// The state after the ray that was due has been traced and found
    /// `probe`. Once the colour is known, nothing changes it.
    pub open spec fn feed(self, probe: Probe) -> CastView {
        if self.result is Some {
            self
        } else {
            match probe {
                Probe::Miss => CastView {
                    depth: 0,
                    result: Some(settle(self.pending, self.background)),
                    ..self
                },
                Probe::Hit { color, reflectiveness } => if self.depth <= 1 || !mirrors(
                    reflectiveness,
                ) {
                    CastView { depth: 0, result: Some(settle(self.pending, color)), ..self }
                } else {
                    CastView {
                        depth: (self.depth - 1) as nat,
                        pending: self.pending.push(color),
                        ..self
                    }
                },
            }
        }
    }

    /// The colour that the state leads to when the rays still to be
    /// traced find `rest`.
    pub open spec fn outcome(self, rest: Seq<Probe>) -> Color {
        match self.result {
            Some(color) => color,
            None => settle(self.pending, cast_color(self.background, rest, self.depth)),
        }
    }
}

/// Settling through one more mirror is settling the blend with that
/// mirror's colour through the others.
proof fn lemma_settle_push(pending: Seq<Color>, color: Color, inner: Color)
    ensures
        settle(pending.push(color), inner) == settle(pending, blend_colors(color, inner, 1, 2)),
{
    assert(pending.push(color).drop_last() == pending);
    assert(pending.push(color).last() == color);
}

/// With no depth left a ray has the background colour, whatever the
/// scene holds.
pub proof fn lemma_depth_zero_is_background(background: Color, probes: Seq<Probe>)
    ensures
        cast_color(background, probes, 0) == background,
{
}

/// A ray that strikes nothing has the background colour.
pub proof fn lemma_miss_is_background(background: Color, rest: Seq<Probe>, depth: nat)
    ensures
        cast_color(background, seq![Probe::Miss].add(rest), depth) == background,
{
}

/// A ray that strikes a surface that is no mirror has that surface's
/// colour, and what lies behind does not matter.
pub proof fn lemma_dull_hit_is_local(
    background: Color,
    color: Color,
    reflectiveness: u64,
    rest: Seq<Probe>,
    depth: nat,
)
    requires
        depth > 0,
        !mirrors(reflectiveness),
    ensures
        cast_color(background, seq![Probe::Hit { color, reflectiveness }].add(rest), depth) == color,
{
}

/// Following a ray step by step starts from the colour that
/// `cast_color` gives.
pub proof fn lemma_start_outcome(background: Color, depth: nat, probes: Seq<Probe>)
    ensures
        CastView::start(background, depth).outcome(probes) == cast_color(background, probes, depth),
{
}

/// Feeding a state what the next ray found leaves the outcome as it
/// was: the state after `probe`, continued with `rest`, ends where the
/// state before ends on `probe` followed by `rest`.
pub proof fn lemma_feed_keeps_outcome(state: CastView, probe: Probe, rest: Seq<Probe>)
    requires
        state.sound(),
    ensures
        state.feed(probe).sound(),
        state.feed(probe).outcome(rest) == state.outcome(seq![probe].add(rest)),
{
    if state.result is None {
        let path = seq![probe].add(rest);
        assert(path[0] == probe);
        assert(path.drop_first() == rest);
        match probe {
            Probe::Miss => {},
            Probe::Hit { color, reflectiveness } => {
                if !(state.depth <= 1 || !mirrors(reflectiveness)) {
                    lemma_settle_push(
                        state.pending,
                        color,
                        cast_color(state.background, rest, (state.depth - 1) as nat),
                    );
                }
            },
        }
    }
}

/// Each ray that is traced uses up depth: a state that still waits has
/// less depth after a probe than before, so a ray of depth `d` is
/// settled after at most `d` probes.
pub proof fn lemma_feed_uses_depth(state: CastView, probe: Probe)
    requires
        state.sound(),
        state.result is None,
    ensures
        state.feed(probe).depth < state.depth,
{
}

/// Follows one ray through the scene, one probe at a time: the caller
/// traces the ray that is due, hands in what it found, and goes on with
/// the mirror ray until the colour is known.
pub struct Cast {
    background: Color,
    /// The depth that is left behind the ray that is due.
    spare: usize,
    pending: Vec<Color>,
    result: Option<Color>,
}

impl View for Cast {
    type V = CastView;

    closed spec fn view(&self) -> CastView {
        CastView {
            background: self.background,
            depth: if self.result is None {
                (self.spare + 1) as nat
            } else {
                0
            },
            pending: self.pending@,
            result: self.result,
        }
    }
}

impl Cast {
    /// Starts on a ray that may be followed through `depth` surfaces.
    /// With no depth its colour is the background at once.
    pub fn new(background: Color, depth: usize) -> (cast: Cast)
        ensures
            cast@ == CastView::start(background, depth as nat),
            cast@.sound(),
            depth == 0 ==> cast@.result == Some(background),
            depth > 0 ==> cast@.result is None,
    {
        if depth == 0 {
            Cast { background, spare: 0, pending: Vec::new(), result: Some(background) }
        } else {
            Cast { background, spare: depth - 1, pending: Vec::new(), result: None }
        }
    }

    /// The colour of the ray, once it is known. While it is `None`, the
    /// next ray is due, and the state has depth left for it.
    pub fn result(&self) -> (color: Option<Color>)
        ensures
            color == self@.result,
            self@.sound(),
    {
        self.result
    }

    /// `inner` blended back through the mirrors that wait for it.
    fn settled(&self, inner: Color) -> (color: Color)
        ensures
            color == settle(self.pending@, inner),
    {
        let mut color = inner;
        let mut left: usize = self.pending.len();
        assert(self.pending@.subrange(0, left as int) == self.pending@);
        while left > 0
            invariant
                left <= self.pending@.len(),
                settle(self.pending@.subrange(0, left as int), color) == settle(self.pending@, inner),
            decreases left,
        {
            let ghost waiting = self.pending@.subrange(0, left as int);
            assert(waiting.drop_last() == self.pending@.subrange(0, left - 1));
            left = left - 1;
            color = self.pending[left].blend(&color, 1, 2);
        }
        color
    }

    /// Takes in what the ray that was due has found. A miss settles the
    /// colour on the background, a hit at the last level or on a
    /// surface that is no mirror on the surface's colour, each blended
    /// back through the mirrors passed before. A hit on a mirror with
    /// depth left asks for the mirror ray. Once the colour is known, a
    /// probe changes nothing.
    pub fn feed(&mut self, probe: Probe)
        ensures
            final(self)@ == old(self)@.feed(probe),
            final(self)@.sound(),
            old(self)@.result is None ==> final(self)@.depth < old(self)@.depth,
    {
        if self.result.is_none() {
            match probe {
                Probe::Miss => {
                    let color = self.settled(self.background);
                    self.result = Some(color);
                },
                Probe::Hit { color, reflectiveness } => {
                    if self.spare == 0 || !is_mirror(reflectiveness) {
                        let settled = self.settled(color);
                        self.result = Some(settled);
                    } else {
                        self.pending.push(color);
                        self.spare = self.spare - 1;
                    }
                },
            }
        }
    }
}

/// The colour of a ray that may be followed through `depth` surfaces
/// and whose path found `probes`: the ray itself first, then each
/// mirror ray in turn. Probes behind the point where the colour is
/// settled are not looked at.
pub fn cast(background: Color, probes: &Vec<Probe>, depth: usize) -> (color: Color)
    ensures
        color == cast_color(background, probes@, depth as nat),
        depth == 0 ==> color == background,
{
    let mut state = Cast::new(background, depth);
    let mut next: usize = 0;
    proof {
        lemma_start_outcome(background, depth as nat, probes@);
        assert(probes@.subrange(0, probes@.len() as int) == probes@);
    }
    while next < probes.len() && state.result().is_none()
        invariant
            next <= probes@.len(),
            state@.sound(),
            state@.outcome(probes@.subrange(next as int, probes@.len() as int)) == cast_color(
                background,
                probes@,
                depth as nat,
            ),
        decreases probes@.len() - next,
    {
        proof {
            let rest = probes@.subrange(next + 1, probes@.len() as int);
            lemma_feed_keeps_outcome(state@, probes@[next as int], rest);
            assert(seq![probes@[next as int]].add(rest) == probes@.subrange(
                next as int,
                probes@.len() as int,
            ));
        }
        state.feed(probes[next]);
        next = next + 1;
    }
    match state.result() {
        Some(color) => color,
        None => {
            proof {
                lemma_feed_keeps_outcome(state@, Probe::Miss, Seq::empty());
                assert(seq![Probe::Miss].add(Seq::empty()).drop_first() == Seq::<Probe>::empty());
            }
            state.feed(Probe::Miss);
            match state.result() {
                Some(color) => color,
                None => background,
            }
        },
    }
}

/// A place where a ray met a surface, by the bits of two measured
/// numbers.
#[derive(Clone, Copy, Debug, PartialEq, Eq, Structural)]
pub struct Candidate {
    /// How far along the ray the place lies; below zero behind the
    /// origin.
    pub along: u64,
    /// How far from the origin of the ray the place lies.
    pub away: u64,
}

/// A candidate counts as a hit where it lies ahead of the origin and
/// farther from it than `radius`, the distance below which a surface
/// counts as the one that the ray starts on. A distance that is no
/// number is not greater than anything, and nothing is greater than a
/// radius that is no number.
pub open spec fn counts(candidate: Candidate, radius: u64) -> bool {
    is_positive(candidate.along) && is_greater(candidate.away, radius)
}

/// Candidate `i` is the hit that a ray sees: it counts, no candidate
/// that counts lies nearer along the ray, and of several that lie
/// equally near it is the first.
pub open spec fn is_nearest(candidates: Seq<Candidate>, radius: u64, i: int) -> bool {
    &&& 0 <= i < candidates.len()
    &&& counts(candidates[i], radius)
    &&& forall|j: int|
        0 <= j < candidates.len() && counts(#[trigger] candidates[j], radius) ==> key_of(
            candidates[i].along,
        ) <= key_of(candidates[j].along)
    &&& forall|j: int|
        0 <= j < i && counts(#[trigger] candidates[j], radius) ==> key_of(candidates[i].along)
            < key_of(candidates[j].along)
}

/// Of one list of candidates at most one is the nearest.
pub proof fn lemma_nearest_unique(candidates: Seq<Candidate>, radius: u64, i: int, j: int)
    requires
        is_nearest(candidates, radius, i),
        is_nearest(candidates, radius, j),
    ensures
        i == j,
{
}

/// The hit that a ray sees among the places where it met surfaces, or
/// `None` where no candidate counts.
pub fn nearest(candidates: &Vec<Candidate>, radius: u64) -> (found: Option<usize>)
    ensures
        match found {
            Some(i) => is_nearest(candidates@, radius, i as int),
            None => forall|j: int|
                0 <= j < candidates@.len() ==> !counts(#[trigger] candidates@[j], radius),
        },
{
    let bound = bound_key(radius);
    let mut found: Option<usize> = None;
    let mut least: i64 = 0;
    let mut next: usize = 0;
    while next < candidates.len()
        invariant
            next <= candidates@.len(),
            bound == bound_of(radius),
            match found {
                Some(i) => i < next && least == key_of(candidates@[i as int].along) && is_nearest(
                    candidates@.subrange(0, next as int),
                    radius,
                    i as int,
                ),
                None => forall|j: int|
                    0 <= j < next ==> !counts(#[trigger] candidates@[j], radius),
            },
        decreases candidates@.len() - next,
    {
        let candidate = candidates[next];
        let along = order_key(candidate.along);
        proof {
            lemma_key_zero(candidate.along);
        }
        let ghost seen = candidates@.subrange(0, next as int);
        let ghost wider = candidates@.subrange(0, next + 1);
        assert(forall|j: int| 0 <= j < next ==> seen[j] == wider[j]);
        if along > 0 && order_key(candidate.away) > bound {
            match found {
                Some(i) => {
                    if along < least {
                        found = Some(next);
                        least = along;
                    }
                },
                None => {
                    found = Some(next);
                    least = along;
                },
            }
        }
        next = next + 1;
    }
    assert(candidates@.subrange(0, next as int) == candidates@);
    found
}

/// The straight line from a lit point to a light is clear: of the
/// surfaces of the scene, each given by the places where the line meets
/// it, none throws a shadow.
pub open spec fn all_clear(surfaces: Seq<Vec<Obstacle>>, radius: u64) -> bool {
    forall|s: int| 0 <= s < surfaces.len() ==> !any_blocks((#[trigger] surfaces[s])@, radius)
}

/// The line is clear where every place at which it meets a surface
/// lies within the radius of one of its ends or not between them: a
/// surface does not shade the point at which it is lit, nor does one
/// behind the point or beyond the light.
pub proof fn lemma_clear_of_own_surface(surfaces: Seq<Vec<Obstacle>>, radius: u64)
    requires
        forall|s: int, i: int|
            0 <= s < surfaces.len() && 0 <= i < surfaces[s]@.len() ==> {
                let place = #[trigger] surfaces[s]@[i];
                ||| !is_greater(place.from_start, radius)
                ||| !is_greater(place.from_end, radius)
                ||| !is_negative(place.side)
            },
    ensures
        all_clear(surfaces, radius),
{
    assert forall|s: int| 0 <= s < surfaces.len() implies !any_blocks(
        (#[trigger] surfaces[s])@,
        radius,
    ) by {
        if any_blocks(surfaces[s]@, radius) {
            let i = choose|i: int|
                0 <= i < surfaces[s]@.len() && blocks(#[trigger] surfaces[s]@[i], radius);
            assert(blocks(surfaces[s]@[i], radius));
        }
    }
}

/// A scene without surfaces leaves every line clear.
pub proof fn lemma_clear_of_nothing(radius: u64)
    ensures
        all_clear(Seq::<Vec<Obstacle>>::empty(), radius),
{
}

/// Whether the straight line from a lit point to a light is clear of
/// the surfaces of the scene, each given by the places where the line
/// meets it.
pub fn path_clear(surfaces: &Vec<Vec<Obstacle>>, radius: u64) -> (clear: bool)
    ensures
        clear == all_clear(surfaces@, radius),
        clear == (forall|s: int|
            0 <= s < surfaces@.len() ==> !any_blocks((#[trigger] surfaces@[s])@, radius)),
{
    let mut next: usize = 0;
    while next < surfaces.len()
        invariant
            next <= surfaces@.len(),
            forall|s: int| 0 <= s < next ==> !any_blocks((#[trigger] surfaces@[s])@, radius),
        decreases surfaces@.len() - next,
    {
        if occludes(&surfaces[next], radius) {
            return false;
        }
        next = next + 1;
    }
    true
}

/// A render that computes one colour for each pixel of the camera, in
/// the camera's order, fills the whole framebuffer: pixel `(x, y)` ends
/// with the colour computed for it, whatever the canvas held before.
pub proof fn lemma_render_fills_canvas(
    width: int,
    height: int,
    pixels: Seq<Color>,
    points: Seq<(usize, usize, Color)>,
    x: int,
    y: int,
)
    requires
        0 <= x < width <= usize::MAX,
        0 <= y < height <= usize::MAX,
        pixels.len() == width * height,
        points.len() == width * height,
        forall|k: int|
            0 <= k < points.len() ==> ((#[trigger] points[k]).0, points[k].1) == pixel_at(height, k),
    ensures
        0 <= x * height + y < points.len(),
        0 <= offset(width, x, y) < pixels.len(),
        painted(pixels, width, points).len() == pixels.len(),
        painted(pixels, width, points)[offset(width, x, y)] == points[x * height + y].2,
{
    let own = x * height + y;
    lemma_pixel_count_in_image(width, height, x, y);
    lemma_pixel_counted_once(width, height, x, y, own);
    lemma_painted_len(pixels, width, points);
    lemma_offset_in_grid(width, height, x, y);
    assert(points[own].0 == x && points[own].1 == y);
    assert forall|k: int| own < k < points.len() implies offset(
        width,
        (#[trigger] points[k]).0 as int,
        points[k].1 as int,
    ) != offset(width, points[own].0 as int, points[own].1 as int) by {
        lemma_pixel_counted_once(width, height, x, y, k);
        let column = k / height;
        let row = k % height;
        assert(0 <= column < width && 0 <= row < height) by (nonlinear_arith)
            requires
                0 <= k < width * height,
                0 < height,
                column == k / height,
                row == k % height,
        ;
        assert(points[k].0 == column && points[k].1 == row);
        if offset(width, column, row) == offset(width, x, y) {
            lemma_offset_injective(width, x, y, column, row);
        }
    }
    lemma_painted_last_wins(pixels, width, points, own);
}

/// The framebuffer of a render: a canvas of the given size, filled with
/// the background, on which the computed `(x, y, colour)` triples are
/// then painted one after the other.
pub fn into_canvas(
    width: usize,
    height: usize,
    background: Color,
    color_points: &Vec<(usize, usize, Color)>,
) -> (canvas: Canvas)
    requires
        width * height <= usize::MAX,
    ensures
        canvas.width() == width,
        canvas.height() == height,
        canvas@ == painted(
            Seq::new((width * height) as nat, |i: int| background),
            width as int,
            color_points@,
        ),
{
    let mut canvas = Canvas::new(width, height, background);
    let ghost blank = canvas@;
    let mut next: usize = 0;
    while next < color_points.len()
        invariant
            next <= color_points@.len(),
            canvas.width() == width,
            canvas.height() == height,
            canvas@ == painted(blank, width as int, color_points@.subrange(0, next as int)),
        decreases color_points@.len() - next,
    {
        let point = color_points[next];
        proof {
            let done = color_points@.subrange(0, next + 1);
            assert(done.drop_last() == color_points@.subrange(0, next as int));
            assert(done.last() == point);
        }
        match canvas.get_mut(point.0, point.1) {
            Some(pixel) => {
                *pixel = point.2;
            },
            None => {},
        }
        next = next + 1;
    }
    assert(color_points@.subrange(0, next as int) == color_points@);
    canvas
}

} // verus!
