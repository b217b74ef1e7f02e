//! The animated coastline around the island: which band a cell falls in
//! (land, breaking coast, deep water) and the wave animation frame. Styling
//! and drawing stay outside the core.

use vstd::prelude::*;
use crate::clock::now_millis;

verus! {

/// The three bands a cell can fall in, by its normalized elliptical
/// distance from the play-area center.
#[derive(Clone, Copy, Debug, Eq, PartialEq, Structural)]
pub enum TileKind {
    Land,
    Coast,
    DeepWater,
}

/// Land reaches to the full island radius: `dx^2/rx^2 + dy^2/ry^2 <= 1`,
/// written exactly over the integers.
pub open spec fn on_land(x: int, y: int, width: int, height: int) -> bool {
    let cx = width / 2;
    let cy = height / 2;
    let rx = width * 3 / 5;
    let ry = height * 3 / 5;
    let dxr = (x - cx) * ry;
    let dyr = (y - cy) * rx;
    let rr = rx * ry;
    dxr * dxr + dyr * dyr <= rr * rr
}

/// The breaking-wave band hugs the coast: strictly outside the island but
/// within 1.3 of its radius (both sides scaled by `100 * rx^2 * ry^2`).
pub open spec fn on_coast(x: int, y: int, width: int, height: int) -> bool {
    let cx = width / 2;
    let cy = height / 2;
    let rx = width * 3 / 5;
    let ry = height * 3 / 5;
    let dxr = (x - cx) * ry;
    let dyr = (y - cy) * rx;
    let rr = rx * ry;
    !on_land(x, y, width, height) && 100 * (dxr * dxr) + 100 * (dyr * dyr) < 169 * (rr * rr)
}

/// Which band a cell falls in.
pub open spec fn spec_tile_kind(x: int, y: int, width: int, height: int) -> TileKind {
    if on_land(x, y, width, height) {
        TileKind::Land
    } else if on_coast(x, y, width, height) {
        TileKind::Coast
    } else {
        TileKind::DeepWater
    }
}

pub struct Coastline {
    last_update_millis: u64,
    wave_frame: usize,
    wave_chars: Vec<String>,
}

impl Coastline {
    pub closed spec fn spec_wave_chars(self) -> Seq<String> {
        self.wave_chars@
    }

    pub closed spec fn spec_wave_frame(self) -> int {
        self.wave_frame as int
    }

    /// The animation always points at one of its frames.
    pub open spec fn wf(self) -> bool {
        self.spec_wave_chars().len() > 0 && self.spec_wave_frame() < self.spec_wave_chars().len()
    }

    pub fn new() -> (r: Self)
        ensures
            r.wf(),
            r.spec_wave_chars().len() == 4,
            r.spec_wave_frame() == 0,
    {
        let mut wave_chars: Vec<String> = Vec::new();
        wave_chars.push("~".to_owned());
        wave_chars.push("≈".to_owned());
        wave_chars.push("~".to_owned());
        wave_chars.push("≈".to_owned());
        Coastline { last_update_millis: now_millis(), wave_frame: 0, wave_chars }
    }

    /// Advances the wave animation once half a second has passed; the clock
    /// decides whether this tick steps the frame or leaves it.
    pub fn update(&mut self)
        requires
            old(self).wf(),
        ensures
            final(self).wf(),
            final(self).spec_wave_chars() == old(self).spec_wave_chars(),
            final(self).spec_wave_frame() == old(self).spec_wave_frame() || final(self).spec_wave_frame()
                == (old(self).spec_wave_frame() + 1) % (old(self).spec_wave_chars().len() as int),
    {
        let now = now_millis();
        if now.saturating_sub(self.last_update_millis) > 500 {
            let n = self.wave_chars.len();
            assert(self.wave_frame < n);
            self.wave_frame = (self.wave_frame + 1) % n;
            self.last_update_millis = now;
        }
    }

    /// The wave glyph of the current animation frame.
    pub fn current_wave(&self) -> (r: String)
        requires
            self.wf(),
        ensures
            r@ == self.spec_wave_chars()[self.spec_wave_frame()]@,
    {
        self.wave_chars[self.wave_frame].clone()
    }

    /// The exact integer form of the band classification the renderer uses:
    /// land inside the island, breaking waves just outside it, deep water
    /// beyond.
    pub fn tile_kind(&self, x: i32, y: i32, width: i32, height: i32) -> (r: TileKind)
        requires
            9 <= width <= 1000,
            9 <= height <= 1000,
            -10000 <= x <= 10000,
            -10000 <= y <= 10000,
        ensures
            r == spec_tile_kind(x as int, y as int, width as int, height as int),
    {
        let cx = (width / 2) as i64;
        let cy = (height / 2) as i64;
        let rx = ((width * 3) / 5) as i64;
        let ry = ((height * 3) / 5) as i64;
        let dx = x as i64 - cx;
        let dy = y as i64 - cy;
        proof {
            assert(forall|a: int, b: int|
                -11000 <= a <= 11000 && 0 <= b <= 600 ==> -6600000 <= #[trigger] (a * b)
                    <= 6600000) by (nonlinear_arith);
            assert(forall|a: int|
                -6600000 <= a <= 6600000 ==> 0 <= #[trigger] (a * a) <= 43560000000000)
                by (nonlinear_arith);
        }
        let dxr = dx * ry;
        let dyr = dy * rx;
        let rr = rx * ry;
        let sq = dxr * dxr + dyr * dyr;
        let rr2 = rr * rr;
        if sq <= rr2 {
            TileKind::Land
        } else if 100 * sq < 169 * rr2 {
            TileKind::Coast
        } else {
            TileKind::DeepWater
        }
    }
}

} // verus!
