use vstd::prelude::*;

verus! {

/// Size on disk and pixel dimensions of one image file.
///
/// Its bits-per-pixel ratio is `8 * file_size / (width * height)`, kept as
/// the exact fraction: `bits` over `pixels`.
#[derive(Clone, Copy, Debug, PartialEq, Eq, Structural)]
pub struct Measurement {
    pub file_size: u64,
    pub width: u32,
    pub height: u32,
}

impl Measurement {
    /// A measurement has a ratio only when both dimensions are positive.
    pub open spec fn wf(&self) -> bool {
        self.width > 0 && self.height > 0
    }

    /// Numerator of the ratio: the file size in bits.
    pub open spec fn bits_spec(&self) -> int {
        8 * self.file_size
    }

    /// Denominator of the ratio: the pixel area.
    pub open spec fn pixels_spec(&self) -> int {
        self.width * self.height
    }

    /// The file size in bits, without overflow.
    pub fn bits(&self) -> (r: u128)
        ensures
            r == self.bits_spec(),
    {
        self.file_size as u128 * 8
    }

    /// The pixel area, without overflow.
    pub fn pixels(&self) -> (r: u64)
        ensures
            r == self.pixels_spec(),
    {
        let w = self.width as u64;
        let h = self.height as u64;
        assert(w * h <= 0xffff_ffffu64 * 0xffff_ffffu64) by (nonlinear_arith)
            requires
                w <= 0xffff_ffffu64,
                h <= 0xffff_ffffu64,
        ;
        w * h
    }

    /// Whether this ratio is strictly greater than `other`'s.
    pub fn denser_than(&self, other: &Measurement) -> (r: bool)
        ensures
            r == denser(*self, *other),
    {
        let pa = self.pixels();
        let pb = other.pixels();
        proof {
            lemma_product_fits(self.file_size as int, pb as int);
            lemma_product_fits(other.file_size as int, pa as int);
            lemma_scaled_compare(self.file_size as int, pb as int, other.file_size as int, pa as int);
        }
        let a = self.file_size as u128 * pb as u128;
        let b = other.file_size as u128 * pa as u128;
        a > b
    }
}

/// `a`'s bits-per-pixel ratio is strictly greater than `b`'s, compared as
/// fractions by cross multiplication.
pub open spec fn denser(a: Measurement, b: Measurement) -> bool {
    a.bits_spec() * b.pixels_spec() > b.bits_spec() * a.pixels_spec()
}

proof fn lemma_product_fits(x: int, y: int)
    requires
        0 <= x <= u64::MAX,
        0 <= y <= u64::MAX,
    ensures
        0 <= x * y <= u128::MAX,
{
    assert(0 <= x * y <= u64::MAX * u64::MAX) by (nonlinear_arith)
        requires
            0 <= x <= u64::MAX,
            0 <= y <= u64::MAX,
    ;
}

proof fn lemma_scaled_compare(s: int, p: int, t: int, q: int)
    ensures
        ((8 * s) * p > (8 * t) * q) == (s * p > t * q),
{
    assert((8 * s) * p == 8 * (s * p)) by (nonlinear_arith);
    assert((8 * t) * q == 8 * (t * q)) by (nonlinear_arith);
}

/// Ratios of well-formed measurements are ordered transitively.
pub proof fn lemma_denser_transitive(a: Measurement, b: Measurement, c: Measurement)
    requires
        a.wf(),
        b.wf(),
        c.wf(),
        denser(a, b),
        !denser(c, b),
    ensures
        denser(a, c),
{
    let (x, px) = (a.bits_spec(), a.pixels_spec());
    let (y, py) = (b.bits_spec(), b.pixels_spec());
    let (z, pz) = (c.bits_spec(), c.pixels_spec());
    assert(px > 0 && py > 0 && pz > 0) by (nonlinear_arith)
        requires
            a.width > 0,
            a.height > 0,
            b.width > 0,
            b.height > 0,
            c.width > 0,
            c.height > 0,
            px == a.width * a.height,
            py == b.width * b.height,
            pz == c.width * c.height,
    ;
    assert(x * pz > z * px) by (nonlinear_arith)
        requires
            px > 0,
            py > 0,
            pz > 0,
            x * py > y * px,
            z * py <= y * pz,
    ;
}

/// Turns a file size and the result of probing an image header into a
/// measurement. A failed probe or a zero dimension gives no measurement.
pub fn measure(file_size: u64, dimensions: Option<(u32, u32)>) -> (r: Option<Measurement>)
    ensures
        match dimensions {
            None => r is None,
            Some((w, h)) => if w == 0 || h == 0 {
                r is None
            } else {
                r == Some(Measurement { file_size, width: w, height: h })
            },
        },
        r matches Some(m) ==> m.wf(),
{
    match dimensions {
        None => None,
        Some((w, h)) => {
            if w == 0 || h == 0 {
                None
            } else {
                Some(Measurement { file_size, width: w, height: h })
            }
        },
    }
}

} // verus!
