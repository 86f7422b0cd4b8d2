//! The analysis nodes a chain can drive.
//!
//! Nodes consume capture buffers — one sequence of integer PCM samples per
//! selected channel, exactly as the backend delivers them — and produce a
//! derived result. The level node computes a root-mean-square per delivery;
//! the spectrum node accumulates samples into windows for a black-box
//! transform that runs outside the library.

use vstd::arithmetic::div_mod::lemma_div_multiples_vanish;
use vstd::prelude::*;

verus! {

// ---------------------------------------------------------------------------
// Integer square root.
// ---------------------------------------------------------------------------
/// `r` is the square root of `n`, rounded down.
pub open spec fn is_sqrt_floor(n: int, r: int) -> bool {
    &&& 0 <= r
    &&& r * r <= n
    &&& n < (r + 1) * (r + 1)
}

/// The square root of `n`, rounded down (meaningful for `n >= 0`).
pub closed spec fn spec_sqrt_floor(n: int) -> int {
    choose|r: int| is_sqrt_floor(n, r)
}

/// Every nonnegative integer has a rounded-down square root.
pub proof fn lemma_sqrt_floor_exists(n: int)
    requires
        n >= 0,
    ensures
        is_sqrt_floor(n, spec_sqrt_floor(n)),
    decreases n,
{
    if n == 0 {
        assert(is_sqrt_floor(0, 0)) by (nonlinear_arith);
    } else {
        lemma_sqrt_floor_exists(n - 1);
        let r = spec_sqrt_floor(n - 1);
        if (r + 1) * (r + 1) <= n {
            assert(n - 1 < (r + 1) * (r + 1));
            assert(is_sqrt_floor(n, r + 1)) by (nonlinear_arith)
                requires
                    r >= 0,
                    (r + 1) * (r + 1) <= n,
                    n - 1 < (r + 1) * (r + 1),
            ;
        } else {
            assert(is_sqrt_floor(n, r)) by (nonlinear_arith)
                requires
                    is_sqrt_floor(n - 1, r),
                    n < (r + 1) * (r + 1),
            ;
        }
        assert(exists|s: int| is_sqrt_floor(n, s));
    }
}

/// The rounded-down square root is unique.
pub proof fn lemma_sqrt_floor_unique(n: int, r: int)
    requires
        is_sqrt_floor(n, r),
    ensures
        spec_sqrt_floor(n) == r,
{
    assert(exists|s: int| is_sqrt_floor(n, s));
    let s = spec_sqrt_floor(n);
    assert(is_sqrt_floor(n, s));
    assert(s == r) by (nonlinear_arith)
        requires
            is_sqrt_floor(n, r),
            is_sqrt_floor(n, s),
    ;
}

/// Square root of a 64-bit value, rounded down, by bisection.
pub fn isqrt(x: u64) -> (r: u64)
    ensures
        r == spec_sqrt_floor(x as int),
        is_sqrt_floor(x as int, r as int),
{
    let mut lo: u64 = 0;
    let mut hi: u64 = 0x1_0000_0000;
    proof {
        assert((x as int) < 0x1_0000_0000int * 0x1_0000_0000int) by (nonlinear_arith)
            requires
                x <= u64::MAX,
        ;
    }
    while hi - lo > 1
        invariant
            lo < hi <= 0x1_0000_0000,
            (lo as int) * (lo as int) <= x as int,
            (x as int) < (hi as int) * (hi as int),
        decreases hi - lo,
    {
        let mid = lo + (hi - lo) / 2;
        proof {
            assert((mid as int) * (mid as int) <= 0xffff_ffffint * 0xffff_ffffint)
                by (nonlinear_arith)
                requires
                    mid <= 0xffff_ffffu64,
            ;
        }
        let sq = mid * mid;
        if sq <= x {
            lo = mid;
        } else {
            hi = mid;
        }
    }
    proof {
        assert(hi == lo + 1);
        lemma_sqrt_floor_unique(x as int, lo as int);
    }
    lo
}

// ---------------------------------------------------------------------------
// The root-mean-square computation, as mathematics.
// ---------------------------------------------------------------------------
/// Sum of the squares of a channel's samples.
pub open spec fn spec_sum_squares(s: Seq<i32>) -> int
    decreases s.len(),
{
    if s.len() == 0 {
        0
    } else {
        s[0] * s[0] + spec_sum_squares(s.drop_first())
    }
}

/// Mean of the squares; a channel with no samples counts as silence.
pub open spec fn spec_mean_square(s: Seq<i32>) -> int {
    if s.len() == 0 {
        0
    } else {
        spec_sum_squares(s) / s.len() as int
    }
}

/// Root-mean-square of one channel, rounded down to an integer.
pub open spec fn spec_channel_rms(s: Seq<i32>) -> int {
    spec_sqrt_floor(spec_mean_square(s))
}

/// Sum of the per-channel root-mean-square values.
pub open spec fn spec_sum_channel_rms(chs: Seq<Seq<i32>>) -> int
    decreases chs.len(),
{
    if chs.len() == 0 {
        0
    } else {
        spec_channel_rms(chs[0]) + spec_sum_channel_rms(chs.drop_first())
    }
}

/// The level of one delivery: per-channel root-mean-square, arithmetic mean
/// across the channels. A delivery with no channels counts as silence.
pub open spec fn spec_rms(chs: Seq<Seq<i32>>) -> int {
    if chs.len() == 0 {
        0
    } else {
        spec_sum_channel_rms(chs) / chs.len() as int
    }
}

/// The sample sequences of a delivery buffer.
pub open spec fn spec_channel_views(b: Seq<Vec<i32>>) -> Seq<Seq<i32>> {
    b.map_values(|v: Vec<i32>| v@)
}

pub proof fn lemma_sum_squares_snoc(s: Seq<i32>, x: i32)
    ensures
        spec_sum_squares(s.push(x)) == spec_sum_squares(s) + x * x,
    decreases s.len(),
{
    if s.len() == 0 {
        assert(s.push(x)[0] == x);
        assert(s.push(x).drop_first() =~= Seq::<i32>::empty());
        assert(spec_sum_squares(Seq::<i32>::empty()) == 0);
        assert(spec_sum_squares(s.push(x)) == x * x);
    } else {
        assert(s.push(x)[0] == s[0]);
        assert(s.push(x).drop_first() =~= s.drop_first().push(x));
        lemma_sum_squares_snoc(s.drop_first(), x);
    }
}

/// The sum of squares of `n` 32-bit samples lies between `0` and `n` times
/// the largest square.
pub proof fn lemma_sum_squares_bounds(s: Seq<i32>)
    ensures
        0 <= spec_sum_squares(s) <= s.len() * 0x4000_0000_0000_0000,
    decreases s.len(),
{
    if s.len() == 0 {
    } else {
        lemma_sum_squares_bounds(s.drop_first());
        assert(0 <= s[0] * s[0] <= 0x4000_0000_0000_0000) by (nonlinear_arith)
            requires
                -0x8000_0000 <= s[0] <= 0x7fff_ffff,
        ;
        assert(s.len() * 0x4000_0000_0000_0000 == (s.len() - 1) * 0x4000_0000_0000_0000
            + 0x4000_0000_0000_0000) by (nonlinear_arith);
    }
}

/// The mean square of 32-bit samples is at most the largest square.
pub proof fn lemma_mean_square_bounds(s: Seq<i32>)
    ensures
        0 <= spec_mean_square(s) <= 0x4000_0000_0000_0000,
{
    lemma_sum_squares_bounds(s);
    if s.len() > 0 {
        assert(0 <= spec_sum_squares(s) / s.len() as int <= 0x4000_0000_0000_0000)
            by (nonlinear_arith)
            requires
                s.len() > 0,
                0 <= spec_sum_squares(s) <= s.len() * 0x4000_0000_0000_0000,
        ;
    }
}

/// A channel's root-mean-square fits in 32 bits.
pub proof fn lemma_channel_rms_bounds(s: Seq<i32>)
    ensures
        0 <= spec_channel_rms(s) <= 0x8000_0000,
{
    lemma_mean_square_bounds(s);
    let m = spec_mean_square(s);
    lemma_sqrt_floor_exists(m);
    let r = spec_sqrt_floor(m);
    assert(r <= 0x8000_0000) by (nonlinear_arith)
        requires
            is_sqrt_floor(m, r),
            m <= 0x4000_0000_0000_0000,
    ;
}

pub proof fn lemma_sum_channel_rms_snoc(chs: Seq<Seq<i32>>, s: Seq<i32>)
    ensures
        spec_sum_channel_rms(chs.push(s)) == spec_sum_channel_rms(chs) + spec_channel_rms(s),
    decreases chs.len(),
{
    if chs.len() == 0 {
        assert(chs.push(s)[0] == s);
        assert(chs.push(s).drop_first() =~= Seq::<Seq<i32>>::empty());
        assert(spec_sum_channel_rms(Seq::<Seq<i32>>::empty()) == 0);
        assert(spec_sum_channel_rms(chs.push(s)) == spec_channel_rms(s));
    } else {
        assert(chs.push(s)[0] == chs[0]);
        assert(chs.push(s).drop_first() =~= chs.drop_first().push(s));
        lemma_sum_channel_rms_snoc(chs.drop_first(), s);
    }
}

pub proof fn lemma_sum_channel_rms_bounds(chs: Seq<Seq<i32>>)
    ensures
        0 <= spec_sum_channel_rms(chs) <= chs.len() * 0x8000_0000,
    decreases chs.len(),
{
    if chs.len() == 0 {
    } else {
        lemma_sum_channel_rms_bounds(chs.drop_first());
        lemma_channel_rms_bounds(chs[0]);
        assert(chs.len() * 0x8000_0000 == (chs.len() - 1) * 0x8000_0000 + 0x8000_0000)
            by (nonlinear_arith);
    }
}

/// The level of a delivery fits in 32 bits.
pub proof fn lemma_rms_bounds(chs: Seq<Seq<i32>>)
    ensures
        0 <= spec_rms(chs) <= 0x8000_0000,
{
    lemma_sum_channel_rms_bounds(chs);
    if chs.len() > 0 {
        assert(0 <= spec_sum_channel_rms(chs) / chs.len() as int <= 0x8000_0000)
            by (nonlinear_arith)
            requires
                chs.len() > 0,
                0 <= spec_sum_channel_rms(chs) <= chs.len() * 0x8000_0000,
        ;
    }
}

// ---------------------------------------------------------------------------
// The RMS node.
// ---------------------------------------------------------------------------
/// Computes one root-mean-square level per delivery. Stateless apart from
/// the last computed value: each `update` replaces the output outright.
pub struct RMS {
    buffer: Vec<i64>,
}

impl View for RMS {
    type V = Seq<i64>;

    /// The node's current output.
    closed spec fn view(&self) -> Seq<i64> {
        self.buffer@
    }
}

impl RMS {
    /// A fresh node; its output is empty until the first delivery.
    pub fn new() -> (r: RMS)
        ensures
            r@ == Seq::<i64>::empty(),
    {
        RMS { buffer: Vec::new() }
    }

    /// Consumes one delivery and replaces the output with its level.
    pub fn update(&mut self, buffer: &Vec<Vec<i32>>)
        ensures
            final(self)@ == seq![spec_rms(spec_channel_views(buffer@)) as i64],
    {
        let ghost views: Seq<Seq<i32>> = spec_channel_views(buffer@);
        let c = buffer.len();
        let mut total: u128 = 0;
        let mut i: usize = 0;
        while i < c
            invariant
                0 <= i <= c,
                c == buffer@.len(),
                views == spec_channel_views(buffer@),
                total == spec_sum_channel_rms(views.take(i as int)),
                total <= i * 0x8000_0000,
            decreases c - i,
        {
            let ch = &buffer[i];
            let m = ch.len();
            let mut sum_sq: u128 = 0;
            let mut j: usize = 0;
            while j < m
                invariant
                    0 <= j <= m,
                    m == ch@.len(),
                    sum_sq == spec_sum_squares(ch@.take(j as int)),
                    sum_sq <= j * 0x4000_0000_0000_0000,
                decreases m - j,
            {
                let x = ch[j];
                proof {
                    assert(0 <= (x as int) * (x as int) <= 0x4000_0000_0000_0000)
                        by (nonlinear_arith)
                        requires
                            -0x8000_0000 <= x <= 0x7fff_ffff,
                    ;
                    assert((j + 1) * 0x4000_0000_0000_0000 == j * 0x4000_0000_0000_0000
                        + 0x4000_0000_0000_0000) by (nonlinear_arith);
                    lemma_sum_squares_snoc(ch@.take(j as int), x);
                    assert(ch@.take(j + 1) =~= ch@.take(j as int).push(x));
                }
                let xx: i64 = (x as i64) * (x as i64);
                sum_sq = sum_sq + (xx as u128);
                j = j + 1;
            }
            proof {
                assert(ch@.take(m as int) =~= ch@);
            }
            let mean: u64 = if m == 0 {
                0
            } else {
                proof {
                    assert(sum_sq as int / m as int <= 0x4000_0000_0000_0000)
                        by (nonlinear_arith)
                        requires
                            m > 0,
                            sum_sq <= m * 0x4000_0000_0000_0000,
                    ;
                    assert(sum_sq as int / m as int >= 0) by (nonlinear_arith)
                        requires
                            m > 0,
                            sum_sq >= 0,
                    ;
                }
                (sum_sq / (m as u128)) as u64
            };
            proof {
                assert(mean == spec_mean_square(ch@));
            }
            let r = isqrt(mean);
            proof {
                assert(r == spec_channel_rms(ch@));
                lemma_channel_rms_bounds(ch@);
                assert((i + 1) * 0x8000_0000 == i * 0x8000_0000 + 0x8000_0000)
                    by (nonlinear_arith);
                lemma_sum_channel_rms_snoc(views.take(i as int), ch@);
                assert(views.take(i + 1) =~= views.take(i as int).push(ch@));
                assert(views[i as int] == ch@);
            }
            total = total + (r as u128);
            i = i + 1;
        }
        proof {
            assert(views.take(c as int) =~= views);
        }
        let rms_val: u64 = if c == 0 {
            0
        } else {
            proof {
                assert(0 <= total as int / c as int <= 0x8000_0000) by (nonlinear_arith)
                    requires
                        c > 0,
                        0 <= total <= c * 0x8000_0000,
                ;
            }
            (total / (c as u128)) as u64
        };
        proof {
            assert(rms_val == spec_rms(views));
        }
        let mut out: Vec<i64> = Vec::new();
        out.push(rms_val as i64);
        self.buffer = out;
        proof {
            assert(self@ =~= seq![spec_rms(views) as i64]);
        }
    }

    /// The most recent level, or nothing before the first delivery.
    pub fn output(&self) -> (r: &Vec<i64>)
        ensures
            r@ == self@,
    {
        &self.buffer
    }
}

/// The level of a constant signal is its magnitude, exactly: a buffer of
/// `k` copies of `v` on one channel has root-mean-square `|v|`.
pub proof fn lemma_rms_constant(v: i32, k: nat)
    requires
        k >= 1,
    ensures
        spec_rms(seq![Seq::new(k, |i: int| v)]) == vstd::math::abs(v as int),
{
    let s = Seq::new(k, |i: int| v);
    lemma_sum_squares_constant(v, k);
    assert(spec_sum_squares(s) == k * (v * v));
    lemma_div_multiples_vanish(v * v, k as int);
    assert(spec_mean_square(s) == v * v);
    let a: int = vstd::math::abs(v as int) as int;
    assert(is_sqrt_floor(v * v, a)) by (nonlinear_arith)
        requires
            a == vstd::math::abs(v as int),
            -0x8000_0000 <= v <= 0x7fff_ffff,
    ;
    lemma_sqrt_floor_unique(v * v, a);
    let chs = seq![s];
    assert(chs[0] == s);
    assert(chs.drop_first() =~= Seq::<Seq<i32>>::empty());
    assert(spec_sum_channel_rms(Seq::<Seq<i32>>::empty()) == 0);
    assert(spec_sum_channel_rms(chs) == a);
    assert(spec_rms(chs) == a / 1);
}

pub proof fn lemma_sum_squares_constant(v: i32, k: nat)
    ensures
        spec_sum_squares(Seq::new(k, |i: int| v)) == k * (v * v),
    decreases k,
{
    let s = Seq::new(k, |i: int| v);
    if k == 0 {
        assert(s.len() == 0);
    } else {
        lemma_sum_squares_constant(v, (k - 1) as nat);
        assert(s.drop_first() =~= Seq::new((k - 1) as nat, |i: int| v));
        assert(s[0] == v);
        assert(k * (v * v) == (k - 1) * (v * v) + v * v) by (nonlinear_arith);
    }
}

// ---------------------------------------------------------------------------
// The FFT node.
// ---------------------------------------------------------------------------
/// The lowest frequency of interest (about C2). A window must be long
/// enough that half a period of it always fits.
pub const LOWEST_FREQ_HZ: u32 = 65;

/// The minimum window: enough samples at the given rate for the lowest
/// frequency of interest, with margin for any phase offset.
pub open spec fn spec_min_window(samplerate: u32) -> int {
    samplerate as int / (LOWEST_FREQ_HZ as int / 2)
}

/// The first channel of a delivery; what the spectrum node accumulates.
pub open spec fn spec_added_samples(b: Seq<Vec<i32>>) -> Seq<i32> {
    if b.len() > 0 {
        b[0]@
    } else {
        Seq::empty()
    }
}

/// One accumulation step of the spectrum node: the new internal buffer and,
/// once the accumulated samples reach the minimum window, the full window
/// handed out for transformation.
pub open spec fn spec_fft_step(cache: Seq<i32>, added: Seq<i32>, samplerate: u32) -> (
    Seq<i32>,
    Option<Seq<i32>>,
) {
    let acc = cache + added;
    if acc.len() >= spec_min_window(samplerate) {
        (Seq::empty(), Some(acc))
    } else {
        (acc, None)
    }
}

/// The mathematical image of the spectrum node: its current output and its
/// accumulation buffer.
#[verifier::ext_equal]
pub struct FFTView {
    pub output: Seq<i64>,
    pub cache: Seq<i32>,
}

/// Accumulates samples across deliveries; each time the accumulated window
/// reaches the minimum size it is handed out whole for a black-box
/// transform, and the internal buffer starts over empty. The output is
/// whatever spectrum was last stored — empty until the first window has
/// been transformed, and refreshed once per window, not per delivery.
pub struct FFT {
    buffer: Vec<i64>,
    cache_buffer: Vec<i32>,
}

impl View for FFT {
    type V = FFTView;

    closed spec fn view(&self) -> FFTView {
        FFTView { output: self.buffer@, cache: self.cache_buffer@ }
    }
}

impl FFT {
    /// A fresh node: empty output, empty accumulation buffer.
    pub fn new() -> (r: FFT)
        ensures
            r@.output == Seq::<i64>::empty(),
            r@.cache == Seq::<i32>::empty(),
    {
        FFT { buffer: Vec::new(), cache_buffer: Vec::new() }
    }

    /// Consumes one delivery: the first channel's samples join the internal
    /// buffer, and once the buffer reaches the minimum window it is returned
    /// whole (and cleared) for the caller to transform. The output is not
    /// touched; it changes only when a transformed window is stored.
    pub fn update(&mut self, buffer: &Vec<Vec<i32>>, samplerate: u32) -> (w: Option<Vec<i32>>)
        ensures
            ({
                let (c2, wspec) = spec_fft_step(
                    old(self)@.cache,
                    spec_added_samples(buffer@),
                    samplerate,
                );
                &&& final(self)@.cache == c2
                &&& final(self)@.output == old(self)@.output
                &&& (match (w, wspec) {
                    (Some(v), Some(s)) => v@ == s,
                    (None, None) => true,
                    _ => false,
                })
            }),
    {
        if buffer.len() > 0 {
            self.cache_buffer.extend_from_slice(buffer[0].as_slice());
        }
        proof {
            assert(self.cache_buffer@ == old(self)@.cache + spec_added_samples(buffer@));
        }
        let min_w = (samplerate / (LOWEST_FREQ_HZ / 2)) as usize;
        if self.cache_buffer.len() >= min_w {
            let mut window: Vec<i32> = Vec::new();
            core::mem::swap(&mut window, &mut self.cache_buffer);
            Some(window)
        } else {
            None
        }
    }

    /// Stores the transformed spectrum of a window handed out by `update`.
    pub fn store_spectrum(&mut self, spectrum: Vec<i64>)
        ensures
            final(self)@.output == spectrum@,
            final(self)@.cache == old(self)@.cache,
    {
        self.buffer = spectrum;
    }

    /// The most recent spectrum, or nothing before the first full window.
    pub fn output(&self) -> (r: &Vec<i64>)
        ensures
            r@ == self@.output,
    {
        &self.buffer
    }
}

/// The windowing law of the spectrum node: deliveries accumulate and
/// produce no window while the accumulated samples stay under the minimum
/// window; the delivery that reaches it hands out every accumulated sample
/// as one window and leaves the internal buffer empty. Together with
/// `FFT::update`'s postcondition that the output is untouched, the output
/// stays empty until the first full window has been transformed and stored.
pub proof fn lemma_fft_window_law(cache: Seq<i32>, added: Seq<i32>, samplerate: u32)
    ensures
        cache.len() + added.len() < spec_min_window(samplerate) ==> spec_fft_step(
            cache,
            added,
            samplerate,
        ) == (cache + added, None::<Seq<i32>>),
        cache.len() + added.len() >= spec_min_window(samplerate) ==> {
            let (c2, w) = spec_fft_step(cache, added, samplerate);
            &&& c2 == Seq::<i32>::empty()
            &&& w == Some(cache + added)
            &&& w->Some_0.len() == cache.len() + added.len()
        },
{
}

// ---------------------------------------------------------------------------
// The closed set of node implementations, as a tagged variant.
// ---------------------------------------------------------------------------
/// A node a chain can deliver buffers to. The set of implementations is
/// fixed and dispatch goes by the variant tag.
pub enum Chainable {
    RMS(RMS),
    FFT(FFT),
}

/// The mathematical image of a node.
#[verifier::ext_equal]
pub enum ChainableView {
    RMS(Seq<i64>),
    FFT(FFTView),
}

impl View for Chainable {
    type V = ChainableView;

    open spec fn view(&self) -> ChainableView {
        match self {
            Chainable::RMS(r) => ChainableView::RMS(r@),
            Chainable::FFT(f) => ChainableView::FFT(f@),
        }
    }
}

/// A node's current output.
pub open spec fn spec_node_output(n: ChainableView) -> Seq<i64> {
    match n {
        ChainableView::RMS(out) => out,
        ChainableView::FFT(f) => f.output,
    }
}

/// What one delivery does to a node: the node afterwards, and the full
/// window a spectrum node hands out when the delivery completes one.
pub open spec fn spec_node_step(
    n: ChainableView,
    chs: Seq<Seq<i32>>,
    added: Seq<i32>,
    samplerate: u32,
) -> (ChainableView, Option<Seq<i32>>) {
    match n {
        ChainableView::RMS(_) => (ChainableView::RMS(seq![spec_rms(chs) as i64]), None),
        ChainableView::FFT(f) => {
            let (c2, w) = spec_fft_step(f.cache, added, samplerate);
            (ChainableView::FFT(FFTView { output: f.output, cache: c2 }), w)
        },
    }
}

/// What storing a transformed window does to a node: a spectrum node takes
/// it as its output, any other node ignores it.
pub open spec fn spec_node_store(n: ChainableView, spectrum: Seq<i64>) -> ChainableView {
    match n {
        ChainableView::RMS(out) => ChainableView::RMS(out),
        ChainableView::FFT(f) => ChainableView::FFT(FFTView { output: spectrum, cache: f.cache }),
    }
}

impl Chainable {
    /// Consumes one delivery; a spectrum node may hand out a full window
    /// for the caller to transform.
    pub fn update(&mut self, buffer: &Vec<Vec<i32>>, samplerate: u32) -> (w: Option<Vec<i32>>)
        ensures
            ({
                let (n2, wspec) = spec_node_step(
                    old(self)@,
                    spec_channel_views(buffer@),
                    spec_added_samples(buffer@),
                    samplerate,
                );
                &&& final(self)@ == n2
                &&& (match (w, wspec) {
                    (Some(v), Some(s)) => v@ == s,
                    (None, None) => true,
                    _ => false,
                })
            }),
    {
        match self {
            Chainable::RMS(r) => {
                r.update(buffer);
                None
            },
            Chainable::FFT(f) => f.update(buffer, samplerate),
        }
    }

    /// Stores a transformed window into a spectrum node; other nodes ignore
    /// it.
    pub fn store_spectrum(&mut self, spectrum: Vec<i64>)
        ensures
            final(self)@ == spec_node_store(old(self)@, spectrum@),
    {
        match self {
            Chainable::RMS(_) => {},
            Chainable::FFT(f) => f.store_spectrum(spectrum),
        }
    }

    /// The node's most recent result, or an empty sequence if not enough
    /// data has accumulated yet.
    pub fn output(&self) -> (r: &Vec<i64>)
        ensures
            r@ == spec_node_output(self@),
    {
        match self {
            Chainable::RMS(r) => r.output(),
            Chainable::FFT(f) => f.output(),
        }
    }
}

} // verus!
