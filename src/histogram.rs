use vstd::prelude::*;

verus! {

/// Number of bins of one channel: one per 8-bit intensity.
pub const BINS: usize = 256;

/// Number of color channels counted per image (red, green, blue).
pub const CHANNELS: usize = 3;

/// Per-intensity pixel counts of one color channel.
#[derive(Debug, Clone, Copy)]
pub struct Histogram(pub [u32; 256]);

impl View for Histogram {
    type V = Seq<u32>;

    open spec fn view(&self) -> Seq<u32> {
        self.0@
    }
}

/// One histogram per color channel.
#[derive(Debug, Clone)]
pub struct RgbHistogram(pub Vec<Histogram>);

impl View for RgbHistogram {
    type V = Seq<Seq<u32>>;

    open spec fn view(&self) -> Seq<Seq<u32>> {
        self.0@.map_values(|h: Histogram| h@)
    }
}

/// |x - y| over the integers.
pub open spec fn abs_diff(x: u32, y: u32) -> nat {
    if x >= y {
        (x - y) as nat
    } else {
        (y - x) as nat
    }
}

/// Sum of |a[k] - b[k]| over the first `n` bins.
pub open spec fn bins_l1(a: Seq<u32>, b: Seq<u32>, n: int) -> nat
    decreases n,
{
    if n <= 0 {
        0
    } else {
        bins_l1(a, b, n - 1) + abs_diff(a[n - 1], b[n - 1])
    }
}

/// Sum of the per-channel L1 distances over the first `n` channels.
pub open spec fn channels_l1(a: Seq<Seq<u32>>, b: Seq<Seq<u32>>, n: int) -> nat
    decreases n,
{
    if n <= 0 {
        0
    } else {
        channels_l1(a, b, n - 1) + bins_l1(a[n - 1], b[n - 1], BINS as int)
    }
}

/// The L1 distance between two channel lists, capped at the largest `u64`;
/// lists with different channel counts are as far apart as can be.
pub open spec fn distance(a: Seq<Seq<u32>>, b: Seq<Seq<u32>>) -> int {
    if a.len() != b.len() {
        u64::MAX as int
    } else if channels_l1(a, b, a.len() as int) >= u64::MAX {
        u64::MAX as int
    } else {
        channels_l1(a, b, a.len() as int) as int
    }
}

/// Number of the first `n` pixels of an interleaved RGB buffer whose
/// channel `c` holds the intensity `v`.
pub open spec fn pixel_count(pixels: Seq<u8>, c: int, v: int, n: int) -> nat
    decreases n,
{
    if n <= 0 {
        0
    } else {
        pixel_count(pixels, c, v, n - 1) + if pixels[CHANNELS * (n - 1) + c] == v {
            1nat
        } else {
            0nat
        }
    }
}

/// Number of whole pixels of an interleaved RGB buffer.
pub open spec fn pixel_total(pixels: Seq<u8>) -> int {
    pixels.len() as int / CHANNELS as int
}

/// The histograms of an interleaved RGB buffer: one per channel, each bin
/// counting the pixels of that intensity.
pub open spec fn is_histogram_of(h: Seq<Seq<u32>>, pixels: Seq<u8>) -> bool {
    &&& h.len() == CHANNELS
    &&& forall|c: int| 0 <= c < CHANNELS ==> (#[trigger] h[c]).len() == BINS
    &&& forall|c: int, v: int|
        0 <= c < CHANNELS && 0 <= v < BINS ==> #[trigger] h[c][v] == pixel_count(
            pixels,
            c,
            v,
            pixel_total(pixels),
        )
}

impl Histogram {
    /// Counts the intensities of channel `channel` over the pixels of an
    /// interleaved RGB buffer.
    pub fn of_channel(pixels: &Vec<u8>, channel: usize) -> (r: Histogram)
        requires
            channel < CHANNELS,
            pixels@.len() as int % CHANNELS as int == 0,
            pixel_total(pixels@) <= u32::MAX,
        ensures
            forall|v: int|
                0 <= v < BINS ==> #[trigger] r@[v] == pixel_count(
                    pixels@,
                    channel as int,
                    v,
                    pixel_total(pixels@),
                ),
    {
        let len: usize = pixels.len();
        let n: usize = len / CHANNELS;
        assert(pixels@.len() == CHANNELS * n) by (nonlinear_arith)
            requires
                n == pixels@.len() as int / CHANNELS as int,
                pixels@.len() as int % CHANNELS as int == 0,
        ;
        let mut counts: [u32; 256] = [0u32; 256];
        let mut k: usize = 0;
        while k < n
            invariant
                n == pixel_total(pixels@),
                pixels@.len() == CHANNELS * n,
                len == pixels@.len(),
                n <= u32::MAX,
                channel < CHANNELS,
                k <= n,
                forall|v: int|
                    0 <= v < BINS ==> #[trigger] counts@[v] == pixel_count(
                        pixels@,
                        channel as int,
                        v,
                        k as int,
                    ),
                forall|v: int| 0 <= v < BINS ==> #[trigger] counts@[v] <= k,
            decreases n - k,
        {
            assert(CHANNELS * k + channel < CHANNELS * n) by (nonlinear_arith)
                requires
                    k < n,
                    channel < CHANNELS,
            ;
            let idx: usize = CHANNELS * k + channel;
            let value: usize = pixels[idx] as usize;
            let old_counts = counts;
            let c: u32 = counts[value];
            counts[value] = c + 1;
            assert forall|v: int| 0 <= v < BINS implies #[trigger] counts@[v] == pixel_count(
                pixels@,
                channel as int,
                v,
                k + 1,
            ) by {
                assert(pixel_count(pixels@, channel as int, v, k + 1) == pixel_count(
                    pixels@,
                    channel as int,
                    v,
                    k as int,
                ) + if pixels@[CHANNELS * k + channel] == v {
                    1nat
                } else {
                    0nat
                });
                if v != value {
                    assert(counts@[v] == old_counts@[v]);
                }
            }
            assert forall|v: int| 0 <= v < BINS implies #[trigger] counts@[v] <= k + 1 by {
                if v != value {
                    assert(counts@[v] == old_counts@[v]);
                }
            }
            k = k + 1;
        }
        Histogram(counts)
    }
}

/// The absolute difference of two counts, widened so that it cannot wrap.
fn bin_difference(a: u32, b: u32) -> (r: u64)
    ensures
        r == abs_diff(a, b),
{
    if a >= b {
        (a - b) as u64
    } else {
        (b - a) as u64
    }
}

impl RgbHistogram {
    /// The histograms of an interleaved RGB buffer (three bytes per pixel).
    pub fn from_pixels(pixels: &Vec<u8>) -> (r: RgbHistogram)
        requires
            pixels@.len() as int % CHANNELS as int == 0,
            pixel_total(pixels@) <= u32::MAX,
        ensures
            is_histogram_of(r@, pixels@),
    {
        let mut channels: Vec<Histogram> = Vec::new();
        let mut c: usize = 0;
        while c < CHANNELS
            invariant
                c <= CHANNELS,
                pixels@.len() as int % CHANNELS as int == 0,
                pixel_total(pixels@) <= u32::MAX,
                channels@.len() == c,
                forall|i: int, v: int|
                    0 <= i < c && 0 <= v < BINS ==> #[trigger] channels@[i]@[v] == pixel_count(
                        pixels@,
                        i,
                        v,
                        pixel_total(pixels@),
                    ),
            decreases CHANNELS - c,
        {
            let h = Histogram::of_channel(pixels, c);
            channels.push(h);
            c = c + 1;
        }
        let r = RgbHistogram(channels);
        assert forall|i: int| 0 <= i < CHANNELS implies (#[trigger] r@[i]).len() == BINS by {
            assert(r@[i] == channels@[i]@);
        }
        r
    }

    /// Number of channels.
    pub fn len(&self) -> (r: usize)
        ensures
            r == self@.len(),
    {
        self.0.len()
    }

    /// L1 distance between two histogram sets: the sum over every channel
    /// and every bin of the absolute difference of the counts. The sum
    /// saturates at the largest `u64`, which is also the answer when the
    /// channel counts differ.
    pub fn diff(&self, other: &RgbHistogram) -> (r: u64)
        ensures
            r == distance(self@, other@),
    {
        if self.0.len() != other.0.len() {
            return u64::MAX;
        }
        let n: usize = self.0.len();
        let mut total: u64 = 0;
        let mut c: usize = 0;
        while c < n
            invariant
                n == self@.len(),
                n == other@.len(),
                c <= n,
                total == if channels_l1(self@, other@, c as int) >= u64::MAX {
                    u64::MAX as int
                } else {
                    channels_l1(self@, other@, c as int) as int
                },
            decreases n - c,
        {
            let a: &[u32; 256] = &self.0[c].0;
            let b: &[u32; 256] = &other.0[c].0;
            assert(a@ == self@[c as int]);
            assert(b@ == other@[c as int]);
            let mut k: usize = 0;
            while k < BINS
                invariant
                    k <= BINS,
                    c < n,
                    n == self@.len(),
                    n == other@.len(),
                    a@ == self@[c as int],
                    b@ == other@[c as int],
                    total == if channels_l1(self@, other@, c as int) + bins_l1(a@, b@, k as int)
                        >= u64::MAX {
                        u64::MAX as int
                    } else {
                        (channels_l1(self@, other@, c as int) + bins_l1(a@, b@, k as int)) as int
                    },
                decreases BINS - k,
            {
                let d: u64 = bin_difference(a[k], b[k]);
                total = total.saturating_add(d);
                k = k + 1;
            }
            c = c + 1;
        }
        total
    }
}

/// A bin list is at distance zero from itself.
pub proof fn lemma_bins_self(a: Seq<u32>, n: int)
    ensures
        bins_l1(a, a, n) == 0,
    decreases n,
{
    if n > 0 {
        lemma_bins_self(a, n - 1);
    }
}

/// The per-bin sum does not depend on the order of its two arguments.
pub proof fn lemma_bins_symmetric(a: Seq<u32>, b: Seq<u32>, n: int)
    ensures
        bins_l1(a, b, n) == bins_l1(b, a, n),
    decreases n,
{
    if n > 0 {
        lemma_bins_symmetric(a, b, n - 1);
    }
}

/// Every histogram set is at distance zero from itself.
pub proof fn lemma_distance_to_self_is_zero(h: Seq<Seq<u32>>)
    ensures
        distance(h, h) == 0,
{
    lemma_channels_self(h, h.len() as int);
}

proof fn lemma_channels_self(h: Seq<Seq<u32>>, n: int)
    ensures
        channels_l1(h, h, n) == 0,
    decreases n,
{
    if n > 0 {
        lemma_channels_self(h, n - 1);
        lemma_bins_self(h[n - 1], BINS as int);
    }
}

proof fn lemma_channels_symmetric(a: Seq<Seq<u32>>, b: Seq<Seq<u32>>, n: int)
    ensures
        channels_l1(a, b, n) == channels_l1(b, a, n),
    decreases n,
{
    if n > 0 {
        lemma_channels_symmetric(a, b, n - 1);
        lemma_bins_symmetric(a[n - 1], b[n - 1], BINS as int);
    }
}

/// The distance is symmetric: comparing `a` with `b` gives what comparing
/// `b` with `a` gives.
pub proof fn lemma_distance_symmetric(a: Seq<Seq<u32>>, b: Seq<Seq<u32>>)
    ensures
        distance(a, b) == distance(b, a),
{
    lemma_channels_symmetric(a, b, a.len() as int);
}

proof fn lemma_bins_one_apart(a: Seq<u32>, b: Seq<u32>, p: int, n: int)
    requires
        a.len() == b.len(),
        0 <= p < a.len(),
        n <= a.len(),
        forall|k: int| 0 <= k < a.len() && k != p ==> a[k] == b[k],
    ensures
        bins_l1(a, b, n) == if p < n {
            abs_diff(a[p], b[p])
        } else {
            0
        },
    decreases n,
{
    if n > 0 {
        lemma_bins_one_apart(a, b, p, n - 1);
    }
}

proof fn lemma_channels_one_apart(a: Seq<Seq<u32>>, b: Seq<Seq<u32>>, c: int, n: int)
    requires
        a.len() == b.len(),
        0 <= c < a.len(),
        n <= a.len(),
        forall|i: int| 0 <= i < a.len() && i != c ==> a[i] == b[i],
    ensures
        channels_l1(a, b, n) == if c < n {
            bins_l1(a[c], b[c], BINS as int)
        } else {
            0
        },
    decreases n,
{
    if n > 0 {
        lemma_channels_one_apart(a, b, c, n - 1);
        if n - 1 != c {
            lemma_bins_self(a[n - 1], BINS as int);
        }
    }
}

/// The contribution of a bin is exactly the absolute difference of its two
/// counts: two histogram sets that differ in a single bin are exactly that
/// far apart, never a wrapped-around value.
pub proof fn lemma_single_bin_contribution(a: Seq<Seq<u32>>, b: Seq<Seq<u32>>, c: int, v: int)
    requires
        a.len() == b.len(),
        forall|i: int| 0 <= i < a.len() ==> (#[trigger] a[i]).len() == BINS,
        forall|i: int| 0 <= i < b.len() ==> (#[trigger] b[i]).len() == BINS,
        0 <= c < a.len(),
        0 <= v < BINS,
        forall|i: int| 0 <= i < a.len() && i != c ==> a[i] == b[i],
        forall|k: int| 0 <= k < BINS && k != v ==> a[c][k] == b[c][k],
    ensures
        distance(a, b) == abs_diff(a[c][v], b[c][v]),
{
    lemma_channels_one_apart(a, b, c, a.len() as int);
    lemma_bins_one_apart(a[c], b[c], v, BINS as int);
}


/// Sum of the first `k` bins.
pub open spec fn bins_sum(h: Seq<u32>, k: int) -> nat
    decreases k,
{
    if k <= 0 {
        0
    } else {
        bins_sum(h, k - 1) + h[k - 1] as nat
    }
}

/// Sum over the intensities below `k` of the pixels, among the first `n`,
/// whose channel `c` has that intensity.
spec fn counts_sum(pixels: Seq<u8>, c: int, n: int, k: int) -> nat
    decreases k,
{
    if k <= 0 {
        0
    } else {
        counts_sum(pixels, c, n, k - 1) + pixel_count(pixels, c, k - 1, n)
    }
}

proof fn lemma_counts_sum_step(pixels: Seq<u8>, c: int, n: int, k: int)
    requires
        n >= 1,
    ensures
        counts_sum(pixels, c, n, k) == counts_sum(pixels, c, n - 1, k) + if pixels[CHANNELS * (n
            - 1) + c] < k {
            1nat
        } else {
            0nat
        },
    decreases k,
{
    if k > 0 {
        lemma_counts_sum_step(pixels, c, n, k - 1);
    }
}

proof fn lemma_counts_sum_total(pixels: Seq<u8>, c: int, n: int)
    requires
        n >= 0,
    ensures
        counts_sum(pixels, c, n, BINS as int) == n,
    decreases n,
{
    if n == 0 {
        lemma_counts_sum_empty(pixels, c, BINS as int);
    } else {
        lemma_counts_sum_total(pixels, c, n - 1);
        lemma_counts_sum_step(pixels, c, n, BINS as int);
    }
}

proof fn lemma_counts_sum_empty(pixels: Seq<u8>, c: int, k: int)
    ensures
        counts_sum(pixels, c, 0, k) == 0,
    decreases k,
{
    if k > 0 {
        lemma_counts_sum_empty(pixels, c, k - 1);
    }
}

proof fn lemma_bins_match_counts(h: Seq<u32>, pixels: Seq<u8>, c: int, k: int)
    requires
        0 <= k <= BINS,
        forall|v: int| 0 <= v < BINS ==> h[v] == pixel_count(pixels, c, v, pixel_total(pixels)),
    ensures
        bins_sum(h, k) == counts_sum(pixels, c, pixel_total(pixels), k),
    decreases k,
{
    if k > 0 {
        lemma_bins_match_counts(h, pixels, c, k - 1);
    }
}

/// Every channel of a histogram counts each pixel once: its bins add up to
/// the number of pixels.
pub proof fn lemma_bins_add_up_to_pixel_count(h: Seq<Seq<u32>>, pixels: Seq<u8>, c: int)
    requires
        is_histogram_of(h, pixels),
        0 <= c < CHANNELS,
    ensures
        bins_sum(h[c], BINS as int) == pixel_total(pixels),
{
    assert forall|v: int| 0 <= v < BINS implies h[c][v] == pixel_count(
        pixels,
        c,
        v,
        pixel_total(pixels),
    ) by {}
    lemma_bins_match_counts(h[c], pixels, c, BINS as int);
    lemma_counts_sum_total(pixels, c, pixel_total(pixels));
}
} // verus!
