//! Planning how a clip is cut into analysis frames, fixed windows, batches and
//! stride subsamples. Everything here works on lengths and positions only; the
//! callers copy the samples.

use vstd::prelude::*;

verus! {

/// Number of real samples per analysis frame.
pub const FRAME_SIZE: usize = 1024;

/// Number of usable magnitude bins of a frame (DC up to just below Nyquist).
pub const NUM_BINS: usize = 512;

/// Hop between successive analysis frames (50% overlap).
pub const HOP: usize = 512;

/// Start offsets of the analysis frames of a clip of `len` samples: none for an
/// empty clip, one zero-padded frame at 0 for a clip shorter than a frame, and
/// otherwise every multiple of [`HOP`] at which a whole frame fits.
pub open spec fn frame_offsets_spec(len: nat) -> Seq<usize> {
    if len == 0 {
        Seq::empty()
    } else if len < FRAME_SIZE {
        seq![0usize]
    } else {
        Seq::new(
            ((len - FRAME_SIZE) as int / (HOP as int) + 1) as nat,
            |k: int| (k * HOP as int) as usize,
        )
    }
}

/// Start offsets of the analysis frames of a clip of `len` samples.
pub fn frame_offsets(len: usize) -> (r: Vec<usize>)
    ensures
        r@ == frame_offsets_spec(len as nat),
{
    let mut out: Vec<usize> = Vec::new();
    if len == 0 {
        return out;
    }
    if len < FRAME_SIZE {
        out.push(0);
        proof {
            assert(out@ =~= seq![0usize]);
        }
        return out;
    }
    let mut start: usize = 0;
    let ghost mut k: int = 0;
    while start <= len - FRAME_SIZE
        invariant
            FRAME_SIZE <= len,
            start == k * HOP,
            0 <= k,
            start <= len - FRAME_SIZE + HOP,
            out@ =~= Seq::new(k as nat, |j: int| (j * HOP as int) as usize),
        decreases len - start,
    {
        out.push(start);
        start = start + HOP;
        proof {
            k = k + 1;
        }
    }
    proof {
        assert(k == (len - FRAME_SIZE) as int / (HOP as int) + 1);
    }
    out
}

/// Law: every planned frame of a clip at least a frame long lies inside the
/// clip, consecutive frames are one hop apart, and the frames reach to within
/// a hop of the clip's end.
pub proof fn lemma_frames_fit_and_cover(len: nat)
    requires
        FRAME_SIZE <= len <= usize::MAX,
    ensures
        ({
            let f = frame_offsets_spec(len);
            &&& f.len() >= 1
            &&& f[0] == 0
            &&& forall|k: int| 0 <= k < f.len() ==> #[trigger] f[k] + FRAME_SIZE <= len
            &&& forall|k: int| 0 < k < f.len() ==> #[trigger] f[k] == f[k - 1] + HOP
            &&& f[f.len() - 1] + FRAME_SIZE + HOP > len
        }),
{
    let f = frame_offsets_spec(len);
    let m = (len - FRAME_SIZE) as int / (HOP as int);
    assert(f.len() == m + 1);
    assert(m * HOP as int + HOP as int > (len - FRAME_SIZE) as int) by (nonlinear_arith)
        requires
            m == (len - FRAME_SIZE) as int / (HOP as int),
            HOP == 512,
    ;
    assert(m * HOP as int <= (len - FRAME_SIZE) as int) by (nonlinear_arith)
        requires
            m == (len - FRAME_SIZE) as int / (HOP as int),
            HOP == 512,
    ;
    assert forall|k: int| 0 <= k < f.len() implies #[trigger] f[k] + FRAME_SIZE <= len by {
        assert(k <= m);
        assert(k * HOP as int <= m * HOP as int);
    }
    assert forall|k: int| 0 < k < f.len() implies #[trigger] f[k] == f[k - 1] + HOP by {
        assert(k * HOP as int <= m * HOP as int);
    }
    assert(f[m] == m * HOP as int);
}

/// Non-overlapping windows `(start, end)` of `win` samples cut from a clip of
/// `len` samples: every whole window; or, when not even one fits, the whole
/// clip as a single window provided it holds at least half a window.
pub open spec fn clip_windows_spec(len: nat, win: nat) -> Seq<(usize, usize)> {
    let n_full = len as int / win as int;
    if n_full > 0 {
        Seq::new(
            n_full as nat,
            |w: int| ((w * win) as usize, (w * win + win) as usize),
        )
    } else if len > 0 && len >= win as int / 2 {
        seq![(0usize, len as usize)]
    } else {
        Seq::empty()
    }
}

/// Plan the fixed-length windows of a clip (`win > 0`).
pub fn clip_windows(len: usize, win: usize) -> (r: Vec<(usize, usize)>)
    requires
        win > 0,
    ensures
        r@ == clip_windows_spec(len as nat, win as nat),
        forall|k: int| 0 <= k < r@.len() ==> #[trigger] r@[k].0 < r@[k].1 <= len,
{
    let n_full = len / win;
    let mut out: Vec<(usize, usize)> = Vec::new();
    let mut w: usize = 0;
    while w < n_full
        invariant
            win > 0,
            n_full == len / win,
            w <= n_full,
            out@ =~= Seq::new(
                w as nat,
                |j: int| ((j * win) as usize, (j * win + win) as usize),
            ),
            forall|k: int| 0 <= k < out@.len() ==> #[trigger] out@[k].0 < out@[k].1 <= len,
        decreases n_full - w,
    {
        proof {
            assert(w * win + win <= len) by (nonlinear_arith)
                requires
                    w < n_full,
                    n_full == len / win,
                    win > 0,
            ;
        }
        let start = w * win;
        out.push((start, start + win));
        w = w + 1;
    }
    if n_full == 0 && len >= win / 2 && len > 0 {
        out.push((0, len));
        proof {
            assert(out@ =~= seq![(0usize, len)]);
        }
    }
    out
}

/// Law: the planned windows do not overlap and appear in order.
pub proof fn lemma_clip_windows_disjoint(len: nat, win: nat)
    requires
        win > 0,
        len <= usize::MAX,
    ensures
        forall|a: int, b: int|
            0 <= a < b < clip_windows_spec(len, win).len() ==> clip_windows_spec(len, win)[a].1
                <= clip_windows_spec(len, win)[b].0,
{
    let n_full = len as int / win as int;
    assert forall|a: int, b: int|
        0 <= a < b < clip_windows_spec(len, win).len() implies clip_windows_spec(len, win)[a].1
        <= clip_windows_spec(len, win)[b].0 by {
        if n_full > 0 {
            assert(b * win + win <= len) by (nonlinear_arith)
                requires
                    b < n_full,
                    n_full == len as int / win as int,
                    win > 0,
            ;
            assert(a * win + win <= b * win) by (nonlinear_arith)
                requires
                    a < b,
                    win > 0,
            ;
        }
    }
}

/// The stride used to thin `n` items down to at most `max` (0 = no cap):
/// `ceil(n / max)` when there are too many items, else 1.
pub open spec fn subsample_stride(n: nat, max: nat) -> nat {
    if max > 0 && n > max {
        (n as int / max as int + if n as int % max as int != 0 { 1int } else { 0 }) as nat
    } else {
        1
    }
}

/// How many items a stride subsample keeps.
pub open spec fn subsample_count(n: nat, max: nat) -> nat {
    let s = subsample_stride(n, max) as int;
    let c = n as int / s + if n as int % s != 0 { 1int } else { 0 };
    if max > 0 && c > max {
        max
    } else {
        c as nat
    }
}

/// Deterministic stride subsample of `n` items to at most `max` (0 keeps all):
/// positions `0, s, 2s, ...` for the stride `s`, capped at `max` items.
pub open spec fn stride_subsample_spec(n: nat, max: nat) -> Seq<usize> {
    Seq::new(subsample_count(n, max), |i: int| (i * subsample_stride(n, max)) as usize)
}

/// Positions kept by a deterministic stride subsample of `n` items.
pub fn stride_subsample(n: usize, max: usize) -> (r: Vec<usize>)
    ensures
        r@ == stride_subsample_spec(n as nat, max as nat),
        forall|k: int| 0 <= k < r@.len() ==> #[trigger] r@[k] < n,
        max > 0 ==> r@.len() <= max,
{
    let stride: usize = if max > 0 && n > max {
        proof {
            if n % max != 0 {
                assert(n / max < usize::MAX) by (nonlinear_arith)
                    requires
                        n % max != 0,
                        max > 0,
                        n <= usize::MAX,
                ;
            }
        }
        n / max + if n % max != 0 { 1 } else { 0 }
    } else {
        1
    };
    proof {
        if max > 0 && n > max {
            assert(n / max >= 1) by (nonlinear_arith)
                requires
                    max > 0,
                    n > max,
            ;
        }
    }
    let q = n / stride;
    proof {
        if n % stride != 0 {
            assert(q < usize::MAX) by (nonlinear_arith)
                requires
                    q == n / stride,
                    n % stride != 0,
                    stride >= 1,
                    n <= usize::MAX,
            ;
        }
    }
    let rem = n % stride;
    let whole = q + if rem != 0 { 1 } else { 0 };
    let count = if max > 0 && whole > max { max } else { whole };
    let mut out: Vec<usize> = Vec::new();
    let mut i: usize = 0;
    while i < count
        invariant
            stride >= 1,
            stride as nat == subsample_stride(n as nat, max as nat),
            q == n / stride,
            rem == n % stride,
            whole == q + if rem != 0 { 1int } else { 0 },
            count <= whole,
            count as nat == subsample_count(n as nat, max as nat),
            i <= count,
            out@ =~= Seq::new(i as nat, |j: int| (j * stride) as usize),
            forall|k: int| 0 <= k < out@.len() ==> #[trigger] out@[k] < n,
        decreases count - i,
    {
        proof {
            assert(i * stride < n) by (nonlinear_arith)
                requires
                    i < whole,
                    whole == q + if rem != 0 { 1int } else { 0 },
                    q == n / stride,
                    rem == n % stride,
                    stride >= 1,
            ;
        }
        out.push(i * stride);
        i = i + 1;
    }
    out
}


/// Consecutive batches `(start, end)` covering positions `0..n`, each holding
/// `batch` positions except possibly the last.
pub open spec fn batch_ranges_spec(n: nat, batch: nat) -> Seq<(usize, usize)> {
    let count = ceil_div(n as int, batch as int);
    Seq::new(
        count as nat,
        |b: int|
            (
                (b * batch) as usize,
                (if b * batch + batch <= n { b * batch + batch } else { n as int }) as usize,
            ),
    )
}

/// `ceil(n / d)`.
pub open spec fn ceil_div(n: int, d: int) -> int {
    n / d + if n % d != 0 { 1int } else { 0 }
}

/// `b` is `ceil(n / d)` exactly when `b` batches of `d` reach `n` and `b - 1`
/// do not.
proof fn lemma_ceil_div(n: int, d: int, b: int)
    requires
        d > 0,
        n >= 0,
        b >= 0,
    ensures
        b * d < n ==> b < ceil_div(n, d),
        (b * d >= n && (b == 0 || (b - 1) * d < n)) ==> b == ceil_div(n, d),
{
    let q = n / d;
    let r = n % d;
    assert(n == q * d + r && 0 <= r < d) by (nonlinear_arith)
        requires
            d > 0,
            q == n / d,
            r == n % d,
    ;
    assert(b * d < n ==> b < ceil_div(n, d)) by (nonlinear_arith)
        requires
            n == q * d + r,
            0 <= r < d,
            d > 0,
            ceil_div(n, d) == q + if r != 0 { 1int } else { 0 },
    ;
    assert((b * d >= n && (b == 0 || (b - 1) * d < n)) ==> b == ceil_div(n, d)) by (nonlinear_arith)
        requires
            n == q * d + r,
            0 <= r < d,
            d > 0,
            n >= 0,
            b >= 0,
            ceil_div(n, d) == q + if r != 0 { 1int } else { 0 },
    ;
}

/// Plan the batches of `n` items, `batch > 0` at a time.
pub fn batch_ranges(n: usize, batch: usize) -> (r: Vec<(usize, usize)>)
    requires
        batch > 0,
    ensures
        r@ == batch_ranges_spec(n as nat, batch as nat),
{
    let mut out: Vec<(usize, usize)> = Vec::new();
    let mut start: usize = 0;
    let ghost mut b: int = 0;
    while start < n
        invariant
            batch > 0,
            0 <= b,
            start <= n,
            start < n ==> start == b * batch,
            start == n ==> b * batch >= n && (b == 0 || (b - 1) * batch < n),
            b <= ceil_div(n as int, batch as int),
            out@ =~= batch_ranges_spec(n as nat, batch as nat).take(b),
        decreases n - start,
    {
        proof {
            lemma_ceil_div(n as int, batch as int, b);
        }
        let end = if batch >= n - start { n } else { start + batch };
        out.push((start, end));
        proof {
            assert((b + 1) * batch == b * batch + batch) by (nonlinear_arith);
            b = b + 1;
        }
        start = end;
    }
    proof {
        lemma_ceil_div(n as int, batch as int, b);
    }
    assert(out@ =~= batch_ranges_spec(n as nat, batch as nat));
    out
}


/// Law: the batches tile `0..n` — they start at 0, each begins where the
/// previous ended, each is non-empty and holds at most `batch` positions, and
/// the last ends at `n`.
pub proof fn lemma_batches_tile(n: nat, batch: nat)
    requires
        batch > 0,
        n <= usize::MAX,
    ensures
        ({
            let r = batch_ranges_spec(n, batch);
            &&& n == 0 <==> r.len() == 0
            &&& n > 0 ==> r[0].0 == 0 && r[r.len() - 1].1 == n
            &&& forall|k: int|
                0 <= k < r.len() ==> #[trigger] r[k].0 < r[k].1 && r[k].1 <= n && r[k].1 - r[k].0
                    <= batch
            &&& forall|k: int| 0 < k < r.len() ==> #[trigger] r[k].0 == r[k - 1].1
        }),
{
    let r = batch_ranges_spec(n, batch);
    let c = ceil_div(n as int, batch as int);
    lemma_ceil_div(n as int, batch as int, c);
    lemma_ceil_div(n as int, batch as int, 0);
    assert(c >= 0) by (nonlinear_arith)
        requires
            c == ceil_div(n as int, batch as int),
            batch > 0,
            n >= 0,
    ;
    assert forall|k: int| 0 <= k < r.len() implies #[trigger] r[k].0 < r[k].1 && r[k].1 <= n
        && r[k].1 - r[k].0 <= batch by {
        lemma_ceil_div_below(n as int, batch as int, k);
    }
    assert forall|k: int| 0 < k < r.len() implies #[trigger] r[k].0 == r[k - 1].1 by {
        lemma_ceil_div_below(n as int, batch as int, k);
        assert((k - 1) * batch + batch == k * batch) by (nonlinear_arith);
    }
    if n > 0 {
        lemma_ceil_div_below(n as int, batch as int, c - 1);
        lemma_ceil_div_covers(n as int, batch as int);
        assert((c - 1) * batch + batch == c * batch) by (nonlinear_arith);
    }
}

/// `ceil(n / d)` batches of `d` reach `n`.
proof fn lemma_ceil_div_covers(n: int, d: int)
    requires
        d > 0,
        n >= 0,
    ensures
        ceil_div(n, d) * d >= n,
        ceil_div(n, d) >= 0,
{
    let q = n / d;
    let r = n % d;
    assert(n == q * d + r && 0 <= r < d && q >= 0) by (nonlinear_arith)
        requires
            d > 0,
            n >= 0,
            q == n / d,
            r == n % d,
    ;
    assert(ceil_div(n, d) * d >= n) by (nonlinear_arith)
        requires
            n == q * d + r,
            0 <= r < d,
            ceil_div(n, d) == q + if r != 0 { 1int } else { 0 },
    ;
}

/// Every batch index below the batch count starts inside `0..n`.
proof fn lemma_ceil_div_below(n: int, d: int, k: int)
    requires
        d > 0,
        n >= 0,
        0 <= k < ceil_div(n, d),
    ensures
        0 <= k * d < n,
{
    let q = n / d;
    let r = n % d;
    assert(n == q * d + r && 0 <= r < d) by (nonlinear_arith)
        requires
            d > 0,
            q == n / d,
            r == n % d,
    ;
    assert(0 <= k * d < n) by (nonlinear_arith)
        requires
            n == q * d + r,
            0 <= r < d,
            d > 0,
            0 <= k,
            k < q + if r != 0 { 1int } else { 0 },
    ;
}

/// The frames `[start, end)` pooled into time slot `t` when `n` frames are
/// spread over `slots` slots: `t·n/slots` up to `(t+1)·n/slots`, or the single
/// frame at the start when that range is empty (fewer frames than slots).
pub open spec fn slot_range(n: nat, slots: nat, t: nat) -> (usize, usize) {
    let s = (t * n) / slots;
    let e = ((t + 1) * n) / slots;
    if e <= s {
        (s as usize, (if s + 1 <= n { (s + 1) as int } else { n as int }) as usize)
    } else {
        (s as usize, e as usize)
    }
}

/// The time slots of a spectro-temporal patch: for each of `n_slots` slots,
/// the range of the `n_frames` frames it averages.
pub fn time_slots(n_frames: usize, n_slots: usize) -> (r: Vec<(usize, usize)>)
    requires
        n_slots > 0,
        n_slots * n_frames <= usize::MAX,
    ensures
        r@ == Seq::new(n_slots as nat, |t: int| slot_range(n_frames as nat, n_slots as nat, t as nat)),
{
    let mut out: Vec<(usize, usize)> = Vec::new();
    let mut t: usize = 0;
    while t < n_slots
        invariant
            n_slots > 0,
            n_slots * n_frames <= usize::MAX,
            t <= n_slots,
            out@ =~= Seq::new(t as nat, |j: int| slot_range(n_frames as nat, n_slots as nat, j as nat)),
        decreases n_slots - t,
    {
        proof {
            assert((t + 1) * n_frames <= n_slots * n_frames) by (nonlinear_arith)
                requires
                    t + 1 <= n_slots,
            ;
            assert(t * n_frames <= (t + 1) * n_frames) by (nonlinear_arith);
        }
        let start = (t * n_frames) / n_slots;
        let mut end = ((t + 1) * n_frames) / n_slots;
        if end <= start {
            end = if start < n_frames { start + 1 } else { n_frames };
        }
        out.push((start, end));
        t = t + 1;
    }
    out
}

/// Law: with at least one frame every slot averages at least one frame and
/// stays inside the clip; with at least as many frames as slots the slots
/// tile the frames — the first starts at 0, each ends where the next starts,
/// and the last ends at the last frame.
pub proof fn lemma_time_slots_cover(n: nat, slots: nat)
    requires
        slots > 0,
        n > 0,
        slots * n <= usize::MAX,
    ensures
        forall|t: nat| t < slots ==> {
            let (s, e) = #[trigger] slot_range(n, slots, t);
            s < e <= n
        },
        n >= slots ==> slot_range(n, slots, 0).0 == 0,
        n >= slots ==> slot_range(n, slots, (slots - 1) as nat).1 == n,
        n >= slots ==> forall|t: nat|
            t + 1 < slots ==> (#[trigger] slot_range(n, slots, t)).1 == slot_range(n, slots, t + 1).0,
{
    assert(n <= usize::MAX) by (nonlinear_arith)
        requires
            slots > 0,
            slots * n <= usize::MAX,
    ;
    assert forall|t: nat| t < slots implies {
        let (s, e) = #[trigger] slot_range(n, slots, t);
        s < e <= n
    } by {
        lemma_slot_bounds(n, slots, t);
    }
    if n >= slots {
        lemma_slot_bounds(n, slots, 0);
        assert(0 * n == 0);
        let last = (slots - 1) as nat;
        lemma_slot_bounds(n, slots, last);
        assert((last + 1) * n == n * slots) by (nonlinear_arith)
            requires
                last + 1 == slots,
        ;
        vstd::arithmetic::div_mod::lemma_div_by_multiple(n as int, slots as int);
        assert forall|t: nat| t + 1 < slots implies (#[trigger] slot_range(n, slots, t)).1
            == slot_range(n, slots, t + 1).0 by {
            lemma_slot_bounds(n, slots, t);
            lemma_slot_bounds(n, slots, t + 1);
            assert(((t + 1) + 1) * n == (t + 2) * n);
        }
    }
}

/// Bounds of one slot: its start is below `n`, its nominal end is at most
/// `n`, and with at least as many frames as slots the nominal range is
/// non-empty.
proof fn lemma_slot_bounds(n: nat, slots: nat, t: nat)
    requires
        slots > 0,
        n > 0,
        t < slots,
    ensures
        (t * n) / slots < n,
        ((t + 1) * n) / slots <= n,
        (t * n) / slots <= ((t + 1) * n) / slots,
        n >= slots ==> (t * n) / slots < ((t + 1) * n) / slots,
{
    let a = (t * n) as int;
    let b = ((t + 1) * n) as int;
    let sl = slots as int;
    assert(a < n * slots && b <= n * slots && a <= b && b == a + n) by (nonlinear_arith)
        requires
            t < slots,
            n > 0,
            a == t * n,
            b == (t + 1) * n,
    ;
    vstd::arithmetic::div_mod::lemma_div_by_multiple_is_strongly_ordered(a, (n * slots) as int, n as int, sl);
    vstd::arithmetic::div_mod::lemma_div_is_ordered(b, (n * slots) as int, sl);
    vstd::arithmetic::div_mod::lemma_div_by_multiple(n as int, sl);
    vstd::arithmetic::div_mod::lemma_div_is_ordered(a, b, sl);
    if n >= slots {
        vstd::arithmetic::div_mod::lemma_div_is_ordered(a + sl, b, sl);
        vstd::arithmetic::div_mod::lemma_div_plus_one(a, sl);
        assert(sl + a == a + sl);
    }
}

} // verus!
