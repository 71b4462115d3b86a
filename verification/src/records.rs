//! Measurement records and the queue that carries them from the producer
//! thread to the UI loop: a channel-state-information record with its radio
//! metadata, and a buffer that keeps the full history while handing each
//! drained batch to the averaging step.

use vstd::prelude::*;
use std::collections::VecDeque;

verus! {

/// One channel-state-information record as the device reports it.
pub struct CsiData {
    pub mac: String,
    pub rssi: i32,
    pub rate: u32,
    pub noise_floor: i32,
    pub channel: u32,
    pub timestamp: u64,
    pub sig_len: u32,
    pub rx_state: u32,
    pub secondary_channel: u32,
    pub sgi: u32,
    pub ant: u32,
    pub ampdu_cnt: u32,
    pub sig_mode: u32,
    pub mcs: u32,
    pub cwb: u32,
    pub smoothing: u32,
    pub not_sounding: u32,
    pub aggregation: u32,
    pub stbc: u32,
    pub fec_coding: u32,
    pub sig_len_extra: u32,
    pub data_length: u32,
    pub csi_raw_data: Vec<i32>,
}

/// Two records that carry the same data, raw samples compared by content.
pub open spec fn csi_like(a: CsiData, b: CsiData) -> bool {
    &&& a.mac == b.mac
    &&& a.rssi == b.rssi
    &&& a.rate == b.rate
    &&& a.noise_floor == b.noise_floor
    &&& a.channel == b.channel
    &&& a.timestamp == b.timestamp
    &&& a.sig_len == b.sig_len
    &&& a.rx_state == b.rx_state
    &&& a.secondary_channel == b.secondary_channel
    &&& a.sgi == b.sgi
    &&& a.ant == b.ant
    &&& a.ampdu_cnt == b.ampdu_cnt
    &&& a.sig_mode == b.sig_mode
    &&& a.mcs == b.mcs
    &&& a.cwb == b.cwb
    &&& a.smoothing == b.smoothing
    &&& a.not_sounding == b.not_sounding
    &&& a.aggregation == b.aggregation
    &&& a.stbc == b.stbc
    &&& a.fec_coding == b.fec_coding
    &&& a.sig_len_extra == b.sig_len_extra
    &&& a.data_length == b.data_length
    &&& a.csi_raw_data@ == b.csi_raw_data@
}

/// Sum of the signal strengths of a batch.
pub open spec fn sum_rssi(s: Seq<CsiData>) -> int
    decreases s.len(),
{
    if s.len() == 0 {
        0
    } else {
        sum_rssi(s.drop_last()) + s.last().rssi
    }
}

/// Sum of the noise floors of a batch.
pub open spec fn sum_noise(s: Seq<CsiData>) -> int
    decreases s.len(),
{
    if s.len() == 0 {
        0
    } else {
        sum_noise(s.drop_last()) + s.last().noise_floor
    }
}

/// Sum of sample `i` over a batch; a record too short to have sample `i`
/// contributes nothing.
pub open spec fn sample_sum(s: Seq<CsiData>, i: int) -> int
    decreases s.len(),
{
    if s.len() == 0 {
        0
    } else {
        sample_sum(s.drop_last(), i) + (if i < s.last().csi_raw_data@.len() {
            s.last().csi_raw_data@[i]
        } else {
            0
        })
    }
}

/// Division that truncates toward zero, as machine division does.
pub open spec fn div_trunc(a: int, b: int) -> int {
    if a >= 0 {
        a / b
    } else {
        -((-a) / b)
    }
}

/// Each of the three sums is bounded by the batch size times the widest
/// single value.
pub proof fn lemma_sums_bounded(s: Seq<CsiData>, i: int)
    ensures
        -(s.len() * 0x8000_0000) <= sum_rssi(s) <= s.len() * 0x7FFF_FFFF,
        -(s.len() * 0x8000_0000) <= sum_noise(s) <= s.len() * 0x7FFF_FFFF,
        -(s.len() * 0x8000_0000) <= sample_sum(s, i) <= s.len() * 0x7FFF_FFFF,
    decreases s.len(),
{
    if s.len() > 0 {
        lemma_sums_bounded(s.drop_last(), i);
        assert((s.len() - 1) * 0x8000_0000 + 0x8000_0000 == s.len() * 0x8000_0000)
            by (nonlinear_arith);
        assert((s.len() - 1) * 0x7FFF_FFFF + 0x7FFF_FFFF == s.len() * 0x7FFF_FFFF)
            by (nonlinear_arith);
    }
}

/// A truncated mean of values inside `[-lo, hi]` stays inside `[-lo, hi]`.
pub proof fn lemma_div_trunc_bound(a: int, n: int, lo: int, hi: int)
    requires
        n >= 1,
        lo >= 0,
        hi >= 0,
        -(n * lo) <= a <= n * hi,
    ensures
        -lo <= div_trunc(a, n) <= hi,
{
    if a >= 0 {
        let q = a / n;
        vstd::arithmetic::div_mod::lemma_fundamental_div_mod(a, n);
        assert(a == n * q + a % n);
        vstd::arithmetic::div_mod::lemma_div_pos_is_pos(a, n);
        assert(q <= hi) by (nonlinear_arith)
            requires
                n >= 1,
                n * q <= n * hi,
        ;
    } else {
        let q = (-a) / n;
        vstd::arithmetic::div_mod::lemma_fundamental_div_mod(-a, n);
        vstd::arithmetic::div_mod::lemma_div_pos_is_pos(-a, n);
        assert(q <= lo) by (nonlinear_arith)
            requires
                n >= 1,
                n * q <= n * lo,
        ;
    }
}

/// Truncating division on wide integers.
fn div_trunc_wide(a: i128, b: i128) -> (r: i128)
    requires
        b >= 1,
        -0x8000_0000_0000_0000_0000_0000 <= a <= 0x8000_0000_0000_0000_0000_0000,
    ensures
        r == div_trunc(a as int, b as int),
{
    if a >= 0 {
        a / b
    } else {
        -((-a) / b)
    }
}

/// Copies a raw sample buffer element by element.
fn copy_samples(v: &Vec<i32>) -> (r: Vec<i32>)
    ensures
        r@ == v@,
{
    let mut r: Vec<i32> = Vec::new();
    let mut i: usize = 0;
    while i < v.len()
        invariant
            i <= v@.len(),
            r@ == v@.subrange(0, i as int),
        decreases v@.len() - i,
    {
        r.push(v[i]);
        proof {
            assert(r@ =~= v@.subrange(0, i as int + 1));
        }
        i += 1;
    }
    proof {
        assert(r@ =~= v@);
    }
    r
}

impl Clone for CsiData {
    /// A copy that carries exactly the same data.
    fn clone(&self) -> (r: Self)
        ensures
            csi_like(r, *self),
    {
        CsiData {
            mac: self.mac.clone(),
            rssi: self.rssi,
            rate: self.rate,
            noise_floor: self.noise_floor,
            channel: self.channel,
            timestamp: self.timestamp,
            sig_len: self.sig_len,
            rx_state: self.rx_state,
            secondary_channel: self.secondary_channel,
            sgi: self.sgi,
            ant: self.ant,
            ampdu_cnt: self.ampdu_cnt,
            sig_mode: self.sig_mode,
            mcs: self.mcs,
            cwb: self.cwb,
            smoothing: self.smoothing,
            not_sounding: self.not_sounding,
            aggregation: self.aggregation,
            stbc: self.stbc,
            fec_coding: self.fec_coding,
            sig_len_extra: self.sig_len_extra,
            data_length: self.data_length,
            csi_raw_data: copy_samples(&self.csi_raw_data),
        }
    }
}

impl CsiData {
    /// Collapses a batch of records into one averaged record: signal
    /// strength, noise floor and each raw sample become the truncated mean
    /// over the batch, while the metadata is taken from the most recent
    /// record and the sample count from the first. An empty batch yields
    /// the all-zero record.
    pub fn average(packets: &[CsiData]) -> (r: CsiData)
        ensures
            packets@.len() == 0 ==> {
                &&& r.mac@ == Seq::<char>::empty()
                &&& r.rssi == 0 && r.noise_floor == 0 && r.rate == 0 && r.channel == 0
                &&& r.timestamp == 0 && r.sig_len == 0 && r.rx_state == 0
                &&& r.secondary_channel == 0 && r.sgi == 0 && r.ant == 0 && r.ampdu_cnt == 0
                &&& r.sig_mode == 0 && r.mcs == 0 && r.cwb == 0 && r.smoothing == 0
                &&& r.not_sounding == 0 && r.aggregation == 0 && r.stbc == 0
                &&& r.fec_coding == 0 && r.sig_len_extra == 0 && r.data_length == 0
                &&& r.csi_raw_data@.len() == 0
            },
            packets@.len() >= 1 ==> {
                let n = packets@.len() as int;
                let newest = packets@.last();
                &&& r.rssi == div_trunc(sum_rssi(packets@), n)
                &&& r.noise_floor == div_trunc(sum_noise(packets@), n)
                &&& r.mac == newest.mac
                &&& r.rate == newest.rate && r.channel == newest.channel
                &&& r.timestamp == newest.timestamp && r.sig_len == newest.sig_len
                &&& r.rx_state == newest.rx_state
                &&& r.secondary_channel == newest.secondary_channel
                &&& r.sgi == newest.sgi && r.ant == newest.ant
                &&& r.ampdu_cnt == newest.ampdu_cnt && r.sig_mode == newest.sig_mode
                &&& r.mcs == newest.mcs && r.cwb == newest.cwb
                &&& r.smoothing == newest.smoothing && r.not_sounding == newest.not_sounding
                &&& r.aggregation == newest.aggregation && r.stbc == newest.stbc
                &&& r.fec_coding == newest.fec_coding
                &&& r.sig_len_extra == newest.sig_len_extra
                &&& r.data_length == newest.data_length
                &&& r.csi_raw_data@.len() == packets@[0].csi_raw_data@.len()
                &&& forall|i: int|
                    0 <= i < r.csi_raw_data@.len() ==> #[trigger] r.csi_raw_data@[i]
                        == div_trunc(sample_sum(packets@, i), n)
            },
    {
        if packets.len() == 0 {
            return CsiData {
                mac: String::new(),
                rssi: 0,
                rate: 0,
                noise_floor: 0,
                channel: 0,
                timestamp: 0,
                sig_len: 0,
                rx_state: 0,
                secondary_channel: 0,
                sgi: 0,
                ant: 0,
                ampdu_cnt: 0,
                sig_mode: 0,
                mcs: 0,
                cwb: 0,
                smoothing: 0,
                not_sounding: 0,
                aggregation: 0,
                stbc: 0,
                fec_coding: 0,
                sig_len_extra: 0,
                data_length: 0,
                csi_raw_data: Vec::new(),
            };
        }
        let n = packets.len();
        let width = packets[0].csi_raw_data.len();

        let mut sr: i128 = 0;
        let mut sn: i128 = 0;
        let mut sums: Vec<i128> = Vec::new();
        let mut w: usize = 0;
        while w < width
            invariant
                w <= width,
                sums@.len() == w,
                forall|i: int| 0 <= i < w ==> #[trigger] sums@[i] == 0,
            decreases width - w,
        {
            sums.push(0);
            w += 1;
        }

        let mut k: usize = 0;
        while k < packets.len()
            invariant
                k <= packets@.len(),
                packets@.len() <= usize::MAX,
                sr == sum_rssi(packets@.subrange(0, k as int)),
                sn == sum_noise(packets@.subrange(0, k as int)),
                sums@.len() == width,
                forall|i: int|
                    0 <= i < width ==> #[trigger] sums@[i] == sample_sum(
                        packets@.subrange(0, k as int),
                        i,
                    ),
            decreases packets@.len() - k,
        {
            let ghost prefix = packets@.subrange(0, k as int);
            let ghost longer = packets@.subrange(0, k as int + 1);
            proof {
                assert(longer.drop_last() =~= prefix);
                assert(longer.last() == packets@[k as int]);
                lemma_sums_bounded(prefix, 0);
                assert((k as int) * 0x8000_0000 <= 0xFFFF_FFFF_FFFF_FFFF * 0x8000_0000)
                    by (nonlinear_arith)
                    requires
                        0 <= k <= 0xFFFF_FFFF_FFFF_FFFF,
                ;
                assert((k as int) * 0x7FFF_FFFF <= 0xFFFF_FFFF_FFFF_FFFF * 0x7FFF_FFFF)
                    by (nonlinear_arith)
                    requires
                        0 <= k <= 0xFFFF_FFFF_FFFF_FFFF,
                ;
            }
            let p = &packets[k];
            sr = sr + p.rssi as i128;
            sn = sn + p.noise_floor as i128;
            let mut i: usize = 0;
            while i < width
                invariant
                    i <= width,
                    sums@.len() == width,
                    longer == packets@.subrange(0, k as int + 1),
                    longer.drop_last() == packets@.subrange(0, k as int),
                    longer.last() == packets@[k as int],
                    0 <= k < packets@.len(),
                    packets@.len() <= usize::MAX,
                    p == packets@[k as int],
                    forall|m: int|
                        0 <= m < i ==> #[trigger] sums@[m] == sample_sum(longer, m),
                    forall|m: int|
                        i <= m < width ==> #[trigger] sums@[m] == sample_sum(
                            longer.drop_last(),
                            m,
                        ),
                decreases width - i,
            {
                proof {
                    lemma_sums_bounded(longer.drop_last(), i as int);
                    assert((k as int) * 0x8000_0000 <= 0xFFFF_FFFF_FFFF_FFFF * 0x8000_0000)
                        by (nonlinear_arith)
                        requires
                            0 <= k <= 0xFFFF_FFFF_FFFF_FFFF,
                    ;
                    assert((k as int) * 0x7FFF_FFFF <= 0xFFFF_FFFF_FFFF_FFFF * 0x7FFF_FFFF)
                        by (nonlinear_arith)
                        requires
                            0 <= k <= 0xFFFF_FFFF_FFFF_FFFF,
                    ;
                }
                if i < p.csi_raw_data.len() {
                    let updated = sums[i] + p.csi_raw_data[i] as i128;
                    sums.set(i, updated);
                }
                i += 1;
            }
            k += 1;
            proof {
                assert(packets@.subrange(0, k as int) == longer);
            }
        }
        proof {
            assert(packets@.subrange(0, packets@.len() as int) =~= packets@);
            lemma_sums_bounded(packets@, 0);
            assert((packets@.len() as int) * 0x8000_0000 <= 0xFFFF_FFFF_FFFF_FFFF
                * 0x8000_0000) by (nonlinear_arith)
                requires
                    0 <= packets@.len() <= 0xFFFF_FFFF_FFFF_FFFF,
            ;
            assert((packets@.len() as int) * 0x7FFF_FFFF <= 0xFFFF_FFFF_FFFF_FFFF
                * 0x7FFF_FFFF) by (nonlinear_arith)
                requires
                    0 <= packets@.len() <= 0xFFFF_FFFF_FFFF_FFFF,
            ;
            lemma_div_trunc_bound(sum_rssi(packets@), n as int, 0x8000_0000, 0x7FFF_FFFF);
            lemma_div_trunc_bound(sum_noise(packets@), n as int, 0x8000_0000, 0x7FFF_FFFF);
        }
        let avg_rssi = div_trunc_wide(sr, n as i128) as i32;
        let avg_noise = div_trunc_wide(sn, n as i128) as i32;

        let mut averaged: Vec<i32> = Vec::new();
        let mut i: usize = 0;
        while i < width
            invariant
                i <= width,
                sums@.len() == width,
                1 <= n == packets@.len() <= usize::MAX,
                forall|m: int|
                    0 <= m < width ==> #[trigger] sums@[m] == sample_sum(packets@, m),
                averaged@.len() == i,
                forall|m: int|
                    0 <= m < i ==> #[trigger] averaged@[m] == div_trunc(
                        sample_sum(packets@, m),
                        n as int,
                    ),
            decreases width - i,
        {
            proof {
                lemma_sums_bounded(packets@, i as int);
                assert((packets@.len() as int) * 0x8000_0000 <= 0xFFFF_FFFF_FFFF_FFFF
                    * 0x8000_0000) by (nonlinear_arith)
                    requires
                        0 <= packets@.len() <= 0xFFFF_FFFF_FFFF_FFFF,
                ;
                assert((packets@.len() as int) * 0x7FFF_FFFF <= 0xFFFF_FFFF_FFFF_FFFF
                    * 0x7FFF_FFFF) by (nonlinear_arith)
                    requires
                        0 <= packets@.len() <= 0xFFFF_FFFF_FFFF_FFFF,
                ;
                lemma_div_trunc_bound(
                    sample_sum(packets@, i as int),
                    n as int,
                    0x8000_0000,
                    0x7FFF_FFFF,
                );
            }
            let q = div_trunc_wide(sums[i], n as i128);
            averaged.push(q as i32);
            i += 1;
        }

        let newest = &packets[n - 1];
        proof {
            assert(packets@[n - 1] == packets@.last());
        }
        CsiData {
            mac: newest.mac.clone(),
            rssi: avg_rssi,
            rate: newest.rate,
            noise_floor: avg_noise,
            channel: newest.channel,
            timestamp: newest.timestamp,
            sig_len: newest.sig_len,
            rx_state: newest.rx_state,
            secondary_channel: newest.secondary_channel,
            sgi: newest.sgi,
            ant: newest.ant,
            ampdu_cnt: newest.ampdu_cnt,
            sig_mode: newest.sig_mode,
            mcs: newest.mcs,
            cwb: newest.cwb,
            smoothing: newest.smoothing,
            not_sounding: newest.not_sounding,
            aggregation: newest.aggregation,
            stbc: newest.stbc,
            fec_coding: newest.fec_coding,
            sig_len_extra: newest.sig_len_extra,
            data_length: newest.data_length,
            csi_raw_data: averaged,
        }
    }
}

/// Queue and history of incoming records: the producer pushes, the UI loop
/// drains the queue batch by batch while the history keeps everything.
pub struct Dataloader {
    pub queue: VecDeque<CsiData>,
    pub history: Vec<CsiData>,
}

impl Dataloader {
    /// An empty buffer.
    pub fn new() -> (r: Dataloader)
        ensures
            r.queue@.len() == 0,
            r.history@.len() == 0,
    {
        Dataloader { queue: VecDeque::new(), history: Vec::new() }
    }

    /// Accepts one fresh record: it joins the end of the queue, and a copy
    /// of it is appended to the history.
    pub fn push_data_packet(&mut self, packet: CsiData)
        ensures
            final(self).queue@ == old(self).queue@.push(packet),
            final(self).history@.len() == old(self).history@.len() + 1,
            forall|i: int|
                0 <= i < old(self).history@.len() ==> final(self).history@[i] == old(
                    self,
                ).history@[i],
            csi_like(final(self).history@.last(), packet),
    {
        let copy = packet.clone();
        self.history.push(copy);
        self.queue.push_back(packet);
    }

    /// Hands out everything queued since the last drain, in arrival order,
    /// leaving the queue empty and the history untouched.
    pub fn drain_buffer(&mut self) -> (r: Vec<CsiData>)
        ensures
            r@ == old(self).queue@,
            final(self).queue@.len() == 0,
            final(self).history@ == old(self).history@,
    {
        let mut out: Vec<CsiData> = Vec::new();
        loop
            invariant
                out@ + self.queue@ == old(self).queue@,
                self.history@ == old(self).history@,
            ensures
                self.queue@.len() == 0,
                out@ + self.queue@ == old(self).queue@,
                self.history@ == old(self).history@,
            decreases self.queue@.len(),
        {
            match self.queue.pop_front() {
                Some(x) => {
                    out.push(x);
                    proof {
                        assert(out@ + self.queue@ =~= old(self).queue@);
                    }
                },
                None => {
                    break ;
                },
            }
        }
        proof {
            assert(out@ =~= old(self).queue@);
        }
        out
    }
}

} // verus!
