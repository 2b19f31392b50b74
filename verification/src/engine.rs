//! The packet-processing engine: app configs, runtime app instances, the
//! engine state with its app and link tables, incremental configuration,
//! breathe-order computation, and the breathe step itself.
use vstd::prelude::*;

use crate::basic_apps::{
    drain_link, free_all, packetgen_pull, sink_push, source_pull, tee_copy_to, transmit_all,
    Join, JoinApp, PacketGen, PacketGenApp, Sink, SinkApp, Source, SourceApp, Tee, TeeApp,
};
use crate::config::{link_parse_spec, Config, LinkSpec};
use crate::flow::{
    flow_count, new_flowtop_table, route_flows, Flow, FlowCtr, Split, Top, FLOWTOP_NSLOTS,
};
use crate::link;
use crate::link::{Link, LINK_MAX_PACKETS};
use crate::offload::{forward_tcp_segments, maybe_fill_in_checksum, Checksum, TSD};
use crate::packet::{free, Freelist, Packet};
use crate::qos::{
    delay_queue_pull, dq_packet_count, jitter_push, latency_push, loss_push, new_bucket,
    ratelimiter_push, BitrateBucket, DelayQueue, Jitter, Latency, Loss, RateLimiter, PPM_SCALE,
    RATE_MAX,
};
use crate::rawsocket_app::RawSocket;
use crate::{sat_add, sat_add64, sat_mul};

verus! {

/// Recommended number of packets an app's pull inhales per breath.
pub const PULL_NPACKETS: usize = 102;

/// Sleep cap between idle breaths, in microseconds.
pub const MAXSLEEP: u64 = 100;

/// Counters for global engine statistics: breaths taken, packets freed,
/// and the bytes and wire bits of those packets.
pub struct EngineStats {
    pub breaths: u64,
    pub frees: u64,
    pub freebits: u64,
    pub freebytes: u64,
}

impl EngineStats {
    /// Fresh statistics: all counters zero.
    pub fn new() -> (r: EngineStats)
        ensures
            r.breaths == 0 && r.frees == 0 && r.freebits == 0 && r.freebytes == 0,
    {
        EngineStats { breaths: 0, frees: 0, freebits: 0, freebytes: 0 }
    }

    pub fn add_frees(&mut self)
        ensures
            final(self).frees == sat_add(old(self).frees as int, 1),
            final(self).breaths == old(self).breaths,
            final(self).freebits == old(self).freebits,
            final(self).freebytes == old(self).freebytes,
    {
        self.frees = sat_add64(self.frees, 1);
    }

    pub fn add_freebytes(&mut self, bytes: u64)
        ensures
            final(self).freebytes == sat_add(old(self).freebytes as int, bytes as int),
            final(self).breaths == old(self).breaths,
            final(self).frees == old(self).frees,
            final(self).freebits == old(self).freebits,
    {
        self.freebytes = sat_add64(self.freebytes, bytes);
    }

    pub fn add_freebits(&mut self, bits: u64)
        ensures
            final(self).freebits == sat_add(old(self).freebits as int, bits as int),
            final(self).breaths == old(self).breaths,
            final(self).frees == old(self).frees,
            final(self).freebytes == old(self).freebytes,
    {
        self.freebits = sat_add64(self.freebits, bits);
    }

    pub fn add_breaths(&mut self)
        ensures
            final(self).breaths == sat_add(old(self).breaths as int, 1),
            final(self).frees == old(self).frees,
            final(self).freebits == old(self).freebits,
            final(self).freebytes == old(self).freebytes,
    {
        self.breaths = sat_add64(self.breaths, 1);
    }
}

/// The configuration of one app instance: its kind and parameters. Two
/// configs with the same identity produce behaviorally identical apps.
pub enum AppConfig {
    Source(Source),
    Sink(Sink),
    Join(Join),
    Tee(Tee),
    PacketGen(PacketGen),
    Split(Split),
    Top(Top),
    Checksum(Checksum),
    Tsd(TSD),
    Loss(Loss),
    Latency(Latency),
    Jitter(Jitter),
    RateLimiter(RateLimiter),
    RawSocket(RawSocket),
}

/// Identity of app configs: structural equality of kind and parameters.
pub open spec fn identity_eq(a: &AppConfig, b: &AppConfig) -> bool {
    match (a, b) {
        (AppConfig::Source(x), AppConfig::Source(y)) => x.size == y.size,
        (AppConfig::Sink(_), AppConfig::Sink(_)) => true,
        (AppConfig::Join(_), AppConfig::Join(_)) => true,
        (AppConfig::Tee(_), AppConfig::Tee(_)) => true,
        (AppConfig::PacketGen(x), AppConfig::PacketGen(y)) => x.packets.deep_view()
            == y.packets.deep_view(),
        (AppConfig::Split(x), AppConfig::Split(y)) => flows_eq(x.flows@, y.flows@),
        (AppConfig::Top(x), AppConfig::Top(y)) => x.path@ == y.path@ && x.dir == y.dir,
        (AppConfig::Checksum(_), AppConfig::Checksum(_)) => true,
        (AppConfig::Tsd(x), AppConfig::Tsd(y)) => x.mss == y.mss,
        (AppConfig::Loss(x), AppConfig::Loss(y)) => x.ratio_ppm == y.ratio_ppm,
        (AppConfig::Latency(x), AppConfig::Latency(y)) => x.ms == y.ms && x.capacity == y.capacity,
        (AppConfig::Jitter(x), AppConfig::Jitter(y)) => x.ms == y.ms && x.strength_ppm
            == y.strength_ppm && x.reorder == y.reorder && x.capacity == y.capacity,
        (AppConfig::RateLimiter(x), AppConfig::RateLimiter(y)) => x.rate == y.rate,
        (AppConfig::RawSocket(x), AppConfig::RawSocket(y)) => x.ifname@ == y.ifname@,
        _ => false,
    }
}

/// Structural equality of flow lists.
pub open spec fn flows_eq(a: Seq<Flow>, b: Seq<Flow>) -> bool {
    a.len() == b.len() && forall|i: int| 0 <= i < a.len() ==> flow_eq(#[trigger] a[i], b[i])
}

pub open spec fn flow_eq(a: Flow, b: Flow) -> bool {
    a.label@ == b.label@ && a.dir == b.dir && a.ip == b.ip && a.protocol == b.protocol
        && a.port_min == b.port_min && a.port_max == b.port_max
}

impl AppConfig {
    /// Whether this config can be realized without failing: rates fit
    /// the token scale, ratios are within one, a segment size is
    /// positive, generator packets fit a packet buffer.
    pub open spec fn valid(&self) -> bool {
        match self {
            AppConfig::Loss(x) => x.ratio_ppm <= PPM_SCALE,
            AppConfig::Jitter(x) => x.strength_ppm <= PPM_SCALE,
            AppConfig::RateLimiter(x) => x.rate <= RATE_MAX,
            AppConfig::Tsd(x) => x.mss >= 1,
            AppConfig::PacketGen(x) => forall|i: int|
                0 <= i < x.packets.len() ==> (#[trigger] x.packets@[i]).len() <= 65535,
            _ => true,
        }
    }

    /// Whether instances of this config inhale packets.
    pub open spec fn spec_has_pull(&self) -> bool {
        match self {
            AppConfig::Source(_) => true,
            AppConfig::PacketGen(_) => true,
            AppConfig::Latency(_) => true,
            AppConfig::Jitter(_) => true,
            AppConfig::RawSocket(_) => true,
            _ => false,
        }
    }

    /// Whether instances of this config exhale packets.
    pub open spec fn spec_has_push(&self) -> bool {
        match self {
            AppConfig::Source(_) => false,
            AppConfig::PacketGen(_) => false,
            _ => true,
        }
    }

    pub fn has_pull(&self) -> (r: bool)
        ensures
            r == self.spec_has_pull(),
    {
        matches!(self, AppConfig::Source(_) | AppConfig::PacketGen(_) | AppConfig::Latency(_)
            | AppConfig::Jitter(_) | AppConfig::RawSocket(_))
    }

    pub fn has_push(&self) -> (r: bool)
        ensures
            r == self.spec_has_push(),
    {
        !matches!(self, AppConfig::Source(_) | AppConfig::PacketGen(_))
    }

    /// Whether two configs have the same identity: same kind and equal
    /// parameters.
    pub fn equal(&self, other: &AppConfig) -> (r: bool)
        ensures
            r == identity_eq(self, other),
    {
        match (self, other) {
            (AppConfig::Source(x), AppConfig::Source(y)) => x.size == y.size,
            (AppConfig::Sink(_), AppConfig::Sink(_)) => true,
            (AppConfig::Join(_), AppConfig::Join(_)) => true,
            (AppConfig::Tee(_), AppConfig::Tee(_)) => true,
            (AppConfig::PacketGen(x), AppConfig::PacketGen(y)) => byte_lists_eq(
                &x.packets,
                &y.packets,
            ),
            (AppConfig::Split(x), AppConfig::Split(y)) => flows_equal(&x.flows, &y.flows),
            (AppConfig::Top(x), AppConfig::Top(y)) => x.path == y.path && x.dir == y.dir,
            (AppConfig::Checksum(_), AppConfig::Checksum(_)) => true,
            (AppConfig::Tsd(x), AppConfig::Tsd(y)) => x.mss == y.mss,
            (AppConfig::Loss(x), AppConfig::Loss(y)) => x.ratio_ppm == y.ratio_ppm,
            (AppConfig::Latency(x), AppConfig::Latency(y)) => x.ms == y.ms && x.capacity
                == y.capacity,
            (AppConfig::Jitter(x), AppConfig::Jitter(y)) => x.ms == y.ms && x.strength_ppm
                == y.strength_ppm && x.reorder == y.reorder && x.capacity == y.capacity,
            (AppConfig::RateLimiter(x), AppConfig::RateLimiter(y)) => x.rate == y.rate,
            (AppConfig::RawSocket(x), AppConfig::RawSocket(y)) => x.ifname == y.ifname,
            _ => false,
        }
    }

    /// An identical copy, preserving identity.
    pub fn duplicate(&self) -> (r: AppConfig)
        ensures
            identity_eq(&r, self),
            self.valid() ==> r.valid(),
            r.spec_has_pull() == self.spec_has_pull(),
            r.spec_has_push() == self.spec_has_push(),
    {
        match self {
            AppConfig::Source(x) => AppConfig::Source(Source { size: x.size }),
            AppConfig::Sink(_) => AppConfig::Sink(Sink {}),
            AppConfig::Join(_) => AppConfig::Join(Join {}),
            AppConfig::Tee(_) => AppConfig::Tee(Tee {}),
            AppConfig::PacketGen(x) => {
                let d = dup_byte_lists(&x.packets);
                proof {
                    assert forall|i: int| 0 <= i < d@.len() implies (#[trigger] d@[i]).len()
                        == x.packets@[i].len() by {
                        assert(d@[i]@ == x.packets@[i]@);
                    }
                }
                AppConfig::PacketGen(PacketGen { packets: d })
            },
            AppConfig::Split(x) => AppConfig::Split(Split { flows: dup_flows(&x.flows) }),
            AppConfig::Top(x) => AppConfig::Top(Top { path: x.path.clone(), dir: x.dir }),
            AppConfig::Checksum(_) => AppConfig::Checksum(Checksum {}),
            AppConfig::Tsd(x) => AppConfig::Tsd(TSD { mss: x.mss }),
            AppConfig::Loss(x) => AppConfig::Loss(Loss { ratio_ppm: x.ratio_ppm }),
            AppConfig::Latency(x) => AppConfig::Latency(
                Latency { ms: x.ms, capacity: x.capacity },
            ),
            AppConfig::Jitter(x) => AppConfig::Jitter(
                Jitter {
                    ms: x.ms,
                    strength_ppm: x.strength_ppm,
                    reorder: x.reorder,
                    capacity: x.capacity,
                },
            ),
            AppConfig::RateLimiter(x) => AppConfig::RateLimiter(RateLimiter { rate: x.rate }),
            AppConfig::RawSocket(x) => AppConfig::RawSocket(
                RawSocket { ifname: x.ifname.clone() },
            ),
        }
    }
}

fn byte_lists_eq(a: &Vec<Vec<u8>>, b: &Vec<Vec<u8>>) -> (r: bool)
    ensures
        r == (a.deep_view() == b.deep_view()),
{
    if a.len() != b.len() {
        proof {
            assert(a.deep_view().len() == a.len());
            assert(b.deep_view().len() == b.len());
        }
        return false;
    }
    let mut k: usize = 0;
    while k < a.len()
        invariant
            a.len() == b.len(),
            k <= a.len(),
            forall|i: int| 0 <= i < k ==> a.deep_view()[i] == b.deep_view()[i],
        decreases a.len() - k,
    {
        if !bytes_eq(&a[k], &b[k]) {
            proof {
                assert(a.deep_view()[k as int] == a@[k as int]@);
                assert(b.deep_view()[k as int] == b@[k as int]@);
            }
            return false;
        }
        proof {
            assert(a.deep_view()[k as int] == a@[k as int]@);
            assert(b.deep_view()[k as int] == b@[k as int]@);
        }
        k = k + 1;
    }
    proof {
        assert(a.deep_view() =~= b.deep_view());
    }
    true
}

fn bytes_eq(a: &Vec<u8>, b: &Vec<u8>) -> (r: bool)
    ensures
        r == (a@ == b@),
{
    if a.len() != b.len() {
        return false;
    }
    let mut k: usize = 0;
    while k < a.len()
        invariant
            a.len() == b.len(),
            k <= a.len(),
            forall|i: int| 0 <= i < k ==> a@[i] == b@[i],
        decreases a.len() - k,
    {
        if a[k] != b[k] {
            return false;
        }
        k = k + 1;
    }
    proof {
        assert(a@ =~= b@);
    }
    true
}

fn dup_bytes(a: &Vec<u8>) -> (r: Vec<u8>)
    ensures
        r@ == a@,
{
    let mut r: Vec<u8> = Vec::new();
    let mut k: usize = 0;
    while k < a.len()
        invariant
            k <= a.len(),
            r@ =~= a@.subrange(0, k as int),
        decreases a.len() - k,
    {
        r.push(a[k]);
        k = k + 1;
    }
    proof {
        assert(r@ =~= a@);
    }
    r
}

fn dup_byte_lists(a: &Vec<Vec<u8>>) -> (r: Vec<Vec<u8>>)
    ensures
        r.deep_view() == a.deep_view(),
        r@.len() == a@.len(),
        forall|i: int| 0 <= i < a@.len() ==> (#[trigger] r@[i])@ == a@[i]@,
{
    let mut r: Vec<Vec<u8>> = Vec::new();
    let mut k: usize = 0;
    while k < a.len()
        invariant
            k <= a.len(),
            r@.len() == k,
            forall|i: int| 0 <= i < k ==> (#[trigger] r@[i])@ == a@[i]@,
        decreases a.len() - k,
    {
        r.push(dup_bytes(&a[k]));
        k = k + 1;
    }
    proof {
        assert forall|i: int| 0 <= i < a@.len() implies #[trigger] r.deep_view()[i]
            == a.deep_view()[i] by {
            assert(r.deep_view()[i] == r@[i]@);
            assert(a.deep_view()[i] == a@[i]@);
        }
        assert(r.deep_view() =~= a.deep_view());
    }
    r
}

fn flows_equal(a: &Vec<Flow>, b: &Vec<Flow>) -> (r: bool)
    ensures
        r == flows_eq(a@, b@),
{
    if a.len() != b.len() {
        return false;
    }
    let mut k: usize = 0;
    while k < a.len()
        invariant
            a.len() == b.len(),
            k <= a.len(),
            forall|i: int| 0 <= i < k ==> flow_eq(#[trigger] a@[i], b@[i]),
        decreases a.len() - k,
    {
        let fa = &a[k];
        let fb = &b[k];
        if !(fa.label == fb.label && fa.dir == fb.dir && fa.ip == fb.ip && fa.protocol
            == fb.protocol && fa.port_min == fb.port_min && fa.port_max == fb.port_max) {
            return false;
        }
        k = k + 1;
    }
    true
}

fn dup_flows(a: &Vec<Flow>) -> (r: Vec<Flow>)
    ensures
        flows_eq(r@, a@),
        r@.len() == a@.len(),
{
    let mut r: Vec<Flow> = Vec::new();
    let mut k: usize = 0;
    while k < a.len()
        invariant
            k <= a.len(),
            r@.len() == k,
            forall|i: int| 0 <= i < k ==> flow_eq(#[trigger] r@[i], a@[i]),
        decreases a.len() - k,
    {
        let f = &a[k];
        r.push(
            Flow {
                label: f.label.clone(),
                dir: f.dir,
                ip: f.ip,
                protocol: f.protocol,
                port_min: f.port_min,
                port_max: f.port_max,
            },
        );
        k = k + 1;
    }
    r
}

/// A running app instance: the per-kind mutable state.
pub enum App {
    Source(SourceApp),
    Sink(SinkApp),
    Join(JoinApp),
    Tee(TeeApp),
    PacketGen(PacketGenApp),
    Split(crate::flow::SplitApp),
    Top(crate::flow::TopApp),
    Checksum(crate::offload::ChecksumApp),
    Tsd(crate::offload::TSDApp),
    Loss(crate::qos::LossApp),
    Latency(crate::qos::LatencyApp),
    Jitter(crate::qos::JitterApp),
    RateLimiter(crate::qos::RateLimiterApp),
    RawSocket(crate::rawsocket_app::RawSocketApp),
}

impl App {
    /// Packets an app holds internally (its delay queues).
    pub open spec fn held(&self) -> int {
        match self {
            App::Latency(x) => dq_packet_count(x.queue.entries()),
            App::Jitter(x) => dq_packet_count(x.queue.entries()),
            _ => 0,
        }
    }

    pub open spec fn wf(&self) -> bool {
        match self {
            App::Latency(x) => x.queue.wf(),
            App::Jitter(x) => x.queue.wf() && x.strength_ppm <= PPM_SCALE,
            App::RateLimiter(x) => x.bucket.wf(),
            App::Loss(x) => x.ratio_ppm <= PPM_SCALE,
            App::Tsd(x) => x.mss >= 1,
            App::Top(x) => x.table.len() == FLOWTOP_NSLOTS,
            App::PacketGen(x) => forall|i: int|
                0 <= i < x.pending.len() ==> (#[trigger] x.pending@[i]).len() <= 65535,
            _ => true,
        }
    }
}

/// What a freshly started instance of a config looks like: empty queues,
/// a fresh token bucket, a zeroed table, the config's parameters.
pub open spec fn is_fresh_instance(conf: &AppConfig, app: &App) -> bool {
    match (conf, app) {
        (AppConfig::Source(c), App::Source(a)) => a.size == c.size,
        (AppConfig::Sink(_), App::Sink(_)) => true,
        (AppConfig::Join(_), App::Join(_)) => true,
        (AppConfig::Tee(_), App::Tee(_)) => true,
        (AppConfig::PacketGen(c), App::PacketGen(a)) => a.pending.deep_view()
            == c.packets.deep_view(),
        (AppConfig::Split(c), App::Split(a)) => flows_eq(a.flows@, c.flows@),
        (AppConfig::Top(c), App::Top(a)) => a.dir == c.dir && a.table.len() == FLOWTOP_NSLOTS && (
        forall|i: int|
            0 <= i < FLOWTOP_NSLOTS ==> (#[trigger] a.table@[i]).packets == 0 && a.table@[i].bits
                == 0),
        (AppConfig::Checksum(_), App::Checksum(_)) => true,
        (AppConfig::Tsd(c), App::Tsd(a)) => a.mss == c.mss,
        (AppConfig::Loss(c), App::Loss(a)) => a.ratio_ppm == c.ratio_ppm,
        (AppConfig::Latency(c), App::Latency(a)) => a.ms == c.ms && a.queue.capacity == c.capacity
            && a.queue.entries().len() == 0,
        (AppConfig::Jitter(c), App::Jitter(a)) => a.ms == c.ms && a.strength_ppm == c.strength_ppm
            && a.reorder == c.reorder && a.queue.capacity == c.capacity && a.queue.entries().len()
            == 0,
        (AppConfig::RateLimiter(c), App::RateLimiter(a)) => a.rate == c.rate && a.bucket.last_time
            is None,
        (AppConfig::RawSocket(_), App::RawSocket(_)) => true,
        _ => false,
    }
}

/// Build a fresh runtime instance of a config.
pub fn instantiate(conf: &AppConfig) -> (app: App)
    requires
        conf.valid(),
    ensures
        is_fresh_instance(conf, &app),
        app.wf(),
        app.held() == 0,
{
    match conf {
        AppConfig::Source(c) => App::Source(SourceApp { size: c.size }),
        AppConfig::Sink(_) => App::Sink(SinkApp {}),
        AppConfig::Join(_) => App::Join(JoinApp {}),
        AppConfig::Tee(_) => App::Tee(TeeApp {}),
        AppConfig::PacketGen(c) => App::PacketGen(
            PacketGenApp { pending: dup_byte_lists(&c.packets) },
        ),
        AppConfig::Split(c) => App::Split(crate::flow::SplitApp { flows: dup_flows(&c.flows) }),
        AppConfig::Top(c) => App::Top(
            crate::flow::TopApp { table: new_flowtop_table(), dir: c.dir },
        ),
        AppConfig::Checksum(_) => App::Checksum(crate::offload::ChecksumApp {}),
        AppConfig::Tsd(c) => App::Tsd(crate::offload::TSDApp { mss: c.mss }),
        AppConfig::Loss(c) => App::Loss(crate::qos::LossApp { ratio_ppm: c.ratio_ppm }),
        AppConfig::Latency(c) => App::Latency(
            crate::qos::LatencyApp { ms: c.ms, queue: DelayQueue::new(c.capacity) },
        ),
        AppConfig::Jitter(c) => App::Jitter(
            crate::qos::JitterApp {
                ms: c.ms,
                strength_ppm: c.strength_ppm,
                reorder: c.reorder,
                queue: DelayQueue::new(c.capacity),
            },
        ),
        AppConfig::RateLimiter(c) => App::RateLimiter(
            crate::qos::RateLimiterApp { rate: c.rate, bucket: new_bucket(c.rate) },
        ),
        AppConfig::RawSocket(_) => App::RawSocket(crate::rawsocket_app::RawSocketApp {}),
    }
}

/// State of one app managed by the engine: the running instance and the
/// config it was started from. Its port links are the engine's link
/// entries whose producer or consumer is this app's name.
pub struct AppState {
    pub app: App,
    pub conf: AppConfig,
}

/// A named app in the engine's table.
pub struct AppEntry {
    pub name: String,
    pub state: AppState,
}

/// A link and the spec it was created from.
pub struct LinkEntry {
    pub spec: LinkSpec,
    pub link: Link,
}

/// Total packets queued on the engine's links.
pub open spec fn total_links(s: Seq<LinkEntry>) -> int
    decreases s.len(),
{
    if s.len() == 0 {
        0int
    } else {
        s[0].link.len() + total_links(s.drop_first())
    }
}

/// Total packets held inside the engine's apps.
pub open spec fn total_held(s: Seq<AppEntry>) -> int
    decreases s.len(),
{
    if s.len() == 0 {
        0int
    } else {
        s[0].state.app.held() + total_held(s.drop_first())
    }
}

pub proof fn lemma_total_links_remove(s: Seq<LinkEntry>, i: int)
    requires
        0 <= i < s.len(),
    ensures
        total_links(s.remove(i)) == total_links(s) - s[i].link.len(),
    decreases s.len(),
{
    if i == 0 {
        assert(s.remove(0) =~= s.drop_first());
    } else {
        assert(s.remove(i).drop_first() =~= s.drop_first().remove(i - 1));
        assert(s.remove(i)[0] == s[0]);
        lemma_total_links_remove(s.drop_first(), i - 1);
    }
}

pub proof fn lemma_total_links_insert(s: Seq<LinkEntry>, i: int, e: LinkEntry)
    requires
        0 <= i <= s.len(),
    ensures
        total_links(s.insert(i, e)) == total_links(s) + e.link.len(),
    decreases s.len(),
{
    if i == 0 {
        assert(s.insert(0, e).drop_first() =~= s);
        assert(s.insert(0, e)[0] == e);
    } else {
        assert(s.insert(i, e)[0] == s[0]);
        assert(s.insert(i, e).drop_first() =~= s.drop_first().insert(i - 1, e));
        lemma_total_links_insert(s.drop_first(), i - 1, e);
    }
}

pub proof fn lemma_total_held_remove(s: Seq<AppEntry>, i: int)
    requires
        0 <= i < s.len(),
    ensures
        total_held(s.remove(i)) == total_held(s) - s[i].state.app.held(),
    decreases s.len(),
{
    if i == 0 {
        assert(s.remove(0) =~= s.drop_first());
    } else {
        assert(s.remove(i).drop_first() =~= s.drop_first().remove(i - 1));
        assert(s.remove(i)[0] == s[0]);
        lemma_total_held_remove(s.drop_first(), i - 1);
    }
}

pub proof fn lemma_total_held_insert(s: Seq<AppEntry>, i: int, e: AppEntry)
    requires
        0 <= i <= s.len(),
    ensures
        total_held(s.insert(i, e)) == total_held(s) + e.state.app.held(),
    decreases s.len(),
{
    if i == 0 {
        assert(s.insert(0, e).drop_first() =~= s);
        assert(s.insert(0, e)[0] == e);
    } else {
        assert(s.insert(i, e)[0] == s[0]);
        assert(s.insert(i, e).drop_first() =~= s.drop_first().insert(i - 1, e));
        lemma_total_held_insert(s.drop_first(), i - 1, e);
    }
}

pub proof fn lemma_total_links_nonneg(s: Seq<LinkEntry>)
    requires
        forall|i: int| 0 <= i < s.len() ==> (#[trigger] s[i]).link.wf(),
    ensures
        total_links(s) >= 0,
    decreases s.len(),
{
    if s.len() > 0 {
        lemma_total_links_nonneg(s.drop_first());
    }
}

pub proof fn lemma_total_held_nonneg(s: Seq<AppEntry>)
    requires
        forall|i: int| 0 <= i < s.len() ==> (#[trigger] s[i]).state.app.wf(),
    ensures
        total_held(s) >= 0,
    decreases s.len(),
{
    if s.len() > 0 {
        match s[0].state.app {
            App::Latency(x) => crate::qos::lemma_dq_packet_count_nonneg(x.queue.entries()),
            App::Jitter(x) => crate::qos::lemma_dq_packet_count_nonneg(x.queue.entries()),
            _ => {},
        }
        lemma_total_held_nonneg(s.drop_first());
    }
}

/// The engine: the app and link tables, the breathe order, the packet
/// freelist, statistics, and pacing state.
pub struct EngineState {
    pub apps: Vec<AppEntry>,
    pub links: Vec<LinkEntry>,
    pub inhale: Vec<String>,
    pub exhale: Vec<String>,
    pub stats: EngineStats,
    pub fl: Freelist,
    pub now_us: u64,
    pub sleep_us: u64,
    pub lastfrees: u64,
    pub last_report_us: u64,
    pub reported_frees: u64,
    pub reported_freebits: u64,
    pub reported_freebytes: u64,
    pub reported_breaths: u64,
}

impl EngineState {
    /// Engine well-formedness, including packet conservation: every
    /// packet ever created is on the freelist, on a link, or inside an
    /// app; nothing leaks and nothing is counted twice.
    pub open spec fn wf(&self) -> bool {
        &&& self.fl.wf()
        &&& (forall|i: int| 0 <= i < self.links.len() ==> (#[trigger] self.links@[i]).link.wf())
        &&& (forall|i: int| 0 <= i < self.apps.len() ==> (#[trigger] self.apps@[i]).state.app.wf())
        &&& self.fl.outstanding() == total_links(self.links@) + total_held(self.apps@)
        &&& (forall|i: int, j: int|
            0 <= i < j < self.apps.len() ==> (#[trigger] self.apps@[i]).name@ != (
            #[trigger] self.apps@[j]).name@)
        &&& (forall|i: int, j: int|
            0 <= i < j < self.links.len() ==> (#[trigger] self.links@[i]).spec@ != (
            #[trigger] self.links@[j]).spec@)
    }

    /// A fresh engine: empty tables, empty freelist, counters zero.
    pub fn new() -> (r: EngineState)
        ensures
            r.wf(),
            r.apps.len() == 0 && r.links.len() == 0,
            r.stats.breaths == 0 && r.stats.frees == 0,
            r.fl.grown() == 0,
    {
        EngineState {
            apps: Vec::new(),
            links: Vec::new(),
            inhale: Vec::new(),
            exhale: Vec::new(),
            stats: EngineStats::new(),
            fl: Freelist::new(),
            now_us: 0,
            sleep_us: 0,
            lastfrees: 0,
            last_report_us: 0,
            reported_frees: 0,
            reported_freebits: 0,
            reported_freebytes: 0,
            reported_breaths: 0,
        }
    }

    /// The engine's monotonic time: the instant snapshotted at the start
    /// of the current breath, so that all apps within one breath observe
    /// the same moment.
    pub fn now(&self) -> (r: u64)
        ensures
            r == self.now_us,
    {
        self.now_us
    }
}

/// Lexicographic order on character sequences, by scalar value.
pub open spec fn lex_le(a: Seq<char>, b: Seq<char>) -> bool
    decreases a.len(),
{
    if a.len() == 0 {
        true
    } else if b.len() == 0 {
        false
    } else if (a[0] as int) < (b[0] as int) {
        true
    } else if (a[0] as int) > (b[0] as int) {
        false
    } else {
        lex_le(a.drop_first(), b.drop_first())
    }
}

/// The lexicographic order is a total ordering, so a sorted sequence of
/// names is uniquely determined by its multiset.
pub proof fn lemma_lex_le_total()
    ensures
        vstd::relations::total_ordering(|a: Seq<char>, b: Seq<char>| lex_le(a, b)),
{
    let leq = |a: Seq<char>, b: Seq<char>| lex_le(a, b);
    assert forall|a: Seq<char>| #[trigger] leq(a, a) by {
        lemma_lex_le_refl(a);
    }
    assert forall|a: Seq<char>, b: Seq<char>| #[trigger] leq(a, b) && #[trigger] leq(b, a)
        implies a == b by {
        lemma_lex_le_antisym(a, b);
    }
    assert forall|a: Seq<char>, b: Seq<char>, c: Seq<char>|
        #[trigger] leq(a, b) && #[trigger] leq(b, c) implies leq(a, c) by {
        lemma_lex_le_trans(a, b, c);
    }
    assert forall|a: Seq<char>, b: Seq<char>| #[trigger] leq(a, b) || #[trigger] leq(b, a) by {
        lemma_lex_le_connected(a, b);
    }
}

proof fn lemma_lex_le_refl(a: Seq<char>)
    ensures
        lex_le(a, a),
    decreases a.len(),
{
    if a.len() > 0 {
        lemma_lex_le_refl(a.drop_first());
    }
}

proof fn lemma_lex_le_antisym(a: Seq<char>, b: Seq<char>)
    requires
        lex_le(a, b),
        lex_le(b, a),
    ensures
        a == b,
    decreases a.len(),
{
    reveal_with_fuel(lex_le, 2);
    if a.len() == 0 {
        assert(b.len() == 0);
        assert(a =~= b);
    } else {
        assert(b.len() > 0);
        if (a[0] as int) < (b[0] as int) {
            assert(!lex_le(b, a));
            assert(false);
        }
        if (b[0] as int) < (a[0] as int) {
            assert(!lex_le(a, b));
            assert(false);
        }
        assert(a[0] == b[0]);
        lemma_lex_le_antisym(a.drop_first(), b.drop_first());
        assert forall|i: int| 0 <= i < a.len() implies a[i] == b[i] by {
            if i > 0 {
                assert(a[i] == a.drop_first()[i - 1]);
                assert(b[i] == b.drop_first()[i - 1]);
            }
        }
        assert(a =~= b);
    }
}

proof fn lemma_lex_le_trans(a: Seq<char>, b: Seq<char>, c: Seq<char>)
    requires
        lex_le(a, b),
        lex_le(b, c),
    ensures
        lex_le(a, c),
    decreases a.len(),
{
    if a.len() > 0 && b.len() > 0 && c.len() > 0 && a[0] == b[0] && b[0] == c[0] {
        lemma_lex_le_trans(a.drop_first(), b.drop_first(), c.drop_first());
    }
}

proof fn lemma_lex_le_connected(a: Seq<char>, b: Seq<char>)
    ensures
        lex_le(a, b) || lex_le(b, a),
    decreases a.len(),
{
    if a.len() > 0 && b.len() > 0 && a[0] == b[0] {
        lemma_lex_le_connected(a.drop_first(), b.drop_first());
    }
}

/// Whether `a` precedes `b` lexicographically (or equals it).
pub fn str_le(a: &str, b: &str) -> (r: bool)
    ensures
        r == lex_le(a@, b@),
{
    let na = a.unicode_len();
    let nb = b.unicode_len();
    let mut i: usize = 0;
    proof {
        assert(a@.skip(0) =~= a@);
        assert(b@.skip(0) =~= b@);
    }
    loop
        invariant
            i <= na,
            i <= nb,
            na == a@.len(),
            nb == b@.len(),
            lex_le(a@, b@) == lex_le(a@.skip(i as int), b@.skip(i as int)),
        ensures
            ({
                let sa = a@.skip(i as int);
                let sb = b@.skip(i as int);
                lex_le(a@, b@) == lex_le(sa, sb) && (sa.len() == 0 || sb.len() == 0 || sa[0]
                    != sb[0])
            }),
            i <= na && i <= nb,
            na == a@.len() && nb == b@.len(),
        decreases na - i,
    {
        if i >= na || i >= nb {
            break ;
        }
        let ca = a.get_char(i);
        let cb = b.get_char(i);
        if ca != cb {
            break ;
        }
        proof {
            let sa = a@.skip(i as int);
            let sb = b@.skip(i as int);
            assert(sa[0] == cb && sb[0] == cb);
            assert(sa.drop_first() =~= a@.skip(i + 1));
            assert(sb.drop_first() =~= b@.skip(i + 1));
        }
        i = i + 1;
    }
    let r;
    if i >= na {
        r = true;
        proof {
            assert(a@.skip(i as int).len() == 0);
        }
    } else if i >= nb {
        r = false;
        proof {
            assert(b@.skip(i as int).len() == 0);
            assert(a@.skip(i as int).len() > 0);
        }
    } else {
        let ca = a.get_char(i);
        let cb = b.get_char(i);
        r = (ca as u32) < (cb as u32);
        proof {
            let sa = a@.skip(i as int);
            let sb = b@.skip(i as int);
            assert(sa[0] == ca && sb[0] == cb);
            assert(ca != cb);
        }
    }
    r
}

/// The views of a vector of names.
pub open spec fn name_views(s: Seq<String>) -> Seq<Seq<char>> {
    s.map_values(|n: String| n@)
}

/// Every name on the left is at or below every name on the right.
pub open spec fn all_le(a: Seq<Seq<char>>, b: Seq<Seq<char>>) -> bool {
    forall|i: int, j: int|
        0 <= i < a.len() && 0 <= j < b.len() ==> lex_le(#[trigger] a[i], #[trigger] b[j])
}

/// The lexicographic comparator on name views.
pub open spec fn lex_leq() -> spec_fn(Seq<char>, Seq<char>) -> bool {
    |a: Seq<char>, b: Seq<char>| lex_le(a, b)
}

/// Sort names lexicographically: the result is the canonical `sort_by`
/// of the input, so it is a function of the input's contents alone.
pub fn sort_names(v: &mut Vec<String>)
    ensures
        name_views(final(v)@) == name_views(old(v)@).sort_by(lex_leq()),
{
    let mut out: Vec<String> = Vec::new();
    let ghost orig = name_views(v@);
    proof {
        lemma_lex_le_total();
        assert(name_views(out@) =~= Seq::<Seq<char>>::empty());
        assert(name_views(v@) =~= orig);
        vstd::seq_lib::lemma_multiset_commutative(name_views(out@), name_views(v@));
        assert(name_views(out@) + name_views(v@) =~= orig);
    }
    // Selection sort: repeatedly move the least remaining name.
    while v.len() > 0
        invariant
            vstd::relations::sorted_by(name_views(out@), lex_leq()),
            (name_views(out@) + name_views(v@)).to_multiset() == orig.to_multiset(),
            all_le(name_views(out@), name_views(v@)),
        decreases v.len(),
    {
        // Find the least remaining name.
        proof {
            lemma_lex_le_refl(v@[0]@);
        }
        let mut best: usize = 0;
        let mut k: usize = 1;
        while k < v.len()
            invariant
                best < k <= v.len(),
                v.len() > 0,
                forall|j: int| 0 <= j < k ==> lex_le(v@[best as int]@, (#[trigger] v@[j])@),
            decreases v.len() - k,
        {
            if str_le(v[k].as_str(), v[best].as_str()) {
                proof {
                    assert forall|j: int| 0 <= j < k + 1 implies lex_le(
                        v@[k as int]@,
                        (#[trigger] v@[j])@,
                    ) by {
                        if j < k {
                            lemma_lex_le_trans(v@[k as int]@, v@[best as int]@, v@[j]@);
                        } else {
                            lemma_lex_le_refl(v@[k as int]@);
                        }
                    }
                }
                best = k;
            } else {
                proof {
                    lemma_lex_le_connected(v@[best as int]@, v@[k as int]@);
                }
            }
            k = k + 1;
        }
        let ghost vs0 = name_views(v@);
        let ghost outs0 = name_views(out@);
        proof {
            assert(all_le(outs0, vs0));
            assert(vstd::relations::sorted_by(outs0, lex_leq()));
        }
        let least = v.remove(best);
        out.push(least);
        proof {
            assert(name_views(v@) =~= vs0.remove(best as int));
            assert(name_views(out@) =~= outs0.push(vs0[best as int]));
            vs0.to_multiset_ensures();
            outs0.to_multiset_ensures();
            // Sortedness of the grown prefix.
            let outs1 = name_views(out@);
            assert forall|i: int, j: int| 0 <= i < j < outs1.len() implies #[trigger] lex_leq()(
                outs1[i],
                outs1[j],
            ) by {
                if j < outs1.len() - 1 {
                    assert(lex_leq()(outs0[i], outs0[j]));
                    assert(outs1[i] == outs0[i] && outs1[j] == outs0[j]);
                } else {
                    assert(outs1[i] == outs0[i]);
                    assert(outs1[j] == vs0[best as int]);
                    assert(lex_le(outs0[i], vs0[best as int]));
                    assert(lex_leq()(outs1[i], outs1[j]) == lex_le(outs1[i], outs1[j]));
                }
            }
            assert(vstd::relations::sorted_by(outs1, lex_leq()));
            // The multiset of names is preserved.
            vstd::seq_lib::lemma_multiset_commutative(outs1, name_views(v@));
            vstd::seq_lib::lemma_multiset_commutative(outs0, vs0);
            assert((outs1 + name_views(v@)).to_multiset() =~= orig.to_multiset());
            // Everything still unsorted is at or above the new element.
            assert forall|i: int, j: int|
                0 <= i < name_views(out@).len() && 0 <= j < name_views(v@).len() implies lex_le(
                    #[trigger] name_views(out@)[i],
                    #[trigger] name_views(v@)[j],
                ) by {
                let jo = if j < best { j } else { j + 1 };
                assert(name_views(v@)[j] == vs0[jo]);
                if i < name_views(out@).len() - 1 {
                    assert(name_views(out@)[i] == outs0[i]);
                    assert(lex_le(outs0[i], vs0[jo]));
                } else {
                    assert(name_views(out@)[i] == vs0[best as int]);
                    assert(lex_le(vs0[best as int], vs0[jo]));
                }
            }
            assert(all_le(name_views(out@), name_views(v@)));
        }
    }
    proof {
        lemma_lex_le_total();
        assert(name_views(v@) =~= Seq::<Seq<char>>::empty());
        assert(name_views(out@) + name_views(v@) =~= name_views(out@));
        orig.lemma_sort_by_ensures(lex_leq());
        let sorted = orig.sort_by(lex_leq());
        vstd::seq_lib::lemma_sorted_unique(name_views(out@), sorted, lex_leq());
        assert(name_views(out@) == sorted);
    }
    core::mem::swap(v, &mut out);
}

/// Whether two strings hold the same characters.
pub fn str_eq(a: &str, b: &str) -> (r: bool)
    ensures
        r == (a@ == b@),
{
    let na = a.unicode_len();
    let nb = b.unicode_len();
    if na != nb {
        return false;
    }
    let mut i: usize = 0;
    while i < na
        invariant
            i <= na,
            na == a@.len(),
            na == b@.len(),
            forall|j: int| 0 <= j < i ==> a@[j] == b@[j],
        decreases na - i,
    {
        if a.get_char(i) != b.get_char(i) {
            return false;
        }
        i = i + 1;
    }
    proof {
        assert(a@ =~= b@);
    }
    true
}

/// First index at or past `start` of a link entry whose producer is `name`.
fn next_output(links: &Vec<LinkEntry>, name: &String, start: usize) -> (r: Option<usize>)
    ensures
        r matches Some(j) ==> start <= j < links.len() && links@[j as int].spec.from@ == name@ && (
        forall|k: int| start <= k < j ==> (#[trigger] links@[k]).spec.from@ != name@),
        r is None ==> forall|k: int|
            start <= k < links.len() ==> (#[trigger] links@[k]).spec.from@ != name@,
{
    let mut j = start;
    while j < links.len()
        invariant
            start <= j,
            forall|k: int| start <= k < j ==> (#[trigger] links@[k]).spec.from@ != name@,
        decreases links.len() - j,
    {
        if str_eq(links[j].spec.from.as_str(), name.as_str()) {
            return Some(j);
        }
        j = j + 1;
    }
    None
}

/// First index at or past `start` of a link entry whose consumer is `name`.
fn next_input(links: &Vec<LinkEntry>, name: &String, start: usize) -> (r: Option<usize>)
    ensures
        r matches Some(j) ==> start <= j < links.len() && links@[j as int].spec.to@ == name@ && (
        forall|k: int| start <= k < j ==> (#[trigger] links@[k]).spec.to@ != name@),
        r is None ==> forall|k: int|
            start <= k < links.len() ==> (#[trigger] links@[k]).spec.to@ != name@,
{
    let mut j = start;
    while j < links.len()
        invariant
            start <= j,
            forall|k: int| start <= k < j ==> (#[trigger] links@[k]).spec.to@ != name@,
        decreases links.len() - j,
    {
        if str_eq(links[j].spec.to.as_str(), name.as_str()) {
            return Some(j);
        }
        j = j + 1;
    }
    None
}

/// The link entry whose producer is `name` on the given output port.
fn find_output_port(links: &Vec<LinkEntry>, name: &String, port: &str) -> (r: Option<usize>)
    ensures
        r matches Some(j) ==> j < links.len() && links@[j as int].spec.from@ == name@
            && links@[j as int].spec.output@ == port@,
        r is None ==> forall|k: int|
            0 <= k < links.len() ==> !((#[trigger] links@[k]).spec.from@ == name@
                && links@[k].spec.output@ == port@),
{
    let mut j: usize = 0;
    while j < links.len()
        invariant
            forall|k: int|
                0 <= k < j ==> !((#[trigger] links@[k]).spec.from@ == name@
                    && links@[k].spec.output@ == port@),
        decreases links.len() - j,
    {
        if str_eq(links[j].spec.from.as_str(), name.as_str()) && str_eq(
            links[j].spec.output.as_str(),
            port,
        ) {
            return Some(j);
        }
        j = j + 1;
    }
    None
}

/// The link entry whose consumer is `name` on the given input port.
fn find_input_port(links: &Vec<LinkEntry>, name: &String, port: &str) -> (r: Option<usize>)
    ensures
        r matches Some(j) ==> j < links.len() && links@[j as int].spec.to@ == name@
            && links@[j as int].spec.input@ == port@,
{
    let mut j: usize = 0;
    while j < links.len()
        decreases links.len() - j,
    {
        if str_eq(links[j].spec.to.as_str(), name.as_str()) && str_eq(
            links[j].spec.input.as_str(),
            port,
        ) {
            return Some(j);
        }
        j = j + 1;
    }
    None
}


impl EngineState {
    /// The engine's table shapes that a breath preserves: the same apps
    /// under the same names and configs, the same link specs.
    pub open spec fn same_shape(&self, other: &EngineState) -> bool {
        &&& self.apps.len() == other.apps.len()
        &&& (forall|k: int|
            0 <= k < self.apps.len() ==> (#[trigger] other.apps@[k]).name@ == self.apps@[k].name@
                && other.apps@[k].state.conf == self.apps@[k].state.conf)
        &&& self.links.len() == other.links.len()
        &&& (forall|k: int|
            0 <= k < self.links.len() ==> (#[trigger] other.links@[k]).spec@
                == self.links@[k].spec@)
        &&& other.inhale@ == self.inhale@
        &&& other.exhale@ == self.exhale@
    }

    /// Run one link-level pull or push operation on the link at `j`,
    /// dispatched by `op`, against the app state in `held`.
    fn source_pull_at(&mut self, j: usize, size: u16)
        requires
            old(self).wf(),
            j < old(self).links.len(),
        ensures
            final(self).wf(),
            final(self).apps@ == old(self).apps@,
            final(self).links.len() == old(self).links.len(),
            forall|k: int|
                0 <= k < old(self).links.len() ==> (#[trigger] final(self).links@[k]).spec@
                    == old(self).links@[k].spec@,
            final(self).inhale@ == old(self).inhale@ && final(self).exhale@ == old(self).exhale@,
            final(self).fl.grown() >= old(self).fl.grown(),
            final(self).stats.breaths == old(self).stats.breaths,
            final(self).now_us == old(self).now_us && final(self).sleep_us == old(self).sleep_us
                && final(self).lastfrees == old(self).lastfrees,
            forall|k: int|
                0 <= k < old(self).links.len() && k != j ==> #[trigger] final(self).links@[k]
                    == old(self).links@[k],
            // With room for a batch and a freelist that can cover one,
            // the leg gains exactly a batch.
            old(self).links@[j as int].link.len() + PULL_NPACKETS <= LINK_MAX_PACKETS && (old(
                self,
            ).fl.nfree() >= PULL_NPACKETS || old(self).fl.grown() + old(self).fl.step_size()
                <= crate::packet::MAX_PACKETS) ==> final(self).links@[j as int].link.len() == old(
                self,
            ).links@[j as int].link.len() + PULL_NPACKETS,
    {
        let ghost links0 = self.links@;
        let mut le = self.links.remove(j);
        proof {
            lemma_total_links_remove(links0, j as int);
        }
        source_pull(&mut self.fl, &mut self.stats, &mut le.link, size);
        let ghost links1 = self.links@;
        let ghost le1 = le;
        self.links.insert(j, le);
        proof {
            lemma_total_links_insert(links1, j as int, le1);
            assert(self.links@ =~= links0.update(j as int, le1));
            assert forall|a: int, b: int|
                0 <= a < b < self.links.len() implies (#[trigger] self.links@[a]).spec@ != (
                #[trigger] self.links@[b]).spec@ by {
                assert(self.links@[a].spec@ == links0[a].spec@);
                assert(self.links@[b].spec@ == links0[b].spec@);
            }
            assert forall|k: int| 0 <= k < self.links.len() implies (
            #[trigger] self.links@[k]).link.wf() by {
                if k != j {
                    assert(self.links@[k] == links0[k]);
                }
            }
            assert(self.fl.outstanding() == total_links(self.links@) + total_held(self.apps@));
            assert(le1.spec@ == links0[j as int].spec@);
            assert forall|k: int| 0 <= k < self.links.len() implies (
            #[trigger] self.links@[k]).spec@ == links0[k].spec@ by {
                if k != j {
                    assert(self.links@[k] == links0[k]);
                }
            }
            assert(self.apps@ == old(self).apps@);
            assert(self.links.len() == old(self).links.len());
            assert forall|k: int|
                0 <= k < old(self).apps.len() implies (#[trigger] self.apps@[k]).name@ == old(
                    self,
                ).apps@[k].name@ && self.apps@[k].state.conf == old(self).apps@[k].state.conf by {}
            assert(self.inhale@ == old(self).inhale@);
            assert(self.exhale@ == old(self).exhale@);
        }
    }
}


impl EngineState {
    /// Well-formedness while `extra` packets are out of the tables, in a
    /// caller's hands.
    pub open spec fn wf_except(&self, extra: int) -> bool {
        &&& self.fl.wf()
        &&& (forall|i: int| 0 <= i < self.links.len() ==> (#[trigger] self.links@[i]).link.wf())
        &&& (forall|i: int| 0 <= i < self.apps.len() ==> (#[trigger] self.apps@[i]).state.app.wf())
        &&& self.fl.outstanding() == total_links(self.links@) + total_held(self.apps@) + extra
        &&& (forall|i: int, j: int|
            0 <= i < j < self.apps.len() ==> (#[trigger] self.apps@[i]).name@ != (
            #[trigger] self.apps@[j]).name@)
        &&& (forall|i: int, j: int|
            0 <= i < j < self.links.len() ==> (#[trigger] self.links@[i]).spec@ != (
            #[trigger] self.links@[j]).spec@)
    }

    /// Tables keep their shape: same link specs at the same indices, the
    /// same apps; only contents move.
    pub open spec fn links_shape(&self, other: &EngineState) -> bool {
        &&& other.links.len() == self.links.len()
        &&& (forall|k: int|
            0 <= k < self.links.len() ==> (#[trigger] other.links@[k]).spec@
                == self.links@[k].spec@)
    }

    /// Drain the input link at `j` into a buffer.
    fn drain_at(&mut self, j: usize) -> (r: Vec<Packet>)
        requires
            old(self).wf_except(0),
            j < old(self).links.len(),
        ensures
            final(self).wf_except(r.len() as int),
            old(self).links_shape(final(self)),
            final(self).apps@ == old(self).apps@,
            final(self).fl == old(self).fl,
            final(self).stats == old(self).stats,
            forall|i: int| 0 <= i < r.len() ==> (#[trigger] r@[i]).wf(),
            final(self).now_us == old(self).now_us && final(self).sleep_us == old(self).sleep_us
                && final(self).lastfrees == old(self).lastfrees,
            final(self).inhale@ == old(self).inhale@ && final(self).exhale@ == old(self).exhale@,
            final(self).links@[j as int].link.len() == 0,
            r@ =~= old(self).links@[j as int].link.queue(),
            forall|k: int|
                0 <= k < old(self).links.len() && k != j ==> #[trigger] final(self).links@[k]
                    == old(self).links@[k],
    {
        let ghost links0 = self.links@;
        let mut le = self.links.remove(j);
        proof {
            lemma_total_links_remove(links0, j as int);
        }
        let buf = drain_link(&mut le.link);
        let ghost links1 = self.links@;
        let ghost le1 = le;
        self.links.insert(j, le);
        proof {
            lemma_total_links_insert(links1, j as int, le1);
            assert(self.links@ =~= links0.update(j as int, le1));
            self.lemma_links_update_ok(links0, j as int, le1);
        }
        buf
    }

    /// After updating one link entry in place (same spec), the table
    /// shape and uniqueness facts carry over.
    proof fn lemma_links_update_ok(&self, links0: Seq<LinkEntry>, j: int, le1: LinkEntry)
        requires
            0 <= j < links0.len(),
            self.links@ == links0.update(j, le1),
            le1.spec@ == links0[j].spec@,
            le1.link.wf(),
            forall|i: int| 0 <= i < links0.len() ==> (#[trigger] links0[i]).link.wf(),
            forall|a: int, b: int|
                0 <= a < b < links0.len() ==> (#[trigger] links0[a]).spec@ != (
                #[trigger] links0[b]).spec@,
        ensures
            forall|i: int| 0 <= i < self.links.len() ==> (#[trigger] self.links@[i]).link.wf(),
            forall|a: int, b: int|
                0 <= a < b < self.links.len() ==> (#[trigger] self.links@[a]).spec@ != (
                #[trigger] self.links@[b]).spec@,
            forall|k: int|
                0 <= k < self.links.len() ==> (#[trigger] self.links@[k]).spec@ == links0[k].spec@,
            self.links.len() == links0.len(),
    {
        assert forall|i: int| 0 <= i < self.links.len() implies (
        #[trigger] self.links@[i]).link.wf() by {
            if i != j {
                assert(self.links@[i] == links0[i]);
            }
        }
        assert forall|k: int| 0 <= k < self.links.len() implies (#[trigger] self.links@[k]).spec@
            == links0[k].spec@ by {
            if k != j {
                assert(self.links@[k] == links0[k]);
            }
        }
        assert forall|a: int, b: int|
            0 <= a < b < self.links.len() implies (#[trigger] self.links@[a]).spec@ != (
            #[trigger] self.links@[b]).spec@ by {
            assert(self.links@[a].spec@ == links0[a].spec@);
            assert(self.links@[b].spec@ == links0[b].spec@);
        }
    }

    /// Transmit a buffer onto the output link at `j` in order.
    fn transmit_all_at(&mut self, j: usize, ps: Vec<Packet>, extra: Ghost<int>)
        requires
            old(self).wf_except(ps.len() + extra@),
            extra@ >= 0,
            j < old(self).links.len(),
            forall|i: int| 0 <= i < ps.len() ==> (#[trigger] ps@[i]).wf(),
        ensures
            final(self).wf_except(extra@),
            old(self).links_shape(final(self)),
            final(self).apps@ == old(self).apps@,
            final(self).fl.grown() == old(self).fl.grown(),
            final(self).stats.breaths == old(self).stats.breaths,
            final(self).now_us == old(self).now_us && final(self).sleep_us == old(self).sleep_us
                && final(self).lastfrees == old(self).lastfrees,
            final(self).inhale@ == old(self).inhale@ && final(self).exhale@ == old(self).exhale@,
            forall|k: int|
                0 <= k < old(self).links.len() && k != j ==> #[trigger] final(self).links@[k]
                    == old(self).links@[k],
    {
        let ghost links0 = self.links@;
        let mut le = self.links.remove(j);
        proof {
            lemma_total_links_remove(links0, j as int);
            crate::packet::lemma_freelist_counts(&self.fl);
            lemma_total_links_nonneg(self.links@);
            lemma_total_held_nonneg(self.apps@);
        }
        transmit_all(&mut le.link, &mut self.fl, &mut self.stats, ps);
        let ghost links1 = self.links@;
        let ghost le1 = le;
        self.links.insert(j, le);
        proof {
            lemma_total_links_insert(links1, j as int, le1);
            assert(self.links@ =~= links0.update(j as int, le1));
            self.lemma_links_update_ok(links0, j as int, le1);
        }
    }

    /// Free a buffer of packets back to the freelist.
    fn free_buf(&mut self, ps: Vec<Packet>, extra: Ghost<int>)
        requires
            old(self).wf_except(ps.len() + extra@),
            extra@ >= 0,
            forall|i: int| 0 <= i < ps.len() ==> (#[trigger] ps@[i]).wf(),
        ensures
            final(self).wf_except(extra@),
            final(self).links@ == old(self).links@,
            final(self).apps@ == old(self).apps@,
            final(self).fl.grown() == old(self).fl.grown(),
            final(self).stats.breaths == old(self).stats.breaths,
            final(self).now_us == old(self).now_us && final(self).sleep_us == old(self).sleep_us
                && final(self).lastfrees == old(self).lastfrees,
            final(self).inhale@ == old(self).inhale@ && final(self).exhale@ == old(self).exhale@,
    {
        proof {
            lemma_total_links_nonneg(self.links@);
            lemma_total_held_nonneg(self.apps@);
        }
        free_all(&mut self.fl, &mut self.stats, ps);
    }
}


impl EngineState {
    /// Drain-and-free the input link at `j` (a Sink leg).
    fn sink_push_at(&mut self, j: usize)
        requires
            old(self).wf_except(0),
            j < old(self).links.len(),
        ensures
            final(self).wf_except(0),
            old(self).links_shape(final(self)),
            final(self).apps@ == old(self).apps@,
            final(self).fl.grown() == old(self).fl.grown(),
            final(self).stats.breaths == old(self).stats.breaths,
            final(self).now_us == old(self).now_us && final(self).sleep_us == old(self).sleep_us
                && final(self).lastfrees == old(self).lastfrees,
            final(self).inhale@ == old(self).inhale@ && final(self).exhale@ == old(self).exhale@,
            final(self).links@[j as int].link.len() == 0,
            forall|k: int|
                0 <= k < old(self).links.len() && k != j ==> #[trigger] final(self).links@[k]
                    == old(self).links@[k],
    {
        let ghost links0 = self.links@;
        let mut le = self.links.remove(j);
        proof {
            lemma_total_links_remove(links0, j as int);
            crate::packet::lemma_freelist_counts(&self.fl);
            lemma_total_links_nonneg(self.links@);
            lemma_total_held_nonneg(self.apps@);
        }
        sink_push(&mut self.fl, &mut self.stats, &mut le.link);
        let ghost links1 = self.links@;
        let ghost le1 = le;
        self.links.insert(j, le);
        proof {
            lemma_total_links_insert(links1, j as int, le1);
            assert(self.links@ =~= links0.update(j as int, le1));
            self.lemma_links_update_ok(links0, j as int, le1);
        }
    }

    /// Copy a buffer onto the output link at `j` (a Tee leg).
    fn tee_copy_at(&mut self, j: usize, ps: &Vec<Packet>)
        requires
            old(self).wf_except(ps.len() as int),
            j < old(self).links.len(),
            forall|i: int| 0 <= i < ps.len() ==> (#[trigger] ps@[i]).wf(),
        ensures
            final(self).wf_except(ps.len() as int),
            old(self).links_shape(final(self)),
            final(self).apps@ == old(self).apps@,
            final(self).fl.grown() >= old(self).fl.grown(),
            final(self).stats.breaths == old(self).stats.breaths,
            final(self).now_us == old(self).now_us && final(self).sleep_us == old(self).sleep_us
                && final(self).lastfrees == old(self).lastfrees,
            final(self).inhale@ == old(self).inhale@ && final(self).exhale@ == old(self).exhale@,
            forall|k: int|
                0 <= k < old(self).links.len() && k != j ==> #[trigger] final(self).links@[k]
                    == old(self).links@[k],
    {
        let ghost links0 = self.links@;
        let mut le = self.links.remove(j);
        proof {
            lemma_total_links_remove(links0, j as int);
        }
        tee_copy_to(&mut le.link, &mut self.fl, &mut self.stats, ps);
        let ghost links1 = self.links@;
        let ghost le1 = le;
        self.links.insert(j, le);
        proof {
            lemma_total_links_insert(links1, j as int, le1);
            assert(self.links@ =~= links0.update(j as int, le1));
            self.lemma_links_update_ok(links0, j as int, le1);
        }
    }

    /// Segment-and-forward a buffer onto the output link at `j` (TSD).
    fn tsd_at(&mut self, j: usize, ps: Vec<Packet>, mss: u16)
        requires
            old(self).wf_except(ps.len() as int),
            j < old(self).links.len(),
            mss >= 1,
            forall|i: int| 0 <= i < ps.len() ==> (#[trigger] ps@[i]).wf(),
        ensures
            final(self).wf_except(0),
            old(self).links_shape(final(self)),
            final(self).apps@ == old(self).apps@,
            final(self).fl.grown() >= old(self).fl.grown(),
            final(self).stats.breaths == old(self).stats.breaths,
            final(self).now_us == old(self).now_us && final(self).sleep_us == old(self).sleep_us
                && final(self).lastfrees == old(self).lastfrees,
            final(self).inhale@ == old(self).inhale@ && final(self).exhale@ == old(self).exhale@,
    {
        let ghost links0 = self.links@;
        let mut le = self.links.remove(j);
        proof {
            lemma_total_links_remove(links0, j as int);
        }
        let ghost c0 = self.fl.outstanding() - le.link.len() - ps.len();
        let mut ps = ps;
        while ps.len() > 0
            invariant
                self.fl.wf(),
                le.link.wf(),
                forall|i: int| 0 <= i < ps.len() ==> (#[trigger] ps@[i]).wf(),
                mss >= 1,
                self.links@ == links0.remove(j as int),
                le.spec@ == links0[j as int].spec@,
                self.apps@ == old(self).apps@,
                self.stats.breaths == old(self).stats.breaths,
                self.fl.grown() >= old(self).fl.grown(),
                self.now_us == old(self).now_us,
                self.sleep_us == old(self).sleep_us,
                self.lastfrees == old(self).lastfrees,
                self.inhale@ == old(self).inhale@,
                self.exhale@ == old(self).exhale@,
                forall|i: int| 0 <= i < self.links.len() ==> (#[trigger] self.links@[i]).link.wf(),
                forall|i: int| 0 <= i < self.apps.len() ==> (#[trigger] self.apps@[i]).state.app.wf(),
                self.fl.outstanding() - le.link.len() - ps.len() == c0,
                c0 == total_links(links0.remove(j as int)) + total_held(self.apps@),
            decreases ps.len(),
        {
            let p = ps.remove(0);
            proof {
                crate::packet::lemma_freelist_counts(&self.fl);
                lemma_total_links_nonneg(self.links@);
                lemma_total_held_nonneg(self.apps@);
            }
            forward_tcp_segments(&mut le.link, &mut self.fl, &mut self.stats, p, mss);
        }
        let ghost links1 = self.links@;
        let ghost le1 = le;
        self.links.insert(j, le);
        proof {
            lemma_total_links_insert(links1, j as int, le1);
            assert(self.links@ =~= links0.update(j as int, le1));
            self.lemma_links_update_ok(links0, j as int, le1);
        }
    }
}


/// Which QoS operation a two-link bracket runs.
enum TwoLinkOp {
    Loss(u32),
    Rate(u64),
}

impl EngineState {
    /// Run a Loss or RateLimiter push between the input link at `ji` and
    /// the output link at `jo`, with the bucket where one is needed.
    #[verifier::spinoff_prover]
    fn two_link_push(
        &mut self,
        ji: usize,
        jo: usize,
        op: TwoLinkOp,
        bucket: &mut BitrateBucket,
    )
        requires
            old(self).wf_except(0),
            ji < old(self).links.len(),
            jo < old(self).links.len(),
            ji != jo,
            old(bucket).wf(),
            op matches TwoLinkOp::Loss(r) ==> r <= PPM_SCALE,
        ensures
            final(self).wf_except(0),
            old(self).links_shape(final(self)),
            final(self).apps@ == old(self).apps@,
            final(bucket).wf(),
            final(self).fl.grown() == old(self).fl.grown(),
            final(self).stats.breaths == old(self).stats.breaths,
            final(self).now_us == old(self).now_us && final(self).sleep_us == old(self).sleep_us
                && final(self).lastfrees == old(self).lastfrees,
            final(self).inhale@ == old(self).inhale@ && final(self).exhale@ == old(self).exhale@,
    {
        let ghost links0 = self.links@;
        let mut lei = self.links.remove(ji);
        proof {
            lemma_total_links_remove(links0, ji as int);
        }
        let jo2 = if jo > ji {
            jo - 1
        } else {
            jo
        };
        let ghost linksa = self.links@;
        let mut leo = self.links.remove(jo2);
        proof {
            lemma_total_links_remove(linksa, jo2 as int);
            assert(linksa[jo2 as int] == links0[jo as int]);
            crate::packet::lemma_freelist_counts(&self.fl);
            lemma_total_links_nonneg(self.links@);
            lemma_total_held_nonneg(self.apps@);
        }
        let now = self.now_us;
        match op {
            TwoLinkOp::Loss(ratio_ppm) => {
                loss_push(
                    &mut self.fl,
                    &mut self.stats,
                    &mut lei.link,
                    &mut leo.link,
                    ratio_ppm,
                );
            },
            TwoLinkOp::Rate(rate) => {
                ratelimiter_push(
                    &mut self.fl,
                    &mut self.stats,
                    &mut lei.link,
                    &mut leo.link,
                    bucket,
                    now,
                    rate,
                );
            },
        }
        let ghost linksb = self.links@;
        let ghost leo1 = leo;
        self.links.insert(jo2, leo);
        proof {
            lemma_total_links_insert(linksb, jo2 as int, leo1);
        }
        let ghost linksc = self.links@;
        let ghost lei1 = lei;
        self.links.insert(ji, lei);
        proof {
            lemma_total_links_insert(linksc, ji as int, lei1);
            assert(self.links@ =~= links0.update(ji as int, lei1).update(jo as int, leo1));
            self.lemma_links_update2_ok(links0, ji as int, lei1, jo as int, leo1);
        }
    }

    /// After updating two link entries in place (same specs), the table
    /// shape and uniqueness facts carry over.
    proof fn lemma_links_update2_ok(
        &self,
        links0: Seq<LinkEntry>,
        ji: int,
        lei: LinkEntry,
        jo: int,
        leo: LinkEntry,
    )
        requires
            0 <= ji < links0.len(),
            0 <= jo < links0.len(),
            ji != jo,
            self.links@ == links0.update(ji, lei).update(jo, leo),
            lei.spec@ == links0[ji].spec@,
            leo.spec@ == links0[jo].spec@,
            lei.link.wf(),
            leo.link.wf(),
            forall|i: int| 0 <= i < links0.len() ==> (#[trigger] links0[i]).link.wf(),
            forall|a: int, b: int|
                0 <= a < b < links0.len() ==> (#[trigger] links0[a]).spec@ != (
                #[trigger] links0[b]).spec@,
        ensures
            forall|i: int| 0 <= i < self.links.len() ==> (#[trigger] self.links@[i]).link.wf(),
            forall|a: int, b: int|
                0 <= a < b < self.links.len() ==> (#[trigger] self.links@[a]).spec@ != (
                #[trigger] self.links@[b]).spec@,
            forall|k: int|
                0 <= k < self.links.len() ==> (#[trigger] self.links@[k]).spec@ == links0[k].spec@,
            self.links.len() == links0.len(),
    {
        assert forall|i: int| 0 <= i < self.links.len() implies (
        #[trigger] self.links@[i]).link.wf() by {
            if i != ji && i != jo {
                assert(self.links@[i] == links0[i]);
            }
        }
        assert forall|k: int| 0 <= k < self.links.len() implies (#[trigger] self.links@[k]).spec@
            == links0[k].spec@ by {
            if k != ji && k != jo {
                assert(self.links@[k] == links0[k]);
            }
        }
        assert forall|a: int, b: int|
            0 <= a < b < self.links.len() implies (#[trigger] self.links@[a]).spec@ != (
            #[trigger] self.links@[b]).spec@ by {
            assert(self.links@[a].spec@ == links0[a].spec@);
            assert(self.links@[b].spec@ == links0[b].spec@);
        }
    }

    /// Latency/Jitter push: move input packets into the delay queue (and
    /// for Jitter, possibly straight to the output).
    #[verifier::rlimit(100)]
    #[verifier::spinoff_prover]
    fn delay_push_at(
        &mut self,
        ji: usize,
        jo: Option<usize>,
        q: &mut DelayQueue,
        ms: u64,
        strength_ppm: u32,
        reorder: bool,
        jitter: bool,
    )
        requires
            old(self).wf_except(dq_packet_count(old(q).entries())),
            old(q).wf(),
            strength_ppm <= PPM_SCALE,
            ji < old(self).links.len(),
            jitter ==> (jo matches Some(o) && o < old(self).links.len() && o != ji),
            !jitter ==> jo is None,
        ensures
            final(self).wf_except(dq_packet_count(final(q).entries())),
            final(q).wf(),
            final(q).capacity == old(q).capacity,
            old(self).links_shape(final(self)),
            final(self).apps@ == old(self).apps@,
            final(self).fl.grown() == old(self).fl.grown(),
            final(self).stats.breaths == old(self).stats.breaths,
            final(self).now_us == old(self).now_us && final(self).sleep_us == old(self).sleep_us
                && final(self).lastfrees == old(self).lastfrees,
            final(self).inhale@ == old(self).inhale@ && final(self).exhale@ == old(self).exhale@,
    {
        proof {
            crate::qos::lemma_dq_packet_count_nonneg(q.entries());
        }
        let now = self.now_us;
        if !jitter {
            let ghost links0 = self.links@;
            let mut lei = self.links.remove(ji);
            proof {
                lemma_total_links_remove(links0, ji as int);
            }
            latency_push(&mut self.fl, &mut self.stats, &mut lei.link, q, now, ms);
            let ghost links1 = self.links@;
            let ghost lei1 = lei;
            self.links.insert(ji, lei);
            proof {
                lemma_total_links_insert(links1, ji as int, lei1);
                assert(self.links@ =~= links0.update(ji as int, lei1));
                self.lemma_links_update_ok(links0, ji as int, lei1);
            }
        } else {
            let jo = jo.unwrap();
            let ghost links0 = self.links@;
            let mut lei = self.links.remove(ji);
            proof {
                lemma_total_links_remove(links0, ji as int);
            }
            let jo2 = if jo > ji {
                jo - 1
            } else {
                jo
            };
            let ghost linksa = self.links@;
            let mut leo = self.links.remove(jo2);
            proof {
                lemma_total_links_remove(linksa, jo2 as int);
                assert(linksa[jo2 as int] == links0[jo as int]);
                crate::packet::lemma_freelist_counts(&self.fl);
                lemma_total_links_nonneg(self.links@);
                lemma_total_held_nonneg(self.apps@);
            }
            jitter_push(
                &mut self.fl,
                &mut self.stats,
                &mut lei.link,
                &mut leo.link,
                q,
                now,
                ms,
                strength_ppm,
                reorder,
            );
            let ghost linksb = self.links@;
            let ghost leo1 = leo;
            self.links.insert(jo2, leo);
            proof {
                lemma_total_links_insert(linksb, jo2 as int, leo1);
            }
            let ghost linksc = self.links@;
            let ghost lei1 = lei;
            self.links.insert(ji, lei);
            proof {
                lemma_total_links_insert(linksc, ji as int, lei1);
                assert(self.links@ =~= links0.update(ji as int, lei1).update(jo as int, leo1));
                self.lemma_links_update2_ok(links0, ji as int, lei1, jo as int, leo1);
            }
        }
    }

    /// Latency/Jitter pull: drain the releasable head of the delay queue
    /// onto the output link at `jo`.
    fn delay_pull_at(&mut self, jo: usize, q: &mut DelayQueue)
        requires
            old(self).wf_except(dq_packet_count(old(q).entries())),
            old(q).wf(),
            jo < old(self).links.len(),
        ensures
            final(self).wf_except(dq_packet_count(final(q).entries())),
            final(q).wf(),
            final(q).capacity == old(q).capacity,
            old(self).links_shape(final(self)),
            final(self).apps@ == old(self).apps@,
            final(self).fl.grown() == old(self).fl.grown(),
            final(self).stats.breaths == old(self).stats.breaths,
            final(self).now_us == old(self).now_us && final(self).sleep_us == old(self).sleep_us
                && final(self).lastfrees == old(self).lastfrees,
            final(self).inhale@ == old(self).inhale@ && final(self).exhale@ == old(self).exhale@,
    {
        proof {
            crate::qos::lemma_dq_packet_count_nonneg(q.entries());
            lemma_total_links_nonneg(self.links@);
            lemma_total_held_nonneg(self.apps@);
        }
        let now = self.now_us;
        let ghost links0 = self.links@;
        let mut leo = self.links.remove(jo);
        proof {
            lemma_total_links_remove(links0, jo as int);
        }
        delay_queue_pull(&mut self.fl, &mut self.stats, &mut leo.link, q, now);
        let ghost links1 = self.links@;
        let ghost leo1 = leo;
        self.links.insert(jo, leo);
        proof {
            lemma_total_links_insert(links1, jo as int, leo1);
            assert(self.links@ =~= links0.update(jo as int, leo1));
            self.lemma_links_update_ok(links0, jo as int, leo1);
        }
    }
}


/// Fill in offloaded checksums across a buffer of packets: each packet
/// becomes exactly what the checksum transformation leaves of it.
fn checksum_buf(ps: Vec<Packet>) -> (r: Vec<Packet>)
    requires
        forall|i: int| 0 <= i < ps.len() ==> (#[trigger] ps@[i]).wf(),
    ensures
        r.len() == ps.len(),
        forall|i: int|
            0 <= i < r.len() ==> {
                &&& (#[trigger] r@[i]).wf()
                &&& r@[i].length == ps@[i].length
                &&& r@[i].data@ =~= crate::offload::spec_checksum_app(
                    ps@[i].data@,
                    ps@[i].length as int,
                )
            },
{
    let mut work = ps;
    let mut out: Vec<Packet> = Vec::new();
    let ghost all = work@;
    while work.len() > 0
        invariant
            out.len() + work.len() == all.len(),
            work@ =~= all.skip(out.len() as int),
            forall|i: int| 0 <= i < work.len() ==> (#[trigger] work@[i]).wf(),
            forall|i: int|
                0 <= i < out.len() ==> {
                    &&& (#[trigger] out@[i]).wf()
                    &&& out@[i].length == all[i].length
                    &&& out@[i].data@ =~= crate::offload::spec_checksum_app(
                        all[i].data@,
                        all[i].length as int,
                    )
                },
        decreases work.len(),
    {
        let ghost done = out.len() as int;
        let mut p = work.remove(0);
        proof {
            assert(p == all.skip(done)[0]);
            assert(p == all[done]);
            assert(work@ =~= all.skip(done + 1));
        }
        maybe_fill_in_checksum(&mut p);
        out.push(p);
    }
    proof {
        assert(all =~= ps@);
    }
    out
}

/// Count every packet of a buffer into a flow-top table.
fn top_count_buf(table: &mut Vec<FlowCtr>, dir: crate::flow::Dir, ps: &Vec<Packet>)
    requires
        old(table).len() == FLOWTOP_NSLOTS,
        forall|i: int| 0 <= i < ps.len() ==> (#[trigger] ps@[i]).wf(),
    ensures
        final(table).len() == FLOWTOP_NSLOTS,
{
    let mut k: usize = 0;
    while k < ps.len()
        invariant
            table.len() == FLOWTOP_NSLOTS,
            forall|i: int| 0 <= i < ps.len() ==> (#[trigger] ps@[i]).wf(),
        decreases ps.len() - k,
    {
        flow_count(&ps[k], dir, table);
        k = k + 1;
    }
}

/// Packets of a buffer of optional slots still waiting.
pub open spec fn opt_count(s: Seq<Option<Packet>>) -> int
    decreases s.len(),
{
    if s.len() == 0 {
        0int
    } else {
        (match s[0] {
            Option::Some(_) => 1int,
            Option::None => 0int,
        }) + opt_count(s.drop_first())
    }
}

proof fn lemma_opt_count_nonneg(s: Seq<Option<Packet>>)
    ensures
        opt_count(s) >= 0,
    decreases s.len(),
{
    if s.len() > 0 {
        lemma_opt_count_nonneg(s.drop_first());
    }
}

proof fn lemma_opt_count_none(s: Seq<Option<Packet>>)
    requires
        forall|q: int| 0 <= q < s.len() ==> (#[trigger] s[q]) is None,
    ensures
        opt_count(s) == 0,
    decreases s.len(),
{
    if s.len() > 0 {
        lemma_opt_count_none(s.drop_first());
    }
}

proof fn lemma_opt_count_update(s: Seq<Option<Packet>>, j: int)
    requires
        0 <= j < s.len(),
        s[j] is Some,
    ensures
        opt_count(s.update(j, Option::None)) == opt_count(s) - 1,
    decreases s.len(),
{
    if j == 0 {
        assert(s.update(0, Option::<Packet>::None).drop_first() =~= s.drop_first());
    } else {
        assert(s.update(j, Option::<Packet>::None)[0] == s[0]);
        assert(s.update(j, Option::<Packet>::None).drop_first() =~= s.drop_first().update(
            j - 1,
            Option::None,
        ));
        lemma_opt_count_update(s.drop_first(), j - 1);
    }
}

proof fn lemma_opt_count_push(s: Seq<Option<Packet>>, p: Packet)
    ensures
        opt_count(s.push(Option::Some(p))) == opt_count(s) + 1,
    decreases s.len(),
{
    let pushed = s.push(Option::Some(p));
    if s.len() == 0 {
        assert(pushed[0] == Option::Some(p));
        assert(pushed.drop_first() =~= Seq::<Option<Packet>>::empty());
        assert(opt_count(pushed.drop_first()) == 0);
        assert(opt_count(pushed) == 1);
    } else {
        assert(pushed[0] == s[0]);
        assert(pushed.drop_first() =~= s.drop_first().push(Option::Some(p)));
        lemma_opt_count_push(s.drop_first(), p);
    }
}


impl EngineState {
    /// What every app dispatch preserves: well-formed tables, the same
    /// shape, and untouched pacing state.
    pub open spec fn dispatch_ok(pre: &EngineState, post: &EngineState) -> bool {
        &&& post.wf_except(0)
        &&& pre.links_shape(post)
        &&& post.apps.len() == pre.apps.len()
        &&& (forall|k: int|
            0 <= k < pre.apps.len() ==> (#[trigger] post.apps@[k]).name@ == pre.apps@[k].name@
                && post.apps@[k].state.conf == pre.apps@[k].state.conf)
        &&& post.fl.grown() >= pre.fl.grown()
        &&& post.stats.breaths == pre.stats.breaths
        &&& post.now_us == pre.now_us
        &&& post.sleep_us == pre.sleep_us && post.lastfrees == pre.lastfrees
        &&& post.inhale@ == pre.inhale@ && post.exhale@ == pre.exhale@
    }

    /// Take the app entry at `i` out of the table for in-place work.
    fn take_app(&mut self, i: usize, extra: Ghost<int>) -> (e: AppEntry)
        requires
            old(self).wf_except(extra@),
            i < old(self).apps.len(),
        ensures
            e == old(self).apps@[i as int],
            final(self).apps@ == old(self).apps@.remove(i as int),
            final(self).links@ == old(self).links@,
            final(self).fl == old(self).fl,
            final(self).stats == old(self).stats,
            final(self).now_us == old(self).now_us && final(self).sleep_us == old(self).sleep_us
                && final(self).lastfrees == old(self).lastfrees,
            final(self).inhale@ == old(self).inhale@ && final(self).exhale@ == old(self).exhale@,
            final(self).wf_except(e.state.app.held() + extra@),
    {
        let ghost apps0 = self.apps@;
        let e = self.apps.remove(i);
        proof {
            lemma_total_held_remove(apps0, i as int);
            assert forall|a: int, b: int|
                0 <= a < b < self.apps.len() implies (#[trigger] self.apps@[a]).name@ != (
                #[trigger] self.apps@[b]).name@ by {
                let a0 = if a < i { a } else { a + 1 };
                let b0 = if b < i { b } else { b + 1 };
                assert(self.apps@[a] == apps0[a0]);
                assert(self.apps@[b] == apps0[b0]);
            }
            assert forall|k: int| 0 <= k < self.apps.len() implies (
            #[trigger] self.apps@[k]).state.app.wf() by {
                let k0 = if k < i { k } else { k + 1 };
                assert(self.apps@[k] == apps0[k0]);
            }
        }
        e
    }

    /// Put a worked-on app entry back at `i`: same name and config, the
    /// state possibly changed.
    fn put_app(&mut self, i: usize, e: AppEntry, ghost_orig: Ghost<Seq<AppEntry>>)
        requires
            old(self).wf_except(e.state.app.held()),
            e.state.app.wf(),
            i <= old(self).apps.len(),
            old(self).apps@ == ghost_orig@.remove(i as int),
            i < ghost_orig@.len(),
            e.name@ == ghost_orig@[i as int].name@,
            forall|a: int, b: int|
                0 <= a < b < ghost_orig@.len() ==> (#[trigger] ghost_orig@[a]).name@ != (
                #[trigger] ghost_orig@[b]).name@,
        ensures
            final(self).apps@ == old(self).apps@.insert(i as int, e),
            final(self).links@ == old(self).links@,
            final(self).fl == old(self).fl,
            final(self).stats == old(self).stats,
            final(self).now_us == old(self).now_us && final(self).sleep_us == old(self).sleep_us
                && final(self).lastfrees == old(self).lastfrees,
            final(self).inhale@ == old(self).inhale@ && final(self).exhale@ == old(self).exhale@,
            final(self).wf_except(0),
    {
        let ghost apps0 = self.apps@;
        self.apps.insert(i, e);
        proof {
            lemma_total_held_insert(apps0, i as int, e);
            assert forall|a: int, b: int|
                0 <= a < b < self.apps.len() implies (#[trigger] self.apps@[a]).name@ != (
                #[trigger] self.apps@[b]).name@ by {
                let a0 = if a < i { a } else { a - 1 };
                let b0 = if b < i { b } else { b - 1 };
                if a != i && b != i {
                    assert(self.apps@[a] == apps0[a0]);
                    assert(self.apps@[b] == apps0[b0]);
                    let ai = if a0 < i { a0 } else { a0 + 1 };
                    let bi = if b0 < i { b0 } else { b0 + 1 };
                    assert(apps0[a0] == ghost_orig@[ai]);
                    assert(apps0[b0] == ghost_orig@[bi]);
                } else if a == i {
                    assert(self.apps@[b] == apps0[b0]);
                    let bi = if b0 < i { b0 } else { b0 + 1 };
                    assert(apps0[b0] == ghost_orig@[bi]);
                    assert(self.apps@[a].name@ == ghost_orig@[i as int].name@);
                } else {
                    assert(self.apps@[a] == apps0[a0]);
                    let ai = if a0 < i { a0 } else { a0 + 1 };
                    assert(apps0[a0] == ghost_orig@[ai]);
                    assert(self.apps@[b].name@ == ghost_orig@[i as int].name@);
                }
            }
            assert forall|k: int| 0 <= k < self.apps.len() implies (
            #[trigger] self.apps@[k]).state.app.wf() by {
                if k != i {
                    let k0 = if k < i { k } else { k - 1 };
                    assert(self.apps@[k] == apps0[k0]);
                }
            }
        }
    }
}


impl EngineState {
    /// Index of the app with the given name, if any.
    fn find_app(&self, name: &String) -> (r: Option<usize>)
        ensures
            r matches Some(i) ==> i < self.apps.len() && self.apps@[i as int].name@ == name@,
            r is None ==> forall|k: int|
                0 <= k < self.apps.len() ==> (#[trigger] self.apps@[k]).name@ != name@,
    {
        let mut i: usize = 0;
        while i < self.apps.len()
            invariant
                i <= self.apps.len(),
                forall|k: int| 0 <= k < i ==> (#[trigger] self.apps@[k]).name@ != name@,
            decreases self.apps.len() - i,
        {
            if str_eq(self.apps[i].name.as_str(), name.as_str()) {
                return Some(i);
            }
            i = i + 1;
        }
        None
    }

    /// Run the pull callback of the named app: inhale packets onto its
    /// output links.
    #[verifier::spinoff_prover]
    pub fn app_pull_named(&mut self, name: &String)
        requires
            old(self).wf(),
        ensures
            final(self).wf(),
            EngineState::dispatch_ok(old(self), final(self)),
            // A Source's pull fills its first output leg by a full batch
            // when the leg has room for one and the freelist can cover
            // one, from stock or by a growth step.
            spec_is_source_app(old(self).apps@, name@) ==> forall|j: int|
                0 <= j < old(self).links.len() && (#[trigger] old(self).links@[j]).spec.from@
                    == name@ && (forall|k: int|
                    0 <= k < j ==> (#[trigger] old(self).links@[k]).spec.from@ != name@) && old(
                    self,
                ).links@[j].link.len() + PULL_NPACKETS <= LINK_MAX_PACKETS && (old(
                    self,
                ).fl.nfree() >= PULL_NPACKETS || old(self).fl.grown() + old(self).fl.step_size()
                    <= crate::packet::MAX_PACKETS) ==> final(self).links@[j].link.len() == old(
                    self,
                ).links@[j].link.len() + PULL_NPACKETS,
    {
        let io = self.find_app(name);
        if io.is_none() {
            return ;
        }
        let i = io.unwrap();
        // Pull dispatch by kind.
        let kind: u8 = match &self.apps[i].state.app {
            App::Source(_) => 0,
            App::PacketGen(_) => 1,
            App::Latency(_) => 2,
            App::Jitter(_) => 3,
            _ => 255,
        };
        if kind == 0 {
            let size: u16 = match &self.apps[i].state.app {
                App::Source(a) => a.size,
                _ => 0,
            };
            // Source: fill every output link, the first leg first.
            let first = next_output(&self.links, name, 0);
            if let Some(jj0) = first {
                source_pull_dispatch(self, jj0, size);
                let ghost j0 = jj0 as int;
                let mut j: usize = jj0 + 1;
                loop
                    invariant
                        self.wf(),
                        EngineState::dispatch_ok(old(self), self),
                        j > j0,
                        self.links.len() == old(self).links.len(),
                        0 <= j0 < old(self).links.len(),
                        old(self).links@[j0].spec.from@ == name@,
                        forall|k: int|
                            0 <= k < j0 ==> (#[trigger] old(self).links@[k]).spec.from@ != name@,
                        old(self).links@[j0].link.len() + PULL_NPACKETS <= LINK_MAX_PACKETS && (
                        old(self).fl.nfree() >= PULL_NPACKETS || old(self).fl.grown() + old(
                            self,
                        ).fl.step_size() <= crate::packet::MAX_PACKETS)
                            ==> self.links@[j0].link.len() == old(self).links@[j0].link.len()
                            + PULL_NPACKETS,
                    decreases self.links.len() - j,
                {
                    let next = next_output(&self.links, name, j);
                    match next {
                        Some(jj) => {
                            if jj >= self.links.len() {
                                break ;
                            }
                            if jj < j {
                                break ;
                            }
                            source_pull_dispatch(self, jj, size);
                            if jj + 1 >= self.links.len() {
                                break ;
                            }
                            j = jj + 1;
                        },
                        None => {
                            break ;
                        },
                    }
                }
                proof {
                    assert forall|j: int|
                        0 <= j < old(self).links.len() && (#[trigger] old(
                            self,
                        ).links@[j]).spec.from@ == name@ && (forall|k: int|
                            0 <= k < j ==> (#[trigger] old(self).links@[k]).spec.from@ != name@)
                            && old(self).links@[j].link.len() + PULL_NPACKETS
                            <= LINK_MAX_PACKETS && (old(self).fl.nfree() >= PULL_NPACKETS || old(
                            self,
                        ).fl.grown() + old(self).fl.step_size() <= crate::packet::MAX_PACKETS)
                        implies self.links@[j].link.len() == old(self).links@[j].link.len()
                        + PULL_NPACKETS by {
                        assert(j == j0);
                    }
                }
            }
        } else if kind == 1 {
            // Packet generator: emit onto its single output.
            let jo = find_output_port(&self.links, name, "output");
            if let Some(jj) = jo {
                let ghost orig = self.apps@;
                let mut e = self.take_app(i, Ghost(0int));
                match &mut e.state.app {
                    App::PacketGen(g) => {
                        let ghost links0 = self.links@;
                        let mut le = self.links.remove(jj);
                        proof {
                            lemma_total_links_remove(links0, jj as int);
                        }
                        packetgen_pull(
                            &mut self.fl,
                            &mut self.stats,
                            &mut le.link,
                            &mut g.pending,
                        );
                        let ghost links1 = self.links@;
                        let ghost le1 = le;
                        self.links.insert(jj, le);
                        proof {
                            lemma_total_links_insert(links1, jj as int, le1);
                            assert(self.links@ =~= links0.update(jj as int, le1));
                            self.lemma_links_update_ok(links0, jj as int, le1);
                        }
                    },
                    _ => {},
                }
                let ghost e1 = e;
                self.put_app(i, e, Ghost(orig));
                proof {
                    assert(self.apps@ =~= orig.update(i as int, e1));
                }
            }
        } else if kind == 2 || kind == 3 {
            // Latency and Jitter drain their delay queues on pull.
            let jo = find_output_port(&self.links, name, "output");
            if let Some(jj) = jo {
                let ghost orig = self.apps@;
                let mut e = self.take_app(i, Ghost(0int));
                match &mut e.state.app {
                    App::Latency(a) => {
                        self.delay_pull_at(jj, &mut a.queue);
                    },
                    App::Jitter(a) => {
                        self.delay_pull_at(jj, &mut a.queue);
                    },
                    _ => {},
                }
                let ghost e1 = e;
                self.put_app(i, e, Ghost(orig));
                proof {
                    assert(self.apps@ =~= orig.update(i as int, e1));
                }
            }
        }
    }
}

/// One Source output leg, as a free step so the loop above stays small.
fn source_pull_dispatch(state: &mut EngineState, j: usize, size: u16)
    requires
        old(state).wf(),
        j < old(state).links.len(),
    ensures
        final(state).wf(),
        EngineState::dispatch_ok(old(state), final(state)),
        final(state).links.len() == old(state).links.len(),
        forall|k: int|
            0 <= k < old(state).links.len() && k != j ==> #[trigger] final(state).links@[k]
                == old(state).links@[k],
        old(state).links@[j as int].link.len() + PULL_NPACKETS <= LINK_MAX_PACKETS && (old(
            state,
        ).fl.nfree() >= PULL_NPACKETS || old(state).fl.grown() + old(state).fl.step_size()
            <= crate::packet::MAX_PACKETS) ==> final(state).links@[j as int].link.len() == old(
            state,
        ).links@[j as int].link.len() + PULL_NPACKETS,
{
    state.source_pull_at(j, size);
}


impl EngineState {
    /// Run the push callback of the named app: move packets from its
    /// input links onward.
    #[verifier::spinoff_prover]
    pub fn app_push_named(&mut self, name: &String)
        requires
            old(self).wf(),
        ensures
            final(self).wf(),
            EngineState::dispatch_ok(old(self), final(self)),
            // A Sink's push drains and frees every one of its inputs.
            spec_is_sink_app(old(self).apps@, name@) ==> forall|j: int|
                0 <= j < final(self).links.len() && (#[trigger] final(self).links@[j]).spec.to@
                    == name@ ==> final(self).links@[j].link.len() == 0,
            // A Join's push drains every input onto its output, so each
            // input that is not also its own output ends empty.
            spec_is_join_app(old(self).apps@, name@) && spec_has_output_port(
                old(self).links@,
                name@,
                "output"@,
            ) ==> forall|j: int|
                0 <= j < final(self).links.len() && (#[trigger] final(self).links@[j]).spec.to@
                    == name@ && final(self).links@[j].spec.from@ != name@
                    ==> final(self).links@[j].link.len() == 0,
            // A Tee's push drains every input after copying, so each
            // input that is not also one of its outputs ends empty.
            spec_is_tee_app(old(self).apps@, name@) ==> forall|j: int|
                0 <= j < final(self).links.len() && (#[trigger] final(self).links@[j]).spec.to@
                    == name@ && final(self).links@[j].spec.from@ != name@
                    ==> final(self).links@[j].link.len() == 0,
    {
        let io = self.find_app(name);
        if io.is_none() {
            proof {
                assert(!spec_is_sink_app(self.apps@, name@));
                assert(!spec_is_join_app(self.apps@, name@));
                assert(!spec_is_tee_app(self.apps@, name@));
            }
            return ;
        }
        let i = io.unwrap();
        let kind: u8 = match &self.apps[i].state.app {
            App::Sink(_) => 0,
            App::Join(_) => 1,
            App::Tee(_) => 2,
            App::Checksum(_) => 3,
            App::Tsd(_) => 4,
            App::Loss(_) => 5,
            App::RateLimiter(_) => 6,
            App::Latency(_) => 7,
            App::Jitter(_) => 8,
            App::Split(_) => 9,
            App::Top(_) => 10,
            _ => 255,
        };
        proof {
            if kind != 0 {
                assert forall|k: int|
                    0 <= k < self.apps.len() && (#[trigger] self.apps@[k]).name@ == name@
                    implies !(self.apps@[k].state.app is Sink) by {
                    if k != i {
                        assert(self.apps@[k].name@ != self.apps@[i as int].name@);
                    }
                }
                assert(!spec_is_sink_app(self.apps@, name@));
            }
            if kind != 1 {
                assert forall|k: int|
                    0 <= k < self.apps.len() && (#[trigger] self.apps@[k]).name@ == name@
                    implies !(self.apps@[k].state.app is Join) by {
                    if k != i {
                        assert(self.apps@[k].name@ != self.apps@[i as int].name@);
                    }
                }
                assert(!spec_is_join_app(self.apps@, name@));
            }
            if kind != 2 {
                assert forall|k: int|
                    0 <= k < self.apps.len() && (#[trigger] self.apps@[k]).name@ == name@
                    implies !(self.apps@[k].state.app is Tee) by {
                    if k != i {
                        assert(self.apps@[k].name@ != self.apps@[i as int].name@);
                    }
                }
                assert(!spec_is_tee_app(self.apps@, name@));
            }
        }
        if kind == 0 {
            // Sink: drain and free every input.
            let mut j: usize = 0;
            loop
                invariant
                    self.wf(),
                    j <= self.links.len(),
                    EngineState::dispatch_ok(old(self), self),
                    forall|k: int|
                        0 <= k < j && (#[trigger] self.links@[k]).spec.to@ == name@
                            ==> self.links@[k].link.len() == 0,
                ensures
                    self.wf(),
                    EngineState::dispatch_ok(old(self), self),
                    forall|k: int|
                        0 <= k < self.links.len() && (#[trigger] self.links@[k]).spec.to@ == name@
                            ==> self.links@[k].link.len() == 0,
                decreases self.links.len() - j,
            {
                match next_input(&self.links, name, j) {
                    Some(jj) => {
                        if jj >= self.links.len() || jj < j {
                            proof {
                                assert(false);
                            }
                            break ;
                        }
                        self.sink_push_at(jj);
                        if jj + 1 >= self.links.len() {
                            proof {
                                assert forall|k: int|
                                    0 <= k < self.links.len() && (#[trigger] self.links@[k]).spec.to@
                                        == name@ implies self.links@[k].link.len() == 0 by {}
                            }
                            break ;
                        }
                        j = jj + 1;
                    },
                    None => {
                        break ;
                    },
                }
            }
        } else if kind == 1 {
            // Join: forward every input onto the single output.
            let jo = find_output_port(&self.links, name, "output");
            if let Some(out_j) = jo {
                let mut j: usize = 0;
                loop
                    invariant
                        self.wf(),
                        EngineState::dispatch_ok(old(self), self),
                        j <= self.links.len(),
                        forall|k: int|
                            0 <= k < j && (#[trigger] self.links@[k]).spec.to@ == name@
                                && self.links@[k].spec.from@ != name@
                                ==> self.links@[k].link.len() == 0,
                    ensures
                        self.wf(),
                        EngineState::dispatch_ok(old(self), self),
                        forall|k: int|
                            0 <= k < self.links.len() && (#[trigger] self.links@[k]).spec.to@
                                == name@ && self.links@[k].spec.from@ != name@
                                ==> self.links@[k].link.len() == 0,
                    decreases self.links.len() - j,
                {
                    match next_input(&self.links, name, j) {
                        Some(jj) => {
                            if jj >= self.links.len() || jj < j {
                                proof {
                                    assert(false);
                                }
                                break ;
                            }
                            let buf = self.drain_at(jj);
                            let out_j2 = find_output_port(&self.links, name, "output");
                            if let Some(oj) = out_j2 {
                                self.transmit_all_at(oj, buf, Ghost(0int));
                            } else {
                                self.free_buf(buf, Ghost(0int));
                            }
                            if jj + 1 >= self.links.len() {
                                proof {
                                    assert forall|k: int|
                                        0 <= k < self.links.len() && (
                                        #[trigger] self.links@[k]).spec.to@ == name@
                                            && self.links@[k].spec.from@ != name@
                                        implies self.links@[k].link.len() == 0 by {}
                                }
                                break ;
                            }
                            j = jj + 1;
                        },
                        None => {
                            break ;
                        },
                    }
                }
            } else {
                proof {
                    assert(!spec_has_output_port(self.links@, name@, "output"@));
                }
            }
        } else if kind == 2 {
            // Tee: copy each input's packets to every output, then free
            // the originals.
            let mut j: usize = 0;
            loop
                invariant
                    self.wf(),
                    EngineState::dispatch_ok(old(self), self),
                    j <= self.links.len(),
                    forall|k: int|
                        0 <= k < j && (#[trigger] self.links@[k]).spec.to@ == name@
                            && self.links@[k].spec.from@ != name@
                            ==> self.links@[k].link.len() == 0,
                ensures
                    self.wf(),
                    EngineState::dispatch_ok(old(self), self),
                    forall|k: int|
                        0 <= k < self.links.len() && (#[trigger] self.links@[k]).spec.to@
                            == name@ && self.links@[k].spec.from@ != name@
                            ==> self.links@[k].link.len() == 0,
                decreases self.links.len() - j,
            {
                match next_input(&self.links, name, j) {
                    Some(jj) => {
                        if jj >= self.links.len() || jj < j {
                            proof {
                                assert(false);
                            }
                            break ;
                        }
                        let buf = self.drain_at(jj);
                        let ghost mid = *self;
                        let mut o: usize = 0;
                        loop
                            invariant
                                self.wf_except(buf.len() as int),
                                EngineState::dispatch_ok_except(old(self), self, buf.len() as int),
                                forall|q: int| 0 <= q < buf.len() ==> (#[trigger] buf@[q]).wf(),
                                self.links.len() == mid.links.len(),
                                forall|k: int|
                                    0 <= k < self.links.len() && (#[trigger] self.links@[k]).spec.to@
                                        == name@ && self.links@[k].spec.from@ != name@
                                        ==> self.links@[k].link == mid.links@[k].link,
                            decreases self.links.len() - o,
                        {
                            match next_output(&self.links, name, o) {
                                Some(oo) => {
                                    if oo >= self.links.len() || oo < o {
                                        break ;
                                    }
                                    self.tee_copy_at(oo, &buf);
                                    if oo + 1 >= self.links.len() {
                                        break ;
                                    }
                                    o = oo + 1;
                                },
                                None => {
                                    break ;
                                },
                            }
                        }
                        self.free_buf(buf, Ghost(0int));
                        if jj + 1 >= self.links.len() {
                            proof {
                                assert forall|k: int|
                                    0 <= k < self.links.len() && (#[trigger] self.links@[k]).spec.to@
                                        == name@ && self.links@[k].spec.from@ != name@
                                    implies self.links@[k].link.len() == 0 by {}
                            }
                            break ;
                        }
                        j = jj + 1;
                    },
                    None => {
                        break ;
                    },
                }
            }
        } else if kind == 3 || kind == 4 {
            // Checksum and TSD: input -> transform -> output.
            let ji = find_input_port(&self.links, name, "input");
            let jo_probe = find_output_port(&self.links, name, "output");
            if ji.is_some() && jo_probe.is_some() {
                let jj = ji.unwrap();
                let buf = self.drain_at(jj);
                let jo2 = find_output_port(&self.links, name, "output");
                match jo2 {
                    Some(oj) => {
                        if kind == 3 {
                            let buf = checksum_buf(buf);
                            self.transmit_all_at(oj, buf, Ghost(0int));
                        } else {
                            let mss: u16 = match &self.apps[i].state.app {
                                App::Tsd(a) => a.mss,
                                _ => 1,
                            };
                            let mss = if mss == 0 {
                                1
                            } else {
                                mss
                            };
                            self.tsd_at(oj, buf, mss);
                        }
                    },
                    None => {
                        self.free_buf(buf, Ghost(0int));
                    },
                }
            }
        } else if kind == 5 || kind == 6 {
            // Loss and RateLimiter: drop or shape between input and output.
            let ji = find_input_port(&self.links, name, "input");
            let jo = find_output_port(&self.links, name, "output");
            if let (Some(jji), Some(jjo)) = (ji, jo) {
                if jji != jjo {
                    if kind == 5 {
                        let ratio: u32 = match &self.apps[i].state.app {
                            App::Loss(a) => a.ratio_ppm,
                            _ => 0,
                        };
                        let ratio = if ratio > crate::qos::PPM_SCALE {
                            crate::qos::PPM_SCALE
                        } else {
                            ratio
                        };
                        // A Loss push spends no tokens; the bracket still
                        // wants a bucket, so hand it an idle one.
                        let mut idle = new_bucket(0);
                        self.two_link_push(jji, jjo, TwoLinkOp::Loss(ratio), &mut idle);
                    } else {
                        let ghost orig = self.apps@;
                        let mut e = self.take_app(i, Ghost(0int));
                        match &mut e.state.app {
                            App::RateLimiter(a) => {
                                let rate = a.rate;
                                self.two_link_push(
                                    jji,
                                    jjo,
                                    TwoLinkOp::Rate(rate),
                                    &mut a.bucket,
                                );
                            },
                            _ => {},
                        }
                        let ghost e1 = e;
                        self.put_app(i, e, Ghost(orig));
                        proof {
                            assert(self.apps@ =~= orig.update(i as int, e1));
                        }
                    }
                }
            }
        } else if kind == 7 || kind == 8 {
            // Latency and Jitter: queue up input packets.
            let ji = find_input_port(&self.links, name, "input");
            if let Some(jji) = ji {
                let ghost orig = self.apps@;
                let mut e = self.take_app(i, Ghost(0int));
                match &mut e.state.app {
                    App::Latency(a) => {
                        let ms = a.ms;
                        self.delay_push_at(jji, None, &mut a.queue, ms, 0, false, false);
                    },
                    App::Jitter(a) => {
                        let ms = a.ms;
                        let strength = a.strength_ppm;
                        let reorder = a.reorder;
                        let jo = find_output_port(&self.links, name, "output");
                        match jo {
                            Some(jjo) => {
                                if jjo != jji {
                                    self.delay_push_at(
                                        jji,
                                        Some(jjo),
                                        &mut a.queue,
                                        ms,
                                        strength,
                                        reorder,
                                        true,
                                    );
                                }
                            },
                            None => {},
                        }
                    },
                    _ => {},
                }
                let ghost e1 = e;
                self.put_app(i, e, Ghost(orig));
                proof {
                    assert(self.apps@ =~= orig.update(i as int, e1));
                }
            }
        } else if kind == 9 {
            self.split_push(i, name);
        } else if kind == 10 {
            // Top: count each packet, then forward input to output.
            let ji = find_input_port(&self.links, name, "input");
            let jo = find_output_port(&self.links, name, "output");
            if let (Some(jji), Some(jjo)) = (ji, jo) {
                let buf = self.drain_at(jji);
                let ghost orig = self.apps@;
                let mut e = self.take_app(i, Ghost(buf.len() as int));
                match &mut e.state.app {
                    App::Top(a) => {
                        if a.table.len() == FLOWTOP_NSLOTS {
                            top_count_buf(&mut a.table, a.dir, &buf);
                        }
                    },
                    _ => {},
                }
                let ghost e1 = e;
                self.put_app_extra(i, e, Ghost(orig), buf.len());
                proof {
                    assert(self.apps@ =~= orig.update(i as int, e1));
                }
                let jo2 = find_output_port(&self.links, name, "output");
                match jo2 {
                    Some(oj) => {
                        self.transmit_all_at(oj, buf, Ghost(0int));
                    },
                    None => {
                        self.free_buf(buf, Ghost(0int));
                    },
                }
            }
        }
    }

    /// What every app dispatch preserves, while `extra` packets sit in a
    /// caller's buffer.
    pub open spec fn dispatch_ok_except(pre: &EngineState, post: &EngineState, extra: int) -> bool {
        &&& post.wf_except(extra)
        &&& pre.links_shape(post)
        &&& post.apps.len() == pre.apps.len()
        &&& (forall|k: int|
            0 <= k < pre.apps.len() ==> (#[trigger] post.apps@[k]).name@ == pre.apps@[k].name@
                && post.apps@[k].state.conf == pre.apps@[k].state.conf)
        &&& post.fl.grown() >= pre.fl.grown()
        &&& post.stats.breaths == pre.stats.breaths
        &&& post.now_us == pre.now_us
        &&& post.sleep_us == pre.sleep_us && post.lastfrees == pre.lastfrees
        &&& post.inhale@ == pre.inhale@ && post.exhale@ == pre.exhale@
    }

    /// `put_app` while `extra` packets sit in a caller's buffer.
    fn put_app_extra(&mut self, i: usize, e: AppEntry, ghost_orig: Ghost<Seq<AppEntry>>, extra: usize)
        requires
            old(self).wf_except(e.state.app.held() + extra),
            e.state.app.wf(),
            i <= old(self).apps.len(),
            old(self).apps@ == ghost_orig@.remove(i as int),
            i < ghost_orig@.len(),
            e.name@ == ghost_orig@[i as int].name@,
            forall|a: int, b: int|
                0 <= a < b < ghost_orig@.len() ==> (#[trigger] ghost_orig@[a]).name@ != (
                #[trigger] ghost_orig@[b]).name@,
        ensures
            final(self).apps@ == old(self).apps@.insert(i as int, e),
            final(self).links@ == old(self).links@,
            final(self).fl == old(self).fl,
            final(self).stats == old(self).stats,
            final(self).now_us == old(self).now_us && final(self).sleep_us == old(self).sleep_us
                && final(self).lastfrees == old(self).lastfrees,
            final(self).inhale@ == old(self).inhale@ && final(self).exhale@ == old(self).exhale@,
            final(self).wf_except(extra as int),
    {
        let ghost apps0 = self.apps@;
        self.apps.insert(i, e);
        proof {
            lemma_total_held_insert(apps0, i as int, e);
            assert forall|a: int, b: int|
                0 <= a < b < self.apps.len() implies (#[trigger] self.apps@[a]).name@ != (
                #[trigger] self.apps@[b]).name@ by {
                let a0 = if a < i { a } else { a - 1 };
                let b0 = if b < i { b } else { b - 1 };
                if a != i && b != i {
                    assert(self.apps@[a] == apps0[a0]);
                    assert(self.apps@[b] == apps0[b0]);
                    let ai = if a0 < i { a0 } else { a0 + 1 };
                    let bi = if b0 < i { b0 } else { b0 + 1 };
                    assert(apps0[a0] == ghost_orig@[ai]);
                    assert(apps0[b0] == ghost_orig@[bi]);
                } else if a == i {
                    assert(self.apps@[b] == apps0[b0]);
                    let bi = if b0 < i { b0 } else { b0 + 1 };
                    assert(apps0[b0] == ghost_orig@[bi]);
                    assert(self.apps@[a].name@ == ghost_orig@[i as int].name@);
                } else {
                    assert(self.apps@[a] == apps0[a0]);
                    let ai = if a0 < i { a0 } else { a0 + 1 };
                    assert(apps0[a0] == ghost_orig@[ai]);
                    assert(self.apps@[b].name@ == ghost_orig@[i as int].name@);
                }
            }
            assert forall|k: int| 0 <= k < self.apps.len() implies (
            #[trigger] self.apps@[k]).state.app.wf() by {
                if k != i {
                    let k0 = if k < i { k } else { k - 1 };
                    assert(self.apps@[k] == apps0[k0]);
                }
            }
        }
    }

    /// Split push: classify each input packet against the flows in order
    /// and forward it to the matching label's output, or to `default`.
    fn split_push(&mut self, i: usize, name: &String)
        requires
            old(self).wf(),
            i < old(self).apps.len(),
        ensures
            final(self).wf(),
            EngineState::dispatch_ok(old(self), final(self)),
    {
        let ji = find_input_port(&self.links, name, "input");
        if ji.is_none() {
            return ;
        }
        let buf = self.drain_at(ji.unwrap());
        // Classify: remember each packet's target label.
        let mut labels: Vec<Option<String>> = Vec::new();
        let mut slots: Vec<Option<Packet>> = Vec::new();
        let mut buf = buf;
        while buf.len() > 0
            invariant
                i < self.apps.len(),
                opt_count(slots@) >= 0,
                self.wf_except(buf.len() + opt_count(slots@)),
                EngineState::dispatch_ok_except(old(self), self, buf.len() + opt_count(slots@)),
                labels.len() == slots.len(),
                forall|q: int|
                    0 <= q < slots.len() ==> ((#[trigger] slots@[q]) matches Some(p) ==> p.wf()),
                forall|q: int| 0 <= q < buf.len() ==> (#[trigger] buf@[q]).wf(),
            decreases buf.len(),
        {
            let p = buf.remove(0);
            let mut label: Option<String> = None;
            match &self.apps[i].state.app {
                App::Split(a) => {
                    let route = route_flows(&p, &a.flows);
                    match route {
                        Some(fi) => {
                            if fi < a.flows.len() {
                                label = Some(a.flows[fi].label.clone());
                            }
                        },
                        None => {},
                    }
                },
                _ => {},
            }
            labels.push(label);
            let ghost slots0 = slots@;
            slots.push(Some(p));
            proof {
                lemma_opt_count_push(slots0, p);
            }
        }
        // Deliver to each output port in table order; unmatched packets
        // fall to `default`, and anything left is freed.
        let mut o: usize = 0;
        loop
            invariant
                opt_count(slots@) >= 0,
                self.wf_except(opt_count(slots@)),
                EngineState::dispatch_ok_except(old(self), self, opt_count(slots@)),
                labels.len() == slots.len(),
                forall|q: int|
                    0 <= q < slots.len() ==> ((#[trigger] slots@[q]) matches Some(p) ==> p.wf()),
            decreases self.links.len() - o,
        {
            match next_output(&self.links, name, o) {
                Some(oo) => {
                    if oo >= self.links.len() || oo < o {
                        break ;
                    }
                    let port = self.links[oo].spec.output.clone();
                    let is_default = str_eq(port.as_str(), "default");
                    // Collect this port's packets, oldest first.
                    let mut outgoing: Vec<Packet> = Vec::new();
                    let mut m: usize = 0;
                    while m < slots.len()
                        invariant
                            m <= slots.len(),
                            opt_count(slots@) >= 0,
                            labels.len() == slots.len(),
                            self.wf_except(opt_count(slots@) + outgoing.len()),
                            EngineState::dispatch_ok_except(
                                old(self),
                                self,
                                opt_count(slots@) + outgoing.len(),
                            ),
                            forall|q: int|
                                0 <= q < slots.len() ==> ((#[trigger] slots@[q]) matches Some(p)
                                    ==> p.wf()),
                            forall|q: int|
                                0 <= q < outgoing.len() ==> (#[trigger] outgoing@[q]).wf(),
                        decreases slots.len() - m,
                    {
                        let taken: bool = match (&slots[m], &labels[m]) {
                            (Some(_), Some(l)) => str_eq(l.as_str(), port.as_str()),
                            (Some(_), None) => is_default,
                            _ => false,
                        };
                        if taken {
                            let ghost slots0 = slots@;
                            let po = slots.remove(m);
                            slots.insert(m, None);
                            proof {
                                assert(slots@ =~= slots0.update(m as int, Option::None));
                                lemma_opt_count_update(slots0, m as int);
                                lemma_opt_count_nonneg(slots@);
                            }
                            outgoing.push(po.unwrap());
                        }
                        m = m + 1;
                    }
                    self.transmit_all_at(oo, outgoing, Ghost(opt_count(slots@)));
                    if oo + 1 >= self.links.len() {
                        break ;
                    }
                    o = oo + 1;
                },
                None => {
                    break ;
                },
            }
        }
        // Free anything that matched no present output.
        let mut leftovers: Vec<Packet> = Vec::new();
        let mut m: usize = 0;
        while m < slots.len()
            invariant
                m <= slots.len(),
                opt_count(slots@) >= 0,
                forall|q: int| 0 <= q < m ==> (#[trigger] slots@[q]) is None,
                self.wf_except(opt_count(slots@) + leftovers.len()),
                EngineState::dispatch_ok_except(
                    old(self),
                    self,
                    opt_count(slots@) + leftovers.len(),
                ),
                forall|q: int|
                    0 <= q < slots.len() ==> ((#[trigger] slots@[q]) matches Some(p) ==> p.wf()),
                forall|q: int| 0 <= q < leftovers.len() ==> (#[trigger] leftovers@[q]).wf(),
            decreases slots.len() - m,
        {
            let any: bool = matches!(&slots[m], Some(_));
            if any {
                let ghost slots0 = slots@;
                let po = slots.remove(m);
                slots.insert(m, None);
                proof {
                    assert(slots@ =~= slots0.update(m as int, Option::None));
                    lemma_opt_count_update(slots0, m as int);
                    lemma_opt_count_nonneg(slots@);
                }
                leftovers.push(po.unwrap());
            }
            m = m + 1;
        }
        proof {
            lemma_opt_count_none(slots@);
        }
        self.free_buf(leftovers, Ghost(0int));
    }
}


/// Whether the table holds a push-capable app under this name.
pub open spec fn spec_is_push_app(apps: Seq<AppEntry>, name: Seq<char>) -> bool {
    exists|k: int|
        0 <= k < apps.len() && (#[trigger] apps[k]).name@ == name
            && apps[k].state.conf.spec_has_push()
}

/// Whether the table holds a Sink instance under this name.
/// Whether `name` names a Source app.
pub open spec fn spec_is_source_app(apps: Seq<AppEntry>, name: Seq<char>) -> bool {
    exists|k: int|
        0 <= k < apps.len() && (#[trigger] apps[k]).name@ == name && apps[k].state.app is Source
}

/// Whether some link leaves `name` on the given output port.
pub open spec fn spec_has_output_port(
    links: Seq<LinkEntry>,
    name: Seq<char>,
    port: Seq<char>,
) -> bool {
    exists|j: int|
        0 <= j < links.len() && (#[trigger] links[j]).spec.from@ == name
            && links[j].spec.output@ == port
}

/// Whether `name` names a Join app.
pub open spec fn spec_is_join_app(apps: Seq<AppEntry>, name: Seq<char>) -> bool {
    exists|k: int|
        0 <= k < apps.len() && (#[trigger] apps[k]).name@ == name && apps[k].state.app is Join
}

/// Whether `name` names a Tee app.
pub open spec fn spec_is_tee_app(apps: Seq<AppEntry>, name: Seq<char>) -> bool {
    exists|k: int|
        0 <= k < apps.len() && (#[trigger] apps[k]).name@ == name && apps[k].state.app is Tee
}

pub open spec fn spec_is_sink_app(apps: Seq<AppEntry>, name: Seq<char>) -> bool {
    exists|k: int|
        0 <= k < apps.len() && (#[trigger] apps[k]).name@ == name && apps[k].state.app is Sink
}

/// Every listed name has a push-capable app.
pub open spec fn all_push_apps(apps: Seq<AppEntry>, names: Seq<Seq<char>>) -> bool {
    forall|i: int| 0 <= i < names.len() ==> spec_is_push_app(apps, #[trigger] names[i])
}

/// No name appears on both sides.
pub open spec fn views_disjoint(a: Seq<Seq<char>>, b: Seq<Seq<char>>) -> bool {
    forall|i: int, j: int| 0 <= i < a.len() && 0 <= j < b.len() ==> a[i] != b[j]
}

/// A permutation keeps membership and distinctness.
proof fn lemma_perm_preserves(s1: Seq<Seq<char>>, s2: Seq<Seq<char>>)
    requires
        s1.to_multiset() == s2.to_multiset(),
    ensures
        s1.no_duplicates() ==> s2.no_duplicates(),
        forall|x: Seq<char>| #[trigger] s2.contains(x) ==> s1.contains(x),
{
    if s1.no_duplicates() {
        s1.lemma_multiset_has_no_duplicates();
        assert(forall|x: Seq<char>|
            s2.to_multiset().contains(x) ==> s2.to_multiset().count(x) == 1);
        s2.lemma_multiset_has_no_duplicates_conv();
    }
    assert forall|x: Seq<char>| #[trigger] s2.contains(x) implies s1.contains(x) by {
        s1.to_multiset_ensures();
        s2.to_multiset_ensures();
        assert(s2.to_multiset().count(x) > 0);
        assert(s1.to_multiset().count(x) > 0);
    }
}

/// The names of the pull-capable apps, in table order.
pub open spec fn pull_names(s: Seq<AppEntry>) -> Seq<Seq<char>>
    decreases s.len(),
{
    if s.len() == 0 {
        Seq::empty()
    } else {
        (if s[0].state.conf.spec_has_pull() {
            seq![s[0].name@]
        } else {
            Seq::empty()
        }) + pull_names(s.drop_first())
    }
}

proof fn lemma_pull_names_snoc(s: Seq<AppEntry>, e: AppEntry)
    ensures
        pull_names(s.push(e)) == pull_names(s) + (if e.state.conf.spec_has_pull() {
            seq![e.name@]
        } else {
            Seq::<Seq<char>>::empty()
        }),
    decreases s.len(),
{
    let pushed = s.push(e);
    if s.len() == 0 {
        assert(pushed[0] == e);
        assert(pushed.drop_first() =~= Seq::<AppEntry>::empty());
        assert(pull_names(pushed.drop_first()) =~= Seq::<Seq<char>>::empty());
        if e.state.conf.spec_has_pull() {
            assert(pull_names(pushed) =~= seq![e.name@] + Seq::<Seq<char>>::empty());
            assert(pull_names(s) =~= Seq::<Seq<char>>::empty());
            assert(pull_names(pushed) =~= pull_names(s) + seq![e.name@]);
        } else {
            assert(pull_names(pushed) =~= Seq::<Seq<char>>::empty() + Seq::<Seq<char>>::empty());
            assert(pull_names(s) =~= Seq::<Seq<char>>::empty());
            assert(pull_names(pushed) =~= pull_names(s));
        }
    } else {
        assert(pushed[0] == s[0]);
        assert(pushed.drop_first() =~= s.drop_first().push(e));
        lemma_pull_names_snoc(s.drop_first(), e);
        if e.state.conf.spec_has_pull() {
            assert(pull_names(pushed) =~= pull_names(s) + seq![e.name@]);
        } else {
            assert(pull_names(pushed) =~= pull_names(s));
        }
    }
}

/// Membership among name views.
pub open spec fn sv_contains(s: Seq<Seq<char>>, n: Seq<char>) -> bool {
    exists|i: int| 0 <= i < s.len() && s[i] == n
}

/// Whether a name is in the list.
fn names_contain(v: &Vec<String>, name: &str) -> (r: bool)
    ensures
        r == (exists|i: int| 0 <= i < v.len() && (#[trigger] v@[i])@ == name@),
        r == sv_contains(name_views(v@), name@),
{
    let mut i: usize = 0;
    while i < v.len()
        invariant
            i <= v.len(),
            forall|j: int| 0 <= j < i ==> (#[trigger] v@[j])@ != name@,
        decreases v.len() - i,
    {
        if str_eq(v[i].as_str(), name) {
            proof {
                assert(name_views(v@)[i as int] == name@);
            }
            return true;
        }
        i = i + 1;
    }
    proof {
        assert forall|j: int| 0 <= j < name_views(v@).len() implies #[trigger] name_views(
            v@,
        )[j] != name@ by {
            assert(v@[j]@ != name@);
        }
    }
    false
}

/// Remove every occurrence of a name from the list, keeping the rest in
/// order.
fn names_remove(v: &mut Vec<String>, name: &str)
    ensures
        final(v).len() <= old(v).len(),
        name_views(final(v)@) == name_views(old(v)@).filter(|n: Seq<char>| n != name@),
{
    let mut out: Vec<String> = Vec::new();
    let mut i: usize = 0;
    proof {
        assert(name_views(v@).take(0) =~= Seq::<Seq<char>>::empty());
        assert(Seq::<Seq<char>>::empty().filter(|n: Seq<char>| n != name@)
            =~= Seq::<Seq<char>>::empty());
        assert(name_views(out@) =~= Seq::<Seq<char>>::empty());
    }
    while i < v.len()
        invariant
            i <= v.len(),
            out.len() <= i,
            v@ == old(v)@,
            name_views(out@) == name_views(v@).take(i as int).filter(
                |n: Seq<char>| n != name@,
            ),
        decreases v.len() - i,
    {
        let ghost pre = name_views(out@);
        let ghost taken = name_views(v@).take(i as int);
        if !str_eq(v[i].as_str(), name) {
            out.push(v[i].clone());
        }
        proof {
            assert(name_views(v@).take(i + 1) =~= taken.push(v@[i as int]@));
            taken.push(v@[i as int]@).filter_lemma(|n: Seq<char>| n != name@);
            lemma_filter_snoc(taken, v@[i as int]@, |n: Seq<char>| n != name@);
            if v@[i as int]@ != name@ {
                assert(name_views(out@) =~= pre.push(v@[i as int]@));
            } else {
                assert(name_views(out@) =~= pre);
            }
        }
        i = i + 1;
    }
    proof {
        assert(name_views(v@).take(v@.len() as int) =~= name_views(v@));
    }
    core::mem::swap(v, &mut out);
}

/// Filtering one more element keeps it exactly when the predicate holds.
proof fn lemma_filter_snoc(s: Seq<Seq<char>>, x: Seq<char>, pred: spec_fn(Seq<char>) -> bool)
    ensures
        s.push(x).filter(pred) == if pred(x) {
            s.filter(pred).push(x)
        } else {
            s.filter(pred)
        },
    decreases s.len(),
{
    reveal(Seq::filter);
    assert(s.push(x).drop_last() =~= s);
    assert(s.push(x).last() == x);
}

/// Pushing another name keeps every present name present.
proof fn lemma_sv_contains_push(s: Seq<Seq<char>>, x: Seq<char>, y: Seq<char>)
    requires
        sv_contains(s, x),
    ensures
        sv_contains(s.push(y), x),
{
    let i = choose|i: int| 0 <= i < s.len() && s[i] == x;
    assert(s.push(y)[i] == x);
}

/// Dropping the copies of an absent name changes nothing.
proof fn lemma_filter_ne_all(s: Seq<Seq<char>>, pred: spec_fn(Seq<char>) -> bool, x: Seq<char>)
    requires
        !sv_contains(s, x),
        forall|n: Seq<char>| #[trigger] pred(n) == (n != x),
    ensures
        s.filter(pred) == s,
    decreases s.len(),
{
    reveal(Seq::filter);
    if s.len() > 0 {
        let prefix = s.drop_last();
        assert(!sv_contains(prefix, x)) by {
            if sv_contains(prefix, x) {
                let w = choose|w: int| 0 <= w < prefix.len() && prefix[w] == x;
                assert(s[w] == x);
            }
        }
        lemma_filter_ne_all(prefix, pred, x);
        assert(s.last() != x) by {
            assert(s[s.len() - 1] == s.last());
        }
        assert(s.filter(pred) =~= s);
    } else {
        assert(s.filter(pred) =~= s);
    }
}

/// Removing one name from a duplicate-free list shortens it by at most
/// one.
proof fn lemma_filter_remove_one(
    s: Seq<Seq<char>>,
    pred: spec_fn(Seq<char>) -> bool,
    x: Seq<char>,
)
    requires
        no_dup_views(s),
        forall|n: Seq<char>| #[trigger] pred(n) == (n != x),
    ensures
        s.filter(pred).len() >= s.len() - 1,
    decreases s.len(),
{
    if s.len() > 0 {
        let prefix = s.drop_last();
        let y = s.last();
        assert(no_dup_views(prefix)) by {
            assert forall|i: int, j: int| 0 <= i < j < prefix.len() implies prefix[i] != prefix[j]
                by {
                assert(prefix[i] == s[i] && prefix[j] == s[j]);
            }
        }
        assert(prefix.push(y) =~= s);
        lemma_filter_snoc(prefix, y, pred);
        if y == x {
            assert(!sv_contains(prefix, x)) by {
                if sv_contains(prefix, x) {
                    let w = choose|w: int| 0 <= w < prefix.len() && prefix[w] == x;
                    assert(s[w] == s[s.len() - 1]);
                }
            }
            lemma_filter_ne_all(prefix, pred, x);
        } else {
            lemma_filter_remove_one(prefix, pred, x);
        }
    }
}

/// One breaker step neither empties the round nor introduces a
/// duplicate.
proof fn lemma_break_step_keeps(
    name: Seq<char>,
    e: LinkEntry,
    resolved: Seq<Seq<char>>,
    st: (Seq<Seq<char>>, Seq<Seq<char>>),
)
    requires
        no_dup_views(st.0),
        st.0.len() >= 1,
    ensures
        no_dup_views(spec_break_step(name, e, resolved, st).0),
        spec_break_step(name, e, resolved, st).0.len() >= 1,
{
    let (p, sel) = st;
    if !sv_contains(resolved, e.spec.from@) && e.spec.from@ == name && !sv_contains(
        sel,
        e.spec.to@,
    ) && sv_contains(p, e.spec.to@) && p.len() > 1 {
        lemma_filter_no_dup(p, |n: Seq<char>| n != e.spec.to@);
        lemma_filter_remove_one(p, |n: Seq<char>| n != e.spec.to@, e.spec.to@);
    }
}

/// The breaker keeps those properties over every link.
proof fn lemma_break_for_keeps(
    name: Seq<char>,
    links: Seq<LinkEntry>,
    resolved: Seq<Seq<char>>,
    st: (Seq<Seq<char>>, Seq<Seq<char>>),
)
    requires
        no_dup_views(st.0),
        st.0.len() >= 1,
    ensures
        no_dup_views(spec_break_for(name, links, resolved, st).0),
        spec_break_for(name, links, resolved, st).0.len() >= 1,
    decreases links.len(),
{
    if links.len() > 0 {
        lemma_break_for_keeps(name, links.drop_last(), resolved, st);
        lemma_break_step_keeps(
            name,
            links.last(),
            resolved,
            spec_break_for(name, links.drop_last(), resolved, st),
        );
    }
}

/// And over the whole round's snapshot of producers.
proof fn lemma_break_round_keeps(
    snapshot: Seq<Seq<char>>,
    links: Seq<LinkEntry>,
    resolved: Seq<Seq<char>>,
    st: (Seq<Seq<char>>, Seq<Seq<char>>),
)
    requires
        no_dup_views(st.0),
        st.0.len() >= 1,
    ensures
        no_dup_views(spec_break_round(snapshot, links, resolved, st).0),
        spec_break_round(snapshot, links, resolved, st).0.len() >= 1,
    decreases snapshot.len(),
{
    if snapshot.len() > 0 {
        lemma_break_round_keeps(snapshot.drop_last(), links, resolved, st);
        lemma_break_for_keeps(
            snapshot.last(),
            links,
            resolved,
            spec_break_round(snapshot.drop_last(), links, resolved, st),
        );
    }
}

/// The rounds only extend what is already emitted.
proof fn lemma_rounds_extend(
    apps: Seq<AppEntry>,
    links: Seq<LinkEntry>,
    resolved: Seq<Seq<char>>,
    pending: Seq<Seq<char>>,
    exhale: Seq<Seq<char>>,
    budget: nat,
)
    ensures
        spec_rounds(apps, links, resolved, pending, exhale, budget).len() >= exhale.len(),
    decreases budget,
{
    if pending.len() != 0 && budget != 0 {
        let st = spec_break_round(pending, links, resolved, (pending, Seq::empty()));
        let p2 = st.0.sort_by(lex_leq());
        let exhale2 = exhale + p2;
        let p3 = spec_collect_round(apps, p2, links, resolved, exhale2, Seq::empty());
        lemma_rounds_extend(apps, links, resolved + p2, p3, exhale2, (budget - 1) as nat);
    }
}

/// The initial pending set carries no duplicates.
proof fn lemma_init_pending_no_dup(
    apps: Seq<AppEntry>,
    links: Seq<LinkEntry>,
    resolved: Seq<Seq<char>>,
)
    ensures
        no_dup_views(spec_init_pending(apps, links, resolved)),
    decreases links.len(),
{
    if links.len() > 0 {
        lemma_init_pending_no_dup(apps, links.drop_last(), resolved);
        let p = spec_init_pending(apps, links.drop_last(), resolved);
        let e = links.last();
        if sv_contains(resolved, e.spec.from@) && !sv_contains(p, e.spec.to@) && spec_is_push_app(
            apps,
            e.spec.to@,
        ) {
            assert forall|i: int, j: int|
                0 <= i < j < p.push(e.spec.to@).len() implies p.push(e.spec.to@)[i] != p.push(
                e.spec.to@,
            )[j] by {
                if j == p.len() {
                    assert(p[i] != e.spec.to@);
                }
            }
        }
    }
}

/// Initial completeness: every push-capable consumer of an already
/// resolved producer stands in the initial pending set.
pub proof fn lemma_init_pending_complete(
    apps: Seq<AppEntry>,
    links: Seq<LinkEntry>,
    resolved: Seq<Seq<char>>,
    j: int,
)
    requires
        0 <= j < links.len(),
        sv_contains(resolved, links[j].spec.from@),
        spec_is_push_app(apps, links[j].spec.to@),
    ensures
        sv_contains(spec_init_pending(apps, links, resolved), links[j].spec.to@),
    decreases links.len(),
{
    let p = spec_init_pending(apps, links.drop_last(), resolved);
    let e = links.last();
    if j == links.len() - 1 {
        if sv_contains(p, e.spec.to@) {
            if sv_contains(resolved, e.spec.from@) && !sv_contains(p, e.spec.to@)
                && spec_is_push_app(apps, e.spec.to@) {
                lemma_sv_contains_push(p, e.spec.to@, e.spec.to@);
            }
        } else {
            let r = spec_init_pending(apps, links, resolved);
            assert(r == p.push(e.spec.to@));
            assert(r[p.len() as int] == e.spec.to@);
        }
    } else {
        assert(links.drop_last()[j] == links[j]);
        lemma_init_pending_complete(apps, links.drop_last(), resolved, j);
        if sv_contains(resolved, e.spec.from@) && !sv_contains(p, e.spec.to@) && spec_is_push_app(
            apps,
            e.spec.to@,
        ) {
            lemma_sv_contains_push(p, links[j].spec.to@, e.spec.to@);
        }
    }
}

/// With any consumer pending at the start, the push order is never
/// empty: the breaker cannot empty a round, and every round only adds.
pub proof fn lemma_exhale_order_nonempty(apps: Seq<AppEntry>, links: Seq<LinkEntry>)
    requires
        spec_init_pending(apps, links, pull_names(apps).sort_by(lex_leq())).len() > 0,
    ensures
        spec_exhale_order(apps, links).len() > 0,
{
    let inh = pull_names(apps).sort_by(lex_leq());
    let pending = spec_init_pending(apps, links, inh);
    let budget = sat_add(apps.len() as int, 1) as nat;
    assert(budget >= 1);
    lemma_init_pending_no_dup(apps, links, inh);
    let st = spec_break_round(pending, links, inh, (pending, Seq::empty()));
    lemma_break_round_keeps(pending, links, inh, (pending, Seq::empty()));
    let p2 = st.0.sort_by(lex_leq());
    lemma_lex_le_total();
    st.0.lemma_sort_by_ensures(lex_leq());
    st.0.to_multiset_ensures();
    p2.to_multiset_ensures();
    assert(p2.len() == st.0.len());
    let exhale2 = Seq::<Seq<char>>::empty() + p2;
    let p3 = spec_collect_round(apps, p2, links, inh, exhale2, Seq::empty());
    lemma_rounds_extend(apps, links, inh + p2, p3, exhale2, (budget - 1) as nat);
    assert(exhale2.len() >= 1);
    assert(spec_exhale_order(apps, links) == spec_rounds(
        apps,
        links,
        inh + p2,
        p3,
        exhale2,
        (budget - 1) as nat,
    ));
}

/// A filtered list draws its entries from the original.
proof fn lemma_filter_membership(s: Seq<Seq<char>>, pred: spec_fn(Seq<char>) -> bool)
    ensures
        forall|i: int|
            0 <= i < s.filter(pred).len() ==> s.contains(#[trigger] s.filter(pred)[i]),
    decreases s.len(),
{
    if s.len() > 0 {
        let prefix = s.drop_last();
        let x = s.last();
        lemma_filter_membership(prefix, pred);
        assert(prefix.push(x) =~= s);
        lemma_filter_snoc(prefix, x, pred);
        assert forall|i: int| 0 <= i < s.filter(pred).len() implies s.contains(
            #[trigger] s.filter(pred)[i],
        ) by {
            if pred(x) && i == s.filter(pred).len() - 1 {
                assert(s.filter(pred)[i] == x);
                assert(s[s.len() - 1] == x);
            } else {
                assert(s.filter(pred)[i] == prefix.filter(pred)[i]);
                assert(prefix.contains(prefix.filter(pred)[i]));
                let w = choose|w: int|
                    0 <= w < prefix.len() && prefix[w] == prefix.filter(pred)[i];
                assert(s[w] == prefix[w]);
            }
        }
    }
}

/// A filtered list keeps no duplicates.
proof fn lemma_filter_no_dup(s: Seq<Seq<char>>, pred: spec_fn(Seq<char>) -> bool)
    requires
        no_dup_views(s),
    ensures
        no_dup_views(s.filter(pred)),
    decreases s.len(),
{
    if s.len() > 0 {
        let prefix = s.drop_last();
        let x = s.last();
        assert(no_dup_views(prefix));
        lemma_filter_no_dup(prefix, pred);
        prefix.filter_lemma(pred);
        assert(prefix.push(x) =~= s);
        lemma_filter_snoc(prefix, x, pred);
        lemma_filter_membership(prefix, pred);
        if pred(x) {
            assert(s.filter(pred) == prefix.filter(pred).push(x));
            assert forall|i: int, j: int|
                0 <= i < j < s.filter(pred).len() implies s.filter(pred)[i] != s.filter(
                pred,
            )[j] by {
                if j == s.filter(pred).len() - 1 {
                    assert(s.filter(pred)[j] == x);
                    assert(s.filter(pred)[i] == prefix.filter(pred)[i]);
                    assert(prefix.contains(prefix.filter(pred)[i]));
                    let w = choose|w: int|
                        0 <= w < prefix.len() && prefix[w] == prefix.filter(pred)[i];
                    assert(s[w] == prefix[w]);
                    assert(s[w] != s[s.len() - 1]);
                }
            }
        } else {
            assert(s.filter(pred) == prefix.filter(pred));
        }
    }
}

/// No two entries alike.
pub open spec fn no_dup_views(s: Seq<Seq<char>>) -> bool {
    forall|i: int, j: int| 0 <= i < j < s.len() ==> s[i] != s[j]
}

/// One edge's effect while collecting the initial pending set: a
/// push-capable consumer of a resolved producer joins, once.
pub open spec fn spec_init_pending(
    apps: Seq<AppEntry>,
    links: Seq<LinkEntry>,
    resolved: Seq<Seq<char>>,
) -> Seq<Seq<char>>
    decreases links.len(),
{
    if links.len() == 0 {
        Seq::empty()
    } else {
        let p = spec_init_pending(apps, links.drop_last(), resolved);
        let e = links.last();
        if sv_contains(resolved, e.spec.from@) && !sv_contains(p, e.spec.to@) && spec_is_push_app(
            apps,
            e.spec.to@,
        ) {
            p.push(e.spec.to@)
        } else {
            p
        }
    }
}

/// One edge's effect of the cycle breaker for one pending producer:
/// delay its pending consumer (and protect the producer), but never
/// empty the round.
pub open spec fn spec_break_step(
    name: Seq<char>,
    e: LinkEntry,
    resolved: Seq<Seq<char>>,
    st: (Seq<Seq<char>>, Seq<Seq<char>>),
) -> (Seq<Seq<char>>, Seq<Seq<char>>) {
    let (p, sel) = st;
    if !sv_contains(resolved, e.spec.from@) && e.spec.from@ == name && !sv_contains(
        sel,
        e.spec.to@,
    ) && sv_contains(p, e.spec.to@) && p.len() > 1 {
        (
            p.filter(|n: Seq<char>| n != e.spec.to@),
            if !sv_contains(sel, name) {
                sel.push(name)
            } else {
                sel
            },
        )
    } else {
        st
    }
}

/// The cycle breaker walked over every link for one producer.
pub open spec fn spec_break_for(
    name: Seq<char>,
    links: Seq<LinkEntry>,
    resolved: Seq<Seq<char>>,
    st: (Seq<Seq<char>>, Seq<Seq<char>>),
) -> (Seq<Seq<char>>, Seq<Seq<char>>)
    decreases links.len(),
{
    if links.len() == 0 {
        st
    } else {
        spec_break_step(
            name,
            links.last(),
            resolved,
            spec_break_for(name, links.drop_last(), resolved, st),
        )
    }
}

/// The cycle breaker walked over the round's snapshot of producers.
pub open spec fn spec_break_round(
    snapshot: Seq<Seq<char>>,
    links: Seq<LinkEntry>,
    resolved: Seq<Seq<char>>,
    st: (Seq<Seq<char>>, Seq<Seq<char>>),
) -> (Seq<Seq<char>>, Seq<Seq<char>>)
    decreases snapshot.len(),
{
    if snapshot.len() == 0 {
        st
    } else {
        spec_break_for(
            snapshot.last(),
            links,
            resolved,
            spec_break_round(snapshot.drop_last(), links, resolved, st),
        )
    }
}

/// One edge's effect while collecting the next round: a not-yet-ordered
/// push-capable consumer of an emitted producer joins, once.
pub open spec fn spec_collect_step(
    apps: Seq<AppEntry>,
    name: Seq<char>,
    e: LinkEntry,
    resolved: Seq<Seq<char>>,
    exhale: Seq<Seq<char>>,
    p: Seq<Seq<char>>,
) -> Seq<Seq<char>> {
    if !sv_contains(resolved, e.spec.from@) && e.spec.from@ == name && spec_is_push_app(
        apps,
        e.spec.to@,
    ) && !sv_contains(exhale, e.spec.to@) && !sv_contains(p, e.spec.to@) {
        p.push(e.spec.to@)
    } else {
        p
    }
}

pub open spec fn spec_collect_for(
    apps: Seq<AppEntry>,
    name: Seq<char>,
    links: Seq<LinkEntry>,
    resolved: Seq<Seq<char>>,
    exhale: Seq<Seq<char>>,
    p: Seq<Seq<char>>,
) -> Seq<Seq<char>>
    decreases links.len(),
{
    if links.len() == 0 {
        p
    } else {
        spec_collect_step(
            apps,
            name,
            links.last(),
            resolved,
            exhale,
            spec_collect_for(apps, name, links.drop_last(), resolved, exhale, p),
        )
    }
}

pub open spec fn spec_collect_round(
    apps: Seq<AppEntry>,
    emitted: Seq<Seq<char>>,
    links: Seq<LinkEntry>,
    resolved: Seq<Seq<char>>,
    exhale: Seq<Seq<char>>,
    p: Seq<Seq<char>>,
) -> Seq<Seq<char>>
    decreases emitted.len(),
{
    if emitted.len() == 0 {
        p
    } else {
        spec_collect_for(
            apps,
            emitted.last(),
            links,
            resolved,
            exhale,
            spec_collect_round(apps, emitted.drop_last(), links, resolved, exhale, p),
        )
    }
}

/// The worklist's rounds: break cycles, emit the round sorted by name,
/// collect the emitted apps' successors, resolve their edges, repeat.
pub open spec fn spec_rounds(
    apps: Seq<AppEntry>,
    links: Seq<LinkEntry>,
    resolved: Seq<Seq<char>>,
    pending: Seq<Seq<char>>,
    exhale: Seq<Seq<char>>,
    budget: nat,
) -> Seq<Seq<char>>
    decreases budget,
{
    if pending.len() == 0 || budget == 0 {
        exhale
    } else {
        let st = spec_break_round(pending, links, resolved, (pending, Seq::empty()));
        let p2 = st.0.sort_by(lex_leq());
        let exhale2 = exhale + p2;
        let p3 = spec_collect_round(apps, p2, links, resolved, exhale2, Seq::empty());
        let resolved2 = resolved + p2;
        spec_rounds(apps, links, resolved2, p3, exhale2, (budget - 1) as nat)
    }
}

/// The push order: a function of the app and link tables alone.
pub open spec fn spec_exhale_order(apps: Seq<AppEntry>, links: Seq<LinkEntry>) -> Seq<Seq<char>> {
    let inh = pull_names(apps).sort_by(lex_leq());
    spec_rounds(
        apps,
        links,
        inh,
        spec_init_pending(apps, links, inh),
        Seq::empty(),
        sat_add(apps.len() as int, 1) as nat,
    )
}

/// Breathe-order determinism: two engines over equal app and link
/// tables, each ordered by `compute_breathe_order`, carry identical pull
/// and push orders.
pub proof fn lemma_breathe_order_deterministic(a: &EngineState, b: &EngineState)
    requires
        a.apps@ == b.apps@,
        a.links@ == b.links@,
        name_views(a.inhale@) == pull_names(a.apps@).sort_by(lex_leq()),
        name_views(b.inhale@) == pull_names(b.apps@).sort_by(lex_leq()),
        name_views(a.exhale@) == spec_exhale_order(a.apps@, a.links@),
        name_views(b.exhale@) == spec_exhale_order(b.apps@, b.links@),
    ensures
        name_views(a.inhale@) == name_views(b.inhale@),
        name_views(a.exhale@) == name_views(b.exhale@),
{
}

impl EngineState {
    /// Recompute the breathe order: `inhale` is the lexicographically
    /// sorted list of pull apps; `exhale` is built in rounds that follow
    /// link dependencies where possible and break cycles by name, a
    /// deterministic function of the app and link tables.
    pub fn compute_breathe_order(&mut self)
        requires
            old(self).wf(),
        ensures
            final(self).wf(),
            final(self).apps@ == old(self).apps@,
            final(self).links@ == old(self).links@,
            final(self).stats == old(self).stats,
            final(self).fl == old(self).fl,
            final(self).now_us == old(self).now_us && final(self).sleep_us == old(self).sleep_us
                && final(self).lastfrees == old(self).lastfrees,
            name_views(final(self).inhale@) == pull_names(old(self).apps@).sort_by(lex_leq()),
            // Exhale holds only push-capable apps, each at most once,
            // and is exactly the worklist order: a function of the app
            // and link tables.
            name_views(final(self).exhale@).no_duplicates(),
            all_push_apps(old(self).apps@, name_views(final(self).exhale@)),
            name_views(final(self).exhale@) == spec_exhale_order(
                old(self).apps@,
                old(self).links@,
            ),
    {
        // Inhale: pull apps by name.
        let mut pulls: Vec<String> = Vec::new();
        let mut k: usize = 0;
        while k < self.apps.len()
            invariant
                k <= self.apps.len(),
                name_views(pulls@) == pull_names(self.apps@.take(k as int)),
            decreases self.apps.len() - k,
        {
            proof {
                assert(self.apps@.take(k + 1) =~= self.apps@.take(k as int).push(
                    self.apps@[k as int],
                ));
                lemma_pull_names_snoc(self.apps@.take(k as int), self.apps@[k as int]);
            }
            if self.apps[k].state.conf.has_pull() {
                let ghost pv = name_views(pulls@);
                pulls.push(self.apps[k].name.clone());
                proof {
                    assert(name_views(pulls@) =~= pv + seq![self.apps@[k as int].name@]);
                }
            } else {
                proof {
                    assert(name_views(pulls@) =~= name_views(pulls@)
                        + Seq::<Seq<char>>::empty());
                }
            }
            k = k + 1;
        }
        proof {
            assert(self.apps@.take(self.apps@.len() as int) =~= self.apps@);
        }
        sort_names(&mut pulls);
        self.inhale = pulls;
        // Exhale: rounds over the push-capable successors. Each step
        // below is mirrored by a spec function, so the final order is
        // pinned as a function of the app and link tables.
        let ghost apps_v = self.apps@;
        let ghost links_v = self.links@;
        let ghost inh = name_views(self.inhale@);
        let mut resolved: Vec<String> = Vec::new();
        let mut m: usize = 0;
        while m < self.inhale.len()
            invariant
                m <= self.inhale.len(),
                inh == name_views(self.inhale@),
                name_views(resolved@) =~= inh.take(m as int),
            decreases self.inhale.len() - m,
        {
            let ghost rv = name_views(resolved@);
            resolved.push(self.inhale[m].clone());
            proof {
                assert(name_views(resolved@) =~= rv.push(inh[m as int]));
                assert(name_views(resolved@) =~= inh.take(m + 1));
            }
            m = m + 1;
        }
        proof {
            assert(inh.take(inh.len() as int) =~= inh);
            assert(name_views(resolved@) =~= inh);
        }
        // Initial pending: push-capable successors of pull apps.
        let mut pending: Vec<String> = Vec::new();
        let mut e: usize = 0;
        proof {
            assert(links_v.take(0) =~= Seq::<LinkEntry>::empty());
        }
        while e < self.links.len()
            invariant
                self.wf(),
                e <= self.links.len(),
                apps_v == self.apps@,
                links_v == self.links@,
                name_views(resolved@) == inh,
                name_views(pending@) == spec_init_pending(apps_v, links_v.take(e as int), inh),
                name_views(pending@).no_duplicates(),
                all_push_apps(self.apps@, name_views(pending@)),
            decreases self.links.len() - e,
        {
            proof {
                assert(links_v.take(e + 1).drop_last() =~= links_v.take(e as int));
                assert(links_v.take(e + 1).last() == links_v[e as int]);
            }
            let from_pull = names_contain(&resolved, self.links[e].spec.from.as_str());
            if from_pull {
                let to = self.links[e].spec.to.clone();
                if !names_contain(&pending, to.as_str()) {
                    if self.app_is_push(&to) {
                        let ghost pv = name_views(pending@);
                        let ghost tov = to@;
                        pending.push(to);
                        proof {
                            assert(name_views(pending@) =~= pv.push(tov));
                        }
                    }
                }
            }
            e = e + 1;
        }
        proof {
            assert(links_v.take(links_v.len() as int) =~= links_v);
        }
        let mut exhale: Vec<String> = Vec::new();
        proof {
            assert(name_views(exhale@) =~= Seq::<Seq<char>>::empty());
        }
        let mut budget: u64 = sat_add64(self.apps.len() as u64, 1);
        proof {
            assert(spec_rounds(
                apps_v,
                links_v,
                name_views(resolved@),
                name_views(pending@),
                name_views(exhale@),
                budget as nat,
            ) == spec_exhale_order(apps_v, links_v));
        }
        while pending.len() > 0 && budget > 0
            invariant
                self.wf(),
                apps_v == self.apps@,
                links_v == self.links@,
                name_views(pending@).no_duplicates(),
                all_push_apps(self.apps@, name_views(pending@)),
                name_views(exhale@).no_duplicates(),
                all_push_apps(self.apps@, name_views(exhale@)),
                views_disjoint(name_views(exhale@), name_views(pending@)),
                spec_rounds(
                    apps_v,
                    links_v,
                    name_views(resolved@),
                    name_views(pending@),
                    name_views(exhale@),
                    budget as nat,
                ) == spec_exhale_order(apps_v, links_v),
            ensures
                name_views(exhale@).no_duplicates(),
                all_push_apps(self.apps@, name_views(exhale@)),
                apps_v == self.apps@,
                links_v == self.links@,
                self.wf(),
                pending.len() == 0 || budget == 0,
                spec_rounds(
                    apps_v,
                    links_v,
                    name_views(resolved@),
                    name_views(pending@),
                    name_views(exhale@),
                    budget as nat,
                ) == spec_exhale_order(apps_v, links_v),
            decreases budget,
        {
            let ghost r0 = name_views(resolved@);
            let ghost p0 = name_views(pending@);
            let ghost x0 = name_views(exhale@);
            let ghost b0 = budget;
            budget = budget - 1;
            // Cycle breaker: delay consumers whose producer is also
            // pending, but never empty the round.
            let snapshot = dup_names(&pending);
            proof {
                assert(name_views(snapshot@) =~= p0);
            }
            let mut selected: Vec<String> = Vec::new();
            proof {
                assert(name_views(selected@) =~= Seq::<Seq<char>>::empty());
                assert(p0.take(0) =~= Seq::<Seq<char>>::empty());
            }
            let mut si: usize = 0;
            while si < snapshot.len()
                invariant
                    self.wf(),
                    si <= snapshot.len(),
                    apps_v == self.apps@,
                    links_v == self.links@,
                    name_views(snapshot@) == p0,
                    name_views(resolved@) == r0,
                    name_views(pending@).no_duplicates(),
                    all_push_apps(self.apps@, name_views(pending@)),
                    name_views(exhale@).no_duplicates(),
                    all_push_apps(self.apps@, name_views(exhale@)),
                    views_disjoint(name_views(exhale@), name_views(pending@)),
                    (name_views(pending@), name_views(selected@)) == spec_break_round(
                        p0.take(si as int),
                        links_v,
                        r0,
                        (p0, Seq::<Seq<char>>::empty()),
                    ),
                decreases snapshot.len() - si,
            {
                proof {
                    assert(p0.take(si + 1).drop_last() =~= p0.take(si as int));
                    assert(p0.take(si + 1).last() == p0[si as int]);
                }
                let name = &snapshot[si];
                let ghost nv = name@;
                let ghost st_si = (name_views(pending@), name_views(selected@));
                let mut le: usize = 0;
                proof {
                    assert(links_v.take(0) =~= Seq::<LinkEntry>::empty());
                }
                while le < self.links.len()
                    invariant
                        self.wf(),
                        le <= self.links.len(),
                        apps_v == self.apps@,
                        links_v == self.links@,
                        nv == name@,
                        name_views(resolved@) == r0,
                        name_views(pending@).no_duplicates(),
                        all_push_apps(self.apps@, name_views(pending@)),
                        name_views(exhale@).no_duplicates(),
                        all_push_apps(self.apps@, name_views(exhale@)),
                        views_disjoint(name_views(exhale@), name_views(pending@)),
                        (name_views(pending@), name_views(selected@)) == spec_break_for(
                            nv,
                            links_v.take(le as int),
                            r0,
                            st_si,
                        ),
                    decreases self.links.len() - le,
                {
                    proof {
                        assert(links_v.take(le + 1).drop_last() =~= links_v.take(le as int));
                        assert(links_v.take(le + 1).last() == links_v[le as int]);
                    }
                    let live = !names_contain(&resolved, self.links[le].spec.from.as_str());
                    if live && str_eq(self.links[le].spec.from.as_str(), name.as_str()) {
                        let succ = self.links[le].spec.to.clone();
                        if !names_contain(&selected, succ.as_str()) && names_contain(
                            &pending,
                            succ.as_str(),
                        ) && pending.len() > 1 {
                            if !names_contain(&selected, name.as_str()) {
                                let ghost sv = name_views(selected@);
                                selected.push(name.clone());
                                proof {
                                    assert(name_views(selected@) =~= sv.push(nv));
                                }
                            }
                            let ghost pv = name_views(pending@);
                            names_remove(&mut pending, succ.as_str());
                            proof {
                                lemma_filter_no_dup(pv, |n: Seq<char>| n != succ@);
                                lemma_filter_membership(pv, |n: Seq<char>| n != succ@);
                                assert forall|i: int|
                                    0 <= i < name_views(pending@).len() implies spec_is_push_app(
                                    self.apps@,
                                    #[trigger] name_views(pending@)[i],
                                ) by {
                                    assert(pv.contains(name_views(pending@)[i]));
                                    let w = choose|w: int|
                                        0 <= w < pv.len() && pv[w] == name_views(pending@)[i];
                                }
                                assert forall|i: int, j: int|
                                    0 <= i < name_views(exhale@).len() && 0 <= j < name_views(
                                        pending@,
                                    ).len() implies name_views(exhale@)[i] != name_views(
                                    pending@,
                                )[j] by {
                                    assert(pv.contains(name_views(pending@)[j]));
                                    let w = choose|w: int|
                                        0 <= w < pv.len() && pv[w] == name_views(pending@)[j];
                                }
                            }
                        }
                    }
                    le = le + 1;
                }
                proof {
                    assert(links_v.take(links_v.len() as int) =~= links_v);
                }
                si = si + 1;
            }
            proof {
                assert(p0.take(p0.len() as int) =~= p0);
            }
            let ghost st = spec_break_round(p0, links_v, r0, (p0, Seq::<Seq<char>>::empty()));
            // Emit this round in name order.
            let ghost pv0 = name_views(pending@);
            sort_names(&mut pending);
            proof {
                assert(pv0 == st.0);
                lemma_lex_le_total();
                pv0.lemma_sort_by_ensures(lex_leq());
                lemma_perm_preserves(pv0, name_views(pending@));
                assert forall|i: int|
                    0 <= i < name_views(pending@).len() implies spec_is_push_app(
                    self.apps@,
                    #[trigger] name_views(pending@)[i],
                ) by {
                    assert(name_views(pending@).contains(name_views(pending@)[i]));
                    assert(pv0.contains(name_views(pending@)[i]));
                    let w = choose|w: int| 0 <= w < pv0.len() && pv0[w] == name_views(pending@)[i];
                }
                assert forall|i: int, j: int|
                    0 <= i < name_views(exhale@).len() && 0 <= j < name_views(pending@).len()
                    implies name_views(exhale@)[i] != name_views(pending@)[j] by {
                    assert(name_views(pending@).contains(name_views(pending@)[j]));
                    assert(pv0.contains(name_views(pending@)[j]));
                    let w = choose|w: int| 0 <= w < pv0.len() && pv0[w] == name_views(pending@)[j];
                }
            }
            let ghost p2 = name_views(pending@);
            let emitted = dup_names(&pending);
            proof {
                assert(name_views(emitted@) =~= p2);
                assert(p2.take(0) =~= Seq::<Seq<char>>::empty());
            }
            let mut pi: usize = 0;
            while pi < pending.len()
                invariant
                    self.wf(),
                    pi <= pending.len(),
                    apps_v == self.apps@,
                    p2 == name_views(pending@),
                    x0 == name_views(exhale@).take(x0.len() as int),
                    name_views(exhale@) =~= x0 + p2.take(pi as int),
                    name_views(pending@).no_duplicates(),
                    all_push_apps(self.apps@, name_views(pending@)),
                    name_views(exhale@).no_duplicates(),
                    all_push_apps(self.apps@, name_views(exhale@)),
                    forall|i: int, j: int|
                        0 <= i < name_views(exhale@).len() && pi <= j < name_views(
                            pending@,
                        ).len() ==> name_views(exhale@)[i] != name_views(pending@)[j],
                decreases pending.len() - pi,
            {
                let ghost ev = name_views(exhale@);
                let ghost pvv = name_views(pending@);
                exhale.push(pending[pi].clone());
                proof {
                    assert(name_views(exhale@) =~= ev.push(pvv[pi as int]));
                    assert(name_views(exhale@) =~= x0 + p2.take(pi + 1));
                    assert(x0 =~= name_views(exhale@).take(x0.len() as int));
                    assert forall|i: int, j: int|
                        0 <= i < name_views(exhale@).len() && pi + 1 <= j < pvv.len()
                        implies name_views(exhale@)[i] != pvv[j] by {
                        if i == name_views(exhale@).len() - 1 {
                            assert(name_views(exhale@)[i] == pvv[pi as int]);
                        }
                    }
                }
                pi = pi + 1;
            }
            proof {
                assert(p2.take(p2.len() as int) =~= p2);
                assert(name_views(exhale@) =~= x0 + p2);
            }
            let ghost x2 = name_views(exhale@);
            pending = Vec::new();
            proof {
                assert(name_views(pending@) =~= Seq::<Seq<char>>::empty());
            }
            // Collect the next round: push successors of the emitted
            // apps not already ordered.
            let mut ei: usize = 0;
            proof {
                assert(p2.take(0) =~= Seq::<Seq<char>>::empty());
            }
            while ei < emitted.len()
                invariant
                    self.wf(),
                    ei <= emitted.len(),
                    apps_v == self.apps@,
                    links_v == self.links@,
                    name_views(emitted@) == p2,
                    name_views(resolved@) == r0,
                    x2 == name_views(exhale@),
                    name_views(pending@).no_duplicates(),
                    all_push_apps(self.apps@, name_views(pending@)),
                    name_views(exhale@).no_duplicates(),
                    all_push_apps(self.apps@, name_views(exhale@)),
                    views_disjoint(name_views(exhale@), name_views(pending@)),
                    name_views(pending@) == spec_collect_round(
                        apps_v,
                        p2.take(ei as int),
                        links_v,
                        r0,
                        x2,
                        Seq::<Seq<char>>::empty(),
                    ),
                decreases emitted.len() - ei,
            {
                proof {
                    assert(p2.take(ei + 1).drop_last() =~= p2.take(ei as int));
                    assert(p2.take(ei + 1).last() == p2[ei as int]);
                }
                let name = &emitted[ei];
                let ghost nv = name@;
                let ghost p_ei = name_views(pending@);
                let mut le: usize = 0;
                proof {
                    assert(links_v.take(0) =~= Seq::<LinkEntry>::empty());
                }
                while le < self.links.len()
                    invariant
                        self.wf(),
                        le <= self.links.len(),
                        apps_v == self.apps@,
                        links_v == self.links@,
                        nv == name@,
                        name_views(resolved@) == r0,
                        x2 == name_views(exhale@),
                        name_views(pending@).no_duplicates(),
                        all_push_apps(self.apps@, name_views(pending@)),
                        name_views(exhale@).no_duplicates(),
                        all_push_apps(self.apps@, name_views(exhale@)),
                        views_disjoint(name_views(exhale@), name_views(pending@)),
                        name_views(pending@) == spec_collect_for(
                            apps_v,
                            nv,
                            links_v.take(le as int),
                            r0,
                            x2,
                            p_ei,
                        ),
                    decreases self.links.len() - le,
                {
                    proof {
                        assert(links_v.take(le + 1).drop_last() =~= links_v.take(le as int));
                        assert(links_v.take(le + 1).last() == links_v[le as int]);
                    }
                    let live = !names_contain(&resolved, self.links[le].spec.from.as_str());
                    if live && str_eq(self.links[le].spec.from.as_str(), name.as_str()) {
                        let succ = self.links[le].spec.to.clone();
                        if self.app_is_push(&succ) && !names_contain(&exhale, succ.as_str())
                            && !names_contain(&pending, succ.as_str()) {
                            let ghost pv = name_views(pending@);
                            let ghost sv = succ@;
                            pending.push(succ);
                            proof {
                                assert(name_views(pending@) =~= pv.push(sv));
                            }
                        }
                    }
                    le = le + 1;
                }
                proof {
                    assert(links_v.take(links_v.len() as int) =~= links_v);
                }
                ei = ei + 1;
            }
            proof {
                assert(p2.take(p2.len() as int) =~= p2);
            }
            let mut ei2: usize = 0;
            proof {
                assert(name_views(resolved@) =~= r0 + p2.take(0));
            }
            while ei2 < emitted.len()
                invariant
                    ei2 <= emitted.len(),
                    name_views(emitted@) == p2,
                    name_views(resolved@) =~= r0 + p2.take(ei2 as int),
                decreases emitted.len() - ei2,
            {
                let ghost rv = name_views(resolved@);
                resolved.push(emitted[ei2].clone());
                proof {
                    assert(name_views(resolved@) =~= rv.push(p2[ei2 as int]));
                    assert(name_views(resolved@) =~= r0 + p2.take(ei2 + 1));
                }
                ei2 = ei2 + 1;
            }
            proof {
                assert(p2.take(p2.len() as int) =~= p2);
                assert(name_views(resolved@) =~= r0 + p2);
                // One spec round matches what this round did.
                assert(spec_rounds(apps_v, links_v, r0, p0, x0, b0 as nat) == spec_rounds(
                    apps_v,
                    links_v,
                    r0 + p2,
                    name_views(pending@),
                    x0 + p2,
                    (b0 - 1) as nat,
                ));
            }
        }
        proof {
            assert(name_views(exhale@) == spec_exhale_order(apps_v, links_v));
        }
        self.exhale = exhale;
    }

    /// Whether the named app exists and exhales packets.
    fn app_is_push(&self, name: &String) -> (r: bool)
        requires
            self.wf(),
        ensures
            r == spec_is_push_app(self.apps@, name@),
    {
        match self.find_app(name) {
            Some(i) => {
                let r = self.apps[i].state.conf.has_push();
                proof {
                    if !r {
                        assert forall|k: int|
                            0 <= k < self.apps.len() && (#[trigger] self.apps@[k]).name@ == name@
                            implies !self.apps@[k].state.conf.spec_has_push() by {
                            if k != i {
                                assert(self.apps@[k].name@ != self.apps@[i as int].name@);
                            }
                        }
                    }
                }
                r
            },
            None => false,
        }
    }

    /// What one pull dispatch guarantees of the step from `pre` to
    /// `post` under the named app.
    pub open spec fn pull_dispatch(pre: EngineState, post: EngineState, name: Seq<char>) -> bool {
        &&& post.wf()
        &&& EngineState::dispatch_ok(&pre, &post)
        &&& (spec_is_source_app(pre.apps@, name) ==> forall|j: int|
            0 <= j < pre.links.len() && (#[trigger] pre.links@[j]).spec.from@ == name && (forall|
                k: int,
            | 0 <= k < j ==> (#[trigger] pre.links@[k]).spec.from@ != name)
                && pre.links@[j].link.len() + PULL_NPACKETS <= LINK_MAX_PACKETS && (
            pre.fl.nfree() >= PULL_NPACKETS || pre.fl.grown() + pre.fl.step_size()
                <= crate::packet::MAX_PACKETS) ==> post.links@[j].link.len()
                == pre.links@[j].link.len() + PULL_NPACKETS)
    }

    /// What one push dispatch guarantees of the step from `pre` to
    /// `post` under the named app.
    pub open spec fn push_dispatch(pre: EngineState, post: EngineState, name: Seq<char>) -> bool {
        &&& post.wf()
        &&& EngineState::dispatch_ok(&pre, &post)
        &&& (spec_is_sink_app(pre.apps@, name) ==> forall|j: int|
            0 <= j < post.links.len() && (#[trigger] post.links@[j]).spec.to@ == name
                ==> post.links@[j].link.len() == 0)
        &&& (spec_is_join_app(pre.apps@, name) && spec_has_output_port(pre.links@, name, "output"@)
            ==> forall|j: int|
            0 <= j < post.links.len() && (#[trigger] post.links@[j]).spec.to@ == name
                && post.links@[j].spec.from@ != name ==> post.links@[j].link.len() == 0)
        &&& (spec_is_tee_app(pre.apps@, name) ==> forall|j: int|
            0 <= j < post.links.len() && (#[trigger] post.links@[j]).spec.to@ == name
                && post.links@[j].spec.from@ != name ==> post.links@[j].link.len() == 0)
    }

    /// A breath's dispatch trace: from `start`, one pull step per inhale
    /// name in order, then one push step per exhale name in order.
    pub open spec fn breathe_dispatches(start: EngineState, trace: Seq<EngineState>) -> bool {
        &&& trace.len() == start.inhale.len() + start.exhale.len() + 1
        &&& trace[0] == start
        &&& (forall|i: int|
            0 <= i < start.inhale.len() ==> EngineState::pull_dispatch(
                #[trigger] trace[i],
                trace[i + 1],
                start.inhale@[i]@,
            ))
        &&& (forall|i: int|
            0 <= i < start.exhale.len() ==> EngineState::push_dispatch(
                #[trigger] trace[start.inhale.len() + i],
                trace[start.inhale.len() + i + 1],
                start.exhale@[i]@,
            ))
    }

    /// The same engine with one more breath counted.
    pub open spec fn bump_breaths(s: EngineState) -> EngineState {
        EngineState {
            stats: EngineStats { breaths: sat_add(s.stats.breaths as int, 1) as u64, ..s.stats },
            ..s
        }
    }

    /// A breath from `pre` at instant `now_us` that ends in `post`:
    /// some dispatch trace runs every inhale pull and exhale push in
    /// order, and the breath is counted.
    pub open spec fn breathe_trace_of(
        pre: EngineState,
        now_us: u64,
        post: EngineState,
        trace: Seq<EngineState>,
    ) -> bool {
        &&& EngineState::breathe_dispatches(EngineState { now_us, ..pre }, trace)
        &&& post == EngineState::bump_breaths(trace.last())
    }

    /// Run every inhale pull in order, extending the dispatch trace.
    #[verifier::rlimit(100)]
    #[verifier::spinoff_prover]
    fn run_pulls(&mut self, start: Ghost<EngineState>, trace_in: Ghost<Seq<EngineState>>) -> (r:
        Ghost<Seq<EngineState>>)
        requires
            old(self).wf(),
            *old(self) == start@,
            trace_in@ == seq![start@],
        ensures
            final(self).wf(),
            EngineState::dispatch_ok(&start@, final(self)),
            r@.len() == start@.inhale.len() + 1,
            r@[0] == start@,
            r@.last() == *final(self),
            forall|i: int|
                0 <= i < start@.inhale.len() ==> EngineState::pull_dispatch(
                    #[trigger] r@[i],
                    r@[i + 1],
                    start@.inhale@[i]@,
                ),
    {
        let ghost mut trace = trace_in@;
        let mut k: usize = 0;
        while k < self.inhale.len()
            invariant
                self.wf(),
                EngineState::dispatch_ok(&start@, self),
                k <= start@.inhale.len(),
                trace.len() == k + 1,
                trace[0] == start@,
                trace.last() == *self,
                forall|i: int|
                    0 <= i < k ==> EngineState::pull_dispatch(
                        #[trigger] trace[i],
                        trace[i + 1],
                        start@.inhale@[i]@,
                    ),
            decreases self.inhale.len() - k,
        {
            let name = self.inhale[k].clone();
            let ghost pre_state = *self;
            self.app_pull_named(&name);
            proof {
                let trace0 = trace;
                trace = trace.push(*self);
                assert(trace0.len() - 1 == k as int);
                assert(trace[k as int] == trace0[k as int]);
                assert(trace0[k as int] == pre_state);
                assert(trace.last() == *self);
                assert(EngineState::pull_dispatch(pre_state, *self, start@.inhale@[k as int]@));
                assert forall|i: int|
                    0 <= i < k + 1 implies EngineState::pull_dispatch(
                    #[trigger] trace[i],
                    trace[i + 1],
                    start@.inhale@[i]@,
                ) by {
                    if i < k {
                        assert(trace[i] == trace0[i]);
                        assert(trace[i + 1] == trace0[i + 1]);
                    }
                }
            }
            k = k + 1;
        }
        Ghost(trace)
    }

    /// Run every exhale push in order, extending the dispatch trace.
    #[verifier::rlimit(100)]
    #[verifier::spinoff_prover]
    fn run_pushes(&mut self, start: Ghost<EngineState>, trace_in: Ghost<Seq<EngineState>>) -> (r:
        Ghost<Seq<EngineState>>)
        requires
            old(self).wf(),
            EngineState::dispatch_ok(&start@, old(self)),
            trace_in@.len() == start@.inhale.len() + 1,
            trace_in@[0] == start@,
            trace_in@.last() == *old(self),
            forall|i: int|
                0 <= i < start@.inhale.len() ==> EngineState::pull_dispatch(
                    #[trigger] trace_in@[i],
                    trace_in@[i + 1],
                    start@.inhale@[i]@,
                ),
        ensures
            final(self).wf(),
            EngineState::dispatch_ok(&start@, final(self)),
            EngineState::breathe_dispatches(start@, r@),
            r@.last() == *final(self),
    {
        let ghost mut trace = trace_in@;
        let mut k2: usize = 0;
        while k2 < self.exhale.len()
            invariant
                self.wf(),
                EngineState::dispatch_ok(&start@, self),
                k2 <= start@.exhale.len(),
                trace.len() == start@.inhale.len() + k2 + 1,
                trace[0] == start@,
                trace.last() == *self,
                forall|i: int|
                    0 <= i < start@.inhale.len() ==> EngineState::pull_dispatch(
                        #[trigger] trace[i],
                        trace[i + 1],
                        start@.inhale@[i]@,
                    ),
                forall|i: int|
                    0 <= i < k2 ==> EngineState::push_dispatch(
                        #[trigger] trace[start@.inhale.len() + i],
                        trace[start@.inhale.len() + i + 1],
                        start@.exhale@[i]@,
                    ),
            decreases self.exhale.len() - k2,
        {
            let name = self.exhale[k2].clone();
            let ghost pre_state = *self;
            self.app_push_named(&name);
            proof {
                let trace0 = trace;
                trace = trace.push(*self);
                assert(trace0.len() - 1 == start@.inhale.len() + k2);
                assert(trace[start@.inhale.len() + k2] == trace0[start@.inhale.len() + k2]);
                assert(trace0[start@.inhale.len() + k2] == pre_state);
                assert(trace.last() == *self);
                assert(EngineState::push_dispatch(pre_state, *self, start@.exhale@[k2 as int]@));
                assert forall|i: int|
                    0 <= i < start@.inhale.len() implies EngineState::pull_dispatch(
                    #[trigger] trace[i],
                    trace[i + 1],
                    start@.inhale@[i]@,
                ) by {
                    assert(trace[i] == trace0[i]);
                    assert(trace[i + 1] == trace0[i + 1]);
                }
                assert forall|i: int|
                    0 <= i < k2 + 1 implies EngineState::push_dispatch(
                    #[trigger] trace[start@.inhale.len() + i],
                    trace[start@.inhale.len() + i + 1],
                    start@.exhale@[i]@,
                ) by {
                    if i < k2 {
                        assert(trace[start@.inhale.len() + i] == trace0[start@.inhale.len() + i]);
                        assert(trace[start@.inhale.len() + i + 1] == trace0[start@.inhale.len()
                            + i + 1]);
                    }
                }
            }
            k2 = k2 + 1;
        }
        Ghost(trace)
    }

    /// Take one breath: snapshot the clock, run every pull app in inhale
    /// order, then every push app in exhale order, and count the breath.
    /// The result is exactly a dispatch trace of the engine: one pull per
    /// inhale app, one push per exhale app, in order, then the breath
    /// counter.
    #[verifier::spinoff_prover]
    pub fn breathe(&mut self, now_us: u64)
        requires
            old(self).wf(),
        ensures
            final(self).wf(),
            final(self).now_us == now_us,
            final(self).stats.breaths == sat_add(old(self).stats.breaths as int, 1),
            old(self).links_shape(final(self)),
            final(self).apps.len() == old(self).apps.len(),
            forall|k: int|
                0 <= k < old(self).apps.len() ==> (#[trigger] final(self).apps@[k]).name@ == old(
                    self,
                ).apps@[k].name@ && final(self).apps@[k].state.conf == old(
                    self,
                ).apps@[k].state.conf,
            final(self).inhale@ == old(self).inhale@ && final(self).exhale@ == old(self).exhale@,
            final(self).fl.grown() >= old(self).fl.grown(),
            exists|trace: Seq<EngineState>|
                #[trigger] EngineState::breathe_trace_of(*old(self), now_us, *final(self), trace),
    {
        self.now_us = now_us;
        let ghost start = *self;
        let ghost init_trace: Seq<EngineState> = seq![start];
        let t1 = self.run_pulls(Ghost(start), Ghost(init_trace));
        let t2 = self.run_pushes(Ghost(start), t1);
        let ghost before_count = *self;
        self.stats.add_breaths();
        proof {
            assert(t2@.last() == before_count);
            assert(self.stats == EngineStats {
                breaths: sat_add(before_count.stats.breaths as int, 1) as u64,
                ..before_count.stats
            });
            assert(*self == EngineState::bump_breaths(t2@.last()));
            assert(EngineState::breathe_trace_of(*old(self), now_us, *self, t2@));
        }
    }

    /// Pacing: when the breath freed nothing, lengthen the sleep by one
    /// microsecond up to the cap and report it; otherwise halve it and
    /// report no sleep. The caller performs the sleep.
    pub fn pace_breathing(&mut self) -> (sleep_for: u64)
        ensures
            final(self).apps@ == old(self).apps@,
            final(self).links@ == old(self).links@,
            final(self).stats == old(self).stats,
            final(self).fl == old(self).fl,
            final(self).inhale@ == old(self).inhale@ && final(self).exhale@ == old(self).exhale@,
            final(self).lastfrees == old(self).stats.frees,
            old(self).lastfrees == old(self).stats.frees ==> {
                &&& final(self).sleep_us == (if old(self).sleep_us < MAXSLEEP {
                    old(self).sleep_us + 1
                } else {
                    MAXSLEEP as int
                })
                &&& sleep_for == final(self).sleep_us
            },
            old(self).lastfrees != old(self).stats.frees ==> {
                &&& final(self).sleep_us == old(self).sleep_us / 2
                &&& sleep_for == 0
            },
            old(self).wf() ==> final(self).wf(),
    {
        let sleep_for;
        if self.lastfrees == self.stats.frees {
            self.sleep_us = if self.sleep_us < MAXSLEEP {
                self.sleep_us + 1
            } else {
                MAXSLEEP
            };
            sleep_for = self.sleep_us;
        } else {
            self.sleep_us = self.sleep_us / 2;
            sleep_for = 0;
        }
        self.lastfrees = self.stats.frees;
        sleep_for
    }
}

/// An identical copy of a list of names.
fn dup_names(v: &Vec<String>) -> (r: Vec<String>)
    ensures
        r@.len() == v@.len(),
        forall|i: int| 0 <= i < v@.len() ==> (#[trigger] r@[i])@ == v@[i]@,
{
    let mut r: Vec<String> = Vec::new();
    let mut i: usize = 0;
    while i < v.len()
        invariant
            i <= v.len(),
            r@.len() == i,
            forall|j: int| 0 <= j < i ==> (#[trigger] r@[j])@ == v@[j]@,
        decreases v.len() - i,
    {
        r.push(v[i].clone());
        i = i + 1;
    }
    r
}


/// First index of an app entry with the given name.
pub open spec fn spec_find_app(s: Seq<AppEntry>, name: Seq<char>) -> Option<int>
    decreases s.len(),
{
    if s.len() == 0 {
        Option::None
    } else if s[0].name@ == name {
        Option::Some(0int)
    } else {
        match spec_find_app(s.drop_first(), name) {
            Option::None => Option::None,
            Option::Some(i) => Option::Some(i + 1),
        }
    }
}

/// First index of a link entry with the given spec.
pub open spec fn spec_find_link(
    s: Seq<LinkEntry>,
    v: (Seq<char>, Seq<char>, Seq<char>, Seq<char>),
) -> Option<int>
    decreases s.len(),
{
    if s.len() == 0 {
        Option::None
    } else if s[0].spec@ == v {
        Option::Some(0int)
    } else {
        match spec_find_link(s.drop_first(), v) {
            Option::None => Option::None,
            Option::Some(i) => Option::Some(i + 1),
        }
    }
}

pub proof fn lemma_spec_find_app_is(s: Seq<AppEntry>, name: Seq<char>, j: int)
    requires
        0 <= j < s.len(),
        s[j].name@ == name,
        forall|k: int| 0 <= k < j ==> (#[trigger] s[k]).name@ != name,
    ensures
        spec_find_app(s, name) == Option::Some(j),
    decreases j,
{
    if j == 0 {
    } else {
        assert(s.drop_first()[j - 1] == s[j]);
        assert forall|k: int| 0 <= k < j - 1 implies (#[trigger] s.drop_first()[k]).name@
            != name by {
            assert(s.drop_first()[k] == s[k + 1]);
        }
        lemma_spec_find_app_is(s.drop_first(), name, j - 1);
    }
}

pub proof fn lemma_spec_find_app_none(s: Seq<AppEntry>, name: Seq<char>)
    requires
        forall|k: int| 0 <= k < s.len() ==> (#[trigger] s[k]).name@ != name,
    ensures
        spec_find_app(s, name) is None,
    decreases s.len(),
{
    if s.len() > 0 {
        assert forall|k: int| 0 <= k < s.len() - 1 implies (#[trigger] s.drop_first()[k]).name@
            != name by {
            assert(s.drop_first()[k] == s[k + 1]);
        }
        lemma_spec_find_app_none(s.drop_first(), name);
    }
}

pub proof fn lemma_spec_find_link_is(
    s: Seq<LinkEntry>,
    v: (Seq<char>, Seq<char>, Seq<char>, Seq<char>),
    j: int,
)
    requires
        0 <= j < s.len(),
        s[j].spec@ == v,
        forall|k: int| 0 <= k < j ==> (#[trigger] s[k]).spec@ != v,
    ensures
        spec_find_link(s, v) == Option::Some(j),
    decreases j,
{
    if j == 0 {
    } else {
        assert(s.drop_first()[j - 1] == s[j]);
        assert forall|k: int| 0 <= k < j - 1 implies (#[trigger] s.drop_first()[k]).spec@ != v by {
            assert(s.drop_first()[k] == s[k + 1]);
        }
        lemma_spec_find_link_is(s.drop_first(), v, j - 1);
    }
}

pub proof fn lemma_spec_find_link_none(
    s: Seq<LinkEntry>,
    v: (Seq<char>, Seq<char>, Seq<char>, Seq<char>),
)
    requires
        forall|k: int| 0 <= k < s.len() ==> (#[trigger] s[k]).spec@ != v,
    ensures
        spec_find_link(s, v) is None,
    decreases s.len(),
{
    if s.len() > 0 {
        assert forall|k: int| 0 <= k < s.len() - 1 implies (#[trigger] s.drop_first()[k]).spec@
            != v by {
            assert(s.drop_first()[k] == s[k + 1]);
        }
        lemma_spec_find_link_none(s.drop_first(), v);
    }
}

/// Total packets queued on an option-vector of link entries.
pub open spec fn total_links_opt(s: Seq<Option<LinkEntry>>) -> int
    decreases s.len(),
{
    if s.len() == 0 {
        0int
    } else {
        (match s[0] {
            Option::Some(e) => e.link.len(),
            Option::None => 0int,
        }) + total_links_opt(s.drop_first())
    }
}

/// Total packets held by an option-vector of app entries.
pub open spec fn total_held_opt(s: Seq<Option<AppEntry>>) -> int
    decreases s.len(),
{
    if s.len() == 0 {
        0int
    } else {
        (match s[0] {
            Option::Some(e) => e.state.app.held(),
            Option::None => 0int,
        }) + total_held_opt(s.drop_first())
    }
}

pub proof fn lemma_total_links_opt_take(s: Seq<Option<LinkEntry>>, j: int)
    requires
        0 <= j < s.len(),
        s[j] is Some,
    ensures
        total_links_opt(s.update(j, Option::None)) == total_links_opt(s) - s[j]->0.link.len(),
    decreases s.len(),
{
    if j == 0 {
        assert(s.update(0, Option::<LinkEntry>::None).drop_first() =~= s.drop_first());
    } else {
        assert(s.update(j, Option::<LinkEntry>::None)[0] == s[0]);
        assert(s.update(j, Option::<LinkEntry>::None).drop_first() =~= s.drop_first().update(
            j - 1,
            Option::None,
        ));
        lemma_total_links_opt_take(s.drop_first(), j - 1);
    }
}

pub proof fn lemma_total_held_opt_take(s: Seq<Option<AppEntry>>, j: int)
    requires
        0 <= j < s.len(),
        s[j] is Some,
    ensures
        total_held_opt(s.update(j, Option::None)) == total_held_opt(s) - s[j]->0.state.app.held(),
    decreases s.len(),
{
    if j == 0 {
        assert(s.update(0, Option::<AppEntry>::None).drop_first() =~= s.drop_first());
    } else {
        assert(s.update(j, Option::<AppEntry>::None)[0] == s[0]);
        assert(s.update(j, Option::<AppEntry>::None).drop_first() =~= s.drop_first().update(
            j - 1,
            Option::None,
        ));
        lemma_total_held_opt_take(s.drop_first(), j - 1);
    }
}

pub proof fn lemma_total_links_opt_snoc(s: Seq<Option<LinkEntry>>, e: Option<LinkEntry>)
    ensures
        total_links_opt(s.push(e)) == total_links_opt(s) + (match e {
            Option::Some(le) => le.link.len(),
            Option::None => 0int,
        }),
    decreases s.len(),
{
    let pushed = s.push(e);
    if s.len() == 0 {
        assert(pushed[0] == e);
        assert(pushed.drop_first() =~= Seq::<Option<LinkEntry>>::empty());
        assert(total_links_opt(pushed.drop_first()) == 0);
    } else {
        assert(pushed[0] == s[0]);
        assert(pushed.drop_first() =~= s.drop_first().push(e));
        lemma_total_links_opt_snoc(s.drop_first(), e);
    }
}

pub proof fn lemma_total_held_opt_snoc(s: Seq<Option<AppEntry>>, e: Option<AppEntry>)
    ensures
        total_held_opt(s.push(e)) == total_held_opt(s) + (match e {
            Option::Some(ae) => ae.state.app.held(),
            Option::None => 0int,
        }),
    decreases s.len(),
{
    let pushed = s.push(e);
    if s.len() == 0 {
        assert(pushed[0] == e);
        assert(pushed.drop_first() =~= Seq::<Option<AppEntry>>::empty());
        assert(total_held_opt(pushed.drop_first()) == 0);
    } else {
        assert(pushed[0] == s[0]);
        assert(pushed.drop_first() =~= s.drop_first().push(e));
        lemma_total_held_opt_snoc(s.drop_first(), e);
    }
}

pub proof fn lemma_total_links_snoc(s: Seq<LinkEntry>, e: LinkEntry)
    ensures
        total_links(s.push(e)) == total_links(s) + e.link.len(),
    decreases s.len(),
{
    let pushed = s.push(e);
    if s.len() == 0 {
        assert(pushed[0] == e);
        assert(pushed.drop_first() =~= Seq::<LinkEntry>::empty());
        assert(total_links(pushed.drop_first()) == 0);
    } else {
        assert(pushed[0] == s[0]);
        assert(pushed.drop_first() =~= s.drop_first().push(e));
        lemma_total_links_snoc(s.drop_first(), e);
    }
}

pub proof fn lemma_total_held_snoc(s: Seq<AppEntry>, e: AppEntry)
    ensures
        total_held(s.push(e)) == total_held(s) + e.state.app.held(),
    decreases s.len(),
{
    let pushed = s.push(e);
    if s.len() == 0 {
        assert(pushed[0] == e);
        assert(pushed.drop_first() =~= Seq::<AppEntry>::empty());
        assert(total_held(pushed.drop_first()) == 0);
    } else {
        assert(pushed[0] == s[0]);
        assert(pushed.drop_first() =~= s.drop_first().push(e));
        lemma_total_held_snoc(s.drop_first(), e);
    }
}

pub proof fn lemma_total_links_opt_nonneg(s: Seq<Option<LinkEntry>>)
    requires
        forall|i: int|
            0 <= i < s.len() ==> ((#[trigger] s[i]) matches Some(e) ==> e.link.wf()),
    ensures
        total_links_opt(s) >= 0,
    decreases s.len(),
{
    if s.len() > 0 {
        lemma_total_links_opt_nonneg(s.drop_first());
    }
}

pub proof fn lemma_total_held_opt_nonneg(s: Seq<Option<AppEntry>>)
    requires
        forall|i: int|
            0 <= i < s.len() ==> ((#[trigger] s[i]) matches Some(e) ==> e.state.app.wf()),
    ensures
        total_held_opt(s) >= 0,
    decreases s.len(),
{
    if s.len() > 0 {
        match s[0] {
            Option::Some(e) => {
                match e.state.app {
                    App::Latency(x) => crate::qos::lemma_dq_packet_count_nonneg(
                        x.queue.entries(),
                    ),
                    App::Jitter(x) => crate::qos::lemma_dq_packet_count_nonneg(
                        x.queue.entries(),
                    ),
                    _ => {},
                }
            },
            Option::None => {},
        }
        lemma_total_held_opt_nonneg(s.drop_first());
    }
}


/// Index of the first live (not yet consumed) entry matching the spec.
fn find_old_link(olds: &Vec<Option<LinkEntry>>, target: &LinkSpec) -> (r: Option<usize>)
    ensures
        r matches Some(j) ==> j < olds.len() && olds@[j as int] is Some && olds@[j as int]->0.spec@
            == target@ && (forall|k: int|
            0 <= k < j ==> ((#[trigger] olds@[k]) matches Some(e) ==> e.spec@ != target@)),
        r is None ==> (forall|k: int|
            0 <= k < olds.len() ==> ((#[trigger] olds@[k]) matches Some(e) ==> e.spec@
                != target@)),
{
    let mut j: usize = 0;
    while j < olds.len()
        invariant
            j <= olds.len(),
            forall|k: int|
                0 <= k < j ==> ((#[trigger] olds@[k]) matches Some(e) ==> e.spec@ != target@),
        decreases olds.len() - j,
    {
        let hit: bool = match &olds[j] {
            Some(e) => e.spec.same(target),
            None => false,
        };
        if hit {
            return Some(j);
        }
        j = j + 1;
    }
    None
}

/// Index of the first live entry with the given app name.
fn find_old_app(olds: &Vec<Option<AppEntry>>, target: &String) -> (r: Option<usize>)
    ensures
        r matches Some(j) ==> j < olds.len() && olds@[j as int] is Some && olds@[j as int]->0.name@
            == target@ && (forall|k: int|
            0 <= k < j ==> ((#[trigger] olds@[k]) matches Some(e) ==> e.name@ != target@)),
        r is None ==> (forall|k: int|
            0 <= k < olds.len() ==> ((#[trigger] olds@[k]) matches Some(e) ==> e.name@
                != target@)),
{
    let mut j: usize = 0;
    while j < olds.len()
        invariant
            j <= olds.len(),
            forall|k: int|
                0 <= k < j ==> ((#[trigger] olds@[k]) matches Some(e) ==> e.name@ != target@),
        decreases olds.len() - j,
    {
        let hit: bool = match &olds[j] {
            Some(e) => str_eq(e.name.as_str(), target.as_str()),
            None => false,
        };
        if hit {
            return Some(j);
        }
        j = j + 1;
    }
    None
}

/// A fresh link entry's link: empty, all counters zero.
pub open spec fn fresh_link(l: &Link) -> bool {
    l.queue() =~= Seq::<Packet>::empty() && l.txpackets == 0 && l.txbytes == 0 && l.txdrop == 0
        && l.rxpackets == 0 && l.rxbytes == 0
}

impl EngineState {
    /// Rebuild the link table against a new configuration: links present
    /// in both keep their handle, counters, and queued packets; links no
    /// longer configured are drained and their packets freed; new links
    /// start fresh. The resulting table follows the configuration's
    /// order.
    #[verifier::rlimit(100)]
    fn configure_links(&mut self, config: &Config)
        requires
            old(self).wf(),
            config.wf(),
        ensures
            final(self).wf(),
            final(self).apps@ == old(self).apps@,
            final(self).links.len() == config.links.len(),
            forall|m: int|
                0 <= m < config.links.len() ==> {
                    &&& (#[trigger] final(self).links@[m]).spec@ == config.links@[m]@
                    &&& (match spec_find_link(old(self).links@, config.links@[m]@) {
                        Option::Some(j) => final(self).links@[m].link == old(
                            self,
                        ).links@[j].link,
                        Option::None => fresh_link(&final(self).links@[m].link),
                    })
                },
            final(self).fl.grown() == old(self).fl.grown(),
            final(self).stats.breaths == old(self).stats.breaths,
            final(self).now_us == old(self).now_us && final(self).sleep_us == old(self).sleep_us
                && final(self).lastfrees == old(self).lastfrees,
            final(self).inhale@ == old(self).inhale@ && final(self).exhale@ == old(self).exhale@,
    {
        let ghost old_links = self.links@;
        // Move the table into stable slots.
        let mut tmp: Vec<LinkEntry> = Vec::new();
        core::mem::swap(&mut tmp, &mut self.links);
        let mut olds: Vec<Option<LinkEntry>> = Vec::new();
        while tmp.len() > 0
            invariant
                olds@.len() + tmp@.len() == old_links.len(),
                forall|k: int|
                    0 <= k < olds.len() ==> (#[trigger] olds@[k]) == Option::Some(old_links[k]),
                forall|k: int| 0 <= k < tmp.len() ==> #[trigger] tmp@[k] == old_links[olds@.len() + k],
                total_links_opt(olds@) + total_links(tmp@) == total_links(old_links),
            decreases tmp.len(),
        {
            let ghost olds0 = olds@;
            let ghost tmp0 = tmp@;
            let e = tmp.remove(0);
            olds.push(Some(e));
            proof {
                lemma_total_links_opt_snoc(olds0, Option::Some(e));
                assert(tmp0[0] == e);
                assert(tmp@ =~= tmp0.drop_first());
            }
        }
        let mut newlinks: Vec<LinkEntry> = Vec::new();
        let mut ci: usize = 0;
        while ci < config.links.len()
            invariant
                config.wf(),
                self.fl.wf(),
                self.apps@ == old(self).apps@,
                forall|i: int|
                    0 <= i < self.apps.len() ==> (#[trigger] self.apps@[i]).state.app.wf(),
                forall|i: int, j: int|
                    0 <= i < j < self.apps.len() ==> (#[trigger] self.apps@[i]).name@ != (
                    #[trigger] self.apps@[j]).name@,
                ci <= config.links.len(),
                olds@.len() == old_links.len(),
                forall|k: int|
                    0 <= k < olds.len() ==> ((#[trigger] olds@[k]) matches Some(e) ==> e
                        == old_links[k]),
                forall|k: int|
                    0 <= k < olds.len() ==> ((#[trigger] olds@[k]) is None ==> exists|c: int|
                        0 <= c < ci && (#[trigger] config.links@[c])@ == old_links[k].spec@),
                newlinks.len() == ci,
                forall|m: int|
                    0 <= m < ci ==> {
                        &&& (#[trigger] newlinks@[m]).spec@ == config.links@[m]@
                        &&& (match spec_find_link(old_links, config.links@[m]@) {
                            Option::Some(j) => newlinks@[m].link == old_links[j].link,
                            Option::None => fresh_link(&newlinks@[m].link),
                        })
                    },
                forall|m: int| 0 <= m < ci ==> (#[trigger] newlinks@[m]).link.wf(),
                self.fl.outstanding() == total_links(newlinks@) + total_links_opt(olds@)
                    + total_held(self.apps@),
                forall|i: int| 0 <= i < old_links.len() ==> (#[trigger] old_links[i]).link.wf(),
                forall|a: int, b: int|
                    0 <= a < b < old_links.len() ==> (#[trigger] old_links[a]).spec@ != (
                    #[trigger] old_links[b]).spec@,
                self.fl.grown() == old(self).fl.grown(),
                self.stats == old(self).stats,
                self.now_us == old(self).now_us && self.sleep_us == old(self).sleep_us
                    && self.lastfrees == old(self).lastfrees,
                self.inhale@ == old(self).inhale@ && self.exhale@ == old(self).exhale@,
            decreases config.links.len() - ci,
        {
            let target = &config.links[ci];
            let found = find_old_link(&olds, target);
            match found {
                Some(j) => {
                    let ghost olds0 = olds@;
                    let eo = olds.remove(j);
                    olds.insert(j, None);
                    let e = eo.unwrap();
                    proof {
                        assert(olds@ =~= olds0.update(j as int, Option::None));
                        lemma_total_links_opt_take(olds0, j as int);
                        // This really is the first old entry with this
                        // spec: consumed slots carry earlier configured
                        // specs, which are all different.
                        assert forall|k: int| 0 <= k < j implies (#[trigger] old_links[k]).spec@
                            != config.links@[ci as int]@ by {
                            if olds0[k] is Some {
                                assert(olds0[k]->0 == old_links[k]);
                            } else {
                                let c = choose|c: int|
                                    0 <= c < ci && (#[trigger] config.links@[c])@
                                        == old_links[k].spec@;
                                assert(config.links@[c]@ != config.links@[ci as int]@);
                            }
                        }
                        lemma_spec_find_link_is(old_links, config.links@[ci as int]@, j as int);
                        lemma_total_links_snoc(newlinks@, e);
                    }
                    newlinks.push(e);
                },
                None => {
                    proof {
                        assert forall|k: int|
                            0 <= k < old_links.len() implies (#[trigger] old_links[k]).spec@
                            != config.links@[ci as int]@ by {
                            if olds@[k] is Some {
                                assert(olds@[k]->0 == old_links[k]);
                            } else {
                                let c = choose|c: int|
                                    0 <= c < ci && (#[trigger] config.links@[c])@
                                        == old_links[k].spec@;
                                assert(config.links@[c]@ != config.links@[ci as int]@);
                            }
                        }
                        lemma_spec_find_link_none(old_links, config.links@[ci as int]@);
                    }
                    let fresh = LinkEntry { spec: target.duplicate(), link: crate::link::new() };
                    proof {
                        lemma_total_links_snoc(newlinks@, fresh);
                    }
                    newlinks.push(fresh);
                },
            }
            ci = ci + 1;
        }
        // Drain and free the links that are going away.
        let mut k: usize = 0;
        while k < olds.len()
            invariant
                self.fl.wf(),
                self.apps@ == old(self).apps@,
                forall|i: int|
                    0 <= i < self.apps.len() ==> (#[trigger] self.apps@[i]).state.app.wf(),
                k <= olds.len(),
                forall|q: int|
                    0 <= q < olds.len() ==> ((#[trigger] olds@[q]) matches Some(e)
                        ==> e.link.wf()),
                self.fl.outstanding() == total_links(newlinks@) + total_links_opt(olds@)
                    + total_held(self.apps@),
                forall|q: int| 0 <= q < k ==> (#[trigger] olds@[q]) is None,
                olds@.len() == old_links.len(),
                forall|m: int| 0 <= m < newlinks.len() ==> (#[trigger] newlinks@[m]).link.wf(),
                self.fl.grown() == old(self).fl.grown(),
                self.stats.breaths == old(self).stats.breaths,
                self.now_us == old(self).now_us && self.sleep_us == old(self).sleep_us
                    && self.lastfrees == old(self).lastfrees,
                self.inhale@ == old(self).inhale@ && self.exhale@ == old(self).exhale@,
            decreases olds.len() - k,
        {
            let ghost olds0 = olds@;
            let taken = olds.remove(k);
            olds.insert(k, None);
            proof {
                assert(olds@ =~= olds0.update(k as int, Option::None));
            }
            match taken {
                Some(mut e) => {
                    proof {
                        lemma_total_links_opt_take(olds0, k as int);
                        lemma_total_links_nonneg(newlinks@);
                        lemma_total_held_nonneg(self.apps@);
                        lemma_total_links_opt_nonneg(olds@);
                    }
                    let buf = drain_link(&mut e.link);
                    free_all(&mut self.fl, &mut self.stats, buf);
                },
                None => {
                    proof {
                        assert(olds@ =~= olds0);
                    }
                },
            }
            k = k + 1;
        }
        self.links = newlinks;
        proof {
            assert forall|a: int, b: int|
                0 <= a < b < self.links.len() implies (#[trigger] self.links@[a]).spec@ != (
                #[trigger] self.links@[b]).spec@ by {
                assert(self.links@[a].spec@ == config.links@[a]@);
                assert(self.links@[b].spec@ == config.links@[b]@);
            }
            lemma_total_links_opt_nonneg(olds@);
            assert forall|q: int| 0 <= q < olds@.len() implies (#[trigger] olds@[q]) is None by {}
            lemma_opt_links_all_none(olds@);
        }
    }
}

proof fn lemma_opt_links_all_none(s: Seq<Option<LinkEntry>>)
    requires
        forall|q: int| 0 <= q < s.len() ==> (#[trigger] s[q]) is None,
    ensures
        total_links_opt(s) == 0,
    decreases s.len(),
{
    if s.len() > 0 {
        lemma_opt_links_all_none(s.drop_first());
    }
}


impl EngineState {
    /// Free every packet an app still holds before it is dropped.
    fn stop_app_entry(&mut self, e: AppEntry, ghost_extra: Ghost<int>)
        requires
            old(self).fl.wf(),
            e.state.app.wf(),
            ghost_extra@ >= 0,
            old(self).fl.outstanding() >= e.state.app.held() + ghost_extra@,
        ensures
            final(self).fl.wf(),
            final(self).fl.grown() == old(self).fl.grown(),
            final(self).fl.outstanding() == old(self).fl.outstanding() - e.state.app.held(),
            final(self).apps@ == old(self).apps@,
            final(self).links@ == old(self).links@,
            final(self).stats.breaths == old(self).stats.breaths,
            final(self).now_us == old(self).now_us && final(self).sleep_us == old(self).sleep_us
                && final(self).lastfrees == old(self).lastfrees,
            final(self).inhale@ == old(self).inhale@ && final(self).exhale@ == old(self).exhale@,
    {
        let mut e = e;
        match &mut e.state.app {
            App::Latency(a) => {
                proof {
                    crate::qos::lemma_dq_packet_count_nonneg(a.queue.entries());
                }
                a.queue.drain(&mut self.fl, &mut self.stats);
            },
            App::Jitter(a) => {
                proof {
                    crate::qos::lemma_dq_packet_count_nonneg(a.queue.entries());
                }
                a.queue.drain(&mut self.fl, &mut self.stats);
            },
            _ => {},
        }
    }

    /// Rebuild the app table against a new configuration: apps whose name
    /// and identity are unchanged keep their entry and state; apps that
    /// disappeared or changed identity are stopped (their held packets
    /// freed); new apps are started fresh. The table follows the
    /// configuration's order.
    #[verifier::rlimit(100)]
    fn configure_apps(&mut self, config: &Config)
        requires
            old(self).wf(),
            config.wf(),
        ensures
            final(self).wf(),
            final(self).links@ == old(self).links@,
            final(self).apps.len() == config.apps.len(),
            forall|m: int|
                0 <= m < config.apps.len() ==> {
                    &&& (#[trigger] final(self).apps@[m]).name@ == config.apps@[m].0@
                    &&& identity_eq(&final(self).apps@[m].state.conf, &config.apps@[m].1)
                    &&& (match spec_find_app(old(self).apps@, config.apps@[m].0@) {
                        Option::Some(j) => if identity_eq(
                            &old(self).apps@[j].state.conf,
                            &config.apps@[m].1,
                        ) {
                            final(self).apps@[m] == old(self).apps@[j]
                        } else {
                            is_fresh_instance(&config.apps@[m].1, &final(self).apps@[m].state.app)
                        },
                        Option::None => is_fresh_instance(
                            &config.apps@[m].1,
                            &final(self).apps@[m].state.app,
                        ),
                    })
                },
            final(self).fl.grown() == old(self).fl.grown(),
            final(self).stats.breaths == old(self).stats.breaths,
            final(self).now_us == old(self).now_us && final(self).sleep_us == old(self).sleep_us
                && final(self).lastfrees == old(self).lastfrees,
            final(self).inhale@ == old(self).inhale@ && final(self).exhale@ == old(self).exhale@,
    {
        let ghost old_apps = self.apps@;
        let mut tmp: Vec<AppEntry> = Vec::new();
        core::mem::swap(&mut tmp, &mut self.apps);
        let mut olds: Vec<Option<AppEntry>> = Vec::new();
        while tmp.len() > 0
            invariant
                olds@.len() + tmp@.len() == old_apps.len(),
                forall|k: int|
                    0 <= k < olds.len() ==> (#[trigger] olds@[k]) == Option::Some(old_apps[k]),
                forall|k: int| 0 <= k < tmp.len() ==> #[trigger] tmp@[k] == old_apps[olds@.len() + k],
                total_held_opt(olds@) + total_held(tmp@) == total_held(old_apps),
            decreases tmp.len(),
        {
            let ghost olds0 = olds@;
            let ghost tmp0 = tmp@;
            let e = tmp.remove(0);
            olds.push(Some(e));
            proof {
                lemma_total_held_opt_snoc(olds0, Option::Some(e));
                assert(tmp0[0] == e);
                assert(tmp@ =~= tmp0.drop_first());
            }
        }
        let mut newapps: Vec<AppEntry> = Vec::new();
        let mut ci: usize = 0;
        while ci < config.apps.len()
            invariant
                config.wf(),
                self.fl.wf(),
                self.apps.len() == 0,
                self.links@ == old(self).links@,
                forall|i: int| 0 <= i < self.links.len() ==> (#[trigger] self.links@[i]).link.wf(),
                ci <= config.apps.len(),
                olds@.len() == old_apps.len(),
                forall|k: int|
                    0 <= k < olds.len() ==> ((#[trigger] olds@[k]) matches Some(e) ==> e
                        == old_apps[k]),
                forall|k: int|
                    0 <= k < olds.len() ==> ((#[trigger] olds@[k]) is None ==> exists|c: int|
                        0 <= c < ci && (#[trigger] config.apps@[c]).0@ == old_apps[k].name@),
                newapps.len() == ci,
                forall|m: int|
                    0 <= m < ci ==> {
                        &&& (#[trigger] newapps@[m]).name@ == config.apps@[m].0@
                        &&& identity_eq(&newapps@[m].state.conf, &config.apps@[m].1)
                        &&& (match spec_find_app(old_apps, config.apps@[m].0@) {
                            Option::Some(j) => if identity_eq(
                                &old_apps[j].state.conf,
                                &config.apps@[m].1,
                            ) {
                                newapps@[m] == old_apps[j]
                            } else {
                                is_fresh_instance(&config.apps@[m].1, &newapps@[m].state.app)
                            },
                            Option::None => is_fresh_instance(
                                &config.apps@[m].1,
                                &newapps@[m].state.app,
                            ),
                        })
                    },
                forall|m: int| 0 <= m < ci ==> (#[trigger] newapps@[m]).state.app.wf(),
                self.fl.outstanding() == total_links(self.links@) + total_held(newapps@)
                    + total_held_opt(olds@),
                forall|i: int| 0 <= i < old_apps.len() ==> (#[trigger] old_apps[i]).state.app.wf(),
                forall|a: int, b: int|
                    0 <= a < b < old_apps.len() ==> (#[trigger] old_apps[a]).name@ != (
                    #[trigger] old_apps[b]).name@,
                self.fl.grown() == old(self).fl.grown(),
                self.stats.breaths == old(self).stats.breaths,
                self.now_us == old(self).now_us && self.sleep_us == old(self).sleep_us
                    && self.lastfrees == old(self).lastfrees,
                self.inhale@ == old(self).inhale@ && self.exhale@ == old(self).exhale@,
            decreases config.apps.len() - ci,
        {
            let name = &config.apps[ci].0;
            let found = find_old_app(&olds, name);
            match found {
                Some(j) => {
                    let ghost olds0 = olds@;
                    let eo = olds.remove(j);
                    olds.insert(j, None);
                    let e = eo.unwrap();
                    proof {
                        assert(olds@ =~= olds0.update(j as int, Option::None));
                        lemma_total_held_opt_take(olds0, j as int);
                        assert forall|k: int| 0 <= k < j implies (#[trigger] old_apps[k]).name@
                            != config.apps@[ci as int].0@ by {
                            if olds0[k] is Some {
                                assert(olds0[k]->0 == old_apps[k]);
                            } else {
                                let c = choose|c: int|
                                    0 <= c < ci && (#[trigger] config.apps@[c]).0@
                                        == old_apps[k].name@;
                                assert(config.apps@[c].0@ != config.apps@[ci as int].0@);
                            }
                        }
                        lemma_spec_find_app_is(old_apps, config.apps@[ci as int].0@, j as int);
                    }
                    if e.state.conf.equal(&config.apps[ci].1) {
                        proof {
                            lemma_total_held_snoc(newapps@, e);
                        }
                        newapps.push(e);
                    } else {
                        // Same name, different identity: stop and restart.
                        let ghost eheld = e.state.app.held();
                        proof {
                            lemma_total_links_nonneg(self.links@);
                            lemma_total_held_nonneg(newapps@);
                            lemma_total_held_opt_nonneg(olds@);
                            match &e.state.app {
                                App::Latency(x) => crate::qos::lemma_dq_packet_count_nonneg(
                                    x.queue.entries(),
                                ),
                                App::Jitter(x) => crate::qos::lemma_dq_packet_count_nonneg(
                                    x.queue.entries(),
                                ),
                                _ => {},
                            }
                        }
                        self.stop_app_entry(e, Ghost(0int));
                        let app = instantiate(&config.apps[ci].1);
                        let entry = AppEntry {
                            name: name.clone(),
                            state: AppState { app, conf: config.apps[ci].1.duplicate() },
                        };
                        proof {
                            lemma_total_held_snoc(newapps@, entry);
                        }
                        newapps.push(entry);
                    }
                },
                None => {
                    proof {
                        assert forall|k: int|
                            0 <= k < old_apps.len() implies (#[trigger] old_apps[k]).name@
                            != config.apps@[ci as int].0@ by {
                            if olds@[k] is Some {
                                assert(olds@[k]->0 == old_apps[k]);
                            } else {
                                let c = choose|c: int|
                                    0 <= c < ci && (#[trigger] config.apps@[c]).0@
                                        == old_apps[k].name@;
                                assert(config.apps@[c].0@ != config.apps@[ci as int].0@);
                            }
                        }
                        lemma_spec_find_app_none(old_apps, config.apps@[ci as int].0@);
                    }
                    let app = instantiate(&config.apps[ci].1);
                    let entry = AppEntry {
                        name: name.clone(),
                        state: AppState { app, conf: config.apps[ci].1.duplicate() },
                    };
                    proof {
                        lemma_total_held_snoc(newapps@, entry);
                    }
                    newapps.push(entry);
                },
            }
            ci = ci + 1;
        }
        // Stop the apps that are going away.
        let mut k: usize = 0;
        while k < olds.len()
            invariant
                self.fl.wf(),
                self.links@ == old(self).links@,
                forall|i: int| 0 <= i < self.links.len() ==> (#[trigger] self.links@[i]).link.wf(),
                k <= olds.len(),
                olds@.len() == old_apps.len(),
                forall|q: int| 0 <= q < k ==> (#[trigger] olds@[q]) is None,
                forall|q: int|
                    0 <= q < olds.len() ==> ((#[trigger] olds@[q]) matches Some(e)
                        ==> e.state.app.wf()),
                self.fl.outstanding() == total_links(self.links@) + total_held(newapps@)
                    + total_held_opt(olds@),
                forall|m: int| 0 <= m < newapps.len() ==> (#[trigger] newapps@[m]).state.app.wf(),
                self.fl.grown() == old(self).fl.grown(),
                self.stats.breaths == old(self).stats.breaths,
                self.now_us == old(self).now_us && self.sleep_us == old(self).sleep_us
                    && self.lastfrees == old(self).lastfrees,
                self.inhale@ == old(self).inhale@ && self.exhale@ == old(self).exhale@,
            decreases olds.len() - k,
        {
            let ghost olds0 = olds@;
            let taken = olds.remove(k);
            olds.insert(k, None);
            proof {
                assert(olds@ =~= olds0.update(k as int, Option::None));
            }
            match taken {
                Some(e) => {
                    proof {
                        lemma_total_held_opt_take(olds0, k as int);
                        lemma_total_links_nonneg(self.links@);
                        lemma_total_held_nonneg(newapps@);
                        lemma_total_held_opt_nonneg(olds@);
                        match &e.state.app {
                            App::Latency(x) => crate::qos::lemma_dq_packet_count_nonneg(
                                x.queue.entries(),
                            ),
                            App::Jitter(x) => crate::qos::lemma_dq_packet_count_nonneg(
                                x.queue.entries(),
                            ),
                            _ => {},
                        }
                    }
                    self.stop_app_entry(e, Ghost(0int));
                },
                None => {
                    proof {
                        assert(olds@ =~= olds0);
                    }
                },
            }
            k = k + 1;
        }
        self.apps = newapps;
        proof {
            assert forall|a: int, b: int|
                0 <= a < b < self.apps.len() implies (#[trigger] self.apps@[a]).name@ != (
                #[trigger] self.apps@[b]).name@ by {
                assert(self.apps@[a].name@ == config.apps@[a].0@);
                assert(self.apps@[b].name@ == config.apps@[b].0@);
            }
            lemma_apps_opt_all_none(olds@);
        }
    }

    /// Apply a configuration to the running engine, migrating from the
    /// old app network to the new one by making only the changes needed,
    /// and recompute the breathe order.
    pub fn configure(&mut self, config: &Config)
        requires
            old(self).wf(),
            config.wf(),
        ensures
            final(self).wf(),
            final(self).apps.len() == config.apps.len(),
            forall|m: int|
                0 <= m < config.apps.len() ==> {
                    &&& (#[trigger] final(self).apps@[m]).name@ == config.apps@[m].0@
                    &&& identity_eq(&final(self).apps@[m].state.conf, &config.apps@[m].1)
                    &&& (match spec_find_app(old(self).apps@, config.apps@[m].0@) {
                        Option::Some(j) => if identity_eq(
                            &old(self).apps@[j].state.conf,
                            &config.apps@[m].1,
                        ) {
                            final(self).apps@[m] == old(self).apps@[j]
                        } else {
                            is_fresh_instance(&config.apps@[m].1, &final(self).apps@[m].state.app)
                        },
                        Option::None => is_fresh_instance(
                            &config.apps@[m].1,
                            &final(self).apps@[m].state.app,
                        ),
                    })
                },
            final(self).links.len() == config.links.len(),
            forall|m: int|
                0 <= m < config.links.len() ==> {
                    &&& (#[trigger] final(self).links@[m]).spec@ == config.links@[m]@
                    &&& (match spec_find_link(old(self).links@, config.links@[m]@) {
                        Option::Some(j) => final(self).links@[m].link == old(self).links@[j].link,
                        Option::None => fresh_link(&final(self).links@[m].link),
                    })
                },
            name_views(final(self).inhale@) == pull_names(final(self).apps@).sort_by(lex_leq()),
            name_views(final(self).exhale@).no_duplicates(),
            all_push_apps(final(self).apps@, name_views(final(self).exhale@)),
            name_views(final(self).exhale@) == spec_exhale_order(
                final(self).apps@,
                final(self).links@,
            ),
            configured(old(self), final(self), config),
            final(self).fl.grown() == old(self).fl.grown(),
            final(self).stats.breaths == old(self).stats.breaths,
    {
        self.configure_links(config);
        self.configure_apps(config);
        self.compute_breathe_order();
    }
}

proof fn lemma_apps_opt_all_none(s: Seq<Option<AppEntry>>)
    requires
        forall|q: int| 0 <= q < s.len() ==> (#[trigger] s[q]) is None,
    ensures
        total_held_opt(s) == 0,
    decreases s.len(),
{
    if s.len() > 0 {
        lemma_apps_opt_all_none(s.drop_first());
    }
}


/// What `configure` establishes: the tables mirror the configuration,
/// and entries whose name and identity survive are carried over intact.
pub open spec fn configured(pre: &EngineState, post: &EngineState, config: &Config) -> bool {
    &&& post.apps.len() == config.apps.len()
    &&& (forall|m: int|
        0 <= m < config.apps.len() ==> {
            &&& (#[trigger] post.apps@[m]).name@ == config.apps@[m].0@
            &&& identity_eq(&post.apps@[m].state.conf, &config.apps@[m].1)
            &&& (match spec_find_app(pre.apps@, config.apps@[m].0@) {
                Option::Some(j) => if identity_eq(&pre.apps@[j].state.conf, &config.apps@[m].1) {
                    post.apps@[m] == pre.apps@[j]
                } else {
                    is_fresh_instance(&config.apps@[m].1, &post.apps@[m].state.app)
                },
                Option::None => is_fresh_instance(&config.apps@[m].1, &post.apps@[m].state.app),
            })
        })
    &&& post.links.len() == config.links.len()
    &&& (forall|m: int|
        0 <= m < config.links.len() ==> {
            &&& (#[trigger] post.links@[m]).spec@ == config.links@[m]@
            &&& (match spec_find_link(pre.links@, config.links@[m]@) {
                Option::Some(j) => post.links@[m].link == pre.links@[j].link,
                Option::None => fresh_link(&post.links@[m].link),
            })
        })
    &&& name_views(post.inhale@) == pull_names(post.apps@).sort_by(lex_leq())
}

/// Configure idempotence: applying the same configuration twice leaves
/// every app entry (identity and state) and every link handle (with its
/// queue and counters) exactly as the first application left them, and
/// the pull order unchanged.
pub proof fn lemma_configure_idempotent(
    s0: &EngineState,
    s1: &EngineState,
    s2: &EngineState,
    config: &Config,
)
    requires
        config.wf(),
        configured(s0, s1, config),
        configured(s1, s2, config),
    ensures
        s2.apps@ == s1.apps@,
        forall|m: int|
            0 <= m < config.links.len() ==> (#[trigger] s2.links@[m]).link == s1.links@[m].link,
        name_views(s2.inhale@) == name_views(s1.inhale@),
{
    assert forall|m: int| 0 <= m < config.apps.len() implies #[trigger] s2.apps@[m]
        == s1.apps@[m] by {
        let name = config.apps@[m].0@;
        assert(s1.apps@[m].name@ == name);
        assert forall|k: int| 0 <= k < m implies (#[trigger] s1.apps@[k]).name@ != name by {
            assert(s1.apps@[k].name@ == config.apps@[k].0@);
        }
        lemma_spec_find_app_is(s1.apps@, name, m);
        assert(identity_eq(&s1.apps@[m].state.conf, &config.apps@[m].1));
    }
    assert(s2.apps@ =~= s1.apps@);
    assert forall|m: int| 0 <= m < config.links.len() implies (#[trigger] s2.links@[m]).link
        == s1.links@[m].link by {
        let v = config.links@[m]@;
        assert(s1.links@[m].spec@ == v);
        assert forall|k: int| 0 <= k < m implies (#[trigger] s1.links@[k]).spec@ != v by {
            assert(s1.links@[k].spec@ == config.links@[k]@);
        }
        lemma_spec_find_link_is(s1.links@, v, m);
    }
}

/// Configure minimal change: extending a configuration with new apps and
/// links, while keeping the old entries in place, neither stops nor
/// restarts any existing app and keeps every existing link handle.
pub proof fn lemma_configure_minimal_change(
    s1: &EngineState,
    s2: &EngineState,
    c1: &Config,
    c2: &Config,
)
    requires
        c1.wf(),
        c2.wf(),
        configured(s1, s2, c2),
        // s1 is the running network of c1: its tables mirror c1.
        s1.apps.len() == c1.apps.len(),
        forall|m: int|
            0 <= m < c1.apps.len() ==> (#[trigger] s1.apps@[m]).name@ == c1.apps@[m].0@
                && identity_eq(&s1.apps@[m].state.conf, &c1.apps@[m].1),
        s1.links.len() == c1.links.len(),
        forall|m: int|
            0 <= m < c1.links.len() ==> (#[trigger] s1.links@[m]).spec@ == c1.links@[m]@,
        // c2 extends c1.
        c2.apps.len() >= c1.apps.len(),
        forall|m: int|
            0 <= m < c1.apps.len() ==> (#[trigger] c2.apps@[m]).0@ == c1.apps@[m].0@
                && identity_eq(&c2.apps@[m].1, &c1.apps@[m].1),
        c2.links.len() >= c1.links.len(),
        forall|m: int| 0 <= m < c1.links.len() ==> (#[trigger] c2.links@[m])@ == c1.links@[m]@,
        // Identity agreement is enough to compare configs transitively.
        forall|m: int|
            0 <= m < c1.apps.len() ==> (identity_eq(&s1.apps@[m].state.conf, &c2.apps@[m].1)),
    ensures
        forall|m: int| 0 <= m < c1.apps.len() ==> (#[trigger] s2.apps@[m]) == s1.apps@[m],
        forall|m: int|
            0 <= m < c1.links.len() ==> (#[trigger] s2.links@[m]).link == s1.links@[m].link,
{
    assert forall|m: int| 0 <= m < c1.apps.len() implies (#[trigger] s2.apps@[m])
        == s1.apps@[m] by {
        let name = c2.apps@[m].0@;
        assert(s1.apps@[m].name@ == c1.apps@[m].0@);
        assert(c2.apps@[m].0@ == c1.apps@[m].0@);
        assert forall|k: int| 0 <= k < m implies (#[trigger] s1.apps@[k]).name@ != name by {
            assert(s1.apps@[k].name@ == c1.apps@[k].0@);
            assert(c1.apps@[k].0@ == c2.apps@[k].0@);
            assert(c2.apps@[k].0@ != c2.apps@[m].0@);
        }
        lemma_spec_find_app_is(s1.apps@, name, m);
    }
    assert forall|m: int| 0 <= m < c1.links.len() implies (#[trigger] s2.links@[m]).link
        == s1.links@[m].link by {
        let v = c2.links@[m]@;
        assert(s1.links@[m].spec@ == c1.links@[m]@);
        assert forall|k: int| 0 <= k < m implies (#[trigger] s1.links@[k]).spec@ != v by {
            assert(s1.links@[k].spec@ == c1.links@[k]@);
            assert(c1.links@[k]@ == c2.links@[k]@);
            assert(c2.links@[k]@ != c2.links@[m]@);
        }
        lemma_spec_find_link_is(s1.links@, v, m);
    }
}

/// A per-link summary: its canonical spec text, packets sent, and the
/// percentage of transmits that were dropped.
pub struct LinkReport {
    pub spec_text: String,
    pub txpackets: u64,
    pub loss_rate: u64,
}

/// Percent of attempted transmits that were dropped; zero when nothing
/// was sent. The counters saturate, so the products do too.
pub open spec fn spec_loss_rate(drop: int, sent: int) -> int {
    if sent == 0 {
        0
    } else {
        sat_mul(drop, 100) / sat_add(drop, sent)
    }
}

pub fn loss_rate(drop: u64, sent: u64) -> (r: u64)
    ensures
        r == spec_loss_rate(drop as int, sent as int),
{
    if sent == 0 {
        return 0;
    }
    let num = crate::sat_mul64(drop, 100);
    let den = crate::sat_add64(drop, sent);
    num / den
}

/// A load summary since the last report: the interval, frees per second,
/// freed wire bits per second, frees per breath, bytes per packet, and
/// the current pacing sleep.
pub struct LoadReport {
    pub interval_us: u64,
    pub fps: u64,
    pub fbps: u64,
    pub fpb: u64,
    pub bpp: u64,
    pub sleep_us: u64,
}

impl EngineState {
    /// Per-link transmit totals and loss rates, in table order.
    pub fn report_links(&self) -> (r: Vec<LinkReport>)
        ensures
            r.len() == self.links.len(),
            forall|i: int|
                0 <= i < r.len() ==> {
                    &&& (#[trigger] r@[i]).spec_text@ == crate::config::link_canonical(
                        self.links@[i].spec@,
                    )
                    &&& r@[i].txpackets == self.links@[i].link.txpackets
                    &&& r@[i].loss_rate == spec_loss_rate(
                        self.links@[i].link.txdrop as int,
                        self.links@[i].link.txpackets as int,
                    )
                },
    {
        let mut out: Vec<LinkReport> = Vec::new();
        let mut k: usize = 0;
        while k < self.links.len()
            invariant
                k <= self.links.len(),
                out.len() == k,
                forall|i: int|
                    0 <= i < k ==> {
                        &&& (#[trigger] out@[i]).spec_text@ == crate::config::link_canonical(
                            self.links@[i].spec@,
                        )
                        &&& out@[i].txpackets == self.links@[i].link.txpackets
                        &&& out@[i].loss_rate == spec_loss_rate(
                            self.links@[i].link.txdrop as int,
                            self.links@[i].link.txpackets as int,
                        )
                    },
            decreases self.links.len() - k,
        {
            let e = &self.links[k];
            out.push(
                LinkReport {
                    spec_text: crate::config::format_link(&e.spec),
                    txpackets: e.link.txpackets,
                    loss_rate: loss_rate(e.link.txdrop, e.link.txpackets),
                },
            );
            k = k + 1;
        }
        out
    }

    /// What one load report returns and records, from the counter deltas
    /// since the last report.
    pub open spec fn spec_load_report(pre: &EngineState, now_us: u64) -> LoadReport {
        let interval_us = if now_us >= pre.last_report_us {
            now_us - pre.last_report_us
        } else {
            0int
        };
        let newfrees = if pre.stats.frees >= pre.reported_frees {
            pre.stats.frees - pre.reported_frees
        } else {
            0int
        };
        let newbits = if pre.stats.freebits >= pre.reported_freebits {
            pre.stats.freebits - pre.reported_freebits
        } else {
            0int
        };
        let newbytes = if pre.stats.freebytes >= pre.reported_freebytes {
            pre.stats.freebytes - pre.reported_freebytes
        } else {
            0int
        };
        let newbreaths = if pre.stats.breaths >= pre.reported_breaths {
            pre.stats.breaths - pre.reported_breaths
        } else {
            0int
        };
        LoadReport {
            interval_us: interval_us as u64,
            fps: (if interval_us > 0 {
                sat_mul(newfrees, 1_000_000) / interval_us
            } else {
                0int
            }) as u64,
            fbps: (if interval_us > 0 {
                sat_mul(newbits, 1_000_000) / interval_us
            } else {
                0int
            }) as u64,
            fpb: (if newbreaths > 0 {
                newfrees / newbreaths
            } else {
                0int
            }) as u64,
            bpp: (if newfrees > 0 {
                newbytes / newfrees
            } else {
                0int
            }) as u64,
            sleep_us: pre.sleep_us,
        }
    }

    /// Rates since the last load report, computed over the engine's own
    /// counters; the caller supplies the current instant.
    pub fn report_load(&mut self, now_us: u64) -> (r: LoadReport)
        ensures
            r == EngineState::spec_load_report(old(self), now_us),
            final(self).last_report_us == now_us,
            final(self).reported_frees == old(self).stats.frees,
            final(self).reported_freebits == old(self).stats.freebits,
            final(self).reported_freebytes == old(self).stats.freebytes,
            final(self).reported_breaths == old(self).stats.breaths,
            final(self).apps@ == old(self).apps@,
            final(self).links@ == old(self).links@,
            final(self).stats == old(self).stats,
            final(self).fl == old(self).fl,
            final(self).inhale@ == old(self).inhale@ && final(self).exhale@ == old(self).exhale@,
            final(self).now_us == old(self).now_us && final(self).sleep_us == old(self).sleep_us
                && final(self).lastfrees == old(self).lastfrees,
            old(self).wf() ==> final(self).wf(),
    {
        let interval_us = if now_us >= self.last_report_us {
            now_us - self.last_report_us
        } else {
            0
        };
        let newfrees = if self.stats.frees >= self.reported_frees {
            self.stats.frees - self.reported_frees
        } else {
            0
        };
        let newbits = if self.stats.freebits >= self.reported_freebits {
            self.stats.freebits - self.reported_freebits
        } else {
            0
        };
        let newbytes = if self.stats.freebytes >= self.reported_freebytes {
            self.stats.freebytes - self.reported_freebytes
        } else {
            0
        };
        let newbreaths = if self.stats.breaths >= self.reported_breaths {
            self.stats.breaths - self.reported_breaths
        } else {
            0
        };
        let fps = if interval_us > 0 {
            crate::sat_mul64(newfrees, 1_000_000) / interval_us
        } else {
            0
        };
        let fbps = if interval_us > 0 {
            crate::sat_mul64(newbits, 1_000_000) / interval_us
        } else {
            0
        };
        let fpb = if newbreaths > 0 {
            newfrees / newbreaths
        } else {
            0
        };
        let bpp = if newfrees > 0 {
            newbytes / newfrees
        } else {
            0
        };
        self.last_report_us = now_us;
        self.reported_frees = self.stats.frees;
        self.reported_freebits = self.stats.freebits;
        self.reported_freebytes = self.stats.freebytes;
        self.reported_breaths = self.stats.breaths;
        LoadReport { interval_us, fps, fbps, fpb, bpp, sleep_us: self.sleep_us }
    }

    /// The link configured under the given spec text, if present: the
    /// text must parse, and the result is the entry carrying the parsed
    /// spec.
    pub fn find_link(&self, text: &str) -> (r: Option<&Link>)
        ensures
            match r {
                Option::Some(l) => {
                    &&& link_parse_spec(text@) is Some
                    &&& exists|j: int|
                        0 <= j < self.links.len() && (#[trigger] self.links@[j]).spec@
                            == link_parse_spec(text@)->0 && *l == self.links@[j].link
                },
                Option::None => link_parse_spec(text@) is None || spec_find_link(
                    self.links@,
                    link_parse_spec(text@)->0,
                ) is None,
            },
    {
        let parsed = crate::config::parse_link(text);
        match parsed {
            Some(ls) => {
                let mut k: usize = 0;
                while k < self.links.len()
                    invariant
                        k <= self.links.len(),
                        link_parse_spec(text@) == Option::Some(ls@),
                        forall|j: int| 0 <= j < k ==> (#[trigger] self.links@[j]).spec@ != ls@,
                    decreases self.links.len() - k,
                {
                    if self.links[k].spec.same(&ls) {
                        proof {
                            assert(self.links@[k as int].spec@ == ls@);
                        }
                        return Some(&self.links[k].link);
                    }
                    k = k + 1;
                }
                proof {
                    lemma_spec_find_link_none(self.links@, ls@);
                }
                None
            },
            None => None,
        }
    }
}

/// A per-app summary: the app's name and how many links feed and drain
/// it. App-specific details (queue depths, counter tables) live on the
/// app states themselves.
pub struct AppReport {
    pub name: String,
    pub inputs: usize,
    pub outputs: usize,
}

/// Links feeding the named app.
pub open spec fn spec_count_inputs(links: Seq<LinkEntry>, name: Seq<char>) -> int
    decreases links.len(),
{
    if links.len() == 0 {
        0int
    } else {
        (if links[0].spec.to@ == name {
            1int
        } else {
            0int
        }) + spec_count_inputs(links.drop_first(), name)
    }
}

/// Links draining the named app.
pub open spec fn spec_count_outputs(links: Seq<LinkEntry>, name: Seq<char>) -> int
    decreases links.len(),
{
    if links.len() == 0 {
        0int
    } else {
        (if links[0].spec.from@ == name {
            1int
        } else {
            0int
        }) + spec_count_outputs(links.drop_first(), name)
    }
}

proof fn lemma_count_take_snoc(links: Seq<LinkEntry>, name: Seq<char>, k: int)
    requires
        0 <= k < links.len(),
    ensures
        spec_count_inputs(links.take(k + 1), name) == spec_count_inputs(links.take(k), name) + (
        if links[k].spec.to@ == name {
            1int
        } else {
            0int
        }),
        spec_count_outputs(links.take(k + 1), name) == spec_count_outputs(links.take(k), name)
            + (if links[k].spec.from@ == name {
            1int
        } else {
            0int
        }),
    decreases k,
{
    if k == 0 {
        assert(links.take(1).drop_first() =~= Seq::<LinkEntry>::empty());
        assert(links.take(0) =~= Seq::<LinkEntry>::empty());
        assert(links.take(1)[0] == links[0]);
    } else {
        assert(links.take(k + 1).drop_first() =~= links.drop_first().take(k));
        assert(links.take(k).drop_first() =~= links.drop_first().take(k - 1));
        assert(links.take(k + 1)[0] == links[0]);
        assert(links.take(k)[0] == links[0]);
        lemma_count_take_snoc(links.drop_first(), name, k - 1);
        assert(links.drop_first()[k - 1] == links[k]);
    }
}

impl EngineState {
    /// Per-app fan-in and fan-out, in table order.
    pub fn report_apps(&self) -> (r: Vec<AppReport>)
        ensures
            r.len() == self.apps.len(),
            forall|i: int|
                0 <= i < r.len() ==> {
                    &&& (#[trigger] r@[i]).name@ == self.apps@[i].name@
                    &&& r@[i].inputs == spec_count_inputs(self.links@, self.apps@[i].name@)
                    &&& r@[i].outputs == spec_count_outputs(self.links@, self.apps@[i].name@)
                },
    {
        let mut out: Vec<AppReport> = Vec::new();
        let mut i: usize = 0;
        while i < self.apps.len()
            invariant
                i <= self.apps.len(),
                out.len() == i,
                forall|m: int|
                    0 <= m < i ==> {
                        &&& (#[trigger] out@[m]).name@ == self.apps@[m].name@
                        &&& out@[m].inputs == spec_count_inputs(self.links@, self.apps@[m].name@)
                        &&& out@[m].outputs == spec_count_outputs(
                            self.links@,
                            self.apps@[m].name@,
                        )
                    },
            decreases self.apps.len() - i,
        {
            let name = &self.apps[i].name;
            let mut ins: usize = 0;
            let mut outs: usize = 0;
            let mut k: usize = 0;
            proof {
                assert(self.links@.take(0) =~= Seq::<LinkEntry>::empty());
            }
            while k < self.links.len()
                invariant
                    k <= self.links.len(),
                    ins <= k,
                    outs <= k,
                    name@ == self.apps@[i as int].name@,
                    i < self.apps.len(),
                    ins == spec_count_inputs(self.links@.take(k as int), name@),
                    outs == spec_count_outputs(self.links@.take(k as int), name@),
                decreases self.links.len() - k,
            {
                proof {
                    lemma_count_take_snoc(self.links@, name@, k as int);
                }
                if str_eq(self.links[k].spec.to.as_str(), name.as_str()) {
                    ins = ins + 1;
                }
                if str_eq(self.links[k].spec.from.as_str(), name.as_str()) {
                    outs = outs + 1;
                }
                k = k + 1;
            }
            proof {
                assert(self.links@.take(self.links@.len() as int) =~= self.links@);
            }
            out.push(AppReport { name: name.clone(), inputs: ins, outputs: outs });
            i = i + 1;
        }
        out
    }
}

/// A deadline: reports completion once the engine clock passes it.
pub struct Timeout {
    pub deadline_us: u64,
}

/// Make a timer that returns true once the engine clock has moved past
/// `duration_us` from `now_us`.
pub fn timeout(now_us: u64, duration_us: u64) -> (r: Timeout)
    ensures
        r.deadline_us == sat_add(now_us as int, duration_us as int),
{
    Timeout { deadline_us: sat_add64(now_us, duration_us) }
}

impl Timeout {
    /// Whether the deadline has passed at the given instant.
    pub fn done(&self, now_us: u64) -> (r: bool)
        ensures
            r == (now_us > self.deadline_us),
    {
        now_us > self.deadline_us
    }
}

/// A throttle: returns true at most once in any interval.
pub struct Throttle {
    pub interval_us: u64,
    pub deadline_us: u64,
}

/// Make a throttle over the given interval.
pub fn throttle(now_us: u64, interval_us: u64) -> (r: Throttle)
    ensures
        r.interval_us == interval_us,
        r.deadline_us == now_us,
{
    Throttle { interval_us, deadline_us: now_us }
}

impl Throttle {
    /// True when the interval has elapsed since the last firing; firing
    /// rearms the deadline.
    pub fn fire(&mut self, now_us: u64) -> (r: bool)
        ensures
            r == (now_us > old(self).deadline_us),
            r ==> final(self).deadline_us == sat_add(now_us as int, old(self).interval_us as int),
            !r ==> *final(self) == *old(self),
    {
        if now_us > self.deadline_us {
            self.deadline_us = sat_add64(now_us, self.interval_us);
            true
        } else {
            false
        }
    }
}

} // verus!
