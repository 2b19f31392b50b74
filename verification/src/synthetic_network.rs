//! Synthetic-network orchestration: translate a declarative shaping spec
//! into an app graph.
//!
//! Both directions are generated symmetrically:
//! `NIC_in -> TSD -> Checksum -> Split -> {QoS chains} -> Join -> Top ->
//! NIC_out`, where a QoS chain is
//! `RateLimiter -> Loss -> Latency -> Jitter`.
use vstd::prelude::*;

use crate::basic_apps::Join;
use crate::config;
use crate::config::{has_app_conf, has_link, Config, LinkSpec};
use crate::engine::AppConfig;
use crate::flow::{Dir, Flow, Split, Top};
use crate::offload::{Checksum, TSD};
use crate::qos::{Jitter, Latency, Loss, RateLimiter, PPM_SCALE, RATE_MAX};
use crate::rawsocket_app::RawSocket;

verus! {

/// Capacity of the delay queues used by the QoS chains: generous for the
/// expected peak packet rates.
pub const DELAY_QUEUE_CAPACITY: usize = 100_000;

/// MSS to which ingress TCP segments are cut.
pub const SYNTH_MSS: u16 = 1400;

/// One direction's shaping parameters. Ratios are parts per million.
pub struct QoS {
    pub rate: u64,
    pub loss_ppm: u32,
    pub latency_ms: u64,
    pub jitter_ms: u64,
    pub jitter_strength_ppm: u32,
    pub reorder_packets: bool,
}

impl QoS {
    pub open spec fn wf(&self) -> bool {
        &&& self.rate <= RATE_MAX
        &&& self.loss_ppm <= PPM_SCALE
        &&& self.jitter_strength_ppm <= PPM_SCALE
    }
}

/// Shaping for both directions of one link.
pub struct SyntheticLink {
    pub ingress: QoS,
    pub egress: QoS,
}

/// The matching rule of one flow.
pub struct FlowParams {
    pub ip: u32,
    pub protocol: u8,
    pub port_min: u16,
    pub port_max: u16,
}

/// A labelled flow with its own shaping.
pub struct SyntheticFlow {
    pub label: String,
    pub flow: FlowParams,
    pub link: SyntheticLink,
}

/// A full shaping specification.
pub struct SyntheticNetwork {
    pub default_link: SyntheticLink,
    pub flows: Vec<SyntheticFlow>,
}

impl SyntheticNetwork {
    pub open spec fn wf(&self) -> bool {
        &&& self.default_link.ingress.wf()
        &&& self.default_link.egress.wf()
        &&& (forall|i: int|
            0 <= i < self.flows.len() ==> (#[trigger] self.flows@[i]).link.ingress.wf()
                && self.flows@[i].link.egress.wf())
    }
}

/// Why a specification's labels were refused.
pub enum LabelError {
    Reserved,
    InvalidCharacters,
    Duplicate,
}

/// A usable flow label: word characters only.
pub open spec fn label_ok(s: Seq<char>) -> bool {
    s.len() > 0 && (forall|i: int| 0 <= i < s.len() ==> config::is_word_char(#[trigger] s[i]))
}

fn label_is_ok(s: &String) -> (r: bool)
    ensures
        r == label_ok(s@),
{
    let n = s.as_str().unicode_len();
    if n == 0 {
        return false;
    }
    let mut i: usize = 0;
    while i < n
        invariant
            i <= n,
            n == s@.len(),
            forall|j: int| 0 <= j < i ==> config::is_word_char(#[trigger] s@[j]),
        decreases n - i,
    {
        let c = s.as_str().get_char(i);
        let v = c as u32;
        let ok = (v >= 97 && v <= 122) || (v >= 65 && v <= 90) || (v >= 48 && v <= 57) || c
            == '_';
        if !ok {
            return false;
        }
        i = i + 1;
    }
    true
}

/// Usable flow labels throughout: word characters only, never the
/// reserved `default`, and no two alike.
pub open spec fn labels_ok(flows: Seq<SyntheticFlow>) -> bool {
    &&& (forall|i: int|
        0 <= i < flows.len() ==> label_ok((#[trigger] flows[i]).label@) && flows[i].label@
            != "default"@)
    &&& (forall|i: int, j: int|
        0 <= i < j < flows.len() ==> (#[trigger] flows[i]).label@ != (
        #[trigger] flows[j]).label@)
}

/// Check the flow labels: none may be the reserved `default`, all must
/// be word characters, and they must be unique. Accepts exactly the
/// specifications whose labels are all usable.
pub fn sanitize_labels(spec: &SyntheticNetwork) -> (r: Result<(), LabelError>)
    ensures
        r is Ok <==> labels_ok(spec.flows@),
        r == Result::<(), LabelError>::Err(LabelError::Reserved) ==> exists|i: int|
            0 <= i < spec.flows.len() && (#[trigger] spec.flows@[i]).label@ == "default"@,
        r == Result::<(), LabelError>::Err(LabelError::InvalidCharacters) ==> exists|i: int|
            0 <= i < spec.flows.len() && !label_ok((#[trigger] spec.flows@[i]).label@),
        r == Result::<(), LabelError>::Err(LabelError::Duplicate) ==> exists|i: int, j: int|
            0 <= i < j < spec.flows.len() && (#[trigger] spec.flows@[i]).label@ == (
            #[trigger] spec.flows@[j]).label@,
{
    let mut k: usize = 0;
    while k < spec.flows.len()
        invariant
            k <= spec.flows.len(),
            forall|i: int|
                0 <= i < k ==> label_ok((#[trigger] spec.flows@[i]).label@) && spec.flows@[i].label@
                    != "default"@,
            forall|i: int, j: int|
                0 <= i < j < k ==> (#[trigger] spec.flows@[i]).label@ != (
                #[trigger] spec.flows@[j]).label@,
        decreases spec.flows.len() - k,
    {
        let label = &spec.flows[k].label;
        if crate::engine::str_eq(label.as_str(), "default") {
            proof {
                assert(spec.flows@[k as int].label@ == "default"@);
            }
            return Err(LabelError::Reserved);
        }
        if !label_is_ok(label) {
            proof {
                assert(!label_ok(spec.flows@[k as int].label@));
            }
            return Err(LabelError::InvalidCharacters);
        }
        let mut j: usize = 0;
        while j < k
            invariant
                j <= k,
                k < spec.flows.len(),
                label@ == spec.flows@[k as int].label@,
                forall|i: int|
                    0 <= i < j ==> (#[trigger] spec.flows@[i]).label@ != spec.flows@[k as int].label@,
            decreases k - j,
        {
            if crate::engine::str_eq(spec.flows[j].label.as_str(), label.as_str()) {
                proof {
                    assert(spec.flows@[j as int].label@ == spec.flows@[k as int].label@);
                    assert(!labels_ok(spec.flows@));
                }
                return Err(LabelError::Duplicate);
            }
            j = j + 1;
        }
        proof {
            assert forall|i: int, jj: int|
                0 <= i < jj < k + 1 implies (#[trigger] spec.flows@[i]).label@ != (
                #[trigger] spec.flows@[jj]).label@ by {
                if jj == k {
                    assert(spec.flows@[i].label@ != spec.flows@[k as int].label@);
                }
            }
        }
        k = k + 1;
    }
    Ok(())
}

/// `base` plus a literal suffix.
fn name_with(base: &str, suffix: &str) -> (r: String)
    ensures
        r@ == base@ + suffix@,
{
    let mut s = String::new();
    s.append(base);
    s.append(suffix);
    s
}

/// What one QoS chain adds to a configuration: the four shaping apps
/// under their prefixed labels, and the five links that string the chain
/// from the given input to the given output.
pub open spec fn qos_chain_in(
    c: &Config,
    label: Seq<char>,
    input: (Seq<char>, Seq<char>),
    output: (Seq<char>, Seq<char>),
    qos: &QoS,
) -> bool {
    let rate = "rate_"@ + label;
    let loss = "loss_"@ + label;
    let latency = "latency_"@ + label;
    let jitter = "jitter_"@ + label;
    &&& has_app_conf(c, rate, AppConfig::RateLimiter(RateLimiter { rate: qos.rate }))
    &&& has_app_conf(c, loss, AppConfig::Loss(Loss { ratio_ppm: qos.loss_ppm }))
    &&& has_app_conf(
        c,
        latency,
        AppConfig::Latency(Latency { ms: qos.latency_ms, capacity: DELAY_QUEUE_CAPACITY }),
    )
    &&& has_app_conf(
        c,
        jitter,
        AppConfig::Jitter(
            Jitter {
                ms: qos.jitter_ms,
                strength_ppm: qos.jitter_strength_ppm,
                reorder: qos.reorder_packets,
                capacity: DELAY_QUEUE_CAPACITY,
            },
        ),
    )
    &&& has_link(c, (input.0, input.1, rate, "input"@))
    &&& has_link(c, (rate, "output"@, loss, "input"@))
    &&& has_link(c, (loss, "output"@, latency, "input"@))
    &&& has_link(c, (latency, "output"@, jitter, "input"@))
    &&& has_link(c, (jitter, "output"@, output.0, output.1))
}

/// The five links of one QoS chain.
pub open spec fn qos_chain_links_in(
    c: &Config,
    label: Seq<char>,
    input: (Seq<char>, Seq<char>),
    output: (Seq<char>, Seq<char>),
) -> bool {
    let rate = "rate_"@ + label;
    let loss = "loss_"@ + label;
    let latency = "latency_"@ + label;
    let jitter = "jitter_"@ + label;
    &&& has_link(c, (input.0, input.1, rate, "input"@))
    &&& has_link(c, (rate, "output"@, loss, "input"@))
    &&& has_link(c, (loss, "output"@, latency, "input"@))
    &&& has_link(c, (latency, "output"@, jitter, "input"@))
    &&& has_link(c, (jitter, "output"@, output.0, output.1))
}

/// The four chain labels are pairwise distinct.
proof fn lemma_chain_names_distinct(label: Seq<char>)
    ensures
        "rate_"@ + label != "loss_"@ + label,
        "rate_"@ + label != "latency_"@ + label,
        "rate_"@ + label != "jitter_"@ + label,
        "loss_"@ + label != "latency_"@ + label,
        "loss_"@ + label != "jitter_"@ + label,
        "latency_"@ + label != "jitter_"@ + label,
{
    reveal_strlit("rate_");
    reveal_strlit("loss_");
    reveal_strlit("latency_");
    reveal_strlit("jitter_");
    assert(("rate_"@ + label)[0] == 'r');
    assert(("loss_"@ + label)[0] == 'l');
    assert(("latency_"@ + label)[0] == 'l');
    assert(("jitter_"@ + label)[0] == 'j');
    assert(("loss_"@ + label)[1] == 'o');
    assert(("latency_"@ + label)[1] == 'a');
}

/// Install one QoS chain `RateLimiter -> Loss -> Latency -> Jitter`
/// between the given input and output port references.
pub fn configure_qos(config: &mut Config, label: &str, input: &PortRef, output: &PortRef, qos: &QoS)
    requires
        old(config).wf(),
        qos.wf(),
    ensures
        final(config).wf(),
        qos_chain_in(
            final(config),
            label@,
            (input.app@, input.port@),
            (output.app@, output.port@),
            qos,
        ),
        qos_chain_links_in(
            final(config),
            label@,
            (input.app@, input.port@),
            (output.app@, output.port@),
        ),
        forall|v: (Seq<char>, Seq<char>, Seq<char>, Seq<char>)|
            #[trigger] has_link(old(config), v) ==> has_link(final(config), v),
{
    proof {
        lemma_chain_names_distinct(label@);
    }
    let ghost rl_conf = AppConfig::RateLimiter(RateLimiter { rate: qos.rate });
    let ghost lo_conf = AppConfig::Loss(Loss { ratio_ppm: qos.loss_ppm });
    let ghost la_conf = AppConfig::Latency(
        Latency { ms: qos.latency_ms, capacity: DELAY_QUEUE_CAPACITY },
    );
    let rate = name_with("rate_", label);
    let loss = name_with("loss_", label);
    let latency = name_with("latency_", label);
    let jitter = name_with("jitter_", label);
    config::link_parts(
        config,
        LinkSpec {
            from: input.app.clone(),
            output: input.port.clone(),
            to: rate.clone(),
            input: port_input(),
        },
    );
    let ghost c1 = *config;
    config::app(config, rate.as_str(), AppConfig::RateLimiter(RateLimiter { rate: qos.rate }));
    proof {
        assert(has_app_conf(config, "rate_"@ + label@, rl_conf));
    }
    config::link_parts(
        config,
        LinkSpec { from: rate, output: port_output(), to: loss.clone(), input: port_input() },
    );
    let ghost c2 = *config;
    proof {
        assert(has_app_conf(&c2, "rate_"@ + label@, rl_conf));
    }
    config::app(config, loss.as_str(), AppConfig::Loss(Loss { ratio_ppm: qos.loss_ppm }));
    proof {
        assert(has_app_conf(config, "loss_"@ + label@, lo_conf));
        lemma_app_conf_carried(&c2, config, "rate_"@ + label@, "loss_"@ + label@, rl_conf);
    }
    config::link_parts(
        config,
        LinkSpec {
            from: loss,
            output: port_output(),
            to: latency.clone(),
            input: port_input(),
        },
    );
    let ghost c3 = *config;
    proof {
        assert(has_app_conf(&c3, "rate_"@ + label@, rl_conf));
        assert(has_app_conf(&c3, "loss_"@ + label@, lo_conf));
    }
    config::app(
        config,
        latency.as_str(),
        AppConfig::Latency(Latency { ms: qos.latency_ms, capacity: DELAY_QUEUE_CAPACITY }),
    );
    proof {
        assert(has_app_conf(config, "latency_"@ + label@, la_conf));
        lemma_app_conf_carried(&c3, config, "rate_"@ + label@, "latency_"@ + label@, rl_conf);
        lemma_app_conf_carried(&c3, config, "loss_"@ + label@, "latency_"@ + label@, lo_conf);
    }
    config::link_parts(
        config,
        LinkSpec {
            from: latency,
            output: port_output(),
            to: jitter.clone(),
            input: port_input(),
        },
    );
    let ghost c4 = *config;
    proof {
        assert(has_app_conf(&c4, "rate_"@ + label@, rl_conf));
        assert(has_app_conf(&c4, "loss_"@ + label@, lo_conf));
        assert(has_app_conf(&c4, "latency_"@ + label@, la_conf));
    }
    config::app(
        config,
        jitter.as_str(),
        AppConfig::Jitter(
            Jitter {
                ms: qos.jitter_ms,
                strength_ppm: qos.jitter_strength_ppm,
                reorder: qos.reorder_packets,
                capacity: DELAY_QUEUE_CAPACITY,
            },
        ),
    );
    proof {
        lemma_app_conf_carried(&c4, config, "rate_"@ + label@, "jitter_"@ + label@, rl_conf);
        lemma_app_conf_carried(&c4, config, "loss_"@ + label@, "jitter_"@ + label@, lo_conf);
        lemma_app_conf_carried(&c4, config, "latency_"@ + label@, "jitter_"@ + label@, la_conf);
    }
    config::link_parts(
        config,
        LinkSpec {
            from: jitter,
            output: port_output(),
            to: output.app.clone(),
            input: output.port.clone(),
        },
    );
}

/// An app entry under a different name survives a replacement, carrying
/// its identity.
proof fn lemma_app_conf_carried(
    pre: &Config,
    post: &Config,
    kept: Seq<char>,
    changed: Seq<char>,
    conf: AppConfig,
)
    requires
        kept != changed,
        has_app_conf(pre, kept, conf),
        forall|k: int|
            0 <= k < pre.apps.len() && (#[trigger] pre.apps@[k]).0@ != changed ==> exists|k2: int|
                0 <= k2 < post.apps.len() && #[trigger] post.apps@[k2] == pre.apps@[k],
    ensures
        has_app_conf(post, kept, conf),
{
    let k = choose|k: int|
        0 <= k < pre.apps.len() && (#[trigger] pre.apps@[k]).0@ == kept
            && crate::engine::identity_eq(&pre.apps@[k].1, &conf);
    let k2 = choose|k2: int|
        0 <= k2 < post.apps.len() && #[trigger] post.apps@[k2] == pre.apps@[k];
    assert(post.apps@[k2].0@ == kept);
}

/// One end of a link: an app and one of its ports.
pub struct PortRef {
    pub app: String,
    pub port: String,
}


fn port_input() -> (r: String)
    ensures
        r@ == "input"@,
{
    let mut s = String::new();
    s.append("input");
    s
}

fn port_output() -> (r: String)
    ensures
        r@ == "output"@,
{
    let mut s = String::new();
    s.append("output");
    s
}

/// Build one direction of the synthetic network:
/// `nic_in -> TSD -> Checksum -> Split -> {chains} -> Join -> Top ->
/// nic_out`.
fn configure_direction(
    config: &mut Config,
    in_ifname: &str,
    out_ifname: &str,
    profile_path: &str,
    dir: Dir,
    chain_prefix: &str,
    spec: &SyntheticNetwork,
)
    requires
        old(config).wf(),
        spec.wf(),
    ensures
        final(config).wf(),
        forall|v: (Seq<char>, Seq<char>, Seq<char>, Seq<char>)|
            #[trigger] has_link(old(config), v) ==> has_link(final(config), v),
        direction_links_in(final(config), in_ifname@, out_ifname@, chain_prefix@),
        // Each flow gets a QoS chain of its own between its Split and
        // Join ports, under the prefixed flow label.
        forall|i: int|
            0 <= i < spec.flows@.len() ==> qos_chain_links_in(
                final(config),
                chain_prefix@ + "_"@ + (#[trigger] spec.flows@[i]).label@,
                (in_ifname@ + "_split"@, spec.flows@[i].label@),
                (out_ifname@ + "_join"@, spec.flows@[i].label@),
            ),
{
    let tsd = name_with(in_ifname, "_tsd");
    let offload = name_with(in_ifname, "_offload");
    let top = name_with(in_ifname, "_top");
    let split = name_with(in_ifname, "_split");
    let join = name_with(out_ifname, "_join");
    // NIC -> TSD -> Checksum
    config::app(config, tsd.as_str(), AppConfig::Tsd(TSD { mss: SYNTH_MSS }));
    config::link_parts(
        config,
        LinkSpec {
            from: string_of(in_ifname),
            output: port_output(),
            to: tsd.clone(),
            input: port_input(),
        },
    );
    config::app(config, offload.as_str(), AppConfig::Checksum(Checksum {}));
    config::link_parts(
        config,
        LinkSpec {
            from: tsd,
            output: port_output(),
            to: offload.clone(),
            input: port_input(),
        },
    );
    // Top -> NIC out
    config::app(
        config,
        top.as_str(),
        AppConfig::Top(Top { path: string_of(profile_path), dir }),
    );
    config::link_parts(
        config,
        LinkSpec {
            from: top.clone(),
            output: port_output(),
            to: string_of(out_ifname),
            input: port_input(),
        },
    );
    // Split over the flows.
    let mut flows: Vec<Flow> = Vec::new();
    let mut k: usize = 0;
    while k < spec.flows.len()
        invariant
            spec.wf(),
            k <= spec.flows.len(),
        decreases spec.flows.len() - k,
    {
        let sf = &spec.flows[k];
        flows.push(
            Flow {
                label: sf.label.clone(),
                dir,
                ip: sf.flow.ip,
                protocol: sf.flow.protocol,
                port_min: sf.flow.port_min,
                port_max: sf.flow.port_max,
            },
        );
        k = k + 1;
    }
    config::app(config, split.as_str(), AppConfig::Split(Split { flows }));
    config::link_parts(
        config,
        LinkSpec {
            from: offload,
            output: port_output(),
            to: split.clone(),
            input: port_input(),
        },
    );
    // Join -> Top
    config::app(config, join.as_str(), AppConfig::Join(Join {}));
    config::link_parts(
        config,
        LinkSpec { from: join.clone(), output: port_output(), to: top, input: port_input() },
    );
    // Default chain, then one chain per flow.
    let qos = if matches!(dir, Dir::Src) {
        &spec.default_link.ingress
    } else {
        &spec.default_link.egress
    };
    let sp = PortRef { app: split.clone(), port: string_of("default") };
    let jp = PortRef { app: join.clone(), port: string_of("default") };
    configure_qos(config, chain_prefix, &sp, &jp, qos);
    proof {
        assert(has_link(config, (in_ifname@, "output"@, in_ifname@ + "_tsd"@, "input"@)));
        assert(has_link(
            config,
            (in_ifname@ + "_tsd"@, "output"@, in_ifname@ + "_offload"@, "input"@),
        ));
        assert(has_link(
            config,
            (in_ifname@ + "_offload"@, "output"@, in_ifname@ + "_split"@, "input"@),
        ));
        assert(has_link(
            config,
            (out_ifname@ + "_join"@, "output"@, in_ifname@ + "_top"@, "input"@),
        ));
        assert(has_link(
            config,
            (in_ifname@ + "_top"@, "output"@, out_ifname@, "input"@),
        ));
        assert(qos_chain_links_in(
            config,
            chain_prefix@,
            (in_ifname@ + "_split"@, "default"@),
            (out_ifname@ + "_join"@, "default"@),
        ));
        assert(direction_links_in(config, in_ifname@, out_ifname@, chain_prefix@));
    }
    let ghost cmid = *config;
    let mut k2: usize = 0;
    while k2 < spec.flows.len()
        invariant
            spec.wf(),
            config.wf(),
            k2 <= spec.flows.len(),
            direction_links_in(&cmid, in_ifname@, out_ifname@, chain_prefix@),
            forall|v: (Seq<char>, Seq<char>, Seq<char>, Seq<char>)|
                #[trigger] has_link(&cmid, v) ==> has_link(config, v),
            split@ == in_ifname@ + "_split"@,
            join@ == out_ifname@ + "_join"@,
            forall|i: int|
                0 <= i < k2 ==> qos_chain_links_in(
                    config,
                    chain_prefix@ + "_"@ + (#[trigger] spec.flows@[i]).label@,
                    (in_ifname@ + "_split"@, spec.flows@[i].label@),
                    (out_ifname@ + "_join"@, spec.flows@[i].label@),
                ),
        decreases spec.flows.len() - k2,
    {
        let sf = &spec.flows[k2];
        let app_label = name_with(chain_prefix, "_");
        let mut app_label = app_label;
        app_label.append(sf.label.as_str());
        let qos2 = if matches!(dir, Dir::Src) {
            &sf.link.ingress
        } else {
            &sf.link.egress
        };
        let sp2 = PortRef { app: split.clone(), port: sf.label.clone() };
        let jp2 = PortRef { app: join.clone(), port: sf.label.clone() };
        let ghost c_pre = *config;
        configure_qos(config, app_label.as_str(), &sp2, &jp2, qos2);
        proof {
            assert(app_label@ == chain_prefix@ + "_"@ + spec.flows@[k2 as int].label@);
            assert forall|i: int| 0 <= i < k2 + 1 implies qos_chain_links_in(
                config,
                chain_prefix@ + "_"@ + (#[trigger] spec.flows@[i]).label@,
                (in_ifname@ + "_split"@, spec.flows@[i].label@),
                (out_ifname@ + "_join"@, spec.flows@[i].label@),
            ) by {
                if i < k2 {
                    assert(qos_chain_links_in(
                        &c_pre,
                        chain_prefix@ + "_"@ + spec.flows@[i].label@,
                        (in_ifname@ + "_split"@, spec.flows@[i].label@),
                        (out_ifname@ + "_join"@, spec.flows@[i].label@),
                    ));
                } else {
                    assert(qos_chain_links_in(
                        config,
                        app_label@,
                        (sp2.app@, sp2.port@),
                        (jp2.app@, jp2.port@),
                    ));
                }
            }
        }
        k2 = k2 + 1;
    }
    proof {
        assert(direction_links_in(&cmid, in_ifname@, out_ifname@, chain_prefix@));
        assert(direction_links_in(config, in_ifname@, out_ifname@, chain_prefix@));
    }
}

/// The backbone of one direction, plus its default QoS chain: NIC in to
/// TSD to Checksum to Split, the default chain from Split to Join, and
/// Join to Top to NIC out.
pub open spec fn direction_links_in(
    c: &Config,
    in_if: Seq<char>,
    out_if: Seq<char>,
    chain_prefix: Seq<char>,
) -> bool {
    let tsd = in_if + "_tsd"@;
    let offload = in_if + "_offload"@;
    let top = in_if + "_top"@;
    let split = in_if + "_split"@;
    let join = out_if + "_join"@;
    &&& has_link(c, (in_if, "output"@, tsd, "input"@))
    &&& has_link(c, (tsd, "output"@, offload, "input"@))
    &&& has_link(c, (offload, "output"@, split, "input"@))
    &&& has_link(c, (join, "output"@, top, "input"@))
    &&& has_link(c, (top, "output"@, out_if, "input"@))
    &&& qos_chain_links_in(c, chain_prefix, (split, "default"@), (join, "default"@))
}

fn string_of(s: &str) -> (r: String)
    ensures
        r@ == s@,
{
    let mut out = String::new();
    out.append(s);
    out
}

/// Translate a shaping spec into the full two-direction app graph
/// between the outer and inner interfaces.
pub fn configure_synthetic_network(
    config: &mut Config,
    outer_ifname: &str,
    inner_ifname: &str,
    ingress_profile: &str,
    egress_profile: &str,
    spec: &SyntheticNetwork,
)
    requires
        old(config).wf(),
        spec.wf(),
    ensures
        final(config).wf(),
        forall|v: (Seq<char>, Seq<char>, Seq<char>, Seq<char>)|
            #[trigger] has_link(old(config), v) ==> has_link(final(config), v),
        // Both directions' graphs are wired: outer to inner and back.
        direction_links_in(final(config), outer_ifname@, inner_ifname@, "ingress"@),
        direction_links_in(final(config), inner_ifname@, outer_ifname@, "egress"@),
        // Per-flow QoS chains in both directions, under the flow's label.
        forall|i: int|
            0 <= i < spec.flows@.len() ==> qos_chain_links_in(
                final(config),
                "ingress"@ + "_"@ + (#[trigger] spec.flows@[i]).label@,
                (outer_ifname@ + "_split"@, spec.flows@[i].label@),
                (inner_ifname@ + "_join"@, spec.flows@[i].label@),
            ),
        forall|i: int|
            0 <= i < spec.flows@.len() ==> qos_chain_links_in(
                final(config),
                "egress"@ + "_"@ + (#[trigger] spec.flows@[i]).label@,
                (inner_ifname@ + "_split"@, spec.flows@[i].label@),
                (outer_ifname@ + "_join"@, spec.flows@[i].label@),
            ),
{
    config::app(
        config,
        outer_ifname,
        AppConfig::RawSocket(RawSocket { ifname: string_of(outer_ifname) }),
    );
    config::app(
        config,
        inner_ifname,
        AppConfig::RawSocket(RawSocket { ifname: string_of(inner_ifname) }),
    );
    // Ingress path: outer -> inner.
    configure_direction(
        config,
        outer_ifname,
        inner_ifname,
        ingress_profile,
        Dir::Src,
        "ingress",
        spec,
    );
    let ghost c_in = *config;
    // Egress path: inner -> outer.
    configure_direction(
        config,
        inner_ifname,
        outer_ifname,
        egress_profile,
        Dir::Dst,
        "egress",
        spec,
    );
    proof {
        assert forall|i: int| 0 <= i < spec.flows@.len() implies qos_chain_links_in(
            config,
            "ingress"@ + "_"@ + (#[trigger] spec.flows@[i]).label@,
            (outer_ifname@ + "_split"@, spec.flows@[i].label@),
            (inner_ifname@ + "_join"@, spec.flows@[i].label@),
        ) by {
            assert(qos_chain_links_in(
                &c_in,
                "ingress"@ + "_"@ + spec.flows@[i].label@,
                (outer_ifname@ + "_split"@, spec.flows@[i].label@),
                (inner_ifname@ + "_join"@, spec.flows@[i].label@),
            ));
        }
    }
}

} // verus!
