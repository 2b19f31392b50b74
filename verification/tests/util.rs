use rush::synthetic_network::{sanitize_labels, FlowParams, LabelError, QoS, SyntheticFlow,
    SyntheticLink, SyntheticNetwork};

#[test]
fn comma_value() {
    assert_eq!(rush::comma_value(0), "0");
    assert_eq!(rush::comma_value(999), "999");
    assert_eq!(rush::comma_value(1000), "1,000");
    assert_eq!(rush::comma_value(1_234_567), "1,234,567");
    assert_eq!(rush::comma_value(1_000_000_007), "1,000,000,007");
}

#[test]
fn align_rounds_up() {
    assert_eq!(rush::align(0, 8), 0);
    assert_eq!(rush::align(1, 8), 8);
    assert_eq!(rush::align(8, 8), 8);
    assert_eq!(rush::align(9, 8), 16);
    assert_eq!(rush::align(4096, 4096), 4096);
}

#[test]
fn byte_order_swaps() {
    assert_eq!(rush::htons(0x0800), 0x0008);
    assert_eq!(rush::ntohs(0x0008), 0x0800);
    assert_eq!(rush::htonl(0x0a0b0c0d), 0x0d0c0b0a);
    assert_eq!(rush::ntohl(0x0d0c0b0a), 0x0a0b0c0d);
}

#[test]
fn dma_addresses() {
    let phys: u64 = 0x1234_5000;
    let virt = phys | 0x5000_0000_0000;
    assert_eq!(rush::memory::virtual_to_physical(virt), phys);
}

fn quiet_qos() -> QoS {
    QoS {
        rate: 1_000_000,
        loss_ppm: 0,
        latency_ms: 0,
        jitter_ms: 0,
        jitter_strength_ppm: 0,
        reorder_packets: false,
    }
}

fn spec_with_labels(labels: &[&str]) -> SyntheticNetwork {
    SyntheticNetwork {
        default_link: SyntheticLink { ingress: quiet_qos(), egress: quiet_qos() },
        flows: labels
            .iter()
            .map(|l| SyntheticFlow {
                label: l.to_string(),
                flow: FlowParams { ip: 0, protocol: 6, port_min: 80, port_max: 80 },
                link: SyntheticLink { ingress: quiet_qos(), egress: quiet_qos() },
            })
            .collect(),
    }
}

#[test]
fn labels_sanitized() {
    assert!(sanitize_labels(&spec_with_labels(&["http", "dns_53"])).is_ok());
    assert!(matches!(
        sanitize_labels(&spec_with_labels(&["default"])),
        Err(LabelError::Reserved)
    ));
    assert!(matches!(
        sanitize_labels(&spec_with_labels(&["bad-label"])),
        Err(LabelError::InvalidCharacters)
    ));
    assert!(matches!(
        sanitize_labels(&spec_with_labels(&["http", "http"])),
        Err(LabelError::Duplicate)
    ));
}

#[test]
fn loss_rate_formula() {
    assert_eq!(rush::engine::loss_rate(0, 0), 0);
    assert_eq!(rush::engine::loss_rate(0, 100), 0);
    assert_eq!(rush::engine::loss_rate(25, 75), 25);
    assert_eq!(rush::engine::loss_rate(1, 99), 1);
}
