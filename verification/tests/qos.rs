use std::time::Instant;

use rush::basic_apps::{Sink, Source};
use rush::config;
use rush::engine::{AppConfig, EngineState};
use rush::packet;
use rush::qos::{Jitter, Latency, Loss, RateLimiter};

fn now_us_since(t0: Instant) -> u64 {
    t0.elapsed().as_micros() as u64
}

#[test]
fn loss() {
    let mut state = EngineState::new();
    packet::preallocate(&mut state.fl, 2000);
    let mut c = config::new();
    let loss_ratio_ppm: u32 = 100_000; // ratio 0.1
    config::app(&mut c, "source", AppConfig::Source(Source { size: 60 }));
    config::app(&mut c, "loss", AppConfig::Loss(Loss { ratio_ppm: loss_ratio_ppm }));
    config::app(&mut c, "sink", AppConfig::Sink(Sink {}));
    config::link(&mut c, "source.output -> loss.input");
    config::link(&mut c, "loss.output -> sink.input");
    state.configure(&c);
    let t0 = Instant::now();
    // Push enough packets through for the ratio to show.
    for _ in 0..2000 {
        state.breathe(now_us_since(t0));
    }
    let input = state.find_link("source.output -> loss.input").unwrap();
    let sent = input.txpackets as f64;
    let output = state.find_link("loss.output -> sink.input").unwrap();
    let received = output.rxpackets as f64;
    let loss = 1.0 - received / sent;
    println!("Loss = {:.1}%", loss * 100.0);
    let tolerance = 0.01;
    println!("expected={} lost={:.4} tolerance={}", 0.1, loss, tolerance);
    assert!((loss - 0.1f64).abs() < tolerance);
}

#[test]
fn latency() {
    let mut state = EngineState::new();
    packet::preallocate(&mut state.fl, 10_000);
    let mut c = config::new();
    let delay: u64 = 100; // ms
    let capacity: usize = 3000;
    config::app(&mut c, "source", AppConfig::Source(Source { size: 60 }));
    config::app(&mut c, "latency", AppConfig::Latency(Latency { ms: delay, capacity }));
    config::app(&mut c, "sink", AppConfig::Sink(Sink {}));
    config::link(&mut c, "source.output -> latency.input");
    config::link(&mut c, "latency.output -> sink.input");
    state.configure(&c);
    let t0 = Instant::now();
    loop {
        state.breathe(now_us_since(t0));
        let sent = state.find_link("latency.output -> sink.input").unwrap().txpackets;
        if sent > 0 {
            break;
        }
        assert!(t0.elapsed().as_millis() < 5000, "no packet released");
    }
    let latency_p1 = t0.elapsed().as_millis();
    let tolerance = 3;
    println!("Latency of first packet: {:?} ms", latency_p1);
    assert!((delay as i64 - latency_p1 as i64).abs() < tolerance);
}

// With the engine clock injected, the delay is exact: nothing is
// released before the marker expires, everything queued behind an
// expired marker drains.
#[test]
fn latency_deterministic_clock() {
    let mut state = EngineState::new();
    let mut c = config::new();
    config::app(&mut c, "source", AppConfig::Source(Source { size: 60 }));
    config::app(&mut c, "latency", AppConfig::Latency(Latency { ms: 100, capacity: 3000 }));
    config::app(&mut c, "sink", AppConfig::Sink(Sink {}));
    config::link(&mut c, "source.output -> latency.input");
    config::link(&mut c, "latency.output -> sink.input");
    state.configure(&c);
    // Packets enter at t=0; the marker releases at t=100ms.
    state.breathe(0);
    state.breathe(50_000);
    assert_eq!(state.find_link("latency.output -> sink.input").unwrap().txpackets, 0);
    state.breathe(99_999);
    assert_eq!(state.find_link("latency.output -> sink.input").unwrap().txpackets, 0);
    state.breathe(100_000);
    assert!(state.find_link("latency.output -> sink.input").unwrap().txpackets > 0);
}

#[test]
fn ratelimit() {
    let mut state = EngineState::new();
    packet::preallocate(&mut state.fl, 2000);
    let mut c = config::new();
    let rate: u64 = 1_000_000; // 1 Mbps
    let packet_size: u16 = 60;
    let duration_ms: u64 = 100;
    config::app(&mut c, "source", AppConfig::Source(Source { size: packet_size }));
    config::app(&mut c, "limit", AppConfig::RateLimiter(RateLimiter { rate }));
    config::app(&mut c, "sink", AppConfig::Sink(Sink {}));
    config::link(&mut c, "source.output -> limit.input");
    config::link(&mut c, "limit.output -> sink.input");
    state.configure(&c);
    let t0 = Instant::now();
    while t0.elapsed().as_millis() < duration_ms as u128 {
        state.breathe(now_us_since(t0));
    }
    let sent = state.find_link("limit.output -> sink.input").unwrap().txpackets;
    let bits = sent * ((12 + 8 + 60 + 4) * 8);
    println!(
        "Rate: {:.2}/{:.2} Mbps",
        bits as f64 * (1000.0 / duration_ms as f64) / 1_000_000.0,
        rate as f64 / 1_000_000.0
    );
    let expected = rate as f64 * (duration_ms as f64 / 1000.0);
    let tolerance = expected * 0.05;
    println!("expected={:.0} received={} tolerance={:.0}", expected, bits, tolerance);
    assert!((expected - bits as f64).abs() < tolerance);
}

#[test]
fn jitter() {
    let mut state = EngineState::new();
    let mut c = config::new();
    config::app(&mut c, "source", AppConfig::Source(Source { size: 60 }));
    config::app(
        &mut c,
        "jitter",
        AppConfig::Jitter(Jitter {
            ms: 10,
            strength_ppm: 100_000,
            reorder: true,
            capacity: 10_000,
        }),
    );
    config::app(&mut c, "sink", AppConfig::Sink(Sink {}));
    config::link(&mut c, "source.output -> jitter.input");
    config::link(&mut c, "jitter.output -> sink.input");
    state.configure(&c);
    let t0 = Instant::now();
    state.breathe(0);
    // Stop sending new packets, let the queue drain.
    let mut c2 = config::new();
    config::app(&mut c2, "source", AppConfig::Sink(Sink {}));
    config::app(
        &mut c2,
        "jitter",
        AppConfig::Jitter(Jitter {
            ms: 10,
            strength_ppm: 100_000,
            reorder: true,
            capacity: 10_000,
        }),
    );
    config::app(&mut c2, "sink", AppConfig::Sink(Sink {}));
    config::link(&mut c2, "source.output -> jitter.input");
    config::link(&mut c2, "jitter.output -> sink.input");
    state.configure(&c2);
    let t1 = Instant::now();
    while t1.elapsed().as_millis() < 20 {
        state.breathe(now_us_since(t0));
    }
    let sent = state.find_link("source.output -> jitter.input").unwrap().txpackets;
    let received = state.find_link("jitter.output -> sink.input").unwrap().rxpackets;
    assert!(sent == received);
}

// The deterministic ends of the loss ratio: zero forwards everything in
// order, full scale frees everything.
#[test]
fn loss_extremes() {
    for (ratio, expect_through) in [(0u32, true), (1_000_000u32, false)] {
        let mut state = EngineState::new();
        let mut c = config::new();
        config::app(&mut c, "source", AppConfig::Source(Source { size: 60 }));
        config::app(&mut c, "loss", AppConfig::Loss(Loss { ratio_ppm: ratio }));
        config::app(&mut c, "sink", AppConfig::Sink(Sink {}));
        config::link(&mut c, "source.output -> loss.input");
        config::link(&mut c, "loss.output -> sink.input");
        state.configure(&c);
        state.breathe(0);
        let through = state.find_link("loss.output -> sink.input").unwrap().txpackets;
        let fed = state.find_link("source.output -> loss.input").unwrap().txpackets;
        assert!(fed > 0);
        if expect_through {
            assert_eq!(through, fed);
        } else {
            assert_eq!(through, 0);
            assert_eq!(state.stats.frees, fed);
        }
    }
}
