use rush::basic_apps::{Sink, Source, Tee};
use rush::config;
use rush::engine::{AppConfig, EngineState, PULL_NPACKETS};
use rush::rawsocket_app::RawSocket;

#[test]
fn engine() {
    let mut state = EngineState::new();
    let mut c = config::new();
    config::app(&mut c, "source", AppConfig::Source(Source { size: 60 }));
    config::app(&mut c, "sink", AppConfig::Sink(Sink {}));
    config::link(&mut c, "source.output -> sink.input");
    state.configure(&c);
    println!("Configured the app network: source(60).output -> sink.input");
    state.breathe(0);
    let mut c2 = config::new();
    config::app(&mut c2, "source", AppConfig::Source(Source { size: 120 }));
    config::app(&mut c2, "sink", AppConfig::Sink(Sink {}));
    config::link(&mut c2, "source.output -> sink.input");
    state.configure(&c2);
    println!("Cloned, mutated, and applied new configuration:");
    println!("source(120).output -> sink.input");
    state.breathe(1);
    let stats = &state.stats;
    println!(
        "engine: frees={} freebytes={} freebits={}",
        stats.frees, stats.freebytes, stats.freebits
    );
    // Two breaths, each feeding one batch into the sink.
    assert_eq!(stats.breaths, 2);
    assert_eq!(stats.frees, 2 * PULL_NPACKETS as u64);
    assert_eq!(stats.freebytes, (PULL_NPACKETS as u64) * (60 + 120));
}

#[test]
fn breathe_order() {
    println!("Case 1:");
    let mut state = EngineState::new();
    let mut c = config::new();
    config::app(&mut c, "a_io1", AppConfig::RawSocket(RawSocket { ifname: "a_io1".to_string() }));
    config::app(&mut c, "b_t1", AppConfig::Tee(Tee {}));
    config::app(&mut c, "c_t2", AppConfig::Tee(Tee {}));
    config::app(&mut c, "d_t3", AppConfig::Tee(Tee {}));
    config::link(&mut c, "a_io1.output -> b_t1.input");
    config::link(&mut c, "b_t1.output -> c_t2.input");
    config::link(&mut c, "b_t1.output2 -> d_t3.input");
    config::link(&mut c, "d_t3.output -> b_t1.input2");
    state.configure(&c);
    for name in &state.inhale {
        println!("pull {}", name);
    }
    for name in &state.exhale {
        println!("push {}", name);
    }
    assert_eq!(state.inhale, vec!["a_io1"]);
    // Every reachable push app is ordered exactly once; nothing feeds
    // the I/O app, so it only pulls.
    let mut ex = state.exhale.clone();
    ex.sort();
    assert_eq!(ex, vec!["b_t1", "c_t2", "d_t3"]);

    println!("Case 2:");
    let mut state = EngineState::new();
    let mut c = config::new();
    config::app(&mut c, "a_io1", AppConfig::RawSocket(RawSocket { ifname: "a_io1".to_string() }));
    config::app(&mut c, "b_t1", AppConfig::Tee(Tee {}));
    config::app(&mut c, "c_t2", AppConfig::Tee(Tee {}));
    config::app(&mut c, "d_t3", AppConfig::Tee(Tee {}));
    config::link(&mut c, "a_io1.output -> b_t1.input");
    config::link(&mut c, "b_t1.output -> c_t2.input");
    config::link(&mut c, "b_t1.output2 -> d_t3.input");
    config::link(&mut c, "c_t2.output -> d_t3.input2");
    state.configure(&c);
    for name in &state.inhale {
        println!("pull {}", name);
    }
    for name in &state.exhale {
        println!("push {}", name);
    }
    // Acyclic: d_t3 is ordered after both its producers.
    let pos = |v: &Vec<String>, n: &str| v.iter().position(|x| x == n).unwrap();
    assert!(pos(&state.exhale, "b_t1") < pos(&state.exhale, "c_t2"));
    assert!(pos(&state.exhale, "c_t2") < pos(&state.exhale, "d_t3"));

    println!("Case 3:");
    let mut state = EngineState::new();
    let mut c = config::new();
    config::app(&mut c, "a_io1", AppConfig::RawSocket(RawSocket { ifname: "a_io1".to_string() }));
    config::app(&mut c, "b_t1", AppConfig::Tee(Tee {}));
    config::app(&mut c, "c_t2", AppConfig::Tee(Tee {}));
    config::link(&mut c, "a_io1.output -> b_t1.input");
    config::link(&mut c, "a_io1.output2 -> c_t2.input");
    config::link(&mut c, "b_t1.output -> a_io1.input");
    config::link(&mut c, "b_t1.output2 -> c_t2.input2");
    config::link(&mut c, "c_t2.output -> a_io1.input2");
    state.configure(&c);
    for name in &state.inhale {
        println!("pull {}", name);
    }
    for name in &state.exhale {
        println!("push {}", name);
    }
    let mut ex = state.exhale.clone();
    ex.sort();
    ex.dedup();
    assert_eq!(ex.len(), state.exhale.len());
}

// Applying the same configuration twice keeps app state and link
// counters: no restart, no reset.
#[test]
fn configure_idempotent() {
    let mut state = EngineState::new();
    let mut c = config::new();
    config::app(&mut c, "source", AppConfig::Source(Source { size: 60 }));
    config::app(&mut c, "sink", AppConfig::Sink(Sink {}));
    config::link(&mut c, "source.output -> sink.input");
    state.configure(&c);
    state.breathe(0);
    let tx_before = state.find_link("source.output -> sink.input").unwrap().txpackets;
    assert!(tx_before > 0);
    state.configure(&c);
    let tx_after = state.find_link("source.output -> sink.input").unwrap().txpackets;
    assert_eq!(tx_before, tx_after);
    assert_eq!(state.inhale, vec!["source"]);
}

// Extending a configuration does not reset what was already running.
#[test]
fn configure_minimal_change() {
    let mut state = EngineState::new();
    let mut c = config::new();
    config::app(&mut c, "source", AppConfig::Source(Source { size: 60 }));
    config::app(&mut c, "sink", AppConfig::Sink(Sink {}));
    config::link(&mut c, "source.output -> sink.input");
    state.configure(&c);
    state.breathe(0);
    let tx_before = state.find_link("source.output -> sink.input").unwrap().txpackets;
    // c2 = c + a new app and a new link.
    config::app(&mut c, "sink2", AppConfig::Sink(Sink {}));
    config::link(&mut c, "source.tap -> sink2.extra");
    state.configure(&c);
    let tx_after = state.find_link("source.output -> sink.input").unwrap().txpackets;
    assert_eq!(tx_before, tx_after);
    assert!(state.find_link("source.tap -> sink2.extra").is_some());
}

// One breath of Source -> Sink: a full pull batch crosses the link and
// the sink frees every packet.
#[test]
fn source_sink_single_breath() {
    let mut state = EngineState::new();
    let mut c = config::new();
    config::app(&mut c, "source", AppConfig::Source(Source { size: 60 }));
    config::app(&mut c, "sink", AppConfig::Sink(Sink {}));
    config::link(&mut c, "source.output -> sink.input");
    state.configure(&c);
    state.breathe(0);
    let link = state.find_link("source.output -> sink.input").unwrap();
    assert_eq!(link.txpackets, PULL_NPACKETS as u64);
    assert_eq!(link.rxpackets, PULL_NPACKETS as u64);
    assert_eq!(state.stats.frees, PULL_NPACKETS as u64);
}

// Tee broadcast: both outputs see the same number of packets.
#[test]
fn tee_broadcast() {
    let mut state = EngineState::new();
    let mut c = config::new();
    config::app(&mut c, "source", AppConfig::Source(Source { size: 60 }));
    config::app(&mut c, "tee", AppConfig::Tee(Tee {}));
    config::app(&mut c, "sink", AppConfig::Sink(Sink {}));
    config::link(&mut c, "source.output -> tee.input");
    config::link(&mut c, "tee.tx1 -> sink.rx1");
    config::link(&mut c, "tee.tx2 -> sink.rx2");
    state.configure(&c);
    state.breathe(0);
    let t1 = state.find_link("tee.tx1 -> sink.rx1").unwrap().txpackets;
    let t2 = state.find_link("tee.tx2 -> sink.rx2").unwrap().txpackets;
    assert_eq!(t1, PULL_NPACKETS as u64);
    assert_eq!(t1, t2);
    // Shutdown: removing everything leaks nothing.
    state.configure(&config::new());
    assert_eq!(state.fl.allocated_count(), state.fl.free_count());
}

#[test]
fn pacing() {
    let mut state = EngineState::new();
    // Nothing freed: sleep grows by one each time.
    assert_eq!(state.pace_breathing(), 1);
    assert_eq!(state.pace_breathing(), 2);
    // A free resets the growth by halving.
    state.stats.frees += 7;
    assert_eq!(state.pace_breathing(), 0);
    assert_eq!(state.sleep_us, 1);
}
