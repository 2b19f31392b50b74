use rush::basic_apps::{Sink, Source};
use rush::config;
use rush::engine::AppConfig;

#[test]
fn config() {
    let mut c = config::new();
    println!("Created an empty configuration");
    config::app(&mut c, "source", AppConfig::Source(Source { size: 60 }));
    println!("Added an app");
    config::link(&mut c, "source.output -> sink.input");
    println!("Added an link");
}

#[test]
fn parse_link_roundtrip() {
    let ls = config::parse_link("  source.output ->   sink.input ").unwrap();
    assert_eq!(ls.from, "source");
    assert_eq!(ls.output, "output");
    assert_eq!(ls.to, "sink");
    assert_eq!(ls.input, "input");
    assert_eq!(config::format_link(&ls), "source.output -> sink.input");
    assert!(config::parse_link("source.output ->").is_none());
    assert!(config::parse_link("source -> sink.input").is_none());
    assert!(config::parse_link("").is_none());
}

#[test]
fn app_replaces_by_name() {
    let mut c = config::new();
    config::app(&mut c, "a", AppConfig::Source(Source { size: 60 }));
    config::app(&mut c, "a", AppConfig::Source(Source { size: 120 }));
    config::app(&mut c, "b", AppConfig::Sink(Sink {}));
    assert_eq!(c.apps.len(), 2);
    match &c.apps[0].1 {
        AppConfig::Source(s) => assert_eq!(s.size, 120),
        _ => panic!("wrong config kind"),
    }
}
