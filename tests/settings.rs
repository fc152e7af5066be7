use spectacles::broker_config::Config;
use spectacles::event::{Event, EventRef};
use spectacles::gateway_config::{Api, Shards};
use spectacles::interval::Interval;
use spectacles::mqtt_config::{Config as MqttConfig, CreateOpt};

#[test]
fn broker_defaults() {
    assert_eq!(Config::default_address(), "localhost:6379".to_string());
    assert!(Config::default_events().is_empty());
}

#[test]
fn mqtt_defaults() {
    assert_eq!(CreateOpt::default_url(), "localhost:1883".to_string());
    assert_eq!(CreateOpt::default_version(), 5);
    assert_eq!(MqttConfig::default_qos(), 2);
}

#[test]
fn gateway_defaults() {
    assert_eq!(Shards::default(), Shards::Recommended);
    assert_eq!(Api::default_timeout(), Interval { secs: 10, nanos: 0 });
    let api = Api::default();
    assert!(api.version.is_none());
    assert!(api.base.is_none());
    assert_eq!(api.timeout, Interval::from_secs(10));
}

#[test]
fn events() {
    let e = Event::new("orders".to_string(), vec![1u8, 2]);
    assert_eq!(e.name, "orders");
    assert_eq!(e.data, vec![1u8, 2]);
    let r = EventRef::new("users", 7u32);
    assert_eq!(r.name, "users");
    assert_eq!(r.data, 7);
}
