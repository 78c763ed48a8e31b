use ammo::ecs::component::{
    Component, ComponentExt, IntegralNamespace, StringNamespace, AMMO_INT_NAMESPACE, AMMO_NAMESPACE,
};
use ammo::ecs::components::{Ambiance, AMBIANCE_ID, AMBIANCE_ID_STR};
use ammo::ecs::version::Version;
use ammo::ecs_core::identifiers::{IntId, StringId};
use ammo::net::{MessageHandlerOutcome, NetworkConnectionConfig};

#[test]
fn ambiance_identifiers() {
    let s = <Ambiance as Component>::get_string_namespace();
    assert_eq!(s, StringNamespace { namespace: "ammo", name: "ambiance" });
    let i = <Ambiance as Component>::get_integral_namespace();
    assert_eq!((i.namespace(), i.component_id()), (1, 3));
    let a = Ambiance::ConstantlyLoopingSound { asset_name: "wind".to_string() };
    assert_eq!(ComponentExt::get_string_namespace(&a), s);
    assert_eq!(ComponentExt::get_integral_namespace(&a), i);
    assert_eq!((AMMO_NAMESPACE, AMMO_INT_NAMESPACE, AMBIANCE_ID, AMBIANCE_ID_STR), ("ammo", 1, 3, "ambiance"));
}

#[test]
fn identifiers_order_and_parts() {
    let a = IntegralNamespace::new(2, 7);
    let b = IntegralNamespace::new(2, 9);
    assert!(a < b);
    let id = IntId::new(5, 6);
    assert_eq!((id.namespace(), id.id()), (5, 6));
    let s1 = StringId { namespace: "a", id: "b" };
    let s2 = StringId { namespace: "a", id: "c" };
    assert!(s1 < s2);
}

#[test]
fn versions_count_up_from_the_minimum() {
    let v = Version::default();
    assert_eq!(v.get(), i64::MIN);
    assert_eq!(v, Version::minimum());
    let w = v.increment();
    assert_eq!(w.get(), i64::MIN + 1);
    assert!(v < w);
    assert_eq!(Version::from_raw(41).increment().get(), 42);
}

#[test]
fn network_config_defaults() {
    let c = NetworkConnectionConfig::default();
    assert_eq!(c.max_auth_message_size(), 8192);
    assert_eq!(c.auth_message_timeout_ms(), 500);
    assert_eq!(c.max_unsent_bytes(), 1 << 20);
    assert_eq!(c.max_message_interval_ms(), 1000);
    assert_eq!(c.max_incoming_message_length(), None);
    assert_eq!(c.write_timeout_ms(), 500);
    assert_ne!(MessageHandlerOutcome::ContinueHandling, MessageHandlerOutcome::GracefulShutdown);
}

#[test]
fn auth_read_size_stops_at_the_allowance() {
    let c = NetworkConnectionConfig::default();
    assert_eq!(c.auth_read_size(0, 4096), 4096);
    assert_eq!(c.auth_read_size(0, 65536), 8192);
    assert_eq!(c.auth_read_size(8000, 4096), 192);
    assert_eq!(c.auth_read_size(8192, 4096), 0);
    assert_eq!(c.auth_read_size(9000, 4096), 0);
}
