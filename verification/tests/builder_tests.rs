use rustbus::message_builder::{MessageBuilder, MessageType};
use rustbus::params::Param;

#[test]
fn test_call_builder() {
    let msg = MessageBuilder::new()
        .call(String::from("Ping"))
        .on(String::from("/org/example/Thing"))
        .with_interface(String::from("org.example.Iface"))
        .at(String::from("org.example.Peer"))
        .with_params(vec![Param::from(1i32), Param::from(String::from("x"))])
        .build();
    assert_eq!(msg.typ, MessageType::Call);
    assert_eq!(msg.member.as_deref(), Some("Ping"));
    assert_eq!(msg.object.as_deref(), Some("/org/example/Thing"));
    assert_eq!(msg.interface.as_deref(), Some("org.example.Iface"));
    assert_eq!(msg.destination.as_deref(), Some("org.example.Peer"));
    assert_eq!(msg.params.len(), 2);
}

#[test]
fn test_signal_builder() {
    let msg = MessageBuilder::new()
        .signal(
            String::from("org.example.Iface"),
            String::from("Changed"),
            String::from("/org/example/Thing"),
        )
        .to(String::from("org.example.Peer"))
        .with_params(vec![Param::from(true)])
        .build();
    assert_eq!(msg.typ, MessageType::Signal);
    assert_eq!(msg.member.as_deref(), Some("Changed"));
    assert_eq!(msg.interface.as_deref(), Some("org.example.Iface"));
    assert_eq!(msg.object.as_deref(), Some("/org/example/Thing"));
    assert_eq!(msg.destination.as_deref(), Some("org.example.Peer"));
    assert_eq!(msg.params.len(), 1);
}
