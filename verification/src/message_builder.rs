//! Helps in building messages conveniently: method calls and signals with
//! their addressing fields and body values.

use vstd::prelude::*;
use crate::params::Param;

verus! {

/// What a message is for.
#[derive(Copy, Clone, Debug, Eq, PartialEq, Structural)]
pub enum MessageType {
    Signal,
    Error,
    Call,
    Reply,
    Invalid,
}

/// The ways pulling a typed value out of a message can fail.
#[derive(Copy, Clone, Debug, Eq, PartialEq, Structural)]
pub enum Error {
    InvalidType,
    EmptyArray,
    EmptyDict,
    InvalidSignatureShouldBeBase,
    Validation(crate::errors::MarshalError),
}

/// A message: its kind, its addressing fields, and its body values.
#[derive(Debug)]
pub struct Message {
    pub typ: MessageType,
    pub interface: Option<String>,
    pub member: Option<String>,
    pub object: Option<String>,
    pub destination: Option<String>,
    pub params: Vec<Param>,
}

impl Message {
    /// An empty message with no kind yet.
    pub fn new() -> (r: Message)
        ensures
            r.typ == MessageType::Invalid,
            r.interface is None,
            r.member is None,
            r.object is None,
            r.destination is None,
            r.params@ == Seq::<Param>::empty(),
    {
        Message {
            typ: MessageType::Invalid,
            interface: None,
            member: None,
            object: None,
            destination: None,
            params: Vec::new(),
        }
    }
}

/// Starts a message and picks what kind it will be.
pub struct MessageBuilder {
    pub msg: Message,
}

/// Builds a method call.
pub struct CallBuilder {
    pub msg: Message,
}

/// Builds a signal.
pub struct SignalBuilder {
    pub msg: Message,
}

impl MessageBuilder {
    /// Start an empty message.
    pub fn new() -> (r: MessageBuilder)
        ensures
            r.msg.typ == MessageType::Invalid,
            r.msg.interface is None,
            r.msg.member is None,
            r.msg.object is None,
            r.msg.destination is None,
            r.msg.params@ == Seq::<Param>::empty(),
    {
        MessageBuilder { msg: Message::new() }
    }

    /// Make it a method call of `member`.
    pub fn call(self, member: String) -> (r: CallBuilder)
        ensures
            r.msg.typ == MessageType::Call,
            r.msg.member == Some(member),
            r.msg.interface == self.msg.interface,
            r.msg.object == self.msg.object,
            r.msg.destination == self.msg.destination,
            r.msg.params == self.msg.params,
    {
        let mut msg = self.msg;
        msg.typ = MessageType::Call;
        msg.member = Some(member);
        CallBuilder { msg }
    }

    /// Make it the signal `member` of `interface` at `object`.
    pub fn signal(self, interface: String, member: String, object: String) -> (r: SignalBuilder)
        ensures
            r.msg.typ == MessageType::Signal,
            r.msg.member == Some(member),
            r.msg.interface == Some(interface),
            r.msg.object == Some(object),
            r.msg.destination == self.msg.destination,
            r.msg.params == self.msg.params,
    {
        let mut msg = self.msg;
        msg.typ = MessageType::Signal;
        msg.member = Some(member);
        msg.interface = Some(interface);
        msg.object = Some(object);
        SignalBuilder { msg }
    }
}

impl CallBuilder {
    /// Address the call at the object `object_path`.
    pub fn on(self, object_path: String) -> (r: Self)
        ensures
            r.msg.object == Some(object_path),
            r.msg.typ == self.msg.typ,
            r.msg.member == self.msg.member,
            r.msg.interface == self.msg.interface,
            r.msg.destination == self.msg.destination,
            r.msg.params == self.msg.params,
    {
        let mut msg = self.msg;
        msg.object = Some(object_path);
        CallBuilder { msg }
    }

    /// Address the call at the interface `interface`.
    pub fn with_interface(self, interface: String) -> (r: Self)
        ensures
            r.msg.interface == Some(interface),
            r.msg.typ == self.msg.typ,
            r.msg.member == self.msg.member,
            r.msg.object == self.msg.object,
            r.msg.destination == self.msg.destination,
            r.msg.params == self.msg.params,
    {
        let mut msg = self.msg;
        msg.interface = Some(interface);
        CallBuilder { msg }
    }

    /// Address the call at the peer `destination`.
    pub fn at(self, destination: String) -> (r: Self)
        ensures
            r.msg.destination == Some(destination),
            r.msg.typ == self.msg.typ,
            r.msg.member == self.msg.member,
            r.msg.interface == self.msg.interface,
            r.msg.object == self.msg.object,
            r.msg.params == self.msg.params,
    {
        let mut msg = self.msg;
        msg.destination = Some(destination);
        CallBuilder { msg }
    }

    /// Append body values.
    pub fn with_params(self, params: Vec<Param>) -> (r: Self)
        ensures
            r.msg.params@ == self.msg.params@ + params@,
            r.msg.typ == self.msg.typ,
            r.msg.member == self.msg.member,
            r.msg.interface == self.msg.interface,
            r.msg.object == self.msg.object,
            r.msg.destination == self.msg.destination,
    {
        let mut msg = self.msg;
        let mut params = params;
        msg.params.append(&mut params);
        CallBuilder { msg }
    }

    /// The finished message.
    pub fn build(self) -> (r: Message)
        ensures
            r == self.msg,
    {
        self.msg
    }
}

impl SignalBuilder {
    /// Address the signal at the peer `destination`.
    pub fn to(self, destination: String) -> (r: Self)
        ensures
            r.msg.destination == Some(destination),
            r.msg.typ == self.msg.typ,
            r.msg.member == self.msg.member,
            r.msg.interface == self.msg.interface,
            r.msg.object == self.msg.object,
            r.msg.params == self.msg.params,
    {
        let mut msg = self.msg;
        msg.destination = Some(destination);
        SignalBuilder { msg }
    }

    /// Append body values.
    pub fn with_params(self, params: Vec<Param>) -> (r: Self)
        ensures
            r.msg.params@ == self.msg.params@ + params@,
            r.msg.typ == self.msg.typ,
            r.msg.member == self.msg.member,
            r.msg.interface == self.msg.interface,
            r.msg.object == self.msg.object,
            r.msg.destination == self.msg.destination,
    {
        let mut msg = self.msg;
        let mut params = params;
        msg.params.append(&mut params);
        SignalBuilder { msg }
    }

    /// The finished message.
    pub fn build(self) -> (r: Message)
        ensures
            r == self.msg,
    {
        self.msg
    }
}

} // verus!
