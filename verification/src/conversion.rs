//! Conversions between plain values, the tagged value model, and the
//! signature types: the `From` and `TryFrom` family of the value model.

use vstd::prelude::*;
use crate::message_builder::Error;
use crate::params;
use crate::params::{Base, BaseV, Param, Container};
use crate::signature;

verus! {

impl<'a> vstd::std_specs::convert::FromSpecImpl<&'a Base> for signature::Base {
    open spec fn obeys_from_spec() -> bool {
        true
    }

    open spec fn from_spec(v: &'a Base) -> signature::Base {
        params::base_sig(v@)
    }
}

impl<'a> From<&'a Base> for signature::Base {
    /// The signature base kind of a base value.
    fn from(b: &'a Base) -> (r: signature::Base) {
        b.sig()
    }
}

impl<'a> vstd::std_specs::convert::FromSpecImpl<&'a Container> for signature::Container {
    open spec fn obeys_from_spec() -> bool {
        false
    }

    open spec fn from_spec(v: &'a Container) -> signature::Container {
        arbitrary()
    }
}

impl<'a> From<&'a Container> for signature::Container {
    /// The signature type of a container value; its model is
    /// `container_sig` of the value's model.
    fn from(c: &'a Container) -> (r: signature::Container) {
        c.sig()
    }
}

impl<'a> vstd::std_specs::convert::FromSpecImpl<&'a Param> for signature::Type {
    open spec fn obeys_from_spec() -> bool {
        false
    }

    open spec fn from_spec(v: &'a Param) -> signature::Type {
        arbitrary()
    }
}

impl<'a> From<&'a Param> for signature::Type {
    /// The signature type of a value; its model is `param_sig` of the
    /// value's model.
    fn from(p: &'a Param) -> (r: signature::Type) {
        p.sig()
    }
}

impl vstd::std_specs::convert::FromSpecImpl<Base> for Param {
    open spec fn obeys_from_spec() -> bool {
        true
    }

    open spec fn from_spec(v: Base) -> Param {
        Param::Base(v)
    }
}

impl From<Base> for Param {
    /// Wrap a base value.
    fn from(s: Base) -> (r: Param) {
        Param::Base(s)
    }
}

impl vstd::std_specs::convert::FromSpecImpl<Container> for Param {
    open spec fn obeys_from_spec() -> bool {
        true
    }

    open spec fn from_spec(v: Container) -> Param {
        Param::Container(v)
    }
}

impl From<Container> for Param {
    /// Wrap a container value.
    fn from(s: Container) -> (r: Param) {
        Param::Container(s)
    }
}

impl vstd::std_specs::convert::FromSpecImpl<String> for Base {
    open spec fn obeys_from_spec() -> bool {
        true
    }

    open spec fn from_spec(v: String) -> Base {
        Base::String(v)
    }
}

impl From<String> for Base {
    /// Wrap a string as a string value.
    fn from(s: String) -> (r: Base) {
        Base::String(s)
    }
}

impl vstd::std_specs::convert::FromSpecImpl<String> for Param {
    open spec fn obeys_from_spec() -> bool {
        true
    }

    open spec fn from_spec(v: String) -> Param {
        Param::Base(Base::String(v))
    }
}

impl From<String> for Param {
    /// Wrap a string as a string value.
    fn from(s: String) -> (r: Param) {
        Param::Base(Base::String(s))
    }
}

impl vstd::std_specs::convert::TryFromSpecImpl<&Base> for String {
    open spec fn obeys_try_from_spec() -> bool {
        false
    }

    open spec fn try_from_spec(v: &Base) -> Result<String, Error> {
        arbitrary()
    }
}

impl TryFrom<&Base> for String {
    type Error = Error;

    /// The owned text of a string value; anything else is InvalidType.
    fn try_from(b: &Base) -> (r: Result<String, Error>)
    {
        match b {
            Base::String(value) => Ok(value.clone()),
            _ => Err(Error::InvalidType),
        }
    }
}

impl vstd::std_specs::convert::FromSpecImpl<bool> for Base {
    open spec fn obeys_from_spec() -> bool {
        true
    }

    open spec fn from_spec(v: bool) -> Base {
        Base::Boolean(v)
    }
}

impl From<bool> for Base {
    /// Wrap a plain value.
    fn from(s: bool) -> (r: Base) {
        Base::Boolean(s)
    }
}

impl vstd::std_specs::convert::FromSpecImpl<bool> for Param {
    open spec fn obeys_from_spec() -> bool {
        true
    }

    open spec fn from_spec(v: bool) -> Param {
        Param::Base(Base::Boolean(v))
    }
}

impl From<bool> for Param {
    /// Wrap a plain value.
    fn from(s: bool) -> (r: Param) {
        Param::Base(Base::Boolean(s))
    }
}

impl vstd::std_specs::convert::TryFromSpecImpl<&Base> for bool {
    open spec fn obeys_try_from_spec() -> bool {
        true
    }

    open spec fn try_from_spec(v: &Base) -> Result<bool, Error> {
        match v@ {
            BaseV::Boolean(x) => Ok(x),
            _ => Err(Error::InvalidType),
        }
    }
}

impl TryFrom<&Base> for bool {
    type Error = Error;

    /// The plain value of a matching base value; anything else is
    /// InvalidType.
    fn try_from(b: &Base) -> (r: Result<bool, Error>)
    {
        match b {
            Base::Boolean(value) => Ok(*value),
            _ => Err(Error::InvalidType),
        }
    }
}

impl vstd::std_specs::convert::FromSpecImpl<u8> for Base {
    open spec fn obeys_from_spec() -> bool {
        true
    }

    open spec fn from_spec(v: u8) -> Base {
        Base::Byte(v)
    }
}

impl From<u8> for Base {
    /// Wrap a plain value.
    fn from(s: u8) -> (r: Base) {
        Base::Byte(s)
    }
}

impl vstd::std_specs::convert::FromSpecImpl<u8> for Param {
    open spec fn obeys_from_spec() -> bool {
        true
    }

    open spec fn from_spec(v: u8) -> Param {
        Param::Base(Base::Byte(v))
    }
}

impl From<u8> for Param {
    /// Wrap a plain value.
    fn from(s: u8) -> (r: Param) {
        Param::Base(Base::Byte(s))
    }
}

impl vstd::std_specs::convert::TryFromSpecImpl<&Base> for u8 {
    open spec fn obeys_try_from_spec() -> bool {
        true
    }

    open spec fn try_from_spec(v: &Base) -> Result<u8, Error> {
        match v@ {
            BaseV::Byte(x) => Ok(x),
            _ => Err(Error::InvalidType),
        }
    }
}

impl TryFrom<&Base> for u8 {
    type Error = Error;

    /// The plain value of a matching base value; anything else is
    /// InvalidType.
    fn try_from(b: &Base) -> (r: Result<u8, Error>)
    {
        match b {
            Base::Byte(value) => Ok(*value),
            _ => Err(Error::InvalidType),
        }
    }
}

impl vstd::std_specs::convert::FromSpecImpl<u16> for Base {
    open spec fn obeys_from_spec() -> bool {
        true
    }

    open spec fn from_spec(v: u16) -> Base {
        Base::Uint16(v)
    }
}

impl From<u16> for Base {
    /// Wrap a plain value.
    fn from(s: u16) -> (r: Base) {
        Base::Uint16(s)
    }
}

impl vstd::std_specs::convert::FromSpecImpl<u16> for Param {
    open spec fn obeys_from_spec() -> bool {
        true
    }

    open spec fn from_spec(v: u16) -> Param {
        Param::Base(Base::Uint16(v))
    }
}

impl From<u16> for Param {
    /// Wrap a plain value.
    fn from(s: u16) -> (r: Param) {
        Param::Base(Base::Uint16(s))
    }
}

impl vstd::std_specs::convert::TryFromSpecImpl<&Base> for u16 {
    open spec fn obeys_try_from_spec() -> bool {
        true
    }

    open spec fn try_from_spec(v: &Base) -> Result<u16, Error> {
        match v@ {
            BaseV::Uint16(x) => Ok(x),
            _ => Err(Error::InvalidType),
        }
    }
}

impl TryFrom<&Base> for u16 {
    type Error = Error;

    /// The plain value of a matching base value; anything else is
    /// InvalidType.
    fn try_from(b: &Base) -> (r: Result<u16, Error>)
    {
        match b {
            Base::Uint16(value) => Ok(*value),
            _ => Err(Error::InvalidType),
        }
    }
}

impl vstd::std_specs::convert::FromSpecImpl<u32> for Base {
    open spec fn obeys_from_spec() -> bool {
        true
    }

    open spec fn from_spec(v: u32) -> Base {
        Base::Uint32(v)
    }
}

impl From<u32> for Base {
    /// Wrap a plain value.
    fn from(s: u32) -> (r: Base) {
        Base::Uint32(s)
    }
}

impl vstd::std_specs::convert::FromSpecImpl<u32> for Param {
    open spec fn obeys_from_spec() -> bool {
        true
    }

    open spec fn from_spec(v: u32) -> Param {
        Param::Base(Base::Uint32(v))
    }
}

impl From<u32> for Param {
    /// Wrap a plain value.
    fn from(s: u32) -> (r: Param) {
        Param::Base(Base::Uint32(s))
    }
}

impl vstd::std_specs::convert::TryFromSpecImpl<&Base> for u32 {
    open spec fn obeys_try_from_spec() -> bool {
        true
    }

    open spec fn try_from_spec(v: &Base) -> Result<u32, Error> {
        match v@ {
            BaseV::Uint32(x) => Ok(x),
            _ => Err(Error::InvalidType),
        }
    }
}

impl TryFrom<&Base> for u32 {
    type Error = Error;

    /// The plain value of a matching base value; anything else is
    /// InvalidType.
    fn try_from(b: &Base) -> (r: Result<u32, Error>)
    {
        match b {
            Base::Uint32(value) => Ok(*value),
            _ => Err(Error::InvalidType),
        }
    }
}

impl vstd::std_specs::convert::FromSpecImpl<u64> for Base {
    open spec fn obeys_from_spec() -> bool {
        true
    }

    open spec fn from_spec(v: u64) -> Base {
        Base::Uint64(v)
    }
}

impl From<u64> for Base {
    /// Wrap a plain value.
    fn from(s: u64) -> (r: Base) {
        Base::Uint64(s)
    }
}

impl vstd::std_specs::convert::FromSpecImpl<u64> for Param {
    open spec fn obeys_from_spec() -> bool {
        true
    }

    open spec fn from_spec(v: u64) -> Param {
        Param::Base(Base::Uint64(v))
    }
}

impl From<u64> for Param {
    /// Wrap a plain value.
    fn from(s: u64) -> (r: Param) {
        Param::Base(Base::Uint64(s))
    }
}

impl vstd::std_specs::convert::TryFromSpecImpl<&Base> for u64 {
    open spec fn obeys_try_from_spec() -> bool {
        true
    }

    open spec fn try_from_spec(v: &Base) -> Result<u64, Error> {
        match v@ {
            BaseV::Uint64(x) => Ok(x),
            _ => Err(Error::InvalidType),
        }
    }
}

impl TryFrom<&Base> for u64 {
    type Error = Error;

    /// The plain value of a matching base value; anything else is
    /// InvalidType.
    fn try_from(b: &Base) -> (r: Result<u64, Error>)
    {
        match b {
            Base::Uint64(value) => Ok(*value),
            _ => Err(Error::InvalidType),
        }
    }
}

impl vstd::std_specs::convert::FromSpecImpl<i16> for Base {
    open spec fn obeys_from_spec() -> bool {
        true
    }

    open spec fn from_spec(v: i16) -> Base {
        Base::Int16(v)
    }
}

impl From<i16> for Base {
    /// Wrap a plain value.
    fn from(s: i16) -> (r: Base) {
        Base::Int16(s)
    }
}

impl vstd::std_specs::convert::FromSpecImpl<i16> for Param {
    open spec fn obeys_from_spec() -> bool {
        true
    }

    open spec fn from_spec(v: i16) -> Param {
        Param::Base(Base::Int16(v))
    }
}

impl From<i16> for Param {
    /// Wrap a plain value.
    fn from(s: i16) -> (r: Param) {
        Param::Base(Base::Int16(s))
    }
}

impl vstd::std_specs::convert::TryFromSpecImpl<&Base> for i16 {
    open spec fn obeys_try_from_spec() -> bool {
        true
    }

    open spec fn try_from_spec(v: &Base) -> Result<i16, Error> {
        match v@ {
            BaseV::Int16(x) => Ok(x),
            _ => Err(Error::InvalidType),
        }
    }
}

impl TryFrom<&Base> for i16 {
    type Error = Error;

    /// The plain value of a matching base value; anything else is
    /// InvalidType.
    fn try_from(b: &Base) -> (r: Result<i16, Error>)
    {
        match b {
            Base::Int16(value) => Ok(*value),
            _ => Err(Error::InvalidType),
        }
    }
}

impl vstd::std_specs::convert::FromSpecImpl<i32> for Base {
    open spec fn obeys_from_spec() -> bool {
        true
    }

    open spec fn from_spec(v: i32) -> Base {
        Base::Int32(v)
    }
}

impl From<i32> for Base {
    /// Wrap a plain value.
    fn from(s: i32) -> (r: Base) {
        Base::Int32(s)
    }
}

impl vstd::std_specs::convert::FromSpecImpl<i32> for Param {
    open spec fn obeys_from_spec() -> bool {
        true
    }

    open spec fn from_spec(v: i32) -> Param {
        Param::Base(Base::Int32(v))
    }
}

impl From<i32> for Param {
    /// Wrap a plain value.
    fn from(s: i32) -> (r: Param) {
        Param::Base(Base::Int32(s))
    }
}

impl vstd::std_specs::convert::TryFromSpecImpl<&Base> for i32 {
    open spec fn obeys_try_from_spec() -> bool {
        true
    }

    open spec fn try_from_spec(v: &Base) -> Result<i32, Error> {
        match v@ {
            BaseV::Int32(x) => Ok(x),
            _ => Err(Error::InvalidType),
        }
    }
}

impl TryFrom<&Base> for i32 {
    type Error = Error;

    /// The plain value of a matching base value; anything else is
    /// InvalidType.
    fn try_from(b: &Base) -> (r: Result<i32, Error>)
    {
        match b {
            Base::Int32(value) => Ok(*value),
            _ => Err(Error::InvalidType),
        }
    }
}

impl vstd::std_specs::convert::FromSpecImpl<i64> for Base {
    open spec fn obeys_from_spec() -> bool {
        true
    }

    open spec fn from_spec(v: i64) -> Base {
        Base::Int64(v)
    }
}

impl From<i64> for Base {
    /// Wrap a plain value.
    fn from(s: i64) -> (r: Base) {
        Base::Int64(s)
    }
}

impl vstd::std_specs::convert::FromSpecImpl<i64> for Param {
    open spec fn obeys_from_spec() -> bool {
        true
    }

    open spec fn from_spec(v: i64) -> Param {
        Param::Base(Base::Int64(v))
    }
}

impl From<i64> for Param {
    /// Wrap a plain value.
    fn from(s: i64) -> (r: Param) {
        Param::Base(Base::Int64(s))
    }
}

impl vstd::std_specs::convert::TryFromSpecImpl<&Base> for i64 {
    open spec fn obeys_try_from_spec() -> bool {
        true
    }

    open spec fn try_from_spec(v: &Base) -> Result<i64, Error> {
        match v@ {
            BaseV::Int64(x) => Ok(x),
            _ => Err(Error::InvalidType),
        }
    }
}

impl TryFrom<&Base> for i64 {
    type Error = Error;

    /// The plain value of a matching base value; anything else is
    /// InvalidType.
    fn try_from(b: &Base) -> (r: Result<i64, Error>)
    {
        match b {
            Base::Int64(value) => Ok(*value),
            _ => Err(Error::InvalidType),
        }
    }
}

impl vstd::std_specs::convert::TryFromSpecImpl<(signature::Type, Vec<Param>)> for Container {
    open spec fn obeys_try_from_spec() -> bool {
        false
    }

    open spec fn try_from_spec(v: (signature::Type, Vec<Param>)) -> Result<Container, Error> {
        arbitrary()
    }
}

impl TryFrom<(signature::Type, Vec<Param>)> for Container {
    type Error = Error;

    /// An array from an element type and elements; every element must
    /// have exactly that type.
    fn try_from(parts: (signature::Type, Vec<Param>)) -> (r: Result<Container, Error>)
        ensures
            match r {
                Ok(c) => c@ matches params::ContainerV::Array { element_sig, values }
                    && element_sig == parts.0@ && values == params::params_view(parts.1@)
                    && params::array_valid(element_sig, values),
                Err(e) => e == Error::Validation(
                    crate::errors::MarshalError::ArrayElementTypeMismatch,
                ) && !params::array_valid(parts.0@, params::params_view(parts.1@)),
            },
    {
        let arr = params::Array { element_sig: parts.0, values: parts.1 };
        match params::validate_array(&arr) {
            Ok(_) => Ok(Container::Array(arr)),
            Err(e) => Err(Error::Validation(e)),
        }
    }
}

impl vstd::std_specs::convert::TryFromSpecImpl<Vec<Param>> for Container {
    open spec fn obeys_try_from_spec() -> bool {
        false
    }

    open spec fn try_from_spec(v: Vec<Param>) -> Result<Container, Error> {
        arbitrary()
    }
}

impl TryFrom<Vec<Param>> for Container {
    type Error = Error;

    /// An array whose element type is taken from its first element; the
    /// elements must be non-empty and homogeneous.
    fn try_from(elems: Vec<Param>) -> (r: Result<Container, Error>)
        ensures
            match r {
                Ok(c) => c@ matches params::ContainerV::Array { element_sig, values }
                    && elems@.len() > 0 && element_sig == params::param_sig(elems@[0]@)
                    && values == params::params_view(elems@) && params::array_valid(
                    element_sig,
                    values,
                ),
                Err(e) => {
                    ||| (e == Error::EmptyArray && elems@.len() == 0)
                    ||| (e == Error::Validation(
                        crate::errors::MarshalError::ArrayElementTypeMismatch,
                    ) && elems@.len() > 0 && !params::array_valid(
                        params::param_sig(elems@[0]@),
                        params::params_view(elems@),
                    ))
                },
            },
    {
        if elems.is_empty() {
            return Err(Error::EmptyArray);
        }
        let element_sig = elems[0].sig();
        proof {
            params::lemma_params_view(elems@);
        }
        let arr = params::Array { element_sig, values: elems };
        match params::validate_array(&arr) {
            Ok(_) => Ok(Container::Array(arr)),
            Err(e) => Err(Error::Validation(e)),
        }
    }
}

impl vstd::std_specs::convert::TryFromSpecImpl<(signature::Base, signature::Type, Vec<(Base, Param)>)> for Container {
    open spec fn obeys_try_from_spec() -> bool {
        false
    }

    open spec fn try_from_spec(v: (signature::Base, signature::Type, Vec<(Base, Param)>)) -> Result<
        Container,
        Error,
    > {
        arbitrary()
    }
}

impl TryFrom<(signature::Base, signature::Type, Vec<(Base, Param)>)> for Container {
    type Error = Error;

    /// A dict from its key kind, value type and entries; every key and
    /// value must have exactly those types.
    fn try_from(parts: (signature::Base, signature::Type, Vec<(Base, Param)>)) -> (r: Result<
        Container,
        Error,
    >)
        ensures
            match r {
                Ok(c) => c@ matches params::ContainerV::Dict { key_sig, value_sig, map }
                    && key_sig == parts.0 && value_sig == parts.1@ && map
                    == params::entries_view(parts.2@) && params::dict_valid(
                    key_sig,
                    value_sig,
                    map,
                ) && params::dict_keys_unique(map),
                Err(e) => !params::dict_valid(
                    parts.0,
                    parts.1@,
                    params::entries_view(parts.2@),
                ) || !params::dict_keys_unique(params::entries_view(parts.2@)),
            },
    {
        let dict = params::Dict { key_sig: parts.0, value_sig: parts.1, map: parts.2 };
        match params::validate_dict(&dict) {
            Ok(_) => Ok(Container::Dict(dict)),
            Err(e) => Err(Error::Validation(e)),
        }
    }
}

impl vstd::std_specs::convert::TryFromSpecImpl<Vec<(Base, Param)>> for Container {
    open spec fn obeys_try_from_spec() -> bool {
        false
    }

    open spec fn try_from_spec(v: Vec<(Base, Param)>) -> Result<Container, Error> {
        arbitrary()
    }
}

impl TryFrom<Vec<(Base, Param)>> for Container {
    type Error = Error;

    /// A dict whose key and value types are taken from its first entry;
    /// the entries must be non-empty and homogeneous.
    fn try_from(elems: Vec<(Base, Param)>) -> (r: Result<Container, Error>)
        ensures
            match r {
                Ok(c) => c@ matches params::ContainerV::Dict { key_sig, value_sig, map }
                    && elems@.len() > 0 && key_sig == params::base_sig(elems@[0].0@)
                    && value_sig == params::param_sig(elems@[0].1@) && map
                    == params::entries_view(elems@) && params::dict_valid(
                    key_sig,
                    value_sig,
                    map,
                ) && params::dict_keys_unique(map),
                Err(e) => {
                    ||| (e == Error::EmptyDict && elems@.len() == 0)
                    ||| (elems@.len() > 0 && (!params::dict_valid(
                        params::base_sig(elems@[0].0@),
                        params::param_sig(elems@[0].1@),
                        params::entries_view(elems@),
                    ) || !params::dict_keys_unique(params::entries_view(elems@))))
                },
            },
    {
        if elems.is_empty() {
            return Err(Error::EmptyDict);
        }
        let key_sig = elems[0].0.sig();
        let value_sig = elems[0].1.sig();
        proof {
            params::lemma_entries_view(elems@);
        }
        let dict = params::Dict { key_sig, value_sig, map: elems };
        match params::validate_dict(&dict) {
            Ok(_) => Ok(Container::Dict(dict)),
            Err(e) => Err(Error::Validation(e)),
        }
    }
}

} // verus!
