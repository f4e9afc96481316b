//! Tagged values mirroring the type AST, their derived signatures, and the
//! validators the marshaller relies on.

use vstd::prelude::*;
use vstd::string::StringSliceAdditionalSpecFns;
use crate::signature;
use crate::errors::MarshalError;

verus! {

/// A base value.
#[derive(Debug, Eq, PartialEq)]
pub enum Base {
    Byte(u8),
    Int16(i16),
    Uint16(u16),
    Int32(i32),
    Uint32(u32),
    UnixFd(u32),
    Int64(i64),
    Uint64(u64),
    Double(u64),
    String(String),
    Signature(String),
    ObjectPath(String),
    Boolean(bool),
}

/// An array value: the element type and the elements.
#[derive(Debug, Eq, PartialEq)]
pub struct Array {
    pub element_sig: signature::Type,
    pub values: Vec<Param>,
}

/// A dict value: the key and value types and the entries, in insertion
/// order.
#[derive(Debug, Eq, PartialEq)]
pub struct Dict {
    pub key_sig: signature::Base,
    pub value_sig: signature::Type,
    pub map: Vec<(Base, Param)>,
}

/// A container value.
#[derive(Debug, Eq, PartialEq)]
pub enum Container {
    Array(Array),
    Struct(Vec<Param>),
    Dict(Dict),
    Variant(Box<Param>),
}

/// Either a base value or a container value.
#[derive(Debug, Eq, PartialEq)]
pub enum Param {
    Base(Base),
    Container(Container),
}

/// Mathematical model of a [`Base`] value. Doubles carry their bit
/// pattern.
pub ghost enum BaseV {
    Byte(u8),
    Int16(i16),
    Uint16(u16),
    Uint32(u32),
    UnixFd(u32),
    Int32(i32),
    Int64(i64),
    Uint64(u64),
    Double(u64),
    String(Seq<char>),
    Signature(Seq<char>),
    ObjectPath(Seq<char>),
    Boolean(bool),
}

/// Mathematical model of a [`Container`] value.
pub ghost enum ContainerV {
    Array { element_sig: signature::TypeV, values: Seq<ParamV> },
    Struct(Seq<ParamV>),
    Dict {
        key_sig: signature::Base,
        value_sig: signature::TypeV,
        map: Seq<(BaseV, ParamV)>,
    },
    Variant(Box<ParamV>),
}

/// Mathematical model of a [`Param`].
pub ghost enum ParamV {
    Base(BaseV),
    Container(ContainerV),
}

impl View for Base {
    type V = BaseV;

    open spec fn view(&self) -> BaseV {
        match self {
            Base::Byte(v) => BaseV::Byte(*v),
            Base::Int16(v) => BaseV::Int16(*v),
            Base::Uint16(v) => BaseV::Uint16(*v),
            Base::Int32(v) => BaseV::Int32(*v),
            Base::Uint32(v) => BaseV::Uint32(*v),
            Base::UnixFd(v) => BaseV::UnixFd(*v),
            Base::Int64(v) => BaseV::Int64(*v),
            Base::Uint64(v) => BaseV::Uint64(*v),
            Base::Double(v) => BaseV::Double(*v),
            Base::String(s) => BaseV::String(s@),
            Base::Signature(s) => BaseV::Signature(s@),
            Base::ObjectPath(s) => BaseV::ObjectPath(s@),
            Base::Boolean(v) => BaseV::Boolean(*v),
        }
    }
}

impl View for Param {
    type V = ParamV;

    open spec fn view(&self) -> ParamV
        decreases self,
    {
        match self {
            Param::Base(b) => ParamV::Base(b@),
            Param::Container(c) => ParamV::Container(c@),
        }
    }
}

impl View for Container {
    type V = ContainerV;

    open spec fn view(&self) -> ContainerV
        decreases self,
    {
        match self {
            Container::Array(a) => ContainerV::Array {
                element_sig: a.element_sig@,
                values: params_view(a.values@),
            },
            Container::Struct(ps) => ContainerV::Struct(params_view(ps@)),
            Container::Dict(d) => ContainerV::Dict {
                key_sig: d.key_sig,
                value_sig: d.value_sig@,
                map: entries_view(d.map@),
            },
            Container::Variant(p) => ContainerV::Variant(Box::new((**p)@)),
        }
    }
}

/// The models of a sequence of values, elementwise.
pub open spec fn params_view(s: Seq<Param>) -> Seq<ParamV>
    decreases s,
{
    if s.len() == 0 {
        Seq::empty()
    } else {
        seq![s[0]@] + params_view(s.subrange(1, s.len() as int))
    }
}

/// The models of a sequence of dict entries, elementwise.
pub open spec fn entries_view(s: Seq<(Base, Param)>) -> Seq<(BaseV, ParamV)>
    decreases s,
{
    if s.len() == 0 {
        Seq::empty()
    } else {
        seq![(s[0].0@, s[0].1@)] + entries_view(s.subrange(1, s.len() as int))
    }
}

/// [`params_view`] maps the model over the elements.
pub proof fn lemma_params_view(s: Seq<Param>)
    ensures
        params_view(s).len() == s.len(),
        forall|i: int| 0 <= i < s.len() ==> #[trigger] params_view(s)[i] == s[i]@,
    decreases s.len(),
{
    if s.len() > 0 {
        let rest = s.subrange(1, s.len() as int);
        lemma_params_view(rest);
        assert(params_view(s) == seq![s[0]@] + params_view(rest));
        assert forall|i: int| 0 <= i < s.len() implies #[trigger] params_view(s)[i] == s[i]@ by {
            if i >= 1 {
                assert(params_view(s)[i] == params_view(rest)[i - 1]);
                assert(rest[i - 1] == s[i]);
            }
        }
    }
}

/// [`entries_view`] maps the model over the entries.
pub proof fn lemma_entries_view(s: Seq<(Base, Param)>)
    ensures
        entries_view(s).len() == s.len(),
        forall|i: int|
            0 <= i < s.len() ==> #[trigger] entries_view(s)[i] == (s[i].0@, s[i].1@),
    decreases s.len(),
{
    if s.len() > 0 {
        let rest = s.subrange(1, s.len() as int);
        lemma_entries_view(rest);
        assert(entries_view(s) == seq![(s[0].0@, s[0].1@)] + entries_view(rest));
        assert forall|i: int|
            0 <= i < s.len() implies #[trigger] entries_view(s)[i] == (s[i].0@, s[i].1@) by {
            if i >= 1 {
                assert(entries_view(s)[i] == entries_view(rest)[i - 1]);
                assert(rest[i - 1] == s[i]);
            }
        }
    }
}

/// The signature base kind of a base value.
pub open spec fn base_sig(b: BaseV) -> signature::Base {
    match b {
        BaseV::Byte(_) => signature::Base::Byte,
        BaseV::Int16(_) => signature::Base::Int16,
        BaseV::Uint16(_) => signature::Base::Uint16,
        BaseV::Int32(_) => signature::Base::Int32,
        BaseV::Uint32(_) => signature::Base::Uint32,
        BaseV::UnixFd(_) => signature::Base::UnixFd,
        BaseV::Int64(_) => signature::Base::Int64,
        BaseV::Uint64(_) => signature::Base::Uint64,
        BaseV::Double(_) => signature::Base::Double,
        BaseV::String(_) => signature::Base::String,
        BaseV::Signature(_) => signature::Base::Signature,
        BaseV::ObjectPath(_) => signature::Base::ObjectPath,
        BaseV::Boolean(_) => signature::Base::Boolean,
    }
}

/// The signature type of a value.
pub open spec fn param_sig(p: ParamV) -> signature::TypeV
    decreases p,
{
    match p {
        ParamV::Base(b) => signature::TypeV::Base(base_sig(b)),
        ParamV::Container(c) => signature::TypeV::Container(container_sig(c)),
    }
}

/// The signature type of a container value.
pub open spec fn container_sig(c: ContainerV) -> signature::ContainerV
    decreases c,
{
    match c {
        ContainerV::Array { element_sig, values } => signature::ContainerV::Array(
            Box::new(element_sig),
        ),
        ContainerV::Struct(ps) => signature::ContainerV::Struct(params_sigs(ps)),
        ContainerV::Dict { key_sig, value_sig, map } => signature::ContainerV::Dict(
            key_sig,
            Box::new(value_sig),
        ),
        ContainerV::Variant(_) => signature::ContainerV::Variant,
    }
}

/// The signature types of a sequence of values, elementwise.
pub open spec fn params_sigs(ps: Seq<ParamV>) -> Seq<signature::TypeV>
    decreases ps,
{
    if ps.len() == 0 {
        Seq::empty()
    } else {
        seq![param_sig(ps[0])] + params_sigs(ps.subrange(1, ps.len() as int))
    }
}

/// [`params_sigs`] maps the signature over the elements.
pub proof fn lemma_params_sigs(ps: Seq<ParamV>)
    ensures
        params_sigs(ps).len() == ps.len(),
        forall|i: int| 0 <= i < ps.len() ==> #[trigger] params_sigs(ps)[i] == param_sig(ps[i]),
    decreases ps.len(),
{
    if ps.len() > 0 {
        let rest = ps.subrange(1, ps.len() as int);
        lemma_params_sigs(rest);
        assert forall|i: int|
            0 <= i < ps.len() implies #[trigger] params_sigs(ps)[i] == param_sig(ps[i]) by {
            if i >= 1 {
                assert(params_sigs(ps)[i] == params_sigs(rest)[i - 1]);
                assert(rest[i - 1] == ps[i]);
            }
        }
    }
}

impl Base {
    /// The signature base kind of this value.
    pub fn sig(&self) -> (r: signature::Base)
        ensures
            r == base_sig(self@),
    {
        match self {
            Base::Byte(_) => signature::Base::Byte,
            Base::Int16(_) => signature::Base::Int16,
            Base::Uint16(_) => signature::Base::Uint16,
            Base::Int32(_) => signature::Base::Int32,
            Base::Uint32(_) => signature::Base::Uint32,
            Base::UnixFd(_) => signature::Base::UnixFd,
            Base::Int64(_) => signature::Base::Int64,
            Base::Uint64(_) => signature::Base::Uint64,
            Base::Double(_) => signature::Base::Double,
            Base::String(_) => signature::Base::String,
            Base::Signature(_) => signature::Base::Signature,
            Base::ObjectPath(_) => signature::Base::ObjectPath,
            Base::Boolean(_) => signature::Base::Boolean,
        }
    }
}

impl Base {
    /// Whether two base values are the same, at the level of their
    /// models.
    pub fn base_eq(&self, other: &Base) -> (r: bool)
        ensures
            r == (self@ == other@),
    {
        match (self, other) {
            (Base::Byte(a), Base::Byte(b)) => *a == *b,
            (Base::Int16(a), Base::Int16(b)) => *a == *b,
            (Base::Uint16(a), Base::Uint16(b)) => *a == *b,
            (Base::Int32(a), Base::Int32(b)) => *a == *b,
            (Base::Uint32(a), Base::Uint32(b)) => *a == *b,
            (Base::UnixFd(a), Base::UnixFd(b)) => *a == *b,
            (Base::Int64(a), Base::Int64(b)) => *a == *b,
            (Base::Uint64(a), Base::Uint64(b)) => *a == *b,
            (Base::Double(a), Base::Double(b)) => *a == *b,
            (Base::String(a), Base::String(b)) => *a == *b,
            (Base::Signature(a), Base::Signature(b)) => *a == *b,
            (Base::ObjectPath(a), Base::ObjectPath(b)) => *a == *b,
            (Base::Boolean(a), Base::Boolean(b)) => *a == *b,
            _ => false,
        }
    }
}

/// No two entries share a key.
pub open spec fn dict_keys_unique(map: Seq<(BaseV, ParamV)>) -> bool {
    forall|i: int, j: int|
        0 <= i < j < map.len() ==> (#[trigger] map[i]).0 != (#[trigger] map[j]).0
}

/// The signature types of the values in `v`.
fn params_sig_vec(v: &Vec<Param>) -> (r: Vec<signature::Type>)
    ensures
        signature::types_view(r@) == params_sigs(params_view(v@)),
    decreases v@,
{
    let mut out: Vec<signature::Type> = Vec::new();
    let mut i: usize = 0;
    while i < v.len()
        invariant
            i <= v@.len(),
            out@.len() == i,
            forall|j: int| 0 <= j < i ==> #[trigger] out@[j]@ == param_sig(v@[j]@),
        decreases v@.len() - i,
    {
        proof {
            assert(decreases_to!(v@ => v@[i as int]));
        }
        out.push(v[i].sig());
        i = i + 1;
    }
    proof {
        crate::signature::lemma_types_view(out@);
        lemma_params_view(v@);
        lemma_params_sigs(params_view(v@));
        assert(signature::types_view(out@) =~= params_sigs(params_view(v@)));
    }
    out
}

impl Param {
    /// The signature type of this value.
    pub fn sig(&self) -> (r: signature::Type)
        ensures
            r@ == param_sig(self@),
        decreases self,
    {
        match self {
            Param::Base(b) => signature::Type::Base(b.sig()),
            Param::Container(c) => signature::Type::Container(c.sig()),
        }
    }
}

impl Container {
    /// The signature type of this container value.
    pub fn sig(&self) -> (r: signature::Container)
        ensures
            r@ == container_sig(self@),
        decreases self,
    {
        match self {
            Container::Array(a) => signature::Container::Array(Box::new(a.element_sig.clone())),
            Container::Dict(d) => signature::Container::Dict(
                d.key_sig,
                Box::new(d.value_sig.clone()),
            ),
            Container::Struct(ps) => {
                let sigs = params_sig_vec(ps);
                signature::Container::Struct(signature::StructTypes(sigs))
            },
            Container::Variant(_) => signature::Container::Variant,
        }
    }
}

/// A value that is well formed for a lossless round trip: struct values
/// are non-empty, and the value inside a variant has a well-formed,
/// within-limits signature of at most 255 characters, as the wire
/// demands.
pub open spec fn param_wf(p: ParamV) -> bool
    decreases p,
{
    match p {
        ParamV::Base(_) => true,
        ParamV::Container(c) => container_wf(c),
    }
}

/// [`param_wf`], for container values.
pub open spec fn container_wf(c: ContainerV) -> bool
    decreases c,
{
    match c {
        ContainerV::Array { element_sig, values } => params_wf(values),
        ContainerV::Struct(ps) => ps.len() > 0 && params_wf(ps),
        ContainerV::Dict { key_sig, value_sig, map } => entries_wf(map),
        ContainerV::Variant(inner) => param_wf(*inner) && signature::wf_type(param_sig(*inner)),
    }
}

/// Every value in `ps` is well formed.
pub open spec fn params_wf(ps: Seq<ParamV>) -> bool
    decreases ps,
{
    if ps.len() == 0 {
        true
    } else {
        param_wf(ps[0]) && params_wf(ps.subrange(1, ps.len() as int))
    }
}

/// Every entry value in `map` is well formed.
pub open spec fn entries_wf(map: Seq<(BaseV, ParamV)>) -> bool
    decreases map,
{
    if map.len() == 0 {
        true
    } else {
        param_wf(map[0].1) && entries_wf(map.subrange(1, map.len() as int))
    }
}

/// No byte of the text is zero.
pub open spec fn no_null_bytes(bytes: Seq<u8>) -> bool {
    forall|i: int| 0 <= i < bytes.len() ==> bytes[i] != 0
}

/// Strings on the wire may not contain an interior NUL.
pub fn validate_string(s: &str) -> (r: Result<(), MarshalError>)
    ensures
        match r {
            Ok(_) => no_null_bytes(s.spec_bytes()),
            Err(e) => e == MarshalError::StringContainsNullByte && !no_null_bytes(s.spec_bytes()),
        },
{
    let bytes = s.as_bytes();
    let mut i: usize = 0;
    while i < bytes.len()
        invariant
            i <= bytes@.len(),
            bytes@ == s.spec_bytes(),
            forall|j: int| 0 <= j < i ==> bytes@[j] != 0,
        decreases bytes@.len() - i,
    {
        if bytes[i] == 0 {
            return Err(MarshalError::StringContainsNullByte);
        }
        i = i + 1;
    }
    Ok(())
}

/// A byte allowed inside an object-path segment: a letter, a digit or an
/// underscore.
pub open spec fn path_segment_byte(c: u8) -> bool {
    (65 <= c <= 90) || (97 <= c <= 122) || (48 <= c <= 57) || c == 95
}

/// A valid object path: it begins with `/`, its segments are non-empty
/// runs of letters, digits and underscores separated by single slashes,
/// and only the root path ends in `/`.
pub open spec fn valid_object_path(bytes: Seq<u8>) -> bool {
    &&& bytes.len() > 0
    &&& bytes[0] == 47
    &&& (bytes.len() > 1 ==> bytes[bytes.len() - 1] != 47)
    &&& forall|i: int| 0 <= i < bytes.len() ==> path_segment_byte(#[trigger] bytes[i]) || bytes[i]
        == 47
    &&& forall|i: int| 0 <= i < bytes.len() - 1 ==> !(#[trigger] bytes[i] == 47 && bytes[i + 1]
        == 47)
}

/// Object paths must follow the path grammar.
pub fn validate_object_path(s: &str) -> (r: Result<(), MarshalError>)
    ensures
        match r {
            Ok(_) => valid_object_path(s.spec_bytes()),
            Err(e) => e == MarshalError::InvalidObjectPath && !valid_object_path(s.spec_bytes()),
        },
{
    let bytes = s.as_bytes();
    let n = bytes.len();
    if n == 0 {
        return Err(MarshalError::InvalidObjectPath);
    }
    if bytes[0] != 47 {
        return Err(MarshalError::InvalidObjectPath);
    }
    if n > 1 && bytes[n - 1] == 47 {
        return Err(MarshalError::InvalidObjectPath);
    }
    let mut i: usize = 0;
    while i < n
        invariant
            i <= n,
            n == bytes@.len(),
            bytes@ == s.spec_bytes(),
            forall|j: int|
                0 <= j < i ==> path_segment_byte(#[trigger] bytes@[j]) || bytes@[j] == 47,
            forall|j: int| 0 <= j < i - 1 ==> !(#[trigger] bytes@[j] == 47 && bytes@[j + 1] == 47),
        decreases n - i,
    {
        let c = bytes[i];
        let seg = (65 <= c && c <= 90) || (97 <= c && c <= 122) || (48 <= c && c <= 57) || c == 95;
        if !seg && c != 47 {
            return Err(MarshalError::InvalidObjectPath);
        }
        if i > 0 && c == 47 && bytes[i - 1] == 47 {
            return Err(MarshalError::InvalidObjectPath);
        }
        i = i + 1;
    }
    Ok(())
}

/// Signature values must themselves parse as signatures.
pub fn validate_signature(s: &str) -> (r: Result<(), signature::Error>)
    ensures
        match r {
            Ok(_) => signature::spec_parse_description(s@) is Ok,
            Err(e) => signature::spec_parse_description(s@) == Err::<
                Seq<signature::TypeV>,
                _,
            >(e),
        },
{
    match signature::Type::parse_description(s) {
        Ok(_) => Ok(()),
        Err(e) => Err(e),
    }
}

/// Every element of the array has exactly the array's element type.
pub open spec fn array_valid(element_sig: signature::TypeV, values: Seq<ParamV>) -> bool {
    forall|i: int| 0 <= i < values.len() ==> param_sig(#[trigger] values[i]) == element_sig
}

/// Every entry's key has the dict's key kind and every entry's value has
/// the dict's value type.
pub open spec fn dict_valid(
    key_sig: signature::Base,
    value_sig: signature::TypeV,
    map: Seq<(BaseV, ParamV)>,
) -> bool {
    &&& forall|i: int| 0 <= i < map.len() ==> base_sig((#[trigger] map[i]).0) == key_sig
    &&& forall|i: int| 0 <= i < map.len() ==> param_sig((#[trigger] map[i]).1) == value_sig
}

/// Arrays must be homogeneous: every element has the declared element
/// type.
pub fn validate_array(arr: &Array) -> (r: Result<(), MarshalError>)
    ensures
        match r {
            Ok(_) => array_valid(arr.element_sig@, params_view(arr.values@)),
            Err(e) => e == MarshalError::ArrayElementTypeMismatch && !array_valid(
                arr.element_sig@,
                params_view(arr.values@),
            ),
        },
{
    proof {
        lemma_params_view(arr.values@);
    }
    let mut i: usize = 0;
    while i < arr.values.len()
        invariant
            i <= arr.values@.len(),
            params_view(arr.values@).len() == arr.values@.len(),
            forall|j: int|
                0 <= j < arr.values@.len() ==> #[trigger] params_view(arr.values@)[j]
                    == arr.values@[j]@,
            forall|j: int|
                0 <= j < i ==> param_sig(#[trigger] params_view(arr.values@)[j])
                    == arr.element_sig@,
        decreases arr.values@.len() - i,
    {
        let s = arr.values[i].sig();
        if !s.sig_eq(&arr.element_sig) {
            proof {
                assert(param_sig(params_view(arr.values@)[i as int]) != arr.element_sig@);
            }
            return Err(MarshalError::ArrayElementTypeMismatch);
        }
        i = i + 1;
    }
    Ok(())
}

/// Dicts must be homogeneous: keys first, then values.
pub fn validate_dict(dict: &Dict) -> (r: Result<(), MarshalError>)
    ensures
        match r {
            Ok(_) => dict_valid(dict.key_sig, dict.value_sig@, entries_view(dict.map@))
                && dict_keys_unique(entries_view(dict.map@)),
            Err(e) => {
                ||| (e == MarshalError::DictKeyTypeMismatch && exists|i: int|
                    0 <= i < entries_view(dict.map@).len() && base_sig(
                        (#[trigger] entries_view(dict.map@)[i]).0,
                    ) != dict.key_sig)
                ||| (e == MarshalError::DictValueTypeMismatch && (forall|i: int|
                    0 <= i < entries_view(dict.map@).len() ==> base_sig(
                        (#[trigger] entries_view(dict.map@)[i]).0,
                    ) == dict.key_sig) && exists|i: int|
                    0 <= i < entries_view(dict.map@).len() && param_sig(
                        (#[trigger] entries_view(dict.map@)[i]).1,
                    ) != dict.value_sig@)
                ||| (e == MarshalError::DictDuplicateKey && dict_valid(
                    dict.key_sig,
                    dict.value_sig@,
                    entries_view(dict.map@),
                ) && !dict_keys_unique(entries_view(dict.map@)))
            },
        },
{
    proof {
        lemma_entries_view(dict.map@);
    }
    let mut i: usize = 0;
    while i < dict.map.len()
        invariant
            i <= dict.map@.len(),
            entries_view(dict.map@).len() == dict.map@.len(),
            forall|j: int|
                0 <= j < dict.map@.len() ==> #[trigger] entries_view(dict.map@)[j] == (
                dict.map@[j].0@,
                dict.map@[j].1@,
                ),
            forall|j: int|
                0 <= j < i ==> base_sig((#[trigger] entries_view(dict.map@)[j]).0)
                    == dict.key_sig,
        decreases dict.map@.len() - i,
    {
        let k = dict.map[i].0.sig();
        if !(k == dict.key_sig) {
            proof {
                assert(base_sig(entries_view(dict.map@)[i as int].0) != dict.key_sig);
            }
            return Err(MarshalError::DictKeyTypeMismatch);
        }
        i = i + 1;
    }
    let mut i: usize = 0;
    while i < dict.map.len()
        invariant
            i <= dict.map@.len(),
            entries_view(dict.map@).len() == dict.map@.len(),
            forall|j: int|
                0 <= j < dict.map@.len() ==> #[trigger] entries_view(dict.map@)[j] == (
                dict.map@[j].0@,
                dict.map@[j].1@,
                ),
            forall|j: int|
                0 <= j < dict.map@.len() ==> base_sig((#[trigger] entries_view(dict.map@)[j]).0)
                    == dict.key_sig,
            forall|j: int|
                0 <= j < i ==> param_sig((#[trigger] entries_view(dict.map@)[j]).1)
                    == dict.value_sig@,
        decreases dict.map@.len() - i,
    {
        let s = dict.map[i].1.sig();
        if !s.sig_eq(&dict.value_sig) {
            proof {
                assert(param_sig(entries_view(dict.map@)[i as int].1) != dict.value_sig@);
            }
            return Err(MarshalError::DictValueTypeMismatch);
        }
        i = i + 1;
    }
    let mut i: usize = 0;
    while i < dict.map.len()
        invariant
            i <= dict.map@.len(),
            entries_view(dict.map@).len() == dict.map@.len(),
            forall|j: int|
                0 <= j < dict.map@.len() ==> #[trigger] entries_view(dict.map@)[j] == (
                dict.map@[j].0@,
                dict.map@[j].1@,
                ),
            dict_valid(dict.key_sig, dict.value_sig@, entries_view(dict.map@)),
            forall|a: int, b: int|
                0 <= a < i && a < b < dict.map@.len() ==> (#[trigger] entries_view(dict.map@)[a]).0
                    != (#[trigger] entries_view(dict.map@)[b]).0,
        decreases dict.map@.len() - i,
    {
        let mut j: usize = i + 1;
        while j < dict.map.len()
            invariant
                i < j <= dict.map@.len() || (i + 1 == j && j > dict.map@.len()),
                i < dict.map@.len(),
                entries_view(dict.map@).len() == dict.map@.len(),
                forall|k: int|
                    0 <= k < dict.map@.len() ==> #[trigger] entries_view(dict.map@)[k] == (
                    dict.map@[k].0@,
                    dict.map@[k].1@,
                    ),
                dict_valid(dict.key_sig, dict.value_sig@, entries_view(dict.map@)),
                forall|b: int|
                    i < b < j ==> (#[trigger] entries_view(dict.map@)[b]).0 != entries_view(
                        dict.map@,
                    )[i as int].0,
            decreases dict.map@.len() - j,
        {
            if dict.map[i].0.base_eq(&dict.map[j].0) {
                proof {
                    assert(entries_view(dict.map@)[i as int].0 == entries_view(
                        dict.map@,
                    )[j as int].0);
                }
                return Err(MarshalError::DictDuplicateKey);
            }
            j = j + 1;
        }
        i = i + 1;
    }
    Ok(())
}

} // verus!
