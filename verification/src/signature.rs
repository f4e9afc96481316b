//! The type-description language that accompanies every value on the wire:
//! an AST for it, a validating parser, and the inverse rendering back to text.

use vstd::prelude::*;

verus! {

/// Base types that might occur in a signature.
#[derive(Copy, Clone, Debug, Eq, PartialEq, Structural)]
pub enum Base {
    Byte,
    Int16,
    Uint16,
    Int32,
    Uint32,
    UnixFd,
    Int64,
    Uint64,
    Double,
    String,
    Signature,
    ObjectPath,
    Boolean,
}

/// The types a struct contains. Meant to hold at least one type (empty
/// structs are not allowed on the wire); [`StructTypes::new`] enforces that.
#[derive(Debug, Eq, PartialEq)]
pub struct StructTypes(pub Vec<Type>);

/// Containers for other types.
#[derive(Debug, Eq, PartialEq)]
pub enum Container {
    Array(Box<Type>),
    Struct(StructTypes),
    Dict(Base, Box<Type>),
    Variant,
}

/// Either a base type or a container.
#[derive(Debug, Eq, PartialEq)]
pub enum Type {
    Base(Base),
    Container(Container),
}

/// The ways a signature can be rejected.
#[derive(Copy, Clone, Debug, Eq, PartialEq, Structural)]
pub enum Error {
    TooManyTypes,
    ShouldBeBaseType,
    InvalidSignature,
    SignatureTooLong,
    NestingTooDeep,
    EmptySignature,
    EmptyStruct,
}

/// Mathematical model of a [`Type`].
pub ghost enum TypeV {
    Base(Base),
    Container(ContainerV),
}

/// Mathematical model of a [`Container`].
pub ghost enum ContainerV {
    Array(Box<TypeV>),
    Struct(Seq<TypeV>),
    Dict(Base, Box<TypeV>),
    Variant,
}

impl View for Type {
    type V = TypeV;

    open spec fn view(&self) -> TypeV
        decreases self,
    {
        match self {
            Type::Base(b) => TypeV::Base(*b),
            Type::Container(c) => TypeV::Container(c@),
        }
    }
}

impl View for Container {
    type V = ContainerV;

    open spec fn view(&self) -> ContainerV
        decreases self,
    {
        match self {
            Container::Array(el) => ContainerV::Array(Box::new((**el)@)),
            Container::Struct(st) => ContainerV::Struct(types_view(st.0@)),
            Container::Dict(k, v) => ContainerV::Dict(*k, Box::new((**v)@)),
            Container::Variant => ContainerV::Variant,
        }
    }
}

impl View for StructTypes {
    type V = Seq<TypeV>;

    open spec fn view(&self) -> Seq<TypeV> {
        types_view(self.0@)
    }
}

/// The models of a sequence of types, elementwise.
pub open spec fn types_view(s: Seq<Type>) -> Seq<TypeV>
    decreases s,
{
    if s.len() == 0 {
        Seq::empty()
    } else {
        seq![s[0]@] + types_view(s.subrange(1, s.len() as int))
    }
}

/// [`types_view`] maps the model over the elements.
pub proof fn lemma_types_view(s: Seq<Type>)
    ensures
        types_view(s).len() == s.len(),
        forall|i: int| 0 <= i < s.len() ==> #[trigger] types_view(s)[i] == s[i]@,
    decreases s.len(),
{
    if s.len() > 0 {
        let rest = s.subrange(1, s.len() as int);
        lemma_types_view(rest);
        assert(types_view(s) == seq![s[0]@] + types_view(rest));
        assert forall|i: int| 0 <= i < s.len() implies #[trigger] types_view(s)[i] == s[i]@ by {
            if i >= 1 {
                assert(types_view(s)[i] == types_view(rest)[i - 1]);
                assert(rest[i - 1] == s[i]);
            }
        }
    }
}

/// The one-character tag of a base type.
pub open spec fn base_char(b: Base) -> char {
    match b {
        Base::Byte => 'y',
        Base::Int16 => 'n',
        Base::Uint16 => 'q',
        Base::Int32 => 'i',
        Base::Uint32 => 'u',
        Base::UnixFd => 'h',
        Base::Int64 => 'x',
        Base::Uint64 => 't',
        Base::Double => 'd',
        Base::String => 's',
        Base::Signature => 'g',
        Base::ObjectPath => 'o',
        Base::Boolean => 'b',
    }
}

/// The signature text of a type.
pub open spec fn type_chars(t: TypeV) -> Seq<char>
    decreases t,
{
    match t {
        TypeV::Base(b) => seq![base_char(b)],
        TypeV::Container(c) => container_chars(c),
    }
}

/// The signature text of a container type.
pub open spec fn container_chars(c: ContainerV) -> Seq<char>
    decreases c,
{
    match c {
        ContainerV::Array(el) => seq!['a'] + type_chars(*el),
        ContainerV::Dict(k, v) => seq!['a', '{', base_char(k)] + type_chars(*v) + seq!['}'],
        ContainerV::Struct(ts) => seq!['('] + types_chars(ts) + seq![')'],
        ContainerV::Variant => seq!['v'],
    }
}

/// The signature text of a sequence of types, concatenated in order.
pub open spec fn types_chars(ts: Seq<TypeV>) -> Seq<char>
    decreases ts,
{
    if ts.len() == 0 {
        Seq::empty()
    } else {
        type_chars(ts[0]) + types_chars(ts.subrange(1, ts.len() as int))
    }
}

/// Rendering a sequence of types and then one more renders the
/// concatenation.
pub proof fn lemma_types_chars_push(ts: Seq<TypeV>, t: TypeV)
    ensures
        types_chars(ts.push(t)) == types_chars(ts) + type_chars(t),
    decreases ts,
{
    let p = ts.push(t);
    assert(p.len() == ts.len() + 1);
    if ts.len() == 0 {
        assert(p[0] == t);
        assert(p.subrange(1, p.len() as int) =~= Seq::<TypeV>::empty());
        assert(types_chars(p) == type_chars(t) + types_chars(Seq::<TypeV>::empty()));
        assert(types_chars(ts.push(t)) =~= types_chars(ts) + type_chars(t));
    } else {
        assert(p[0] == ts[0]);
        let sub = ts.subrange(1, ts.len() as int);
        assert(p.subrange(1, p.len() as int) =~= sub.push(t));
        lemma_types_chars_push(sub, t);
        assert(types_chars(p) == type_chars(p[0]) + types_chars(p.subrange(1, p.len() as int)));
        assert(types_chars(ts) == type_chars(ts[0]) + types_chars(sub));
        assert(types_chars(ts.push(t)) =~= types_chars(ts) + type_chars(t));
    }
}

/// One lexed signature character.
#[derive(Copy, Clone, Debug, Eq, PartialEq, Structural)]
pub(crate) enum Token {
    Structstart,
    Structend,
    Array,
    Boolean,
    Byte,
    Int16,
    Uint16,
    Int32,
    Uint32,
    UnixFd,
    Int64,
    Uint64,
    Double,
    String,
    ObjectPath,
    Signature,
    DictEntryStart,
    DictEntryEnd,
    Variant,
}

/// The token a character lexes to, if any.
pub(crate) open spec fn char_token(c: char) -> Option<Token> {
    if c == '(' {
        Some(Token::Structstart)
    } else if c == ')' {
        Some(Token::Structend)
    } else if c == 'a' {
        Some(Token::Array)
    } else if c == '{' {
        Some(Token::DictEntryStart)
    } else if c == '}' {
        Some(Token::DictEntryEnd)
    } else if c == 'v' {
        Some(Token::Variant)
    } else {
        match tag_base(c) {
            Some(b) => Some(base_token(b)),
            None => None,
        }
    }
}

/// The token of a base type's tag.
pub(crate) open spec fn base_token(b: Base) -> Token {
    match b {
        Base::Byte => Token::Byte,
        Base::Int16 => Token::Int16,
        Base::Uint16 => Token::Uint16,
        Base::Int32 => Token::Int32,
        Base::Uint32 => Token::Uint32,
        Base::UnixFd => Token::UnixFd,
        Base::Int64 => Token::Int64,
        Base::Uint64 => Token::Uint64,
        Base::Double => Token::Double,
        Base::String => Token::String,
        Base::Signature => Token::Signature,
        Base::ObjectPath => Token::ObjectPath,
        Base::Boolean => Token::Boolean,
    }
}

/// Lex one character; unknown characters make the signature invalid.
pub(crate) fn char_to_token(c: char) -> (r: Result<Token, Error>)
    ensures
        match r {
            Ok(tok) => char_token(c) == Some(tok),
            Err(e) => char_token(c) is None && e == Error::InvalidSignature,
        },
{
    let t = match c {
        '(' => Token::Structstart,
        ')' => Token::Structend,
        'a' => Token::Array,
        'b' => Token::Boolean,
        'y' => Token::Byte,
        'n' => Token::Int16,
        'q' => Token::Uint16,
        'i' => Token::Int32,
        'u' => Token::Uint32,
        'h' => Token::UnixFd,
        'x' => Token::Int64,
        't' => Token::Uint64,
        'd' => Token::Double,
        's' => Token::String,
        'o' => Token::ObjectPath,
        'g' => Token::Signature,
        '{' => Token::DictEntryStart,
        '}' => Token::DictEntryEnd,
        'v' => Token::Variant,
        _ => {
            return Err(Error::InvalidSignature);
        },
    };
    Ok(t)
}

/// The base type a token stands for, if any.
pub(crate) open spec fn token_base(tok: Token) -> Option<Base> {
    match tok {
        Token::Byte => Some(Base::Byte),
        Token::Int16 => Some(Base::Int16),
        Token::Uint16 => Some(Base::Uint16),
        Token::Int32 => Some(Base::Int32),
        Token::Uint32 => Some(Base::Uint32),
        Token::UnixFd => Some(Base::UnixFd),
        Token::Int64 => Some(Base::Int64),
        Token::Uint64 => Some(Base::Uint64),
        Token::Double => Some(Base::Double),
        Token::String => Some(Base::String),
        Token::Signature => Some(Base::Signature),
        Token::ObjectPath => Some(Base::ObjectPath),
        Token::Boolean => Some(Base::Boolean),
        _ => None,
    }
}

/// Lexing and the base-tag table agree.
pub(crate) proof fn lemma_char_token_base(c: char)
    ensures
        match char_token(c) {
            Some(tok) => token_base(tok) == tag_base(c),
            None => tag_base(c) is None,
        },
{
}

/// The characters of `s`, one by one.
fn str_chars(s: &str) -> (r: Vec<char>)
    ensures
        r@ == s@,
{
    let n = s.unicode_len();
    let mut out: Vec<char> = Vec::new();
    let mut i: usize = 0;
    while i < n
        invariant
            i <= n,
            n == s@.len(),
            out@ == s@.subrange(0, i as int),
        decreases n - i,
    {
        out.push(s.get_char(i));
        i = i + 1;
        proof {
            assert(out@ =~= s@.subrange(0, i as int));
        }
    }
    proof {
        assert(out@ =~= s@);
    }
    out
}

/// The remainder of `s` from position `i` on.
pub open spec fn suffix(s: Seq<char>, i: int) -> Seq<char> {
    s.subrange(i, s.len() as int)
}

/// Stepping a suffix by one drops its first character.
proof fn lemma_suffix_step(s: Seq<char>, i: int)
    requires
        0 <= i < s.len(),
    ensures
        suffix(s, i).len() == s.len() - i,
        suffix(s, i)[0] == s[i],
        suffix(s, i).subrange(1, s.len() - i) == suffix(s, i + 1),
{
    assert(suffix(s, i).subrange(1, s.len() - i) =~= suffix(s, i + 1));
}

/// Parse one complete type starting at `*pos`; `*pos` is left after the
/// consumed characters on success.
fn parse_one(chars: &Vec<char>, pos: &mut usize) -> (r: Result<Type, Error>)
    requires
        *old(pos) <= chars@.len(),
    ensures
        match r {
            Ok(t) => {
                &&& spec_parse_one(suffix(chars@, *old(pos) as int)) matches Ok(p)
                &&& p == (t@, suffix(chars@, *final(pos) as int))
                &&& *old(pos) < *final(pos) <= chars@.len()
            },
            Err(e) => spec_parse_one(suffix(chars@, *old(pos) as int)) == Err::<
                (TypeV, Seq<char>),
                _,
            >(e),
        },
    decreases chars@.len() - *old(pos), 0int,
{
    let ghost s0 = suffix(chars@, *old(pos) as int);
    if *pos >= chars.len() {
        return Err(Error::InvalidSignature);
    }
    proof {
        lemma_suffix_step(chars@, *pos as int);
    }
    let c = chars[*pos];
    let tok = match char_to_token(c) {
        Ok(tok) => tok,
        Err(e) => {
            proof {
                lemma_char_token_base(c);
            }
            return Err(e);
        },
    };
    proof {
        lemma_char_token_base(c);
    }
    match tok {
        Token::Structstart => {
            *pos = *pos + 1;
            let fields = match parse_fields(chars, pos) {
                Ok(fields) => fields,
                Err(e) => {
                    return Err(e);
                },
            };
            proof {
                lemma_types_view(fields@);
            }
            match StructTypes::new(fields) {
                Ok(st) => Ok(Type::Container(Container::Struct(st))),
                Err(e) => Err(e),
            }
        },
        Token::Array => {
            *pos = *pos + 1;
            if *pos < chars.len() && chars[*pos] == '{' {
                proof {
                    lemma_suffix_step(chars@, *pos as int);
                }
                *pos = *pos + 1;
                if *pos >= chars.len() {
                    return Err(Error::InvalidSignature);
                }
                proof {
                    lemma_suffix_step(chars@, *pos as int);
                }
                let kc = chars[*pos];
                let ktok = match char_to_token(kc) {
                    Ok(ktok) => ktok,
                    Err(_) => {
                        proof {
                            lemma_char_token_base(kc);
                        }
                        return Err(Error::InvalidSignature);
                    },
                };
                proof {
                    lemma_char_token_base(kc);
                }
                let key = match token_to_base(ktok) {
                    Some(b) => b,
                    None => {
                        return Err(Error::InvalidSignature);
                    },
                };
                *pos = *pos + 1;
                let val = match parse_one(chars, pos) {
                    Ok(val) => val,
                    Err(e) => {
                        return Err(e);
                    },
                };
                if *pos < chars.len() && chars[*pos] == '}' {
                    proof {
                        lemma_suffix_step(chars@, *pos as int);
                    }
                    *pos = *pos + 1;
                    Ok(Type::Container(Container::Dict(key, Box::new(val))))
                } else {
                    proof {
                        if *pos < chars.len() {
                            lemma_suffix_step(chars@, *pos as int);
                        }
                    }
                    Err(Error::InvalidSignature)
                }
            } else {
                proof {
                    if *pos < chars.len() {
                        lemma_suffix_step(chars@, *pos as int);
                    }
                }
                match parse_one(chars, pos) {
                    Ok(el) => Ok(Type::Container(Container::Array(Box::new(el)))),
                    Err(e) => Err(e),
                }
            }
        },
        Token::Variant => {
            *pos = *pos + 1;
            Ok(Type::Container(Container::Variant))
        },
        _ => {
            match token_to_base(tok) {
                Some(b) => {
                    *pos = *pos + 1;
                    Ok(Type::Base(b))
                },
                None => Err(Error::InvalidSignature),
            }
        },
    }
}

/// The base type a token stands for, if any.
fn token_to_base(tok: Token) -> (r: Option<Base>)
    ensures
        r == token_base(tok),
{
    match tok {
        Token::Byte => Some(Base::Byte),
        Token::Int16 => Some(Base::Int16),
        Token::Uint16 => Some(Base::Uint16),
        Token::Int32 => Some(Base::Int32),
        Token::Uint32 => Some(Base::Uint32),
        Token::UnixFd => Some(Base::UnixFd),
        Token::Int64 => Some(Base::Int64),
        Token::Uint64 => Some(Base::Uint64),
        Token::Double => Some(Base::Double),
        Token::String => Some(Base::String),
        Token::Signature => Some(Base::Signature),
        Token::ObjectPath => Some(Base::ObjectPath),
        Token::Boolean => Some(Base::Boolean),
        _ => None,
    }
}

/// Parse struct fields up to and including the closing parenthesis.
fn parse_fields(chars: &Vec<char>, pos: &mut usize) -> (r: Result<Vec<Type>, Error>)
    requires
        *old(pos) <= chars@.len(),
    ensures
        match r {
            Ok(ts) => {
                &&& spec_parse_fields(suffix(chars@, *old(pos) as int)) matches Ok(p)
                &&& p == (types_view(ts@), suffix(chars@, *final(pos) as int))
                &&& *old(pos) < *final(pos) <= chars@.len()
            },
            Err(e) => spec_parse_fields(suffix(chars@, *old(pos) as int)) == Err::<
                (Seq<TypeV>, Seq<char>),
                _,
            >(e),
        },
    decreases chars@.len() - *old(pos), 1int,
{
    let ghost s0 = suffix(chars@, *old(pos) as int);
    if *pos >= chars.len() {
        return Err(Error::InvalidSignature);
    }
    proof {
        lemma_suffix_step(chars@, *pos as int);
    }
    if chars[*pos] == ')' {
        *pos = *pos + 1;
        let out: Vec<Type> = Vec::new();
        proof {
            assert(types_view(out@) =~= Seq::<TypeV>::empty());
        }
        return Ok(out);
    }
    let t = match parse_one(chars, pos) {
        Ok(t) => t,
        Err(e) => {
            return Err(e);
        },
    };
    let mut ts = match parse_fields(chars, pos) {
        Ok(ts) => ts,
        Err(e) => {
            return Err(e);
        },
    };
    let ghost ts0 = ts@;
    ts.insert(0, t);
    proof {
        assert(ts@.subrange(1, ts@.len() as int) =~= ts0);
        lemma_types_view(ts@);
        lemma_types_view(ts0);
        assert(types_view(ts@) =~= seq![t@] + types_view(ts0));
    }
    Ok(ts)
}

/// Parse types starting at `*pos` until the input is exhausted.
fn parse_types_all(chars: &Vec<char>, pos: &mut usize) -> (r: Result<Vec<Type>, Error>)
    requires
        *old(pos) <= chars@.len(),
    ensures
        match r {
            Ok(ts) => {
                &&& spec_parse_types(suffix(chars@, *old(pos) as int)) == Ok::<_, Error>(
                    types_view(ts@),
                )
                &&& *final(pos) == chars@.len()
            },
            Err(e) => spec_parse_types(suffix(chars@, *old(pos) as int)) == Err::<Seq<TypeV>, _>(
                e,
            ),
        },
    decreases chars@.len() - *old(pos), 2int,
{
    let ghost s0 = suffix(chars@, *old(pos) as int);
    if *pos >= chars.len() {
        let out: Vec<Type> = Vec::new();
        proof {
            assert(s0.len() == 0);
            assert(types_view(out@) =~= Seq::<TypeV>::empty());
        }
        return Ok(out);
    }
    let t = match parse_one(chars, pos) {
        Ok(t) => t,
        Err(e) => {
            return Err(e);
        },
    };
    let mut ts = match parse_types_all(chars, pos) {
        Ok(ts) => ts,
        Err(e) => {
            return Err(e);
        },
    };
    let ghost ts0 = ts@;
    ts.insert(0, t);
    proof {
        assert(ts@.subrange(1, ts@.len() as int) =~= ts0);
        lemma_types_view(ts@);
        lemma_types_view(ts0);
        assert(types_view(ts@) =~= seq![t@] + types_view(ts0));
    }
    Ok(ts)
}

impl StructTypes {
    /// Create a new StructTypes. Empty structs are not allowed on the wire,
    /// so an empty `types` is rejected.
    pub fn new(types: Vec<Type>) -> (r: Result<Self, Error>)
        ensures
            match r {
                Ok(st) => st@ == types_view(types@) && types@.len() > 0,
                Err(e) => e == Error::EmptyStruct && types@.len() == 0,
            },
    {
        if types.is_empty() {
            Err(Error::EmptyStruct)
        } else {
            Ok(Self(types))
        }
    }

    /// The contained field types, as a vector reference.
    pub fn as_ref(&self) -> (r: &Vec<Type>)
        ensures
            types_view(r@) == self@,
    {
        &self.0
    }
}

/// The base type a one-character tag stands for, if any.
pub open spec fn tag_base(c: char) -> Option<Base> {
    if c == 'y' {
        Some(Base::Byte)
    } else if c == 'n' {
        Some(Base::Int16)
    } else if c == 'q' {
        Some(Base::Uint16)
    } else if c == 'i' {
        Some(Base::Int32)
    } else if c == 'u' {
        Some(Base::Uint32)
    } else if c == 'h' {
        Some(Base::UnixFd)
    } else if c == 'x' {
        Some(Base::Int64)
    } else if c == 't' {
        Some(Base::Uint64)
    } else if c == 'd' {
        Some(Base::Double)
    } else if c == 's' {
        Some(Base::String)
    } else if c == 'o' {
        Some(Base::ObjectPath)
    } else if c == 'g' {
        Some(Base::Signature)
    } else if c == 'b' {
        Some(Base::Boolean)
    } else {
        None
    }
}

/// Parse one complete type from the front of `s`; on success return it with
/// the unconsumed remainder. A dict entry is only legal directly after `a`,
/// and is represented as a Dict container (the enclosing array is implicit).
pub open spec fn spec_parse_one(s: Seq<char>) -> Result<(TypeV, Seq<char>), Error>
    decreases s.len(), 0int,
{
    if s.len() == 0 {
        Err(Error::InvalidSignature)
    } else {
        let c = s[0];
        let rest = s.subrange(1, s.len() as int);
        if tag_base(c) is Some {
            Ok((TypeV::Base(tag_base(c)->Some_0), rest))
        } else if c == 'v' {
            Ok((TypeV::Container(ContainerV::Variant), rest))
        } else if c == 'a' {
            if rest.len() > 0 && rest[0] == '{' {
                let r2 = rest.subrange(1, rest.len() as int);
                if r2.len() > 0 && tag_base(r2[0]) is Some {
                    let k = tag_base(r2[0])->Some_0;
                    match spec_parse_one(r2.subrange(1, r2.len() as int)) {
                        Err(e) => Err(e),
                        Ok((v, r3)) => if r3.len() > 0 && r3[0] == '}' {
                            Ok(
                                (
                                    TypeV::Container(ContainerV::Dict(k, Box::new(v))),
                                    r3.subrange(1, r3.len() as int),
                                ),
                            )
                        } else {
                            Err(Error::InvalidSignature)
                        },
                    }
                } else {
                    Err(Error::InvalidSignature)
                }
            } else {
                match spec_parse_one(rest) {
                    Err(e) => Err(e),
                    Ok((el, r2)) => Ok((TypeV::Container(ContainerV::Array(Box::new(el))), r2)),
                }
            }
        } else if c == '(' {
            match spec_parse_fields(rest) {
                Err(e) => Err(e),
                Ok((ts, r2)) => if ts.len() == 0 {
                    Err(Error::EmptyStruct)
                } else {
                    Ok((TypeV::Container(ContainerV::Struct(ts)), r2))
                },
            }
        } else {
            Err(Error::InvalidSignature)
        }
    }
}

/// Parse the field types of a struct up to and including the closing
/// parenthesis; return them with the unconsumed remainder.
pub open spec fn spec_parse_fields(s: Seq<char>) -> Result<(Seq<TypeV>, Seq<char>), Error>
    decreases s.len(), 1int,
{
    if s.len() == 0 {
        Err(Error::InvalidSignature)
    } else if s[0] == ')' {
        Ok((Seq::empty(), s.subrange(1, s.len() as int)))
    } else {
        match spec_parse_one(s) {
            Err(e) => Err(e),
            Ok((t, r)) => if r.len() < s.len() {
                match spec_parse_fields(r) {
                    Err(e) => Err(e),
                    Ok((ts, r2)) => Ok((seq![t] + ts, r2)),
                }
            } else {
                Err(Error::InvalidSignature)
            },
        }
    }
}

/// Parse types from `s` until it is exhausted.
pub open spec fn spec_parse_types(s: Seq<char>) -> Result<Seq<TypeV>, Error>
    decreases s.len(), 2int,
{
    if s.len() == 0 {
        Ok(Seq::empty())
    } else {
        match spec_parse_one(s) {
            Err(e) => Err(e),
            Ok((t, r)) => if r.len() < s.len() {
                match spec_parse_types(r) {
                    Err(e) => Err(e),
                    Ok(ts) => Ok(seq![t] + ts),
                }
            } else {
                Err(Error::InvalidSignature)
            },
        }
    }
}

/// How many struct containers enclose the deepest point of `t`, counting
/// `t` itself.
pub open spec fn type_struct_depth(t: TypeV) -> nat
    decreases t,
{
    match t {
        TypeV::Base(_) => 0,
        TypeV::Container(c) => match c {
            ContainerV::Array(el) => type_struct_depth(*el),
            ContainerV::Dict(_, v) => type_struct_depth(*v),
            ContainerV::Struct(ts) => 1 + types_struct_depth(ts),
            ContainerV::Variant => 0,
        },
    }
}

/// The largest struct depth among `ts`.
pub open spec fn types_struct_depth(ts: Seq<TypeV>) -> nat
    decreases ts,
{
    if ts.len() == 0 {
        0
    } else {
        let h = type_struct_depth(ts[0]);
        let r = types_struct_depth(ts.subrange(1, ts.len() as int));
        if h >= r {
            h
        } else {
            r
        }
    }
}

/// How many array containers (a dict counts as one) enclose the deepest
/// point of `t`, counting `t` itself.
pub open spec fn type_array_depth(t: TypeV) -> nat
    decreases t,
{
    match t {
        TypeV::Base(_) => 0,
        TypeV::Container(c) => match c {
            ContainerV::Array(el) => 1 + type_array_depth(*el),
            ContainerV::Dict(_, v) => 1 + type_array_depth(*v),
            ContainerV::Struct(ts) => types_array_depth(ts),
            ContainerV::Variant => 0,
        },
    }
}

/// The largest array depth among `ts`.
pub open spec fn types_array_depth(ts: Seq<TypeV>) -> nat
    decreases ts,
{
    if ts.len() == 0 {
        0
    } else {
        let h = type_array_depth(ts[0]);
        let r = types_array_depth(ts.subrange(1, ts.len() as int));
        if h >= r {
            h
        } else {
            r
        }
    }
}

/// Struct and array nesting are each limited to this many levels.
pub open spec fn max_nesting_depth() -> nat {
    32
}

/// Both nesting depths of `t` are within the limit.
pub open spec fn type_depth_ok(t: TypeV) -> bool {
    type_struct_depth(t) <= max_nesting_depth() && type_array_depth(t) <= max_nesting_depth()
}

/// Both nesting depths of every type in `ts` are within the limit.
pub open spec fn types_depth_ok(ts: Seq<TypeV>) -> bool {
    types_struct_depth(ts) <= max_nesting_depth() && types_array_depth(ts) <= max_nesting_depth()
}

/// Variants are opaque to both nesting measures: wrapping a value in any
/// number of variants adds nothing to struct or array depth, so variants
/// may nest without limit.
pub proof fn lemma_variant_nesting_free()
    ensures
        type_struct_depth(TypeV::Container(ContainerV::Variant)) == 0,
        type_array_depth(TypeV::Container(ContainerV::Variant)) == 0,
        type_depth_ok(TypeV::Container(ContainerV::Variant)),
        wf_type(TypeV::Container(ContainerV::Variant)),
{
}

/// Structurally well formed: every struct in `t` has at least one field.
pub open spec fn wf_type(t: TypeV) -> bool
    decreases t,
{
    match t {
        TypeV::Base(_) => true,
        TypeV::Container(c) => match c {
            ContainerV::Array(el) => wf_type(*el),
            ContainerV::Dict(_, v) => wf_type(*v),
            ContainerV::Struct(ts) => ts.len() > 0 && wf_types(ts),
            ContainerV::Variant => true,
        },
    }
}

/// Every type in `ts` is well formed.
pub open spec fn wf_types(ts: Seq<TypeV>) -> bool
    decreases ts,
{
    if ts.len() == 0 {
        true
    } else {
        wf_type(ts[0]) && wf_types(ts.subrange(1, ts.len() as int))
    }
}

/// Parse a whole signature: length and emptiness checks, the type list, and
/// the nesting-depth limits, in that order.
pub open spec fn spec_parse_description(s: Seq<char>) -> Result<Seq<TypeV>, Error> {
    if vstd::utf8::encode_utf8(s).len() > 255 {
        Err(Error::SignatureTooLong)
    } else if s.len() == 0 {
        Err(Error::EmptySignature)
    } else {
        match spec_parse_types(s) {
            Err(e) => Err(e),
            Ok(ts) => if types_depth_ok(ts) {
                Ok(ts)
            } else {
                Err(Error::NestingTooDeep)
            },
        }
    }
}

/// The alignment of a base type on the wire.
pub open spec fn base_alignment(b: Base) -> usize {
    match b {
        Base::Boolean => 4,
        Base::Byte => 1,
        Base::Int16 => 2,
        Base::Uint16 => 2,
        Base::Int32 => 4,
        Base::Uint32 => 4,
        Base::UnixFd => 4,
        Base::Int64 => 8,
        Base::Uint64 => 8,
        Base::Double => 8,
        Base::String => 4,
        Base::ObjectPath => 4,
        Base::Signature => 1,
    }
}

/// The alignment of a container type on the wire.
pub open spec fn container_alignment(c: ContainerV) -> usize {
    match c {
        ContainerV::Variant => 1,
        ContainerV::Array(_) => 4,
        ContainerV::Dict(_, _) => 4,
        ContainerV::Struct(_) => 8,
    }
}

/// The alignment of a type on the wire.
pub open spec fn type_alignment(t: TypeV) -> usize {
    match t {
        TypeV::Base(b) => base_alignment(b),
        TypeV::Container(c) => container_alignment(c),
    }
}

impl Base {
    /// Append this type's one-character tag to `buf`.
    pub fn to_str(self, buf: &mut String)
        ensures
            final(buf)@ == old(buf)@ + seq![base_char(self)],
    {
        proof {
            reveal_strlit("b");
            reveal_strlit("y");
            reveal_strlit("n");
            reveal_strlit("q");
            reveal_strlit("i");
            reveal_strlit("u");
            reveal_strlit("h");
            reveal_strlit("x");
            reveal_strlit("t");
            reveal_strlit("d");
            reveal_strlit("s");
            reveal_strlit("o");
            reveal_strlit("g");
        }
        match self {
            Base::Boolean => buf.append("b"),
            Base::Byte => buf.append("y"),
            Base::Int16 => buf.append("n"),
            Base::Uint16 => buf.append("q"),
            Base::Int32 => buf.append("i"),
            Base::Uint32 => buf.append("u"),
            Base::UnixFd => buf.append("h"),
            Base::Int64 => buf.append("x"),
            Base::Uint64 => buf.append("t"),
            Base::Double => buf.append("d"),
            Base::String => buf.append("s"),
            Base::ObjectPath => buf.append("o"),
            Base::Signature => buf.append("g"),
        }
        proof {
            assert(final(buf)@ =~= old(buf)@ + seq![base_char(self)]);
        }
    }

    /// The alignment of this type on the wire.
    pub fn get_alignment(self) -> (r: usize)
        ensures
            r == base_alignment(self),
    {
        match self {
            Base::Boolean => 4,
            Base::Byte => 1,
            Base::Int16 => 2,
            Base::Uint16 => 2,
            Base::Int32 => 4,
            Base::Uint32 => 4,
            Base::UnixFd => 4,
            Base::Int64 => 8,
            Base::Uint64 => 8,
            Base::Double => 8,
            Base::String => 4,
            Base::ObjectPath => 4,
            Base::Signature => 1,
        }
    }

    /// True when every bit pattern is valid for this type and its width
    /// equals its alignment, so homogeneous arrays of it can be read in
    /// place. Int32 is reported conservatively as false.
    pub fn bytes_always_valid(&self) -> (r: bool)
        ensures
            r == base_bytes_always_valid(*self),
    {
        matches!(
            self,
            Base::Byte
                | Base::Int16
                | Base::Uint16
                | Base::Uint32
                | Base::Int64
                | Base::Uint64
                | Base::UnixFd
                | Base::Double
        )
    }
}

/// Which base types accept every bit pattern at a width equal to their
/// alignment.
pub open spec fn base_bytes_always_valid(b: Base) -> bool {
    match b {
        Base::Byte => true,
        Base::Int16 => true,
        Base::Uint16 => true,
        Base::Uint32 => true,
        Base::Int64 => true,
        Base::Uint64 => true,
        Base::UnixFd => true,
        Base::Double => true,
        _ => false,
    }
}

/// Deep copy of a vector of types.
fn clone_type_vec(v: &Vec<Type>) -> (r: Vec<Type>)
    ensures
        types_view(r@) == types_view(v@),
    decreases v@,
{
    let mut out: Vec<Type> = Vec::new();
    let mut i: usize = 0;
    while i < v.len()
        invariant
            i <= v@.len(),
            out@.len() == i,
            forall|j: int| 0 <= j < i ==> #[trigger] out@[j]@ == v@[j]@,
        decreases v@.len() - i,
    {
        out.push(v[i].clone());
        i = i + 1;
    }
    proof {
        lemma_types_view(out@);
        lemma_types_view(v@);
        assert(types_view(out@) =~= types_view(v@));
    }
    out
}

impl Clone for StructTypes {
    /// Deep copy; the copy has the same model.
    fn clone(&self) -> (r: Self)
        ensures
            r@ == self@,
        decreases self,
    {
        StructTypes(clone_type_vec(&self.0))
    }
}

impl Clone for Container {
    /// Deep copy; the copy has the same model.
    fn clone(&self) -> (r: Self)
        ensures
            r@ == self@,
        decreases self,
    {
        match self {
            Container::Array(el) => Container::Array(Box::new((**el).clone())),
            Container::Dict(k, v) => Container::Dict(*k, Box::new((**v).clone())),
            Container::Struct(st) => Container::Struct(st.clone()),
            Container::Variant => Container::Variant,
        }
    }
}

impl Clone for Type {
    /// Deep copy; the copy has the same model.
    fn clone(&self) -> (r: Self)
        ensures
            r@ == self@,
        decreases self,
    {
        match self {
            Type::Base(b) => Type::Base(*b),
            Type::Container(c) => Type::Container(c.clone()),
        }
    }
}

/// The tag table and the tag characters invert each other.
proof fn lemma_base_tag_chars(b: Base, c: char)
    ensures
        tag_base(base_char(b)) == Some(b),
        tag_base(c) matches Some(b2) ==> base_char(b2) == c,
{
}

/// A type's rendering is never empty and never opens with a delimiter that
/// closes or continues a surrounding construct; all of it is ASCII.
proof fn lemma_type_chars_shape(t: TypeV)
    ensures
        type_chars(t).len() >= 1,
        type_chars(t)[0] != '{',
        type_chars(t)[0] != ')',
        type_chars(t)[0] != '}',
    decreases t,
{
}

/// Every character a type renders to is ASCII.
pub proof fn lemma_type_chars_ascii(t: TypeV)
    ensures
        vstd::utf8::is_ascii_chars(type_chars(t)),
    decreases t, 0int,
{
    match t {
        TypeV::Base(_) => {},
        TypeV::Container(c) => match c {
            ContainerV::Array(el) => {
                lemma_type_chars_ascii(*el);
            },
            ContainerV::Dict(_, v) => {
                lemma_type_chars_ascii(*v);
            },
            ContainerV::Struct(ts) => {
                lemma_types_chars_ascii(ts);
            },
            ContainerV::Variant => {},
        },
    }
}

/// Every character a type list renders to is ASCII.
pub proof fn lemma_types_chars_ascii(ts: Seq<TypeV>)
    ensures
        vstd::utf8::is_ascii_chars(types_chars(ts)),
    decreases ts, 1int,
{
    if ts.len() > 0 {
        lemma_type_chars_ascii(ts[0]);
        lemma_types_chars_ascii(ts.subrange(1, ts.len() as int));
    }
}

/// A type's rendering is never empty.
pub proof fn lemma_type_chars_len(t: TypeV)
    ensures
        type_chars(t).len() >= 1,
{
    lemma_type_chars_shape(t);
}

/// Parsing one type consumes exactly its rendering, and the result is well
/// formed.
proof fn lemma_parse_one_sound(s: Seq<char>)
    requires
        spec_parse_one(s) is Ok,
    ensures
        ({
            let (t, r) = spec_parse_one(s)->Ok_0;
            s == type_chars(t) + r && wf_type(t)
        }),
    decreases s.len(), 0int,
{
    let (t, r) = spec_parse_one(s)->Ok_0;
    let c = s[0];
    let rest = s.subrange(1, s.len() as int);
    assert(s =~= seq![c] + rest);
    if tag_base(c) is Some {
        lemma_base_tag_chars(tag_base(c)->Some_0, c);
        assert(s =~= type_chars(t) + r);
    } else if c == 'v' {
        assert(s =~= type_chars(t) + r);
    } else if c == 'a' {
        if rest.len() > 0 && rest[0] == '{' {
            let r2 = rest.subrange(1, rest.len() as int);
            assert(rest =~= seq!['{'] + r2);
            let k = tag_base(r2[0])->Some_0;
            lemma_base_tag_chars(k, r2[0]);
            let r3inner = r2.subrange(1, r2.len() as int);
            assert(r2 =~= seq![base_char(k)] + r3inner);
            lemma_parse_one_sound(r3inner);
            let (v, r3) = spec_parse_one(r3inner)->Ok_0;
            assert(r3inner == type_chars(v) + r3);
            assert(r3 =~= seq!['}'] + r);
            assert(t == TypeV::Container(ContainerV::Dict(k, Box::new(v))));
            assert(type_chars(t) =~= seq!['a', '{', base_char(k)] + type_chars(v) + seq!['}']);
            assert(s =~= type_chars(t) + r);
        } else {
            lemma_parse_one_sound(rest);
            let (el, r2) = spec_parse_one(rest)->Ok_0;
            assert(rest == type_chars(el) + r2);
            assert(t == TypeV::Container(ContainerV::Array(Box::new(el))));
            assert(s =~= type_chars(t) + r);
        }
    } else {
        lemma_parse_fields_sound(rest);
        let (ts, r2) = spec_parse_fields(rest)->Ok_0;
        assert(rest == types_chars(ts) + seq![')'] + r2);
        assert(t == TypeV::Container(ContainerV::Struct(ts)));
        assert(s =~= type_chars(t) + r);
    }
}

/// Parsing struct fields consumes exactly their renderings and the closing
/// parenthesis, and the results are well formed.
proof fn lemma_parse_fields_sound(s: Seq<char>)
    requires
        spec_parse_fields(s) is Ok,
    ensures
        ({
            let (ts, r) = spec_parse_fields(s)->Ok_0;
            s == types_chars(ts) + seq![')'] + r && wf_types(ts)
        }),
    decreases s.len(), 1int,
{
    let (ts, r) = spec_parse_fields(s)->Ok_0;
    if s[0] == ')' {
        assert(s =~= types_chars(ts) + seq![')'] + r);
    } else {
        lemma_parse_one_sound(s);
        let (t, r1) = spec_parse_one(s)->Ok_0;
        lemma_parse_fields_sound(r1);
        let (ts2, r2) = spec_parse_fields(r1)->Ok_0;
        assert(ts =~= seq![t] + ts2);
        assert(ts.subrange(1, ts.len() as int) =~= ts2);
        assert(s =~= types_chars(ts) + seq![')'] + r);
    }
}

/// Parsing a type list consumes the whole input, which is exactly the
/// list's rendering, and the results are well formed.
pub proof fn lemma_parse_types_sound(s: Seq<char>)
    requires
        spec_parse_types(s) is Ok,
    ensures
        s == types_chars(spec_parse_types(s)->Ok_0),
        wf_types(spec_parse_types(s)->Ok_0),
    decreases s.len(),
{
    let ts = spec_parse_types(s)->Ok_0;
    if s.len() == 0 {
        assert(s =~= types_chars(ts));
    } else {
        lemma_parse_one_sound(s);
        let (t, r1) = spec_parse_one(s)->Ok_0;
        lemma_parse_types_sound(r1);
        let ts2 = spec_parse_types(r1)->Ok_0;
        assert(ts =~= seq![t] + ts2);
        assert(ts.subrange(1, ts.len() as int) =~= ts2);
        assert(s =~= types_chars(ts));
    }
}

/// Parsing the rendering of one well-formed type succeeds and returns that
/// type, whatever follows it.
proof fn lemma_parse_one_complete(t: TypeV, rest: Seq<char>)
    requires
        wf_type(t),
    ensures
        spec_parse_one(type_chars(t) + rest) == Ok::<_, Error>((t, rest)),
    decreases t, 0int,
{
    let s = type_chars(t) + rest;
    lemma_type_chars_shape(t);
    match t {
        TypeV::Base(b) => {
            lemma_base_tag_chars(b, base_char(b));
            assert(s.subrange(1, s.len() as int) =~= rest);
        },
        TypeV::Container(c) => match c {
            ContainerV::Variant => {
                assert(s.subrange(1, s.len() as int) =~= rest);
            },
            ContainerV::Array(el) => {
                lemma_type_chars_shape(*el);
                let r1 = type_chars(*el) + rest;
                assert(s.subrange(1, s.len() as int) =~= r1);
                assert(r1[0] != '{');
                lemma_parse_one_complete(*el, rest);
            },
            ContainerV::Dict(k, v) => {
                lemma_base_tag_chars(k, base_char(k));
                let r1 = seq!['{', base_char(k)] + type_chars(*v) + seq!['}'] + rest;
                assert(s.subrange(1, s.len() as int) =~= r1);
                assert(r1[0] == '{');
                let r2 = seq![base_char(k)] + type_chars(*v) + seq!['}'] + rest;
                assert(r1.subrange(1, r1.len() as int) =~= r2);
                assert(r2[0] == base_char(k));
                let r3 = type_chars(*v) + (seq!['}'] + rest);
                assert(r2.subrange(1, r2.len() as int) =~= r3);
                lemma_parse_one_complete(*v, seq!['}'] + rest);
                let r4 = seq!['}'] + rest;
                assert(r4[0] == '}');
                assert(r4.subrange(1, r4.len() as int) =~= rest);
            },
            ContainerV::Struct(ts) => {
                let r1 = types_chars(ts) + seq![')'] + rest;
                assert(s.subrange(1, s.len() as int) =~= r1);
                lemma_parse_fields_complete(ts, rest);
            },
        },
    }
}

/// Parsing the renderings of well-formed struct fields followed by the
/// closing parenthesis succeeds and returns those fields.
proof fn lemma_parse_fields_complete(ts: Seq<TypeV>, rest: Seq<char>)
    requires
        wf_types(ts),
    ensures
        spec_parse_fields(types_chars(ts) + seq![')'] + rest) == Ok::<_, Error>((ts, rest)),
    decreases ts, 1int,
{
    let s = types_chars(ts) + seq![')'] + rest;
    if ts.len() == 0 {
        assert(s[0] == ')');
        assert(s.subrange(1, s.len() as int) =~= rest);
        assert(spec_parse_fields(s)->Ok_0.0 =~= ts);
    } else {
        let t0 = ts[0];
        let ts2 = ts.subrange(1, ts.len() as int);
        lemma_type_chars_shape(t0);
        let r1 = types_chars(ts2) + seq![')'] + rest;
        assert(s =~= type_chars(t0) + r1);
        assert(s[0] == type_chars(t0)[0]);
        lemma_parse_one_complete(t0, r1);
        lemma_parse_fields_complete(ts2, rest);
        assert(r1.len() < s.len());
        assert(seq![t0] + ts2 =~= ts);
    }
}

/// Parsing the rendering of a well-formed type list succeeds and returns
/// that list.
pub proof fn lemma_parse_types_complete(ts: Seq<TypeV>)
    requires
        wf_types(ts),
    ensures
        spec_parse_types(types_chars(ts)) == Ok::<_, Error>(ts),
    decreases ts,
{
    let s = types_chars(ts);
    if ts.len() == 0 {
        assert(ts =~= Seq::<TypeV>::empty());
    } else {
        let t0 = ts[0];
        let ts2 = ts.subrange(1, ts.len() as int);
        lemma_type_chars_shape(t0);
        let r1 = types_chars(ts2);
        assert(s =~= type_chars(t0) + r1);
        lemma_parse_one_complete(t0, r1);
        lemma_parse_types_complete(ts2);
        assert(r1.len() < s.len());
        assert(seq![t0] + ts2 =~= ts);
        assert(spec_parse_one(s) == Ok::<_, Error>((t0, r1)));
        assert(spec_parse_types(s) == Ok::<_, Error>(seq![t0] + ts2));
    }
}

/// A valid signature is the rendering of some non-empty, well-formed,
/// within-limits type list of at most 255 characters.
pub open spec fn is_valid_signature(s: Seq<char>) -> bool {
    exists|ts: Seq<TypeV>|
        {
            &&& wf_types(ts)
            &&& types_depth_ok(ts)
            &&& ts.len() > 0
            &&& #[trigger] types_chars(ts) == s
            &&& s.len() <= 255
        }
}

/// Parsing the rendering of a non-empty, well-formed, within-limits type
/// list gives that list back.
pub proof fn lemma_parse_format_roundtrip(ts: Seq<TypeV>)
    requires
        wf_types(ts),
        types_depth_ok(ts),
        ts.len() > 0,
        types_chars(ts).len() <= 255,
    ensures
        spec_parse_description(types_chars(ts)) == Ok::<_, Error>(ts),
{
    let s = types_chars(ts);
    lemma_types_chars_ascii(ts);
    vstd::utf8::is_ascii_chars_encode_utf8(s);
    lemma_parse_types_complete(ts);
    assert(s.len() > 0) by {
        lemma_type_chars_shape(ts[0]);
        lemma_types_chars_first(ts);
    }
}

/// A non-empty type list renders to a text that starts with its first
/// type's rendering.
proof fn lemma_types_chars_first(ts: Seq<TypeV>)
    requires
        ts.len() > 0,
    ensures
        types_chars(ts).len() >= type_chars(ts[0]).len(),
{
}

/// Every signature the parser accepts renders back to exactly the parsed
/// text, and the parsed types are well formed and within the nesting
/// limits.
pub proof fn lemma_format_parse_roundtrip(s: Seq<char>)
    requires
        spec_parse_description(s) is Ok,
    ensures
        types_chars(spec_parse_description(s)->Ok_0) == s,
        wf_types(spec_parse_description(s)->Ok_0),
        types_depth_ok(spec_parse_description(s)->Ok_0),
        spec_parse_description(s)->Ok_0.len() > 0,
{
    lemma_parse_types_sound(s);
    let ts = spec_parse_types(s)->Ok_0;
    if ts.len() == 0 {
        assert(s =~= Seq::<char>::empty());
    }
}

/// Every valid signature parses successfully, and rendering the parse
/// result gives the original text back.
pub proof fn lemma_valid_signature_roundtrip(s: Seq<char>)
    requires
        is_valid_signature(s),
    ensures
        spec_parse_description(s) is Ok,
        types_chars(spec_parse_description(s)->Ok_0) == s,
{
    let ts = choose|ts: Seq<TypeV>|
        {
            &&& wf_types(ts)
            &&& types_depth_ok(ts)
            &&& ts.len() > 0
            &&& #[trigger] types_chars(ts) == s
            &&& s.len() <= 255
        };
    lemma_parse_format_roundtrip(ts);
}

/// Every element's struct and array depth is at most the sequence's.
pub proof fn lemma_types_depth_elem(ts: Seq<TypeV>, i: int)
    requires
        0 <= i < ts.len(),
    ensures
        type_struct_depth(ts[i]) <= types_struct_depth(ts),
        type_array_depth(ts[i]) <= types_array_depth(ts),
    decreases ts.len(),
{
    if i >= 1 {
        lemma_types_depth_elem(ts.subrange(1, ts.len() as int), i - 1);
        assert(ts.subrange(1, ts.len() as int)[i - 1] == ts[i]);
    }
}

/// A bound on every element's depth bounds the sequence's depth.
pub proof fn lemma_types_depth_bound(ts: Seq<TypeV>, sb: nat, ab: nat)
    requires
        forall|i: int|
            0 <= i < ts.len() ==> type_struct_depth(#[trigger] ts[i]) <= sb && type_array_depth(
                ts[i],
            ) <= ab,
    ensures
        types_struct_depth(ts) <= sb,
        types_array_depth(ts) <= ab,
    decreases ts.len(),
{
    if ts.len() > 0 {
        let rest = ts.subrange(1, ts.len() as int);
        assert(forall|i: int|
            0 <= i < rest.len() ==> type_struct_depth(#[trigger] rest[i]) <= sb
                && type_array_depth(rest[i]) <= ab) by {
            assert(forall|i: int| 0 <= i < rest.len() ==> rest[i] == ts[i + 1]);
        }
        lemma_types_depth_bound(rest, sb, ab);
    }
}

/// Check every type in `v` against the nesting limits, reading from depths
/// `struct_depth` and `array_depth`.
fn check_depth_vec(v: &Vec<Type>, struct_depth: u8, array_depth: u8) -> (r: Result<(), Error>)
    requires
        struct_depth <= 32,
        array_depth <= 32,
    ensures
        match r {
            Ok(_) => struct_depth + types_struct_depth(types_view(v@)) <= 32 && array_depth
                + types_array_depth(types_view(v@)) <= 32,
            Err(e) => e == Error::NestingTooDeep && (struct_depth + types_struct_depth(
                types_view(v@),
            ) > 32 || array_depth + types_array_depth(types_view(v@)) > 32),
        },
    decreases v@,
{
    let mut i: usize = 0;
    proof {
        lemma_types_view(v@);
    }
    while i < v.len()
        invariant
            i <= v@.len(),
            types_view(v@).len() == v@.len(),
            forall|j: int| 0 <= j < v@.len() ==> #[trigger] types_view(v@)[j] == v@[j]@,
            struct_depth <= 32,
            array_depth <= 32,
            forall|j: int|
                0 <= j < i ==> struct_depth + type_struct_depth(#[trigger] types_view(v@)[j]) <= 32
                    && array_depth + type_array_depth(types_view(v@)[j]) <= 32,
        decreases v@.len() - i,
    {
        proof {
            assert(decreases_to!(v@ => v@[i as int]));
        }
        match Type::check_nesting_depth(&v[i], struct_depth, array_depth) {
            Ok(_) => {},
            Err(e) => {
                proof {
                    lemma_types_depth_elem(types_view(v@), i as int);
                }
                return Err(e);
            },
        }
        i = i + 1;
    }
    proof {
        lemma_types_depth_bound(
            types_view(v@),
            (32 - struct_depth) as nat,
            (32 - array_depth) as nat,
        );
    }
    Ok(())
}

impl Type {
    /// Check `t` against the nesting limits, with `struct_depth` structs and
    /// `array_depth` arrays already open around it.
    pub fn check_nesting_depth(t: &Type, struct_depth: u8, array_depth: u8) -> (r: Result<
        (),
        Error,
    >)
        requires
            struct_depth <= 32,
            array_depth <= 32,
        ensures
            match r {
                Ok(_) => struct_depth + type_struct_depth(t@) <= 32 && array_depth
                    + type_array_depth(t@) <= 32,
                Err(e) => e == Error::NestingTooDeep && (struct_depth + type_struct_depth(t@) > 32
                    || array_depth + type_array_depth(t@) > 32),
            },
        decreases t,
    {
        match t {
            Type::Base(_) => Ok(()),
            Type::Container(Container::Variant) => Ok(()),
            Type::Container(Container::Array(el)) => {
                if array_depth == 32 {
                    Err(Error::NestingTooDeep)
                } else {
                    Type::check_nesting_depth(el, struct_depth, array_depth + 1)
                }
            },
            Type::Container(Container::Dict(_, val)) => {
                if array_depth == 32 {
                    Err(Error::NestingTooDeep)
                } else {
                    Type::check_nesting_depth(val, struct_depth, array_depth + 1)
                }
            },
            Type::Container(Container::Struct(st)) => {
                if struct_depth == 32 {
                    Err(Error::NestingTooDeep)
                } else {
                    check_depth_vec(&st.0, struct_depth + 1, array_depth)
                }
            },
        }
    }

    /// Parse a signature string into its list of types.
    ///
    /// Rejects text longer than 255 bytes, empty text, text that is not a
    /// well-formed sequence of types, and types nested too deeply, exactly
    /// as [`spec_parse_description`] lays out.
    pub fn parse_description(sig: &str) -> (r: Result<Vec<Type>, Error>)
        ensures
            match r {
                Ok(ts) => spec_parse_description(sig@) == Ok::<_, Error>(types_view(ts@)),
                Err(e) => spec_parse_description(sig@) == Err::<Seq<TypeV>, _>(e),
            },
    {
        if sig.as_bytes().len() > 255 {
            return Err(Error::SignatureTooLong);
        }
        let chars = str_chars(sig);
        if chars.len() == 0 {
            return Err(Error::EmptySignature);
        }
        let mut pos: usize = 0;
        proof {
            assert(suffix(chars@, 0) =~= chars@);
        }
        let types = match parse_types_all(&chars, &mut pos) {
            Ok(types) => types,
            Err(e) => {
                return Err(e);
            },
        };
        match check_depth_vec(&types, 0, 0) {
            Ok(_) => Ok(types),
            Err(e) => Err(e),
        }
    }
}

/// Elementwise equality of two type vectors, at the level of their models.
fn type_vec_eq(a: &Vec<Type>, b: &Vec<Type>) -> (r: bool)
    ensures
        r == (types_view(a@) == types_view(b@)),
    decreases a@,
{
    proof {
        lemma_types_view(a@);
        lemma_types_view(b@);
    }
    if a.len() != b.len() {
        return false;
    }
    let mut i: usize = 0;
    while i < a.len()
        invariant
            i <= a@.len(),
            a@.len() == b@.len(),
            types_view(a@).len() == a@.len(),
            types_view(b@).len() == b@.len(),
            forall|j: int| 0 <= j < a@.len() ==> #[trigger] types_view(a@)[j] == a@[j]@,
            forall|j: int| 0 <= j < b@.len() ==> #[trigger] types_view(b@)[j] == b@[j]@,
            forall|j: int| 0 <= j < i ==> #[trigger] a@[j]@ == b@[j]@,
        decreases a@.len() - i,
    {
        proof {
            assert(decreases_to!(a@ => a@[i as int]));
        }
        if !a[i].sig_eq(&b[i]) {
            proof {
                assert(types_view(a@)[i as int] != types_view(b@)[i as int]);
            }
            return false;
        }
        i = i + 1;
    }
    proof {
        assert(types_view(a@) =~= types_view(b@));
    }
    true
}

impl Type {
    /// Whether two types are the same, at the level of their models.
    pub fn sig_eq(&self, other: &Type) -> (r: bool)
        ensures
            r == (self@ == other@),
        decreases self,
    {
        match (self, other) {
            (Type::Base(a), Type::Base(b)) => *a == *b,
            (Type::Container(c1), Type::Container(c2)) => {
                match (c1, c2) {
                    (Container::Array(e1), Container::Array(e2)) => e1.sig_eq(e2),
                    (Container::Dict(k1, v1), Container::Dict(k2, v2)) => *k1 == *k2 && v1.sig_eq(
                        v2,
                    ),
                    (Container::Struct(s1), Container::Struct(s2)) => type_vec_eq(&s1.0, &s2.0),
                    (Container::Variant, Container::Variant) => true,
                    _ => false,
                }
            },
            _ => false,
        }
    }
}

impl Container {
    /// Append this container's signature text to `buf`.
    pub fn to_str(&self, buf: &mut String)
        ensures
            final(buf)@ == old(buf)@ + container_chars(self@),
        decreases self,
    {
        proof {
            reveal_strlit("a");
            reveal_strlit("a{");
            reveal_strlit("}");
            reveal_strlit("(");
            reveal_strlit(")");
            reveal_strlit("v");
        }
        match self {
            Container::Array(el) => {
                buf.append("a");
                el.to_str(buf);
            }
            Container::Dict(key, val) => {
                buf.append("a{");
                key.to_str(buf);
                val.to_str(buf);
                buf.append("}");
            }
            Container::Struct(types) => {
                buf.append("(");
                let fields = &types.0;
                let mut i: usize = 0;
                proof {
                    lemma_types_view(fields@);
                }
                while i < fields.len()
                    invariant
                        i <= fields@.len(),
                        *self == Container::Struct(*types),
                        fields@ == types.0@,
                        buf@ == old(buf)@ + seq!['('] + types_chars(
                            types_view(fields@.subrange(0, i as int)),
                        ),
                    decreases fields@.len() - i,
                {
                    proof {
                        lemma_types_view(fields@);
                        lemma_types_view(fields@.subrange(0, i as int));
                        lemma_types_view(fields@.subrange(0, i as int + 1));
                        lemma_types_chars_push(
                            types_view(fields@.subrange(0, i as int)),
                            fields@[i as int]@,
                        );
                        assert(types_view(fields@.subrange(0, i as int)).push(fields@[i as int]@)
                            =~= types_view(fields@.subrange(0, i as int + 1)));
                        assert(*types == (*self)->Struct_0);
                        assert(decreases_to!(*self => (*self)->Struct_0));
                        let st = (*self)->Struct_0;
                        assert(decreases_to!(st => st.0));
                        assert(decreases_to!(st.0 => st.0@));
                        assert(decreases_to!(st.0@ => st.0@[i as int]));
                        assert(fields@[i as int] == st.0@[i as int]);
                        assert(decreases_to!(*self => fields@[i as int]));
                    }
                    fields[i].to_str(buf);
                    i = i + 1;
                }
                proof {
                    assert(fields@.subrange(0, fields@.len() as int) =~= fields@);
                }
                buf.append(")");
            }
            Container::Variant => {
                buf.append("v");
            }
        }
        proof {
            assert(final(buf)@ =~= old(buf)@ + container_chars(self@));
        }
    }

    /// The alignment of this type on the wire.
    pub fn get_alignment(&self) -> (r: usize)
        ensures
            r == container_alignment(self@),
    {
        match self {
            Container::Variant => 1,
            Container::Array(_) => 4,
            Container::Dict(_, _) => 4,
            Container::Struct(_) => 8,
        }
    }
}

impl Type {
    /// Append this type's signature text to `buf`.
    pub fn to_str(&self, buf: &mut String)
        ensures
            final(buf)@ == old(buf)@ + type_chars(self@),
        decreases self,
    {
        match self {
            Type::Container(c) => c.to_str(buf),
            Type::Base(b) => b.to_str(buf),
        }
    }

    /// The alignment of this type on the wire.
    pub fn get_alignment(&self) -> (r: usize)
        ensures
            r == type_alignment(self@),
    {
        match self {
            Type::Base(b) => b.get_alignment(),
            Type::Container(c) => c.get_alignment(),
        }
    }

    /// True when every bit pattern is valid for this type and its width
    /// equals its alignment; false for every container.
    pub fn bytes_always_valid(&self) -> (r: bool)
        ensures
            r == match self@ {
                TypeV::Base(b) => base_bytes_always_valid(b),
                TypeV::Container(_) => false,
            },
    {
        match self {
            Type::Base(b) => b.bytes_always_valid(),
            Type::Container(_) => false,
        }
    }
}

} // verus!
