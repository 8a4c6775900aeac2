//! The protocol's values, how each is framed on the wire, and the decoder.
use vstd::prelude::*;
use vstd::utf8::{decode_utf8, encode_utf8, valid_utf8};

use crate::decimal::{digits_value, int_text, is_digit, nat_text, parse_i64, parse_nat, push_int_text, push_nat_text, MINUS, ZERO};
use crate::text::utf8_to_string;

verus! {

broadcast use vstd::std_specs::vec::group_vec_axioms;

pub const CR: u8 = 13;

pub const LF: u8 = 10;

pub const SPACE: u8 = 32;

/// Lead byte of a simple string, `+`.
pub const LEAD_SIMPLE_STRING: u8 = 43;

/// Lead byte of a simple error, `-`.
pub const LEAD_SIMPLE_ERROR: u8 = 45;

/// Lead byte of an integer, `:`.
pub const LEAD_INTEGER: u8 = 58;

/// Lead byte of a bulk string, `$`.
pub const LEAD_BULK_STRING: u8 = 36;

/// Lead byte of an array, `*`.
pub const LEAD_ARRAY: u8 = 42;

/// Lead byte of the null value, `_`.
pub const LEAD_NULL: u8 = 95;

/// Lead byte of a boolean, `#`.
pub const LEAD_BOOLEAN: u8 = 35;

/// `t`, the body of a true boolean.
pub const TRUE_BYTE: u8 = 116;

/// `f`, the body of a false boolean.
pub const FALSE_BYTE: u8 = 102;

/// A protocol value as the contracts see it.
pub enum Value {
    SimpleString(Seq<char>),
    SimpleError { kind: Seq<char>, message: Seq<char> },
    Integer(int),
    BulkString(Option<Seq<u8>>),
    Array(Option<Seq<Value>>),
    Null,
    Boolean(bool),
}

/// A protocol value.
#[derive(Debug)]
pub enum RespData {
    /// `+OK\r\n`
    SimpleString(String),
    /// `-Error message\r\n`
    SimpleError { kind: String, message: String },
    /// `:[<+|->]<value>\r\n`
    Integer(i64),
    /// `$<length>\r\n<data>\r\n`, or `$-1\r\n` for the null string.
    /// The empty string `Some(vec![])` and the null string `None` are distinct.
    BulkString(Option<Vec<u8>>),
    /// `*<count>\r\n<element-1>...<element-n>`, or `*-1\r\n` for the null array.
    /// The empty array `Some(vec![])` and the null array `None` are distinct.
    Array(Option<Vec<RespData>>),
    /// `_\r\n`
    Null,
    /// `#t\r\n` or `#f\r\n`
    Boolean(bool),
}

pub open spec fn value_of(d: RespData) -> Value
    decreases d,
{
    match d {
        RespData::SimpleString(s) => Value::SimpleString(s@),
        RespData::SimpleError { kind, message } => Value::SimpleError {
            kind: kind@,
            message: message@,
        },
        RespData::Integer(n) => Value::Integer(n as int),
        RespData::BulkString(None) => Value::BulkString(None),
        RespData::BulkString(Some(b)) => Value::BulkString(Some(b@)),
        RespData::Array(None) => Value::Array(None),
        RespData::Array(Some(items)) => Value::Array(Some(values_of(items@))),
        RespData::Null => Value::Null,
        RespData::Boolean(b) => Value::Boolean(b),
    }
}

pub open spec fn values_of(s: Seq<RespData>) -> Seq<Value>
    decreases s,
{
    if s.len() == 0 {
        Seq::empty()
    } else {
        values_of(s.drop_last()).push(value_of(s.last()))
    }
}

impl View for RespData {
    type V = Value;

    open spec fn view(&self) -> Value {
        value_of(*self)
    }
}

pub broadcast proof fn lemma_values_of(s: Seq<RespData>)
    ensures
        #[trigger] values_of(s).len() == s.len(),
        forall|i: int| 0 <= i < s.len() ==> #[trigger] values_of(s)[i] == value_of(s[i]),
    decreases s.len(),
{
    if s.len() > 0 {
        lemma_values_of(s.drop_last());
    }
}

pub proof fn lemma_values_of_push(s: Seq<RespData>, d: RespData)
    ensures
        values_of(s.push(d)) == values_of(s).push(value_of(d)),
{
    assert(s.push(d).drop_last() =~= s);
}

/// Why a buffer does not start with a frame.
#[derive(Debug, Clone, Copy, PartialEq, Eq, Structural)]
pub enum FrameError {
    /// The buffer ends before the frame does.
    Incomplete,
    /// The lead byte names no type of the protocol.
    UnknownType,
    /// The lead byte names a type of the protocol that is not handled here:
    /// float, big number, bulk error, verbatim string, map, attributes, set or push.
    Unsupported,
    /// The frame is of another type than the one asked for.
    UnexpectedType,
    /// A length, integer, boolean, terminator or text that is not well formed.
    Malformed,
}

/// Lead bytes of the protocol's types that are recognised but not handled:
/// `,` `(` `!` `=` `%` `|` `~` `>`.
pub open spec fn is_unsupported_lead(c: u8) -> bool {
    c == 44 || c == 40 || c == 33 || c == 61 || c == 37 || c == 124 || c == 126 || c == 62
}

pub open spec fn is_supported_lead(c: u8) -> bool {
    c == LEAD_SIMPLE_STRING || c == LEAD_SIMPLE_ERROR || c == LEAD_INTEGER || c
        == LEAD_BULK_STRING || c == LEAD_ARRAY || c == LEAD_NULL || c == LEAD_BOOLEAN
}

pub open spec fn crlf_at(b: Seq<u8>, i: int) -> bool {
    0 <= i && i + 1 < b.len() && b[i] == CR && b[i + 1] == LF
}

/// `i` is where the first CRLF after the lead byte starts.
pub open spec fn is_line_end(b: Seq<u8>, i: int) -> bool {
    &&& 1 <= i
    &&& crlf_at(b, i)
    &&& forall|j: int| 1 <= j < i ==> !#[trigger] crlf_at(b, j)
}

pub open spec fn has_line(b: Seq<u8>) -> bool {
    exists|i: int| is_line_end(b, i)
}

pub open spec fn line_end(b: Seq<u8>) -> int {
    choose|i: int| is_line_end(b, i)
}

/// The bytes between the lead byte and the first CRLF.
pub open spec fn line_of(b: Seq<u8>) -> Seq<u8> {
    b.subrange(1, line_end(b))
}

pub open spec fn minus_one() -> Seq<u8> {
    seq![MINUS, (ZERO + 1) as u8]
}

pub open spec fn is_first_space(line: Seq<u8>, i: int) -> bool {
    &&& 0 <= i < line.len()
    &&& line[i] == SPACE
    &&& forall|j: int| 0 <= j < i ==> #[trigger] line[j] != SPACE
}

pub open spec fn has_space(line: Seq<u8>) -> bool {
    exists|i: int| is_first_space(line, i)
}

pub open spec fn first_space(line: Seq<u8>) -> int {
    choose|i: int| is_first_space(line, i)
}

/// The kind of a simple error: its text up to the first space.
pub open spec fn error_kind_bytes(line: Seq<u8>) -> Seq<u8> {
    if has_space(line) {
        line.subrange(0, first_space(line))
    } else {
        line
    }
}

/// The message of a simple error: its text after the first space, empty without one.
pub open spec fn error_message_bytes(line: Seq<u8>) -> Seq<u8> {
    if has_space(line) {
        line.subrange(first_space(line) + 1, line.len() as int)
    } else {
        Seq::empty()
    }
}

/// The value of the frame at the start of `b` and the number of bytes it takes.
pub open spec fn parse_frame(b: Seq<u8>) -> Result<(Value, int), FrameError>
    decreases b.len(), 0int,
{
    if b.len() == 0 {
        Err(FrameError::Incomplete)
    } else if is_unsupported_lead(b[0]) {
        Err(FrameError::Unsupported)
    } else if !is_supported_lead(b[0]) {
        Err(FrameError::UnknownType)
    } else if !has_line(b) {
        Err(FrameError::Incomplete)
    } else {
        let lead = b[0];
        let e = line_end(b);
        let line = b.subrange(1, e);
        let h = e + 2;
        if lead == LEAD_SIMPLE_STRING {
            if valid_utf8(line) {
                Ok((Value::SimpleString(decode_utf8(line)), h))
            } else {
                Err(FrameError::Malformed)
            }
        } else if lead == LEAD_SIMPLE_ERROR {
            let kind = error_kind_bytes(line);
            let message = error_message_bytes(line);
            if valid_utf8(kind) && valid_utf8(message) {
                Ok((Value::SimpleError { kind: decode_utf8(kind), message: decode_utf8(message) }, h))
            } else {
                Err(FrameError::Malformed)
            }
        } else if lead == LEAD_INTEGER {
            match parse_i64(line) {
                Some(n) => Ok((Value::Integer(n), h)),
                None => Err(FrameError::Malformed),
            }
        } else if lead == LEAD_BULK_STRING {
            if line == minus_one() {
                Ok((Value::BulkString(None), h))
            } else {
                match parse_nat(line) {
                    None => Err(FrameError::Malformed),
                    Some(n) => if h + n + 2 > b.len() {
                        Err(FrameError::Incomplete)
                    } else if !crlf_at(b, h + n) {
                        Err(FrameError::Malformed)
                    } else {
                        Ok((Value::BulkString(Some(b.subrange(h, h + n))), h + n + 2))
                    },
                }
            }
        } else if lead == LEAD_ARRAY {
            if line == minus_one() {
                Ok((Value::Array(None), h))
            } else {
                match parse_nat(line) {
                    None => Err(FrameError::Malformed),
                    Some(n) => match parse_items(b.subrange(h, b.len() as int), n) {
                        Ok((items, k)) => Ok((Value::Array(Some(items)), h + k)),
                        Err(err) => Err(err),
                    },
                }
            }
        } else if lead == LEAD_NULL {
            if line.len() == 0 {
                Ok((Value::Null, h))
            } else {
                Err(FrameError::Malformed)
            }
        } else {
            if line == seq![TRUE_BYTE] {
                Ok((Value::Boolean(true), h))
            } else if line == seq![FALSE_BYTE] {
                Ok((Value::Boolean(false), h))
            } else {
                Err(FrameError::Malformed)
            }
        }
    }
}

/// `n` frames one after another at the start of `t`, and the bytes they take.
pub open spec fn parse_items(t: Seq<u8>, n: nat) -> Result<(Seq<Value>, int), FrameError>
    decreases t.len(), n + 1,
{
    if n == 0 {
        Ok((Seq::empty(), 0))
    } else {
        match parse_frame(t) {
            Err(err) => Err(err),
            Ok((v, k)) => if 0 < k <= t.len() {
                match parse_items(t.subrange(k, t.len() as int), (n - 1) as nat) {
                    Ok((vs, k2)) => Ok((seq![v] + vs, k + k2)),
                    Err(err) => Err(err),
                }
            } else {
                Err(FrameError::Malformed)
            },
        }
    }
}

/// `r` and `m` are what the decoder owes on `b`: the value of its first frame and
/// the bytes that frame takes, or the error.
pub open spec fn decoded(b: Seq<u8>, r: Result<(RespData, usize), FrameError>) -> bool {
    match parse_frame(b) {
        Ok((v, k)) => r matches Ok((d, m)) && d@ == v && m == k,
        Err(e) => r == Err::<(RespData, usize), FrameError>(e),
    }
}

/// A frame of the type that `lead` names at the start of `b`.
pub open spec fn parse_frame_of(b: Seq<u8>, lead: u8) -> Result<(Value, int), FrameError> {
    if b.len() == 0 {
        Err(FrameError::Incomplete)
    } else if b[0] != lead {
        Err(FrameError::UnexpectedType)
    } else {
        parse_frame(b)
    }
}

/// `after` is what is left of `before` once `r` was taken from its start, as
/// `expected` says; an error takes nothing.
pub open spec fn took(
    before: Seq<u8>,
    after: Seq<u8>,
    r: Result<RespData, FrameError>,
    expected: Result<(Value, int), FrameError>,
) -> bool {
    match expected {
        Ok((v, k)) => r matches Ok(d) && d@ == v && after == before.subrange(k, before.len() as int),
        Err(e) => r == Err::<RespData, FrameError>(e) && after == before,
    }
}

proof fn lemma_line_end_unique(b: Seq<u8>, e: int)
    requires
        is_line_end(b, e),
    ensures
        has_line(b),
        line_end(b) == e,
{
    let c = line_end(b);
    assert(is_line_end(b, c));
    if c < e {
        assert(crlf_at(b, c));
    } else if e < c {
        assert(crlf_at(b, e));
    }
}

proof fn lemma_first_space_unique(line: Seq<u8>, i: int)
    requires
        is_first_space(line, i),
    ensures
        has_space(line),
        first_space(line) == i,
{
    let c = first_space(line);
    assert(is_first_space(line, c));
    if c < i {
        assert(line[c] == SPACE);
    } else if i < c {
        assert(line[i] == SPACE);
    }
}

pub proof fn lemma_frame_size(b: Seq<u8>)
    ensures
        parse_frame(b) matches Ok((v, k)) ==> 3 <= k <= b.len(),
    decreases b.len(), 0int,
{
    if b.len() > 0 && !is_unsupported_lead(b[0]) && is_supported_lead(b[0]) && has_line(b) {
        let e = line_end(b);
        assert(is_line_end(b, e));
        if b[0] == LEAD_ARRAY && b.subrange(1, e) != minus_one() {
            if let Some(n) = parse_nat(b.subrange(1, e)) {
                lemma_items_size(b.subrange(e + 2, b.len() as int), n);
            }
        }
    }
}

pub proof fn lemma_items_size(t: Seq<u8>, n: nat)
    ensures
        parse_items(t, n) matches Ok((vs, k)) ==> 0 <= k <= t.len() && vs.len() == n,
    decreases t.len(), n + 1,
{
    if n > 0 {
        lemma_frame_size(t);
        if let Ok((v, k)) = parse_frame(t) {
            if 0 < k <= t.len() {
                lemma_items_size(t.subrange(k, t.len() as int), (n - 1) as nat);
            }
        }
    }
}

pub open spec fn crlf() -> Seq<u8> {
    seq![CR, LF]
}

/// The bytes that frame a value on the wire.
pub open spec fn encode(v: Value) -> Seq<u8>
    decreases v,
{
    match v {
        Value::SimpleString(t) => seq![LEAD_SIMPLE_STRING] + encode_utf8(t) + crlf(),
        Value::SimpleError { kind, message } => seq![LEAD_SIMPLE_ERROR] + encode_utf8(kind) + seq![
            SPACE,
        ] + encode_utf8(message) + crlf(),
        Value::Integer(n) => seq![LEAD_INTEGER] + int_text(n) + crlf(),
        Value::BulkString(None) => seq![LEAD_BULK_STRING, MINUS, (ZERO + 1) as u8] + crlf(),
        Value::BulkString(Some(b)) => seq![LEAD_BULK_STRING] + nat_text(b.len()) + crlf() + b
            + crlf(),
        Value::Array(None) => seq![LEAD_ARRAY, MINUS, (ZERO + 1) as u8] + crlf(),
        Value::Array(Some(items)) => seq![LEAD_ARRAY] + nat_text(items.len()) + crlf()
            + encode_all(items),
        Value::Null => seq![LEAD_NULL] + crlf(),
        Value::Boolean(b) => seq![
            LEAD_BOOLEAN,
            if b {
                TRUE_BYTE
            } else {
                FALSE_BYTE
            },
        ] + crlf(),
    }
}

/// The frames of several values, one after another.
pub open spec fn encode_all(items: Seq<Value>) -> Seq<u8>
    decreases items,
{
    if items.len() == 0 {
        Seq::empty()
    } else {
        encode(items[0]) + encode_all(items.drop_first())
    }
}

pub proof fn lemma_encode_all_push(items: Seq<Value>, v: Value)
    ensures
        encode_all(items.push(v)) == encode_all(items) + encode(v),
    decreases items.len(),
{
    if items.len() == 0 {
        assert(items.push(v).drop_first() =~= Seq::<Value>::empty());
        assert(items.push(v)[0] == v);
        assert(encode_all(Seq::<Value>::empty()) == Seq::<u8>::empty());
        assert(encode_all(items.push(v)) =~= encode(v));
    } else {
        assert(items.push(v).drop_first() =~= items.drop_first().push(v));
        lemma_encode_all_push(items.drop_first(), v);
        assert(encode_all(items.push(v)) =~= encode_all(items) + encode(v));
    }
}

fn push_bytes(out: &mut Vec<u8>, b: &[u8])
    ensures
        final(out)@ == old(out)@ + b@,
{
    let mut i: usize = 0;
    while i < b.len()
        invariant
            i <= b@.len(),
            out@ == old(out)@ + b@.subrange(0, i as int),
        decreases b@.len() - i,
    {
        out.push(b[i]);
        i = i + 1;
        assert(out@ =~= old(out)@ + b@.subrange(0, i as int));
    }
    assert(b@.subrange(0, i as int) =~= b@);
}

fn push_crlf(out: &mut Vec<u8>)
    ensures
        final(out)@ == old(out)@ + crlf(),
{
    out.push(CR);
    out.push(LF);
    assert(out@ =~= old(out)@ + crlf());
}

fn push_text(out: &mut Vec<u8>, s: &String)
    ensures
        final(out)@ == old(out)@ + encode_utf8(s@),
{
    push_bytes(out, s.as_str().as_bytes());
}

impl Clone for RespData {
    fn clone(&self) -> (r: Self)
        ensures
            r@ == self@,
    {
        self.duplicate()
    }
}

impl RespData {
    pub fn simple_string(s: &str) -> (r: Self)
        ensures
            r@ == Value::SimpleString(s@),
    {
        RespData::SimpleString(s.to_owned())
    }

    pub fn bulk_string(s: &str) -> (r: Self)
        ensures
            r@ == Value::BulkString(Some(encode_utf8(s@))),
    {
        RespData::BulkString(Some(vstd::slice::slice_to_vec(s.as_bytes())))
    }

    pub fn null_bulk_string() -> (r: Self)
        ensures
            r@ == Value::BulkString(None),
    {
        RespData::BulkString(None)
    }

    pub fn array(elements: Vec<RespData>) -> (r: Self)
        ensures
            r@ == Value::Array(Some(values_of(elements@))),
    {
        RespData::Array(Some(elements))
    }

    /// A copy that has the same value.
    pub fn duplicate(&self) -> (r: Self)
        ensures
            r@ == self@,
        decreases self,
    {
        match self {
            RespData::SimpleString(s) => RespData::SimpleString(s.clone()),
            RespData::SimpleError { kind, message } => RespData::SimpleError {
                kind: kind.clone(),
                message: message.clone(),
            },
            RespData::Integer(n) => RespData::Integer(*n),
            RespData::BulkString(None) => RespData::BulkString(None),
            RespData::BulkString(Some(b)) => RespData::BulkString(
                Some(vstd::slice::slice_to_vec(b.as_slice())),
            ),
            RespData::Array(None) => RespData::Array(None),
            RespData::Array(Some(items)) => {
                let mut copy: Vec<RespData> = Vec::new();
                let mut i: usize = 0;
                while i < items.len()
                    invariant
                        *self == RespData::Array(Some(*items)),
                        i <= items@.len(),
                        values_of(copy@) == values_of(items@.subrange(0, i as int)),
                    decreases items@.len() - i,
                {
                    proof {
                        let ghost opt = (*self)->Array_0;
                        assert(decreases_to!(*self => opt));
                        assert(decreases_to!(opt => opt->0));
                        assert(decreases_to!(*items => items[i as int]));
                    }
                    let item = items[i].duplicate();
                    proof {
                        lemma_values_of_push(copy@, item);
                        lemma_values_of_push(items@.subrange(0, i as int), items@[i as int]);
                        assert(items@.subrange(0, i as int).push(items@[i as int])
                            =~= items@.subrange(0, i + 1));
                    }
                    copy.push(item);
                    i = i + 1;
                }
                assert(items@.subrange(0, i as int) =~= items@);
                RespData::Array(Some(copy))
            },
            RespData::Null => RespData::Null,
            RespData::Boolean(b) => RespData::Boolean(*b),
        }
    }

    /// Appends the frame of this value.
    pub fn write_to(&self, out: &mut Vec<u8>)
        ensures
            final(out)@ == old(out)@ + encode(self@),
        decreases self,
    {
        match self {
            RespData::SimpleString(s) => {
                out.push(LEAD_SIMPLE_STRING);
                push_text(out, s);
                push_crlf(out);
            },
            RespData::SimpleError { kind, message } => {
                out.push(LEAD_SIMPLE_ERROR);
                push_text(out, kind);
                out.push(SPACE);
                push_text(out, message);
                push_crlf(out);
            },
            RespData::Integer(n) => {
                out.push(LEAD_INTEGER);
                push_int_text(out, *n);
                push_crlf(out);
            },
            RespData::BulkString(None) => {
                out.push(LEAD_BULK_STRING);
                out.push(MINUS);
                out.push(ZERO + 1);
                push_crlf(out);
            },
            RespData::BulkString(Some(b)) => {
                out.push(LEAD_BULK_STRING);
                push_nat_text(out, b.len() as u64);
                push_crlf(out);
                push_bytes(out, b.as_slice());
                push_crlf(out);
            },
            RespData::Array(None) => {
                out.push(LEAD_ARRAY);
                out.push(MINUS);
                out.push(ZERO + 1);
                push_crlf(out);
            },
            RespData::Array(Some(items)) => {
                out.push(LEAD_ARRAY);
                push_nat_text(out, items.len() as u64);
                push_crlf(out);
                let ghost start = out@;
                let ghost vals = values_of(items@);
                proof {
                    lemma_values_of(items@);
                }
                let mut i: usize = 0;
                while i < items.len()
                    invariant
                        *self == RespData::Array(Some(*items)),
                        i <= items@.len(),
                        vals == values_of(items@),
                        vals.len() == items@.len(),
                        forall|j: int| 0 <= j < items@.len() ==> #[trigger] vals[j] == value_of(items@[j]),
                        out@ == start + encode_all(vals.subrange(0, i as int)),
                    decreases items@.len() - i,
                {
                    proof {
                        let ghost opt = (*self)->Array_0;
                        assert(decreases_to!(*self => opt));
                        assert(decreases_to!(opt => opt->0));
                        assert(decreases_to!(*items => items[i as int]));
                    }
                    items[i].write_to(out);
                    proof {
                        lemma_encode_all_push(vals.subrange(0, i as int), vals[i as int]);
                        assert(vals.subrange(0, i as int).push(vals[i as int]) =~= vals.subrange(
                            0,
                            i + 1,
                        ));
                    }
                    i = i + 1;
                }
                assert(vals.subrange(0, i as int) =~= vals);
            },
            RespData::Null => {
                out.push(LEAD_NULL);
                push_crlf(out);
            },
            RespData::Boolean(b) => {
                out.push(LEAD_BOOLEAN);
                out.push(
                    if *b {
                        TRUE_BYTE
                    } else {
                        FALSE_BYTE
                    },
                );
                push_crlf(out);
            },
        }
        assert(out@ =~= old(out)@ + encode(self@));
    }

    /// The frame of this value.
    pub fn as_bytes(&self) -> (r: Vec<u8>)
        ensures
            r@ == encode(self@),
    {
        let mut out: Vec<u8> = Vec::new();
        self.write_to(&mut out);
        assert(out@ =~= encode(self@));
        out
    }
}

/// The bytes between `lead` at the start of `value` and the first CRLF after it.
pub fn from_lead_until_crlf(lead: u8, value: &[u8]) -> (r: Result<&[u8], FrameError>)
    ensures
        value@.len() == 0 ==> r == Err::<&[u8], FrameError>(FrameError::Incomplete),
        value@.len() > 0 && value@[0] != lead ==> r == Err::<&[u8], FrameError>(
            FrameError::UnexpectedType,
        ),
        value@.len() > 0 && value@[0] == lead && !has_line(value@) ==> r == Err::<
            &[u8],
            FrameError,
        >(FrameError::Incomplete),
        value@.len() > 0 && value@[0] == lead && has_line(value@) ==> (r matches Ok(line)
            && line@ == line_of(value@)),
{
    if value.len() == 0 {
        return Err(FrameError::Incomplete);
    }
    if value[0] != lead {
        return Err(FrameError::UnexpectedType);
    }
    let mut i: usize = 1;
    while i < value.len() - 1
        invariant
            value@.len() > 0,
            value@[0] == lead,
            1 <= i <= value@.len(),
            forall|j: int| 1 <= j < i ==> !#[trigger] crlf_at(value@, j),
        decreases value@.len() - i,
    {
        if value[i] == CR && value[i + 1] == LF {
            proof {
                lemma_line_end_unique(value@, i as int);
            }
            return Ok(vstd::slice::slice_subrange(value, 1, i));
        }
        i = i + 1;
    }
    proof {
        if has_line(value@) {
            let e = line_end(value@);
            assert(is_line_end(value@, e));
            if e < i {
                assert(!crlf_at(value@, e));
            }
        }
    }
    Err(FrameError::Incomplete)
}

fn find_space(line: &[u8]) -> (r: Option<usize>)
    ensures
        r matches Some(i) ==> is_first_space(line@, i as int) && has_space(line@) && first_space(
            line@,
        ) == i,
        r is None ==> !has_space(line@),
{
    let mut i: usize = 0;
    while i < line.len()
        invariant
            i <= line@.len(),
            forall|j: int| 0 <= j < i ==> #[trigger] line@[j] != SPACE,
        decreases line@.len() - i,
    {
        if line[i] == SPACE {
            proof {
                lemma_first_space_unique(line@, i as int);
            }
            return Some(i);
        }
        i = i + 1;
    }
    proof {
        if has_space(line@) {
            let c = first_space(line@);
            assert(is_first_space(line@, c));
        }
    }
    None
}

fn text_of(b: &[u8]) -> (r: Option<String>)
    ensures
        r is Some <==> valid_utf8(b@),
        r matches Some(s) ==> s@ == decode_utf8(b@),
{
    match utf8_to_string(vstd::slice::slice_to_vec(b)) {
        Some(s) => {
            proof {
                vstd::utf8::encode_utf8_decode_utf8(s@);
            }
            Some(s)
        },
        None => None,
    }
}

fn is_minus_one(line: &[u8]) -> (r: bool)
    ensures
        r == (line@ == minus_one()),
{
    let r = line.len() == 2 && line[0] == MINUS && line[1] == ZERO + 1;
    if r {
        assert(line@ =~= minus_one());
    } else if line.len() == 2 {
        assert(line@[0] != minus_one()[0] || line@[1] != minus_one()[1]);
    }
    r
}

fn is_single(line: &[u8], c: u8) -> (r: bool)
    ensures
        r == (line@ == seq![c]),
{
    let r = line.len() == 1 && line[0] == c;
    if r {
        assert(line@ =~= seq![c]);
    } else if line.len() == 1 {
        assert(line@[0] != seq![c][0]);
    }
    r
}

impl RespData {
    /// Decodes the frame at the start of `b`, and says how many bytes it took.
    /// Bytes after the frame are left alone.
    pub fn decode(b: &[u8]) -> (r: Result<(RespData, usize), FrameError>)
        ensures
            decoded(b@, r),
            r matches Ok((_, m)) ==> 3 <= m <= b@.len(),
        decreases b@.len(),
    {
        proof {
            lemma_frame_size(b@);
        }
        if b.len() == 0 {
            return Err(FrameError::Incomplete);
        }
        let lead = b[0];
        if lead == 44 || lead == 40 || lead == 33 || lead == 61 || lead == 37 || lead == 124 || lead
            == 126 || lead == 62 {
            return Err(FrameError::Unsupported);
        }
        if !(lead == LEAD_SIMPLE_STRING || lead == LEAD_SIMPLE_ERROR || lead == LEAD_INTEGER || lead
            == LEAD_BULK_STRING || lead == LEAD_ARRAY || lead == LEAD_NULL || lead == LEAD_BOOLEAN) {
            return Err(FrameError::UnknownType);
        }
        let line = match from_lead_until_crlf(lead, b) {
            Ok(line) => line,
            Err(e) => {
                return Err(e);
            },
        };
        let ghost e = line_end(b@);
        proof {
            assert(is_line_end(b@, e));
        }
        let h: usize = line.len() + 3;
        assert(h == e + 2);
        if lead == LEAD_SIMPLE_STRING {
            match text_of(line) {
                Some(s) => Ok((RespData::SimpleString(s), h)),
                None => Err(FrameError::Malformed),
            }
        } else if lead == LEAD_SIMPLE_ERROR {
            let (kind_bytes, message_bytes) = match find_space(line) {
                Some(i) => (
                    vstd::slice::slice_subrange(line, 0, i),
                    vstd::slice::slice_subrange(line, i + 1, line.len()),
                ),
                None => (line, vstd::slice::slice_subrange(line, 0, 0)),
            };
            assert(kind_bytes@ == error_kind_bytes(line@));
            assert(message_bytes@ =~= error_message_bytes(line@));
            match (text_of(kind_bytes), text_of(message_bytes)) {
                (Some(kind), Some(message)) => Ok((RespData::SimpleError { kind, message }, h)),
                _ => Err(FrameError::Malformed),
            }
        } else if lead == LEAD_INTEGER {
            match crate::decimal::read_i64(line) {
                Some(n) => Ok((RespData::Integer(n), h)),
                None => Err(FrameError::Malformed),
            }
        } else if lead == LEAD_BULK_STRING {
            if is_minus_one(line) {
                return Ok((RespData::BulkString(None), h));
            }
            assert(line@.subrange(0, line@.len() as int) =~= line@);
            match crate::decimal::scan_digits(line, 0) {
                None => Err(FrameError::Malformed),
                Some(n) => {
                    let rest: usize = b.len() - h;
                    if n > rest as u128 || (rest as u128) - n < 2 {
                        Err(FrameError::Incomplete)
                    } else {
                        let n: usize = n as usize;
                        if b[h + n] == CR && b[h + n + 1] == LF {
                            let data = vstd::slice::slice_to_vec(
                                vstd::slice::slice_subrange(b, h, h + n),
                            );
                            Ok((RespData::BulkString(Some(data)), h + n + 2))
                        } else {
                            Err(FrameError::Malformed)
                        }
                    }
                },
            }
        } else if lead == LEAD_ARRAY {
            if is_minus_one(line) {
                return Ok((RespData::Array(None), h));
            }
            assert(line@.subrange(0, line@.len() as int) =~= line@);
            match crate::decimal::scan_digits(line, 0) {
                None => Err(FrameError::Malformed),
                Some(count) => RespData::decode_items(b, h, count),
            }
        } else if lead == LEAD_NULL {
            if line.len() == 0 {
                Ok((RespData::Null, h))
            } else {
                Err(FrameError::Malformed)
            }
        } else if is_single(line, TRUE_BYTE) {
            Ok((RespData::Boolean(true), h))
        } else if is_single(line, FALSE_BYTE) {
            Ok((RespData::Boolean(false), h))
        } else {
            Err(FrameError::Malformed)
        }
    }

    /// The elements of an array frame whose header line ends at `h`.
    #[verifier::loop_isolation(false)]
    fn decode_items(b: &[u8], h: usize, count: u128) -> (r: Result<(RespData, usize), FrameError>)
        requires
            b@.len() > 0,
            b@[0] == LEAD_ARRAY,
            has_line(b@),
            h == line_end(b@) + 2,
            line_of(b@) != minus_one(),
            parse_nat(line_of(b@)) is Some,
            count == if digits_value(line_of(b@)) <= u128::MAX {
                digits_value(line_of(b@))
            } else {
                u128::MAX as nat
            },
        ensures
            decoded(b@, r),
            r matches Ok((_, m)) ==> 3 <= m <= b@.len(),
        decreases b@.len(), 0int,
    {
        let ghost n = digits_value(line_of(b@));
        let ghost t = b@.subrange(h as int, b@.len() as int);
        proof {
            assert(is_line_end(b@, line_end(b@)));
            lemma_frame_size(b@);
        }
        let mut items: Vec<RespData> = Vec::new();
        let mut done: usize = 0;
        let mut p: usize = h;
        while (done as u128) < count
            invariant
                3 <= h <= p <= b@.len(),
                p >= h + 3 * done,
                done <= count,
                count == if n <= u128::MAX { n } else { u128::MAX as nat },
                t == b@.subrange(h as int, b@.len() as int),
                values_of(items@).len() == done,
                parse_items(t, n) == match parse_items(
                    b@.subrange(p as int, b@.len() as int),
                    (n - done) as nat,
                ) {
                    Ok((vs, k)) => Ok((values_of(items@) + vs, (p - h) + k)),
                    Err(err) => Err(err),
                },
            decreases count - done,
        {
            let sub = vstd::slice::slice_subrange(b, p, b.len());
            let ghost before = values_of(items@);
            match RespData::decode(sub) {
                Err(err) => {
                    proof {
                        assert(n - done > 0);
                        assert(parse_items(sub@, (n - done) as nat) == Err::<(Seq<Value>, int), FrameError>(err));
                        assert(parse_items(t, n) == Err::<(Seq<Value>, int), FrameError>(err));
                        assert(parse_frame(b@) == Err::<(Value, int), FrameError>(err));
                    }
                    return Err(err);
                },
                Ok((d, m)) => {
                    proof {
                        lemma_values_of_push(items@, d);
                        assert(sub@.subrange(m as int, sub@.len() as int) =~= b@.subrange(
                            p + m,
                            b@.len() as int,
                        ));
                        assert(n - done > 0);
                        let rest = parse_items(sub@.subrange(m as int, sub@.len() as int), (n - done - 1) as nat);
                        match rest {
                            Ok((vs, k2)) => {
                                assert(before + (seq![d@] + vs) =~= before.push(d@) + vs);
                            },
                            Err(_) => {},
                        }
                    }
                    items.push(d);
                    p = p + m;
                    done = done + 1;
                },
            }
        }
        proof {
            assert(done == count);
            assert(done < u128::MAX) by (nonlinear_arith)
                requires
                    p >= h + 3 * done,
                    p <= b@.len(),
                    p <= usize::MAX,
            ;
            assert(n == done);
            assert(values_of(items@) + Seq::<Value>::empty() =~= values_of(items@));
        }
        Ok((RespData::Array(Some(items)), p))
    }
}

impl RespData {
    /// Takes the frame at the start of `value` and moves `value` past it.
    /// On an error `value` is left as it was.
    pub fn from_bytes(value: &mut &[u8]) -> (r: Result<Self, FrameError>)
        ensures
            took(old(value)@, final(value)@, r, parse_frame(old(value)@)),
    {
        let whole: &[u8] = *value;
        match RespData::decode(whole) {
            Ok((d, m)) => {
                *value = vstd::slice::slice_subrange(whole, m, whole.len());
                Ok(d)
            },
            Err(e) => Err(e),
        }
    }

    fn take_of(value: &mut &[u8], lead: u8) -> (r: Result<Self, FrameError>)
        ensures
            took(old(value)@, final(value)@, r, parse_frame_of(old(value)@, lead)),
    {
        if value.len() == 0 {
            return Err(FrameError::Incomplete);
        }
        if value[0] != lead {
            return Err(FrameError::UnexpectedType);
        }
        RespData::from_bytes(value)
    }

    /// Takes a simple string frame from the start of `value`.
    pub fn parse_simple_string(value: &mut &[u8]) -> (r: Result<Self, FrameError>)
        ensures
            took(old(value)@, final(value)@, r, parse_frame_of(old(value)@, LEAD_SIMPLE_STRING)),
    {
        RespData::take_of(value, LEAD_SIMPLE_STRING)
    }

    /// Takes a simple error frame from the start of `value`.
    pub fn parse_simple_error(value: &mut &[u8]) -> (r: Result<Self, FrameError>)
        ensures
            took(old(value)@, final(value)@, r, parse_frame_of(old(value)@, LEAD_SIMPLE_ERROR)),
    {
        RespData::take_of(value, LEAD_SIMPLE_ERROR)
    }

    /// Takes an integer frame from the start of `value`.
    pub fn parse_integer(value: &mut &[u8]) -> (r: Result<Self, FrameError>)
        ensures
            took(old(value)@, final(value)@, r, parse_frame_of(old(value)@, LEAD_INTEGER)),
    {
        RespData::take_of(value, LEAD_INTEGER)
    }

    /// Takes a bulk string frame from the start of `value`.
    pub fn parse_bulk_string(value: &mut &[u8]) -> (r: Result<Self, FrameError>)
        ensures
            took(old(value)@, final(value)@, r, parse_frame_of(old(value)@, LEAD_BULK_STRING)),
    {
        RespData::take_of(value, LEAD_BULK_STRING)
    }

    /// Takes an array frame, with all its elements, from the start of `value`.
    pub fn parse_array(value: &mut &[u8]) -> (r: Result<Self, FrameError>)
        ensures
            took(old(value)@, final(value)@, r, parse_frame_of(old(value)@, LEAD_ARRAY)),
    {
        RespData::take_of(value, LEAD_ARRAY)
    }

    /// Takes a null frame from the start of `value`.
    pub fn parse_null(value: &mut &[u8]) -> (r: Result<Self, FrameError>)
        ensures
            took(old(value)@, final(value)@, r, parse_frame_of(old(value)@, LEAD_NULL)),
    {
        RespData::take_of(value, LEAD_NULL)
    }

    /// Takes a boolean frame from the start of `value`.
    pub fn parse_boolean(value: &mut &[u8]) -> (r: Result<Self, FrameError>)
        ensures
            took(old(value)@, final(value)@, r, parse_frame_of(old(value)@, LEAD_BOOLEAN)),
    {
        RespData::take_of(value, LEAD_BOOLEAN)
    }
}

/// No CR and no LF byte.
pub open spec fn no_line_break(b: Seq<u8>) -> bool {
    forall|i: int| 0 <= i < b.len() ==> #[trigger] b[i] != CR && b[i] != LF
}

pub open spec fn no_space(b: Seq<u8>) -> bool {
    forall|i: int| 0 <= i < b.len() ==> #[trigger] b[i] != SPACE
}

/// A value that the wire can carry: text of a simple string or error holds no
/// line break, the kind of an error holds no space, and an integer fits an `i64`.
pub open spec fn representable(v: Value) -> bool
    decreases v,
{
    match v {
        Value::SimpleString(t) => no_line_break(encode_utf8(t)),
        Value::SimpleError { kind, message } => no_line_break(encode_utf8(kind)) && no_space(
            encode_utf8(kind),
        ) && no_line_break(encode_utf8(message)),
        Value::Integer(n) => i64::MIN <= n <= i64::MAX,
        Value::Array(Some(items)) => all_representable(items),
        _ => true,
    }
}

pub open spec fn all_representable(items: Seq<Value>) -> bool
    decreases items,
{
    items.len() == 0 || (representable(items[0]) && all_representable(items.drop_first()))
}

proof fn lemma_header(lead: u8, body: Seq<u8>, tail: Seq<u8>)
    requires
        forall|i: int| 0 <= i < body.len() ==> #[trigger] body[i] != CR,
    ensures
        ({
            let b = seq![lead] + body + crlf() + tail;
            &&& b.len() > 0
            &&& b[0] == lead
            &&& has_line(b)
            &&& line_end(b) == body.len() + 1
            &&& line_of(b) == body
            &&& b.subrange(body.len() + 3int, b.len() as int) == tail
        }),
{
    let b = seq![lead] + body + crlf() + tail;
    let e: int = body.len() + 1int;
    assert(b[e] == CR);
    assert(b[e + 1] == LF);
    assert forall|j: int| 1 <= j < e implies !#[trigger] crlf_at(b, j) by {
        assert(b[j] == body[j - 1]);
    }
    assert(is_line_end(b, e));
    lemma_line_end_unique(b, e);
    assert(b.subrange(1, e) =~= body);
    assert(b.subrange(body.len() + 3int, b.len() as int) =~= tail);
}

proof fn lemma_digits_not_cr(s: Seq<u8>)
    requires
        forall|i: int| 0 <= i < s.len() ==> (is_digit(#[trigger] s[i]) || s[i] == MINUS),
    ensures
        forall|i: int| 0 <= i < s.len() ==> #[trigger] s[i] != CR,
{
}

proof fn lemma_round_trip_simple_string(t: Seq<char>, rest: Seq<u8>)
    requires
        no_line_break(encode_utf8(t)),
    ensures
        parse_frame(encode(Value::SimpleString(t)) + rest) == Ok::<(Value, int), FrameError>(
            (Value::SimpleString(t), encode(Value::SimpleString(t)).len() as int),
        ),
{
    let b = encode(Value::SimpleString(t)) + rest;
    let body = encode_utf8(t);
    lemma_header(LEAD_SIMPLE_STRING, body, rest);
    assert(b =~= seq![LEAD_SIMPLE_STRING] + body + crlf() + rest);
    crate::text::lemma_utf8_round_trip(t);
}

proof fn lemma_round_trip_simple_error(kind: Seq<char>, message: Seq<char>, rest: Seq<u8>)
    requires
        no_line_break(encode_utf8(kind)),
        no_space(encode_utf8(kind)),
        no_line_break(encode_utf8(message)),
    ensures
        ({
            let v = Value::SimpleError { kind, message };
            parse_frame(encode(v) + rest) == Ok::<(Value, int), FrameError>(
                (v, encode(v).len() as int),
            )
        }),
{
    let v = Value::SimpleError { kind, message };
    let b = encode(v) + rest;
    let k = encode_utf8(kind);
    let m = encode_utf8(message);
    let body = k + seq![SPACE] + m;
    assert forall|i: int| 0 <= i < body.len() implies #[trigger] body[i] != CR by {
        if i < k.len() {
            assert(body[i] == k[i]);
        } else if i > k.len() {
            assert(body[i] == m[i - k.len() - 1]);
        }
    }
    lemma_header(LEAD_SIMPLE_ERROR, body, rest);
    assert(b =~= seq![LEAD_SIMPLE_ERROR] + body + crlf() + rest);
    assert forall|j: int| 0 <= j < k.len() implies #[trigger] body[j] != SPACE by {
        assert(body[j] == k[j]);
    }
    assert(is_first_space(body, k.len() as int));
    lemma_first_space_unique(body, k.len() as int);
    assert(body.subrange(0, k.len() as int) =~= k);
    assert(body.subrange(k.len() + 1int, body.len() as int) =~= m);
    crate::text::lemma_utf8_round_trip(kind);
    crate::text::lemma_utf8_round_trip(message);
}

proof fn lemma_round_trip_integer(n: int, rest: Seq<u8>)
    requires
        i64::MIN <= n <= i64::MAX,
    ensures
        parse_frame(encode(Value::Integer(n)) + rest) == Ok::<(Value, int), FrameError>(
            (Value::Integer(n), encode(Value::Integer(n)).len() as int),
        ),
{
    let b = encode(Value::Integer(n)) + rest;
    let body = int_text(n);
    crate::decimal::lemma_int_text(n);
    lemma_digits_not_cr(body);
    lemma_header(LEAD_INTEGER, body, rest);
    assert(b =~= seq![LEAD_INTEGER] + body + crlf() + rest);
}

proof fn lemma_round_trip_bulk_string(p: Seq<u8>, rest: Seq<u8>)
    ensures
        ({
            let v = Value::BulkString(Some(p));
            parse_frame(encode(v) + rest) == Ok::<(Value, int), FrameError>(
                (v, encode(v).len() as int),
            )
        }),
{
    let b = encode(Value::BulkString(Some(p))) + rest;
    let body = nat_text(p.len());
    crate::decimal::lemma_nat_text(p.len());
    lemma_digits_not_cr(body);
    let tail = p + crlf() + rest;
    lemma_header(LEAD_BULK_STRING, body, tail);
    assert(b =~= seq![LEAD_BULK_STRING] + body + crlf() + tail);
    assert(body[0] != MINUS);
    assert(body != minus_one());
    let h: int = body.len() + 3int;
    let n: int = p.len() as int;
    assert(b[h + n] == CR);
    assert(b[h + n + 1] == LF);
    assert(b.subrange(h, h + n) =~= p);
}

#[verifier::rlimit(40)]
proof fn lemma_round_trip_array(items: Seq<Value>, rest: Seq<u8>)
    requires
        all_representable(items),
    ensures
        ({
            let v = Value::Array(Some(items));
            parse_frame(encode(v) + rest) == Ok::<(Value, int), FrameError>(
                (v, encode(v).len() as int),
            )
        }),
    decreases items, 1int,
{
    let b = encode(Value::Array(Some(items))) + rest;
    let body = nat_text(items.len());
    crate::decimal::lemma_nat_text(items.len());
    lemma_digits_not_cr(body);
    let tail = encode_all(items) + rest;
    lemma_header(LEAD_ARRAY, body, tail);
    assert(b =~= seq![LEAD_ARRAY] + body + crlf() + tail);
    assert(body[0] != MINUS);
    assert(body != minus_one());
    lemma_round_trip_all(items, rest);
    let h: int = body.len() + 3int;
    assert(line_of(b) == body);
    assert(parse_nat(body) == Some(items.len()));
    assert(b.subrange(h, b.len() as int) == tail);
    assert(parse_items(tail, items.len()) == Ok::<(Seq<Value>, int), FrameError>(
        (items, encode_all(items).len() as int),
    ));
}

proof fn lemma_round_trip_fixed(v: Value, rest: Seq<u8>)
    requires
        v is Null || v is Boolean || v == Value::BulkString(None) || v == Value::Array(None),
    ensures
        parse_frame(encode(v) + rest) == Ok::<(Value, int), FrameError>((v, encode(v).len() as int)),
{
    let b = encode(v) + rest;
    let body = match v {
        Value::Null => Seq::<u8>::empty(),
        Value::Boolean(x) => seq![
            if x {
                TRUE_BYTE
            } else {
                FALSE_BYTE
            },
        ],
        _ => minus_one(),
    };
    let lead = b[0];
    assert(encode(v) =~= seq![lead] + body + crlf());
    lemma_header(lead, body, rest);
    assert(b =~= seq![lead] + body + crlf() + rest);
    assert(seq![TRUE_BYTE] != seq![FALSE_BYTE]) by {
        assert(seq![TRUE_BYTE][0] != seq![FALSE_BYTE][0]);
    }
}

/// Decoding the frame of a value gives the value back and takes exactly the
/// bytes of that frame, whatever follows it.
pub proof fn lemma_round_trip(v: Value, rest: Seq<u8>)
    requires
        representable(v),
    ensures
        parse_frame(encode(v) + rest) == Ok::<(Value, int), FrameError>((v, encode(v).len() as int)),
    decreases v, 1int,
{
    match v {
        Value::SimpleString(t) => lemma_round_trip_simple_string(t, rest),
        Value::SimpleError { kind, message } => lemma_round_trip_simple_error(kind, message, rest),
        Value::Integer(n) => lemma_round_trip_integer(n, rest),
        Value::BulkString(Some(p)) => lemma_round_trip_bulk_string(p, rest),
        Value::Array(Some(items)) => lemma_round_trip_array(items, rest),
        _ => lemma_round_trip_fixed(v, rest),
    }
}

/// The frames of several values, one after another, decode to those values.
pub proof fn lemma_round_trip_all(items: Seq<Value>, rest: Seq<u8>)
    requires
        all_representable(items),
    ensures
        parse_items(encode_all(items) + rest, items.len()) == Ok::<(Seq<Value>, int), FrameError>(
            (items, encode_all(items).len() as int),
        ),
    decreases items, 0int,
{
    let t = encode_all(items) + rest;
    if items.len() == 0 {
        assert(items =~= Seq::<Value>::empty());
    } else {
        let first = items[0];
        let others = items.drop_first();
        let after = encode_all(others) + rest;
        assert(t =~= encode(first) + after);
        lemma_round_trip(first, after);
        lemma_frame_size(t);
        let k = encode(first).len() as int;
        assert(t.subrange(k, t.len() as int) =~= after);
        lemma_round_trip_all(others, rest);
        assert(seq![first] + others =~= items);
        assert(items.len() - 1 == others.len());
    }
}

/// The null string and the empty string are framed differently, and so are the
/// null array and the empty array.
pub proof fn lemma_null_differs_from_empty()
    ensures
        encode(Value::BulkString(None)) != encode(Value::BulkString(Some(Seq::empty()))),
        encode(Value::Array(None)) != encode(Value::Array(Some(Seq::empty()))),
{
    assert(encode(Value::BulkString(None))[1] == MINUS);
    assert(encode(Value::BulkString(Some(Seq::empty())))[1] == ZERO);
    assert(encode(Value::Array(None))[1] == MINUS);
    assert(encode(Value::Array(Some(Seq::empty())))[1] == ZERO);
}

} // verus!
