use vstd::prelude::*;

verus! {

broadcast use vstd::std_specs::vec::group_vec_axioms;

// Byte constants of the bencode wire grammar.
pub const TAG_INT: u8 = 105; // 'i'
pub const TAG_LIST: u8 = 108; // 'l'
pub const TAG_DICT: u8 = 100; // 'd'
pub const TAG_END: u8 = 101; // 'e'
pub const COLON: u8 = 58; // ':'
pub const MINUS: u8 = 45; // '-'
pub const DIGIT_ZERO: u8 = 48; // '0'

/// The mathematical model of a bencode value: byte strings, integers,
/// lists, and dictionaries given as ordered key/value sequences.
pub enum BValue {
    Bytes(Seq<u8>),
    Int(int),
    List(Seq<BValue>),
    Dict(Seq<(Seq<u8>, BValue)>),
}

/// A bencode value as held by executable code.  Dictionaries are kept as
/// key/value vectors in key order; the decoder only ever produces
/// canonically sorted dictionaries (strict policy), and the encoder sorts
/// whatever it is given.
#[derive(Debug, PartialEq)]
pub enum BencodeValue {
    ByteString(Vec<u8>),
    Integer(i64),
    List(Vec<BencodeValue>),
    Dictionary(Vec<(Vec<u8>, BencodeValue)>),
}

impl BencodeValue {
    /// The mathematical value this executable value stands for.
    pub open spec fn bval(self) -> BValue
        decreases self,
    {
        match self {
            BencodeValue::ByteString(b) => BValue::Bytes(b@),
            BencodeValue::Integer(i) => BValue::Int(i as int),
            BencodeValue::List(xs) => BValue::List(bval_list(xs@)),
            BencodeValue::Dictionary(es) => BValue::Dict(bval_entries(es@)),
        }
    }
}

pub open spec fn bval_list(s: Seq<BencodeValue>) -> Seq<BValue>
    decreases s,
{
    if s.len() == 0 {
        Seq::empty()
    } else {
        seq![s[0].bval()] + bval_list(s.drop_first())
    }
}

pub open spec fn bval_entries(s: Seq<(Vec<u8>, BencodeValue)>) -> Seq<(Seq<u8>, BValue)>
    decreases s,
{
    if s.len() == 0 {
        Seq::empty()
    } else {
        seq![(s[0].0@, s[0].1.bval())] + bval_entries(s.drop_first())
    }
}

pub open spec fn is_digit(b: u8) -> bool {
    DIGIT_ZERO <= b && b <= 57
}

/// Strict lexicographic (byte-wise) order on byte strings.
pub open spec fn lex_lt(a: Seq<u8>, b: Seq<u8>) -> bool
    decreases a.len(),
{
    if b.len() == 0 {
        false
    } else if a.len() == 0 {
        true
    } else if a[0] < b[0] {
        true
    } else if a[0] > b[0] {
        false
    } else {
        lex_lt(a.drop_first(), b.drop_first())
    }
}

/// Minimal decimal digits of a non-negative integer ("0" for zero,
/// no leading zeros otherwise).
pub open spec fn dec_u(n: nat) -> Seq<u8>
    decreases n,
{
    if n < 10 {
        seq![(DIGIT_ZERO + n) as u8]
    } else {
        dec_u(n / 10) + seq![(DIGIT_ZERO + (n % 10)) as u8]
    }
}

/// Canonical decimal spelling of a (possibly negative) integer.
pub open spec fn int_bytes(i: int) -> Seq<u8> {
    if i < 0 {
        seq![MINUS] + dec_u((-i) as nat)
    } else {
        dec_u(i as nat)
    }
}

/// Canonical encoding of a byte string: `<len>:<bytes>`.
pub open spec fn enc_bytes(b: Seq<u8>) -> Seq<u8> {
    dec_u(b.len()) + seq![COLON] + b
}

/// Canonical bencode encoding of a value, with dictionary entries emitted
/// in the order they stand in the sequence.
pub open spec fn spec_enc(v: BValue) -> Seq<u8>
    decreases v,
{
    match v {
        BValue::Bytes(b) => enc_bytes(b),
        BValue::Int(i) => seq![TAG_INT] + int_bytes(i) + seq![TAG_END],
        BValue::List(xs) => seq![TAG_LIST] + enc_list(xs) + seq![TAG_END],
        BValue::Dict(es) => seq![TAG_DICT] + enc_dict(es) + seq![TAG_END],
    }
}

pub open spec fn enc_list(xs: Seq<BValue>) -> Seq<u8>
    decreases xs,
{
    if xs.len() == 0 {
        Seq::empty()
    } else {
        spec_enc(xs[0]) + enc_list(xs.drop_first())
    }
}

pub open spec fn enc_dict(es: Seq<(Seq<u8>, BValue)>) -> Seq<u8>
    decreases es,
{
    if es.len() == 0 {
        Seq::empty()
    } else {
        enc_bytes(es[0].0) + spec_enc(es[0].1) + enc_dict(es.drop_first())
    }
}

/// Keys strictly increasing in byte-wise order (hence unique).
pub open spec fn sorted_keys(es: Seq<(Seq<u8>, BValue)>) -> bool {
    forall|i: int, j: int| 0 <= i < j < es.len() ==> lex_lt(es[i].0, es[j].0)
}

/// A value is canonical when every integer fits `i64` and every
/// dictionary, at every level, has strictly increasing keys.  The decoder
/// only produces canonical values, and only canonical values round-trip
/// unchanged through the encoder.
pub open spec fn canonical(v: BValue) -> bool
    decreases v,
{
    match v {
        BValue::Bytes(b) => true,
        BValue::Int(i) => i64::MIN <= i && i <= i64::MAX,
        BValue::List(xs) => canonical_list(xs),
        BValue::Dict(es) => sorted_keys(es) && canonical_entries(es),
    }
}

pub open spec fn canonical_list(xs: Seq<BValue>) -> bool
    decreases xs,
{
    if xs.len() == 0 {
        true
    } else {
        canonical(xs[0]) && canonical_list(xs.drop_first())
    }
}

pub open spec fn canonical_entries(es: Seq<(Seq<u8>, BValue)>) -> bool
    decreases es,
{
    if es.len() == 0 {
        true
    } else {
        canonical(es[0].1) && canonical_entries(es.drop_first())
    }
}

/// The nesting depth of a value is at most `d` (a byte string or integer
/// has depth 1; each containing list or dictionary adds one).
pub open spec fn depth_le(v: BValue, d: int) -> bool
    decreases v,
{
    match v {
        BValue::Bytes(b) => d >= 1,
        BValue::Int(i) => d >= 1,
        BValue::List(xs) => d >= 1 && depth_le_list(xs, d - 1),
        BValue::Dict(es) => d >= 1 && depth_le_entries(es, d - 1),
    }
}

pub open spec fn depth_le_list(xs: Seq<BValue>, d: int) -> bool
    decreases xs,
{
    if xs.len() == 0 {
        true
    } else {
        depth_le(xs[0], d) && depth_le_list(xs.drop_first(), d)
    }
}

pub open spec fn depth_le_entries(es: Seq<(Seq<u8>, BValue)>, d: int) -> bool
    decreases es,
{
    if es.len() == 0 {
        true
    } else {
        depth_le(es[0].1, d) && depth_le_entries(es.drop_first(), d)
    }
}

pub proof fn lemma_lex_lt_trans(a: Seq<u8>, b: Seq<u8>, c: Seq<u8>)
    requires
        lex_lt(a, b),
        lex_lt(b, c),
    ensures
        lex_lt(a, c),
    decreases a.len(),
{
    if a.len() > 0 && b.len() > 0 && c.len() > 0 && a[0] == b[0] && b[0] == c[0] {
        lemma_lex_lt_trans(a.drop_first(), b.drop_first(), c.drop_first());
    }
}

/// Of two distinct byte strings, one is strictly below the other.
pub proof fn lemma_lex_total(a: Seq<u8>, b: Seq<u8>)
    ensures
        lex_lt(a, b) || lex_lt(b, a) || a == b,
        lex_lt(a, b) ==> !lex_lt(b, a) && a != b,
    decreases a.len(),
{
    if a.len() > 0 && b.len() > 0 && a[0] == b[0] {
        lemma_lex_total(a.drop_first(), b.drop_first());
        if a.drop_first() == b.drop_first() {
            assert forall|i: int| 0 <= i < a.len() implies a[i] == b[i] by {
                if i > 0 {
                    assert(a[i] == a.drop_first()[i - 1]);
                    assert(b[i] == b.drop_first()[i - 1]);
                }
            }
            assert(a =~= b);
        }
    } else if a.len() == 0 && b.len() == 0 {
        assert(a =~= b);
    }
}

} // verus!
