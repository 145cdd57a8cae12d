use vstd::prelude::*;

use crate::value::{
    BValue, canonical, canonical_list, canonical_entries, sorted_keys, depth_le, depth_le_list,
    depth_le_entries, lex_lt, lemma_lex_lt_trans, spec_enc, enc_list, enc_dict, enc_bytes, dec_u,
    int_bytes, is_digit, TAG_INT, TAG_LIST, TAG_DICT, TAG_END, COLON, MINUS, DIGIT_ZERO,
};
use crate::parse::{
    DecodeError, digit_run_end, digits_val, spec_parse, spec_parse_items, spec_parse_entries,
    spec_parse_bstr, spec_parse_int, lemma_digit_run_end, lemma_digits_val_nonneg,
};
use crate::DEPTH_LIMIT;

verus! {

// === Decimal digits: facts about `dec_u` and `digits_val` ===

proof fn lemma_dec_u_digits(n: nat)
    ensures
        dec_u(n).len() >= 1,
        forall|i: int| 0 <= i < dec_u(n).len() ==> is_digit(#[trigger] dec_u(n)[i]),
    decreases n,
{
    if n >= 10 {
        lemma_dec_u_digits(n / 10);
        assert forall|i: int| 0 <= i < dec_u(n).len() implies is_digit(#[trigger] dec_u(n)[i]) by {
            if i < dec_u(n / 10).len() {
                assert(dec_u(n)[i] == dec_u(n / 10)[i]);
            }
        }
    }
}

proof fn lemma_dec_u_head(n: nat)
    ensures
        n >= 1 ==> dec_u(n)[0] != DIGIT_ZERO,
        n == 0 ==> dec_u(n) == seq![DIGIT_ZERO],
    decreases n,
{
    if n >= 10 {
        lemma_dec_u_head(n / 10);
        assert(dec_u(n)[0] == dec_u(n / 10)[0]);
    }
}

proof fn lemma_dec_u_val(n: nat)
    ensures
        digits_val(dec_u(n)) == n,
    decreases n,
{
    if n < 10 {
        assert(dec_u(n).drop_last() =~= Seq::<u8>::empty());
        assert(digits_val(dec_u(n)) == digits_val(Seq::<u8>::empty()) * 10 + n);
    } else {
        lemma_dec_u_val(n / 10);
        assert(dec_u(n).drop_last() =~= dec_u(n / 10));
        assert(dec_u(n).last() == (DIGIT_ZERO + (n % 10)) as u8);
        assert(digits_val(dec_u(n)) == digits_val(dec_u(n / 10)) * 10 + (n % 10));
        assert((n / 10) * 10 + n % 10 == n);
    }
}

proof fn lemma_digits_val_lower(d: Seq<u8>)
    requires
        d.len() >= 1,
        forall|i: int| 0 <= i < d.len() ==> is_digit(d[i]),
        d[0] != DIGIT_ZERO,
    ensures
        digits_val(d) >= 1,
    decreases d.len(),
{
    if d.len() == 1 {
        assert(d.drop_last() =~= Seq::<u8>::empty());
        assert(digits_val(d) == digits_val(Seq::<u8>::empty()) * 10 + (d[0] - DIGIT_ZERO));
        assert(d[0] > DIGIT_ZERO);
    } else {
        let dd = d.drop_last();
        assert(dd[0] == d[0]);
        assert forall|i: int| 0 <= i < dd.len() implies is_digit(dd[i]) by {
            assert(dd[i] == d[i]);
        }
        lemma_digits_val_lower(dd);
        assert(is_digit(d.last()));
        assert(digits_val(d) == digits_val(dd) * 10 + (d.last() - DIGIT_ZERO));
        assert(digits_val(dd) * 10 >= 10);
    }
}

proof fn lemma_dec_u_inverse(d: Seq<u8>)
    requires
        d.len() >= 1,
        forall|i: int| 0 <= i < d.len() ==> is_digit(d[i]),
        d.len() > 1 ==> d[0] != DIGIT_ZERO,
    ensures
        dec_u(digits_val(d) as nat) == d,
    decreases d.len(),
{
    lemma_digits_val_nonneg(d);
    if d.len() == 1 {
        assert(d.drop_last() =~= Seq::<u8>::empty());
        assert(digits_val(d) == digits_val(Seq::<u8>::empty()) * 10 + (d[0] - DIGIT_ZERO));
        assert(dec_u(digits_val(d) as nat) =~= d);
    } else {
        let dd = d.drop_last();
        assert(dd[0] == d[0]);
        assert forall|i: int| 0 <= i < dd.len() implies is_digit(dd[i]) by {
            assert(dd[i] == d[i]);
        }
        lemma_digits_val_lower(dd);
        lemma_digits_val_nonneg(dd);
        lemma_dec_u_inverse(dd);
        assert(is_digit(d.last()));
        let a = digits_val(dd);
        let b: int = d.last() - DIGIT_ZERO;
        let v = digits_val(d);
        assert(v == a * 10 + b);
        assert(v / 10 == a && v % 10 == b) by (nonlinear_arith)
            requires
                v == a * 10 + b,
                0 <= b < 10,
                a >= 1,
        ;
        assert(dec_u(v as nat) == dec_u((v as nat) / 10) + seq![(DIGIT_ZERO + ((v as nat) % 10)) as u8]);
        assert((v as nat) / 10 == a as nat);
        assert(dec_u(v as nat) =~= d);
    }
}

proof fn lemma_digit_run_exact(s: Seq<u8>, pos: int, k: int)
    requires
        0 <= pos,
        0 <= k,
        pos + k <= s.len(),
        forall|i: int| pos <= i < pos + k ==> is_digit(s[i]),
        pos + k == s.len() || !is_digit(s[pos + k]),
    ensures
        digit_run_end(s, pos) == pos + k,
    decreases k,
{
    if k > 0 {
        lemma_digit_run_exact(s, pos + 1, k - 1);
    }
}

/// Every encoding is at least two bytes and opens with a byte that is
/// neither a terminator nor ambiguous with another form.
proof fn lemma_enc_head(v: BValue)
    ensures
        spec_enc(v).len() >= 2,
        spec_enc(v)[0] != TAG_END,
        v matches BValue::Bytes(b) ==> is_digit(spec_enc(v)[0]),
        v matches BValue::Int(i) ==> spec_enc(v)[0] == TAG_INT,
        v matches BValue::List(xs) ==> spec_enc(v)[0] == TAG_LIST,
        v matches BValue::Dict(es) ==> spec_enc(v)[0] == TAG_DICT,
{
    match v {
        BValue::Bytes(b) => {
            lemma_dec_u_digits(b.len());
            assert(spec_enc(v)[0] == dec_u(b.len())[0]);
        },
        BValue::Int(i) => (),
        BValue::List(xs) => (),
        BValue::Dict(es) => (),
    }
}

// === Soundness: whatever the decoder accepts is a canonical value whose
// canonical encoding is exactly the bytes consumed ===

proof fn lemma_parse_bstr_sound(s: Seq<u8>, pos: int)
    requires
        0 <= pos < s.len(),
        is_digit(s[pos]),
    ensures
        spec_parse_bstr(s, pos) matches Ok(p) ==> {
            &&& pos < p.1 <= s.len()
            &&& enc_bytes(p.0) == s.subrange(pos, p.1)
        },
{
    lemma_digit_run_end(s, pos);
    let dend = digit_run_end(s, pos);
    let digits = s.subrange(pos, dend);
    assert forall|i: int| 0 <= i < digits.len() implies is_digit(digits[i]) by {
        assert(digits[i] == s[pos + i]);
    }
    lemma_digits_val_nonneg(digits);
    match spec_parse_bstr(s, pos) {
        Ok(p) => {
            assert(digits.len() >= 1);
            lemma_dec_u_inverse(digits);
            let n = digits_val(digits);
            assert(p.0 == s.subrange(dend + 1, dend + 1 + n));
            assert(p.0.len() == n);
            assert(dec_u(p.0.len()) == digits);
            assert(enc_bytes(p.0) =~= s.subrange(pos, p.1));
        },
        Err(e) => (),
    }
}

proof fn lemma_parse_int_sound(s: Seq<u8>, pos: int)
    requires
        0 <= pos < s.len(),
        s[pos] == TAG_INT,
    ensures
        spec_parse_int(s, pos) matches Ok(p) ==> {
            &&& pos < p.1 <= s.len()
            &&& i64::MIN <= p.0 <= i64::MAX
            &&& spec_enc(BValue::Int(p.0)) == s.subrange(pos, p.1)
        },
{
    let p = pos + 1;
    let neg = p < s.len() && s[p] == MINUS;
    let q: int = if neg {
        p + 1
    } else {
        p
    };
    lemma_digit_run_end(s, q);
    let dend = digit_run_end(s, q);
    let digits = s.subrange(q, dend);
    assert forall|i: int| 0 <= i < digits.len() implies is_digit(digits[i]) by {
        assert(digits[i] == s[q + i]);
    }
    lemma_digits_val_nonneg(digits);
    match spec_parse_int(s, pos) {
        Ok(r) => {
            lemma_dec_u_inverse(digits);
            if neg {
                assert(digits_val(digits) >= 1);
                assert(int_bytes(r.0) =~= seq![MINUS] + dec_u(digits_val(digits) as nat));
                assert(spec_enc(BValue::Int(r.0)) =~= s.subrange(pos, r.1));
            } else {
                assert(int_bytes(r.0) == dec_u(digits_val(digits) as nat));
                assert(spec_enc(BValue::Int(r.0)) =~= s.subrange(pos, r.1));
            }
        },
        Err(e) => (),
    }
}

/// Decoder soundness, main form: an accepted value is canonical, within
/// the depth bound, and its canonical encoding is exactly the consumed
/// bytes.
pub proof fn lemma_parse_sound(s: Seq<u8>, pos: int, depth: int)
    ensures
        spec_parse(s, pos, depth) matches Ok(p) ==> {
            &&& canonical(p.0)
            &&& depth_le(p.0, depth)
            &&& pos < p.1 <= s.len()
            &&& s.subrange(pos, p.1) == spec_enc(p.0)
        },
    decreases s.len() - pos, 0int,
{
    if depth <= 0 || pos < 0 || pos >= s.len() {
    } else if s[pos] == TAG_INT {
        lemma_parse_int_sound(s, pos);
    } else if is_digit(s[pos]) {
        lemma_parse_bstr_sound(s, pos);
    } else if s[pos] == TAG_LIST {
        lemma_items_sound(s, pos + 1, depth);
        match spec_parse_items(s, pos + 1, depth) {
            Ok(t) => {
                assert(s.subrange(pos, t.1) =~= seq![TAG_LIST] + s.subrange(pos + 1, t.1));
                assert(s.subrange(pos, t.1) =~= spec_enc(BValue::List(t.0)));
            },
            Err(e) => (),
        }
    } else if s[pos] == TAG_DICT {
        lemma_entries_sound(s, pos + 1, depth, Option::None);
        match spec_parse_entries(s, pos + 1, depth, Option::None) {
            Ok(t) => {
                assert(s.subrange(pos, t.1) =~= seq![TAG_DICT] + s.subrange(pos + 1, t.1));
                assert(s.subrange(pos, t.1) =~= spec_enc(BValue::Dict(t.0)));
            },
            Err(e) => (),
        }
    }
}

pub proof fn lemma_items_sound(s: Seq<u8>, pos: int, depth: int)
    ensures
        spec_parse_items(s, pos, depth) matches Ok(t) ==> {
            &&& canonical_list(t.0)
            &&& depth_le_list(t.0, depth - 1)
            &&& pos < t.1 <= s.len()
            &&& s.subrange(pos, t.1) == enc_list(t.0) + seq![TAG_END]
        },
    decreases s.len() - pos, 1int,
{
    if 0 <= pos < s.len() {
        if s[pos] == TAG_END {
            assert(s.subrange(pos, pos + 1) =~= enc_list(Seq::<BValue>::empty()) + seq![TAG_END]);
        } else {
            lemma_parse_sound(s, pos, depth - 1);
            match spec_parse(s, pos, depth - 1) {
                Ok(p) => {
                    lemma_items_sound(s, p.1, depth);
                    match spec_parse_items(s, p.1, depth) {
                        Ok(t) => {
                            let r = seq![p.0] + t.0;
                            assert(r.drop_first() =~= t.0);
                            assert(r[0] == p.0);
                            assert(canonical_list(r));
                            assert(depth_le_list(r, depth - 1));
                            assert(enc_list(r) == spec_enc(p.0) + enc_list(t.0));
                            assert(s.subrange(pos, t.1) =~= s.subrange(pos, p.1) + s.subrange(
                                p.1,
                                t.1,
                            ));
                            assert(s.subrange(pos, t.1) =~= enc_list(r) + seq![TAG_END]);
                        },
                        Err(e) => (),
                    }
                },
                Err(e) => (),
            }
        }
    }
}

pub proof fn lemma_entries_sound(s: Seq<u8>, pos: int, depth: int, prev: Option<Seq<u8>>)
    ensures
        spec_parse_entries(s, pos, depth, prev) matches Ok(t) ==> {
            &&& canonical_entries(t.0)
            &&& sorted_keys(t.0)
            &&& depth_le_entries(t.0, depth - 1)
            &&& pos < t.1 <= s.len()
            &&& s.subrange(pos, t.1) == enc_dict(t.0) + seq![TAG_END]
            &&& (prev matches Option::Some(pk) ==> forall|i: int|
                0 <= i < t.0.len() ==> lex_lt(pk, #[trigger] t.0[i].0))
        },
    decreases s.len() - pos, 1int,
{
    if 0 <= pos < s.len() && s[pos] != TAG_END && is_digit(s[pos]) {
        lemma_parse_bstr_sound(s, pos);
        match spec_parse_bstr(s, pos) {
            Ok(kp) => {
                lemma_parse_sound(s, kp.1, depth - 1);
                match spec_parse(s, kp.1, depth - 1) {
                    Ok(vp) => {
                        lemma_entries_sound(s, vp.1, depth, Option::Some(kp.0));
                        let dup = match prev {
                            Option::Some(pk) => pk == kp.0,
                            Option::None => false,
                        };
                        let ordered = match prev {
                            Option::Some(pk) => lex_lt(pk, kp.0),
                            Option::None => true,
                        };
                        match spec_parse_entries(s, vp.1, depth, Option::Some(kp.0)) {
                            Ok(t) => if !dup && ordered {
                                let r = seq![(kp.0, vp.0)] + t.0;
                                assert(r.drop_first() =~= t.0);
                                assert(r[0] == (kp.0, vp.0));
                                assert(canonical_entries(r));
                                assert(depth_le_entries(r, depth - 1));
                                assert forall|i: int, j: int|
                                    0 <= i < j < r.len() implies lex_lt(r[i].0, r[j].0) by {
                                    if i == 0 {
                                        assert(r[j] == t.0[j - 1]);
                                    } else {
                                        assert(r[i] == t.0[i - 1]);
                                        assert(r[j] == t.0[j - 1]);
                                    }
                                }
                                match prev {
                                    Option::Some(pk) => {
                                        assert forall|i: int|
                                            0 <= i < r.len() implies lex_lt(
                                            pk,
                                            #[trigger] r[i].0,
                                        ) by {
                                            if i == 0 {
                                            } else {
                                                assert(r[i] == t.0[i - 1]);
                                                lemma_lex_lt_trans(pk, kp.0, r[i].0);
                                            }
                                        }
                                    },
                                    Option::None => (),
                                }
                                assert(enc_dict(r) == enc_bytes(kp.0) + spec_enc(vp.0) + enc_dict(
                                    t.0,
                                ));
                                assert(s.subrange(pos, t.1) =~= s.subrange(pos, kp.1) + s.subrange(
                                    kp.1,
                                    vp.1,
                                ) + s.subrange(vp.1, t.1));
                                assert(s.subrange(pos, t.1) =~= enc_dict(r) + seq![TAG_END]);
                            },
                            Err(e) => (),
                        }
                    },
                    Err(e) => (),
                }
            },
            Err(e) => (),
        }
    } else if 0 <= pos < s.len() && s[pos] == TAG_END {
        assert(s.subrange(pos, pos + 1) =~= enc_dict(Seq::<(Seq<u8>, BValue)>::empty()) + seq![
            TAG_END,
        ]);
    }
}

} // verus!

verus! {

// === Completeness: the decoder accepts every canonical encoding ===

proof fn lemma_parse_bstr_of_enc(s: Seq<u8>, pos: int, b: Seq<u8>)
    requires
        0 <= pos,
        pos + enc_bytes(b).len() <= s.len(),
        s.subrange(pos, pos + enc_bytes(b).len()) == enc_bytes(b),
    ensures
        spec_parse_bstr(s, pos) == Ok::<(Seq<u8>, int), DecodeError>(
            (b, pos + enc_bytes(b).len()),
        ),
{
    let eb = enc_bytes(b);
    let dl = dec_u(b.len()).len() as int;
    lemma_dec_u_digits(b.len());
    lemma_dec_u_head(b.len());
    lemma_dec_u_val(b.len());
    let sub = s.subrange(pos, pos + eb.len());
    assert forall|i: int| pos <= i < pos + dl implies is_digit(s[i]) by {
        assert(sub[i - pos] == s[i]);
        assert(eb[i - pos] == dec_u(b.len())[i - pos]);
    }
    assert(sub[dl] == s[pos + dl]);
    assert(eb[dl] == COLON);
    assert(!is_digit(COLON));
    lemma_digit_run_exact(s, pos, dl);
    let digits = s.subrange(pos, pos + dl);
    assert forall|i: int| 0 <= i < dl implies digits[i] == dec_u(b.len())[i] by {
        assert(digits[i] == s[pos + i]);
        assert(sub[i] == s[pos + i]);
    }
    assert(digits =~= dec_u(b.len()));
    assert(digits.len() > 1 ==> b.len() >= 10);
    assert(digits_val(digits) == b.len());
    let rb = s.subrange(pos + dl + 1, pos + dl + 1 + b.len());
    assert forall|i: int| 0 <= i < b.len() implies rb[i] == b[i] by {
        assert(rb[i] == s[pos + dl + 1 + i]);
        assert(sub[dl + 1 + i] == s[pos + dl + 1 + i]);
        assert(eb[dl + 1 + i] == b[i]);
    }
    assert(rb =~= b);
    assert(spec_parse_bstr(s, pos) == Ok::<(Seq<u8>, int), DecodeError>((b, pos + eb.len())));
}

proof fn lemma_parse_int_of_enc(s: Seq<u8>, pos: int, i: int)
    requires
        i64::MIN <= i <= i64::MAX,
        0 <= pos,
        pos + spec_enc(BValue::Int(i)).len() <= s.len(),
        s.subrange(pos, pos + spec_enc(BValue::Int(i)).len()) == spec_enc(BValue::Int(i)),
    ensures
        spec_parse_int(s, pos) == Ok::<(int, int), DecodeError>(
            (i, pos + spec_enc(BValue::Int(i)).len()),
        ),
{
    let e = spec_enc(BValue::Int(i));
    let sub = s.subrange(pos, pos + e.len());
    if i < 0 {
        let mag = (-i) as nat;
        lemma_dec_u_digits(mag);
        lemma_dec_u_head(mag);
        lemma_dec_u_val(mag);
        let dl = dec_u(mag).len() as int;
        assert(int_bytes(i) == seq![MINUS] + dec_u(mag));
        assert(e.len() == dl + 3);
        assert(sub[1] == s[pos + 1]);
        assert(e[1] == MINUS);
        assert(s[pos + 1] == MINUS);
        let q = pos + 2;
        assert forall|j: int| q <= j < q + dl implies is_digit(s[j]) by {
            assert(sub[j - pos] == s[j]);
            assert(e[j - pos] == dec_u(mag)[j - pos - 2]);
        }
        assert(sub[dl + 2] == s[q + dl]);
        assert(e[dl + 2] == TAG_END);
        assert(!is_digit(TAG_END));
        lemma_digit_run_exact(s, q, dl);
        let digits = s.subrange(q, q + dl);
        assert forall|j: int| 0 <= j < dl implies digits[j] == dec_u(mag)[j] by {
            assert(digits[j] == s[q + j]);
            assert(sub[2 + j] == s[q + j]);
            assert(e[2 + j] == dec_u(mag)[j]);
        }
        assert(digits =~= dec_u(mag));
        assert(digits.len() > 1 ==> mag >= 10);
        assert(digits_val(digits) == mag);
        assert(mag >= 1);
        assert(spec_parse_int(s, pos) == Ok::<(int, int), DecodeError>((i, pos + e.len())));
    } else {
        let mag = i as nat;
        lemma_dec_u_digits(mag);
        lemma_dec_u_head(mag);
        lemma_dec_u_val(mag);
        let dl = dec_u(mag).len() as int;
        assert(int_bytes(i) == dec_u(mag));
        assert(e.len() == dl + 2);
        let q = pos + 1;
        assert forall|j: int| q <= j < q + dl implies is_digit(s[j]) by {
            assert(sub[j - pos] == s[j]);
            assert(e[j - pos] == dec_u(mag)[j - pos - 1]);
        }
        assert(is_digit(s[q]));
        assert(s[q] != MINUS);
        assert(sub[dl + 1] == s[q + dl]);
        assert(e[dl + 1] == TAG_END);
        assert(!is_digit(TAG_END));
        lemma_digit_run_exact(s, q, dl);
        let digits = s.subrange(q, q + dl);
        assert forall|j: int| 0 <= j < dl implies digits[j] == dec_u(mag)[j] by {
            assert(digits[j] == s[q + j]);
            assert(sub[1 + j] == s[q + j]);
            assert(e[1 + j] == dec_u(mag)[j]);
        }
        assert(digits =~= dec_u(mag));
        assert(digits.len() > 1 ==> mag >= 10);
        assert(digits_val(digits) == mag);
        assert(spec_parse_int(s, pos) == Ok::<(int, int), DecodeError>((i, pos + e.len())));
    }
}

/// Decoder completeness: starting at `pos`, the canonical encoding of
/// any canonical value within the depth budget parses to exactly that
/// value, consuming exactly its encoding.
pub proof fn lemma_parse_of_enc(s: Seq<u8>, pos: int, depth: int, v: BValue)
    requires
        canonical(v),
        depth_le(v, depth),
        0 <= pos,
        pos + spec_enc(v).len() <= s.len(),
        s.subrange(pos, pos + spec_enc(v).len()) == spec_enc(v),
    ensures
        spec_parse(s, pos, depth) == Ok::<(BValue, int), DecodeError>(
            (v, pos + spec_enc(v).len()),
        ),
    decreases v,
{
    lemma_enc_head(v);
    let e = spec_enc(v);
    let sub = s.subrange(pos, pos + e.len());
    assert(sub[0] == s[pos]);
    assert(s[pos] == e[0]);
    match v {
        BValue::Bytes(b) => {
            lemma_parse_bstr_of_enc(s, pos, b);
        },
        BValue::Int(i) => {
            lemma_parse_int_of_enc(s, pos, i);
        },
        BValue::List(xs) => {
            let inner = enc_list(xs) + seq![TAG_END];
            let isub = s.subrange(pos + 1, pos + 1 + inner.len());
            assert forall|k: int| 0 <= k < inner.len() implies isub[k] == inner[k] by {
                assert(isub[k] == s[pos + 1 + k]);
                assert(sub[1 + k] == s[pos + 1 + k]);
                assert(e[1 + k] == inner[k]);
            }
            assert(isub =~= inner);
            lemma_items_of_enc(s, pos + 1, depth, xs);
        },
        BValue::Dict(es) => {
            let inner = enc_dict(es) + seq![TAG_END];
            let isub = s.subrange(pos + 1, pos + 1 + inner.len());
            assert forall|k: int| 0 <= k < inner.len() implies isub[k] == inner[k] by {
                assert(isub[k] == s[pos + 1 + k]);
                assert(sub[1 + k] == s[pos + 1 + k]);
                assert(e[1 + k] == inner[k]);
            }
            assert(isub =~= inner);
            lemma_entries_of_enc(s, pos + 1, depth, es, Option::None);
        },
    }
}

pub proof fn lemma_items_of_enc(s: Seq<u8>, pos: int, depth: int, xs: Seq<BValue>)
    requires
        canonical_list(xs),
        depth_le_list(xs, depth - 1),
        0 <= pos,
        pos + enc_list(xs).len() + 1 <= s.len(),
        s.subrange(pos, pos + enc_list(xs).len() + 1) == enc_list(xs) + seq![TAG_END],
    ensures
        spec_parse_items(s, pos, depth) == Ok::<(Seq<BValue>, int), DecodeError>(
            (xs, pos + enc_list(xs).len() + 1),
        ),
    decreases xs,
{
    let w = enc_list(xs) + seq![TAG_END];
    let sub = s.subrange(pos, pos + w.len());
    if xs.len() == 0 {
        assert(sub[0] == s[pos]);
        assert(w[0] == TAG_END);
        assert(s[pos] == TAG_END);
        assert(Seq::<BValue>::empty() =~= xs);
    } else {
        let x0 = xs[0];
        let e0 = spec_enc(x0);
        lemma_enc_head(x0);
        assert(enc_list(xs) == e0 + enc_list(xs.drop_first()));
        let s0 = s.subrange(pos, pos + e0.len());
        assert forall|k: int| 0 <= k < e0.len() implies s0[k] == e0[k] by {
            assert(s0[k] == s[pos + k]);
            assert(sub[k] == s[pos + k]);
            assert(w[k] == e0[k]);
        }
        assert(s0 =~= e0);
        assert(sub[0] == s[pos]);
        assert(w[0] == e0[0]);
        assert(s[pos] == e0[0]);
        assert(s[pos] != TAG_END);
        lemma_parse_of_enc(s, pos, depth - 1, x0);
        let np = pos + e0.len();
        let rest = xs.drop_first();
        let wr = enc_list(rest) + seq![TAG_END];
        let sr = s.subrange(np, np + wr.len());
        assert forall|k: int| 0 <= k < wr.len() implies sr[k] == wr[k] by {
            assert(sr[k] == s[np + k]);
            assert(sub[e0.len() + k] == s[np + k]);
            assert(w[e0.len() + k] == wr[k]);
        }
        assert(sr =~= wr);
        lemma_items_of_enc(s, np, depth, rest);
        assert(seq![x0] + rest =~= xs);
    }
}

pub proof fn lemma_entries_of_enc(
    s: Seq<u8>,
    pos: int,
    depth: int,
    es: Seq<(Seq<u8>, BValue)>,
    prev: Option<Seq<u8>>,
)
    requires
        canonical_entries(es),
        sorted_keys(es),
        depth_le_entries(es, depth - 1),
        match prev {
            Option::Some(pk) => forall|i: int|
                0 <= i < es.len() ==> lex_lt(pk, #[trigger] es[i].0),
            Option::None => true,
        },
        0 <= pos,
        pos + enc_dict(es).len() + 1 <= s.len(),
        s.subrange(pos, pos + enc_dict(es).len() + 1) == enc_dict(es) + seq![TAG_END],
    ensures
        spec_parse_entries(s, pos, depth, prev) == Ok::<(Seq<(Seq<u8>, BValue)>, int), DecodeError>(
            (es, pos + enc_dict(es).len() + 1),
        ),
    decreases es,
{
    let w = enc_dict(es) + seq![TAG_END];
    let sub = s.subrange(pos, pos + w.len());
    if es.len() == 0 {
        assert(sub[0] == s[pos]);
        assert(w[0] == TAG_END);
        assert(s[pos] == TAG_END);
        assert(Seq::<(Seq<u8>, BValue)>::empty() =~= es);
    } else {
        let k0 = es[0].0;
        let v0 = es[0].1;
        let rest = es.drop_first();
        assert(enc_dict(es) == enc_bytes(k0) + spec_enc(v0) + enc_dict(rest));
        lemma_dec_u_digits(k0.len());
        assert(enc_bytes(k0)[0] == dec_u(k0.len())[0]);
        let kl = enc_bytes(k0).len() as int;
        let sk = s.subrange(pos, pos + kl);
        assert forall|k: int| 0 <= k < kl implies sk[k] == enc_bytes(k0)[k] by {
            assert(sk[k] == s[pos + k]);
            assert(sub[k] == s[pos + k]);
            assert(w[k] == enc_bytes(k0)[k]);
        }
        assert(sk =~= enc_bytes(k0));
        assert(sub[0] == s[pos]);
        assert(w[0] == enc_bytes(k0)[0]);
        assert(is_digit(s[pos]));
        assert(s[pos] != TAG_END);
        lemma_parse_bstr_of_enc(s, pos, k0);
        match prev {
            Option::Some(pk) => {
                assert(lex_lt(pk, es[0].0));
                crate::value::lemma_lex_total(pk, k0);
            },
            Option::None => (),
        }
        let kq = pos + kl;
        let vl = spec_enc(v0).len() as int;
        let sv = s.subrange(kq, kq + vl);
        assert forall|k: int| 0 <= k < vl implies sv[k] == spec_enc(v0)[k] by {
            assert(sv[k] == s[kq + k]);
            assert(sub[kl + k] == s[kq + k]);
            assert(w[kl + k] == spec_enc(v0)[k]);
        }
        assert(sv =~= spec_enc(v0));
        lemma_parse_of_enc(s, kq, depth - 1, v0);
        let vq = kq + vl;
        assert forall|i: int, j: int| 0 <= i < j < rest.len() implies lex_lt(
            rest[i].0,
            rest[j].0,
        ) by {
            assert(rest[i] == es[i + 1]);
            assert(rest[j] == es[j + 1]);
        }
        assert forall|i: int| 0 <= i < rest.len() implies lex_lt(k0, #[trigger] rest[i].0) by {
            assert(rest[i] == es[i + 1]);
        }
        let wr = enc_dict(rest) + seq![TAG_END];
        let sr = s.subrange(vq, vq + wr.len());
        assert forall|k: int| 0 <= k < wr.len() implies sr[k] == wr[k] by {
            assert(sr[k] == s[vq + k]);
            assert(sub[kl + vl + k] == s[vq + k]);
            assert(w[kl + vl + k] == wr[k]);
        }
        assert(sr =~= wr);
        lemma_entries_of_enc(s, vq, depth, rest, Option::Some(k0));
        assert((k0, v0) == es[0]);
        assert(seq![(k0, v0)] + rest =~= es);
    }
}

/// Round-trip law: for every canonical value within the decoder's depth
/// limit, decoding the canonical encoding yields exactly that value and
/// consumes exactly its encoding — `decode(encode(v)) == v`.
pub proof fn lemma_round_trip(v: BValue)
    requires
        canonical(v),
        depth_le(v, DEPTH_LIMIT as int),
    ensures
        spec_parse(spec_enc(v), 0, DEPTH_LIMIT as int) == Ok::<(BValue, int), DecodeError>(
            (v, spec_enc(v).len() as int),
        ),
{
    let s = spec_enc(v);
    assert(s.subrange(0, s.len() as int) =~= s);
    lemma_parse_of_enc(s, 0, DEPTH_LIMIT as int, v);
}

/// Re-serialization stability: a decoded value is canonical, re-encoding
/// it reproduces exactly the bytes that were consumed, and decoding those
/// bytes yields the same value again — so any pure projection (the
/// metainfo mapping, in particular) gives the same result after a
/// round trip through the encoder.
pub proof fn lemma_reencode_stable(s: Seq<u8>)
    ensures
        match spec_parse(s, 0, DEPTH_LIMIT as int) {
            Ok(p) => {
                &&& canonical(p.0)
                &&& spec_enc(crate::emit::canon_of(p.0)) == s.subrange(0, p.1)
                &&& spec_parse(spec_enc(p.0), 0, DEPTH_LIMIT as int) == Ok::<
                    (BValue, int),
                    DecodeError,
                >((p.0, spec_enc(p.0).len() as int))
            },
            Err(e) => true,
        },
{
    lemma_parse_sound(s, 0, DEPTH_LIMIT as int);
    match spec_parse(s, 0, DEPTH_LIMIT as int) {
        Ok(p) => {
            crate::emit::lemma_canon_identity(p.0);
            lemma_round_trip(p.0);
        },
        Err(e) => (),
    }
}

} // verus!

use crate::parse::{spec_entry_span, spec_info_span};

verus! {

proof fn lemma_entry_span_parse(s: Seq<u8>, pos: int, depth: int, key: Seq<u8>)
    ensures
        spec_entry_span(s, pos, depth, key) matches Option::Some(sp) ==> spec_parse(
            s,
            sp.0,
            depth - 1,
        ) matches Ok(p) && p.1 == sp.1,
    decreases s.len() - pos,
{
    if 0 <= pos < s.len() && s[pos] != TAG_END && is_digit(s[pos]) {
        match spec_parse_bstr(s, pos) {
            Ok(kp) => {
                let kq = if pos < kp.1 && kp.1 <= s.len() {
                    kp.1
                } else {
                    pos + 1
                };
                match spec_parse(s, kq, depth - 1) {
                    Ok(vp) => {
                        if kp.0 == key {
                            assert(spec_parse(s, kq, depth - 1) == Ok::<
                                (BValue, int),
                                DecodeError,
                            >((vp.0, vp.1)));
                        } else {
                            let vq = if kq < vp.1 && vp.1 <= s.len() {
                                vp.1
                            } else if kq + 1 <= s.len() {
                                kq + 1
                            } else {
                                s.len() as int
                            };
                            lemma_entry_span_parse(s, vq, depth, key);
                        }
                    },
                    Err(e) => (),
                }
            },
            Err(e) => (),
        }
    }
}

/// Hash fidelity: when the decoder records an `info` span, the raw bytes
/// of that span are exactly the canonical encoding of a canonical value
/// — the `info` dictionary as decoded.  Hashing the raw span therefore
/// hashes precisely the value a peer will see.
pub proof fn lemma_info_span_enc(s: Seq<u8>)
    ensures
        spec_info_span(s) matches Option::Some(sp) ==> spec_parse(
            s,
            sp.0,
            DEPTH_LIMIT as int - 1,
        ) matches Ok(p) && {
            &&& 0 <= sp.0 < sp.1 <= s.len()
            &&& p.1 == sp.1
            &&& canonical(p.0)
            &&& s.subrange(sp.0, sp.1) == spec_enc(p.0)
        },
{
    match spec_info_span(s) {
        Option::Some(sp) => {
            lemma_entry_span_parse(s, 1, DEPTH_LIMIT as int, crate::parse::info_key());
            lemma_parse_sound(s, sp.0, DEPTH_LIMIT as int - 1);
        },
        Option::None => (),
    }
}

} // verus!
