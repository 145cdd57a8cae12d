use vstd::prelude::*;

use crate::value::{
    BValue, BencodeValue, bval_list, bval_entries, canonical, canonical_list, canonical_entries,
    sorted_keys, lex_lt, lemma_lex_lt_trans, lemma_lex_total, spec_enc, enc_list, enc_dict,
    enc_bytes, dec_u, int_bytes, TAG_INT, TAG_LIST, TAG_DICT, TAG_END, COLON, MINUS, DIGIT_ZERO,
};

verus! {

broadcast use vstd::std_specs::vec::group_vec_axioms;

/// The canonical form of a value: the same data with every dictionary's
/// entries, at every level, brought into key order by insertion sort.
pub open spec fn canon_of(v: BValue) -> BValue
    decreases v,
{
    match v {
        BValue::Bytes(b) => v,
        BValue::Int(i) => v,
        BValue::List(xs) => BValue::List(canon_list(xs)),
        BValue::Dict(es) => BValue::Dict(sort_entries(canon_vals(es))),
    }
}

pub open spec fn canon_list(xs: Seq<BValue>) -> Seq<BValue>
    decreases xs,
{
    if xs.len() == 0 {
        xs
    } else {
        seq![canon_of(xs[0])] + canon_list(xs.drop_first())
    }
}

pub open spec fn canon_vals(es: Seq<(Seq<u8>, BValue)>) -> Seq<(Seq<u8>, BValue)>
    decreases es,
{
    if es.len() == 0 {
        es
    } else {
        seq![(es[0].0, canon_of(es[0].1))] + canon_vals(es.drop_first())
    }
}

/// Insertion sort on dictionary entries, by key.
pub open spec fn sort_entries(es: Seq<(Seq<u8>, BValue)>) -> Seq<(Seq<u8>, BValue)>
    decreases es.len(),
{
    if es.len() == 0 {
        es
    } else {
        insert_entry(es.last(), sort_entries(es.drop_last()))
    }
}

/// Insert an entry before the first key not below its own.
pub open spec fn insert_entry(
    e: (Seq<u8>, BValue),
    es: Seq<(Seq<u8>, BValue)>,
) -> Seq<(Seq<u8>, BValue)>
    decreases es.len(),
{
    if es.len() == 0 {
        seq![e]
    } else if lex_lt(es[0].0, e.0) {
        seq![es[0]] + insert_entry(e, es.drop_first())
    } else {
        seq![e] + es
    }
}

// === Elementwise characterizations ===

pub proof fn lemma_bval_list_index(s: Seq<BencodeValue>)
    ensures
        bval_list(s).len() == s.len(),
        forall|i: int| 0 <= i < s.len() ==> bval_list(s)[i] == s[i].bval(),
    decreases s.len(),
{
    if s.len() > 0 {
        lemma_bval_list_index(s.drop_first());
    }
}

pub proof fn lemma_bval_entries_index(s: Seq<(Vec<u8>, BencodeValue)>)
    ensures
        bval_entries(s).len() == s.len(),
        forall|i: int|
            0 <= i < s.len() ==> bval_entries(s)[i] == (s[i].0@, s[i].1.bval()),
    decreases s.len(),
{
    if s.len() > 0 {
        lemma_bval_entries_index(s.drop_first());
    }
}

pub proof fn lemma_canon_list_index(s: Seq<BValue>)
    ensures
        canon_list(s).len() == s.len(),
        forall|i: int| 0 <= i < s.len() ==> canon_list(s)[i] == canon_of(s[i]),
    decreases s.len(),
{
    if s.len() > 0 {
        lemma_canon_list_index(s.drop_first());
    }
}

pub proof fn lemma_canon_vals_index(s: Seq<(Seq<u8>, BValue)>)
    ensures
        canon_vals(s).len() == s.len(),
        forall|i: int| 0 <= i < s.len() ==> canon_vals(s)[i] == (s[i].0, canon_of(s[i].1)),
    decreases s.len(),
{
    if s.len() > 0 {
        lemma_canon_vals_index(s.drop_first());
    }
}

pub proof fn lemma_canonical_list_index(s: Seq<BValue>)
    ensures
        canonical_list(s) <==> (forall|i: int| 0 <= i < s.len() ==> canonical(s[i])),
    decreases s.len(),
{
    if s.len() > 0 {
        lemma_canonical_list_index(s.drop_first());
        assert forall|i: int| 1 <= i < s.len() implies s.drop_first()[i - 1] == s[i] by {}
        if canonical(s[0]) && canonical_list(s.drop_first()) {
            assert forall|i: int| 0 <= i < s.len() implies canonical(s[i]) by {
                if i > 0 {
                    assert(s[i] == s.drop_first()[i - 1]);
                }
            }
        }
    }
}

pub proof fn lemma_canonical_entries_index(s: Seq<(Seq<u8>, BValue)>)
    ensures
        canonical_entries(s) <==> (forall|i: int| 0 <= i < s.len() ==> canonical(s[i].1)),
    decreases s.len(),
{
    if s.len() > 0 {
        lemma_canonical_entries_index(s.drop_first());
        if canonical(s[0].1) && canonical_entries(s.drop_first()) {
            assert forall|i: int| 0 <= i < s.len() implies canonical(s[i].1) by {
                if i > 0 {
                    assert(s[i] == s.drop_first()[i - 1]);
                }
            }
        }
    }
}

// === Concatenation laws for the encoders ===

pub proof fn lemma_enc_list_snoc(xs: Seq<BValue>, x: BValue)
    ensures
        enc_list(xs + seq![x]) == enc_list(xs) + spec_enc(x),
    decreases xs.len(),
{
    let ys = xs + seq![x];
    if xs.len() == 0 {
        assert(ys[0] == x);
        assert(ys.drop_first() =~= Seq::<BValue>::empty());
        assert(enc_list(Seq::<BValue>::empty()) =~= Seq::<u8>::empty());
        assert(enc_list(ys) =~= enc_list(xs) + spec_enc(x));
    } else {
        assert(ys[0] == xs[0]);
        assert(ys.drop_first() =~= xs.drop_first() + seq![x]);
        lemma_enc_list_snoc(xs.drop_first(), x);
        assert(enc_list(ys) =~= enc_list(xs) + spec_enc(x));
    }
}

pub proof fn lemma_enc_dict_snoc(es: Seq<(Seq<u8>, BValue)>, e: (Seq<u8>, BValue))
    ensures
        enc_dict(es + seq![e]) == enc_dict(es) + enc_bytes(e.0) + spec_enc(e.1),
    decreases es.len(),
{
    let ys = es + seq![e];
    if es.len() == 0 {
        assert(ys[0] == e);
        assert(ys.drop_first() =~= Seq::<(Seq<u8>, BValue)>::empty());
        assert(enc_dict(Seq::<(Seq<u8>, BValue)>::empty()) =~= Seq::<u8>::empty());
        assert(enc_dict(ys) =~= enc_dict(es) + enc_bytes(e.0) + spec_enc(e.1));
    } else {
        assert(ys[0] == es[0]);
        assert(ys.drop_first() =~= es.drop_first() + seq![e]);
        lemma_enc_dict_snoc(es.drop_first(), e);
        assert(enc_dict(ys) =~= enc_dict(es) + enc_bytes(e.0) + spec_enc(e.1));
    }
}

// === Decimal emission ===

/// Append the minimal decimal spelling of `n`.
fn push_decimal(out: &mut Vec<u8>, n: u64)
    ensures
        final(out)@ == old(out)@ + dec_u(n as nat),
{
    let ghost base = out@;
    let mut rev: Vec<u8> = Vec::new();
    let mut cur: u64 = n / 10;
    rev.push((n % 10) as u8 + DIGIT_ZERO);
    proof {
        assert(rev@ =~= seq![((n % 10) as u8 + DIGIT_ZERO) as u8]);
        if cur == 0 {
            assert(dec_u(n as nat) =~= rev@.reverse());
        } else {
            assert(dec_u(n as nat) =~= dec_u(cur as nat) + rev@.reverse());
        }
    }
    while cur > 0
        invariant
            cur > 0 ==> dec_u(n as nat) == dec_u(cur as nat) + rev@.reverse(),
            cur == 0 ==> dec_u(n as nat) == rev@.reverse(),
        decreases cur,
    {
        let d: u8 = (cur % 10) as u8 + DIGIT_ZERO;
        let ghost oldrev = rev@;
        rev.push(d);
        let next: u64 = cur / 10;
        proof {
            assert(rev@ =~= oldrev + seq![d]);
            assert(rev@.reverse() =~= seq![d] + oldrev.reverse());
            if cur >= 10 {
                assert(dec_u(cur as nat) == dec_u((cur as nat) / 10) + seq![
                    (DIGIT_ZERO + ((cur as nat) % 10)) as u8,
                ]);
                assert((cur as nat) / 10 == next as nat);
                assert(dec_u(cur as nat) =~= dec_u(next as nat) + seq![d]);
                assert(dec_u(n as nat) =~= dec_u(next as nat) + (seq![d] + oldrev.reverse()));
            } else {
                assert(dec_u(cur as nat) =~= seq![d]);
                assert(dec_u(n as nat) =~= seq![d] + oldrev.reverse());
            }
        }
        cur = next;
    }
    let mut k: usize = rev.len();
    proof {
        assert(rev@.reverse().take(0) =~= Seq::<u8>::empty());
        assert(out@ =~= base + rev@.reverse().take(0));
    }
    while k > 0
        invariant
            k <= rev.len(),
            dec_u(n as nat) == rev@.reverse(),
            out@ == base + rev@.reverse().take(rev@.len() - k),
        decreases k,
    {
        k = k - 1;
        out.push(rev[k]);
        proof {
            let r = rev@.reverse();
            assert(r[rev@.len() - k - 1] == rev@[k as int]);
            assert(r.take(rev@.len() - k) =~= r.take(rev@.len() - k - 1) + seq![
                r[rev@.len() - k - 1],
            ]);
            assert(out@ =~= base + r.take(rev@.len() - k));
        }
    }
    proof {
        assert(rev@.reverse().take(rev@.len() as int) =~= rev@.reverse());
    }
}

} // verus!

use crate::parse::{KeyCmp, lex_cmp};

verus! {

/// Structural size of a value, the measure for recursion over the
/// executable tree.
pub open spec fn vsize(v: BencodeValue) -> nat
    decreases v,
{
    match v {
        BencodeValue::ByteString(b) => 1,
        BencodeValue::Integer(i) => 1,
        BencodeValue::List(xs) => 1 + vsize_list(xs@),
        BencodeValue::Dictionary(es) => 1 + vsize_entries(es@),
    }
}

pub open spec fn vsize_list(s: Seq<BencodeValue>) -> nat
    decreases s,
{
    if s.len() == 0 {
        0
    } else {
        vsize(s[0]) + vsize_list(s.drop_first())
    }
}

pub open spec fn vsize_entries(s: Seq<(Vec<u8>, BencodeValue)>) -> nat
    decreases s,
{
    if s.len() == 0 {
        0
    } else {
        vsize(s[0].1) + vsize_entries(s.drop_first())
    }
}

pub proof fn lemma_vsize_list_elem(s: Seq<BencodeValue>)
    ensures
        forall|i: int| 0 <= i < s.len() ==> vsize(s[i]) <= vsize_list(s),
    decreases s.len(),
{
    if s.len() > 0 {
        lemma_vsize_list_elem(s.drop_first());
        assert forall|i: int| 0 <= i < s.len() implies vsize(s[i]) <= vsize_list(s) by {
            if i > 0 {
                assert(s[i] == s.drop_first()[i - 1]);
            }
        }
    }
}

pub proof fn lemma_vsize_entries_elem(s: Seq<(Vec<u8>, BencodeValue)>)
    ensures
        forall|i: int| 0 <= i < s.len() ==> vsize(s[i].1) <= vsize_entries(s),
    decreases s.len(),
{
    if s.len() > 0 {
        lemma_vsize_entries_elem(s.drop_first());
        assert forall|i: int| 0 <= i < s.len() implies vsize(s[i].1) <= vsize_entries(s) by {
            if i > 0 {
                assert(s[i] == s.drop_first()[i - 1]);
            }
        }
    }
}

/// Append the canonical byte-string encoding `<len>:<bytes>`.
fn emit_bytes(out: &mut Vec<u8>, b: &Vec<u8>)
    ensures
        final(out)@ == old(out)@ + enc_bytes(b@),
{
    let ghost base = out@;
    push_decimal(out, b.len() as u64);
    out.push(COLON);
    let ghost mid = base + dec_u(b@.len()) + seq![COLON];
    proof {
        assert(out@ =~= mid + b@.take(0));
    }
    let mut i: usize = 0;
    while i < b.len()
        invariant
            i <= b.len(),
            base == old(out)@,
            mid == base + dec_u(b@.len()) + seq![COLON],
            out@ == mid + b@.take(i as int),
        decreases b.len() - i,
    {
        out.push(b[i]);
        proof {
            assert(b@.take(i + 1) =~= b@.take(i as int) + seq![b@[i as int]]);
            assert(out@ =~= mid + b@.take(i + 1));
        }
        i = i + 1;
    }
    proof {
        assert(b@.take(b@.len() as int) =~= b@);
        assert(out@ =~= base + enc_bytes(b@));
    }
}

/// Append the canonical encoding of `v`, entries in the order given.
fn emit_value(out: &mut Vec<u8>, v: &BencodeValue)
    ensures
        final(out)@ == old(out)@ + spec_enc(v.bval()),
    decreases vsize(*v),
{
    let ghost base = out@;
    match v {
        BencodeValue::ByteString(b) => {
            emit_bytes(out, b);
        },
        BencodeValue::Integer(n) => {
            out.push(TAG_INT);
            if *n < 0 {
                out.push(MINUS);
                let mag: u64 = if *n == i64::MIN {
                    9223372036854775808u64
                } else {
                    (-(*n)) as u64
                };
                push_decimal(out, mag);
                proof {
                    assert(mag as nat == (-(*n as int)) as nat);
                }
            } else {
                push_decimal(out, *n as u64);
                proof {
                    assert(out@ =~= base + seq![TAG_INT] + dec_u((*n as int) as nat));
                }
            }
            out.push(TAG_END);
            proof {
                assert(out@ =~= base + spec_enc(v.bval()));
            }
        },
        BencodeValue::List(xs) => {
            proof {
                assert(*v == BencodeValue::List(*xs));
            }
            out.push(TAG_LIST);
            proof {
                lemma_bval_list_index(xs@);
                assert(enc_list(bval_list(xs@).take(0)) =~= Seq::<u8>::empty());
                assert(out@ =~= base + seq![TAG_LIST] + enc_list(bval_list(xs@).take(0)));
            }
            let mut i: usize = 0;
            while i < xs.len()
                invariant
                    i <= xs.len(),
                    base == old(out)@,
                    *v == BencodeValue::List(*xs),
                    out@ == base + seq![TAG_LIST] + enc_list(bval_list(xs@).take(i as int)),
                decreases xs.len() - i,
            {
                proof {
                    lemma_vsize_list_elem(xs@);
                }
                emit_value(out, &xs[i]);
                proof {
                    lemma_bval_list_index(xs@);
                    assert(bval_list(xs@).take(i + 1) =~= bval_list(xs@).take(i as int) + seq![
                        xs@[i as int].bval(),
                    ]);
                    lemma_enc_list_snoc(bval_list(xs@).take(i as int), xs@[i as int].bval());
                    assert(out@ =~= base + seq![TAG_LIST] + enc_list(bval_list(xs@).take(i + 1)));
                }
                i = i + 1;
            }
            out.push(TAG_END);
            proof {
                lemma_bval_list_index(xs@);
                assert(bval_list(xs@).take(xs@.len() as int) =~= bval_list(xs@));
                assert(out@ =~= base + spec_enc(v.bval()));
            }
        },
        BencodeValue::Dictionary(es) => {
            proof {
                assert(*v == BencodeValue::Dictionary(*es));
            }
            out.push(TAG_DICT);
            proof {
                lemma_bval_entries_index(es@);
                assert(enc_dict(bval_entries(es@).take(0)) =~= Seq::<u8>::empty());
                assert(out@ =~= base + seq![TAG_DICT] + enc_dict(bval_entries(es@).take(0)));
            }
            let mut i: usize = 0;
            while i < es.len()
                invariant
                    i <= es.len(),
                    base == old(out)@,
                    *v == BencodeValue::Dictionary(*es),
                    out@ == base + seq![TAG_DICT] + enc_dict(bval_entries(es@).take(i as int)),
                decreases es.len() - i,
            {
                emit_bytes(out, &es[i].0);
                proof {
                    lemma_vsize_entries_elem(es@);
                }
                emit_value(out, &es[i].1);
                proof {
                    lemma_bval_entries_index(es@);
                    assert(bval_entries(es@).take(i + 1) =~= bval_entries(es@).take(i as int)
                        + seq![(es@[i as int].0@, es@[i as int].1.bval())]);
                    lemma_enc_dict_snoc(
                        bval_entries(es@).take(i as int),
                        (es@[i as int].0@, es@[i as int].1.bval()),
                    );
                    assert(out@ =~= base + seq![TAG_DICT] + enc_dict(bval_entries(es@).take(i + 1)));
                }
                i = i + 1;
            }
            out.push(TAG_END);
            proof {
                lemma_bval_entries_index(es@);
                assert(bval_entries(es@).take(es@.len() as int) =~= bval_entries(es@));
                assert(out@ =~= base + spec_enc(v.bval()));
            }
        },
    }
}

/// `insert_entry` places the new entry at the first index whose key is
/// not below the new key.
proof fn lemma_insert_entry_at(s: Seq<(Seq<u8>, BValue)>, e: (Seq<u8>, BValue), j: int)
    requires
        0 <= j <= s.len(),
        forall|i: int| 0 <= i < j ==> lex_lt(s[i].0, e.0),
        j < s.len() ==> !lex_lt(s[j].0, e.0),
    ensures
        insert_entry(e, s) == s.insert(j, e),
    decreases j,
{
    if j == 0 {
        if s.len() == 0 {
            assert(seq![e] =~= s.insert(0, e));
        } else {
            assert(seq![e] + s =~= s.insert(0, e));
        }
    } else {
        assert(lex_lt(s[0].0, e.0));
        assert forall|i: int| 0 <= i < j - 1 implies lex_lt(s.drop_first()[i].0, e.0) by {
            assert(s.drop_first()[i] == s[i + 1]);
        }
        assert(j - 1 < s.drop_first().len() ==> !lex_lt(s.drop_first()[j - 1].0, e.0));
        lemma_insert_entry_at(s.drop_first(), e, j - 1);
        assert(seq![s[0]] + s.drop_first().insert(j - 1, e) =~= s.insert(j, e));
    }
}

/// Find the insertion point for `k` in a key-sorted entry vector.
fn lower_bound(out: &Vec<(Vec<u8>, BencodeValue)>, k: &Vec<u8>) -> (j: usize)
    ensures
        j <= out.len(),
        forall|i: int| 0 <= i < j ==> lex_lt(out@[i].0@, k@),
        j < out.len() ==> !lex_lt(out@[j as int].0@, k@),
{
    let mut j: usize = 0;
    loop
        invariant
            j <= out.len(),
            forall|i: int| 0 <= i < j ==> lex_lt(out@[i].0@, k@),
        ensures
            j <= out.len(),
            forall|i: int| 0 <= i < j ==> lex_lt(out@[i].0@, k@),
            j < out.len() ==> !lex_lt(out@[j as int].0@, k@),
        decreases out.len() - j,
    {
        if j >= out.len() {
            break;
        }
        match lex_cmp(&out[j].0, k) {
            KeyCmp::Below => {
                j = j + 1;
            },
            KeyCmp::Same => {
                proof {
                    lemma_lex_total(out@[j as int].0@, k@);
                }
                break;
            },
            KeyCmp::Above => {
                break;
            },
        }
    }
    j
}

/// Insert an entry into a key-sorted vector, keeping it sorted as
/// `insert_entry` describes.
fn insert_sorted(out: &mut Vec<(Vec<u8>, BencodeValue)>, k: Vec<u8>, v: BencodeValue)
    ensures
        bval_entries(final(out)@) == insert_entry(
            (k@, v.bval()),
            bval_entries(old(out)@),
        ),
{
    let ghost s0 = bval_entries(old(out)@);
    proof {
        lemma_bval_entries_index(out@);
    }
    let j = lower_bound(out, &k);
    let ghost jj: int = j as int;
    let ghost e = (k@, v.bval());
    proof {
        assert forall|i: int| 0 <= i < jj implies lex_lt(s0[i].0, e.0) by {
            assert(s0[i] == (out@[i].0@, out@[i].1.bval()));
        }
        assert(jj < s0.len() ==> !lex_lt(s0[jj].0, e.0));
        lemma_insert_entry_at(s0, e, jj);
    }
    let ghost before = out@;
    out.insert(j, (k, v));
    proof {
        lemma_bval_entries_index(out@);
        lemma_bval_entries_index(before);
        assert forall|i: int| 0 <= i < out@.len() implies bval_entries(out@)[i] == s0.insert(
            jj,
            e,
        )[i] by {
            assert(out@[i] == before.insert(jj, (k, v))[i]);
            if i < jj {
                assert(out@[i] == before[i]);
            } else if i == jj {
            } else {
                assert(out@[i] == before[i - 1]);
            }
        }
        assert(bval_entries(out@) =~= s0.insert(jj, e));
    }
}

/// The canonical form of a value: a fresh value equal to the argument but
/// with every dictionary's entries sorted by key.
pub fn canonicalize(v: &BencodeValue) -> (r: BencodeValue)
    ensures
        r.bval() == canon_of(v.bval()),
    decreases vsize(*v),
{
    match v {
        BencodeValue::ByteString(b) => BencodeValue::ByteString(crate::parse::copy_bytes(b)),
        BencodeValue::Integer(n) => BencodeValue::Integer(*n),
        BencodeValue::List(xs) => {
            proof {
                assert(*v == BencodeValue::List(*xs));
            }
            let mut out: Vec<BencodeValue> = Vec::new();
            let mut i: usize = 0;
            proof {
                lemma_bval_list_index(xs@);
            }
            while i < xs.len()
                invariant
                    i <= xs.len(),
                    *v == BencodeValue::List(*xs),
                    bval_list(out@) == canon_list(bval_list(xs@).take(i as int)),
                decreases xs.len() - i,
            {
                proof {
                    lemma_vsize_list_elem(xs@);
                }
                let c = canonicalize(&xs[i]);
                let ghost before = out@;
                out.push(c);
                proof {
                    crate::parse::lemma_bval_list_push(before, c);
                    assert(out@ =~= before + seq![c]);
                    lemma_bval_list_index(xs@);
                    lemma_canon_list_index(bval_list(xs@).take(i as int));
                    lemma_canon_list_index(bval_list(xs@).take(i + 1));
                    assert(canon_list(bval_list(xs@).take(i + 1)) =~= canon_list(
                        bval_list(xs@).take(i as int),
                    ) + seq![canon_of(xs@[i as int].bval())]);
                }
                i = i + 1;
            }
            proof {
                lemma_bval_list_index(xs@);
                assert(bval_list(xs@).take(xs@.len() as int) =~= bval_list(xs@));
            }
            BencodeValue::List(out)
        },
        BencodeValue::Dictionary(es) => {
            proof {
                assert(*v == BencodeValue::Dictionary(*es));
            }
            let mut out: Vec<(Vec<u8>, BencodeValue)> = Vec::new();
            let mut i: usize = 0;
            proof {
                lemma_bval_entries_index(es@);
            }
            while i < es.len()
                invariant
                    i <= es.len(),
                    *v == BencodeValue::Dictionary(*es),
                    bval_entries(out@) == sort_entries(
                        canon_vals(bval_entries(es@)).take(i as int),
                    ),
                decreases es.len() - i,
            {
                let k = crate::parse::copy_bytes(&es[i].0);
                proof {
                    lemma_vsize_entries_elem(es@);
                }
                let c = canonicalize(&es[i].1);
                insert_sorted(&mut out, k, c);
                proof {
                    lemma_bval_entries_index(es@);
                    lemma_canon_vals_index(bval_entries(es@));
                    let cvs = canon_vals(bval_entries(es@));
                    assert(cvs.take(i + 1).drop_last() =~= cvs.take(i as int));
                    assert(cvs.take(i + 1).last() == cvs[i as int]);
                }
                i = i + 1;
            }
            proof {
                lemma_bval_entries_index(es@);
                lemma_canon_vals_index(bval_entries(es@));
                assert(canon_vals(bval_entries(es@)).take(es@.len() as int) =~= canon_vals(
                    bval_entries(es@),
                ));
            }
            BencodeValue::Dictionary(out)
        },
    }
}

/// Encode a value into canonical bencode bytes.  The result is the
/// canonical encoding of the canonical form of the value; for a value
/// that is already canonical, `lemma_canon_identity` gives
/// `r@ == spec_enc(v.bval())`.
pub fn encode(v: &BencodeValue) -> (r: Vec<u8>)
    ensures
        r@ == spec_enc(canon_of(v.bval())),
{
    let c = canonicalize(v);
    let mut out: Vec<u8> = Vec::new();
    emit_value(&mut out, &c);
    proof {
        assert(out@ =~= Seq::<u8>::empty() + spec_enc(c.bval()));
    }
    out
}

} // verus!

verus! {

/// Keys pairwise distinct (in any order).
pub open spec fn distinct_keys(es: Seq<(Seq<u8>, BValue)>) -> bool {
    forall|i: int, j: int| 0 <= i < j < es.len() ==> es[i].0 != es[j].0
}

/// A value any caller can build: integers fit `i64` and every
/// dictionary's keys are pairwise distinct, though in any order.
pub open spec fn well_formed(v: BValue) -> bool
    decreases v,
{
    match v {
        BValue::Bytes(b) => true,
        BValue::Int(i) => i64::MIN <= i && i <= i64::MAX,
        BValue::List(xs) => well_formed_list(xs),
        BValue::Dict(es) => distinct_keys(es) && well_formed_entries(es),
    }
}

pub open spec fn well_formed_list(xs: Seq<BValue>) -> bool
    decreases xs,
{
    if xs.len() == 0 {
        true
    } else {
        well_formed(xs[0]) && well_formed_list(xs.drop_first())
    }
}

pub open spec fn well_formed_entries(es: Seq<(Seq<u8>, BValue)>) -> bool
    decreases es,
{
    if es.len() == 0 {
        true
    } else {
        well_formed(es[0].1) && well_formed_entries(es.drop_first())
    }
}

proof fn lemma_insert_props(e: (Seq<u8>, BValue), s: Seq<(Seq<u8>, BValue)>)
    requires
        sorted_keys(s),
        forall|i: int| 0 <= i < s.len() ==> s[i].0 != e.0,
    ensures
        insert_entry(e, s).len() == s.len() + 1,
        sorted_keys(insert_entry(e, s)),
        forall|i: int|
            0 <= i < insert_entry(e, s).len() ==> #[trigger] insert_entry(e, s)[i] == e || exists|
                j: int,
            |
                0 <= j < s.len() && #[trigger] s[j] == insert_entry(e, s)[i],
    decreases s.len(),
{
    let r = insert_entry(e, s);
    if s.len() == 0 {
        assert(r[0] == e);
    } else if lex_lt(s[0].0, e.0) {
        let rest = s.drop_first();
        assert forall|i: int| 0 <= i < rest.len() implies rest[i].0 != e.0 by {
            assert(rest[i] == s[i + 1]);
        }
        assert forall|i: int, j: int| 0 <= i < j < rest.len() implies lex_lt(
            rest[i].0,
            rest[j].0,
        ) by {
            assert(rest[i] == s[i + 1]);
            assert(rest[j] == s[j + 1]);
        }
        lemma_insert_props(e, rest);
        let ri = insert_entry(e, rest);
        assert(r =~= seq![s[0]] + ri);
        assert forall|i: int, j: int| 0 <= i < j < r.len() implies lex_lt(r[i].0, r[j].0) by {
            if i == 0 {
                assert(r[j] == ri[j - 1]);
                if ri[j - 1] == e {
                } else {
                    let k = choose|k: int| 0 <= k < rest.len() && rest[k] == ri[j - 1];
                    assert(rest[k] == s[k + 1]);
                    assert(lex_lt(s[0].0, s[k + 1].0));
                }
            } else {
                assert(r[i] == ri[i - 1]);
                assert(r[j] == ri[j - 1]);
            }
        }
        assert forall|i: int|
            0 <= i < r.len() implies #[trigger] r[i] == e || exists|j: int|
                0 <= j < s.len() && #[trigger] s[j] == r[i] by {
            if i == 0 {
                assert(s[0] == r[0]);
            } else {
                assert(r[i] == ri[i - 1]);
                if ri[i - 1] != e {
                    let k = choose|k: int| 0 <= k < rest.len() && #[trigger] rest[k] == ri[i - 1];
                    assert(s[k + 1] == r[i]);
                }
            }
        }
    } else {
        lemma_lex_total(s[0].0, e.0);
        assert(lex_lt(e.0, s[0].0));
        assert(r =~= seq![e] + s);
        assert forall|i: int, j: int| 0 <= i < j < r.len() implies lex_lt(r[i].0, r[j].0) by {
            if i == 0 {
                assert(r[j] == s[j - 1]);
                if j - 1 > 0 {
                    lemma_lex_lt_trans(e.0, s[0].0, s[j - 1].0);
                }
            } else {
                assert(r[i] == s[i - 1]);
                assert(r[j] == s[j - 1]);
            }
        }
        assert forall|i: int|
            0 <= i < r.len() implies #[trigger] r[i] == e || exists|j: int|
                0 <= j < s.len() && #[trigger] s[j] == r[i] by {
            if i > 0 {
                assert(s[i - 1] == r[i]);
            }
        }
    }
}

proof fn lemma_sort_props(s: Seq<(Seq<u8>, BValue)>)
    requires
        distinct_keys(s),
    ensures
        sort_entries(s).len() == s.len(),
        sorted_keys(sort_entries(s)),
        forall|i: int|
            0 <= i < sort_entries(s).len() ==> exists|j: int|
                0 <= j < s.len() && #[trigger] s[j] == #[trigger] sort_entries(s)[i],
    decreases s.len(),
{
    if s.len() > 0 {
        let rest = s.drop_last();
        let e = s.last();
        assert forall|i: int, j: int| 0 <= i < j < rest.len() implies rest[i].0 != rest[j].0 by {
            assert(rest[i] == s[i]);
            assert(rest[j] == s[j]);
        }
        lemma_sort_props(rest);
        let sr = sort_entries(rest);
        assert forall|i: int| 0 <= i < sr.len() implies sr[i].0 != e.0 by {
            let j = choose|j: int| 0 <= j < rest.len() && rest[j] == sr[i];
            assert(rest[j] == s[j]);
            assert(s[j].0 != s[s.len() - 1].0);
        }
        lemma_insert_props(e, sr);
        let r = insert_entry(e, sr);
        assert(sort_entries(s) == r);
        assert forall|i: int|
            0 <= i < r.len() implies exists|j: int|
                0 <= j < s.len() && #[trigger] s[j] == #[trigger] r[i] by {
            if r[i] == e {
                assert(s[s.len() - 1] == r[i]);
            } else {
                let k = choose|k: int| 0 <= k < sr.len() && #[trigger] sr[k] == r[i];
                let j = choose|j: int| 0 <= j < rest.len() && #[trigger] rest[j] == sr[k];
                assert(s[j] == r[i]);
            }
        }
    }
}

/// Sorting leaves an already canonically ordered entry sequence as it is.
proof fn lemma_sort_sorted(s: Seq<(Seq<u8>, BValue)>)
    requires
        sorted_keys(s),
    ensures
        sort_entries(s) == s,
    decreases s.len(),
{
    if s.len() > 0 {
        let rest = s.drop_last();
        assert forall|i: int, j: int| 0 <= i < j < rest.len() implies lex_lt(
            rest[i].0,
            rest[j].0,
        ) by {
            assert(rest[i] == s[i]);
            assert(rest[j] == s[j]);
        }
        lemma_sort_sorted(rest);
        assert forall|i: int| 0 <= i < rest.len() implies lex_lt(rest[i].0, s.last().0) by {
            assert(rest[i] == s[i]);
        }
        lemma_insert_entry_at(rest, s.last(), rest.len() as int);
        assert(rest.insert(rest.len() as int, s.last()) =~= s);
    }
}

/// Canonicalization is the identity on values that are already canonical.
pub proof fn lemma_canon_identity(v: BValue)
    requires
        canonical(v),
    ensures
        canon_of(v) == v,
    decreases v,
{
    match v {
        BValue::Bytes(b) => (),
        BValue::Int(i) => (),
        BValue::List(xs) => {
            lemma_canon_identity_list(xs);
        },
        BValue::Dict(es) => {
            lemma_canon_identity_entries(es);
            lemma_sort_sorted(es);
        },
    }
}

proof fn lemma_canon_identity_list(xs: Seq<BValue>)
    requires
        canonical_list(xs),
    ensures
        canon_list(xs) == xs,
    decreases xs,
{
    if xs.len() > 0 {
        lemma_canon_identity(xs[0]);
        lemma_canon_identity_list(xs.drop_first());
        assert(canon_list(xs) =~= xs);
    }
}

proof fn lemma_canon_identity_entries(es: Seq<(Seq<u8>, BValue)>)
    requires
        canonical_entries(es),
    ensures
        canon_vals(es) == es,
    decreases es,
{
    if es.len() > 0 {
        lemma_canon_identity(es[0].1);
        lemma_canon_identity_entries(es.drop_first());
        assert(canon_vals(es) =~= es);
    }
}

/// Canonicalization law: encoding any well-formed value — in particular a
/// dictionary whose entries were given in arbitrary order — always yields
/// the encoding of a canonical value, whose dictionary keys stand in
/// strictly increasing byte order at every level.  Together with
/// `encode`'s contract (`r@ == spec_enc(canon_of(v))`) this pins down
/// that the encoder's output is canonically ordered however the value
/// was built.
pub proof fn lemma_canon_canonical(v: BValue)
    requires
        well_formed(v),
    ensures
        canonical(canon_of(v)),
    decreases v,
{
    match v {
        BValue::Bytes(b) => (),
        BValue::Int(i) => (),
        BValue::List(xs) => {
            lemma_canon_canonical_list(xs);
        },
        BValue::Dict(es) => {
            lemma_canon_canonical_entries(es);
            let cvs = canon_vals(es);
            lemma_canon_vals_index(es);
            assert forall|i: int, j: int| 0 <= i < j < cvs.len() implies cvs[i].0 != cvs[j].0 by {
                assert(cvs[i].0 == es[i].0);
                assert(cvs[j].0 == es[j].0);
            }
            lemma_sort_props(cvs);
            lemma_canonical_entries_index(cvs);
            lemma_canonical_entries_index(sort_entries(cvs));
            assert forall|i: int| 0 <= i < sort_entries(cvs).len() implies canonical(
                sort_entries(cvs)[i].1,
            ) by {
                let j = choose|j: int| 0 <= j < cvs.len() && cvs[j] == sort_entries(cvs)[i];
            }
        },
    }
}

proof fn lemma_canon_canonical_list(xs: Seq<BValue>)
    requires
        well_formed_list(xs),
    ensures
        canonical_list(canon_list(xs)),
    decreases xs,
{
    if xs.len() > 0 {
        lemma_canon_canonical(xs[0]);
        lemma_canon_canonical_list(xs.drop_first());
        assert(canon_list(xs).drop_first() =~= canon_list(xs.drop_first()));
    }
}

proof fn lemma_canon_canonical_entries(es: Seq<(Seq<u8>, BValue)>)
    requires
        well_formed_entries(es),
    ensures
        canonical_entries(canon_vals(es)),
    decreases es,
{
    if es.len() > 0 {
        lemma_canon_canonical(es[0].1);
        lemma_canon_canonical_entries(es.drop_first());
        assert(canon_vals(es).drop_first() =~= canon_vals(es.drop_first()));
    }
}

} // verus!

verus! {

/// Keys pairwise distinct at every level, in any order; the only part of
/// `well_formed` that a value built of `i64` integers can violate.
pub open spec fn keys_distinct(v: BValue) -> bool
    decreases v,
{
    match v {
        BValue::Bytes(b) => true,
        BValue::Int(i) => true,
        BValue::List(xs) => keys_distinct_list(xs),
        BValue::Dict(es) => distinct_keys(es) && keys_distinct_entries(es),
    }
}

pub open spec fn keys_distinct_list(xs: Seq<BValue>) -> bool
    decreases xs,
{
    if xs.len() == 0 {
        true
    } else {
        keys_distinct(xs[0]) && keys_distinct_list(xs.drop_first())
    }
}

pub open spec fn keys_distinct_entries(es: Seq<(Seq<u8>, BValue)>) -> bool
    decreases es,
{
    if es.len() == 0 {
        true
    } else {
        keys_distinct(es[0].1) && keys_distinct_entries(es.drop_first())
    }
}

/// An executable value holds its integers in `i64`, so it is well formed
/// as soon as its dictionary keys are pairwise distinct.  With
/// `lemma_canon_canonical` and `encode`'s contract this says: encoding
/// any executable value without duplicate keys yields the canonical
/// encoding of a canonical value, keys strictly increasing at every
/// level.
pub proof fn lemma_exec_well_formed(v: BencodeValue)
    requires
        keys_distinct(v.bval()),
    ensures
        well_formed(v.bval()),
    decreases v,
{
    match v {
        BencodeValue::ByteString(b) => (),
        BencodeValue::Integer(i) => (),
        BencodeValue::List(xs) => {
            lemma_exec_wf_list(xs@);
        },
        BencodeValue::Dictionary(es) => {
            lemma_exec_wf_entries(es@);
        },
    }
}

proof fn lemma_exec_wf_list(s: Seq<BencodeValue>)
    requires
        keys_distinct_list(bval_list(s)),
    ensures
        well_formed_list(bval_list(s)),
    decreases s,
{
    if s.len() > 0 {
        assert(bval_list(s)[0] == s[0].bval());
        assert(bval_list(s).drop_first() =~= bval_list(s.drop_first()));
        lemma_exec_well_formed(s[0]);
        lemma_exec_wf_list(s.drop_first());
    }
}

proof fn lemma_exec_wf_entries(s: Seq<(Vec<u8>, BencodeValue)>)
    requires
        keys_distinct_entries(bval_entries(s)),
    ensures
        well_formed_entries(bval_entries(s)),
    decreases s,
{
    if s.len() > 0 {
        assert(bval_entries(s)[0] == (s[0].0@, s[0].1.bval()));
        assert(bval_entries(s).drop_first() =~= bval_entries(s.drop_first()));
        lemma_exec_well_formed(s[0].1);
        lemma_exec_wf_entries(s.drop_first());
    }
}

} // verus!
