use vstd::prelude::*;

use crate::value::{
    BValue, BencodeValue, bval_list, bval_entries, is_digit, lex_lt, lemma_lex_total,
    TAG_INT, TAG_LIST, TAG_DICT, TAG_END, COLON, MINUS, DIGIT_ZERO,
};

verus! {

/// A syntax error of the bencode decoder; `offset` is the byte position at
/// which the anomaly was detected.
#[derive(Debug, Clone, Copy, PartialEq, Eq, Structural)]
pub enum DecodeError {
    UnexpectedEnd { offset: usize },
    InvalidLength { offset: usize },
    InvalidInteger { offset: usize },
    MissingTerminator { offset: usize },
    NonCanonicalDictionary { offset: usize },
    DuplicateKey { offset: usize },
    TrailingData { offset: usize },
    RecursionLimitExceeded { offset: usize },
    InvalidTag { offset: usize },
}

/// First position at or after `pos` that does not hold a decimal digit
/// (or the end of the buffer).
pub open spec fn digit_run_end(s: Seq<u8>, pos: int) -> int
    decreases s.len() - pos,
{
    if pos < 0 || pos >= s.len() {
        pos
    } else if is_digit(s[pos]) {
        digit_run_end(s, pos + 1)
    } else {
        pos
    }
}

/// The number spelt by a sequence of decimal digit bytes, most significant
/// first.
pub open spec fn digits_val(d: Seq<u8>) -> int
    decreases d.len(),
{
    if d.len() == 0 {
        0
    } else {
        digits_val(d.drop_last()) * 10 + (d.last() - DIGIT_ZERO)
    }
}

/// Parse of a byte string `<len>:<bytes>` starting at `pos`.  The length
/// must use minimal decimal form (no leading zero except the single digit
/// "0") and must not overrun the buffer.
pub open spec fn spec_parse_bstr(s: Seq<u8>, pos: int) -> Result<(Seq<u8>, int), DecodeError> {
    let dend = digit_run_end(s, pos);
    let digits = s.subrange(pos, dend);
    if digits.len() > 1 && digits[0] == DIGIT_ZERO {
        Err(DecodeError::InvalidLength { offset: pos as usize })
    } else if dend >= s.len() {
        Err(DecodeError::UnexpectedEnd { offset: s.len() as usize })
    } else if s[dend] != COLON {
        Err(DecodeError::InvalidLength { offset: dend as usize })
    } else if digits_val(digits) > s.len() - (dend + 1) {
        Err(DecodeError::UnexpectedEnd { offset: s.len() as usize })
    } else {
        Ok((s.subrange(dend + 1, dend + 1 + digits_val(digits)), dend + 1 + digits_val(digits)))
    }
}

/// Parse of an integer `i<decimal>e` starting at `pos` (which holds the
/// `i`).  The run must be non-empty decimal digits with at most one
/// leading `-`, no leading zero (except the value 0 itself), no `-0`, and
/// the value must fit `i64`.
pub open spec fn spec_parse_int(s: Seq<u8>, pos: int) -> Result<(int, int), DecodeError> {
    let p = pos + 1;
    let neg = p < s.len() && s[p] == MINUS;
    let q = if neg { p + 1 } else { p };
    let dend = digit_run_end(s, q);
    let digits = s.subrange(q, dend);
    if digits.len() == 0 {
        Err(DecodeError::InvalidInteger { offset: q as usize })
    } else if dend >= s.len() {
        Err(DecodeError::MissingTerminator { offset: s.len() as usize })
    } else if s[dend] != TAG_END {
        Err(DecodeError::InvalidInteger { offset: dend as usize })
    } else if digits.len() > 1 && digits[0] == DIGIT_ZERO {
        Err(DecodeError::InvalidInteger { offset: q as usize })
    } else if neg && digits_val(digits) == 0 {
        Err(DecodeError::InvalidInteger { offset: p as usize })
    } else {
        let v = if neg { -digits_val(digits) } else { digits_val(digits) };
        if v < i64::MIN || v > i64::MAX {
            Err(DecodeError::InvalidInteger { offset: q as usize })
        } else {
            Ok((v, dend + 1))
        }
    }
}

/// Parse of one bencode value at `pos`, allowed to nest at most `depth`
/// levels.  This is the specification the executable decoder is proved
/// equivalent to: it accepts exactly the canonical encodings (strict
/// policy: minimal integers, minimal lengths, dictionary keys strictly
/// increasing), and names the error and offset on every other input.
pub open spec fn spec_parse(s: Seq<u8>, pos: int, depth: int) -> Result<(BValue, int), DecodeError>
    decreases s.len() - pos, 0int,
{
    if depth <= 0 {
        Err(DecodeError::RecursionLimitExceeded { offset: pos as usize })
    } else if pos < 0 || pos >= s.len() {
        Err(DecodeError::UnexpectedEnd { offset: s.len() as usize })
    } else if s[pos] == TAG_INT {
        match spec_parse_int(s, pos) {
            Ok(p) => Ok((BValue::Int(p.0), p.1)),
            Err(e) => Err(e),
        }
    } else if is_digit(s[pos]) {
        match spec_parse_bstr(s, pos) {
            Ok(p) => Ok((BValue::Bytes(p.0), p.1)),
            Err(e) => Err(e),
        }
    } else if s[pos] == TAG_LIST {
        match spec_parse_items(s, pos + 1, depth) {
            Ok(p) => Ok((BValue::List(p.0), p.1)),
            Err(e) => Err(e),
        }
    } else if s[pos] == TAG_DICT {
        match spec_parse_entries(s, pos + 1, depth, Option::None) {
            Ok(p) => Ok((BValue::Dict(p.0), p.1)),
            Err(e) => Err(e),
        }
    } else {
        Err(DecodeError::InvalidTag { offset: pos as usize })
    }
}

/// List elements from `pos` up to and including the terminating `e`.
pub open spec fn spec_parse_items(s: Seq<u8>, pos: int, depth: int) -> Result<
    (Seq<BValue>, int),
    DecodeError,
>
    decreases s.len() - pos, 1int,
{
    if pos < 0 || pos >= s.len() {
        Err(DecodeError::MissingTerminator { offset: s.len() as usize })
    } else if s[pos] == TAG_END {
        Ok((Seq::empty(), pos + 1))
    } else {
        match spec_parse(s, pos, depth - 1) {
            Ok(p) => {
                // Bounding the next position keeps the recursion well
                // founded; a successful parse always lands inside these
                // bounds (`lemma_parse_advances`), so the bound never
                // changes what is parsed.
                let q = if pos < p.1 && p.1 <= s.len() {
                    p.1
                } else {
                    pos + 1
                };
                match spec_parse_items(s, q, depth) {
                    Ok(t) => Ok((seq![p.0] + t.0, t.1)),
                    Err(e) => Err(e),
                }
            },
            Err(e) => Err(e),
        }
    }
}

/// Dictionary entries from `pos` up to and including the terminating `e`.
/// `prev` is the key of the entry before, if any; each key must be a byte
/// string strictly above it (equal keys are duplicates, lower keys break
/// canonical order).
pub open spec fn spec_parse_entries(
    s: Seq<u8>,
    pos: int,
    depth: int,
    prev: Option<Seq<u8>>,
) -> Result<(Seq<(Seq<u8>, BValue)>, int), DecodeError>
    decreases s.len() - pos, 1int,
{
    if pos < 0 || pos >= s.len() {
        Err(DecodeError::MissingTerminator { offset: s.len() as usize })
    } else if s[pos] == TAG_END {
        Ok((Seq::empty(), pos + 1))
    } else if !is_digit(s[pos]) {
        Err(DecodeError::InvalidTag { offset: pos as usize })
    } else {
        match spec_parse_bstr(s, pos) {
            Ok(kp) => {
                let dup = match prev {
                    Option::Some(pk) => pk == kp.0,
                    Option::None => false,
                };
                let ordered = match prev {
                    Option::Some(pk) => lex_lt(pk, kp.0),
                    Option::None => true,
                };
                if dup {
                    Err(DecodeError::DuplicateKey { offset: pos as usize })
                } else if !ordered {
                    Err(DecodeError::NonCanonicalDictionary { offset: pos as usize })
                } else {
                    let kq = if pos < kp.1 && kp.1 <= s.len() {
                        kp.1
                    } else {
                        pos + 1
                    };
                    match spec_parse(s, kq, depth - 1) {
                        Ok(vp) => {
                            let vq = if kq < vp.1 && vp.1 <= s.len() {
                                vp.1
                            } else if kq + 1 <= s.len() {
                                kq + 1
                            } else {
                                s.len() as int
                            };
                            match spec_parse_entries(s, vq, depth, Option::Some(kp.0)) {
                                Ok(t) => Ok((seq![(kp.0, vp.0)] + t.0, t.1)),
                                Err(e) => Err(e),
                            }
                        },
                        Err(e) => Err(e),
                    }
                }
            },
            Err(e) => Err(e),
        }
    }
}

/// Facts about a digit run: it lies between `pos` and the end of the
/// buffer, consists of digits, and stops only at the end or a non-digit.
pub proof fn lemma_digit_run_end(s: Seq<u8>, pos: int)
    requires
        0 <= pos <= s.len(),
    ensures
        pos <= digit_run_end(s, pos) <= s.len(),
        forall|i: int| pos <= i < digit_run_end(s, pos) ==> is_digit(s[i]),
        digit_run_end(s, pos) < s.len() ==> !is_digit(s[digit_run_end(s, pos)]),
    decreases s.len() - pos,
{
    if pos < s.len() && is_digit(s[pos]) {
        lemma_digit_run_end(s, pos + 1);
    }
}

/// The value of a digit sequence is non-negative, and every digit
/// appended multiplies what came before.
pub proof fn lemma_digits_val_nonneg(d: Seq<u8>)
    requires
        forall|i: int| 0 <= i < d.len() ==> is_digit(d[i]),
    ensures
        digits_val(d) >= 0,
    decreases d.len(),
{
    if d.len() > 0 {
        lemma_digits_val_nonneg(d.drop_last());
    }
}

/// The parsers advance: a successful parse consumes at least one byte and
/// never runs past the end of the buffer.
pub proof fn lemma_parse_advances(s: Seq<u8>, pos: int, depth: int)
    ensures
        spec_parse(s, pos, depth) matches Ok(p) ==> pos < p.1 <= s.len(),
    decreases s.len() - pos, 0int,
{
    if depth <= 0 || pos < 0 || pos >= s.len() {
    } else if s[pos] == TAG_INT {
        let q = if pos + 1 < s.len() && s[pos + 1] == MINUS {
            pos + 2
        } else {
            pos + 1
        };
        lemma_digit_run_end(s, q);
    } else if is_digit(s[pos]) {
        lemma_digit_run_end(s, pos);
        lemma_digits_val_nonneg(s.subrange(pos, digit_run_end(s, pos)));
    } else if s[pos] == TAG_LIST {
        lemma_items_advance(s, pos + 1, depth);
    } else if s[pos] == TAG_DICT {
        lemma_entries_advance(s, pos + 1, depth, Option::None);
    }
}

pub proof fn lemma_items_advance(s: Seq<u8>, pos: int, depth: int)
    ensures
        spec_parse_items(s, pos, depth) matches Ok(p) ==> pos < p.1 <= s.len(),
    decreases s.len() - pos, 1int,
{
    if 0 <= pos < s.len() && s[pos] != TAG_END {
        lemma_parse_advances(s, pos, depth - 1);
        match spec_parse(s, pos, depth - 1) {
            Ok(p) => lemma_items_advance(s, p.1, depth),
            Err(e) => (),
        }
    }
}

pub proof fn lemma_entries_advance(s: Seq<u8>, pos: int, depth: int, prev: Option<Seq<u8>>)
    ensures
        spec_parse_entries(s, pos, depth, prev) matches Ok(p) ==> pos < p.1 <= s.len(),
    decreases s.len() - pos, 1int,
{
    if 0 <= pos < s.len() && s[pos] != TAG_END && is_digit(s[pos]) {
        match spec_parse_bstr(s, pos) {
            Ok(kp) => {
                lemma_digit_run_end(s, pos);
                lemma_digits_val_nonneg(s.subrange(pos, digit_run_end(s, pos)));
                lemma_parse_advances(s, kp.1, depth - 1);
                match spec_parse(s, kp.1, depth - 1) {
                    Ok(vp) => lemma_entries_advance(s, vp.1, depth, Option::Some(kp.0)),
                    Err(e) => (),
                }
            },
            Err(e) => (),
        }
    }
}

} // verus!

// === Executable decoder ===

use crate::DEPTH_LIMIT;

verus! {

/// A successful byte-string parse stays within the buffer and consumes at
/// least the length digit and the colon.
pub proof fn lemma_bstr_bounds(s: Seq<u8>, pos: int)
    requires
        0 <= pos <= s.len(),
    ensures
        spec_parse_bstr(s, pos) matches Ok(p) ==> pos < p.1 <= s.len(),
{
    lemma_digit_run_end(s, pos);
    lemma_digits_val_nonneg(s.subrange(pos, digit_run_end(s, pos)));
}

pub open spec fn items_prepend(
    vs: Seq<BValue>,
    r: Result<(Seq<BValue>, int), DecodeError>,
) -> Result<(Seq<BValue>, int), DecodeError> {
    match r {
        Ok(p) => Ok((vs + p.0, p.1)),
        Err(e) => Err(e),
    }
}

pub open spec fn entries_prepend(
    vs: Seq<(Seq<u8>, BValue)>,
    r: Result<(Seq<(Seq<u8>, BValue)>, int), DecodeError>,
) -> Result<(Seq<(Seq<u8>, BValue)>, int), DecodeError> {
    match r {
        Ok(p) => Ok((vs + p.0, p.1)),
        Err(e) => Err(e),
    }
}

proof fn lemma_items_prepend_assoc(
    vs1: Seq<BValue>,
    vs2: Seq<BValue>,
    r: Result<(Seq<BValue>, int), DecodeError>,
)
    ensures
        items_prepend(vs1, items_prepend(vs2, r)) == items_prepend(vs1 + vs2, r),
{
    match r {
        Ok(p) => {
            assert(vs1 + (vs2 + p.0) =~= (vs1 + vs2) + p.0);
        },
        Err(e) => (),
    }
}

proof fn lemma_entries_prepend_assoc(
    vs1: Seq<(Seq<u8>, BValue)>,
    vs2: Seq<(Seq<u8>, BValue)>,
    r: Result<(Seq<(Seq<u8>, BValue)>, int), DecodeError>,
)
    ensures
        entries_prepend(vs1, entries_prepend(vs2, r)) == entries_prepend(vs1 + vs2, r),
{
    match r {
        Ok(p) => {
            assert(vs1 + (vs2 + p.0) =~= (vs1 + vs2) + p.0);
        },
        Err(e) => (),
    }
}

pub(crate) proof fn lemma_bval_list_push(xs: Seq<BencodeValue>, x: BencodeValue)
    ensures
        bval_list(xs + seq![x]) == bval_list(xs) + seq![x.bval()],
    decreases xs.len(),
{
    let ys = xs + seq![x];
    if xs.len() == 0 {
        assert(ys[0] == x);
        assert(ys.drop_first() =~= Seq::<BencodeValue>::empty());
        assert(bval_list(ys) == seq![x.bval()] + bval_list(Seq::<BencodeValue>::empty()));
        assert(bval_list(ys) =~= bval_list(xs) + seq![x.bval()]);
    } else {
        assert(ys[0] == xs[0]);
        assert(ys.drop_first() =~= xs.drop_first() + seq![x]);
        lemma_bval_list_push(xs.drop_first(), x);
        assert(bval_list(ys) =~= bval_list(xs) + seq![x.bval()]);
    }
}

proof fn lemma_bval_entries_push(xs: Seq<(Vec<u8>, BencodeValue)>, x: (Vec<u8>, BencodeValue))
    ensures
        bval_entries(xs + seq![x]) == bval_entries(xs) + seq![(x.0@, x.1.bval())],
    decreases xs.len(),
{
    let ys = xs + seq![x];
    if xs.len() == 0 {
        assert(ys[0] == x);
        assert(ys.drop_first() =~= Seq::<(Vec<u8>, BencodeValue)>::empty());
        assert(bval_entries(ys) == seq![(x.0@, x.1.bval())] + bval_entries(
            Seq::<(Vec<u8>, BencodeValue)>::empty(),
        ));
        assert(bval_entries(ys) =~= bval_entries(xs) + seq![(x.0@, x.1.bval())]);
    } else {
        assert(ys[0] == xs[0]);
        assert(ys.drop_first() =~= xs.drop_first() + seq![x]);
        lemma_bval_entries_push(xs.drop_first(), x);
        assert(bval_entries(ys) =~= bval_entries(xs) + seq![(x.0@, x.1.bval())]);
    }
}

/// Key of the last entry parsed so far, if any.
pub open spec fn last_key(es: Seq<(Vec<u8>, BencodeValue)>) -> Option<Seq<u8>> {
    if es.len() == 0 {
        Option::None
    } else {
        Option::Some(es[es.len() - 1].0@)
    }
}

pub(crate) enum KeyCmp {
    Below,
    Same,
    Above,
}

/// Byte-wise lexicographic comparison of two keys.
pub(crate) fn lex_cmp(a: &Vec<u8>, b: &Vec<u8>) -> (r: KeyCmp)
    ensures
        r matches KeyCmp::Below <==> lex_lt(a@, b@),
        r matches KeyCmp::Same <==> a@ == b@,
{
    let mut i: usize = 0;
    proof {
        assert(a@.skip(0) =~= a@);
        assert(b@.skip(0) =~= b@);
    }
    while i < a.len() && i < b.len() && a[i] == b[i]
        invariant
            i <= a.len(),
            i <= b.len(),
            a@.take(i as int) =~= b@.take(i as int),
            lex_lt(a@, b@) == lex_lt(a@.skip(i as int), b@.skip(i as int)),
            lex_lt(b@, a@) == lex_lt(b@.skip(i as int), a@.skip(i as int)),
        decreases a.len() - i,
    {
        proof {
            assert(a@.skip(i as int).drop_first() =~= a@.skip(i + 1));
            assert(b@.skip(i as int).drop_first() =~= b@.skip(i + 1));
            assert(a@.take(i + 1) =~= a@.take(i as int) + seq![a@[i as int]]);
            assert(b@.take(i + 1) =~= b@.take(i as int) + seq![b@[i as int]]);
        }
        i = i + 1;
    }
    if i < a.len() && i < b.len() {
        proof {
            lemma_lex_total(a@, b@);
        }
        if a[i] < b[i] {
            KeyCmp::Below
        } else {
            KeyCmp::Above
        }
    } else if a.len() < b.len() {
        proof {
            lemma_lex_total(a@, b@);
            assert(a@ != b@);
        }
        KeyCmp::Below
    } else if a.len() > b.len() {
        proof {
            lemma_lex_total(a@, b@);
            assert(b@ != a@);
        }
        KeyCmp::Above
    } else {
        proof {
            assert(a@.take(i as int) =~= a@);
            assert(b@.take(i as int) =~= b@);
        }
        KeyCmp::Same
    }
}

/// The bencode decoder: a buffer and a cursor.  The strict canonical
/// policy is applied: the decoder accepts exactly the canonical encoding
/// of each value (see `spec_parse`).
pub struct BencodeParser {
    data: Vec<u8>,
    position: usize,
}

impl BencodeParser {
    /// The bytes being decoded.
    pub closed spec fn bytes(&self) -> Seq<u8> {
        self.data@
    }

    /// The cursor, as an offset into `bytes()`.
    pub closed spec fn pos(&self) -> int {
        self.position as int
    }

    /// The cursor never runs past the end of the buffer.
    pub closed spec fn wf(&self) -> bool {
        self.position <= self.data.len()
    }

    pub fn new(data: Vec<u8>) -> (p: Self)
        ensures
            p.bytes() == data@,
            p.pos() == 0,
            p.wf(),
    {
        BencodeParser { data, position: 0 }
    }

    /// Scan the digit run starting at `from`; returns its end, the value
    /// of the digits (`digits_val`), and whether that value exceeds
    /// `u64::MAX`.
    fn scan_number(&self, from: usize) -> (r: (usize, u64, bool))
        requires
            self.wf(),
            from <= self.data.len(),
        ensures
            r.0 == digit_run_end(self.bytes(), from as int),
            !r.2 ==> r.1 == digits_val(self.bytes().subrange(from as int, r.0 as int)),
            r.2 ==> digits_val(self.bytes().subrange(from as int, r.0 as int)) > u64::MAX,
    {
        let ghost s = self.bytes();
        let mut i: usize = from;
        let mut acc: u64 = 0;
        let mut over: bool = false;
        while i < self.data.len() && DIGIT_ZERO <= self.data[i] && self.data[i] <= 57
            invariant
                from <= i <= self.data.len(),
                self.wf(),
                s == self.bytes(),
                forall|k: int| from <= k < i ==> is_digit(s[k]),
                digit_run_end(s, from as int) == digit_run_end(s, i as int),
                !over ==> acc == digits_val(s.subrange(from as int, i as int)),
                over ==> digits_val(s.subrange(from as int, i as int)) > u64::MAX,
            decreases self.data.len() - i,
        {
            let d: u8 = self.data[i] - DIGIT_ZERO;
            let ghost prefix = s.subrange(from as int, i as int);
            let ghost grown = s.subrange(from as int, i + 1);
            proof {
                assert(grown.drop_last() =~= prefix);
                assert(grown.last() == s[i as int]);
                lemma_digits_val_nonneg(prefix);
            }
            if over {
                proof {
                    assert(digits_val(grown) == digits_val(prefix) * 10 + d);
                    assert(digits_val(prefix) * 10 >= digits_val(prefix));
                }
            } else if acc > (u64::MAX - d as u64) / 10 {
                proof {
                    let q = (u64::MAX - d as u64) / 10;
                    assert(u64::MAX - d == q * 10 + (u64::MAX - d as u64) % 10);
                    assert(digits_val(grown) == digits_val(prefix) * 10 + d);
                    assert(digits_val(prefix) * 10 > q as int * 10);
                }
                over = true;
            } else {
                acc = acc * 10 + d as u64;
                proof {
                    assert(digits_val(grown) == digits_val(prefix) * 10 + d);
                }
            }
            i = i + 1;
        }
        (i, acc, over)
    }
}

} // verus!

verus! {

proof fn lemma_items_prepend_empty(r: Result<(Seq<BValue>, int), DecodeError>)
    ensures
        items_prepend(Seq::empty(), r) == r,
{
    match r {
        Ok(p) => {
            assert(Seq::<BValue>::empty() + p.0 =~= p.0);
        },
        Err(e) => (),
    }
}

proof fn lemma_entries_prepend_empty(r: Result<(Seq<(Seq<u8>, BValue)>, int), DecodeError>)
    ensures
        entries_prepend(Seq::empty(), r) == r,
{
    match r {
        Ok(p) => {
            assert(Seq::<(Seq<u8>, BValue)>::empty() + p.0 =~= p.0);
        },
        Err(e) => (),
    }
}

pub(crate) fn copy_bytes(src: &Vec<u8>) -> (r: Vec<u8>)
    ensures
        r@ == src@,
{
    let mut out: Vec<u8> = Vec::new();
    let mut i: usize = 0;
    while i < src.len()
        invariant
            i <= src.len(),
            out@ =~= src@.take(i as int),
        decreases src.len() - i,
    {
        out.push(src[i]);
        proof {
            assert(src@.take(i + 1) =~= src@.take(i as int) + seq![src@[i as int]]);
        }
        i = i + 1;
    }
    proof {
        assert(src@.take(src@.len() as int) =~= src@);
    }
    out
}

impl BencodeParser {
    /// Parse a byte string `<len>:<bytes>` at the cursor.
    fn parse_bstring(&mut self) -> (r: Result<Vec<u8>, DecodeError>)
        requires
            old(self).wf(),
        ensures
            final(self).wf(),
            final(self).bytes() == old(self).bytes(),
            match spec_parse_bstr(old(self).bytes(), old(self).pos()) {
                Ok(p) => r matches Ok(b) && b@ == p.0 && final(self).pos() == p.1,
                Err(e) => r matches Err(e2) && e2 == e,
            },
    {
        let ghost s = self.bytes();
        let start = self.position;
        let (dend, acc, over) = self.scan_number(start);
        proof {
            lemma_digit_run_end(s, start as int);
            lemma_digits_val_nonneg(s.subrange(start as int, dend as int));
        }
        if dend - start > 1 && self.data[start] == DIGIT_ZERO {
            return Err(DecodeError::InvalidLength { offset: start });
        }
        if dend >= self.data.len() {
            return Err(DecodeError::UnexpectedEnd { offset: self.data.len() });
        }
        if self.data[dend] != COLON {
            return Err(DecodeError::InvalidLength { offset: dend });
        }
        let rem: usize = self.data.len() - (dend + 1);
        if over || acc > rem as u64 {
            return Err(DecodeError::UnexpectedEnd { offset: self.data.len() });
        }
        let n: usize = acc as usize;
        let vstart: usize = dend + 1;
        let vend: usize = vstart + n;
        let mut out: Vec<u8> = Vec::new();
        let mut k: usize = vstart;
        while k < vend
            invariant
                vstart <= k <= vend <= self.data.len(),
                self.wf(),
                s == self.bytes(),
                out@ =~= s.subrange(vstart as int, k as int),
            decreases vend - k,
        {
            out.push(self.data[k]);
            proof {
                assert(s.subrange(vstart as int, k + 1) =~= s.subrange(vstart as int, k as int)
                    + seq![s[k as int]]);
            }
            k = k + 1;
        }
        self.position = vend;
        Ok(out)
    }

    /// Parse a byte-string value (`parse_bstring` boxed as a value).
    fn parse_string(&mut self) -> (r: Result<BencodeValue, DecodeError>)
        requires
            old(self).wf(),
        ensures
            final(self).wf(),
            final(self).bytes() == old(self).bytes(),
            match spec_parse_bstr(old(self).bytes(), old(self).pos()) {
                Ok(p) => r matches Ok(BencodeValue::ByteString(b)) && b@ == p.0 && final(self).pos() == p.1,
                Err(e) => r matches Err(e2) && e2 == e,
            },
    {
        match self.parse_bstring() {
            Ok(b) => Ok(BencodeValue::ByteString(b)),
            Err(e) => Err(e),
        }
    }

    /// Parse an integer `i<decimal>e` at the cursor.
    fn parse_integer(&mut self) -> (r: Result<BencodeValue, DecodeError>)
        requires
            old(self).wf(),
            old(self).pos() < old(self).bytes().len(),
        ensures
            final(self).wf(),
            final(self).bytes() == old(self).bytes(),
            match spec_parse_int(old(self).bytes(), old(self).pos()) {
                Ok(p) => r matches Ok(BencodeValue::Integer(v)) && v as int == p.0 && final(self).pos() == p.1,
                Err(e) => r matches Err(e2) && e2 == e,
            },
    {
        let ghost s = self.bytes();
        let p: usize = self.position + 1;
        let neg = p < self.data.len() && self.data[p] == MINUS;
        let q: usize = if neg {
            p + 1
        } else {
            p
        };
        let (dend, acc, over) = self.scan_number(q);
        proof {
            lemma_digit_run_end(s, q as int);
            lemma_digits_val_nonneg(s.subrange(q as int, dend as int));
        }
        if dend == q {
            return Err(DecodeError::InvalidInteger { offset: q });
        }
        if dend >= self.data.len() {
            return Err(DecodeError::MissingTerminator { offset: self.data.len() });
        }
        if self.data[dend] != TAG_END {
            return Err(DecodeError::InvalidInteger { offset: dend });
        }
        if dend - q > 1 && self.data[q] == DIGIT_ZERO {
            return Err(DecodeError::InvalidInteger { offset: q });
        }
        if neg && !over && acc == 0 {
            return Err(DecodeError::InvalidInteger { offset: p });
        }
        let val: i64;
        if neg {
            if over || acc > 9223372036854775808u64 {
                return Err(DecodeError::InvalidInteger { offset: q });
            }
            if acc == 9223372036854775808u64 {
                val = i64::MIN;
            } else {
                val = -(acc as i64);
            }
        } else {
            if over || acc > 9223372036854775807u64 {
                return Err(DecodeError::InvalidInteger { offset: q });
            }
            val = acc as i64;
        }
        self.position = dend + 1;
        Ok(BencodeValue::Integer(val))
    }

    /// Parse one value at the cursor, nesting at most `depth` levels.
    fn parse_value_at(&mut self, depth: usize) -> (r: Result<BencodeValue, DecodeError>)
        requires
            old(self).wf(),
        ensures
            final(self).wf(),
            final(self).bytes() == old(self).bytes(),
            match spec_parse(old(self).bytes(), old(self).pos(), depth as int) {
                Ok(p) => r matches Ok(v) && v.bval() == p.0 && final(self).pos() == p.1,
                Err(e) => r matches Err(e2) && e2 == e,
            },
        decreases depth, 1int,
    {
        if depth == 0 {
            return Err(DecodeError::RecursionLimitExceeded { offset: self.position });
        }
        if self.position >= self.data.len() {
            return Err(DecodeError::UnexpectedEnd { offset: self.data.len() });
        }
        let b = self.data[self.position];
        if b == TAG_INT {
            self.parse_integer()
        } else if DIGIT_ZERO <= b && b <= 57 {
            self.parse_string()
        } else if b == TAG_LIST {
            self.parse_list(depth)
        } else if b == TAG_DICT {
            self.parse_dictionary(depth)
        } else {
            Err(DecodeError::InvalidTag { offset: self.position })
        }
    }

    /// Parse a list `l ... e` whose tag stands at the cursor.
    fn parse_list(&mut self, depth: usize) -> (r: Result<BencodeValue, DecodeError>)
        requires
            old(self).wf(),
            depth >= 1,
            old(self).pos() < old(self).bytes().len(),
            old(self).bytes()[old(self).pos()] == TAG_LIST,
        ensures
            final(self).wf(),
            final(self).bytes() == old(self).bytes(),
            match spec_parse_items(old(self).bytes(), old(self).pos() + 1, depth as int) {
                Ok(p) => r matches Ok(BencodeValue::List(xs)) && bval_list(xs@) == p.0 && final(self).pos() == p.1,
                Err(e) => r matches Err(e2) && e2 == e,
            },
        decreases depth, 0int,
    {
        let ghost s = old(self).bytes();
        let ghost d: int = depth as int;
        self.position = self.position + 1;
        let ghost p0: int = self.pos();
        let mut items: Vec<BencodeValue> = Vec::new();
        proof {
            lemma_items_prepend_empty(spec_parse_items(s, p0, d));
            assert(bval_list(items@) =~= Seq::<BValue>::empty());
        }
        while self.position < self.data.len() && self.data[self.position] != TAG_END
            invariant
                self.wf(),
                self.bytes() == s,
                s == old(self).bytes(),
                p0 == old(self).pos() + 1,
                depth as int == d,
                1 <= d,
                p0 <= self.pos() <= s.len(),
                spec_parse_items(s, p0, d) == items_prepend(
                    bval_list(items@),
                    spec_parse_items(s, self.pos(), d),
                ),
            decreases s.len() - self.pos(),
        {
            let ghost cur: int = self.pos();
            match self.parse_value_at(depth - 1) {
                Err(e) => {
                    return Err(e);
                },
                Ok(v) => {
                    let ghost before = items@;
                    proof {
                        lemma_parse_advances(s, cur, d - 1);
                        assert(spec_parse_items(s, cur, d) == items_prepend(
                            seq![v.bval()],
                            spec_parse_items(s, self.pos(), d),
                        ));
                        lemma_items_prepend_assoc(
                            bval_list(before),
                            seq![v.bval()],
                            spec_parse_items(s, self.pos(), d),
                        );
                        lemma_bval_list_push(before, v);
                    }
                    items.push(v);
                    proof {
                        assert(items@ =~= before + seq![v]);
                    }
                },
            }
        }
        if self.position >= self.data.len() {
            return Err(DecodeError::MissingTerminator { offset: self.data.len() });
        }
        proof {
            assert(bval_list(items@) + Seq::<BValue>::empty() =~= bval_list(items@));
        }
        self.position = self.position + 1;
        Ok(BencodeValue::List(items))
    }

    /// Parse a dictionary `d ... e` whose tag stands at the cursor,
    /// holding keys to the strict canonical policy.
    fn parse_dictionary(&mut self, depth: usize) -> (r: Result<BencodeValue, DecodeError>)
        requires
            old(self).wf(),
            depth >= 1,
            old(self).pos() < old(self).bytes().len(),
            old(self).bytes()[old(self).pos()] == TAG_DICT,
        ensures
            final(self).wf(),
            final(self).bytes() == old(self).bytes(),
            match spec_parse_entries(
                old(self).bytes(),
                old(self).pos() + 1,
                depth as int,
                Option::None,
            ) {
                Ok(p) => r matches Ok(BencodeValue::Dictionary(es)) && bval_entries(es@) == p.0
                    && final(self).pos() == p.1,
                Err(e) => r matches Err(e2) && e2 == e,
            },
        decreases depth, 0int,
    {
        let ghost s = old(self).bytes();
        let ghost d: int = depth as int;
        self.position = self.position + 1;
        let ghost p0: int = self.pos();
        let mut entries: Vec<(Vec<u8>, BencodeValue)> = Vec::new();
        proof {
            lemma_entries_prepend_empty(spec_parse_entries(s, p0, d, Option::None));
            assert(bval_entries(entries@) =~= Seq::<(Seq<u8>, BValue)>::empty());
        }
        while self.position < self.data.len() && self.data[self.position] != TAG_END
            invariant
                self.wf(),
                self.bytes() == s,
                s == old(self).bytes(),
                p0 == old(self).pos() + 1,
                depth as int == d,
                1 <= d,
                p0 <= self.pos() <= s.len(),
                spec_parse_entries(s, p0, d, Option::None) == entries_prepend(
                    bval_entries(entries@),
                    spec_parse_entries(s, self.pos(), d, last_key(entries@)),
                ),
            decreases s.len() - self.pos(),
        {
            let ghost cur: int = self.pos();
            let ghost prev = last_key(entries@);
            let kpos = self.position;
            let c = self.data[kpos];
            if c < DIGIT_ZERO || c > 57 {
                return Err(DecodeError::InvalidTag { offset: kpos });
            }
            let key = match self.parse_bstring() {
                Err(e) => {
                    return Err(e);
                },
                Ok(k) => k,
            };
            let ghost gk: Seq<u8> = key@;
            proof {
                lemma_bstr_bounds(s, cur);
            }
            if entries.len() > 0 {
                match lex_cmp(&entries[entries.len() - 1].0, &key) {
                    KeyCmp::Same => {
                        return Err(DecodeError::DuplicateKey { offset: kpos });
                    },
                    KeyCmp::Above => {
                        return Err(DecodeError::NonCanonicalDictionary { offset: kpos });
                    },
                    KeyCmp::Below => (),
                }
            }
            let ghost kq: int = self.pos();
            match self.parse_value_at(depth - 1) {
                Err(e) => {
                    return Err(e);
                },
                Ok(v) => {
                    let ghost before = entries@;
                    proof {
                        lemma_parse_advances(s, kq, d - 1);
                        assert(spec_parse_entries(s, cur, d, prev) == entries_prepend(
                            seq![(gk, v.bval())],
                            spec_parse_entries(s, self.pos(), d, Option::Some(gk)),
                        ));
                        lemma_entries_prepend_assoc(
                            bval_entries(before),
                            seq![(gk, v.bval())],
                            spec_parse_entries(s, self.pos(), d, Option::Some(gk)),
                        );
                        lemma_bval_entries_push(before, (key, v));
                    }
                    entries.push((key, v));
                    proof {
                        assert(entries@ =~= before + seq![(key, v)]);
                        assert(last_key(entries@) == Option::Some(gk));
                    }
                },
            }
        }
        if self.position >= self.data.len() {
            return Err(DecodeError::MissingTerminator { offset: self.data.len() });
        }
        proof {
            assert(bval_entries(entries@) + Seq::<(Seq<u8>, BValue)>::empty() =~= bval_entries(
                entries@,
            ));
        }
        self.position = self.position + 1;
        Ok(BencodeValue::Dictionary(entries))
    }

    /// Parse a single value from the current position.  The result is
    /// exactly what `spec_parse` gives on the same bytes at the same
    /// cursor, with nesting bounded by `DEPTH_LIMIT`.
    pub fn parse_value(&mut self) -> (r: Result<BencodeValue, DecodeError>)
        requires
            old(self).wf(),
        ensures
            final(self).wf(),
            final(self).bytes() == old(self).bytes(),
            match spec_parse(old(self).bytes(), old(self).pos(), DEPTH_LIMIT as int) {
                Ok(p) => r matches Ok(v) && v.bval() == p.0 && final(self).pos() == p.1,
                Err(e) => r matches Err(e2) && e2 == e,
            },
    {
        self.parse_value_at(DEPTH_LIMIT)
    }
}

/// Decode one value from the front of `data`; on success also give how
/// many bytes it occupied.
pub fn decode(data: &Vec<u8>) -> (r: Result<(BencodeValue, usize), DecodeError>)
    ensures
        match spec_parse(data@, 0, DEPTH_LIMIT as int) {
            Ok(p) => r matches Ok(t) && t.0.bval() == p.0 && t.1 as int == p.1,
            Err(e) => r matches Err(e2) && e2 == e,
        },
{
    let mut parser = BencodeParser::new(copy_bytes(data));
    match parser.parse_value() {
        Ok(v) => Ok((v, parser.position)),
        Err(e) => Err(e),
    }
}

/// Decode a value that must fill the whole buffer (a standalone
/// `.torrent` file); left-over bytes are `TrailingData` at their offset.
pub fn decode_exact(data: &Vec<u8>) -> (r: Result<BencodeValue, DecodeError>)
    ensures
        match spec_parse(data@, 0, DEPTH_LIMIT as int) {
            Ok(p) => if p.1 == data@.len() {
                r matches Ok(v) && v.bval() == p.0
            } else {
                r matches Err(e2) && e2 == (DecodeError::TrailingData { offset: p.1 as usize })
            },
            Err(e) => r matches Err(e2) && e2 == e,
        },
{
    let mut parser = BencodeParser::new(copy_bytes(data));
    match parser.parse_value() {
        Ok(v) => {
            if parser.position == parser.data.len() {
                Ok(v)
            } else {
                Err(DecodeError::TrailingData { offset: parser.position })
            }
        },
        Err(e) => Err(e),
    }
}

} // verus!

verus! {

/// The dictionary key whose raw value span the torrent loader needs:
/// "info".
pub open spec fn info_key() -> Seq<u8> {
    seq![105u8, 110u8, 102u8, 111u8]
}

/// Walk the entries of the top-level dictionary from `pos` and give the
/// `[start, end)` span of the raw encoding of the value under `key`, or
/// `None` when the key is absent or the entries are malformed.
pub open spec fn spec_entry_span(s: Seq<u8>, pos: int, depth: int, key: Seq<u8>) -> Option<
    (int, int),
>
    decreases s.len() - pos,
{
    if pos < 0 || pos >= s.len() {
        Option::None
    } else if s[pos] == TAG_END {
        Option::None
    } else if !is_digit(s[pos]) {
        Option::None
    } else {
        match spec_parse_bstr(s, pos) {
            Ok(kp) => {
                let kq = if pos < kp.1 && kp.1 <= s.len() {
                    kp.1
                } else {
                    pos + 1
                };
                match spec_parse(s, kq, depth - 1) {
                    Ok(vp) => if kp.0 == key {
                        Option::Some((kq, vp.1))
                    } else {
                        let vq = if kq < vp.1 && vp.1 <= s.len() {
                            vp.1
                        } else if kq + 1 <= s.len() {
                            kq + 1
                        } else {
                            s.len() as int
                        };
                        spec_entry_span(s, vq, depth, key)
                    },
                    Err(e) => Option::None,
                }
            },
            Err(e) => Option::None,
        }
    }
}

/// The span of the raw bytes of the `info` value inside a top-level
/// dictionary, as the decoder records it.
pub open spec fn spec_info_span(s: Seq<u8>) -> Option<(int, int)> {
    if s.len() > 0 && s[0] == TAG_DICT {
        spec_entry_span(s, 1, DEPTH_LIMIT as int, info_key())
    } else {
        Option::None
    }
}

/// Spans agree once widths are put aside.
pub open spec fn span_matches(r: Option<(usize, usize)>, sp: Option<(int, int)>) -> bool {
    match (r, sp) {
        (Option::Some(a), Option::Some(b)) => a.0 as int == b.0 && a.1 as int == b.1,
        (Option::None, Option::None) => true,
        _ => false,
    }
}

/// Scan a top-level dictionary for the raw byte span of its `info`
/// value.
pub fn info_span(data: &Vec<u8>) -> (r: Option<(usize, usize)>)
    ensures
        span_matches(r, spec_info_span(data@)),
{
    let ghost s = data@;
    let ghost d: int = DEPTH_LIMIT as int;
    if data.len() == 0 {
        return Option::None;
    }
    if data[0] != TAG_DICT {
        return Option::None;
    }
    let mut ik: Vec<u8> = Vec::new();
    ik.push(105);
    ik.push(110);
    ik.push(102);
    ik.push(111);
    proof {
        assert(ik@ =~= info_key());
    }
    let mut parser = BencodeParser::new(copy_bytes(data));
    parser.position = 1;
    while parser.position < parser.data.len() && parser.data[parser.position] != TAG_END
        invariant
            parser.wf(),
            parser.bytes() == s,
            s == data@,
            ik@ == info_key(),
            d == DEPTH_LIMIT as int,
            1 <= parser.pos() <= s.len(),
            s.len() > 0 && s[0] == TAG_DICT,
            spec_info_span(s) == spec_entry_span(s, parser.pos(), d, info_key()),
        decreases s.len() - parser.pos(),
    {
        let kpos = parser.position;
        let c = parser.data[kpos];
        if c < DIGIT_ZERO || c > 57 {
            return Option::None;
        }
        let ghost cur: int = parser.pos();
        let key = match parser.parse_bstring() {
            Err(e) => {
                return Option::None;
            },
            Ok(k) => k,
        };
        proof {
            lemma_bstr_bounds(s, cur);
        }
        let vstart = parser.position;
        let is_info = match lex_cmp(&key, &ik) {
            KeyCmp::Same => true,
            KeyCmp::Below => false,
            KeyCmp::Above => false,
        };
        match parser.parse_value_at(DEPTH_LIMIT - 1) {
            Err(e) => {
                return Option::None;
            },
            Ok(v) => {
                proof {
                    lemma_parse_advances(s, vstart as int, d - 1);
                }
                if is_info {
                    return Option::Some((vstart, parser.position));
                }
            },
        }
    }
    Option::None
}

/// Decode a standalone `.torrent` buffer: the whole buffer must hold one
/// value, and if that value is a dictionary with an `info` key, the raw
/// byte span of the `info` value is recorded for hashing.
pub fn decode_torrent(data: &Vec<u8>) -> (r: Result<
    (BencodeValue, Option<(usize, usize)>),
    DecodeError,
>)
    ensures
        match spec_parse(data@, 0, DEPTH_LIMIT as int) {
            Ok(p) => if p.1 == data@.len() {
                r matches Ok(t) && t.0.bval() == p.0 && span_matches(t.1, spec_info_span(data@))
            } else {
                r matches Err(e2) && e2 == (DecodeError::TrailingData { offset: p.1 as usize })
            },
            Err(e) => r matches Err(e2) && e2 == e,
        },
{
    match decode_exact(data) {
        Ok(v) => Ok((v, info_span(data))),
        Err(e) => Err(e),
    }
}

} // verus!
