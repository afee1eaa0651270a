//! The framed stream codec: a message is carried on the wire as
//! `Content-Length: <n>\r\n\r\n<body>`, where the body is a textual
//! JSON-RPC envelope of exactly `n` bytes. Encoding and decoding are pure
//! functions over byte strings; the decoder works on a growing buffer and
//! reports when it needs more bytes, so the header and body may arrive
//! split across any number of reads.

use vstd::prelude::*;
use vstd::arithmetic::div_mod::lemma_fundamental_div_mod;

use crate::msg::{
    Identifier, IdVal, Message, MsgVal, Outcome, OutcomeVal, id_wf, msg_wf, no_quote,
};

verus! {

// ---------------------------------------------------------------------------
// Wire literals
// ---------------------------------------------------------------------------

/// `Content-Length: ` (16 bytes)
pub open spec fn header_lit() -> Seq<u8> {
    seq![67u8, 111u8, 110u8, 116u8, 101u8, 110u8, 116u8, 45u8, 76u8, 101u8, 110u8, 103u8, 116u8, 104u8, 58u8, 32u8]
}

/// `\r\n\r\n`
pub open spec fn crlf2_lit() -> Seq<u8> {
    seq![13u8, 10u8, 13u8, 10u8]
}

/// `{"jsonrpc":"2.0",` (17 bytes)
pub open spec fn body_pre_lit() -> Seq<u8> {
    seq![123u8, 34u8, 106u8, 115u8, 111u8, 110u8, 114u8, 112u8, 99u8, 34u8, 58u8, 34u8, 50u8, 46u8, 48u8, 34u8, 44u8]
}

/// `"id":` (5 bytes)
pub open spec fn id_lit() -> Seq<u8> {
    seq![34u8, 105u8, 100u8, 34u8, 58u8]
}

/// `"method":"` (10 bytes)
pub open spec fn method_lit() -> Seq<u8> {
    seq![34u8, 109u8, 101u8, 116u8, 104u8, 111u8, 100u8, 34u8, 58u8, 34u8]
}

/// `,"params":` (10 bytes)
pub open spec fn params_lit() -> Seq<u8> {
    seq![44u8, 34u8, 112u8, 97u8, 114u8, 97u8, 109u8, 115u8, 34u8, 58u8]
}

/// `"result":` (9 bytes)
pub open spec fn result_lit() -> Seq<u8> {
    seq![34u8, 114u8, 101u8, 115u8, 117u8, 108u8, 116u8, 34u8, 58u8]
}

/// `"error":` (8 bytes)
pub open spec fn error_lit() -> Seq<u8> {
    seq![34u8, 101u8, 114u8, 114u8, 111u8, 114u8, 34u8, 58u8]
}

// ---------------------------------------------------------------------------
// Decimal digits
// ---------------------------------------------------------------------------

pub open spec fn is_digit(b: u8) -> bool {
    48 <= b <= 57
}

/// The decimal digits of `n`, most significant first.
pub open spec fn dec_of(n: nat) -> Seq<u8>
    decreases n,
{
    if n < 10 {
        seq![(48 + n) as u8]
    } else {
        dec_of(n / 10).push((48 + n % 10) as u8)
    }
}

/// The value of a digit string, most significant first.
pub open spec fn digits_val(s: Seq<u8>) -> int
    decreases s.len(),
{
    if s.len() == 0 {
        0
    } else {
        digits_val(s.drop_last()) * 10 + (s.last() - 48)
    }
}

pub proof fn lemma_dec_of_digits(n: nat)
    ensures
        dec_of(n).len() >= 1,
        forall|i: int| 0 <= i < dec_of(n).len() ==> is_digit(#[trigger] dec_of(n)[i]),
    decreases n,
{
    if n >= 10 {
        lemma_dec_of_digits(n / 10);
    }
}

pub proof fn lemma_dec_of_val(n: nat)
    ensures
        digits_val(dec_of(n)) == n,
    decreases n,
{
    let d = dec_of(n);
    if n < 10 {
        assert(d == seq![(48 + n) as u8]);
        assert(d.len() == 1);
        assert(digits_val(d) == digits_val(d.drop_last()) * 10 + (d.last() - 48));
        assert(d.drop_last() =~= Seq::<u8>::empty());
        assert(digits_val(d.drop_last()) == 0);
        assert(d.last() == (48 + n) as u8);
        assert(((48 + n) as u8) as int == 48 + n);
        assert(digits_val(d) == n);
    } else {
        lemma_dec_of_val(n / 10);
        assert(d == dec_of(n / 10).push((48 + n % 10) as u8));
        assert(d.len() >= 1);
        assert(digits_val(d) == digits_val(d.drop_last()) * 10 + (d.last() - 48));
        assert(d.drop_last() =~= dec_of(n / 10));
        assert(digits_val(d.drop_last()) == n / 10);
        assert(d.last() == (48 + n % 10) as u8);
        assert(((48 + n % 10) as u8) as int == 48 + (n % 10));
        lemma_fundamental_div_mod(n as int, 10);
        assert((n / 10) * 10 + (n % 10) == n);
        assert(digits_val(d) == n);
    }
}

pub proof fn lemma_digits_val_nonneg(s: Seq<u8>)
    requires
        forall|i: int| 0 <= i < s.len() ==> is_digit(#[trigger] s[i]),
    ensures
        digits_val(s) >= 0,
    decreases s.len(),
{
    if s.len() > 0 {
        lemma_digits_val_nonneg(s.drop_last());
    }
}

/// The value of a digit string never goes down as more digits arrive.
pub proof fn lemma_digits_val_take_le(s: Seq<u8>, j: int)
    requires
        0 <= j <= s.len(),
        forall|i: int| 0 <= i < s.len() ==> is_digit(#[trigger] s[i]),
    ensures
        digits_val(s.take(j)) <= digits_val(s),
    decreases s.len() - j,
{
    if j == s.len() {
        assert(s.take(j) =~= s);
    } else {
        lemma_digits_val_take_le(s, j + 1);
        let t = s.take(j + 1);
        assert(t.drop_last() =~= s.take(j));
        lemma_digits_val_nonneg(s.take(j));
        assert(digits_val(s.take(j)) <= digits_val(t));
    }
}

/// The number of leading decimal digits of `s`.
pub open spec fn digit_count(s: Seq<u8>) -> nat
    decreases s.len(),
{
    if s.len() == 0 {
        0
    } else if !is_digit(s[0]) {
        0
    } else {
        1 + digit_count(s.skip(1))
    }
}

pub proof fn lemma_digit_count_is(s: Seq<u8>, k: int)
    requires
        0 <= k <= s.len(),
        forall|i: int| 0 <= i < k ==> is_digit(#[trigger] s[i]),
        k < s.len() ==> !is_digit(s[k]),
    ensures
        digit_count(s) == k,
    decreases s.len(),
{
    if k == 0 {
    } else {
        let t = s.skip(1);
        assert forall|i: int| 0 <= i < k - 1 implies is_digit(#[trigger] t[i]) by {
            assert(t[i] == s[i + 1]);
        }
        assert(k - 1 < t.len() ==> !is_digit(t[k - 1])) by {
            if k - 1 < t.len() {
                assert(t[k - 1] == s[k]);
            }
        }
        lemma_digit_count_is(t, k - 1);
    }
}

// ---------------------------------------------------------------------------
// Encoding
// ---------------------------------------------------------------------------

/// The wire form of an identifier: a bare decimal or a quoted byte string.
pub open spec fn enc_id(id: IdVal) -> Seq<u8> {
    match id {
        IdVal::Num(n) => dec_of(n as nat),
        IdVal::Str(s) => seq![34u8] + s + seq![34u8],
    }
}

/// `"method":"<method>","params":<params>`
pub open spec fn method_params_part(method: Seq<u8>, params: Seq<u8>) -> Seq<u8> {
    method_lit() + method + seq![34u8] + params_lit() + params
}

/// `"result":<p>` or `"error":<p>`
pub open spec fn outcome_part(o: OutcomeVal) -> Seq<u8> {
    match o {
        OutcomeVal::Success(p) => result_lit() + p,
        OutcomeVal::Failure(p) => error_lit() + p,
    }
}

/// The body of a message: the JSON-RPC envelope, without the length header.
pub open spec fn body_of(m: MsgVal) -> Seq<u8> {
    match m {
        MsgVal::Request { id, method, params } => body_pre_lit() + id_lit() + enc_id(id)
            + seq![44u8] + method_params_part(method, params) + seq![125u8],
        MsgVal::Response { id, outcome } => body_pre_lit() + id_lit() + enc_id(id) + seq![44u8]
            + outcome_part(outcome) + seq![125u8],
        MsgVal::Notification { method, params } => body_pre_lit()
            + method_params_part(method, params) + seq![125u8],
    }
}

/// The full wire form: header, decimal body length, blank line, body.
pub open spec fn encode_bytes(m: MsgVal) -> Seq<u8> {
    header_lit() + dec_of(body_of(m).len()) + crlf2_lit() + body_of(m)
}

/// Appends every byte of `src` to `dst`.
pub fn append_bytes(dst: &mut Vec<u8>, src: &Vec<u8>)
    ensures
        final(dst)@ == old(dst)@ + src@,
{
    let mut i: usize = 0;
    while i < src.len()
        invariant
            i <= src.len(),
            dst@ == old(dst)@ + src@.take(i as int),
        decreases src.len() - i,
    {
        dst.push(src[i]);
        proof {
            assert(old(dst)@ + src@.take(i as int) + seq![src@[i as int]]
                =~= old(dst)@ + src@.take(i + 1));
        }
        i += 1;
    }
    proof {
        assert(old(dst)@ + src@.take(src@.len() as int) =~= old(dst)@ + src@);
    }
}

/// Appends `src[from..to]` to `dst`.
pub fn append_range(dst: &mut Vec<u8>, src: &Vec<u8>, from: usize, to: usize)
    requires
        from <= to <= src.len(),
    ensures
        final(dst)@ == old(dst)@ + src@.subrange(from as int, to as int),
{
    let mut i: usize = from;
    while i < to
        invariant
            from <= i <= to <= src.len(),
            dst@ == old(dst)@ + src@.subrange(from as int, i as int),
        decreases to - i,
    {
        dst.push(src[i]);
        proof {
            assert(old(dst)@ + src@.subrange(from as int, i as int) + seq![src@[i as int]]
                =~= old(dst)@ + src@.subrange(from as int, i + 1));
        }
        i += 1;
    }
}

/// The decimal digits of `n`, most significant first.
pub fn u64_dec(n: u64) -> (r: Vec<u8>)
    ensures
        r@ == dec_of(n as nat),
    decreases n,
{
    if n < 10 {
        let mut v: Vec<u8> = Vec::new();
        v.push(48 + (n as u8));
        proof {
            assert(v@ =~= dec_of(n as nat));
        }
        v
    } else {
        let mut v = u64_dec(n / 10);
        v.push(48 + ((n % 10) as u8));
        proof {
            assert(v@ =~= dec_of(n as nat));
        }
        v
    }
}

/// Encodes a message into its full wire form.
pub fn encode(m: &Message) -> (r: Vec<u8>)
    ensures
        r@ == encode_bytes(m@),
{
    let body = body_vec(m);
    let mut out: Vec<u8> = Vec::new();
    let header = header_vec();
    append_bytes(&mut out, &header);
    let digits = u64_dec(body.len() as u64);
    append_bytes(&mut out, &digits);
    out.push(13);
    out.push(10);
    out.push(13);
    out.push(10);
    append_bytes(&mut out, &body);
    proof {
        assert(out@ =~= encode_bytes(m@));
    }
    out
}

/// Builds the body envelope of a message.
pub fn body_vec(m: &Message) -> (r: Vec<u8>)
    ensures
        r@ == body_of(m@),
{
    let mut out = body_pre_vec();
    match m {
        Message::Request { id, method, params } => {
            let lit = id_lit_vec();
            append_bytes(&mut out, &lit);
            push_id(&mut out, id);
            out.push(44u8);
            push_method_params(&mut out, method, params);
            out.push(125u8);
        }
        Message::Response { id, outcome } => {
            let lit = id_lit_vec();
            append_bytes(&mut out, &lit);
            push_id(&mut out, id);
            out.push(44u8);
            match outcome {
                Outcome::Success(p) => {
                    let lit2 = result_lit_vec();
                    append_bytes(&mut out, &lit2);
                    append_bytes(&mut out, p);
                }
                Outcome::Failure(p) => {
                    let lit2 = error_lit_vec();
                    append_bytes(&mut out, &lit2);
                    append_bytes(&mut out, p);
                }
            }
            out.push(125u8);
        }
        Message::Notification { method, params } => {
            push_method_params(&mut out, method, params);
            out.push(125u8);
        }
    }
    proof {
        assert(out@ =~= body_of(m@));
    }
    out
}

fn push_id(out: &mut Vec<u8>, id: &Identifier)
    ensures
        final(out)@ == old(out)@ + enc_id(id@),
{
    match id {
        Identifier::Num(n) => {
            let digits = u64_dec(*n);
            append_bytes(out, &digits);
        }
        Identifier::Str(s) => {
            out.push(34u8);
            append_bytes(out, s);
            out.push(34u8);
            proof {
                assert(out@ =~= old(out)@ + enc_id(id@));
            }
        }
    }
}

fn push_method_params(out: &mut Vec<u8>, method: &Vec<u8>, params: &Vec<u8>)
    ensures
        final(out)@ == old(out)@ + method_params_part(method@, params@),
{
    let lit = method_lit_vec();
    append_bytes(out, &lit);
    append_bytes(out, method);
    out.push(34u8);
    let lit2 = params_lit_vec();
    append_bytes(out, &lit2);
    append_bytes(out, params);
    proof {
        assert(out@ =~= old(out)@ + method_params_part(method@, params@));
    }
}

pub fn header_vec() -> (r: Vec<u8>)
    ensures
        r@ == header_lit(),
{
    let mut v: Vec<u8> = Vec::new();
    v.push(67u8);
    v.push(111u8);
    v.push(110u8);
    v.push(116u8);
    v.push(101u8);
    v.push(110u8);
    v.push(116u8);
    v.push(45u8);
    v.push(76u8);
    v.push(101u8);
    v.push(110u8);
    v.push(103u8);
    v.push(116u8);
    v.push(104u8);
    v.push(58u8);
    v.push(32u8);
    proof {
        assert(v@ =~= header_lit());
    }
    v
}

fn body_pre_vec() -> (r: Vec<u8>)
    ensures
        r@ == body_pre_lit(),
{
    let mut v: Vec<u8> = Vec::new();
    v.push(123u8);
    v.push(34u8);
    v.push(106u8);
    v.push(115u8);
    v.push(111u8);
    v.push(110u8);
    v.push(114u8);
    v.push(112u8);
    v.push(99u8);
    v.push(34u8);
    v.push(58u8);
    v.push(34u8);
    v.push(50u8);
    v.push(46u8);
    v.push(48u8);
    v.push(34u8);
    v.push(44u8);
    proof {
        assert(v@ =~= body_pre_lit());
    }
    v
}

fn id_lit_vec() -> (r: Vec<u8>)
    ensures
        r@ == id_lit(),
{
    let mut v: Vec<u8> = Vec::new();
    v.push(34u8);
    v.push(105u8);
    v.push(100u8);
    v.push(34u8);
    v.push(58u8);
    proof {
        assert(v@ =~= id_lit());
    }
    v
}

fn method_lit_vec() -> (r: Vec<u8>)
    ensures
        r@ == method_lit(),
{
    let mut v: Vec<u8> = Vec::new();
    v.push(34u8);
    v.push(109u8);
    v.push(101u8);
    v.push(116u8);
    v.push(104u8);
    v.push(111u8);
    v.push(100u8);
    v.push(34u8);
    v.push(58u8);
    v.push(34u8);
    proof {
        assert(v@ =~= method_lit());
    }
    v
}

fn params_lit_vec() -> (r: Vec<u8>)
    ensures
        r@ == params_lit(),
{
    let mut v: Vec<u8> = Vec::new();
    v.push(44u8);
    v.push(34u8);
    v.push(112u8);
    v.push(97u8);
    v.push(114u8);
    v.push(97u8);
    v.push(109u8);
    v.push(115u8);
    v.push(34u8);
    v.push(58u8);
    proof {
        assert(v@ =~= params_lit());
    }
    v
}

fn result_lit_vec() -> (r: Vec<u8>)
    ensures
        r@ == result_lit(),
{
    let mut v: Vec<u8> = Vec::new();
    v.push(34u8);
    v.push(114u8);
    v.push(101u8);
    v.push(115u8);
    v.push(117u8);
    v.push(108u8);
    v.push(116u8);
    v.push(34u8);
    v.push(58u8);
    proof {
        assert(v@ =~= result_lit());
    }
    v
}

fn error_lit_vec() -> (r: Vec<u8>)
    ensures
        r@ == error_lit(),
{
    let mut v: Vec<u8> = Vec::new();
    v.push(34u8);
    v.push(101u8);
    v.push(114u8);
    v.push(114u8);
    v.push(111u8);
    v.push(114u8);
    v.push(34u8);
    v.push(58u8);
    proof {
        assert(v@ =~= error_lit());
    }
    v
}


// ---------------------------------------------------------------------------
// Decoding
// ---------------------------------------------------------------------------

/// How a buffer compares against an expected literal at its front: the two
/// disagree somewhere, the buffer ends while still agreeing, or the whole
/// literal is present.
pub enum LitCmp {
    Mismatch,
    Partial,
    Full,
}

pub open spec fn lit_cmp(b: Seq<u8>, lit: Seq<u8>) -> LitCmp {
    if exists|i: int| 0 <= i < b.len() && i < lit.len() && (#[trigger] b[i]) != lit[i] {
        LitCmp::Mismatch
    } else if b.len() < lit.len() {
        LitCmp::Partial
    } else {
        LitCmp::Full
    }
}

pub open spec fn starts_with(b: Seq<u8>, lit: Seq<u8>) -> bool {
    b.len() >= lit.len() && b.take(lit.len() as int) == lit
}

pub proof fn lemma_starts_with_cmp(b: Seq<u8>, lit: Seq<u8>)
    ensures
        starts_with(b, lit) <==> lit_cmp(b, lit) is Full,
{
    if lit_cmp(b, lit) is Full {
        assert(b.take(lit.len() as int) =~= lit);
    }
    if starts_with(b, lit) {
        assert forall|i: int| 0 <= i < b.len() && i < lit.len() implies (#[trigger] b[i])
            == lit[i] by {
            assert(b.take(lit.len() as int)[i] == b[i]);
        }
    }
}

/// The number of leading bytes of `s` before the first quote.
pub open spec fn nonquote_count(s: Seq<u8>) -> nat
    decreases s.len(),
{
    if s.len() == 0 {
        0
    } else if s[0] == 34u8 {
        0
    } else {
        1 + nonquote_count(s.skip(1))
    }
}

pub proof fn lemma_nonquote_count_is(s: Seq<u8>, k: int)
    requires
        0 <= k <= s.len(),
        forall|i: int| 0 <= i < k ==> (#[trigger] s[i]) != 34u8,
        k < s.len() ==> s[k] == 34u8,
    ensures
        nonquote_count(s) == k,
    decreases s.len(),
{
    if k == 0 {
    } else {
        let t = s.skip(1);
        assert forall|i: int| 0 <= i < k - 1 implies (#[trigger] t[i]) != 34u8 by {
            assert(t[i] == s[i + 1]);
        }
        assert(k - 1 < t.len() ==> t[k - 1] == 34u8) by {
            if k - 1 < t.len() {
                assert(t[k - 1] == s[k]);
            }
        }
        lemma_nonquote_count_is(t, k - 1);
    }
}

/// What decoding a buffer yields: a complete message together with how many
/// bytes of the buffer it occupied, a request for more bytes, or an
/// unrecoverable framing/body error.
pub enum DecodeOutVal {
    Complete { msg: MsgVal, used: int },
    NeedMoreData,
    Malformed,
}

pub open spec fn decode_spec(b: Seq<u8>) -> DecodeOutVal {
    match lit_cmp(b, header_lit()) {
        LitCmp::Mismatch => DecodeOutVal::Malformed,
        LitCmp::Partial => DecodeOutVal::NeedMoreData,
        LitCmp::Full => decode_after_header(b.skip(16)),
    }
}

/// Decoding once the 16-byte header name has been read: a decimal body
/// length, the blank line, then exactly that many body bytes.
pub open spec fn decode_after_header(rest: Seq<u8>) -> DecodeOutVal {
    let k = digit_count(rest) as int;
    if k == 0 {
        if rest.len() == 0 {
            DecodeOutVal::NeedMoreData
        } else {
            DecodeOutVal::Malformed
        }
    } else {
        let v = digits_val(rest.take(k));
        if v > usize::MAX as int {
            DecodeOutVal::Malformed
        } else if k == rest.len() {
            DecodeOutVal::NeedMoreData
        } else {
            match lit_cmp(rest.skip(k), crlf2_lit()) {
                LitCmp::Mismatch => DecodeOutVal::Malformed,
                LitCmp::Partial => DecodeOutVal::NeedMoreData,
                LitCmp::Full => {
                    let after = rest.skip(k + 4);
                    if after.len() < v {
                        DecodeOutVal::NeedMoreData
                    } else {
                        match parse_body(after.take(v)) {
                            Option::None => DecodeOutVal::Malformed,
                            Option::Some(m) => DecodeOutVal::Complete {
                                msg: m,
                                used: 16 + k + 4 + v,
                            },
                        }
                    }
                }
            }
        }
    }
}

/// Parses a complete body: the fixed envelope prefix, the fields, and the
/// closing brace.
pub open spec fn parse_body(b: Seq<u8>) -> Option<MsgVal> {
    if b.len() < body_pre_lit().len() + 1 {
        Option::None
    } else if !starts_with(b, body_pre_lit()) {
        Option::None
    } else if b.last() != 125u8 {
        Option::None
    } else {
        parse_fields(b.subrange(17, b.len() - 1))
    }
}

/// The fields between the envelope prefix and the closing brace: either an
/// id (request or response) or directly a method (notification).
pub open spec fn parse_fields(m: Seq<u8>) -> Option<MsgVal> {
    if starts_with(m, id_lit()) {
        parse_with_id(m.skip(5))
    } else if starts_with(m, method_lit()) {
        match parse_method_params(m.skip(10)) {
            Option::None => Option::None,
            Option::Some(mp) => Option::Some(MsgVal::Notification { method: mp.0, params: mp.1 }),
        }
    } else {
        Option::None
    }
}

/// An identifier (quoted byte string or bare decimal), then the rest of a
/// request or response.
pub open spec fn parse_with_id(m: Seq<u8>) -> Option<MsgVal> {
    if m.len() == 0 {
        Option::None
    } else if m[0] == 34u8 {
        let t = m.skip(1);
        let q = nonquote_count(t) as int;
        if q == t.len() {
            Option::None
        } else {
            parse_after_id(IdVal::Str(t.take(q)), t.skip(q + 1))
        }
    } else {
        let k = digit_count(m) as int;
        if k == 0 {
            Option::None
        } else {
            let v = digits_val(m.take(k));
            if v > u64::MAX as int {
                Option::None
            } else {
                parse_after_id(IdVal::Num(v as u64), m.skip(k))
            }
        }
    }
}

/// After the identifier: a comma, then a method/params pair (request) or a
/// result or error payload (response).
pub open spec fn parse_after_id(id: IdVal, m: Seq<u8>) -> Option<MsgVal> {
    if m.len() == 0 || m[0] != 44u8 {
        Option::None
    } else {
        let r = m.skip(1);
        if starts_with(r, method_lit()) {
            match parse_method_params(r.skip(10)) {
                Option::None => Option::None,
                Option::Some(mp) => Option::Some(MsgVal::Request {
                    id,
                    method: mp.0,
                    params: mp.1,
                }),
            }
        } else if starts_with(r, result_lit()) {
            Option::Some(MsgVal::Response { id, outcome: OutcomeVal::Success(r.skip(9)) })
        } else if starts_with(r, error_lit()) {
            Option::Some(MsgVal::Response { id, outcome: OutcomeVal::Failure(r.skip(8)) })
        } else {
            Option::None
        }
    }
}

/// A quoted method name followed by `,"params":` and the payload, which runs
/// to the end of the field region.
pub open spec fn parse_method_params(m: Seq<u8>) -> Option<(Seq<u8>, Seq<u8>)> {
    let q = nonquote_count(m) as int;
    if q == m.len() {
        Option::None
    } else {
        let r = m.skip(q + 1);
        if starts_with(r, params_lit()) {
            Option::Some((m.take(q), r.skip(10)))
        } else {
            Option::None
        }
    }
}

// ---------------------------------------------------------------------------
// The executable decoder
// ---------------------------------------------------------------------------

/// What the decoder reports on a buffer of bytes received so far.
pub enum DecodeOut {
    /// A complete message, and how many bytes of the buffer it occupied.
    Complete { msg: Message, used: usize },
    /// The buffer holds no complete message yet; read more and retry.
    NeedMoreData,
    /// The buffer cannot be a message frame; the stream is unrecoverable.
    Malformed,
}

pub open spec fn decode_out_matches(r: DecodeOut, s: DecodeOutVal) -> bool {
    match r {
        DecodeOut::Complete { msg, used } => s == (DecodeOutVal::Complete {
            msg: msg@,
            used: used as int,
        }),
        DecodeOut::NeedMoreData => s is NeedMoreData,
        DecodeOut::Malformed => s is Malformed,
    }
}

fn crlf2_vec() -> (r: Vec<u8>)
    ensures
        r@ == crlf2_lit(),
{
    let mut v: Vec<u8> = Vec::new();
    v.push(13);
    v.push(10);
    v.push(13);
    v.push(10);
    proof {
        assert(v@ =~= crlf2_lit());
    }
    v
}

/// Copies `b[lo..hi]` out into a fresh byte string.
pub fn copy_range_vec(b: &Vec<u8>, lo: usize, hi: usize) -> (r: Vec<u8>)
    requires
        lo <= hi <= b.len(),
    ensures
        r@ == b@.subrange(lo as int, hi as int),
{
    let mut v: Vec<u8> = Vec::new();
    append_range(&mut v, b, lo, hi);
    proof {
        assert(Seq::<u8>::empty() + b@.subrange(lo as int, hi as int) =~= b@.subrange(
            lo as int,
            hi as int,
        ));
    }
    v
}

/// Compares `b[lo..hi]` against the front of `lit`.
fn match_lit_range(b: &Vec<u8>, lo: usize, hi: usize, lit: &Vec<u8>) -> (r: LitCmp)
    requires
        lo <= hi <= b.len(),
    ensures
        r == lit_cmp(b@.subrange(lo as int, hi as int), lit@),
{
    let ghost s = b@.subrange(lo as int, hi as int);
    let s_len: usize = hi - lo;
    let mut i: usize = 0;
    while i < lit.len()
        invariant
            lo <= hi <= b.len(),
            s == b@.subrange(lo as int, hi as int),
            s_len == hi - lo,
            i <= lit.len(),
            forall|j: int| 0 <= j < i ==> j < s.len() && (#[trigger] s[j]) == lit@[j],
        decreases lit.len() - i,
    {
        if i >= s_len {
            return LitCmp::Partial;
        }
        if b[lo + i] != lit[i] {
            proof {
                assert(s[i as int] == b@[lo + i]);
                assert(0 <= i < s.len() && (i as int) < lit@.len() && s[i as int] != lit@[i as int]);
            }
            return LitCmp::Mismatch;
        }
        proof {
            assert(s[i as int] == b@[lo + i]);
        }
        i += 1;
    }
    proof {
        if lit@.len() > 0 {
            assert(s[lit@.len() - 1] == lit@[lit@.len() - 1]);
            assert(s.len() > lit@.len() - 1);
        }
        assert forall|ii: int| 0 <= ii < s.len() && ii < lit@.len() implies (#[trigger] s[ii])
            == lit@[ii] by {}
    }
    LitCmp::Full
}

/// Counts the decimal digits at the front of `b[lo..hi]`.
fn count_digits_range(b: &Vec<u8>, lo: usize, hi: usize) -> (k: usize)
    requires
        lo <= hi <= b.len(),
    ensures
        k <= hi - lo,
        k as nat == digit_count(b@.subrange(lo as int, hi as int)),
        forall|j: int| lo <= j < lo + k ==> is_digit(#[trigger] b@[j]),
        lo + k < hi ==> !is_digit(b@[lo + k as int]),
{
    let mut i: usize = lo;
    while i < hi && 48 <= b[i] && b[i] <= 57
        invariant
            lo <= i <= hi <= b.len(),
            forall|j: int| lo <= j < i ==> is_digit(#[trigger] b@[j]),
        decreases hi - i,
    {
        i += 1;
    }
    proof {
        let s = b@.subrange(lo as int, hi as int);
        assert forall|j: int| 0 <= j < i - lo implies is_digit(#[trigger] s[j]) by {
            assert(s[j] == b@[lo + j]);
        }
        if i < hi {
            assert(s[i - lo] == b@[i as int]);
        }
        lemma_digit_count_is(s, i as int - lo);
    }
    i - lo
}

/// Counts the bytes before the first quote at the front of `b[lo..hi]`.
fn count_nonquote_range(b: &Vec<u8>, lo: usize, hi: usize) -> (k: usize)
    requires
        lo <= hi <= b.len(),
    ensures
        k <= hi - lo,
        k as nat == nonquote_count(b@.subrange(lo as int, hi as int)),
        lo + k < hi ==> b@[lo + k as int] == 34u8,
    {
    let mut i: usize = lo;
    while i < hi && b[i] != 34
        invariant
            lo <= i <= hi <= b.len(),
            forall|j: int| lo <= j < i ==> (#[trigger] b@[j]) != 34u8,
        decreases hi - i,
    {
        i += 1;
    }
    proof {
        let s = b@.subrange(lo as int, hi as int);
        assert forall|j: int| 0 <= j < i - lo implies (#[trigger] s[j]) != 34u8 by {
            assert(s[j] == b@[lo + j]);
        }
        if i < hi {
            assert(s[i - lo] == b@[i as int]);
        }
        lemma_nonquote_count_is(s, i as int - lo);
    }
    i - lo
}

/// Reads the value of the digit string `b[lo..lo+k]`, or reports that it
/// exceeds `bound`.
fn digits_value_bounded(b: &Vec<u8>, lo: usize, k: usize, bound: u64) -> (r: Option<u64>)
    requires
        lo + k <= b.len(),
        forall|j: int| lo <= j < lo + k ==> is_digit(#[trigger] b@[j]),
    ensures
        ({
            let s = b@.subrange(lo as int, lo + k as int);
            match r {
                Option::Some(v) => v as int == digits_val(s) && v <= bound,
                Option::None => digits_val(s) > bound as int,
            }
        }),
{
    let ghost s = b@.subrange(lo as int, lo + k as int);
    proof {
        assert forall|j: int| 0 <= j < s.len() implies is_digit(#[trigger] s[j]) by {
            assert(s[j] == b@[lo + j]);
        }
    }
    let mut acc: u64 = 0;
    let mut i: usize = 0;
    while i < k
        invariant
            i <= k,
            lo + k <= b.len(),
            s == b@.subrange(lo as int, lo + k as int),
            forall|j: int| lo <= j < lo + k ==> is_digit(#[trigger] b@[j]),
            forall|j: int| 0 <= j < s.len() ==> is_digit(#[trigger] s[j]),
            acc as int == digits_val(s.take(i as int)),
            acc <= bound,
        decreases k - i,
    {
        let d: u8 = b[lo + i] - 48;
        let dd: u64 = d as u64;
        proof {
            assert(s.take(i + 1).drop_last() =~= s.take(i as int));
            assert(s.take(i + 1).last() == s[i as int]);
            assert(s[i as int] == b@[lo + i]);
            assert(digits_val(s.take(i + 1)) == acc * 10 + dd);
        }
        if dd > bound || acc > (bound - dd) / 10 {
            proof {
                lemma_fundamental_div_mod((bound - dd) as int, 10);
                assert(digits_val(s.take(i + 1)) > bound as int);
                lemma_digits_val_take_le(s, i + 1);
            }
            return Option::None;
        }
        proof {
            lemma_fundamental_div_mod((bound - dd) as int, 10);
            assert(acc * 10 + dd <= bound);
        }
        acc = acc * 10 + dd;
        i += 1;
    }
    proof {
        assert(s.take(k as int) =~= s);
    }
    Option::Some(acc)
}

/// Decodes one message from the front of `buf`.
///
/// The buffer is whatever has been read from the stream so far: the decoder
/// never looks past the declared body length, and answers `NeedMoreData`
/// whenever the buffer is consistent with a frame but does not yet hold all
/// of one.
pub fn decode(buf: &Vec<u8>) -> (r: DecodeOut)
    ensures
        decode_out_matches(r, decode_spec(buf@)),
{
    let buf_len = buf.len();
    proof {
        assert(buf@.subrange(0, buf@.len() as int) =~= buf@);
    }
    let header = header_vec();
    match match_lit_range(buf, 0, buf_len, &header) {
        LitCmp::Mismatch => {
            return DecodeOut::Malformed;
        }
        LitCmp::Partial => {
            return DecodeOut::NeedMoreData;
        }
        LitCmp::Full => {}
    }
    let ghost rest = buf@.skip(16);
    proof {
        assert(rest =~= buf@.subrange(16, buf@.len() as int));
    }
    let k = count_digits_range(buf, 16, buf_len);
    proof {
        assert(rest.take(k as int) =~= buf@.subrange(16, 16 + k as int));
    }
    if k == 0 {
        if buf_len == 16 {
            return DecodeOut::NeedMoreData;
        } else {
            return DecodeOut::Malformed;
        }
    }
    let v64 = match digits_value_bounded(buf, 16, k, usize::MAX as u64) {
        Option::None => {
            return DecodeOut::Malformed;
        }
        Option::Some(v) => v,
    };
    let v: usize = v64 as usize;
    if 16 + k == buf_len {
        return DecodeOut::NeedMoreData;
    }
    let crlf = crlf2_vec();
    proof {
        assert(rest.skip(k as int) =~= buf@.subrange(16 + k as int, buf@.len() as int));
    }
    match match_lit_range(buf, 16 + k, buf_len, &crlf) {
        LitCmp::Mismatch => {
            return DecodeOut::Malformed;
        }
        LitCmp::Partial => {
            return DecodeOut::NeedMoreData;
        }
        LitCmp::Full => {}
    }
    let body_start = 16 + k + 4;
    proof {
        assert(rest.skip(k as int + 4) =~= buf@.subrange(body_start as int, buf@.len() as int));
    }
    if buf_len - body_start < v {
        return DecodeOut::NeedMoreData;
    }
    let body = copy_range_vec(buf, body_start, body_start + v);
    proof {
        assert(body@ =~= rest.skip(k as int + 4).take(v as int));
    }
    match parse_body_exec(&body) {
        Option::None => DecodeOut::Malformed,
        Option::Some(m) => DecodeOut::Complete { msg: m, used: body_start + v },
    }
}

/// Parses a complete body, mirroring [`parse_body`].
fn parse_body_exec(b: &Vec<u8>) -> (r: Option<Message>)
    ensures
        ({
            match r {
                Option::Some(m) => parse_body(b@) == Option::Some(m@),
                Option::None => parse_body(b@) is None,
            }
        }),
{
    if b.len() < 18 {
        return Option::None;
    }
    let pre = body_pre_vec();
    proof {
        assert(b@.subrange(0, b@.len() as int) =~= b@);
        lemma_starts_with_cmp(b@, body_pre_lit());
    }
    match match_lit_range(b, 0, b.len(), &pre) {
        LitCmp::Full => {}
        _ => {
            return Option::None;
        }
    }
    if b[b.len() - 1] != 125 {
        return Option::None;
    }
    parse_fields_exec(b, 17, b.len() - 1)
}

/// Parses the field region `b[lo..hi]`, mirroring [`parse_fields`].
fn parse_fields_exec(b: &Vec<u8>, lo: usize, hi: usize) -> (r: Option<Message>)
    requires
        lo <= hi <= b.len(),
    ensures
        ({
            let s = b@.subrange(lo as int, hi as int);
            match r {
                Option::Some(m) => parse_fields(s) == Option::Some(m@),
                Option::None => parse_fields(s) is None,
            }
        }),
{
    let ghost s = b@.subrange(lo as int, hi as int);
    proof {
        lemma_starts_with_cmp(s, id_lit());
        lemma_starts_with_cmp(s, method_lit());
    }
    let idl = id_lit_vec();
    match match_lit_range(b, lo, hi, &idl) {
        LitCmp::Full => {
            proof {
                assert(s.skip(5) =~= b@.subrange(lo + 5, hi as int));
            }
            return parse_with_id_exec(b, lo + 5, hi);
        }
        _ => {}
    }
    let ml = method_lit_vec();
    match match_lit_range(b, lo, hi, &ml) {
        LitCmp::Full => {
            proof {
                assert(s.skip(10) =~= b@.subrange(lo + 10, hi as int));
            }
            match parse_method_params_exec(b, lo + 10, hi) {
                Option::Some(mp) => Option::Some(Message::Notification { method: mp.0, params: mp.1 }),
                Option::None => Option::None,
            }
        }
        _ => Option::None,
    }
}

/// Parses an identifier and what follows it, mirroring [`parse_with_id`].
fn parse_with_id_exec(b: &Vec<u8>, lo: usize, hi: usize) -> (r: Option<Message>)
    requires
        lo <= hi <= b.len(),
    ensures
        ({
            let s = b@.subrange(lo as int, hi as int);
            match r {
                Option::Some(m) => parse_with_id(s) == Option::Some(m@),
                Option::None => parse_with_id(s) is None,
            }
        }),
{
    let ghost s = b@.subrange(lo as int, hi as int);
    if lo == hi {
        return Option::None;
    }
    proof {
        assert(s[0] == b@[lo as int]);
    }
    if b[lo] == 34 {
        let ghost t = s.skip(1);
        proof {
            assert(t =~= b@.subrange(lo + 1, hi as int));
        }
        let q = count_nonquote_range(b, lo + 1, hi);
        if lo + 1 + q == hi {
            return Option::None;
        }
        let idb = copy_range_vec(b, lo + 1, lo + 1 + q);
        proof {
            assert(idb@ =~= t.take(q as int));
            assert(t.skip(q + 1) =~= b@.subrange(lo + 2 + q, hi as int));
        }
        parse_after_id_exec(b, lo + 2 + q, hi, Identifier::Str(idb))
    } else {
        let k = count_digits_range(b, lo, hi);
        if k == 0 {
            return Option::None;
        }
        proof {
            assert(s.take(k as int) =~= b@.subrange(lo as int, lo + k as int));
        }
        match digits_value_bounded(b, lo, k, u64::MAX) {
            Option::None => Option::None,
            Option::Some(v) => {
                proof {
                    assert(s.skip(k as int) =~= b@.subrange(lo + k as int, hi as int));
                }
                parse_after_id_exec(b, lo + k, hi, Identifier::Num(v))
            }
        }
    }
}

/// Parses what follows an identifier, mirroring [`parse_after_id`].
fn parse_after_id_exec(b: &Vec<u8>, lo: usize, hi: usize, id: Identifier) -> (r: Option<Message>)
    requires
        lo <= hi <= b.len(),
    ensures
        ({
            let s = b@.subrange(lo as int, hi as int);
            match r {
                Option::Some(m) => parse_after_id(id@, s) == Option::Some(m@),
                Option::None => parse_after_id(id@, s) is None,
            }
        }),
{
    let ghost s = b@.subrange(lo as int, hi as int);
    if lo == hi {
        return Option::None;
    }
    proof {
        assert(s[0] == b@[lo as int]);
    }
    if b[lo] != 44 {
        return Option::None;
    }
    let ghost rr = s.skip(1);
    proof {
        assert(rr =~= b@.subrange(lo + 1, hi as int));
        lemma_starts_with_cmp(rr, method_lit());
        lemma_starts_with_cmp(rr, result_lit());
        lemma_starts_with_cmp(rr, error_lit());
    }
    let r_lo = lo + 1;
    let ml = method_lit_vec();
    match match_lit_range(b, r_lo, hi, &ml) {
        LitCmp::Full => {
            proof {
                assert(rr.skip(10) =~= b@.subrange(r_lo + 10, hi as int));
            }
            return match parse_method_params_exec(b, r_lo + 10, hi) {
                Option::Some(mp) => Option::Some(Message::Request {
                    id,
                    method: mp.0,
                    params: mp.1,
                }),
                Option::None => Option::None,
            };
        }
        _ => {}
    }
    let rl = result_lit_vec();
    match match_lit_range(b, r_lo, hi, &rl) {
        LitCmp::Full => {
            let p = copy_range_vec(b, r_lo + 9, hi);
            proof {
                assert(p@ =~= rr.skip(9));
            }
            return Option::Some(Message::Response { id, outcome: Outcome::Success(p) });
        }
        _ => {}
    }
    let el = error_lit_vec();
    match match_lit_range(b, r_lo, hi, &el) {
        LitCmp::Full => {
            let p = copy_range_vec(b, r_lo + 8, hi);
            proof {
                assert(p@ =~= rr.skip(8));
            }
            Option::Some(Message::Response { id, outcome: Outcome::Failure(p) })
        }
        _ => Option::None,
    }
}

/// Parses a method/params pair, mirroring [`parse_method_params`].
fn parse_method_params_exec(b: &Vec<u8>, lo: usize, hi: usize) -> (r: Option<(Vec<u8>, Vec<u8>)>)
    requires
        lo <= hi <= b.len(),
    ensures
        ({
            let s = b@.subrange(lo as int, hi as int);
            match r {
                Option::Some(mp) => parse_method_params(s) == Option::Some((mp.0@, mp.1@)),
                Option::None => parse_method_params(s) is None,
            }
        }),
{
    let ghost s = b@.subrange(lo as int, hi as int);
    let q = count_nonquote_range(b, lo, hi);
    if lo + q == hi {
        return Option::None;
    }
    let ghost rr = s.skip(q as int + 1);
    proof {
        assert(rr =~= b@.subrange(lo + q + 1, hi as int));
        lemma_starts_with_cmp(rr, params_lit());
    }
    let r_lo = lo + q + 1;
    let pl = params_lit_vec();
    match match_lit_range(b, r_lo, hi, &pl) {
        LitCmp::Full => {
            let method = copy_range_vec(b, lo, lo + q);
            let params = copy_range_vec(b, r_lo + 10, hi);
            proof {
                assert(method@ =~= s.take(q as int));
                assert(params@ =~= rr.skip(10));
            }
            Option::Some((method, params))
        }
        _ => Option::None,
    }
}

// ---------------------------------------------------------------------------
// Laws: round trip and framing robustness
// ---------------------------------------------------------------------------

pub proof fn lemma_not_starts(a: Seq<u8>, lit: Seq<u8>, j: int)
    requires
        0 <= j < lit.len(),
        j < a.len(),
        a[j] != lit[j],
    ensures
        !starts_with(a, lit),
{
    if starts_with(a, lit) {
        assert(a.take(lit.len() as int)[j] == a[j]);
    }
}

pub proof fn lemma_partial_prefix(b: Seq<u8>, lit: Seq<u8>)
    requires
        b.len() < lit.len(),
        forall|j: int| 0 <= j < b.len() ==> (#[trigger] b[j]) == lit[j],
    ensures
        lit_cmp(b, lit) is Partial,
{
}

/// A method/params pair re-reads as itself.
pub proof fn lemma_mpp_parse(method: Seq<u8>, params: Seq<u8>)
    requires
        no_quote(method),
    ensures
        parse_method_params(method + seq![34u8] + params_lit() + params) == Option::Some(
            (method, params),
        ),
{
    let m = method + seq![34u8] + params_lit() + params;
    assert forall|i: int| 0 <= i < method.len() implies (#[trigger] m[i]) != 34u8 by {
        assert(m[i] == method[i]);
    }
    assert(m[method.len() as int] == 34u8);
    lemma_nonquote_count_is(m, method.len() as int);
    let q = method.len() as int;
    let r = m.skip(q + 1);
    assert(r =~= params_lit() + params);
    assert(r.take(10) =~= params_lit());
    assert(starts_with(r, params_lit()));
    assert(m.take(q) =~= method);
    assert(r.skip(10) =~= params);
}

/// After the comma, a request tail re-reads as the request fields.
pub proof fn lemma_parse_after_id_req(id: IdVal, method: Seq<u8>, params: Seq<u8>)
    requires
        no_quote(method),
    ensures
        parse_after_id(id, seq![44u8] + method_params_part(method, params)) == Option::Some(
            MsgVal::Request { id, method, params },
        ),
{
    let mm = seq![44u8] + method_params_part(method, params);
    assert(mm[0] == 44u8);
    let r = mm.skip(1);
    assert(r =~= method_params_part(method, params));
    assert(r.take(10) =~= method_lit());
    assert(starts_with(r, method_lit()));
    assert(r.skip(10) =~= method + seq![34u8] + params_lit() + params);
    lemma_mpp_parse(method, params);
}

/// After the comma, a response tail re-reads as the response fields.
pub proof fn lemma_parse_after_id_resp(id: IdVal, o: OutcomeVal)
    ensures
        parse_after_id(id, seq![44u8] + outcome_part(o)) == Option::Some(
            MsgVal::Response { id, outcome: o },
        ),
{
    let mm = seq![44u8] + outcome_part(o);
    assert(mm[0] == 44u8);
    let r = mm.skip(1);
    assert(r =~= outcome_part(o));
    match o {
        OutcomeVal::Success(p) => {
            assert(r[1] == 114u8);
            assert(method_lit()[1] == 109u8);
            lemma_not_starts(r, method_lit(), 1);
            assert(r.take(9) =~= result_lit());
            assert(starts_with(r, result_lit()));
            assert(r.skip(9) =~= p);
        }
        OutcomeVal::Failure(p) => {
            assert(r[1] == 101u8);
            assert(method_lit()[1] == 109u8);
            assert(result_lit()[1] == 114u8);
            lemma_not_starts(r, method_lit(), 1);
            lemma_not_starts(r, result_lit(), 1);
            assert(r.take(8) =~= error_lit());
            assert(starts_with(r, error_lit()));
            assert(r.skip(8) =~= p);
        }
    }
}

/// An encoded identifier followed by a comma-led tail re-reads as the
/// identifier, handing the tail on.
pub proof fn lemma_parse_id_and_after(id: IdVal, tail2: Seq<u8>, out: MsgVal)
    requires
        id_wf(id),
        parse_after_id(id, tail2) == Option::Some(out),
        tail2.len() > 0,
        tail2[0] == 44u8,
    ensures
        parse_with_id(enc_id(id) + tail2) == Option::Some(out),
{
    let m = enc_id(id) + tail2;
    match id {
        IdVal::Num(n) => {
            let dg = dec_of(n as nat);
            lemma_dec_of_digits(n as nat);
            lemma_dec_of_val(n as nat);
            assert(m[0] == dg[0]);
            assert(is_digit(m[0]));
            assert(m[0] != 34u8);
            assert forall|i: int| 0 <= i < dg.len() implies is_digit(#[trigger] m[i]) by {
                assert(m[i] == dg[i]);
            }
            assert(m[dg.len() as int] == 44u8);
            assert(!is_digit(44u8));
            lemma_digit_count_is(m, dg.len() as int);
            let k = dg.len() as int;
            assert(m.take(k) =~= dg);
            assert(digits_val(m.take(k)) == n);
            assert(m.skip(k) =~= tail2);
        }
        IdVal::Str(s) => {
            assert(m[0] == 34u8);
            let t = m.skip(1);
            assert(t =~= s + seq![34u8] + tail2);
            assert forall|i: int| 0 <= i < s.len() implies (#[trigger] t[i]) != 34u8 by {
                assert(t[i] == s[i]);
            }
            assert(t[s.len() as int] == 34u8);
            lemma_nonquote_count_is(t, s.len() as int);
            assert(t.take(s.len() as int) =~= s);
            assert(t.skip(s.len() as int + 1) =~= tail2);
        }
    }
}

/// The envelope prefix and closing brace frame the field region exactly.
pub proof fn lemma_body_shell(fields: Seq<u8>)
    ensures
        parse_body(body_pre_lit() + fields + seq![125u8]) == parse_fields(fields),
{
    let b = body_pre_lit() + fields + seq![125u8];
    assert(b.len() >= 18);
    assert(b.take(17) =~= body_pre_lit());
    assert(starts_with(b, body_pre_lit()));
    assert(b.last() == 125u8);
    assert(b.subrange(17, b.len() - 1) =~= fields);
}

/// The body of a well-formed message re-reads as that message.
#[verifier::rlimit(100)]
pub proof fn lemma_parse_body_of(m: MsgVal)
    requires
        msg_wf(m),
    ensures
        parse_body(body_of(m)) == Option::Some(m),
{
    match m {
        MsgVal::Request { id, method, params } => {
            let tail2 = seq![44u8] + method_params_part(method, params);
            let fields = id_lit() + (enc_id(id) + tail2);
            assert(body_of(m) =~= body_pre_lit() + fields + seq![125u8]);
            lemma_body_shell(fields);
            assert(fields.take(5) =~= id_lit());
            assert(starts_with(fields, id_lit()));
            lemma_parse_after_id_req(id, method, params);
            assert(tail2[0] == 44u8);
            lemma_parse_id_and_after(id, tail2, m);
            assert(fields.skip(5) =~= enc_id(id) + tail2);
        }
        MsgVal::Response { id, outcome } => {
            let tail2 = seq![44u8] + outcome_part(outcome);
            let fields = id_lit() + (enc_id(id) + tail2);
            assert(body_of(m) =~= body_pre_lit() + fields + seq![125u8]);
            lemma_body_shell(fields);
            assert(fields.take(5) =~= id_lit());
            assert(starts_with(fields, id_lit()));
            lemma_parse_after_id_resp(id, outcome);
            assert(tail2[0] == 44u8);
            lemma_parse_id_and_after(id, tail2, m);
            assert(fields.skip(5) =~= enc_id(id) + tail2);
        }
        MsgVal::Notification { method, params } => {
            let fields = method_params_part(method, params);
            assert(body_of(m) =~= body_pre_lit() + fields + seq![125u8]);
            lemma_body_shell(fields);
            assert(fields[1] == 109u8);
            assert(id_lit()[1] == 105u8);
            lemma_not_starts(fields, id_lit(), 1);
            assert(fields.take(10) =~= method_lit());
            assert(starts_with(fields, method_lit()));
            assert(fields.skip(10) =~= method + seq![34u8] + params_lit() + params);
            lemma_mpp_parse(method, params);
        }
    }
}

/// Round trip: decoding the encoded bytes of any well-formed message yields
/// that message back, consuming exactly the encoded bytes.
pub proof fn lemma_round_trip(m: MsgVal)
    requires
        msg_wf(m),
        body_of(m).len() <= usize::MAX,
    ensures
        decode_spec(encode_bytes(m)) == (DecodeOutVal::Complete {
            msg: m,
            used: encode_bytes(m).len() as int,
        }),
{
    let body = body_of(m);
    let lnat = body.len();
    let dg = dec_of(lnat);
    let enc = encode_bytes(m);
    lemma_dec_of_digits(lnat);
    lemma_dec_of_val(lnat);
    assert(enc.take(16) =~= header_lit());
    lemma_starts_with_cmp(enc, header_lit());
    assert(lit_cmp(enc, header_lit()) is Full);
    let rest = enc.skip(16);
    assert(rest =~= dg + crlf2_lit() + body);
    assert forall|i: int| 0 <= i < dg.len() implies is_digit(#[trigger] rest[i]) by {
        assert(rest[i] == dg[i]);
    }
    assert(rest[dg.len() as int] == 13u8);
    assert(!is_digit(13u8));
    lemma_digit_count_is(rest, dg.len() as int);
    let k = dg.len() as int;
    assert(rest.take(k) =~= dg);
    assert(digits_val(rest.take(k)) == lnat);
    assert(rest.len() == k + 4 + body.len());
    let q = rest.skip(k);
    assert(q =~= crlf2_lit() + body);
    assert(q.take(4) =~= crlf2_lit());
    lemma_starts_with_cmp(q, crlf2_lit());
    assert(lit_cmp(q, crlf2_lit()) is Full);
    let after = rest.skip(k + 4);
    assert(after =~= body);
    assert(after.take(lnat as int) =~= body);
    lemma_parse_body_of(m);
    assert(enc.len() == 16 + k + 4 + lnat);
}

/// Framing robustness: any strict prefix of an encoded message decodes to
/// `NeedMoreData` -- never to an error and never to a wrong message -- so a
/// frame split across reads at any byte boundary is decoded exactly as if it
/// had arrived whole.
pub proof fn lemma_framing_robust(m: MsgVal, i: int)
    requires
        msg_wf(m),
        body_of(m).len() <= usize::MAX,
        0 <= i < encode_bytes(m).len(),
    ensures
        decode_spec(encode_bytes(m).take(i)) == DecodeOutVal::NeedMoreData,
{
    let body = body_of(m);
    let lnat = body.len();
    let dg = dec_of(lnat);
    let enc = encode_bytes(m);
    let p = enc.take(i);
    lemma_dec_of_digits(lnat);
    lemma_dec_of_val(lnat);
    let k0 = dg.len() as int;
    assert(enc.len() == 16 + k0 + 4 + lnat);
    if i < 16 {
        assert forall|j: int| 0 <= j < p.len() implies (#[trigger] p[j]) == header_lit()[j] by {
            assert(p[j] == enc[j]);
        }
        lemma_partial_prefix(p, header_lit());
    } else {
        assert(p.take(16) =~= header_lit());
        lemma_starts_with_cmp(p, header_lit());
        assert(lit_cmp(p, header_lit()) is Full);
        let rest = p.skip(16);
        assert(rest.len() == i - 16);
        assert forall|j: int| 0 <= j < rest.len() implies (#[trigger] rest[j]) == enc[16 + j] by {}
        if i - 16 <= k0 {
            assert forall|j: int| 0 <= j < rest.len() implies is_digit(#[trigger] rest[j]) by {
                assert(rest[j] == enc[16 + j]);
                assert(enc[16 + j] == dg[j]);
            }
            lemma_digit_count_is(rest, rest.len() as int);
            if i == 16 {
                assert(rest.len() == 0);
            } else {
                assert(rest.take(rest.len() as int) =~= rest);
                assert(rest =~= dg.take(i - 16));
                assert forall|j: int| 0 <= j < dg.len() implies is_digit(#[trigger] dg[j]) by {}
                lemma_digits_val_take_le(dg, i - 16);
                assert(digits_val(rest) <= lnat);
                assert(digits_val(rest.take(rest.len() as int)) <= usize::MAX as int);
            }
        } else {
            assert forall|j: int| 0 <= j < k0 implies is_digit(#[trigger] rest[j]) by {
                assert(rest[j] == enc[16 + j]);
                assert(enc[16 + j] == dg[j]);
            }
            assert(rest[k0] == enc[16 + k0]);
            assert(enc[16 + k0] == crlf2_lit()[0]);
            assert(!is_digit(13u8));
            lemma_digit_count_is(rest, k0);
            assert(rest.take(k0) =~= dg);
            assert(digits_val(rest.take(k0)) == lnat);
            let t = i - 16 - k0;
            let q = rest.skip(k0);
            assert(q.len() == t);
            assert forall|j: int| 0 <= j < q.len() implies (#[trigger] q[j]) == enc[16 + k0 + j] by {}
            if t < 4 {
                assert forall|j: int| 0 <= j < q.len() implies (#[trigger] q[j]) == crlf2_lit()[j] by {
                    assert(q[j] == enc[16 + k0 + j]);
                    assert(enc[16 + k0 + j] == crlf2_lit()[j]);
                }
                lemma_partial_prefix(q, crlf2_lit());
            } else {
                assert(q.take(4) =~= crlf2_lit());
                lemma_starts_with_cmp(q, crlf2_lit());
                assert(lit_cmp(q, crlf2_lit()) is Full);
                let after = rest.skip(k0 + 4);
                assert(after.len() == t - 4);
                assert(t - 4 < lnat);
            }
        }
    }
}

} // verus!
