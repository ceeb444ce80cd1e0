//! Delta codec for strictly increasing, zero-free integer sequences.
//!
//! Consecutive values are turned into gaps (`value - previous - 1`). A maximal
//! run of zero gaps is stored as one run-length token made of base-128 groups,
//! each group byte carrying 128 as a marker. A non-zero gap is stored as a
//! little-endian base-32 token: a terminal group byte carries 32, a
//! continuation group byte carries 64, so the two token kinds can be told
//! apart anywhere in the stream.

use vstd::prelude::*;

verus! {

/// Why `encode` rejected its input.
#[derive(Clone, Copy, Debug, PartialEq, Eq, Structural)]
pub enum CodecError {
    /// The input contains the value 0, which the codec reserves.
    ZeroValue,
    /// The input is not strictly increasing.
    NotIncreasing,
}

/// A sequence the codec accepts: strictly increasing, never zero.
pub open spec fn valid_codec_input(s: Seq<u32>) -> bool {
    &&& forall|i: int| 0 <= i < s.len() ==> #[trigger] s[i] >= 1
    &&& forall|i: int| 0 < i < s.len() ==> s[i - 1] < #[trigger] s[i]
}

/// `b` raised to the power `e`.
pub open spec fn pow_of(b: nat, e: nat) -> nat
    decreases e,
{
    if e == 0 {
        1
    } else {
        b * pow_of(b, (e - 1) as nat)
    }
}

/// Bytes of a run-length token for a pending run of `run` zero gaps:
/// little-endian base-128 groups, each byte offset by the marker 128.
pub open spec fn enc_run(run: nat) -> Seq<u8>
    decreases run,
{
    if run == 0 {
        Seq::empty()
    } else {
        seq![(128 + run % 128) as u8] + enc_run(run / 128)
    }
}

/// Bytes of a gap token for the gap `d`: little-endian base-32 groups,
/// the terminal group offset by 32, continuation groups by 64.
pub open spec fn enc_delta(d: nat) -> Seq<u8>
    decreases d,
{
    if d == 0 {
        Seq::empty()
    } else if d < 32 {
        seq![(32 + d) as u8]
    } else {
        seq![(64 + d % 32) as u8] + enc_delta(d / 32)
    }
}

/// The encoded byte stream for the remaining input `s`, given that the
/// previous value was `last` and `run` zero gaps are pending.
pub open spec fn encode_from(s: Seq<u32>, last: nat, run: nat) -> Seq<u8>
    decreases s.len(),
{
    if s.len() == 0 {
        enc_run(run)
    } else if s[0] <= last {
        enc_run(run)
    } else {
        let d = (s[0] - last - 1) as nat;
        if d == 0 {
            encode_from(s.drop_first(), s[0] as nat, run + 1)
        } else {
            enc_run(run) + enc_delta(d) + encode_from(s.drop_first(), s[0] as nat, 0)
        }
    }
}

/// The encoded byte stream for a whole valid input.
pub open spec fn encode_spec(s: Seq<u32>) -> Seq<u8> {
    encode_from(s, 0, 0)
}

/// The first reason, scanning left to right, for which the codec rejects
/// `s`, given that the previous value was `last`; `None` if it accepts.
pub open spec fn input_error(s: Seq<u32>, last: nat) -> Option<CodecError>
    decreases s.len(),
{
    if s.len() == 0 {
        None
    } else if s[0] == 0 {
        Some(CodecError::ZeroValue)
    } else if s[0] <= last {
        Some(CodecError::NotIncreasing)
    } else {
        input_error(s.drop_first(), s[0] as nat)
    }
}

/// Number of leading run-token bytes (marker 128) of `b`.
pub open spec fn run_len(b: Seq<u8>) -> nat
    decreases b.len(),
{
    if b.len() == 0 || b[0] < 128 {
        0
    } else {
        1 + run_len(b.drop_first())
    }
}

/// Value of the leading run token of `b`, whose first byte holds the
/// base-128 digit of weight `k`; digits past weight 7 are ignored.
pub open spec fn run_val(b: Seq<u8>, k: nat) -> nat
    decreases b.len(),
{
    if b.len() == 0 || b[0] < 128 {
        0
    } else {
        let chunk: nat = if k < 8 {
            ((b[0] - 128) as nat) * pow_of(128, k)
        } else {
            0
        };
        chunk + run_val(b.drop_first(), k + 1)
    }
}

/// Whether the leading gap token of `b` is closed by a terminal byte.
pub open spec fn delta_complete(b: Seq<u8>) -> bool
    decreases b.len(),
{
    if b.len() == 0 {
        false
    } else if b[0] < 64 {
        true
    } else {
        delta_complete(b.drop_first())
    }
}

/// Number of bytes of the leading gap token of `b` (the whole of `b` if
/// the token is not closed).
pub open spec fn delta_len(b: Seq<u8>) -> nat
    decreases b.len(),
{
    if b.len() == 0 {
        0
    } else if b[0] < 64 {
        1
    } else {
        1 + delta_len(b.drop_first())
    }
}

/// Value of the leading gap token of `b`, whose first byte holds the
/// base-32 digit of weight `k`; digits past weight 11 are ignored.
pub open spec fn delta_val(b: Seq<u8>, k: nat) -> nat
    decreases b.len(),
{
    if b.len() == 0 {
        0
    } else {
        let chunk: nat = if k < 12 {
            ((b[0] % 32) as nat) * pow_of(32, k)
        } else {
            0
        };
        if b[0] < 64 {
            chunk
        } else {
            chunk + delta_val(b.drop_first(), k + 1)
        }
    }
}

/// The leading run token never reaches past the end of the stream.
pub proof fn lemma_run_len_le(b: Seq<u8>)
    ensures
        run_len(b) <= b.len(),
    decreases b.len(),
{
    if b.len() > 0 && b[0] >= 128 {
        lemma_run_len_le(b.drop_first());
    }
}

/// The leading gap token never reaches past the end of the stream.
pub proof fn lemma_delta_len_le(b: Seq<u8>)
    ensures
        delta_len(b) <= b.len(),
    decreases b.len(),
{
    if b.len() > 0 && b[0] >= 64 {
        lemma_delta_len_le(b.drop_first());
    }
}

/// The values decoded from the stream `b`, given that the last decoded
/// value was `last` and `run` further consecutive values are pending.
/// A malformed stream ends the decoding early.
pub open spec fn decode_from(b: Seq<u8>, last: nat, run: nat) -> Seq<u32>
    decreases b.len(), run,
    via decode_from_dec
{
    if run > 0 {
        if last + 1 > u32::MAX {
            Seq::empty()
        } else {
            seq![(last + 1) as u32] + decode_from(b, last + 1, (run - 1) as nat)
        }
    } else if b.len() == 0 {
        Seq::empty()
    } else if b[0] >= 128 {
        let v = run_val(b, 0);
        if v == 0 {
            Seq::empty()
        } else {
            decode_from(b.skip(run_len(b) as int), last, v)
        }
    } else if !delta_complete(b) {
        Seq::empty()
    } else {
        let n = last + delta_val(b, 0) + 1;
        if n > u32::MAX {
            Seq::empty()
        } else {
            seq![n as u32] + decode_from(b.skip(delta_len(b) as int), n, 0)
        }
    }
}

#[via_fn]
proof fn decode_from_dec(b: Seq<u8>, last: nat, run: nat) {
    lemma_run_len_le(b);
    lemma_delta_len_le(b);
}

/// The values decoded from a whole stream.
pub open spec fn decode_spec(b: Seq<u8>) -> Seq<u32> {
    decode_from(b, 0, 0)
}

/// Encodes a strictly increasing, zero-free sequence of integers.
pub struct DeltaEncoder<'a> {
    data: &'a Vec<u32>,
}

impl<'a> View for DeltaEncoder<'a> {
    type V = Seq<u32>;

    closed spec fn view(&self) -> Seq<u32> {
        self.data@
    }
}

impl<'a> DeltaEncoder<'a> {
    /// Creates a new encoder over the given values.
    pub fn new(data: &'a Vec<u32>) -> (e: DeltaEncoder<'a>)
        ensures
            e@ == data@,
    {
        DeltaEncoder { data }
    }

    /// Encodes the values; rejects a zero or a non-increasing step.
    pub fn encode(&self) -> (r: Result<Vec<u8>, CodecError>)
        ensures
            match r {
                Ok(bytes) => valid_codec_input(self@) && bytes@ == encode_spec(self@),
                Err(e) => !valid_codec_input(self@) && input_error(self@, 0) == Some(e),
            },
    {
        proof {
            lemma_input_error_none(self.data@, 0);
        }
        match check_codec_input(self.data) {
            Some(e) => Err(e),
            None => Ok(encode_valid(self.data)),
        }
    }
}

/// Scans for the first value the codec rejects.
fn check_codec_input(data: &Vec<u32>) -> (r: Option<CodecError>)
    ensures
        r == input_error(data@, 0),
{
    let mut i: usize = 0;
    let mut last: u32 = 0;
    proof {
        assert(data@.skip(0) =~= data@);
    }
    while i < data.len()
        invariant
            i <= data@.len(),
            i == 0 ==> last == 0,
            i > 0 ==> last == data@[i - 1],
            input_error(data@, 0) == input_error(data@.skip(i as int), last as nat),
        decreases data@.len() - i,
    {
        let n = data[i];
        proof {
            assert(data@.skip(i as int)[0] == data@[i as int]);
            assert(data@.skip(i as int).drop_first() =~= data@.skip(i as int + 1));
        }
        if n == 0 {
            return Some(CodecError::ZeroValue);
        }
        if n <= last {
            return Some(CodecError::NotIncreasing);
        }
        last = n;
        i = i + 1;
    }
    proof {
        assert(data@.skip(i as int).len() == 0);
    }
    None
}

/// The scan accepts exactly the valid inputs: `encode` fails if and
/// only if its input holds a zero or is not strictly increasing.
pub proof fn lemma_input_error_none(s: Seq<u32>, last: nat)
    requires
        last <= u32::MAX,
    ensures
        input_error(s, last) is None <==> (valid_codec_input(s) && (s.len() > 0 ==> s[0] > last)),
    decreases s.len(),
{
    if s.len() > 0 && s[0] > last && s[0] >= 1 {
        lemma_input_error_none(s.drop_first(), s[0] as nat);
        assert(s.drop_first().len() == s.len() - 1);
        if input_error(s, last) is None {
            assert forall|i: int| 0 <= i < s.len() implies #[trigger] s[i] >= 1 by {
                if i > 0 {
                    assert(s.drop_first()[i - 1] == s[i]);
                }
            }
            assert forall|i: int| 0 < i < s.len() implies s[i - 1] < #[trigger] s[i] by {
                if i == 1 {
                    assert(s.drop_first()[0] == s[1]);
                } else {
                    assert(s.drop_first()[i - 2] == s[i - 1]);
                    assert(s.drop_first()[i - 1] == s[i]);
                }
            }
        }
        if valid_codec_input(s) {
            assert forall|i: int| 0 <= i < s.drop_first().len() implies #[trigger] s.drop_first()[i]
                >= 1 by {
                assert(s.drop_first()[i] == s[i + 1]);
            }
            assert forall|i: int| 0 < i < s.drop_first().len() implies s.drop_first()[i - 1]
                < #[trigger] s.drop_first()[i] by {
                assert(s.drop_first()[i] == s[i + 1]);
                assert(s.drop_first()[i - 1] == s[i]);
            }
            assert(s.drop_first().len() > 0 ==> s.drop_first()[0] == s[1]);
        }
    }
}

/// Encodes an already validated input.
fn encode_valid(data: &Vec<u32>) -> (bytes: Vec<u8>)
    requires
        valid_codec_input(data@),
    ensures
        bytes@ == encode_spec(data@),
{
    let mut out: Vec<u8> = Vec::new();
    let mut i: usize = 0;
    let mut last: u32 = 0;
    let mut run: u32 = 0;
    proof {
        assert(data@.skip(0) =~= data@);
    }
    while i < data.len()
        invariant
            valid_codec_input(data@),
            i <= data@.len(),
            run <= last,
            i == 0 ==> last == 0 && run == 0,
            i > 0 ==> last == data@[i - 1],
            encode_spec(data@) == out@ + encode_from(data@.skip(i as int), last as nat, run as nat),
        decreases data@.len() - i,
    {
        let n = data[i];
        proof {
            assert(data@.skip(i as int)[0] == data@[i as int]);
            assert(data@.skip(i as int).drop_first() =~= data@.skip(i as int + 1));
            assert(n >= 1);
            if i > 0 {
                assert(data@[i as int - 1] < data@[i as int]);
            }
        }
        let delta = n - last - 1;
        if delta == 0 {
            run = run + 1;
        } else {
            push_run_token(&mut out, run);
            push_delta_token(&mut out, delta);
            run = 0;
            proof {
                assert(encode_from(data@.skip(i as int), last as nat, run as nat) == enc_run(
                    run as nat,
                ) + enc_delta(delta as nat) + encode_from(
                    data@.skip(i as int + 1),
                    n as nat,
                    0,
                ));
            }
        }
        proof {
            assert(out@ + (enc_run(run as nat) + enc_delta(delta as nat) + encode_from(
                data@.skip(i as int + 1),
                n as nat,
                0,
            )) =~= (out@ + enc_run(run as nat) + enc_delta(delta as nat)) + encode_from(
                data@.skip(i as int + 1),
                n as nat,
                0,
            ));
        }
        last = n;
        i = i + 1;
    }
    proof {
        assert(data@.skip(i as int).len() == 0);
    }
    push_run_token(&mut out, run);
    out
}

/// Appends the run-length token for `run`; nothing if `run` is zero.
fn push_run_token(out: &mut Vec<u8>, run: u32)
    ensures
        final(out)@ == old(out)@ + enc_run(run as nat),
{
    let mut r = run;
    while r > 0
        invariant
            old(out)@ + enc_run(run as nat) == out@ + enc_run(r as nat),
        decreases r,
    {
        let byte: u8 = (128 + r % 128) as u8;
        proof {
            assert(enc_run(r as nat) == seq![(128 + r as nat % 128) as u8] + enc_run(
                r as nat / 128,
            ));
        }
        out.push(byte);
        r = r / 128;
    }
    proof {
        assert(old(out)@ + enc_run(run as nat) =~= out@);
    }
}

/// Appends the gap token for `d`; nothing if `d` is zero.
fn push_delta_token(out: &mut Vec<u8>, d: u32)
    ensures
        final(out)@ == old(out)@ + enc_delta(d as nat),
{
    let mut r = d;
    while r > 0
        invariant
            old(out)@ + enc_delta(d as nat) == out@ + enc_delta(r as nat),
        decreases r,
    {
        let byte: u8 = if r < 32 {
            (32 + r) as u8
        } else {
            (64 + r % 32) as u8
        };
        out.push(byte);
        r = r / 32;
    }
    proof {
        assert(old(out)@ + enc_delta(d as nat) =~= out@);
    }
}

/// Raising a positive base to a higher power never shrinks it.
proof fn lemma_pow_of_le(b: nat, j: nat, k: nat)
    requires
        1 <= b,
        j <= k,
    ensures
        pow_of(b, j) <= pow_of(b, k),
    decreases k,
{
    if j < k {
        lemma_pow_of_le(b, j, (k - 1) as nat);
        assert(pow_of(b, k) == b * pow_of(b, (k - 1) as nat));
        assert(b * pow_of(b, (k - 1) as nat) >= 1 * pow_of(b, (k - 1) as nat))
            by (nonlinear_arith)
            requires 1 <= b;
    }
}

/// A run token value fits in the digits the decoder keeps.
proof fn lemma_run_val_bound(b: Seq<u8>, k: nat)
    ensures
        k < 8 ==> run_val(b, k) + pow_of(128, k) <= pow_of(128, 8),
        k >= 8 ==> run_val(b, k) == 0,
    decreases b.len(),
{
    if k < 8 {
        lemma_pow_of_le(128, k, 8);
    }
    if b.len() > 0 && b[0] >= 128 {
        lemma_run_val_bound(b.drop_first(), k + 1);
        if k < 8 {
            let digit = (b[0] - 128) as nat;
            let p = pow_of(128, k);
            assert(digit * p <= 127 * p) by (nonlinear_arith)
                requires digit <= 127, p >= 0;
            assert(pow_of(128, k + 1) == 128 * p);
        }
    }
}

/// A gap token value fits in the digits the decoder keeps.
proof fn lemma_delta_val_bound(b: Seq<u8>, k: nat)
    ensures
        k < 12 ==> delta_val(b, k) + pow_of(32, k) <= pow_of(32, 12),
        k >= 12 ==> delta_val(b, k) == 0,
    decreases b.len(),
{
    if k < 12 {
        lemma_pow_of_le(32, k, 12);
    }
    if b.len() > 0 {
        lemma_delta_val_bound(b.drop_first(), k + 1);
        if k < 12 {
            let digit = (b[0] % 32) as nat;
            let p = pow_of(32, k);
            assert(digit * p <= 31 * p) by (nonlinear_arith)
                requires digit <= 31, p >= 0;
            assert(pow_of(32, k + 1) == 32 * p);
        }
    }
}

/// A stream whose bytes are all continuation bytes holds no closed gap token.
proof fn lemma_delta_incomplete(b: Seq<u8>)
    requires
        forall|m: int| 0 <= m < b.len() ==> #[trigger] b[m] >= 64,
    ensures
        !delta_complete(b),
    decreases b.len(),
{
    if b.len() > 0 {
        assert(b[0] >= 64);
        assert forall|m: int| 0 <= m < b.drop_first().len() implies #[trigger] b.drop_first()[m]
            >= 64 by {
            assert(b.drop_first()[m] == b[m + 1]);
        }
        lemma_delta_incomplete(b.drop_first());
    }
}

/// A terminal byte after continuation bytes closes the gap token there.
proof fn lemma_delta_scan(b: Seq<u8>, t: int)
    requires
        0 <= t < b.len(),
        forall|m: int| 0 <= m < t ==> #[trigger] b[m] >= 64,
        b[t] < 64,
    ensures
        delta_complete(b),
        delta_len(b) == t + 1,
    decreases t,
{
    if t > 0 {
        assert(b[0] >= 64);
        assert forall|m: int| 0 <= m < t - 1 implies #[trigger] b.drop_first()[m] >= 64 by {
            assert(b.drop_first()[m] == b[m + 1]);
        }
        assert(b.drop_first()[t - 1] == b[t]);
        lemma_delta_scan(b.drop_first(), t - 1);
    }
}

/// Decodes a byte stream produced by `DeltaEncoder`.
pub struct DeltaDecoder<'a> {
    data: &'a Vec<u8>,
}

impl<'a> View for DeltaDecoder<'a> {
    type V = Seq<u8>;

    closed spec fn view(&self) -> Seq<u8> {
        self.data@
    }
}

impl<'a> DeltaDecoder<'a> {
    /// Creates a new decoder over the given byte stream.
    pub fn new(data: &'a Vec<u8>) -> (d: DeltaDecoder<'a>)
        ensures
            d@ == data@,
    {
        DeltaDecoder { data }
    }

    /// Decodes the stream back into the values it was encoded from.
    pub fn decode(&self) -> (r: Vec<u32>)
        ensures
            r@ == decode_spec(self@),
    {
        decode_bytes(self.data)
    }
}

/// Decodes `data`, token by token, mirroring `decode_from`.
fn decode_bytes(data: &Vec<u8>) -> (r: Vec<u32>)
    ensures
        r@ == decode_spec(data@),
{
    let n = data.len();
    let mut result: Vec<u32> = Vec::new();
    let mut i: usize = 0;
    let mut last: u32 = 0;
    let mut run: u64 = 0;
    proof {
        assert(data@.skip(0) =~= data@);
    }
    while i < n || run > 0
        invariant
            n == data@.len(),
            i <= n,
            decode_spec(data@) == result@ + decode_from(
                data@.skip(i as int),
                last as nat,
                run as nat,
            ),
        decreases n - i, run,
    {
        if run > 0 {
            if last == u32::MAX {
                return result;
            }
            last = last + 1;
            result.push(last);
            run = run - 1;
            proof {
                assert(result@ =~= result@.drop_last() + seq![last]);
            }
        } else {
            let start: usize = i;
            let ghost i0 = i as int;
            let b0 = data[i];
            if b0 >= 128 {
                let mut v: u64 = 0;
                let mut mult: u64 = 1;
                proof {
                    lemma_run_val_bound(data@.skip(i0), 0);
                    assert(pow_of(128, 0) == 1);
                    assert(pow_of(128, 8) == 0x100_0000_0000_0000) by {
                        reveal_with_fuel(pow_of, 9);
                    }
                }
                while i < n && data[i] >= 128
                    invariant
                        n == data@.len(),
                        start as int == i0,
                        0 <= i0 <= i as int <= n,
                        data@[i0] >= 128,
                        run_val(data@.skip(i0), 0) == v + run_val(
                            data@.skip(i as int),
                            (i as int - i0) as nat,
                        ),
                        run_len(data@.skip(i0)) == (i as int - i0) + run_len(data@.skip(i as int)),
                        i as int - i0 < 8 ==> mult == pow_of(128, (i as int - i0) as nat),
                        run_val(data@.skip(i0), 0) + 1 <= pow_of(128, 8),
                        pow_of(128, 8) == 0x100_0000_0000_0000,
                    decreases n - i,
                {
                    let ghost j = (i as int - i0) as nat;
                    let b = data[i];
                    proof {
                        assert(data@.skip(i as int)[0] == data@[i as int]);
                        assert(data@.skip(i as int).drop_first() =~= data@.skip(i as int + 1));
                        if j < 8 {
                            lemma_pow_of_le(128, j, 7);
                            assert(pow_of(128, 7) == 0x2_0000_0000_0000) by {
                                reveal_with_fuel(pow_of, 8);
                            }
                            assert(((b - 128) as u64 as nat) * (mult as nat) == (((b - 128) as nat)
                                * pow_of(128, j)));
                            assert(pow_of(128, j + 1) == 128 * pow_of(128, j));
                        }
                        lemma_run_val_bound(data@.skip(i as int), j);
                    }
                    if (i - start) < 8 {
                        v = v + ((b - 128) as u64) * mult;
                        mult = mult * 128;
                    }
                    i = i + 1;
                }
                proof {
                    assert(run_val(data@.skip(i as int), (i as int - i0) as nat) == 0);
                    assert(run_len(data@.skip(i as int)) == 0);
                    assert(data@.skip(i0).skip((i as int - i0)) =~= data@.skip(i as int));
                }
                if v == 0 {
                    return result;
                }
                run = v;
            } else {
                // find the end of the gap token
                let mut j: usize = i;
                while j < n && data[j] >= 64
                    invariant
                        n == data@.len(),
                        i <= j <= n,
                        forall|m: int| i as int <= m < j as int ==> #[trigger] data@[m] >= 64,
                    decreases n - j,
                {
                    j = j + 1;
                }
                if j == n {
                    proof {
                        assert forall|m: int| 0 <= m < data@.skip(i as int).len()
                            implies #[trigger] data@.skip(i as int)[m] >= 64 by {
                            assert(data@.skip(i as int)[m] == data@[i as int + m]);
                        }
                        lemma_delta_incomplete(data@.skip(i as int));
                    }
                    return result;
                }
                proof {
                    assert forall|m: int| 0 <= m < j as int - i as int
                        implies #[trigger] data@.skip(i as int)[m] >= 64 by {
                        assert(data@.skip(i as int)[m] == data@[i as int + m]);
                    }
                    assert(data@.skip(i as int)[j as int - i as int] == data@[j as int]);
                    lemma_delta_scan(data@.skip(i as int), j as int - i as int);
                    lemma_delta_val_bound(data@.skip(i as int), 0);
                    assert(pow_of(32, 0) == 1);
                    assert(pow_of(32, 12) == 0x1000_0000_0000_0000) by {
                        reveal_with_fuel(pow_of, 13);
                    }
                }
                let mut d: u64 = 0;
                let mut mult: u64 = 1;
                let mut k: usize = i;
                while k < j
                    invariant
                        n == data@.len(),
                        i <= k <= j < n,
                        data@[j as int] < 64,
                        forall|m: int| i as int <= m < j as int ==> #[trigger] data@[m] >= 64,
                        delta_val(data@.skip(i as int), 0) == d + delta_val(
                            data@.skip(k as int),
                            (k as int - i as int) as nat,
                        ),
                        (k as int - i as int) < 12 ==> mult == pow_of(
                            32,
                            (k as int - i as int) as nat,
                        ),
                        delta_val(data@.skip(i as int), 0) + 1 <= pow_of(32, 12),
                        pow_of(32, 12) == 0x1000_0000_0000_0000,
                    decreases j - k,
                {
                    let ghost w = (k as int - i as int) as nat;
                    let b = data[k];
                    proof {
                        assert(data@.skip(k as int)[0] == data@[k as int]);
                        assert(data@.skip(k as int).drop_first() =~= data@.skip(k as int + 1));
                        if w < 12 {
                            lemma_pow_of_le(32, w, 11);
                            assert(pow_of(32, 11) == 0x80_0000_0000_0000) by {
                                reveal_with_fuel(pow_of, 12);
                            }
                            assert(((b % 32) as u64 as nat) * (mult as nat) == (((b % 32) as nat)
                                * pow_of(32, w)));
                            assert(pow_of(32, w + 1) == 32 * pow_of(32, w));
                        }
                        lemma_delta_val_bound(data@.skip(k as int), w);
                    }
                    if (k - i) < 12 {
                        d = d + ((b % 32) as u64) * mult;
                        mult = mult * 32;
                    }
                    k = k + 1;
                }
                let ghost w = (j as int - i as int) as nat;
                let bterm = data[j];
                proof {
                    assert(data@.skip(j as int)[0] == data@[j as int]);
                    if w < 12 {
                        lemma_pow_of_le(32, w, 11);
                        assert(pow_of(32, 11) == 0x80_0000_0000_0000) by {
                            reveal_with_fuel(pow_of, 12);
                        }
                        assert(((bterm % 32) as u64 as nat) * (mult as nat) == (((bterm % 32) as nat)
                            * pow_of(32, w)));
                    }
                    assert(delta_val(data@.skip(j as int), w) == if w < 12 {
                        ((bterm % 32) as nat) * pow_of(32, w)
                    } else {
                        0nat
                    });
                }
                if (j - i) < 12 {
                    d = d + ((bterm % 32) as u64) * mult;
                }
                proof {
                    assert(d as nat == delta_val(data@.skip(i0), 0));
                    assert(data@.skip(i0).skip(j as int + 1 - i0) =~= data@.skip(j as int + 1));
                }
                let nv: u64 = last as u64 + d + 1;
                if nv > 0xFFFF_FFFF {
                    return result;
                }
                last = nv as u32;
                result.push(last);
                i = j + 1;
                proof {
                    assert(result@ =~= result@.drop_last() + seq![last]);
                }
            }
        }
    }
    result
}

/// The `c` consecutive values that follow `x`.
pub open spec fn consec(x: nat, c: nat) -> Seq<u32> {
    Seq::new(c, |i: int| (x + i + 1) as u32)
}

/// Parsing a run token placed before a non-run byte recovers its value.
proof fn lemma_enc_run_parse(run: nat, k: nat, tail: Seq<u8>)
    requires
        tail.len() == 0 || tail[0] < 128,
        k <= 8,
        run < pow_of(128, (8 - k) as nat),
    ensures
        run_len(enc_run(run) + tail) == enc_run(run).len(),
        run_val(enc_run(run) + tail, k) == run * pow_of(128, k),
    decreases run,
{
    if run == 0 {
        assert(enc_run(run) + tail =~= tail);
    } else {
        let byte = (128 + run % 128) as u8;
        let b = enc_run(run) + tail;
        assert(run < 128 * pow_of(128, (8 - k - 1) as nat)) by {
            assert(pow_of(128, (8 - k) as nat) == 128 * pow_of(128, (8 - k - 1) as nat));
        }
        assert(run / 128 < pow_of(128, (8 - k - 1) as nat)) by (nonlinear_arith)
            requires run < 128 * pow_of(128, (8 - k - 1) as nat);
        if run / 128 == 0 && run % 128 == 0 {
            assert(run == 128 * (run / 128) + run % 128);
            assert(false);
        }
        lemma_enc_run_parse(run / 128, k + 1, tail);
        assert(b[0] == byte);
        assert(b.drop_first() =~= enc_run(run / 128) + tail);
        assert(run_val(b, k) == ((byte - 128) as nat) * pow_of(128, k) + run_val(
            b.drop_first(),
            k + 1,
        ));
        assert(run_val(b, k) == (run % 128) * pow_of(128, k) + (run / 128) * pow_of(128, k + 1));
        assert(pow_of(128, k + 1) == 128 * pow_of(128, k));
        assert((run % 128) * pow_of(128, k) + (run / 128) * (128 * pow_of(128, k)) == run * pow_of(
            128,
            k,
        )) by (nonlinear_arith)
            requires run == 128 * (run / 128) + run % 128;
    }
}

/// Parsing a gap token recovers its value and its extent.
proof fn lemma_enc_delta_parse(d: nat, k: nat, tail: Seq<u8>)
    requires
        1 <= d,
        k <= 12,
        d < pow_of(32, (12 - k) as nat),
    ensures
        delta_complete(enc_delta(d) + tail),
        delta_len(enc_delta(d) + tail) == enc_delta(d).len(),
        delta_val(enc_delta(d) + tail, k) == d * pow_of(32, k),
    decreases d,
{
    let b = enc_delta(d) + tail;
    if d < 32 {
        if k == 12 {
            assert(pow_of(32, 0) == 1);
            assert(false);
        }
        assert(b[0] == (32 + d) as u8);
        assert((32 + d) % 32 == d);
        assert(delta_val(b, k) == d * pow_of(32, k));
    } else {
        let byte = (64 + d % 32) as u8;
        assert(d < 32 * pow_of(32, (12 - k - 1) as nat)) by {
            assert(pow_of(32, (12 - k) as nat) == 32 * pow_of(32, (12 - k - 1) as nat));
        }
        assert(d / 32 < pow_of(32, (12 - k - 1) as nat)) by (nonlinear_arith)
            requires d < 32 * pow_of(32, (12 - k - 1) as nat);
        assert(d / 32 >= 1) by (nonlinear_arith)
            requires d >= 32;
        lemma_enc_delta_parse(d / 32, k + 1, tail);
        assert(b[0] == byte);
        assert(b.drop_first() =~= enc_delta(d / 32) + tail);
        assert((64 + d % 32) % 32 == d % 32);
        assert(delta_val(b, k) == (d % 32) * pow_of(32, k) + (d / 32) * pow_of(32, k + 1));
        assert(pow_of(32, k + 1) == 32 * pow_of(32, k));
        assert((d % 32) * pow_of(32, k) + (d / 32) * (32 * pow_of(32, k)) == d * pow_of(32, k))
            by (nonlinear_arith)
            requires d == 32 * (d / 32) + d % 32;
    }
}

/// A pending run of `run` emits that many consecutive values.
proof fn lemma_decode_run_emit(b: Seq<u8>, last: nat, run: nat)
    requires
        last + run <= u32::MAX,
    ensures
        decode_from(b, last, run) == consec(last, run) + decode_from(b, last + run, 0),
    decreases run,
{
    if run == 0 {
        assert(consec(last, 0) + decode_from(b, last, 0) =~= decode_from(b, last, 0));
    } else {
        lemma_decode_run_emit(b, last + 1, (run - 1) as nat);
        assert(decode_from(b, last, run) == seq![(last + 1) as u32] + decode_from(
            b,
            last + 1,
            (run - 1) as nat,
        ));
        assert(seq![(last + 1) as u32] + (consec(last + 1, (run - 1) as nat) + decode_from(
            b,
            last + run,
            0,
        )) =~= consec(last, run) + decode_from(b, last + run, 0));
    }
}

/// Decoding the encoder's output from matching states recovers the input.
proof fn lemma_round_trip_from(s: Seq<u32>, last: nat, run: nat)
    requires
        forall|i: int| 0 < i < s.len() ==> s[i - 1] < #[trigger] s[i],
        s.len() > 0 ==> s[0] > last,
        last <= u32::MAX,
        run <= last,
    ensures
        decode_from(encode_from(s, last, run), (last - run) as nat, 0) == consec(
            (last - run) as nat,
            run,
        ) + s,
    decreases s.len(),
{
    assert(pow_of(128, 8) == 0x100_0000_0000_0000) by {
        reveal_with_fuel(pow_of, 9);
    }
    assert(pow_of(32, 12) == 0x1000_0000_0000_0000) by {
        reveal_with_fuel(pow_of, 13);
    }
    assert(pow_of(128, 0) == 1);
    assert(pow_of(32, 0) == 1);
    let x = (last - run) as nat;
    if s.len() == 0 {
        if run == 0 {
            assert(encode_from(s, last, run) == enc_run(0));
            assert(decode_from(enc_run(0), x, 0) == Seq::<u32>::empty());
            assert(consec(x, 0) + s =~= Seq::<u32>::empty());
        } else {
            let b = enc_run(run);
            lemma_enc_run_parse(run, 0, Seq::empty());
            assert(b + Seq::empty() =~= b);
            assert(b[0] >= 128);
            assert(run_val(b, 0) == run);
            assert(b.skip(run_len(b) as int) =~= Seq::<u8>::empty());
            lemma_decode_run_emit(Seq::empty(), x, run);
            assert(decode_from(b, x, 0) == consec(x, run) + decode_from(Seq::empty(), last, 0));
            assert(consec(x, run) + decode_from(Seq::<u8>::empty(), last, 0) =~= consec(x, run)
                + s);
        }
    } else {
        let d = (s[0] - last - 1) as nat;
        let tl = s.drop_first();
        assert(forall|i: int|
            0 < i < tl.len() ==> tl[i - 1] < #[trigger] tl[i] && tl[i] == s[i + 1] && tl[i - 1]
                == s[i]);
        assert(tl.len() > 0 ==> tl[0] == s[1] && s[0] < s[1]);
        if d == 0 {
            lemma_round_trip_from(tl, s[0] as nat, run + 1);
            assert(encode_from(s, last, run) == encode_from(tl, s[0] as nat, run + 1));
            assert((s[0] as nat - (run + 1)) as nat == x);
            assert(consec(x, run + 1) + tl =~= consec(x, run) + s) by {
                assert(s =~= seq![s[0]] + tl);
                assert(s[0] == x + run + 1);
            }
        } else {
            let rest = encode_from(tl, s[0] as nat, 0);
            let tail1 = enc_delta(d) + rest;
            assert(encode_from(s, last, run) == enc_run(run) + enc_delta(d) + rest);
            assert(enc_run(run) + enc_delta(d) + rest =~= enc_run(run) + tail1);
            assert(enc_delta(d).len() > 0);
            assert(tail1[0] == enc_delta(d)[0]);
            assert(enc_delta(d)[0] < 128);
            lemma_enc_delta_parse(d, 0, rest);
            // the pending run is flushed first
            lemma_enc_run_parse(run, 0, tail1);
            let b = enc_run(run) + tail1;
            if run == 0 {
                assert(b =~= tail1);
                assert(decode_from(b, x, 0) == decode_from(tail1, x, 0));
                assert(x == last);
            } else {
                assert(b[0] >= 128);
                assert(run_val(b, 0) == run);
                assert(b.skip(run_len(b) as int) =~= tail1);
                lemma_decode_run_emit(tail1, x, run);
                assert(decode_from(b, x, 0) == consec(x, run) + decode_from(tail1, last, 0));
            }
            // then the gap token emits the next value
            assert(tail1[0] < 64 || tail1[0] >= 64);
            assert(delta_val(tail1, 0) == d);
            assert(last + d + 1 == s[0]);
            assert(tail1.skip(delta_len(tail1) as int) =~= rest);
            assert(decode_from(tail1, last, 0) == seq![s[0]] + decode_from(rest, s[0] as nat, 0));
            // and the rest of the input follows by induction
            lemma_round_trip_from(tl, s[0] as nat, 0);
            assert(decode_from(rest, s[0] as nat, 0) == consec(s[0] as nat, 0) + tl);
            assert(consec(s[0] as nat, 0) + tl =~= tl);
            assert(consec(x, run) + (seq![s[0]] + tl) =~= consec(x, run) + s);
        }
    }
}

/// Round trip: decoding an encoded valid sequence gives it back unchanged.
pub proof fn lemma_decode_encode(s: Seq<u32>)
    requires
        valid_codec_input(s),
    ensures
        decode_spec(encode_spec(s)) == s,
{
    if s.len() > 0 {
        assert(s[0] >= 1);
    }
    lemma_round_trip_from(s, 0, 0);
    assert(consec(0, 0) + s =~= s);
}

} // verus!
