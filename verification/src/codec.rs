//! The wire codec for the balance record exchanged with the peer actor.
//!
//! A record travels as one JSON object with a fixed field order and no
//! whitespace: `{"account_id":"<handle>","balance":"<decimal>"}`, the balance
//! written as a decimal string so that 128-bit quantities survive readers that
//! only handle small numbers. `decode` accepts exactly the byte strings that
//! `encode` can produce, which makes the encoding lossless and decoding of
//! anything else an expected, handled error.

use vstd::prelude::*;

verus! {

/// A byte that may appear in an actor handle: ASCII lower-case letters,
/// digits, `.`, `_` and `-`.
pub open spec fn is_handle_byte(b: u8) -> bool {
    (97 <= b && b <= 122) || (48 <= b && b <= 57) || b == 46 || b == 95 || b == 45
}

/// A syntactically valid actor handle: non-empty and made of handle bytes
/// only. In particular a handle never contains a quote, which is what lets
/// the codec delimit it without an escape mechanism.
pub open spec fn valid_handle(s: Seq<u8>) -> bool {
    s.len() > 0 && (forall|i: int| 0 <= i < s.len() ==> is_handle_byte(s[i]))
}

/// The payload exchanged with the peer actor: the account that was asked and
/// its current ledger balance.
pub struct BalanceExt {
    pub account_id: Vec<u8>,
    pub balance: u128,
}

/// Mathematical model of a [`BalanceExt`] record.
#[verifier::ext_equal]
pub struct RecordView {
    pub account_id: Seq<u8>,
    pub balance: u128,
}

impl View for BalanceExt {
    type V = RecordView;

    open spec fn view(&self) -> RecordView {
        RecordView { account_id: self.account_id@, balance: self.balance }
    }
}

/// A record that may travel over the wire: its account is a valid handle.
pub open spec fn valid_record(r: RecordView) -> bool {
    valid_handle(r.account_id)
}

/// Decoding failed: the input is not a byte string `encode` can produce.
#[derive(Clone, Copy, Debug, PartialEq, Eq, Structural)]
pub struct DecodeError;

/// An ASCII decimal digit.
pub open spec fn is_digit_byte(b: u8) -> bool {
    48 <= b && b <= 57
}

pub open spec fn all_digits(s: Seq<u8>) -> bool {
    forall|i: int| 0 <= i < s.len() ==> is_digit_byte(s[i])
}

/// The canonical decimal digits of `n`, most significant first.
pub open spec fn dec(n: nat) -> Seq<u8>
    decreases n,
{
    if n < 10 {
        seq![(48 + n) as u8]
    } else {
        dec(n / 10) + seq![(48 + n % 10) as u8]
    }
}

/// The numeric value of a digit string, most significant digit first.
pub open spec fn dec_val(s: Seq<u8>) -> int
    decreases s.len(),
{
    if s.len() == 0 {
        0
    } else {
        dec_val(s.drop_last()) * 10 + (s.last() - 48)
    }
}

/// The digit strings `dec` can produce: non-empty, digits only, and no
/// leading zero.
pub open spec fn canonical_dec(s: Seq<u8>) -> bool {
    s.len() > 0 && all_digits(s) && (s.len() > 1 ==> s[0] != 48)
}

proof fn lemma_dec_val_push(s: Seq<u8>, b: u8)
    ensures
        dec_val(s.push(b)) == dec_val(s) * 10 + (b - 48),
{
    assert(s.push(b).drop_last() =~= s);
}

/// `dec` produces a canonical digit string whose value is the number itself.
pub proof fn lemma_dec_canonical(n: nat)
    ensures
        canonical_dec(dec(n)),
        dec_val(dec(n)) == n,
        n > 0 ==> dec(n)[0] != 48,
    decreases n,
{
    if n < 10 {
        assert(dec(n) =~= Seq::empty().push((48 + n) as u8));
        lemma_dec_val_push(Seq::empty(), (48 + n) as u8);
    } else {
        lemma_dec_canonical(n / 10);
        let d = (48 + n % 10) as u8;
        assert(dec(n) =~= dec(n / 10).push(d));
        lemma_dec_val_push(dec(n / 10), d);
        vstd::arithmetic::div_mod::lemma_fundamental_div_mod(n as int, 10);
    }
}

proof fn lemma_dec_val_nonneg(s: Seq<u8>)
    requires
        all_digits(s),
    ensures
        dec_val(s) >= 0,
    decreases s.len(),
{
    if s.len() > 0 {
        assert(all_digits(s.drop_last()));
        lemma_dec_val_nonneg(s.drop_last());
    }
}

/// The value of a digit string bounds the value of each of its prefixes.
proof fn lemma_dec_val_take(s: Seq<u8>, m: int)
    requires
        all_digits(s),
        0 <= m <= s.len(),
    ensures
        dec_val(s.take(m)) <= dec_val(s),
    decreases s.len() - m,
{
    if m == s.len() {
        assert(s.take(m) =~= s);
    } else {
        assert(s.take(m + 1).drop_last() =~= s.take(m));
        assert(all_digits(s.take(m)));
        lemma_dec_val_nonneg(s.take(m));
        lemma_dec_val_take(s, m + 1);
    }
}

/// A canonical digit string is recovered from its own value: `dec` inverts
/// `dec_val`.
pub proof fn lemma_dec_complete(s: Seq<u8>)
    requires
        canonical_dec(s),
    ensures
        dec_val(s) >= 0,
        dec(dec_val(s) as nat) == s,
    decreases s.len(),
{
    lemma_dec_val_nonneg(s);
    let d = s.last() - 48;
    if s.len() == 1 {
        assert(s.drop_last() =~= Seq::<u8>::empty());
        assert(dec_val(Seq::<u8>::empty()) == 0);
        assert(dec_val(s) == dec_val(s.drop_last()) * 10 + d);
        assert(dec_val(s) == d);
        assert((48 + dec_val(s) as nat) as u8 == s.last());
        assert(dec(dec_val(s) as nat) =~= s);
    } else {
        let front = s.drop_last();
        assert(all_digits(front));
        assert(front[0] == s[0]);
        assert(canonical_dec(front));
        assert(front.take(1) =~= Seq::empty().push(s[0]));
        lemma_dec_val_push(Seq::empty(), s[0]);
        lemma_dec_val_take(front, 1);
        lemma_dec_complete(front);
        let v = dec_val(s);
        assert(v == dec_val(front) * 10 + d);
        assert(dec_val(front) >= 1);
        assert(v >= 10);
        vstd::arithmetic::div_mod::lemma_fundamental_div_mod_converse(
            v,
            10,
            dec_val(front),
            d,
        );
        assert(v / 10 == dec_val(front));
        assert(v % 10 == d);
        assert(dec(v as nat) =~= front + seq![(48 + v as nat % 10) as u8]);
        assert(dec(v as nat) =~= s);
    }
}

/// The opening bytes of the wire object: `{"account_id":"`.
pub open spec fn wire_head() -> Seq<u8> {
    seq![
        123u8, 34u8, 97u8, 99u8, 99u8, 111u8, 117u8, 110u8, 116u8, 95u8, 105u8, 100u8, 34u8,
        58u8, 34u8,
    ]
}

/// The bytes between the two fields: `","balance":"`.
pub open spec fn wire_mid() -> Seq<u8> {
    seq![34u8, 44u8, 34u8, 98u8, 97u8, 108u8, 97u8, 110u8, 99u8, 101u8, 34u8, 58u8, 34u8]
}

/// The closing bytes: `"}`.
pub open spec fn wire_tail() -> Seq<u8> {
    seq![34u8, 125u8]
}

/// The one byte string that carries `r` over the wire.
pub open spec fn encode_spec(r: RecordView) -> Seq<u8> {
    wire_head() + r.account_id + wire_mid() + dec(r.balance as nat) + wire_tail()
}

/// `bytes` is the wire form of the valid record `r`.
pub open spec fn is_encoding_of(bytes: Seq<u8>, r: RecordView) -> bool {
    valid_record(r) && bytes == encode_spec(r)
}

/// Some valid record travels as `bytes`.
pub open spec fn decodable(bytes: Seq<u8>) -> bool {
    exists|r: RecordView| is_encoding_of(bytes, r)
}

/// The record that travels as `bytes`, where one does.
pub open spec fn decoded(bytes: Seq<u8>) -> RecordView {
    choose|r: RecordView| is_encoding_of(bytes, r)
}

/// Where each part of a valid record sits inside its encoding.
proof fn lemma_encode_structure(r: RecordView)
    requires
        valid_record(r),
    ensures
        ({
            let e = encode_spec(r);
            let al = r.account_id.len() as int;
            let ds = dec(r.balance as nat);
            let dl = ds.len() as int;
            &&& al >= 1
            &&& dl >= 1
            &&& e.len() == 30 + al + dl
            &&& e.subrange(0, 15) == wire_head()
            &&& e.subrange(15, 15 + al) == r.account_id
            &&& e.subrange(15 + al, 28 + al) == wire_mid()
            &&& e.subrange(28 + al, 28 + al + dl) == ds
            &&& e.subrange(28 + al + dl, 30 + al + dl) == wire_tail()
        }),
{
    let e = encode_spec(r);
    let al = r.account_id.len() as int;
    let ds = dec(r.balance as nat);
    let dl = ds.len() as int;
    assert(dl >= 1) by {
        let n = r.balance as nat;
        if n >= 10 {
            assert(ds == dec(n / 10) + seq![(48 + n % 10) as u8]);
        }
    }
    assert(e.subrange(0, 15) =~= wire_head());
    assert(e.subrange(15, 15 + al) =~= r.account_id);
    assert(e.subrange(15 + al, 28 + al) =~= wire_mid());
    assert(e.subrange(28 + al, 28 + al + dl) =~= ds);
    assert(e.subrange(28 + al + dl, 30 + al + dl) =~= wire_tail());
}

/// A scan for the first non-handle byte after the opening must stop exactly
/// where the encoded account ends.
proof fn lemma_scan_pins_account(b: Seq<u8>, r: RecordView, j: int)
    requires
        is_encoding_of(b, r),
        15 <= j <= b.len(),
        forall|i: int| 15 <= i < j ==> is_handle_byte(b[i]),
        j == b.len() || !is_handle_byte(b[j]),
    ensures
        j == 15 + r.account_id.len(),
        b.subrange(15, j) == r.account_id,
{
    lemma_encode_structure(r);
    let al = r.account_id.len() as int;
    assert(b[15 + al] == b.subrange(15 + al, 28 + al)[0]);
    assert(b[15 + al] == 34);
    if j < 15 + al {
        assert(b[j] == b.subrange(15, 15 + al)[j - 15]);
        assert(is_handle_byte(r.account_id[j - 15]));
        assert(false);
    }
    if j > 15 + al {
        assert(is_handle_byte(b[15 + al]));
        assert(false);
    }
}

/// A scan for the first non-digit byte after the balance opening must stop
/// exactly where the encoded digits end.
proof fn lemma_scan_pins_digits(b: Seq<u8>, r: RecordView, k: int)
    requires
        is_encoding_of(b, r),
        28 + r.account_id.len() <= k <= b.len(),
        forall|i: int| 28 + r.account_id.len() <= i < k ==> is_digit_byte(b[i]),
        k == b.len() || !is_digit_byte(b[k]),
    ensures
        k == 28 + r.account_id.len() + dec(r.balance as nat).len(),
        b.subrange(28 + r.account_id.len() as int, k) == dec(r.balance as nat),
{
    lemma_encode_structure(r);
    lemma_dec_canonical(r.balance as nat);
    let al = r.account_id.len() as int;
    let ds = dec(r.balance as nat);
    let dl = ds.len() as int;
    assert(b[28 + al + dl] == b.subrange(28 + al + dl, 30 + al + dl)[0]);
    assert(b[28 + al + dl] == 34);
    if k < 28 + al + dl {
        assert(b[k] == b.subrange(28 + al, 28 + al + dl)[k - 28 - al]);
        assert(is_digit_byte(ds[k - 28 - al]));
        assert(false);
    }
    if k > 28 + al + dl {
        assert(is_digit_byte(b[28 + al + dl]));
        assert(false);
    }
}

/// No two valid records share an encoding.
pub proof fn lemma_encode_injective(r1: RecordView, r2: RecordView)
    requires
        valid_record(r1),
        valid_record(r2),
        encode_spec(r1) == encode_spec(r2),
    ensures
        r1 == r2,
{
    let b = encode_spec(r1);
    lemma_encode_structure(r1);
    lemma_dec_canonical(r1.balance as nat);
    lemma_dec_canonical(r2.balance as nat);
    let al = r1.account_id.len() as int;
    let ds = dec(r1.balance as nat);
    let dl = ds.len() as int;
    let j = 15 + al;
    assert forall|i: int| 15 <= i < j implies is_handle_byte(b[i]) by {
        assert(b[i] == b.subrange(15, 15 + al)[i - 15]);
        assert(b[i] == r1.account_id[i - 15]);
    }
    assert(b[j] == b.subrange(15 + al, 28 + al)[0]);
    assert(b[j] == 34);
    lemma_scan_pins_account(b, r1, j);
    lemma_scan_pins_account(b, r2, j);
    let k = 28 + al + dl;
    assert forall|i: int| 28 + al <= i < k implies is_digit_byte(b[i]) by {
        assert(b[i] == b.subrange(28 + al, 28 + al + dl)[i - 28 - al]);
        assert(b[i] == ds[i - 28 - al]);
    }
    assert(b[k] == b.subrange(28 + al + dl, 30 + al + dl)[0]);
    assert(b[k] == 34);
    lemma_scan_pins_digits(b, r1, k);
    lemma_scan_pins_digits(b, r2, k);
    assert(dec(r2.balance as nat) == dec(r1.balance as nat));
    assert(r1.balance == r2.balance);
    assert(r1 =~= r2);
}

/// Losslessness of the wire format: a valid record decodes from its own
/// encoding, and from nothing else.
pub proof fn lemma_round_trip(r: RecordView)
    requires
        valid_record(r),
    ensures
        decodable(encode_spec(r)),
        decoded(encode_spec(r)) == r,
{
    assert(is_encoding_of(encode_spec(r), r));
    let o = decoded(encode_spec(r));
    assert(is_encoding_of(encode_spec(r), o));
    lemma_encode_injective(r, o);
}

/// Byte-for-byte equality of two byte strings.
pub fn bytes_eq(a: &Vec<u8>, b: &Vec<u8>) -> (r: bool)
    ensures
        r == (a@ == b@),
{
    if a.len() != b.len() {
        return false;
    }
    let mut i: usize = 0;
    while i < a.len()
        invariant
            i <= a@.len(),
            a@.len() == b@.len(),
            forall|t: int| 0 <= t < i ==> a@[t] == b@[t],
        decreases a@.len() - i,
    {
        if a[i] != b[i] {
            proof {
                if a@ == b@ {
                    assert(a@[i as int] == b@[i as int]);
                    assert(false);
                }
            }
            return false;
        }
        i = i + 1;
    }
    proof {
        assert(a@ =~= b@);
    }
    true
}

/// Recognises a handle byte.
pub fn handle_byte(b: u8) -> (r: bool)
    ensures
        r == is_handle_byte(b),
{
    (97 <= b && b <= 122) || (48 <= b && b <= 57) || b == 46 || b == 95 || b == 45
}

/// Recognises an ASCII decimal digit.
pub fn digit_byte(b: u8) -> (r: bool)
    ensures
        r == is_digit_byte(b),
{
    48 <= b && b <= 57
}

fn wire_head_vec() -> (v: Vec<u8>)
    ensures
        v@ == wire_head(),
{
    let mut v: Vec<u8> = Vec::new();
    v.push(123);
    v.push(34);
    v.push(97);
    v.push(99);
    v.push(99);
    v.push(111);
    v.push(117);
    v.push(110);
    v.push(116);
    v.push(95);
    v.push(105);
    v.push(100);
    v.push(34);
    v.push(58);
    v.push(34);
    proof {
        assert(v@ =~= wire_head());
    }
    v
}

fn wire_mid_vec() -> (v: Vec<u8>)
    ensures
        v@ == wire_mid(),
{
    let mut v: Vec<u8> = Vec::new();
    v.push(34);
    v.push(44);
    v.push(34);
    v.push(98);
    v.push(97);
    v.push(108);
    v.push(97);
    v.push(110);
    v.push(99);
    v.push(101);
    v.push(34);
    v.push(58);
    v.push(34);
    proof {
        assert(v@ =~= wire_mid());
    }
    v
}

fn append_bytes(dst: &mut Vec<u8>, src: &Vec<u8>)
    ensures
        final(dst)@ == old(dst)@ + src@,
{
    let mut i: usize = 0;
    while i < src.len()
        invariant
            i <= src@.len(),
            dst@ == old(dst)@ + src@.take(i as int),
        decreases src@.len() - i,
    {
        let b = src[i];
        dst.push(b);
        i = i + 1;
        proof {
            assert(src@.take(i as int) =~= src@.take(i as int - 1).push(b));
            assert(dst@ =~= old(dst)@ + src@.take(i as int));
        }
    }
    proof {
        assert(src@.take(src@.len() as int) =~= src@);
    }
}

/// The canonical decimal digits of `n`, most significant first.
fn u128_to_dec(n: u128) -> (out: Vec<u8>)
    ensures
        out@ == dec(n as nat),
{
    let mut v: Vec<u8> = Vec::new();
    let mut rem = n;
    if rem == 0 {
        v.push(48);
        proof {
            assert(v@ =~= dec(0));
        }
        return v;
    }
    proof {
        assert(dec(n as nat) =~= dec(n as nat) + v@);
    }
    while rem > 0
        invariant
            rem > 0 ==> dec(n as nat) == dec(rem as nat) + v@,
            rem == 0 ==> dec(n as nat) == v@,
        decreases rem,
    {
        let d = (rem % 10) as u8 + 48;
        let ghost prev = v@;
        v.insert(0, d);
        proof {
            assert(v@ =~= seq![d] + prev);
            if rem >= 10 {
                assert(dec(rem as nat) =~= dec(rem as nat / 10) + seq![d]);
                assert(dec(rem as nat / 10) + seq![d] + prev =~= dec(rem as nat / 10) + (seq![d]
                    + prev));
            } else {
                assert(dec(rem as nat) =~= seq![d]);
                assert(seq![d] + prev =~= dec(rem as nat) + prev);
            }
            assert(dec(n as nat) =~= dec(rem as nat) + prev);
        }
        rem = rem / 10;
        proof {
            if rem > 0 {
                assert(dec(n as nat) =~= dec(rem as nat) + v@);
            } else {
                assert(dec(n as nat) =~= v@);
            }
        }
    }
    v
}

/// Serialises a record into its wire form.
pub fn encode(r: &BalanceExt) -> (out: Vec<u8>)
    ensures
        out@ == encode_spec(r@),
{
    let mut v = wire_head_vec();
    append_bytes(&mut v, &r.account_id);
    let m = wire_mid_vec();
    append_bytes(&mut v, &m);
    let d = u128_to_dec(r.balance);
    append_bytes(&mut v, &d);
    v.push(34);
    v.push(125);
    proof {
        assert(v@ =~= encode_spec(r@));
    }
    v
}

fn match_at(bytes: &Vec<u8>, start: usize, pat: &Vec<u8>) -> (r: bool)
    requires
        start + pat@.len() <= bytes@.len(),
    ensures
        r == (bytes@.subrange(start as int, start as int + pat@.len()) == pat@),
{
    let nb = bytes.len();
    let mut i: usize = 0;
    while i < pat.len()
        invariant
            i <= pat@.len(),
            start + pat@.len() <= bytes@.len(),
            bytes@.len() == nb,
            forall|t: int| 0 <= t < i ==> bytes@[start + t] == pat@[t],
        decreases pat@.len() - i,
    {
        if bytes[start + i] != pat[i] {
            proof {
                let sub = bytes@.subrange(start as int, start as int + pat@.len());
                if sub == pat@ {
                    assert(sub[i as int] == bytes@[start + i]);
                    assert(false);
                }
            }
            return false;
        }
        i = i + 1;
    }
    proof {
        assert(bytes@.subrange(start as int, start as int + pat@.len()) =~= pat@);
    }
    true
}

fn subvec(bytes: &Vec<u8>, from: usize, to: usize) -> (out: Vec<u8>)
    requires
        from <= to,
        to <= bytes@.len(),
    ensures
        out@ == bytes@.subrange(from as int, to as int),
{
    let mut out: Vec<u8> = Vec::new();
    proof {
        assert(bytes@.subrange(from as int, from as int) =~= Seq::<u8>::empty());
    }
    let mut i: usize = from;
    while i < to
        invariant
            from <= i <= to,
            to <= bytes@.len(),
            out@ == bytes@.subrange(from as int, i as int),
        decreases to - i,
    {
        let b = bytes[i];
        out.push(b);
        i = i + 1;
        proof {
            assert(bytes@.subrange(from as int, i as int) =~= bytes@.subrange(
                from as int,
                i as int - 1,
            ).push(b));
        }
    }
    out
}

/// Parses a wire byte string. Exactly the encodings of valid records are
/// accepted; every other input is reported as a decode error, never a fault.
#[verifier::rlimit(50)]
pub fn decode(bytes: &Vec<u8>) -> (r: Result<BalanceExt, DecodeError>)
    ensures
        r is Ok <==> decodable(bytes@),
        r matches Ok(rec) ==> rec@ == decoded(bytes@),
{
    let n = bytes.len();
    if n < 32 {
        proof {
            assert forall|rv: RecordView| !is_encoding_of(bytes@, rv) by {
                if is_encoding_of(bytes@, rv) {
                    lemma_encode_structure(rv);
                    assert(false);
                }
            }
            assert(!decodable(bytes@));
        }
        return Err(DecodeError);
    }
    let head = wire_head_vec();
    if !match_at(bytes, 0, &head) {
        proof {
            assert forall|rv: RecordView| !is_encoding_of(bytes@, rv) by {
                if is_encoding_of(bytes@, rv) {
                    lemma_encode_structure(rv);
                    assert(bytes@.subrange(0, 15) == wire_head());
                    assert(false);
                }
            }
            assert(!decodable(bytes@));
        }
        return Err(DecodeError);
    }
    let mut j: usize = 15;
    loop
        invariant
            15 <= j <= n,
            n == bytes@.len(),
            forall|i: int| 15 <= i < j ==> is_handle_byte(bytes@[i]),
        ensures
            15 <= j <= n,
            forall|i: int| 15 <= i < j ==> is_handle_byte(bytes@[i]),
            j == n || !is_handle_byte(bytes@[j as int]),
        decreases n - j,
    {
        if j == n {
            break ;
        }
        if !handle_byte(bytes[j]) {
            break ;
        }
        j = j + 1;
    }
    if j == 15 {
        proof {
            assert forall|rv: RecordView| !is_encoding_of(bytes@, rv) by {
                if is_encoding_of(bytes@, rv) {
                    lemma_encode_structure(rv);
                    assert(bytes@[15] == bytes@.subrange(15, 15 + rv.account_id.len() as int)[0]);
                    assert(is_handle_byte(bytes@[15]));
                    assert(false);
                }
            }
            assert(!decodable(bytes@));
        }
        return Err(DecodeError);
    }
    if n - j < 13 {
        proof {
            assert forall|rv: RecordView| !is_encoding_of(bytes@, rv) by {
                if is_encoding_of(bytes@, rv) {
                    lemma_scan_pins_account(bytes@, rv, j as int);
                    lemma_encode_structure(rv);
                    assert(false);
                }
            }
            assert(!decodable(bytes@));
        }
        return Err(DecodeError);
    }
    let m = wire_mid_vec();
    if !match_at(bytes, j, &m) {
        proof {
            assert forall|rv: RecordView| !is_encoding_of(bytes@, rv) by {
                if is_encoding_of(bytes@, rv) {
                    lemma_scan_pins_account(bytes@, rv, j as int);
                    lemma_encode_structure(rv);
                    assert(bytes@.subrange(j as int, j as int + 13) == wire_mid());
                    assert(false);
                }
            }
            assert(!decodable(bytes@));
        }
        return Err(DecodeError);
    }
    let start = j + 13;
    let mut k: usize = start;
    loop
        invariant
            start <= k <= n,
            n == bytes@.len(),
            forall|i: int| start <= i < k ==> is_digit_byte(bytes@[i]),
        ensures
            start <= k <= n,
            forall|i: int| start <= i < k ==> is_digit_byte(bytes@[i]),
            k == n || !is_digit_byte(bytes@[k as int]),
        decreases n - k,
    {
        if k == n {
            break ;
        }
        if !digit_byte(bytes[k]) {
            break ;
        }
        k = k + 1;
    }
    if k == start {
        proof {
            assert forall|rv: RecordView| !is_encoding_of(bytes@, rv) by {
                if is_encoding_of(bytes@, rv) {
                    lemma_scan_pins_account(bytes@, rv, j as int);
                    lemma_encode_structure(rv);
                    lemma_dec_canonical(rv.balance as nat);
                    let al = rv.account_id.len() as int;
                    let dl = dec(rv.balance as nat).len() as int;
                    assert(bytes@[start as int] == bytes@.subrange(28 + al, 28 + al + dl)[0]);
                    assert(is_digit_byte(bytes@[start as int]));
                    assert(false);
                }
            }
            assert(!decodable(bytes@));
        }
        return Err(DecodeError);
    }
    if k - start > 1 && bytes[start] == 48 {
        proof {
            assert forall|rv: RecordView| !is_encoding_of(bytes@, rv) by {
                if is_encoding_of(bytes@, rv) {
                    lemma_scan_pins_account(bytes@, rv, j as int);
                    lemma_scan_pins_digits(bytes@, rv, k as int);
                    lemma_dec_canonical(rv.balance as nat);
                    let al = rv.account_id.len() as int;
                    assert(dec(rv.balance as nat)[0] == bytes@[start as int]);
                    assert(false);
                }
            }
            assert(!decodable(bytes@));
        }
        return Err(DecodeError);
    }
    let mut val: u128 = 0;
    let mut i: usize = start;
    let mut overflow: bool = false;
    proof {
        assert(bytes@.subrange(start as int, start as int) =~= Seq::<u8>::empty());
    }
    loop
        invariant_except_break
            !overflow,
            val as int == dec_val(bytes@.subrange(start as int, i as int)),
        invariant
            start <= i <= k <= n,
            n == bytes@.len(),
            forall|t: int| start <= t < k ==> is_digit_byte(bytes@[t]),
        ensures
            overflow ==> dec_val(bytes@.subrange(start as int, k as int)) > u128::MAX as int,
            !overflow ==> val as int == dec_val(bytes@.subrange(start as int, k as int)),
        decreases k - i,
    {
        if i == k {
            break ;
        }
        let dg = bytes[i] - 48;
        proof {
            let cur = bytes@.subrange(start as int, i as int);
            let next = bytes@.subrange(start as int, i as int + 1);
            assert(next =~= cur.push(bytes@[i as int]));
            lemma_dec_val_push(cur, bytes@[i as int]);
            assert(dec_val(next) == val as int * 10 + dg);
            vstd::arithmetic::div_mod::lemma_fundamental_div_mod(
                u128::MAX as int - dg,
                10,
            );
            if dec_val(next) > u128::MAX as int {
                let digits = bytes@.subrange(start as int, k as int);
                assert(all_digits(digits)) by {
                    assert forall|t: int| 0 <= t < digits.len() implies is_digit_byte(
                        digits[t],
                    ) by {
                        assert(digits[t] == bytes@[start + t]);
                    }
                }
                assert(next =~= digits.take(i + 1 - start));
                lemma_dec_val_take(digits, i + 1 - start);
            }
        }
        if val > (u128::MAX - dg as u128) / 10 {
            overflow = true;
            break ;
        }
        val = val * 10 + dg as u128;
        i = i + 1;
    }
    if overflow {
        proof {
            assert forall|rv: RecordView| !is_encoding_of(bytes@, rv) by {
                if is_encoding_of(bytes@, rv) {
                    lemma_scan_pins_account(bytes@, rv, j as int);
                    lemma_scan_pins_digits(bytes@, rv, k as int);
                    lemma_dec_canonical(rv.balance as nat);
                    assert(dec_val(bytes@.subrange(start as int, k as int)) == rv.balance as int);
                    assert(false);
                }
            }
            assert(!decodable(bytes@));
        }
        return Err(DecodeError);
    }
    if n - k != 2 {
        proof {
            assert forall|rv: RecordView| !is_encoding_of(bytes@, rv) by {
                if is_encoding_of(bytes@, rv) {
                    lemma_scan_pins_account(bytes@, rv, j as int);
                    lemma_scan_pins_digits(bytes@, rv, k as int);
                    lemma_encode_structure(rv);
                    assert(false);
                }
            }
            assert(!decodable(bytes@));
        }
        return Err(DecodeError);
    }
    if bytes[k] != 34 || bytes[k + 1] != 125 {
        proof {
            assert forall|rv: RecordView| !is_encoding_of(bytes@, rv) by {
                if is_encoding_of(bytes@, rv) {
                    lemma_scan_pins_account(bytes@, rv, j as int);
                    lemma_scan_pins_digits(bytes@, rv, k as int);
                    lemma_encode_structure(rv);
                    let al = rv.account_id.len() as int;
                    let dl = dec(rv.balance as nat).len() as int;
                    assert(bytes@[k as int] == bytes@.subrange(28 + al + dl, 30 + al + dl)[0]);
                    assert(bytes@[k as int + 1] == bytes@.subrange(28 + al + dl, 30 + al + dl)[1]);
                    assert(false);
                }
            }
            assert(!decodable(bytes@));
        }
        return Err(DecodeError);
    }
    let account_id = subvec(bytes, 15, j);
    let rec = BalanceExt { account_id, balance: val };
    proof {
        let bs = bytes@;
        let rv = rec@;
        let digits = bs.subrange(start as int, k as int);
        assert(all_digits(digits)) by {
            assert forall|t: int| 0 <= t < digits.len() implies is_digit_byte(digits[t]) by {
                assert(digits[t] == bs[start + t]);
            }
        }
        assert(digits.len() > 1 ==> digits[0] != 48) by {
            assert(digits[0] == bs[start as int]);
        }
        assert(canonical_dec(digits));
        lemma_dec_complete(digits);
        assert(dec(val as nat) == digits);
        assert(valid_handle(rv.account_id)) by {
            assert forall|t: int| 0 <= t < rv.account_id.len() implies is_handle_byte(
                rv.account_id[t],
            ) by {
                assert(rv.account_id[t] == bs[15 + t]);
            }
        }
        assert(bs.subrange(k as int, n as int) =~= wire_tail());
        assert(bs =~= bs.subrange(0, 15) + bs.subrange(15, j as int) + bs.subrange(
            j as int,
            start as int,
        ) + bs.subrange(start as int, k as int) + bs.subrange(k as int, n as int));
        assert(bs == encode_spec(rv));
        assert(is_encoding_of(bs, rv));
        assert(decodable(bs));
        assert(is_encoding_of(bs, decoded(bs)));
        lemma_encode_injective(rv, decoded(bs));
    }
    Ok(rec)
}

} // verus!
