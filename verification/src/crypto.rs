//! Hex text encoding of key and signature bytes, and the signing and
//! checking of snapshots with Ed25519 over a SHA-256 digest of the whole
//! snapshot, header and data sections alike.
use vstd::prelude::*;
use crate::text::{chars_of, copy_range, is_ascii_char, parse_unsigned, parse_unsigned_exec, push_char, trim, trim_chars};

verus! {

// ---------------------------------------------------------------------------
// Hex text
// ---------------------------------------------------------------------------

/// Lower-case hex digit of a value below 16.
pub open spec fn hex_digit(v: int) -> char {
    if v < 10 {
        (('0' as u32) + v) as char
    } else {
        (('a' as u32) + v - 10) as char
    }
}

/// Two lower-case hex digits per byte, most significant first.
pub open spec fn hex_encode(bs: Seq<u8>) -> Seq<char>
    decreases bs.len(),
{
    if bs.len() == 0 {
        seq![]
    } else {
        hex_encode(bs.drop_last()) + seq![hex_digit((bs.last() / 16) as int), hex_digit((bs.last() % 16) as int)]
    }
}

/// Why hex text could not be read.
#[derive(PartialEq, Eq, Structural, Clone, Copy, Debug)]
pub enum HexError {
    /// A two-byte group is not a hex number below 256.
    InvalidDigit,
}

/// Reading (already trimmed) hex text two bytes at a time, each group read
/// as `u8::from_str_radix(group, 16)` does it.  `None` stands for input on
/// which the byte slicing of a group fails: an odd byte length, or a group
/// boundary inside a multi-byte character.  A two-byte character that forms
/// a group on its own is not a hex number.
pub open spec fn hex_decode_chars(cs: Seq<char>) -> Option<Result<Seq<u8>, HexError>>
    decreases cs.len(),
{
    if cs.len() == 0 {
        Some(Ok(seq![]))
    } else if !is_ascii_char(cs[0]) {
        if (cs[0] as u32) < 0x800 {
            Some(Err(HexError::InvalidDigit))
        } else {
            None
        }
    } else if cs.len() < 2 || !is_ascii_char(cs[1]) {
        None
    } else {
        match parse_unsigned(cs.take(2), 16, 255) {
            None => Some(Err(HexError::InvalidDigit)),
            Some(v) => match hex_decode_chars(cs.skip(2)) {
                Some(Ok(rest)) => Some(Ok(seq![v as u8] + rest)),
                other => other,
            },
        }
    }
}

/// The whole of `hex_decode_chars` on the trimmed text.
pub open spec fn hex_decode(s: Seq<char>) -> Option<Result<Seq<u8>, HexError>> {
    hex_decode_chars(trim(s))
}

pub open spec fn prepend_bytes(
    p: Seq<u8>,
    r: Option<Result<Seq<u8>, HexError>>,
) -> Option<Result<Seq<u8>, HexError>> {
    match r {
        Some(Ok(x)) => Some(Ok(p + x)),
        other => other,
    }
}

fn hex_digit_exec(v: u8) -> (c: char)
    requires
        v < 16,
    ensures
        c == hex_digit(v as int),
{
    if v < 10 {
        proof {
            assert((('0' as u32) + v) < 0xD800);
        }
        ((('0' as u8) + v) as char)
    } else {
        ((('a' as u8) + v - 10) as char)
    }
}

/// Lower-case hex text of `data`, two digits per byte.
pub fn encode(data: &[u8]) -> (s: String)
    ensures
        s@ == hex_encode(data@),
{
    let mut s = String::new();
    let mut i: usize = 0;
    while i < data.len()
        invariant
            i <= data.len(),
            s@ == hex_encode(data@.take(i as int)),
        decreases data.len() - i,
    {
        let b = data[i];
        assert(data@.take(i + 1).drop_last() =~= data@.take(i as int));
        push_char(&mut s, hex_digit_exec(b / 16));
        push_char(&mut s, hex_digit_exec(b % 16));
        i = i + 1;
        assert(s@ =~= hex_encode(data@.take(i as int)));
    }
    assert(data@.take(data.len() as int) =~= data@);
    s
}

/// Reads hex text (surrounding white space trimmed) two bytes at a time;
/// `None` where a two-byte group cannot be cut out of the text.
pub fn try_decode(s: &str) -> (r: Option<Result<Vec<u8>, HexError>>)
    ensures
        match r {
            Some(Ok(v)) => hex_decode(s@) == Some(Ok::<Seq<u8>, HexError>(v@)),
            Some(Err(e)) => hex_decode(s@) == Some(Err::<Seq<u8>, HexError>(e)),
            None => hex_decode(s@) is None,
        },
{
    let all = chars_of(s);
    let t = trim_chars(all.as_slice());
    let ghost tv = t@;
    let mut out: Vec<u8> = Vec::new();
    let mut i: usize = 0;
    assert(tv.skip(0) =~= tv);
    while i < t.len()
        invariant
            i <= t.len(),
            tv == t@,
            tv == trim(s@),
            hex_decode_chars(tv) == prepend_bytes(out@, hex_decode_chars(tv.skip(i as int))),
        decreases t.len() - i,
    {
        let ghost rest = tv.skip(i as int);
        assert(rest[0] == t@[i as int]);
        let c0 = t[i];
        if (c0 as u32) >= 0x80 {
            if (c0 as u32) < 0x800 {
                assert(hex_decode_chars(rest) == Some(Err::<Seq<u8>, HexError>(HexError::InvalidDigit)));
                return Some(Err(HexError::InvalidDigit));
            }
            assert(hex_decode_chars(rest) is None);
            return None;
        }
        if i + 1 >= t.len() {
            assert(rest.len() < 2);
            return None;
        }
        assert(rest[1] == t@[i + 1]);
        if (t[i + 1] as u32) >= 0x80 {
            return None;
        }
        let pair = copy_range(t.as_slice(), i, i + 2);
        assert(pair@ =~= rest.take(2));
        assert(rest.skip(2) =~= tv.skip(i + 2));
        match parse_unsigned_exec(pair.as_slice(), 16, 255) {
            None => {
                assert(hex_decode_chars(rest) == Some(Err::<Seq<u8>, HexError>(HexError::InvalidDigit)));
                return Some(Err(HexError::InvalidDigit));
            },
            Some(v) => {
                let ghost before = out@;
                out.push(v as u8);
                proof {
                    assert(out@ =~= before + seq![v as u8]);
                    match hex_decode_chars(tv.skip(i + 2)) {
                        Some(Ok(x)) => {
                            assert(before + (seq![v as u8] + x) =~= out@ + x);
                        },
                        _ => {},
                    }
                }
            },
        }
        i = i + 2;
    }
    assert(tv.skip(i as int) =~= Seq::<char>::empty());
    assert(out@ + Seq::<u8>::empty() =~= out@);
    Some(Ok(out))
}

/// Reads hex text (surrounding white space trimmed) two bytes at a time.
pub fn decode(s: &str) -> (r: Result<Vec<u8>, HexError>)
    requires
        hex_decode(s@) is Some,
    ensures
        match r {
            Ok(v) => hex_decode(s@) == Some(Ok::<Seq<u8>, HexError>(v@)),
            Err(e) => hex_decode(s@) == Some(Err::<Seq<u8>, HexError>(e)),
        },
{
    match try_decode(s) {
        Some(r) => r,
        None => Err(HexError::InvalidDigit),
    }
}

// ---------------------------------------------------------------------------
// Digest and signatures
// ---------------------------------------------------------------------------

/// The SHA-256 digest of the given bytes.
pub uninterp spec fn sha256_of(data: Seq<u8>) -> Seq<u8>;

/// The Ed25519 signature of `msg` under the 32-byte secret key `secret`.
pub uninterp spec fn ed25519_signature_of(secret: Seq<u8>, msg: Seq<u8>) -> Seq<u8>;

/// The Ed25519 public key of the 32-byte secret key `secret`.
pub uninterp spec fn ed25519_public_of(secret: Seq<u8>) -> Seq<u8>;

/// Whether the 32 bytes `public` decompress to a curve point.
pub uninterp spec fn ed25519_point_valid(public: Seq<u8>) -> bool;

/// Whether `sig` is a valid Ed25519 signature of `msg` under `public`.
pub uninterp spec fn ed25519_accepts(public: Seq<u8>, msg: Seq<u8>, sig: Seq<u8>) -> bool;

/// `sha2::Sha256::digest`: the 32-byte SHA-256 digest of `data`.
#[verifier::external_body]
fn sha256(data: &[u8]) -> (d: Vec<u8>)
    ensures
        d@ == sha256_of(data@),
        d@.len() == 32,
{
    <sha2::Sha256 as sha2::Digest>::digest(data).to_vec()
}

/// `SigningKey::from_bytes` then `Signer::sign` (which cannot fail for this
/// key type) and `Signature::to_bytes`: the 64-byte deterministic Ed25519
/// signature of `msg`, which the key's verifying key accepts (the crate's
/// documentation verifies such a signature with `verifying_key().verify`).
#[verifier::external_body]
fn ed25519_sign(secret: &[u8], msg: &[u8]) -> (sig: Vec<u8>)
    requires
        secret@.len() == 32,
    ensures
        sig@ == ed25519_signature_of(secret@, msg@),
        sig@.len() == 64,
        ed25519_accepts(ed25519_public_of(secret@), msg@, sig@),
{
    let mut b = [0u8; 32];
    b.copy_from_slice(secret);
    let key = ed25519_dalek::SigningKey::from_bytes(&b);
    ed25519_dalek::Signer::sign(&key, msg).to_bytes().to_vec()
}

/// `SigningKey::from_bytes` then `verifying_key().to_bytes()`: the 32-byte
/// public key of a secret key, the encoding of a curve point (the crate's
/// documentation decodes such bytes with `VerifyingKey::from_bytes`).
#[verifier::external_body]
fn ed25519_public_key(secret: &[u8]) -> (public: Vec<u8>)
    requires
        secret@.len() == 32,
    ensures
        public@ == ed25519_public_of(secret@),
        public@.len() == 32,
        ed25519_point_valid(public@),
{
    let mut b = [0u8; 32];
    b.copy_from_slice(secret);
    ed25519_dalek::SigningKey::from_bytes(&b).verifying_key().to_bytes().to_vec()
}

/// `VerifyingKey::from_bytes` succeeds: the bytes are a point encoding.
#[verifier::external_body]
fn ed25519_public_key_ok(public: &[u8]) -> (ok: bool)
    requires
        public@.len() == 32,
    ensures
        ok == ed25519_point_valid(public@),
{
    let mut b = [0u8; 32];
    b.copy_from_slice(public);
    ed25519_dalek::VerifyingKey::from_bytes(&b).is_ok()
}

/// `Verifier::verify` of a `VerifyingKey` (built from valid bytes) on a
/// `Signature::from_bytes` of 64 bytes: whether it returns `Ok`.
#[verifier::external_body]
fn ed25519_verify(public: &[u8], msg: &[u8], sig: &[u8]) -> (ok: bool)
    requires
        public@.len() == 32,
        sig@.len() == 64,
        ed25519_point_valid(public@),
    ensures
        ok == ed25519_accepts(public@, msg@, sig@),
{
    let mut b = [0u8; 32];
    b.copy_from_slice(public);
    let mut s = [0u8; 64];
    s.copy_from_slice(sig);
    match ed25519_dalek::VerifyingKey::from_bytes(&b) {
        Ok(key) => ed25519_dalek::Verifier::verify(&key, msg, &ed25519_dalek::Signature::from_bytes(&s)).is_ok(),
        Err(_) => false,
    }
}

/// Why a snapshot could not be signed or its signature checked.
#[derive(PartialEq, Eq, Structural, Clone, Copy, Debug)]
pub enum CryptoError {
    /// Key or signature text is not hex.
    BadHex,
    /// The private key has fewer than 32 bytes.
    PrivateKeyTooShort,
    /// The public key has fewer than 32 bytes.
    PublicKeyTooShort,
    /// The snapshot has fewer than 64 bytes.
    SnapshotTooSmall,
    /// The public key bytes are not a curve point.
    InvalidPublicKey,
    /// The signature has fewer than 64 bytes.
    SignatureTooShort,
    /// The signature does not verify.
    SignatureMismatch,
}

/// The first 32 bytes of decoded key text.
pub open spec fn key32(bytes: Seq<u8>) -> Seq<u8> {
    bytes.take(32)
}

/// What signing gives: the hex of the Ed25519 signature, under the first 32
/// bytes of the decoded private key, of the SHA-256 digest of the whole
/// snapshot; a snapshot shorter than its 64-byte header is refused.
pub open spec fn sign_spec(key_hex: Seq<char>, data: Seq<u8>) -> Result<Seq<char>, CryptoError> {
    match hex_decode(key_hex) {
        Some(Ok(k)) => if k.len() < 32 {
            Err(CryptoError::PrivateKeyTooShort)
        } else if data.len() < 64 {
            Err(CryptoError::SnapshotTooSmall)
        } else {
            Ok(hex_encode(ed25519_signature_of(key32(k), sha256_of(data))))
        },
        _ => Err(CryptoError::BadHex),
    }
}

fn first_bytes(v: &[u8], n: usize) -> (r: Vec<u8>)
    requires
        n <= v.len(),
    ensures
        r@ == v@.take(n as int),
{
    let mut r: Vec<u8> = Vec::new();
    let mut i: usize = 0;
    while i < n
        invariant
            i <= n <= v.len(),
            r@ == v@.take(i as int),
        decreases n - i,
    {
        r.push(v[i]);
        i = i + 1;
        assert(r@ =~= v@.take(i as int));
    }
    r
}

/// Signs a snapshot: `key_hex` is the text of the private key file,
/// `data` the snapshot's bytes; the result is the text of the signature
/// file.
pub fn sign_snapshot(key_hex: &str, data: &[u8]) -> (r: Result<String, CryptoError>)
    requires
        hex_decode(key_hex@) is Some,
    ensures
        match r {
            Ok(s) => sign_spec(key_hex@, data@) == Ok::<Seq<char>, CryptoError>(s@),
            Err(e) => sign_spec(key_hex@, data@) == Err::<Seq<char>, CryptoError>(e),
        },
        r is Ok ==> ({
            let k = key32(hex_decode(key_hex@)->Some_0->Ok_0);
            let sig = ed25519_signature_of(k, sha256_of(data@));
            sig.len() == 64 && ed25519_accepts(ed25519_public_of(k), sha256_of(data@), sig)
        }),
{
    let k = match decode(key_hex) {
        Ok(k) => k,
        Err(_) => {
            return Err(CryptoError::BadHex);
        },
    };
    if k.len() < 32 {
        return Err(CryptoError::PrivateKeyTooShort);
    }
    if data.len() < 64 {
        return Err(CryptoError::SnapshotTooSmall);
    }
    let secret = first_bytes(k.as_slice(), 32);
    let digest = sha256(data);
    let sig = ed25519_sign(secret.as_slice(), digest.as_slice());
    Ok(encode(sig.as_slice()))
}

/// The checks before the digest: both texts decode, the key has 32
/// bytes that form a point, the signature has 64 bytes.
pub open spec fn verify_prechecks(key_hex: Seq<char>, sig_hex: Seq<char>) -> Result<(Seq<u8>, Seq<u8>), CryptoError> {
    match hex_decode(key_hex) {
        Some(Ok(k)) => if k.len() < 32 {
            Err(CryptoError::PublicKeyTooShort)
        } else if !ed25519_point_valid(key32(k)) {
            Err(CryptoError::InvalidPublicKey)
        } else {
            match hex_decode(sig_hex) {
                Some(Ok(s)) => if s.len() < 64 {
                    Err(CryptoError::SignatureTooShort)
                } else {
                    Ok((key32(k), s.take(64)))
                },
                _ => Err(CryptoError::BadHex),
            }
        },
        _ => Err(CryptoError::BadHex),
    }
}

/// What checking gives: the prechecks, then whether the signature verifies
/// on the SHA-256 digest of the whole snapshot, which must hold at least its
/// 64-byte header.
pub open spec fn verify_spec(key_hex: Seq<char>, sig_hex: Seq<char>, data: Seq<u8>) -> Result<(), CryptoError> {
    match verify_prechecks(key_hex, sig_hex) {
        Ok((k, s)) => if data.len() < 64 {
            Err(CryptoError::SnapshotTooSmall)
        } else if ed25519_accepts(k, sha256_of(data), s) {
            Ok(())
        } else {
            Err(CryptoError::SignatureMismatch)
        },
        Err(e) => Err(e),
    }
}

/// The inputs on which checking a signature runs to its end: the key text
/// can be cut into two-byte groups, so can the signature text once the key
/// is a point.
pub open spec fn verify_defined(key_hex: Seq<char>, sig_hex: Seq<char>, data: Seq<u8>) -> bool {
    &&& hex_decode(key_hex) is Some
    &&& (hex_decode(key_hex) matches Some(Ok(k)) && k.len() >= 32 && ed25519_point_valid(key32(k)))
        ==> hex_decode(sig_hex) is Some
}

/// Whether checking a signature runs to its end on these inputs.
fn verify_runs(key_hex: &str, sig_hex: &str, data: &[u8]) -> (b: bool)
    ensures
        b == verify_defined(key_hex@, sig_hex@, data@),
{
    match try_decode(key_hex) {
        None => false,
        Some(Err(_)) => true,
        Some(Ok(k)) => {
            if k.len() < 32 {
                return true;
            }
            let public = first_bytes(k.as_slice(), 32);
            if !ed25519_public_key_ok(public.as_slice()) {
                return true;
            }
            match try_decode(sig_hex) {
                None => false,
                Some(Err(_)) => true,
                Some(Ok(_)) => true,
            }
        },
    }
}

/// Checks a snapshot's signature on any input: `None` where the texts or
/// the snapshot are too malformed for the check to run to its end, else the
/// check's outcome.
pub fn try_verify_snapshot(key_hex: &str, sig_hex: &str, data: &[u8]) -> (r: Option<Result<(), CryptoError>>)
    ensures
        r is Some <==> verify_defined(key_hex@, sig_hex@, data@),
        r matches Some(v) ==> v == verify_spec(key_hex@, sig_hex@, data@),
{
    if verify_runs(key_hex, sig_hex, data) {
        Some(verify_snapshot(key_hex, sig_hex, data))
    } else {
        None
    }
}

/// Checks a snapshot's signature: `key_hex` is the text of the public key
/// file, `sig_hex` that of the signature file, `data` the snapshot's bytes.
pub fn verify_snapshot(key_hex: &str, sig_hex: &str, data: &[u8]) -> (r: Result<(), CryptoError>)
    requires
        verify_defined(key_hex@, sig_hex@, data@),
    ensures
        r == verify_spec(key_hex@, sig_hex@, data@),
{
    let k = match decode(key_hex) {
        Ok(k) => k,
        Err(_) => {
            return Err(CryptoError::BadHex);
        },
    };
    if k.len() < 32 {
        return Err(CryptoError::PublicKeyTooShort);
    }
    let public = first_bytes(k.as_slice(), 32);
    if !ed25519_public_key_ok(public.as_slice()) {
        return Err(CryptoError::InvalidPublicKey);
    }
    let s = match decode(sig_hex) {
        Ok(s) => s,
        Err(_) => {
            return Err(CryptoError::BadHex);
        },
    };
    if s.len() < 64 {
        return Err(CryptoError::SignatureTooShort);
    }
    let sig = first_bytes(s.as_slice(), 64);
    if data.len() < 64 {
        return Err(CryptoError::SnapshotTooSmall);
    }
    let digest = sha256(data);
    if ed25519_verify(public.as_slice(), digest.as_slice(), sig.as_slice()) {
        Ok(())
    } else {
        Err(CryptoError::SignatureMismatch)
    }
}

/// The checks of a raw public key file: at least 32 bytes, whose first 32
/// are a curve point.
pub open spec fn key_file_check(bytes: Seq<u8>) -> Result<(), CryptoError> {
    if bytes.len() < 32 {
        Err(CryptoError::PublicKeyTooShort)
    } else if !ed25519_point_valid(key32(bytes)) {
        Err(CryptoError::InvalidPublicKey)
    } else {
        Ok(())
    }
}

/// Checks the bytes of a raw public key file.
pub fn check_public_key_file(bytes: &[u8]) -> (r: Result<(), CryptoError>)
    ensures
        r == key_file_check(bytes@),
{
    if bytes.len() < 32 {
        return Err(CryptoError::PublicKeyTooShort);
    }
    let public = first_bytes(bytes, 32);
    if ed25519_public_key_ok(public.as_slice()) {
        Ok(())
    } else {
        Err(CryptoError::InvalidPublicKey)
    }
}

/// The hex texts of a key pair made from a 32-byte secret key: the private
/// key file's text and the public key file's text.
pub fn keypair_hex(secret: &[u8]) -> (r: (String, String))
    requires
        secret@.len() == 32,
    ensures
        r.0@ == hex_encode(secret@),
        r.1@ == hex_encode(ed25519_public_of(secret@)),
        ed25519_public_of(secret@).len() == 32,
        ed25519_point_valid(ed25519_public_of(secret@)),
{
    let public = ed25519_public_key(secret);
    (encode(secret), encode(public.as_slice()))
}

// ---------------------------------------------------------------------------
// Laws
// ---------------------------------------------------------------------------

proof fn lemma_hex_digit(v: int)
    requires
        0 <= v < 16,
    ensures
        crate::text::digit_val(hex_digit(v), 16) == v,
        !crate::text::is_ws(hex_digit(v)),
        is_ascii_char(hex_digit(v)),
        hex_digit(v) != '+',
{
}

proof fn lemma_hex_encode_front(bs: Seq<u8>)
    requires
        bs.len() > 0,
    ensures
        hex_encode(bs) == seq![hex_digit((bs[0] / 16) as int), hex_digit((bs[0] % 16) as int)]
            + hex_encode(bs.drop_first()),
    decreases bs.len(),
{
    if bs.len() > 1 {
        lemma_hex_encode_front(bs.drop_last());
        assert(bs.drop_last().drop_first() =~= bs.drop_first().drop_last());
        assert(bs.drop_last()[0] == bs[0]);
        assert(bs.drop_first().last() == bs.last());
    } else {
        assert(bs.drop_first() =~= Seq::<u8>::empty());
        assert(bs.drop_last() =~= Seq::<u8>::empty());
    }
}

proof fn lemma_hex_encode_chars(bs: Seq<u8>)
    ensures
        hex_encode(bs).len() == 2 * bs.len(),
        forall|i: int| 0 <= i < hex_encode(bs).len() ==> !crate::text::is_ws(#[trigger] hex_encode(bs)[i]),
    decreases bs.len(),
{
    if bs.len() > 0 {
        lemma_hex_encode_chars(bs.drop_last());
        let b = bs.last();
        lemma_hex_digit((b / 16) as int);
        lemma_hex_digit((b % 16) as int);
        let p = hex_encode(bs.drop_last());
        let q = seq![hex_digit((b / 16) as int), hex_digit((b % 16) as int)];
        assert forall|i: int| 0 <= i < (p + q).len() implies !crate::text::is_ws(#[trigger] (p + q)[i]) by {
            if i < p.len() {
                assert((p + q)[i] == p[i]);
            } else {
                assert((p + q)[i] == q[i - p.len()]);
            }
        }
    }
}

proof fn lemma_hex_decode_encode(bs: Seq<u8>)
    ensures
        hex_decode_chars(hex_encode(bs)) == Some(Ok::<Seq<u8>, HexError>(bs)),
    decreases bs.len(),
{
    if bs.len() == 0 {
        assert(hex_encode(bs) =~= Seq::<char>::empty());
        assert(bs =~= Seq::<u8>::empty());
    } else {
        lemma_hex_encode_front(bs);
        lemma_hex_decode_encode(bs.drop_first());
        let b = bs[0];
        let hi = hex_digit((b / 16) as int);
        let lo = hex_digit((b % 16) as int);
        lemma_hex_digit((b / 16) as int);
        lemma_hex_digit((b % 16) as int);
        let cs = hex_encode(bs);
        let pair = seq![hi, lo];
        assert(cs.take(2) =~= pair);
        assert(cs.skip(2) =~= hex_encode(bs.drop_first()));
        assert(crate::text::all_digits(pair, 16));
        assert(pair.drop_last() =~= seq![hi]);
        assert(seq![hi].drop_last() =~= Seq::<char>::empty());
        assert(crate::text::digits_value(Seq::<char>::empty(), 16) == 0);
        assert(crate::text::digits_value(seq![hi], 16) == crate::text::digits_value(seq![hi].drop_last(), 16) * 16 + crate::text::digit_val(hi, 16));
        assert(crate::text::digits_value(seq![hi], 16) == b / 16);
        assert(pair.last() == lo);
        assert(crate::text::digits_value(pair, 16) == crate::text::digits_value(pair.drop_last(), 16) * 16 + crate::text::digit_val(lo, 16));
        assert(crate::text::digits_value(pair, 16) == (b / 16) * 16 + b % 16);
        assert(parse_unsigned(pair, 16, 255) == Some(b as int));
        assert(seq![b as u8] + bs.drop_first() =~= bs);
        assert(cs[0] == hi && cs[1] == lo);
        assert(cs.len() >= 2);
        assert(hex_decode_chars(cs) == Some(Ok::<Seq<u8>, HexError>(seq![((b as int) as u8)] + bs.drop_first())));
        assert(seq![((b as int) as u8)] + bs.drop_first() =~= bs);
    }
}

/// Hex text read back gives the bytes that were written: reading the text
/// of any byte string gives that byte string.
pub proof fn law_hex_round_trip(bs: Seq<u8>)
    ensures
        hex_decode(hex_encode(bs)) == Some(Ok::<Seq<u8>, HexError>(bs)),
{
    let cs = hex_encode(bs);
    lemma_hex_encode_chars(bs);
    crate::text::lemma_trim_start_skip(cs, 0);
    assert(cs.skip(0) =~= cs);
    assert(crate::text::trim_start(cs) == cs) by {
        if cs.len() > 0 {
            assert(!crate::text::is_ws(cs[0]));
        }
    }
    assert(crate::text::trim_end(cs) == cs) by {
        if cs.len() > 0 {
            assert(!crate::text::is_ws(cs[cs.len() - 1]));
        }
    }
    lemma_hex_decode_encode(bs);
}

proof fn lemma_hex_digit_of(c: char)
    requires
        crate::text::digit_val(c, 16) >= 0,
    ensures
        0 <= crate::text::digit_val(c, 16) < 16,
        hex_digit(crate::text::digit_val(c, 16)) == crate::text::ascii_lower(c),
{
    if '0' <= c && c <= '9' {
        assert(((('0' as u32) + (c as u32 - '0' as u32)) as char) == c);
    } else if 'a' <= c && c <= 'f' {
        assert(((('a' as u32) + (c as u32 - 'a' as u32)) as char) == c);
    } else {
        assert(((('a' as u32) + (c as u32 - 'A' as u32)) as char) == ((c as u32) + 32) as char);
    }
}

proof fn lemma_encode_decoded(cs: Seq<char>, bs: Seq<u8>)
    requires
        hex_decode_chars(cs) == Some(Ok::<Seq<u8>, HexError>(bs)),
        forall|i: int| 0 <= i < cs.len() ==> cs[i] != '+',
    ensures
        hex_encode(bs) == cs.map_values(|c: char| crate::text::ascii_lower(c)),
    decreases cs.len(),
{
    if cs.len() == 0 {
        assert(bs =~= Seq::<u8>::empty());
        assert(cs.map_values(|c: char| crate::text::ascii_lower(c)) =~= Seq::<char>::empty());
    } else {
        let pair = cs.take(2);
        let v = parse_unsigned(pair, 16, 255)->Some_0;
        assert(pair[0] == cs[0]);
        assert(pair[0] != '+');
        let rest = hex_decode_chars(cs.skip(2))->Some_0->Ok_0;
        lemma_encode_decoded(cs.skip(2), rest);
        assert(bs == seq![v as u8] + rest);
        let c0 = cs[0];
        let c1 = cs[1];
        assert(crate::text::all_digits(pair, 16));
        assert(crate::text::digit_val(pair[0], 16) >= 0);
        assert(crate::text::digit_val(pair[1], 16) >= 0);
        lemma_hex_digit_of(c0);
        lemma_hex_digit_of(c1);
        let a = crate::text::digit_val(c0, 16);
        let b = crate::text::digit_val(c1, 16);
        assert(pair.drop_last() =~= seq![c0]);
        assert(seq![c0].drop_last() =~= Seq::<char>::empty());
        assert(crate::text::digits_value(Seq::<char>::empty(), 16) == 0);
        assert(seq![c0].last() == c0);
        assert(crate::text::digits_value(seq![c0], 16) == crate::text::digits_value(seq![c0].drop_last(), 16) * 16
            + crate::text::digit_val(c0, 16));
        assert(crate::text::digits_value(seq![c0], 16) == a);
        assert(pair.last() == c1);
        assert(crate::text::digits_value(pair, 16) == crate::text::digits_value(pair.drop_last(), 16) * 16
            + crate::text::digit_val(c1, 16));
        assert(v == a * 16 + b);
        assert(v / 16 == a && v % 16 == b) by (nonlinear_arith)
            requires
                v == a * 16 + b,
                0 <= a < 16,
                0 <= b < 16,
        ;
        lemma_hex_encode_front(bs);
        assert(bs[0] == v as u8);
        assert(bs.drop_first() =~= rest);
        let f = |c: char| crate::text::ascii_lower(c);
        assert(cs.map_values(f) =~= seq![f(c0), f(c1)] + cs.skip(2).map_values(f));
    }
}

proof fn lemma_decode_digits(cs: Seq<char>)
    requires
        cs.len() % 2 == 0,
        forall|i: int| 0 <= i < cs.len() ==> crate::text::digit_val(#[trigger] cs[i], 16) >= 0,
    ensures
        hex_decode_chars(cs) matches Some(Ok(b)) && 2 * b.len() == cs.len(),
    decreases cs.len(),
{
    if cs.len() > 0 {
        let c0 = cs[0];
        let c1 = cs[1];
        assert(crate::text::digit_val(c0, 16) >= 0);
        assert(crate::text::digit_val(c1, 16) >= 0);
        lemma_hex_digit_of(c0);
        lemma_hex_digit_of(c1);
        let pair = cs.take(2);
        assert(pair[0] == c0 && pair[1] == c1);
        assert(crate::text::all_digits(pair, 16));
        assert(pair.drop_last() =~= seq![c0]);
        assert(seq![c0].drop_last() =~= Seq::<char>::empty());
        assert(crate::text::digits_value(Seq::<char>::empty(), 16) == 0);
        assert(seq![c0].last() == c0);
        assert(crate::text::digits_value(seq![c0], 16) == crate::text::digits_value(seq![c0].drop_last(), 16) * 16
            + crate::text::digit_val(c0, 16));
        assert(pair.last() == c1);
        assert(crate::text::digits_value(pair, 16) == crate::text::digits_value(pair.drop_last(), 16) * 16
            + crate::text::digit_val(c1, 16));
        assert(parse_unsigned(pair, 16, 255) is Some);
        let rest = cs.skip(2);
        assert forall|i: int| 0 <= i < rest.len() implies crate::text::digit_val(#[trigger] rest[i], 16) >= 0 by {
            assert(rest[i] == cs[i + 2]);
        }
        lemma_decode_digits(rest);
    }
}

/// Every text whose trimmed form is an even number of hex digits decodes,
/// to half as many bytes.
pub proof fn law_hex_digits_decode(s: Seq<char>)
    requires
        trim(s).len() % 2 == 0,
        forall|i: int| 0 <= i < trim(s).len() ==> crate::text::digit_val(#[trigger] trim(s)[i], 16) >= 0,
    ensures
        hex_decode(s) matches Some(Ok(b)) && 2 * b.len() == trim(s).len(),
{
    lemma_decode_digits(trim(s));
}

/// Writing read hex text gives that text back trimmed and in lower case:
/// for key or signature text that decodes, re-encoding the bytes gives the
/// text without its surrounding white space, letters lowered. (A `+` before
/// a digit pair is also read, as a sign, and is not written back.)
pub proof fn law_hex_encode_of_decoded(s: Seq<char>, bs: Seq<u8>)
    requires
        hex_decode(s) == Some(Ok::<Seq<u8>, HexError>(bs)),
        forall|i: int| 0 <= i < trim(s).len() ==> trim(s)[i] != '+',
    ensures
        hex_encode(bs) == trim(s).map_values(|c: char| crate::text::ascii_lower(c)),
{
    lemma_encode_decoded(trim(s), bs);
}

/// Signing a snapshot and checking the signature with the matching public
/// key succeeds: the texts the library writes are read back exactly, so the
/// check sees the very key, digest and signature that signing used.  The
/// requires are the Ed25519 facts about the key pair and the signature that
/// `keypair_hex` and `sign_snapshot` establish for the keys and signatures
/// they make.
pub proof fn law_sign_then_verify(secret: Seq<u8>, data: Seq<u8>)
    requires
        secret.len() == 32,
        data.len() >= 64,
        ed25519_public_of(secret).len() == 32,
        ed25519_signature_of(secret, sha256_of(data)).len() == 64,
        ed25519_point_valid(ed25519_public_of(secret)),
        ed25519_accepts(
            ed25519_public_of(secret),
            sha256_of(data),
            ed25519_signature_of(secret, sha256_of(data)),
        ),
    ensures
        sign_spec(hex_encode(secret), data) == Ok::<Seq<char>, CryptoError>(
            hex_encode(ed25519_signature_of(secret, sha256_of(data))),
        ),
        verify_spec(
            hex_encode(ed25519_public_of(secret)),
            hex_encode(ed25519_signature_of(secret, sha256_of(data))),
            data,
        ) == Ok::<(), CryptoError>(()),
{
    let public = ed25519_public_of(secret);
    let sig = ed25519_signature_of(secret, sha256_of(data));
    law_hex_round_trip(secret);
    law_hex_round_trip(public);
    law_hex_round_trip(sig);
    assert(secret.take(32) =~= secret);
    assert(public.take(32) =~= public);
    assert(sig.take(64) =~= sig);
}

} // verus!
