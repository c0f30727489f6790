use vstd::prelude::*;

verus! {

/// The ASCII byte of the decimal digit `k`.
pub open spec fn digit_byte(k: nat) -> u8 {
    (48 + k) as u8
}

/// The decimal representation of `n`, as ASCII bytes, without leading zeros.
pub open spec fn decimal(n: nat) -> Seq<u8>
    decreases n,
{
    if n < 10 {
        seq![digit_byte(n)]
    } else {
        decimal(n / 10).push(digit_byte(n % 10))
    }
}

/// The lowercase hexadecimal SHA-256 digest of a byte string.
pub uninterp spec fn sha256_hex(bytes: Seq<u8>) -> Seq<char>;

/// The digest of a number: the SHA-256 digest of its decimal representation.
pub open spec fn digest_of(n: nat) -> Seq<char> {
    sha256_hex(decimal(n))
}

/// Relies on `sha256::digest` applied to a `Vec<u8>`: it hex-encodes the
/// SHA-256 digest of exactly these bytes, so the result depends on them alone.
#[verifier::external_body]
fn sha256_of_bytes(bytes: Vec<u8>) -> (r: String)
    ensures
        r@ == sha256_hex(bytes@),
{
    sha256::digest(bytes)
}

/// The decimal representation of `n` as ASCII bytes.
pub fn decimal_bytes(n: i32) -> (r: Vec<u8>)
    requires
        0 <= n,
    ensures
        r@ == decimal(n as nat),
{
    let mut m: i32 = n;
    let mut out: Vec<u8> = Vec::new();
    while m >= 10
        invariant
            0 <= m,
            decimal(n as nat) == decimal(m as nat) + out@,
        decreases m,
    {
        let d: u8 = (m % 10) as u8;
        proof {
            let mm = m as nat;
            assert(decimal(mm) == decimal(mm / 10).push(digit_byte(mm % 10)));
            assert(decimal(mm / 10).push(digit_byte(mm % 10)) + out@
                =~= decimal(mm / 10) + seq![digit_byte(mm % 10)].add(out@));
        }
        out.insert(0, 48 + d);
        m = m / 10;
    }
    let d: u8 = m as u8;
    out.insert(0, 48 + d);
    proof {
        assert(decimal(m as nat) == seq![digit_byte(m as nat)]);
    }
    assert(out@ =~= decimal(n as nat));
    out
}

/// The digest of `n`: the hexadecimal SHA-256 digest of its decimal form.
pub fn digest_of_number(n: i32) -> (r: String)
    requires
        0 <= n,
    ensures
        r@ == digest_of(n as nat),
{
    sha256_of_bytes(decimal_bytes(n))
}

} // verus!
