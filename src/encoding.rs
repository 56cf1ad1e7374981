use vstd::prelude::*;

verus! {

/// The lowercase hexadecimal digit for `n`, which is below sixteen.
pub open spec fn hex_digit(n: int) -> char {
    seq!['0', '1', '2', '3', '4', '5', '6', '7', '8', '9', 'a', 'b', 'c', 'd', 'e', 'f'][n]
}

/// Lowercase hexadecimal text of the bytes, two digits per byte, high digit first.
pub open spec fn hex_of(s: Seq<u8>) -> Seq<char>
    decreases s.len(),
{
    if s.len() == 0 {
        Seq::empty()
    } else {
        hex_of(s.drop_last()) + seq![hex_digit(s.last() as int / 16), hex_digit(s.last() as int % 16)]
    }
}

/// Whether `c` is a hexadecimal digit, in either case.
pub open spec fn is_hex_digit(c: char) -> bool {
    ('0' <= c && c <= '9') || ('a' <= c && c <= 'f') || ('A' <= c && c <= 'F')
}

/// The value of a hexadecimal digit.
pub open spec fn digit_value(c: char) -> int {
    if '0' <= c && c <= '9' {
        c as int - '0' as int
    } else if 'a' <= c && c <= 'f' {
        c as int - 'a' as int + 10
    } else {
        c as int - 'A' as int + 10
    }
}

/// Whether the text is an even number of hexadecimal digits.
pub open spec fn is_hex_text(s: Seq<char>) -> bool {
    s.len() % 2 == 0 && forall|i: int| 0 <= i < s.len() ==> is_hex_digit(#[trigger] s[i])
}

/// The bytes that hexadecimal text spells, one per pair of digits.
pub open spec fn decode_hex(s: Seq<char>) -> Seq<u8> {
    Seq::new(s.len() / 2, |i: int| (digit_value(s[2 * i]) * 16 + digit_value(s[2 * i + 1])) as u8)
}

/// The bytes in reverse order.
pub open spec fn reversed(s: Seq<u8>) -> Seq<u8> {
    Seq::new(s.len(), |i: int| s[s.len() - 1 - i])
}

/// Relies on `hex::encode`: two lowercase digits per byte, high digit first.
#[verifier::external_body]
pub(crate) fn hex_encode(b: &[u8]) -> (r: String)
    ensures
        r@ == hex_of(b@),
{
    ::hex::encode(b)
}

/// Relies on `hex::decode`: it accepts an even number of digits of either
/// case and yields one byte per pair, high digit first.
#[verifier::external_body]
pub(crate) fn hex_decode(s: &str) -> (r: Option<Vec<u8>>)
    ensures
        r is Some <==> is_hex_text(s@),
        r matches Some(v) ==> v@ == decode_hex(s@),
{
    ::hex::decode(s).ok()
}

/// The 32 bytes in reverse order.
pub fn reverse_hash(h: &[u8; 32]) -> (r: [u8; 32])
    ensures
        r@ == reversed(h@),
{
    let mut r: [u8; 32] = [0u8; 32];
    let mut i: usize = 0;
    while i < 32
        invariant
            h@.len() == 32,
            r@.len() == 32,
            i <= 32,
            forall|k: int| 0 <= k < i ==> r@[k] == h@[31 - k],
        decreases 32 - i,
    {
        r[i] = h[31 - i];
        i = i + 1;
    }
    assert(r@ =~= reversed(h@));
    r
}

/// A Merkle root as it is written into an election definition: its bytes
/// reversed, then hex-encoded.
pub fn root_hex(root: &[u8; 32]) -> (r: String)
    ensures
        r@ == hex_of(reversed(root@)),
{
    let rev = reverse_hash(root);
    hex_encode(&rev)
}

} // verus!
