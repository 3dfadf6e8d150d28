//! Image bytes given as base64 text.

use base64::Engine;
use vstd::prelude::*;

verus! {

/// The symbol of a six-bit number.
pub open spec fn symbol(n: int) -> char {
    if n < 26 {
        ('A' as int + n) as char
    } else if n < 52 {
        ('a' as int + (n - 26)) as char
    } else if n < 62 {
        ('0' as int + (n - 52)) as char
    } else if n == 62 {
        '+'
    } else {
        '/'
    }
}

/// The number of a symbol's place: the upper six bits of three bytes, and so on
/// down.
pub open spec fn sextet(a: u8, b: u8, c: u8, i: int) -> int {
    let n = (a as int * 256 + b as int) * 256 + c as int;
    if i == 0 {
        n / 0x4_0000
    } else if i == 1 {
        n / 0x1000 % 64
    } else if i == 2 {
        n / 64 % 64
    } else {
        n % 64
    }
}

/// The base64 text of the bytes: four symbols for three bytes, the last group
/// filled up with zero bits and padded.
pub open spec fn base64_of(bytes: Seq<u8>) -> Seq<char>
    decreases bytes.len(),
{
    if bytes.len() == 0 {
        Seq::empty()
    } else if bytes.len() == 1 {
        let a = bytes[0];
        seq![symbol(sextet(a, 0, 0, 0)), symbol(sextet(a, 0, 0, 1)), '=', '=']
    } else if bytes.len() == 2 {
        let (a, b) = (bytes[0], bytes[1]);
        seq![
            symbol(sextet(a, b, 0, 0)),
            symbol(sextet(a, b, 0, 1)),
            symbol(sextet(a, b, 0, 2)),
            '=',
        ]
    } else {
        let (a, b, c) = (bytes[0], bytes[1], bytes[2]);
        seq![
            symbol(sextet(a, b, c, 0)),
            symbol(sextet(a, b, c, 1)),
            symbol(sextet(a, b, c, 2)),
            symbol(sextet(a, b, c, 3)),
        ] + base64_of(bytes.skip(3))
    }
}

/// Why a text is no base64.
#[derive(Clone, Copy, Debug, PartialEq, Eq, Structural)]
pub enum Base64Fault {
    /// A byte that is no symbol, and where it stands.
    Symbol(usize, u8),
    /// The number of symbols cannot be.
    Length(usize),
    /// The last symbol has bits that stand for nothing, and where it stands.
    LastSymbol(usize, u8),
    /// The padding is not that of the length.
    Padding,
}

/// The error that the decoder gives for a text that is no base64.
pub uninterp spec fn base64_fault(text: Seq<char>) -> Base64Fault;

/// `base64::Engine::decode` of `base64::engine::general_purpose::STANDARD`, the
/// alphabet of RFC 4648 with padding required. It is taken to return the bytes
/// whose base64 text this is, and an error for a text that is that of no bytes:
/// padding must be there, and the bits that the last symbol has to spare must be
/// zero. Which error comes is taken to depend on the text alone.
#[verifier::external_body]
fn standard_decode(text: &str) -> (r: Result<Vec<u8>, Base64Fault>)
    ensures
        r matches Ok(bytes) ==> base64_of(bytes@) == text@,
        r is Err ==> forall|bytes: Seq<u8>| #[trigger] base64_of(bytes) != text@,
        r matches Err(fault) ==> fault == base64_fault(text@),
{
    base64::engine::general_purpose::STANDARD.decode(text.as_bytes()).map_err(|e| match e {
        base64::DecodeError::InvalidByte(at, byte) => Base64Fault::Symbol(at, byte),
        base64::DecodeError::InvalidLength(n) => Base64Fault::Length(n),
        base64::DecodeError::InvalidLastSymbol(at, byte) => Base64Fault::LastSymbol(at, byte),
        base64::DecodeError::InvalidPadding => Base64Fault::Padding,
    })
}

/// The bytes that a base64 text stands for, or the decoder's error.
pub fn decode_base64(text: &str) -> (r: Result<Vec<u8>, Base64Fault>)
    ensures
        r matches Ok(bytes) ==> base64_of(bytes@) == text@,
        r is Err <==> forall|bytes: Seq<u8>| #[trigger] base64_of(bytes) != text@,
        r matches Err(fault) ==> fault == base64_fault(text@),
{
    standard_decode(text)
}

// ---- laws ----

proof fn lemma_symbols_differ(m: int, n: int)
    requires
        0 <= m < 64,
        0 <= n < 64,
        symbol(m) == symbol(n),
    ensures
        m == n,
{
}

proof fn lemma_symbol_no_padding(n: int)
    requires
        0 <= n < 64,
    ensures
        symbol(n) != '=',
{
}

proof fn lemma_digits(n: int)
    requires
        0 <= n < 0x100_0000,
    ensures
        0 <= n / 0x4_0000 < 64,
        n == ((n / 0x4_0000 * 64 + n / 0x1000 % 64) * 64 + n / 64 % 64) * 64 + n % 64,
{
    let p = n / 64;
    let q = n / 0x1000;
    let r = n / 0x4_0000;
    assert(n == p * 64 + n % 64);
    assert(p / 64 == q);
    assert(p == q * 64 + p % 64);
    assert(q / 64 == r);
    assert(q == r * 64 + q % 64);
}

proof fn lemma_sextets(a: u8, b: u8, c: u8)
    ensures
        0 <= sextet(a, b, c, 0) < 64,
        0 <= sextet(a, b, c, 1) < 64,
        0 <= sextet(a, b, c, 2) < 64,
        0 <= sextet(a, b, c, 3) < 64,
        (a as int * 256 + b as int) * 256 + c as int == ((sextet(a, b, c, 0) * 64 + sextet(
            a,
            b,
            c,
            1,
        )) * 64 + sextet(a, b, c, 2)) * 64 + sextet(a, b, c, 3),
{
    let n = (a as int * 256 + b as int) * 256 + c as int;
    lemma_digits(n);
}

proof fn lemma_group(a: u8, b: u8, c: u8, x: u8, y: u8, z: u8)
    requires
        symbol(sextet(a, b, c, 0)) == symbol(sextet(x, y, z, 0)),
        symbol(sextet(a, b, c, 1)) == symbol(sextet(x, y, z, 1)),
        symbol(sextet(a, b, c, 2)) == symbol(sextet(x, y, z, 2)),
        symbol(sextet(a, b, c, 3)) == symbol(sextet(x, y, z, 3)),
    ensures
        a == x && b == y && c == z,
{
    lemma_sextets(a, b, c);
    lemma_sextets(x, y, z);
    lemma_symbols_differ(sextet(a, b, c, 0), sextet(x, y, z, 0));
    lemma_symbols_differ(sextet(a, b, c, 1), sextet(x, y, z, 1));
    lemma_symbols_differ(sextet(a, b, c, 2), sextet(x, y, z, 2));
    lemma_symbols_differ(sextet(a, b, c, 3), sextet(x, y, z, 3));
}

/// Different bytes have different texts: what `decode_base64` returns for the
/// text of some bytes is these bytes.
pub proof fn law_base64_reads_back(a: Seq<u8>, b: Seq<u8>)
    requires
        base64_of(a) == base64_of(b),
    ensures
        a == b,
    decreases a.len(),
{
    let (s, t) = (base64_of(a), base64_of(b));
    if a.len() == 0 || b.len() == 0 {
        assert(a.len() > 0 ==> s.len() >= 4);
        assert(b.len() > 0 ==> t.len() >= 4);
        assert(a =~= b);
    } else {
        let (p, q) = (group(a), group(b));
        lemma_head(a);
        lemma_head(b);
        assert(s[0] == t[0] && s[1] == t[1] && s[2] == t[2] && s[3] == t[3]);
        lemma_sextets(p.0, p.1, p.2);
        lemma_sextets(q.0, q.1, q.2);
        lemma_symbol_no_padding(sextet(p.0, p.1, p.2, 2));
        lemma_symbol_no_padding(sextet(p.0, p.1, p.2, 3));
        lemma_symbol_no_padding(sextet(q.0, q.1, q.2, 2));
        lemma_symbol_no_padding(sextet(q.0, q.1, q.2, 3));
        lemma_group(p.0, p.1, p.2, q.0, q.1, q.2);
        if a.len() >= 3 {
            assert(base64_of(a.skip(3)) =~= s.skip(4));
            assert(base64_of(b.skip(3)) =~= t.skip(4));
            law_base64_reads_back(a.skip(3), b.skip(3));
            assert(a =~= seq![p.0, p.1, p.2] + a.skip(3));
            assert(b =~= seq![q.0, q.1, q.2] + b.skip(3));
        } else {
            assert(a =~= b);
        }
    }
}

/// The first three bytes, zeros where there are fewer.
spec fn group(a: Seq<u8>) -> (u8, u8, u8) {
    (
        a[0],
        if a.len() > 1 {
            a[1]
        } else {
            0
        },
        if a.len() > 2 {
            a[2]
        } else {
            0
        },
    )
}

/// The first four symbols show the first three bytes, and how many there are.
proof fn lemma_head(a: Seq<u8>)
    requires
        a.len() > 0,
    ensures
        ({
            let s = base64_of(a);
            let p = group(a);
            &&& s.len() >= 4
            &&& s[0] == symbol(sextet(p.0, p.1, p.2, 0))
            &&& s[1] == symbol(sextet(p.0, p.1, p.2, 1))
            &&& s[2] == if a.len() >= 2 {
                symbol(sextet(p.0, p.1, p.2, 2))
            } else {
                '='
            }
            &&& s[3] == if a.len() >= 3 {
                symbol(sextet(p.0, p.1, p.2, 3))
            } else {
                '='
            }
            &&& a.len() < 3 ==> sextet(p.0, p.1, p.2, 3) == 0
            &&& a.len() < 2 ==> sextet(p.0, p.1, p.2, 2) == 0
        }),
{
}

} // verus!
