//! EBML variable-length integers: their byte layout as spec functions, and the
//! reader and writer of `ebml_iterable` behind contracts stated over them.
use vstd::prelude::*;
use ebml_iterable::tools as ebml_tools;
use ebml_iterable::tools::Vint;

verus! {

/// The largest value that the vint writer accepts.
pub const MAX_VINT_VALUE: u64 = 0xFF_FFFF_FFFF_FFFE;

/// Number of bytes of a vint whose first byte is `first`: one more than the
/// count of leading zero bits (9 for a zero byte, which starts no vint).
pub open spec fn vint_len(first: u8) -> nat {
    if first >= 0x80 {
        1
    } else if first >= 0x40 {
        2
    } else if first >= 0x20 {
        3
    } else if first >= 0x10 {
        4
    } else if first >= 0x08 {
        5
    } else if first >= 0x04 {
        6
    } else if first >= 0x02 {
        7
    } else if first >= 0x01 {
        8
    } else {
        9
    }
}

/// 2^(7 * len): the weight of the length marker in a vint of `len` bytes, and
/// one past the largest value such a vint holds.
pub open spec fn vint_bound(len: nat) -> nat {
    if len == 1 {
        0x80
    } else if len == 2 {
        0x4000
    } else if len == 3 {
        0x20_0000
    } else if len == 4 {
        0x1000_0000
    } else if len == 5 {
        0x8_0000_0000
    } else if len == 6 {
        0x400_0000_0000
    } else if len == 7 {
        0x2_0000_0000_0000
    } else if len == 8 {
        0x100_0000_0000_0000
    } else {
        0
    }
}

/// 256^k.
pub open spec fn pow256(k: nat) -> nat
    decreases k,
{
    if k == 0 {
        1
    } else {
        256 * pow256((k - 1) as nat)
    }
}

/// The unsigned big-endian number that the bytes `s` spell.
pub open spec fn be_value(s: Seq<u8>) -> nat
    decreases s.len(),
{
    if s.len() == 0 {
        0
    } else {
        be_value(s.drop_last()) * 256 + s.last() as nat
    }
}

/// The `len` lowest bytes of `n`, most significant first.
pub open spec fn be_bytes(n: nat, len: nat) -> Seq<u8>
    decreases len,
{
    if len == 0 {
        Seq::empty()
    } else {
        be_bytes(n / 256, (len - 1) as nat).push((n % 256) as u8)
    }
}

/// The `len`-byte vint that holds `val`: the value with the length marker added.
pub open spec fn vint_encoding(val: nat, len: nat) -> Seq<u8> {
    be_bytes(val + vint_bound(len), len)
}

/// The fewest bytes of a vint that holds `val`.
pub open spec fn minimal_vint_len(val: nat) -> nat {
    if val < vint_bound(1) {
        1
    } else if val < vint_bound(2) {
        2
    } else if val < vint_bound(3) {
        3
    } else if val < vint_bound(4) {
        4
    } else if val < vint_bound(5) {
        5
    } else if val < vint_bound(6) {
        6
    } else if val < vint_bound(7) {
        7
    } else {
        8
    }
}

/// What reading a vint at the start of `s` gives: `Ok(None)` when `s` ends
/// before the vint does, `Err` when the first byte is zero, else the value and
/// the number of bytes it took.
pub open spec fn vint_at_start(s: Seq<u8>) -> Result<Option<(u64, usize)>, ()> {
    if s.len() == 0 {
        Ok(None)
    } else if s[0] == 0 {
        Err(())
    } else if vint_len(s[0]) > s.len() {
        Ok(None)
    } else {
        let l = vint_len(s[0]);
        Ok(Some(((be_value(s.subrange(0, l as int)) - vint_bound(l)) as u64, l as usize)))
    }
}

/// Relies on `ebml_iterable::tools::read_vint`: it takes the length from the
/// leading zero bits of the first byte, fails on a zero first byte, gives
/// `None` on a buffer shorter than that length, and else the big-endian value
/// of that many bytes with the marker bit cleared.
#[verifier::external_body]
pub(crate) fn read_vint(buffer: &[u8]) -> (r: Result<Option<(u64, usize)>, ()>)
    ensures
        r == vint_at_start(buffer@),
{
    ebml_tools::read_vint(buffer).map_err(|_| ())
}

/// Relies on `Vint::as_vint_with_length` of `ebml_iterable` for `u64`: it fails
/// above `MAX_VINT_VALUE`, and else writes the `len` low bytes of `val`
/// big-endian with the marker bit `1 << (8 - len)` set in the first.
#[verifier::external_body]
pub(crate) fn write_vint(val: u64, len: usize) -> (r: Result<Vec<u8>, ()>)
    requires
        1 <= len <= 8,
        val < vint_bound(len as nat),
    ensures
        r is Err <==> val > MAX_VINT_VALUE,
        r matches Ok(bytes) ==> bytes@ == vint_encoding(val as nat, len as nat),
{
    val.as_vint_with_length(len).map_err(|_| ())
}


proof fn lemma_pow256_values()
    ensures
        pow256(0) == 1,
        pow256(1) == 0x100,
        pow256(2) == 0x1_0000,
        pow256(3) == 0x100_0000,
        pow256(4) == 0x1_0000_0000,
        pow256(5) == 0x100_0000_0000,
        pow256(6) == 0x1_0000_0000_0000,
        pow256(7) == 0x100_0000_0000_0000,
        pow256(8) == 0x1_0000_0000_0000_0000,
{
    reveal_with_fuel(pow256, 9);
}

proof fn lemma_div_range(n: int, c: int, a: int, b: int)
    requires
        c > 0,
        a * c <= n < b * c,
    ensures
        a <= n / c < b,
{
    assert(a <= n / c) by (nonlinear_arith)
        requires
            c > 0,
            a * c <= n,
    ;
    assert(n / c < b) by (nonlinear_arith)
        requires
            c > 0,
            n < b * c,
    ;
}

proof fn lemma_be_bytes_len(n: nat, len: nat)
    ensures
        be_bytes(n, len).len() == len,
    decreases len,
{
    if len > 0 {
        lemma_be_bytes_len(n / 256, (len - 1) as nat);
    }
}

/// Writing `n` on `len` bytes and reading it back gives `n`, when it fits.
proof fn lemma_be_value_of_bytes(n: nat, len: nat)
    requires
        n < pow256(len),
    ensures
        be_value(be_bytes(n, len)) == n,
    decreases len,
{
    if len > 0 {
        let k = (len - 1) as nat;
        assert(n / 256 < pow256(k)) by {
            lemma_div_range(n as int, 256, 0, pow256(k) as int);
        }
        lemma_be_value_of_bytes(n / 256, k);
        let s = be_bytes(n, len);
        assert(s.drop_last() == be_bytes(n / 256, k));
    }
}

/// Reading bytes as a number and writing it back on as many bytes gives them back.
proof fn lemma_bytes_of_be_value(s: Seq<u8>)
    ensures
        be_bytes(be_value(s), s.len()) == s,
    decreases s.len(),
{
    if s.len() > 0 {
        let t = s.drop_last();
        lemma_bytes_of_be_value(t);
        let n = be_value(s);
        assert(n / 256 == be_value(t));
        assert(n % 256 == s.last());
        assert(be_bytes(n, s.len()) =~= s);
    }
}

/// The number that bytes spell lies within the span that their first byte fixes.
proof fn lemma_be_value_range(s: Seq<u8>)
    requires
        s.len() >= 1,
    ensures
        s[0] * pow256((s.len() - 1) as nat) <= be_value(s),
        be_value(s) < (s[0] + 1) * pow256((s.len() - 1) as nat),
    decreases s.len(),
{
    if s.len() > 1 {
        let t = s.drop_last();
        lemma_be_value_range(t);
        let p = pow256((t.len() - 1) as nat);
        let v = be_value(t);
        let f = s[0] as int;
        let last = s.last() as int;
        assert(t[0] == s[0]);
        assert(be_value(s) == v * 256 + last);
        assert(pow256((s.len() - 1) as nat) == 256 * p);
        assert(f * (256 * p) <= v * 256 + last) by (nonlinear_arith)
            requires
                f * p <= v,
                last >= 0,
        ;
        assert(v * 256 + last < (f + 1) * (256 * p)) by (nonlinear_arith)
            requires
                v < (f + 1) * p,
                last < 256,
        ;
        assert(s[0] * pow256((s.len() - 1) as nat) == f * (256 * p));
    } else {
        assert(s.drop_last().len() == 0);
        assert(be_value(s.drop_last()) == 0);
        assert(s.last() == s[0]);
        assert(be_value(s) == s[0]);
        assert(pow256(0) == 1);
        assert((s.len() - 1) as nat == 0);
        assert(s[0] * pow256((s.len() - 1) as nat) == s[0]);
    }
}

/// The first byte of `len` big-endian bytes of `n` is `n` divided by 256^(len - 1).
proof fn lemma_be_bytes_first(n: nat, len: nat)
    requires
        len >= 1,
        n < pow256(len),
    ensures
        be_bytes(n, len)[0] == n / pow256((len - 1) as nat),
{
    lemma_be_bytes_len(n, len);
    lemma_be_value_of_bytes(n, len);
    lemma_be_value_range(be_bytes(n, len));
    let s = be_bytes(n, len);
    let p = pow256((len - 1) as nat);
    assert(p > 0) by {
        lemma_pow256_positive((len - 1) as nat);
    }
    lemma_div_range(n as int, p as int, s[0] as int, s[0] + 1);
}

proof fn lemma_pow256_positive(k: nat)
    ensures
        pow256(k) > 0,
    decreases k,
{
    if k > 0 {
        lemma_pow256_positive((k - 1) as nat);
    }
}

/// The first byte of a vint of `len` bytes that holds zero: the marker bit alone.
pub open spec fn marker_byte(len: nat) -> nat {
    if len == 1 {
        0x80
    } else if len == 2 {
        0x40
    } else if len == 3 {
        0x20
    } else if len == 4 {
        0x10
    } else if len == 5 {
        0x08
    } else if len == 6 {
        0x04
    } else if len == 7 {
        0x02
    } else {
        0x01
    }
}

/// The first bytes that announce a vint of `len` bytes run from the marker to
/// twice the marker, and the marker scaled by 256^(len - 1) is the bound.
proof fn lemma_marker_span(len: nat)
    requires
        1 <= len <= 8,
    ensures
        vint_bound(len) == marker_byte(len) * pow256((len - 1) as nat),
        2 * vint_bound(len) <= pow256(len),
        forall|b: u8| #[trigger] vint_len(b) == len <==> marker_byte(len) <= b < 2 * marker_byte(len),
{
    lemma_pow256_values();
    if len == 1 {
    } else if len == 2 {
    } else if len == 3 {
    } else if len == 4 {
    } else if len == 5 {
    } else if len == 6 {
    } else if len == 7 {
    } else {
    }
}

/// A vint written on `len` bytes, whatever follows it, reads back as the same
/// value and length.
pub proof fn lemma_vint_round_trip(val: nat, len: nat, rest: Seq<u8>)
    requires
        1 <= len <= 8,
        val < vint_bound(len),
    ensures
        vint_encoding(val, len).len() == len,
        vint_at_start(vint_encoding(val, len) + rest) == Ok::<Option<(u64, usize)>, ()>(
            Some((val as u64, len as usize)),
        ),
{
    let n = val + vint_bound(len);
    let e = vint_encoding(val, len);
    let s = e + rest;
    let p = pow256((len - 1) as nat);
    lemma_marker_span(len);
    lemma_be_bytes_len(n, len);
    lemma_be_value_of_bytes(n, len);
    lemma_be_bytes_first(n, len);
    let lo = marker_byte(len);
    lemma_pow256_positive((len - 1) as nat);
    assert((2 * lo) * p == 2 * (lo * p)) by (nonlinear_arith);
    lemma_div_range(n as int, p as int, lo as int, 2 * lo as int);
    assert(vint_len(s[0]) == len);
    assert(s.subrange(0, len as int) =~= e);
    lemma_pow256_values();
}

/// A vint that reads successfully holds less than its length's bound and is
/// exactly the encoding of what it holds.
pub proof fn lemma_vint_canonical(s: Seq<u8>)
    requires
        vint_at_start(s) is Ok,
        vint_at_start(s)->Ok_0 is Some,
    ensures
        ({
            let (v, l) = vint_at_start(s)->Ok_0->Some_0;
            &&& 1 <= l <= 8
            &&& l <= s.len()
            &&& l == vint_len(s[0])
            &&& v < vint_bound(l as nat)
            &&& vint_encoding(v as nat, l as nat) == s.subrange(0, l as int)
        }),
{
    let l = vint_len(s[0]);
    let t = s.subrange(0, l as int);
    let p = pow256((l - 1) as nat);
    lemma_marker_span(l);
    lemma_pow256_values();
    lemma_be_value_range(t);
    assert(t[0] == s[0]);
    let lo = marker_byte(l);
    assert(lo <= s[0] < 2 * lo);
    let b = be_value(t);
    assert(vint_bound(l) <= b < 2 * vint_bound(l)) by (nonlinear_arith)
        requires
            t[0] * p <= b < (t[0] + 1) * p,
            lo <= t[0] < 2 * lo,
            vint_bound(l) == lo * p,
    ;
    lemma_bytes_of_be_value(t);
}

/// The shortest vint length for a value is between one and eight bytes and
/// holds it.
pub proof fn lemma_minimal_vint_len(val: nat)
    ensures
        1 <= minimal_vint_len(val) <= 8,
        val <= MAX_VINT_VALUE ==> val < vint_bound(minimal_vint_len(val)),
        forall|l: nat| 1 <= l <= 8 && val < #[trigger] vint_bound(l) ==> minimal_vint_len(val) <= l,
{
}

/// The fewest bytes of a vint that holds `val`.
pub fn minimal_vint_length(val: u64) -> (r: usize)
    ensures
        r as nat == minimal_vint_len(val as nat),
{
    if val < 0x80 {
        1
    } else if val < 0x4000 {
        2
    } else if val < 0x20_0000 {
        3
    } else if val < 0x1000_0000 {
        4
    } else if val < 0x8_0000_0000 {
        5
    } else if val < 0x400_0000_0000 {
        6
    } else if val < 0x2_0000_0000_0000 {
        7
    } else {
        8
    }
}

} // verus!
