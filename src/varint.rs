use vstd::prelude::*;
use crate::error::Error;
use crate::take::{lemma_progressed_by, Take};

verus! {

/// The base-128 encoding of `v`: seven bits per byte, least significant
/// group first, with the high bit set on every byte but the last.
pub open spec fn varint_bytes(v: nat) -> Seq<u8>
    decreases v,
{
    if v < 128 {
        seq![v as u8]
    } else {
        seq![(v % 128 + 128) as u8] + varint_bytes(v / 128)
    }
}

/// Reads one varint off the front of `s`: its value and how many bytes it
/// spans, or `None` when `s` ends before a byte without the high bit.
pub open spec fn parse_varint(s: Seq<u8>) -> Option<(nat, nat)>
    decreases s.len(),
{
    if s.len() == 0 {
        None
    } else if s[0] < 128 {
        Some((s[0] as nat, 1))
    } else {
        match parse_varint(s.drop_first()) {
            Some((v, n)) => Some((((s[0] - 128) + 128 * v) as nat, n + 1)),
            None => None,
        }
    }
}

/// The number of base-128 digits of `v`: the length of its encoding.
pub open spec fn varint_size(v: nat) -> nat
    decreases v,
{
    if v < 128 {
        1
    } else {
        1 + varint_size(v / 128)
    }
}

/// The computed length agrees with the encoding.
pub proof fn lemma_varint_size(v: nat)
    ensures
        varint_size(v) == varint_bytes(v).len(),
    decreases v,
{
    if v >= 128 {
        lemma_varint_size(v / 128);
    }
}

/// What reading a varint off the front of `s` yields: `Ok(None)` for an empty
/// input, the value and the bytes it spans, or the error. A varint must end
/// within ten bytes and fit in 64 bits.
pub open spec fn varint_outcome(s: Seq<u8>) -> Result<Option<(u64, nat)>, Error> {
    if s.len() == 0 {
        Ok(None)
    } else {
        let window = if s.len() < 10 { s } else { s.take(10) };
        match parse_varint(window) {
            Some((v, n)) => if v <= u64::MAX {
                Ok(Some((v as u64, n)))
            } else {
                Err(Error::VarintOverflow)
            },
            None => if s.len() < 10 {
                Err(Error::UnexpectedEof)
            } else {
                Err(Error::VarintOverflow)
            },
        }
    }
}

/// A varint read spans at least one byte and no more than the input holds.
pub proof fn lemma_parse_len(s: Seq<u8>)
    ensures
        parse_varint(s) matches Some((v, n)) ==> 1 <= n <= s.len(),
    decreases s.len(),
{
    if s.len() > 0 && s[0] >= 128 {
        lemma_parse_len(s.drop_first());
    }
}

/// A successful varint read spans one to ten bytes of the input.
pub proof fn lemma_outcome_len(s: Seq<u8>)
    ensures
        varint_outcome(s) matches Ok(Some((v, n))) ==> 1 <= n <= s.len() && n <= 10,
{
    lemma_parse_len(varint_window(s));
}

/// The encoding of `v` is one to ten bytes long.
pub proof fn lemma_varint_len(v: u64)
    ensures
        1 <= varint_bytes(v as nat).len() <= 10,
        v < 128 <==> varint_bytes(v as nat).len() == 1,
{
    reveal_with_fuel(pow128, 11);
    assert(pow128(10) == 1180591620717411303424nat);
    lemma_varint_len_bound(v as nat, 10);
}

proof fn lemma_varint_len_bound(v: nat, k: nat)
    requires
        k >= 1,
        v < pow128(k),
    ensures
        1 <= varint_bytes(v).len() <= k,
        v < 128 <==> varint_bytes(v).len() == 1,
    decreases v,
{
    reveal_with_fuel(pow128, 2);
    if v >= 128 {
        assert(k >= 2) by {
            if k == 1 {
                assert(pow128(1) == 128);
            }
        };
        assert(v / 128 < pow128((k - 1) as nat)) by {
            assert(pow128(k) == 128 * pow128((k - 1) as nat));
        };
        lemma_varint_len_bound(v / 128, (k - 1) as nat);
    }
}

/// `128` to the power `k`.
pub open spec fn pow128(k: nat) -> nat
    decreases k,
{
    if k == 0 {
        1
    } else {
        128 * pow128((k - 1) as nat)
    }
}

proof fn lemma_pow128_monotone(i: nat, j: nat)
    requires
        i <= j,
    ensures
        pow128(i) <= pow128(j),
    decreases j,
{
    if i < j {
        lemma_pow128_monotone(i, (j - 1) as nat);
    }
}

/// Reading the encoding of `v` gives back `v`, and stops right after it.
pub proof fn lemma_varint_round_trip(v: nat, rest: Seq<u8>)
    ensures
        parse_varint(varint_bytes(v) + rest) == Some((v, varint_bytes(v).len())),
    decreases v,
{
    let s = varint_bytes(v) + rest;
    if v < 128 {
        assert(s[0] == v as u8);
    } else {
        lemma_varint_round_trip(v / 128, rest);
        assert(s.drop_first() =~= varint_bytes(v / 128) + rest);
        assert(s[0] == (v % 128 + 128) as u8);
    }
}

/// The number of bytes the encoding of `v` takes, computed without writing.
pub fn wire_len(v: u64) -> (r: usize)
    ensures
        r == varint_size(v as nat),
        r == varint_bytes(v as nat).len(),
        1 <= r <= 10,
{
    let mut n: usize = 1;
    let mut cur: u64 = v;
    proof {
        lemma_varint_len(v);
        lemma_varint_size(v as nat);
    }
    while cur >= 128
        invariant
            n + varint_bytes(cur as nat).len() - 1 == varint_bytes(v as nat).len(),
            varint_bytes(v as nat).len() <= 10,
            n >= 1,
        decreases cur,
    {
        proof {
            lemma_varint_len(cur);
        }
        cur = cur / 128;
        n = n + 1;
    }
    n
}

/// Appends the encoding of `v` to `dst`.
pub fn write_varint(v: u64, dst: &mut Vec<u8>)
    ensures
        final(dst)@ == old(dst)@ + varint_bytes(v as nat),
{
    let mut cur: u64 = v;
    while cur >= 128
        invariant
            dst@ + varint_bytes(cur as nat) == old(dst)@ + varint_bytes(v as nat),
        decreases cur,
    {
        let byte: u8 = (cur % 128 + 128) as u8;
        proof {
            assert(varint_bytes(cur as nat) == seq![byte] + varint_bytes((cur / 128) as nat));
            assert(dst@.push(byte) + varint_bytes((cur / 128) as nat) =~= dst@ + varint_bytes(
                cur as nat,
            ));
        }
        dst.push(byte);
        cur = cur / 128;
    }
    proof {
        assert(dst@.push(cur as u8) =~= dst@ + varint_bytes(cur as nat));
    }
    dst.push(cur as u8);
}

/// The first ten bytes of `s`, or all of it when shorter: the bytes a
/// varint read may look at.
pub open spec fn varint_window(s: Seq<u8>) -> Seq<u8> {
    if s.len() < 10 {
        s
    } else {
        s.take(10)
    }
}

/// A parse of the bytes after the first `i` continuation bytes, carried back
/// to the whole input, given the value `acc` of those `i` bytes.
spec fn carry(o: Option<(nat, nat)>, acc: nat, i: nat) -> Option<(nat, nat)> {
    match o {
        Some((v, n)) => Some((acc + pow128(i) * v, n + i)),
        None => None,
    }
}

/// Reads one varint off `src`.
///
/// Returns `Ok(None)`, with nothing read, when no byte is available; an
/// error when the input ends inside the varint or the varint overflows.
pub fn read_varint(src: &mut Take) -> (r: Result<Option<u64>, Error>)
    ensures
        match varint_outcome(old(src).available()) {
            Ok(None) => r == Ok::<Option<u64>, Error>(None) && final(src).rest() == old(
                src,
            ).rest() && final(src).budget() == old(src).budget(),
            Ok(Some((v, n))) => r == Ok::<Option<u64>, Error>(Some(v)) && final(src).rest()
                == old(src).rest().skip(n as int) && final(src).budget() == old(src).budget()
                - n,
            Err(e) => r == Err::<Option<u64>, Error>(e),
        },
        final(src).progressed(*old(src)),
{
    let ghost avail = old(src).available();
    let ghost w = varint_window(avail);
    let mut ret: u128 = 0;
    let mut mult: u128 = 1;
    let mut i: usize = 0;
    proof {
        assert(w.skip(0) =~= w);
        reveal_with_fuel(pow128, 11);
    }
    loop
        invariant
            i < 10,
            i <= avail.len(),
            avail == old(src).available(),
            w == varint_window(avail),
            mult == pow128(i as nat),
            ret < mult,
            pow128(10) == 1180591620717411303424nat,
            mult <= 9223372036854775808u128,
            parse_varint(w) == carry(parse_varint(w.skip(i as int)), ret as nat, i as nat),
            src.rest() == old(src).rest().skip(i as int),
            src.budget() == old(src).budget() - i,
            src.available() == avail.skip(i as int),
        decreases 10 - i,
    {
        let ghost before = *src;
        match src.read_byte() {
            None => {
                proof {
                    lemma_progressed_by(*old(src), *src, i as nat);
                }
                if i == 0 {
                    return Ok(None);
                }
                proof {
                    assert(before.available() == avail.skip(i as int));
                    assert(avail.len() == i);
                    assert(w == avail);
                    assert(w.skip(i as int).len() == 0);
                }
                return Err(Error::UnexpectedEof);
            },
            Some(b) => {
                let bits: u8 = if b >= 128 { b - 128 } else { b };
                proof {
                    assert(before.available() == avail.skip(i as int));
                    assert(avail.len() > i);
                    assert(b == avail[i as int]);
                    assert(w.len() > i);
                    assert(w[i as int] == avail[i as int]);
                    assert(w.skip(i as int)[0] == b);
                    assert(bits as nat * pow128(i as nat) <= 127 * pow128(i as nat))
                        by (nonlinear_arith)
                        requires bits <= 127;
                    assert(pow128((i + 1) as nat) == 128 * pow128(i as nat));
                }
                let next: u128 = ret + bits as u128 * mult;
                if b < 128 {
                    proof {
                        assert(parse_varint(w.skip(i as int)) == Some((b as nat, 1nat)));
                        assert(pow128(i as nat) * b == bits * mult) by (nonlinear_arith)
                            requires
                                bits == b,
                                mult == pow128(i as nat),
                        ;
                        assert(parse_varint(w) == Some((next as nat, (i + 1) as nat)));
                        assert(src.rest() =~= old(src).rest().skip(i + 1));
                        lemma_progressed_by(*old(src), *src, (i + 1) as nat);
                    }
                    if next > u64::MAX as u128 {
                        return Err(Error::VarintOverflow);
                    }
                    return Ok(Some(next as u64));
                }
                proof {
                    let t = w.skip(i as int);
                    assert(t.drop_first() =~= w.skip(i + 1));
                    let ghost o = parse_varint(w.skip(i + 1));
                    if o is Some {
                        let v = o->Some_0.0;
                        assert(ret + pow128(i as nat) * ((b - 128) + 128 * v) == next + pow128(
                            (i + 1) as nat,
                        ) * v) by (nonlinear_arith)
                            requires
                                next == ret + bits * pow128(i as nat),
                                bits == b - 128,
                                pow128((i + 1) as nat) == 128 * pow128(i as nat),
                        ;
                    }
                    assert(src.available() =~= avail.skip(i + 1));
                    assert(src.rest() =~= old(src).rest().skip(i + 1));
                    lemma_progressed_by(*old(src), *src, (i + 1) as nat);
                }
                proof {
                    if i + 1 < 10 {
                        lemma_pow128_monotone((i + 1) as nat, 9);
                    }
                }
                ret = next;
                mult = mult * 128;
                i = i + 1;
                if i == 10 {
                    proof {
                        assert(w.skip(10).len() == 0);
                    }
                    return Err(Error::VarintOverflow);
                }
            },
        }
    }
}

/// Reading the encoding of a 64-bit value, whatever follows it, gives the
/// value back and stops right after its encoding.
pub proof fn lemma_varint_outcome_encoded(v: u64, rest: Seq<u8>)
    ensures
        varint_outcome(varint_bytes(v as nat) + rest) == Ok::<Option<(u64, nat)>, Error>(
            Some((v, varint_bytes(v as nat).len())),
        ),
{
    let e = varint_bytes(v as nat);
    let s = e + rest;
    lemma_varint_len(v);
    let w = varint_window(s);
    if s.len() < 10 {
        lemma_varint_round_trip(v as nat, rest);
    } else {
        assert(w =~= e + rest.take(10 - e.len()));
        lemma_varint_round_trip(v as nat, rest.take(10 - e.len()));
    }
}

/// Unsigned integer types that travel on the wire as varints. Every width is
/// widened to 64 bits to be written; a value read back must fit the type.
pub trait Varint: Sized {
    /// The value as a mathematical integer.
    spec fn wire_value(&self) -> nat;

    /// The largest value of the type.
    spec fn max_wire_value() -> nat;

    /// The value widened to 64 bits.
    fn to_wire(&self) -> (r: u64)
        ensures
            r as nat == self.wire_value(),
    ;

    /// The value `v`, or `None` when it does not fit the type.
    fn from_wire(v: u64) -> (r: Option<Self>)
        ensures
            r is Some <==> v as nat <= Self::max_wire_value(),
            r matches Some(x) ==> x.wire_value() == v as nat,
    ;
}

impl Varint for u8 {
    open spec fn wire_value(&self) -> nat {
        *self as nat
    }

    open spec fn max_wire_value() -> nat {
        u8::MAX as nat
    }

    fn to_wire(&self) -> (r: u64) {
        *self as u64
    }

    fn from_wire(v: u64) -> (r: Option<u8>) {
        if v <= u8::MAX as u64 {
            Some(v as u8)
        } else {
            None
        }
    }
}

impl Varint for u16 {
    open spec fn wire_value(&self) -> nat {
        *self as nat
    }

    open spec fn max_wire_value() -> nat {
        u16::MAX as nat
    }

    fn to_wire(&self) -> (r: u64) {
        *self as u64
    }

    fn from_wire(v: u64) -> (r: Option<u16>) {
        if v <= u16::MAX as u64 {
            Some(v as u16)
        } else {
            None
        }
    }
}

impl Varint for u32 {
    open spec fn wire_value(&self) -> nat {
        *self as nat
    }

    open spec fn max_wire_value() -> nat {
        u32::MAX as nat
    }

    fn to_wire(&self) -> (r: u64) {
        *self as u64
    }

    fn from_wire(v: u64) -> (r: Option<u32>) {
        if v <= u32::MAX as u64 {
            Some(v as u32)
        } else {
            None
        }
    }
}

impl Varint for u64 {
    open spec fn wire_value(&self) -> nat {
        *self as nat
    }

    open spec fn max_wire_value() -> nat {
        u64::MAX as nat
    }

    fn to_wire(&self) -> (r: u64) {
        *self
    }

    fn from_wire(v: u64) -> (r: Option<u64>) {
        Some(v)
    }
}

impl Varint for usize {
    open spec fn wire_value(&self) -> nat {
        *self as nat
    }

    open spec fn max_wire_value() -> nat {
        usize::MAX as nat
    }

    fn to_wire(&self) -> (r: u64) {
        *self as u64
    }

    fn from_wire(v: u64) -> (r: Option<usize>) {
        if v <= usize::MAX as u64 {
            Some(v as usize)
        } else {
            None
        }
    }
}

} // verus!
