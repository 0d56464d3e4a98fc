//! Unsigned varints, the integer format of frame headers and lengths: base
//! 128, least significant group first, the high bit of every byte but the
//! last set.
use vstd::prelude::*;

verus! {

/// `128` to the power `n`.
pub open spec fn pow128(n: nat) -> nat
    decreases n,
{
    if n == 0 {
        1
    } else {
        128 * pow128((n - 1) as nat)
    }
}

/// The number whose base-128 digits, least significant first, are the low
/// seven bits of each byte.
pub open spec fn digits_value(s: Seq<u8>) -> nat
    decreases s.len(),
{
    if s.len() == 0 {
        0
    } else {
        (s[0] % 128) as nat + 128 * digits_value(s.drop_first())
    }
}

/// How many bytes the varint at the front of `s` spans: up to and including
/// the first byte whose high bit is clear, if there is one.
pub open spec fn varint_span(s: Seq<u8>) -> Option<nat>
    decreases s.len(),
{
    if s.len() == 0 {
        None
    } else if s[0] < 128 {
        Some(1)
    } else {
        match varint_span(s.drop_first()) {
            Some(n) => Some(n + 1),
            None => None,
        }
    }
}

/// What reading a varint from the front of a buffer gives.
#[derive(Eq, PartialEq, Structural, Debug, Clone, Copy)]
pub enum VarintRead {
    /// The buffer ends before the varint does.
    Incomplete,
    /// The varint runs past ten bytes or its value exceeds the bound.
    Overflow,
    /// The varint's value.
    Value(u64),
}

/// Reading a varint whose value may not exceed `max`.
pub open spec fn spec_read_varint(s: Seq<u8>, max: u64) -> VarintRead {
    match varint_span(s) {
        Some(n) => if n <= 10 && digits_value(s.take(n as int)) <= max {
            VarintRead::Value(digits_value(s.take(n as int)) as u64)
        } else {
            VarintRead::Overflow
        },
        None => if s.len() >= 10 {
            VarintRead::Overflow
        } else {
            VarintRead::Incomplete
        },
    }
}

/// The shortest varint for `v`.
pub open spec fn varint_encode(v: nat) -> Seq<u8>
    decreases v,
{
    if v < 128 {
        seq![v as u8]
    } else {
        seq![((v % 128) + 128) as u8] + varint_encode(v / 128)
    }
}

proof fn lemma_pow128_facts(n: nat)
    ensures
        pow128(n) >= 1,
        n >= 1 ==> pow128(n) >= 128,
        n == 8 ==> pow128(n) == 0x100_0000_0000_0000,
        n == 9 ==> pow128(n) == 0x8000_0000_0000_0000,
    decreases n,
{
    reveal_with_fuel(pow128, 11);
    if n > 0 {
        lemma_pow128_facts((n - 1) as nat);
    }
}

proof fn lemma_pow128_mono(a: nat, b: nat)
    requires
        a <= b,
    ensures
        pow128(a) <= pow128(b),
    decreases b,
{
    if a < b {
        lemma_pow128_mono(a, (b - 1) as nat);
        lemma_pow128_facts((b - 1) as nat);
    }
}

proof fn lemma_digits_push(t: Seq<u8>, b: u8)
    ensures
        digits_value(t.push(b)) == digits_value(t) + (b % 128) as nat * pow128(t.len()),
    decreases t.len(),
{
    if t.len() == 0 {
        assert(t.push(b).drop_first() =~= Seq::<u8>::empty());
        assert(digits_value(Seq::<u8>::empty()) == 0);
        assert(pow128(0) == 1);
        assert(t.push(b)[0] == b);
    } else {
        assert(t.push(b)[0] == t[0]);
        assert(t.push(b).drop_first() =~= t.drop_first().push(b));
        lemma_digits_push(t.drop_first(), b);
        let d = (b % 128) as nat;
        let p = pow128((t.len() - 1) as nat);
        let r = digits_value(t.drop_first());
        assert(digits_value(t.drop_first().push(b)) == r + d * p);
        assert(digits_value(t.push(b)) == (t[0] % 128) as nat + 128 * (r + d * p));
        assert(digits_value(t) == (t[0] % 128) as nat + 128 * r);
        assert(pow128(t.len()) == 128 * p);
        assert(128 * (r + d * p) == 128 * r + d * (128 * p)) by (nonlinear_arith);
    }
}

proof fn lemma_digits_bound(t: Seq<u8>)
    ensures
        digits_value(t) < pow128(t.len()),
    decreases t.len(),
{
    if t.len() > 0 {
        lemma_digits_bound(t.drop_first());
        let r = digits_value(t.drop_first());
        let p = pow128((t.len() - 1) as nat);
        assert(128 * r + 127 < 128 * p) by (nonlinear_arith)
            requires
                r < p,
        ;
    }
}

proof fn lemma_span_at(s: Seq<u8>, i: int)
    requires
        0 <= i < s.len(),
        s[i] < 128,
        forall|j: int| 0 <= j < i ==> s[j] >= 128,
    ensures
        varint_span(s) == Some((i + 1) as nat),
    decreases i,
{
    if i > 0 {
        assert(s[0] >= 128);
        let t = s.drop_first();
        assert forall|j: int| 0 <= j < i - 1 implies t[j] >= 128 by {
            assert(t[j] == s[j + 1]);
        }
        lemma_span_at(t, i - 1);
    }
}

proof fn lemma_span_none(s: Seq<u8>)
    requires
        forall|j: int| 0 <= j < s.len() ==> s[j] >= 128,
    ensures
        varint_span(s) == None::<nat>,
    decreases s.len(),
{
    if s.len() > 0 {
        let t = s.drop_first();
        assert forall|j: int| 0 <= j < t.len() implies t[j] >= 128 by {
            assert(t[j] == s[j + 1]);
        }
        lemma_span_none(t);
    }
}

/// Bytes of the varint's span, as the span's definition sees them.
proof fn lemma_span_facts(s: Seq<u8>)
    ensures
        varint_span(s) matches Some(n) ==> {
            &&& 1 <= n <= s.len()
            &&& s[n - 1] < 128
            &&& forall|j: int| 0 <= j < n - 1 ==> s[j] >= 128
        },
        varint_span(s) is None ==> forall|j: int| 0 <= j < s.len() ==> s[j] >= 128,
    decreases s.len(),
{
    if s.len() > 0 && s[0] >= 128 {
        let t = s.drop_first();
        lemma_span_facts(t);
        assert forall|j: int| 0 <= j < s.len() && varint_span(s) is None implies s[j] >= 128 by {
            if j > 0 {
                assert(s[j] == t[j - 1]);
            }
        }
        if let Some(n) = varint_span(s) {
            assert forall|j: int| 0 <= j < n - 1 implies s[j] >= 128 by {
                if j > 0 {
                    assert(s[j] == t[j - 1]);
                }
            }
            assert(s[n - 1] == t[n - 2]);
        }
    }
}

/// Reads the varint at the front of `bytes`, whose value may not exceed `max`.
pub fn read_varint(bytes: &[u8], max: u64) -> (r: VarintRead)
    ensures
        r == spec_read_varint(bytes@, max),
{
    let mut value: u64 = 0;
    let mut mult: u64 = 1;
    let mut i: usize = 0;
    proof {
        reveal_with_fuel(pow128, 1);
        assert(bytes@.take(0) =~= Seq::<u8>::empty());
    }
    while i < bytes.len()
        invariant
            i <= 9,
            i <= bytes@.len(),
            forall|j: int| 0 <= j < i ==> bytes@[j] >= 128,
            value == digits_value(bytes@.take(i as int)),
            mult == pow128(i as nat),
            value < mult,
        decreases bytes@.len() - i,
    {
        let b = bytes[i];
        let ghost s = bytes@;
        proof {
            lemma_pow128_mono(i as nat, 9);
            lemma_pow128_facts(9);
            assert(s.take(i + 1) =~= s.take(i as int).push(b));
            lemma_digits_push(s.take(i as int), b);
            assert(s.take(i as int).len() == i);
        }
        let digit: u64 = (b % 128) as u64;
        assert(digit * mult <= 127 * 0x8000_0000_0000_0000) by (nonlinear_arith)
            requires
                digit < 128,
                mult <= 0x8000_0000_0000_0000,
        ;
        let total: u128 = value as u128 + (digit as u128) * (mult as u128);
        assert(total == digits_value(s.take(i + 1)));
        if b < 128 {
            proof {
                lemma_span_at(s, i as int);
            }
            if total <= max as u128 {
                return VarintRead::Value(total as u64);
            } else {
                return VarintRead::Overflow;
            }
        }
        if i == 9 {
            proof {
                lemma_span_facts(s);
                if let Some(n) = varint_span(s) {
                    assert(n > 10) by {
                        if n <= 10 {
                            assert(s[n - 1] < 128);
                        }
                    }
                }
            }
            return VarintRead::Overflow;
        }
        proof {
            lemma_pow128_mono((i + 1) as nat, 9);
            lemma_digits_bound(s.take(i + 1));
            assert(pow128((i + 1) as nat) == 128 * mult);
        }
        value = total as u64;
        mult = mult * 128;
        i = i + 1;
    }
    proof {
        lemma_span_none(bytes@);
    }
    VarintRead::Incomplete
}


/// The shortest varint of a value below `128^k` takes at most `k` bytes.
proof fn lemma_encode_len_bound(v: nat, k: nat)
    requires
        k >= 1,
        v < pow128(k),
    ensures
        varint_encode(v).len() <= k,
    decreases v,
{
    if v >= 128 {
        assert(k >= 2) by {
            if k == 1 {
                reveal_with_fuel(pow128, 2);
            }
        }
        let k1 = (k - 1) as nat;
        assert(pow128(k) == 128 * pow128(k1));
        assert(v / 128 < pow128(k1)) by (nonlinear_arith)
            requires
                v < 128 * pow128(k1),
        ;
        lemma_encode_len_bound(v / 128, k1);
    }
}

/// The shape of the shortest varint: every byte but the last has its high
/// bit set, and its digits give the value back.
pub proof fn lemma_encode_facts(v: nat)
    ensures
        varint_encode(v).len() >= 1,
        varint_encode(v)[varint_encode(v).len() - 1] < 128,
        forall|j: int| 0 <= j < varint_encode(v).len() - 1 ==> varint_encode(v)[j] >= 128,
        digits_value(varint_encode(v)) == v,
        v <= u64::MAX ==> varint_encode(v).len() <= 10,
    decreases v,
{
    let e = varint_encode(v);
    if v < 128 {
        assert(e.drop_first() =~= Seq::<u8>::empty());
        assert(digits_value(e.drop_first()) == 0);
        assert(e[0] == v);
        assert(digits_value(e) == (e[0] % 128) as nat + 128 * digits_value(e.drop_first()));
    } else {
        let t = varint_encode(v / 128);
        lemma_encode_facts(v / 128);
        assert(e.drop_first() =~= t);
        assert forall|j: int| 0 <= j < e.len() - 1 implies e[j] >= 128 by {
            if j > 0 {
                assert(e[j] == t[j - 1]);
            }
        }
        assert(e[e.len() - 1] == t[t.len() - 1]);
        assert(e[0] % 128 == v % 128);
        assert(digits_value(e) == (e[0] % 128) as nat + 128 * digits_value(t));
        assert(v == 128 * (v / 128) + v % 128);
    }
    if v <= u64::MAX {
        lemma_pow128_facts(9);
        assert(pow128(10) == 128 * pow128(9));
        lemma_encode_len_bound(v, 10);
    }
}

/// A varint of a value within the bound reads back as that value, whatever
/// follows it.
pub proof fn lemma_varint_roundtrip(v: nat, rest: Seq<u8>, max: u64)
    requires
        v <= max,
    ensures
        spec_read_varint(varint_encode(v) + rest, max) == VarintRead::Value(v as u64),
{
    let e = varint_encode(v);
    let s = e + rest;
    lemma_encode_facts(v);
    assert forall|j: int| 0 <= j < e.len() - 1 implies s[j] >= 128 by {
        assert(s[j] == e[j]);
    }
    lemma_span_at(s, e.len() - 1);
    assert(s.take(e.len() as int) =~= e);
}

/// A proper prefix of a varint is incomplete.
pub proof fn lemma_varint_prefix_incomplete(v: nat, k: int, max: u64)
    requires
        v <= u64::MAX,
        0 <= k < varint_encode(v).len(),
    ensures
        spec_read_varint(varint_encode(v).take(k), max) == VarintRead::Incomplete,
{
    let e = varint_encode(v);
    lemma_encode_facts(v);
    lemma_span_none(e.take(k));
}

/// Once the front of a buffer reads as something other than incomplete,
/// more bytes behind it change nothing.
pub proof fn lemma_varint_extend(s: Seq<u8>, x: Seq<u8>, max: u64)
    requires
        spec_read_varint(s, max) != VarintRead::Incomplete,
    ensures
        spec_read_varint(s + x, max) == spec_read_varint(s, max),
{
    let t = s + x;
    lemma_span_facts(s);
    lemma_span_facts(t);
    match varint_span(s) {
        Some(n) => {
            assert forall|j: int| 0 <= j < n - 1 implies t[j] >= 128 by {
                assert(t[j] == s[j]);
            }
            assert(t[n - 1] == s[n - 1]);
            lemma_span_at(t, n - 1);
            assert(t.take(n as int) =~= s.take(n as int));
        },
        None => {
            if let Some(m) = varint_span(t) {
                assert(m > s.len()) by {
                    if m <= s.len() {
                        assert(t[m - 1] == s[m - 1]);
                    }
                }
            }
        },
    }
}

/// The shortest varint of a value read from a buffer is no longer than the
/// bytes it was read from.
pub proof fn lemma_varint_canonical_fits(s: Seq<u8>, max: u64)
    requires
        spec_read_varint(s, max) is Value,
    ensures
        varint_encode(spec_read_varint(s, max)->0 as nat).len() <= s.len(),
{
    lemma_span_facts(s);
    let n = varint_span(s)->0;
    let t = s.take(n as int);
    lemma_digits_bound(t);
    lemma_encode_len_bound(digits_value(t), n);
}

/// The number of bytes in the shortest varint of `v`.
pub fn varint_len(v: u64) -> (n: usize)
    ensures
        n == varint_encode(v as nat).len(),
{
    let mut cur: u64 = v;
    let mut n: usize = 1;
    proof {
        lemma_encode_facts(v as nat);
    }
    while cur >= 128
        invariant
            n >= 1,
            n - 1 + varint_encode(cur as nat).len() == varint_encode(v as nat).len(),
            varint_encode(v as nat).len() <= 10,
        decreases cur,
    {
        proof {
            assert(varint_encode(cur as nat) =~= seq![((cur % 128) + 128) as u8] + varint_encode(
                (cur / 128) as nat,
            ));
            lemma_encode_facts((cur / 128) as nat);
        }
        cur = cur / 128;
        n = n + 1;
    }
    n
}

/// Appends the shortest varint of `v` to `out`.
pub fn write_varint(v: u64, out: &mut Vec<u8>)
    ensures
        final(out)@ == old(out)@ + varint_encode(v as nat),
{
    let mut cur: u64 = v;
    while cur >= 128
        invariant
            out@ + varint_encode(cur as nat) == old(out)@ + varint_encode(v as nat),
        decreases cur,
    {
        let ghost before = out@;
        out.push((cur % 128 + 128) as u8);
        proof {
            assert(varint_encode(cur as nat) =~= seq![((cur % 128) + 128) as u8] + varint_encode(
                (cur / 128) as nat,
            ));
            assert(out@ + varint_encode((cur / 128) as nat) =~= before + varint_encode(cur as nat));
        }
        cur = cur / 128;
    }
    let ghost before = out@;
    out.push(cur as u8);
    assert(out@ =~= before + varint_encode(cur as nat));
}

} // verus!
