//! Variable-length integers: canonical unsigned LEB128, the encoding of every
//! tick, length and function id on the wire.

use vstd::prelude::*;

use crate::message::{advance, byte_at, bytes_view};

verus! {

/// A message that could not be decoded; the message holding it is rejected.
#[derive(Clone, Copy, Debug, PartialEq, Eq, Structural)]
pub struct DecodeError;

/// Canonical LEB128 bytes of `n`: seven bits per byte, least significant group
/// first, the high bit set on every byte but the last.
pub open spec fn varint(n: nat) -> Seq<u8>
    decreases n,
{
    if n < 128 {
        seq![n as u8]
    } else {
        seq![(n % 128 + 128) as u8] + varint(n / 128)
    }
}

/// The canonical varint at the front of `s`: its value and how many bytes it
/// takes. `None` where `s` ends inside it or where it carries a redundant
/// trailing zero group.
pub open spec fn parse_varint(s: Seq<u8>) -> Option<(nat, nat)>
    decreases s.len(),
{
    if s.len() == 0 {
        None
    } else if s[0] < 128 {
        Some((s[0] as nat, 1nat))
    } else {
        match parse_varint(s.drop_first()) {
            Some((v, k)) => if v == 0 {
                None
            } else {
                Some((((s[0] - 128) + 128 * v) as nat, k + 1))
            },
            None => None,
        }
    }
}

/// The value of the varint at the front of `s` (meaningful where it parses).
pub open spec fn varint_value(s: Seq<u8>) -> nat {
    match parse_varint(s) {
        Some((v, _)) => v,
        None => 0,
    }
}

/// How many bytes the varint at the front of `s` takes (where it parses).
pub open spec fn varint_len(s: Seq<u8>) -> nat {
    match parse_varint(s) {
        Some((_, k)) => k,
        None => 0,
    }
}

/// The varint at the front of `s` is well formed and its value fits in `max`.
pub open spec fn varint_within(s: Seq<u8>, max: nat) -> bool {
    &&& parse_varint(s) is Some
    &&& varint_value(s) <= max
}

/// `128` to the power `n`.
spec fn pow128(n: nat) -> nat
    decreases n,
{
    if n == 0 {
        1
    } else {
        128 * pow128((n - 1) as nat)
    }
}

/// Decoding what `varint` wrote gives back the value, whatever follows it.
pub proof fn lemma_varint_round_trip(n: nat, rest: Seq<u8>)
    ensures
        parse_varint(varint(n) + rest) == Some((n, varint(n).len())),
        varint(n).len() >= 1,
    decreases n,
{
    let s = varint(n) + rest;
    if n < 128 {
        assert(s[0] == n as u8);
    } else {
        lemma_varint_round_trip(n / 128, rest);
        assert(s.drop_first() =~= varint(n / 128) + rest);
        assert(s[0] == (n % 128 + 128) as u8);
    }
}

/// A varint takes at least one byte and no more than there are.
pub proof fn lemma_varint_len(s: Seq<u8>)
    requires
        parse_varint(s) is Some,
    ensures
        1 <= varint_len(s) <= s.len(),
    decreases s.len(),
{
    if s[0] >= 128 {
        lemma_varint_len(s.drop_first());
    }
}

proof fn lemma_parse_needs_end(s: Seq<u8>)
    requires
        forall|i: int| 0 <= i < s.len() ==> s[i] >= 128,
    ensures
        parse_varint(s) is None,
    decreases s.len(),
{
    if s.len() > 0 {
        lemma_parse_needs_end(s.drop_first());
    }
}

/// A varint whose first `m > 0` bytes all continue is at least `128^m`.
proof fn lemma_parse_lower_bound(s: Seq<u8>, m: nat)
    requires
        m <= s.len(),
        forall|i: int| 0 <= i < m ==> s[i] >= 128,
        parse_varint(s) is Some,
    ensures
        m == 0 || varint_value(s) >= pow128(m),
        varint_len(s) > m,
    decreases m,
{
    if m > 0 {
        let t = s.drop_first();
        lemma_parse_lower_bound(t, (m - 1) as nat);
        assert(varint_value(t) > 0);
        assert(varint_value(t) >= pow128((m - 1) as nat));
        assert(128 * varint_value(t) >= 128 * pow128((m - 1) as nat)) by (nonlinear_arith)
            requires
                varint_value(t) >= pow128((m - 1) as nat),
        ;
    }
}

/// Continuation bytes in front of a positive varint make the value no smaller.
proof fn lemma_parse_prefix_grows(s: Seq<u8>, j: nat)
    requires
        j <= s.len(),
        forall|i: int| 0 <= i < j ==> s[i] >= 128,
        parse_varint(s.skip(j as int)) is Some,
        varint_value(s.skip(j as int)) > 0,
    ensures
        parse_varint(s) is Some,
        varint_value(s) >= varint_value(s.skip(j as int)),
        varint_len(s) == varint_len(s.skip(j as int)) + j,
    decreases j,
{
    if j > 0 {
        assert(s.drop_first().skip(j - 1) =~= s.skip(j as int));
        lemma_parse_prefix_grows(s.drop_first(), (j - 1) as nat);
    } else {
        assert(s.skip(0) =~= s);
    }
}

/// Appends the canonical varint of `n` to `buf`.
pub fn write_varint(buf: &mut Vec<u8>, n: u64)
    ensures
        final(buf)@ == old(buf)@ + varint(n as nat),
{
    let mut rest: u64 = n;
    while rest >= 128
        invariant
            buf@ + varint(rest as nat) == old(buf)@ + varint(n as nat),
        decreases rest,
    {
        let ghost before = buf@;
        buf.push((rest % 128 + 128) as u8);
        assert(before + varint(rest as nat) =~= buf@ + varint((rest / 128) as nat));
        rest = rest / 128;
    }
    buf.push(rest as u8);
    assert(buf@ =~= old(buf)@ + varint(n as nat));
}

/// Reads a varint of at most `u64::MAX` from the front of `message`.
pub fn read_varint(message: &mut bytes::Bytes) -> (r: Result<u64, DecodeError>)
    ensures
        r is Ok <==> varint_within(bytes_view(*old(message)), u64::MAX as nat),
        r is Ok ==> r->Ok_0 == varint_value(bytes_view(*old(message))),
        r is Ok ==> 1 <= varint_len(bytes_view(*old(message))) <= bytes_view(*old(message)).len(),
        r is Ok ==> bytes_view(*final(message)) == bytes_view(*old(message)).skip(
            varint_len(bytes_view(*old(message))) as int,
        ),
{
    let ghost s = bytes_view(*message);
    let len = message.len();
    let mut end: usize = 0;
    while end < len && end < 10 && byte_at(message, end) >= 128
        invariant
            s == bytes_view(*message),
            len == s.len(),
            end <= len,
            end <= 10,
            forall|i: int| 0 <= i < end ==> s[i] >= 128,
        decreases len - end,
    {
        end = end + 1;
    }
    if end == len {
        proof {
            lemma_parse_needs_end(s);
        }
        return Err(DecodeError);
    }
    if end == 10 {
        proof {
            if parse_varint(s) is Some {
                lemma_parse_lower_bound(s, 10);
                assert(pow128(10) == 1180591620717411303424nat) by {
                    reveal_with_fuel(pow128, 11);
                }
            }
        }
        return Err(DecodeError);
    }
    let last = byte_at(message, end);
    if end > 0 && last == 0 {
        proof {
            assert(parse_varint(s.skip(end as int)) == Some((0nat, 1nat)));
            lemma_no_zero_tail(s, end as nat);
        }
        return Err(DecodeError);
    }
    let mut value: u64 = last as u64;
    let mut j: usize = end;
    proof {
        assert(parse_varint(s.skip(end as int)) == Some((last as nat, 1nat)));
    }
    while j > 0
        invariant
            s == bytes_view(*message),
            len == s.len(),
            end < len,
            j <= end,
            forall|i: int| 0 <= i < end ==> s[i] >= 128,
            parse_varint(s.skip(j as int)) == Some((value as nat, (end + 1 - j) as nat)),
            end > 0 ==> value > 0,
        decreases j,
    {
        let b = byte_at(message, j - 1) - 128;
        proof {
            assert(s.skip(j - 1).drop_first() =~= s.skip(j as int));
            assert(s.skip(j - 1)[0] == s[j - 1]);
        }
        let scaled = value.checked_mul(128);
        let next = match scaled {
            Some(x) => x.checked_add(b as u64),
            None => None,
        };
        match next {
            Some(x) => {
                value = x;
                j = j - 1;
            },
            None => {
                proof {
                    lemma_parse_prefix_grows(s, (j - 1) as nat);
                }
                return Err(DecodeError);
            },
        }
    }
    advance(message, end + 1);
    proof {
        assert(s.skip(0) =~= s);
    }
    Ok(value)
}

proof fn lemma_no_zero_tail(s: Seq<u8>, end: nat)
    requires
        0 < end < s.len(),
        forall|i: int| 0 <= i < end ==> s[i] >= 128,
        parse_varint(s.skip(end as int)) == Some((0nat, 1nat)),
    ensures
        parse_varint(s) is None,
    decreases end,
{
    let t = s.skip(end - 1);
    assert(t.drop_first() =~= s.skip(end as int));
    assert(t[0] == s[end - 1]);
    if end > 1 {
        assert(parse_varint(t) is None);
        lemma_none_propagates(s, (end - 1) as nat);
    }
}

proof fn lemma_none_propagates(s: Seq<u8>, j: nat)
    requires
        j < s.len(),
        forall|i: int| 0 <= i < j ==> s[i] >= 128,
        parse_varint(s.skip(j as int)) is None,
    ensures
        parse_varint(s) is None,
    decreases j,
{
    if j == 0 {
        assert(s.skip(0) =~= s);
    } else {
        assert(s.drop_first().skip(j - 1) =~= s.skip(j as int));
        lemma_none_propagates(s.drop_first(), (j - 1) as nat);
    }
}

} // verus!
