//! Unsigned numbers as big-endian byte strings without leading zero bytes.
use vstd::prelude::*;

verus! {

/// The number that the bytes `s` spell in base 256, most significant first.
pub open spec fn be_value(s: Seq<u8>) -> nat
    decreases s.len(),
{
    if s.len() == 0 {
        0
    } else {
        be_value(s.drop_last()) * 256 + s.last() as nat
    }
}

/// The shortest big-endian spelling of `n`: no leading zero byte, and no
/// byte at all for zero.
pub open spec fn be_bytes(n: nat) -> Seq<u8>
    decreases n,
{
    if n == 0 {
        Seq::empty()
    } else {
        be_bytes(n / 256).push((n % 256) as u8)
    }
}

/// Decoding the shortest spelling gives the number back.
pub proof fn lemma_be_value_of_be_bytes(n: nat)
    ensures
        be_value(be_bytes(n)) == n,
    decreases n,
{
    if n != 0 {
        lemma_be_value_of_be_bytes(n / 256);
        assert(be_bytes(n).drop_last() =~= be_bytes(n / 256));
    }
}

/// The shortest spelling of a positive number starts with a non-zero byte.
pub proof fn lemma_be_bytes_leading(n: nat)
    requires
        n > 0,
    ensures
        be_bytes(n).len() >= 1,
        be_bytes(n)[0] != 0,
    decreases n,
{
    if n >= 256 {
        lemma_be_bytes_leading(n / 256);
    } else {
        assert(be_bytes(n / 256).len() == 0);
    }
}

/// 256 to the power `k`.
pub open spec fn pow256(k: nat) -> nat
    decreases k,
{
    if k == 0 {
        1
    } else {
        256 * pow256((k - 1) as nat)
    }
}

/// Powers of 256 are positive.
pub proof fn lemma_pow256_positive(k: nat)
    ensures
        pow256(k) > 0,
    decreases k,
{
    if k != 0 {
        lemma_pow256_positive((k - 1) as nat);
    }
}

/// A number below `256^k` is spelt in at most `k` bytes, and a number from
/// `256^k` on in more than `k`.
pub proof fn lemma_be_bytes_len(n: nat, k: nat)
    ensures
        n < pow256(k) <==> be_bytes(n).len() <= k,
    decreases k,
{
    if k == 0 {
        if n != 0 {
            lemma_be_bytes_leading(n);
        }
    } else if n != 0 {
        lemma_be_bytes_len(n / 256, (k - 1) as nat);
    } else {
        lemma_pow256_positive(k);
    }
}

/// Every `usize` is spelt in at most eight bytes.
pub proof fn lemma_be_bytes_len_usize(n: usize)
    ensures
        be_bytes(n as nat).len() <= 8,
{
    reveal_with_fuel(pow256, 9);
    lemma_be_bytes_len(n as nat, 8);
}

/// The bytes `s` spell a number below `256^s.len()`.
pub proof fn lemma_be_value_bound(s: Seq<u8>)
    ensures
        be_value(s) < pow256(s.len()),
    decreases s.len(),
{
    if s.len() != 0 {
        lemma_be_value_bound(s.drop_last());
    }
}

/// Bytes that start with a non-zero byte are the shortest spelling of the
/// number they spell.
pub proof fn lemma_be_bytes_of_be_value(s: Seq<u8>)
    requires
        s.len() > 0 ==> s[0] != 0,
    ensures
        be_bytes(be_value(s)) == s,
    decreases s.len(),
{
    if s.len() != 0 {
        lemma_be_bytes_of_be_value(s.drop_last());
    }
}

/// A number below 256 is spelt by itself, and a larger one starts as its
/// quotient by 256 does.
pub proof fn lemma_be_bytes_first(n: nat)
    requires
        n > 0,
    ensures
        n < 256 ==> be_bytes(n) == seq![n as u8],
        n >= 256 ==> be_bytes(n)[0] == be_bytes(n / 256)[0] && be_bytes(n).len() == be_bytes(
            n / 256,
        ).len() + 1,
{
    if n < 256 {
        assert(be_bytes(n / 256).len() == 0);
    } else {
        lemma_be_bytes_leading(n / 256);
    }
}

/// One more byte at the end multiplies the number by 256 and adds the byte.
pub proof fn lemma_be_value_take(s: Seq<u8>, k: int)
    requires
        0 <= k < s.len(),
    ensures
        be_value(s.take(k + 1)) == be_value(s.take(k)) * 256 + s[k] as nat,
        be_value(s.take(0)) == 0,
{
    assert(s.take(k + 1).drop_last() =~= s.take(k));
}

/// A prefix spells no larger a number than the whole.
pub proof fn lemma_be_value_prefix(s: Seq<u8>, k: int)
    requires
        0 <= k <= s.len(),
    ensures
        be_value(s.take(k)) <= be_value(s),
    decreases s.len(),
{
    if k == s.len() {
        assert(s.take(k) =~= s);
    } else {
        lemma_be_value_prefix(s.drop_last(), k);
        assert(s.drop_last().take(k) =~= s.take(k));
    }
}

/// A zero byte at the front adds nothing to the number.
pub proof fn lemma_be_value_leading_zero(s: Seq<u8>)
    requires
        s.len() > 0,
        s[0] == 0,
    ensures
        be_value(s) == be_value(s.drop_first()),
    decreases s.len(),
{
    if s.len() == 1 {
        assert(be_value(s.drop_last()) == 0);
    } else {
        lemma_be_value_leading_zero(s.drop_last());
        assert(s.drop_last().drop_first() =~= s.drop_first().drop_last());
    }
}

/// Among byte strings of one length that spell one number, only one is the
/// shortest spelling.
pub proof fn lemma_be_bytes_unique(s: Seq<u8>)
    requires
        be_bytes(be_value(s)).len() == s.len(),
    ensures
        be_bytes(be_value(s)) == s,
{
    if s.len() > 0 {
        if s[0] == 0 {
            lemma_be_value_leading_zero(s);
            lemma_be_value_bound(s.drop_first());
            lemma_be_bytes_len(be_value(s), (s.len() - 1) as nat);
        } else {
            lemma_be_bytes_of_be_value(s);
        }
    }
}

/// Appends the shortest big-endian spelling of `n` to `out`.
pub fn push_be_bytes(out: &mut Vec<u8>, n: usize)
    ensures
        final(out)@ == old(out)@ + be_bytes(n as nat),
    decreases n,
{
    if n != 0 {
        push_be_bytes(out, n / 256);
        out.push((n % 256) as u8);
    }
}

} // verus!
