//! Big-endian length fields: the integer a byte run denotes, its minimal
//! encoding, and verified readers and writers for both.

use vstd::prelude::*;
use vstd::arithmetic::div_mod::lemma_fundamental_div_mod;

verus! {

/// `256^n`, the number of values an `n`-byte field can hold.
pub open spec fn p256(n: nat) -> int
    decreases n,
{
    if n == 0 {
        1
    } else {
        256 * p256((n - 1) as nat)
    }
}

pub proof fn lemma_p256_pos(n: nat)
    ensures
        p256(n) >= 1,
    decreases n,
{
    if n > 0 {
        lemma_p256_pos((n - 1) as nat);
    }
}

/// The integer that a big-endian byte sequence denotes.
pub open spec fn be_val(s: Seq<u8>) -> int
    decreases s.len(),
{
    if s.len() == 0 {
        0
    } else {
        be_val(s.drop_last()) * 256 + s.last()
    }
}

/// The `n`-byte big-endian encoding of `x`.
pub open spec fn be_bytes(x: int, n: nat) -> Seq<u8>
    recommends
        0 <= x,
    decreases n,
{
    if n == 0 {
        Seq::empty()
    } else {
        be_bytes(x / 256, (n - 1) as nat) + seq![(x % 256) as u8]
    }
}

pub proof fn lemma_be_bytes_len(x: int, n: nat)
    ensures
        be_bytes(x, n).len() == n,
    decreases n,
{
    if n > 0 {
        lemma_be_bytes_len(x / 256, (n - 1) as nat);
    }
}

/// A big-endian byte run denotes a value that its width can hold.
pub proof fn lemma_be_val_bound(s: Seq<u8>)
    ensures
        0 <= be_val(s) < p256(s.len() as nat),
    decreases s.len(),
{
    if s.len() == 0 {
    } else {
        let d = s.drop_last();
        lemma_be_val_bound(d);
        assert(be_val(d) <= p256(d.len() as nat) - 1);
        assert(be_val(d) * 256 <= (p256(d.len() as nat) - 1) * 256) by (nonlinear_arith)
            requires
                be_val(d) <= p256(d.len() as nat) - 1,
        ;
    }
}

/// Decoding inverts encoding for every value the width can hold.
pub proof fn lemma_be_val_of_bytes(x: int, n: nat)
    requires
        0 <= x < p256(n),
    ensures
        be_val(be_bytes(x, n)) == x,
    decreases n,
{
    if n == 0 {
    } else {
        let m = (n - 1) as nat;
        lemma_p256_pos(m);
        assert(0 <= x / 256 && x / 256 < p256(m)) by (nonlinear_arith)
            requires
                0 <= x < 256 * p256(m),
                p256(m) >= 1,
        ;
        lemma_be_val_of_bytes(x / 256, m);
        let inner = be_bytes(x / 256, m);
        lemma_be_bytes_len(x / 256, m);
        let whole = be_bytes(x, n);
        assert(whole =~= inner + seq![(x % 256) as u8]);
        assert(whole.drop_last() =~= inner);
        assert(whole.last() == (x % 256) as u8);
        lemma_fundamental_div_mod(x, 256);
    }
}

/// Encoding inverts decoding: every byte run is the encoding of its value.
pub proof fn lemma_be_bytes_of_val(s: Seq<u8>)
    ensures
        be_bytes(be_val(s), s.len() as nat) == s,
    decreases s.len(),
{
    if s.len() == 0 {
        assert(be_bytes(0, 0) =~= s);
    } else {
        let d = s.drop_last();
        let w = be_val(d);
        let v = be_val(s);
        lemma_be_val_bound(d);
        assert(v == w * 256 + s.last());
        assert(v / 256 == w && v % 256 == s.last()) by (nonlinear_arith)
            requires
                v == w * 256 + s.last(),
                0 <= w,
                0 <= s.last() < 256,
        ;
        lemma_be_bytes_of_val(d);
        assert(be_bytes(v, s.len() as nat) =~= be_bytes(w, d.len() as nat) + seq![
            (v % 256) as u8,
        ]);
        assert(be_bytes(v, s.len() as nat) =~= s);
    }
}

/// Reads the `n`-byte big-endian field at `start`.
pub fn read_be(buf: &Vec<u8>, start: usize, n: usize) -> (r: u64)
    requires
        start + n <= buf@.len(),
        n <= 8,
    ensures
        r == be_val(buf@.subrange(start as int, start + n)),
{
    let mut acc: u64 = 0;
    let mut i: usize = 0;
    let total = buf.len();
    while i < n
        invariant
            i <= n,
            n <= 8,
            total == buf@.len(),
            start + n <= total,
            acc == be_val(buf@.subrange(start as int, start + i)),
        decreases n - i,
    {
        proof {
            let pre = buf@.subrange(start as int, start + i);
            lemma_be_val_bound(pre);
            lemma_p256_le_8(i as nat);
            lemma_p256_val_7();
            assert(acc * 256 + 255 < 0x10000000000000000) by (nonlinear_arith)
                requires
                    0 <= acc as int,
                    acc < p256(i as nat),
                    p256(i as nat) <= p256(7nat),
                    p256(7nat) == 0x100000000000000,
                    i <= 7,
            ;
        }
        let b = buf[start + i];
        proof {
            let pre = buf@.subrange(start as int, start + i);
            let post = buf@.subrange(start as int, start + i + 1);
            assert(post.drop_last() =~= pre);
            assert(post.last() == buf@[start + i]);
        }
        acc = acc * 256 + (b as u64);
        i = i + 1;
    }
    acc
}

pub proof fn lemma_p256_val_2()
    ensures
        p256(2nat) == 65536,
{
    reveal_with_fuel(p256, 4);
}

pub proof fn lemma_p256_val_7()
    ensures
        p256(7nat) == 0x100000000000000,
{
    reveal_with_fuel(p256, 9);
}

pub proof fn lemma_p256_val_8()
    ensures
        p256(8nat) == 0x10000000000000000,
{
    reveal_with_fuel(p256, 10);
}

pub proof fn lemma_p256_le_8(n: nat)
    requires
        n <= 7,
    ensures
        p256(n) <= p256(7nat),
    decreases 7 - n,
{
    if n < 7 {
        lemma_p256_le_8((n + 1) as nat);
        lemma_p256_pos(n);
        assert(p256((n + 1) as nat) == 256 * p256(n));
    }
}

/// A nonempty sequence read backwards starts with its last element.
proof fn lemma_reverse_step<A>(s: Seq<A>)
    requires
        s.len() > 0,
    ensures
        s.reverse() == seq![s.last()] + s.drop_last().reverse(),
{
    assert(s.reverse() =~= seq![s.last()] + s.drop_last().reverse());
}

/// Appends the `n`-byte big-endian encoding of `x`.
pub fn push_be(out: &mut Vec<u8>, x: u64, n: usize)
    requires
        n <= 8,
        x < p256(n as nat),
    ensures
        final(out)@ == old(out)@ + be_bytes(x as int, n as nat),
{
    let mut tmp: Vec<u8> = Vec::new();
    let mut v: u64 = x;
    let mut i: usize = 0;
    proof {
        lemma_be_bytes_len(x as int, n as nat);
        assert(tmp@.reverse() =~= Seq::<u8>::empty());
        assert(be_bytes(x as int, n as nat) =~= be_bytes(x as int, n as nat)
            + tmp@.reverse());
    }
    while i < n
        invariant
            i <= n,
            be_bytes(x as int, n as nat) == be_bytes(v as int, (n - i) as nat) + tmp@.reverse(),
        decreases n - i,
    {
        let d = (v % 256) as u8;
        proof {
            let nb = be_bytes(v as int, (n - i) as nat);
            assert(nb == be_bytes(v as int / 256, (n - i - 1) as nat) + seq![d]);
            lemma_reverse_step(tmp@.push(d));
            assert(tmp@.push(d).drop_last() =~= tmp@);
            assert(tmp@.push(d).last() == d);
            assert((be_bytes(v as int / 256, (n - i - 1) as nat) + seq![d]) + tmp@.reverse()
                =~= be_bytes(v as int / 256, (n - i - 1) as nat) + (seq![d] + tmp@.reverse()));
        }
        tmp.push(d);
        v = v / 256;
        i = i + 1;
    }
    proof {
        assert(be_bytes(x as int, n as nat) == tmp@.reverse());
    }
    while tmp.len() > 0
        invariant
            out@ + tmp@.reverse() == old(out)@ + be_bytes(x as int, n as nat),
        decreases tmp@.len(),
    {
        proof {
            lemma_reverse_step(tmp@);
        }
        let ghost pre = tmp@;
        let d = match tmp.pop() {
            Some(b) => b,
            None => 0,
        };
        out.push(d);
        proof {
            assert(tmp@ =~= pre.drop_last());
            assert(out@ + tmp@.reverse() =~= old(out)@ + be_bytes(x as int, n as nat));
        }
    }
    proof {
        assert(tmp@.reverse() =~= Seq::<u8>::empty());
        assert(out@ =~= out@ + tmp@.reverse());
    }
}

} // verus!
