//! Fixed-width big-endian integer encoding and the lexicographic byte order.
use vstd::prelude::*;

verus! {

/// `256^n`.
pub open spec fn pow256(n: nat) -> nat
    decreases n,
{
    if n == 0 {
        1
    } else {
        256 * pow256((n - 1) as nat)
    }
}

/// The `n`-byte big-endian encoding of `x` (the low `n` bytes of `x`).
pub open spec fn be(x: nat, n: nat) -> Seq<u8>
    decreases n,
{
    if n == 0 {
        Seq::empty()
    } else {
        be(x / 256, (n - 1) as nat).push((x % 256) as u8)
    }
}

/// The number whose big-endian encoding is `s`.
pub open spec fn from_be(s: Seq<u8>) -> nat
    decreases s.len(),
{
    if s.len() == 0 {
        0
    } else {
        from_be(s.drop_last()) * 256 + s.last() as nat
    }
}

/// Strict lexicographic order on byte strings (a proper prefix comes first).
pub open spec fn lex_lt(a: Seq<u8>, b: Seq<u8>) -> bool
    decreases a.len(),
{
    if b.len() == 0 {
        false
    } else if a.len() == 0 {
        true
    } else if a[0] != b[0] {
        a[0] < b[0]
    } else {
        lex_lt(a.drop_first(), b.drop_first())
    }
}

pub proof fn lemma_pow256_pos(n: nat)
    ensures
        pow256(n) >= 1,
    decreases n,
{
    if n > 0 {
        lemma_pow256_pos((n - 1) as nat);
    }
}

pub broadcast proof fn lemma_be_len(x: nat, n: nat)
    ensures
        #[trigger] be(x, n).len() == n,
    decreases n,
{
    if n > 0 {
        lemma_be_len(x / 256, (n - 1) as nat);
    }
}

/// Decoding an encoding gives the number back, when it fits in `n` bytes.
pub proof fn lemma_from_be_be(x: nat, n: nat)
    requires
        x < pow256(n),
    ensures
        from_be(be(x, n)) == x,
    decreases n,
{
    if n > 0 {
        let m = (n - 1) as nat;
        assert(x / 256 < pow256(m)) by (nonlinear_arith)
            requires
                x < 256 * pow256(m),
        ;
        lemma_from_be_be(x / 256, m);
        let s = be(x, n);
        assert(s.drop_last() =~= be(x / 256, m));
        assert(x == (x / 256) * 256 + x % 256) by (nonlinear_arith);
    }
}

/// Encoding a decoded string gives the string back.
pub proof fn lemma_be_from_be(s: Seq<u8>)
    ensures
        be(from_be(s), s.len()) == s,
        from_be(s) < pow256(s.len()),
    decreases s.len(),
{
    if s.len() > 0 {
        let p = s.drop_last();
        lemma_be_from_be(p);
        let x = from_be(s);
        let y = from_be(p);
        let l = s.last() as nat;
        assert(x / 256 == y && x % 256 == l) by (nonlinear_arith)
            requires
                x == y * 256 + l,
                l < 256,
        ;
        assert(x < pow256(s.len())) by (nonlinear_arith)
            requires
                x == y * 256 + l,
                l < 256,
                y < pow256(p.len()),
                pow256(s.len()) == 256 * pow256(p.len()),
        ;
        assert(be(x, s.len()) =~= s);
    }
}

/// Equal-length strings compare by their first difference, and a common
/// prefix decides nothing.
pub proof fn lemma_lex_append(a: Seq<u8>, b: Seq<u8>, c: Seq<u8>, d: Seq<u8>)
    requires
        a.len() == b.len(),
    ensures
        lex_lt(a + c, b + d) == (lex_lt(a, b) || (a == b && lex_lt(c, d))),
    decreases a.len(),
{
    if a.len() == 0 {
        assert(a + c =~= c);
        assert(b + d =~= d);
        assert(a =~= b);
    } else {
        assert((a + c).drop_first() =~= a.drop_first() + c);
        assert((b + d).drop_first() =~= b.drop_first() + d);
        lemma_lex_append(a.drop_first(), b.drop_first(), c, d);
        if a[0] == b[0] && a.drop_first() == b.drop_first() {
            assert forall|i: int| 0 <= i < a.len() implies a[i] == b[i] by {
                if i > 0 {
                    assert(a[i] == a.drop_first()[i - 1]);
                    assert(b[i] == b.drop_first()[i - 1]);
                }
            }
            assert(a =~= b);
        }
        if a == b {
            assert(a.drop_first() == b.drop_first());
        }
    }
}

/// `lex_lt` is irreflexive.
pub proof fn lemma_lex_irreflexive(a: Seq<u8>)
    ensures
        !lex_lt(a, a),
    decreases a.len(),
{
    if a.len() > 0 {
        lemma_lex_irreflexive(a.drop_first());
    }
}

/// Equal-length strings: appending one byte to each.
proof fn lemma_lex_push(a: Seq<u8>, b: Seq<u8>, x: u8, y: u8)
    requires
        a.len() == b.len(),
    ensures
        lex_lt(a.push(x), b.push(y)) == (lex_lt(a, b) || (a == b && x < y)),
{
    assert(a.push(x) =~= a + seq![x]);
    assert(b.push(y) =~= b + seq![y]);
    lemma_lex_append(a, b, seq![x], seq![y]);
    assert(seq![x].drop_first() =~= Seq::<u8>::empty());
    assert(seq![y].drop_first() =~= Seq::<u8>::empty());
    assert(!lex_lt(Seq::<u8>::empty(), Seq::<u8>::empty()));
}

/// Big-endian encodings of one width are ordered as the numbers are, and
/// equal only for equal numbers.
pub proof fn lemma_be_order(x: nat, y: nat, n: nat)
    requires
        x < pow256(n),
        y < pow256(n),
    ensures
        lex_lt(be(x, n), be(y, n)) == (x < y),
        (be(x, n) == be(y, n)) == (x == y),
    decreases n,
{
    if n == 0 {
        assert(x == 0 && y == 0);
    } else {
        let m = (n - 1) as nat;
        assert(x / 256 < pow256(m) && y / 256 < pow256(m)) by (nonlinear_arith)
            requires
                x < 256 * pow256(m),
                y < 256 * pow256(m),
        ;
        lemma_be_order(x / 256, y / 256, m);
        lemma_be_len(x / 256, m);
        lemma_be_len(y / 256, m);
        lemma_lex_push(be(x / 256, m), be(y / 256, m), (x % 256) as u8, (y % 256) as u8);
        assert((x < y) == (x / 256 < y / 256 || (x / 256 == y / 256 && x % 256 < y % 256)))
            by (nonlinear_arith);
        if be(x, n) == be(y, n) {
            assert(be(x, n).drop_last() =~= be(x / 256, m));
            assert(be(y, n).drop_last() =~= be(y / 256, m));
            assert(be(x, n).last() == be(y, n).last());
            assert(x == (x / 256) * 256 + x % 256) by (nonlinear_arith);
            assert(y == (y / 256) * 256 + y % 256) by (nonlinear_arith);
        }
    }
}

/// Appends the `n`-byte big-endian encoding of `x` to `out`.
pub fn push_be(out: &mut Vec<u8>, x: u64, n: usize)
    ensures
        final(out)@ == old(out)@ + be(x as nat, n as nat),
    decreases n,
{
    if n == 0 {
        assert(old(out)@ + be(x as nat, 0) =~= old(out)@);
    } else {
        push_be(out, x / 256, n - 1);
        out.push((x % 256) as u8);
        assert(final(out)@ =~= old(out)@ + be(x as nat, n as nat));
    }
}

/// Reads `n` bytes at `start` of `bytes` as a big-endian number.
pub fn read_be(bytes: &Vec<u8>, start: usize, n: usize) -> (r: u64)
    requires
        n <= 8,
        start + n <= bytes@.len(),
    ensures
        r as nat == from_be(bytes@.subrange(start as int, start + n)),
{
    let len = bytes.len();
    let mut acc: u64 = 0;
    let mut i: usize = 0;
    while i < n
        invariant
            len == bytes@.len(),
            i <= n,
            n <= 8,
            start + n <= bytes@.len(),
            acc as nat == from_be(bytes@.subrange(start as int, start + i)),
            acc < pow256(i as nat),
        decreases n - i,
    {
        let ghost s = bytes@.subrange(start as int, start + i + 1);
        assert(s.drop_last() =~= bytes@.subrange(start as int, start + i));
        proof {
            lemma_pow_le(i as nat, 7);
        }
        let b = bytes[start + i];
        assert(acc * 256 + b < pow256((i + 1) as nat) && pow256((i + 1) as nat) <= 0x1_0000_0000_0000_0000)
            by (nonlinear_arith)
            requires
                acc < pow256(i as nat),
                b < 256,
                pow256((i + 1) as nat) == 256 * pow256(i as nat),
                pow256(i as nat) <= pow256(7),
                pow256(7) == 0x100_0000_0000_0000,
        ;
        acc = acc * 256 + b as u64;
        i = i + 1;
    }
    acc
}

proof fn lemma_pow_le(i: nat, j: nat)
    requires
        i <= j,
    ensures
        pow256(i) <= pow256(j),
        pow256(7) == 0x100_0000_0000_0000,
        pow256(4) == 0x1_0000_0000,
        pow256(8) == 0x1_0000_0000_0000_0000,
        pow256(1) == 256,
    decreases j,
{
    reveal_with_fuel(pow256, 9);
    if i < j {
        lemma_pow_le(i, (j - 1) as nat);
        lemma_pow256_pos((j - 1) as nat);
    }
}

/// Facts about the powers used by the key layouts.
pub proof fn lemma_pow_widths()
    ensures
        pow256(1) == 256,
        pow256(4) == 0x1_0000_0000,
        pow256(8) == 0x1_0000_0000_0000_0000,
{
    lemma_pow_le(0, 0);
}

/// Appends all of `src` to `out`.
pub fn append_bytes(out: &mut Vec<u8>, src: &Vec<u8>)
    ensures
        final(out)@ == old(out)@ + src@,
{
    let n = src.len();
    let mut i: usize = 0;
    while i < n
        invariant
            n == src@.len(),
            i <= n,
            out@ == old(out)@ + src@.subrange(0, i as int),
        decreases n - i,
    {
        out.push(src[i]);
        i = i + 1;
        assert(out@ =~= old(out)@ + src@.subrange(0, i as int));
    }
    assert(src@.subrange(0, n as int) =~= src@);
}

/// Whether two byte strings are equal.
pub fn bytes_eq(a: &Vec<u8>, b: &Vec<u8>) -> (r: bool)
    ensures
        r == (a@ == b@),
{
    let n = a.len();
    if n != b.len() {
        return false;
    }
    let mut i: usize = 0;
    while i < n
        invariant
            n == a@.len(),
            n == b@.len(),
            i <= n,
            forall|j: int| 0 <= j < i ==> a@[j] == b@[j],
        decreases n - i,
    {
        if a[i] != b[i] {
            return false;
        }
        i = i + 1;
    }
    assert(a@ =~= b@);
    true
}

/// A copy of `b`.
pub fn copy_bytes(b: &Vec<u8>) -> (r: Vec<u8>)
    ensures
        r@ == b@,
{
    let r = copy_range(b, 0, b.len());
    assert(b@.subrange(0, b@.len() as int) =~= b@);
    r
}

/// The bytes of `b` from `start` to `end`.
pub fn copy_range(b: &Vec<u8>, start: usize, end: usize) -> (r: Vec<u8>)
    requires
        start <= end <= b@.len(),
    ensures
        r@ == b@.subrange(start as int, end as int),
{
    let mut r: Vec<u8> = Vec::new();
    let mut i: usize = start;
    while i < end
        invariant
            start <= i <= end,
            end <= b@.len(),
            r@ == b@.subrange(start as int, i as int),
        decreases end - i,
    {
        r.push(b[i]);
        i = i + 1;
        assert(r@ =~= b@.subrange(start as int, i as int));
    }
    r
}

} // verus!
