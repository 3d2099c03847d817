//! Byte strings: their order, their prefixes, and little-endian integers.
use vstd::prelude::*;

verus! {

/// Whether `a` comes before `b` in lexicographic order.
pub open spec fn lex_lt(a: Seq<u8>, b: Seq<u8>) -> bool
    decreases a.len(),
{
    if b.len() == 0 {
        false
    } else if a.len() == 0 {
        true
    } else if a[0] != b[0] {
        a[0] < b[0]
    } else {
        lex_lt(a.drop_first(), b.drop_first())
    }
}

/// Nothing comes before itself.
pub proof fn lemma_lex_irreflexive(a: Seq<u8>)
    ensures
        !lex_lt(a, a),
    decreases a.len(),
{
    if a.len() > 0 {
        lemma_lex_irreflexive(a.drop_first());
    }
}

/// The order is transitive.
pub proof fn lemma_lex_transitive(a: Seq<u8>, b: Seq<u8>, c: Seq<u8>)
    requires
        lex_lt(a, b),
        lex_lt(b, c),
    ensures
        lex_lt(a, c),
    decreases a.len(),
{
    if a.len() > 0 && a[0] == b[0] && b[0] == c[0] {
        lemma_lex_transitive(a.drop_first(), b.drop_first(), c.drop_first());
    }
}

/// Of two byte strings exactly one of three holds: the first comes before the
/// second, they are equal, or the second comes before the first.
pub proof fn lemma_lex_total(a: Seq<u8>, b: Seq<u8>)
    ensures
        lex_lt(a, b) || a == b || lex_lt(b, a),
        !(lex_lt(a, b) && lex_lt(b, a)),
        a == b ==> !lex_lt(a, b) && !lex_lt(b, a),
    decreases a.len(),
{
    lemma_lex_irreflexive(a);
    if a.len() == 0 || b.len() == 0 {
        if a.len() == 0 && b.len() == 0 {
            assert(a =~= b);
        }
    } else if a[0] == b[0] {
        lemma_lex_total(a.drop_first(), b.drop_first());
        if a.drop_first() == b.drop_first() {
            assert(a =~= seq![a[0]] + a.drop_first());
            assert(b =~= seq![b[0]] + b.drop_first());
        }
    }
}

/// A byte string comes no earlier than any of its prefixes.
pub proof fn lemma_prefix_not_after(prefix: Seq<u8>, key: Seq<u8>)
    requires
        prefix.is_prefix_of(key),
    ensures
        !lex_lt(key, prefix),
    decreases prefix.len(),
{
    if prefix.len() > 0 {
        assert(prefix[0] == key.subrange(0, prefix.len() as int)[0]);
        assert(prefix.drop_first() =~= key.drop_first().subrange(0, prefix.len() - 1)) by {
            assert forall|i: int| 0 <= i < prefix.len() - 1 implies prefix.drop_first()[i]
                == key.drop_first().subrange(0, prefix.len() - 1)[i] by {
                assert(prefix[i + 1] == key.subrange(0, prefix.len() as int)[i + 1]);
            }
        }
        lemma_prefix_not_after(prefix.drop_first(), key.drop_first());
    }
}

/// Once the keys from `prefix` on have left the prefix, they do not come back
/// to it.
pub proof fn lemma_prefix_run_ends(prefix: Seq<u8>, left: Seq<u8>, later: Seq<u8>)
    requires
        !lex_lt(left, prefix),
        !prefix.is_prefix_of(left),
        lex_lt(left, later),
    ensures
        !prefix.is_prefix_of(later),
    decreases prefix.len(),
{
    if prefix.is_prefix_of(later) {
        assert(prefix.len() > 0) by {
            if prefix.len() == 0 {
                assert(prefix =~= left.subrange(0, 0));
            }
        }
        assert(left.len() > 0);
        assert(prefix[0] == later.subrange(0, prefix.len() as int)[0]);
        assert(left[0] == prefix[0]);
        let p = prefix.drop_first();
        let l = left.drop_first();
        let m = later.drop_first();
        assert(p =~= m.subrange(0, p.len() as int)) by {
            assert forall|i: int| 0 <= i < p.len() implies p[i] == m.subrange(
                0,
                p.len() as int,
            )[i] by {
                assert(prefix[i + 1] == later.subrange(0, prefix.len() as int)[i + 1]);
            }
        }
        assert(!p.is_prefix_of(l)) by {
            if p.is_prefix_of(l) {
                assert(prefix =~= left.subrange(0, prefix.len() as int)) by {
                    assert forall|i: int| 0 <= i < prefix.len() implies prefix[i] == left[i] by {
                        if i > 0 {
                            assert(p[i - 1] == l.subrange(0, p.len() as int)[i - 1]);
                        }
                    }
                }
            }
        }
        lemma_prefix_run_ends(p, l, m);
    }
}

/// How two byte strings compare.
#[derive(Clone, Copy, Debug, PartialEq, Eq, Structural)]
pub enum Order {
    Less,
    Equal,
    Greater,
}

/// Compares two byte strings in lexicographic order.
pub fn compare(a: &[u8], b: &[u8]) -> (order: Order)
    ensures
        order == Order::Less <==> lex_lt(a@, b@),
        order == Order::Equal <==> a@ == b@,
        order == Order::Greater <==> lex_lt(b@, a@),
{
    proof {
        lemma_lex_total(a@, b@);
        assert(a@.skip(0) =~= a@);
        assert(b@.skip(0) =~= b@);
    }
    let mut i: usize = 0;
    while i < a.len() && i < b.len()
        invariant
            i <= a.len(),
            i <= b.len(),
            a@.take(i as int) == b@.take(i as int),
            lex_lt(a@, b@) == lex_lt(a@.skip(i as int), b@.skip(i as int)),
            lex_lt(b@, a@) == lex_lt(b@.skip(i as int), a@.skip(i as int)),
            lex_lt(a@, b@) || a@ == b@ || lex_lt(b@, a@),
            !(lex_lt(a@, b@) && lex_lt(b@, a@)),
            a@ == b@ ==> !lex_lt(a@, b@) && !lex_lt(b@, a@),
        decreases a.len() - i,
    {
        assert(a@.skip(i as int)[0] == a@[i as int]);
        assert(b@.skip(i as int)[0] == b@[i as int]);
        if a[i] < b[i] {
            return Order::Less;
        }
        if a[i] > b[i] {
            return Order::Greater;
        }
        assert(a@.skip(i as int).drop_first() =~= a@.skip(i + 1));
        assert(b@.skip(i as int).drop_first() =~= b@.skip(i + 1));
        assert(a@.take(i + 1) =~= a@.take(i as int).push(a@[i as int]));
        assert(b@.take(i + 1) =~= b@.take(i as int).push(b@[i as int]));
        i += 1;
    }
    if i < b.len() {
        Order::Less
    } else if i < a.len() {
        Order::Greater
    } else {
        assert(a@ =~= a@.take(i as int));
        assert(b@ =~= b@.take(i as int));
        Order::Equal
    }
}

/// Whether `key` starts with `prefix`.
pub fn starts_with(key: &[u8], prefix: &[u8]) -> (yes: bool)
    ensures
        yes == prefix@.is_prefix_of(key@),
{
    if key.len() < prefix.len() {
        return false;
    }
    let mut i: usize = 0;
    while i < prefix.len()
        invariant
            i <= prefix.len() <= key.len(),
            forall|j: int| 0 <= j < i ==> prefix@[j] == key@[j],
        decreases prefix.len() - i,
    {
        if key[i] != prefix[i] {
            assert(prefix@[i as int] != key@.subrange(0, prefix@.len() as int)[i as int]);
            return false;
        }
        i += 1;
    }
    assert(prefix@ =~= key@.subrange(0, prefix@.len() as int));
    true
}

/// The low `width` bytes of `n`, least significant first.
pub open spec fn le_bytes(n: nat, width: nat) -> Seq<u8>
    decreases width,
{
    if width == 0 {
        Seq::empty()
    } else {
        seq![(n % 256) as u8] + le_bytes(n / 256, (width - 1) as nat)
    }
}

/// The number that little-endian bytes stand for.
pub open spec fn le_value(s: Seq<u8>) -> nat
    decreases s.len(),
{
    if s.len() == 0 {
        0
    } else {
        s[0] as nat + 256 * le_value(s.drop_first())
    }
}

/// How many numbers `width` bytes can hold.
pub open spec fn byte_range(width: nat) -> nat
    decreases width,
{
    if width == 0 {
        1
    } else {
        256 * byte_range((width - 1) as nat)
    }
}

/// The ranges of the two integer widths in use.
pub proof fn lemma_byte_range()
    ensures
        byte_range(4) == 0x1_0000_0000,
        byte_range(8) == 0x1_0000_0000_0000_0000,
{
    reveal_with_fuel(byte_range, 9);
}

/// `le_bytes` gives `width` bytes.
pub proof fn lemma_le_len(n: nat, width: nat)
    ensures
        le_bytes(n, width).len() == width,
    decreases width,
{
    if width > 0 {
        lemma_le_len(n / 256, (width - 1) as nat);
    }
}

/// A number is read back from its bytes.
pub proof fn lemma_le_value_of_bytes(n: nat, width: nat)
    requires
        n < byte_range(width),
    ensures
        le_value(le_bytes(n, width)) == n,
    decreases width,
{
    if width > 0 {
        lemma_le_value_of_bytes(n / 256, (width - 1) as nat);
        assert(le_bytes(n, width).drop_first() =~= le_bytes(n / 256, (width - 1) as nat));
        assert(le_bytes(n, width)[0] == (n % 256) as u8);
    }
}

/// What bytes stand for lies in their range.
pub proof fn lemma_le_value_bound(s: Seq<u8>)
    ensures
        le_value(s) < byte_range(s.len()),
    decreases s.len(),
{
    if s.len() > 0 {
        lemma_le_value_bound(s.drop_first());
    }
}

/// Appends the low `width` bytes of `n`.
fn push_le(out: &mut Vec<u8>, n: u64, width: usize)
    ensures
        final(out)@ == old(out)@ + le_bytes(n as nat, width as nat),
{
    let mut rest: u64 = n;
    let mut left: usize = width;
    assert(out@ + le_bytes(rest as nat, left as nat) =~= old(out)@ + le_bytes(
        n as nat,
        width as nat,
    ));
    while left > 0
        invariant
            out@ + le_bytes(rest as nat, left as nat) == old(out)@ + le_bytes(
                n as nat,
                width as nat,
            ),
        decreases left,
    {
        let ghost before = out@;
        let byte: u8 = (rest % 256) as u8;
        out.push(byte);
        rest = rest / 256;
        left -= 1;
        assert(out@ + le_bytes(rest as nat, left as nat) =~= before + (seq![byte] + le_bytes(
            rest as nat,
            left as nat,
        )));
    }
    assert(out@ =~= out@ + le_bytes(rest as nat, 0));
}

/// Appends a `u32`, least significant byte first.
pub fn push_u32(out: &mut Vec<u8>, n: u32)
    ensures
        final(out)@ == old(out)@ + le_bytes(n as nat, 4),
{
    push_le(out, n as u64, 4)
}

/// Appends a `u64`, least significant byte first.
pub fn push_u64(out: &mut Vec<u8>, n: u64)
    ensures
        final(out)@ == old(out)@ + le_bytes(n as nat, 8),
{
    push_le(out, n, 8)
}

/// Appends a byte string.
pub fn push_bytes(out: &mut Vec<u8>, more: &[u8])
    ensures
        final(out)@ == old(out)@ + more@,
{
    out.extend_from_slice(more);
    assert(out@ =~= old(out)@ + more@);
}

/// Reads `width` bytes at `at`, least significant first.
fn read_le(s: &[u8], at: usize, width: usize) -> (n: u64)
    requires
        width <= 8,
        at + width <= s.len(),
    ensures
        n as nat == le_value(s@.subrange(at as int, at + width)),
{
    let mut n: u64 = 0;
    let mut left: usize = width;
    let ghost end: int = at + width;
    proof {
        reveal_with_fuel(byte_range, 9);
    }
    assert(s@.subrange(end, end) =~= Seq::empty());
    while left > 0
        invariant
            left <= width <= 8,
            end == at + width,
            end <= s.len(),
            n as nat == le_value(s@.subrange(at + left, end)),
        decreases left,
    {
        proof {
            reveal_with_fuel(byte_range, 9);
            lemma_le_value_bound(s@.subrange(at + left - 1, end));
            let part = s@.subrange(at + left - 1, end);
            assert(part.drop_first() =~= s@.subrange(at + left, end));
            assert(part[0] == s@[at + left - 1]);
            assert(byte_range(part.len()) <= byte_range(8));
        }
        left -= 1;
        n = s[at + left] as u64 + n * 256;
    }
    n
}

/// Reads a `u32` at `at`, least significant byte first.
pub fn read_u32(s: &[u8], at: usize) -> (n: u32)
    requires
        at + 4 <= s.len(),
    ensures
        n as nat == le_value(s@.subrange(at as int, at + 4)),
{
    proof {
        lemma_le_value_bound(s@.subrange(at as int, at + 4));
        lemma_byte_range();
    }
    read_le(s, at, 4) as u32
}

/// Reads a `u64` at `at`, least significant byte first.
pub fn read_u64(s: &[u8], at: usize) -> (n: u64)
    requires
        at + 8 <= s.len(),
    ensures
        n as nat == le_value(s@.subrange(at as int, at + 8)),
{
    read_le(s, at, 8)
}

/// Copies a stretch of bytes.
pub fn copy_range(s: &[u8], from: usize, to: usize) -> (out: Vec<u8>)
    requires
        from <= to <= s.len(),
    ensures
        out@ == s@.subrange(from as int, to as int),
{
    vstd::slice::slice_to_vec(vstd::slice::slice_subrange(s, from, to))
}

/// Copies a byte string.
pub fn copy_bytes(s: &[u8]) -> (out: Vec<u8>)
    ensures
        out@ == s@,
{
    vstd::slice::slice_to_vec(s)
}

// What the bytes of numbers and the order of byte strings are.

/// Whether the four bytes at a place hold a number, the lowest byte first.
pub open spec fn holds_u32(s: Seq<u8>, at: int, n: nat) -> bool {
    &&& 0 <= at && at + 4 <= s.len()
    &&& s[at] + 0x100 * s[at + 1] + 0x1_0000 * s[at + 2] + 0x100_0000 * s[at + 3] == n
}

/// Whether the eight bytes at a place hold a number, the lowest byte first.
pub open spec fn holds_u64(s: Seq<u8>, at: int, n: nat) -> bool {
    &&& 0 <= at && at + 8 <= s.len()
    &&& s[at] + 0x100 * s[at + 1] + 0x1_0000 * s[at + 2] + 0x100_0000 * s[at + 3] + 0x1_0000_0000
        * s[at + 4] + 0x100_0000_0000 * s[at + 5] + 0x1_0000_0000_0000 * s[at + 6]
        + 0x100_0000_0000_0000 * s[at + 7] == n
}

/// A number that fits in four bytes is written in them, and one that fits in eight in
/// eight, the lowest byte first.
pub proof fn law_bytes_of_a_number(n: nat)
    ensures
        le_bytes(n, 4).len() == 4,
        le_bytes(n, 8).len() == 8,
        n <= 0xffff_ffff ==> holds_u32(le_bytes(n, 4), 0, n),
        n <= 0xffff_ffff_ffff_ffff ==> holds_u64(le_bytes(n, 8), 0, n),
{
    lemma_byte_range();
    lemma_le_len(n, 4);
    lemma_le_len(n, 8);
    if n <= 0xffff_ffff {
        lemma_le_value_of_bytes(n, 4);
        law_number_in_four_bytes(le_bytes(n, 4), 0);
        assert(le_bytes(n, 4).subrange(0, 4) =~= le_bytes(n, 4));
    }
    if n <= 0xffff_ffff_ffff_ffff {
        lemma_le_value_of_bytes(n, 8);
        law_number_in_eight_bytes(le_bytes(n, 8), 0);
        assert(le_bytes(n, 8).subrange(0, 8) =~= le_bytes(n, 8));
    }
}

/// What four bytes at a place stand for is the number that they hold.
pub proof fn law_number_in_four_bytes(s: Seq<u8>, at: int)
    requires
        0 <= at,
        at + 4 <= s.len(),
    ensures
        holds_u32(s, at, le_value(s.subrange(at, at + 4))),
{
    let b = s.subrange(at, at + 4);
    let b1 = b.drop_first();
    let b2 = b1.drop_first();
    let b3 = b2.drop_first();
    assert(b3.drop_first() =~= Seq::empty());
    assert(le_value(b3.drop_first()) == 0);
    assert(le_value(b3) == b3[0] as nat);
    assert(le_value(b2) == b2[0] as nat + 256 * le_value(b3));
    assert(le_value(b1) == b1[0] as nat + 256 * le_value(b2));
    assert(le_value(b) == b[0] as nat + 256 * le_value(b1));
}

/// What eight bytes at a place stand for is the number that they hold.
pub proof fn law_number_in_eight_bytes(s: Seq<u8>, at: int)
    requires
        0 <= at,
        at + 8 <= s.len(),
    ensures
        holds_u64(s, at, le_value(s.subrange(at, at + 8))),
{
    let b = s.subrange(at, at + 8);
    let b1 = b.drop_first();
    let b2 = b1.drop_first();
    let b3 = b2.drop_first();
    let b4 = b3.drop_first();
    let b5 = b4.drop_first();
    let b6 = b5.drop_first();
    let b7 = b6.drop_first();
    assert(b7.drop_first() =~= Seq::empty());
    assert(le_value(b7.drop_first()) == 0);
    assert(le_value(b7) == b7[0] as nat);
    assert(le_value(b6) == b6[0] as nat + 256 * le_value(b7));
    assert(le_value(b5) == b5[0] as nat + 256 * le_value(b6));
    assert(le_value(b4) == b4[0] as nat + 256 * le_value(b5));
    assert(le_value(b3) == b3[0] as nat + 256 * le_value(b4));
    assert(le_value(b2) == b2[0] as nat + 256 * le_value(b3));
    assert(le_value(b1) == b1[0] as nat + 256 * le_value(b2));
    assert(le_value(b) == b[0] as nat + 256 * le_value(b1));
}

/// A byte string comes before another exactly if, behind a beginning that they share,
/// it ends where the other goes on, or has the lower byte.
pub proof fn law_order_of_byte_strings(a: Seq<u8>, b: Seq<u8>)
    ensures
        lex_lt(a, b) <==> exists|n: int|
            0 <= n <= a.len() && n < b.len() && #[trigger] a.take(n) == b.take(n) && (n == a.len()
                || a[n] < b[n]),
    decreases a.len(),
{
    if a.len() > 0 && b.len() > 0 && a[0] == b[0] {
        let a1 = a.drop_first();
        let b1 = b.drop_first();
        law_order_of_byte_strings(a1, b1);
        if lex_lt(a1, b1) {
            let n = choose|n: int|
                0 <= n <= a1.len() && n < b1.len() && #[trigger] a1.take(n) == b1.take(n) && (n
                    == a1.len() || a1[n] < b1[n]);
            assert(a.take(n + 1) =~= seq![a[0]] + a1.take(n));
            assert(b.take(n + 1) =~= seq![b[0]] + b1.take(n));
            assert(a.take(n + 1) == b.take(n + 1));
        }
        if exists|n: int|
            0 <= n <= a.len() && n < b.len() && #[trigger] a.take(n) == b.take(n) && (n == a.len()
                || a[n] < b[n]) {
            let n = choose|n: int|
                0 <= n <= a.len() && n < b.len() && #[trigger] a.take(n) == b.take(n) && (n
                    == a.len() || a[n] < b[n]);
            assert(n > 0);
            assert(a1.take(n - 1) =~= a.take(n).drop_first());
            assert(b1.take(n - 1) =~= b.take(n).drop_first());
            assert(a1.take(n - 1) == b1.take(n - 1));
        }
    } else if b.len() > 0 {
        assert(a.take(0) =~= b.take(0));
        if exists|n: int|
            0 <= n <= a.len() && n < b.len() && #[trigger] a.take(n) == b.take(n) && (n == a.len()
                || a[n] < b[n]) {
            let n = choose|n: int|
                0 <= n <= a.len() && n < b.len() && #[trigger] a.take(n) == b.take(n) && (n
                    == a.len() || a[n] < b[n]);
            if n > 0 {
                assert(a.take(n)[0] == b.take(n)[0]);
            }
        }
    }
}

} // verus!
