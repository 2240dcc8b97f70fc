//! Byte strings: their order, big-endian numbers, and entity identifiers.

use vstd::prelude::*;


verus! {

/// An entity identifier: the sixteen bytes of a UUID.
pub type EntityId = [u8; 16];

/// Dictionary order on byte strings.
pub open spec fn lex_lt(a: Seq<u8>, b: Seq<u8>) -> bool
    decreases a.len(),
{
    if b.len() == 0 {
        false
    } else if a.len() == 0 {
        true
    } else if a[0] != b[0] {
        a[0] < b[0]
    } else {
        lex_lt(a.drop_first(), b.drop_first())
    }
}

/// Dictionary order or equality.
pub open spec fn lex_le(a: Seq<u8>, b: Seq<u8>) -> bool {
    a == b || lex_lt(a, b)
}

/// No byte string precedes itself.
pub proof fn lemma_lex_irreflexive(a: Seq<u8>)
    ensures
        !lex_lt(a, a),
    decreases a.len(),
{
    if a.len() > 0 {
        lemma_lex_irreflexive(a.drop_first());
    }
}

/// Dictionary order is transitive.
pub proof fn lemma_lex_transitive(a: Seq<u8>, b: Seq<u8>, c: Seq<u8>)
    requires
        lex_lt(a, b),
        lex_lt(b, c),
    ensures
        lex_lt(a, c),
    decreases a.len(),
{
    if a.len() > 0 && a[0] == b[0] && b[0] == c[0] {
        lemma_lex_transitive(a.drop_first(), b.drop_first(), c.drop_first());
    }
}

/// Of two different byte strings one precedes the other.
pub proof fn lemma_lex_total(a: Seq<u8>, b: Seq<u8>)
    ensures
        a == b || lex_lt(a, b) || lex_lt(b, a),
    decreases a.len(),
{
    if a.len() == 0 || b.len() == 0 {
        if a.len() == 0 && b.len() == 0 {
            assert(a =~= b);
        }
    } else if a[0] == b[0] {
        lemma_lex_total(a.drop_first(), b.drop_first());
        if a.drop_first() == b.drop_first() {
            assert(a =~= seq![a[0]] + a.drop_first());
            assert(b =~= seq![b[0]] + b.drop_first());
        }
    }
}

/// Two byte strings do not both precede each other.
pub proof fn lemma_lex_antisymmetric(a: Seq<u8>, b: Seq<u8>)
    requires
        lex_lt(a, b),
    ensures
        !lex_lt(b, a),
        a != b,
{
    lemma_lex_irreflexive(a);
    if lex_lt(b, a) {
        lemma_lex_transitive(a, b, a);
    }
}

/// A common prefix does not change the order.
pub proof fn lemma_lex_common_prefix(p: Seq<u8>, a: Seq<u8>, b: Seq<u8>)
    ensures
        lex_lt(p + a, p + b) == lex_lt(a, b),
    decreases p.len(),
{
    if p.len() == 0 {
        assert(p + a =~= a);
        assert(p + b =~= b);
    } else {
        lemma_lex_common_prefix(p.drop_first(), a, b);
        assert((p + a).drop_first() =~= p.drop_first() + a);
        assert((p + b).drop_first() =~= p.drop_first() + b);
    }
}

/// What lies between two strings that share a prefix has that prefix, if it is
/// at least as long.
pub proof fn lemma_lex_between(p: Seq<u8>, a: Seq<u8>, b: Seq<u8>, k: Seq<u8>)
    requires
        k.len() >= p.len(),
        lex_le(p + a, k),
        lex_le(k, p + b),
    ensures
        k.take(p.len() as int) == p,
    decreases p.len(),
{
    if p.len() == 0 {
        assert(k.take(0) =~= p);
    } else {
        let q = p.drop_first();
        let l = k.drop_first();
        assert((p + a).drop_first() =~= q + a);
        assert((p + b).drop_first() =~= q + b);
        assert(k =~= seq![k[0]] + l);
        assert(p + a =~= seq![p[0]] + (q + a));
        assert(p + b =~= seq![p[0]] + (q + b));
        assert(k[0] == p[0]);
        lemma_lex_between(q, a, b, l);
        assert(k.take(p.len() as int) =~= seq![k[0]] + l.take(q.len() as int));
        assert(p =~= seq![p[0]] + q);
    }
}

/// The strings that a common prefix precedes are ordered by what follows it.
pub proof fn lemma_lex_last(a: Seq<u8>, b: Seq<u8>, x: u8, y: u8)
    requires
        a.len() == b.len(),
    ensures
        lex_lt(a.push(x), b.push(y)) == (lex_lt(a, b) || (a == b && x < y)),
    decreases a.len(),
{
    if a.len() == 0 {
        assert(a =~= b);
        assert(a.push(x)[0] == x);
        assert(b.push(y)[0] == y);
        assert(!lex_lt(a.push(x).drop_first(), b.push(y).drop_first()));
    } else {
        assert(a.push(x).drop_first() =~= a.drop_first().push(x));
        assert(b.push(y).drop_first() =~= b.drop_first().push(y));
        lemma_lex_last(a.drop_first(), b.drop_first(), x, y);
        if a[0] == b[0] {
            if a.drop_first() == b.drop_first() {
                assert(a =~= seq![a[0]] + a.drop_first());
                assert(b =~= seq![b[0]] + b.drop_first());
            }
        }
    }
}

/// The number that a big-endian byte string stands for.
pub open spec fn be_value(s: Seq<u8>) -> nat
    decreases s.len(),
{
    if s.len() == 0 {
        0
    } else {
        be_value(s.drop_last()) * 256 + s.last() as nat
    }
}

/// The big-endian byte string of length `n` that stands for `v` (modulo `256^n`).
pub open spec fn be_bytes(v: nat, n: nat) -> Seq<u8>
    decreases n,
{
    if n == 0 {
        Seq::empty()
    } else {
        be_bytes(v / 256, (n - 1) as nat).push((v % 256) as u8)
    }
}

/// `be_bytes` gives as many bytes as it is asked for.
pub proof fn lemma_be_bytes_len(v: nat, n: nat)
    ensures
        be_bytes(v, n).len() == n,
    decreases n,
{
    if n > 0 {
        lemma_be_bytes_len(v / 256, (n - 1) as nat);
    }
}

/// The largest number that `n` bytes can hold, plus one.
pub open spec fn be_limit(n: nat) -> nat
    decreases n,
{
    if n == 0 {
        1
    } else {
        256 * be_limit((n - 1) as nat)
    }
}

/// Reading back a number that fits gives the number.
pub proof fn lemma_be_round_trip(v: nat, n: nat)
    requires
        v < be_limit(n),
    ensures
        be_value(be_bytes(v, n)) == v,
    decreases n,
{
    if n > 0 {
        lemma_be_round_trip(v / 256, (n - 1) as nat);
        let head = be_bytes(v / 256, (n - 1) as nat);
        assert(be_bytes(v, n).drop_last() =~= head);
    }
}

/// Writing back what a byte string stands for gives the byte string.
pub proof fn lemma_be_bytes_of_value(s: Seq<u8>)
    ensures
        be_bytes(be_value(s), s.len()) == s,
        be_value(s) < be_limit(s.len()),
    decreases s.len(),
{
    if s.len() > 0 {
        lemma_be_bytes_of_value(s.drop_last());
        let v = be_value(s);
        assert(v / 256 == be_value(s.drop_last()));
        assert(v % 256 == s.last() as nat);
        assert(s =~= s.drop_last().push(s.last()));
    } else {
        assert(be_bytes(0, 0) =~= s);
    }
}

/// Dictionary order of big-endian numbers of one width is their numeric order.
pub proof fn lemma_be_order(a: Seq<u8>, b: Seq<u8>)
    requires
        a.len() == b.len(),
    ensures
        lex_lt(a, b) == (be_value(a) < be_value(b)),
        (a == b) == (be_value(a) == be_value(b)),
    decreases a.len(),
{
    if a.len() > 0 {
        lemma_be_order(a.drop_last(), b.drop_last());
        lemma_lex_last(a.drop_last(), b.drop_last(), a.last(), b.last());
        assert(a =~= a.drop_last().push(a.last()));
        assert(b =~= b.drop_last().push(b.last()));
    } else {
        assert(a =~= b);
    }
}

/// Eight bytes hold exactly the values of `u64`.
pub proof fn lemma_be_limit_u64()
    ensures
        be_limit(8) == 0x1_0000_0000_0000_0000,
{
    reveal_with_fuel(be_limit, 9);
}

/// Four bytes hold exactly the values of `u32`.
pub proof fn lemma_be_limit_u32()
    ensures
        be_limit(4) == 0x1_0000_0000,
{
    reveal_with_fuel(be_limit, 5);
}

/// Appends the `n` low bytes of `v`, most significant first.
pub fn push_be(out: &mut Vec<u8>, v: u64, n: usize)
    requires
        n <= 8,
    ensures
        final(out)@ == old(out)@ + be_bytes(v as nat, n as nat),
    decreases n,
{
    if n > 0 {
        push_be(out, v / 256, n - 1);
        out.push((v % 256) as u8);
        assert(out@ =~= old(out)@ + be_bytes(v as nat, n as nat));
    } else {
        assert(out@ =~= old(out)@ + be_bytes(v as nat, 0));
    }
}

/// Reads the `n` bytes of `s` from `start` as a big-endian number.
pub fn read_be(s: &[u8], start: usize, n: usize) -> (v: u64)
    requires
        n <= 8,
        start + n <= s@.len(),
    ensures
        v == be_value(s@.subrange(start as int, start + n)),
{
    let total: usize = s.len();
    let mut v: u64 = 0;
    let mut i: usize = 0;
    while i < n
        invariant
            i <= n <= 8,
            start + n <= s@.len() == total,
            v == be_value(s@.subrange(start as int, start + i)),
        decreases n - i,
    {
        proof {
            let part = s@.subrange(start as int, start + i);
            lemma_be_bytes_of_value(part);
            reveal_with_fuel(be_limit, 9);
            assert(v < be_limit(i as nat));
            assert(s@.subrange(start as int, start + i + 1).drop_last() =~= part);
        }
        v = v * 256 + s[start + i] as u64;
        i = i + 1;
    }
    v
}

/// Whether two byte slices hold the same bytes.
pub fn bytes_eq(a: &[u8], b: &[u8]) -> (same: bool)
    ensures
        same == (a@ == b@),
{
    if a.len() != b.len() {
        return false;
    }
    let mut i: usize = 0;
    while i < a.len()
        invariant
            i <= a@.len(),
            a@.len() == b@.len(),
            forall|j: int| 0 <= j < i ==> a@[j] == b@[j],
        decreases a@.len() - i,
    {
        if a[i] != b[i] {
            return false;
        }
        i = i + 1;
    }
    assert(a@ =~= b@);
    true
}

/// Whether two entity identifiers are the same.
pub fn id_eq(a: &EntityId, b: &EntityId) -> (same: bool)
    ensures
        same == (a@ == b@),
        same == (*a == *b),
{
    let mut i: usize = 0;
    while i < 16
        invariant
            i <= 16,
            forall|j: int| 0 <= j < i ==> a@[j] == b@[j],
        decreases 16 - i,
    {
        if a[i] != b[i] {
            return false;
        }
        i = i + 1;
    }
    assert(a@ =~= b@);
    assert(*a =~= *b);
    true
}

/// Appends the bytes of `s`.
pub fn push_bytes(out: &mut Vec<u8>, s: &[u8])
    ensures
        final(out)@ == old(out)@ + s@,
{
    let mut i: usize = 0;
    assert(out@ =~= old(out)@ + s@.take(0));
    while i < s.len()
        invariant
            i <= s@.len(),
            out@ == old(out)@ + s@.take(i as int),
        decreases s@.len() - i,
    {
        out.push(s[i]);
        i = i + 1;
        assert(out@ =~= old(out)@ + s@.take(i as int));
    }
    assert(s@.take(s@.len() as int) =~= s@);
}

/// Copies a slice.
pub fn copy_slice<T: Copy>(s: &[T]) -> (out: Vec<T>)
    ensures
        out@ == s@,
{
    let mut out: Vec<T> = Vec::new();
    let mut i: usize = 0;
    while i < s.len()
        invariant
            i <= s@.len(),
            out@ == s@.take(i as int),
        decreases s@.len() - i,
    {
        out.push(s[i]);
        i = i + 1;
        assert(out@ =~= s@.take(i as int));
    }
    assert(s@.take(s@.len() as int) =~= s@);
    out
}

/// Copies the bytes of `s` between two positions.
pub fn copy_range(s: &[u8], from: usize, to: usize) -> (out: Vec<u8>)
    requires
        from <= to <= s@.len(),
    ensures
        out@ == s@.subrange(from as int, to as int),
{
    let mut out: Vec<u8> = Vec::new();
    let mut i: usize = from;
    while i < to
        invariant
            from <= i <= to <= s@.len(),
            out@ == s@.subrange(from as int, i as int),
        decreases to - i,
    {
        out.push(s[i]);
        i = i + 1;
        assert(out@ =~= s@.subrange(from as int, i as int));
    }
    out
}

/// Reads the identifier that stands at `start`.
pub fn read_id(s: &[u8], start: usize) -> (id: EntityId)
    requires
        start + 16 <= s@.len(),
    ensures
        id@ == s@.subrange(start as int, start + 16),
{
    let total: usize = s.len();
    let mut id: EntityId = [0u8; 16];
    let mut i: usize = 0;
    while i < 16
        invariant
            i <= 16,
            start + 16 <= s@.len() == total,
            forall|j: int| 0 <= j < i ==> id@[j] == s@[start + j],
        decreases 16 - i,
    {
        id[i] = s[start + i];
        i = i + 1;
    }
    assert(id@ =~= s@.subrange(start as int, start + 16));
    id
}

} // verus!
