//! Byte strings: searching them, and reading integers out of them.
use vstd::prelude::*;

verus! {

/// The order in which the bytes of an integer lie in memory.
#[derive(Debug, Clone, Copy, PartialEq, Eq, Structural)]
pub enum ByteOrder {
    Little,
    Big,
}

/// The number whose bytes are `s`, the least significant one first.
pub open spec fn little_endian(s: Seq<u8>) -> nat
    decreases s.len(),
{
    if s.len() == 0 {
        0
    } else {
        s[0] as nat + 256 * little_endian(s.drop_first())
    }
}

/// The number whose bytes are `s`, the most significant one first.
pub open spec fn big_endian(s: Seq<u8>) -> nat
    decreases s.len(),
{
    if s.len() == 0 {
        0
    } else {
        256 * big_endian(s.drop_last()) + s.last() as nat
    }
}

/// The number that the `width` bytes of `s` starting at `at` stand for.
pub open spec fn uint_at(s: Seq<u8>, at: int, width: int, order: ByteOrder) -> nat {
    match order {
        ByteOrder::Little => little_endian(s.subrange(at, at + width)),
        ByteOrder::Big => big_endian(s.subrange(at, at + width)),
    }
}

/// Where `b` first occurs in `s`, or the length of `s` if it does not.
pub open spec fn first_position(s: Seq<u8>, b: u8) -> int {
    match s.index_of_first(b) {
        Some(i) => i,
        None => s.len() as int,
    }
}

/// The part of `s` that stands before the first `b`.
pub open spec fn before(s: Seq<u8>, b: u8) -> Seq<u8> {
    s.take(first_position(s, b))
}

pub proof fn lemma_first_position(s: Seq<u8>, b: u8)
    ensures
        0 <= first_position(s, b) <= s.len(),
        forall|j: int| 0 <= j < first_position(s, b) ==> s[j] != b,
        first_position(s, b) < s.len() ==> s[first_position(s, b)] == b,
        s.contains(b) <==> first_position(s, b) < s.len(),
{
    s.index_of_first_ensures(b);
    if s.contains(b) {
        assert(s.index_of_first(b) is Some);
    }
}

pub proof fn lemma_first_position_is(s: Seq<u8>, b: u8, k: int)
    requires
        0 <= k <= s.len(),
        forall|j: int| 0 <= j < k ==> s[j] != b,
        k < s.len() ==> s[k] == b,
    ensures
        first_position(s, b) == k,
{
    lemma_first_position(s, b);
    let p = first_position(s, b);
    if p < k {
        assert(s[p] != b);
    }
    if k < p {
        assert(s[k] != b);
    }
}

/// Where `b` first occurs in `buf`, or the length of `buf` if it does not.
pub fn find_byte(buf: &[u8], b: u8) -> (at: usize)
    ensures
        at == first_position(buf@, b),
        at <= buf@.len(),
{
    let mut i: usize = 0;
    while i < buf.len()
        invariant
            i <= buf@.len(),
            forall|j: int| 0 <= j < i ==> buf@[j] != b,
        ensures
            i <= buf@.len(),
            forall|j: int| 0 <= j < i ==> buf@[j] != b,
            i < buf@.len() ==> buf@[i as int] == b,
        decreases buf@.len() - i,
    {
        if buf[i] == b {
            break;
        }
        i = i + 1;
    }
    proof {
        lemma_first_position_is(buf@, b, i as int);
    }
    i
}

/// Whether two byte strings are the same.
pub fn same_bytes(a: &[u8], b: &[u8]) -> (same: bool)
    ensures
        same == (a@ == b@),
{
    if a.len() != b.len() {
        return false;
    }
    let mut i: usize = 0;
    while i < a.len()
        invariant
            a@.len() == b@.len(),
            i <= a@.len(),
            forall|j: int| 0 <= j < i ==> a@[j] == b@[j],
        decreases a@.len() - i,
    {
        if a[i] != b[i] {
            assert(a@[i as int] != b@[i as int]);
            return false;
        }
        i = i + 1;
    }
    assert(a@ =~= b@);
    true
}

/// A copy of `s`.
pub fn copy_bytes(s: &[u8]) -> (out: Vec<u8>)
    ensures
        out@ == s@,
{
    let mut out: Vec<u8> = Vec::with_capacity(s.len());
    out.extend_from_slice(s);
    assert(out@ =~= s@);
    out
}

spec fn pow256(n: nat) -> nat
    decreases n,
{
    if n == 0 {
        1
    } else {
        256 * pow256((n - 1) as nat)
    }
}

proof fn lemma_endian_bounds(s: Seq<u8>)
    ensures
        little_endian(s) < pow256(s.len()),
        big_endian(s) < pow256(s.len()),
    decreases s.len(),
{
    if s.len() > 0 {
        lemma_endian_bounds(s.drop_first());
        lemma_endian_bounds(s.drop_last());
    }
}

/// Reads the unsigned integer that fills the `width` bytes of `buf` at `at`.
pub fn read_uint(buf: &[u8], at: usize, width: usize, order: ByteOrder) -> (value: u64)
    requires
        width <= 8,
        at + width <= buf@.len(),
    ensures
        value == uint_at(buf@, at as int, width as int, order),
        width == 2 ==> value <= u16::MAX,
        width == 4 ==> value <= u32::MAX,
{
    let len: usize = buf.len();
    let ghost field = buf@.subrange(at as int, at + width);
    let mut value: u64 = 0;
    let mut done: usize = 0;
    assert(pow256(8) == 0x1_0000_0000_0000_0000) by {
        reveal_with_fuel(pow256, 9);
    }
    assert(pow256(4) == 0x1_0000_0000 && pow256(2) == 0x1_0000) by {
        reveal_with_fuel(pow256, 9);
    }
    match order {
        ByteOrder::Little => {
            assert(field.skip(width as int) =~= Seq::<u8>::empty());
            while done < width
                invariant
                    done <= width <= 8,
                    at + width <= len,
                    len == buf@.len(),
                    field == buf@.subrange(at as int, at + width),
                    value == little_endian(field.skip(width - done)),
                    pow256(8) == 0x1_0000_0000_0000_0000,
                decreases width - done,
            {
                let ghost tail = field.skip(width - done - 1);
                proof {
                    assert(tail.drop_first() =~= field.skip(width - done));
                    assert(tail[0] == buf@[at + (width - done - 1)]);
                    lemma_endian_bounds(tail);
                    lemma_pow256_grows(tail.len(), 8);
                }
                value = buf[at + (width - done - 1)] as u64 + 256 * value;
                done = done + 1;
            }
            assert(field.skip(0) =~= field);
        },
        ByteOrder::Big => {
            assert(field.take(0) =~= Seq::<u8>::empty());
            while done < width
                invariant
                    done <= width <= 8,
                    at + width <= len,
                    len == buf@.len(),
                    field == buf@.subrange(at as int, at + width),
                    value == big_endian(field.take(done as int)),
                    pow256(8) == 0x1_0000_0000_0000_0000,
                decreases width - done,
            {
                let ghost head = field.take(done + 1);
                proof {
                    assert(head.drop_last() =~= field.take(done as int));
                    assert(head.last() == buf@[at + done]);
                    lemma_endian_bounds(head);
                    lemma_pow256_grows(head.len(), 8);
                }
                value = 256 * value + buf[at + done] as u64;
                done = done + 1;
            }
            assert(field.take(width as int) =~= field);
        },
    }
    proof {
        lemma_endian_bounds(field);
    }
    value
}

proof fn lemma_pow256_grows(a: nat, b: nat)
    requires
        a <= b,
    ensures
        pow256(a) <= pow256(b),
    decreases b,
{
    if a < b {
        lemma_pow256_grows(a, (b - 1) as nat);
    }
}

/// A byte is found where it first occurs: it stands there, and nowhere before. A
/// byte that does not occur is found behind the end.
pub proof fn law_bytes_are_found(buf: &[u8], b: u8, at: usize)
    requires
        call_ensures(find_byte, (buf, b), at),
    ensures
        at <= buf@.len(),
        at < buf@.len() ==> buf@[at as int] == b,
        forall|j: int| 0 <= j < at ==> buf@[j] != b,
{
    lemma_first_position(buf@, b);
}

/// The bytes of an integer are weighed by their place: the first is worth one in
/// the little byte order, and the last is in the big one.
pub proof fn law_integers_are_read(
    buf: &[u8],
    at: usize,
    width: usize,
    order: ByteOrder,
    value: u64,
)
    requires
        call_ensures(read_uint, (buf, at, width, order), value),
        at + width <= buf@.len(),
    ensures
        width == 2 ==> value == (match order {
            ByteOrder::Little => buf@[at as int] + 0x100 * buf@[at + 1],
            ByteOrder::Big => 0x100 * buf@[at as int] + buf@[at + 1],
        }),
        width == 4 ==> value == (match order {
            ByteOrder::Little => buf@[at as int] + 0x100 * buf@[at + 1] + 0x1_0000 * buf@[at + 2]
                + 0x100_0000 * buf@[at + 3],
            ByteOrder::Big => 0x100_0000 * buf@[at as int] + 0x1_0000 * buf@[at + 1] + 0x100
                * buf@[at + 2] + buf@[at + 3],
        }),
        width == 8 ==> value == (match order {
            ByteOrder::Little => buf@[at as int] + 0x100 * buf@[at + 1] + 0x1_0000 * buf@[at + 2]
                + 0x100_0000 * buf@[at + 3] + 0x1_0000_0000 * buf@[at + 4] + 0x100_0000_0000
                * buf@[at + 5] + 0x1_0000_0000_0000 * buf@[at + 6] + 0x100_0000_0000_0000
                * buf@[at + 7],
            ByteOrder::Big => 0x100_0000_0000_0000 * buf@[at as int] + 0x1_0000_0000_0000
                * buf@[at + 1] + 0x100_0000_0000 * buf@[at + 2] + 0x1_0000_0000 * buf@[at + 3]
                + 0x100_0000 * buf@[at + 4] + 0x1_0000 * buf@[at + 5] + 0x100 * buf@[at + 6]
                + buf@[at + 7],
        }),
{
    let field = buf@.subrange(at as int, at + width);
    assert forall|i: int| 0 <= i < width implies field[i] == buf@[at + i] by {}
    lemma_uint_bytes(field);
}

/// What the bytes of an integer of two, four or eight bytes come to.
pub(crate) proof fn lemma_uint_bytes(s: Seq<u8>)
    ensures
        s.len() == 2 ==> {
            &&& little_endian(s) == s[0] + 0x100 * s[1]
            &&& big_endian(s) == 0x100 * s[0] + s[1]
        },
        s.len() == 4 ==> {
            &&& little_endian(s) == s[0] + 0x100 * s[1] + 0x1_0000 * s[2] + 0x100_0000 * s[3]
            &&& big_endian(s) == 0x100_0000 * s[0] + 0x1_0000 * s[1] + 0x100 * s[2] + s[3]
        },
        s.len() == 8 ==> {
            &&& little_endian(s) == s[0] + 0x100 * s[1] + 0x1_0000 * s[2] + 0x100_0000 * s[3]
                + 0x1_0000_0000 * s[4] + 0x100_0000_0000 * s[5] + 0x1_0000_0000_0000 * s[6]
                + 0x100_0000_0000_0000 * s[7]
            &&& big_endian(s) == 0x100_0000_0000_0000 * s[0] + 0x1_0000_0000_0000 * s[1]
                + 0x100_0000_0000 * s[2] + 0x1_0000_0000 * s[3] + 0x100_0000 * s[4] + 0x1_0000
                * s[5] + 0x100 * s[6] + s[7]
        },
{
    reveal_with_fuel(little_endian, 9);
    reveal_with_fuel(big_endian, 9);
}

} // verus!
