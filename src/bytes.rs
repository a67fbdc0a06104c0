//! Fixed-width big-endian integer fields inside a byte buffer.
use vstd::prelude::*;

verus! {

/// The big-endian 16-bit value stored at `off`.
pub open spec fn be_u16(s: Seq<u8>, off: int) -> int {
    s[off] as int * 256 + s[off + 1] as int
}

/// The big-endian 32-bit value stored at `off`.
pub open spec fn be_u32(s: Seq<u8>, off: int) -> int {
    s[off] as int * 16777216 + s[off + 1] as int * 65536 + s[off + 2] as int * 256 + s[off
        + 3] as int
}

/// `t` equals `s` outside the `n` bytes that start at `off`.
pub open spec fn same_outside(s: Seq<u8>, t: Seq<u8>, off: int, n: int) -> bool {
    &&& t.len() == s.len()
    &&& forall|j: int| 0 <= j < s.len() && !(off <= j < off + n) ==> #[trigger] t[j] == s[j]
}

/// A 32-bit field that a write of `n` bytes at `off` does not touch keeps
/// its value.
pub proof fn lemma_u32_kept(s: Seq<u8>, t: Seq<u8>, off: int, n: int, at: int)
    requires
        same_outside(s, t, off, n),
        0 <= at,
        at + 4 <= s.len(),
        at + 4 <= off || off + n <= at,
    ensures
        be_u32(t, at) == be_u32(s, at),
{
    assert(t[at] == s[at] && t[at + 1] == s[at + 1] && t[at + 2] == s[at + 2] && t[at + 3] == s[at
        + 3]);
}

pub fn read_u16(v: &Vec<u8>, off: usize) -> (r: u16)
    requires
        off + 2 <= v@.len(),
    ensures
        r as int == be_u16(v@, off as int),
{
    // the buffer's length is a usize, so the offsets below cannot overflow
    let len: usize = v.len();
    let a = v[off] as u16;
    let b = v[off + 1] as u16;
    assert(a * 256 + b <= 65535) by (nonlinear_arith)
        requires
            a <= 255,
            b <= 255,
    ;
    a * 256 + b
}

pub fn read_u32(v: &Vec<u8>, off: usize) -> (r: u32)
    requires
        off + 4 <= v@.len(),
    ensures
        r as int == be_u32(v@, off as int),
{
    // the buffer's length is a usize, so the offsets below cannot overflow
    let len: usize = v.len();
    let a = v[off] as u32;
    let b = v[off + 1] as u32;
    let c = v[off + 2] as u32;
    let d = v[off + 3] as u32;
    assert(a * 16777216 + b * 65536 + c * 256 + d <= 0xffff_ffff) by (nonlinear_arith)
        requires
            a <= 255,
            b <= 255,
            c <= 255,
            d <= 255,
    ;
    a * 16777216 + b * 65536 + c * 256 + d
}

pub fn write_u16(v: &mut Vec<u8>, off: usize, x: u16)
    requires
        off + 2 <= old(v)@.len(),
    ensures
        be_u16(final(v)@, off as int) == x as int,
        same_outside(old(v)@, final(v)@, off as int, 2),
{
    // the buffer's length is a usize, so the offsets below cannot overflow
    let len: usize = v.len();
    let o1 = off + 1;
    let hi = (x / 256) as u8;
    let lo = (x % 256) as u8;
    v.set(off, hi);
    v.set(o1, lo);
    assert(hi as int * 256 + lo as int == x as int);
}

pub fn write_u32(v: &mut Vec<u8>, off: usize, x: u32)
    requires
        off + 4 <= old(v)@.len(),
    ensures
        be_u32(final(v)@, off as int) == x as int,
        same_outside(old(v)@, final(v)@, off as int, 4),
{
    // the buffer's length is a usize, so the offsets below cannot overflow
    let len: usize = v.len();
    let o3 = off + 3;
    let a = (x / 16777216) as u8;
    let b = ((x / 65536) % 256) as u8;
    let c = ((x / 256) % 256) as u8;
    let d = (x % 256) as u8;
    v.set(off, a);
    v.set(o3 - 2, b);
    v.set(o3 - 1, c);
    v.set(o3, d);
    assert(a as int * 16777216 + b as int * 65536 + c as int * 256 + d as int == x as int)
        by (nonlinear_arith)
        requires
            a as int == x as int / 16777216,
            b as int == (x as int / 65536) % 256,
            c as int == (x as int / 256) % 256,
            d as int == x as int % 256,
            0 <= x <= 0xffff_ffff,
    ;
}

/// Copies `src` into `file` at `off`.
pub fn write_at(file: &mut Vec<u8>, off: usize, src: &Vec<u8>)
    requires
        off + src@.len() <= old(file)@.len(),
    ensures
        same_outside(old(file)@, final(file)@, off as int, src@.len() as int),
        final(file)@.subrange(off as int, off + src@.len()) == src@,
{
    let n: usize = file.len();
    let ghost orig = file@;
    let mut i: usize = 0;
    while i < src.len()
        invariant
            n == orig.len(),
            i <= src@.len(),
            off + src@.len() <= orig.len(),
            file@.len() == orig.len(),
            forall|j: int|
                0 <= j < orig.len() && !(off <= j < off + i) ==> #[trigger] file@[j] == orig[j],
            forall|j: int| 0 <= j < i ==> #[trigger] file@[off + j] == src@[j],
        decreases src@.len() - i,
    {
        file.set(off + i, src[i]);
        i = i + 1;
    }
    assert forall|j: int| 0 <= j < src@.len() implies #[trigger] file@.subrange(
        off as int,
        off + src@.len(),
    )[j] == src@[j] by {
        assert(file@[off + j] == src@[j]);
    }
    assert(file@.subrange(off as int, off + src@.len()) =~= src@);
}

/// A fresh buffer with the same bytes.
pub fn copy_bytes(v: &[u8]) -> (r: Vec<u8>)
    ensures
        r@ == v@,
{
    let mut r: Vec<u8> = Vec::new();
    let mut i: usize = 0;
    while i < v.len()
        invariant
            i <= v@.len(),
            r@ == v@.subrange(0, i as int),
        decreases v@.len() - i,
    {
        r.push(v[i]);
        i = i + 1;
        assert(r@ =~= v@.subrange(0, i as int));
    }
    assert(r@ =~= v@);
    r
}

/// A fresh buffer holding `v[start..end]`.
pub fn copy_range(v: &Vec<u8>, start: usize, end: usize) -> (r: Vec<u8>)
    requires
        start <= end <= v@.len(),
    ensures
        r@ == v@.subrange(start as int, end as int),
{
    let mut r: Vec<u8> = Vec::new();
    let mut i: usize = start;
    while i < end
        invariant
            start <= i <= end <= v@.len(),
            r@ == v@.subrange(start as int, i as int),
        decreases end - i,
    {
        r.push(v[i]);
        i = i + 1;
        assert(r@ =~= v@.subrange(start as int, i as int));
    }
    r
}

/// `n` zero bytes.
pub fn zeros(n: usize) -> (r: Vec<u8>)
    ensures
        r@ == Seq::new(n as nat, |_j: int| 0u8),
{
    let mut r: Vec<u8> = Vec::new();
    let mut i: usize = 0;
    while i < n
        invariant
            i <= n,
            r@ == Seq::new(i as nat, |_j: int| 0u8),
        decreases n - i,
    {
        r.push(0u8);
        i = i + 1;
        assert(r@ =~= Seq::new(i as nat, |_j: int| 0u8));
    }
    r
}

} // verus!
