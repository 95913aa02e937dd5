//! Name handling: splitting a name at its dots, the padded upper-case 8.3
//! form, the `~1` short form of a long name, and 13-byte long-name chunks.
use vstd::prelude::*;

use crate::layout::{ascii_upper, LONG_NAME_LEN};

verus! {

/// Index of the first `c` in `s`, or its length.
pub open spec fn first_index(s: Seq<u8>, c: u8) -> int
    decreases s.len(),
{
    if s.len() == 0 {
        0
    } else if s[0] == c {
        0
    } else {
        1 + first_index(s.drop_first(), c)
    }
}

/// The part of a name before its first dot.
pub open spec fn base_part(s: Seq<u8>) -> Seq<u8> {
    s.take(first_index(s, 0x2E))
}

/// The part of a name between its first and second dot (or the end).
pub open spec fn ext_part(s: Seq<u8>) -> Seq<u8> {
    let d = first_index(s, 0x2E);
    if d < s.len() {
        base_part(s.skip(d + 1))
    } else {
        Seq::empty()
    }
}

/// `s` upper-cased, cut or padded with spaces to `n` bytes.
pub open spec fn pad_upper(s: Seq<u8>, n: int) -> Seq<u8> {
    Seq::new(n as nat, |i: int| if i < s.len() { ascii_upper(s[i]) } else { 0x20u8 })
}

/// The 8.3 fields of a short name: `.` and `..` as they are, else the base
/// and extension, upper-cased and padded.
pub open spec fn short_fields(s: Seq<u8>) -> (Seq<u8>, Seq<u8>) {
    if s == seq![0x2Eu8] || s == seq![0x2Eu8, 0x2Eu8] {
        (pad_upper(s, 8), pad_upper(Seq::empty(), 3))
    } else {
        (pad_upper(base_part(s), 8), pad_upper(ext_part(s), 3))
    }
}

/// The 11 bytes of the short name made for a long name: up to six
/// characters of the base, `~1`, spaces up to eight, then the extension's
/// first three characters; all upper case.
pub open spec fn generated_short(s: Seq<u8>) -> Seq<u8> {
    let b = base_part(s);
    let head = if b.len() < 6 { b } else { b.take(6) };
    pad_upper(head + seq![0x7Eu8, 0x31u8], 8) + pad_upper(ext_part(s), 3)
}

/// Number of 13-byte chunks of a name of `n` bytes.
pub open spec fn chunk_count(n: int) -> int {
    (n + 12) / 13
}

/// Chunk `i` of `s`, 13 bytes or what is left.
pub open spec fn chunk(s: Seq<u8>, i: int) -> Seq<u8> {
    s.subrange(13 * i, if 13 * i + 13 < s.len() { 13 * i + 13 } else { s.len() as int })
}

proof fn lemma_first_index(s: Seq<u8>, c: u8, i: int)
    requires
        0 <= i <= s.len(),
        forall|j: int| 0 <= j < i ==> s[j] != c,
        i == s.len() || s[i] == c,
    ensures
        first_index(s, c) == i,
    decreases s.len(),
{
    if s.len() > 0 && i > 0 {
        lemma_first_index(s.drop_first(), c, i - 1);
    }
}

/// The index found lies within the sequence.
pub proof fn lemma_first_index_bounds(s: Seq<u8>, c: u8)
    ensures
        0 <= first_index(s, c) <= s.len(),
    decreases s.len(),
{
    if s.len() > 0 && s[0] != c {
        lemma_first_index_bounds(s.drop_first(), c);
    }
}

/// Index of the first `c` in `s`, or its length.
pub fn first_index_of(s: &[u8], c: u8) -> (r: usize)
    ensures
        r == first_index(s@, c),
        r <= s@.len(),
{
    let mut i: usize = 0;
    while i < s.len() && s[i] != c
        invariant
            i <= s@.len(),
            forall|j: int| 0 <= j < i ==> s@[j] != c,
        decreases s@.len() - i,
    {
        i += 1;
    }
    proof {
        lemma_first_index(s@, c, i as int);
    }
    i
}

/// Splits a name into the part before its first dot and the part between
/// its first and second dot.
pub fn split_name_ext(name: &[u8]) -> (r: (Vec<u8>, Vec<u8>))
    ensures
        r.0@ == base_part(name@),
        r.1@ == ext_part(name@),
{
    let d = first_index_of(name, 0x2E);
    let base = vstd::slice::slice_subrange(name, 0, d);
    let base_v = vstd::slice::slice_to_vec(base);
    if d < name.len() {
        let rest = vstd::slice::slice_subrange(name, d + 1, name.len());
        let e = first_index_of(rest, 0x2E);
        let ext = vstd::slice::slice_subrange(rest, 0, e);
        assert(rest@ =~= name@.skip(d + 1));
        (base_v, vstd::slice::slice_to_vec(ext))
    } else {
        (base_v, Vec::new())
    }
}

/// `s` upper-cased, cut or padded with spaces to `n` bytes.
fn pad_upper_exec(s: &[u8], n: usize) -> (r: Vec<u8>)
    ensures
        r@ == pad_upper(s@, n as int),
{
    let mut r: Vec<u8> = Vec::new();
    let mut i: usize = 0;
    while i < n
        invariant
            i <= n,
            r@ == pad_upper(s@, n as int).take(i as int),
        decreases n - i,
    {
        let b: u8 = if i < s.len() {
            let c = s[i];
            if 0x61 <= c && c <= 0x7A {
                c - 32
            } else {
                c
            }
        } else {
            0x20
        };
        r.push(b);
        assert(r@ =~= pad_upper(s@, n as int).take(i + 1));
        i += 1;
    }
    assert(r@ =~= pad_upper(s@, n as int));
    r
}

/// The 8.3 fields stored in a short entry for `name`.
pub fn short_name_format(name: &[u8]) -> (r: ([u8; 8], [u8; 3]))
    ensures
        r.0@ == short_fields(name@).0,
        r.1@ == short_fields(name@).1,
{
    let is_dot = name.len() == 1 && name[0] == 0x2E;
    let is_dotdot = name.len() == 2 && name[0] == 0x2E && name[1] == 0x2E;
    proof {
        if name@ == seq![0x2Eu8] {
            assert(is_dot);
        }
        if name@ == seq![0x2Eu8, 0x2Eu8] {
            assert(is_dotdot);
        }
        if is_dot {
            assert(name@ =~= seq![0x2Eu8]);
        }
        if is_dotdot {
            assert(name@ =~= seq![0x2Eu8, 0x2Eu8]);
        }
    }
    let (f, e) = if is_dot || is_dotdot {
        let empty: Vec<u8> = Vec::new();
        (pad_upper_exec(name, 8), pad_upper_exec(empty.as_slice(), 3))
    } else {
        let (base, ext) = split_name_ext(name);
        (pad_upper_exec(base.as_slice(), 8), pad_upper_exec(ext.as_slice(), 3))
    };
    let f_name: [u8; 8] = crate::utils::clone_into_array(f.as_slice());
    let f_ext: [u8; 3] = crate::utils::clone_into_array(e.as_slice());
    (f_name, f_ext)
}

/// The 11-byte short name made for a long name (collisions are not
/// looked for: the suffix is always `~1`).
pub fn generate_short_name(long_name: &[u8]) -> (r: Vec<u8>)
    ensures
        r@ == generated_short(long_name@),
        r@.len() == 11,
{
    let (base, ext) = split_name_ext(long_name);
    let n = if base.len() < 6 {
        base.len()
    } else {
        6
    };
    let mut head: Vec<u8> = vstd::slice::slice_to_vec(vstd::slice::slice_subrange(base.as_slice(), 0, n));
    head.push(0x7E);
    head.push(0x31);
    let mut r = pad_upper_exec(head.as_slice(), 8);
    let e = pad_upper_exec(ext.as_slice(), 3);
    let mut k: usize = 0;
    let ghost start = r@;
    while k < 3
        invariant
            k <= 3,
            e@.len() == 3,
            r@ == start + e@.take(k as int),
        decreases 3 - k,
    {
        r.push(e[k]);
        assert(e@.take(k + 1) =~= e@.take(k as int).push(e@[k as int]));
        k += 1;
    }
    proof {
        let b = base_part(long_name@);
        let hd = if b.len() < 6 { b } else { b.take(6) };
        assert(head@ =~= hd + seq![0x7Eu8, 0x31u8]);
        assert(e@.take(3) =~= e@);
    }
    r
}

/// Splits a name into chunks of 13 bytes for its long-name slots; with
/// `end0`, a last chunk shorter than 13 gets a terminating zero.
pub fn long_name_split(name: &[u8], end0: bool) -> (r: Vec<Vec<u8>>)
    ensures
        r@.len() == chunk_count(name@.len() as int),
        forall|i: int|
            0 <= i < r@.len() ==> #[trigger] r@[i]@ == if end0 && i == r@.len() - 1 && chunk(
                name@,
                i,
            ).len() < LONG_NAME_LEN {
                chunk(name@, i).push(0)
            } else {
                chunk(name@, i)
            },
{
    let mut r: Vec<Vec<u8>> = Vec::new();
    let mut start: usize = 0;
    let ghost n = name@.len() as int;
    while start < name.len()
        invariant
            start <= name@.len(),
            start == if 13 * r@.len() < n { 13 * r@.len() as int } else { n },
            n == name@.len(),
            r@.len() <= chunk_count(n),
            start < n ==> r@.len() < chunk_count(n),
            start >= n ==> r@.len() == chunk_count(n),
            forall|i: int| 0 <= i < r@.len() ==> #[trigger] r@[i]@ == chunk(name@, i),
        decreases name@.len() - start,
    {
        let end = if name.len() - start > LONG_NAME_LEN {
            start + LONG_NAME_LEN
        } else {
            name.len()
        };
        let piece = vstd::slice::slice_to_vec(vstd::slice::slice_subrange(name, start, end));
        let ghost i = r@.len() as int;
        assert(piece@ == chunk(name@, i));
        r.push(piece);
        proof {
            assert(chunk_count(n) == (n + 12) / 13);
            assert((13 * (i + 1) < n) ==> i + 1 < (n + 12) / 13) by (nonlinear_arith)
                requires 13 * i < n;
            assert((13 * (i + 1) >= n) ==> i + 1 == (n + 12) / 13) by (nonlinear_arith)
                requires 13 * i < n;
        }
        start = end;

    }
    if end0 && r.len() > 0 {
        let last = r.len() - 1;
        if r[last].len() < LONG_NAME_LEN {
            let mut piece = r.pop().unwrap();
            piece.push(0);
            r.push(piece);
        }
    }
    r
}

} // verus!
